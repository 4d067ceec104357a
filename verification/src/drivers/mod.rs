//! The decisions of the device drivers.
pub mod sdcard;
