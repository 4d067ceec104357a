//! Conversions between the flags of the file system interface and those of the
//! FAT32 implementation.
use vstd::prelude::*;
use super::vfs::OpenMode;
use super::fat32::file::{READ, WRITE, CREATE, DIR, NO_FOLLOW, TRUNCATE};

verus! {

/// Whether `m` has the flag whose bits are `f`.
pub open spec fn has_bits(m: OpenMode, f: u64) -> bool {
    m.bits & f == f
}

/// The access mode of the FAT32 files for the open flags `m`: a request of the
/// kernel (`SYS`) reads, writes and follows no link; the other flags carry over
/// one for one.
pub open spec fn fat32_mode(m: OpenMode) -> int {
    (if has_bits(m, 1) || has_bits(m, 64) { READ } else { 0usize })
        + (if has_bits(m, 2) || has_bits(m, 64) { WRITE } else { 0usize })
        + (if has_bits(m, 4) { CREATE } else { 0usize })
        + (if has_bits(m, 8) { DIR } else { 0usize })
        + (if has_bits(m, 16) || has_bits(m, 64) { NO_FOLLOW } else { 0usize })
        + (if has_bits(m, 32) { TRUNCATE } else { 0usize })
}

/// Setting a bit above all the set bits of `x` adds it.
proof fn lemma_or_high_bit(x: usize)
    by (bit_vector)
    ensures
        x < 1 ==> x | 1 == x + 1,
        x < 2 ==> x | 2 == x + 2,
        x < 4 ==> x | 4 == x + 4,
        x < 8 ==> x | 8 == x + 8,
        x < 16 ==> x | 16 == x + 16,
        x < 32 ==> x | 32 == x + 32,
{
}

/// A sum of distinct flag bits, each present or not, has each of them set
/// exactly when it is present.
proof fn lemma_flag_sum(a: usize, b: usize, c: usize, d: usize, e: usize, g: usize)
    by (bit_vector)
    requires
        a == 0 || a == 1,
        b == 0 || b == 2,
        c == 0 || c == 4,
        d == 0 || d == 8,
        e == 0 || e == 16,
        g == 0 || g == 32,
    ensures
        ((a + b + c + d + e + g) as usize) & 1 == a,
        ((a + b + c + d + e + g) as usize) & 2 == b,
        ((a + b + c + d + e + g) as usize) & 4 == c,
        ((a + b + c + d + e + g) as usize) & 8 == d,
        ((a + b + c + d + e + g) as usize) & 16 == e,
        ((a + b + c + d + e + g) as usize) & 32 == g,
{
}

/// The FAT32 mode keeps the open flags: it has the read, write and no-follow
/// bits exactly when the open flags have them or are the kernel's (`SYS`), and
/// the create, directory and truncate bits exactly when the open flags have
/// them; it has no other bit.
pub proof fn lemma_fat32_mode_bits(m: OpenMode)
    ensures
        0 <= fat32_mode(m) < 64,
        ((fat32_mode(m) as usize) & READ == READ) == (has_bits(m, 1) || has_bits(m, 64)),
        ((fat32_mode(m) as usize) & WRITE == WRITE) == (has_bits(m, 2) || has_bits(m, 64)),
        ((fat32_mode(m) as usize) & CREATE == CREATE) == has_bits(m, 4),
        ((fat32_mode(m) as usize) & DIR == DIR) == has_bits(m, 8),
        ((fat32_mode(m) as usize) & NO_FOLLOW == NO_FOLLOW) == (has_bits(m, 16) || has_bits(m, 64)),
        ((fat32_mode(m) as usize) & TRUNCATE == TRUNCATE) == has_bits(m, 32),
{
    let a: usize = if has_bits(m, 1) || has_bits(m, 64) { 1 } else { 0 };
    let b: usize = if has_bits(m, 2) || has_bits(m, 64) { 2 } else { 0 };
    let c: usize = if has_bits(m, 4) { 4 } else { 0 };
    let d: usize = if has_bits(m, 8) { 8 } else { 0 };
    let e: usize = if has_bits(m, 16) || has_bits(m, 64) { 16 } else { 0 };
    let g: usize = if has_bits(m, 32) { 32 } else { 0 };
    assert(fat32_mode(m) == a + b + c + d + e + g);
    lemma_flag_sum(a, b, c, d, e, g);
}

/// The FAT32 access mode for the open flags `mode`.
#[allow(non_snake_case)]
pub fn OpenMode2usize(mode: OpenMode) -> (r: usize)
    ensures
        r == fat32_mode(mode),
{
    let mut result: usize = 0;
    if mode.contains(OpenMode::READ()) || mode.contains(OpenMode::SYS()) {
        proof { lemma_or_high_bit(result); }
        result |= READ;
    }
    assert(result == (if has_bits(mode, 1) || has_bits(mode, 64) { READ } else { 0usize }));
    let ghost r1 = result;
    if mode.contains(OpenMode::WRITE()) || mode.contains(OpenMode::SYS()) {
        proof { lemma_or_high_bit(result); }
        result |= WRITE;
    }
    let ghost r2 = result;
    assert(r2 == r1 + (if has_bits(mode, 2) || has_bits(mode, 64) { WRITE } else { 0usize }));
    if mode.contains(OpenMode::CREATE()) {
        proof { lemma_or_high_bit(result); }
        result |= CREATE;
    }
    let ghost r3 = result;
    assert(r3 == r2 + (if has_bits(mode, 4) { CREATE } else { 0usize }));
    if mode.contains(OpenMode::DIR()) {
        proof { lemma_or_high_bit(result); }
        result |= DIR;
    }
    let ghost r4 = result;
    assert(r4 == r3 + (if has_bits(mode, 8) { DIR } else { 0usize }));
    if mode.contains(OpenMode::NO_FOLLOW()) || mode.contains(OpenMode::SYS()) {
        proof { lemma_or_high_bit(result); }
        result |= NO_FOLLOW;
    }
    let ghost r5 = result;
    assert(r5 == r4 + (if has_bits(mode, 16) || has_bits(mode, 64) { NO_FOLLOW } else { 0usize }));
    if mode.contains(OpenMode::TRUNCATE()) {
        proof { lemma_or_high_bit(result); }
        result |= TRUNCATE;
    }
    return result;
}

} // verus!
