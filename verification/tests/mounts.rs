use oshit::fs::mount_manager::MountManagerInner;
use oshit::fs::pipe::Pipe;
use oshit::memory::UserBuffer;

fn names(p: &oshit::fs::Path) -> Vec<&str> {
    p.path.iter().map(|s| s.as_str()).collect()
}

fn manager() -> MountManagerInner {
    let mut m = MountManagerInner::new();
    assert_eq!(m.mount_fs("/", 1), Ok(()));
    assert_eq!(m.mount_fs("/dev", 2), Ok(()));
    assert_eq!(m.mount_fs("/foo/bar", 3), Ok(()));
    m
}

#[test]
fn parse_finds_deepest_mount() {
    let m = manager();
    let (fs, rest) = m.parse("/etc/passwd").unwrap();
    assert_eq!(fs, 1);
    assert_eq!(names(&rest), vec!["etc", "passwd"]);
    assert!(rest.is_abs);
    let (fs, rest) = m.parse("/dev/sda").unwrap();
    assert_eq!(fs, 2);
    assert_eq!(names(&rest), vec!["sda"]);
    let (fs, rest) = m.parse("/foo/bar/x/").unwrap();
    assert_eq!(fs, 3);
    assert_eq!(names(&rest), vec!["x"]);
    assert!(rest.must_dir);
    let (fs, rest) = m.parse("/dev").unwrap();
    assert_eq!(fs, 2);
    assert!(rest.path.is_empty());
}

#[test]
fn parse_below_directory_without_mount() {
    let m = manager();
    assert_eq!(m.parse("/foo/baz").err(), Some("parse: fs not found"));
    assert_eq!(m.parse("relative").err(), Some("parse: absolute path required"));
    assert_eq!(MountManagerInner::new().parse("/a").err(), Some("parse: fs not found"));
}

#[test]
fn mount_errors() {
    let mut m = manager();
    assert_eq!(m.mount_fs("rel/path", 5), Err("mount_fs: absolute path required"));
    assert_eq!(m.mount_fs("/a//b", 5), Err("File name is empty"));
    assert_eq!(m.mount_fs("/dev", 4), Ok(()));
    assert_eq!(m.parse("/dev/x").unwrap().0, 2);
}

#[test]
fn mounted_at_paths() {
    let m = manager();
    assert_eq!(m.mounted_at(3), Ok("/foo/bar/".to_string()));
    assert_eq!(m.mounted_at(2), Ok("/dev/".to_string()));
    assert_eq!(m.mounted_at(1), Ok("/".to_string()));
    assert_eq!(m.mounted_at(9), Err("mounted_at: VFS not found"));
}

#[test]
fn unmount_prunes_directories() {
    let mut m = manager();
    assert_eq!(m.unmount_fs("/foo/bar"), Ok(()));
    let (fs, rest) = m.parse("/foo/bar/x").unwrap();
    assert_eq!(fs, 1);
    assert_eq!(names(&rest), vec!["foo", "bar", "x"]);
    assert_eq!(m.unmount_fs("/nothing"), Err("unmount_fs: path not mounted"));
    assert_eq!(m.unmount_fs("/foo/bar"), Err("unmount_fs: path not mounted"));
    assert_eq!(m.mounted_at(3), Err("mounted_at: VFS not found"));
}

#[test]
fn mount_then_unmount_then_mount_again() {
    let mut m = MountManagerInner::new();
    assert_eq!(m.mount_fs("/mnt/usb", 7), Ok(()));
    assert_eq!(m.parse("/mnt/usb/a").unwrap().0, 7);
    assert_eq!(m.unmount_fs("/mnt/usb"), Ok(()));
    assert!(m.parse("/mnt/usb/a").is_err());
    assert_eq!(m.mount_fs("/mnt/usb", 8), Ok(()));
    assert_eq!(m.parse("/mnt/usb/a").unwrap().0, 8);
}

#[test]
fn pipe_is_first_in_first_out() {
    let mut p = Pipe::new();
    assert!(p.empty());
    assert_eq!(p.write(b"hello "), Ok(6));
    assert_eq!(p.write(b"world"), Ok(5));
    let mut buf = [0u8; 8];
    assert_eq!(p.read(&mut buf), Ok(8));
    assert_eq!(&buf, b"hello wo");
    let mut buf = [0u8; 8];
    assert_eq!(p.read(&mut buf), Ok(3));
    assert_eq!(&buf[..3], b"rld");
    assert!(p.empty());
}

#[test]
fn pipe_capacity_limits_writes() {
    let mut p = Pipe::new();
    let big = vec![7u8; 5000];
    assert_eq!(p.write(&big), Ok(4096));
    assert_eq!(p.write(b"x"), Ok(0));
    let mut buf = vec![0u8; 100];
    assert_eq!(p.read(&mut buf), Ok(100));
    assert_eq!(p.write(&big), Ok(100));
}

#[test]
fn pipe_with_user_buffers() {
    let mut p = Pipe::new();
    let src = UserBuffer::new(vec![vec![1, 2], vec![3]]);
    assert_eq!(p.write_user_buffer(&src), Ok(3));
    let mut dst = UserBuffer::new(vec![vec![0], vec![0, 0, 0]]);
    assert_eq!(p.read_user_buffer(&mut dst), Ok(3));
    assert_eq!(dst.clone_bytes(), vec![1, 2, 3, 0]);
}
