use oshit::fs::fs_impl::fat32::chain::Chain;
use oshit::fs::fs_impl::fat32::dbr::{b2u16, b2u32, DBR};
use oshit::fs::fs_impl::fat32::dirent::{
    read_dirent_group, write_dirent_group, DirEntryExtRaw, DirEntryGroup, DirEntryRaw, ATTR_FILE, ATTR_SUBDIR,
};
use oshit::fs::fs_impl::fat32::fat::{get_type, CLUSTER};
use oshit::fs::fs_impl::fat32::file::{FileInner, CREATE, DIR, READ, WRITE};
use oshit::fs::fs_impl::fat32::inode::Inode;
use oshit::fs::fs_impl::fat32::{Fat32FS, EOC};
use oshit::fs::{parse_path, FileType, SeekOp};
use oshit::process::ErrNo;

fn dbr(cs: u32, root: u32, clusters: u32) -> DBR {
    DBR {
        vol: 0,
        vol_name: [b' '; 11],
        name: [b' '; 8],
        fat32: *b"FAT32   ",
        version: 0,
        fat_cnt: 1,
        fat_sec: 1,
        fat_len: 512,
        sec_len: 512,
        sec_cnt: 0x0fff_0000,
        rsv_sec: 32,
        data_sec_base: 33,
        clst_sec: cs / 512,
        clst_size: cs,
        clst_cnt: clusters,
        root,
        boot: 6,
    }
}

/// An empty volume of `n` data clusters of 512 bytes; the root directory is
/// cluster 2.
fn volume(n: usize) -> Fat32FS {
    let mut fat = vec![0x0FFF_FFF8u32, 0xFFFF_FFFF, EOC];
    fat.resize(n + 2, 0);
    let data = vec![vec![0u8; 512]; n];
    Fat32FS::new(dbr(512, 2, n as u32), fat, data)
}

#[test]
fn cluster_types() {
    assert_eq!(get_type(0), CLUSTER::Free);
    assert_eq!(get_type(1), CLUSTER::Temp);
    assert_eq!(get_type(5), CLUSTER::Data);
    assert_eq!(get_type(0x0FFF_FFEF), CLUSTER::Data);
    assert_eq!(get_type(0x0FFF_FFF0), CLUSTER::Rsv);
    assert_eq!(get_type(0x0FFF_FFF7), CLUSTER::Bad);
    assert_eq!(get_type(0x0FFF_FFF8), CLUSTER::Eoc);
    assert_eq!(get_type(0xFFFF_FFFF), CLUSTER::Eoc);
    assert_eq!(get_type(0x1000_0000), CLUSTER::Free);
}

#[test]
fn little_endian_fields() {
    assert_eq!(b2u32(&[0x78, 0x56, 0x34, 0x12]), 0x1234_5678);
    assert_eq!(b2u16(&[0x55, 0xAA]), 0xAA55);
}

#[test]
fn short_name_with_extension() {
    let mut e = DirEntryRaw::blank();
    e.set_name("hello.txt");
    assert_eq!(&e.name, b"HELLO   ");
    assert_eq!(&e.ext, b"TXT");
    assert_eq!(e.get_name(), "HELLO.TXT");
}

#[test]
fn short_name_round_trips_in_upper_case() {
    let mut e = DirEntryRaw::blank();
    e.set_name("Readme");
    assert_eq!(e.get_name(), "README");
    e.set_name("a.b");
    assert_eq!(e.get_name(), "A.B");
    e.set_name("x_1-2.C~");
    assert_eq!(e.get_name(), "X_1-2.C~");
}

#[test]
fn short_name_truncated() {
    let mut e = DirEntryRaw::blank();
    e.set_name("longfilename");
    assert_eq!(&e.name, b"LONGFI~1");
    assert_eq!(&e.ext, b"   ");
    assert_eq!(e.get_name(), "LONGFI~1");
    e.set_name("abc.html");
    assert_eq!(&e.name, b"ABC     ");
    assert_eq!(&e.ext, b"HTM");
}

#[test]
fn start_cluster_round_trip() {
    let mut e = DirEntryRaw::blank();
    e.set_start(0x0012_3456);
    assert_eq!(e.start_h, 0x12);
    assert_eq!(e.start_l, 0x3456);
    assert_eq!(e.get_start(), 0x0012_3456);
}

#[test]
fn entry_checksum() {
    let mut e = DirEntryRaw::blank();
    e.set_name("a.b");
    let mut sum: u8 = 0;
    for b in e.name.iter().chain(e.ext.iter()) {
        sum = (if sum & 1 != 0 { 0x80u8 } else { 0 }).wrapping_add(sum >> 1).wrapping_add(*b);
    }
    assert_eq!(e.chksum(), sum);
}

#[test]
fn entry_bytes_round_trip() {
    let mut e = DirEntryRaw::blank();
    e.set_name("kernel.bin");
    e.attr = ATTR_FILE;
    e.set_start(77);
    e.size = 0x0102_0304;
    let b = e.to_bytes();
    assert_eq!(&b[0..8], b"KERNEL  ");
    assert_eq!(&b[8..11], b"BIN");
    assert_eq!(b[11], ATTR_FILE);
    assert_eq!(&b[28..32], &[4, 3, 2, 1]);
    let back = DirEntryRaw::from_bytes(&b);
    assert_eq!(back.to_bytes(), b);
    assert_eq!(back.get_start(), 77);
    assert_eq!(back.size, 0x0102_0304);
}

#[test]
fn long_name_entries() {
    let exts = DirEntryExtRaw::new("notes.md", 0x5A);
    assert_eq!(exts.len(), 1);
    assert!(exts[0].is_end());
    assert_eq!(exts[0].get_index(), 1);
    assert!(exts[0].is_ext());
    assert_eq!(exts[0].chksum, 0x5A);
    assert_eq!(exts[0].get_name(), vec![b'n', 0, b'o', 0, b't', 0, b'e', 0, b's', 0, b'.', 0, b'm', 0, b'd', 0, 0, 0]);
    let two = DirEntryExtRaw::new("a_rather_long_file_name", 0);
    assert_eq!(two.len(), 2);
    assert!(two[0].is_end());
    assert_eq!(two[0].get_index(), 2);
    assert!(!two[1].is_end());
    assert_eq!(two[1].get_index(), 1);
    let b = two[1].to_bytes();
    assert_eq!(DirEntryExtRaw::from_bytes(&b).to_bytes(), b);
}

#[test]
fn long_name_entries_count_down() {
    let exts = DirEntryExtRaw::new("a_name_that_needs_three_entries", 7);
    assert_eq!(exts.len(), 3);
    for (j, e) in exts.iter().enumerate() {
        assert_eq!(e.get_index() as usize, exts.len() - j);
        assert_eq!(e.is_end(), j == 0);
    }
}

#[test]
fn group_name_and_start() {
    let g = DirEntryGroup::new("readme.txt", 9, ATTR_FILE);
    assert_eq!(g.get_name().unwrap(), "readme.txt");
    assert_eq!(g.get_start(), 9);
    assert_eq!(&g.entry.name, b"README  ");
    let mut g = g;
    g.rename("b.c").unwrap();
    assert_eq!(g.get_name().unwrap(), "b.c");
    assert!(!g.is_cur() && !g.is_par());
    assert_eq!(DirEntryGroup::new("a_rather_long_file_name", 4, ATTR_FILE).get_name().unwrap(), "a_rather_long_file_name");
    assert!(DirEntryGroup::new(".", 3, ATTR_SUBDIR).is_cur());
    assert!(DirEntryGroup::new("..", 3, ATTR_SUBDIR).is_par());
}

#[test]
fn chain_text() {
    assert_eq!(Chain::new(vec![]).to_string(-1), "(null)");
    assert_eq!(Chain::new(vec![2, 10, 11]).to_string(-1), "2-10-11-|");
    assert_eq!(Chain::new(vec![2, 10, 11]).to_string(2), "2-10-|");
    assert_eq!(Chain::new(vec![2, 10, 11]).to_string(9), "2-10-11-|");
}

#[test]
fn volume_chain_follows_table() {
    let mut fs = volume(8);
    fs.fat[2] = 5;
    fs.fat[5] = 3;
    fs.fat[3] = EOC;
    assert_eq!(fs.get_chain(2), vec![2, 5, 3]);
    assert_eq!(fs.get_chain(4), Vec::<u32>::new());
}

#[test]
fn chain_write_then_read() {
    let mut fs = volume(8);
    let mut c = Chain::new(vec![]);
    let data: Vec<u8> = (0..700u32).map(|i| (i % 251) as u8).collect();
    assert_eq!(c.write(&mut fs, 100, &data), Ok(700));
    assert_eq!(c.chain.len(), 2);
    let mut buf = vec![0xEEu8; 800];
    assert_eq!(c.read(&fs, 0, &mut buf), Ok(800));
    assert!(buf[..100].iter().all(|b| *b == 0));
    assert_eq!(&buf[100..800], &data[..]);
    let mut far = [0u8; 4];
    assert_eq!(c.read(&fs, 1024, &mut far), Err(ErrNo::Fat32InvalidOffset));
}

#[test]
fn alloc_and_free_clusters() {
    let mut fs = volume(4);
    let a = fs.alloc_cluster().unwrap();
    assert_eq!(a, 3);
    assert_eq!(fs.fat[3], EOC);
    let b = fs.append_chain(a).unwrap();
    assert_eq!(fs.fat[3], b);
    assert_eq!(fs.get_chain(a), vec![a, b]);
    fs.clear_chain(a).unwrap();
    assert_eq!(fs.fat[a as usize], 0);
    assert_eq!(fs.fat[b as usize], 0);
}

fn root(fs: &Fat32FS) -> FileInner {
    FileInner::new(Inode::root(fs), 0)
}

#[test]
fn make_write_read_file() {
    let mut fs = volume(64);
    let mut r = root(&fs);
    let d = r.mkdir(&mut fs, parse_path("/docs").unwrap()).unwrap();
    assert!(d.is_dir());
    let f = r.mkfile(&mut fs, parse_path("/docs/a.txt").unwrap()).unwrap();
    assert!(!f.is_dir());
    assert_eq!(f.ftype(), FileType::Regular);
    let mut f = r.open(&mut fs, parse_path("/docs/a.txt").unwrap(), READ | WRITE).unwrap();
    assert_eq!(f.write(&mut fs, b"hello world"), Ok(11));
    assert_eq!(f.get_cursor(), Ok(11));
    assert_eq!(f.size(), 11);
    f.seek(0, SeekOp::SET).unwrap();
    let mut buf = [0u8; 32];
    assert_eq!(f.read(&fs, &mut buf), Ok(11));
    assert_eq!(&buf[..11], b"hello world");
    f.close(&mut fs);
    let mut again = r.open(&mut fs, parse_path("/docs/a.txt").unwrap(), READ).unwrap();
    assert_eq!(again.size(), 11);
    let mut buf = [0u8; 5];
    assert_eq!(again.read(&fs, &mut buf), Ok(5));
    assert_eq!(&buf, b"hello");
    assert_eq!(again.write(&mut fs, b"x"), Err(ErrNo::BadFileDescriptor));
}

#[test]
fn list_and_remove() {
    let mut fs = volume(64);
    let mut r = root(&fs);
    r.mkdir(&mut fs, parse_path("/bin").unwrap()).unwrap();
    r.mkfile(&mut fs, parse_path("/init").unwrap()).unwrap();
    let names: Vec<String> = r.list(&fs).unwrap().iter().map(|f| f.name()).collect();
    assert!(names.contains(&"bin".to_string()));
    assert!(names.contains(&"init".to_string()));
    r.mkfile(&mut fs, parse_path("/bin/sh").unwrap()).unwrap();
    assert_eq!(r.remove(&mut fs, parse_path("/bin").unwrap()), Err(ErrNo::DirectoryNotEmpty));
    assert_eq!(r.remove(&mut fs, parse_path("/bin/sh").unwrap()), Ok(()));
    assert_eq!(
        r.open(&mut fs, parse_path("/bin/sh").unwrap(), READ).err(),
        Some(ErrNo::NoSuchFileOrDirectory)
    );
    assert_eq!(r.remove(&mut fs, parse_path("/bin").unwrap()), Ok(()));
    let names: Vec<String> = r.list(&fs).unwrap().iter().map(|f| f.name()).collect();
    assert!(!names.contains(&"bin".to_string()));
}

#[test]
fn open_errors() {
    let mut fs = volume(64);
    let mut r = root(&fs);
    r.mkdir(&mut fs, parse_path("/etc").unwrap()).unwrap();
    assert_eq!(r.open(&mut fs, parse_path("/nope").unwrap(), READ).err(), Some(ErrNo::NoSuchFileOrDirectory));
    assert_eq!(r.open(&mut fs, parse_path("/etc").unwrap(), READ).err(), Some(ErrNo::IsADirectory));
    assert_eq!(r.open(&mut fs, parse_path("etc").unwrap(), READ | DIR).err(), Some(ErrNo::InvalidArgument));
    assert_eq!(r.mkdir(&mut fs, parse_path("/etc").unwrap()).err(), Some(ErrNo::FileExists));
    let e = r.open(&mut fs, parse_path("/etc").unwrap(), READ | DIR).unwrap();
    assert!(e.is_dir());
    let mut c = r.open(&mut fs, parse_path("/etc/new.conf").unwrap(), READ | WRITE | CREATE).unwrap();
    assert_eq!(c.write(&mut fs, b"k=v"), Ok(3));
    assert_eq!(c.seek(0, SeekOp::END), Ok(()));
    assert_eq!(c.get_cursor(), Ok(3));
    let mut dir = r.open(&mut fs, parse_path("/etc").unwrap(), READ | DIR).unwrap();
    let mut buf = [0u8; 4];
    assert_eq!(dir.read(&fs, &mut buf), Err(ErrNo::IsADirectory));
}

use oshit::fs::fs_impl::fat32::dbr::{parse_fat, RAW_DBR};

fn boot_sector() -> [u8; 512] {
    let mut b = [0u8; 512];
    b[0..3].copy_from_slice(&[0xEB, 0x58, 0x90]);
    b[3..11].copy_from_slice(b"MSWIN4.1");
    b[11..13].copy_from_slice(&512u16.to_le_bytes());
    b[13] = 8;
    b[14..16].copy_from_slice(&32u16.to_le_bytes());
    b[16] = 2;
    b[36..40].copy_from_slice(&1000u32.to_le_bytes());
    b[44..48].copy_from_slice(&2u32.to_le_bytes());
    b[50..52].copy_from_slice(&6u16.to_le_bytes());
    b[71..82].copy_from_slice(b"NO NAME    ");
    b[82..90].copy_from_slice(b"FAT32   ");
    b[510] = 0x55;
    b[511] = 0xAA;
    b
}

#[test]
fn boot_record_from_bytes() {
    let raw = RAW_DBR::from_bytes(&boot_sector());
    assert_eq!(&raw.name, b"MSWIN4.1");
    assert_eq!(raw.clst_len, 8);
    assert_eq!(raw.fat_cnt, 2);
    assert_eq!(raw.sign, [0x55, 0xAA]);
    let d = DBR::from_raw(raw, 0);
    assert_eq!(d.sec_len, 512);
    assert_eq!(d.clst_size, 4096);
    assert_eq!(d.rsv_sec, 32);
    assert_eq!(d.fat_sec, 1000);
    assert_eq!(d.fat_len, 512_000);
    assert_eq!(d.data_sec_base, 32 + 2 * 1000);
    assert_eq!(d.root, 2);
    assert_eq!(d.boot, 6);
    assert_eq!(d.clst_cnt, (0x0fff_0000 - 2032) / 8);
    assert_eq!(&d.fat32, b"FAT32   ");
}

#[test]
fn fat_entries_from_bytes() {
    let bytes = [0xF8, 0xFF, 0xFF, 0x0F, 0xFF, 0xFF, 0xFF, 0xFF, 3, 0, 0, 0, 9];
    assert_eq!(parse_fat(&bytes), vec![0x0FFF_FFF8, 0xFFFF_FFFF, 3]);
}

use oshit::fs::fs_impl::fat32::wrapper::FAT32File;
use oshit::memory::UserBuffer;

#[test]
fn fat32_file_user_buffers_and_status() {
    let mut fs = volume(64);
    let mut r = root(&fs);
    r.mkfile(&mut fs, parse_path("/n.txt").unwrap()).unwrap();
    let inner = r.open(&mut fs, parse_path("/n.txt").unwrap(), READ | WRITE).unwrap();
    let mut f = FAT32File { inner };
    assert!(!f.is_dir_file());
    let src = UserBuffer::new(vec![b"abc".to_vec(), b"defg".to_vec()]);
    assert_eq!(f.write_user_buffer(&mut fs, &src), Ok(7));
    f.inner.seek(1, SeekOp::SET).unwrap();
    let mut dst = UserBuffer::new(vec![vec![9u8; 4], vec![9u8; 4]]);
    assert_eq!(f.read_user_buffer(&fs, &mut dst), Ok(6));
    assert_eq!(dst.clone_bytes(), b"bcdefg\0\0".to_vec());
    let st = f.poll();
    assert!(st.readable && st.writeable);
    assert_eq!(st.size, 7);
    assert_eq!(st.name, "n.txt");
    assert_eq!(st.ftype, FileType::Regular);
    assert_eq!((st.block_sz, st.blocks), (512, 0));
    assert_eq!(st.mode, (READ | WRITE) as u32);
    assert_eq!(st.ctime_sec, st.mtime_sec);
}

#[test]
fn fat32_file_read_errors_zero_the_buffer() {
    let mut fs = volume(64);
    let r = root(&fs);
    let mut d = FAT32File { inner: r };
    assert!(d.is_dir_file());
    let mut dst = UserBuffer::new(vec![vec![9u8; 3]]);
    assert_eq!(d.read_user_buffer(&fs, &mut dst), Err(ErrNo::IsADirectory));
    assert_eq!(dst.clone_bytes(), vec![0u8; 3]);
    let _ = &mut fs;
}

#[test]
fn mkfile_looks_for_the_name_only_under_a_longer_path() {
    let mut fs = volume(64);
    let mut r = root(&fs);
    assert!(r.mkfile(&mut fs, parse_path("/once.txt").unwrap()).is_ok());
    assert!(r.mkfile(&mut fs, parse_path("/once.txt").unwrap()).is_ok());
    r.mkdir(&mut fs, parse_path("/d").unwrap()).unwrap();
    r.mkfile(&mut fs, parse_path("/d/x").unwrap()).unwrap();
    assert_eq!(r.mkfile(&mut fs, parse_path("/d/x").unwrap()).err(), Some(ErrNo::FileExists));
}

#[test]
fn realize_dotdot_gives_the_parent() {
    let mut fs = volume(64);
    let mut r = root(&fs);
    r.mkdir(&mut fs, parse_path("/a").unwrap()).unwrap();
    r.mkdir(&mut fs, parse_path("/a/b").unwrap()).unwrap();
    r.mkdir(&mut fs, parse_path("/a/b/c").unwrap()).unwrap();
    let c = Inode::root(&fs).find_inode_path(&fs, &parse_path("/a/b/c").unwrap()).unwrap();
    let mut dd = c.find_inode(&fs, "..").unwrap();
    assert!(dd.is_par());
    let up = dd.realize(&fs).unwrap();
    assert_eq!(up.name, "b");
    let mut d = c.find_inode(&fs, ".").unwrap();
    assert!(d.is_cur());
    assert_eq!(d.realize(&fs).unwrap().name, "c");
    let b = Inode::root(&fs).find_inode_path(&fs, &parse_path("/a/b").unwrap()).unwrap();
    assert_eq!(b.find_inode(&fs, "x").err(), Some(ErrNo::NoSuchFileOrDirectory));
    let a = Inode::root(&fs).find_inode_path(&fs, &parse_path("/a").unwrap()).unwrap();
    let mut top = a.find_inode(&fs, "..").unwrap();
    let root_again = top.realize(&fs).unwrap();
    assert_eq!(root_again.name, "");
    assert_eq!(root_again.chain.chain, Inode::root(&fs).chain.chain);
}

#[test]
fn chain_truncate_to_some_and_to_none() {
    let mut fs = volume(8);
    let mut c = Chain::new(vec![]);
    let data = vec![7u8; 1500];
    assert_eq!(c.write(&mut fs, 0, &data), Ok(1500));
    assert_eq!(c.chain.len(), 3);
    let (a, b, d) = (c.chain[0], c.chain[1], c.chain[2]);
    assert_eq!(c.truncate(&mut fs, 2), Ok(()));
    assert_eq!(c.chain, vec![a, b]);
    assert_eq!(fs.fat[b as usize], EOC);
    assert_eq!(fs.fat[d as usize], 0);
    assert_eq!(c.truncate(&mut fs, 5), Ok(()));
    assert_eq!(c.chain, vec![a, b]);
    assert_eq!(c.truncate(&mut fs, 0), Ok(()));
    assert!(c.chain.is_empty());
    assert_eq!(fs.fat[a as usize], 0);
    assert_eq!(fs.fat[b as usize], 0);
}

use oshit::fs::fs_impl::fat32::file::TRUNCATE;

#[test]
fn close_after_truncating_open() {
    let mut fs = volume(64);
    let mut r = root(&fs);
    r.mkfile(&mut fs, parse_path("/t.bin").unwrap()).unwrap();
    let mut f = r.open(&mut fs, parse_path("/t.bin").unwrap(), READ | WRITE).unwrap();
    assert_eq!(f.write(&mut fs, &[1u8; 600]), Ok(600));
    f.close(&mut fs);
    let mut t = r.open(&mut fs, parse_path("/t.bin").unwrap(), READ | WRITE | TRUNCATE).unwrap();
    assert_eq!(t.size(), 0);
    t.close(&mut fs);
    let again = r.open(&mut fs, parse_path("/t.bin").unwrap(), READ).unwrap();
    assert_eq!(again.size(), 0);
}

#[test]
fn dirent_group_write_then_read() {
    let mut fs = volume(8);
    let mut dir = Chain::new(vec![2]);
    let mut first = DirEntryGroup::new("first.txt", 5, ATTR_FILE);
    assert_eq!(write_dirent_group(&mut dir, &mut fs, &mut first), Ok(()));
    let mut g = DirEntryGroup::new("verylongname.txt", 9, ATTR_FILE);
    assert_eq!(write_dirent_group(&mut dir, &mut fs, &mut g), Ok(()));
    let n = g.exts.len();
    assert_eq!(g.offset, 32 * (first.exts.len() + 1));
    let (back, next) = read_dirent_group(&dir, &fs, g.offset).unwrap();
    assert_eq!(back.entry.to_bytes(), g.entry.to_bytes());
    assert_eq!(back.exts.len(), n);
    assert_eq!(back.offset, g.offset);
    assert_eq!(next, g.offset + 32 * (n + 1));
    assert_eq!(back.get_name(), Ok(String::from("verylongname.txt")));
    assert_eq!(back.get_start(), 9);
}

#[test]
fn new_group_gives_its_name_back() {
    for name in ["a", "exactly13char", "verylongname.txt", "a name with spaces and 39 characters ok"] {
        let g = DirEntryGroup::new(name, 3, ATTR_FILE);
        assert!(g.exts.len() > 0);
        assert!(g.exts[0].is_end());
        assert_eq!(g.get_name(), Ok(String::from(name)));
    }
}

#[test]
fn close_twice_is_close_once() {
    let mut fs = volume(64);
    let mut r = root(&fs);
    r.mkfile(&mut fs, parse_path("/twice.bin").unwrap()).unwrap();
    let mut f = r.open(&mut fs, parse_path("/twice.bin").unwrap(), READ | WRITE).unwrap();
    assert_eq!(f.write(&mut fs, &[9u8; 1500]), Ok(1500));
    f.close(&mut fs);
    let fat = fs.fat.clone();
    let data = fs.data.clone();
    let size = f.size();
    f.close(&mut fs);
    assert_eq!(fs.fat, fat);
    assert_eq!(fs.data, data);
    assert_eq!(f.size(), size);
    let again = r.open(&mut fs, parse_path("/twice.bin").unwrap(), READ).unwrap();
    assert_eq!(again.size(), 1500);
}

#[test]
fn fresh_files_are_neither_readable_nor_writable() {
    let mut fs = volume(64);
    let mut r = root(&fs);
    let f = r.mkfile(&mut fs, parse_path("/fresh.txt").unwrap()).unwrap();
    assert!(!f.readable() && !f.writable());
    let d = r.mkdir(&mut fs, parse_path("/freshdir").unwrap()).unwrap();
    assert!(!d.readable() && !d.writable());
    let o = r.open(&mut fs, parse_path("/fresh.txt").unwrap(), READ).unwrap();
    assert!(o.readable() && !o.writable());
}
