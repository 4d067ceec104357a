use oshit::fs::block_cache::{BlockCache, BLOCK_SZ};
use oshit::fs::fat::fsinfo::{get_fsinfo, FSINFO};
use oshit::fs::fs_impl::cache_mgr::blkcache::BlockCache as DevBlockCache;
use oshit::fs::fs_impl::cache_mgr::BlockCacheManager;
use oshit::fs::fs_impl::fat32::file::{CREATE, DIR, NO_FOLLOW, READ, TRUNCATE, WRITE};
use oshit::fs::fs_impl::utils::OpenMode2usize;
use oshit::fs::fs_impl::OpenMode;
use oshit::fs::FileType;
use oshit::text::{encode_utf16_vec, is_whitespace, push_decimal, string_from_utf16, to_ascii_uppercase, trim};

#[test]
fn open_mode_translation() {
    assert_eq!(OpenMode2usize(OpenMode::READ()), READ);
    assert_eq!(OpenMode2usize(OpenMode::WRITE().union(OpenMode::CREATE())), WRITE | CREATE);
    assert_eq!(OpenMode2usize(OpenMode::SYS()), READ | WRITE | NO_FOLLOW);
    assert_eq!(OpenMode2usize(OpenMode::DIR().union(OpenMode::TRUNCATE())), DIR | TRUNCATE);
    assert_eq!(OpenMode2usize(OpenMode::empty()), 0);
    assert!(OpenMode::READ().union(OpenMode::WRITE()).contains(OpenMode::WRITE()));
}

#[test]
fn file_type_bits() {
    assert_eq!(FileType::Directory.bits(), 0o040000);
    assert_eq!(FileType::Regular.bits(), 0o100000);
    assert_eq!(FileType::Link.bits(), 0o120000);
}

#[test]
fn block_cache_modify_then_sync() {
    let mut c = BlockCache::new(7, [0u8; BLOCK_SZ]);
    assert!(c.sync().is_none());
    c.modify(10, &[1, 2, 3]);
    assert_eq!(c.read(9, 5), vec![0, 1, 2, 3, 0]);
    let (id, bytes) = c.sync().unwrap();
    assert_eq!(id, 7);
    assert_eq!(&bytes[10..13], &[1, 2, 3]);
    assert!(c.sync().is_none());
    c.clear();
    assert_eq!(c.read(10, 3), vec![0, 0, 0]);
}

#[test]
fn device_block_cache() {
    let mut c = DevBlockCache::new(3, [0xFFu8; 512]);
    c.modify(0, &[0]);
    assert_eq!(c.read(0, 2), vec![0, 0xFF]);
    assert_eq!(c.sync().unwrap().0, 3);
}

fn fsinfo_sector() -> [u8; 512] {
    let mut b = [0u8; 512];
    b[0..4].copy_from_slice(&0x41615252u32.to_le_bytes());
    b[0x1E4..0x1E8].copy_from_slice(&0x61417272u32.to_le_bytes());
    b[0x1E8..0x1EC].copy_from_slice(&1000u32.to_le_bytes());
    b[0x1EC..0x1F0].copy_from_slice(&3u32.to_le_bytes());
    b[0x1FE] = 0x55;
    b[0x1FF] = 0xAA;
    b
}

#[test]
fn fsinfo_read_and_update() {
    let mut cache = BlockCache::new(1, fsinfo_sector());
    let mut fi = get_fsinfo(&cache);
    assert_eq!(fi.free_clst, 1000);
    assert_eq!(fi.next_clst, 3);
    assert_eq!(fi.set_fclst(&mut cache, 2000, 1500), Ok(()));
    assert_eq!(fi.set_nclst(&mut cache, 9), Ok(()));
    let back: FSINFO = get_fsinfo(&cache);
    assert_eq!(back.free_clst, 1500);
    assert_eq!(back.next_clst, 9);
    assert_eq!(fi.set_fclst(&mut cache, 2000, 2001), Err("set_fclst: invalid fclst"));
    assert_eq!(get_fsinfo(&cache).free_clst, 1500);
}

#[test]
fn ascii_upper() {
    assert_eq!(to_ascii_uppercase(b'a'), b'A');
    assert_eq!(to_ascii_uppercase(b'Z'), b'Z');
    assert_eq!(to_ascii_uppercase(b'.'), b'.');
}

#[test]
fn trim_white_space() {
    assert_eq!(trim("  ab c \t\n"), "ab c");
    assert_eq!(trim("   "), "");
    assert_eq!(trim("\u{3000}x\u{2003}"), "x");
    assert!(is_whitespace('\u{85}'));
    assert!(!is_whitespace('x'));
}

#[test]
fn utf16_round_trip() {
    let s = "aé€😀";
    let u = encode_utf16_vec(s);
    assert_eq!(u, s.encode_utf16().collect::<Vec<u16>>());
    assert_eq!(u.len(), 5);
    assert_eq!(string_from_utf16(&u), s);
}

#[test]
fn decimal_text() {
    let mut s = String::from("n=");
    push_decimal(&mut s, 0);
    push_decimal(&mut s, 4_294_967_295);
    assert_eq!(s, "n=04294967295");
}

#[test]
fn cache_manager_keeps_hits_and_evicts_the_oldest_free_cache() {
    let mut m = BlockCacheManager::new();
    for id in 0..16usize {
        let shared = vec![false; m.queue.len()];
        let (i, ev) = m.get_block_cache(id, &shared, [id as u8; 512]);
        assert_eq!(i, id);
        assert!(ev.is_none());
    }
    // A hit returns the kept cache and changes nothing.
    let shared = vec![false; 16];
    let (i, ev) = m.get_block_cache(5, &shared, [0xAA; 512]);
    assert_eq!(i, 5);
    assert!(ev.is_none());
    assert_eq!(m.queue[5].1.cache, [5u8; 512]);
    // Full: the oldest cache not in use elsewhere leaves.
    let mut shared = vec![false; 16];
    shared[0] = true;
    shared[1] = true;
    let (i, ev) = m.get_block_cache(40, &shared, [40u8; 512]);
    assert_eq!(i, 15);
    let ev = ev.unwrap();
    assert_eq!(ev.cache, [2u8; 512]);
    assert_eq!(m.queue.len(), 16);
    assert_eq!(m.queue[15].0, 40);
    assert_eq!(m.queue[15].1.cache, [40u8; 512]);
    assert_eq!(m.find(2), None);
    assert_eq!(m.find(3), Some(2));
}

#[test]
fn cache_manager_clears_and_flushes() {
    let mut m = BlockCacheManager::new();
    m.get_block_cache(7, &[], [7u8; 512]);
    m.get_block_cache(9, &[false], [9u8; 512]);
    m.queue[1].1.modify(0, &[1, 2, 3]);
    m.clear_block_cache(7);
    assert_eq!(m.queue[0].1.cache, [0u8; 512]);
    let writes = m.flush_all();
    assert_eq!(writes.len(), 1);
    assert_eq!(writes[0].0, 9);
    assert_eq!(&writes[0].1[..4], &[1, 2, 3, 9]);
    assert!(m.flush_all().is_empty());
}
