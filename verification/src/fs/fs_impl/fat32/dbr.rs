//! DOS boot record parser.
use vstd::prelude::*;

verus! {

/// The little-endian value of two bytes.
pub open spec fn le16(b0: u8, b1: u8) -> int {
    b0 + 256 * b1
}

/// The little-endian value of four bytes.
pub open spec fn le32(b0: u8, b1: u8, b2: u8, b3: u8) -> int {
    b0 + 256 * b1 + 65536 * b2 + 16777216 * b3
}

/// Reads a `u32` from four bytes in little-endian order.
pub fn b2u32(b: &[u8; 4]) -> (r: u32)
    ensures
        r == le32(b[0], b[1], b[2], b[3]),
{
    let b0 = b[0];
    let b1 = b[1];
    let b2 = b[2];
    let b3 = b[3];
    proof {
        assert((b0 as u32 | ((b1 as u32) << 8u32) | ((b2 as u32) << 16u32) | ((b3 as u32)
            << 24u32)) == b0 as u32 + 256 * (b1 as u32) + 65536 * (b2 as u32) + 16777216 * (
        b3 as u32)) by (bit_vector);
    }
    b0 as u32 | ((b1 as u32) << 8) | ((b2 as u32) << 16) | ((b3 as u32) << 24)
}

/// Reads a `u16` from two bytes in little-endian order.
pub fn b2u16(b: &[u8; 2]) -> (r: u16)
    ensures
        r == le16(b[0], b[1]),
{
    let b0 = b[0];
    let b1 = b[1];
    proof {
        assert((b0 as u16 | ((b1 as u16) << 8u16)) == b0 as u16 + 256 * (b1 as u16))
            by (bit_vector);
    }
    b0 as u16 | ((b1 as u16) << 8)
}

/// A DOS boot record as it lies on the block device; multi-byte fields are kept
/// as bytes.
#[derive(Clone, Copy)]
pub struct RAW_DBR {
    pub jump: [u8; 3],
    pub name: [u8; 8],
    /// Sector length in bytes.
    pub sec_len: [u8; 2],
    /// Cluster length in sectors.
    pub clst_len: u8,
    /// Reserved sector count (sectors before the FAT).
    pub rsv_sec: [u8; 2],
    /// Number of FATs.
    pub fat_cnt: u8,
    pub zero0: [u8; 2],
    pub zero1: [u8; 2],
    pub medium: u8,
    pub zero2: u16,
    pub sec_p_track: [u8; 2],
    pub header: [u8; 2],
    pub hidden: [u8; 4],
    /// Total sector count of the file system.
    pub sec_cnt: [u8; 4],
    /// Sector count of one FAT.
    pub fat_sec: [u8; 4],
    pub flag: [u8; 2],
    pub version: [u8; 2],
    /// Cluster of the root directory.
    pub root: [u8; 4],
    pub fsinfo: [u8; 2],
    /// Sector of the backup boot record.
    pub boot: [u8; 2],
    pub reserved: [u8; 12],
    pub unknown: [u8; 3],
    pub vol: [u8; 4],
    pub vol_name: [u8; 11],
    pub fat32: [u8; 8],
    pub text: [u8; 420],
    pub sign: [u8; 2],
}

/// The boot record fields needed for file operations.
pub struct DBR {
    pub vol: u32,
    pub vol_name: [u8; 11],
    pub name: [u8; 8],
    pub fat32: [u8; 8],
    pub version: u16,
    pub fat_cnt: u32,
    /// Size of one FAT in sectors.
    pub fat_sec: u32,
    /// Size of one FAT in bytes.
    pub fat_len: u32,
    pub sec_len: u32,
    pub sec_cnt: u32,
    pub rsv_sec: u32,
    pub data_sec_base: u32,
    /// Cluster size in sectors.
    pub clst_sec: u32,
    /// Cluster size in bytes.
    pub clst_size: u32,
    /// Total cluster count of the disk.
    pub clst_cnt: u32,
    pub root: u32,
    pub boot: u32,
}

/// The sector count that `from_raw` takes the file system to have.
pub open spec fn assumed_sec_cnt() -> int {
    0x0fff_0000
}

/// The reserved sectors, counted from the start of the disk.
pub open spec fn raw_rsv_sec(raw: RAW_DBR, start_sector: u32) -> int {
    le16(raw.rsv_sec[0], raw.rsv_sec[1]) + start_sector
}

/// The sector count of one FAT.
pub open spec fn raw_fat_sec(raw: RAW_DBR) -> int {
    le32(raw.fat_sec[0], raw.fat_sec[1], raw.fat_sec[2], raw.fat_sec[3])
}

/// The first sector of the data region.
pub open spec fn raw_data_sec_base(raw: RAW_DBR, start_sector: u32) -> int {
    raw_rsv_sec(raw, start_sector) + raw.fat_cnt * raw_fat_sec(raw)
}

/// The boot record fields hold values that `from_raw` can compute without
/// overflow, and the cluster length is not zero.
pub open spec fn raw_dbr_computable(raw: RAW_DBR, start_sector: u32) -> bool {
    let sec_len = le16(raw.sec_len[0], raw.sec_len[1]);
    &&& raw_rsv_sec(raw, start_sector) <= u32::MAX
    &&& raw_fat_sec(raw) * sec_len <= u32::MAX
    &&& raw.fat_cnt * raw_fat_sec(raw) <= u32::MAX
    &&& raw_data_sec_base(raw, start_sector) <= assumed_sec_cnt()
    &&& raw.clst_len as int * sec_len <= u32::MAX
    &&& raw.clst_len > 0
}

impl DBR {
    /// The boot record of the file system that starts at `start_sector`, from its
    /// raw form. The sector count is taken to be `0x0fff_0000`, as the kernel
    /// does not trust the field on disk.
    pub fn from_raw(raw: RAW_DBR, start_sector: u32) -> (r: Self)
        requires
            raw_dbr_computable(raw, start_sector),
        ensures
            r.fat32@ == raw.fat32@,
            r.vol_name@ == raw.vol_name@,
            r.name@ == raw.name@,
            r.sec_len == le16(raw.sec_len[0], raw.sec_len[1]),
            r.sec_cnt == assumed_sec_cnt(),
            r.rsv_sec == raw_rsv_sec(raw, start_sector),
            r.fat_sec == raw_fat_sec(raw),
            r.fat_cnt == raw.fat_cnt,
            r.fat_len == r.fat_sec * r.sec_len,
            r.data_sec_base == raw_data_sec_base(raw, start_sector),
            r.clst_sec == raw.clst_len,
            r.clst_size == raw.clst_len * r.sec_len,
            r.clst_cnt == (assumed_sec_cnt() - r.data_sec_base) / (raw.clst_len as int),
            r.vol == le32(raw.vol[0], raw.vol[1], raw.vol[2], raw.vol[3]),
            r.version == le16(raw.version[0], raw.version[1]),
            r.root == le32(raw.root[0], raw.root[1], raw.root[2], raw.root[3]),
            r.boot == le16(raw.boot[0], raw.boot[1]),
    {
        let mut fat32 = [0u8; 8];
        let mut i: usize = 0;
        while i < 8
            invariant
                i <= 8,
                forall|j: int| 0 <= j < i ==> fat32@[j] == raw.fat32@[j],
            decreases 8 - i,
        {
            fat32[i] = raw.fat32[i];
            i = i + 1;
        }
        let mut vol_name = [0u8; 11];
        let mut i: usize = 0;
        while i < 11
            invariant
                i <= 11,
                forall|j: int| 0 <= j < i ==> vol_name@[j] == raw.vol_name@[j],
            decreases 11 - i,
        {
            vol_name[i] = raw.vol_name[i];
            i = i + 1;
        }
        let mut name = [0u8; 8];
        let mut i: usize = 0;
        while i < 8
            invariant
                i <= 8,
                forall|j: int| 0 <= j < i ==> name@[j] == raw.name@[j],
            decreases 8 - i,
        {
            name[i] = raw.name[i];
            i = i + 1;
        }
        proof {
            assert(fat32@ =~= raw.fat32@);
            assert(vol_name@ =~= raw.vol_name@);
            assert(name@ =~= raw.name@);
        }
        let sec_len = b2u16(&raw.sec_len) as u32;
        let sec_cnt: u32 = 0x0fff_0000;
        let rsv_sec = b2u16(&raw.rsv_sec) as u32 + start_sector;
        let fat_sec = b2u32(&raw.fat_sec);
        let fat_cnt = raw.fat_cnt as u32;
        let fat_len = fat_sec * sec_len;
        let data_sec_base = rsv_sec + fat_cnt * fat_sec;
        DBR {
            vol: b2u32(&raw.vol),
            vol_name,
            name,
            fat32,
            version: b2u16(&raw.version),
            sec_len,
            sec_cnt,
            rsv_sec,
            data_sec_base,
            clst_sec: raw.clst_len as u32,
            clst_size: raw.clst_len as u32 * sec_len,
            clst_cnt: (sec_cnt - data_sec_base) / raw.clst_len as u32,
            fat_cnt,
            fat_sec,
            fat_len,
            root: b2u32(&raw.root),
            boot: b2u16(&raw.boot) as u32,
        }
    }
}


/// Copies `out.len()` bytes of `b` from `at` into `out`.
fn take(b: &[u8; 512], at: usize, out: &mut [u8])
    requires
        at + old(out)@.len() <= 512,
    ensures
        final(out)@ == b@.subrange(at as int, at + old(out)@.len()),
{
    let n = out.len();
    let mut i: usize = 0;
    while i < n
        invariant
            n == out@.len(),
            at + n <= 512,
            i <= n,
            forall|k: int| 0 <= k < i ==> #[trigger] out@[k] == b@[at + k],
        decreases n - i,
    {
        out[i] = b[at + i];
        i = i + 1;
    }
    assert(out@ =~= b@.subrange(at as int, at + n));
}

/// The boot record lies at `b`: every field in order, without padding, the
/// 16-bit field `zero2` low byte first.
pub open spec fn raw_dbr_at(raw: RAW_DBR, b: Seq<u8>) -> bool {
    &&& raw.jump@ == b.subrange(0, 3)
    &&& raw.name@ == b.subrange(3, 11)
    &&& raw.sec_len@ == b.subrange(11, 13)
    &&& raw.clst_len == b[13]
    &&& raw.rsv_sec@ == b.subrange(14, 16)
    &&& raw.fat_cnt == b[16]
    &&& raw.zero0@ == b.subrange(17, 19)
    &&& raw.zero1@ == b.subrange(19, 21)
    &&& raw.medium == b[21]
    &&& raw.zero2 == le16(b[22], b[23])
    &&& raw.sec_p_track@ == b.subrange(24, 26)
    &&& raw.header@ == b.subrange(26, 28)
    &&& raw.hidden@ == b.subrange(28, 32)
    &&& raw.sec_cnt@ == b.subrange(32, 36)
    &&& raw.fat_sec@ == b.subrange(36, 40)
    &&& raw.flag@ == b.subrange(40, 42)
    &&& raw.version@ == b.subrange(42, 44)
    &&& raw.root@ == b.subrange(44, 48)
    &&& raw.fsinfo@ == b.subrange(48, 50)
    &&& raw.boot@ == b.subrange(50, 52)
    &&& raw.reserved@ == b.subrange(52, 64)
    &&& raw.unknown@ == b.subrange(64, 67)
    &&& raw.vol@ == b.subrange(67, 71)
    &&& raw.vol_name@ == b.subrange(71, 82)
    &&& raw.fat32@ == b.subrange(82, 90)
    &&& raw.text@ == b.subrange(90, 510)
    &&& raw.sign@ == b.subrange(510, 512)
}

impl RAW_DBR {
    /// The boot record held in the first sector of a file system.
    pub fn from_bytes(b: &[u8; 512]) -> (r: RAW_DBR)
        ensures
            raw_dbr_at(r, b@),
    {
        let mut jump = [0u8; 3];
        take(b, 0, &mut jump);
        let mut name = [0u8; 8];
        take(b, 3, &mut name);
        let mut sec_len = [0u8; 2];
        take(b, 11, &mut sec_len);
        let mut rsv_sec = [0u8; 2];
        take(b, 14, &mut rsv_sec);
        let mut zero0 = [0u8; 2];
        take(b, 17, &mut zero0);
        let mut zero1 = [0u8; 2];
        take(b, 19, &mut zero1);
        let zero2 = b2u16(&[b[22], b[23]]);
        let mut sec_p_track = [0u8; 2];
        take(b, 24, &mut sec_p_track);
        let mut header = [0u8; 2];
        take(b, 26, &mut header);
        let mut hidden = [0u8; 4];
        take(b, 28, &mut hidden);
        let mut sec_cnt = [0u8; 4];
        take(b, 32, &mut sec_cnt);
        let mut fat_sec = [0u8; 4];
        take(b, 36, &mut fat_sec);
        let mut flag = [0u8; 2];
        take(b, 40, &mut flag);
        let mut version = [0u8; 2];
        take(b, 42, &mut version);
        let mut root = [0u8; 4];
        take(b, 44, &mut root);
        let mut fsinfo = [0u8; 2];
        take(b, 48, &mut fsinfo);
        let mut boot = [0u8; 2];
        take(b, 50, &mut boot);
        let mut reserved = [0u8; 12];
        take(b, 52, &mut reserved);
        let mut unknown = [0u8; 3];
        take(b, 64, &mut unknown);
        let mut vol = [0u8; 4];
        take(b, 67, &mut vol);
        let mut vol_name = [0u8; 11];
        take(b, 71, &mut vol_name);
        let mut fat32 = [0u8; 8];
        take(b, 82, &mut fat32);
        let mut text = [0u8; 420];
        take(b, 90, &mut text);
        let mut sign = [0u8; 2];
        take(b, 510, &mut sign);
        RAW_DBR {
            jump,
            name,
            sec_len,
            clst_len: b[13],
            rsv_sec,
            fat_cnt: b[16],
            zero0,
            zero1,
            medium: b[21],
            zero2,
            sec_p_track,
            header,
            hidden,
            sec_cnt,
            fat_sec,
            flag,
            version,
            root,
            fsinfo,
            boot,
            reserved,
            unknown,
            vol,
            vol_name,
            fat32,
            text,
            sign,
        }
    }
}

/// The entries of a file allocation table held in `b`, each four bytes, low
/// byte first; bytes after the last whole entry are ignored.
pub fn parse_fat(b: &[u8]) -> (r: Vec<u32>)
    ensures
        r@.len() == b@.len() / 4,
        forall|i: int|
            0 <= i < r@.len() ==> #[trigger] r@[i] == le32(b@[4 * i], b@[4 * i + 1], b@[4 * i + 2], b@[4 * i + 3]),
{
    let n = b.len() / 4;
    let mut r: Vec<u32> = Vec::new();
    let mut i: usize = 0;
    while i < n
        invariant
            n == b@.len() / 4,
            i <= n,
            r@.len() == i,
            forall|k: int|
                0 <= k < i ==> #[trigger] r@[k] == le32(b@[4 * k], b@[4 * k + 1], b@[4 * k + 2], b@[4 * k + 3]),
        decreases n - i,
    {
        assert(4 * i + 3 < b@.len()) by (nonlinear_arith)
            requires
                i < n,
                n == b@.len() / 4,
        ;
        assert(b@.len() == b.len());
        assert(4 * i + 3 < usize::MAX);
        let j = 4 * i;
        let v = b2u32(&[b[j], b[j + 1], b[j + 2], b[j + 3]]);
        r.push(v);
        i = i + 1;
    }
    r
}

} // verus!
