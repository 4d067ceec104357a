//! Directory entries of FAT32: short entries, long-file-name entries, and the
//! group of both that describes one file.
use vstd::prelude::*;
use vstd::utf8::{decode_utf8, encode_utf8, valid_utf8};
use crate::text::{
    ascii_upper, decode_utf16, encode_utf16, encode_utf16_vec, string_from_utf16, to_ascii_uppercase,
    is_unicode_whitespace, trim, trim_end_raw, trim_spec, trim_start, upper_seq, utf16_of_char,
};
use crate::strings::string_push;
use super::dbr::{le16, le32};
use super::chain::{
    chain_ok, lemma_write_frame_trans, lemma_write_state_trans, lemma_written_len_step,
    lemma_written_len_within, write_frame, write_state, written_clusters, written_content,
    written_len, Chain, MAX_LEN,
};
use super::{chain_content, clusters_valid, free_count, lemma_chain_content_len, Fat32FS};
use crate::process::ErrNo;

verus! {

/// Bytes that are all spaces.
pub open spec fn spaces(n: nat) -> Seq<u8> {
    Seq::new(n, |i: int| 0x20u8)
}

/// A short directory entry, as it lies in a directory (32 bytes).
#[derive(Clone, Copy)]
pub struct DirEntryRaw {
    pub name: [u8; 8],
    pub ext: [u8; 3],
    pub attr: u8,
    pub reserved: u8,
    pub created_minisec: u8,
    pub created_sec: u16,
    pub created_date: u16,
    pub accessed_sec: u16,
    pub start_h: u16,
    pub mod_sec: u16,
    pub mod_date: u16,
    pub start_l: u16,
    pub size: u32,
}

/// Read-only attribute bit.
pub const ATTR_RDONLY: u8 = 0x01;

/// Hidden attribute bit.
pub const ATTR_HIDDEN: u8 = 0x02;

/// System attribute bit.
pub const ATTR_SYS: u8 = 0x04;

/// Volume attribute value.
pub const ATTR_VOL: u8 = 0x08;

/// Directory attribute bit.
pub const ATTR_SUBDIR: u8 = 0x10;

/// Regular file attribute bit.
pub const ATTR_FILE: u8 = 0x20;

/// Symbolic link attribute bit (a bit that FAT32 reserves).
pub const ATTR_SYM: u8 = 0x80;

/// Attribute of a long-file-name entry.
pub const ATTR_LFN: u8 = 0x0f;

/// Flag of the last long-file-name entry of a group.
pub const EXT_END: u8 = 0x40;

/// The short name that `set_name` gives a file name whose bytes are `b`, when
/// no dot yields one: the name upper-cased and padded, or cut to six bytes and
/// `~1`; the extension is blank.
pub open spec fn short_name_fallback(b: Seq<u8>) -> (Seq<u8>, Seq<u8>) {
    if b.len() <= 8 {
        (upper_seq(b) + spaces((8 - b.len()) as nat), spaces(3))
    } else {
        (upper_seq(b.subrange(0, 6)) + seq![0x7eu8, 0x31u8], spaces(3))
    }
}

/// The short name and extension that `set_name` gives, looking for a dot among
/// the bytes before index `i`, last one first. A dot after one to eight bytes
/// with one or more bytes after it splits name and extension (the extension cut
/// to three bytes).
pub open spec fn short_name_scan(b: Seq<u8>, i: int) -> (Seq<u8>, Seq<u8>)
    decreases i,
{
    if i <= 0 {
        short_name_fallback(b)
    } else {
        let j = i - 1;
        if b[j] == 0x2e && 0 < j <= 8 {
            let el = b.len() - j - 1;
            if 0 < el <= 3 {
                (
                    upper_seq(b.subrange(0, j)) + spaces((8 - j) as nat),
                    upper_seq(b.subrange(j + 1, b.len() as int)) + spaces((3 - el) as nat),
                )
            } else if el > 3 {
                (upper_seq(b.subrange(0, j)) + spaces((8 - j) as nat), upper_seq(b.subrange(j + 1, j + 4)))
            } else {
                short_name_scan(b, j)
            }
        } else {
            short_name_scan(b, j)
        }
    }
}

/// The 8.3 name and extension that `set_name` stores for the file name bytes `b`.
pub open spec fn short_name(b: Seq<u8>) -> (Seq<u8>, Seq<u8>) {
    short_name_scan(b, b.len() as int)
}

/// One step of the short-name checksum.
pub open spec fn chksum_step(sum: u8, b: u8) -> u8 {
    (if sum & 1 != 0 {
        0x80u8
    } else {
        0u8
    }).wrapping_add(sum >> 1u8).wrapping_add(b)
}

/// The checksum of the bytes `s`, taken in order.
pub open spec fn chksum_of(s: Seq<u8>) -> u8
    decreases s.len(),
{
    if s.len() == 0 {
        0
    } else {
        chksum_step(chksum_of(s.drop_last()), s.last())
    }
}

/// The file name a short entry gives: its name and extension decoded and trimmed,
/// joined by `.` when the extension is not empty.
pub open spec fn short_entry_name(name: Seq<u8>, ext: Seq<u8>) -> Seq<char> {
    let n = trim_spec(decode_utf8(name));
    let e = trim_spec(decode_utf8(ext));
    if e.len() > 0 {
        n + seq!['.'] + e
    } else {
        n
    }
}

/// A character that a short name keeps but for its case: printable ASCII other
/// than space and `.`.
pub open spec fn short_name_char(c: char) -> bool {
    0x21 <= c as u32 <= 0x7e && c as u32 != 0x2e
}

/// The upper-case form of an ASCII letter; any other character as it is.
pub open spec fn upper_char(c: char) -> char {
    if 0x61 <= c as u32 <= 0x7a {
        ((c as u32) - 32) as char
    } else {
        c
    }
}

/// The bytes of ASCII characters.
pub open spec fn ascii_bytes(t: Seq<char>) -> Seq<u8> {
    Seq::new(t.len(), |i: int| (t[i] as u32) as u8)
}

/// `n` spaces.
pub open spec fn space_chars(n: nat) -> Seq<char> {
    Seq::new(n, |i: int| ' ')
}

/// ASCII characters encode to one byte each.
proof fn lemma_ascii_encode(t: Seq<char>)
    requires
        forall|i: int| 0 <= i < t.len() ==> (#[trigger] t[i] as u32) < 0x80,
    ensures
        encode_utf8(t) == ascii_bytes(t),
        valid_utf8(ascii_bytes(t)),
        decode_utf8(ascii_bytes(t)) == t,
    decreases t.len(),
{
    broadcast use vstd::utf8::encode_utf8_decode_utf8, vstd::utf8::encode_utf8_valid_utf8;

    if t.len() == 0 {
        assert(encode_utf8(t) =~= ascii_bytes(t));
    } else {
        let d = t.drop_first();
        assert forall|i: int| 0 <= i < d.len() implies (#[trigger] d[i] as u32) < 0x80 by {
            assert(d[i] == t[i + 1]);
        }
        lemma_ascii_encode(d);
        let v = t[0] as u32;
        assert(v < 0x80);
        assert(v & 0x7f == v) by (bit_vector)
            requires
                v < 0x80,
        ;
        assert(vstd::utf8::encode_scalar(v) =~= seq![v as u8]);
        assert(encode_utf8(t) =~= ascii_bytes(t));
    }
}

/// Padding with spaces and trimming gives back characters whose first and last
/// are not white space.
proof fn lemma_trim_padded(t: Seq<char>, k: nat)
    requires
        t.len() > 0,
        !is_unicode_whitespace(t[0]),
        !is_unicode_whitespace(t.last()),
    ensures
        trim_spec(t + space_chars(k)) == t,
    decreases k,
{
    let s = t + space_chars(k);
    assert(s[0] == t[0]);
    assert(trim_start(s) == 0);
    lemma_trim_end_padded(t, k);
    assert(s.subrange(0, t.len() as int) =~= t);
}

proof fn lemma_trim_end_padded(t: Seq<char>, k: nat)
    requires
        t.len() > 0,
        !is_unicode_whitespace(t.last()),
    ensures
        trim_end_raw(t + space_chars(k)) == t.len(),
    decreases k,
{
    let s = t + space_chars(k);
    if k == 0 {
        assert(s =~= t);
    } else {
        assert(s.last() == ' ');
        assert(s.drop_last() =~= t + space_chars((k - 1) as nat));
        lemma_trim_end_padded(t, (k - 1) as nat);
    }
}

/// Spaces trim to nothing.
proof fn lemma_trim_blank(k: nat)
    ensures
        trim_spec(space_chars(k)).len() == 0,
{
    lemma_trim_blank_start(k);
    lemma_trim_blank_end(k);
}

proof fn lemma_trim_blank_start(k: nat)
    ensures
        trim_start(space_chars(k)) == k,
    decreases k,
{
    if k > 0 {
        assert(space_chars(k).drop_first() =~= space_chars((k - 1) as nat));
        lemma_trim_blank_start((k - 1) as nat);
    }
}

proof fn lemma_trim_blank_end(k: nat)
    ensures
        trim_end_raw(space_chars(k)) == 0,
    decreases k,
{
    if k > 0 {
        assert(space_chars(k).drop_last() =~= space_chars((k - 1) as nat));
        lemma_trim_blank_end((k - 1) as nat);
    }
}

/// The short-name scan passes over bytes that are not dots.
proof fn lemma_scan_skip(b: Seq<u8>, i: int, lo: int)
    requires
        0 <= lo <= i <= b.len(),
        forall|k: int| lo <= k < i ==> #[trigger] b[k] != 0x2e,
    ensures
        short_name_scan(b, i) == short_name_scan(b, lo),
    decreases i,
{
    if i > lo {
        lemma_scan_skip(b, i - 1, lo);
    }
}

/// Upper-casing the bytes of ASCII characters gives the bytes of the characters
/// upper-cased.
proof fn lemma_upper_ascii(t: Seq<char>)
    requires
        forall|i: int| 0 <= i < t.len() ==> (#[trigger] t[i] as u32) < 0x80,
    ensures
        upper_seq(ascii_bytes(t)) == ascii_bytes(t.map_values(|c: char| upper_char(c))),
{
    assert(upper_seq(ascii_bytes(t)) =~= ascii_bytes(t.map_values(|c: char| upper_char(c))));
}

/// The short name and extension stored for a name of one to eight characters,
/// or of those, a dot and one to three more, all printable ASCII other than
/// space and `.`, are valid UTF-8 and give back (see `DirEntryRaw::get_name`)
/// the name in upper case: what `set_name` stores, `get_name` reads back.
pub proof fn lemma_set_name_then_get_name(b: Seq<char>, x: Seq<char>)
    requires
        1 <= b.len() <= 8,
        x.len() <= 3,
        forall|i: int| 0 <= i < b.len() ==> short_name_char(#[trigger] b[i]),
        forall|i: int| 0 <= i < x.len() ==> short_name_char(#[trigger] x[i]),
    ensures
        ({
            let name = if x.len() == 0 {
                b
            } else {
                b + seq!['.'] + x
            };
            let sn = short_name(encode_utf8(name));
            &&& valid_utf8(sn.0)
            &&& valid_utf8(sn.1)
            &&& short_entry_name(sn.0, sn.1) == name.map_values(|c: char| upper_char(c))
        }),
{
    broadcast use vstd::utf8::encode_utf8_decode_utf8, vstd::utf8::encode_utf8_valid_utf8;

    let name = if x.len() == 0 {
        b
    } else {
        b + seq!['.'] + x
    };
    assert('.' as u32 == 0x2e);
    assert forall|i: int| 0 <= i < name.len() implies (#[trigger] name[i] as u32) < 0x80 by {
        if i < b.len() {
            assert(name[i] == b[i]);
            assert(short_name_char(b[i]));
        } else if i > b.len() {
            assert(name[i] == x[i - b.len() - 1]);
            assert(short_name_char(x[i - b.len() - 1]));
        }
    }
    lemma_ascii_encode(name);
    let bytes = ascii_bytes(name);
    let ub = b.map_values(|c: char| upper_char(c));
    let ux = x.map_values(|c: char| upper_char(c));
    let j = b.len() as int;
    assert forall|i: int| 0 <= i < b.len() implies (#[trigger] b[i] as u32) < 0x80 by {
        assert(short_name_char(b[i]));
    }
    assert forall|i: int| 0 <= i < x.len() implies (#[trigger] x[i] as u32) < 0x80 by {
        assert(short_name_char(x[i]));
    }
    lemma_upper_ascii(b);
    lemma_upper_ascii(x);
    // The upper-cased characters are still printable and not white space.
    assert(short_name_char(b[0]) && short_name_char(b.last()));
    assert(!is_unicode_whitespace(ub[0]) && !is_unicode_whitespace(ub.last()));
    let pad = space_chars((8 - j) as nat);
    assert forall|i: int| 0 <= i < (ub + pad).len() implies (#[trigger] (ub + pad)[i] as u32) < 0x80 by {
        if i < j {
            assert(short_name_char(b[i]));
        }
    }
    lemma_ascii_encode(ub + pad);
    assert(spaces((8 - j) as nat) == ascii_bytes(pad)) by {
        assert(spaces((8 - j) as nat) =~= ascii_bytes(pad));
    }
    assert(ascii_bytes(b) =~= bytes.subrange(0, j));
    assert(upper_seq(bytes.subrange(0, j)) + spaces((8 - j) as nat) =~= ascii_bytes(ub + pad));
    lemma_trim_padded(ub, (8 - j) as nat);
    if x.len() == 0 {
        assert forall|k: int| 0 <= k < bytes.len() implies #[trigger] bytes[k] != 0x2e by {
            assert(short_name_char(b[k]));
            assert(name[k] == b[k]);
            assert(bytes[k] == (name[k] as u32) as u8);
        }
        lemma_scan_skip(bytes, bytes.len() as int, 0);
        assert(bytes.subrange(0, j) =~= bytes);
        let sp3 = space_chars(3);
        lemma_ascii_encode(sp3);
        assert(spaces(3) =~= ascii_bytes(sp3));
        lemma_trim_blank(3);
        assert(name.map_values(|c: char| upper_char(c)) =~= ub);
    } else {
        let el = x.len() as int;
        assert forall|k: int| j + 1 <= k < bytes.len() implies #[trigger] bytes[k] != 0x2e by {
            assert(name[k] == x[k - j - 1]);
            assert(short_name_char(x[k - j - 1]));
            assert(bytes[k] == (name[k] as u32) as u8);
        }
        lemma_scan_skip(bytes, bytes.len() as int, j + 1);
        assert(bytes[j] == 0x2e);
        let xpad = space_chars((3 - el) as nat);
        assert forall|i: int| 0 <= i < (ux + xpad).len() implies (#[trigger] (ux + xpad)[i] as u32) < 0x80 by {
            if i < el {
                assert(short_name_char(x[i]));
            }
        }
        lemma_ascii_encode(ux + xpad);
        assert(spaces((3 - el) as nat) =~= ascii_bytes(xpad));
        assert(ascii_bytes(x) =~= bytes.subrange(j + 1, bytes.len() as int));
        assert(upper_seq(bytes.subrange(j + 1, bytes.len() as int)) + spaces((3 - el) as nat)
            =~= ascii_bytes(ux + xpad));
        assert(short_name_char(x[0]) && short_name_char(x.last()));
        assert(!is_unicode_whitespace(ux[0]) && !is_unicode_whitespace(ux.last()));
        lemma_trim_padded(ux, (3 - el) as nat);
        assert(name.map_values(|c: char| upper_char(c)) =~= ub + seq!['.'] + ux);
    }
}

/// Copies bytes `[from, from + n)` of `b`, upper-cased, into a name of eight
/// bytes padded with spaces.
fn upper_padded8(b: &[u8], from: usize, n: usize) -> (r: [u8; 8])
    requires
        n <= 8,
        from + n <= b@.len(),
    ensures
        r@ == upper_seq(b@.subrange(from as int, from + n)) + spaces((8 - n) as nat),
{
    let mut r = [0x20u8; 8];
    let mut j: usize = 0;
    while j < 8
        invariant
            n <= 8,
            from + n <= b@.len(),
            b@.len() == b.len(),
            j <= 8,
            forall|k: int| 0 <= k < j ==> r@[k] == if k < n {
                ascii_upper(b@[from + k])
            } else {
                0x20u8
            },
        decreases 8 - j,
    {
        if j < n {
            r[j] = to_ascii_uppercase(b[from + j]);
        } else {
            r[j] = 0x20;
        }
        j = j + 1;
    }
    proof {
        assert(r@ =~= upper_seq(b@.subrange(from as int, from + n)) + spaces((8 - n) as nat));
    }
    r
}

/// Copies bytes `[from, from + n)` of `b`, upper-cased, into an extension of
/// three bytes padded with spaces.
fn upper_padded3(b: &[u8], from: usize, n: usize) -> (r: [u8; 3])
    requires
        n <= 3,
        from + n <= b@.len(),
    ensures
        r@ == upper_seq(b@.subrange(from as int, from + n)) + spaces((3 - n) as nat),
{
    let mut r = [0x20u8; 3];
    let mut j: usize = 0;
    while j < 3
        invariant
            n <= 3,
            from + n <= b@.len(),
            b@.len() == b.len(),
            j <= 3,
            forall|k: int| 0 <= k < j ==> r@[k] == if k < n {
                ascii_upper(b@[from + k])
            } else {
                0x20u8
            },
        decreases 3 - j,
    {
        if j < n {
            r[j] = to_ascii_uppercase(b[from + j]);
        } else {
            r[j] = 0x20;
        }
        j = j + 1;
    }
    proof {
        assert(r@ =~= upper_seq(b@.subrange(from as int, from + n)) + spaces((3 - n) as nat));
    }
    r
}

/// The fields of a short entry other than its name and extension are equal.
pub open spec fn same_but_name(a: DirEntryRaw, b: DirEntryRaw) -> bool {
    &&& a.attr == b.attr
    &&& a.reserved == b.reserved
    &&& a.created_minisec == b.created_minisec
    &&& a.created_sec == b.created_sec
    &&& a.created_date == b.created_date
    &&& a.accessed_sec == b.accessed_sec
    &&& a.start_h == b.start_h
    &&& a.mod_sec == b.mod_sec
    &&& a.mod_date == b.mod_date
    &&& a.start_l == b.start_l
    &&& a.size == b.size
}

impl DirEntryRaw {
    /// An entry of all zeroes.
    pub fn blank() -> (r: DirEntryRaw)
        ensures
            r.name@ == Seq::new(8, |i: int| 0u8),
            r.ext@ == Seq::new(3, |i: int| 0u8),
            r.attr == 0 && r.reserved == 0 && r.created_minisec == 0 && r.created_sec == 0
                && r.created_date == 0 && r.accessed_sec == 0 && r.start_h == 0 && r.mod_sec == 0
                && r.mod_date == 0 && r.start_l == 0 && r.size == 0,
    {
        let r = DirEntryRaw {
            name: [0u8; 8],
            ext: [0u8; 3],
            attr: 0,
            reserved: 0,
            created_minisec: 0,
            created_sec: 0,
            created_date: 0,
            accessed_sec: 0,
            start_h: 0,
            mod_sec: 0,
            mod_date: 0,
            start_l: 0,
            size: 0,
        };
        proof {
            assert(r.name@ =~= Seq::new(8, |i: int| 0u8));
            assert(r.ext@ =~= Seq::new(3, |i: int| 0u8));
        }
        r
    }

    /// Whether the entry is marked deleted (its first name byte is `0xE5`).
    pub fn is_deleted(&self) -> (r: bool)
        ensures
            r == (self.name@[0] == 0xE5),
    {
        return self.name[0] == 0xE5;
    }

    /// Whether the attribute marks a long-file-name entry.
    pub fn is_ext(&self) -> (r: bool)
        ensures
            r == (self.attr & ATTR_LFN == ATTR_LFN),
    {
        return self.attr & ATTR_LFN == ATTR_LFN;
    }

    /// Whether the entry is a symbolic link: FAT32 reserves the top attribute bit,
    /// which marks links here.
    pub fn is_link(&self) -> (r: bool)
        ensures
            r == (self.attr & ATTR_SYM == ATTR_SYM),
    {
        return self.attr & ATTR_SYM == ATTR_SYM;
    }

    /// Whether the entry is a directory.
    pub fn is_dir(&self) -> (r: bool)
        ensures
            r == (self.attr & ATTR_SUBDIR == ATTR_SUBDIR),
    {
        return self.attr & ATTR_SUBDIR == ATTR_SUBDIR;
    }

    /// Whether the entry is a regular file.
    pub fn is_file(&self) -> (r: bool)
        ensures
            r == (self.attr & ATTR_FILE == ATTR_FILE),
    {
        return self.attr & ATTR_FILE == ATTR_FILE;
    }

    /// Whether the read-only bit is set.
    pub fn is_read_only(&self) -> (r: bool)
        ensures
            r == (self.attr & ATTR_RDONLY == ATTR_RDONLY),
    {
        return self.attr & ATTR_RDONLY == ATTR_RDONLY;
    }

    /// Whether the attribute is exactly the volume attribute.
    pub fn is_vol(&self) -> (r: bool)
        ensures
            r == (self.attr == ATTR_VOL),
    {
        return self.attr == ATTR_VOL;
    }

    /// The first cluster of the file's chain: high half then low half.
    pub fn get_start(&self) -> (r: u32)
        ensures
            r == self.start_h * 65536 + self.start_l,
    {
        let h = self.start_h;
        let l = self.start_l;
        let mut start = h as u32;
        start = start << 16;
        start = start | l as u32;
        proof {
            assert((((h as u32) << 16u32) | (l as u32)) == (h as u32) * 65536 + (l as u32))
                by (bit_vector);
        }
        return start;
    }

    /// Stores the first cluster of the file's chain: high half and low half.
    pub fn set_start(&mut self, start: u32)
        ensures
            final(self).start_h == start / 65536,
            final(self).start_l == start % 65536,
            final(self).name == old(self).name,
            final(self).ext == old(self).ext,
            final(self).attr == old(self).attr,
            final(self).size == old(self).size,
            final(self).reserved == old(self).reserved,
            final(self).created_minisec == old(self).created_minisec,
            final(self).created_sec == old(self).created_sec,
            final(self).created_date == old(self).created_date,
            final(self).accessed_sec == old(self).accessed_sec,
            final(self).mod_sec == old(self).mod_sec,
            final(self).mod_date == old(self).mod_date,
    {
        proof {
            assert(((start >> 16u32) as u16) == start / 65536) by (bit_vector);
            assert(((start & 0xffffu32) as u16) == start % 65536) by (bit_vector);
        }
        self.start_h = (start >> 16) as u16;
        self.start_l = (start & 0xffff) as u16;
    }

    /// Reading the first cluster back after storing it gives the same cluster:
    /// `get_start` after `set_start(start)` returns `start`.
    pub proof fn lemma_start_round_trip(e: DirEntryRaw, start: u32)
        requires
            e.start_h == start / 65536,
            e.start_l == start % 65536,
        ensures
            e.start_h * 65536 + e.start_l == start,
    {
    }

    /// The short file name: name and extension decoded and trimmed, joined by `.`
    /// when the extension is not empty. Both must be valid UTF-8.
    pub fn get_name(&self) -> (r: String)
        requires
            valid_utf8(self.name@),
            valid_utf8(self.ext@),
        ensures
            r@ == short_entry_name(self.name@, self.ext@),
    {
        let name_str = crate::text::str_from_utf8(self.name.as_slice()).unwrap();
        let mut name = trim(name_str);
        let ext_str = crate::text::str_from_utf8(self.ext.as_slice()).unwrap();
        let ext = trim(ext_str);
        if !ext.as_str().is_empty() {
            string_push(&mut name, '.');
            name.append(ext.as_str());
        }
        name
    }

    /// Stores the 8.3 form of `name`: see `short_name`. Other fields are unchanged.
    pub fn set_name(&mut self, name: &str)
        ensures
            final(self).name@ == short_name(vstd::utf8::encode_utf8(name@)).0,
            final(self).ext@ == short_name(vstd::utf8::encode_utf8(name@)).1,
            same_but_name(*final(self), *old(self)),
    {
        let b = name.as_bytes();
        let len = b.len();
        let mut k = len;
        while k > 0
            invariant
                b@ == vstd::utf8::encode_utf8(name@),
                len == b@.len(),
                k <= len,
                short_name(b@) == short_name_scan(b@, k as int),
                same_but_name(*self, *old(self)),
            decreases k,
        {
            k = k - 1;
            let i = k;
            if b[i] == 0x2e {
                let name_len = i;
                let ext_len = len - i - 1;
                if name_len > 0 && name_len <= 8 {
                    let nm = upper_padded8(b, 0, name_len);
                    if ext_len > 0 && ext_len <= 3 {
                        self.name = nm;
                        self.ext = upper_padded3(b, i + 1, ext_len);
                        return;
                    } else if ext_len > 3 {
                        self.name = nm;
                        self.ext = upper_padded3(b, i + 1, 3);
                        proof {
                            assert(spaces(0) =~= Seq::<u8>::empty());
                            assert(self.ext@ =~= upper_seq(b@.subrange(i + 1, i + 4)));
                        }
                        return;
                    }
                }
            }
        }
        if len <= 8 {
            self.name = upper_padded8(b, 0, len);
            self.ext = [0x20u8; 3];
            proof {
                assert(b@.subrange(0, len as int) =~= b@);
                assert(self.ext@ =~= spaces(3));
            }
        } else {
            let head = upper_padded8(b, 0, 6);
            let mut nm = head;
            nm[6] = 0x7e;
            nm[7] = 0x31;
            self.name = nm;
            self.ext = [0x20u8; 3];
            proof {
                assert(self.name@ =~= upper_seq(b@.subrange(0, 6)) + seq![0x7eu8, 0x31u8]);
                assert(self.ext@ =~= spaces(3));
            }
        }
    }

    /// The checksum of the short name that long-file-name entries carry.
    pub fn chksum(&self) -> (r: u8)
        ensures
            r == chksum_of(self.name@ + self.ext@),
    {
        let ghost all = self.name@ + self.ext@;
        let mut sum: u8 = 0;
        let mut i: usize = 0;
        while i < 8
            invariant
                i <= 8,
                all == self.name@ + self.ext@,
                sum == chksum_of(all.subrange(0, i as int)),
            decreases 8 - i,
        {
            proof {
                assert(all.subrange(0, i + 1).drop_last() =~= all.subrange(0, i as int));
            }
            sum = (if sum & 1 != 0 {
                0x80u8
            } else {
                0
            }).wrapping_add(sum >> 1).wrapping_add(self.name[i]);
            i = i + 1;
        }
        let mut i: usize = 0;
        while i < 3
            invariant
                i <= 3,
                all == self.name@ + self.ext@,
                sum == chksum_of(all.subrange(0, 8 + i)),
            decreases 3 - i,
        {
            proof {
                assert(all.subrange(0, 8 + i + 1).drop_last() =~= all.subrange(0, 8 + i));
            }
            sum = (if sum & 1 != 0 {
                0x80u8
            } else {
                0
            }).wrapping_add(sum >> 1).wrapping_add(self.ext[i]);
            i = i + 1;
        }
        proof {
            assert(all.subrange(0, 11) =~= all);
        }
        return sum;
    }
}

/// A long-file-name entry (32 bytes); a group of them, last part first, precedes
/// the short entry of a file with a long name.
#[derive(Clone, Copy)]
pub struct DirEntryExtRaw {
    pub ext_attr: u8,
    pub name0: [u8; 10],
    pub attr: u8,
    pub reserved: u8,
    pub chksum: u8,
    pub name1: [u8; 12],
    pub start: u16,
    pub name2: [u8; 4],
}

/// The 26 name bytes of a long-file-name entry, in order.
pub open spec fn ext_name_bytes(e: DirEntryExtRaw) -> Seq<u8> {
    e.name0@ + e.name1@ + e.name2@
}

/// The code units of a long file name as the entries hold them: trailing NUL
/// units dropped, one NUL added unless the count is a multiple of 13, then
/// padding with `0xFFFF` to a multiple of 13.
pub open spec fn lfn_units(name: Seq<char>) -> Seq<u16> {
    let s = strip_zeros(encode_utf16(name));
    let s1 = if s.len() % 13 != 0 {
        s.push(0u16)
    } else {
        s
    };
    s1 + Seq::new(((13 - s1.len() % 13) % 13) as nat, |i: int| 0xffffu16)
}

/// `u` without its trailing zero units.
pub open spec fn strip_zeros(u: Seq<u16>) -> Seq<u16>
    decreases u.len(),
{
    if u.len() > 0 && u.last() == 0 {
        strip_zeros(u.drop_last())
    } else {
        u
    }
}

/// The little-endian bytes of the code units `u[from .. from + n]`.
pub open spec fn unit_bytes(u: Seq<u16>, from: int, n: int) -> Seq<u8> {
    Seq::new((2 * n) as nat, |k: int| if k % 2 == 0 {
        (u[from + k / 2] % 256) as u8
    } else {
        (u[from + k / 2] / 256) as u8
    })
}

/// The entry `e` is the `i`-th long-file-name entry of a group of `cnt` entries
/// for the code units `u`.
pub open spec fn is_lfn_entry(e: DirEntryExtRaw, u: Seq<u16>, i: int, cnt: int, chksum: u8) -> bool {
    &&& e.ext_attr == (if i == cnt - 1 {
        ((i + 1) as u8) | EXT_END
    } else {
        (i + 1) as u8
    })
    &&& lfn_body(e, u, i, chksum)
}

/// The fields of the `i`-th long-file-name entry for the code units `u`, but for
/// its first byte.
pub open spec fn lfn_body(e: DirEntryExtRaw, u: Seq<u16>, i: int, chksum: u8) -> bool {
    &&& e.attr == ATTR_LFN
    &&& e.reserved == 0
    &&& e.chksum == chksum
    &&& e.start == 0
    &&& e.name0@ == unit_bytes(u, 13 * i, 5)
    &&& e.name1@ == unit_bytes(u, 13 * i + 5, 6)
    &&& e.name2@ == unit_bytes(u, 13 * i + 11, 2)
}

/// Some character of `name` is not NUL.
pub open spec fn has_non_nul(name: Seq<char>) -> bool {
    exists|i: int| 0 <= i < name.len() && name[i] != '\0'
}

proof fn lemma_encode_utf16_nonzero(name: Seq<char>)
    requires
        has_non_nul(name),
    ensures
        strip_zeros(encode_utf16(name)).len() > 0,
    decreases name.len(),
{
    let c = name.last();
    let dl = name.drop_last();
    let e = encode_utf16(name);
    if c != '\0' {
        // The last unit of a character other than NUL is not zero.
        let v = c as u32;
        assert(v != 0) by {
            vstd::utf8::char_u32_cast(c, v);
            vstd::utf8::char_u32_cast('\0', 0u32);
        }
        assert(utf16_of_char_nonzero(c)) by {
            vstd::utf8::char_is_scalar(c);
        }
        assert(e.last() != 0);
        assert(e.len() > 0);
    } else {
        let i = choose|i: int| 0 <= i < name.len() && name[i] != '\0';
        assert(i < name.len() - 1);
        assert(dl[i] == name[i]);
        lemma_encode_utf16_nonzero(dl);
        assert(encode_utf16(name) =~= encode_utf16(dl).push(0u16));
        assert(encode_utf16(name).drop_last() =~= encode_utf16(dl));
    }
}

/// The last code unit of a character other than NUL is not zero.
pub open spec fn utf16_of_char_nonzero(c: char) -> bool {
    c != '\0' ==> crate::text::utf16_of_char(c).last() != 0
}

/// `strip_zeros` keeps a prefix and drops only zeros.
proof fn lemma_strip_zeros(u: Seq<u16>)
    ensures
        strip_zeros(u).len() <= u.len(),
        strip_zeros(u) == u.subrange(0, strip_zeros(u).len() as int),
        strip_zeros(u).len() > 0 ==> strip_zeros(u).last() != 0,
    decreases u.len(),
{
    if u.len() > 0 && u.last() == 0 {
        lemma_strip_zeros(u.drop_last());
        assert(u.drop_last().subrange(0, strip_zeros(u).len() as int) =~= u.subrange(
            0,
            strip_zeros(u).len() as int,
        ));
    } else {
        assert(u.subrange(0, u.len() as int) =~= u);
    }
}

/// The bytes of `s` before its first `0xFF` byte.
pub open spec fn ff_prefix(s: Seq<u8>) -> Seq<u8>
    decreases s.len(),
{
    if s.len() == 0 || s[0] == 0xFF {
        Seq::empty()
    } else {
        seq![s[0]] + ff_prefix(s.drop_first())
    }
}

/// A prefix of `s` free of `0xFF` that ends at the end of `s` or at a `0xFF` byte
/// is `ff_prefix(s)`.
proof fn lemma_ff_prefix(s: Seq<u8>, r: Seq<u8>)
    requires
        r.len() <= s.len(),
        r == s.subrange(0, r.len() as int),
        forall|k: int| 0 <= k < r.len() ==> r[k] != 0xFF,
        r.len() < s.len() ==> s[r.len() as int] == 0xFF,
    ensures
        r == ff_prefix(s),
    decreases r.len(),
{
    if r.len() == 0 {
        if s.len() > 0 {
            assert(s[0] == 0xFF);
        }
    } else {
        assert(r[0] == s[0]);
        let r1 = r.drop_first();
        let s1 = s.drop_first();
        assert(r1 =~= s1.subrange(0, r1.len() as int));
        if r1.len() < s1.len() {
            assert(s1[r1.len() as int] == s[r.len() as int]);
        }
        lemma_ff_prefix(s1, r1);
        assert(r =~= seq![s[0]] + r1);
    }
}

impl DirEntryExtRaw {
    /// Whether the entry is marked deleted.
    pub fn is_deleted(&self) -> (r: bool)
        ensures
            r == (self.ext_attr == 0xE5),
    {
        return self.ext_attr == 0xE5;
    }

    /// The long-file-name entries for `name`, last part first, each carrying
    /// `chksum`; the name must hold a character other than NUL.
    pub fn new(name: &str, chksum: u8) -> (r: Vec<DirEntryExtRaw>)
        requires
            has_non_nul(name@),
        ensures
            r@.len() == lfn_units(name@).len() / 13,
            r@.len() > 0,
            forall|k: int|
                0 <= k < r@.len() ==> is_lfn_entry(
                    #[trigger] r@[k],
                    lfn_units(name@),
                    r@.len() - 1 - k,
                    r@.len() as int,
                    chksum,
                ),
    {
        let mut result: Vec<DirEntryExtRaw> = Vec::new();
        let mut name_units: Vec<u16> = encode_utf16_vec(name);
        proof {
            lemma_encode_utf16_nonzero(name@);
            lemma_strip_zeros(encode_utf16(name@));
        }
        while name_units[name_units.len() - 1] == 0
            invariant
                name_units@.len() > 0,
                strip_zeros(name_units@) == strip_zeros(encode_utf16(name@)),
                strip_zeros(name_units@).len() > 0,
                strip_zeros(name_units@).len() <= name_units@.len(),
            decreases name_units@.len(),
        {
            name_units.pop();
            proof {
                lemma_strip_zeros(name_units@);
            }
        }
        proof {
            assert(strip_zeros(name_units@) == name_units@);
        }
        if name_units.len() % 13 != 0 {
            name_units.push(0);
        }
        let ghost s1 = name_units@;
        let pad = (13 - name_units.len() % 13) % 13;
        let mut p: usize = 0;
        while p < pad
            invariant
                pad == (13 - s1.len() % 13) % 13,
                p <= pad,
                name_units@ == s1 + Seq::new(p as nat, |i: int| 0xffffu16),
            decreases pad - p,
        {
            name_units.push(0xffff);
            proof {
                assert(name_units@ =~= s1 + Seq::new((p + 1) as nat, |i: int| 0xffffu16));
            }
            p = p + 1;
        }
        proof {
            assert(name_units@ =~= lfn_units(name@));
        }
        let cnt = name_units.len() / 13;
        let ghost u = name_units@;
        let mut i: usize = 0;
        while i < cnt
            invariant
                u == name_units@,
                u == lfn_units(name@),
                cnt == u.len() / 13,
                cnt * 13 == u.len(),
                i <= cnt,
                result@.len() == i,
                forall|k: int|
                    0 <= k < i ==> lfn_body(#[trigger] result@[k], u, k, chksum) && result@[k].ext_attr
                        == (k + 1) as u8,
            decreases cnt - i,
        {
            let mut name0 = [0u8; 10];
            assert(i * 13 + 13 <= cnt * 13) by (nonlinear_arith)
                requires
                    i < cnt,
            ;
            assert(name_units@.len() == name_units.len());
            let base = i * 13;
            let mut j: usize = 0;
            while j < 5
                invariant
                    u == name_units@,
                    cnt * 13 == u.len(),
                    i < cnt,
                    base == i * 13,
                    base + 13 <= u.len() <= usize::MAX,
                    j <= 5,
                    forall|k: int| 0 <= k < 2 * j ==> name0@[k] == unit_bytes(u, base as int, 5)[k],
                decreases 5 - j,
            {
                name0[2 * j] = (name_units[base + j] & 0xff) as u8;
                name0[2 * j + 1] = (name_units[base + j] >> 8) as u8;
                proof {
                    let x = name_units@[base + j];
                    assert(((x & 0xffu16) as u8) == x % 256) by (bit_vector);
                    assert(((x >> 8u16) as u8) == x / 256) by (bit_vector);
                }
                j = j + 1;
            }
            let mut name1 = [0u8; 12];
            let base1 = base + 5;
            let mut j: usize = 0;
            while j < 6
                invariant
                    u == name_units@,
                    cnt * 13 == u.len(),
                    i < cnt,
                    base1 == i * 13 + 5,
                    base1 + 8 <= u.len() <= usize::MAX,
                    j <= 6,
                    forall|k: int| 0 <= k < 2 * j ==> name1@[k] == unit_bytes(u, base1 as int, 6)[k],
                decreases 6 - j,
            {
                name1[2 * j] = (name_units[base1 + j] & 0xff) as u8;
                name1[2 * j + 1] = (name_units[base1 + j] >> 8) as u8;
                proof {
                    let x = name_units@[base1 + j];
                    assert(((x & 0xffu16) as u8) == x % 256) by (bit_vector);
                    assert(((x >> 8u16) as u8) == x / 256) by (bit_vector);
                }
                j = j + 1;
            }
            let mut name2 = [0u8; 4];
            let base2 = base1 + 6;
            let mut j: usize = 0;
            while j < 2
                invariant
                    u == name_units@,
                    cnt * 13 == u.len(),
                    i < cnt,
                    base2 == i * 13 + 11,
                    base2 + 2 <= u.len() <= usize::MAX,
                    j <= 2,
                    forall|k: int| 0 <= k < 2 * j ==> name2@[k] == unit_bytes(u, base2 as int, 2)[k],
                decreases 2 - j,
            {
                name2[2 * j] = (name_units[base2 + j] & 0xff) as u8;
                name2[2 * j + 1] = (name_units[base2 + j] >> 8) as u8;
                proof {
                    let x = name_units@[base2 + j];
                    assert(((x & 0xffu16) as u8) == x % 256) by (bit_vector);
                    assert(((x >> 8u16) as u8) == x / 256) by (bit_vector);
                }
                j = j + 1;
            }
            proof {
                assert(name0@ =~= unit_bytes(u, 13 * i, 5));
                assert(name1@ =~= unit_bytes(u, 13 * i + 5, 6));
                assert(name2@ =~= unit_bytes(u, 13 * i + 11, 2));
            }
            let dex = DirEntryExtRaw {
                ext_attr: (i + 1) as u8,
                name0,
                attr: ATTR_LFN,
                reserved: 0,
                chksum,
                name1,
                start: 0,
                name2,
            };
            result.push(dex);
            i = i + 1;
        }
        assert(cnt > 0) by {
            lemma_strip_zeros(encode_utf16(name@));
        }
        let last = cnt - 1;
        let mut e = result[last];
        e.ext_attr = e.ext_attr | EXT_END;
        result.set(last, e);
        assert forall|k: int| 0 <= k < result@.len() implies is_lfn_entry(
            #[trigger] result@[k],
            u,
            k,
            cnt as int,
            chksum,
        ) by {}
        let mut rresult: Vec<DirEntryExtRaw> = Vec::new();
        while result.len() > 0
            invariant
                result@.len() + rresult@.len() == cnt,
                forall|k: int|
                    0 <= k < result@.len() ==> is_lfn_entry(
                        #[trigger] result@[k],
                        u,
                        k,
                        cnt as int,
                        chksum,
                    ),
                forall|k: int|
                    0 <= k < rresult@.len() ==> is_lfn_entry(
                        #[trigger] rresult@[k],
                        u,
                        cnt - 1 - k,
                        cnt as int,
                        chksum,
                    ),
            decreases result@.len(),
        {
            let x = result.pop().unwrap();
            rresult.push(x);
        }
        rresult
    }

    /// Whether this is the last entry of its group.
    pub fn is_end(&self) -> (r: bool)
        ensures
            r == (self.ext_attr & EXT_END == EXT_END),
    {
        return self.ext_attr & EXT_END == EXT_END;
    }

    /// The index of this entry in its group (the attribute without the end flag).
    pub fn get_index(&self) -> (r: u8)
        ensures
            r == self.ext_attr & !EXT_END,
    {
        return self.ext_attr & !EXT_END;
    }

    /// Whether the attribute marks a long-file-name entry.
    pub fn is_ext(&self) -> (r: bool)
        ensures
            r == (self.attr == ATTR_LFN),
    {
        return self.attr == ATTR_LFN;
    }

    /// The name bytes this entry holds, up to the first `0xFF` byte.
    pub fn get_name(&self) -> (r: Vec<u8>)
        ensures
            r@ == ff_prefix(ext_name_bytes(*self)),
    {
        let r = self.get_name_bytes();
        proof {
            lemma_ff_prefix(ext_name_bytes(*self), r@);
        }
        r
    }

    fn get_name_bytes(&self) -> (r: Vec<u8>)
        ensures
            r@ == ext_name_bytes(*self).subrange(0, r@.len() as int),
            forall|k: int| 0 <= k < r@.len() ==> r@[k] != 0xFF,
            r@.len() < 26 ==> ext_name_bytes(*self)[r@.len() as int] == 0xFF,
            r@.len() <= 26,
    {
        let ghost all = ext_name_bytes(*self);
        let mut name: Vec<u8> = Vec::with_capacity(26);
        let mut i: usize = 0;
        while i < 10
            invariant
                all == ext_name_bytes(*self),
                i <= 10,
                name@ == all.subrange(0, i as int),
                forall|k: int| 0 <= k < i ==> all[k] != 0xFF,
            decreases 10 - i,
        {
            assert(all[i as int] == self.name0@[i as int]);
            if self.name0[i] == 0xFF {
                return name;
            } else {
                name.push(self.name0[i]);
            }
            proof {
                assert(name@ =~= all.subrange(0, i + 1));
            }
            i = i + 1;
        }
        let mut i: usize = 0;
        while i < 12
            invariant
                all == ext_name_bytes(*self),
                i <= 12,
                name@ == all.subrange(0, 10 + i),
                forall|k: int| 0 <= k < 10 + i ==> all[k] != 0xFF,
            decreases 12 - i,
        {
            assert(all[10 + i] == self.name1@[i as int]);
            if self.name1[i] == 0xFF {
                return name;
            } else {
                name.push(self.name1[i]);
            }
            proof {
                assert(name@ =~= all.subrange(0, 10 + i + 1));
            }
            i = i + 1;
        }
        let mut i: usize = 0;
        while i < 4
            invariant
                all == ext_name_bytes(*self),
                i <= 4,
                name@ == all.subrange(0, 22 + i),
                forall|k: int| 0 <= k < 22 + i ==> all[k] != 0xFF,
            decreases 4 - i,
        {
            assert(all[22 + i] == self.name2@[i as int]);
            if self.name2[i] == 0xFF {
                return name;
            } else {
                name.push(self.name2[i]);
            }
            proof {
                assert(name@ =~= all.subrange(0, 22 + i + 1));
            }
            i = i + 1;
        }
        name
    }
}

/// In the long-file-name entries that `DirEntryExtRaw::new` makes, fewer than
/// 64 of them, the index (see `get_index`) counts down from the number of
/// entries at the first to 1 at the last, and only the first carries the end
/// flag (see `is_end`).
pub proof fn lemma_ext_entries_indexed(v: Seq<DirEntryExtRaw>, u: Seq<u16>, chksum: u8)
    requires
        0 < v.len() < 64,
        forall|k: int|
            0 <= k < v.len() ==> is_lfn_entry(
                #[trigger] v[k],
                u,
                v.len() - 1 - k,
                v.len() as int,
                chksum,
            ),
    ensures
        forall|j: int|
            0 <= j < v.len() ==> (#[trigger] v[j].ext_attr & !EXT_END) == (v.len() - j) as u8 && ((
            v[j].ext_attr & EXT_END == EXT_END) <==> j == 0),
{
    assert forall|j: int| 0 <= j < v.len() implies (#[trigger] v[j].ext_attr & !EXT_END) == (v.len()
        - j) as u8 && ((v[j].ext_attr & EXT_END == EXT_END) <==> j == 0) by {
        assert(is_lfn_entry(v[j], u, v.len() - 1 - j, v.len() as int, chksum));
        let x = (v.len() - j) as u8;
        let a = v[j].ext_attr;
        assert(1 <= x < 64);
        assert((x | 0x40u8) & !0x40u8 == x && (x | 0x40u8) & 0x40u8 == 0x40u8 && x & !0x40u8 == x
            && x & 0x40u8 != 0x40u8) by (bit_vector)
            requires
                1 <= x < 64,
        ;
        if j == 0 {
            assert(a == x | EXT_END);
        } else {
            assert(a == x);
        }
    }
}

/// The UTF-16 code units of ASCII characters: one unit each, of the same value.
pub open spec fn ascii_units(name: Seq<char>) -> Seq<u16> {
    Seq::new(name.len(), |i: int| (name[i] as u32) as u16)
}

/// Whether every character of `name` is ASCII other than NUL.
pub open spec fn ascii_no_nul(name: Seq<char>) -> bool {
    forall|i: int| 0 <= i < name.len() ==> 0 < (#[trigger] name[i] as u32) < 0x80
}

proof fn lemma_ascii_utf16(name: Seq<char>)
    requires
        ascii_no_nul(name),
    ensures
        encode_utf16(name) == ascii_units(name),
        strip_zeros(encode_utf16(name)) == ascii_units(name),
        decode_utf16(ascii_units(name)) == Some(name),
    decreases name.len(),
{
    if name.len() > 0 {
        let d = name.drop_last();
        assert forall|i: int| 0 <= i < d.len() implies 0 < (#[trigger] d[i] as u32) < 0x80 by {
            assert(d[i] == name[i]);
        }
        lemma_ascii_utf16(d);
        let c = name.last();
        assert(0 < (name[name.len() - 1] as u32) < 0x80);
        assert(utf16_of_char(c) =~= seq![(c as u32) as u16]);
        assert(encode_utf16(name) =~= ascii_units(name));
        assert(ascii_units(name).last() != 0);
        lemma_ascii_decode(name);
    } else {
        assert(encode_utf16(name) =~= ascii_units(name));
    }
}

proof fn lemma_ascii_decode(name: Seq<char>)
    requires
        ascii_no_nul(name),
    ensures
        decode_utf16(ascii_units(name)) == Some(name),
    decreases name.len(),
{
    let u = ascii_units(name);
    if name.len() == 0 {
        assert(name =~= Seq::<char>::empty());
    } else {
        let d = name.drop_first();
        assert forall|i: int| 0 <= i < d.len() implies 0 < (#[trigger] d[i] as u32) < 0x80 by {
            assert(d[i] == name[i + 1]);
        }
        lemma_ascii_decode(d);
        assert(u.drop_first() =~= ascii_units(d));
        assert(0 < (name[0] as u32) < 0x80);
        let v = name[0] as u32;
        assert(u[0] == v as u16);
        assert(u[0] as u32 == v);
        vstd::utf8::char_u32_cast(name[0], v);
        assert((u[0] as char) == (v as char));
        assert((u[0] as char) == name[0]);
        assert(seq![u[0] as char] + d =~= name);
    }
}

/// The bytes of a long-file-name entry are the bytes of its thirteen units.
proof fn lemma_entry_unit_bytes(e: DirEntryExtRaw, u: Seq<u16>, i: int, chksum: u8)
    requires
        lfn_body(e, u, i, chksum),
    ensures
        ext_name_bytes(e) == unit_bytes(u, 13 * i, 13),
{
    assert(ext_name_bytes(e) =~= unit_bytes(u, 13 * i, 13)) by {
        assert forall|k: int| 0 <= k < 26 implies #[trigger] ext_name_bytes(e)[k] == unit_bytes(
            u,
            13 * i,
            13,
        )[k] by {
            if k < 10 {
                assert(ext_name_bytes(e)[k] == e.name0@[k]);
            } else if k < 22 {
                assert(ext_name_bytes(e)[k] == e.name1@[k - 10]);
                assert((k - 10) % 2 == k % 2 && 13 * i + 5 + (k - 10) / 2 == 13 * i + k / 2);
            } else {
                assert(ext_name_bytes(e)[k] == e.name2@[k - 22]);
                assert((k - 22) % 2 == k % 2 && 13 * i + 11 + (k - 22) / 2 == 13 * i + k / 2);
            }
        }
    }
}

/// The bytes of consecutive runs of units are the bytes of the whole run.
proof fn lemma_unit_bytes_concat(u: Seq<u16>, f: int, a: int, b: int)
    requires
        0 <= a,
        0 <= b,
    ensures
        unit_bytes(u, f, a) + unit_bytes(u, f + a, b) == unit_bytes(u, f, a + b),
{
    assert forall|k: int| 0 <= k < 2 * (a + b) implies #[trigger] (unit_bytes(u, f, a) + unit_bytes(
        u,
        f + a,
        b,
    ))[k] == unit_bytes(u, f, a + b)[k] by {
        if k >= 2 * a {
            assert((k - 2 * a) % 2 == k % 2 && f + a + (k - 2 * a) / 2 == f + k / 2);
        }
    }
    assert(unit_bytes(u, f, a) + unit_bytes(u, f + a, b) =~= unit_bytes(u, f, a + b));
}

/// The code units that `DirEntryExtRaw::new` lays out for an ASCII name: the
/// name's units, one zero unit unless the count is a multiple of 13, then
/// `0xFFFF` units.
proof fn lemma_lfn_units_ascii(name: Seq<char>)
    requires
        ascii_no_nul(name),
        name.len() > 0,
    ensures
        ({
            let u = lfn_units(name);
            let n = name.len() as int;
            let l = if n % 13 == 0 { n } else { n + 1 };
            &&& u.len() % 13 == 0
            &&& l <= u.len() < l + 13
            &&& forall|j: int| 0 <= j < n ==> #[trigger] u[j] == ascii_units(name)[j]
            &&& n < l ==> u[n] == 0
            &&& forall|j: int| l <= j < u.len() ==> #[trigger] u[j] == 0xffff
        }),
{
    lemma_ascii_utf16(name);
}

/// The name bytes of entries `cnt - m` to `cnt - 1` of the entries that
/// `DirEntryExtRaw::new` makes for an ASCII name.
proof fn lemma_lfn_bytes_take(exts: Seq<DirEntryExtRaw>, name: Seq<char>, chksum: u8, m: int)
    requires
        ascii_no_nul(name),
        name.len() > 0,
        exts.len() == lfn_units(name).len() / 13,
        forall|k: int|
            0 <= k < exts.len() ==> is_lfn_entry(
                #[trigger] exts[k],
                lfn_units(name),
                exts.len() - 1 - k,
                exts.len() as int,
                chksum,
            ),
        1 <= m <= exts.len(),
    ensures
        ({
            let n = name.len() as int;
            let l = if n % 13 == 0 { n } else { n + 1 };
            let f = 13 * (exts.len() - m);
            lfn_bytes(exts.take(m)) == unit_bytes(lfn_units(name), f, l - f)
        }),
    decreases m,
{
    let u = lfn_units(name);
    let n = name.len() as int;
    let l = if n % 13 == 0 { n } else { n + 1 };
    let cnt = exts.len() as int;
    lemma_lfn_units_ascii(name);
    let t = exts.take(m);
    assert(t.last() == exts[m - 1]);
    assert(t.drop_last() =~= exts.take(m - 1));
    let i = cnt - m;
    assert(is_lfn_entry(exts[m - 1], u, i, cnt, chksum));
    lemma_entry_unit_bytes(exts[m - 1], u, i, chksum);
    let sb = unit_bytes(u, 13 * i, 13);
    assert(13 * cnt == u.len());
    if m == 1 {
        // The last entry: its bytes up to the first 0xFF byte.
        let r = unit_bytes(u, 13 * i, l - 13 * i);
        assert(l - 13 * i <= 13);
        assert(r =~= sb.subrange(0, r.len() as int));
        assert forall|k: int| 0 <= k < r.len() implies r[k] != 0xFF by {
            let j = 13 * i + k / 2;
            if j < n {
                assert(u[j] == ascii_units(name)[j]);
                assert(0 < (name[j] as u32) < 0x80);
            }
        }
        if r.len() < sb.len() {
            assert(u[l] == 0xffff);
            assert(sb[r.len() as int] == (u[l] % 256) as u8);
        }
        lemma_ff_prefix(sb, r);
        assert(exts.take(0) =~= Seq::<DirEntryExtRaw>::empty());
        assert(t.drop_last().len() == 0);
        assert(lfn_bytes(t.drop_last()) == Seq::<u8>::empty());
        assert(lfn_bytes(t) == ff_prefix(ext_name_bytes(t.last())) + lfn_bytes(t.drop_last()));
        assert(lfn_bytes(t) =~= r);
    } else {
        lemma_lfn_bytes_take(exts, name, chksum, m - 1);
        // A full entry: no 0xFF byte.
        assert(13 * i + 13 <= n);
        assert forall|k: int| 0 <= k < sb.len() implies sb[k] != 0xFF by {
            let j = 13 * i + k / 2;
            assert(u[j] == ascii_units(name)[j]);
            assert(0 < (name[j] as u32) < 0x80);
        }
        assert(sb.subrange(0, sb.len() as int) =~= sb);
        lemma_ff_prefix(sb, sb);
        lemma_unit_bytes_concat(u, 13 * i, 13, l - 13 * i - 13);
    }
}

/// Only the first of the entries carries the end flag.
proof fn lemma_end_index_take(exts: Seq<DirEntryExtRaw>, m: int)
    requires
        1 <= m <= exts.len(),
        forall|j: int|
            0 <= j < exts.len() ==> ((#[trigger] exts[j].ext_attr & EXT_END == EXT_END) <==> j == 0),
    ensures
        lfn_end_index(exts.take(m)) == Some(0int),
    decreases m,
{
    let t = exts.take(m);
    assert(t.last() == exts[m - 1]);
    if m > 1 {
        assert(t.drop_last() =~= exts.take(m - 1));
        lemma_end_index_take(exts, m - 1);
    }
}

/// What `DirEntryGroup::get_name` reads back of a group that `DirEntryGroup::new`
/// made for a name of ASCII characters other than NUL, short enough that the
/// entries number fewer than 64 (at most 819 characters): the long name,
/// ending where the entry flagged as the end is, decodes to the name.
pub proof fn lemma_new_group_name(g: DirEntryGroup, name: Seq<char>, start: u32, attr: u8)
    requires
        0 < name.len() <= 819,
        ascii_no_nul(name),
        group_made(g, name, start, attr),
    ensures
        g.exts@.len() > 0,
        lfn_end_index(g.exts@) == Some(0int),
        group_name_decodable(g.exts@),
        decode_utf16(lfn_name_units(lfn_bytes(g.exts@))) == Some(name),
{
    let exts = g.exts@;
    let u = lfn_units(name);
    let n = name.len() as int;
    let l = if n % 13 == 0 { n } else { n + 1 };
    lemma_lfn_units_ascii(name);
    let cnt = exts.len() as int;
    assert(cnt > 0 && cnt < 64);
    let chksum = chksum_of(g.entry.name@ + g.entry.ext@);
    lemma_ext_entries_indexed(exts, u, chksum);
    assert(exts.take(cnt) =~= exts);
    lemma_end_index_take(exts, cnt);
    lemma_lfn_bytes_take(exts, name, chksum, cnt);
    let b = unit_bytes(u, 0, l);
    assert(lfn_bytes(exts) == b);
    let pairs = Seq::new(b.len() / 2, |j: int| le16(b[2 * j], b[2 * j + 1]) as u16);
    let a = ascii_units(name);
    let rest = if n < l { seq![0u16] } else { Seq::<u16>::empty() };
    assert(pairs =~= a + rest) by {
        assert forall|j: int| 0 <= j < l implies #[trigger] pairs[j] == (a + rest)[j] by {
            assert(b[2 * j] == (u[j] % 256) as u8);
            assert(b[2 * j + 1] == (u[j] / 256) as u8);
            if j < n {
                assert(u[j] == a[j]);
            }
        }
    }
    assert forall|j: int| 0 <= j < a.len() implies #[trigger] a[j] != 0 by {
        assert(0 < (name[j] as u32) < 0x80);
    }
    assert((a + rest).subrange(0, a.len() as int) =~= a);
    lemma_zero_prefix(a + rest, a);
    lemma_ascii_utf16(name);
}

/// The name bytes of a group of long-file-name entries: those of the last entry
/// first, down to those of the first.
pub open spec fn lfn_bytes(exts: Seq<DirEntryExtRaw>) -> Seq<u8>
    decreases exts.len(),
{
    if exts.len() == 0 {
        Seq::empty()
    } else {
        ff_prefix(ext_name_bytes(exts.last())) + lfn_bytes(exts.drop_last())
    }
}

/// The index of the last entry of the group that is flagged as the end.
pub open spec fn lfn_end_index(exts: Seq<DirEntryExtRaw>) -> Option<int>
    decreases exts.len(),
{
    if exts.len() == 0 {
        None
    } else if exts.last().ext_attr & EXT_END == EXT_END {
        Some(exts.len() - 1)
    } else {
        lfn_end_index(exts.drop_last())
    }
}

/// The UTF-16 code units of name bytes taken in little-endian pairs (an odd last
/// byte is dropped), up to the first zero unit.
pub open spec fn lfn_name_units(b: Seq<u8>) -> Seq<u16> {
    zero_prefix(Seq::new(b.len() / 2, |j: int| le16(b[2 * j], b[2 * j + 1]) as u16))
}

/// The units of `u` before its first zero unit.
pub open spec fn zero_prefix(u: Seq<u16>) -> Seq<u16>
    decreases u.len(),
{
    if u.len() == 0 || u[0] == 0 {
        Seq::empty()
    } else {
        seq![u[0]] + zero_prefix(u.drop_first())
    }
}

/// A directory entry together with the long-file-name entries that precede it.
#[derive(Clone)]
pub struct DirEntryGroup {
    pub exts: Vec<DirEntryExtRaw>,
    pub entry: DirEntryRaw,
    pub offset: usize,
    pub slotsize: usize,
}

/// `g` holds the entries that `DirEntryGroup::new` makes for a file named
/// `name` whose chain starts at `start`, with attribute `attr`: the short entry
/// (8.3 name, start, size zero, other fields zero) and the long-file-name entries,
/// last part first.
pub open spec fn group_made(g: DirEntryGroup, name: Seq<char>, start: u32, attr: u8) -> bool {
    &&& g.entry.attr == attr
    &&& g.entry.name@ == short_name(vstd::utf8::encode_utf8(name)).0
    &&& g.entry.ext@ == short_name(vstd::utf8::encode_utf8(name)).1
    &&& g.entry.start_h == start / 65536
    &&& g.entry.start_l == start % 65536
    &&& g.entry.size == 0
    &&& g.entry.reserved == 0 && g.entry.created_minisec == 0 && g.entry.created_sec == 0
    &&& g.entry.created_date == 0 && g.entry.accessed_sec == 0 && g.entry.mod_sec == 0
    &&& g.entry.mod_date == 0
    &&& g.exts@.len() == lfn_units(name).len() / 13
    &&& forall|k: int|
        0 <= k < g.exts@.len() ==> is_lfn_entry(
            #[trigger] g.exts@[k],
            lfn_units(name),
            g.exts@.len() - 1 - k,
            g.exts@.len() as int,
            chksum_of(g.entry.name@ + g.entry.ext@),
        )
}

/// `g1` is `g0` renamed to `name`: a new 8.3 name and new long-file-name
/// entries, the rest unchanged.
pub open spec fn group_renamed(g0: DirEntryGroup, g1: DirEntryGroup, name: Seq<char>) -> bool {
    &&& g1.entry.name@ == short_name(vstd::utf8::encode_utf8(name)).0
    &&& g1.entry.ext@ == short_name(vstd::utf8::encode_utf8(name)).1
    &&& same_but_name(g1.entry, g0.entry)
    &&& g1.exts@.len() == lfn_units(name).len() / 13
    &&& forall|k: int|
        0 <= k < g1.exts@.len() ==> is_lfn_entry(
            #[trigger] g1.exts@[k],
            lfn_units(name),
            g1.exts@.len() - 1 - k,
            g1.exts@.len() as int,
            chksum_of(g1.entry.name@ + g1.entry.ext@),
        )
    &&& g1.offset == g0.offset
    &&& g1.slotsize == g0.slotsize
}

/// The bytes of the entry made up for the root directory: zeroes but the
/// directory attribute.
pub open spec fn root_entry_bytes() -> Seq<u8> {
    Seq::new(11, |i: int| 0u8) + seq![ATTR_SUBDIR] + Seq::new(20, |i: int| 0u8)
}

/// The message for a group whose end flag is not on its first entry.
pub open spec fn end_not_end_msg() -> Seq<char> {
    "get_name: end not end?"@
}

/// The message for a group without an end flag.
pub open spec fn missing_end_msg() -> Seq<char> {
    "get_name: missing end for lfn"@
}

/// The long name that a group holds can be decoded (or no long name is read).
pub open spec fn group_name_decodable(exts: Seq<DirEntryExtRaw>) -> bool {
    exts.len() > 0 && lfn_end_index(exts) == Some(0int) ==> decode_utf16(
        lfn_name_units(lfn_bytes(exts)),
    ) is Some
}

impl DirEntryGroup {
    /// The group standing for the root directory, which has no entry of its own:
    /// a directory entry with a blank name and no long name.
    pub fn root() -> (r: DirEntryGroup)
        ensures
            r.exts@.len() == 0,
            r.entry.attr == ATTR_SUBDIR,
            r.entry.name@ == Seq::new(8, |i: int| 0u8),
            r.entry.ext@ == Seq::new(3, |i: int| 0u8),
            r.entry.start_h == 0 && r.entry.start_l == 0 && r.entry.size == 0,
            entry_bytes(r.entry) == root_entry_bytes(),
            r.offset == 0 && r.slotsize == 0,
    {
        let mut entry = DirEntryRaw::blank();
        entry.attr = ATTR_SUBDIR;
        assert(entry_bytes(entry) =~= root_entry_bytes());
        DirEntryGroup { exts: Vec::new(), entry, offset: 0, slotsize: 0 }
    }

    /// A group for a file named `name` whose chain starts at `start`, with
    /// attribute `attr`: the 8.3 entry and the long-file-name entries.
    pub fn new(name: &str, start: u32, attr: u8) -> (r: DirEntryGroup)
        requires
            has_non_nul(name@),
        ensures
            group_made(r, name@, start, attr),
            r.offset == 0 && r.slotsize == 0,
    {
        let mut entry = DirEntryRaw::blank();
        entry.attr = attr;
        entry.set_name(name);
        entry.set_start(start);
        let exts = DirEntryExtRaw::new(name, entry.chksum());
        return DirEntryGroup { entry, exts, offset: 0, slotsize: 0 };
    }

    /// Renames the file: new 8.3 name and new long-file-name entries.
    pub fn rename(&mut self, name: &str) -> (r: Result<(), ()>)
        requires
            has_non_nul(name@),
        ensures
            r is Ok,
            group_renamed(*old(self), *final(self), name@),
    {
        self.entry.set_name(name);
        self.exts = DirEntryExtRaw::new(name, self.entry.chksum());
        return Ok(());
    }

    /// Whether the group is the entry `.`.
    pub fn is_cur(&self) -> (r: bool)
        ensures
            r == (self.entry.name@[0] == 0x2e && self.entry.name@[1] == 0x20),
    {
        return self.entry.name[0] == 0x2e && self.entry.name[1] == 0x20;
    }

    /// Whether the group is the entry `..`.
    pub fn is_par(&self) -> (r: bool)
        ensures
            r == (self.entry.name@[0] == 0x2e && self.entry.name@[1] == 0x2e
                && self.entry.name@[2] == 0x20),
    {
        return self.entry.name[0] == 0x2e && self.entry.name[1] == 0x2e && self.entry.name[2]
            == 0x20;
    }

    /// The file name the group holds: the long name when there are long-file-name
    /// entries (an error when their end flag is missing or not on the first entry),
    /// else the short name.
    pub fn get_name(&self) -> (r: Result<String, &'static str>)
        requires
            group_name_decodable(self.exts@),
            self.exts@.len() == 0 ==> valid_utf8(self.entry.name@) && valid_utf8(self.entry.ext@),
        ensures
            self.exts@.len() == 0 ==> r is Ok && r->Ok_0@ == short_entry_name(
                self.entry.name@,
                self.entry.ext@,
            ),
            self.exts@.len() > 0 && lfn_end_index(self.exts@) is None ==> r is Err && r->Err_0@
                == missing_end_msg(),
            self.exts@.len() > 0 && lfn_end_index(self.exts@) is Some && lfn_end_index(
                self.exts@,
            )->0 != 0 ==> r is Err && r->Err_0@ == end_not_end_msg(),
            self.exts@.len() > 0 && lfn_end_index(self.exts@) == Some(0int) ==> r is Ok
                && r->Ok_0@ == decode_utf16(lfn_name_units(lfn_bytes(self.exts@)))->0,
    {
        let mut name: Vec<u8> = Vec::new();
        let n = self.exts.len();
        if n > 0 {
            let mut i = n;
            proof {
                assert(self.exts@.subrange(0, n as int) =~= self.exts@);
                assert(name@ + lfn_bytes(self.exts@) =~= lfn_bytes(self.exts@));
            }
            while i > 0
                invariant
                    n == self.exts@.len(),
                    group_name_decodable(self.exts@),
                    i <= n,
                    name@ + lfn_bytes(self.exts@.subrange(0, i as int)) == lfn_bytes(self.exts@),
                    lfn_end_index(self.exts@) == lfn_end_index(self.exts@.subrange(0, i as int)),
                decreases i,
            {
                i = i - 1;
                let ghost sub = self.exts@.subrange(0, i + 1);
                proof {
                    assert(sub.drop_last() =~= self.exts@.subrange(0, i as int));
                    assert(sub.last() == self.exts@[i as int]);
                }
                let mut part = self.exts[i].get_name();
                name.append(&mut part);
                proof {
                    assert(name@ + lfn_bytes(self.exts@.subrange(0, i as int)) =~= lfn_bytes(
                        self.exts@,
                    ));
                }
                if self.exts[i].is_end() {
                    proof {
                        assert(lfn_end_index(sub) == Some(i as int));
                    }
                    if i != 0 {
                        proof {
                            reveal_strlit("get_name: end not end?");
                        }
                        return Err("get_name: end not end?");
                    }
                    proof {
                        assert(self.exts@.subrange(0, 0) =~= Seq::<DirEntryExtRaw>::empty());
                        assert(name@ =~= lfn_bytes(self.exts@));
                    }
                    let units = lfn_units_of_bytes(&name);
                    let s = string_from_utf16(&units);
                    return Ok(s);
                }
                proof {
                    assert(lfn_end_index(sub) == lfn_end_index(sub.drop_last()));
                }
            }
            proof {
                assert(self.exts@.subrange(0, 0) =~= Seq::<DirEntryExtRaw>::empty());
                reveal_strlit("get_name: missing end for lfn");
            }
            return Err("get_name: missing end for lfn");
        } else {
            return Ok(self.entry.get_name());
        }
    }

    /// The first cluster of the file's chain.
    pub fn get_start(&self) -> (r: u32)
        ensures
            r == self.entry.start_h * 65536 + self.entry.start_l,
    {
        return self.entry.get_start();
    }
}

/// The code units of long-name bytes: little-endian pairs up to the first zero.
fn lfn_units_of_bytes(name: &Vec<u8>) -> (r: Vec<u16>)
    ensures
        r@ == lfn_name_units(name@),
{
    let ghost all = Seq::new(name@.len() / 2, |j: int| le16(name@[2 * j], name@[2 * j + 1]) as u16);
    let len = name.len();
    let nlen = len >> 1;
    proof {
        assert((len >> 1usize) == len / 2) by (bit_vector);
    }
    let mut n: Vec<u16> = Vec::with_capacity(nlen);
    let mut j: usize = 0;
    while j < nlen
        invariant
            nlen == name@.len() / 2,
            name@.len() == name.len(),
            all == Seq::new(name@.len() / 2, |j: int| le16(name@[2 * j], name@[2 * j + 1]) as u16),
            j <= nlen,
            n@ == all.subrange(0, j as int),
            forall|k: int| 0 <= k < j ==> all[k] != 0,
        decreases nlen - j,
    {
        let lo = name[2 * j];
        let hi = name[2 * j + 1];
        let tmp: u16 = hi as u16;
        let tmp: u16 = (tmp << 8) | (lo as u16);
        proof {
            assert((((hi as u16) << 8u16) | (lo as u16)) == lo as u16 + 256 * (hi as u16))
                by (bit_vector);
            assert(all[j as int] == tmp);
        }
        if tmp == 0 {
            proof {
                lemma_zero_prefix(all, n@);
            }
            return n;
        }
        n.push(tmp);
        proof {
            assert(n@ =~= all.subrange(0, j + 1));
        }
        j = j + 1;
    }
    proof {
        assert(all.subrange(0, j as int) =~= all);
        lemma_zero_prefix(all, n@);
    }
    n
}

/// A zero-free prefix of `u` that ends at the end of `u` or at a zero unit is
/// `zero_prefix(u)`.
proof fn lemma_zero_prefix(u: Seq<u16>, r: Seq<u16>)
    requires
        r.len() <= u.len(),
        r == u.subrange(0, r.len() as int),
        forall|k: int| 0 <= k < r.len() ==> u[k] != 0,
        r.len() < u.len() ==> u[r.len() as int] == 0,
    ensures
        r == zero_prefix(u),
    decreases r.len(),
{
    if r.len() == 0 {
    } else {
        let r1 = r.drop_first();
        let u1 = u.drop_first();
        assert(r1 =~= u1.subrange(0, r1.len() as int));
        if r1.len() < u1.len() {
            assert(u1[r1.len() as int] == u[r.len() as int]);
        }
        assert forall|k: int| 0 <= k < r1.len() implies u1[k] != 0 by {
            assert(u1[k] == u[k + 1]);
        }
        lemma_zero_prefix(u1, r1);
        assert(r =~= seq![u[0]] + r1);
    }
}

/// Whether the 32 bytes `buf`, read as an entry, form a long-file-name entry.
fn is_ext(buf: &[u8; 32]) -> (r: bool)
    ensures
        r == (buf@[11] & ATTR_LFN == ATTR_LFN),
{
    (buf[11] & ATTR_LFN) == ATTR_LFN
}

/// Whether the 32 bytes `buf`, read as an entry, are marked deleted.
fn is_del(buf: &[u8; 32]) -> (r: bool)
    ensures
        r == (buf@[0] == 0xE5),
{
    buf[0] == 0xE5
}

/// The two bytes of `v`, low byte first.
pub open spec fn u16_le(v: u16) -> Seq<u8> {
    seq![(v % 256) as u8, (v / 256) as u8]
}

/// The four bytes of `v`, low byte first.
pub open spec fn u32_le(v: u32) -> Seq<u8> {
    seq![(v % 256) as u8, ((v / 256) % 256) as u8, ((v / 65536) % 256) as u8, (v / 16777216) as u8]
}

/// The 32 bytes of a short entry as it lies in a directory: the fields in order,
/// without padding, numbers in little-endian order.
pub open spec fn entry_bytes(e: DirEntryRaw) -> Seq<u8> {
    e.name@ + e.ext@ + seq![e.attr, e.reserved, e.created_minisec] + u16_le(e.created_sec) + u16_le(
        e.created_date,
    ) + u16_le(e.accessed_sec) + u16_le(e.start_h) + u16_le(e.mod_sec) + u16_le(e.mod_date)
        + u16_le(e.start_l) + u32_le(e.size)
}

/// The 32 bytes of a long-file-name entry as it lies in a directory.
pub open spec fn ext_entry_bytes(e: DirEntryExtRaw) -> Seq<u8> {
    seq![e.ext_attr] + e.name0@ + seq![e.attr, e.reserved, e.chksum] + e.name1@ + u16_le(e.start)
        + e.name2@
}

/// Two bytes read back as a `u16` give the bytes again.
proof fn lemma_u16_le(b0: u8, b1: u8)
    ensures
        b0 + 256 * b1 <= u16::MAX,
        u16_le((b0 + 256 * b1) as u16) == seq![b0, b1],
{
    let v = (b0 + 256 * b1) as u16;
    vstd::arithmetic::div_mod::lemma_fundamental_div_mod_converse(v as int, 256, b1 as int, b0 as int);
    assert(u16_le(v) =~= seq![b0, b1]);
}

/// Four bytes read back as a `u32` give the bytes again.
proof fn lemma_u32_le(b0: u8, b1: u8, b2: u8, b3: u8)
    ensures
        b0 + 256 * b1 + 65536 * b2 + 16777216 * b3 <= u32::MAX,
        u32_le((b0 + 256 * b1 + 65536 * b2 + 16777216 * b3) as u32) == seq![b0, b1, b2, b3],
{
    let v = (b0 + 256 * b1 + 65536 * b2 + 16777216 * b3) as int;
    let q1 = b1 + 256 * b2 + 65536 * b3;
    let q2 = b2 + 256 * b3;
    vstd::arithmetic::div_mod::lemma_fundamental_div_mod_converse(v, 256, q1, b0 as int);
    vstd::arithmetic::div_mod::lemma_fundamental_div_mod_converse(q1, 256, q2, b1 as int);
    vstd::arithmetic::div_mod::lemma_fundamental_div_mod_converse(q2, 256, b3 as int, b2 as int);
    vstd::arithmetic::div_mod::lemma_fundamental_div_mod_converse(v, 65536, q2, b0 + 256 * b1);
    vstd::arithmetic::div_mod::lemma_fundamental_div_mod_converse(
        v,
        16777216,
        b3 as int,
        b0 + 256 * b1 + 65536 * b2,
    );
    assert(u32_le(v as u32) =~= seq![b0, b1, b2, b3]);
}

/// A `u16` split into bytes and read back is itself.
proof fn lemma_u16_le_inj(a: u16, b: u16)
    requires
        u16_le(a) == u16_le(b),
    ensures
        a == b,
{
    assert(u16_le(a)[0] == u16_le(b)[0] && u16_le(a)[1] == u16_le(b)[1]);
}

/// A `u32` split into bytes and read back is itself.
proof fn lemma_u32_le_inj(a: u32, b: u32)
    requires
        u32_le(a) == u32_le(b),
    ensures
        a == b,
{
    assert(u32_le(a)[0] == u32_le(b)[0] && u32_le(a)[1] == u32_le(b)[1]);
    assert(u32_le(a)[2] == u32_le(b)[2] && u32_le(a)[3] == u32_le(b)[3]);
    vstd::arithmetic::div_mod::lemma_fundamental_div_mod(a as int, 256);
    vstd::arithmetic::div_mod::lemma_fundamental_div_mod(b as int, 256);
    vstd::arithmetic::div_mod::lemma_fundamental_div_mod(a as int / 256, 256);
    vstd::arithmetic::div_mod::lemma_fundamental_div_mod(b as int / 256, 256);
    vstd::arithmetic::div_mod::lemma_fundamental_div_mod(a as int / 65536, 256);
    vstd::arithmetic::div_mod::lemma_fundamental_div_mod(b as int / 65536, 256);
    vstd::arithmetic::div_mod::lemma_div_denominator(a as int, 256, 256);
    vstd::arithmetic::div_mod::lemma_div_denominator(b as int, 256, 256);
    vstd::arithmetic::div_mod::lemma_div_denominator(a as int, 65536, 256);
    vstd::arithmetic::div_mod::lemma_div_denominator(b as int, 65536, 256);
}

/// The bytes of an entry with its size set: the first 28 bytes, then the size.
pub proof fn lemma_entry_bytes_size(e: DirEntryRaw, size: u32)
    ensures
        entry_bytes(DirEntryRaw { size: size, ..e }) == entry_bytes(e).subrange(0, 28) + u32_le(size),
{
    assert(entry_bytes(DirEntryRaw { size: size, ..e }) =~= entry_bytes(e).subrange(0, 28) + u32_le(
        size,
    ));
}

/// Two short entries with the same bytes are the same entry: the layout loses
/// nothing.
#[verifier::spinoff_prover]
pub proof fn lemma_entry_bytes_injective(a: DirEntryRaw, b: DirEntryRaw)
    requires
        entry_bytes(a) == entry_bytes(b),
    ensures
        a == b,
{
    let x = entry_bytes(a);
    let y = entry_bytes(b);
    assert(a.name@ =~= x.subrange(0, 8) && b.name@ =~= y.subrange(0, 8));
    assert(a.ext@ =~= x.subrange(8, 11) && b.ext@ =~= y.subrange(8, 11));
    assert(a.name =~= b.name);
    assert(a.ext =~= b.ext);
    assert(x[11] == y[11] && x[12] == y[12] && x[13] == y[13]);
    assert(u16_le(a.created_sec) =~= x.subrange(14, 16) && u16_le(b.created_sec) =~= y.subrange(14, 16));
    assert(u16_le(a.created_date) =~= x.subrange(16, 18) && u16_le(b.created_date) =~= y.subrange(16, 18));
    assert(u16_le(a.accessed_sec) =~= x.subrange(18, 20) && u16_le(b.accessed_sec) =~= y.subrange(18, 20));
    assert(u16_le(a.start_h) =~= x.subrange(20, 22) && u16_le(b.start_h) =~= y.subrange(20, 22));
    assert(u16_le(a.mod_sec) =~= x.subrange(22, 24) && u16_le(b.mod_sec) =~= y.subrange(22, 24));
    assert(u16_le(a.mod_date) =~= x.subrange(24, 26) && u16_le(b.mod_date) =~= y.subrange(24, 26));
    assert(u16_le(a.start_l) =~= x.subrange(26, 28) && u16_le(b.start_l) =~= y.subrange(26, 28));
    assert(u32_le(a.size) =~= x.subrange(28, 32) && u32_le(b.size) =~= y.subrange(28, 32));
    lemma_u16_le_inj(a.created_sec, b.created_sec);
    lemma_u16_le_inj(a.created_date, b.created_date);
    lemma_u16_le_inj(a.accessed_sec, b.accessed_sec);
    lemma_u16_le_inj(a.start_h, b.start_h);
    lemma_u16_le_inj(a.mod_sec, b.mod_sec);
    lemma_u16_le_inj(a.mod_date, b.mod_date);
    lemma_u16_le_inj(a.start_l, b.start_l);
    lemma_u32_le_inj(a.size, b.size);
}

/// Two long-file-name entries with the same bytes are the same entry.
#[verifier::spinoff_prover]
pub proof fn lemma_ext_entry_bytes_injective(a: DirEntryExtRaw, b: DirEntryExtRaw)
    requires
        ext_entry_bytes(a) == ext_entry_bytes(b),
    ensures
        a == b,
{
    let x = ext_entry_bytes(a);
    let y = ext_entry_bytes(b);
    assert(x[0] == y[0]);
    assert(a.name0@ =~= x.subrange(1, 11) && b.name0@ =~= y.subrange(1, 11));
    assert(x[11] == y[11] && x[12] == y[12] && x[13] == y[13]);
    assert(a.name1@ =~= x.subrange(14, 26) && b.name1@ =~= y.subrange(14, 26));
    assert(u16_le(a.start) =~= x.subrange(26, 28) && u16_le(b.start) =~= y.subrange(26, 28));
    assert(a.name2@ =~= x.subrange(28, 32) && b.name2@ =~= y.subrange(28, 32));
    assert(a.name0 =~= b.name0);
    assert(a.name1 =~= b.name1);
    assert(a.name2 =~= b.name2);
    lemma_u16_le_inj(a.start, b.start);
}

impl DirEntryRaw {
    /// The entry's 32 bytes as they lie in a directory.
    pub fn to_bytes(&self) -> (r: [u8; 32])
        ensures
            r@ == entry_bytes(*self),
    {
        let r: [u8; 32] = [
            self.name[0],
            self.name[1],
            self.name[2],
            self.name[3],
            self.name[4],
            self.name[5],
            self.name[6],
            self.name[7],
            self.ext[0],
            self.ext[1],
            self.ext[2],
            self.attr,
            self.reserved,
            self.created_minisec,
            (self.created_sec % 256) as u8,
            (self.created_sec / 256) as u8,
            (self.created_date % 256) as u8,
            (self.created_date / 256) as u8,
            (self.accessed_sec % 256) as u8,
            (self.accessed_sec / 256) as u8,
            (self.start_h % 256) as u8,
            (self.start_h / 256) as u8,
            (self.mod_sec % 256) as u8,
            (self.mod_sec / 256) as u8,
            (self.mod_date % 256) as u8,
            (self.mod_date / 256) as u8,
            (self.start_l % 256) as u8,
            (self.start_l / 256) as u8,
            (self.size % 256) as u8,
            ((self.size / 256) % 256) as u8,
            ((self.size / 65536) % 256) as u8,
            (self.size / 16777216) as u8,
        ];
        assert(r@ =~= entry_bytes(*self));
        r
    }

    /// The entry whose bytes are `b`.
    pub fn from_bytes(b: &[u8; 32]) -> (r: DirEntryRaw)
        ensures
            entry_bytes(r) == b@,
    {
        proof {
            lemma_u16_le(b[14], b[15]);
            lemma_u16_le(b[16], b[17]);
            lemma_u16_le(b[18], b[19]);
            lemma_u16_le(b[20], b[21]);
            lemma_u16_le(b[22], b[23]);
            lemma_u16_le(b[24], b[25]);
            lemma_u16_le(b[26], b[27]);
            lemma_u32_le(b[28], b[29], b[30], b[31]);
        }
        let r = DirEntryRaw {
            name: [b[0], b[1], b[2], b[3], b[4], b[5], b[6], b[7]],
            ext: [b[8], b[9], b[10]],
            attr: b[11],
            reserved: b[12],
            created_minisec: b[13],
            created_sec: b[14] as u16 + 256 * (b[15] as u16),
            created_date: b[16] as u16 + 256 * (b[17] as u16),
            accessed_sec: b[18] as u16 + 256 * (b[19] as u16),
            start_h: b[20] as u16 + 256 * (b[21] as u16),
            mod_sec: b[22] as u16 + 256 * (b[23] as u16),
            mod_date: b[24] as u16 + 256 * (b[25] as u16),
            start_l: b[26] as u16 + 256 * (b[27] as u16),
            size: b[28] as u32 + 256 * (b[29] as u32) + 65536 * (b[30] as u32) + 16777216 * (
            b[31] as u32),
        };
        assert(entry_bytes(r) =~= b@);
        r
    }
}

impl DirEntryExtRaw {
    /// The entry's 32 bytes as they lie in a directory.
    pub fn to_bytes(&self) -> (r: [u8; 32])
        ensures
            r@ == ext_entry_bytes(*self),
    {
        let r: [u8; 32] = [
            self.ext_attr,
            self.name0[0],
            self.name0[1],
            self.name0[2],
            self.name0[3],
            self.name0[4],
            self.name0[5],
            self.name0[6],
            self.name0[7],
            self.name0[8],
            self.name0[9],
            self.attr,
            self.reserved,
            self.chksum,
            self.name1[0],
            self.name1[1],
            self.name1[2],
            self.name1[3],
            self.name1[4],
            self.name1[5],
            self.name1[6],
            self.name1[7],
            self.name1[8],
            self.name1[9],
            self.name1[10],
            self.name1[11],
            (self.start % 256) as u8,
            (self.start / 256) as u8,
            self.name2[0],
            self.name2[1],
            self.name2[2],
            self.name2[3],
        ];
        assert(r@ =~= ext_entry_bytes(*self));
        r
    }

    /// The long-file-name entry whose bytes are `b`.
    pub fn from_bytes(b: &[u8; 32]) -> (r: DirEntryExtRaw)
        ensures
            ext_entry_bytes(r) == b@,
    {
        proof {
            lemma_u16_le(b[26], b[27]);
        }
        let r = DirEntryExtRaw {
            ext_attr: b[0],
            name0: [b[1], b[2], b[3], b[4], b[5], b[6], b[7], b[8], b[9], b[10]],
            attr: b[11],
            reserved: b[12],
            chksum: b[13],
            name1: [b[14], b[15], b[16], b[17], b[18], b[19], b[20], b[21], b[22], b[23], b[24], b[25]],
            start: b[26] as u16 + 256 * (b[27] as u16),
            name2: [b[28], b[29], b[30], b[31]],
        };
        assert(ext_entry_bytes(r) =~= b@);
        r
    }
}

/// Reading `n` bytes from byte `off` of a chain of `len` clusters of `cs` bytes
/// fails exactly when `off` lies past the chain's content.
pub proof fn lemma_offset_past(off: int, cs: int, len: int)
    requires
        cs > 0,
        off >= 0,
        len >= 0,
    ensures
        (off / cs >= len) == (off >= len * cs),
{
    vstd::arithmetic::div_mod::lemma_fundamental_div_mod(off, cs);
    let q = off / cs;
    if q >= len {
        assert(q * cs >= len * cs) by (nonlinear_arith)
            requires
                q >= len,
                cs > 0,
        ;
        assert(cs * q == q * cs) by (nonlinear_arith);
    } else {
        assert((q + 1) * cs <= len * cs) by (nonlinear_arith)
            requires
                q + 1 <= len,
                cs > 0,
        ;
        assert((q + 1) * cs == q * cs + cs) by (nonlinear_arith);
        assert(cs * q == q * cs) by (nonlinear_arith);
    }
}

/// What reading the group of entries at byte `off` of a directory's content
/// gives, with the long-file-name entries `exts` (as bytes) and `slots` slots read
/// so far: deleted entries are skipped, long-file-name entries gathered, and the
/// first short entry ends the group; the result holds the long-file-name entries,
/// the short entry, the number of slots read and the offset after the group. An
/// error when the content ends before a whole entry, or when the entry is the end
/// mark of the directory (first byte zero).
pub open spec fn scan_group(content: Seq<u8>, off: int, exts: Seq<Seq<u8>>, slots: nat) -> Result<
    (Seq<Seq<u8>>, Seq<u8>, nat, int),
    ErrNo,
>
    decreases content.len() - off,
{
    if off < 0 || off >= content.len() {
        Err(ErrNo::Fat32InvalidOffset)
    } else if off + 32 > content.len() {
        Err(ErrNo::Fat32EntryShortRead)
    } else {
        let b = content.subrange(off, off + 32);
        if b[0] == 0xE5 {
            scan_group(content, off + 32, exts, slots + 1)
        } else if b[11] & ATTR_LFN == ATTR_LFN {
            scan_group(content, off + 32, exts.push(b), slots + 1)
        } else if b[0] == 0 {
            Err(ErrNo::Fat32NoMoreEntry)
        } else {
            Ok((exts, b, slots + 1, off + 32))
        }
    }
}

/// A group read ends after where it started, within the content.
pub proof fn lemma_scan_group_next(content: Seq<u8>, off: int, exts: Seq<Seq<u8>>, slots: nat)
    ensures
        scan_group(content, off, exts, slots) is Ok ==> off + 32 <= scan_group(
            content,
            off,
            exts,
            slots,
        )->Ok_0.3 <= content.len(),
    decreases content.len() - off,
{
    if off < 0 || off >= content.len() || off + 32 > content.len() {
    } else {
        let b = content.subrange(off, off + 32);
        if b[0] == 0xE5 {
            lemma_scan_group_next(content, off + 32, exts, slots + 1);
        } else if b[11] & ATTR_LFN == ATTR_LFN {
            lemma_scan_group_next(content, off + 32, exts.push(b), slots + 1);
        }
    }
}

/// The bytes of each long-file-name entry.
pub open spec fn exts_bytes_each(exts: Seq<DirEntryExtRaw>) -> Seq<Seq<u8>> {
    exts.map_values(|e: DirEntryExtRaw| ext_entry_bytes(e))
}

/// `r` is what `read_dirent_group` owes for the scan result `s` of a group read
/// at `offset`.
pub open spec fn group_read_matches(
    r: Result<(DirEntryGroup, usize), ErrNo>,
    s: Result<(Seq<Seq<u8>>, Seq<u8>, nat, int), ErrNo>,
    offset: usize,
) -> bool {
    match s {
        Err(e) => r == Err::<(DirEntryGroup, usize), ErrNo>(e),
        Ok((xs, eb, n, next)) => {
            &&& r is Ok
            &&& exts_bytes_each(r->Ok_0.0.exts@) == xs
            &&& entry_bytes(r->Ok_0.0.entry) == eb
            &&& r->Ok_0.0.offset == offset
            &&& r->Ok_0.0.slotsize == n
            &&& r->Ok_0.1 == next
        },
    }
}

/// Reads the group of entries at byte `offset` of the directory whose chain is
/// `chain` (see `scan_group`); returns the group and the offset of the next one.
pub fn read_dirent_group(chain: &Chain, fs: &Fat32FS, offset: usize) -> (r: Result<
    (DirEntryGroup, usize),
    ErrNo,
>)
    requires
        fs.wf(),
        clusters_valid(fs.fat@.len(), chain.chain@),
        chain.content(fs).len() <= usize::MAX,
    ensures
        group_read_matches(r, scan_group(chain.content(fs), offset as int, Seq::empty(), 0), offset),
{
    let mut exts: Vec<DirEntryExtRaw> = Vec::new();
    let mut buf = [0u8; 32];
    let mut off = offset;
    let mut slotsize: usize = 0;
    let ghost content = chain.content(fs);
    proof {
        lemma_chain_content_len(fs.clusters(), chain.chain@, fs.cs());
        assert(exts_bytes_each(exts@) =~= Seq::<Seq<u8>>::empty());
    }
    loop
        invariant
            fs.wf(),
            clusters_valid(fs.fat@.len(), chain.chain@),
            content == chain.content(fs),
            content.len() <= usize::MAX,
            content.len() == chain.chain@.len() * fs.cs(),
            offset <= off,
            slotsize <= off - offset,
            scan_group(content, offset as int, Seq::empty(), 0) == scan_group(
                content,
                off as int,
                exts_bytes_each(exts@),
                slotsize as nat,
            ),
        decreases content.len() - off,
    {
        proof {
            lemma_offset_past(off as int, fs.cs() as int, chain.chain@.len() as int);
        }
        match chain.read(fs, off, &mut buf) {
            Ok(rlen) => {
                if rlen != 32 {
                    return Err(ErrNo::Fat32EntryShortRead);
                }
            },
            Err(e) => {
                return Err(e);
            },
        }
        proof {
            assert(buf@ =~= content.subrange(off as int, off + 32));
        }
        slotsize = slotsize + 1;
        off = off + 32;
        if is_del(&buf) {
        } else if is_ext(&buf) {
            let ext = DirEntryExtRaw::from_bytes(&buf);
            let ghost before = exts@;
            exts.push(ext);
            proof {
                assert(exts_bytes_each(exts@) =~= exts_bytes_each(before).push(buf@));
            }
        } else {
            if buf[0] == 0 {
                return Err(ErrNo::Fat32NoMoreEntry);
            }
            let entry = DirEntryRaw::from_bytes(&buf);
            return Ok((DirEntryGroup { exts, entry, offset, slotsize }, off));
        }
    }
}

/// Whether a directory's content holds, from byte `off` on, no group but `.`
/// and `..` before its end.
pub open spec fn empty_from(content: Seq<u8>, off: int) -> bool
    decreases content.len() - off,
{
    match scan_group(content, off, Seq::empty(), 0) {
        Ok((xs, eb, n, next)) => {
            if (eb[0] == 0x2e && eb[1] == 0x20) || (eb[0] == 0x2e && eb[1] == 0x2e && eb[2] == 0x20) {
                proof {
                    lemma_scan_group_next(content, off, Seq::empty(), 0);
                }
                empty_from(content, next)
            } else {
                false
            }
        },
        Err(_) => true,
    }
}

/// Whether the directory whose chain is `chain` holds no entry but `.` and `..`.
pub fn empty_dir(chain: &Chain, fs: &Fat32FS) -> (r: bool)
    requires
        fs.wf(),
        clusters_valid(fs.fat@.len(), chain.chain@),
        chain.content(fs).len() <= usize::MAX,
    ensures
        r == empty_from(chain.content(fs), 0),
{
    let mut offset: usize = 0;
    let ghost content = chain.content(fs);
    loop
        invariant
            fs.wf(),
            clusters_valid(fs.fat@.len(), chain.chain@),
            content == chain.content(fs),
            content.len() <= usize::MAX,
            offset <= content.len(),
            empty_from(content, 0) == empty_from(content, offset as int),
        decreases content.len() - offset,
    {
        proof {
            lemma_scan_group_next(content, offset as int, Seq::empty(), 0);
        }
        match read_dirent_group(chain, fs, offset) {
            Ok((group, next)) => {
                let ghost eb = entry_bytes(group.entry);
                proof {
                    assert(eb[0] == group.entry.name@[0] && eb[1] == group.entry.name@[1] && eb[2]
                        == group.entry.name@[2]);
                }
                if group.is_cur() || group.is_par() {
                    offset = next;
                } else {
                    return false;
                }
            },
            Err(_) => {
                return true;
            },
        }
    }
}

/// What deleting the group of entries at byte `off` of a directory's content
/// gives, with the content it leaves: each entry from `off` on that is not
/// already deleted is marked deleted (first byte `0xE5`) up to and including the
/// first short entry. An error when the content ends first, or when the end mark
/// of the directory comes first.
pub open spec fn delete_group_spec(content: Seq<u8>, off: int) -> (Result<(), ErrNo>, Seq<u8>)
    decreases content.len() - off,
{
    if off < 0 || off >= content.len() {
        (Err(ErrNo::Fat32InvalidOffset), content)
    } else if off + 32 > content.len() {
        (Err(ErrNo::Fat32EntryShortRead), content)
    } else if content[off] == 0 {
        (Err(ErrNo::NoSuchFileOrDirectory), content)
    } else if content[off] == 0xE5 {
        delete_group_spec(content, off + 32)
    } else if content[off + 11] & ATTR_LFN == ATTR_LFN {
        delete_group_spec(content.update(off, 0xE5), off + 32)
    } else {
        (Ok(()), content.update(off, 0xE5))
    }
}

/// The frame of a write that changed nothing.
proof fn lemma_write_frame_refl(fs: Fat32FS, c: Seq<u32>)
    requires
        fs.wf(),
        chain_ok(&fs, c),
    ensures
        write_frame(fs, fs, c, c),
{
    assert(c.subrange(0, c.len() as int) =~= c);
}

/// Marks the group of entries at byte `offset` of the directory whose chain is
/// `chain` as deleted (see `delete_group_spec`). The chain keeps its clusters.
pub fn delete_dirent_group(chain: &mut Chain, fs: &mut Fat32FS, offset: usize) -> (r: Result<
    (),
    ErrNo,
>)
    requires
        old(fs).wf(),
        chain_ok(old(fs), old(chain).chain@),
        old(chain).content(old(fs)).len() <= usize::MAX,
    ensures
        r == delete_group_spec(old(chain).content(old(fs)), offset as int).0,
        final(chain).chain@ == old(chain).chain@,
        write_frame(*old(fs), *final(fs), old(chain).chain@, final(chain).chain@),
        final(chain).content(final(fs)) == delete_group_spec(
            old(chain).content(old(fs)),
            offset as int,
        ).1,
{
    let ghost fs0 = *fs;
    let ghost c0 = chain.chain@;
    let ghost content0 = chain.content(fs);
    let mut buf = [0u8; 32];
    let mut off = offset;
    proof {
        lemma_chain_content_len(fs.clusters(), c0, fs.cs());
        lemma_write_frame_refl(fs0, c0);
    }
    loop
        invariant
            fs0 == *old(fs),
            c0 == old(chain).chain@,
            content0 == old(chain).content(old(fs)),
            chain.chain@ == c0,
            write_frame(fs0, *fs, c0, c0),
            fs.cs() == fs0.cs(),
            chain.content(fs).len() == content0.len(),
            content0.len() == c0.len() * fs0.cs(),
            content0.len() <= usize::MAX,
            delete_group_spec(content0, offset as int) == delete_group_spec(
                chain.content(fs),
                off as int,
            ),
        decreases content0.len() - off,
    {
        let ghost fs1 = *fs;
        let ghost content1 = chain.content(fs);
        proof {
            lemma_offset_past(off as int, fs.cs() as int, c0.len() as int);
            lemma_chain_content_len(fs.clusters(), c0, fs.cs());
        }
        match chain.read(fs, off, &mut buf) {
            Ok(rlen) => {
                if rlen != 32 {
                    return Err(ErrNo::Fat32EntryShortRead);
                }
            },
            Err(e) => {
                return Err(e);
            },
        }
        proof {
            assert(buf@ =~= content1.subrange(off as int, off + 32));
        }
        if buf[0] == 0 {
            return Err(ErrNo::NoSuchFileOrDirectory);
        }
        if is_del(&buf) {
            off = off + 32;
        } else {
            buf[0] = 0xE5;
            proof {
                lemma_written_len_within(c0.len(), fs.cs(), off as nat, 32);
            }
            chain.write(fs, off, &buf).unwrap();
            proof {
                assert(chain.chain@ =~= c0) by {
                    assert(chain.chain@ =~= chain.chain@.subrange(0, c0.len() as int));
                }
                assert(chain.content(fs) =~= content1.update(off as int, 0xE5));
                lemma_write_frame_trans(fs0, fs1, *fs, c0, c0, c0);
            }
            off = off + 32;
            if !is_ext(&buf) {
                return Ok(());
            }
        }
    }
}

/// Where the entries of a directory end: the offset of the end mark (or of the
/// end of the content), scanning from `off` in steps of one entry, with the
/// number of deleted entries right before it (`run` counts those already met).
pub open spec fn end_scan(content: Seq<u8>, off: int, run: nat) -> (int, nat)
    decreases content.len() + 32 - off,
{
    if off < 0 || off >= content.len() || content[off] == 0 {
        (off, run)
    } else if content[off] == 0xE5 {
        end_scan(content, off + 32, run + 1)
    } else {
        end_scan(content, off + 32, 0)
    }
}

/// The end is not before the scan's start, and past it when the start is an entry.
pub proof fn lemma_end_scan_ge(content: Seq<u8>, off: int, run: nat)
    ensures
        end_scan(content, off, run).0 >= off,
        0 <= off < content.len() && content[off] != 0 ==> end_scan(content, off, run).0 >= off
            + 32,
    decreases content.len() + 32 - off,
{
    if off < 0 || off >= content.len() || content[off] == 0 {
    } else if content[off] == 0xE5 {
        lemma_end_scan_ge(content, off + 32, run + 1);
    } else {
        lemma_end_scan_ge(content, off + 32, 0);
    }
}

/// The end is at most one entry past the content.
pub proof fn lemma_end_scan_le(content: Seq<u8>, off: int, run: nat)
    requires
        0 <= off,
    ensures
        end_scan(content, off, run).0 <= vstd::math::max(off, content.len() + 31 as int),
    decreases content.len() + 32 - off,
{
    if off >= content.len() || content[off] == 0 {
    } else if content[off] == 0xE5 {
        lemma_end_scan_le(content, off + 32, run + 1);
    } else {
        lemma_end_scan_le(content, off + 32, 0);
    }
}

/// The bytes of long-file-name entries, one after another.
pub open spec fn exts_bytes(exts: Seq<DirEntryExtRaw>) -> Seq<u8>
    decreases exts.len(),
{
    if exts.len() == 0 {
        Seq::empty()
    } else {
        exts_bytes(exts.drop_last()) + ext_entry_bytes(exts.last())
    }
}

/// The bytes of a group as it lies in a directory: its long-file-name entries,
/// then its short entry.
pub open spec fn group_bytes(g: DirEntryGroup) -> Seq<u8> {
    exts_bytes(g.exts@) + entry_bytes(g.entry)
}

/// Each long-file-name entry takes 32 bytes; entry `i` lies at `32 * i`.
pub proof fn lemma_exts_bytes(exts: Seq<DirEntryExtRaw>, i: int)
    ensures
        exts_bytes(exts).len() == 32 * exts.len(),
        0 <= i < exts.len() ==> exts_bytes(exts).subrange(32 * i, 32 * i + 32) == ext_entry_bytes(
            exts[i],
        ),
    decreases exts.len(),
{
    if exts.len() > 0 {
        lemma_exts_bytes(exts.drop_last(), i);
        if 0 <= i < exts.len() - 1 {
            assert(exts_bytes(exts).subrange(32 * i, 32 * i + 32) =~= exts_bytes(
                exts.drop_last(),
            ).subrange(32 * i, 32 * i + 32));
        } else if i == exts.len() - 1 {
            assert(exts_bytes(exts).subrange(32 * i, 32 * i + 32) =~= ext_entry_bytes(exts.last()));
        }
    }
}

/// Writes the 32 bytes `bytes`, which are bytes `w` to `w + 32` of `buf`, at byte
/// `at + w` of the chain, in the course of writing `buf` at `at`.
fn write_slot(
    chain: &mut Chain,
    fs: &mut Fat32FS,
    at: usize,
    w: usize,
    bytes: &[u8; 32],
    Ghost(fs0): Ghost<Fat32FS>,
    Ghost(c0): Ghost<Seq<u32>>,
    Ghost(buf): Ghost<Seq<u8>>,
)
    requires
        fs0.wf(),
        chain_ok(&fs0, c0),
        write_state(
            fs0,
            *old(fs),
            c0,
            old(chain).chain@,
            chain_content(fs0.clusters(), c0),
            at as int,
            buf,
            w as int,
        ),
        w == 0 ==> old(chain).chain@ == c0,
        w > 0 ==> old(chain).chain@.len() == written_len(c0.len(), fs0.cs(), at as nat, w as nat),
        bytes@ == buf.subrange(w as int, w + 32),
        w + 32 <= buf.len(),
        written_len(c0.len(), fs0.cs(), at as nat, buf.len()) <= MAX_LEN,
        free_count(fs0.fat@, fs0.fat@.len() as int) + c0.len() >= written_len(
            c0.len(),
            fs0.cs(),
            at as nat,
            buf.len(),
        ),
        at + buf.len() <= usize::MAX,
    ensures
        write_state(
            fs0,
            *final(fs),
            c0,
            final(chain).chain@,
            chain_content(fs0.clusters(), c0),
            at as int,
            buf,
            w + 32,
        ),
        final(chain).chain@.len() == written_len(c0.len(), fs0.cs(), at as nat, (w + 32) as nat),
{
    let ghost fs1 = *fs;
    let ghost c1 = chain.chain@;
    let ghost cs = fs0.cs();
    proof {
        lemma_chain_content_len(fs0.clusters(), c0, cs);
        if w > 0 {
            lemma_written_len_step(c0.len(), cs, at as nat, w as nat, 32);
        }
        if w + 32 < buf.len() {
            lemma_written_len_step(c0.len(), cs, at as nat, (w + 32) as nat, (buf.len() - w - 32) as nat);
        }
    }
    chain.write(fs, at + w, bytes).unwrap();
    proof {
        assert(bytes@ =~= buf.subrange(w as int, w + 32));
        lemma_write_state_trans(fs0, fs1, *fs, c0, c1, chain.chain@, chain_content(fs0.clusters(), c0),
            at as int, buf, w as int, 32);
    }
}

/// Writes the bytes of `group` at byte `at` of the chain, entry by entry.
fn write_entries(chain: &mut Chain, fs: &mut Fat32FS, at: usize, group: &DirEntryGroup)
    requires
        old(fs).wf(),
        chain_ok(old(fs), old(chain).chain@),
        written_len(old(chain).chain@.len(), old(fs).cs(), at as nat, group_bytes(*group).len())
            <= MAX_LEN,
        free_count(old(fs).fat@, old(fs).fat@.len() as int) + old(chain).chain@.len() >= written_len(
            old(chain).chain@.len(),
            old(fs).cs(),
            at as nat,
            group_bytes(*group).len(),
        ),
        at + group_bytes(*group).len() <= usize::MAX,
    ensures
        write_state(
            *old(fs),
            *final(fs),
            old(chain).chain@,
            final(chain).chain@,
            old(chain).content(old(fs)),
            at as int,
            group_bytes(*group),
            group_bytes(*group).len() as int,
        ),
        final(chain).chain@.len() == written_len(
            old(chain).chain@.len(),
            old(fs).cs(),
            at as nat,
            group_bytes(*group).len(),
        ),
{
    let ghost fs0 = *fs;
    let ghost c0 = chain.chain@;
    let ghost buf = group_bytes(*group);
    let n = group.exts.len();
    proof {
        lemma_exts_bytes(group.exts@, 0);
        lemma_chain_content_len(fs0.clusters(), c0, fs0.cs());
        lemma_write_frame_refl(fs0, c0);
        assert(chain_content(fs0.clusters(), c0) =~= written_content(
            chain_content(fs0.clusters(), c0),
            at as int,
            buf,
            0,
            c0.len() * fs0.cs(),
        ));
    }
    let mut i: usize = 0;
    while i < n
        invariant
            fs0 == *old(fs),
            c0 == old(chain).chain@,
            buf == group_bytes(*group),
            n == group.exts@.len(),
            buf.len() == 32 * n + 32,
            fs0.wf(),
            chain_ok(&fs0, c0),
            i <= n,
            write_state(fs0, *fs, c0, chain.chain@, chain_content(fs0.clusters(), c0), at as int, buf, 32 * i),
            i == 0 ==> chain.chain@ == c0,
            i > 0 ==> chain.chain@.len() == written_len(c0.len(), fs0.cs(), at as nat, (32 * i) as nat),
            written_len(c0.len(), fs0.cs(), at as nat, buf.len()) <= MAX_LEN,
            free_count(fs0.fat@, fs0.fat@.len() as int) + c0.len() >= written_len(
                c0.len(),
                fs0.cs(),
                at as nat,
                buf.len(),
            ),
            at + buf.len() <= usize::MAX,
        decreases n - i,
    {
        let bytes = group.exts[i].to_bytes();
        proof {
            lemma_exts_bytes(group.exts@, i as int);
            assert(buf.subrange(32 * i, 32 * i + 32) =~= exts_bytes(group.exts@).subrange(
                32 * i,
                32 * i + 32,
            ));
        }
        write_slot(chain, fs, at, 32 * i, &bytes, Ghost(fs0), Ghost(c0), Ghost(buf));
        i = i + 1;
    }
    let bytes = group.entry.to_bytes();
    proof {
        assert(buf.subrange(32 * n, 32 * n + 32) =~= entry_bytes(group.entry));
    }
    write_slot(chain, fs, at, 32 * n, &bytes, Ghost(fs0), Ghost(c0), Ghost(buf));
}

/// Where `write_dirent_group` puts the bytes of `g` in a directory of content
/// `content`: at the end of the entries when the group has no place yet or its
/// place is too small, else in its place, aligned to its end.
pub open spec fn group_write_at(g: DirEntryGroup, content: Seq<u8>) -> int {
    if g.slotsize < g.exts@.len() + 1 {
        end_scan(content, 0, 0).0
    } else {
        g.offset + (g.slotsize - g.exts@.len() - 1) * 32
    }
}

/// `write_dirent_group` can write group `g0` into the directory whose chain is
/// `c0` on `fs0`: the chain can be read and grown as far as the group's bytes
/// need, and when the group moves, its old place can be deleted.
pub open spec fn group_write_ok(fs0: Fat32FS, c0: Seq<u32>, g0: DirEntryGroup) -> bool {
    let content0 = chain_content(fs0.clusters(), c0);
    let at = group_write_at(g0, content0);
    let total = written_len(c0.len(), fs0.cs(), at as nat, group_bytes(g0).len());
    &&& fs0.wf()
    &&& chain_ok(&fs0, c0)
    &&& content0.len() <= usize::MAX
    &&& at + group_bytes(g0).len() <= usize::MAX
    &&& total <= MAX_LEN
    &&& free_count(fs0.fat@, fs0.fat@.len() as int) + c0.len() >= total
    &&& 0 < g0.slotsize < g0.exts@.len() + 1 ==> {
        &&& total * fs0.cs() <= usize::MAX
        &&& delete_group_spec(
            written_content(content0, at, group_bytes(g0), group_bytes(g0).len() as int, total * fs0.cs()),
            g0.offset as int,
        ).0 is Ok
    }
}

/// What `write_dirent_group` gives, writing group `g0` (which becomes `g1`)
/// into the directory whose chain goes from `c0` on `fs0` to `c1` on `fs1`.
pub open spec fn group_written(
    fs0: Fat32FS,
    fs1: Fat32FS,
    c0: Seq<u32>,
    c1: Seq<u32>,
    g0: DirEntryGroup,
    g1: DirEntryGroup,
    r: Result<(), ()>,
) -> bool {
            let content0 = chain_content(fs0.clusters(), c0);
            let at = group_write_at(g0, content0);
            let b = group_bytes(g0);
            let total = written_len(c0.len(), fs0.cs(), at as nat, b.len());
            &&& r is Ok
            &&& g1.exts@ == g0.exts@
            &&& g1.entry == g0.entry
            &&& write_frame(fs0, fs1, c0, c1)
            &&& c1.len() == total
            &&& g0.slotsize >= g0.exts@.len() + 1 ==> {
                &&& g1.offset == g0.offset
                &&& g1.slotsize == g0.slotsize
                &&& chain_content(fs1.clusters(), c1) == written_content(
                    content0,
                    at,
                    b,
                    b.len() as int,
                    total * fs0.cs(),
                )
            }
            &&& g0.slotsize < g0.exts@.len() + 1 ==> {
                &&& g1.offset == at
                &&& g1.slotsize == g0.exts@.len() + 1 + end_scan(content0, 0, 0).1
            }
            &&& g0.slotsize == 0 ==> chain_content(fs1.clusters(), c1) == written_content(
                content0,
                at,
                b,
                b.len() as int,
                total * fs0.cs(),
            )
            &&& 0 < g0.slotsize < g0.exts@.len() + 1 ==> chain_content(fs1.clusters(), c1) == delete_group_spec(
                written_content(content0, at, b, b.len() as int, total * fs0.cs()),
                g0.offset as int,
            ).1
        }

/// Writes `group` into the directory whose chain is `chain`. A group with no
/// place yet (`slotsize` zero) goes after the last entry, where the end mark was,
/// and takes its place there (counting the deleted entries right before it); a
/// group whose long name no longer fits its place goes there too, and its old
/// entries are deleted; any other group is written over its place, aligned to
/// its end. The chain grows as the bytes need.
pub fn write_dirent_group(chain: &mut Chain, fs: &mut Fat32FS, group: &mut DirEntryGroup) -> (r:
    Result<(), ()>)
    requires
        group_write_ok(*old(fs), old(chain).chain@, *old(group)),
    ensures
        group_written(*old(fs), *final(fs), old(chain).chain@, final(chain).chain@, *old(group), *final(group), r),
{
    let ghost fs0 = *fs;
    let ghost c0 = chain.chain@;
    let ghost content0 = chain.content(fs);
    let ghost b = group_bytes(*group);
    proof {
        lemma_exts_bytes(group.exts@, 0);
        lemma_chain_content_len(fs0.clusters(), c0, fs0.cs());
        lemma_end_scan_ge(content0, 0, 0);
    }
    if group.slotsize < group.exts.len() + 1 {
        let old_offset = group.offset;
        let old_slotsize = group.slotsize;
        let mut offset: usize = 0;
        let mut slotsize: usize = 0;
        let ghost end = end_scan(content0, 0, 0);
        loop
            invariant
                fs0 == *old(fs),
                *fs == fs0,
                c0 == old(chain).chain@,
                chain.chain@ == c0,
                content0 == chain.content(fs),
                content0.len() == c0.len() * fs0.cs(),
                fs0.wf(),
                clusters_valid(fs0.fat@.len(), c0),
                end == end_scan(content0, 0, 0),
                end == end_scan(content0, offset as int, slotsize as nat),
                end.0 <= usize::MAX,
                32 * slotsize <= offset,
            ensures
                end == (offset as int, slotsize as nat),
            decreases content0.len() + 32 - offset,
        {
            let mut one = [0u8; 1];
            proof {
                lemma_offset_past(offset as int, fs.cs() as int, c0.len() as int);
                lemma_end_scan_ge(content0, offset as int, slotsize as nat);
            }
            match chain.read(fs, offset, &mut one) {
                Ok(_) => {
                    if one[0] == 0 {
                        break;
                    } else if one[0] == 0xE5 {
                        slotsize = slotsize + 1;
                    } else {
                        slotsize = 0;
                    }
                },
                Err(_) => {
                    break;
                },
            }
            offset = offset + 32;
        }
        group.offset = offset;
        write_entries(chain, fs, offset, group);
        group.slotsize = group.exts.len() + 1 + slotsize;
        if old_slotsize == 0 {
            return Ok(());
        }
        let ghost fs1 = *fs;
        let ghost c1 = chain.chain@;
        proof {
            lemma_chain_content_len(fs1.clusters(), c1, fs1.cs());
        }
        delete_dirent_group(chain, fs, old_offset).unwrap();
        proof {
            lemma_write_frame_trans(fs0, fs1, *fs, c0, c1, chain.chain@);
        }
        return Ok(());
    } else {
        let offset = group.offset + (group.slotsize - group.exts.len() - 1) * 32;
        write_entries(chain, fs, offset, group);
        return Ok(());
    }
}

/// The entries of a group can be read back as written: no long-file-name entry
/// starts with the deleted mark and each has the long-file-name attribute; the
/// short entry starts with neither zero nor the deleted mark and does not have
/// that attribute.
pub open spec fn group_readable(g: DirEntryGroup) -> bool {
    &&& forall|i: int|
        0 <= i < g.exts@.len() ==> (#[trigger] g.exts@[i]).ext_attr != 0xE5 && g.exts@[i].attr
            & ATTR_LFN == ATTR_LFN
    &&& g.entry.name@.len() == 8
    &&& g.entry.name@[0] != 0 && g.entry.name@[0] != 0xE5
    &&& g.entry.attr & ATTR_LFN != ATTR_LFN
}

/// Scanning the bytes of a group, from its `i`-th long-file-name entry on, finds
/// the rest of its entries and the short entry.
proof fn lemma_scan_written(content: Seq<u8>, at: int, g: DirEntryGroup, i: int)
    requires
        0 <= at,
        0 <= i <= g.exts@.len(),
        at + group_bytes(g).len() <= content.len(),
        content.subrange(at, at + group_bytes(g).len()) == group_bytes(g),
        group_readable(g),
    ensures
        scan_group(content, at + 32 * i, exts_bytes_each(g.exts@).take(i), i as nat) == Ok::<
            (Seq<Seq<u8>>, Seq<u8>, nat, int),
            ErrNo,
        >(
            (
                exts_bytes_each(g.exts@),
                entry_bytes(g.entry),
                (g.exts@.len() + 1) as nat,
                at + 32 * (g.exts@.len() + 1),
            ),
        ),
    decreases g.exts@.len() - i,
{
    let n = g.exts@.len() as int;
    lemma_exts_bytes(g.exts@, i);
    let eb = exts_bytes(g.exts@);
    let gb = group_bytes(g);
    assert(gb.len() == 32 * n + 32) by {
        assert(entry_bytes(g.entry).len() == 32);
    }
    let off = at + 32 * i;
    let b = content.subrange(off, off + 32);
    assert(b =~= gb.subrange(32 * i, 32 * i + 32)) by {
        assert forall|q: int| 0 <= q < 32 implies b[q] == gb.subrange(32 * i, 32 * i + 32)[q] by {
            assert(content.subrange(at, at + gb.len())[32 * i + q] == content[off + q]);
        }
    }
    let xs = exts_bytes_each(g.exts@);
    if i < n {
        assert(gb.subrange(32 * i, 32 * i + 32) =~= eb.subrange(32 * i, 32 * i + 32));
        let e = g.exts@[i];
        assert(b == ext_entry_bytes(e));
        assert(b[0] == e.ext_attr);
        assert(b[11] == e.attr);
        assert(xs.take(i).push(b) =~= xs.take(i + 1));
        lemma_scan_written(content, at, g, i + 1);
        assert(at + 32 * (i + 1) == off + 32);
    } else {
        assert(gb.subrange(32 * i, 32 * i + 32) =~= entry_bytes(g.entry));
        assert(b[0] == g.entry.name@[0]);
        assert(b[11] == g.entry.attr);
        assert(xs.take(i) =~= xs);
    }
}

/// The long-file-name entries of a group read back (see `read_dirent_group`)
/// after `write_dirent_group` put there a group that `DirEntryGroup::new` made,
/// for an ASCII name without NUL of at most 819 characters, are the ones written,
/// and their long name decodes to the name (see `DirEntryGroup::get_name`).
pub proof fn lemma_written_group_name(
    fs0: Fat32FS,
    fs1: Fat32FS,
    c0: Seq<u32>,
    c1: Seq<u32>,
    g0: DirEntryGroup,
    g1: DirEntryGroup,
    g2: DirEntryGroup,
    name: Seq<char>,
    start: u32,
    attr: u8,
)
    requires
        0 < name.len() <= 819,
        ascii_no_nul(name),
        group_made(g0, name, start, attr),
        group_written(fs0, fs1, c0, c1, g0, g1, Ok(())),
        exts_bytes_each(g2.exts@) == exts_bytes_each(g1.exts@),
    ensures
        g2.exts@ == g0.exts@,
        lfn_end_index(g2.exts@) == Some(0int),
        group_name_decodable(g2.exts@),
        decode_utf16(lfn_name_units(lfn_bytes(g2.exts@))) == Some(name),
{
    let a = g2.exts@;
    let b = g1.exts@;
    assert(a.len() == exts_bytes_each(a).len());
    assert forall|i: int| 0 <= i < a.len() implies a[i] == b[i] by {
        assert(exts_bytes_each(a)[i] == ext_entry_bytes(a[i]));
        assert(exts_bytes_each(b)[i] == ext_entry_bytes(b[i]));
        lemma_ext_entry_bytes_injective(a[i], b[i]);
    }
    assert(a =~= b);
    lemma_new_group_name(g0, name, start, attr);
}

/// What a read gives back of a write: once `write_dirent_group` has put a group
/// that had no place yet into a directory, where the end mark was (see
/// `end_scan`), the bytes before it are as they were, and a read there (see
/// `read_dirent_group`) at the group's new offset finds its long-file-name
/// entries and its short entry byte for byte, then the offset right after them.
pub proof fn lemma_write_then_read_group(
    fs0: Fat32FS,
    fs1: Fat32FS,
    c0: Seq<u32>,
    c1: Seq<u32>,
    g0: DirEntryGroup,
    g1: DirEntryGroup,
)
    requires
        fs0.wf(),
        g0.slotsize == 0,
        group_readable(g0),
        group_written(fs0, fs1, c0, c1, g0, g1, Ok(())),
    ensures
        scan_group(chain_content(fs1.clusters(), c1), g1.offset as int, Seq::empty(), 0) == Ok::<
            (Seq<Seq<u8>>, Seq<u8>, nat, int),
            ErrNo,
        >(
            (
                exts_bytes_each(g1.exts@),
                entry_bytes(g1.entry),
                (g1.exts@.len() + 1) as nat,
                g1.offset + 32 * (g1.exts@.len() + 1),
            ),
        ),
        g1.offset == end_scan(chain_content(fs0.clusters(), c0), 0, 0).0,
        forall|q: int|
            0 <= q < g1.offset && q < chain_content(fs0.clusters(), c0).len() ==> #[trigger] chain_content(
                fs1.clusters(),
                c1,
            )[q] == chain_content(fs0.clusters(), c0)[q],
{
    let content0 = chain_content(fs0.clusters(), c0);
    let at = group_write_at(g0, content0);
    let b = group_bytes(g0);
    let cs = fs0.cs();
    let total = written_len(c0.len(), cs, at as nat, b.len());
    let content1 = chain_content(fs1.clusters(), c1);
    assert(g1.offset == at);
    assert(content1 == written_content(content0, at, b, b.len() as int, total * cs));
    // The chain grew to hold the whole group.
    let a = at + b.len();
    let q = (a + cs - 1) / (cs as int);
    vstd::arithmetic::div_mod::lemma_fundamental_div_mod(a + cs - 1, cs as int);
    assert(q >= (a + cs - 1) / (cs as int));
    assert(total >= q);
    assert(q * cs >= a) by (nonlinear_arith)
        requires
            a + cs - 1 == cs * q + (a + cs - 1) % (cs as int),
            (a + cs - 1) % (cs as int) < cs,
            cs > 0,
    ;
    assert(total * cs >= q * cs) by (nonlinear_arith)
        requires
            total >= q,
            cs > 0,
    ;
    assert(content1.subrange(at, at + b.len()) =~= b);
    lemma_scan_written(content1, at, g0, 0);
    assert(exts_bytes_each(g0.exts@).take(0) =~= Seq::<Seq<u8>>::empty());
}

/// The 26 name bytes of a long-file-name entry given by its 32 bytes.
pub open spec fn slot_name_bytes(b: Seq<u8>) -> Seq<u8> {
    b.subrange(1, 11) + b.subrange(14, 26) + b.subrange(28, 32)
}

/// `lfn_bytes` of long-file-name entries given by their bytes.
pub open spec fn lfn_bytes_of(xs: Seq<Seq<u8>>) -> Seq<u8>
    decreases xs.len(),
{
    if xs.len() == 0 {
        Seq::empty()
    } else {
        ff_prefix(slot_name_bytes(xs.last())) + lfn_bytes_of(xs.drop_last())
    }
}

/// `lfn_end_index` of long-file-name entries given by their bytes.
pub open spec fn lfn_end_of(xs: Seq<Seq<u8>>) -> Option<int>
    decreases xs.len(),
{
    if xs.len() == 0 {
        None
    } else if xs.last()[0] & EXT_END == EXT_END {
        Some(xs.len() - 1)
    } else {
        lfn_end_of(xs.drop_last())
    }
}

/// The name that `get_name` gives a group read from a directory (its
/// long-file-name entries and short entry given by their bytes), or `None` when
/// it gives none: the long name, which must decode, or the short name, which
/// must be valid UTF-8.
pub open spec fn scanned_name(xs: Seq<Seq<u8>>, eb: Seq<u8>) -> Option<Seq<char>> {
    if xs.len() == 0 {
        if valid_utf8(eb.subrange(0, 8)) && valid_utf8(eb.subrange(8, 11)) {
            Some(short_entry_name(eb.subrange(0, 8), eb.subrange(8, 11)))
        } else {
            None
        }
    } else if lfn_end_of(xs) == Some(0int) {
        decode_utf16(lfn_name_units(lfn_bytes_of(xs)))
    } else {
        None
    }
}

/// The first cluster of the chain of a short entry given by its bytes.
pub open spec fn entry_start(eb: Seq<u8>) -> u32 {
    (le16(eb[20], eb[21]) * 65536 + le16(eb[26], eb[27])) as u32
}

/// A group read from a directory: where it starts, its long-file-name entries
/// and short entry as bytes, its number of slots, and where the next one starts.
pub type ScannedGroup = (int, Seq<Seq<u8>>, Seq<u8>, nat, int);

/// The groups of a directory's content from byte `off` on, up to the first read
/// that fails.
pub open spec fn groups_from(content: Seq<u8>, off: int) -> Seq<ScannedGroup>
    decreases content.len() - off,
{
    match scan_group(content, off, Seq::empty(), 0) {
        Ok((xs, eb, n, next)) => {
            proof {
                lemma_scan_group_next(content, off, Seq::empty(), 0);
            }
            seq![(off, xs, eb, n, next)] + groups_from(content, next)
        },
        Err(_) => Seq::empty(),
    }
}

/// Whether `g` is the group read as `s`.
pub open spec fn group_is(g: DirEntryGroup, s: ScannedGroup) -> bool {
    &&& g.offset == s.0
    &&& exts_bytes_each(g.exts@) == s.1
    &&& entry_bytes(g.entry) == s.2
    &&& g.slotsize == s.3
}

/// What a group's bytes tell of its fields.
pub proof fn lemma_group_fields(g: DirEntryGroup, xs: Seq<Seq<u8>>, eb: Seq<u8>)
    requires
        exts_bytes_each(g.exts@) == xs,
        entry_bytes(g.entry) == eb,
    ensures
        lfn_bytes(g.exts@) == lfn_bytes_of(xs),
        lfn_end_index(g.exts@) == lfn_end_of(xs),
        g.entry.name@ == eb.subrange(0, 8),
        g.entry.ext@ == eb.subrange(8, 11),
        g.entry.attr == eb[11],
        g.entry.start_h == le16(eb[20], eb[21]),
        g.entry.start_l == le16(eb[26], eb[27]),
        g.entry.size == le32(eb[28], eb[29], eb[30], eb[31]),
        scanned_name(xs, eb) is Some ==> group_name_decodable(g.exts@) && (g.exts@.len() == 0
            ==> valid_utf8(g.entry.name@) && valid_utf8(g.entry.ext@)),
    decreases g.exts@.len(),
{
    assert(g.entry.name@ =~= eb.subrange(0, 8));
    assert(g.entry.ext@ =~= eb.subrange(8, 11));
    assert(eb.subrange(20, 22) =~= u16_le(g.entry.start_h));
    assert(eb.subrange(26, 28) =~= u16_le(g.entry.start_l));
    assert(eb.subrange(28, 32) =~= u32_le(g.entry.size));
    lemma_u32_le(eb[28], eb[29], eb[30], eb[31]);
    lemma_u32_le_inj(g.entry.size, le32(eb[28], eb[29], eb[30], eb[31]) as u32);
    lemma_exts_fields(g.exts@, xs);
}

/// What the bytes of long-file-name entries tell of their names and end flags.
proof fn lemma_exts_fields(exts: Seq<DirEntryExtRaw>, xs: Seq<Seq<u8>>)
    requires
        exts_bytes_each(exts) == xs,
    ensures
        lfn_bytes(exts) == lfn_bytes_of(xs),
        lfn_end_index(exts) == lfn_end_of(xs),
    decreases exts.len(),
{
    if exts.len() > 0 {
        let e = exts.last();
        assert(xs.last() == ext_entry_bytes(e));
        assert(exts_bytes_each(exts.drop_last()) =~= xs.drop_last());
        lemma_exts_fields(exts.drop_last(), xs.drop_last());
        assert(slot_name_bytes(ext_entry_bytes(e)) =~= ext_name_bytes(e));
    }
}

} // verus!
