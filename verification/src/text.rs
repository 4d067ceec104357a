//! Character-level helpers: ASCII case, Unicode white space, UTF-16.
use vstd::prelude::*;

verus! {

/// The upper-case form of an ASCII letter; other bytes are unchanged.
pub open spec fn ascii_upper(b: u8) -> u8 {
    if 97 <= b <= 122 {
        (b - 32) as u8
    } else {
        b
    }
}

/// Each byte in upper case.
pub open spec fn upper_seq(s: Seq<u8>) -> Seq<u8> {
    s.map_values(|b: u8| ascii_upper(b))
}

/// The upper-case form of an ASCII letter.
pub fn to_ascii_uppercase(b: u8) -> (r: u8)
    ensures
        r == ascii_upper(b),
{
    if 97 <= b && b <= 122 {
        b - 32
    } else {
        b
    }
}

/// The characters that Unicode gives the White_Space property.
pub open spec fn is_unicode_whitespace(c: char) -> bool {
    let v = c as u32;
    (0x9 <= v <= 0xd) || v == 0x20 || v == 0x85 || v == 0xa0 || v == 0x1680 || (0x2000 <= v
        <= 0x200a) || v == 0x2028 || v == 0x2029 || v == 0x202f || v == 0x205f || v == 0x3000
}

/// Whether `c` is white space in the sense of Unicode's White_Space property.
pub fn is_whitespace(c: char) -> (r: bool)
    ensures
        r == is_unicode_whitespace(c),
{
    let v = c as u32;
    (0x9 <= v && v <= 0xd) || v == 0x20 || v == 0x85 || v == 0xa0 || v == 0x1680 || (0x2000 <= v
        && v <= 0x200a) || v == 0x2028 || v == 0x2029 || v == 0x202f || v == 0x205f || v == 0x3000
}

/// `s` with its leading and trailing white space removed.
pub open spec fn trim_spec(s: Seq<char>) -> Seq<char> {
    s.subrange(trim_start(s), trim_end(s))
}

/// The index of the first character that is not white space (the length when
/// there is none).
pub open spec fn trim_start(s: Seq<char>) -> int
    decreases s.len(),
{
    if s.len() == 0 {
        0
    } else if is_unicode_whitespace(s[0]) {
        1 + trim_start(s.drop_first())
    } else {
        0
    }
}

/// One past the index of the last character that is not white space, and no less
/// than `trim_start`.
pub open spec fn trim_end(s: Seq<char>) -> int {
    let e = trim_end_raw(s);
    if e < trim_start(s) {
        trim_start(s)
    } else {
        e
    }
}

/// One past the index of the last character that is not white space (zero when
/// there is none).
pub open spec fn trim_end_raw(s: Seq<char>) -> int
    decreases s.len(),
{
    if s.len() == 0 {
        0
    } else if is_unicode_whitespace(s.last()) {
        trim_end_raw(s.drop_last())
    } else {
        s.len() as int
    }
}

proof fn lemma_trim_start_bounds(s: Seq<char>)
    ensures
        0 <= trim_start(s) <= s.len(),
    decreases s.len(),
{
    if s.len() > 0 && is_unicode_whitespace(s[0]) {
        lemma_trim_start_bounds(s.drop_first());
    }
}

proof fn lemma_trim_end_bounds(s: Seq<char>)
    ensures
        0 <= trim_end_raw(s) <= s.len(),
    decreases s.len(),
{
    if s.len() > 0 && is_unicode_whitespace(s.last()) {
        lemma_trim_end_bounds(s.drop_last());
    }
}

/// Characters before `i` are white space and `s[i]` is not, or `i` is the length.
proof fn lemma_trim_start_at(s: Seq<char>, i: int)
    requires
        0 <= i <= s.len(),
        forall|j: int| 0 <= j < i ==> is_unicode_whitespace(#[trigger] s[j]),
        i < s.len() ==> !is_unicode_whitespace(s[i]),
    ensures
        trim_start(s) == i,
    decreases i,
{
    if i > 0 {
        assert forall|j: int| 0 <= j < i - 1 implies is_unicode_whitespace(
            #[trigger] s.drop_first()[j],
        ) by {
            assert(s.drop_first()[j] == s[j + 1]);
        }
        if i - 1 < s.drop_first().len() {
            assert(s.drop_first()[i - 1] == s[i]);
        }
        lemma_trim_start_at(s.drop_first(), i - 1);
    }
}

/// Characters from `e` on are white space and `s[e - 1]` is not, or `e` is zero.
proof fn lemma_trim_end_at(s: Seq<char>, e: int)
    requires
        0 <= e <= s.len(),
        forall|j: int| e <= j < s.len() ==> is_unicode_whitespace(#[trigger] s[j]),
        e > 0 ==> !is_unicode_whitespace(s[e - 1]),
    ensures
        trim_end_raw(s) == e,
    decreases s.len(),
{
    if s.len() > e {
        assert(is_unicode_whitespace(s[s.len() - 1]));
        lemma_trim_end_at(s.drop_last(), e);
    }
}

/// `s` with leading and trailing white space removed, as `str::trim` does.
pub fn trim(s: &str) -> (r: String)
    ensures
        r@ == trim_spec(s@),
{
    let n = s.unicode_len();
    let mut start: usize = 0;
    while start < n && is_whitespace(s.get_char(start))
        invariant
            n == s@.len(),
            start <= n,
            forall|j: int| 0 <= j < start ==> is_unicode_whitespace(#[trigger] s@[j]),
        decreases n - start,
    {
        start = start + 1;
    }
    proof {
        lemma_trim_start_at(s@, start as int);
    }
    let mut end: usize = n;
    while end > start && is_whitespace(s.get_char(end - 1))
        invariant
            n == s@.len(),
            start <= end <= n,
            forall|j: int| end <= j < n ==> is_unicode_whitespace(#[trigger] s@[j]),
            trim_start(s@) == start,
        decreases end,
    {
        end = end - 1;
    }
    proof {
        lemma_trim_end_bounds(s@);
        if end > start {
            lemma_trim_end_at(s@, end as int);
        } else {
            // Every character from `start` on is white space, so the raw end is at
            // most `start`.
            if trim_end_raw(s@) > start {
                let e = trim_end_raw(s@);
                lemma_trim_end_raw_last(s@);
                assert(is_unicode_whitespace(s@[e - 1]));
            }
        }
    }
    let mut out = String::new();
    let mut i = start;
    while i < end
        invariant
            n == s@.len(),
            start <= i <= end <= n,
            out@ == s@.subrange(start as int, i as int),
        decreases end - i,
    {
        crate::strings::string_push(&mut out, s.get_char(i));
        proof {
            assert(out@ =~= s@.subrange(start as int, i + 1));
        }
        i = i + 1;
    }
    out
}

/// The raw end, when positive, follows a character that is not white space.
proof fn lemma_trim_end_raw_last(s: Seq<char>)
    ensures
        trim_end_raw(s) > 0 ==> !is_unicode_whitespace(s[trim_end_raw(s) - 1]),
        trim_end_raw(s) <= s.len(),
    decreases s.len(),
{
    if s.len() > 0 && is_unicode_whitespace(s.last()) {
        lemma_trim_end_raw_last(s.drop_last());
        if trim_end_raw(s.drop_last()) > 0 {
            assert(s.drop_last()[trim_end_raw(s) - 1] == s[trim_end_raw(s) - 1]);
        }
    }
}

/// Calls `core::str::from_utf8`, which gives the string that the bytes encode, or
/// an error when they are not valid UTF-8.
#[verifier::external_body]
pub(crate) fn str_from_utf8(b: &[u8]) -> (r: Option<&str>)
    ensures
        vstd::utf8::valid_utf8(b@) ==> r is Some && r->0@ == vstd::utf8::decode_utf8(b@),
        !vstd::utf8::valid_utf8(b@) ==> r is None,
{
    core::str::from_utf8(b).ok()
}

/// The UTF-16 code units of a character.
pub open spec fn utf16_of_char(c: char) -> Seq<u16> {
    let v = c as u32;
    if v < 0x10000 {
        seq![v as u16]
    } else {
        let u = (v - 0x10000) as int;
        seq![(0xD800 + u / 1024) as u16, (0xDC00 + u % 1024) as u16]
    }
}

/// The UTF-16 encoding of a character sequence.
pub open spec fn encode_utf16(s: Seq<char>) -> Seq<u16>
    decreases s.len(),
{
    if s.len() == 0 {
        Seq::empty()
    } else {
        encode_utf16(s.drop_last()) + utf16_of_char(s.last())
    }
}

/// The UTF-16 code units of the characters of `s`, as `str::encode_utf16` gives.
pub fn encode_utf16_vec(s: &str) -> (r: Vec<u16>)
    ensures
        r@ == encode_utf16(s@),
{
    let n = s.unicode_len();
    let mut out: Vec<u16> = Vec::new();
    let mut i: usize = 0;
    while i < n
        invariant
            n == s@.len(),
            i <= n,
            out@ == encode_utf16(s@.subrange(0, i as int)),
        decreases n - i,
    {
        let c = s.get_char(i);
        let v = c as u32;
        proof {
            assert(s@.subrange(0, i + 1).drop_last() =~= s@.subrange(0, i as int));
            assert(s@.subrange(0, i + 1).last() == c);
        }
        if v < 0x10000 {
            out.push(v as u16);
            proof {
                assert(out@ =~= encode_utf16(s@.subrange(0, i + 1)));
            }
        } else {
            proof {
                vstd::utf8::char_is_scalar(c);
            }
            let u = v - 0x10000;
            out.push((0xD800 + u / 1024) as u16);
            out.push((0xDC00 + u % 1024) as u16);
            proof {
                assert(out@ =~= encode_utf16(s@.subrange(0, i + 1)));
            }
        }
        i = i + 1;
    }
    proof {
        assert(s@.subrange(0, n as int) =~= s@);
    }
    out
}

/// The characters that UTF-16 code units decode to, or `None` when a surrogate
/// is unpaired.
pub open spec fn decode_utf16(u: Seq<u16>) -> Option<Seq<char>>
    decreases u.len(),
{
    if u.len() == 0 {
        Some(Seq::empty())
    } else if u[0] < 0xD800 || u[0] > 0xDFFF {
        match decode_utf16(u.drop_first()) {
            Some(t) => Some(seq![u[0] as char] + t),
            None => None,
        }
    } else if u[0] <= 0xDBFF && u.len() >= 2 && 0xDC00 <= u[1] <= 0xDFFF {
        let v = 0x10000 + (u[0] - 0xD800) * 1024 + (u[1] - 0xDC00);
        match decode_utf16(u.subrange(2, u.len() as int)) {
            Some(t) => Some(seq![v as char] + t),
            None => None,
        }
    } else {
        None
    }
}

/// Calls `char::from_u32`, which gives the character with scalar value `v`, or
/// `None` for a surrogate or a value above `0x10FFFF`.
#[verifier::external_body]
fn char_from_u32(v: u32) -> (r: Option<char>)
    ensures
        (v <= 0x10FFFF && !(0xD800 <= v <= 0xDFFF)) ==> r == Some(v as char),
        !(v <= 0x10FFFF && !(0xD800 <= v <= 0xDFFF)) ==> r is None,
{
    char::from_u32(v)
}

/// Decodes UTF-16 code units into a string, as `String::from_utf16` does; the
/// units must decode.
pub fn string_from_utf16(u: &Vec<u16>) -> (r: String)
    requires
        decode_utf16(u@) is Some,
    ensures
        r@ == decode_utf16(u@)->0,
{
    let mut out = String::new();
    let mut i: usize = 0;
    let n = u.len();
    proof {
        assert(u@.subrange(0, n as int) =~= u@);
        assert(out@ + decode_utf16(u@)->0 =~= decode_utf16(u@)->0);
    }
    while i < n
        invariant
            n == u@.len(),
            i <= n,
            decode_utf16(u@) is Some,
            decode_utf16(u@.subrange(i as int, n as int)) is Some,
            decode_utf16(u@)->0 == out@ + decode_utf16(u@.subrange(i as int, n as int))->0,
        decreases n - i,
    {
        let rest = Ghost(u@.subrange(i as int, n as int));
        let a = u[i];
        assert(rest@[0] == a);
        if a < 0xD800 || a > 0xDFFF {
            let c = char_from_u32(a as u32).unwrap();
            crate::strings::string_push(&mut out, c);
            proof {
                assert(rest@.drop_first() =~= u@.subrange(i + 1, n as int));
                assert(c == a as char);
            }
            i = i + 1;
        } else {
            let b = u[i + 1];
            assert(rest@[1] == b);
            let v: u32 = 0x10000 + (a as u32 - 0xD800) * 1024 + (b as u32 - 0xDC00);
            let c = char_from_u32(v).unwrap();
            crate::strings::string_push(&mut out, c);
            proof {
                assert(rest@.subrange(2, rest@.len() as int) =~= u@.subrange(i + 2, n as int));
            }
            i = i + 2;
        }
    }
    proof {
        assert(u@.subrange(n as int, n as int) =~= Seq::<u16>::empty());
    }
    out
}

/// The decimal digits of `n`, most significant first, without leading zeroes.
pub open spec fn decimal(n: nat) -> Seq<char>
    decreases n,
{
    if n < 10 {
        seq![(48 + n) as char]
    } else {
        decimal(n / 10).push((48 + n % 10) as char)
    }
}

/// Appends the decimal form of `n` to `s`, as `u32::to_string` writes it.
pub fn push_decimal(s: &mut String, n: u32)
    ensures
        final(s)@ == old(s)@ + decimal(n as nat),
    decreases n,
{
    if n >= 10 {
        push_decimal(s, n / 10);
    }
    let c = ((48 + n % 10) as u8) as char;
    crate::strings::string_push(s, c);
    proof {
        if n < 10 {
            assert(old(s)@ + decimal(n as nat) =~= old(s)@.push(c));
        } else {
            assert(old(s)@ + decimal(n as nat) =~= (old(s)@ + decimal((n / 10) as nat)).push(c));
        }
    }
}

} // verus!
