//! String pools: strings stored as UTF-8 or UTF-16 behind an offset table.
use vstd::prelude::*;
use vstd::utf8::{encode_utf8, encode_utf8_decode_utf8, encode_utf8_valid_utf8, valid_utf8};
use crate::bytes::{get_u16, get_u32, le16, le32, push_u16, push_u32, read16, read32};
use crate::components::{ArscError, Header, StringPool, TypeFlag, UTF8_FLAG};
use crate::config::words_bytes;
use crate::header::{decode_header, encode_header, header_bytes, parse_header, lemma_header_round_trip};
use crate::config::{lemma_words_bytes_index, lemma_words_bytes_len};

verus! {

/// The UTF-16 code units of a string, as `str::encode_utf16` produces them.
pub uninterp spec fn utf16_of(s: Seq<char>) -> Seq<u16>;

/// Relies on `str::encode_utf16`: the UTF-16 code units of `s`, in order.
#[verifier::external_body]
pub(crate) fn utf16_units(s: &str) -> (r: Vec<u16>)
    ensures
        r@ == utf16_of(s@),
{
    s.encode_utf16().collect()
}

/// Relies on `String::from_utf8`: it succeeds exactly on valid UTF-8, and the string it
/// gives holds those bytes.
#[verifier::external_body]
fn string_from_utf8(v: Vec<u8>) -> (r: Option<String>)
    ensures
        match r {
            Some(t) => encode_utf8(t@) == v@,
            None => !valid_utf8(v@),
        },
{
    String::from_utf8(v).ok()
}

/// Relies on `String::from_utf16`: a string it gives encodes to those units again, and it
/// succeeds on the units of any string.
#[verifier::external_body]
pub(crate) fn string_from_utf16(v: &[u16]) -> (r: Option<String>)
    ensures
        r matches Some(t) ==> utf16_of(t@) == v@,
        (exists|t: Seq<char>| utf16_of(t) == v@) ==> r is Some,
{
    String::from_utf16(v).ok()
}

/// What a string pool holds.
pub struct StringPoolModel {
    pub strings: Seq<Seq<char>>,
    pub flags: u32,
}

impl View for StringPool {
    type V = StringPoolModel;

    open spec fn view(&self) -> StringPoolModel {
        StringPoolModel { strings: self.strings@.map_values(|s: String| s@), flags: self.flags }
    }
}

/// Bytes of a string-pool chunk header.
pub const POOL_HEADER: usize = 28;

/// Whether pools with these flags store UTF-8.
pub open spec fn is_utf8(flags: u32) -> bool {
    flags & UTF8_FLAG != 0
}

/// A length below 0x8000 in one byte, or two bytes with the high bit of the first set.
pub open spec fn len8_bytes(n: int) -> Seq<u8> {
    if n > 0x7f {
        seq![(0x80 + n / 256) as u8, (n % 256) as u8]
    } else {
        seq![n as u8]
    }
}

/// A length below 0x8000_0000 in one unit, or two units with the high bit of the first set.
pub open spec fn len16_bytes(n: int) -> Seq<u8> {
    if n > 0x7fff {
        le16((0x8000 + n / 65536) as u16) + le16((n % 65536) as u16)
    } else {
        le16(n as u16)
    }
}

/// The bytes of a sequence of UTF-16 code units.
pub open spec fn units_bytes(u: Seq<u16>) -> Seq<u8>
    decreases u.len(),
{
    if u.len() == 0 {
        Seq::empty()
    } else {
        units_bytes(u.drop_last()) + le16(u.last())
    }
}

/// How one string is stored in a pool: its lengths, its encoded form and a terminator.
pub open spec fn string_bytes(c: Seq<char>, utf8: bool) -> Seq<u8> {
    if utf8 {
        len8_bytes(utf16_of(c).len() as int) + len8_bytes(encode_utf8(c).len() as int)
            + encode_utf8(c) + seq![0u8]
    } else {
        len16_bytes(utf16_of(c).len() as int) + units_bytes(utf16_of(c)) + seq![0u8, 0u8]
    }
}

/// A string whose lengths fit the length prefixes of its pool.
pub open spec fn string_encodable(c: Seq<char>, utf8: bool) -> bool {
    if utf8 {
        utf16_of(c).len() <= 0x7fff && encode_utf8(c).len() <= 0x7fff
    } else {
        utf16_of(c).len() <= 0x7fff_ffff
    }
}

/// The first `n` strings, stored one after another.
pub open spec fn strings_data(p: Seq<Seq<char>>, utf8: bool, n: int) -> Seq<u8>
    decreases n,
{
    if n <= 0 {
        Seq::empty()
    } else {
        strings_data(p, utf8, n - 1) + string_bytes(p[n - 1], utf8)
    }
}

/// Where each of the first `n` strings starts in the string data.
pub open spec fn string_offsets(p: Seq<Seq<char>>, utf8: bool, n: int) -> Seq<u32>
    decreases n,
{
    if n <= 0 {
        Seq::empty()
    } else {
        string_offsets(p, utf8, n - 1).push(strings_data(p, utf8, n - 1).len() as u32)
    }
}

/// Zero bytes that bring a length of `n` to a multiple of four.
pub open spec fn padding(n: int) -> Seq<u8> {
    Seq::new(((4 - n % 4) % 4) as nat, |_k: int| 0u8)
}

/// The string data of a pool, followed by its padding.
pub open spec fn pool_data(p: StringPoolModel) -> Seq<u8> {
    let d = strings_data(p.strings, is_utf8(p.flags), p.strings.len() as int);
    d + padding(d.len() as int)
}

/// Where the string data starts, counted from the start of the chunk.
pub open spec fn pool_strings_start(p: StringPoolModel) -> int {
    POOL_HEADER + 4 * p.strings.len()
}

/// The number of bytes of the chunk that holds `p`.
pub open spec fn pool_size(p: StringPoolModel) -> int {
    pool_strings_start(p) + pool_data(p).len()
}

/// The bytes of the string-pool chunk that holds `p`.
#[verifier::opaque]
pub open spec fn pool_bytes(p: StringPoolModel) -> Seq<u8> {
    let utf8 = is_utf8(p.flags);
    let n = p.strings.len() as int;
    let h = Header {
        type_flag: TypeFlag::RES_STRING_POOL_TYPE,
        header_size: POOL_HEADER as u16,
        size: pool_size(p) as u64,
    };
    header_bytes(h) + le32(n as u32) + le32(0) + le32(p.flags) + le32(pool_strings_start(p) as u32)
        + le32(0) + words_bytes(string_offsets(p.strings, utf8, n)) + pool_data(p)
}

/// A pool whose strings fit their length prefixes and whose chunk fits 32-bit sizes.
pub open spec fn pool_encodable(p: StringPoolModel) -> bool {
    &&& forall|k: int| 0 <= k < p.strings.len() ==> string_encodable(#[trigger] p.strings[k], is_utf8(p.flags))
    &&& pool_size(p) <= u32::MAX
}

fn push_len8(out: &mut Vec<u8>, n: usize)
    requires
        n <= 0x7fff,
    ensures
        final(out)@ == old(out)@ + len8_bytes(n as int),
{
    if n > 0x7f {
        out.push((0x80 + n / 256) as u8);
        out.push((n % 256) as u8);
    } else {
        out.push(n as u8);
    }
    assert(final(out)@ =~= old(out)@ + len8_bytes(n as int));
}

fn push_len16(out: &mut Vec<u8>, n: usize)
    requires
        n <= 0x7fff_ffff,
    ensures
        final(out)@ == old(out)@ + len16_bytes(n as int),
{
    if n > 0x7fff {
        push_u16(out, (0x8000 + n / 65536) as u16);
        push_u16(out, (n % 65536) as u16);
    } else {
        push_u16(out, n as u16);
    }
    assert(final(out)@ =~= old(out)@ + len16_bytes(n as int));
}

/// Appends the stored form of `s`, UTF-8 or UTF-16 as `utf8` says; `false`, with nothing
/// appended, when its lengths do not fit their prefixes.
pub fn encode_string(s: &String, utf8: bool, out: &mut Vec<u8>) -> (ok: bool)
    ensures
        ok == string_encodable(s@, utf8),
        ok ==> final(out)@ == old(out)@ + string_bytes(s@, utf8),
        !ok ==> final(out)@ == old(out)@,
{
    let units = utf16_units(s.as_str());
    if utf8 {
        let bytes = s.as_str().as_bytes();
        if units.len() > 0x7fff || bytes.len() > 0x7fff {
            return false;
        }
        push_len8(out, units.len());
        push_len8(out, bytes.len());
        let ghost head = out@;
        let mut k: usize = 0;
        while k < bytes.len()
            invariant
                k <= bytes@.len(),
                out@ == head + bytes@.take(k as int),
            decreases bytes@.len() - k,
        {
            out.push(bytes[k]);
            assert(bytes@.take(k + 1) =~= bytes@.take(k as int).push(bytes@[k as int]));
            k = k + 1;
        }
        assert(bytes@.take(k as int) =~= bytes@);
        out.push(0u8);
        assert(final(out)@ =~= old(out)@ + string_bytes(s@, utf8));
    } else {
        if units.len() > 0x7fff_ffff {
            return false;
        }
        push_len16(out, units.len());
        let ghost head = out@;
        let mut k: usize = 0;
        while k < units.len()
            invariant
                k <= units@.len(),
                out@ == head + units_bytes(units@.take(k as int)),
            decreases units@.len() - k,
        {
            push_u16(out, units[k]);
            assert(units@.take(k + 1).drop_last() =~= units@.take(k as int));
            k = k + 1;
        }
        assert(units@.take(k as int) =~= units@);
        out.push(0u8);
        out.push(0u8);
        assert(final(out)@ =~= old(out)@ + string_bytes(s@, utf8));
    }
    true
}

/// The stored form of the string at `a` of `s` runs to its terminator inside a region ending
/// at `end` and is exactly the stored form of `t`.
pub open spec fn stored_at(s: Seq<u8>, a: int, end: int, t: Seq<char>, utf8: bool) -> bool {
    &&& a + string_bytes(t, utf8).len() <= end
    &&& s.subrange(a, a + string_bytes(t, utf8).len()) == string_bytes(t, utf8)
}

/// Reads a one- or two-byte length at `a`, refusing a two-byte form of a short length.
fn read_len8(data: &Vec<u8>, a: usize, end: usize) -> (r: Option<(usize, usize)>)
    requires
        end <= data@.len(),
    ensures
        r matches Some((n, w)) ==> a + w <= end && n <= 0x7fff && data@.subrange(
            a as int,
            a + w,
        ) == len8_bytes(n as int),
        forall|n: int|
            0 <= n <= 0x7fff && a + len8_bytes(n).len() <= end && #[trigger] data@.subrange(
                a as int,
                a + len8_bytes(n).len(),
            ) == len8_bytes(n) ==> r == Some((n as usize, len8_bytes(n).len() as usize)),
{
    assert forall|n: int|
        0 <= n <= 0x7fff && a + len8_bytes(n).len() <= end && #[trigger] data@.subrange(
            a as int,
            a + len8_bytes(n).len(),
        ) == len8_bytes(n) implies data@[a as int] == len8_bytes(n)[0] && (n > 0x7f ==> data@[a
        + 1] == len8_bytes(n)[1] && n == (n / 256) * 256 + n % 256) by {
        assert(data@[a as int] == data@.subrange(a as int, a + len8_bytes(n).len())[0]);
        if n > 0x7f {
            assert(data@[a + 1] == data@.subrange(a as int, a + len8_bytes(n).len())[1]);
        }
    }
    if a >= end {
        return None;
    }
    let b0 = data[a];
    if b0 < 0x80 {
        assert(data@.subrange(a as int, a + 1) =~= len8_bytes(b0 as int));
        Some((b0 as usize, 1))
    } else {
        if end - a < 2 {
            return None;
        }
        let n = (b0 as usize - 0x80) * 256 + data[a + 1] as usize;
        if n <= 0x7f {
            return None;
        }
        assert(data@.subrange(a as int, a + 2) =~= len8_bytes(n as int));
        Some((n, 2))
    }
}

/// Reads a one- or two-unit length at `a`, refusing a two-unit form of a short length.
fn read_len16(data: &Vec<u8>, a: usize, end: usize) -> (r: Option<(usize, usize)>)
    requires
        end <= data@.len(),
    ensures
        r matches Some((n, w)) ==> a + w <= end && n <= 0x7fff_ffff && data@.subrange(
            a as int,
            a + w,
        ) == len16_bytes(n as int),
        forall|n: int|
            0 <= n <= 0x7fff_ffff && a + len16_bytes(n).len() <= end && #[trigger] data@.subrange(
                a as int,
                a + len16_bytes(n).len(),
            ) == len16_bytes(n) ==> r == Some((n as usize, len16_bytes(n).len() as usize)),
{
    assert forall|n: int|
        0 <= n <= 0x7fff_ffff && a + len16_bytes(n).len() <= end && #[trigger] data@.subrange(
            a as int,
            a + len16_bytes(n).len(),
        ) == len16_bytes(n) implies read16(data@, a as int) == (if n > 0x7fff {
        (0x8000 + n / 65536) as u16
    } else {
        n as u16
    }) && (n > 0x7fff ==> read16(data@, a + 2) == (n % 65536) as u16 && n == (n / 65536) * 65536
        + n % 65536) by {
        let first = if n > 0x7fff { (0x8000 + n / 65536) as u16 } else { n as u16 };
        let l = len16_bytes(n);
        assert(data@.subrange(a as int, a + 2) =~= l.subrange(0, 2));
        assert(l.subrange(0, 2) =~= le16(first));
        crate::bytes::lemma_read16_le16(first, data@, a as int);
        if n > 0x7fff {
            assert(data@.subrange(a + 2, a + 4) =~= l.subrange(2, 4));
            assert(l.subrange(2, 4) =~= le16((n % 65536) as u16));
            crate::bytes::lemma_read16_le16((n % 65536) as u16, data@, a + 2);
        }
    }
    if a >= end || end - a < 2 {
        return None;
    }
    let u0 = get_u16(data, a);
    proof {
        crate::bytes::lemma_le16_read16(data@, a as int);
    }
    if u0 < 0x8000 {
        Some((u0 as usize, 2))
    } else {
        if end - a < 4 {
            return None;
        }
        let u1 = get_u16(data, a + 2);
        proof {
            crate::bytes::lemma_le16_read16(data@, a + 2);
        }
        let n = (u0 as usize - 0x8000) * 65536 + u1 as usize;
        if n <= 0x7fff {
            return None;
        }
        assert((0x8000 + n / 65536) as u16 == u0 && (n % 65536) as u16 == u1);
        assert(data@.subrange(a as int, a + 4) =~= data@.subrange(a as int, a + 2) + data@.subrange(
            a + 2,
            a + 4,
        ));
        Some((n, 4))
    }
}

proof fn lemma_stored_parts(s: Seq<u8>, a: int, end: int, c: Seq<char>, utf8: bool)
    requires
        0 <= a,
        end <= s.len(),
        stored_at(s, a, end, c, utf8),
    ensures
        utf8 ==> {
            let l1 = len8_bytes(utf16_of(c).len() as int);
            let l2 = len8_bytes(encode_utf8(c).len() as int);
            let b = a + l1.len() + l2.len();
            let n = encode_utf8(c).len() as int;
            &&& s.subrange(a, a + l1.len()) == l1
            &&& s.subrange(a + l1.len(), a + l1.len() + l2.len()) == l2
            &&& s.subrange(b, b + n) == encode_utf8(c)
            &&& b + n + 1 <= end
            &&& s[b + n] == 0
        },
        !utf8 ==> {
            let l = len16_bytes(utf16_of(c).len() as int);
            let b = a + l.len();
            let n = utf16_of(c).len() as int;
            &&& s.subrange(a, a + l.len()) == l
            &&& s.subrange(b, b + 2 * n) == units_bytes(utf16_of(c))
            &&& b + 2 * n + 2 <= end
            &&& s[b + 2 * n] == 0
            &&& s[b + 2 * n + 1] == 0
        },
{
    let bc = string_bytes(c, utf8);
    let whole = s.subrange(a, a + bc.len());
    if utf8 {
        let l1 = len8_bytes(utf16_of(c).len() as int);
        let l2 = len8_bytes(encode_utf8(c).len() as int);
        let w = (l1.len() + l2.len()) as int;
        let n = encode_utf8(c).len() as int;
        assert(s.subrange(a, a + l1.len()) =~= whole.subrange(0, l1.len() as int));
        assert(s.subrange(a + l1.len(), a + w) =~= whole.subrange(l1.len() as int, w));
        assert(s.subrange(a + w, a + w + n) =~= whole.subrange(w, w + n));
        assert(s[a + w + n] == whole[w + n]);
    } else {
        let l = len16_bytes(utf16_of(c).len() as int);
        let n = utf16_of(c).len() as int;
        lemma_units_bytes_len(utf16_of(c));
        let w = l.len() as int;
        assert(s.subrange(a, a + w) =~= whole.subrange(0, w));
        assert(s.subrange(a + w, a + w + 2 * n) =~= whole.subrange(w, w + 2 * n));
        assert(s[a + w + 2 * n] == whole[w + 2 * n]);
        assert(s[a + w + 2 * n + 1] == whole[w + 2 * n + 1]);
    }
}

/// Decodes the string stored at `a` in a string region ending at `end`; `StringPoolCorrupt`
/// when it leaves the region, its lengths disagree, or its bytes do not decode.
pub fn decode_string(data: &Vec<u8>, a: usize, end: usize, utf8: bool) -> (r: Result<String, ArscError>)
    requires
        end <= data@.len(),
    ensures
        r matches Ok(t) ==> stored_at(data@, a as int, end as int, t@, utf8) && string_encodable(
            t@,
            utf8,
        ),
        r matches Err(e) ==> e == ArscError::StringPoolCorrupt,
        forall|c: Seq<char>|
            string_encodable(c, utf8) && #[trigger] stored_at(data@, a as int, end as int, c, utf8)
                ==> r is Ok,
{
    let ghost s = data@;
    let ghost stored: Option<Seq<char>> = if exists|c: Seq<char>|
        string_encodable(c, utf8) && #[trigger] stored_at(s, a as int, end as int, c, utf8) {
        Some(
            choose|c: Seq<char>|
                string_encodable(c, utf8) && #[trigger] stored_at(s, a as int, end as int, c, utf8),
        )
    } else {
        None
    };
    proof {
        if let Some(c) = stored {
            lemma_stored_parts(s, a as int, end as int, c, utf8);
            encode_utf8_valid_utf8(c);
            encode_utf8_decode_utf8(c);
        }
    }
    if utf8 {
        let (units, w1) = match read_len8(data, a, end) {
            Some(x) => x,
            None => {
                return Err(ArscError::StringPoolCorrupt);
            },
        };
        let (n, w2) = match read_len8(data, a + w1, end) {
            Some(x) => x,
            None => {
                return Err(ArscError::StringPoolCorrupt);
            },
        };
        let b = a + w1 + w2;
        if n >= end - b || data[b + n] != 0 {
            return Err(ArscError::StringPoolCorrupt);
        }
        let mut v: Vec<u8> = Vec::new();
        let mut k: usize = 0;
        while k < n
            invariant
                k <= n,
                b + n < end <= data@.len(),
                s == data@,
                v@ == s.subrange(b as int, b + k),
            decreases n - k,
        {
            v.push(data[b + k]);
            assert(v@ =~= s.subrange(b as int, b + k + 1));
            k = k + 1;
        }
        let t = match string_from_utf8(v) {
            Some(t) => t,
            None => {
                return Err(ArscError::StringPoolCorrupt);
            },
        };
        let tu = utf16_units(t.as_str());
        proof {
            if let Some(c) = stored {
                encode_utf8_decode_utf8(t@);
            }
        }
        if tu.len() != units {
            return Err(ArscError::StringPoolCorrupt);
        }
        assert(s.subrange(a as int, b + n + 1) =~= s.subrange(a as int, a + w1) + s.subrange(
            a + w1,
            b as int,
        ) + s.subrange(b as int, b + n) + seq![0u8]);
        assert(s.subrange(a as int, b + n + 1) =~= string_bytes(t@, utf8));
        Ok(t)
    } else {
        let (n, w) = match read_len16(data, a, end) {
            Some(x) => x,
            None => {
                return Err(ArscError::StringPoolCorrupt);
            },
        };
        let b = a + w;
        if n >= (end - b) / 2 || data[b + 2 * n] != 0 || data[b + 2 * n + 1] != 0 {
            return Err(ArscError::StringPoolCorrupt);
        }
        let mut v: Vec<u16> = Vec::new();
        let mut k: usize = 0;
        while k < n
            invariant
                k <= n,
                b + 2 * n + 2 <= end <= data@.len(),
                s == data@,
                units_bytes(v@) == s.subrange(b as int, b + 2 * k),
                v@.len() == k,
            decreases n - k,
        {
            let u = get_u16(data, b + 2 * k);
            proof {
                crate::bytes::lemma_le16_read16(s, b + 2 * k);
            }
            let ghost before = v@;
            v.push(u);
            assert(v@.drop_last() =~= before);
            assert(s.subrange(b as int, b + 2 * k + 2) =~= s.subrange(b as int, b + 2 * k)
                + s.subrange(b + 2 * k, b + 2 * k + 2));
            k = k + 1;
        }
        proof {
            if let Some(c) = stored {
                lemma_units_bytes_len(utf16_of(c));
                lemma_units_bytes_unique(v@, utf16_of(c));
            }
        }
        let t = match string_from_utf16(v.as_slice()) {
            Some(t) => t,
            None => {
                return Err(ArscError::StringPoolCorrupt);
            },
        };
        assert(s.subrange(a as int, b + 2 * n + 2) =~= s.subrange(a as int, b as int) + s.subrange(
            b as int,
            b + 2 * n,
        ) + seq![0u8, 0u8]);
        assert(s.subrange(a as int, b + 2 * n + 2) =~= string_bytes(t@, utf8));
        Ok(t)
    }
}

pub proof fn lemma_strings_data_prefix(p: Seq<Seq<char>>, utf8: bool, a: int, b: int)
    requires
        0 <= a <= b,
    ensures
        strings_data(p, utf8, a).len() <= strings_data(p, utf8, b).len(),
    decreases b,
{
    if a < b {
        lemma_strings_data_prefix(p, utf8, a, b - 1);
    }
}

/// Appends the string-pool chunk of `p`; `false`, with nothing appended, when a string's
/// lengths do not fit their prefixes or the chunk does not fit 32-bit sizes.
#[verifier::rlimit(40)]
pub fn encode_pool(p: &StringPool, out: &mut Vec<u8>) -> (ok: bool)
    ensures
        ok == pool_encodable(p@),
        ok ==> final(out)@ == old(out)@ + pool_bytes(p@),
        !ok ==> final(out)@ == old(out)@,
{
    let ghost m = p@;
    let utf8 = p.flags & UTF8_FLAG != 0;
    let n = p.strings.len();
    let mut data: Vec<u8> = Vec::new();
    let mut offsets: Vec<u32> = Vec::new();
    let mut k: usize = 0;
    while k < n
        invariant
            m == p@,
            utf8 == is_utf8(p.flags),
            n == m.strings.len(),
            k <= n,
            data@ == strings_data(m.strings, utf8, k as int),
            offsets@ == string_offsets(m.strings, utf8, k as int),
            forall|j: int| 0 <= j < k ==> string_encodable(#[trigger] m.strings[j], utf8),
        decreases n - k,
    {
        if data.len() > 0xffff_ffff {
            proof {
                lemma_strings_data_prefix(m.strings, utf8, k as int, n as int);
            }
            return false;
        }
        offsets.push(data.len() as u32);
        let ok = encode_string(&p.strings[k], utf8, &mut data);
        if !ok {
            assert(p.strings@[k as int]@ == m.strings[k as int]);
            assert(!string_encodable(m.strings[k as int], utf8));
            return false;
        }
        k = k + 1;
    }
    let pad: usize = (4 - data.len() % 4) % 4;
    if data.len() > 0xffff_ffff || n > 0x3fff_ffff || 4 * (n as u64) + (data.len() as u64) + (pad as u64) > 0xffff_ffff - 28 {
        return false;
    }
    let start: usize = POOL_HEADER + 4 * n;
    let size: usize = start + data.len() + pad;
    let h = Header {
        type_flag: TypeFlag::RES_STRING_POOL_TYPE,
        header_size: POOL_HEADER as u16,
        size: size as u64,
    };
    encode_header(&h, out);
    push_u32(out, n as u32);
    push_u32(out, 0);
    push_u32(out, p.flags);
    push_u32(out, start as u32);
    push_u32(out, 0);
    let ghost fixed = out@;
    let mut j: usize = 0;
    while j < offsets.len()
        invariant
            j <= offsets@.len(),
            out@ == fixed + words_bytes(offsets@.take(j as int)),
        decreases offsets@.len() - j,
    {
        push_u32(out, offsets[j]);
        assert(offsets@.take(j + 1).drop_last() =~= offsets@.take(j as int));
        j = j + 1;
    }
    assert(offsets@.take(j as int) =~= offsets@);
    let ghost dlen = data@.len();
    out.append(&mut data);
    let ghost with_data = out@;
    let mut z: usize = 0;
    while z < pad
        invariant
            z <= pad,
            out@ == with_data + Seq::new(z as nat, |_k: int| 0u8),
        decreases pad - z,
    {
        out.push(0u8);
        assert(out@ =~= with_data + Seq::new((z + 1) as nat, |_k: int| 0u8));
        z = z + 1;
    }
    reveal(pool_bytes);
    assert(Seq::new(z as nat, |_k: int| 0u8) =~= padding(dlen as int));
    assert(final(out)@ =~= old(out)@ + pool_bytes(p@));
    true
}

/// Some encodable string is stored at `a`, within a region ending at `end`.
pub open spec fn stored_somewhere(s: Seq<u8>, a: int, end: int, utf8: bool) -> bool {
    exists|c: Seq<char>| string_encodable(c, utf8) && #[trigger] stored_at(s, a, end, c, utf8)
}

/// The chunk at `i` has a string-pool header and its offset table lies before its strings.
pub open spec fn pool_layout_ok(s: Seq<u8>, i: int) -> bool {
    &&& parse_header(s, i) matches Ok(h)
    &&& h.type_flag == TypeFlag::RES_STRING_POOL_TYPE
    &&& h.header_size >= POOL_HEADER
    &&& i + h.size <= s.len()
    &&& h.header_size + 4 * read32(s, i + 8) <= read32(s, i + 20) <= h.size
    &&& read32(s, i + 12) == 0
}

/// `t` is what the string-pool chunk at `i` holds: its flags, its count, and each string
/// stored exactly, and within its length prefixes, where the offset table says.
pub open spec fn pool_decoded(s: Seq<u8>, i: int, t: StringPoolModel) -> bool {
    &&& t.flags == read32(s, i + 16)
    &&& t.strings.len() == read32(s, i + 8)
    &&& forall|k: int|
        0 <= k < t.strings.len() ==> stored_at(
            s,
            pool_string_pos(s, i, k),
            i + read32(s, i + 4),
            #[trigger] t.strings[k],
            is_utf8(t.flags),
        ) && string_encodable(t.strings[k], is_utf8(t.flags))
}

/// The string-pool chunk at `i` decodes: its layout is valid and every string it lists is stored.
pub open spec fn pool_ok(s: Seq<u8>, i: int) -> bool {
    &&& pool_layout_ok(s, i)
    &&& forall|k: int|
        0 <= k < read32(s, i + 8) ==> #[trigger] stored_somewhere(
            s,
            pool_string_pos(s, i, k),
            i + read32(s, i + 4),
            is_utf8(read32(s, i + 16)),
        )
}

/// The absolute position of string `k` of the pool chunk at `i`.
pub open spec fn pool_string_pos(s: Seq<u8>, i: int, k: int) -> int {
    i + read32(s, i + 20) + read32(s, i + read16(s, i + 2) + 4 * k)
}

/// Decodes the string-pool chunk at `pos`; gives the pool and the chunk's size. A pool that
/// declares style spans is refused with `StringPoolCorrupt`, since a pool here holds none. Each string
/// it gives is stored exactly as its own encoding at the position the offset table names.
#[verifier::rlimit(40)]
pub fn decode_pool(data: &Vec<u8>, pos: usize) -> (r: Result<(StringPool, usize), ArscError>)
    ensures
        r matches Ok((p, n)) ==> {
            &&& parse_header(data@, pos as int) matches Ok(h)
            &&& h.type_flag == TypeFlag::RES_STRING_POOL_TYPE
            &&& n == h.size && pos + n <= data@.len()
            &&& pool_decoded(data@, pos as int, p@)
        },
        r matches Err(e) ==> e == ArscError::MalformedHeader || e == ArscError::StringPoolCorrupt,
        parse_header(data@, pos as int) is Err ==> r == Err::<(StringPool, usize), ArscError>(
            ArscError::MalformedHeader,
        ),
        r is Ok <==> pool_ok(data@, pos as int),
        pool_layout_ok(data@, pos as int) && (forall|k: int|
            0 <= k < read32(data@, pos + 8) ==> #[trigger] stored_somewhere(
                data@,
                pool_string_pos(data@, pos as int, k),
                pos + read32(data@, pos + 4),
                is_utf8(read32(data@, pos + 16)),
            )) ==> r is Ok,
{
    let ghost s = data@;
    let h = match decode_header(data, pos) {
        Ok(h) => h,
        Err(e) => {
            return Err(e);
        },
    };
    if h.type_flag != TypeFlag::RES_STRING_POOL_TYPE || (h.header_size as usize) < POOL_HEADER
        || pos > data.len() || h.size > (data.len() - pos) as u64 {
        return Err(ArscError::MalformedHeader);
    }
    let hs = h.header_size as usize;
    let size = h.size as usize;
    let end = pos + size;
    let count32 = get_u32(data, pos + 8);
    if get_u32(data, pos + 12) != 0 {
        return Err(ArscError::StringPoolCorrupt);
    }
    let flags = get_u32(data, pos + 16);
    let start32 = get_u32(data, pos + 20);
    if (hs as u64) + 4 * (count32 as u64) > start32 as u64 || start32 as u64 > size as u64 {
        return Err(ArscError::StringPoolCorrupt);
    }
    let count = count32 as usize;
    let start = start32 as usize;
    let utf8 = flags & UTF8_FLAG != 0;
    let mut strings: Vec<String> = Vec::new();
    let mut k: usize = 0;
    while k < count
        invariant
            s == data@,
            parse_header(s, pos as int) == Ok::<Header, ArscError>(h),
            hs == read16(s, pos + 2),
            start == read32(s, pos + 20),
            count == read32(s, pos + 8),
            hs + 4 * count <= start <= size,
            end == pos + size,
            size == read32(s, pos + 4),
            utf8 == is_utf8(read32(s, pos + 16)),
            end <= s.len(),
            k <= count,
            strings@.len() == k,
            forall|j: int|
                0 <= j < k ==> stored_at(
                    s,
                    pool_string_pos(s, pos as int, j),
                    end as int,
                    #[trigger] strings@[j]@,
                    utf8,
                ) && string_encodable(strings@[j]@, utf8),
        decreases count - k,
    {
        let off = get_u32(data, pos + hs + 4 * k);
        assert(pos + start + off == pool_string_pos(s, pos as int, k as int));
        if off as usize > size - start {
            assert(!stored_somewhere(s, pool_string_pos(s, pos as int, k as int), end as int, utf8));
            return Err(ArscError::StringPoolCorrupt);
        }
        let t = match decode_string(data, pos + start + off as usize, end, utf8) {
            Ok(t) => t,
            Err(e) => {
                assert(!stored_somewhere(s, pool_string_pos(s, pos as int, k as int), end as int, utf8));
                return Err(e);
            },
        };
        strings.push(t);
        k = k + 1;
    }
    let p = StringPool { strings, flags };
    assert forall|k: int| 0 <= k < p@.strings.len() implies p@.strings[k] == p.strings@[k]@ by {}
    assert forall|k: int| 0 <= k < count implies #[trigger] stored_somewhere(
        s,
        pool_string_pos(s, pos as int, k),
        end as int,
        utf8,
    ) by {
        assert(stored_at(s, pool_string_pos(s, pos as int, k), end as int, p.strings@[k]@, utf8));
    }
    Ok((p, size))
}

pub proof fn lemma_string_offsets_len(p: Seq<Seq<char>>, utf8: bool, n: int)
    requires
        0 <= n,
    ensures
        string_offsets(p, utf8, n).len() == n,
    decreases n,
{
    if n > 0 {
        lemma_string_offsets_len(p, utf8, n - 1);
    }
}

pub proof fn lemma_pool_bytes_len(p: StringPoolModel)
    ensures
        pool_bytes(p).len() == pool_size(p),
{
    reveal(pool_bytes);
    let n = p.strings.len() as int;
    lemma_string_offsets_len(p.strings, is_utf8(p.flags), n);
    crate::config::lemma_words_bytes_len(string_offsets(p.strings, is_utf8(p.flags), n));
}

pub proof fn lemma_units_bytes_len(u: Seq<u16>)
    ensures
        units_bytes(u).len() == 2 * u.len(),
    decreases u.len(),
{
    if u.len() > 0 {
        lemma_units_bytes_len(u.drop_last());
    }
}

proof fn lemma_len8_unique(s: Seq<u8>, a: int, n1: int, n2: int)
    requires
        0 <= a,
        0 <= n1 <= 0x7fff,
        0 <= n2 <= 0x7fff,
        a + len8_bytes(n1).len() <= s.len(),
        a + len8_bytes(n2).len() <= s.len(),
        s.subrange(a, a + len8_bytes(n1).len()) == len8_bytes(n1),
        s.subrange(a, a + len8_bytes(n2).len()) == len8_bytes(n2),
    ensures
        n1 == n2,
{
    assert(s[a] == len8_bytes(n1)[0]);
    assert(s[a] == len8_bytes(n2)[0]);
    if n1 > 0x7f && n2 > 0x7f {
        assert(s[a + 1] == len8_bytes(n1)[1]);
        assert(s[a + 1] == len8_bytes(n2)[1]);
        assert(n1 == (n1 / 256) * 256 + n1 % 256);
        assert(n2 == (n2 / 256) * 256 + n2 % 256);
    }
}

proof fn lemma_len16_unique(s: Seq<u8>, a: int, n1: int, n2: int)
    requires
        0 <= a,
        0 <= n1 <= 0x7fff_ffff,
        0 <= n2 <= 0x7fff_ffff,
        a + len16_bytes(n1).len() <= s.len(),
        a + len16_bytes(n2).len() <= s.len(),
        s.subrange(a, a + len16_bytes(n1).len()) == len16_bytes(n1),
        s.subrange(a, a + len16_bytes(n2).len()) == len16_bytes(n2),
    ensures
        n1 == n2,
{
    let first1 = if n1 > 0x7fff { (0x8000 + n1 / 65536) as u16 } else { n1 as u16 };
    let first2 = if n2 > 0x7fff { (0x8000 + n2 / 65536) as u16 } else { n2 as u16 };
    assert(s.subrange(a, a + 2) =~= len16_bytes(n1).subrange(0, 2));
    assert(len16_bytes(n1).subrange(0, 2) =~= le16(first1));
    assert(s.subrange(a, a + 2) =~= len16_bytes(n2).subrange(0, 2));
    assert(len16_bytes(n2).subrange(0, 2) =~= le16(first2));
    crate::bytes::lemma_read16_le16(first1, s, a);
    crate::bytes::lemma_read16_le16(first2, s, a);
    if n1 > 0x7fff && n2 > 0x7fff {
        let second1 = (n1 % 65536) as u16;
        let second2 = (n2 % 65536) as u16;
        assert(s.subrange(a + 2, a + 4) =~= len16_bytes(n1).subrange(2, 4));
        assert(len16_bytes(n1).subrange(2, 4) =~= le16(second1));
        assert(s.subrange(a + 2, a + 4) =~= len16_bytes(n2).subrange(2, 4));
        assert(len16_bytes(n2).subrange(2, 4) =~= le16(second2));
        crate::bytes::lemma_read16_le16(second1, s, a + 2);
        crate::bytes::lemma_read16_le16(second2, s, a + 2);
        assert(n1 == (n1 / 65536) * 65536 + n1 % 65536);
        assert(n2 == (n2 / 65536) * 65536 + n2 % 65536);
    }
}

proof fn lemma_units_bytes_unique(u1: Seq<u16>, u2: Seq<u16>)
    requires
        u1.len() == u2.len(),
        units_bytes(u1) == units_bytes(u2),
    ensures
        u1 == u2,
    decreases u1.len(),
{
    if u1.len() > 0 {
        let n = u1.len() as int;
        lemma_units_bytes_len(u1.drop_last());
        lemma_units_bytes_len(u2.drop_last());
        let b = units_bytes(u1);
        assert(b.subrange(0, 2 * n - 2) =~= units_bytes(u1.drop_last()));
        assert(units_bytes(u2).subrange(0, 2 * n - 2) =~= units_bytes(u2.drop_last()));
        lemma_units_bytes_unique(u1.drop_last(), u2.drop_last());
        assert(b.subrange(2 * n - 2, 2 * n) =~= le16(u1.last()));
        assert(units_bytes(u2).subrange(2 * n - 2, 2 * n) =~= le16(u2.last()));
        crate::bytes::lemma_read16_le16(u1.last(), b, 2 * n - 2);
        crate::bytes::lemma_read16_le16(u2.last(), b, 2 * n - 2);
        assert(u1 =~= u2.drop_last().push(u2.last()));
        assert(u2 =~= u2.drop_last().push(u2.last()));
    }
}

/// String pool fidelity: where the bytes of a stored string `c` stand, the only string that
/// can be read back is `c` itself in a UTF-8 pool, and one with exactly the UTF-16 units of
/// `c` in a UTF-16 pool, surrogate pairs included.
pub proof fn lemma_string_fidelity(s: Seq<u8>, a: int, end: int, c: Seq<char>, t: Seq<char>, utf8: bool)
    requires
        0 <= a,
        end <= s.len(),
        string_encodable(c, utf8),
        string_encodable(t, utf8),
        stored_at(s, a, end, c, utf8),
        stored_at(s, a, end, t, utf8),
    ensures
        utf16_of(t) == utf16_of(c),
        utf8 ==> t == c,
{
    let bc = string_bytes(c, utf8);
    let bt = string_bytes(t, utf8);
    if utf8 {
        let lc = len8_bytes(utf16_of(c).len() as int);
        let lt = len8_bytes(utf16_of(t).len() as int);
        assert(s.subrange(a, a + lc.len()) =~= bc.subrange(0, lc.len() as int));
        assert(bc.subrange(0, lc.len() as int) =~= lc);
        assert(s.subrange(a, a + lt.len()) =~= bt.subrange(0, lt.len() as int));
        assert(bt.subrange(0, lt.len() as int) =~= lt);
        lemma_len8_unique(s, a, utf16_of(c).len() as int, utf16_of(t).len() as int);
        let w = lc.len() as int;
        let mc = len8_bytes(encode_utf8(c).len() as int);
        let mt = len8_bytes(encode_utf8(t).len() as int);
        assert(s.subrange(a + w, a + w + mc.len()) =~= bc.subrange(w, w + mc.len()));
        assert(bc.subrange(w, w + mc.len()) =~= mc);
        assert(s.subrange(a + w, a + w + mt.len()) =~= bt.subrange(w, w + mt.len()));
        assert(bt.subrange(w, w + mt.len()) =~= mt);
        lemma_len8_unique(s, a + w, encode_utf8(c).len() as int, encode_utf8(t).len() as int);
        let v = w + mc.len();
        let n = encode_utf8(c).len() as int;
        assert(s.subrange(a + v, a + v + n) =~= bc.subrange(v, v + n));
        assert(bc.subrange(v, v + n) =~= encode_utf8(c));
        assert(s.subrange(a + v, a + v + n) =~= bt.subrange(v, v + n));
        assert(bt.subrange(v, v + n) =~= encode_utf8(t));
        encode_utf8_decode_utf8(c);
        encode_utf8_decode_utf8(t);
    } else {
        let lc = len16_bytes(utf16_of(c).len() as int);
        let lt = len16_bytes(utf16_of(t).len() as int);
        assert(s.subrange(a, a + lc.len()) =~= bc.subrange(0, lc.len() as int));
        assert(bc.subrange(0, lc.len() as int) =~= lc);
        assert(s.subrange(a, a + lt.len()) =~= bt.subrange(0, lt.len() as int));
        assert(bt.subrange(0, lt.len() as int) =~= lt);
        lemma_len16_unique(s, a, utf16_of(c).len() as int, utf16_of(t).len() as int);
        let w = lc.len() as int;
        let n = 2 * utf16_of(c).len();
        lemma_units_bytes_len(utf16_of(c));
        lemma_units_bytes_len(utf16_of(t));
        assert(s.subrange(a + w, a + w + n) =~= bc.subrange(w, w + n));
        assert(bc.subrange(w, w + n) =~= units_bytes(utf16_of(c)));
        assert(s.subrange(a + w, a + w + n) =~= bt.subrange(w, w + n));
        assert(bt.subrange(w, w + n) =~= units_bytes(utf16_of(t)));
        lemma_units_bytes_unique(utf16_of(c), utf16_of(t));
    }
}

proof fn lemma_strings_data_parts(p: Seq<Seq<char>>, utf8: bool, k: int, n: int)
    requires
        0 <= k < n,
    ensures
        strings_data(p, utf8, k).len() + string_bytes(p[k], utf8).len() <= strings_data(p, utf8, n).len(),
        strings_data(p, utf8, n).subrange(
            strings_data(p, utf8, k).len() as int,
            (strings_data(p, utf8, k).len() + string_bytes(p[k], utf8).len()) as int,
        ) == string_bytes(p[k], utf8),
    decreases n,
{
    let d = strings_data(p, utf8, n);
    let dk = strings_data(p, utf8, k);
    let len = string_bytes(p[k], utf8).len() as int;
    if k == n - 1 {
        assert(d.subrange(dk.len() as int, dk.len() + len) =~= string_bytes(p[k], utf8));
    } else {
        lemma_strings_data_parts(p, utf8, k, n - 1);
        let d1 = strings_data(p, utf8, n - 1);
        assert(d.subrange(dk.len() as int, dk.len() + len) =~= d1.subrange(
            dk.len() as int,
            dk.len() + len,
        ));
    }
}

proof fn lemma_string_offsets_index(p: Seq<Seq<char>>, utf8: bool, n: int, k: int)
    requires
        0 <= k < n,
    ensures
        string_offsets(p, utf8, n)[k] == strings_data(p, utf8, k).len() as u32,
    decreases n,
{
    lemma_string_offsets_len(p, utf8, n - 1);
    if k < n - 1 {
        lemma_string_offsets_index(p, utf8, n - 1, k);
    }
}

proof fn lemma_pool_bytes_parts(m: StringPoolModel)
    ensures
        pool_bytes(m).len() == pool_size(m),
        pool_bytes(m).subrange(POOL_HEADER as int, pool_strings_start(m)) == words_bytes(
            string_offsets(m.strings, is_utf8(m.flags), m.strings.len() as int),
        ),
        pool_bytes(m).subrange(pool_strings_start(m), pool_size(m)) == pool_data(m),
{
    reveal(pool_bytes);
    let offs = string_offsets(m.strings, is_utf8(m.flags), m.strings.len() as int);
    lemma_string_offsets_len(m.strings, is_utf8(m.flags), m.strings.len() as int);
    lemma_words_bytes_len(offs);
    let b = pool_bytes(m);
    assert(b.subrange(POOL_HEADER as int, pool_strings_start(m)) =~= words_bytes(offs));
    assert(b.subrange(pool_strings_start(m), pool_size(m)) =~= pool_data(m));
}

proof fn lemma_pool_head_parts(m: StringPoolModel)
    ensures
        pool_bytes(m).subrange(0, 8) == header_bytes(
            Header {
                type_flag: TypeFlag::RES_STRING_POOL_TYPE,
                header_size: POOL_HEADER as u16,
                size: pool_size(m) as u64,
            },
        ),
        pool_bytes(m).subrange(8, 12) == le32(m.strings.len() as u32),
        pool_bytes(m).subrange(12, 16) == le32(0),
        pool_bytes(m).subrange(16, 20) == le32(m.flags),
        pool_bytes(m).subrange(20, 24) == le32(pool_strings_start(m) as u32),
{
    reveal(pool_bytes);
    let b = pool_bytes(m);
    assert(b.subrange(0, 8) =~= header_bytes(
        Header {
            type_flag: TypeFlag::RES_STRING_POOL_TYPE,
            header_size: POOL_HEADER as u16,
            size: pool_size(m) as u64,
        },
    ));
    assert(b.subrange(8, 12) =~= le32(m.strings.len() as u32));
    assert(b.subrange(12, 16) =~= le32(0));
    assert(b.subrange(16, 20) =~= le32(m.flags));
    assert(b.subrange(20, 24) =~= le32(pool_strings_start(m) as u32));
}

proof fn lemma_pool_string_at(m: StringPoolModel, s: Seq<u8>, i: int, k: int)
    requires
        pool_encodable(m),
        0 <= i,
        0 <= k < m.strings.len(),
        i + pool_size(m) <= s.len(),
        s.subrange(i, i + pool_size(m)) == pool_bytes(m),
        read16(s, i + 2) == POOL_HEADER,
        read32(s, i + 20) == pool_strings_start(m),
    ensures
        stored_at(s, pool_string_pos(s, i, k), i + pool_size(m), m.strings[k], is_utf8(m.flags)),
{
    let n = m.strings.len() as int;
    let utf8 = is_utf8(m.flags);
    let size = pool_size(m);
    let start = pool_strings_start(m);
    let b = pool_bytes(m);
    lemma_pool_bytes_parts(m);
    let offs = string_offsets(m.strings, utf8, n);
    let d = strings_data(m.strings, utf8, n);
    lemma_string_offsets_len(m.strings, utf8, n);
    lemma_words_bytes_index(offs, k);
    lemma_string_offsets_index(m.strings, utf8, n, k);
    assert(s.subrange(i + POOL_HEADER + 4 * k, i + POOL_HEADER + 4 * k + 4) =~= b.subrange(
        POOL_HEADER as int,
        start,
    ).subrange(4 * k, 4 * k + 4));
    crate::bytes::lemma_read32_le32(offs[k], s, i + POOL_HEADER + 4 * k);
    lemma_strings_data_parts(m.strings, utf8, k, n);
    let dk = strings_data(m.strings, utf8, k).len() as int;
    let len = string_bytes(m.strings[k], utf8).len() as int;
    let a = i + start + dk;
    assert(pool_string_pos(s, i, k) == a);
    assert(s.subrange(a, a + len) =~= b.subrange(start, size).subrange(dk, dk + len));
    assert(pool_data(m).subrange(dk, dk + len) =~= d.subrange(dk, dk + len));
}

/// The chunk of an encodable pool has a valid layout, its header fields read back, and each
/// string stands, stored exactly, where the offset table says.
pub proof fn lemma_pool_layout(m: StringPoolModel, s: Seq<u8>, i: int)
    requires
        pool_encodable(m),
        0 <= i,
        i + pool_size(m) <= s.len(),
        s.subrange(i, i + pool_size(m)) == pool_bytes(m),
    ensures
        pool_layout_ok(s, i),
        read32(s, i + 4) == pool_size(m),
        read32(s, i + 8) == m.strings.len(),
        read32(s, i + 16) == m.flags,
        forall|k: int|
            0 <= k < m.strings.len() ==> #[trigger] stored_at(
                s,
                pool_string_pos(s, i, k),
                i + pool_size(m),
                m.strings[k],
                is_utf8(m.flags),
            ),
{
    let n = m.strings.len() as int;
    let size = pool_size(m);
    let start = pool_strings_start(m);
    let b = pool_bytes(m);
    lemma_pool_bytes_parts(m);
    lemma_pool_head_parts(m);
    let h = Header {
        type_flag: TypeFlag::RES_STRING_POOL_TYPE,
        header_size: POOL_HEADER as u16,
        size: size as u64,
    };
    assert(s.subrange(i, i + 8) =~= b.subrange(0, 8));
    assert(s.subrange(i + 8, i + 12) =~= b.subrange(8, 12));
    assert(s.subrange(i + 16, i + 20) =~= b.subrange(16, 20));
    assert(s.subrange(i + 20, i + 24) =~= b.subrange(20, 24));
    assert(s.subrange(i + 12, i + 16) =~= b.subrange(12, 16));
    crate::bytes::lemma_read32_le32(0, s, i + 12);
    lemma_header_round_trip(h, s, i);
    crate::bytes::lemma_read32_le32(n as u32, s, i + 8);
    crate::bytes::lemma_read32_le32(m.flags, s, i + 16);
    crate::bytes::lemma_read32_le32(start as u32, s, i + 20);
    assert forall|k: int| 0 <= k < n implies #[trigger] stored_at(
        s,
        pool_string_pos(s, i, k),
        i + size,
        m.strings[k],
        is_utf8(m.flags),
    ) by {
        lemma_pool_string_at(m, s, i, k);
    }
}

/// A pool is written the same way as another whose strings each have the same stored form.
pub proof fn lemma_pool_bytes_same(m: StringPoolModel, t: StringPoolModel)
    requires
        t.flags == m.flags,
        t.strings.len() == m.strings.len(),
        forall|k: int|
            0 <= k < m.strings.len() ==> string_bytes(#[trigger] t.strings[k], is_utf8(m.flags))
                == string_bytes(m.strings[k], is_utf8(m.flags)),
    ensures
        pool_bytes(t) == pool_bytes(m),
{
    let utf8 = is_utf8(m.flags);
    let n = m.strings.len() as int;
    assert forall|j: int| 0 <= j <= n implies strings_data(t.strings, utf8, j) == strings_data(
        m.strings,
        utf8,
        j,
    ) && string_offsets(t.strings, utf8, j) == string_offsets(m.strings, utf8, j) by {
        lemma_same_prefix(m, t, j);
    }
    reveal(pool_bytes);
}

proof fn lemma_same_prefix(m: StringPoolModel, t: StringPoolModel, j: int)
    requires
        0 <= j <= m.strings.len(),
        t.strings.len() == m.strings.len(),
        forall|k: int|
            0 <= k < m.strings.len() ==> string_bytes(#[trigger] t.strings[k], is_utf8(m.flags))
                == string_bytes(m.strings[k], is_utf8(m.flags)),
    ensures
        strings_data(t.strings, is_utf8(m.flags), j) == strings_data(m.strings, is_utf8(m.flags), j),
        string_offsets(t.strings, is_utf8(m.flags), j) == string_offsets(
            m.strings,
            is_utf8(m.flags),
            j,
        ),
    decreases j,
{
    if j > 0 {
        lemma_same_prefix(m, t, j - 1);
        assert(string_bytes(t.strings[j - 1], is_utf8(m.flags)) == string_bytes(
            m.strings[j - 1],
            is_utf8(m.flags),
        ));
    }
}

/// Decoding the chunk of an encodable pool and writing the result again gives the same bytes:
/// `t` stands for any pool that decoding can give from those bytes.
pub proof fn lemma_pool_round_trip(m: StringPoolModel, t: StringPoolModel, s: Seq<u8>, i: int)
    requires
        pool_encodable(m),
        0 <= i,
        i + pool_size(m) <= s.len(),
        s.subrange(i, i + pool_size(m)) == pool_bytes(m),
        pool_decoded(s, i, t),
    ensures
        pool_bytes(t) == pool_bytes(m),
{
    lemma_pool_layout(m, s, i);
    let utf8 = is_utf8(m.flags);
    assert forall|k: int| 0 <= k < m.strings.len() implies string_bytes(
        #[trigger] t.strings[k],
        utf8,
    ) == string_bytes(m.strings[k], utf8) by {
        assert(stored_at(s, pool_string_pos(s, i, k), i + pool_size(m), m.strings[k], utf8));
        assert(stored_at(s, pool_string_pos(s, i, k), i + pool_size(m), t.strings[k], utf8));
        lemma_string_fidelity(
            s,
            pool_string_pos(s, i, k),
            i + pool_size(m),
            m.strings[k],
            t.strings[k],
            utf8,
        );
    }
    lemma_pool_bytes_same(m, t);
}

} // verus!
