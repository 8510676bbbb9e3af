//! Resource values and resource entries: plain scalars and bags of attribute/value pairs.
use vstd::prelude::*;
use crate::bytes::{get_u16, get_u32, le16, le32, push_u16, push_u32, read16, read32, lemma_read16_le16, lemma_read32_le32};
use crate::components::{ArscError, ResourceEntry, ResourceEntryModel, ResourceValue, ResourceValueModel, Value, TYPE_STRING};

verus! {

/// Bit of an entry's flags that marks a bag.
pub const FLAG_COMPLEX: u16 = 0x0001;

/// The most pairs a bag can hold: its entry size must fit in sixteen bits.
pub const MAX_BAG_PAIRS: usize = 5000;

/// The eight bytes of a value.
pub open spec fn value_bytes(v: Value) -> Seq<u8> {
    le16(v.size) + seq![v.zero, v.data_type] + le32(v.data_index as u32)
}

/// The value whose bytes start at position `i` of `s`.
pub open spec fn parse_value(s: Seq<u8>, i: int) -> Value {
    Value {
        size: read16(s, i),
        zero: s[i + 2],
        data_type: s[i + 3],
        data_index: read32(s, i + 4) as usize,
    }
}

/// Why a value read from a table is rejected, if it is: a non-zero reserved byte, or a string
/// reference outside a global pool of `pool_len` strings.
pub open spec fn value_error(v: Value, pool_len: nat) -> Option<ArscError> {
    if v.zero != 0 {
        Some(ArscError::ResourceTableCorrupt)
    } else if v.data_type == TYPE_STRING && v.data_index >= pool_len {
        Some(ArscError::InvalidStringReference)
    } else {
        None
    }
}

/// A value that can be written and read back unchanged against a pool of `pool_len` strings.
pub open spec fn value_wf(v: Value, pool_len: nat) -> bool {
    v.data_index <= u32::MAX && value_error(v, pool_len) is None
}

/// The bytes of a sequence of attribute/value pairs.
pub open spec fn pairs_bytes(p: Seq<(u32, Value)>) -> Seq<u8>
    decreases p.len(),
{
    if p.len() == 0 {
        Seq::empty()
    } else {
        pairs_bytes(p.drop_last()) + le32(p.last().0) + value_bytes(p.last().1)
    }
}

/// The first `n` attribute/value pairs stored from position `i` of `s`.
pub open spec fn parse_pairs(s: Seq<u8>, i: int, n: nat) -> Seq<(u32, Value)>
    decreases n,
{
    if n == 0 {
        Seq::empty()
    } else {
        let k = i + 12 * (n - 1);
        parse_pairs(s, i, (n - 1) as nat).push((read32(s, k), parse_value(s, k + 4)))
    }
}

/// The error of the first rejected value among the first `n` pairs from position `i`.
pub open spec fn pairs_error(s: Seq<u8>, i: int, n: nat, pool_len: nat) -> Option<ArscError>
    decreases n,
{
    if n == 0 {
        None
    } else {
        let before = pairs_error(s, i, (n - 1) as nat, pool_len);
        if before is Some {
            before
        } else {
            value_error(parse_value(s, i + 12 * (n - 1) + 4), pool_len)
        }
    }
}

/// The size field of an entry: the header alone for a plain value, everything for a bag.
pub open spec fn entry_size(e: ResourceEntryModel) -> int {
    match e.value {
        ResourceValueModel::Plain(_) => 8,
        ResourceValueModel::Bag { values, .. } => 12 + 12 * values.len() as int,
    }
}

/// The number of bytes an entry takes.
pub open spec fn entry_len(e: ResourceEntryModel) -> int {
    match e.value {
        ResourceValueModel::Plain(_) => 16,
        ResourceValueModel::Bag { values, .. } => 12 + 12 * values.len() as int,
    }
}

/// The bytes of an entry.
pub open spec fn entry_bytes(e: ResourceEntryModel) -> Seq<u8> {
    let head = le16(entry_size(e) as u16) + le16(e.flags) + le32(e.spec_id as u32);
    match e.value {
        ResourceValueModel::Plain(v) => head + value_bytes(v),
        ResourceValueModel::Bag { parent, values } => head + le32(parent) + pairs_bytes(values),
    }
}

/// An entry whose numbers fit their fields.
pub open spec fn entry_encodable(e: ResourceEntryModel) -> bool {
    &&& e.spec_id <= u32::MAX
    &&& match e.value {
        ResourceValueModel::Plain(v) => v.data_index <= u32::MAX,
        ResourceValueModel::Bag { values, .. } => {
            &&& values.len() <= MAX_BAG_PAIRS
            &&& forall|k: int| 0 <= k < values.len() ==> values[k].1.data_index <= u32::MAX
        },
    }
}

/// An entry that reads back as itself for a type of `specs_len` specs and a global pool of
/// `pool_len` strings.
pub open spec fn entry_wf(e: ResourceEntryModel, specs_len: nat, pool_len: nat) -> bool {
    &&& entry_encodable(e)
    &&& e.spec_id < specs_len
    &&& ((e.flags & FLAG_COMPLEX) != 0 <==> e.value is Bag)
    &&& match e.value {
        ResourceValueModel::Plain(v) => value_error(v, pool_len) is None,
        ResourceValueModel::Bag { values, .. } => forall|k: int|
            0 <= k < values.len() ==> value_error(#[trigger] values[k].1, pool_len) is None,
    }
}

/// What decoding the entry at position `i` of `s`, within a chunk ending at `end`, yields: the
/// entry and the number of bytes it takes, or the first error found.
pub open spec fn parse_entry(s: Seq<u8>, i: int, end: int, specs_len: nat, pool_len: nat) -> Result<
    (ResourceEntryModel, int),
    ArscError,
> {
    if i + 8 > end {
        Err(ArscError::ResourceTableCorrupt)
    } else {
        let size = read16(s, i);
        let flags = read16(s, i + 2);
        let key = read32(s, i + 4);
        if key >= specs_len {
            Err(ArscError::ResourceTableCorrupt)
        } else if (flags & FLAG_COMPLEX) != 0 {
            if size < 12 || (size - 12) % 12 != 0 || i + size > end {
                Err(ArscError::ResourceTableCorrupt)
            } else {
                let n = ((size - 12) / 12) as nat;
                match pairs_error(s, i + 12, n, pool_len) {
                    Some(err) => Err(err),
                    None => Ok(
                        (
                            ResourceEntryModel {
                                flags,
                                spec_id: key as usize,
                                value: ResourceValueModel::Bag {
                                    parent: read32(s, i + 8),
                                    values: parse_pairs(s, i + 12, n),
                                },
                            },
                            size as int,
                        ),
                    ),
                }
            }
        } else if size != 8 || i + 16 > end {
            Err(ArscError::ResourceTableCorrupt)
        } else {
            match value_error(parse_value(s, i + 8), pool_len) {
                Some(err) => Err(err),
                None => Ok(
                    (
                        ResourceEntryModel {
                            flags,
                            spec_id: key as usize,
                            value: ResourceValueModel::Plain(parse_value(s, i + 8)),
                        },
                        16,
                    ),
                ),
            }
        }
    }
}

/// Reads the value at `pos` without judging it.
fn read_value(data: &Vec<u8>, pos: usize) -> (r: Value)
    requires
        pos + 8 <= data@.len(),
    ensures
        r == parse_value(data@, pos as int),
{
    let _n = data.len();
    Value {
        size: get_u16(data, pos),
        zero: data[pos + 2],
        data_type: data[pos + 3],
        data_index: get_u32(data, pos + 4) as usize,
    }
}

/// Decodes the value at `pos` against a global pool of `pool_len` strings: a non-zero reserved
/// byte is `ResourceTableCorrupt`, a string reference outside the pool `InvalidStringReference`.
pub fn decode_value(data: &Vec<u8>, pos: usize, pool_len: usize) -> (r: Result<Value, ArscError>)
    requires
        pos + 8 <= data@.len(),
    ensures
        r == (match value_error(parse_value(data@, pos as int), pool_len as nat) {
            Some(err) => Err(err),
            None => Ok(parse_value(data@, pos as int)),
        }),
{
    let v = read_value(data, pos);
    if v.zero != 0 {
        Err(ArscError::ResourceTableCorrupt)
    } else if v.data_type == TYPE_STRING && v.data_index >= pool_len {
        Err(ArscError::InvalidStringReference)
    } else {
        Ok(v)
    }
}

/// Appends the eight bytes of `v`.
pub fn encode_value(v: &Value, out: &mut Vec<u8>)
    requires
        v.data_index <= u32::MAX,
    ensures
        final(out)@ == old(out)@ + value_bytes(*v),
{
    push_u16(out, v.size);
    out.push(v.zero);
    out.push(v.data_type);
    push_u32(out, v.data_index as u32);
    assert(final(out)@ =~= old(out)@ + value_bytes(*v));
}

pub proof fn lemma_pairs_bytes_len(p: Seq<(u32, Value)>)
    ensures
        pairs_bytes(p).len() == 12 * p.len(),
    decreases p.len(),
{
    if p.len() > 0 {
        lemma_pairs_bytes_len(p.drop_last());
    }
}

/// Once a pair is rejected, the first error among more pairs stays the same.
proof fn lemma_pairs_error_stays(s: Seq<u8>, i: int, m: nat, n: nat, pool_len: nat)
    requires
        m <= n,
        pairs_error(s, i, m, pool_len) is Some,
    ensures
        pairs_error(s, i, n, pool_len) == pairs_error(s, i, m, pool_len),
    decreases n - m,
{
    if m < n {
        lemma_pairs_error_stays(s, i, m, (n - 1) as nat, pool_len);
    }
}

/// Decodes the `n` pairs from `pos`, stopping at the first rejected value.
fn decode_pairs(data: &Vec<u8>, pos: usize, n: usize, pool_len: usize) -> (r: Result<
    Vec<(u32, Value)>,
    ArscError,
>)
    requires
        pos + 12 * n <= data@.len(),
    ensures
        r == (match pairs_error(data@, pos as int, n as nat, pool_len as nat) {
            Some(err) => Err::<Vec<(u32, Value)>, ArscError>(err),
            None => Ok(r->Ok_0),
        }),
        r matches Ok(v) ==> v@ == parse_pairs(data@, pos as int, n as nat),
{
    let _len = data.len();
    let mut values: Vec<(u32, Value)> = Vec::new();
    let mut k: usize = 0;
    while k < n
        invariant
            k <= n,
            data@.len() <= usize::MAX,
            pos + 12 * n <= data@.len(),
            values@ == parse_pairs(data@, pos as int, k as nat),
            pairs_error(data@, pos as int, k as nat, pool_len as nat) is None,
        decreases n - k,
    {
        assert(12 * k + 12 <= 12 * n) by (nonlinear_arith)
            requires
                k < n,
        ;
        let at = pos + 12 * k;
        let name = get_u32(data, at);
        let v = decode_value(data, at + 4, pool_len);
        match v {
            Err(err) => {
                proof {
                    lemma_pairs_error_stays(data@, pos as int, (k + 1) as nat, n as nat, pool_len as nat);
                }
                return Err(err);
            },
            Ok(v) => {
                values.push((name, v));
            },
        }
        k = k + 1;
    }
    Ok(values)
}

/// Decodes the entry at `pos` of a chunk that ends at `end`, for a type of `specs_len` specs and
/// a global pool of `pool_len` strings; gives the entry and the number of bytes it takes.
pub fn decode_entry(data: &Vec<u8>, pos: usize, end: usize, specs_len: usize, pool_len: usize) -> (r:
    Result<(ResourceEntry, usize), ArscError>)
    requires
        pos <= end <= data@.len(),
    ensures
        match r {
            Ok((e, n)) => parse_entry(data@, pos as int, end as int, specs_len as nat, pool_len as nat)
                == Ok::<(ResourceEntryModel, int), ArscError>((e@, n as int)),
            Err(err) => parse_entry(data@, pos as int, end as int, specs_len as nat, pool_len as nat)
                == Err::<(ResourceEntryModel, int), ArscError>(err),
        },
{
    if end - pos < 8 {
        return Err(ArscError::ResourceTableCorrupt);
    }
    let size = get_u16(data, pos);
    let flags = get_u16(data, pos + 2);
    let key = get_u32(data, pos + 4);
    if key as usize >= specs_len {
        return Err(ArscError::ResourceTableCorrupt);
    }
    if (flags & FLAG_COMPLEX) != 0 {
        if size < 12 || (size - 12) % 12 != 0 || size as usize > end - pos {
            return Err(ArscError::ResourceTableCorrupt);
        }
        let n = ((size - 12) / 12) as usize;
        let parent = get_u32(data, pos + 8);
        match decode_pairs(data, pos + 12, n, pool_len) {
            Err(err) => Err(err),
            Ok(values) => Ok(
                (
                    ResourceEntry {
                        flags,
                        spec_id: key as usize,
                        value: ResourceValue::Bag { parent, values },
                    },
                    size as usize,
                ),
            ),
        }
    } else {
        if size != 8 || end - pos < 16 {
            return Err(ArscError::ResourceTableCorrupt);
        }
        match decode_value(data, pos + 8, pool_len) {
            Err(err) => Err(err),
            Ok(v) => Ok(
                (ResourceEntry { flags, spec_id: key as usize, value: ResourceValue::Plain(v) }, 16),
            ),
        }
    }
}

/// Appends the bytes of `e`.
pub fn encode_entry(e: &ResourceEntry, out: &mut Vec<u8>)
    requires
        entry_encodable(e@),
    ensures
        final(out)@ == old(out)@ + entry_bytes(e@),
{
    match &e.value {
        ResourceValue::Plain(v) => {
            push_u16(out, 8);
            push_u16(out, e.flags);
            push_u32(out, e.spec_id as u32);
            encode_value(v, out);
            assert(final(out)@ =~= old(out)@ + entry_bytes(e@));
        },
        ResourceValue::Bag { parent, values } => {
            let n = values.len();
            push_u16(out, (12 + 12 * n) as u16);
            push_u16(out, e.flags);
            push_u32(out, e.spec_id as u32);
            push_u32(out, *parent);
            let ghost head = out@;
            let mut k: usize = 0;
            while k < n
                invariant
                    k <= n,
                    n == values@.len(),
                    n <= MAX_BAG_PAIRS,
                    forall|j: int| 0 <= j < values@.len() ==> values@[j].1.data_index <= u32::MAX,
                    out@ == head + pairs_bytes(values@.take(k as int)),
                decreases n - k,
            {
                let (name, v) = values[k];
                push_u32(out, name);
                encode_value(&v, out);
                assert(values@.take(k + 1).drop_last() =~= values@.take(k as int));
                k = k + 1;
            }
            assert(values@.take(n as int) =~= values@);
            assert(final(out)@ =~= old(out)@ + entry_bytes(e@));
        },
    }
}

/// A value whose index fits its field reads back as itself from its bytes.
pub proof fn lemma_value_round_trip(v: Value, s: Seq<u8>, i: int)
    requires
        v.data_index <= u32::MAX,
        0 <= i,
        i + 8 <= s.len(),
        s.subrange(i, i + 8) == value_bytes(v),
    ensures
        parse_value(s, i) == v,
{
    let b = value_bytes(v);
    assert(s.subrange(i, i + 2) =~= b.subrange(0, 2));
    assert(b.subrange(0, 2) =~= le16(v.size));
    assert(s.subrange(i + 4, i + 8) =~= b.subrange(4, 8));
    assert(b.subrange(4, 8) =~= le32(v.data_index as u32));
    assert(s[i + 2] == b[2]);
    assert(s[i + 3] == b[3]);
    lemma_read16_le16(v.size, s, i);
    lemma_read32_le32(v.data_index as u32, s, i + 4);
}

/// Attribute/value pairs read back from their bytes as the same pairs, in the same order.
pub proof fn lemma_pairs_round_trip(p: Seq<(u32, Value)>, s: Seq<u8>, i: int, pool_len: nat)
    requires
        forall|k: int| 0 <= k < p.len() ==> p[k].1.data_index <= u32::MAX,
        0 <= i,
        i + 12 * p.len() <= s.len(),
        s.subrange(i, i + 12 * p.len()) == pairs_bytes(p),
    ensures
        parse_pairs(s, i, p.len()) == p,
        (forall|k: int| 0 <= k < p.len() ==> value_error(#[trigger] p[k].1, pool_len) is None)
            ==> pairs_error(s, i, p.len(), pool_len) is None,
    decreases p.len(),
{
    if p.len() > 0 {
        let q = p.drop_last();
        let n = p.len() as int;
        let at = i + 12 * (n - 1);
        lemma_pairs_bytes_len(q);
        let whole = pairs_bytes(p);
        assert(whole == pairs_bytes(q) + le32(p.last().0) + value_bytes(p.last().1));
        assert(s.subrange(i, at) =~= whole.subrange(0, 12 * (n - 1)));
        assert(whole.subrange(0, 12 * (n - 1)) =~= pairs_bytes(q));
        assert(s.subrange(at, at + 4) =~= whole.subrange(12 * (n - 1), 12 * (n - 1) + 4));
        assert(whole.subrange(12 * (n - 1), 12 * (n - 1) + 4) =~= le32(p.last().0));
        assert(s.subrange(at + 4, at + 12) =~= whole.subrange(12 * (n - 1) + 4, 12 * n));
        assert(whole.subrange(12 * (n - 1) + 4, 12 * n) =~= value_bytes(p.last().1));
        lemma_pairs_round_trip(q, s, i, pool_len);
        lemma_read32_le32(p.last().0, s, at);
        lemma_value_round_trip(p.last().1, s, at + 4);
        assert(parse_pairs(s, i, p.len()) =~= p);
        if forall|k: int| 0 <= k < p.len() ==> value_error(#[trigger] p[k].1, pool_len) is None {
            assert(forall|k: int| 0 <= k < q.len() ==> q[k] == p[k]);
            assert(value_error(p[n - 1].1, pool_len) is None);
        }
    }
}

/// A well-formed entry, bag pairs included, decodes from its bytes as the same entry, in the
/// same order, taking exactly its own length.
pub proof fn lemma_entry_round_trip(
    e: ResourceEntryModel,
    s: Seq<u8>,
    i: int,
    end: int,
    specs_len: nat,
    pool_len: nat,
)
    requires
        entry_wf(e, specs_len, pool_len),
        0 <= i,
        i + entry_len(e) <= end <= s.len(),
        s.subrange(i, i + entry_len(e)) == entry_bytes(e),
    ensures
        parse_entry(s, i, end, specs_len, pool_len) == Ok::<(ResourceEntryModel, int), ArscError>(
            (e, entry_len(e)),
        ),
{
    let b = entry_bytes(e);
    let size = entry_size(e) as u16;
    assert(s.subrange(i, i + 2) =~= b.subrange(0, 2));
    assert(b.subrange(0, 2) =~= le16(size));
    assert(s.subrange(i + 2, i + 4) =~= b.subrange(2, 4));
    assert(b.subrange(2, 4) =~= le16(e.flags));
    assert(s.subrange(i + 4, i + 8) =~= b.subrange(4, 8));
    assert(b.subrange(4, 8) =~= le32(e.spec_id as u32));
    lemma_read16_le16(size, s, i);
    lemma_read16_le16(e.flags, s, i + 2);
    lemma_read32_le32(e.spec_id as u32, s, i + 4);
    match e.value {
        ResourceValueModel::Plain(v) => {
            assert(s.subrange(i + 8, i + 16) =~= b.subrange(8, 16));
            assert(b.subrange(8, 16) =~= value_bytes(v));
            lemma_value_round_trip(v, s, i + 8);
        },
        ResourceValueModel::Bag { parent, values } => {
            let n = values.len() as int;
            lemma_pairs_bytes_len(values);
            assert(s.subrange(i + 8, i + 12) =~= b.subrange(8, 12));
            assert(b.subrange(8, 12) =~= le32(parent));
            assert(s.subrange(i + 12, i + 12 + 12 * n) =~= b.subrange(12, 12 + 12 * n));
            assert(b.subrange(12, 12 + 12 * n) =~= pairs_bytes(values));
            lemma_read32_le32(parent, s, i + 8);
            lemma_pairs_round_trip(values, s, i + 12, pool_len);
            assert((12 + 12 * n - 12) / 12 == n) by (nonlinear_arith);
            assert((12 + 12 * n - 12) % 12 == 0) by (nonlinear_arith);
        },
    }
}

pub proof fn lemma_entry_bytes_len(e: ResourceEntryModel)
    ensures
        entry_bytes(e).len() == entry_len(e),
{
    if let ResourceValueModel::Bag { values, .. } = e.value {
        lemma_pairs_bytes_len(values);
    }
}

} // verus!
