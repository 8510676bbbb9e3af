//! The root resource table: the global string pool followed by the packages.
use vstd::prelude::*;
use crate::bytes::{get_u32, le32, push_u32, read16, read32};
use crate::components::{Arsc, ArscError, Header, Package, TypeFlag};
use crate::header::{decode_header, encode_header, header_bytes, parse_header};
use crate::package::{package_head_ok, package_types, decode_package, encode_package, package_bytes, package_fits, package_indices_ok, type_encodable, PackageModel};
use crate::pool::{pool_ok, pool_decoded, decode_pool, encode_pool, lemma_pool_bytes_len, pool_bytes, pool_encodable, pool_size, StringPoolModel};

verus! {

/// Bytes of the root chunk header.
pub const TABLE_HEADER: usize = 12;

/// What a resource table holds.
pub struct ArscModel {
    pub packages: Seq<PackageModel>,
    pub global_string_pool: StringPoolModel,
}

impl View for Arsc {
    type V = ArscModel;

    open spec fn view(&self) -> ArscModel {
        ArscModel {
            packages: self.packages@.map_values(|p: Package| p@),
            global_string_pool: self.global_string_pool@,
        }
    }
}

/// The chunks of the first `n` packages, one after another.
pub open spec fn packages_bytes(ps: Seq<PackageModel>, n: int) -> Seq<u8>
    decreases n,
{
    if n <= 0 {
        Seq::empty()
    } else {
        packages_bytes(ps, n - 1) + package_bytes(ps[n - 1])
    }
}

/// The number of bytes of the table that holds `a`.
pub open spec fn arsc_size(a: ArscModel) -> int {
    TABLE_HEADER + pool_size(a.global_string_pool) + packages_bytes(
        a.packages,
        a.packages.len() as int,
    ).len()
}

/// The bytes of the table that holds `a`.
pub open spec fn arsc_bytes(a: ArscModel) -> Seq<u8> {
    let h = Header {
        type_flag: TypeFlag::RES_TABLE_TYPE,
        header_size: TABLE_HEADER as u16,
        size: arsc_size(a) as u64,
    };
    header_bytes(h) + le32(a.packages.len() as u32) + pool_bytes(a.global_string_pool)
        + packages_bytes(a.packages, a.packages.len() as int)
}

/// Every type of every package can be written.
pub open spec fn arsc_types_encodable(a: ArscModel) -> bool {
    forall|i: int, k: int|
        0 <= i < a.packages.len() && 0 <= k < a.packages[i].types.len() ==> type_encodable(
            #[trigger] a.packages[i].types[k],
        )
}

/// A table whose pools, package names and total size fit their fields.
pub open spec fn arsc_fits(a: ArscModel) -> bool {
    &&& pool_encodable(a.global_string_pool)
    &&& forall|i: int| 0 <= i < a.packages.len() ==> package_fits(#[trigger] a.packages[i])
    &&& arsc_size(a) <= u32::MAX
}

pub proof fn lemma_package_bytes_len(p: PackageModel)
    requires
        package_fits(p),
    ensures
        package_bytes(p).len() == crate::package::package_size(p),
{
    reveal(package_bytes);
    lemma_pool_bytes_len(p.type_names);
    lemma_pool_bytes_len(p.key_names);
    crate::pool::lemma_units_bytes_len(crate::pool::utf16_of(p.name));
}

pub proof fn lemma_packages_bytes_prefix(ps: Seq<PackageModel>, a: int, b: int)
    requires
        0 <= a <= b,
    ensures
        packages_bytes(ps, a).len() <= packages_bytes(ps, b).len(),
    decreases b,
{
    if a < b {
        lemma_packages_bytes_prefix(ps, a, b - 1);
    }
}

/// Encodes the whole table: header, global pool, then each package in stored order; `None`
/// when a pool, a package name or a size does not fit its field.
pub fn encode(a: &Arsc) -> (r: Option<Vec<u8>>)
    requires
        arsc_types_encodable(a@),
    ensures
        r is Some == arsc_fits(a@),
        r matches Some(v) ==> v@ == arsc_bytes(a@),
{
    let ghost m = a@;
    let mut pool: Vec<u8> = Vec::new();
    if !encode_pool(&a.global_string_pool, &mut pool) {
        return None;
    }
    proof {
        lemma_pool_bytes_len(m.global_string_pool);
    }
    let mut body: Vec<u8> = Vec::new();
    let n = a.packages.len();
    let mut k: usize = 0;
    while k < n
        invariant
            m == a@,
            n == m.packages.len(),
            arsc_types_encodable(m),
            pool_encodable(m.global_string_pool),
            pool@ == pool_bytes(m.global_string_pool),
            k <= n,
            body@ == packages_bytes(m.packages, k as int),
            k <= body@.len() <= 0xffff_ffff,
            forall|j: int| 0 <= j < k ==> package_fits(#[trigger] m.packages[j]),
        decreases n - k,
    {
        assert(m.packages[k as int] == a.packages@[k as int]@);
        assert forall|t: int| 0 <= t < m.packages[k as int].types.len() implies type_encodable(
            #[trigger] m.packages[k as int].types[t],
        ) by {
            assert(type_encodable(m.packages[k as int].types[t]));
        }
        let ghost before = body@;
        if !encode_package(&a.packages[k], &mut body) {
            return None;
        }
        proof {
            lemma_package_bytes_len(m.packages[k as int]);
        }
        if body.len() > 0xffff_ffff {
            proof {
                lemma_packages_bytes_prefix(m.packages, k + 1, n as int);
            }
            return None;
        }
        k = k + 1;
    }
    if (pool.len() as u128) + (body.len() as u128) > 0xffff_ffff - 12 {
        return None;
    }
    let size: usize = TABLE_HEADER + pool.len() + body.len();
    let h = Header { type_flag: TypeFlag::RES_TABLE_TYPE, header_size: TABLE_HEADER as u16, size: size as u64 };
    let mut out: Vec<u8> = Vec::new();
    encode_header(&h, &mut out);
    push_u32(&mut out, n as u32);
    out.append(&mut pool);
    out.append(&mut body);
    assert(out@ =~= arsc_bytes(m));
    Some(out)
}

/// The root header of `s` is valid, its global pool decodes and fits inside the table.
pub open spec fn table_head_ok(s: Seq<u8>) -> bool {
    &&& parse_header(s, 0) matches Ok(h)
    &&& h.type_flag == TypeFlag::RES_TABLE_TYPE
    &&& h.header_size >= TABLE_HEADER
    &&& h.size <= s.len()
    &&& pool_ok(s, h.header_size as int)
    &&& read32(s, h.header_size + 4) <= h.size - h.header_size
}

/// The package chunks from `cur` to `size` each decode, against a global pool of `pool_len`
/// strings, and follow one another up to `size`.
pub open spec fn packages_ok(s: Seq<u8>, cur: int, size: int, pool_len: nat) -> bool
    decreases size - cur,
{
    if cur >= size {
        true
    } else if !(package_head_ok(s, cur) && package_types(s, cur, pool_len) is Ok && 8 <= read32(
        s,
        cur + 4,
    ) <= size - cur) {
        false
    } else {
        packages_ok(s, cur + read32(s, cur + 4), size, pool_len)
    }
}

/// Every chunk of the table `s` decodes: its head, then each package in turn.
pub open spec fn table_ok(s: Seq<u8>) -> bool {
    let hs = read16(s, 2) as int;
    &&& table_head_ok(s)
    &&& packages_ok(s, hs + read32(s, hs + 4), read32(s, 4) as int, read32(s, hs + 8) as nat)
}

/// Decodes a whole table: the root header, the global string pool, then packages until the
/// declared size is used up. Every package it gives keeps its cross-references in bounds.
pub fn decode(data: &Vec<u8>) -> (r: Result<Arsc, ArscError>)
    ensures
        r matches Ok(a) ==> forall|i: int|
            0 <= i < a.packages@.len() ==> package_indices_ok(#[trigger] a.packages@[i]@),
        r matches Ok(a) ==> pool_decoded(data@, read16(data@, 2) as int, a.global_string_pool@),
        parse_header(data@, 0) is Err ==> r == Err::<Arsc, ArscError>(ArscError::MalformedHeader),
        r is Ok <==> table_ok(data@),
{
    let ghost s = data@;
    let h = match decode_header(data, 0) {
        Ok(h) => h,
        Err(e) => {
            return Err(e);
        },
    };
    if h.type_flag != TypeFlag::RES_TABLE_TYPE || (h.header_size as usize) < TABLE_HEADER
        || h.size > data.len() as u64 {
        return Err(ArscError::MalformedHeader);
    }
    let size = h.size as usize;
    let hs = h.header_size as usize;
    let (global_string_pool, pn) = match decode_pool(data, hs) {
        Ok(x) => x,
        Err(e) => {
            return Err(e);
        },
    };
    if pn > size - hs {
        return Err(ArscError::MalformedHeader);
    }
    assert(table_head_ok(s));
    let pool_len = global_string_pool.strings.len();
    assert(global_string_pool@.strings.len() == pool_len);
    let mut packages: Vec<Package> = Vec::new();
    let mut cursor: usize = hs + pn;
    while cursor < size
        invariant
            s == data@,
            table_head_ok(s),
            size == read32(s, 4),
            hs == read16(s, 2),
            pool_len == read32(s, hs + 8),
            table_ok(s) == packages_ok(s, cursor as int, size as int, pool_len as nat),
            cursor <= size,
            size <= data@.len(),
            parse_header(data@, 0) is Ok,
            hs == read16(data@, 2),
            pool_decoded(data@, hs as int, global_string_pool@),
            forall|i: int|
                0 <= i < packages@.len() ==> package_indices_ok(#[trigger] packages@[i]@),
        decreases size - cursor,
    {
        let (p, n) = match decode_package(data, cursor, pool_len) {
            Ok(x) => x,
            Err(e) => {
                return Err(e);
            },
        };
        if n < 8 || n > size - cursor {
            return Err(ArscError::MalformedHeader);
        }
        packages.push(p);
        cursor = cursor + n;
    }
    Ok(Arsc { packages, global_string_pool })
}

/// Decoding the bytes of an encoded table gives a global string pool that is written again
/// exactly as before: `t` stands for any pool that `decode` can give from those bytes.
pub proof fn lemma_global_pool_round_trip(a: ArscModel, t: StringPoolModel, s: Seq<u8>)
    requires
        arsc_fits(a),
        s == arsc_bytes(a),
        pool_decoded(s, read16(s, 2) as int, t),
    ensures
        pool_bytes(t) == pool_bytes(a.global_string_pool),
{
    let m = a.global_string_pool;
    let h = Header {
        type_flag: TypeFlag::RES_TABLE_TYPE,
        header_size: TABLE_HEADER as u16,
        size: arsc_size(a) as u64,
    };
    lemma_pool_bytes_len(m);
    assert(s.subrange(0, 8) =~= header_bytes(h));
    crate::header::lemma_header_round_trip(h, s, 0);
    assert(s.subrange(TABLE_HEADER as int, TABLE_HEADER + pool_size(m)) =~= pool_bytes(m));
    crate::pool::lemma_pool_round_trip(m, t, s, TABLE_HEADER as int);
}

} // verus!
