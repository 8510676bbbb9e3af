//! Type-spec chunks and package chunks: a package's name pools, types and configurations.
use vstd::prelude::*;
use crate::bytes::{get_u16, get_u32, le16, le32, push_u16, push_u32, read16, read32};
use crate::components::{ArscError, Config, Header, Package, Spec, Specs, StringPool, Type, TypeFlag, TypeModel};
use crate::components::ConfigModel;
use crate::config::{config_error, parse_config, config_bytes, config_encodable, decode_config, encode_config, words_bytes};
use crate::header::{decode_header, encode_header, header_bytes, parse_header};
use crate::pool::{pool_ok, pool_decoded, lemma_pool_bytes_len, decode_pool, encode_pool, pool_bytes, pool_encodable, pool_size, string_from_utf16, utf16_units, utf16_of, units_bytes, StringPoolModel};

verus! {

/// Bytes of a type-spec chunk header.
pub const SPEC_HEADER: usize = 16;

/// Bytes of a package chunk header.
pub const PACKAGE_HEADER: usize = 284;

/// UTF-16 units reserved for a package name, terminator included.
pub const NAME_UNITS: usize = 128;

/// The flags words of a sequence of specs.
pub open spec fn spec_flags(specs: Seq<Spec>) -> Seq<u32> {
    specs.map_values(|s: Spec| s.flags)
}

/// The bytes of the type-spec chunk for type `id` with `specs`.
pub open spec fn specs_chunk_bytes(id: usize, specs: Seq<Spec>) -> Seq<u8> {
    let h = Header {
        type_flag: TypeFlag::RES_TABLE_TYPE_SPEC_TYPE,
        header_size: SPEC_HEADER as u16,
        size: (SPEC_HEADER + 4 * specs.len()) as u64,
    };
    header_bytes(h) + seq![id as u8, 0u8] + le16(0) + le32(specs.len() as u32) + words_bytes(
        spec_flags(specs),
    )
}

/// Appends the type-spec chunk for type `id` with `specs`.
pub fn encode_specs(id: usize, specs: &Specs, out: &mut Vec<u8>)
    requires
        id <= 0xff,
        SPEC_HEADER + 4 * specs@.len() <= u32::MAX,
    ensures
        final(out)@ == old(out)@ + specs_chunk_bytes(id, specs@),
{
    let n = specs.len();
    let h = Header {
        type_flag: TypeFlag::RES_TABLE_TYPE_SPEC_TYPE,
        header_size: SPEC_HEADER as u16,
        size: (SPEC_HEADER + 4 * n) as u64,
    };
    encode_header(&h, out);
    out.push(id as u8);
    out.push(0u8);
    push_u16(out, 0);
    push_u32(out, n as u32);
    let ghost fixed = out@;
    let ghost flags = spec_flags(specs@);
    let mut k: usize = 0;
    while k < n
        invariant
            k <= n,
            n == specs@.len(),
            flags == spec_flags(specs@),
            out@ == fixed + words_bytes(flags.take(k as int)),
        decreases n - k,
    {
        push_u32(out, specs.index(k).flags);
        assert(flags.take(k + 1).drop_last() =~= flags.take(k as int));
        k = k + 1;
    }
    assert(flags.take(k as int) =~= flags);
    assert(final(out)@ =~= old(out)@ + specs_chunk_bytes(id, specs@));
}

/// Why the type-spec chunk at `i` is rejected, if it is.
pub open spec fn specs_error(s: Seq<u8>, i: int) -> Option<ArscError> {
    match parse_header(s, i) {
        Err(e) => Some(e),
        Ok(h) => if h.type_flag != TypeFlag::RES_TABLE_TYPE_SPEC_TYPE || h.header_size < SPEC_HEADER
            || i + h.size > s.len() {
            Some(ArscError::MalformedHeader)
        } else if h.header_size + 4 * read32(s, i + 12) > h.size {
            Some(ArscError::ResourceTableCorrupt)
        } else {
            None
        },
    }
}

/// Decodes the type-spec chunk at `pos`: gives the type id, one spec per flags word (its
/// position as id, its key name not yet resolved) and the chunk's size.
pub fn decode_specs(data: &Vec<u8>, pos: usize) -> (r: Result<(usize, Specs, usize), ArscError>)
    ensures
        r matches Ok((id, specs, n)) ==> {
            &&& parse_header(data@, pos as int) matches Ok(h)
            &&& h.type_flag == TypeFlag::RES_TABLE_TYPE_SPEC_TYPE
            &&& n == h.size && pos + n <= data@.len()
            &&& id == data@[pos + 8]
            &&& specs@.len() == read32(data@, pos + 12)
            &&& forall|k: int|
                0 <= k < specs@.len() ==> #[trigger] specs@[k] == (Spec {
                    flags: read32(data@, pos + read16(data@, pos + 2) + 4 * k),
                    id: k as usize,
                    name_index: 0,
                })
        },
        parse_header(data@, pos as int) is Err ==> r == Err::<(usize, Specs, usize), ArscError>(
            ArscError::MalformedHeader,
        ),
        r matches Err(e) ==> specs_error(data@, pos as int) == Some(e),
        r is Ok <==> specs_error(data@, pos as int) is None,
{
    let h = match decode_header(data, pos) {
        Ok(h) => h,
        Err(e) => {
            return Err(e);
        },
    };
    if h.type_flag != TypeFlag::RES_TABLE_TYPE_SPEC_TYPE || (h.header_size as usize) < SPEC_HEADER
        || pos > data.len() || h.size > (data.len() - pos) as u64 {
        return Err(ArscError::MalformedHeader);
    }
    let hs = h.header_size as usize;
    let size = h.size as usize;
    let id = data[pos + 8];
    let count32 = get_u32(data, pos + 12);
    if (hs as u64) + 4 * (count32 as u64) > size as u64 {
        return Err(ArscError::ResourceTableCorrupt);
    }
    let count = count32 as usize;
    let dlen = data.len();
    let mut v: Vec<Spec> = Vec::new();
    let mut k: usize = 0;
    while k < count
        invariant
            k <= count,
            dlen == data@.len(),
            hs == read16(data@, pos + 2),
            hs + 4 * count <= size,
            pos + size <= data@.len(),
            v@.len() == k,
            forall|j: int|
                0 <= j < k ==> #[trigger] v@[j] == (Spec {
                    flags: read32(data@, pos + hs + 4 * j),
                    id: j as usize,
                    name_index: 0,
                }),
        decreases count - k,
    {
        let flags = get_u32(data, pos + hs + 4 * k);
        v.push(Spec::new(flags, k));
        k = k + 1;
    }
    Ok((id as usize, Specs::from_vec(v), size))
}

/// What a package holds.
pub struct PackageModel {
    pub id: u32,
    pub name: Seq<char>,
    pub type_names: StringPoolModel,
    pub types: Seq<TypeModel>,
    pub key_names: StringPoolModel,
}

impl View for Package {
    type V = PackageModel;

    open spec fn view(&self) -> PackageModel {
        PackageModel {
            id: self.id,
            name: self.name@,
            type_names: self.type_names@,
            types: self.types@.map_values(|t: Type| t@),
            key_names: self.key_names@,
        }
    }
}

/// The chunks of the first `n` configurations, one after another.
pub open spec fn configs_bytes(cs: Seq<ConfigModel>, n: int) -> Seq<u8>
    decreases n,
{
    if n <= 0 {
        Seq::empty()
    } else {
        configs_bytes(cs, n - 1) + config_bytes(cs[n - 1])
    }
}

/// The chunks of a type: its spec chunk, then one chunk per configuration.
pub open spec fn type_bytes(t: TypeModel) -> Seq<u8> {
    specs_chunk_bytes(t.id, t.specs->Some_0) + configs_bytes(t.configs, t.configs.len() as int)
}

/// The chunks of the first `n` types, one after another.
pub open spec fn types_bytes(ts: Seq<TypeModel>, n: int) -> Seq<u8>
    decreases n,
{
    if n <= 0 {
        Seq::empty()
    } else {
        types_bytes(ts, n - 1) + type_bytes(ts[n - 1])
    }
}

/// A type that can be written: it has specs, and its id and every configuration fit their fields.
pub open spec fn type_encodable(t: TypeModel) -> bool {
    &&& t.specs is Some
    &&& t.id <= 0xff
    &&& SPEC_HEADER + 4 * t.specs->Some_0.len() <= u32::MAX
    &&& forall|c: int| 0 <= c < t.configs.len() ==> config_encodable(#[trigger] t.configs[c])
}

/// The fixed-width name field: the name's UTF-16 units, then zeros up to its width.
pub open spec fn name_bytes(name: Seq<char>) -> Seq<u8> {
    units_bytes(utf16_of(name)) + Seq::new((2 * NAME_UNITS - 2 * utf16_of(name).len()) as nat, |_k: int| 0u8)
}

/// The number of bytes of the chunk that holds `p`.
pub open spec fn package_size(p: PackageModel) -> int {
    PACKAGE_HEADER + pool_size(p.type_names) + pool_size(p.key_names) + types_bytes(
        p.types,
        p.types.len() as int,
    ).len()
}

/// The bytes of the package chunk that holds `p`.
#[verifier::opaque]
pub open spec fn package_bytes(p: PackageModel) -> Seq<u8> {
    let h = Header {
        type_flag: TypeFlag::RES_TABLE_PACKAGE_TYPE,
        header_size: PACKAGE_HEADER as u16,
        size: package_size(p) as u64,
    };
    header_bytes(h) + le32(p.id) + name_bytes(p.name) + le32(PACKAGE_HEADER as u32) + le32(
        p.type_names.strings.len() as u32,
    ) + le32((PACKAGE_HEADER + pool_size(p.type_names)) as u32) + le32(
        p.key_names.strings.len() as u32,
    ) + pool_bytes(p.type_names) + pool_bytes(p.key_names) + types_bytes(
        p.types,
        p.types.len() as int,
    )
}

/// A package whose name, pools and size fit the chunk's fields.
pub open spec fn package_fits(p: PackageModel) -> bool {
    &&& utf16_of(p.name).len() < NAME_UNITS
    &&& pool_encodable(p.type_names)
    &&& pool_encodable(p.key_names)
    &&& package_size(p) <= u32::MAX
}

fn encode_type(t: &Type, out: &mut Vec<u8>)
    requires
        type_encodable(t@),
    ensures
        final(out)@ == old(out)@ + type_bytes(t@),
{
    match &t.specs {
        Some(specs) => {
            encode_specs(t.id, specs, out);
        },
        None => {},
    }
    let ghost head = out@;
    let ghost cs = t@.configs;
    let mut k: usize = 0;
    while k < t.configs.len()
        invariant
            k <= t.configs@.len(),
            cs == t@.configs,
            type_encodable(t@),
            out@ == head + configs_bytes(cs, k as int),
        decreases t.configs@.len() - k,
    {
        assert(cs[k as int] == t.configs@[k as int]@);
        encode_config(&t.configs[k], out);
        k = k + 1;
    }
    assert(final(out)@ =~= old(out)@ + type_bytes(t@));
}

fn push_name(units: &Vec<u16>, buf: &mut Vec<u8>)
    requires
        units@.len() < NAME_UNITS,
    ensures
        final(buf)@ == old(buf)@ + units_bytes(units@) + Seq::new(
            (2 * NAME_UNITS - 2 * units@.len()) as nat,
            |_k: int| 0u8,
        ),
{
    let ghost before_name = buf@;
    let mut j: usize = 0;
    while j < units.len()
        invariant
            j <= units@.len(),
            buf@ == before_name + units_bytes(units@.take(j as int)),
        decreases units@.len() - j,
    {
        push_u16(buf, units[j]);
        assert(units@.take(j + 1).drop_last() =~= units@.take(j as int));
        j = j + 1;
    }
    assert(units@.take(j as int) =~= units@);
    let ghost with_units = buf@;
    let mut z: usize = 2 * units.len();
    while z < 2 * NAME_UNITS
        invariant
            2 * units@.len() <= z <= 2 * NAME_UNITS,
            buf@ == with_units + Seq::new((z - 2 * units@.len()) as nat, |_k: int| 0u8),
        decreases 2 * NAME_UNITS - z,
    {
        buf.push(0u8);
        assert(buf@ =~= with_units + Seq::new((z + 1 - 2 * units@.len()) as nat, |_k: int| 0u8));
        z = z + 1;
    }
}

/// Appends the package chunk of `p`, with its two pools and its types in stored order; `false`,
/// with nothing appended, when its name, a pool or the whole chunk does not fit.
#[verifier::rlimit(40)]
pub fn encode_package(p: &Package, out: &mut Vec<u8>) -> (ok: bool)
    requires
        forall|k: int| 0 <= k < p@.types.len() ==> type_encodable(#[trigger] p@.types[k]),
    ensures
        ok == package_fits(p@),
        ok ==> final(out)@ == old(out)@ + package_bytes(p@),
        !ok ==> final(out)@ == old(out)@,
{
    let units = utf16_units(p.name.as_str());
    if units.len() >= NAME_UNITS {
        return false;
    }
    let mut tn: Vec<u8> = Vec::new();
    if !encode_pool(&p.type_names, &mut tn) {
        return false;
    }
    let mut kn: Vec<u8> = Vec::new();
    if !encode_pool(&p.key_names, &mut kn) {
        return false;
    }
    let ghost ts = p@.types;
    let mut body: Vec<u8> = Vec::new();
    let mut k: usize = 0;
    while k < p.types.len()
        invariant
            k <= p.types@.len(),
            ts == p@.types,
            forall|j: int| 0 <= j < ts.len() ==> type_encodable(#[trigger] ts[j]),
            body@ == types_bytes(ts, k as int),
        decreases p.types@.len() - k,
    {
        assert(ts[k as int] == p.types@[k as int]@);
        encode_type(&p.types[k], &mut body);
        k = k + 1;
    }
    proof {
        lemma_pool_bytes_len(p@.type_names);
        lemma_pool_bytes_len(p@.key_names);
    }
    if (tn.len() as u128) + (kn.len() as u128) + (body.len() as u128) > 0xffff_ffff - 284 {
        return false;
    }
    let size: usize = PACKAGE_HEADER + tn.len() + kn.len() + body.len();
    let h = Header {
        type_flag: TypeFlag::RES_TABLE_PACKAGE_TYPE,
        header_size: PACKAGE_HEADER as u16,
        size: size as u64,
    };
    let mut buf: Vec<u8> = Vec::new();
    encode_header(&h, &mut buf);
    push_u32(&mut buf, p.id);
    push_name(&units, &mut buf);
    push_u32(&mut buf, PACKAGE_HEADER as u32);
    push_u32(&mut buf, p.type_names.strings.len() as u32);
    push_u32(&mut buf, (PACKAGE_HEADER + tn.len()) as u32);
    push_u32(&mut buf, p.key_names.strings.len() as u32);
    buf.append(&mut tn);
    buf.append(&mut kn);
    buf.append(&mut body);
    out.append(&mut buf);
    reveal(package_bytes);
    assert(final(out)@ =~= old(out)@ + package_bytes(p@));
    true
}

/// The cross-references of a decoded type hold: `id - 1` indexes a pool of `names_len` type
/// names, each spec sits at its own position and names one of `keys_len` key names, and every
/// entry sits below its table's count and refers to one of the type's specs.
pub open spec fn type_indices_ok(t: TypeModel, names_len: nat, keys_len: nat) -> bool {
    &&& 1 <= t.id <= names_len
    &&& t.specs is Some
    &&& forall|j: int|
        0 <= j < t.specs->Some_0.len() ==> (#[trigger] t.specs->Some_0[j]).id == j
            && t.specs->Some_0[j].name_index < keys_len
    &&& forall|c: int, k: usize|
        0 <= c < t.configs.len() && #[trigger] t.configs[c].resources.contains_key(k) ==> k
            < t.configs[c].entry_count && t.configs[c].resources[k].spec_id
            < t.specs->Some_0.len()
}

/// Every type of the package keeps its cross-references within bounds.
pub open spec fn package_indices_ok(p: PackageModel) -> bool {
    forall|i: int|
        0 <= i < p.types.len() ==> type_indices_ok(
            #[trigger] p.types[i],
            p.type_names.strings.len(),
            p.key_names.strings.len(),
        )
}

/// Where the name field at `at` ends, searching from unit `k`: its first zero unit, or its width.
pub open spec fn name_len_from(s: Seq<u8>, at: int, k: int) -> int
    decreases NAME_UNITS - k,
{
    if k >= NAME_UNITS {
        NAME_UNITS as int
    } else if read16(s, at + 2 * k) == 0 {
        k
    } else {
        name_len_from(s, at, k + 1)
    }
}

/// The units of the name field at `at`, up to its first zero unit.
pub open spec fn name_units(s: Seq<u8>, at: int) -> Seq<u16> {
    Seq::new(name_len_from(s, at, 0) as nat, |j: int| read16(s, at + 2 * j))
}

/// Reads the fixed-width name field at `at`: the string whose UTF-16 units are those up to the
/// first zero; `StringPoolCorrupt` when no string has those units.
fn decode_name(data: &Vec<u8>, at: usize) -> (r: Result<String, ArscError>)
    requires
        at + 2 * NAME_UNITS <= data@.len(),
    ensures
        r matches Ok(t) ==> utf16_of(t@) == name_units(data@, at as int),
        r is Ok <==> exists|t: Seq<char>| utf16_of(t) == name_units(data@, at as int),
{
    let ghost s = data@;
    let dlen = data.len();
    let mut v: Vec<u16> = Vec::new();
    let mut k: usize = 0;
    while k < NAME_UNITS
        invariant
            k <= NAME_UNITS,
            dlen == data@.len(),
            s == data@,
            at + 2 * NAME_UNITS <= data@.len(),
            v@ == Seq::new(k as nat, |j: int| read16(s, at + 2 * j)),
            name_len_from(s, at as int, 0) == name_len_from(s, at as int, k as int),
        ensures
            name_len_from(s, at as int, 0) == k,
            v@ == Seq::new(k as nat, |j: int| read16(s, at + 2 * j)),
        decreases NAME_UNITS - k,
    {
        let u = get_u16(data, at + 2 * k);
        if u == 0 {
            assert(name_len_from(s, at as int, k as int) == k);
            break;
        }
        v.push(u);
        assert(v@ =~= Seq::new((k + 1) as nat, |j: int| read16(s, at + 2 * j)));
        k = k + 1;
    }
    assert(v@ =~= name_units(s, at as int));
    match string_from_utf16(v.as_slice()) {
        Some(t) => Ok(t),
        None => Err(ArscError::StringPoolCorrupt),
    }
}

/// Gives each spec the key name at its own position; `ResourceTableCorrupt` when the key-name
/// pool of `keys_len` names is too short.
fn resolve_names(specs: &mut Specs, keys_len: usize) -> (r: Result<(), ArscError>)
    requires
        forall|j: int| 0 <= j < old(specs)@.len() ==> (#[trigger] old(specs)@[j]).id == j,
    ensures
        final(specs)@.len() == old(specs)@.len(),
        r is Ok <==> old(specs)@.len() <= keys_len,
        r matches Err(e) ==> e == ArscError::ResourceTableCorrupt,
        r is Ok ==> forall|j: int|
            0 <= j < final(specs)@.len() ==> (#[trigger] final(specs)@[j]).id == j
                && final(specs)@[j].name_index < keys_len,
        r is Ok ==> forall|j: int|
            0 <= j < final(specs)@.len() ==> #[trigger] final(specs)@[j] == (Spec {
                name_index: j as usize,
                ..old(specs)@[j]
            }),
{
    let n = specs.len();
    let mut k: usize = 0;
    while k < n
        invariant
            k <= n,
            n == specs@.len(),
            n == old(specs)@.len(),
            forall|j: int| 0 <= j < n ==> (#[trigger] specs@[j]).id == j,
            forall|j: int| 0 <= j < k ==> (#[trigger] specs@[j]).name_index < keys_len,
            forall|j: int| 0 <= j < k ==> #[trigger] specs@[j] == (Spec { name_index: j as usize, ..old(specs)@[j] }),
            forall|j: int| k <= j < n ==> #[trigger] specs@[j] == old(specs)@[j],
            k <= keys_len,
        decreases n - k,
    {
        if k >= keys_len {
            return Err(ArscError::ResourceTableCorrupt);
        }
        specs.set_name_index(k, k);
        k = k + 1;
    }
    Ok(())
}

/// The position of the last type with id `id`, if there is one.
fn find_type(types: &Vec<Type>, id: usize) -> (r: Option<usize>)
    ensures
        r matches Some(i) ==> i < types@.len() && types@[i as int].id == id,
        r matches Some(i) ==> last_type_with_id(types_view(types@), id) == Some(i as int),
        r is None ==> last_type_with_id(types_view(types@), id) is None,
{
    let ghost v = types_view(types@);
    let mut j = types.len();
    while j > 0
        invariant
            j <= types@.len(),
            v == types_view(types@),
            forall|k: int| j <= k < types@.len() ==> (#[trigger] v[k]).id != id,
        decreases j,
    {
        j = j - 1;
        if types[j].id == id {
            proof {
                lemma_last_type(v, id, j as int);
            }
            return Some(j);
        }
    }
    proof {
        lemma_last_type_none(v, id);
    }
    None
}

/// The views of a sequence of types.
pub open spec fn types_view(ts: Seq<Type>) -> Seq<TypeModel> {
    ts.map_values(|t: Type| t@)
}

/// The position of the last type with id `id`, if there is one.
pub open spec fn last_type_with_id(acc: Seq<TypeModel>, id: usize) -> Option<int>
    decreases acc.len(),
{
    if acc.len() == 0 {
        None
    } else if acc.last().id == id {
        Some(acc.len() - 1)
    } else {
        last_type_with_id(acc.drop_last(), id)
    }
}

proof fn lemma_last_type(acc: Seq<TypeModel>, id: usize, j: int)
    requires
        0 <= j < acc.len(),
        acc[j].id == id,
        forall|k: int| j < k < acc.len() ==> (#[trigger] acc[k]).id != id,
    ensures
        last_type_with_id(acc, id) == Some(j),
    decreases acc.len(),
{
    if j < acc.len() - 1 {
        let d = acc.drop_last();
        assert forall|k: int| j < k < d.len() implies (#[trigger] d[k]).id != id by {
            assert(d[k] == acc[k]);
        }
        lemma_last_type(d, id, j);
    }
}

proof fn lemma_last_type_none(acc: Seq<TypeModel>, id: usize)
    requires
        forall|k: int| 0 <= k < acc.len() ==> (#[trigger] acc[k]).id != id,
    ensures
        last_type_with_id(acc, id) is None,
    decreases acc.len(),
{
    if acc.len() > 0 {
        let d = acc.drop_last();
        assert forall|k: int| 0 <= k < d.len() implies (#[trigger] d[k]).id != id by {
            assert(d[k] == acc[k]);
        }
        lemma_last_type_none(d, id);
    }
}

/// The specs that a valid type-spec chunk at `i` gives once each is named by its position.
pub open spec fn parsed_specs(s: Seq<u8>, i: int) -> Seq<Spec> {
    Seq::new(
        read32(s, i + 12) as nat,
        |k: int|
            Spec {
                flags: read32(s, i + read16(s, i + 2) + 4 * k),
                id: k as usize,
                name_index: k as usize,
            },
    )
}

/// The types that the chunks from `cur` to `end` of a package add to `acc`, or the error of the
/// first chunk that is rejected. Each spec chunk starts a type; each type chunk adds a
/// configuration to the last type with its id, and without one is `OrphanTypeChunk`.
#[verifier::opaque]
pub open spec fn package_walk(
    s: Seq<u8>,
    cur: int,
    end: int,
    names_len: nat,
    keys_len: nat,
    pool_len: nat,
    acc: Seq<TypeModel>,
) -> Result<Seq<TypeModel>, ArscError>
    decreases end - cur,
{
    if cur >= end {
        Ok(acc)
    } else {
        match parse_header(s, cur) {
            Err(e) => Err(e),
            Ok(h) => if h.size < 20 || cur + h.size > end {
                Err(ArscError::MalformedHeader)
            } else {
                let next = cur + h.size;
                let tid = s[cur + 8] as usize;
                match h.type_flag {
                    TypeFlag::RES_TABLE_TYPE_SPEC_TYPE => match specs_error(s, cur) {
                        Some(e) => Err(e),
                        None => if tid == 0 || tid > names_len {
                            Err(ArscError::ResourceTableCorrupt)
                        } else if read32(s, cur + 12) > keys_len {
                            Err(ArscError::ResourceTableCorrupt)
                        } else {
                            package_walk(
                                s,
                                next,
                                end,
                                names_len,
                                keys_len,
                                pool_len,
                                acc.push(
                                    TypeModel {
                                        id: tid,
                                        specs: Some(parsed_specs(s, cur)),
                                        configs: Seq::empty(),
                                    },
                                ),
                            )
                        },
                    },
                    TypeFlag::RES_TABLE_TYPE_TYPE => match last_type_with_id(acc, tid) {
                        None => Err(ArscError::OrphanTypeChunk),
                        Some(i) => {
                            let sl = acc[i].specs->Some_0.len();
                            match config_error(s, cur, sl, pool_len) {
                                Some(e) => Err(e),
                                None => package_walk(
                                    s,
                                    next,
                                    end,
                                    names_len,
                                    keys_len,
                                    pool_len,
                                    acc.update(
                                        i,
                                        TypeModel {
                                            configs: acc[i].configs.push(
                                                parse_config(s, cur, sl, pool_len),
                                            ),
                                            ..acc[i]
                                        },
                                    ),
                                ),
                            }
                        },
                    },
                    TypeFlag::RES_TABLE_LIBRARY_TYPE => package_walk(
                        s,
                        next,
                        end,
                        names_len,
                        keys_len,
                        pool_len,
                        acc,
                    ),
                    _ => Err(ArscError::MalformedHeader),
                }
            },
        }
    }
}

/// Decodes the spec, type or library chunk at `cursor` of a package whose chunks end at `end`,
/// adding to `types` what the chunk holds; gives where the next chunk starts.
#[verifier::rlimit(100)]
fn decode_chunk(
    data: &Vec<u8>,
    cursor: usize,
    end: usize,
    types: &mut Vec<Type>,
    names_len: usize,
    keys_len: usize,
    pool_len: usize,
) -> (r: Result<usize, ArscError>)
    requires
        cursor < end <= data@.len(),
        forall|i: int|
            0 <= i < old(types)@.len() ==> type_indices_ok(
                #[trigger] old(types)@[i]@,
                names_len as nat,
                keys_len as nat,
            ),
    ensures
        match r {
            Ok(next) => cursor < next <= end && package_walk(
                data@,
                cursor as int,
                end as int,
                names_len as nat,
                keys_len as nat,
                pool_len as nat,
                types_view(old(types)@),
            ) == package_walk(
                data@,
                next as int,
                end as int,
                names_len as nat,
                keys_len as nat,
                pool_len as nat,
                types_view(final(types)@),
            ),
            Err(e) => package_walk(
                data@,
                cursor as int,
                end as int,
                names_len as nat,
                keys_len as nat,
                pool_len as nat,
                types_view(old(types)@),
            ) == Err::<Seq<TypeModel>, ArscError>(e),
        },
        forall|i: int|
            0 <= i < final(types)@.len() ==> type_indices_ok(
                #[trigger] final(types)@[i]@,
                names_len as nat,
                keys_len as nat,
            ),
{
    reveal(package_walk);
    let ghost s = data@;
    let ghost acc = types_view(types@);
    let ch = match decode_header(data, cursor) {
        Ok(ch) => ch,
        Err(e) => {
            return Err(e);
        },
    };
    if ch.size < 20 || ch.size > (end - cursor) as u64 {
        return Err(ArscError::MalformedHeader);
    }
    let csize = ch.size as usize;
    match ch.type_flag {
        TypeFlag::RES_TABLE_TYPE_SPEC_TYPE => {
            let (tid, mut specs, _n) = match decode_specs(data, cursor) {
                Ok(x) => x,
                Err(e) => {
                    return Err(e);
                },
            };
            if tid == 0 || tid > names_len {
                return Err(ArscError::ResourceTableCorrupt);
            }
            let ghost old_specs = specs@;
            match resolve_names(&mut specs, keys_len) {
                Ok(()) => {},
                Err(e) => {
                    return Err(e);
                },
            }
            assert(specs@ =~= parsed_specs(s, cursor as int));
            let t = Type { id: tid, specs: Some(specs), configs: Vec::new() };
            assert(t@.configs =~= Seq::<crate::components::ConfigModel>::empty());
            types.push(t);
            assert(types_view(types@) =~= acc.push(t@));
        },
        TypeFlag::RES_TABLE_TYPE_TYPE => {
            let tid = data[cursor + 8] as usize;
            let idx = match find_type(&types, tid) {
                Some(i) => i,
                None => {
                    return Err(ArscError::OrphanTypeChunk);
                },
            };
            assert(acc[idx as int] == types@[idx as int]@);
            assert(type_indices_ok(types@[idx as int]@, names_len as nat, keys_len as nat));
            let specs_len = match &types[idx].specs {
                Some(sp) => sp.len(),
                None => 0,
            };
            let (c, _n) = match decode_config(data, cursor, specs_len, pool_len) {
                Ok(x) => x,
                Err(e) => {
                    return Err(e);
                },
            };
            let ghost before = types@;
            let mut t = types.remove(idx);
            let ghost told = t@;
            t.configs.push(c);
            assert(t@.configs =~= told.configs.push(c@));
            assert(t@.specs == told.specs);
            assert(type_indices_ok(t@, names_len as nat, keys_len as nat)) by {
                assert forall|ci: int, k: usize|
                    0 <= ci < t@.configs.len() && #[trigger] t@.configs[ci].resources.contains_key(k)
                    implies k < t@.configs[ci].entry_count && t@.configs[ci].resources[k].spec_id
                    < t@.specs->Some_0.len() by {
                    if ci < told.configs.len() {
                        assert(t@.configs[ci] == told.configs[ci]);
                    }
                }
            }
            types.insert(idx, t);
            assert(types_view(types@) =~= acc.update(
                idx as int,
                TypeModel { configs: acc[idx as int].configs.push(c@), ..acc[idx as int] },
            ));
            assert forall|i: int| 0 <= i < types@.len() implies type_indices_ok(
                #[trigger] types@[i]@,
                names_len as nat,
                keys_len as nat,
            ) by {
                if i < idx {
                    assert(types@[i] == before[i]);
                } else if i > idx {
                    assert(types@[i] == before[i]);
                }
            }
        },
        TypeFlag::RES_TABLE_LIBRARY_TYPE => {},
        _ => {
            return Err(ArscError::MalformedHeader);
        },
    }
    Ok(cursor + csize)
}

/// Where the type-name pool of the package at `pos` starts.
pub open spec fn type_pool_pos(s: Seq<u8>, pos: int) -> int {
    pos + read32(s, pos + 268)
}

/// Where the key-name pool of the package at `pos` starts.
pub open spec fn key_pool_pos(s: Seq<u8>, pos: int) -> int {
    pos + read32(s, pos + 276)
}

/// Where the spec and type chunks of the package at `pos` start: after its key-name pool.
pub open spec fn walk_start(s: Seq<u8>, pos: int) -> int {
    key_pool_pos(s, pos) + read32(s, key_pool_pos(s, pos) + 4)
}

/// The part of the package chunk at `pos` before its spec and type chunks decodes: the header,
/// the name, and both name pools, each inside the chunk.
pub open spec fn package_head_ok(s: Seq<u8>, pos: int) -> bool {
    &&& parse_header(s, pos) matches Ok(h)
    &&& h.type_flag == TypeFlag::RES_TABLE_PACKAGE_TYPE
    &&& h.header_size >= PACKAGE_HEADER
    &&& pos + h.size <= s.len()
    &&& exists|t: Seq<char>| utf16_of(t) == name_units(s, pos + 12)
    &&& read32(s, pos + 268) <= h.size
    &&& read32(s, pos + 276) <= h.size
    &&& pool_ok(s, type_pool_pos(s, pos))
    &&& pool_ok(s, key_pool_pos(s, pos))
    &&& read32(s, type_pool_pos(s, pos) + 4) <= h.size - read32(s, pos + 268)
    &&& read32(s, key_pool_pos(s, pos) + 4) <= h.size - read32(s, pos + 276)
}

/// What walking the spec and type chunks of the package at `pos` gives.
pub open spec fn package_types(s: Seq<u8>, pos: int, pool_len: nat) -> Result<Seq<TypeModel>, ArscError> {
    package_walk(
        s,
        walk_start(s, pos),
        pos + read32(s, pos + 4),
        read32(s, type_pool_pos(s, pos) + 8) as nat,
        read32(s, key_pool_pos(s, pos) + 8) as nat,
        pool_len,
        Seq::empty(),
    )
}

/// Decodes the package chunk at `pos` against a global pool of `pool_len` strings: its name
/// pools, then its spec and type chunks in order, each type chunk joined to the last type with
/// its id. Fails with `OrphanTypeChunk` for a type chunk before any spec chunk of its type.
#[verifier::rlimit(60)]
pub fn decode_package(data: &Vec<u8>, pos: usize, pool_len: usize) -> (r: Result<
    (Package, usize),
    ArscError,
>)
    ensures
        r is Ok <==> package_head_ok(data@, pos as int) && package_types(
            data@,
            pos as int,
            pool_len as nat,
        ) is Ok,
        package_head_ok(data@, pos as int) && package_types(data@, pos as int, pool_len as nat) is Err
            ==> r == Err::<(Package, usize), ArscError>(
            package_types(data@, pos as int, pool_len as nat)->Err_0,
        ),
        r matches Ok((p, n)) ==> {
            &&& Ok::<Seq<TypeModel>, ArscError>(p@.types) == package_types(
                data@,
                pos as int,
                pool_len as nat,
            )
            &&& package_indices_ok(p@)
            &&& p.id == read32(data@, pos + 8)
            &&& utf16_of(p.name@) == name_units(data@, pos + 12)
            &&& pool_decoded(data@, type_pool_pos(data@, pos as int), p@.type_names)
            &&& pool_decoded(data@, key_pool_pos(data@, pos as int), p@.key_names)
            &&& parse_header(data@, pos as int) matches Ok(h)
            &&& n == h.size && pos + n <= data@.len()
        },
        parse_header(data@, pos as int) is Err ==> r == Err::<(Package, usize), ArscError>(
            ArscError::MalformedHeader,
        ),
{
    let ghost s = data@;
    let h = match decode_header(data, pos) {
        Ok(h) => h,
        Err(e) => {
            return Err(e);
        },
    };
    if h.type_flag != TypeFlag::RES_TABLE_PACKAGE_TYPE || (h.header_size as usize) < PACKAGE_HEADER
        || pos > data.len() || h.size > (data.len() - pos) as u64 {
        return Err(ArscError::MalformedHeader);
    }
    let size = h.size as usize;
    let end = pos + size;
    let id = get_u32(data, pos + 8);
    let name = match decode_name(data, pos + 12) {
        Ok(t) => t,
        Err(e) => {
            return Err(e);
        },
    };
    let type_off = get_u32(data, pos + 268) as usize;
    let key_off = get_u32(data, pos + 276) as usize;
    if type_off > size || key_off > size {
        return Err(ArscError::MalformedHeader);
    }
    let (type_names, tn_size) = match decode_pool(data, pos + type_off) {
        Ok(x) => x,
        Err(e) => {
            return Err(e);
        },
    };
    let (key_names, kn_size) = match decode_pool(data, pos + key_off) {
        Ok(x) => x,
        Err(e) => {
            return Err(e);
        },
    };
    if tn_size > size - type_off || kn_size > size - key_off {
        return Err(ArscError::MalformedHeader);
    }
    assert(package_head_ok(s, pos as int));
    let names_len = type_names.strings.len();
    let keys_len = key_names.strings.len();
    let ghost nl = names_len as nat;
    let ghost kl = keys_len as nat;
    let ghost pl = pool_len as nat;
    let mut types: Vec<Type> = Vec::new();
    let mut cursor: usize = pos + key_off + kn_size;
    assert(types_view(types@) =~= Seq::<TypeModel>::empty());
    assert(type_names@.strings.len() == names_len);
    assert(key_names@.strings.len() == keys_len);
    while cursor < end
        invariant
            s == data@,
            cursor <= end,
            end <= data@.len(),
            end == pos + read32(s, pos + 4),
            parse_header(data@, pos as int) is Ok,
            names_len == type_names.strings@.len(),
            keys_len == key_names.strings@.len(),
            nl == read32(s, type_pool_pos(s, pos as int) + 8),
            kl == read32(s, key_pool_pos(s, pos as int) + 8),
            nl == names_len,
            kl == keys_len,
            pl == pool_len,
            pool_decoded(data@, pos + read32(data@, pos + 268), type_names@),
            pool_decoded(data@, pos + read32(data@, pos + 276), key_names@),
            package_types(s, pos as int, pl) == package_walk(
                s,
                cursor as int,
                end as int,
                nl,
                kl,
                pl,
                types_view(types@),
            ),
            forall|i: int|
                0 <= i < types@.len() ==> type_indices_ok(
                    #[trigger] types@[i]@,
                    names_len as nat,
                    keys_len as nat,
                ),
        decreases end - cursor,
    {
        let next = match decode_chunk(data, cursor, end, &mut types, names_len, keys_len, pool_len) {
            Ok(n) => n,
            Err(e) => {
                return Err(e);
            },
        };
        cursor = next;
    }
    proof {
        reveal(package_walk);
    }
    let p = Package { id, name, type_names, types, key_names };
    assert(p@.types == types_view(p.types@));
    assert(package_indices_ok(p@)) by {
        assert forall|i: int| 0 <= i < p@.types.len() implies type_indices_ok(
            #[trigger] p@.types[i],
            p@.type_names.strings.len(),
            p@.key_names.strings.len(),
        ) by {
            assert(p@.types[i] == p.types@[i]@);
        }
    }
    Ok((p, size))
}

/// The spec chunk of a type reads back as the same type id and the same flags, in order.
pub proof fn lemma_specs_chunk_round_trip(id: usize, specs: Seq<Spec>, s: Seq<u8>, i: int)
    requires
        id <= 0xff,
        SPEC_HEADER + 4 * specs.len() <= u32::MAX,
        0 <= i,
        i + SPEC_HEADER + 4 * specs.len() <= s.len(),
        s.subrange(i, i + SPEC_HEADER + 4 * specs.len()) == specs_chunk_bytes(id, specs),
    ensures
        parse_header(s, i) == Ok::<Header, ArscError>(
            Header {
                type_flag: TypeFlag::RES_TABLE_TYPE_SPEC_TYPE,
                header_size: SPEC_HEADER as u16,
                size: (SPEC_HEADER + 4 * specs.len()) as u64,
            },
        ),
        s[i + 8] == id,
        read32(s, i + 12) == specs.len(),
        forall|k: int| 0 <= k < specs.len() ==> read32(s, i + SPEC_HEADER + 4 * k) == (#[trigger] specs[k]).flags,
{
    let n = specs.len() as int;
    let h = Header {
        type_flag: TypeFlag::RES_TABLE_TYPE_SPEC_TYPE,
        header_size: SPEC_HEADER as u16,
        size: (SPEC_HEADER + 4 * n) as u64,
    };
    let b = specs_chunk_bytes(id, specs);
    let flags = spec_flags(specs);
    crate::config::lemma_words_bytes_len(flags);
    assert(s.subrange(i, i + 8) =~= b.subrange(0, 8));
    assert(b.subrange(0, 8) =~= header_bytes(h));
    crate::header::lemma_header_round_trip(h, s, i);
    assert(s[i + 8] == b[8]);
    assert(s.subrange(i + 12, i + 16) =~= b.subrange(12, 16));
    assert(b.subrange(12, 16) =~= le32(n as u32));
    crate::bytes::lemma_read32_le32(n as u32, s, i + 12);
    assert forall|k: int| 0 <= k < n implies read32(s, i + SPEC_HEADER + 4 * k) == (
    #[trigger] specs[k]).flags by {
        crate::config::lemma_words_bytes_index(flags, k);
        assert(s.subrange(i + SPEC_HEADER + 4 * k, i + SPEC_HEADER + 4 * k + 4) =~= b.subrange(
            SPEC_HEADER + 4 * k,
            SPEC_HEADER + 4 * k + 4,
        ));
        assert(b.subrange(SPEC_HEADER + 4 * k, SPEC_HEADER + 4 * k + 4) =~= words_bytes(
            flags,
        ).subrange(4 * k, 4 * k + 4));
        crate::bytes::lemma_read32_le32(flags[k], s, i + SPEC_HEADER + 4 * k);
    }
}

} // verus!
