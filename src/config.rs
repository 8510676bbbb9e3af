//! The per-configuration resource table: a descriptor, a sparse offset table and its entries.
use std::collections::BTreeMap;
use vstd::prelude::*;
use crate::bytes::{get_u16, get_u32, le16, le32, push_u16, push_u32, read16, read32, lemma_read16_le16, lemma_read32_le32};
use crate::components::{ArscError, Config, ConfigModel, Header, ResourceEntry, ResourceEntryModel, TypeFlag};
use crate::header::{decode_header, encode_header, header_bytes, header_wf, parse_header, lemma_header_round_trip};
use crate::value::{decode_entry, encode_entry, entry_bytes, entry_encodable, entry_len, entry_wf, parse_entry, lemma_entry_bytes_len, lemma_entry_round_trip};

verus! {

/// Offset-table word that marks a position with no entry.
pub const NO_ENTRY: u32 = 0xFFFF_FFFF;

/// Bytes of a table-type chunk before its configuration descriptor.
pub const CONFIG_FIXED_HEADER: usize = 20;

/// The entries at positions below `n`, in ascending order of position, one after another.
pub open spec fn slots_bytes(m: Map<usize, ResourceEntryModel>, n: int) -> Seq<u8>
    decreases n,
{
    if n <= 0 {
        Seq::empty()
    } else if m.contains_key((n - 1) as usize) {
        slots_bytes(m, n - 1) + entry_bytes(m[(n - 1) as usize])
    } else {
        slots_bytes(m, n - 1)
    }
}

/// The offset-table words for positions below `n`: where each entry starts, or `NO_ENTRY`.
pub open spec fn slot_offsets(m: Map<usize, ResourceEntryModel>, n: int) -> Seq<u32>
    decreases n,
{
    if n <= 0 {
        Seq::empty()
    } else {
        let word = if m.contains_key((n - 1) as usize) {
            slots_bytes(m, n - 1).len() as u32
        } else {
            NO_ENTRY
        };
        slot_offsets(m, n - 1).push(word)
    }
}

/// The bytes of a sequence of offset-table words.
pub open spec fn words_bytes(w: Seq<u32>) -> Seq<u8>
    decreases w.len(),
{
    if w.len() == 0 {
        Seq::empty()
    } else {
        words_bytes(w.drop_last()) + le32(w.last())
    }
}

/// Where the entries start, counted from the start of the chunk.
pub open spec fn config_entries_start(c: ConfigModel) -> int {
    CONFIG_FIXED_HEADER + c.id.len() + 4 * c.entry_count
}

/// The number of bytes of the chunk that holds `c`.
pub open spec fn config_size(c: ConfigModel) -> int {
    config_entries_start(c) + slots_bytes(c.resources, c.entry_count as int).len()
}

/// The bytes of the table-type chunk that holds `c`.
#[verifier::opaque]
pub open spec fn config_bytes(c: ConfigModel) -> Seq<u8> {
    let h = Header {
        type_flag: TypeFlag::RES_TABLE_TYPE_TYPE,
        header_size: (CONFIG_FIXED_HEADER + c.id.len()) as u16,
        size: config_size(c) as u64,
    };
    header_bytes(h) + seq![c.type_id as u8, c.res0] + le16(c.res1) + le32(c.entry_count as u32)
        + le32(config_entries_start(c) as u32) + c.id + words_bytes(
        slot_offsets(c.resources, c.entry_count as int),
    ) + slots_bytes(c.resources, c.entry_count as int)
}

/// A configuration whose numbers fit their fields: every key below `entry_count`, and the
/// whole chunk within 32-bit sizes.
pub open spec fn config_encodable(c: ConfigModel) -> bool {
    &&& c.type_id <= 0xff
    &&& CONFIG_FIXED_HEADER + c.id.len() <= 0xffff
    &&& config_size(c) <= u32::MAX
    &&& forall|k: usize| #[trigger] c.resources.contains_key(k) ==> k < c.entry_count
    &&& forall|k: usize| #[trigger]
        c.resources.contains_key(k) ==> entry_encodable(c.resources[k])
}

/// A configuration that decodes back as itself, for a type of `specs_len` specs and a global
/// pool of `pool_len` strings.
pub open spec fn config_wf(c: ConfigModel, specs_len: nat, pool_len: nat) -> bool {
    &&& config_encodable(c)
    &&& forall|k: usize| #[trigger]
        c.resources.contains_key(k) ==> entry_wf(c.resources[k], specs_len, pool_len)
}

/// The offset-table word for position `k` of the chunk at `i` whose header is `hs` bytes.
pub open spec fn offset_word(s: Seq<u8>, i: int, hs: int, k: int) -> u32 {
    read32(s, i + hs + 4 * k)
}

/// The chunk header at `i`, read as a table-type chunk: the header is valid, of that kind,
/// long enough for the fixed fields, and the chunk lies within `s`.
pub open spec fn config_header_ok(s: Seq<u8>, i: int) -> bool {
    match parse_header(s, i) {
        Ok(h) => h.type_flag == TypeFlag::RES_TABLE_TYPE_TYPE && h.header_size
            >= CONFIG_FIXED_HEADER && i + h.size <= s.len(),
        Err(_) => false,
    }
}

/// The header size of the chunk at `i`.
pub open spec fn config_hs(s: Seq<u8>, i: int) -> int {
    read16(s, i + 2) as int
}

/// Where the chunk at `i` ends.
pub open spec fn config_end(s: Seq<u8>, i: int) -> int {
    i + read32(s, i + 4)
}

/// The length of the offset table of the chunk at `i`.
pub open spec fn config_count(s: Seq<u8>, i: int) -> int {
    read32(s, i + 12) as int
}

/// Where the entries of the chunk at `i` start, counted from the chunk's start.
pub open spec fn config_start(s: Seq<u8>, i: int) -> int {
    read32(s, i + 16) as int
}

/// The offset table of the chunk at `i` lies between its header and its entries.
pub open spec fn config_layout_ok(s: Seq<u8>, i: int) -> bool {
    config_hs(s, i) + 4 * config_count(s, i) <= config_start(s, i) && i + config_start(s, i)
        <= config_end(s, i)
}

/// Why position `k` of the chunk at `i` is rejected, if it is: an offset that leaves the chunk,
/// or the error of the entry it points at.
pub open spec fn slot_error(s: Seq<u8>, i: int, k: int, specs_len: nat, pool_len: nat) -> Option<
    ArscError,
> {
    let off = offset_word(s, i, config_hs(s, i), k);
    let at = i + config_start(s, i) + off;
    if off == NO_ENTRY {
        None
    } else if at > config_end(s, i) {
        Some(ArscError::ResourceTableCorrupt)
    } else {
        match parse_entry(s, at, config_end(s, i), specs_len, pool_len) {
            Ok(_) => None,
            Err(e) => Some(e),
        }
    }
}

/// Position `k` of the chunk at `i` is empty, or holds an entry inside the chunk that decodes.
pub open spec fn config_slot_ok(s: Seq<u8>, i: int, k: int, specs_len: nat, pool_len: nat) -> bool {
    slot_error(s, i, k, specs_len, pool_len) is None
}

/// The error of the first rejected position among the first `n` of the chunk at `i`.
pub open spec fn first_slot_error(s: Seq<u8>, i: int, n: int, specs_len: nat, pool_len: nat) -> Option<
    ArscError,
>
    decreases n,
{
    if n <= 0 {
        None
    } else {
        let before = first_slot_error(s, i, n - 1, specs_len, pool_len);
        if before is Some {
            before
        } else {
            slot_error(s, i, n - 1, specs_len, pool_len)
        }
    }
}

/// What decoding the table-type chunk at `i` reports when it fails, or `None` when it succeeds.
pub open spec fn config_error(s: Seq<u8>, i: int, specs_len: nat, pool_len: nat) -> Option<ArscError> {
    if !config_header_ok(s, i) {
        Some(ArscError::MalformedHeader)
    } else if !config_layout_ok(s, i) {
        Some(ArscError::ResourceTableCorrupt)
    } else {
        first_slot_error(s, i, config_count(s, i), specs_len, pool_len)
    }
}

proof fn lemma_first_slot_error_stays(s: Seq<u8>, i: int, m: int, n: int, specs_len: nat, pool_len: nat)
    requires
        0 <= m <= n,
        first_slot_error(s, i, m, specs_len, pool_len) is Some,
    ensures
        first_slot_error(s, i, n, specs_len, pool_len) == first_slot_error(s, i, m, specs_len, pool_len),
    decreases n - m,
{
    if m < n {
        lemma_first_slot_error_stays(s, i, m, n - 1, specs_len, pool_len);
    }
}

proof fn lemma_first_slot_error_none(s: Seq<u8>, i: int, n: int, specs_len: nat, pool_len: nat)
    requires
        0 <= n,
        forall|j: int| 0 <= j < n ==> config_slot_ok(s, i, j, specs_len, pool_len),
    ensures
        first_slot_error(s, i, n, specs_len, pool_len) is None,
    decreases n,
{
    if n > 0 {
        lemma_first_slot_error_none(s, i, n - 1, specs_len, pool_len);
        assert(config_slot_ok(s, i, n - 1, specs_len, pool_len));
    }
}

/// The chunk at `i` decodes as a configuration.
pub open spec fn config_valid(s: Seq<u8>, i: int, specs_len: nat, pool_len: nat) -> bool {
    &&& config_header_ok(s, i)
    &&& config_layout_ok(s, i)
    &&& forall|k: int| 0 <= k < config_count(s, i) ==> config_slot_ok(s, i, k, specs_len, pool_len)
}

/// The configuration that a valid chunk at `i` holds.
pub open spec fn parse_config(s: Seq<u8>, i: int, specs_len: nat, pool_len: nat) -> ConfigModel {
    let hs = config_hs(s, i);
    ConfigModel {
        type_id: s[i + 8] as usize,
        res0: s[i + 9],
        res1: read16(s, i + 10),
        entry_count: config_count(s, i) as usize,
        id: s.subrange(i + CONFIG_FIXED_HEADER, i + hs),
        resources: Map::new(
            |k: usize| k < config_count(s, i) && offset_word(s, i, hs, k as int) != NO_ENTRY,
            |k: usize|
                parse_entry(
                    s,
                    i + config_start(s, i) + offset_word(s, i, hs, k as int),
                    config_end(s, i),
                    specs_len,
                    pool_len,
                )->Ok_0.0,
        ),
    }
}

/// Decodes the table-type chunk at `pos` for a type of `specs_len` specs and a global pool of
/// `pool_len` strings; gives the configuration and the chunk's size.
#[verifier::rlimit(40)]
pub fn decode_config(data: &Vec<u8>, pos: usize, specs_len: usize, pool_len: usize) -> (r: Result<
    (Config, usize),
    ArscError,
>)
    ensures
        r is Ok <==> config_valid(data@, pos as int, specs_len as nat, pool_len as nat),
        r matches Err(e) ==> config_error(data@, pos as int, specs_len as nat, pool_len as nat) == Some(e),
        r is Ok ==> config_error(data@, pos as int, specs_len as nat, pool_len as nat) is None,
        r matches Ok((c, n)) ==> c@ == parse_config(data@, pos as int, specs_len as nat, pool_len as nat)
            && n == read32(data@, pos + 4) && pos + n <= data@.len(),
        r matches Ok((c, n)) ==> forall|k: usize| #[trigger]
            c@.resources.contains_key(k) ==> k < c.entry_count && c@.resources[k].spec_id < specs_len,
        !config_header_ok(data@, pos as int) ==> r == Err::<(Config, usize), ArscError>(
            ArscError::MalformedHeader,
        ),
        config_header_ok(data@, pos as int) && !config_layout_ok(data@, pos as int) ==> r == Err::<
            (Config, usize),
            ArscError,
        >(ArscError::ResourceTableCorrupt),
        r is Err && config_header_ok(data@, pos as int) && config_layout_ok(data@, pos as int)
            ==> exists|k: int|
            0 <= k < config_count(data@, pos as int) && (forall|j: int|
                0 <= j < k ==> config_slot_ok(data@, pos as int, j, specs_len as nat, pool_len as nat))
                && #[trigger] slot_error(data@, pos as int, k, specs_len as nat, pool_len as nat)
                == Some(r->Err_0),
{
    let ghost s = data@;
    let ghost i = pos as int;
    let h = match decode_header(data, pos) {
        Ok(h) => h,
        Err(e) => {
            return Err(e);
        },
    };
    if h.type_flag != TypeFlag::RES_TABLE_TYPE_TYPE || (h.header_size as usize) < CONFIG_FIXED_HEADER
        || pos > data.len() || h.size > (data.len() - pos) as u64 {
        return Err(ArscError::MalformedHeader);
    }
    assert(config_header_ok(s, i));
    let hs = h.header_size as usize;
    let size = h.size as usize;
    let end = pos + size;
    let type_id = data[pos + 8];
    let res0 = data[pos + 9];
    let res1 = get_u16(data, pos + 10);
    let ec32 = get_u32(data, pos + 12);
    let es32 = get_u32(data, pos + 16);
    if (hs as u64) + 4 * (ec32 as u64) > es32 as u64 || es32 as u64 > size as u64 {
        return Err(ArscError::ResourceTableCorrupt);
    }
    assert(config_layout_ok(s, i));
    let ec = ec32 as usize;
    let es = es32 as usize;
    let mut id: Vec<u8> = Vec::new();
    let mut p: usize = pos + CONFIG_FIXED_HEADER;
    let id_end: usize = pos + hs;
    while p < id_end
        invariant
            pos + CONFIG_FIXED_HEADER <= p <= id_end,
            id_end == pos + hs,
            id_end <= data@.len(),
            id@ == s.subrange(i + CONFIG_FIXED_HEADER, p as int),
            s == data@,
            i == pos,
        decreases id_end - p,
    {
        let ghost before = id@;
        id.push(data[p]);
        assert(s.subrange(i + CONFIG_FIXED_HEADER, p + 1) =~= s.subrange(
            i + CONFIG_FIXED_HEADER,
            p as int,
        ).push(s[p as int]));
        p = p + 1;
    }
    let mut resources: BTreeMap<usize, ResourceEntry> = BTreeMap::new();
    let mut k: usize = 0;
    while k < ec
        invariant
            s == data@,
            i == pos,
            parse_header(s, i) == Ok::<Header, ArscError>(h),
            config_header_ok(s, i),
            config_layout_ok(s, i),
            hs == config_hs(s, i),
            end == config_end(s, i),
            ec == config_count(s, i),
            es == config_start(s, i),
            hs + 4 * ec <= es <= size,
            end == pos + size,
            end <= data@.len(),
            k <= ec,
            forall|j: usize| #[trigger] resources@.contains_key(j) ==> j < k,
            forall|j: int| 0 <= j < k ==> config_slot_ok(s, i, j, specs_len as nat, pool_len as nat),
            first_slot_error(s, i, k as int, specs_len as nat, pool_len as nat) is None,
            forall|j: usize|
                j < k ==> (#[trigger] resources@.contains_key(j) <==> offset_word(s, i, hs as int, j as int)
                    != NO_ENTRY),
            forall|j: usize| #[trigger]
                resources@.contains_key(j) ==> resources@[j].spec_id < specs_len && resources@[j]@ == parse_entry(
                    s,
                    i + es + offset_word(s, i, hs as int, j as int),
                    end as int,
                    specs_len as nat,
                    pool_len as nat,
                )->Ok_0.0,
        decreases ec - k,
    {
        let off = get_u32(data, pos + hs + 4 * k);
        assert(off == offset_word(s, i, hs as int, k as int));
        if off != NO_ENTRY {
            if off as usize > size - es {
                assert(slot_error(s, i, k as int, specs_len as nat, pool_len as nat) == Some(
                    ArscError::ResourceTableCorrupt,
                ));
                assert(!config_slot_ok(s, i, k as int, specs_len as nat, pool_len as nat));
                proof {
                    lemma_first_slot_error_stays(s, i, k + 1, ec as int, specs_len as nat, pool_len as nat);
                }
                return Err(ArscError::ResourceTableCorrupt);
            }
            let at = pos + es + off as usize;
            match decode_entry(data, at, end, specs_len, pool_len) {
                Err(e) => {
                    assert(slot_error(s, i, k as int, specs_len as nat, pool_len as nat) == Some(e));
                    assert(!config_slot_ok(s, i, k as int, specs_len as nat, pool_len as nat));
                    proof {
                        lemma_first_slot_error_stays(s, i, k + 1, ec as int, specs_len as nat, pool_len as nat);
                    }
                    return Err(e);
                },
                Ok((e, _n)) => {
                    resources.insert(k, e);
                },
            }
        }
        k = k + 1;
    }
    proof {
        lemma_first_slot_error_none(s, i, ec as int, specs_len as nat, pool_len as nat);
    }
    let c = Config { type_id: type_id as usize, res0, res1, entry_count: ec, id, resources };
    assert(c@.resources =~= parse_config(s, i, specs_len as nat, pool_len as nat).resources);
    Ok((c, size))
}

/// The entries below position `a` are a prefix of those below `b`.
pub proof fn lemma_slots_prefix(m: Map<usize, ResourceEntryModel>, a: int, b: int)
    requires
        0 <= a <= b,
    ensures
        slots_bytes(m, a).len() <= slots_bytes(m, b).len(),
        slots_bytes(m, b).subrange(0, slots_bytes(m, a).len() as int) == slots_bytes(m, a),
    decreases b,
{
    if a < b {
        lemma_slots_prefix(m, a, b - 1);
        let sa = slots_bytes(m, a);
        let sb1 = slots_bytes(m, b - 1);
        let sb = slots_bytes(m, b);
        assert(sb.subrange(0, sb1.len() as int) =~= sb1);
        assert(sb.subrange(0, sa.len() as int) =~= sb1.subrange(0, sa.len() as int));
    } else {
        assert(slots_bytes(m, b).subrange(0, slots_bytes(m, a).len() as int) =~= slots_bytes(m, a));
    }
}

/// Appends the table-type chunk of `c`: offsets are assigned by walking the positions in
/// ascending order, with `NO_ENTRY` for each position that holds nothing.
#[verifier::rlimit(40)]
pub fn encode_config(c: &Config, out: &mut Vec<u8>)
    requires
        config_encodable(c@),
    ensures
        final(out)@ == old(out)@ + config_bytes(c@),
{
    let ghost m = c@.resources;
    let ec = c.entry_count;
    let mut offsets: Vec<u32> = Vec::new();
    let mut body: Vec<u8> = Vec::new();
    let mut k: usize = 0;
    while k < ec
        invariant
            m == c@.resources,
            config_encodable(c@),
            k <= ec,
            ec == c.entry_count,
            body@ == slots_bytes(m, k as int),
            offsets@ == slot_offsets(m, k as int),
        decreases ec - k,
    {
        proof {
            lemma_slots_prefix(m, k as int, ec as int);
        }
        match c.resources.get(&k) {
            Some(e) => {
                assert(m.contains_key(k) && m[k] == e@);
                offsets.push(body.len() as u32);
                encode_entry(e, &mut body);
            },
            None => {
                assert(!m.contains_key(k));
                offsets.push(NO_ENTRY);
            },
        }
        k = k + 1;
    }
    let hs: usize = CONFIG_FIXED_HEADER + c.id.len();
    let es: usize = hs + 4 * ec;
    let size: usize = es + body.len();
    let h = Header {
        type_flag: TypeFlag::RES_TABLE_TYPE_TYPE,
        header_size: hs as u16,
        size: size as u64,
    };
    encode_header(&h, out);
    out.push(c.type_id as u8);
    out.push(c.res0);
    push_u16(out, c.res1);
    push_u32(out, ec as u32);
    push_u32(out, es as u32);
    let ghost fixed = out@;
    let mut p: usize = 0;
    while p < c.id.len()
        invariant
            p <= c.id@.len(),
            out@ == fixed + c.id@.take(p as int),
        decreases c.id@.len() - p,
    {
        out.push(c.id[p]);
        assert(c.id@.take(p + 1) =~= c.id@.take(p as int).push(c.id@[p as int]));
        p = p + 1;
    }
    assert(c.id@.take(p as int) =~= c.id@);
    let ghost with_id = out@;
    let mut j: usize = 0;
    while j < offsets.len()
        invariant
            j <= offsets@.len(),
            out@ == with_id + words_bytes(offsets@.take(j as int)),
        decreases offsets@.len() - j,
    {
        push_u32(out, offsets[j]);
        assert(offsets@.take(j + 1).drop_last() =~= offsets@.take(j as int));
        j = j + 1;
    }
    assert(offsets@.take(j as int) =~= offsets@);
    out.append(&mut body);
    reveal(config_bytes);
    assert(final(out)@ =~= old(out)@ + config_bytes(c@));
}

pub proof fn lemma_words_bytes_len(w: Seq<u32>)
    ensures
        words_bytes(w).len() == 4 * w.len(),
    decreases w.len(),
{
    if w.len() > 0 {
        lemma_words_bytes_len(w.drop_last());
    }
}

pub proof fn lemma_words_bytes_index(w: Seq<u32>, k: int)
    requires
        0 <= k < w.len(),
    ensures
        words_bytes(w).subrange(4 * k, 4 * k + 4) == le32(w[k]),
    decreases w.len(),
{
    let q = w.drop_last();
    lemma_words_bytes_len(q);
    if k == w.len() - 1 {
        assert(words_bytes(w).subrange(4 * k, 4 * k + 4) =~= le32(w[k]));
    } else {
        lemma_words_bytes_index(q, k);
        assert(words_bytes(w).subrange(4 * k, 4 * k + 4) =~= words_bytes(q).subrange(
            4 * k,
            4 * k + 4,
        ));
    }
}

pub proof fn lemma_slot_offsets_len(m: Map<usize, ResourceEntryModel>, n: int)
    requires
        0 <= n,
    ensures
        slot_offsets(m, n).len() == n,
    decreases n,
{
    if n > 0 {
        lemma_slot_offsets_len(m, n - 1);
    }
}

pub proof fn lemma_slot_offsets_index(m: Map<usize, ResourceEntryModel>, n: int, k: int)
    requires
        0 <= k < n,
    ensures
        slot_offsets(m, n).len() == n,
        slot_offsets(m, n)[k] == (if m.contains_key(k as usize) {
            slots_bytes(m, k).len() as u32
        } else {
            NO_ENTRY
        }),
    decreases n,
{
    lemma_slot_offsets_len(m, n - 1);
    lemma_slot_offsets_len(m, n);
    if k < n - 1 {
        lemma_slot_offsets_index(m, n - 1, k);
    }
}

/// Where the offset table and the entries stand in the chunk of `c`.
pub proof fn lemma_config_bytes_parts(c: ConfigModel)
    requires
        config_encodable(c),
    ensures
        config_bytes(c).len() == config_size(c),
        config_bytes(c).subrange(
            CONFIG_FIXED_HEADER + c.id.len(),
            config_entries_start(c),
        ) == words_bytes(slot_offsets(c.resources, c.entry_count as int)),
        config_bytes(c).subrange(config_entries_start(c), config_size(c)) == slots_bytes(
            c.resources,
            c.entry_count as int,
        ),
{
    reveal(config_bytes);
    let offs = slot_offsets(c.resources, c.entry_count as int);
    lemma_slot_offsets_len(c.resources, c.entry_count as int);
    lemma_words_bytes_len(offs);
    let b = config_bytes(c);
    assert(b.subrange(CONFIG_FIXED_HEADER + c.id.len(), config_entries_start(c)) =~= words_bytes(
        offs,
    ));
    assert(b.subrange(config_entries_start(c), config_size(c)) =~= slots_bytes(
        c.resources,
        c.entry_count as int,
    ));
}

/// Position `k` of the chunk of a well-formed configuration reads back as the same slot.
proof fn lemma_config_slot_round_trip(
    c: ConfigModel,
    s: Seq<u8>,
    i: int,
    specs_len: nat,
    pool_len: nat,
    k: int,
)
    requires
        config_wf(c, specs_len, pool_len),
        0 <= i,
        0 <= k < c.entry_count,
        i + config_size(c) <= s.len(),
        s.subrange(i, i + config_size(c)) == config_bytes(c),
        config_hs(s, i) == CONFIG_FIXED_HEADER + c.id.len(),
        config_end(s, i) == i + config_size(c),
        config_start(s, i) == config_entries_start(c),
    ensures
        offset_word(s, i, config_hs(s, i), k) == (if c.resources.contains_key(k as usize) {
            slots_bytes(c.resources, k).len() as u32
        } else {
            NO_ENTRY
        }),
        config_slot_ok(s, i, k, specs_len, pool_len),
        c.resources.contains_key(k as usize) ==> parse_entry(
            s,
            i + config_start(s, i) + offset_word(s, i, config_hs(s, i), k),
            config_end(s, i),
            specs_len,
            pool_len,
        ) == Ok::<(ResourceEntryModel, int), ArscError>(
            (c.resources[k as usize], entry_len(c.resources[k as usize])),
        ),
{
    let m = c.resources;
    let ec = c.entry_count as int;
    let hs = CONFIG_FIXED_HEADER + c.id.len();
    let es = config_entries_start(c);
    let size = config_size(c);
    let offs = slot_offsets(m, ec);
    let slots = slots_bytes(m, ec);
    let b = config_bytes(c);
    lemma_config_bytes_parts(c);
    lemma_slot_offsets_index(m, ec, k);
    lemma_words_bytes_len(offs);
    lemma_words_bytes_index(offs, k);
    assert(s.subrange(i + hs + 4 * k, i + hs + 4 * k + 4) =~= b.subrange(
        hs + 4 * k,
        hs + 4 * k + 4,
    ));
    assert(b.subrange(hs + 4 * k, hs + 4 * k + 4) =~= b.subrange(hs, es).subrange(4 * k, 4 * k + 4));
    lemma_read32_le32(offs[k], s, i + hs + 4 * k);
    if m.contains_key(k as usize) {
        let e = m[k as usize];
        let before = slots_bytes(m, k);
        let upto = slots_bytes(m, k + 1);
        lemma_slots_prefix(m, k + 1, ec);
        lemma_entry_bytes_len(e);
        assert(upto == before + entry_bytes(e));
        let at = i + es + before.len();
        assert(s.subrange(at, at + entry_len(e)) =~= b.subrange(
            es + before.len(),
            es + before.len() + entry_len(e),
        ));
        assert(b.subrange(es + before.len(), es + before.len() + entry_len(e)) =~= b.subrange(
            es,
            size,
        ).subrange(before.len() as int, before.len() + entry_len(e)));
        assert(b.subrange(es, size).subrange(before.len() as int, before.len() + entry_len(e)) =~= slots.subrange(
            before.len() as int,
            before.len() + entry_len(e),
        ));
        assert(slots.subrange(before.len() as int, before.len() + entry_len(e)) =~= upto.subrange(
            before.len() as int,
            upto.len() as int,
        ));
        assert(upto.subrange(before.len() as int, upto.len() as int) =~= entry_bytes(e));
        lemma_entry_round_trip(e, s, at, i + size, specs_len, pool_len);
    }
}

/// Decoding the chunk of a well-formed configuration gives back the same configuration: the
/// same fields, the same count, and exactly the same positions present, with the same entries.
pub proof fn lemma_config_round_trip(
    c: ConfigModel,
    s: Seq<u8>,
    i: int,
    specs_len: nat,
    pool_len: nat,
)
    requires
        config_wf(c, specs_len, pool_len),
        0 <= i,
        i + config_size(c) <= s.len(),
        s.subrange(i, i + config_size(c)) == config_bytes(c),
    ensures
        config_valid(s, i, specs_len, pool_len),
        parse_config(s, i, specs_len, pool_len) == c,
        read32(s, i + 4) == config_size(c),
{
    let m = c.resources;
    let ec = c.entry_count as int;
    let hs = CONFIG_FIXED_HEADER + c.id.len();
    let es = config_entries_start(c);
    let size = config_size(c);
    let offs = slot_offsets(m, ec);
    let slots = slots_bytes(m, ec);
    reveal(config_bytes);
    let b = config_bytes(c);
    let h = Header {
        type_flag: TypeFlag::RES_TABLE_TYPE_TYPE,
        header_size: hs as u16,
        size: size as u64,
    };
    if ec > 0 {
        lemma_slot_offsets_index(m, ec, 0);
    }
    lemma_words_bytes_len(offs);
    assert(offs.len() == ec);
    assert(b.len() == size);
    let sub = s.subrange(i, i + size);
    assert(s.subrange(i, i + 8) =~= b.subrange(0, 8));
    assert(b.subrange(0, 8) =~= header_bytes(h));
    lemma_header_round_trip(h, s, i);
    assert(s.subrange(i + 4, i + 8) =~= b.subrange(4, 8));
    assert(b.subrange(4, 8) =~= le32(size as u32));
    lemma_read32_le32(size as u32, s, i + 4);
    assert(s.subrange(i + 2, i + 4) =~= b.subrange(2, 4));
    assert(b.subrange(2, 4) =~= le16(hs as u16));
    lemma_read16_le16(hs as u16, s, i + 2);
    assert(s[i + 8] == b[8]);
    assert(s[i + 9] == b[9]);
    assert(s.subrange(i + 10, i + 12) =~= b.subrange(10, 12));
    assert(b.subrange(10, 12) =~= le16(c.res1));
    lemma_read16_le16(c.res1, s, i + 10);
    assert(s.subrange(i + 12, i + 16) =~= b.subrange(12, 16));
    assert(b.subrange(12, 16) =~= le32(ec as u32));
    lemma_read32_le32(ec as u32, s, i + 12);
    assert(s.subrange(i + 16, i + 20) =~= b.subrange(16, 20));
    assert(b.subrange(16, 20) =~= le32(es as u32));
    lemma_read32_le32(es as u32, s, i + 16);
    assert(config_header_ok(s, i));
    assert(config_hs(s, i) == hs);
    assert(config_end(s, i) == i + size);
    assert(config_count(s, i) == ec);
    assert(config_start(s, i) == es);
    assert(config_layout_ok(s, i));
    assert(s.subrange(i + CONFIG_FIXED_HEADER, i + hs) =~= b.subrange(
        CONFIG_FIXED_HEADER as int,
        hs,
    ));
    assert(b.subrange(CONFIG_FIXED_HEADER as int, hs) =~= c.id);
    assert forall|k: int| 0 <= k < ec implies config_slot_ok(s, i, k, specs_len, pool_len) by {
        lemma_config_slot_round_trip(c, s, i, specs_len, pool_len, k);
    }
    assert forall|k: usize| #![auto] k < ec && offset_word(s, i, hs, k as int) != NO_ENTRY
        <==> m.contains_key(k) by {
        if k < ec {
            lemma_config_slot_round_trip(c, s, i, specs_len, pool_len, k as int);
        }
    }
    assert forall|k: usize| #[trigger] m.contains_key(k) implies parse_entry(
        s,
        i + es + offset_word(s, i, hs, k as int),
        i + size,
        specs_len,
        pool_len,
    )->Ok_0.0 == m[k] by {
        lemma_config_slot_round_trip(c, s, i, specs_len, pool_len, k as int);
    }
    let p = parse_config(s, i, specs_len, pool_len);
    assert(p.resources =~= m);
}

} // verus!
