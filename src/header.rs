//! The eight-byte chunk header: tag, header size and total size.
use vstd::prelude::*;
use crate::bytes::{get_u16, get_u32, le16, le32, push_u16, push_u32, read16, read32, lemma_read16_le16, lemma_read32_le32};
use crate::components::{ArscError, Header, TypeFlag, flag_bits, flag_of};

verus! {

/// The bytes of a header.
pub open spec fn header_bytes(h: Header) -> Seq<u8> {
    le16(flag_bits(h.type_flag)) + le16(h.header_size) + le32(h.size as u32)
}

/// A header that can be written and read back.
pub open spec fn header_wf(h: Header) -> bool {
    h.header_size as u64 <= h.size && h.size <= u32::MAX
}

/// What decoding a header at position `i` of `s` yields.
pub open spec fn parse_header(s: Seq<u8>, i: int) -> Result<Header, ArscError> {
    if i < 0 || i + 8 > s.len() {
        Err(ArscError::MalformedHeader)
    } else {
        match flag_of(read16(s, i)) {
            None => Err(ArscError::MalformedHeader),
            Some(f) => {
                let hs = read16(s, i + 2);
                let sz = read32(s, i + 4);
                if hs as u32 > sz {
                    Err(ArscError::MalformedHeader)
                } else {
                    Ok(Header { type_flag: f, header_size: hs, size: sz as u64 })
                }
            },
        }
    }
}

/// Decodes the header at `pos`: `MalformedHeader` when fewer than eight bytes remain, the tag
/// is unknown, or the header size exceeds the chunk size.
pub fn decode_header(data: &Vec<u8>, pos: usize) -> (r: Result<Header, ArscError>)
    ensures
        r == parse_header(data@, pos as int),
        r matches Ok(h) ==> header_wf(h),
{
    if data.len() < 8 || pos > data.len() - 8 {
        return Err(ArscError::MalformedHeader);
    }
    let bits = get_u16(data, pos);
    match TypeFlag::from_bits(bits) {
        None => Err(ArscError::MalformedHeader),
        Some(f) => {
            let hs = get_u16(data, pos + 2);
            let sz = get_u32(data, pos + 4);
            if hs as u32 > sz {
                Err(ArscError::MalformedHeader)
            } else {
                Ok(Header { type_flag: f, header_size: hs, size: sz as u64 })
            }
        },
    }
}

/// Appends the bytes of `h`.
pub fn encode_header(h: &Header, out: &mut Vec<u8>)
    requires
        h.size <= u32::MAX,
    ensures
        final(out)@ == old(out)@ + header_bytes(*h),
{
    push_u16(out, h.type_flag.bits());
    push_u16(out, h.header_size);
    push_u32(out, h.size as u32);
    assert(final(out)@ =~= old(out)@ + header_bytes(*h));
}

/// A well-formed header reads back as itself from its bytes.
pub proof fn lemma_header_round_trip(h: Header, s: Seq<u8>, i: int)
    requires
        header_wf(h),
        0 <= i,
        i + 8 <= s.len(),
        s.subrange(i, i + 8) == header_bytes(h),
    ensures
        parse_header(s, i) == Ok::<Header, ArscError>(h),
{
    let hb = header_bytes(h);
    assert(s.subrange(i, i + 2) =~= hb.subrange(0, 2));
    assert(hb.subrange(0, 2) =~= le16(flag_bits(h.type_flag)));
    assert(s.subrange(i + 2, i + 4) =~= hb.subrange(2, 4));
    assert(hb.subrange(2, 4) =~= le16(h.header_size));
    assert(s.subrange(i + 4, i + 8) =~= hb.subrange(4, 8));
    assert(hb.subrange(4, 8) =~= le32(h.size as u32));
    lemma_read16_le16(flag_bits(h.type_flag), s, i);
    lemma_read16_le16(h.header_size, s, i + 2);
    lemma_read32_le32(h.size as u32, s, i + 4);
    crate::components::lemma_flag_bits_round_trip(h.type_flag, 0);
}

} // verus!
