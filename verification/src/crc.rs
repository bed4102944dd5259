//! CRC-32 framing of stored records.
//!
//! Encoding appends the CRC-32 of the payload as four little-endian bytes.
//! Decoding checks that trailer; records written before framing existed are
//! read back whole by the tolerant decoder.
use vstd::bytes::{
    lemma_auto_spec_u32_to_from_le_bytes, spec_u32_from_le_bytes, spec_u32_to_le_bytes,
    u32_from_le_bytes, u32_to_le_bytes,
};
use crate::text::{concat, hex_digits, hex_text};
use vstd::prelude::*;
use vstd::slice::{slice_subrange, slice_to_vec};

verus! {

/// The CRC-32 (IEEE) checksum of a byte sequence, as `crc32fast::hash` computes it.
pub uninterp spec fn crc32_of(data: Seq<u8>) -> u32;

/// Calls `crc32fast::hash`. Trusted: the result is the CRC-32 (IEEE) checksum
/// of `data`, so it depends on the bytes alone.
#[verifier::external_body]
fn crc32_hash(data: &[u8]) -> (crc: u32)
    ensures
        crc == crc32_of(data@),
{
    crc32fast::hash(data)
}

/// A checksum mismatch: the trailer read from the record and the checksum of its payload.
#[derive(Debug, Clone, Copy, PartialEq, Eq, Structural)]
pub struct CrcError {
    pub stored: u32,
    pub computed: u32,
}

/// The framed form of `data`: the payload followed by its CRC-32 in little-endian order.
pub open spec fn crc_encoded(data: Seq<u8>) -> Seq<u8> {
    data + spec_u32_to_le_bytes(crc32_of(data))
}

/// The text describing a mismatch:
/// `CRC mismatch: stored=0x{stored:08x} computed=0x{computed:08x}`.
pub open spec fn crc_error_text(e: CrcError) -> Seq<char> {
    "CRC mismatch: stored=0x"@ + hex_digits(e.stored as int, 8) + " computed=0x"@ + hex_digits(
        e.computed as int,
        8,
    )
}

impl CrcError {
    /// Describes the mismatch, both checksums in eight hexadecimal digits.
    pub fn message(&self) -> (s: String)
        ensures
            s@ == crc_error_text(*self),
    {
        let stored = hex_text(self.stored as u64, 8);
        let computed = hex_text(self.computed as u64, 8);
        let a = concat("CRC mismatch: stored=0x", stored.as_str());
        let b = concat(a.as_str(), " computed=0x");
        concat(b.as_str(), computed.as_str())
    }
}

/// The payload part of a framed record (all but the last four bytes).
pub open spec fn payload_of(raw: Seq<u8>) -> Seq<u8> {
    raw.subrange(0, raw.len() - 4)
}

/// The checksum stored in the last four bytes of a framed record.
pub open spec fn stored_crc_of(raw: Seq<u8>) -> u32 {
    spec_u32_from_le_bytes(raw.subrange(raw.len() - 4, raw.len() as int))
}

/// What checked decoding gives for `raw`: the payload when the trailer matches,
/// otherwise the mismatch (all zero when the record is shorter than a trailer).
pub open spec fn crc_decoded(raw: Seq<u8>) -> Result<Seq<u8>, CrcError> {
    if raw.len() < 4 {
        Err(CrcError { stored: 0, computed: 0 })
    } else if stored_crc_of(raw) == crc32_of(payload_of(raw)) {
        Ok(payload_of(raw))
    } else {
        Err(CrcError { stored: stored_crc_of(raw), computed: crc32_of(payload_of(raw)) })
    }
}

/// What tolerant decoding gives: the checked payload, or the whole input when the checksum does not match.
pub open spec fn tolerant_decoded(raw: Seq<u8>) -> Seq<u8> {
    match crc_decoded(raw) {
        Ok(data) => data,
        Err(_) => raw,
    }
}

/// Frames `data` with the checksum `crc`: `[data][crc as 4 little-endian bytes]`.
pub fn frame_with(data: &[u8], crc: u32) -> (out: Vec<u8>)
    ensures
        out@ == data@ + spec_u32_to_le_bytes(crc),
        out@.len() == data@.len() + 4,
{
    let mut out = slice_to_vec(data);
    let mut trailer = u32_to_le_bytes(crc);
    out.append(&mut trailer);
    out
}

/// Appends the CRC-32 trailer: returns `[data][crc32(data) as 4 little-endian bytes]`.
pub fn encode_with_crc(data: &[u8]) -> (out: Vec<u8>)
    ensures
        out@ == crc_encoded(data@),
        out@.len() == data@.len() + 4,
{
    let crc = crc32_hash(data);
    frame_with(data, crc)
}

/// Checks a framed record against `computed`, the checksum of its payload:
/// the payload when the stored trailer equals it, else the mismatch.
pub fn check_frame(raw: &[u8], computed: u32) -> (res: Result<Vec<u8>, CrcError>)
    requires
        raw@.len() >= 4,
    ensures
        match res {
            Ok(v) => stored_crc_of(raw@) == computed && v@ == payload_of(raw@),
            Err(e) => stored_crc_of(raw@) != computed && e == CrcError {
                stored: stored_crc_of(raw@),
                computed,
            },
        },
{
    let n = raw.len();
    let data = slice_subrange(raw, 0, n - 4);
    let tail = slice_subrange(raw, n - 4, n);
    let stored = u32_from_le_bytes(tail);
    if stored == computed {
        Ok(slice_to_vec(data))
    } else {
        Err(CrcError { stored, computed })
    }
}

/// Checks the CRC-32 trailer and returns the payload without it.
/// Fails when the input is shorter than four bytes or the trailer does not match.
pub fn decode_with_crc(raw: &[u8]) -> (res: Result<Vec<u8>, CrcError>)
    ensures
        match res {
            Ok(v) => crc_decoded(raw@) == Ok::<Seq<u8>, CrcError>(v@),
            Err(e) => crc_decoded(raw@) == Err::<Seq<u8>, CrcError>(e),
        },
{
    let n = raw.len();
    if n < 4 {
        return Err(CrcError { stored: 0, computed: 0 });
    }
    let data = slice_subrange(raw, 0, n - 4);
    let computed = crc32_hash(data);
    check_frame(raw, computed)
}

/// Decodes a framed record, and returns the input whole when the checksum does not match
/// (records written before framing carry no trailer).
pub fn decode_tolerant(raw: &[u8]) -> (out: Vec<u8>)
    ensures
        out@ == tolerant_decoded(raw@),
{
    match decode_with_crc(raw) {
        Ok(data) => data,
        Err(_) => slice_to_vec(raw),
    }
}

/// Decoding a framed record gives back exactly the payload that was framed.
pub proof fn lemma_decode_inverts_encode(data: Seq<u8>)
    ensures
        crc_decoded(crc_encoded(data)) == Ok::<Seq<u8>, CrcError>(data),
        tolerant_decoded(crc_encoded(data)) == data,
{
    lemma_auto_spec_u32_to_from_le_bytes();
    let raw = crc_encoded(data);
    let crc = crc32_of(data);
    assert(spec_u32_to_le_bytes(crc).len() == 4);
    assert(payload_of(raw) =~= data);
    assert(raw.subrange(raw.len() - 4, raw.len() as int) =~= spec_u32_to_le_bytes(crc));
}

/// A record whose checksum does not match is returned unchanged by the tolerant decoder,
/// and one that passes yields its payload, four bytes shorter.
pub proof fn lemma_tolerant_is_total(raw: Seq<u8>)
    ensures
        crc_decoded(raw) is Err ==> tolerant_decoded(raw) == raw,
        crc_decoded(raw) is Ok ==> tolerant_decoded(raw) == payload_of(raw)
            && tolerant_decoded(raw).len() + 4 == raw.len(),
{
}

} // verus!
