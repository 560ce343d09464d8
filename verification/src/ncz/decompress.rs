//! The NCZ decoder: parses the section table, decodes the solid or block
//! Zstandard stream, and re-applies AES-CTR over the recorded section
//! ranges to restore the original NCA bytes.
use vstd::prelude::*;
use vstd::bytes::*;

use crate::crypto::primitives::aes_ctr_transform;
use crate::crypto::primitives::ctr_xor;
use crate::error::container_format_error;
use crate::error::NszError;
use crate::ncz::header::nczb_count;
use crate::ncz::header::nczb_block_size;
use crate::ncz::header::nczb_decompressed_size;
use crate::ncz::header::nczb_header_wf;
use crate::ncz::header::nczblock_magic;
use crate::ncz::header::BlockHeader;
use crate::util::append_slice;
use crate::util::copy_range;

verus! {

/// Bytes of the NCA prefix kept verbatim in an NCZ image.
pub const UNCOMPRESSABLE_HEADER_SIZE: usize = 0x4000;

/// The eight magic bytes `"NCZSECTN"`.
pub open spec fn nczsectn_magic() -> Seq<u8> {
    seq![0x4Eu8, 0x43u8, 0x5Au8, 0x53u8, 0x45u8, 0x43u8, 0x54u8, 0x4Eu8]
}

/// Declared number of sections.
pub open spec fn ncz_section_count(data: Seq<u8>) -> int {
    spec_u64_from_le_bytes(data.subrange(0x4008, 0x4010)) as int
}

/// The section table parses: magic after the NCA prefix and a complete
/// descriptor table.
pub open spec fn ncz_sections_wf(data: Seq<u8>) -> bool {
    &&& data.len() >= 0x4010
    &&& data.subrange(0x4000, 0x4008) == nczsectn_magic()
    &&& 0x4010 + 64 * ncz_section_count(data) <= data.len()
}

/// Where the compressed stream begins: after the descriptor table.
pub open spec fn ncz_stream_offset(data: Seq<u8>) -> int {
    0x4010 + 64 * ncz_section_count(data)
}

/// Offset field of section `i` (its absolute position in the NCA).
pub open spec fn ncz_sec_offset(data: Seq<u8>, i: int) -> u64 {
    spec_u64_from_le_bytes(data.subrange(0x4010 + 64 * i, 0x4010 + 64 * i + 8))
}

/// Size field of section `i`.
pub open spec fn ncz_sec_size(data: Seq<u8>, i: int) -> u64 {
    spec_u64_from_le_bytes(data.subrange(0x4010 + 64 * i + 8, 0x4010 + 64 * i + 16))
}

/// Crypto-type field of section `i`.
pub open spec fn ncz_sec_crypto_type(data: Seq<u8>, i: int) -> u64 {
    spec_u64_from_le_bytes(data.subrange(0x4010 + 64 * i + 16, 0x4010 + 64 * i + 24))
}

/// Key bytes of section `i`.
pub open spec fn ncz_sec_key(data: Seq<u8>, i: int) -> Seq<u8> {
    data.subrange(0x4010 + 64 * i + 32, 0x4010 + 64 * i + 48)
}

/// Counter bytes of section `i`.
pub open spec fn ncz_sec_counter(data: Seq<u8>, i: int) -> Seq<u8> {
    data.subrange(0x4010 + 64 * i + 48, 0x4010 + 64 * i + 64)
}

/// One NCZ section descriptor.
#[derive(Debug, Clone, PartialEq, Eq)]
pub struct NczSection {
    /// Section offset in the decompressed NCA payload.
    pub offset: u64,
    /// Section byte size.
    pub size: u64,
    /// Section crypto mode identifier.
    pub crypto_type: u64,
    /// Section AES key material.
    pub crypto_key: [u8; 16],
    /// Section AES counter bytes.
    pub crypto_counter: [u8; 16],
}

/// `s` holds exactly the fields of descriptor `i` of `data`.
pub open spec fn ncz_section_parses_to(s: NczSection, data: Seq<u8>, i: int) -> bool {
    &&& s.offset == ncz_sec_offset(data, i)
    &&& s.size == ncz_sec_size(data, i)
    &&& s.crypto_type == ncz_sec_crypto_type(data, i)
    &&& s.crypto_key@ == ncz_sec_key(data, i)
    &&& s.crypto_counter@ == ncz_sec_counter(data, i)
}

/// `v` is the parsed descriptor table of `data`.
pub open spec fn ncz_sections_parse_to(v: Seq<NczSection>, data: Seq<u8>) -> bool {
    &&& v.len() == ncz_section_count(data)
    &&& forall|i: int|
        0 <= i < ncz_section_count(data) ==> ncz_section_parses_to(#[trigger] v[i], data, i)
}

/// Sum of the sizes of the first `i` sections.
pub open spec fn ncz_payload_total(data: Seq<u8>, i: int) -> int
    decreases i,
{
    if i <= 0 {
        0
    } else {
        ncz_payload_total(data, i - 1) + ncz_sec_size(data, i - 1)
    }
}

/// Decompressed bytes that precede the first section: the span between
/// the NCA prefix and the first section offset, when positive.
pub open spec fn ncz_leading_gap(data: Seq<u8>) -> int {
    if ncz_section_count(data) == 0 {
        0
    } else if ncz_sec_offset(data, 0) <= 0x4000 {
        0
    } else {
        ncz_sec_offset(data, 0) - 0x4000
    }
}

/// Whether a Zstandard frame decodes at all: a function of its bytes.
pub uninterp spec fn zstd_ok(data: Seq<u8>) -> bool;

/// What a Zstandard frame decodes to: a function of its bytes.
pub uninterp spec fn zstd_decode_of(data: Seq<u8>) -> Seq<u8>;

/// Relies on `zstd::stream::decode_all`: decoding a complete Zstandard
/// stream succeeds or fails, and yields bytes, as a function of the
/// input alone.
#[verifier::external_body]
pub(crate) fn zstd_decode_all(data: &[u8]) -> (r: Option<Vec<u8>>)
    ensures
        r is Some <==> zstd_ok(data@),
        r matches Some(v) ==> v@ == zstd_decode_of(data@),
{
    zstd::stream::decode_all(data).ok()
}

/// Sum of the compressed sizes of the first `i` blocks.
pub open spec fn nczb_csize_prefix(d: Seq<u8>, i: int) -> int
    decreases i,
{
    if i <= 0 {
        0
    } else {
        nczb_csize_prefix(d, i - 1) + nczb_block_size(d, i - 1)
    }
}

/// The concatenated decode of the first `i` blocks of a block stream, or
/// `None` when a block is truncated, fails to decode, or decodes to the
/// wrong length. A block whose recorded size equals the expected block
/// length is stored raw; every other block is a Zstandard frame.
pub open spec fn nczb_decode_upto(d: Seq<u8>, bs: int, i: int) -> Option<Seq<u8>>
    decreases i,
{
    if i <= 0 {
        Some(Seq::<u8>::empty())
    } else {
        match nczb_decode_upto(d, bs, i - 1) {
            None => None,
            Some(acc) => {
                let cs = nczb_block_size(d, i - 1) as int;
                let start = 24 + 4 * nczb_count(d) + nczb_csize_prefix(d, i - 1);
                if start + cs > d.len() {
                    None
                } else {
                    let frame = d.subrange(start, start + cs);
                    let rem = if nczb_decompressed_size(d) >= acc.len() {
                        nczb_decompressed_size(d) - acc.len()
                    } else {
                        0
                    };
                    let expected = if rem < bs {
                        rem
                    } else {
                        bs
                    };
                    if cs == expected {
                        Some(acc + frame)
                    } else if zstd_ok(frame) && zstd_decode_of(frame).len() == expected {
                        Some(acc + zstd_decode_of(frame))
                    } else {
                        None
                    }
                }
            },
        }
    }
}

/// The decode of a whole `NCZBLOCK` stream: header well-formed, exponent
/// in 14..=32, every block decoded, and the total length as declared.
pub open spec fn nczb_decode(d: Seq<u8>) -> Option<Seq<u8>> {
    if !nczb_header_wf(d) {
        None
    } else if !(14 <= d[11] && d[11] <= 32) {
        None
    } else {
        let bs = (1u64 << (d[11] as u64)) as int;
        match nczb_decode_upto(d, bs, nczb_count(d)) {
            None => None,
            Some(out) => if out.len() == nczb_decompressed_size(d) {
                Some(out)
            } else {
                None
            },
        }
    }
}

/// Whether the stream region starts with the `NCZBLOCK` magic.
pub open spec fn ncz_uses_block_stream(data: Seq<u8>) -> bool {
    let so = ncz_stream_offset(data);
    data.len() >= so + 8 && data.subrange(so, so + 8) == nczblock_magic()
}

/// The decoded payload stream of an NCZ image: a block stream when its
/// magic is present, else one solid Zstandard frame.
pub open spec fn ncz_stream_decode(data: Seq<u8>) -> Option<Seq<u8>> {
    let so = ncz_stream_offset(data);
    let tail = data.subrange(so, data.len() as int);
    if ncz_uses_block_stream(data) {
        nczb_decode(tail)
    } else if zstd_ok(tail) {
        Some(zstd_decode_of(tail))
    } else {
        None
    }
}

/// The output bytes contributed by section `i`: its slice of the decoded
/// stream, AES-CTR re-encrypted for crypto types 3 and 4 with the stream
/// position seeked to the section's absolute NCA offset, and passed
/// through verbatim for every other type.
pub open spec fn ncz_section_out(data: Seq<u8>, stream: Seq<u8>, i: int) -> Seq<u8> {
    let start = ncz_leading_gap(data) + ncz_payload_total(data, i);
    let sl = stream.subrange(start, start + ncz_sec_size(data, i));
    if ncz_sec_crypto_type(data, i) == 3 || ncz_sec_crypto_type(data, i) == 4 {
        ctr_xor(ncz_sec_key(data, i), ncz_sec_counter(data, i), ncz_sec_offset(data, i) as int, sl)
    } else {
        sl
    }
}

/// The outputs of the first `i` sections, concatenated.
pub open spec fn ncz_sections_out(data: Seq<u8>, stream: Seq<u8>, i: int) -> Seq<u8>
    decreases i,
{
    if i <= 0 {
        Seq::<u8>::empty()
    } else {
        ncz_sections_out(data, stream, i - 1) + ncz_section_out(data, stream, i - 1)
    }
}

/// The rebuilt NCA: the verbatim prefix, the leading gap, then each
/// section's bytes.
pub open spec fn ncz_rebuild(data: Seq<u8>, stream: Seq<u8>) -> Seq<u8> {
    data.subrange(0, 0x4000) + stream.subrange(0, ncz_leading_gap(data)) + ncz_sections_out(
        data,
        stream,
        ncz_section_count(data),
    )
}

/// Exactly when decompression succeeds: the table parses, the stream
/// decodes, the sizes fit the machine, and the stream covers the gap and
/// every declared section.
pub open spec fn ncz_decompress_ok(data: Seq<u8>) -> bool {
    &&& ncz_sections_wf(data)
    &&& (ncz_uses_block_stream(data) ==> nczb_decompressed_size(
        data.subrange(ncz_stream_offset(data), data.len() as int),
    ) <= usize::MAX)
    &&& ncz_stream_decode(data) is Some
    &&& ncz_payload_total(data, ncz_section_count(data)) <= u64::MAX
    &&& 0x4000 + ncz_payload_total(data, ncz_section_count(data)) + ncz_leading_gap(data)
        <= usize::MAX
    &&& ncz_stream_decode(data).unwrap().len() >= ncz_leading_gap(data) + ncz_payload_total(
        data,
        ncz_section_count(data),
    )
}

/// Section size sums are non-negative and only grow.
pub proof fn lemma_ncz_payload_total_mono(data: Seq<u8>, i: int, j: int)
    requires
        0 <= i <= j,
    ensures
        0 <= ncz_payload_total(data, 0) <= ncz_payload_total(data, i) <= ncz_payload_total(
            data,
            j,
        ),
    decreases j,
{
    if i < j {
        lemma_ncz_payload_total_mono(data, i, j - 1);
    } else if j > 0 {
        lemma_ncz_payload_total_mono(data, i - 1, j - 1);
    }
}

/// Once a block fails to decode, every longer prefix fails too.
proof fn lemma_nczb_upto_none_mono(d: Seq<u8>, bs: int, i: int, j: int)
    requires
        0 <= i <= j,
        nczb_decode_upto(d, bs, i) is None,
    ensures
        nczb_decode_upto(d, bs, j) is None,
    decreases j,
{
    if j > i {
        lemma_nczb_upto_none_mono(d, bs, i, j - 1);
    }
}

/// Parses the descriptor table and returns it with the stream offset.
fn parse_sections_with_end(data: &[u8]) -> (r: Result<(Vec<NczSection>, usize), NszError>)
    ensures
        r is Ok <==> ncz_sections_wf(data@),
        r matches Ok((v, so)) ==> ncz_sections_parse_to(v@, data@) && so as int
            == ncz_stream_offset(data@) && so <= data@.len(),
{
    let n = data.len();
    if n < 0x4010 {
        return Err(container_format_error("NCZ data too short for section header"));
    }
    if !(data[0x4000] == 0x4E && data[0x4001] == 0x43 && data[0x4002] == 0x5A && data[0x4003]
        == 0x53 && data[0x4004] == 0x45 && data[0x4005] == 0x43 && data[0x4006] == 0x54
        && data[0x4007] == 0x4E) {
        proof {
            assert(data@.subrange(0x4000, 0x4008) =~= seq![
                data@[0x4000],
                data@[0x4001],
                data@[0x4002],
                data@[0x4003],
                data@[0x4004],
                data@[0x4005],
                data@[0x4006],
                data@[0x4007],
            ]);
        }
        return Err(container_format_error("NCZ section magic mismatch"));
    }
    proof {
        assert(data@.subrange(0x4000, 0x4008) =~= nczsectn_magic());
    }

    let section_count_u64 = crate::util::read_u64_le(data, 0x4008);
    proof {
        assert(ncz_section_count(data@) == section_count_u64 as int);
    }
    let needed: u128 = 0x4010u128 + 64u128 * (section_count_u64 as u128);
    if needed > n as u128 {
        return Err(container_format_error("NCZ section data truncated"));
    }
    let section_count = section_count_u64 as usize;
    let so = 0x4010 + 64 * section_count;

    let mut sections: Vec<NczSection> = Vec::new();
    let mut i: usize = 0;
    while i < section_count
        invariant
            n == data@.len(),
            0x4010 + 64 * section_count <= n,
            section_count == ncz_section_count(data@),
            i <= section_count,
            sections@.len() == i,
            forall|j: int|
                0 <= j < i ==> ncz_section_parses_to(#[trigger] sections@[j], data@, j),
        decreases section_count - i,
    {
        let cursor = 0x4010 + 64 * i;
        let offset = crate::util::read_u64_le(data, cursor);
        let size = crate::util::read_u64_le(data, cursor + 8);
        let crypto_type = crate::util::read_u64_le(data, cursor + 16);
        let key_slice = vstd::slice::slice_subrange(data, cursor + 32, cursor + 48);
        let counter_slice = vstd::slice::slice_subrange(data, cursor + 48, cursor + 64);
        let crypto_key: [u8; 16] = crate::util::bytes_to_array(key_slice);
        let crypto_counter: [u8; 16] = crate::util::bytes_to_array(counter_slice);
        sections.push(NczSection { offset, size, crypto_type, crypto_key, crypto_counter });
        i = i + 1;
    }
    Ok((sections, so))
}

/// Parses the NCZ section table without decoding payload bytes.
pub fn parse_sections(data: &[u8]) -> (r: Result<Vec<NczSection>, NszError>)
    ensures
        r is Ok <==> ncz_sections_wf(data@),
        r matches Ok(v) ==> ncz_sections_parse_to(v@, data@),
{
    match parse_sections_with_end(data) {
        Ok((sections, _)) => Ok(sections),
        Err(e) => Err(e),
    }
}

/// Returns the decompressed NCA size encoded by an NCZ payload: the NCA
/// prefix plus the sum of all section sizes.
pub fn decompressed_nca_size_from_bytes(data: &[u8]) -> (r: Result<u64, NszError>)
    ensures
        r is Ok <==> ncz_sections_wf(data@) && 0x4000 + ncz_payload_total(
            data@,
            ncz_section_count(data@),
        ) <= u64::MAX,
        r matches Ok(size) ==> size as int == 0x4000 + ncz_payload_total(
            data@,
            ncz_section_count(data@),
        ),
{
    let (sections, _so) = match parse_sections_with_end(data) {
        Ok(pair) => pair,
        Err(e) => {
            return Err(e);
        },
    };
    let count = sections.len();
    let mut total: u64 = 0;
    let mut i: usize = 0;
    while i < count
        invariant
            count == sections@.len(),
            ncz_sections_parse_to(sections@, data@),
            i <= count,
            total as int == ncz_payload_total(data@, i as int),
        decreases count - i,
    {
        let size = sections[i].size;
        if size > u64::MAX - total {
            proof {
                lemma_ncz_payload_total_mono(data@, i as int + 1, count as int);
            }
            return Err(container_format_error("NCZ section payload size overflow"));
        }
        total = total + size;
        i = i + 1;
    }
    if total > u64::MAX - 0x4000 {
        return Err(container_format_error("NCZ decompressed size overflow"));
    }
    Ok(0x4000 + total)
}

/// Decodes an `NCZBLOCK` stream: walks the size table, passing raw
/// blocks through and Zstandard-decoding the rest, each checked against
/// the expected block length.
fn decode_ncz_block_stream(d: &[u8]) -> (r: Result<Vec<u8>, NszError>)
    ensures
        r is Ok <==> nczb_decode(d@) is Some && nczb_decompressed_size(d@) <= usize::MAX,
        r matches Ok(v) ==> Some(v@) == nczb_decode(d@),
{
    let header = match BlockHeader::from_bytes(d) {
        Ok(h) => h,
        Err(e) => {
            return Err(e);
        },
    };
    let exp = header.block_size_exponent;
    if exp < 14 || exp > 32 {
        return Err(container_format_error("NCZBLOCK block size exponent out of range"));
    }
    let bs: u64 = 1u64 << (exp as u64);
    let count = header.compressed_block_sizes.len();
    let n = d.len();
    proof {
        assert(24 + 4 * (count as int) <= n);
    }
    let header_size = 24 + 4 * count;
    let dec_size = header.decompressed_size;
    if dec_size > usize::MAX as u64 {
        return Err(container_format_error("NCZBLOCK decompressed size exceeds platform limits"));
    }

    let mut out: Vec<u8> = Vec::new();
    let mut cursor: u64 = header_size as u64;
    let mut i: usize = 0;
    while i < count
        invariant
            n == d@.len(),
            nczb_header_wf(d@),
            count == nczb_count(d@),
            header_size == 24 + 4 * count,
            14 <= d@[11] <= 32,
            bs == 1u64 << (d@[11] as u64),
            dec_size == nczb_decompressed_size(d@),
            dec_size <= usize::MAX,
            header.compressed_block_sizes@.len() == count,
            forall|j: int|
                0 <= j < count ==> #[trigger] header.compressed_block_sizes@[j]
                    == nczb_block_size(d@, j),
            i <= count,
            cursor as int == header_size + nczb_csize_prefix(d@, i as int),
            cursor <= n,
            nczb_decode_upto(d@, bs as int, i as int) == Some(out@),
            out@.len() <= dec_size,
        decreases count - i,
    {
        let cs_u32 = header.compressed_block_sizes[i];
        let cs = cs_u32 as u64;
        if cs > n as u64 - cursor {
            proof {
                assert(nczb_decode_upto(d@, bs as int, i as int + 1) is None);
                lemma_nczb_upto_none_mono(d@, bs as int, i as int + 1, count as int);
            }
            return Err(container_format_error("NCZBLOCK stream truncated"));
        }
        let rem = dec_size - out.len() as u64;
        let expected = if rem < bs {
            rem
        } else {
            bs
        };
        let frame = copy_range(d, cursor as usize, (cursor + cs) as usize);
        if cs == expected {
            append_slice(&mut out, frame.as_slice());
        } else {
            let decoded = match zstd_decode_all(frame.as_slice()) {
                Some(v) => v,
                None => {
                    proof {
                        assert(nczb_decode_upto(d@, bs as int, i as int + 1) is None);
                        lemma_nczb_upto_none_mono(d@, bs as int, i as int + 1, count as int);
                    }
                    return Err(container_format_error("NCZBLOCK block decode failed"));
                },
            };
            if decoded.len() as u64 != expected {
                proof {
                    assert(nczb_decode_upto(d@, bs as int, i as int + 1) is None);
                    lemma_nczb_upto_none_mono(d@, bs as int, i as int + 1, count as int);
                }
                return Err(container_format_error("NCZBLOCK decoded block size mismatch"));
            }
            append_slice(&mut out, decoded.as_slice());
        }
        cursor = cursor + cs;
        i = i + 1;
        proof {
            assert(nczb_decode_upto(d@, bs as int, i as int) == Some(out@));
        }
    }

    if out.len() as u64 != dec_size {
        return Err(container_format_error("NCZBLOCK decompressed size mismatch"));
    }
    Ok(out)
}

/// Decompresses an NCZ image back into raw NCA bytes.
///
/// Succeeds exactly when `ncz_decompress_ok` holds, and then the output
/// is `ncz_rebuild` of the decoded stream: the verbatim 0x4000-byte
/// prefix, the leading gap, and each section re-encrypted as recorded.
pub fn decompress_ncz_to_vec(data: &[u8]) -> (r: Result<Vec<u8>, NszError>)
    ensures
        r is Ok <==> ncz_decompress_ok(data@),
        r matches Ok(out) ==> out@ == ncz_rebuild(data@, ncz_stream_decode(data@).unwrap()),
{
    let n = data.len();
    let (sections, stream_offset) = match parse_sections_with_end(data) {
        Ok(pair) => pair,
        Err(e) => {
            return Err(e);
        },
    };

    let is_block = n >= 8 && stream_offset <= n - 8 && data[stream_offset] == 0x4E
        && data[stream_offset + 1] == 0x43 && data[stream_offset + 2] == 0x5A
        && data[stream_offset + 3] == 0x42 && data[stream_offset + 4] == 0x4C
        && data[stream_offset + 5] == 0x4F && data[stream_offset + 6] == 0x43
        && data[stream_offset + 7] == 0x4B;
    let tail = vstd::slice::slice_subrange(data, stream_offset, n);
    proof {
        let so = ncz_stream_offset(data@);
        if data@.len() >= so + 8 {
            assert(data@.subrange(so, so + 8) =~= seq![
                data@[so],
                data@[so + 1],
                data@[so + 2],
                data@[so + 3],
                data@[so + 4],
                data@[so + 5],
                data@[so + 6],
                data@[so + 7],
            ]);
        }
        assert(is_block == ncz_uses_block_stream(data@));
    }

    let decompressed: Vec<u8> = if is_block {
        match decode_ncz_block_stream(tail) {
            Ok(v) => v,
            Err(e) => {
                return Err(e);
            },
        }
    } else {
        match zstd_decode_all(tail) {
            Some(v) => v,
            None => {
                return Err(container_format_error("NCZ stream decode failed"));
            },
        }
    };
    let dlen = decompressed.len();
    let ghost stream = ncz_stream_decode(data@).unwrap();
    proof {
        assert(ncz_stream_decode(data@) == Some(decompressed@));
        assert(stream == decompressed@);
        assert(stream.len() == dlen);
    }

    let count = sections.len();
    let mut total: u64 = 0;
    let mut i: usize = 0;
    while i < count
        invariant
            count == sections@.len(),
            ncz_sections_parse_to(sections@, data@),
            i <= count,
            total as int == ncz_payload_total(data@, i as int),
        decreases count - i,
    {
        let size = sections[i].size;
        if size > u64::MAX - total {
            proof {
                lemma_ncz_payload_total_mono(data@, i as int + 1, count as int);
            }
            return Err(container_format_error("NCZ section payload size overflow"));
        }
        total = total + size;
        i = i + 1;
    }

    let leading_gap: u64 = if count == 0 {
        0
    } else {
        let first_offset = sections[0].offset;
        if first_offset <= 0x4000 {
            0
        } else {
            first_offset - 0x4000
        }
    };
    proof {
        assert(leading_gap as int == ncz_leading_gap(data@));
    }

    let capacity_wide: u128 = 0x4000u128 + (total as u128) + (leading_gap as u128);
    if capacity_wide > usize::MAX as u128 {
        return Err(
            container_format_error("NCZ decompressed output size exceeds platform limits"),
        );
    }

    if (dlen as u64) < leading_gap {
        proof {
            lemma_ncz_payload_total_mono(data@, 0, count as int);
        }
        return Err(container_format_error("NCZ stream shorter than leading gap"));
    }

    let mut out: Vec<u8> = copy_range(data, 0, UNCOMPRESSABLE_HEADER_SIZE);
    let gap_usize = leading_gap as usize;
    if gap_usize > 0 {
        let gap_bytes = copy_range(decompressed.as_slice(), 0, gap_usize);
        append_slice(&mut out, gap_bytes.as_slice());
    }
    proof {
        assert(out@ =~= data@.subrange(0, 0x4000) + stream.subrange(0, ncz_leading_gap(data@)));
    }

    let mut read_cursor: usize = gap_usize;
    i = 0;
    while i < count
        invariant
            n == data@.len(),
            dlen == decompressed@.len(),
            stream == decompressed@,
            ncz_stream_decode(data@) == Some(stream),
            ncz_sections_wf(data@),
            count == sections@.len(),
            ncz_sections_parse_to(sections@, data@),
            i <= count,
            total as int == ncz_payload_total(data@, count as int),
            leading_gap as int == ncz_leading_gap(data@),
            0x4000 + total + leading_gap <= usize::MAX,
            leading_gap <= dlen,
            read_cursor as int == leading_gap + ncz_payload_total(data@, i as int),
            read_cursor <= dlen,
            out@ == data@.subrange(0, 0x4000) + stream.subrange(0, ncz_leading_gap(data@))
                + ncz_sections_out(data@, stream, i as int),
            out@.len() == 0x4000 + leading_gap + ncz_payload_total(data@, i as int),
        decreases count - i,
    {
        proof {
            lemma_ncz_payload_total_mono(data@, i as int, count as int);
            lemma_ncz_payload_total_mono(data@, i as int + 1, count as int);
            assert(ncz_section_parses_to(sections@[i as int], data@, i as int));
        }
        let size = sections[i].size;
        proof {
            assert(size == ncz_sec_size(data@, i as int));
            assert(size as int <= ncz_payload_total(data@, count as int));
        }
        let size_usize = size as usize;
        if size_usize > dlen - read_cursor {
            proof {
                assert(count as int == ncz_section_count(data@));
                assert(stream.len() < ncz_leading_gap(data@) + ncz_payload_total(
                    data@,
                    count as int,
                ));
                assert(ncz_stream_decode(data@) == Some(stream));
                assert(!ncz_decompress_ok(data@));
            }
            return Err(container_format_error("NCZ stream shorter than declared sections"));
        }
        let end = read_cursor + size_usize;
        let mut chunk = copy_range(decompressed.as_slice(), read_cursor, end);
        let ctype = sections[i].crypto_type;
        if ctype == 3 || ctype == 4 {
            let key = vstd::array::array_as_slice(&sections[i].crypto_key);
            let counter = vstd::array::array_as_slice(&sections[i].crypto_counter);
            aes_ctr_transform(&mut chunk, key, counter, sections[i].offset);
        }
        append_slice(&mut out, chunk.as_slice());
        read_cursor = end;
        i = i + 1;
        proof {
            assert(chunk@ =~= ncz_section_out(data@, stream, i - 1));
            assert(out@ =~= data@.subrange(0, 0x4000) + stream.subrange(
                0,
                ncz_leading_gap(data@),
            ) + ncz_sections_out(data@, stream, i as int));
        }
    }
    proof {
        assert(out@ =~= ncz_rebuild(data@, stream));
    }
    Ok(out)
}

} // verus!
