//! Container compression: each eligible `.nca` entry is transcoded to
//! an `.ncz` payload, everything else passes through byte for byte, and
//! the container is re-encoded with its original layout constants.
use vstd::prelude::*;
use vstd::string::StringSliceAdditionalSpecFns;
use vstd::utf8::decode_utf8_encode_utf8;
use vstd::utf8::encode_utf8;

use crate::config::CompressRequest;
use crate::container::hfs0::hfs0_wf;
use crate::container::hfs0::Hfs0Archive;
use crate::container::nca::analyze_for_compression;
use crate::container::nca::build_compression_plan;
use crate::container::nca::nca_header_parses_to;
use crate::container::nca::nca_header_wf;
use crate::container::nca::nca_plain_header;
use crate::container::nca::nca_sections_packed;
use crate::container::nca::parse_ticket_record;
use crate::container::nca::ticket_parses_to;
use crate::container::nca::ticket_wf;
use crate::container::nca::NcaHeaderInfo;
use crate::container::nca::NcaKeySet;
use crate::container::nca::TicketRecord;
use crate::container::nsp::encode_pfs0;
use crate::container::nsp::pfs0_count;
use crate::container::nsp::pfs0_ffo_data;
use crate::container::nsp::pfs0_entry_size;
use crate::container::nsp::pfs0_name_bytes;
use crate::container::nsp::pfs0_sts;
use crate::container::nsp::pfs0_wf;
use crate::container::nsp::NspArchive;
use crate::container::payload::EntryData;
use crate::container::xci::encode_xci_like;
use crate::container::xci::xci_wf;
use crate::container::xci::XciArchive;
use crate::error::container_format_error;
use crate::error::NszError;
use crate::fs_ops::path_tools::ends_with_ci;
use crate::fs_ops::path_tools::ends_with_ci_exec;
use crate::fs_ops::path_tools::has_extension_ci;
use crate::fs_ops::path_tools::has_extension_ci_exec;
use crate::ncz::compress::compress_nca_to_ncz_block_vec_with_plan;
use crate::ncz::compress::compress_nca_to_ncz_vec_with_plan;
use crate::ncz::decompress::ncz_decompress_ok;
use crate::ncz::decompress::ncz_rebuild;
use crate::ncz::decompress::ncz_stream_decode;
use crate::ncz::decompress::nczsectn_magic;
use crate::ops::decompress::change_name_ext_ncz;
use crate::ops::decompress::nca_ext_bytes;
use crate::ops::decompress::ncz_ext_bytes;
use crate::ops::decompress::pfs0_entry_payload;

verus! {

/// The worker-thread count solid encoding uses: the request's positive
/// value, or the default of three.
pub fn effective_solid_threads(request_threads: i32) -> (r: i32)
    ensures
        r == (if request_threads > 0 {
            request_threads
        } else {
            3
        }),
{
    if request_threads > 0 {
        request_threads
    } else {
        3
    }
}

/// Pads a rewritten XCI partition with zeros to the next 0x200 boundary;
/// an already aligned partition gains a full 0x200 of padding.
pub fn align_xci_partition_size(bytes: Vec<u8>) -> (r: Result<Vec<u8>, NszError>)
    ensures
        r matches Ok(out) ==> {
            let pad = 0x200 - (bytes@.len() % 0x200);
            out@ == bytes@ + crate::container::nsp::zero_bytes(pad as int)
        },
{
    let n = bytes.len();
    let pad = 0x200 - (n % 0x200);
    if pad > usize::MAX - n {
        return Err(container_format_error("XCI partition exceeds platform limits"));
    }
    let mut out = bytes;
    crate::util::append_zeros(&mut out, pad);
    Ok(out)
}

/// The bytes `"tik"`.
pub open spec fn tik_ext_bytes() -> Seq<u8> {
    seq![0x74u8, 0x69u8, 0x6Bu8]
}

/// Every `.tik` entry whose payload parses contributes a ticket.
pub open spec fn tickets_complete(tickets: Seq<TicketRecord>, data: Seq<u8>) -> bool {
    forall|j: int|
        0 <= j < pfs0_count(data) && has_extension_ci(
            #[trigger] pfs0_name_bytes(data, j),
            tik_ext_bytes(),
        ) && ticket_wf(pfs0_entry_payload(data, j)) ==> exists|i: int|
            0 <= i < tickets.len() && ticket_parses_to(
                #[trigger] tickets[i],
                pfs0_entry_payload(data, j),
            )
}

/// Every ticket collected parses out of some `.tik` entry's payload.
pub open spec fn tickets_from_container(tickets: Seq<TicketRecord>, data: Seq<u8>) -> bool {
    forall|i: int|
        0 <= i < tickets.len() ==> exists|j: int|
            0 <= j < pfs0_count(data) && ticket_wf(pfs0_entry_payload(data, j))
                && ticket_parses_to(#[trigger] tickets[i], pfs0_entry_payload(data, j))
}

/// Collects the tickets of every `.tik` entry of an NSP; entries that do
/// not parse are skipped.
fn collect_nsp_tickets(archive: &NspArchive, data: &[u8]) -> (r: Vec<TicketRecord>)
    requires
        pfs0_wf(data@),
        crate::container::nsp::pfs0_parses_to(*archive, data@),
    ensures
        tickets_from_container(r@, data@),
        tickets_complete(r@, data@),
{
    let entries = archive.entries();
    let count = entries.len();
    let tik_ext: [u8; 3] = [0x74, 0x69, 0x6B];
    let mut out: Vec<TicketRecord> = Vec::new();
    let mut i: usize = 0;
    while i < count
        invariant
            pfs0_wf(data@),
            crate::container::nsp::pfs0_parses_to(*archive, data@),
            entries@ == archive.spec_entries(),
            count == entries@.len(),
            count == pfs0_count(data@),
            tik_ext@ =~= tik_ext_bytes(),
            i <= count,
            tickets_from_container(out@, data@),
            forall|j: int|
                0 <= j < i && has_extension_ci(
                    #[trigger] pfs0_name_bytes(data@, j),
                    tik_ext_bytes(),
                ) && ticket_wf(pfs0_entry_payload(data@, j)) ==> exists|i2: int|
                    0 <= i2 < out@.len() && ticket_parses_to(
                        #[trigger] out@[i2],
                        pfs0_entry_payload(data@, j),
                    ),
        decreases count - i,
    {
        let entry = &entries[i];
        let ghost out_at_entry = out@;
        let ghost nb = pfs0_name_bytes(data@, i as int);
        proof {
            assert(crate::container::nsp::pfs0_entry_parses_to(
                archive.spec_entries()[i as int],
                data@,
                i as int,
            ));
            assert(crate::container::nsp::pfs0_entry_wf(data@, i as int));
            vstd::utf8::decode_utf8_encode_utf8(nb);
            assert(encode_utf8(entry.name@) == nb);
        }
        let name_bytes = entry.name.as_str().as_bytes();
        if has_extension_ci_exec(name_bytes, vstd::array::array_as_slice(&tik_ext)) {
            let bytes = archive.entry_bytes(data, entry);
            match parse_ticket_record(bytes) {
                Ok(t) => {
                    out.push(t);
                    proof {
                        assert(ticket_wf(pfs0_entry_payload(data@, i as int)));
                        assert(ticket_parses_to(
                            out@.last(),
                            pfs0_entry_payload(data@, i as int),
                        ));
                        assert(tickets_from_container(out@, data@));
                    }
                },
                Err(_) => {
                    proof {
                        assert(!ticket_wf(pfs0_entry_payload(data@, i as int)));
                    }
                },
            }
        }
        i = i + 1;
        proof {
            assert forall|j: int|
                0 <= j < i && has_extension_ci(
                    #[trigger] pfs0_name_bytes(data@, j),
                    tik_ext_bytes(),
                ) && ticket_wf(pfs0_entry_payload(data@, j)) implies exists|i2: int|
                0 <= i2 < out@.len() && ticket_parses_to(
                    #[trigger] out@[i2],
                    pfs0_entry_payload(data@, j),
                ) by {
                if j < i - 1 {
                    let i2 = choose|i2: int|
                        0 <= i2 < out_at_entry.len() && ticket_parses_to(
                            out_at_entry[i2],
                            pfs0_entry_payload(data@, j),
                        );
                    assert(out@[i2] == out_at_entry[i2]);
                } else {
                    assert(ticket_parses_to(
                        out@[out@.len() - 1],
                        pfs0_entry_payload(data@, j),
                    ));
                }
            }
        }
    }
    out
}

/// The basic shape that makes an entry a transcoding candidate: an
/// `.nca` extension, not `.cnmt.nca`, and a payload past the prefix.
pub open spec fn convertible_shape(name: Seq<u8>, payload_len: int) -> bool {
    &&& has_extension_ci(name, nca_ext_bytes())
    &&& !ends_with_ci(
        name,
        seq![0x2Eu8, 0x63u8, 0x6Eu8, 0x6Du8, 0x74u8, 0x2Eu8, 0x6Eu8, 0x63u8, 0x61u8],
    )
    &&& payload_len > 0x4000
}

/// Decides whether an entry is transcoded: it must have the convertible
/// shape, and then either header analysis under the key finds it
/// compressible, or, when that is unavailable, it is the single largest
/// convertible entry of the partition.
pub fn should_convert_nca_entry(
    name: &str,
    bytes: &[u8],
    size: u64,
    fallback_largest_size: Option<u64>,
    header_key: Option<&[u8; 32]>,
) -> (r: bool)
    ensures
        !convertible_shape(name.spec_bytes(), bytes@.len() as int) ==> !r,
        (convertible_shape(name.spec_bytes(), bytes@.len() as int) && header_key is None) ==> r
            == (fallback_largest_size == Some(size)),
        header_key matches Some(k) ==> ((convertible_shape(
            name.spec_bytes(),
            bytes@.len() as int,
        ) && !nca_header_wf(bytes@, k@)) ==> r == (fallback_largest_size == Some(size))),
        header_key matches Some(k) ==> ((r && convertible_shape(
            name.spec_bytes(),
            bytes@.len() as int,
        ) && nca_header_wf(bytes@, k@)) ==> ((exists|h: NcaHeaderInfo|
            nca_header_parses_to(h, nca_plain_header(bytes@, k@)) && (h.content_type == 0x00
                || h.content_type == 0x05) && nca_sections_packed(h.sections@, h.size))
            || fallback_largest_size == Some(size))),
        header_key matches Some(k) ==> ((convertible_shape(
            name.spec_bytes(),
            bytes@.len() as int,
        ) && nca_header_wf(bytes@, k@) && (forall|h: NcaHeaderInfo|
            nca_header_parses_to(h, nca_plain_header(bytes@, k@)) ==> ((h.content_type == 0x00
                || h.content_type == 0x05) && nca_sections_packed(h.sections@, h.size)))) ==> r),
{
    let name_bytes = name.as_bytes();
    let nca_ext: [u8; 3] = [0x6E, 0x63, 0x61];
    let cnmt_suffix: [u8; 9] = [0x2E, 0x63, 0x6E, 0x6D, 0x74, 0x2E, 0x6E, 0x63, 0x61];
    if !has_extension_ci_exec(name_bytes, vstd::array::array_as_slice(&nca_ext)) {
        return false;
    }
    if ends_with_ci_exec(name_bytes, vstd::array::array_as_slice(&cnmt_suffix)) {
        return false;
    }
    if bytes.len() <= 0x4000 {
        return false;
    }
    match header_key {
        Some(key) => {
            match analyze_for_compression(bytes, key) {
                Ok(meta) => meta.is_compressible(),
                Err(_) => fallback_largest_size == Some(size),
            }
        },
        None => fallback_largest_size == Some(size),
    }
}

/// One output entry of a compressed container: either the input entry
/// unchanged, or its name turned `.ncz` with an NCZ payload that keeps
/// the NCA prefix verbatim and decompresses back to the source entry.
pub open spec fn nsp_transcode_entry_ok(
    data: Seq<u8>,
    i: int,
    name: Seq<u8>,
    payload: Seq<u8>,
) -> bool {
    let nb = pfs0_name_bytes(data, i);
    let src = pfs0_entry_payload(data, i);
    ||| (name == nb && payload == src)
    ||| (name == crate::fs_ops::path_tools::spec_change_extension(nb, ncz_ext_bytes())
        && convertible_shape(nb, src.len() as int) && payload.len() >= 0x4010 && src.len()
        >= 0x4000 && payload.subrange(0, 0x4000) == src.subrange(0, 0x4000) && payload.subrange(
        0x4000,
        0x4008,
    ) == nczsectn_magic() && ncz_decompress_ok(payload) && ncz_rebuild(
        payload,
        ncz_stream_decode(payload).unwrap(),
    ) == src)
}

/// No entry of the container has the convertible shape: nothing is
/// transcoded, so compression owes success whenever the source
/// re-encodes.
pub open spec fn nsp_no_convertible(data: Seq<u8>) -> bool {
    forall|i: int|
        0 <= i < pfs0_count(data) ==> !convertible_shape(
            pfs0_name_bytes(data, i),
            pfs0_entry_size(data, i) as int,
        )
}

/// The container re-encodes unchanged with its own layout constants.
pub open spec fn nsp_identity_encode_ok(data: Seq<u8>) -> bool {
    crate::container::nsp::pfs0_encode_ok(
        Seq::new(pfs0_count(data) as nat, |i: int| pfs0_name_bytes(data, i)),
        Seq::new(pfs0_count(data) as nat, |i: int| pfs0_entry_payload(data, i)),
        pfs0_ffo_data(data) as u64,
        pfs0_sts(data) as u32,
    )
}

/// Some transformed entry list assembles `out` from `data` with the
/// source's layout constants.
pub open spec fn nsz_output_ok(data: Seq<u8>, out: Seq<u8>) -> bool {
    exists|names: Seq<Seq<u8>>, payloads: Seq<Seq<u8>>|
        {
            &&& names.len() == pfs0_count(data)
            &&& payloads.len() == pfs0_count(data)
            &&& (forall|i: int|
                0 <= i < pfs0_count(data) ==> nsp_transcode_entry_ok(
                    data,
                    i,
                    #[trigger] names[i],
                    #[trigger] payloads[i],
                ))
            &&& out == crate::container::nsp::pfs0_encode_spec(
                names,
                payloads,
                pfs0_ffo_data(data) as u64,
                pfs0_sts(data) as u32,
            )
        }
}


/// The prefix facts `nsp_transcode_entry_ok` needs, derived from the
/// solid-encoder contract: the NCZ output keeps the first 0x4000 source
/// bytes and frames them with the section-table magic.
proof fn lemma_ncz_output_prefix(src: Seq<u8>, out: Seq<u8>, prefix: Seq<u8>)
    requires
        src.len() >= 0x4000,
        prefix.len() >= 0x4010,
        prefix.subrange(0, 0x4000) == src.subrange(0, 0x4000),
        prefix.subrange(0x4000, 0x4008) == nczsectn_magic(),
        out.len() >= prefix.len(),
        out.subrange(0, prefix.len() as int) == prefix,
    ensures
        out.len() >= 0x4010,
        out.subrange(0, 0x4000) == src.subrange(0, 0x4000),
        out.subrange(0x4000, 0x4008) == nczsectn_magic(),
{
    assert(out.subrange(0, 0x4000) =~= src.subrange(0, 0x4000)) by {
        assert(forall|j: int|
            0 <= j < 0x4000 ==> out.subrange(0, prefix.len() as int)[j] == prefix[j]);
        assert(forall|j: int| 0 <= j < 0x4000 ==> prefix.subrange(0, 0x4000)[j] == prefix[j]);
    }
    assert(out.subrange(0x4000, 0x4008) =~= nczsectn_magic()) by {
        assert(forall|j: int|
            0x4000 <= j < 0x4008 ==> out.subrange(0, prefix.len() as int)[j] == prefix[j]);
        assert(forall|j: int|
            0 <= j < 8 ==> prefix.subrange(0x4000, 0x4008)[j] == prefix[0x4000 + j]);
    }
}

/// The two prefix shapes the solid encoder can produce both satisfy
/// the requirements of `lemma_ncz_output_prefix`.
proof fn lemma_ncz_prefix_shape(src: Seq<u8>, plan: Option<crate::container::nca::NcaCompressionPlan>)
    requires
        src.len() >= 0x4000,
    ensures
        plan matches Some(p) ==> {
            let prefix = crate::ncz::compress::ncz_prefix_bytes(src, p.sections@);
            prefix.len() >= 0x4010 && prefix.subrange(0, 0x4000) == src.subrange(0, 0x4000)
                && prefix.subrange(0x4000, 0x4008) == nczsectn_magic()
        },
        ({
            let prefix = crate::ncz::compress::ncz_default_prefix(src);
            prefix.len() >= 0x4010 && prefix.subrange(0, 0x4000) == src.subrange(0, 0x4000)
                && prefix.subrange(0x4000, 0x4008) == nczsectn_magic()
        }),
{
    vstd::bytes::lemma_auto_spec_u64_to_from_le_bytes();
    match plan {
        Some(p) => {
            let prefix = crate::ncz::compress::ncz_prefix_bytes(src, p.sections@);
            assert(forall|j: int|
                0 <= j < p.sections@.len() ==> (#[trigger] p.sections@[j]).crypto_key@.len()
                    == 16 && p.sections@[j].crypto_counter@.len() == 16);
            crate::ncz::compress::lemma_ncz_section_table_len(
                p.sections@,
                p.sections@.len() as int,
            );
            assert(prefix.subrange(0, 0x4000) =~= src.subrange(0, 0x4000));
            assert(prefix.subrange(0x4000, 0x4008) =~= nczsectn_magic());
        },
        None => {},
    }
    let dprefix = crate::ncz::compress::ncz_default_prefix(src);
    assert(dprefix.subrange(0, 0x4000) =~= src.subrange(0, 0x4000));
    assert(dprefix.subrange(0x4000, 0x4008) =~= nczsectn_magic());
}

/// Compresses an NSP-like container: each entry `should_convert_nca_entry`
/// selects is transcoded to a solid NCZ and renamed `.ncz`, the rest
/// pass through, and the result is a PFS0 with the source's first-file
/// offset and string-table size. Every transcoded entry is encoded
/// through a plan that tiles it exactly (the analyzed plan when it
/// does, the whole-payload plan otherwise), so its NCZ decompresses
/// back to the source bytes.
///
/// On a container with nothing of convertible shape, success is owed
/// whenever the source re-encodes under its own layout constants.
pub fn compress_nsp_to_nsz(
    data: &[u8],
    request: &CompressRequest,
    keyset: Option<&NcaKeySet>,
    solid_threads: i32,
) -> (r: Result<Vec<u8>, NszError>)
    ensures
        r matches Ok(out) ==> pfs0_wf(data@) && nsz_output_ok(data@, out@),
        (pfs0_wf(data@) && nsp_no_convertible(data@) && nsp_identity_encode_ok(data@)) ==> r
            is Ok,
{
    let archive = match NspArchive::from_bytes(data) {
        Ok(a) => a,
        Err(e) => {
            return Err(e);
        },
    };
    let entries = archive.entries();
    let count = entries.len();
    let tickets = collect_nsp_tickets(&archive, data);

    let nca_ext: [u8; 3] = [0x6E, 0x63, 0x61];
    let cnmt_suffix: [u8; 9] = [0x2E, 0x63, 0x6E, 0x6D, 0x74, 0x2E, 0x6E, 0x63, 0x61];
    let mut largest: Option<u64> = None;
    let mut j: usize = 0;
    while j < count
        invariant
            pfs0_wf(data@),
            crate::container::nsp::pfs0_parses_to(archive, data@),
            entries@ == archive.spec_entries(),
            count == entries@.len(),
            j <= count,
        decreases count - j,
    {
        let entry = &entries[j];
        proof {
            assert(crate::container::nsp::pfs0_entry_parses_to(
                archive.spec_entries()[j as int],
                data@,
                j as int,
            ));
        }
        let name_bytes = entry.name.as_str().as_bytes();
        let is_candidate = has_extension_ci_exec(
            name_bytes,
            vstd::array::array_as_slice(&nca_ext),
        ) && !ends_with_ci_exec(name_bytes, vstd::array::array_as_slice(&cnmt_suffix))
            && entry.size > 0x4000;
        if is_candidate {
            largest = match largest {
                Some(m) => if entry.size > m {
                    Some(entry.size)
                } else {
                    Some(m)
                },
                None => Some(entry.size),
            };
        }
        j = j + 1;
    }

    let mut output_entries: Vec<(String, EntryData<'_>)> = Vec::new();
    let mut i: usize = 0;
    while i < count
        invariant
            pfs0_wf(data@),
            crate::container::nsp::pfs0_parses_to(archive, data@),
            crate::container::nsp::pfs0_archive_bounded(archive),
            entries@ == archive.spec_entries(),
            count == entries@.len(),
            count == pfs0_count(data@),
            i <= count,
            output_entries@.len() == i,
            forall|j2: int|
                0 <= j2 < i ==> nsp_transcode_entry_ok(
                    data@,
                    j2,
                    encode_utf8((#[trigger] output_entries@[j2]).0@),
                    output_entries@[j2].1.bytes(),
                ),
            nsp_no_convertible(data@) ==> (forall|j2: int|
                0 <= j2 < i ==> encode_utf8((#[trigger] output_entries@[j2]).0@)
                    == pfs0_name_bytes(data@, j2) && output_entries@[j2].1.bytes()
                    == pfs0_entry_payload(data@, j2)),
        decreases count - i,
    {
        let entry = &entries[i];
        let ghost nb = pfs0_name_bytes(data@, i as int);
        proof {
            assert(crate::container::nsp::pfs0_entry_parses_to(
                archive.spec_entries()[i as int],
                data@,
                i as int,
            ));
            assert(crate::container::nsp::pfs0_entry_wf(data@, i as int));
            decode_utf8_encode_utf8(nb);
            assert(encode_utf8(entry.name@) == nb);
        }
        let bytes = archive.entry_bytes(data, entry);
        let header_key: Option<&[u8; 32]> = match keyset {
            Some(keys) => Some(keys.header_key_bytes()),
            None => None,
        };
        let name_bytes = entry.name.as_str().as_bytes();
        let convert = should_convert_nca_entry(
            entry.name.as_str(),
            bytes,
            entry.size,
            largest,
            header_key,
        ) && name_bytes.len() <= usize::MAX - 4;
        if convert {
            proof {
                assert(convertible_shape(nb, bytes@.len() as int));
                assert(bytes@.len() == pfs0_entry_size(data@, i as int));
                assert(!nsp_no_convertible(data@));
            }
            let built: Option<crate::container::nca::NcaCompressionPlan> = match keyset {
                Some(keys) => {
                    match build_compression_plan(bytes, keys, tickets.as_slice()) {
                        Ok(p) => Some(p),
                        Err(_) => None,
                    }
                },
                None => None,
            };
            let plan: crate::container::nca::NcaCompressionPlan = match built {
                Some(p) => {
                    if crate::ncz::compress::plan_covers_exec(bytes, &p) {
                        p
                    } else {
                        crate::ncz::compress::build_default_plan(bytes.len())
                    }
                },
                None => crate::ncz::compress::build_default_plan(bytes.len()),
            };
            proof {
                assert(crate::ncz::compress::ncz_plan_covers(bytes@, plan));
            }
            let output = match compress_nca_to_ncz_vec_with_plan(
                bytes,
                request.level,
                request.long_distance_mode,
                solid_threads,
                Some(&plan),
            ) {
                Ok(v) => v,
                Err(e) => {
                    return Err(e);
                },
            };
            let new_name = change_name_ext_ncz(&entry.name);
            let anchor_len = bytes.len();
            let anchor_secs = plan.sections.len();
            proof {
                assert(anchor_len == bytes@.len() && bytes@.len() <= usize::MAX);
                assert(anchor_secs == plan.sections@.len() && plan.sections@.len()
                    <= usize::MAX);
                let n_plan_secs = plan.sections@.len();
                assert(forall|j2: int|
                    0 <= j2 < n_plan_secs ==> (#[trigger] plan.sections@[j2]).crypto_key@.len()
                        == 16 && plan.sections@[j2].crypto_counter@.len() == 16);
                lemma_ncz_prefix_shape(bytes@, Some(plan));
                lemma_ncz_output_prefix(
                    bytes@,
                    output@,
                    crate::ncz::compress::ncz_prefix_bytes(bytes@, plan.sections@),
                );
                crate::ncz::compress::lemma_ncz_solid_roundtrip(bytes@, plan, output@);
                assert(nsp_transcode_entry_ok(
                    data@,
                    i as int,
                    encode_utf8(new_name@),
                    output@,
                ));
            }
            output_entries.push((new_name, EntryData::Owned(output)));
        } else {
            output_entries.push((entry.name.clone(), EntryData::Borrowed(bytes)));
            proof {
                assert(nsp_transcode_entry_ok(data@, i as int, nb, pfs0_entry_payload(
                    data@,
                    i as int,
                )));
            }
        }
        i = i + 1;
    }

    let first_file_offset = archive.first_file_offset();
    let string_table_size = archive.string_table_size();
    proof {
        if count > 0 {
            crate::container::nsp::lemma_ffo_data_matches(archive, data@, count as int);
        }
    }
    let out = match encode_pfs0(
        output_entries.as_slice(),
        first_file_offset,
        string_table_size,
    ) {
        Ok(v) => v,
        Err(e) => {
            proof {
                if nsp_no_convertible(data@) {
                    assert(crate::container::nsp::entry_names(output_entries@) =~= Seq::new(
                        pfs0_count(data@) as nat,
                        |i2: int| pfs0_name_bytes(data@, i2),
                    ));
                    assert(crate::container::nsp::entry_payload_bytes(output_entries@)
                        =~= Seq::new(
                        pfs0_count(data@) as nat,
                        |i2: int| pfs0_entry_payload(data@, i2),
                    ));
                    assert(!nsp_identity_encode_ok(data@));
                }
            }
            return Err(e);
        },
    };
    proof {
        let names = crate::container::nsp::entry_names(output_entries@);
        let payloads = crate::container::nsp::entry_payload_bytes(output_entries@);
        assert(forall|j2: int|
            0 <= j2 < pfs0_count(data@) ==> nsp_transcode_entry_ok(
                data@,
                j2,
                #[trigger] names[j2],
                #[trigger] payloads[j2],
            ));
        assert(names.len() == pfs0_count(data@));
        assert(payloads.len() == pfs0_count(data@));
        assert(first_file_offset as int == pfs0_ffo_data(data@));
        assert(first_file_offset == pfs0_ffo_data(data@) as u64);
        assert(string_table_size == pfs0_sts(data@) as u32);
        assert(out@ == crate::container::nsp::pfs0_encode_spec(
            names,
            payloads,
            pfs0_ffo_data(data@) as u64,
            pfs0_sts(data@) as u32,
        ));
        assert(nsz_output_ok(data@, out@));
    }
    Ok(out)
}


/// The payload of entry `i` of an HFS0 partition.
pub open spec fn hfs0_entry_payload(data: Seq<u8>, i: int) -> Seq<u8> {
    let start = crate::container::hfs0::hfs0_header_size(data)
        + crate::container::hfs0::hfs0_entry_offset(data, i);
    data.subrange(start, start + crate::container::hfs0::hfs0_entry_size(data, i))
}

/// One output entry of a compressed HFS0 partition: either the input
/// entry unchanged, or its name turned `.ncz` with an NCZ payload that
/// keeps the NCA prefix verbatim and decompresses back to the source.
pub open spec fn hfs0_transcode_entry_ok(
    data: Seq<u8>,
    i: int,
    name: Seq<u8>,
    payload: Seq<u8>,
) -> bool {
    let nb = crate::container::hfs0::hfs0_name_bytes(data, i);
    let src = hfs0_entry_payload(data, i);
    ||| (name == nb && payload == src)
    ||| (name == crate::fs_ops::path_tools::spec_change_extension(nb, ncz_ext_bytes())
        && convertible_shape(nb, src.len() as int) && payload.len() >= 0x4010 && src.len()
        >= 0x4000 && payload.subrange(0, 0x4000) == src.subrange(0, 0x4000) && payload.subrange(
        0x4000,
        0x4008,
    ) == nczsectn_magic() && ncz_decompress_ok(payload) && ncz_rebuild(
        payload,
        ncz_stream_decode(payload).unwrap(),
    ) == src)
}

/// Some transformed entry list assembles `out` from partition `data`
/// with the gamecard layout constants.
pub open spec fn hfs0_transcode_output_ok(data: Seq<u8>, out: Seq<u8>) -> bool {
    exists|names: Seq<Seq<u8>>, payloads: Seq<Seq<u8>>|
        {
            &&& names.len() == crate::container::hfs0::hfs0_count(data)
            &&& payloads.len() == crate::container::hfs0::hfs0_count(data)
            &&& (forall|i: int|
                0 <= i < crate::container::hfs0::hfs0_count(data) ==> hfs0_transcode_entry_ok(
                    data,
                    i,
                    #[trigger] names[i],
                    #[trigger] payloads[i],
                ))
            &&& out == crate::container::hfs0::hfs0_encode_spec(names, payloads, 0x8000, 0)
        }
}

/// Every `.tik` entry of an HFS0 partition whose payload parses
/// contributes a ticket.
pub open spec fn tickets_complete_hfs0(tickets: Seq<TicketRecord>, data: Seq<u8>) -> bool {
    forall|j: int|
        0 <= j < crate::container::hfs0::hfs0_count(data) && has_extension_ci(
            #[trigger] crate::container::hfs0::hfs0_name_bytes(data, j),
            tik_ext_bytes(),
        ) && ticket_wf(hfs0_entry_payload(data, j)) ==> exists|i: int|
            0 <= i < tickets.len() && ticket_parses_to(
                #[trigger] tickets[i],
                hfs0_entry_payload(data, j),
            )
}

/// Every ticket collected parses out of some entry's payload of an
/// HFS0 partition.
pub open spec fn tickets_from_hfs0(tickets: Seq<TicketRecord>, data: Seq<u8>) -> bool {
    forall|i: int|
        0 <= i < tickets.len() ==> exists|j: int|
            0 <= j < crate::container::hfs0::hfs0_count(data) && ticket_wf(
                hfs0_entry_payload(data, j),
            ) && ticket_parses_to(#[trigger] tickets[i], hfs0_entry_payload(data, j))
}

/// Collects the tickets of every `.tik` entry of an HFS0 partition;
/// entries that do not parse are skipped.
fn collect_hfs0_tickets(archive: &Hfs0Archive, data: &[u8]) -> (r: Vec<TicketRecord>)
    requires
        hfs0_wf(data@),
        crate::container::hfs0::hfs0_parses_to(*archive, data@),
    ensures
        tickets_from_hfs0(r@, data@),
        tickets_complete_hfs0(r@, data@),
{
    let entries = archive.entries();
    let count = entries.len();
    let tik_ext: [u8; 3] = [0x74, 0x69, 0x6B];
    let mut out: Vec<TicketRecord> = Vec::new();
    let mut i: usize = 0;
    while i < count
        invariant
            hfs0_wf(data@),
            crate::container::hfs0::hfs0_parses_to(*archive, data@),
            entries@ == archive.spec_entries(),
            count == entries@.len(),
            count == crate::container::hfs0::hfs0_count(data@),
            tik_ext@ =~= tik_ext_bytes(),
            i <= count,
            tickets_from_hfs0(out@, data@),
            forall|j: int|
                0 <= j < i && has_extension_ci(
                    #[trigger] crate::container::hfs0::hfs0_name_bytes(data@, j),
                    tik_ext_bytes(),
                ) && ticket_wf(hfs0_entry_payload(data@, j)) ==> exists|i2: int|
                    0 <= i2 < out@.len() && ticket_parses_to(
                        #[trigger] out@[i2],
                        hfs0_entry_payload(data@, j),
                    ),
        decreases count - i,
    {
        let entry = &entries[i];
        let ghost out_at_entry = out@;
        let ghost nb = crate::container::hfs0::hfs0_name_bytes(data@, i as int);
        proof {
            assert(crate::container::hfs0::hfs0_entry_parses_to(
                archive.spec_entries()[i as int],
                data@,
                i as int,
            ));
            assert(crate::container::hfs0::hfs0_entry_wf(data@, i as int));
            vstd::utf8::decode_utf8_encode_utf8(nb);
            assert(encode_utf8(entry.name@) == nb);
        }
        let name_bytes = entry.name.as_str().as_bytes();
        if has_extension_ci_exec(name_bytes, vstd::array::array_as_slice(&tik_ext)) {
            let bytes = archive.entry_bytes(data, entry);
            let ghost out_before = out@;
            match parse_ticket_record(bytes) {
                Ok(t) => {
                    out.push(t);
                    proof {
                        assert(ticket_wf(hfs0_entry_payload(data@, i as int)));
                        assert(ticket_parses_to(
                            out@.last(),
                            hfs0_entry_payload(data@, i as int),
                        ));
                        assert forall|k2: int| 0 <= k2 < out@.len() implies exists|j2: int|
                            0 <= j2 < crate::container::hfs0::hfs0_count(data@) && ticket_wf(
                                hfs0_entry_payload(data@, j2),
                            ) && ticket_parses_to(
                                #[trigger] out@[k2],
                                hfs0_entry_payload(data@, j2),
                            ) by {
                            if k2 < out@.len() - 1 {
                                assert(out@[k2] == out_before[k2]);
                            } else {
                                assert(out@[k2] == out@.last());
                                assert(ticket_parses_to(
                                    out@[k2],
                                    hfs0_entry_payload(data@, i as int),
                                ));
                            }
                        }
                        assert(tickets_from_hfs0(out@, data@));
                    }
                },
                Err(_) => {
                    proof {
                        assert(!ticket_wf(hfs0_entry_payload(data@, i as int)));
                    }
                },
            }
        }
        i = i + 1;
        proof {
            assert forall|j: int|
                0 <= j < i && has_extension_ci(
                    #[trigger] crate::container::hfs0::hfs0_name_bytes(data@, j),
                    tik_ext_bytes(),
                ) && ticket_wf(hfs0_entry_payload(data@, j)) implies exists|i2: int|
                0 <= i2 < out@.len() && ticket_parses_to(
                    #[trigger] out@[i2],
                    hfs0_entry_payload(data@, j),
                ) by {
                if j < i - 1 {
                    let i2 = choose|i2: int|
                        0 <= i2 < out_at_entry.len() && ticket_parses_to(
                            out_at_entry[i2],
                            hfs0_entry_payload(data@, j),
                        );
                    assert(out@[i2] == out_at_entry[i2]);
                } else {
                    assert(ticket_parses_to(
                        out@[out@.len() - 1],
                        hfs0_entry_payload(data@, j),
                    ));
                }
            }
        }
    }
    out
}

/// Rewrites one XCI partition: eligible `.nca` entries become NCZ
/// payloads (block or solid as requested), the rest pass through, and
/// the partition is re-encoded with the gamecard first-file offset.
/// Every transcoded entry goes through a plan that tiles it exactly,
/// so its NCZ decompresses back to the source bytes.
#[verifier::rlimit(100)]
fn compress_hfs0_partition(
    data: &[u8],
    request: &CompressRequest,
    keyset: Option<&NcaKeySet>,
    solid_threads: i32,
    use_block_ncz: bool,
) -> (r: Result<Vec<u8>, NszError>)
    ensures
        r matches Ok(out) ==> hfs0_wf(data@) && hfs0_transcode_output_ok(data@, out@),
{
    let archive = match Hfs0Archive::from_bytes(data) {
        Ok(a) => a,
        Err(_) => {
            return Err(
                container_format_error("failed to parse XCI partition as HFS0"),
            );
        },
    };
    let entries = archive.entries();
    let count = entries.len();
    let tickets = collect_hfs0_tickets(&archive, data);

    let nca_ext: [u8; 3] = [0x6E, 0x63, 0x61];
    let cnmt_suffix: [u8; 9] = [0x2E, 0x63, 0x6E, 0x6D, 0x74, 0x2E, 0x6E, 0x63, 0x61];
    let mut largest: Option<u64> = None;
    let mut j: usize = 0;
    while j < count
        invariant
            hfs0_wf(data@),
            crate::container::hfs0::hfs0_parses_to(archive, data@),
            entries@ == archive.spec_entries(),
            count == entries@.len(),
            j <= count,
        decreases count - j,
    {
        let entry = &entries[j];
        proof {
            assert(crate::container::hfs0::hfs0_entry_parses_to(
                archive.spec_entries()[j as int],
                data@,
                j as int,
            ));
        }
        let name_bytes = entry.name.as_str().as_bytes();
        let is_candidate = has_extension_ci_exec(
            name_bytes,
            vstd::array::array_as_slice(&nca_ext),
        ) && !ends_with_ci_exec(name_bytes, vstd::array::array_as_slice(&cnmt_suffix))
            && entry.size > 0x4000;
        if is_candidate {
            largest = match largest {
                Some(m) => if entry.size > m {
                    Some(entry.size)
                } else {
                    Some(m)
                },
                None => Some(entry.size),
            };
        }
        j = j + 1;
    }

    let mut output_entries: Vec<(String, EntryData<'_>)> = Vec::new();
    let mut i: usize = 0;
    while i < count
        invariant
            hfs0_wf(data@),
            crate::container::hfs0::hfs0_parses_to(archive, data@),
            crate::container::hfs0::hfs0_archive_bounded(archive),
            entries@ == archive.spec_entries(),
            count == entries@.len(),
            count == crate::container::hfs0::hfs0_count(data@),
            i <= count,
            output_entries@.len() == i,
            forall|j2: int|
                0 <= j2 < i ==> hfs0_transcode_entry_ok(
                    data@,
                    j2,
                    encode_utf8((#[trigger] output_entries@[j2]).0@),
                    output_entries@[j2].1.bytes(),
                ),
        decreases count - i,
    {
        let entry = &entries[i];
        let ghost nb = crate::container::hfs0::hfs0_name_bytes(data@, i as int);
        proof {
            assert(crate::container::hfs0::hfs0_entry_parses_to(
                archive.spec_entries()[i as int],
                data@,
                i as int,
            ));
            assert(crate::container::hfs0::hfs0_entry_wf(data@, i as int));
            decode_utf8_encode_utf8(nb);
            assert(encode_utf8(entry.name@) == nb);
        }
        let bytes = archive.entry_bytes(data, entry);
        let header_key: Option<&[u8; 32]> = match keyset {
            Some(keys) => Some(keys.header_key_bytes()),
            None => None,
        };
        let name_bytes = entry.name.as_str().as_bytes();
        let convert = should_convert_nca_entry(
            entry.name.as_str(),
            bytes,
            entry.size,
            largest,
            header_key,
        ) && name_bytes.len() <= usize::MAX - 4;
        if convert {
            let built: Option<crate::container::nca::NcaCompressionPlan> = match keyset {
                Some(keys) => {
                    match build_compression_plan(bytes, keys, tickets.as_slice()) {
                        Ok(p) => Some(p),
                        Err(_) => None,
                    }
                },
                None => None,
            };
            let plan: crate::container::nca::NcaCompressionPlan = match built {
                Some(p) => {
                    if crate::ncz::compress::plan_covers_exec(bytes, &p) {
                        p
                    } else {
                        crate::ncz::compress::build_default_plan(bytes.len())
                    }
                },
                None => crate::ncz::compress::build_default_plan(bytes.len()),
            };
            proof {
                assert(crate::ncz::compress::ncz_plan_covers(bytes@, plan));
            }
            let output = if use_block_ncz {
                match compress_nca_to_ncz_block_vec_with_plan(
                    bytes,
                    request.level,
                    request.long_distance_mode,
                    request.block_size_exponent,
                    Some(&plan),
                ) {
                    Ok(v) => v,
                    Err(e) => {
                        return Err(e);
                    },
                }
            } else {
                match compress_nca_to_ncz_vec_with_plan(
                    bytes,
                    request.level,
                    request.long_distance_mode,
                    solid_threads,
                    Some(&plan),
                ) {
                    Ok(v) => v,
                    Err(e) => {
                        return Err(e);
                    },
                }
            };
            let new_name = change_name_ext_ncz(&entry.name);
            let anchor_len = bytes.len();
            let anchor_secs = plan.sections.len();
            proof {
                assert(anchor_len == bytes@.len() && bytes@.len() <= usize::MAX);
                assert(anchor_secs == plan.sections@.len() && plan.sections@.len()
                    <= usize::MAX);
                let n_plan_secs = plan.sections@.len();
                assert(forall|j2: int|
                    0 <= j2 < n_plan_secs ==> (#[trigger] plan.sections@[j2]).crypto_key@.len()
                        == 16 && plan.sections@[j2].crypto_counter@.len() == 16);
                let prefix = crate::ncz::compress::ncz_prefix_bytes(bytes@, plan.sections@);
                lemma_ncz_prefix_shape(bytes@, Some(plan));
                if use_block_ncz {
                    let payload = crate::ncz::compress::ncz_plan_payload(bytes@, plan);
                    let blocks = crate::ncz::compress::ncz_block_outputs(
                        payload,
                        request.block_size_exponent,
                        request.level,
                        request.long_distance_mode,
                    );
                    assert(output@.subrange(0, prefix.len() as int) =~= prefix);
                    lemma_ncz_output_prefix(bytes@, output@, prefix);
                    assert(blocks.len() <= u32::MAX);
                    assert forall|k: int|
                        0 <= k < blocks.len() implies (#[trigger] blocks[k]).len()
                        <= u32::MAX by {
                        assert(0 <= k < blocks.len());
                    }
                    assert(payload.len() <= usize::MAX);
                    crate::ncz::compress::lemma_ncz_block_roundtrip(
                        bytes@,
                        plan,
                        output@,
                        blocks,
                        request.block_size_exponent,
                    );
                } else {
                    lemma_ncz_output_prefix(bytes@, output@, prefix);
                    crate::ncz::compress::lemma_ncz_solid_roundtrip(bytes@, plan, output@);
                }
                assert(hfs0_transcode_entry_ok(
                    data@,
                    i as int,
                    encode_utf8(new_name@),
                    output@,
                ));
            }
            output_entries.push((new_name, EntryData::Owned(output)));
        } else {
            output_entries.push((entry.name.clone(), EntryData::Borrowed(bytes)));
            proof {
                assert(hfs0_transcode_entry_ok(data@, i as int, nb, hfs0_entry_payload(
                    data@,
                    i as int,
                )));
            }
        }
        i = i + 1;
    }
    let r = crate::container::hfs0::encode_hfs0(output_entries.as_slice(), 0x8000, 0);
    proof {
        if r is Ok {
            let out = r->Ok_0;
            let names = crate::container::nsp::entry_names(output_entries@);
            let payloads = crate::container::nsp::entry_payload_bytes(output_entries@);
            assert(forall|j2: int|
                0 <= j2 < crate::container::hfs0::hfs0_count(data@) ==> hfs0_transcode_entry_ok(
                    data@,
                    j2,
                    #[trigger] names[j2],
                    #[trigger] payloads[j2],
                ));
            assert(out@ == crate::container::hfs0::hfs0_encode_spec(names, payloads, 0x8000, 0));
            assert(hfs0_transcode_output_ok(data@, out@));
        }
    }
    r
}

/// The gamecard `secure` partition name.
pub open spec fn secure_name_bytes() -> Seq<u8> {
    seq![0x73u8, 0x65u8, 0x63u8, 0x75u8, 0x72u8, 0x65u8]
}

/// Zero-pads a rewritten partition to the next 0x200 boundary; an
/// already aligned one gains a full 0x200 of padding.
pub open spec fn xci_aligned(bytes: Seq<u8>) -> Seq<u8> {
    bytes + crate::container::nsp::zero_bytes(0x200 - (bytes.len() as int % 0x200))
}

/// The replacement for a dropped partition: an aligned empty HFS0 with
/// the gamecard empty-partition layout constants.
pub open spec fn xcz_empty_partition() -> Seq<u8> {
    xci_aligned(
        crate::container::hfs0::hfs0_encode_spec(
            Seq::<Seq<u8>>::empty(),
            Seq::<Seq<u8>>::empty(),
            0x11,
            1,
        ),
    )
}

/// The output for partition `i` of the root: the aligned empty HFS0
/// where the partition is dropped (neither kept nor `secure`), else an
/// aligned transcode of the partition.
pub open spec fn xcz_partition_ok(rb: Seq<u8>, i: int, out: Seq<u8>, keep: bool) -> bool {
    let nb = crate::container::hfs0::hfs0_name_bytes(rb, i);
    let secure = nb.len() == 6 && crate::fs_ops::path_tools::ends_with_ci(nb, secure_name_bytes());
    if !keep && !secure {
        out == xcz_empty_partition()
    } else {
        exists|u: Seq<u8>|
            hfs0_transcode_output_ok(hfs0_entry_payload(rb, i), u) && out == xci_aligned(u)
    }
}

/// `out` is a prefix, trimmed only of zero bytes, of the image rewrapped
/// around a root that re-encodes every partition per `xcz_partition_ok`
/// under the root's own names and the gamecard layout constants.
pub open spec fn xcz_output_ok(data: Seq<u8>, out: Seq<u8>, keep: bool) -> bool {
    let rb = crate::ops::decompress::xci_root_bytes(data);
    let n = crate::container::hfs0::hfs0_count(rb);
    exists|parts: Seq<Seq<u8>>, full: Seq<u8>|
        {
            &&& parts.len() == n
            &&& (forall|i: int| 0 <= i < n ==> xcz_partition_ok(rb, i, #[trigger] parts[i], keep))
            &&& crate::ops::decompress::xci_rewrap_ok(
                data,
                full,
                crate::container::hfs0::hfs0_encode_spec(
                    Seq::new(
                        n as nat,
                        |i: int| crate::container::hfs0::hfs0_name_bytes(rb, i),
                    ),
                    parts,
                    0x8000,
                    0,
                ),
            )
            &&& out.len() <= full.len()
            &&& out == full.subrange(0, out.len() as int)
            &&& (forall|k: int| out.len() <= k < full.len() ==> full[k] == 0)
        }
}

/// Compresses a gamecard image: non-`secure` partitions are replaced by
/// empty HFS0 partitions unless `keep` is requested, the `secure`
/// partition is transcoded like an NSP (block-mode NCZ unless solid was
/// chosen), and the image is re-emitted around the new root. Trailing
/// zero padding freed by shrinkage of the final partition is trimmed.
///
/// On success the image and its root parsed, and the output is a
/// prefix, trimmed only of zero bytes, of the image rewrapped around
/// the per-partition rewrite that `xcz_output_ok` pins down.
#[verifier::rlimit(60)]
pub fn compress_xci_to_xcz(
    data: &[u8],
    request: &CompressRequest,
    keyset: Option<&NcaKeySet>,
    solid_threads: i32,
) -> (r: Result<Vec<u8>, NszError>)
    ensures
        r matches Ok(out) ==> xci_wf(data@) && hfs0_wf(
            crate::ops::decompress::xci_root_bytes(data@),
        ) && xcz_output_ok(data@, out@, request.keep),
{
    let use_block_ncz = request.block || !request.solid;
    let xci = match XciArchive::from_bytes(data) {
        Ok(x) => x,
        Err(e) => {
            return Err(e);
        },
    };
    let root_bytes = match xci.root_hfs0_bytes(data) {
        Ok(b) => b,
        Err(e) => {
            return Err(e);
        },
    };
    let root = match Hfs0Archive::from_bytes(root_bytes) {
        Ok(a) => a,
        Err(e) => {
            return Err(e);
        },
    };
    let ghost rb = crate::ops::decompress::xci_root_bytes(data@);
    proof {
        assert(root_bytes@ == rb);
    }

    let partitions = root.entries();
    let n_parts = partitions.len();
    let secure_name: [u8; 6] = [0x73, 0x65, 0x63, 0x75, 0x72, 0x65];
    let mut root_output_entries: Vec<(String, EntryData<'_>)> = Vec::new();
    let mut trailing_padding_to_trim: usize = 0;
    let mut pi: usize = 0;
    while pi < n_parts
        invariant
            hfs0_wf(root_bytes@),
            root_bytes@ == rb,
            rb == crate::ops::decompress::xci_root_bytes(data@),
            crate::container::hfs0::hfs0_parses_to(root, root_bytes@),
            crate::container::hfs0::hfs0_archive_bounded(root),
            partitions@ == root.spec_entries(),
            n_parts == partitions@.len(),
            n_parts == crate::container::hfs0::hfs0_count(rb),
            secure_name@ =~= secure_name_bytes(),
            pi <= n_parts,
            root_output_entries@.len() == pi,
            forall|j: int|
                0 <= j < pi ==> encode_utf8((#[trigger] root_output_entries@[j]).0@)
                    == crate::container::hfs0::hfs0_name_bytes(rb, j) && xcz_partition_ok(
                    rb,
                    j,
                    root_output_entries@[j].1.bytes(),
                    request.keep,
                ),
        decreases n_parts - pi,
    {
        let partition = &partitions[pi];
        let ghost nb = crate::container::hfs0::hfs0_name_bytes(rb, pi as int);
        proof {
            assert(crate::container::hfs0::hfs0_entry_parses_to(
                root.spec_entries()[pi as int],
                root_bytes@,
                pi as int,
            ));
            assert(crate::container::hfs0::hfs0_entry_wf(root_bytes@, pi as int));
            decode_utf8_encode_utf8(nb);
            assert(encode_utf8(partition.name@) == nb);
        }
        let is_last_partition = pi + 1 == n_parts;
        let name_bytes = partition.name.as_str().as_bytes();
        let is_secure = name_bytes.len() == 6 && ends_with_ci_exec(
            name_bytes,
            vstd::array::array_as_slice(&secure_name),
        );
        proof {
            assert(is_secure == (nb.len() == 6 && crate::fs_ops::path_tools::ends_with_ci(
                nb,
                secure_name_bytes(),
            )));
        }
        if !request.keep && !is_secure {
            let empty_entries: Vec<(String, EntryData<'_>)> = Vec::new();
            let empty_partition = match crate::container::hfs0::encode_hfs0(
                empty_entries.as_slice(),
                0x11,
                1,
            ) {
                Ok(v) => v,
                Err(e) => {
                    return Err(e);
                },
            };
            proof {
                assert(crate::container::nsp::entry_names(empty_entries@) =~= Seq::<
                    Seq<u8>,
                >::empty());
                assert(crate::container::nsp::entry_payload_bytes(empty_entries@) =~= Seq::<
                    Seq<u8>,
                >::empty());
            }
            let aligned = match align_xci_partition_size(empty_partition) {
                Ok(v) => v,
                Err(e) => {
                    return Err(e);
                },
            };
            proof {
                assert(aligned@ == xcz_empty_partition());
                assert(xcz_partition_ok(rb, pi as int, aligned@, request.keep));
            }
            if is_last_partition && n_parts > 1 {
                trailing_padding_to_trim = if aligned.len() >= 0x11 {
                    aligned.len() - 0x11
                } else {
                    0
                };
            }
            root_output_entries.push((partition.name.clone(), EntryData::Owned(aligned)));
        } else {
            let partition_bytes = root.entry_bytes(root_bytes, partition);
            proof {
                assert(partition_bytes@ == hfs0_entry_payload(rb, pi as int));
            }
            let partition_output = match compress_hfs0_partition(
                partition_bytes,
                request,
                keyset,
                solid_threads,
                use_block_ncz,
            ) {
                Ok(v) => v,
                Err(e) => {
                    return Err(e);
                },
            };
            let unaligned_len = partition_output.len();
            let ghost u = partition_output@;
            let aligned = match align_xci_partition_size(partition_output) {
                Ok(v) => v,
                Err(e) => {
                    return Err(e);
                },
            };
            proof {
                assert(aligned@ == xci_aligned(u));
                assert(hfs0_transcode_output_ok(hfs0_entry_payload(rb, pi as int), u));
                assert(xcz_partition_ok(rb, pi as int, aligned@, request.keep));
            }
            if is_last_partition && n_parts > 1 {
                trailing_padding_to_trim = aligned.len() - unaligned_len;
            }
            root_output_entries.push((partition.name.clone(), EntryData::Owned(aligned)));
        }
        pi = pi + 1;
    }

    let ghost part_names = Seq::new(
        n_parts as nat,
        |i: int| crate::container::hfs0::hfs0_name_bytes(rb, i),
    );
    let ghost parts = crate::container::nsp::entry_payload_bytes(root_output_entries@);
    proof {
        assert(crate::container::nsp::entry_names(root_output_entries@) =~= part_names);
        assert(parts.len() == n_parts);
        assert(forall|i: int|
            0 <= i < n_parts ==> xcz_partition_ok(rb, i, #[trigger] parts[i], request.keep));
    }
    let root_output = match crate::container::hfs0::encode_hfs0(
        root_output_entries.as_slice(),
        0x8000,
        0,
    ) {
        Ok(v) => v,
        Err(e) => {
            return Err(e);
        },
    };
    proof {
        assert(root_output@ == crate::container::hfs0::hfs0_encode_spec(
            part_names,
            parts,
            0x8000,
            0,
        ));
    }
    let mut output = match encode_xci_like(data, &xci, root_output.as_slice()) {
        Ok(v) => v,
        Err(e) => {
            return Err(e);
        },
    };
    let ghost full = output@;
    let ghost root_seq = root_output@;
    proof {
        assert(crate::ops::decompress::xci_rewrap_ok(data@, full, root_seq));
    }
    if trailing_padding_to_trim > 0 && output.len() > trailing_padding_to_trim {
        let trim_start = output.len() - trailing_padding_to_trim;
        let olen = output.len();
        let mut all_zero = true;
        let mut k: usize = trim_start;
        while k < olen
            invariant
                olen == output@.len(),
                trim_start <= k <= olen,
                output@ == full,
                all_zero == (forall|m: int| trim_start <= m < k ==> full[m] == 0),
            decreases olen - k,
        {
            if output[k] != 0 {
                all_zero = false;
            }
            k = k + 1;
        }
        if all_zero {
            output.truncate(trim_start);
            proof {
                assert(output@ == full.subrange(0, trim_start as int));
                assert(xcz_output_ok(data@, output@, request.keep));
            }
            return Ok(output);
        }
    }
    proof {
        assert(output@ =~= full.subrange(0, output@.len() as int));
        assert(xcz_output_ok(data@, output@, request.keep));
    }
    Ok(output)
}

} // verus!
