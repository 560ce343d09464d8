//! The NCZ encoder: section-table framing, then the payload as one
//! solid Zstandard frame or as independently compressed fixed-size
//! blocks. Encrypted ranges listed by the plan are CTR-transformed so
//! the decoder can reproduce the original ciphertext.
use vstd::prelude::*;
use vstd::string::StringExecFns;
use vstd::bytes::*;

use crate::container::nca::NcaCompressionPlan;
use crate::container::nca::NcaEncryptionSection;
use crate::crypto::primitives::aes_ctr_transform;
use crate::crypto::primitives::ctr_xor;
use crate::error::container_format_error;
use crate::error::NszError;
use crate::ncz::decompress::zstd_decode_of;
use crate::ncz::decompress::zstd_ok;
use crate::ncz::header::nczb_block_size;
use crate::ncz::header::nczb_count;
use crate::ncz::header::nczb_decompressed_size;
use crate::ncz::header::nczblock_magic;
use crate::util::append_slice;
use crate::util::append_u32_le;
use crate::util::append_u64_le;
use crate::util::append_zeros;
use crate::util::copy_range;

verus! {

/// The four magic bytes that open every Zstandard frame.
pub open spec fn zstd_frame_magic() -> Seq<u8> {
    seq![0x28u8, 0xB5u8, 0x2Fu8, 0xFDu8]
}

/// Whether single-threaded Zstandard compression succeeds on these
/// inputs: a function of the bytes, level and long-distance flag alone
/// for the pinned library version.
pub uninterp spec fn zstd_compress_ok(data: Seq<u8>, level: i32, long_distance: bool) -> bool;

/// The frame single-threaded Zstandard compression produces: a function
/// of the bytes, level and long-distance flag alone for the pinned
/// library version. With worker threads the frame layout is the
/// encoder's own choice and carries no name.
pub uninterp spec fn zstd_compress_of(data: Seq<u8>, level: i32, long_distance: bool) -> Seq<u8>;

/// Relies on `zstd::stream::write::Encoder` (`new`,
/// `long_distance_matching`, `multithread`, `write_all`, `finish`): one
/// complete Zstandard frame that decodes back to the input bytes and
/// opens with the frame magic its format mandates. Without worker
/// threads, compression is deterministic, so success and frame carry
/// the names `zstd_compress_ok` / `zstd_compress_of`.
#[verifier::external_body]
fn zstd_compress_with_options(data: &[u8], level: i32, long_distance: bool, threads: u32) -> (r:
    Option<Vec<u8>>)
    ensures
        r matches Some(v) ==> zstd_ok(v@) && zstd_decode_of(v@) == data@ && v@.len() >= 4
            && v@.subrange(0, 4) == zstd_frame_magic(),
        threads <= 1 ==> (r is Some <==> zstd_compress_ok(data@, level, long_distance)),
        threads <= 1 ==> (r matches Some(v) ==> v@ == zstd_compress_of(
            data@,
            level,
            long_distance,
        )),
{
    let run = || -> std::io::Result<Vec<u8>> {
        let mut encoder = zstd::stream::write::Encoder::new(Vec::new(), level)?;
        encoder.long_distance_matching(long_distance)?;
        if threads > 1 {
            encoder.multithread(threads)?;
        }
        std::io::Write::write_all(&mut encoder, data)?;
        encoder.finish()
    };
    run().ok()
}

/// The eight magic bytes `"NCZSECTN"`.
pub open spec fn nczsectn_magic_bytes() -> Seq<u8> {
    crate::ncz::decompress::nczsectn_magic()
}

/// One 64-byte descriptor of the section table.
pub open spec fn ncz_section_row(s: NcaEncryptionSection) -> Seq<u8> {
    spec_u64_to_le_bytes(s.offset) + spec_u64_to_le_bytes(s.size) + spec_u64_to_le_bytes(
        s.crypto_type,
    ) + spec_u64_to_le_bytes(0) + s.crypto_key@ + s.crypto_counter@
}

/// The first `i` rows of the section table.
pub open spec fn ncz_section_table(secs: Seq<NcaEncryptionSection>, i: int) -> Seq<u8>
    decreases i,
{
    if i <= 0 {
        Seq::<u8>::empty()
    } else {
        ncz_section_table(secs, i - 1) + ncz_section_row(secs[i - 1])
    }
}

/// Each table row is 64 bytes, so the table over `i` sections is `64 * i`.
pub proof fn lemma_ncz_section_table_len(secs: Seq<NcaEncryptionSection>, i: int)
    requires
        0 <= i,
        forall|j: int| 0 <= j < i ==> (#[trigger] secs[j]).crypto_key@.len() == 16
            && secs[j].crypto_counter@.len() == 16,
    ensures
        ncz_section_table(secs, i).len() == 64 * i,
    decreases i,
{
    lemma_auto_spec_u64_to_from_le_bytes();
    if i > 0 {
        lemma_ncz_section_table_len(secs, i - 1);
    }
}

/// Everything before the compressed stream of an NCZ built from `plan`:
/// the verbatim NCA prefix, the magic, the count and the table.
pub open spec fn ncz_prefix_bytes(data: Seq<u8>, secs: Seq<NcaEncryptionSection>) -> Seq<u8> {
    data.subrange(0, 0x4000) + nczsectn_magic_bytes() + spec_u64_to_le_bytes(secs.len() as u64)
        + ncz_section_table(secs, secs.len() as int)
}

/// The payload bytes contributed by sections `i` onward, after `skip`
/// bytes have been consumed from the front: encrypted sections are
/// CTR-transformed at their absolute offset.
pub open spec fn ncz_parts_payload(
    data: Seq<u8>,
    secs: Seq<NcaEncryptionSection>,
    i: int,
    skip: int,
) -> Seq<u8>
    decreases secs.len() - i,
{
    if i >= secs.len() {
        Seq::<u8>::empty()
    } else {
        let s = secs[i];
        let consumed = if skip < s.size {
            skip
        } else {
            s.size as int
        };
        let off = s.offset + consumed;
        let size = s.size - consumed;
        let raw = data.subrange(off, off + size);
        let chunk = if size == 0 {
            Seq::<u8>::empty()
        } else if s.crypto_type == 3 || s.crypto_type == 4 {
            ctr_xor(s.crypto_key@, s.crypto_counter@, off, raw)
        } else {
            raw
        };
        chunk + ncz_parts_payload(data, secs, i + 1, skip - consumed)
    }
}

/// The whole payload stream an encoder compresses for `plan`: the gap
/// between the NCA prefix and the first section, then every section.
/// When the first section starts inside the prefix, its already-stored
/// bytes are skipped instead.
pub open spec fn ncz_plan_payload(data: Seq<u8>, plan: NcaCompressionPlan) -> Seq<u8> {
    if plan.offset_first_section > 0x4000 {
        data.subrange(0x4000, plan.offset_first_section as int) + ncz_parts_payload(
            data,
            plan.sections@,
            0,
            0,
        )
    } else {
        ncz_parts_payload(data, plan.sections@, 0, 0x4000 - plan.offset_first_section)
    }
}

/// The payload of a plan-less encode: everything after the NCA prefix.
pub open spec fn ncz_default_payload(data: Seq<u8>) -> Seq<u8> {
    data.subrange(0x4000, data.len() as int)
}

/// The table of a plan-less encode: one unencrypted section covering the
/// whole payload.
pub open spec fn ncz_default_prefix(data: Seq<u8>) -> Seq<u8> {
    data.subrange(0, 0x4000) + nczsectn_magic_bytes() + spec_u64_to_le_bytes(1)
        + spec_u64_to_le_bytes(0x4000) + spec_u64_to_le_bytes((data.len() - 0x4000) as u64)
        + spec_u64_to_le_bytes(0) + spec_u64_to_le_bytes(0) + crate::container::nsp::zero_bytes(16)
        + crate::container::nsp::zero_bytes(16)
}

/// The running part arithmetic of a plan stays inside the file: every
/// adjusted section start fits, and every non-empty part ends inside
/// the data. This is exactly when `build_plan_payload` walks all parts.
pub open spec fn ncz_parts_in_bounds(
    data: Seq<u8>,
    secs: Seq<NcaEncryptionSection>,
    i: int,
    skip: int,
) -> bool
    decreases secs.len() - i,
{
    if i >= secs.len() {
        true
    } else {
        let s = secs[i];
        let consumed = if skip < s.size {
            skip
        } else {
            s.size as int
        };
        let off = s.offset + consumed;
        let size = s.size - consumed;
        &&& off <= u64::MAX
        &&& (size > 0 ==> off + size <= data.len())
        &&& ncz_parts_in_bounds(data, secs, i + 1, skip - consumed)
    }
}

/// Exactly when the plan payload can be materialized: the leading gap
/// ends inside the file, every part stays in bounds, and the stream
/// fits the machine.
pub open spec fn ncz_plan_payload_ok(data: Seq<u8>, plan: NcaCompressionPlan) -> bool {
    &&& (plan.offset_first_section > 0x4000 ==> plan.offset_first_section <= data.len())
    &&& ncz_parts_in_bounds(
        data,
        plan.sections@,
        0,
        (if plan.offset_first_section > 0x4000 {
            0
        } else {
            0x4000 - plan.offset_first_section
        }) as int,
    )
    &&& ncz_plan_payload(data, plan).len() <= usize::MAX
}

/// Materializes the payload stream of a plan, CTR-transforming the
/// encrypted parts. Succeeds exactly when `ncz_plan_payload_ok` holds.
fn build_plan_payload(data: &[u8], plan: &NcaCompressionPlan) -> (r: Result<Vec<u8>, NszError>)
    ensures
        r is Ok <==> ncz_plan_payload_ok(data@, *plan),
        r matches Ok(v) ==> v@ == ncz_plan_payload(data@, *plan),
{
    let n = data.len();
    let mut out: Vec<u8> = Vec::new();
    let mut skip: u64 = 0;
    if plan.offset_first_section > 0x4000 {
        if plan.offset_first_section > n as u64 {
            return Err(container_format_error("NCZ compression part exceeds source bounds"));
        }
        let gap = copy_range(data, 0x4000, plan.offset_first_section as usize);
        append_slice(&mut out, gap.as_slice());
    } else {
        skip = 0x4000 - plan.offset_first_section;
    }
    let ghost head = out@;
    let ghost goal = head + ncz_parts_payload(data@, plan.sections@, 0, skip as int);
    proof {
        assert(goal == ncz_plan_payload(data@, *plan));
    }
    let n_secs = plan.sections.len();
    let mut i: usize = 0;
    while i < n_secs
        invariant
            n == data@.len(),
            n_secs == plan.sections@.len(),
            i <= n_secs,
            goal == ncz_plan_payload(data@, *plan),
            ncz_plan_payload_ok(data@, *plan) <==> (ncz_parts_in_bounds(
                data@,
                plan.sections@,
                i as int,
                skip as int,
            ) && goal.len() <= usize::MAX),
            out@ + ncz_parts_payload(data@, plan.sections@, i as int, skip as int) == goal,
        decreases n_secs - i,
    {
        let ghost out_old = out@;
        let ghost skip_old = skip;
        let s_offset = plan.sections[i].offset;
        let s_size = plan.sections[i].size;
        let s_ctype = plan.sections[i].crypto_type;
        let consumed: u64 = if skip < s_size {
            skip
        } else {
            s_size
        };
        if consumed > u64::MAX - s_offset {
            proof {
                assert(!ncz_parts_in_bounds(data@, plan.sections@, i as int, skip as int));
            }
            return Err(container_format_error("NCZ compression part exceeds source bounds"));
        }
        let off = s_offset + consumed;
        let size = s_size - consumed;
        let ghost s = plan.sections@[i as int];
        let ghost raw = data@.subrange(off as int, off + size);
        let ghost spec_chunk: Seq<u8> = if size == 0 {
            Seq::<u8>::empty()
        } else if s.crypto_type == 3 || s.crypto_type == 4 {
            ctr_xor(s.crypto_key@, s.crypto_counter@, off as int, raw)
        } else {
            raw
        };
        if size > 0 {
            if size > u64::MAX - off || off + size > n as u64 {
                proof {
                    assert(!ncz_parts_in_bounds(data@, plan.sections@, i as int, skip as int));
                }
                return Err(
                    container_format_error("NCZ compression part exceeds source bounds"),
                );
            }
            let mut chunk = copy_range(data, off as usize, (off + size) as usize);
            if s_ctype == 3 || s_ctype == 4 {
                aes_ctr_transform(
                    &mut chunk,
                    vstd::array::array_as_slice(&plan.sections[i].crypto_key),
                    vstd::array::array_as_slice(&plan.sections[i].crypto_counter),
                    off,
                );
            }
            if chunk.len() > usize::MAX - out.len() {
                proof {
                    assert(chunk@ == spec_chunk);
                    assert(ncz_parts_payload(data@, plan.sections@, i as int, skip as int)
                        == spec_chunk + ncz_parts_payload(
                        data@,
                        plan.sections@,
                        i as int + 1,
                        skip as int - consumed,
                    ));
                    assert(goal.len() >= out@.len() + spec_chunk.len());
                    assert(goal.len() > usize::MAX);
                }
                return Err(container_format_error("NCZ payload exceeds platform limits"));
            }
            append_slice(&mut out, chunk.as_slice());
            proof {
                assert(chunk@ == spec_chunk);
            }
        } else {
            proof {
                assert(out@ =~= out_old + spec_chunk);
            }
        }
        skip = skip - consumed;
        i = i + 1;
        proof {
            assert(ncz_parts_payload(data@, plan.sections@, i - 1, skip_old as int) == spec_chunk
                + ncz_parts_payload(data@, plan.sections@, i as int, skip as int));
            assert(out@ == out_old + spec_chunk);
            assert(out@ + ncz_parts_payload(data@, plan.sections@, i as int, skip as int)
                =~= goal);
        }
    }
    let out_len = out.len();
    proof {
        assert(ncz_parts_payload(data@, plan.sections@, n_secs as int, skip as int)
            =~= Seq::<u8>::empty());
        assert(out@ =~= goal);
        assert(goal.len() == out_len);
        assert(ncz_plan_payload_ok(data@, *plan));
    }
    Ok(out)
}


/// Appends the NCZ section-table prefix for `sections` to a fresh
/// buffer holding the verbatim NCA prefix.
fn write_ncz_prefix(data: &[u8], sections: &Vec<NcaEncryptionSection>) -> (r: Result<
    Vec<u8>,
    NszError,
>)
    requires
        data@.len() >= 0x4000,
    ensures
        r is Ok <==> 0x4010 + 64 * sections@.len() <= usize::MAX,
        r matches Ok(out) ==> out@ == ncz_prefix_bytes(data@, sections@),
{
    proof {
        lemma_auto_spec_u32_to_from_le_bytes();
        lemma_auto_spec_u64_to_from_le_bytes();
    }
    let n_secs = sections.len();
    let total_wide: u128 = 0x4000u128 + 16u128 + 64u128 * (n_secs as u128);
    if total_wide > usize::MAX as u128 {
        return Err(container_format_error("NCZ section table exceeds platform limits"));
    }
    let mut out = copy_range(data, 0, 0x4000);
    out.push(0x4E);
    out.push(0x43);
    out.push(0x5A);
    out.push(0x53);
    out.push(0x45);
    out.push(0x43);
    out.push(0x54);
    out.push(0x4E);
    proof {
        assert(out@ =~= data@.subrange(0, 0x4000) + nczsectn_magic_bytes());
    }
    append_u64_le(&mut out, n_secs as u64);
    let ghost fixed = data@.subrange(0, 0x4000) + nczsectn_magic_bytes() + spec_u64_to_le_bytes(
        n_secs as u64,
    );
    let mut i: usize = 0;
    while i < n_secs
        invariant
            n_secs == sections@.len(),
            0x4000 + 16 + 64 * n_secs <= usize::MAX,
            i <= n_secs,
            out@.len() == 0x4000 + 16 + 64 * i,
            out@ == fixed + ncz_section_table(sections@, i as int),
        decreases n_secs - i,
    {
        proof {
            lemma_auto_spec_u64_to_from_le_bytes();
        }
        append_u64_le(&mut out, sections[i].offset);
        append_u64_le(&mut out, sections[i].size);
        append_u64_le(&mut out, sections[i].crypto_type);
        append_u64_le(&mut out, 0u64);
        append_slice(&mut out, vstd::array::array_as_slice(&sections[i].crypto_key));
        append_slice(&mut out, vstd::array::array_as_slice(&sections[i].crypto_counter));
        i = i + 1;
        proof {
            assert(out@ =~= fixed + ncz_section_table(sections@, i as int));
        }
    }
    Ok(out)
}

/// Compresses an NCA into a solid NCZ: the verbatim prefix, the section
/// table from the plan (or one pass-through section without a plan), and
/// one Zstandard frame holding the payload stream.
///
/// On success the output is exactly the prefix followed by a frame that
/// decodes back to the payload stream; without a plan the payload is the
/// raw tail of the NCA.
pub fn compress_nca_to_ncz_vec_with_plan(
    data: &[u8],
    level: i32,
    long_distance_mode: bool,
    threads: i32,
    plan: Option<&NcaCompressionPlan>,
) -> (r: Result<Vec<u8>, NszError>)
    ensures
        data@.len() < 0x4000 ==> r is Err,
        r matches Ok(out) ==> (plan matches Some(p) ==> {
            let prefix = ncz_prefix_bytes(data@, p.sections@);
            &&& out@.len() >= prefix.len()
            &&& out@.subrange(0, prefix.len() as int) == prefix
            &&& zstd_ok(out@.subrange(prefix.len() as int, out@.len() as int))
            &&& zstd_decode_of(out@.subrange(prefix.len() as int, out@.len() as int))
                == ncz_plan_payload(data@, *p)
            &&& out@.len() >= prefix.len() + 4
            &&& out@.subrange(prefix.len() as int, prefix.len() as int + 4) == zstd_frame_magic()
        }),
        r matches Ok(out) ==> (plan is None ==> {
            let prefix = ncz_default_prefix(data@);
            &&& out@.len() >= prefix.len()
            &&& out@.subrange(0, prefix.len() as int) == prefix
            &&& zstd_ok(out@.subrange(prefix.len() as int, out@.len() as int))
            &&& zstd_decode_of(out@.subrange(prefix.len() as int, out@.len() as int))
                == ncz_default_payload(data@)
            &&& out@.len() >= prefix.len() + 4
            &&& out@.subrange(prefix.len() as int, prefix.len() as int + 4) == zstd_frame_magic()
        }),
        threads <= 1 ==> (plan matches Some(p) ==> (r is Ok <==> {
            &&& data@.len() >= 0x4000
            &&& ncz_plan_payload_ok(data@, *p)
            &&& 0x4010 + 64 * p.sections@.len() <= usize::MAX
            &&& zstd_compress_ok(ncz_plan_payload(data@, *p), level, long_distance_mode)
            &&& ncz_prefix_bytes(data@, p.sections@).len() + zstd_compress_of(
                ncz_plan_payload(data@, *p),
                level,
                long_distance_mode,
            ).len() <= usize::MAX
        })),
        threads <= 1 ==> (plan is None ==> (r is Ok <==> {
            &&& data@.len() >= 0x4000
            &&& zstd_compress_ok(ncz_default_payload(data@), level, long_distance_mode)
            &&& ncz_default_prefix(data@).len() + zstd_compress_of(
                ncz_default_payload(data@),
                level,
                long_distance_mode,
            ).len() <= usize::MAX
        })),
        threads <= 1 ==> (r matches Ok(out) ==> (plan matches Some(p) ==> out@
            == ncz_prefix_bytes(data@, p.sections@) + zstd_compress_of(
            ncz_plan_payload(data@, *p),
            level,
            long_distance_mode,
        ))),
        threads <= 1 ==> (r matches Ok(out) ==> (plan is None ==> out@ == ncz_default_prefix(
            data@,
        ) + zstd_compress_of(ncz_default_payload(data@), level, long_distance_mode))),
{
    proof {
        lemma_auto_spec_u64_to_from_le_bytes();
    }
    let n = data.len();
    if n < 0x4000 {
        return Err(container_format_error("NCA data too short for NCZ conversion"));
    }
    let worker_threads: u32 = if threads > 1 {
        threads as u32
    } else {
        1
    };
    match plan {
        Some(p) => {
            let payload = match build_plan_payload(data, p) {
                Ok(v) => v,
                Err(e) => {
                    return Err(e);
                },
            };
            let mut out = match write_ncz_prefix(data, &p.sections) {
                Ok(v) => v,
                Err(e) => {
                    return Err(e);
                },
            };
            let frame = match zstd_compress_with_options(
                payload.as_slice(),
                level,
                long_distance_mode,
                worker_threads,
            ) {
                Some(v) => v,
                None => {
                    return Err(
                        NszError::Io {
                            message: String::from_str("zstd stream encoding failed"),
                        },
                    );
                },
            };
            let ghost prefix = out@;
            if frame.len() > usize::MAX - out.len() {
                return Err(container_format_error("NCZ output exceeds platform limits"));
            }
            append_slice(&mut out, frame.as_slice());
            proof {
                assert(out@.subrange(0, prefix.len() as int) =~= prefix);
                assert(out@.subrange(prefix.len() as int, out@.len() as int) =~= frame@);
                assert(out@.subrange(prefix.len() as int, prefix.len() as int + 4) =~= frame@.subrange(
                    0,
                    4,
                ));
                if threads <= 1 {
                    assert(out@ =~= prefix + frame@);
                }
            }
            Ok(out)
        },
        None => {
            let payload = copy_range(data, 0x4000, n);
            let mut out = copy_range(data, 0, 0x4000);
            out.push(0x4E);
            out.push(0x43);
            out.push(0x5A);
            out.push(0x53);
            out.push(0x45);
            out.push(0x43);
            out.push(0x54);
            out.push(0x4E);
            proof {
                assert(out@ =~= data@.subrange(0, 0x4000) + nczsectn_magic_bytes());
            }
            append_u64_le(&mut out, 1u64);
            append_u64_le(&mut out, 0x4000u64);
            append_u64_le(&mut out, (n - 0x4000) as u64);
            append_u64_le(&mut out, 0u64);
            append_u64_le(&mut out, 0u64);
            append_zeros(&mut out, 16);
            append_zeros(&mut out, 16);
            proof {
                assert(Seq::new(16, |i: int| 0u8) =~= crate::container::nsp::zero_bytes(16));
                assert(out@ =~= ncz_default_prefix(data@));
            }
            let frame = match zstd_compress_with_options(
                payload.as_slice(),
                level,
                long_distance_mode,
                worker_threads,
            ) {
                Some(v) => v,
                None => {
                    return Err(
                        NszError::Io {
                            message: String::from_str("zstd stream encoding failed"),
                        },
                    );
                },
            };
            let ghost prefix = out@;
            if frame.len() > usize::MAX - out.len() {
                return Err(container_format_error("NCZ output exceeds platform limits"));
            }
            append_slice(&mut out, frame.as_slice());
            proof {
                assert(out@.subrange(0, prefix.len() as int) =~= prefix);
                assert(out@.subrange(prefix.len() as int, out@.len() as int) =~= frame@);
                assert(out@.subrange(prefix.len() as int, prefix.len() as int + 4) =~= frame@.subrange(
                    0,
                    4,
                ));
                if threads <= 1 {
                    assert(out@ =~= prefix + frame@);
                }
            }
            Ok(out)
        },
    }
}

/// Compresses an NCA into a solid NCZ without a plan: one pass-through
/// section covering the whole payload, single-threaded. This is exactly
/// `compress_nca_to_ncz_vec_with_plan(data, level, false, 1, None)`, and
/// the output is determined by the data and level alone.
pub fn compress_nca_to_ncz_vec(data: &[u8], level: i32) -> (r: Result<Vec<u8>, NszError>)
    ensures
        r is Ok <==> data@.len() >= 0x4000 && zstd_compress_ok(
            ncz_default_payload(data@),
            level,
            false,
        ) && ncz_default_prefix(data@).len() + zstd_compress_of(
            ncz_default_payload(data@),
            level,
            false,
        ).len() <= usize::MAX,
        r matches Ok(out) ==> out@ == ncz_default_prefix(data@) + zstd_compress_of(
            ncz_default_payload(data@),
            level,
            false,
        ),
        r matches Ok(out) ==> {
            let prefix = ncz_default_prefix(data@);
            &&& out@.len() >= prefix.len() + 4
            &&& out@.subrange(0, prefix.len() as int) == prefix
            &&& out@.subrange(prefix.len() as int, prefix.len() as int + 4) == zstd_frame_magic()
            &&& zstd_ok(out@.subrange(prefix.len() as int, out@.len() as int))
            &&& zstd_decode_of(out@.subrange(prefix.len() as int, out@.len() as int))
                == ncz_default_payload(data@)
        },
{
    compress_nca_to_ncz_vec_with_plan(data, level, false, 1, None)
}

/// One encoded block is either the chunk stored raw, or a strictly
/// smaller Zstandard frame that decodes back to it.
pub open spec fn block_encoding_ok(b: Seq<u8>, chunk: Seq<u8>) -> bool {
    b == chunk || (zstd_ok(b) && zstd_decode_of(b) == chunk && b.len() < chunk.len())
}

/// The block the encoder stores for one chunk: the chunk itself at
/// level 0 when it fills a whole block, else the Zstandard frame when
/// that is strictly smaller, else the chunk raw. A block is stored raw
/// exactly when compression does not shrink it.
pub open spec fn encoded_block_of(chunk: Seq<u8>, bs: int, level: i32, long_distance: bool) -> Seq<
    u8,
> {
    if level == 0 && chunk.len() == bs {
        chunk
    } else if zstd_compress_of(chunk, level, long_distance).len() < chunk.len() {
        zstd_compress_of(chunk, level, long_distance)
    } else {
        chunk
    }
}

/// Encodes one block: raw when compression does not shrink it (or at
/// level 0 for a full block), else the Zstandard frame.
///
/// Succeeds exactly when the level-0 full-block shortcut applies or
/// Zstandard succeeds; the result is exactly `encoded_block_of`.
fn encode_block_payload(payload: &[u8], block_size: u64, level: i32, long_distance_mode: bool) -> (r:
    Result<Vec<u8>, NszError>)
    ensures
        r is Ok <==> ((level == 0 && payload@.len() == block_size) || zstd_compress_ok(
            payload@,
            level,
            long_distance_mode,
        )),
        r matches Ok(b) ==> b@ == encoded_block_of(
            payload@,
            block_size as int,
            level,
            long_distance_mode,
        ) && block_encoding_ok(b@, payload@),
{
    if level == 0 && payload.len() as u64 == block_size {
        let out = copy_range(payload, 0, payload.len());
        proof {
            assert(out@ =~= payload@);
        }
        return Ok(out);
    }
    let compressed = match zstd_compress_with_options(payload, level, long_distance_mode, 1) {
        Some(v) => v,
        None => {
            return Err(
                NszError::Io {
                    message: String::from_str("zstd block encoding failed"),
                },
            );
        },
    };
    if compressed.len() < payload.len() {
        Ok(compressed)
    } else {
        let out = copy_range(payload, 0, payload.len());
        proof {
            assert(out@ =~= payload@);
        }
        Ok(out)
    }
}

/// The `i`-th fixed-size chunk of the payload stream.
pub open spec fn ncz_block_chunk(payload: Seq<u8>, bs: int, i: int) -> Seq<u8> {
    payload.subrange(
        i * bs,
        if (i + 1) * bs < payload.len() {
            (i + 1) * bs
        } else {
            payload.len() as int
        },
    )
}

/// How many blocks a payload splits into.
pub open spec fn ncz_block_count(plen: int, bs: int) -> int {
    if plen == 0 {
        0
    } else {
        (plen - 1) / bs + 1
    }
}

/// The little-endian size table of the encoded blocks.
pub open spec fn ncz_size_rows(blocks: Seq<Seq<u8>>, i: int) -> Seq<u8>
    decreases i,
{
    if i <= 0 {
        Seq::<u8>::empty()
    } else {
        ncz_size_rows(blocks, i - 1) + spec_u32_to_le_bytes(blocks[i - 1].len() as u32)
    }
}

/// The deterministic block list the encoder produces for a payload.
pub open spec fn ncz_block_outputs(payload: Seq<u8>, exp: u8, level: i32, long_distance: bool) -> Seq<
    Seq<u8>,
> {
    let bs = (1u64 << (exp as u64)) as int;
    Seq::new(
        ncz_block_count(payload.len() as int, bs) as nat,
        |i: int| encoded_block_of(ncz_block_chunk(payload, bs, i), bs, level, long_distance),
    )
}

/// An assembled block stream: the `NCZBLOCK` header over `exp`, the
/// size table, and the encoded blocks, each covering its chunk.
pub open spec fn ncz_block_stream_ok(
    out: Seq<u8>,
    prefix: Seq<u8>,
    payload: Seq<u8>,
    exp: u8,
    blocks: Seq<Seq<u8>>,
) -> bool {
    let bs = (1u64 << (exp as u64)) as int;
    let nb = ncz_block_count(payload.len() as int, bs);
    &&& blocks.len() == nb
    &&& (forall|i: int|
        0 <= i < nb ==> block_encoding_ok(#[trigger] blocks[i], ncz_block_chunk(payload, bs, i)))
    &&& out == prefix + nczblock_magic() + seq![2u8, 1u8, 0u8, exp] + spec_u32_to_le_bytes(
        nb as u32,
    ) + spec_u64_to_le_bytes(payload.len() as u64) + ncz_size_rows(blocks, nb) + blocks.flatten()
}

/// Compresses an NCA into a block-mode NCZ: the same section table as
/// solid mode, then `NCZBLOCK` with independently compressed fixed-size
/// blocks of the payload stream; a block that fails to shrink under
/// Zstandard is stored raw.
#[verifier::rlimit(60)]
pub fn compress_nca_to_ncz_block_vec_with_plan(
    data: &[u8],
    level: i32,
    long_distance_mode: bool,
    block_size_exponent: u8,
    plan: Option<&NcaCompressionPlan>,
) -> (r: Result<Vec<u8>, NszError>)
    ensures
        data@.len() < 0x4000 ==> r is Err,
        !(14 <= block_size_exponent <= 32) && data@.len() >= 0x4000 ==> r is Err,
        r matches Ok(out) ==> (plan matches Some(p) ==> ncz_block_stream_ok(
            out@,
            ncz_prefix_bytes(data@, p.sections@),
            ncz_plan_payload(data@, *p),
            block_size_exponent,
            ncz_block_outputs(
                ncz_plan_payload(data@, *p),
                block_size_exponent,
                level,
                long_distance_mode,
            ),
        )),
        r matches Ok(out) ==> (plan is None ==> ncz_block_stream_ok(
            out@,
            ncz_default_prefix(data@),
            ncz_default_payload(data@),
            block_size_exponent,
            ncz_block_outputs(
                ncz_default_payload(data@),
                block_size_exponent,
                level,
                long_distance_mode,
            ),
        )),
        r is Ok ==> (plan matches Some(p) ==> {
            let payload = ncz_plan_payload(data@, *p);
            let blocks = ncz_block_outputs(payload, block_size_exponent, level, long_distance_mode);
            blocks.len() <= u32::MAX && (forall|k: int|
                0 <= k < blocks.len() ==> (#[trigger] blocks[k]).len() <= u32::MAX)
                && payload.len() <= usize::MAX
        }),
        r is Ok ==> (plan is None ==> {
            let payload = ncz_default_payload(data@);
            let blocks = ncz_block_outputs(payload, block_size_exponent, level, long_distance_mode);
            blocks.len() <= u32::MAX && (forall|k: int|
                0 <= k < blocks.len() ==> (#[trigger] blocks[k]).len() <= u32::MAX)
                && payload.len() <= usize::MAX
        }),
{
    proof {
        lemma_auto_spec_u32_to_from_le_bytes();
        lemma_auto_spec_u64_to_from_le_bytes();
    }
    let n = data.len();
    if n < 0x4000 {
        return Err(container_format_error("NCA data too short for NCZ conversion"));
    }
    if block_size_exponent < 14 || block_size_exponent > 32 {
        return Err(container_format_error("NCZBLOCK block size exponent out of range"));
    }
    let bs: u64 = 1u64 << (block_size_exponent as u64);
    proof {
        assert(bs >= 1) by (bit_vector)
            requires
                bs == 1u64 << (block_size_exponent as u64),
                block_size_exponent <= 32,
        ;
    }

    let payload: Vec<u8> = match plan {
        Some(p) => {
            match build_plan_payload(data, p) {
                Ok(v) => v,
                Err(e) => {
                    return Err(e);
                },
            }
        },
        None => copy_range(data, 0x4000, n),
    };
    let mut out: Vec<u8> = match plan {
        Some(p) => {
            match write_ncz_prefix(data, &p.sections) {
                Ok(v) => v,
                Err(e) => {
                    return Err(e);
                },
            }
        },
        None => {
            let mut o = copy_range(data, 0, 0x4000);
            o.push(0x4E);
            o.push(0x43);
            o.push(0x5A);
            o.push(0x53);
            o.push(0x45);
            o.push(0x43);
            o.push(0x54);
            o.push(0x4E);
            proof {
                assert(o@ =~= data@.subrange(0, 0x4000) + nczsectn_magic_bytes());
            }
            append_u64_le(&mut o, 1u64);
            append_u64_le(&mut o, 0x4000u64);
            append_u64_le(&mut o, (n - 0x4000) as u64);
            append_u64_le(&mut o, 0u64);
            append_u64_le(&mut o, 0u64);
            append_zeros(&mut o, 16);
            append_zeros(&mut o, 16);
            proof {
                assert(Seq::new(16, |i: int| 0u8) =~= crate::container::nsp::zero_bytes(16));
                assert(o@ =~= ncz_default_prefix(data@));
            }
            o
        },
    };
    let ghost prefix = out@;
    let ghost payload_ghost = payload@;

    let plen = payload.len();
    let ghost nb = ncz_block_count(plen as int, bs as int);
    let mut block_vecs: Vec<Vec<u8>> = Vec::new();
    let ghost mut blocks: Seq<Seq<u8>> = Seq::<Seq<u8>>::empty();
    let mut cursor: usize = 0;
    let mut bi: usize = 0;
    while cursor < plen
        invariant
            plen == payload@.len(),
            payload_ghost == payload@,
            bs >= 1,
            (cursor == bi * bs && bi * bs <= plen) || (cursor == plen && bi as int == nb),
            bi <= cursor || (cursor == 0 && bi == 0),
            cursor <= plen,
            nb == ncz_block_count(plen as int, bs as int),
            blocks.len() == bi,
            block_vecs@.len() == bi,
            forall|k: int| 0 <= k < bi ==> (#[trigger] block_vecs@[k])@ == blocks[k],
            forall|k: int|
                0 <= k < bi ==> block_encoding_ok(
                    #[trigger] blocks[k],
                    ncz_block_chunk(payload_ghost, bs as int, k),
                ) && blocks[k] == encoded_block_of(
                    ncz_block_chunk(payload_ghost, bs as int, k),
                    bs as int,
                    level,
                    long_distance_mode,
                ),
        decreases plen - cursor,
    {
        proof {
            assert(cursor == bi * bs);
        }
        let remaining: u64 = (plen - cursor) as u64;
        let take: u64 = if remaining < bs {
            remaining
        } else {
            bs
        };
        let end = cursor + take as usize;
        let chunk = copy_range(payload.as_slice(), cursor, end);
        let encoded = match encode_block_payload(
            chunk.as_slice(),
            bs,
            level,
            long_distance_mode,
        ) {
            Ok(b) => b,
            Err(e) => {
                return Err(e);
            },
        };
        proof {
            assert((bi as int + 1) * (bs as int) == bi as int * (bs as int) + (bs as int))
                by (nonlinear_arith);
            assert(chunk@ =~= ncz_block_chunk(payload_ghost, bs as int, bi as int));
        }
        proof {
            blocks = blocks.push(encoded@);
        }
        block_vecs.push(encoded);
        cursor = end;
        bi = bi + 1;
        proof {
            assert((bi as int) * (bs as int) == (bi as int - 1) * (bs as int) + (bs as int))
                by (nonlinear_arith);
            if cursor < plen {
                assert(take == bs);
                assert(cursor == bi * bs && bi * bs <= plen);
            } else {
                assert(cursor == plen);
                assert(plen as int - 1 - (bi as int - 1) * (bs as int) >= 0);
                assert(plen as int - 1 - (bi as int - 1) * (bs as int) < bs);
                vstd::arithmetic::div_mod::lemma_fundamental_div_mod_converse(
                    plen as int - 1,
                    bs as int,
                    bi as int - 1,
                    plen as int - 1 - (bi as int - 1) * (bs as int),
                );
                assert(bi as int == nb);
            }
        }
    }
    proof {
        assert(cursor == plen);
        if bi as int != nb {
            assert(cursor == bi * bs);
            if plen == 0 {
                assert(nb == 0);
                assert(bi == 0);
            } else {
                assert(bi >= 1);
                assert((bi as int) * (bs as int) == (bi as int - 1) * (bs as int) + (bs as int))
                    by (nonlinear_arith);
                assert(plen as int - 1 - (bi as int - 1) * (bs as int) >= 0);
                assert(plen as int - 1 - (bi as int - 1) * (bs as int) < bs);
                vstd::arithmetic::div_mod::lemma_fundamental_div_mod_converse(
                    plen as int - 1,
                    bs as int,
                    bi as int - 1,
                    plen as int - 1 - (bi as int - 1) * (bs as int),
                );
                assert(bi as int == nb);
            }
            assert(false);
        }
    }

    let n_blocks = block_vecs.len();
    if n_blocks as u64 > u32::MAX as u64 {
        return Err(container_format_error("NCZBLOCK block count overflow"));
    }
    if out.len() > usize::MAX - 24 {
        return Err(container_format_error("NCZ output exceeds platform limits"));
    }
    out.push(0x4E);
    out.push(0x43);
    out.push(0x5A);
    out.push(0x42);
    out.push(0x4C);
    out.push(0x4F);
    out.push(0x43);
    out.push(0x4B);
    out.push(0x02);
    out.push(0x01);
    out.push(0x00);
    out.push(block_size_exponent);
    proof {
        assert(out@ =~= prefix + nczblock_magic() + seq![2u8, 1u8, 0u8, block_size_exponent]);
    }
    append_u32_le(&mut out, n_blocks as u32);
    append_u64_le(&mut out, plen as u64);
    let ghost fixed = prefix + nczblock_magic() + seq![2u8, 1u8, 0u8, block_size_exponent]
        + spec_u32_to_le_bytes(nb as u32) + spec_u64_to_le_bytes(payload_ghost.len() as u64);

    let mut i: usize = 0;
    while i < n_blocks
        invariant
            n_blocks == block_vecs@.len(),
            n_blocks == blocks.len(),
            forall|k: int| 0 <= k < n_blocks ==> (#[trigger] block_vecs@[k])@ == blocks[k],
            i <= n_blocks,
            forall|k: int| 0 <= k < i ==> (#[trigger] blocks[k]).len() <= u32::MAX,
            out@ == fixed + ncz_size_rows(blocks, i as int),
        decreases n_blocks - i,
    {
        proof {
            lemma_auto_spec_u32_to_from_le_bytes();
        }
        let blen = block_vecs[i].len();
        if blen as u64 > u32::MAX as u64 {
            return Err(container_format_error("NCZBLOCK compressed block too large"));
        }
        if out.len() > usize::MAX - 4 {
            return Err(container_format_error("NCZ output exceeds platform limits"));
        }
        append_u32_le(&mut out, blen as u32);
        i = i + 1;
        proof {
            assert(out@ =~= fixed + ncz_size_rows(blocks, i as int));
        }
    }
    let ghost blocks_bounded = blocks;
    proof {
        assert(forall|k: int|
            0 <= k < blocks.len() ==> (#[trigger] blocks[k]).len() <= u32::MAX);
    }

    let ghost with_rows = out@;
    i = 0;
    while i < n_blocks
        invariant
            n_blocks == block_vecs@.len(),
            n_blocks == blocks.len(),
            blocks == blocks_bounded,
            forall|k: int| 0 <= k < n_blocks ==> (#[trigger] block_vecs@[k])@ == blocks[k],
            i <= n_blocks,
            out@ == with_rows + blocks.subrange(0, i as int).flatten(),
        decreases n_blocks - i,
    {
        let blen = block_vecs[i].len();
        if blen > usize::MAX - out.len() {
            return Err(container_format_error("NCZ output exceeds platform limits"));
        }
        append_slice(&mut out, block_vecs[i].as_slice());
        i = i + 1;
        proof {
            assert(blocks.subrange(0, i as int) =~= blocks.subrange(0, i - 1).push(
                blocks[i - 1],
            ));
            blocks.subrange(0, i - 1).lemma_flatten_push(blocks[i - 1]);
            assert(out@ =~= with_rows + blocks.subrange(0, i as int).flatten());
        }
    }
    proof {
        assert(blocks.subrange(0, n_blocks as int) =~= blocks);
        assert(ncz_block_stream_ok(
            out@,
            prefix,
            payload_ghost,
            block_size_exponent,
            blocks,
        ));
        assert(blocks =~= ncz_block_outputs(
            payload_ghost,
            block_size_exponent,
            level,
            long_distance_mode,
        ));
        match plan {
            Some(p) => {
                assert(prefix == ncz_prefix_bytes(data@, p.sections@));
                assert(payload_ghost == ncz_plan_payload(data@, *p));
                assert(ncz_block_stream_ok(
                    out@,
                    ncz_prefix_bytes(data@, p.sections@),
                    ncz_plan_payload(data@, *p),
                    block_size_exponent,
                    ncz_block_outputs(
                        ncz_plan_payload(data@, *p),
                        block_size_exponent,
                        level,
                        long_distance_mode,
                    ),
                ));
            },
            None => {
                assert(prefix == ncz_default_prefix(data@));
                assert(payload_ghost == ncz_default_payload(data@));
                assert(ncz_block_stream_ok(
                    out@,
                    ncz_default_prefix(data@),
                    ncz_default_payload(data@),
                    block_size_exponent,
                    ncz_block_outputs(
                        ncz_default_payload(data@),
                        block_size_exponent,
                        level,
                        long_distance_mode,
                    ),
                ));
            },
        }
        assert(payload_ghost.len() <= usize::MAX) by {
            assert(payload_ghost.len() == plen);
        }
    }
    Ok(out)
}



/// Checks that a plan tiles the data exactly (`ncz_plan_covers`).
pub fn plan_covers_exec(data: &[u8], plan: &NcaCompressionPlan) -> (r: bool)
    ensures
        r == ncz_plan_covers(data@, *plan),
{
    let n = data.len();
    let n_secs = plan.sections.len();
    if plan.offset_first_section < 0x4000 || plan.offset_first_section > n as u64 {
        return false;
    }
    if n_secs == 0 {
        return (n as u64) == 0x4000 && plan.offset_first_section == 0x4000;
    }
    if plan.sections[0].offset != plan.offset_first_section {
        return false;
    }
    let mut i: usize = 0;
    while i + 1 < n_secs
        invariant
            n_secs == plan.sections@.len(),
            i < n_secs,
            forall|j: int|
                0 <= j < i ==> (#[trigger] plan.sections@[j + 1]).offset == plan.sections@[j].offset
                    + plan.sections@[j].size,
        decreases n_secs - i,
    {
        let cur_off = plan.sections[i].offset;
        let cur_size = plan.sections[i].size;
        if cur_size > u64::MAX - cur_off {
            proof {
                assert(plan.sections@[i as int + 1].offset <= u64::MAX);
                assert(plan.sections@[i as int].offset + plan.sections@[i as int].size
                    > u64::MAX);
            }
            return false;
        }
        if plan.sections[i + 1].offset != cur_off + cur_size {
            proof {
                assert(plan.sections@[i as int + 1].offset != plan.sections@[i as int].offset
                    + plan.sections@[i as int].size);
            }
            return false;
        }
        i = i + 1;
    }
    let last_off = plan.sections[n_secs - 1].offset;
    let last_size = plan.sections[n_secs - 1].size;
    if last_size > u64::MAX - last_off {
        proof {
            assert(plan.sections@.last().offset + plan.sections@.last().size > u64::MAX);
            assert(data@.len() <= u64::MAX);
        }
        return false;
    }
    proof {
        assert(plan.sections@.last() == plan.sections@[n_secs - 1]);
    }
    last_off + last_size == n as u64
}

/// Builds the plan of a plan-less encode: one pass-through section
/// covering everything after the NCA prefix. It covers any buffer of
/// this length, so the round-trip laws apply to it.
pub fn build_default_plan(len: usize) -> (r: NcaCompressionPlan)
    requires
        len >= 0x4000,
    ensures
        r.offset_first_section == 0x4000,
        r.sections@.len() == 1,
        r.sections@[0].offset == 0x4000,
        r.sections@[0].size as int == len - 0x4000,
        r.sections@[0].crypto_type == 0,
        r.sections@[0].crypto_key@ == Seq::new(16, |i: int| 0u8),
        r.sections@[0].crypto_counter@ == Seq::new(16, |i: int| 0u8),
        forall|d: Seq<u8>| d.len() == len ==> ncz_plan_covers(d, r),
{
    let section = NcaEncryptionSection {
        offset: 0x4000,
        size: (len - 0x4000) as u64,
        crypto_type: 0,
        crypto_key: [0u8; 16],
        crypto_counter: [0u8; 16],
    };
    let mut sections: Vec<NcaEncryptionSection> = Vec::new();
    sections.push(section);
    let plan = NcaCompressionPlan {
        meta: crate::container::nca::NcaCompressionMeta {
            content_type: 0,
            size: len as u64,
            packed: true,
        },
        offset_first_section: 0x4000,
        sections,
    };
    proof {
        assert(plan.sections@[0].crypto_key@ =~= Seq::new(16, |i: int| 0u8));
        assert(plan.sections@[0].crypto_counter@ =~= Seq::new(16, |i: int| 0u8));
        assert forall|d: Seq<u8>| d.len() == len implies ncz_plan_covers(d, plan) by {
            assert(plan.sections@.last() == plan.sections@[0]);
        }
    }
    plan
}

// ---------------------------------------------------------------------
// The solid round-trip law.
// ---------------------------------------------------------------------

/// A subrange of `out` inside its pinned prefix equals the prefix's
/// subrange.
proof fn lemma_sub_of_prefix(out: Seq<u8>, prefix: Seq<u8>, a: int, b: int)
    requires
        out.len() >= prefix.len(),
        out.subrange(0, prefix.len() as int) == prefix,
        0 <= a <= b <= prefix.len(),
    ensures
        out.subrange(a, b) == prefix.subrange(a, b),
{
    assert forall|k: int| 0 <= k < b - a implies out.subrange(a, b)[k] == prefix.subrange(
        a,
        b,
    )[k] by {
        vstd::seq::axiom_seq_subrange_index(out, a, b, k);
        vstd::seq::axiom_seq_subrange_index(out, 0, prefix.len() as int, a + k);
        vstd::seq::axiom_seq_subrange_index(prefix, a, b, k);
    }
    assert(out.subrange(a, b) =~= prefix.subrange(a, b));
}

/// A nested subrange equals the outer subrange re-based.
proof fn lemma_sub_compose(s: Seq<u8>, a: int, b: int, c: int, d: int)
    requires
        0 <= a <= b <= s.len(),
        a <= c <= d <= b,
    ensures
        s.subrange(c, d) == s.subrange(a, b).subrange(c - a, d - a),
{
    assert forall|k: int| 0 <= k < d - c implies s.subrange(c, d)[k] == s.subrange(
        a,
        b,
    ).subrange(c - a, d - a)[k] by {
        vstd::seq::axiom_seq_subrange_index(s, c, d, k);
        vstd::seq::axiom_seq_subrange_index(s.subrange(a, b), c - a, d - a, k);
        vstd::seq::axiom_seq_subrange_index(s, a, b, c - a + k);
    }
    assert(s.subrange(c, d) =~= s.subrange(a, b).subrange(c - a, d - a));
}

/// A subrange inside a sequence's suffix equals the suffix's subrange.
proof fn lemma_sub_of_suffix(s: Seq<u8>, t: int, len: int, k: int)
    requires
        0 <= t <= s.len(),
        0 <= k,
        t + k <= s.len(),
        len == s.len(),
    ensures
        s.subrange(t, len as int).len() == s.len() - t,
        k < s.len() - t ==> s.subrange(t, len as int)[k] == s[t + k],
{
    if k < s.len() - t {
        vstd::seq::axiom_seq_subrange_index(s, t, len as int, k);
    }
}

/// The plan tiles the NCA exactly: the first section starts at or after
/// the stored prefix, each section begins where the previous one ends,
/// and the last ends at the end of the file. This is what header
/// analysis produces for a packed NCA.
pub open spec fn ncz_plan_covers(data: Seq<u8>, plan: NcaCompressionPlan) -> bool {
    let secs = plan.sections@;
    &&& 0x4000 <= plan.offset_first_section
    &&& plan.offset_first_section <= data.len()
    &&& (secs.len() == 0 ==> data.len() == 0x4000 && plan.offset_first_section == 0x4000)
    &&& (secs.len() > 0 ==> secs[0].offset == plan.offset_first_section)
    &&& (forall|i: int|
        0 <= i < secs.len() - 1 ==> (#[trigger] secs[i + 1]).offset == secs[i].offset
            + secs[i].size)
    &&& (secs.len() > 0 ==> secs.last().offset + secs.last().size == data.len())
}

/// The payload bytes one section contributes when nothing is skipped.
pub open spec fn ncz_section_chunk(data: Seq<u8>, s: NcaEncryptionSection) -> Seq<u8> {
    let raw = data.subrange(s.offset as int, s.offset + s.size);
    if s.size == 0 {
        Seq::<u8>::empty()
    } else if s.crypto_type == 3 || s.crypto_type == 4 {
        ctr_xor(s.crypto_key@, s.crypto_counter@, s.offset as int, raw)
    } else {
        raw
    }
}

/// Sum of the sizes of the first `i` plan sections.
pub open spec fn ncz_plan_total(secs: Seq<NcaEncryptionSection>, i: int) -> int
    decreases i,
{
    if i <= 0 {
        0
    } else {
        ncz_plan_total(secs, i - 1) + secs[i - 1].size
    }
}

/// Under a covering plan, every section lies inside the file and at or
/// after the first section offset.
proof fn lemma_cover_bounds(data: Seq<u8>, plan: NcaCompressionPlan, i: int)
    requires
        ncz_plan_covers(data, plan),
        0 <= i < plan.sections@.len(),
    ensures
        plan.sections@[i].offset >= plan.offset_first_section,
        plan.sections@[i].offset + plan.sections@[i].size <= data.len(),
    decreases plan.sections@.len() - i, i,
{
    let secs = plan.sections@;
    if i > 0 {
        lemma_cover_off_lb(data, plan, i);
    }
    if i < secs.len() - 1 {
        lemma_cover_end(data, plan, i);
    }
}

/// Section offsets never drop below the first section offset.
proof fn lemma_cover_off_lb(data: Seq<u8>, plan: NcaCompressionPlan, i: int)
    requires
        ncz_plan_covers(data, plan),
        0 <= i < plan.sections@.len(),
    ensures
        plan.sections@[i].offset >= plan.offset_first_section,
    decreases i,
{
    if i > 0 {
        lemma_cover_off_lb(data, plan, i - 1);
        assert(plan.sections@[(i - 1) + 1].offset == plan.sections@[i - 1].offset
            + plan.sections@[i - 1].size);
    }
}

/// Every section end stays inside the file.
proof fn lemma_cover_end(data: Seq<u8>, plan: NcaCompressionPlan, i: int)
    requires
        ncz_plan_covers(data, plan),
        0 <= i < plan.sections@.len(),
    ensures
        plan.sections@[i].offset + plan.sections@[i].size <= data.len(),
    decreases plan.sections@.len() - i,
{
    let secs = plan.sections@;
    if i < secs.len() - 1 {
        lemma_cover_end(data, plan, i + 1);
    }
}

/// With nothing skipped, the payload of sections `i` onward opens with
/// section `i`'s chunk.
proof fn lemma_parts_step(data: Seq<u8>, plan: NcaCompressionPlan, i: int)
    requires
        ncz_plan_covers(data, plan),
        0 <= i < plan.sections@.len(),
    ensures
        ncz_parts_payload(data, plan.sections@, i, 0) == ncz_section_chunk(
            data,
            plan.sections@[i],
        ) + ncz_parts_payload(data, plan.sections@, i + 1, 0),
        ncz_section_chunk(data, plan.sections@[i]).len() == plan.sections@[i].size,
{
    lemma_cover_bounds(data, plan, i);
}

/// The payload of sections `i` onward is the full payload with the
/// first `i` section sizes dropped.
proof fn lemma_parts_suffix(data: Seq<u8>, plan: NcaCompressionPlan, i: int)
    requires
        ncz_plan_covers(data, plan),
        0 <= i <= plan.sections@.len(),
    ensures
        ncz_plan_total(plan.sections@, i) + ncz_parts_payload(data, plan.sections@, i, 0).len()
            == ncz_parts_payload(data, plan.sections@, 0, 0).len(),
        ncz_parts_payload(data, plan.sections@, 0, 0).subrange(
            ncz_plan_total(plan.sections@, i),
            ncz_parts_payload(data, plan.sections@, 0, 0).len() as int,
        ) == ncz_parts_payload(data, plan.sections@, i, 0),
    decreases i,
{
    let p0 = ncz_parts_payload(data, plan.sections@, 0, 0);
    if i == 0 {
        assert(p0.subrange(0, p0.len() as int) =~= p0);
    } else {
        lemma_parts_suffix(data, plan, i - 1);
        lemma_parts_step(data, plan, i - 1);
        lemma_plan_total_nonneg(plan.sections@, i - 1);
        let prev = ncz_parts_payload(data, plan.sections@, i - 1, 0);
        let cur = ncz_parts_payload(data, plan.sections@, i, 0);
        let chunk = ncz_section_chunk(data, plan.sections@[i - 1]);
        assert(prev.subrange(chunk.len() as int, prev.len() as int) =~= cur);
        let tprev = ncz_plan_total(plan.sections@, i - 1);
        let t = ncz_plan_total(plan.sections@, i);
        assert(p0.subrange(t, p0.len() as int) =~= prev.subrange(
            chunk.len() as int,
            prev.len() as int,
        )) by {
            assert forall|k: int| 0 <= k < p0.len() - t implies p0.subrange(
                t,
                p0.len() as int,
            )[k] == prev.subrange(chunk.len() as int, prev.len() as int)[k] by {
                vstd::seq::axiom_seq_subrange_index(p0, t, p0.len() as int, k);
                vstd::seq::axiom_seq_subrange_index(
                    prev,
                    chunk.len() as int,
                    prev.len() as int,
                    k,
                );
                vstd::seq::axiom_seq_subrange_index(p0, tprev, p0.len() as int, chunk.len() + k);
            }
        }
    }
}

/// One row of the encoded section table equals its spec row.
proof fn lemma_table_row(secs: Seq<NcaEncryptionSection>, i: int, n: int)
    requires
        0 <= i < n <= secs.len(),
        forall|j: int| 0 <= j < n ==> (#[trigger] secs[j]).crypto_key@.len() == 16
            && secs[j].crypto_counter@.len() == 16,
    ensures
        ncz_section_table(secs, n).subrange(64 * i, 64 * i + 64) == ncz_section_row(secs[i]),
    decreases n,
{
    lemma_auto_spec_u64_to_from_le_bytes();
    lemma_ncz_section_table_len(secs, n);
    lemma_ncz_section_table_len(secs, n - 1);
    if i == n - 1 {
        assert(ncz_section_table(secs, n).subrange(64 * i, 64 * i + 64) =~= ncz_section_row(
            secs[i],
        ));
    } else {
        lemma_table_row(secs, i, n - 1);
        assert(ncz_section_table(secs, n).subrange(64 * i, 64 * i + 64) =~= ncz_section_table(
            secs,
            n - 1,
        ).subrange(64 * i, 64 * i + 64));
    }
}

/// The descriptor fields the decoder reads out of a solid NCZ equal the
/// plan's section fields.
proof fn lemma_out_fields(data: Seq<u8>, plan: NcaCompressionPlan, out: Seq<u8>, i: int)
    requires
        data.len() >= 0x4000,
        0 <= i < plan.sections@.len(),
        forall|j: int| 0 <= j < plan.sections@.len() ==> (#[trigger] plan.sections@[j])
            .crypto_key@.len() == 16 && plan.sections@[j].crypto_counter@.len() == 16,
        out.len() >= ncz_prefix_bytes(data, plan.sections@).len(),
        out.subrange(0, ncz_prefix_bytes(data, plan.sections@).len() as int) == ncz_prefix_bytes(
            data,
            plan.sections@,
        ),
    ensures
        crate::ncz::decompress::ncz_sec_offset(out, i) == plan.sections@[i].offset,
        crate::ncz::decompress::ncz_sec_size(out, i) == plan.sections@[i].size,
        crate::ncz::decompress::ncz_sec_crypto_type(out, i) == plan.sections@[i].crypto_type,
        crate::ncz::decompress::ncz_sec_key(out, i) == plan.sections@[i].crypto_key@,
        crate::ncz::decompress::ncz_sec_counter(out, i) == plan.sections@[i].crypto_counter@,
{
    lemma_auto_spec_u64_to_from_le_bytes();
    let secs = plan.sections@;
    let n = secs.len() as int;
    let prefix = ncz_prefix_bytes(data, secs);
    lemma_ncz_section_table_len(secs, n);
    lemma_table_row(secs, i, n);
    let row = ncz_section_row(secs[i]);
    assert(row.len() == 64);
    lemma_sub_of_prefix(out, prefix, 0x4010 + 64 * i, 0x4010 + 64 * i + 64);
    assert(prefix.subrange(0x4010 + 64 * i, 0x4010 + 64 * i + 64) =~= ncz_section_table(
        secs,
        n,
    ).subrange(64 * i, 64 * i + 64));
    assert(out.subrange(0x4010 + 64 * i, 0x4010 + 64 * i + 64) == row);
    let base = 0x4010 + 64 * i;
    lemma_sub_compose(out, base, base + 64, base, base + 8);
    lemma_sub_compose(out, base, base + 64, base + 8, base + 16);
    lemma_sub_compose(out, base, base + 64, base + 16, base + 24);
    lemma_sub_compose(out, base, base + 64, base + 32, base + 48);
    lemma_sub_compose(out, base, base + 64, base + 48, base + 64);
    assert(row.subrange(0, 8) =~= spec_u64_to_le_bytes(secs[i].offset));
    assert(row.subrange(8, 16) =~= spec_u64_to_le_bytes(secs[i].size));
    assert(row.subrange(16, 24) =~= spec_u64_to_le_bytes(secs[i].crypto_type));
    assert(row.subrange(32, 48) =~= secs[i].crypto_key@);
    assert(row.subrange(48, 64) =~= secs[i].crypto_counter@);
    assert(out.subrange(base, base + 8) == row.subrange(0, 8));
    assert(out.subrange(base + 8, base + 16) == row.subrange(8, 16));
    assert(out.subrange(base + 16, base + 24) == row.subrange(16, 24));
    assert(out.subrange(base + 32, base + 48) == row.subrange(32, 48));
    assert(out.subrange(base + 48, base + 64) == row.subrange(48, 64));
}

/// The size sums the decoder computes equal the plan's size sums.
proof fn lemma_totals_match(data: Seq<u8>, plan: NcaCompressionPlan, out: Seq<u8>, i: int)
    requires
        data.len() >= 0x4000,
        0 <= i <= plan.sections@.len(),
        forall|j: int| 0 <= j < plan.sections@.len() ==> (#[trigger] plan.sections@[j])
            .crypto_key@.len() == 16 && plan.sections@[j].crypto_counter@.len() == 16,
        out.len() >= ncz_prefix_bytes(data, plan.sections@).len(),
        out.subrange(0, ncz_prefix_bytes(data, plan.sections@).len() as int) == ncz_prefix_bytes(
            data,
            plan.sections@,
        ),
    ensures
        crate::ncz::decompress::ncz_payload_total(out, i) == ncz_plan_total(plan.sections@, i),
    decreases i,
{
    if i > 0 {
        lemma_totals_match(data, plan, out, i - 1);
        lemma_out_fields(data, plan, out, i - 1);
    }
}

/// Common restore argument: once the stream region of `out` decodes to
/// the plan payload, decompression succeeds and rebuilds the source.
proof fn lemma_ncz_restore(data: Seq<u8>, plan: NcaCompressionPlan, out: Seq<u8>)
    requires
        data.len() >= 0x4000,
        data.len() <= usize::MAX,
        ncz_plan_covers(data, plan),
        plan.sections@.len() <= u64::MAX,
        forall|j: int| 0 <= j < plan.sections@.len() ==> (#[trigger] plan.sections@[j])
            .crypto_key@.len() == 16 && plan.sections@[j].crypto_counter@.len() == 16,
        out.len() >= ncz_prefix_bytes(data, plan.sections@).len(),
        out.subrange(0, ncz_prefix_bytes(data, plan.sections@).len() as int) == ncz_prefix_bytes(
            data,
            plan.sections@,
        ),
        crate::ncz::decompress::ncz_stream_decode(out) == Some(ncz_plan_payload(data, plan)),
        crate::ncz::decompress::ncz_uses_block_stream(out) ==> nczb_decompressed_size(
            out.subrange(
                crate::ncz::decompress::ncz_stream_offset(out),
                out.len() as int,
            ),
        ) <= usize::MAX,
    ensures
        crate::ncz::decompress::ncz_decompress_ok(out),
        crate::ncz::decompress::ncz_rebuild(
            out,
            crate::ncz::decompress::ncz_stream_decode(out).unwrap(),
        ) == data,
{
    lemma_auto_spec_u64_to_from_le_bytes();
    let secs = plan.sections@;
    let n = secs.len() as int;
    let prefix = ncz_prefix_bytes(data, secs);
    lemma_ncz_section_table_len(secs, n);
    assert(prefix.len() == 0x4010 + 64 * n);

    lemma_sub_of_prefix(out, prefix, 0x4000, 0x4008);
    assert(prefix.subrange(0x4000, 0x4008) =~= nczsectn_magic_bytes());
    lemma_sub_of_prefix(out, prefix, 0x4008, 0x4010);
    assert(prefix.subrange(0x4008, 0x4010) =~= spec_u64_to_le_bytes(n as u64));
    assert(crate::ncz::decompress::ncz_section_count(out) == n);
    assert(crate::ncz::decompress::ncz_sections_wf(out));
    assert(crate::ncz::decompress::ncz_stream_offset(out) == prefix.len());

    let stream = ncz_plan_payload(data, plan);

    assert(forall|i: int|
        0 <= i < n ==> (#[trigger] crate::ncz::decompress::ncz_sec_offset(out, i))
            == secs[i].offset && crate::ncz::decompress::ncz_sec_size(out, i) == secs[i].size
            && crate::ncz::decompress::ncz_sec_crypto_type(out, i) == secs[i].crypto_type
            && crate::ncz::decompress::ncz_sec_key(out, i) == secs[i].crypto_key@
            && crate::ncz::decompress::ncz_sec_counter(out, i) == secs[i].crypto_counter@) by {
        assert forall|i: int| 0 <= i < n implies (#[trigger] crate::ncz::decompress::ncz_sec_offset(
            out,
            i,
        )) == secs[i].offset && crate::ncz::decompress::ncz_sec_size(out, i) == secs[i].size
            && crate::ncz::decompress::ncz_sec_crypto_type(out, i) == secs[i].crypto_type
            && crate::ncz::decompress::ncz_sec_key(out, i) == secs[i].crypto_key@
            && crate::ncz::decompress::ncz_sec_counter(out, i) == secs[i].crypto_counter@ by {
            lemma_out_fields(data, plan, out, i);
        }
    }
    lemma_totals_match(data, plan, out, n);

    let first = plan.offset_first_section as int;
    let gap = crate::ncz::decompress::ncz_leading_gap(out);
    if n == 0 {
        assert(gap == 0);
        assert(first == 0x4000 && data.len() == 0x4000);
    } else {
        assert(gap == (if first <= 0x4000 {
            0int
        } else {
            first - 0x4000
        }));
    }
    let p0 = ncz_parts_payload(data, secs, 0, 0);
    lemma_parts_suffix(data, plan, n);
    assert(ncz_parts_payload(data, secs, n as int, 0) =~= Seq::<u8>::empty());
    assert(p0.len() == ncz_plan_total(secs, n));
    if n > 0 {
        assert(ncz_plan_total(secs, n) == data.len() - first) by {
            lemma_plan_total_is_extent(data, plan, n);
        }
    } else {
        assert(ncz_plan_total(secs, 0) == 0);
    }
    assert(stream.len() == gap + ncz_plan_total(secs, n));
    assert(crate::ncz::decompress::ncz_decompress_ok(out));

    let rebuilt = crate::ncz::decompress::ncz_rebuild(out, stream);
    lemma_sub_of_prefix(out, prefix, 0, 0x4000);
    assert(prefix.subrange(0, 0x4000) =~= data.subrange(0, 0x4000));
    assert(out.subrange(0, 0x4000) == data.subrange(0, 0x4000));
    assert(stream.subrange(0, gap) =~= data.subrange(0x4000, first)) by {
        if first > 0x4000 {
            assert(forall|k: int|
                0 <= k < gap ==> stream[k] == data.subrange(0x4000, first)[k]);
        }
    }
    lemma_sections_out_eq(data, plan, out, stream, n);
    lemma_cover_concat(data, plan, n);
    assert(crate::ncz::decompress::ncz_sections_out(out, stream, n) == sections_src_concat(
        data,
        secs,
        n,
    ));
    if n > 0 {
        assert(sections_src_concat(data, secs, n) == data.subrange(first, data.len() as int));
    } else {
        assert(sections_src_concat(data, secs, 0) =~= data.subrange(first, data.len() as int));
    }
    assert(rebuilt =~= data);
}

/// The solid round-trip law: decompressing what the solid encoder built
/// from a covering plan restores the NCA byte for byte. CTR-encrypted
/// sections come back exactly because applying the keystream twice at
/// the same position is the identity.
pub proof fn lemma_ncz_solid_roundtrip(data: Seq<u8>, plan: NcaCompressionPlan, out: Seq<u8>)
    requires
        data.len() >= 0x4000,
        data.len() <= usize::MAX,
        ncz_plan_covers(data, plan),
        plan.sections@.len() <= u64::MAX,
        forall|j: int| 0 <= j < plan.sections@.len() ==> (#[trigger] plan.sections@[j])
            .crypto_key@.len() == 16 && plan.sections@[j].crypto_counter@.len() == 16,
        ({
            let prefix = ncz_prefix_bytes(data, plan.sections@);
            &&& out.len() >= prefix.len() + 4
            &&& out.subrange(0, prefix.len() as int) == prefix
            &&& out.subrange(prefix.len() as int, prefix.len() as int + 4) == zstd_frame_magic()
            &&& crate::ncz::decompress::zstd_ok(
                out.subrange(prefix.len() as int, out.len() as int),
            )
            &&& crate::ncz::decompress::zstd_decode_of(
                out.subrange(prefix.len() as int, out.len() as int),
            ) == ncz_plan_payload(data, plan)
        }),
    ensures
        crate::ncz::decompress::ncz_decompress_ok(out),
        crate::ncz::decompress::ncz_rebuild(
            out,
            crate::ncz::decompress::ncz_stream_decode(out).unwrap(),
        ) == data,
{
    lemma_auto_spec_u64_to_from_le_bytes();
    let secs = plan.sections@;
    let n = secs.len() as int;
    let prefix = ncz_prefix_bytes(data, secs);
    lemma_ncz_section_table_len(secs, n);
    lemma_sub_of_prefix(out, prefix, 0x4000, 0x4008);
    assert(prefix.subrange(0x4000, 0x4008) =~= nczsectn_magic_bytes());
    lemma_sub_of_prefix(out, prefix, 0x4008, 0x4010);
    assert(prefix.subrange(0x4008, 0x4010) =~= spec_u64_to_le_bytes(n as u64));
    assert(crate::ncz::decompress::ncz_section_count(out) == n);
    assert(crate::ncz::decompress::ncz_stream_offset(out) == prefix.len());
    assert(!crate::ncz::decompress::ncz_uses_block_stream(out)) by {
        if out.len() >= prefix.len() + 8 {
            assert(out.subrange(prefix.len() as int, prefix.len() as int + 8)[0] == out.subrange(
                prefix.len() as int,
                prefix.len() as int + 4,
            )[0]);
            assert(zstd_frame_magic()[0] != crate::ncz::header::nczblock_magic()[0]);
        }
    }
    assert(crate::ncz::decompress::ncz_stream_decode(out) == Some(
        ncz_plan_payload(data, plan),
    ));
    lemma_ncz_restore(data, plan, out);
}

/// All section outputs together are the covered source ranges.
proof fn lemma_sections_out_eq(
    data: Seq<u8>,
    plan: NcaCompressionPlan,
    out: Seq<u8>,
    stream: Seq<u8>,
    i: int,
)
    requires
        data.len() >= 0x4000,
        ncz_plan_covers(data, plan),
        plan.sections@.len() <= u64::MAX,
        0 <= i <= plan.sections@.len(),
        forall|j: int| 0 <= j < plan.sections@.len() ==> (#[trigger] plan.sections@[j])
            .crypto_key@.len() == 16 && plan.sections@[j].crypto_counter@.len() == 16,
        out.len() >= ncz_prefix_bytes(data, plan.sections@).len(),
        out.subrange(0, ncz_prefix_bytes(data, plan.sections@).len() as int) == ncz_prefix_bytes(
            data,
            plan.sections@,
        ),
        stream == ncz_plan_payload(data, plan),
    ensures
        crate::ncz::decompress::ncz_sections_out(out, stream, i) == sections_src_concat(
            data,
            plan.sections@,
            i,
        ),
    decreases i,
{
    if i > 0 {
        lemma_sections_out_eq(data, plan, out, stream, i - 1);
        lemma_section_out_restores(data, plan, out, stream, i - 1);
    }
}

/// The plan's size sum equals the extent it covers.
proof fn lemma_plan_total_is_extent(data: Seq<u8>, plan: NcaCompressionPlan, i: int)
    requires
        ncz_plan_covers(data, plan),
        0 < i <= plan.sections@.len(),
        plan.sections@.len() > 0,
    ensures
        ncz_plan_total(plan.sections@, i) == plan.sections@[i - 1].offset + plan.sections@[i
            - 1].size - plan.offset_first_section,
    decreases i,
{
    if i > 1 {
        lemma_plan_total_is_extent(data, plan, i - 1);
        assert(plan.sections@[(i - 2) + 1].offset == plan.sections@[i - 2].offset
            + plan.sections@[i - 2].size);
    } else {
        assert(ncz_plan_total(plan.sections@, 0) == 0);
        assert(plan.sections@[0].offset == plan.offset_first_section);
    }
}

/// Size sums are never negative.
proof fn lemma_plan_total_nonneg(secs: Seq<NcaEncryptionSection>, i: int)
    requires
        0 <= i,
    ensures
        ncz_plan_total(secs, i) >= 0,
    decreases i,
{
    if i > 0 {
        lemma_plan_total_nonneg(secs, i - 1);
    }
}

/// Section `i`'s output slice of the stream, re-encrypted as recorded,
/// is exactly its source range.
proof fn lemma_section_out_restores(
    data: Seq<u8>,
    plan: NcaCompressionPlan,
    out: Seq<u8>,
    stream: Seq<u8>,
    i: int,
)
    requires
        data.len() >= 0x4000,
        ncz_plan_covers(data, plan),
        plan.sections@.len() <= u64::MAX,
        0 <= i < plan.sections@.len(),
        forall|j: int| 0 <= j < plan.sections@.len() ==> (#[trigger] plan.sections@[j])
            .crypto_key@.len() == 16 && plan.sections@[j].crypto_counter@.len() == 16,
        out.len() >= ncz_prefix_bytes(data, plan.sections@).len(),
        out.subrange(0, ncz_prefix_bytes(data, plan.sections@).len() as int) == ncz_prefix_bytes(
            data,
            plan.sections@,
        ),
        stream == ncz_plan_payload(data, plan),
    ensures
        crate::ncz::decompress::ncz_section_out(out, stream, i) == data.subrange(
            plan.sections@[i].offset as int,
            plan.sections@[i].offset + plan.sections@[i].size,
        ),
        crate::ncz::decompress::ncz_sections_out(out, stream, i + 1)
            == crate::ncz::decompress::ncz_sections_out(out, stream, i) + data.subrange(
            plan.sections@[i].offset as int,
            plan.sections@[i].offset + plan.sections@[i].size,
        ),
{
    let secs = plan.sections@;
    let n = secs.len() as int;
    let s = secs[i];
    let prefix = ncz_prefix_bytes(data, secs);
    lemma_auto_spec_u64_to_from_le_bytes();
    lemma_ncz_section_table_len(secs, n);
    lemma_sub_of_prefix(out, prefix, 0x4008, 0x4010);
    assert(prefix.subrange(0x4008, 0x4010) =~= spec_u64_to_le_bytes(n as u64));
    assert(crate::ncz::decompress::ncz_section_count(out) == n);
    lemma_out_fields(data, plan, out, i);
    lemma_totals_match(data, plan, out, i);
    lemma_cover_bounds(data, plan, i);
    let gap = crate::ncz::decompress::ncz_leading_gap(out);
    let first = plan.offset_first_section as int;
    assert(gap == (if first <= 0x4000 {
        0int
    } else {
        first - 0x4000
    })) by {
        lemma_out_fields(data, plan, out, 0);
    }
    let p0 = ncz_parts_payload(data, secs, 0, 0);
    lemma_parts_suffix(data, plan, i);
    lemma_parts_step(data, plan, i);
    let chunk = ncz_section_chunk(data, s);
    lemma_parts_suffix(data, plan, n);
    assert(ncz_parts_payload(data, secs, n as int, 0) =~= Seq::<u8>::empty());
    // The stream slice at this section's position is its chunk.
    let t = ncz_plan_total(secs, i);
    lemma_plan_total_nonneg(secs, i);
    let suffix = ncz_parts_payload(data, secs, i, 0);
    assert(p0.subrange(t, p0.len() as int) == suffix);
    assert(suffix == chunk + ncz_parts_payload(data, secs, i + 1, 0));
    assert(chunk.len() == s.size);
    assert(p0.len() >= t + s.size);
    assert(p0.subrange(t, t + s.size) =~= chunk) by {
        assert forall|k: int| 0 <= k < s.size implies p0.subrange(t, t + s.size)[k] == chunk[k]
            by {
            vstd::seq::axiom_seq_subrange_index(p0, t, t + s.size as int, k);
            vstd::seq::axiom_seq_subrange_index(p0, t, p0.len() as int, k);
            assert(suffix[k] == chunk[k]);
        }
    }
    assert(stream.subrange(gap + t, gap + t + s.size) =~= chunk) by {
        assert forall|k: int| 0 <= k < s.size implies stream.subrange(
            gap + t,
            gap + t + s.size as int,
        )[k] == chunk[k] by {
            vstd::seq::axiom_seq_subrange_index(stream, gap + t, gap + t + s.size as int, k);
            vstd::seq::axiom_seq_subrange_index(p0, t, t + s.size as int, k);
            if first > 0x4000 {
                assert(stream[gap + t + k] == p0[t + k]);
            } else {
                assert(stream == p0);
            }
            assert(p0.subrange(t, t + s.size as int)[k] == chunk[k]);
        }
    }
    let raw = data.subrange(s.offset as int, s.offset + s.size);
    if s.size == 0 {
        assert(raw =~= Seq::<u8>::empty());
        assert(crate::ncz::decompress::ncz_section_out(out, stream, i) =~= raw);
    } else if s.crypto_type == 3 || s.crypto_type == 4 {
        crate::crypto::primitives::lemma_ctr_xor_involution(
            s.crypto_key@,
            s.crypto_counter@,
            s.offset as int,
            raw,
        );
        assert(crate::ncz::decompress::ncz_section_out(out, stream, i) == ctr_xor(
            s.crypto_key@,
            s.crypto_counter@,
            s.offset as int,
            chunk,
        ));
        assert(crate::ncz::decompress::ncz_section_out(out, stream, i) == raw);
    } else {
        assert(crate::ncz::decompress::ncz_section_out(out, stream, i) == chunk);
        assert(chunk == raw);
    }
}

/// The concatenation of all covered source ranges is the tail of the
/// file from the first section offset.
proof fn lemma_cover_concat(data: Seq<u8>, plan: NcaCompressionPlan, i: int)
    requires
        ncz_plan_covers(data, plan),
        0 <= i <= plan.sections@.len(),
    ensures
        sections_src_concat(data, plan.sections@, i) == data.subrange(
            plan.offset_first_section as int,
            (if i == 0 {
                plan.offset_first_section as int
            } else {
                plan.sections@[i - 1].offset + plan.sections@[i - 1].size
            }),
        ),
    decreases i,
{
    if i == 0 {
        assert(sections_src_concat(data, plan.sections@, 0) =~= data.subrange(
            plan.offset_first_section as int,
            plan.offset_first_section as int,
        ));
    } else {
        lemma_cover_concat(data, plan, i - 1);
        lemma_cover_bounds(data, plan, i - 1);
        if i >= 2 {
            assert(plan.sections@[(i - 2) + 1].offset == plan.sections@[i - 2].offset
                + plan.sections@[i - 2].size);
        }
        assert(sections_src_concat(data, plan.sections@, i) =~= data.subrange(
            plan.offset_first_section as int,
            plan.sections@[i - 1].offset + plan.sections@[i - 1].size,
        ));
    }
}

/// The first `i` covered source ranges, concatenated.
pub open spec fn sections_src_concat(data: Seq<u8>, secs: Seq<NcaEncryptionSection>, i: int) -> Seq<
    u8,
>
    decreases i,
{
    if i <= 0 {
        Seq::<u8>::empty()
    } else {
        sections_src_concat(data, secs, i - 1) + data.subrange(
            secs[i - 1].offset as int,
            secs[i - 1].offset + secs[i - 1].size,
        )
    }
}


// ---------------------------------------------------------------------
// The block round-trip law.
// ---------------------------------------------------------------------

/// Sum of the lengths of the first `i` encoded blocks.
pub open spec fn blocks_len_prefix(blocks: Seq<Seq<u8>>, i: int) -> int
    decreases i,
{
    if i <= 0 {
        0
    } else {
        blocks_len_prefix(blocks, i - 1) + blocks[i - 1].len()
    }
}

/// The size table over `i` rows is `4 * i` bytes.
proof fn lemma_size_rows_len(blocks: Seq<Seq<u8>>, i: int)
    requires
        0 <= i,
    ensures
        ncz_size_rows(blocks, i).len() == 4 * i,
    decreases i,
{
    lemma_auto_spec_u32_to_from_le_bytes();
    if i > 0 {
        lemma_size_rows_len(blocks, i - 1);
    }
}

/// One row of the size table holds the block's length.
proof fn lemma_size_row_at(blocks: Seq<Seq<u8>>, i: int, n: int)
    requires
        0 <= i < n <= blocks.len(),
    ensures
        ncz_size_rows(blocks, n).subrange(4 * i, 4 * i + 4) == spec_u32_to_le_bytes(
            blocks[i].len() as u32,
        ),
    decreases n,
{
    lemma_auto_spec_u32_to_from_le_bytes();
    lemma_size_rows_len(blocks, n);
    lemma_size_rows_len(blocks, n - 1);
    if i == n - 1 {
        assert(ncz_size_rows(blocks, n).subrange(4 * i, 4 * i + 4) =~= spec_u32_to_le_bytes(
            blocks[i].len() as u32,
        ));
    } else {
        lemma_size_row_at(blocks, i, n - 1);
        assert(ncz_size_rows(blocks, n).subrange(4 * i, 4 * i + 4) =~= ncz_size_rows(
            blocks,
            n - 1,
        ).subrange(4 * i, 4 * i + 4));
    }
}

/// Flattening a block prefix is the front-to-back concatenation.
proof fn lemma_flatten_prefix_len(blocks: Seq<Seq<u8>>, i: int)
    requires
        0 <= i <= blocks.len(),
    ensures
        blocks.subrange(0, i).flatten().len() == blocks_len_prefix(blocks, i),
        blocks_len_prefix(blocks, i) >= 0,
    decreases i,
{
    if i == 0 {
        assert(blocks.subrange(0, 0) =~= Seq::<Seq<u8>>::empty());
        assert(Seq::<Seq<u8>>::empty().flatten() =~= Seq::<u8>::empty());
    } else {
        lemma_flatten_prefix_len(blocks, i - 1);
        assert(blocks.subrange(0, i) =~= blocks.subrange(0, i - 1).push(blocks[i - 1]));
        blocks.subrange(0, i - 1).lemma_flatten_push(blocks[i - 1]);
    }
}

/// A block sits in the flattened stream at its length-prefix offset.
proof fn lemma_flatten_block_at(blocks: Seq<Seq<u8>>, i: int, n: int)
    requires
        0 <= i < n <= blocks.len(),
    ensures
        blocks_len_prefix(blocks, i) + blocks[i].len() <= blocks_len_prefix(blocks, n),
        blocks.subrange(0, n).flatten().subrange(
            blocks_len_prefix(blocks, i),
            blocks_len_prefix(blocks, i) + blocks[i].len(),
        ) == blocks[i],
    decreases n,
{
    lemma_flatten_prefix_len(blocks, n);
    lemma_flatten_prefix_len(blocks, i);
    lemma_flatten_prefix_len(blocks, i + 1);
    if i == n - 1 {
        assert(blocks.subrange(0, n) =~= blocks.subrange(0, n - 1).push(blocks[n - 1]));
        blocks.subrange(0, n - 1).lemma_flatten_push(blocks[n - 1]);
        lemma_flatten_prefix_len(blocks, n - 1);
        assert(blocks.subrange(0, n).flatten().subrange(
            blocks_len_prefix(blocks, i),
            blocks_len_prefix(blocks, i) + blocks[i].len(),
        ) =~= blocks[i]);
    } else {
        lemma_flatten_block_at(blocks, i, n - 1);
        assert(blocks.subrange(0, n) =~= blocks.subrange(0, n - 1).push(blocks[n - 1]));
        blocks.subrange(0, n - 1).lemma_flatten_push(blocks[n - 1]);
        lemma_flatten_prefix_len(blocks, n - 1);
        assert(blocks.subrange(0, n).flatten().subrange(
            blocks_len_prefix(blocks, i),
            blocks_len_prefix(blocks, i) + blocks[i].len(),
        ) =~= blocks.subrange(0, n - 1).flatten().subrange(
            blocks_len_prefix(blocks, i),
            blocks_len_prefix(blocks, i) + blocks[i].len(),
        ));
    }
}

/// The compressed-size sums the decoder reads equal the block lengths.
proof fn lemma_csize_prefix_match(tail: Seq<u8>, blocks: Seq<Seq<u8>>, i: int)
    requires
        0 <= i <= blocks.len(),
        forall|j: int|
            0 <= j < blocks.len() ==> (#[trigger] nczb_block_size(tail, j)) as int == blocks[
                j
            ].len() && blocks[j].len() <= u32::MAX,
    ensures
        crate::ncz::decompress::nczb_csize_prefix(tail, i) == blocks_len_prefix(blocks, i),
    decreases i,
{
    if i > 0 {
        lemma_csize_prefix_match(tail, blocks, i - 1);
    }
}

/// The structural facts of a well-formed block stream tail: counts and
/// sizes as declared, every block's bytes in place, and every block
/// covering its chunk.
pub open spec fn block_stream_facts(
    tail: Seq<u8>,
    payload: Seq<u8>,
    exp: u8,
    blocks: Seq<Seq<u8>>,
) -> bool {
    &&& nczb_count(tail) == blocks.len()
    &&& nczb_decompressed_size(tail) == payload.len()
    &&& (forall|j: int|
        0 <= j < blocks.len() ==> (#[trigger] nczb_block_size(tail, j)) as int == blocks[
            j
        ].len() && blocks[j].len() <= u32::MAX)
    &&& (forall|j: int|
        #![trigger blocks_len_prefix(blocks, j)]
        0 <= j < blocks.len() ==> 24 + 4 * blocks.len() + blocks_len_prefix(blocks, j)
            + blocks[j].len() <= tail.len() && tail.subrange(
            24 + 4 * blocks.len() + blocks_len_prefix(blocks, j),
            24 + 4 * blocks.len() + blocks_len_prefix(blocks, j) + blocks[j].len(),
        ) == blocks[j])
    &&& (forall|j: int|
        0 <= j < blocks.len() ==> block_encoding_ok(
            #[trigger] blocks[j],
            ncz_block_chunk(payload, (1u64 << (exp as u64)) as int, j),
        ))
}

/// Walking the size table decodes every block back to its chunk.
#[verifier::rlimit(100)]
proof fn lemma_block_decode_upto(
    payload: Seq<u8>,
    exp: u8,
    blocks: Seq<Seq<u8>>,
    tail: Seq<u8>,
    i: int,
)
    requires
        14 <= exp <= 32,
        payload.len() <= usize::MAX,
        blocks.len() == ncz_block_count(payload.len() as int, (1u64 << (exp as u64)) as int),
        block_stream_facts(tail, payload, exp, blocks),
        0 <= i <= blocks.len(),
    ensures
        crate::ncz::decompress::nczb_decode_upto(
            tail,
            (1u64 << (exp as u64)) as int,
            i,
        ) == Some(
            payload.subrange(
                0,
                (if i * ((1u64 << (exp as u64)) as int) < payload.len() {
                    i * ((1u64 << (exp as u64)) as int)
                } else {
                    payload.len() as int
                }),
            ),
        ),
    decreases i,
{
    let bsw = 1u64 << (exp as u64);
    assert(bsw >= 1) by (bit_vector)
        requires
            14 <= exp <= 32,
            bsw == 1u64 << (exp as u64),
    ;
    let bs = bsw as int;
    let nb = blocks.len() as int;
    let plen = payload.len() as int;
    if i == 0 {
        assert(crate::ncz::decompress::nczb_decode_upto(tail, bs, 0) == Some(
            Seq::<u8>::empty(),
        ));
        assert(0 * bs == 0);
        assert(payload.subrange(0, 0) =~= Seq::<u8>::empty());
    } else {
        lemma_block_decode_upto(payload, exp, blocks, tail, i - 1);
        assert((i - 1) * bs + bs == i * bs) by (nonlinear_arith);
        assert((i - 1) * bs >= 0) by (nonlinear_arith)
            requires
                i >= 1,
                bs >= 1,
        ;
        let m: int = if (i - 1) * bs < plen {
            (i - 1) * bs
        } else {
            plen
        };
        let acc = payload.subrange(0, m);
        // The previous blocks all filled to the block size, so the
        // accumulated length is below the declared size.
        assert(m == (i - 1) * bs) by {
            if (i - 1) * bs >= plen {
                // Then block i-1 would not exist: nb blocks cover plen.
                assert(i - 1 < nb);
                assert(nb == (plen - 1) / bs + 1);
                assert(plen >= 1) by {
                    if plen == 0 {
                        assert(nb == 0);
                    }
                }
                assert((i - 1) <= (plen - 1) / bs);
                vstd::arithmetic::div_mod::lemma_fundamental_div_mod(plen - 1, bs);
                assert((plen - 1) / bs * bs <= plen - 1) by (nonlinear_arith)
                    requires
                        bs >= 1,
                        plen >= 1,
                        (plen - 1) == bs * ((plen - 1) / bs) + ((plen - 1) % bs),
                        (plen - 1) % bs >= 0,
                ;
                assert((i - 1) * bs <= (plen - 1) / bs * bs) by (nonlinear_arith)
                    requires
                        bs >= 1,
                        i - 1 <= (plen - 1) / bs,
                ;
            }
        }
        let cs = blocks[i - 1].len() as int;
        let start = 24 + 4 * nb + crate::ncz::decompress::nczb_csize_prefix(tail, i - 1);
        assert(forall|j: int|
            0 <= j < blocks.len() ==> (#[trigger] nczb_block_size(tail, j)) as int == blocks[
                j
            ].len() && blocks[j].len() <= u32::MAX);
        lemma_csize_prefix_match(tail, blocks, i - 1);
        assert(tail.subrange(
            24 + 4 * blocks.len() + blocks_len_prefix(blocks, i - 1),
            24 + 4 * blocks.len() + blocks_len_prefix(blocks, i - 1) + blocks[i - 1].len(),
        ) == blocks[i - 1]);
        assert(start == 24 + 4 * blocks.len() + blocks_len_prefix(blocks, i - 1));
        let frame = tail.subrange(start, start + cs);
        assert(frame == blocks[i - 1]);
        let chunk = ncz_block_chunk(payload, bs, i - 1);
        let chunk_end: int = if i * bs < plen {
            i * bs
        } else {
            plen
        };
        assert(chunk == payload.subrange((i - 1) * bs, chunk_end));
        assert(chunk.len() == chunk_end - m);
        let rem = plen - m;
        let expected: int = if rem < bs {
            rem
        } else {
            bs
        };
        assert(expected == chunk.len());
        assert(block_encoding_ok(blocks[i - 1], chunk));
        if blocks[i - 1] == chunk {
            assert(cs == expected);
            assert(crate::ncz::decompress::nczb_decode_upto(tail, bs, i) == Some(acc + frame));
        } else {
            assert(crate::ncz::decompress::zstd_ok(frame) && crate::ncz::decompress::zstd_decode_of(
                frame,
            ) == chunk && cs < chunk.len());
            assert(cs != expected);
            assert(crate::ncz::decompress::nczb_decode_upto(tail, bs, i) == Some(
                acc + crate::ncz::decompress::zstd_decode_of(frame),
            ));
        }
        assert(acc + chunk =~= payload.subrange(0, chunk_end));
        assert(crate::ncz::decompress::nczb_decode_upto(tail, bs, i) == Some(
            payload.subrange(0, chunk_end),
        ));
        assert(chunk_end == (if i * bs < plen {
            i * bs
        } else {
            plen
        }));
    }
}


/// The block round-trip law: decompressing what the block encoder built
/// from a covering plan restores the NCA byte for byte, whichever
/// blocks were stored raw and whichever were compressed.
#[verifier::rlimit(100)]
#[verifier::spinoff_prover]
pub proof fn lemma_ncz_block_roundtrip(
    data: Seq<u8>,
    plan: NcaCompressionPlan,
    out: Seq<u8>,
    blocks: Seq<Seq<u8>>,
    exp: u8,
)
    requires
        data.len() >= 0x4000,
        data.len() <= usize::MAX,
        ncz_plan_covers(data, plan),
        plan.sections@.len() <= u64::MAX,
        forall|j: int| 0 <= j < plan.sections@.len() ==> (#[trigger] plan.sections@[j])
            .crypto_key@.len() == 16 && plan.sections@[j].crypto_counter@.len() == 16,
        14 <= exp <= 32,
        blocks.len() <= u32::MAX,
        forall|j: int| 0 <= j < blocks.len() ==> (#[trigger] blocks[j]).len() <= u32::MAX,
        ncz_plan_payload(data, plan).len() <= usize::MAX,
        ncz_block_stream_ok(
            out,
            ncz_prefix_bytes(data, plan.sections@),
            ncz_plan_payload(data, plan),
            exp,
            blocks,
        ),
    ensures
        crate::ncz::decompress::ncz_decompress_ok(out),
        crate::ncz::decompress::ncz_rebuild(
            out,
            crate::ncz::decompress::ncz_stream_decode(out).unwrap(),
        ) == data,
{
    lemma_auto_spec_u32_to_from_le_bytes();
    lemma_auto_spec_u64_to_from_le_bytes();
    let secs = plan.sections@;
    let n = secs.len() as int;
    let prefix = ncz_prefix_bytes(data, secs);
    let payload = ncz_plan_payload(data, plan);
    let plen = payload.len() as int;
    let bsw = 1u64 << (exp as u64);
    assert(bsw >= 1) by (bit_vector)
        requires
            14 <= exp <= 32,
            bsw == 1u64 << (exp as u64),
    ;
    let bs = bsw as int;
    let nb = blocks.len() as int;
    assert(nb == ncz_block_count(plen, bs));
    lemma_ncz_section_table_len(secs, n);
    lemma_size_rows_len(blocks, nb);
    assert(blocks.subrange(0, nb) =~= blocks);
    lemma_flatten_prefix_len(blocks, nb);
    let rows = ncz_size_rows(blocks, nb);
    let flat = blocks.flatten();
    let bstream = nczblock_magic() + seq![2u8, 1u8, 0u8, exp] + spec_u32_to_le_bytes(nb as u32)
        + spec_u64_to_le_bytes(plen as u64) + rows + flat;
    assert(out == prefix + bstream);
    assert(out.subrange(0, prefix.len() as int) =~= prefix);
    let so = prefix.len() as int;
    let tail = out.subrange(so, out.len() as int);
    assert(tail =~= bstream);

    // Field extraction out of the block stream.
    assert(tail.subrange(0, 8) =~= nczblock_magic());
    assert(tail.subrange(8, 12) =~= seq![2u8, 1u8, 0u8, exp]);
    assert(tail[11] == exp);
    assert(tail.subrange(12, 16) =~= spec_u32_to_le_bytes(nb as u32));
    assert(nczb_count(tail) == nb);
    assert(tail.subrange(16, 24) =~= spec_u64_to_le_bytes(plen as u64));
    assert(nczb_decompressed_size(tail) == plen);
    assert(tail.len() == 24 + 4 * nb + flat.len());
    assert(crate::ncz::header::nczb_header_wf(tail));
    assert(tail.subrange(24, 24 + 4 * nb) =~= rows);
    assert forall|j: int| 0 <= j < nb implies (#[trigger] nczb_block_size(tail, j)) as int
        == blocks[j].len() && blocks[j].len() <= u32::MAX by {
        lemma_size_row_at(blocks, j, nb);
        assert(tail.subrange(24 + 4 * j, 24 + 4 * j + 4) =~= rows.subrange(4 * j, 4 * j + 4));
        assert(blocks[j].len() <= u32::MAX);
    }
    assert(tail.subrange(24 + 4 * nb, tail.len() as int) =~= flat);
    assert forall|j: int|
        #![trigger blocks_len_prefix(blocks, j)]
        0 <= j < nb implies 24 + 4 * blocks.len() + blocks_len_prefix(blocks, j) + blocks[
        j
    ].len() <= tail.len() && tail.subrange(
        24 + 4 * blocks.len() + blocks_len_prefix(blocks, j),
        24 + 4 * blocks.len() + blocks_len_prefix(blocks, j) + blocks[j].len(),
    ) == blocks[j] by {
        lemma_flatten_block_at(blocks, j, nb);
        lemma_flatten_prefix_len(blocks, j);
        assert(flat.subrange(
            blocks_len_prefix(blocks, j),
            blocks_len_prefix(blocks, j) + blocks[j].len(),
        ) == blocks[j]);
        assert(tail.subrange(
            24 + 4 * nb + blocks_len_prefix(blocks, j),
            24 + 4 * nb + blocks_len_prefix(blocks, j) + blocks[j].len(),
        ) =~= flat.subrange(
            blocks_len_prefix(blocks, j),
            blocks_len_prefix(blocks, j) + blocks[j].len(),
        ));
    }
    assert(nczb_count(tail) == blocks.len());
    assert(nczb_decompressed_size(tail) == payload.len());
    assert(forall|j: int|
        0 <= j < blocks.len() ==> (#[trigger] nczb_block_size(tail, j)) as int == blocks[
            j
        ].len() && blocks[j].len() <= u32::MAX);
    assert(forall|j: int|
        0 <= j < blocks.len() ==> block_encoding_ok(
            #[trigger] blocks[j],
            ncz_block_chunk(payload, (1u64 << (exp as u64)) as int, j),
        ));
    assert(block_stream_facts(tail, payload, exp, blocks));

    // Every block decodes; the result is the whole payload.
    lemma_block_decode_upto(payload, exp, blocks, tail, nb);
    assert(nb * bs >= plen) by {
        if plen > 0 {
            assert(nb == (plen - 1) / bs + 1);
            vstd::arithmetic::div_mod::lemma_fundamental_div_mod(plen - 1, bs);
            assert(((plen - 1) / bs + 1) * bs >= plen) by (nonlinear_arith)
                requires
                    bs >= 1,
                    plen >= 1,
                    (plen - 1) == bs * ((plen - 1) / bs) + ((plen - 1) % bs),
                    (plen - 1) % bs >= 0,
                    (plen - 1) % bs < bs,
            ;
        } else {
            assert(nb == 0);
        }
    }
    assert(payload.subrange(0, plen) =~= payload);
    assert(crate::ncz::decompress::nczb_decode_upto(tail, bs, nb) == Some(payload));
    assert(crate::ncz::decompress::nczb_decode(tail) == Some(payload)) by {
        assert((1u64 << (tail[11] as u64)) as int == bs);
    }

    // The decoder takes the block path.
    lemma_sub_of_prefix(out, prefix, 0x4008, 0x4010);
    assert(prefix.subrange(0x4008, 0x4010) =~= spec_u64_to_le_bytes(n as u64));
    assert(crate::ncz::decompress::ncz_section_count(out) == n);
    assert(crate::ncz::decompress::ncz_stream_offset(out) == so);
    assert(out.len() >= so + 8) by {
        assert(tail.len() >= 24);
    }
    assert(out.subrange(so, so + 8) =~= nczblock_magic());
    assert(crate::ncz::decompress::ncz_uses_block_stream(out));
    assert(crate::ncz::decompress::ncz_stream_decode(out) == Some(payload));
    lemma_ncz_restore(data, plan, out);
}

} // verus!
