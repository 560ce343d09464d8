//! Content verification: SHA-256 of each NCA payload against the hash
//! prefix encoded in its file name, decompressing NCZ entries first.
use vstd::prelude::*;
use vstd::string::StringSliceAdditionalSpecFns;
use vstd::string::StringExecFns;

use crate::container::nsp::pfs0_data_start;
use crate::container::nsp::pfs0_count;
use crate::container::nsp::pfs0_entry_offset;
use crate::container::nsp::pfs0_entry_size;
use crate::container::nsp::pfs0_name_bytes;
use crate::container::nsp::pfs0_wf;
use crate::container::nsp::NspArchive;
use crate::crypto::primitives::sha256_digest;
use crate::crypto::primitives::sha256_spec;
use crate::error::NszError;
use crate::fs_ops::path_tools::ascii_lower;
use crate::fs_ops::path_tools::ends_with_ci;
use crate::fs_ops::path_tools::ends_with_ci_exec;
use crate::fs_ops::path_tools::file_stem_exec;
use crate::fs_ops::path_tools::has_extension_ci;
use crate::fs_ops::path_tools::has_extension_ci_exec;
use crate::fs_ops::path_tools::spec_file_stem;
use crate::ncz::decompress::decompress_ncz_to_vec;
use crate::ncz::decompress::ncz_decompress_ok;
use crate::ncz::decompress::ncz_rebuild;
use crate::ncz::decompress::ncz_stream_decode;

verus! {

/// The ASCII byte of one hex digit, lower case.
pub open spec fn hex_digit_ascii(d: int) -> u8 {
    if d < 10 {
        (0x30 + d) as u8
    } else {
        (0x57 + d) as u8
    }
}

/// The lowercase hex rendering of a byte string, as ASCII bytes.
pub open spec fn hex_ascii_of(bytes: Seq<u8>) -> Seq<u8> {
    Seq::new(
        (2 * bytes.len()) as nat,
        |i: int|
            if i % 2 == 0 {
                hex_digit_ascii((bytes[i / 2] / 16) as int)
            } else {
                hex_digit_ascii((bytes[i / 2] % 16) as int)
            },
    )
}

/// A name's hash check passes: the stem is too short to carry a hash,
/// or its first 32 bytes equal (case-insensitively) the hex of the
/// first 16 digest bytes.
pub open spec fn hash_prefix_matches(stem: Seq<u8>, digest: Seq<u8>) -> bool {
    stem.len() < 32 || forall|i: int|
        0 <= i < 32 ==> ascii_lower(#[trigger] stem[i]) == hex_ascii_of(digest)[i]
}

/// The stem's first 32 bytes, ASCII-lowered: what a mismatch reports as
/// the expected hash.
pub open spec fn lowered_prefix(stem: Seq<u8>) -> Seq<u8> {
    Seq::new(32, |i: int| ascii_lower(stem[i]))
}

/// The fields a hash mismatch reports: the operation, the lowered
/// expected prefix, the full actual hex, and a zero diff offset (the
/// payload-level diff is not computed).
pub open spec fn mismatch_report_ok(e: NszError, stem: Seq<u8>, digest: Seq<u8>) -> bool {
    e matches NszError::ParityMismatch {
        operation,
        expected_sha256,
        actual_sha256,
        first_diff_offset,
    } && operation@ == "verify"@ && first_diff_offset == 0 && actual_sha256@
        == vstd::utf8::decode_utf8(hex_ascii_of(digest)) && (vstd::utf8::valid_utf8(
        lowered_prefix(stem),
    ) ==> expected_sha256@ == vstd::utf8::decode_utf8(lowered_prefix(stem)))
}

/// Renders bytes as lowercase hex ASCII.
fn hex_ascii_exec(bytes: &[u8]) -> (r: Vec<u8>)
    requires
        2 * bytes@.len() <= usize::MAX,
    ensures
        r@ == hex_ascii_of(bytes@),
{
    let n = bytes.len();
    let mut out: Vec<u8> = Vec::new();
    let mut i: usize = 0;
    while i < n
        invariant
            n == bytes@.len(),
            2 * n <= usize::MAX,
            i <= n,
            out@.len() == 2 * i,
            forall|j: int| 0 <= j < 2 * i ==> out@[j] == hex_ascii_of(bytes@)[j],
        decreases n - i,
    {
        let b = bytes[i];
        let hi = b / 16;
        let lo = b % 16;
        let hc: u8 = if hi < 10 {
            0x30 + hi
        } else {
            0x57 + hi
        };
        let lc: u8 = if lo < 10 {
            0x30 + lo
        } else {
            0x57 + lo
        };
        out.push(hc);
        out.push(lc);
        i = i + 1;
    }
    proof {
        assert(out@ =~= hex_ascii_of(bytes@));
    }
    out
}

/// Builds a `String` from decodable bytes, used for the mismatch report.
fn ascii_to_string(bytes: &[u8]) -> (r: String)
    ensures
        vstd::utf8::valid_utf8(bytes@) ==> r@ == vstd::utf8::decode_utf8(bytes@),
{
    match crate::util::string_from_utf8(bytes) {
        Some(s) => s,
        None => String::new(),
    }
}

/// Checks a stem's hash prefix against a payload digest.
///
/// Succeeds exactly when `hash_prefix_matches` holds of the stem bytes
/// and the payload's SHA-256; a failure reports the two hex prefixes.
fn check_hash_prefix(stem: &[u8], payload: &[u8]) -> (r: Result<(), NszError>)
    ensures
        r is Ok <==> hash_prefix_matches(stem@, sha256_spec(payload@)),
        r matches Err(e) ==> mismatch_report_ok(e, stem@, sha256_spec(payload@)),
{
    let n = stem.len();
    if n < 32 {
        return Ok(());
    }
    let digest = sha256_digest(payload);
    let hex = hex_ascii_exec(digest.as_slice());
    let mut i: usize = 0;
    let mut matches_all = true;
    while i < 32
        invariant
            n == stem@.len(),
            n >= 32,
            hex@ == hex_ascii_of(sha256_spec(payload@)),
            hex@.len() == 64,
            i <= 32,
            matches_all == (forall|j: int|
                0 <= j < i ==> ascii_lower(#[trigger] stem@[j]) == hex_ascii_of(
                    sha256_spec(payload@),
                )[j]),
        decreases 32 - i,
    {
        let b = stem[i];
        let lower: u8 = if 0x41 <= b && b <= 0x5A {
            b + 0x20
        } else {
            b
        };
        if lower != hex[i] {
            matches_all = false;
        }
        i = i + 1;
    }
    if matches_all {
        return Ok(());
    }
    let mut expected_bytes: Vec<u8> = Vec::new();
    let mut k: usize = 0;
    while k < 32
        invariant
            n >= 32,
            n == stem@.len(),
            k <= 32,
            expected_bytes@.len() == k,
            forall|j: int| 0 <= j < k ==> expected_bytes@[j] == ascii_lower(stem@[j]),
        decreases 32 - k,
    {
        let b = stem[k];
        let lower: u8 = if 0x41 <= b && b <= 0x5A {
            b + 0x20
        } else {
            b
        };
        expected_bytes.push(lower);
        k = k + 1;
    }
    proof {
        assert(expected_bytes@ =~= lowered_prefix(stem@));
        assert(forall|j: int|
            0 <= j < hex@.len() ==> (#[trigger] hex@[j]) < 0x80);
        crate::util::lemma_ascii_bytes_valid_utf8(hex@);
    }
    Err(
        NszError::ParityMismatch {
            operation: String::from_str("verify"),
            expected_sha256: ascii_to_string(expected_bytes.as_slice()),
            actual_sha256: ascii_to_string(hex.as_slice()),
            first_diff_offset: 0,
        },
    )
}

/// Verifies a bare payload against the hash prefix in a file stem.
///
/// A stem shorter than 32 bytes carries no hash and passes; otherwise
/// its first 32 bytes must equal, ASCII case-insensitively, the
/// lowercase hex of the first 16 bytes of SHA-256 of the payload.
pub fn verify_hash_against_expected(expected_stem: &str, bytes: &[u8]) -> (r: Result<
    (),
    NszError,
>)
    ensures
        r is Ok <==> hash_prefix_matches(expected_stem.spec_bytes(), sha256_spec(bytes@)),
        r matches Err(e) ==> mismatch_report_ok(e, expected_stem.spec_bytes(), sha256_spec(bytes@)),
{
    check_hash_prefix(expected_stem.as_bytes(), bytes)
}

/// Verifies a payload against the hash prefix in an entry name: the
/// stem is the name up to its extension dot.
pub fn verify_hash_against_entry_name(name: &str, bytes: &[u8]) -> (r: Result<(), NszError>)
    ensures
        r is Ok <==> hash_prefix_matches(
            spec_file_stem(name.spec_bytes()),
            sha256_spec(bytes@),
        ),
        r matches Err(e) ==> mismatch_report_ok(
            e,
            spec_file_stem(name.spec_bytes()),
            sha256_spec(bytes@),
        ),
{
    let stem = file_stem_exec(name.as_bytes());
    check_hash_prefix(stem, bytes)
}

/// Entry `i` of a PFS0 container passes verification: `.nca` payloads
/// (except `.cnmt.nca`) hash to their name's prefix; in a compressed
/// container, `.ncz` payloads decompress and the result hashes to the
/// prefix; everything else passes.
pub open spec fn nsp_entry_verify_ok(data: Seq<u8>, i: int, compressed: bool) -> bool {
    let nb = pfs0_name_bytes(data, i);
    let start = pfs0_data_start(data) + pfs0_entry_offset(data, i);
    let payload = data.subrange(start, start + pfs0_entry_size(data, i));
    if has_extension_ci(nb, seq![0x6Eu8, 0x63u8, 0x61u8]) {
        ends_with_ci(
            nb,
            seq![0x2Eu8, 0x63u8, 0x6Eu8, 0x6Du8, 0x74u8, 0x2Eu8, 0x6Eu8, 0x63u8, 0x61u8],
        ) || hash_prefix_matches(spec_file_stem(nb), sha256_spec(payload))
    } else if compressed && has_extension_ci(nb, seq![0x6Eu8, 0x63u8, 0x7Au8]) {
        ncz_decompress_ok(payload) && hash_prefix_matches(
            spec_file_stem(nb),
            sha256_spec(ncz_rebuild(payload, ncz_stream_decode(payload).unwrap())),
        )
    } else {
        true
    }
}

/// Verifies every hash-named entry of an NSP-like container.
///
/// Succeeds exactly when the container parses and every entry passes
/// `nsp_entry_verify_ok`; `.ncz` entries are decompressed first only
/// when `compressed` is set.
pub fn verify_nsp_like_container(data: &[u8], compressed: bool) -> (r: Result<(), NszError>)
    ensures
        r is Ok <==> pfs0_wf(data@) && (forall|i: int|
            0 <= i < pfs0_count(data@) ==> nsp_entry_verify_ok(data@, i, compressed)),
{
    let archive = match NspArchive::from_bytes(data) {
        Ok(a) => a,
        Err(e) => {
            return Err(e);
        },
    };
    let entries = archive.entries();
    let count = entries.len();
    let nca_ext: [u8; 3] = [0x6E, 0x63, 0x61];
    let ncz_ext: [u8; 3] = [0x6E, 0x63, 0x7A];
    let cnmt_suffix: [u8; 9] = [0x2E, 0x63, 0x6E, 0x6D, 0x74, 0x2E, 0x6E, 0x63, 0x61];
    let mut i: usize = 0;
    while i < count
        invariant
            pfs0_wf(data@),
            crate::container::nsp::pfs0_parses_to(archive, data@),
            entries@ == archive.spec_entries(),
            count == entries@.len(),
            count == pfs0_count(data@),
            nca_ext@ =~= seq![0x6Eu8, 0x63u8, 0x61u8],
            ncz_ext@ =~= seq![0x6Eu8, 0x63u8, 0x7Au8],
            cnmt_suffix@ =~= seq![
                0x2Eu8,
                0x63u8,
                0x6Eu8,
                0x6Du8,
                0x74u8,
                0x2Eu8,
                0x6Eu8,
                0x63u8,
                0x61u8,
            ],
            i <= count,
            forall|j: int| 0 <= j < i ==> nsp_entry_verify_ok(data@, j, compressed),
        decreases count - i,
    {
        let entry = &entries[i];
        let ghost nb = pfs0_name_bytes(data@, i as int);
        proof {
            assert(crate::container::nsp::pfs0_entry_parses_to(
                archive.spec_entries()[i as int],
                data@,
                i as int,
            ));
            assert(crate::container::nsp::pfs0_entry_wf(data@, i as int));
            vstd::utf8::decode_utf8_encode_utf8(nb);
            assert(vstd::utf8::encode_utf8(entry.name@) == nb);
        }
        let name_bytes = entry.name.as_str().as_bytes();
        let bytes = archive.entry_bytes(data, entry);
        if has_extension_ci_exec(name_bytes, vstd::array::array_as_slice(&nca_ext)) {
            if !ends_with_ci_exec(name_bytes, vstd::array::array_as_slice(&cnmt_suffix)) {
                let stem = file_stem_exec(name_bytes);
                match check_hash_prefix(stem, bytes) {
                    Ok(()) => {},
                    Err(e) => {
                        proof {
                            assert(!nsp_entry_verify_ok(data@, i as int, compressed));
                        }
                        return Err(e);
                    },
                }
            }
        } else if compressed && has_extension_ci_exec(
            name_bytes,
            vstd::array::array_as_slice(&ncz_ext),
        ) {
            let decompressed = match decompress_ncz_to_vec(bytes) {
                Ok(v) => v,
                Err(e) => {
                    proof {
                        assert(!nsp_entry_verify_ok(data@, i as int, compressed));
                    }
                    return Err(e);
                },
            };
            let stem = file_stem_exec(name_bytes);
            match check_hash_prefix(stem, decompressed.as_slice()) {
                Ok(()) => {},
                Err(e) => {
                    proof {
                        assert(!nsp_entry_verify_ok(data@, i as int, compressed));
                    }
                    return Err(e);
                },
            }
        }
        i = i + 1;
        proof {
            assert(nsp_entry_verify_ok(data@, i - 1, compressed));
        }
    }
    Ok(())
}

} // verus!
