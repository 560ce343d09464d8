//! Container decompression: each `.ncz` entry becomes the `.nca` it
//! encodes, every other entry passes through byte for byte, and the
//! container is re-encoded with its original layout constants.
use vstd::prelude::*;
use vstd::string::StringSliceAdditionalSpecFns;
use vstd::utf8::decode_utf8_encode_utf8;
use vstd::utf8::encode_utf8;

use crate::container::hfs0::hfs0_count;
use crate::container::hfs0::hfs0_ffo_data;
use crate::container::hfs0::hfs0_name_bytes;
use crate::container::hfs0::hfs0_sts;
use crate::container::hfs0::hfs0_wf;
use crate::container::hfs0::Hfs0Archive;
use crate::ops::compress::hfs0_entry_payload;
use crate::container::nsp::encode_pfs0;
use crate::container::nsp::pfs0_count;
use crate::container::nsp::pfs0_data_start;
use crate::container::nsp::pfs0_encode_spec;
use crate::container::nsp::pfs0_entry_offset;
use crate::container::nsp::pfs0_entry_size;
use crate::container::nsp::pfs0_ffo_data;
use crate::container::nsp::pfs0_name_bytes;
use crate::container::nsp::pfs0_sts;
use crate::container::nsp::pfs0_wf;
use crate::container::nsp::NspArchive;
use crate::container::payload::EntryData;
use crate::container::xci::encode_xci_like;
use crate::container::xci::xci_hfs0_offset;
use crate::container::xci::xci_header_base;
use crate::container::xci::xci_wf;
use crate::container::xci::XciArchive;
use crate::error::container_format_error;
use crate::error::NszError;
use crate::fs_ops::path_tools::has_extension_ci;
use crate::fs_ops::path_tools::has_extension_ci_exec;
use crate::fs_ops::path_tools::spec_change_extension;
use crate::ncz::decompress::decompress_ncz_to_vec;
use crate::ncz::decompress::ncz_decompress_ok;
use crate::ncz::decompress::ncz_rebuild;
use crate::ncz::decompress::ncz_stream_decode;

verus! {

/// The bytes `"ncz"`.
pub open spec fn ncz_ext_bytes() -> Seq<u8> {
    seq![0x6Eu8, 0x63u8, 0x7Au8]
}

/// The bytes `"nca"`.
pub open spec fn nca_ext_bytes() -> Seq<u8> {
    seq![0x6Eu8, 0x63u8, 0x61u8]
}

/// The payload of entry `i` of a PFS0 container.
pub open spec fn pfs0_entry_payload(data: Seq<u8>, i: int) -> Seq<u8> {
    let start = pfs0_data_start(data) + pfs0_entry_offset(data, i);
    data.subrange(start, start + pfs0_entry_size(data, i))
}

/// The output name of entry `i` after decompression: `.ncz` becomes
/// `.nca`, everything else keeps its name.
pub open spec fn nsz_out_name(data: Seq<u8>, i: int) -> Seq<u8> {
    let nb = pfs0_name_bytes(data, i);
    if has_extension_ci(nb, ncz_ext_bytes()) {
        spec_change_extension(nb, nca_ext_bytes())
    } else {
        nb
    }
}

/// The output payload of entry `i` after decompression: the rebuilt NCA
/// for `.ncz` entries, the input bytes for everything else.
pub open spec fn nsz_out_payload(data: Seq<u8>, i: int) -> Seq<u8> {
    let payload = pfs0_entry_payload(data, i);
    if has_extension_ci(pfs0_name_bytes(data, i), ncz_ext_bytes()) {
        ncz_rebuild(payload, ncz_stream_decode(payload).unwrap())
    } else {
        payload
    }
}


/// The whole container decompresses: it parses, every `.ncz` entry
/// decodes (and its renamed name fits the platform), and the
/// transformed entries re-encode with the source's layout constants.
pub open spec fn nsz_decompress_container_ok(data: Seq<u8>) -> bool {
    let count = pfs0_count(data);
    &&& pfs0_wf(data)
    &&& (forall|i: int|
        0 <= i < count ==> (has_extension_ci(#[trigger] pfs0_name_bytes(data, i), ncz_ext_bytes())
            ==> ncz_decompress_ok(pfs0_entry_payload(data, i)) && pfs0_name_bytes(data, i).len()
            + 4 <= usize::MAX))
    &&& crate::container::nsp::pfs0_encode_ok(
        Seq::new(count as nat, |i: int| nsz_out_name(data, i)),
        Seq::new(count as nat, |i: int| nsz_out_payload(data, i)),
        pfs0_ffo_data(data) as u64,
        pfs0_sts(data) as u32,
    )
}

/// Renames an entry to carry the `.nca` extension.
fn change_name_ext_nca(name: &String) -> (r: String)
    requires
        encode_utf8(name@).len() + 4 <= usize::MAX,
    ensures
        encode_utf8(r@) == spec_change_extension(encode_utf8(name@), nca_ext_bytes()),
{
    proof {
        reveal_strlit("nca");
        assert("nca"@.len() == 3);
        assert("nca"@[0] == 'n' && "nca"@[1] == 'c' && "nca"@[2] == 'a');
        assert("nca".spec_bytes() =~= nca_ext_bytes()) by {
            assert(vstd::string::is_ascii("nca")) by {
                assert(forall|i: int|
                    0 <= i < "nca"@.len() ==> ("nca"@[i] == 'n' || "nca"@[i] == 'c' || "nca"@[i]
                        == 'a'));
            }
            vstd::string::is_ascii_spec_bytes("nca");
        }
        assert(crate::fs_ops::path_tools::dot_prefix_len(nca_ext_bytes()) == 0);
        assert(nca_ext_bytes().skip(0) =~= nca_ext_bytes());
        vstd::utf8::encode_utf8_valid_utf8(name@);
        vstd::utf8::encode_utf8_valid_utf8("nca"@);
    }
    let r = crate::fs_ops::path_tools::change_extension(name.as_str(), "nca");
    proof {
        crate::fs_ops::path_tools::lemma_change_extension_bytes(
            encode_utf8(name@),
            nca_ext_bytes(),
        );
    }
    r
}

/// Renames an entry to carry the `.ncz` extension.
pub(crate) fn change_name_ext_ncz(name: &String) -> (r: String)
    requires
        encode_utf8(name@).len() + 4 <= usize::MAX,
    ensures
        encode_utf8(r@) == spec_change_extension(encode_utf8(name@), ncz_ext_bytes()),
{
    proof {
        reveal_strlit("ncz");
        assert("ncz"@.len() == 3);
        assert("ncz"@[0] == 'n' && "ncz"@[1] == 'c' && "ncz"@[2] == 'z');
        assert("ncz".spec_bytes() =~= ncz_ext_bytes()) by {
            assert(vstd::string::is_ascii("ncz")) by {
                assert(forall|i: int|
                    0 <= i < "ncz"@.len() ==> ("ncz"@[i] == 'n' || "ncz"@[i] == 'c' || "ncz"@[i]
                        == 'z'));
            }
            vstd::string::is_ascii_spec_bytes("ncz");
        }
        assert(crate::fs_ops::path_tools::dot_prefix_len(ncz_ext_bytes()) == 0);
        assert(ncz_ext_bytes().skip(0) =~= ncz_ext_bytes());
        vstd::utf8::encode_utf8_valid_utf8(name@);
        vstd::utf8::encode_utf8_valid_utf8("ncz"@);
    }
    let r = crate::fs_ops::path_tools::change_extension(name.as_str(), "ncz");
    proof {
        crate::fs_ops::path_tools::lemma_change_extension_bytes(
            encode_utf8(name@),
            ncz_ext_bytes(),
        );
    }
    r
}

/// Decompresses an NSP-like container: every `.ncz` entry is decoded
/// and renamed to `.nca`, the rest pass through, and the result is a
/// PFS0 with the source's first-file offset and string-table size.
///
/// It succeeds exactly when the container parses, every `.ncz` entry
/// decodes, and the transformed entries re-encode; the output is then
/// exactly the PFS0 encoding of the transformed entries.
pub fn decompress_nsz_to_nsp(data: &[u8]) -> (r: Result<Vec<u8>, NszError>)
    ensures
        r is Ok <==> nsz_decompress_container_ok(data@),
        r matches Ok(out) ==> {
            let count = pfs0_count(data@);
            &&& pfs0_wf(data@)
            &&& (forall|i: int|
                0 <= i < count && has_extension_ci(
                    pfs0_name_bytes(data@, i),
                    ncz_ext_bytes(),
                ) ==> ncz_decompress_ok(#[trigger] pfs0_entry_payload(data@, i)))
            &&& out@ == pfs0_encode_spec(
                Seq::new(count as nat, |i: int| nsz_out_name(data@, i)),
                Seq::new(count as nat, |i: int| nsz_out_payload(data@, i)),
                pfs0_ffo_data(data@) as u64,
                pfs0_sts(data@) as u32,
            )
        },
{
    let archive = match NspArchive::from_bytes(data) {
        Ok(a) => a,
        Err(e) => {
            return Err(e);
        },
    };
    let entries = archive.entries();
    let count = entries.len();
    let ncz_ext: [u8; 3] = [0x6E, 0x63, 0x7A];
    let mut output_entries: Vec<(String, EntryData<'_>)> = Vec::new();
    let mut i: usize = 0;
    while i < count
        invariant
            pfs0_wf(data@),
            crate::container::nsp::pfs0_parses_to(archive, data@),
            crate::container::nsp::pfs0_archive_bounded(archive),
            entries@ == archive.spec_entries(),
            count == entries@.len(),
            count == pfs0_count(data@),
            ncz_ext@ =~= ncz_ext_bytes(),
            i <= count,
            output_entries@.len() == i,
            forall|j: int|
                0 <= j < i ==> (has_extension_ci(#[trigger] pfs0_name_bytes(data@, j), ncz_ext_bytes())
                    ==> ncz_decompress_ok(pfs0_entry_payload(data@, j)) && pfs0_name_bytes(
                    data@,
                    j,
                ).len() + 4 <= usize::MAX),
            forall|j: int|
                0 <= j < i ==> encode_utf8((#[trigger] output_entries@[j]).0@) == nsz_out_name(
                    data@,
                    j,
                ) && output_entries@[j].1.bytes() == nsz_out_payload(data@, j),
        decreases count - i,
    {
        let entry = &entries[i];
        let ghost nb = pfs0_name_bytes(data@, i as int);
        proof {
            assert(crate::container::nsp::pfs0_entry_parses_to(
                archive.spec_entries()[i as int],
                data@,
                i as int,
            ));
            assert(crate::container::nsp::pfs0_entry_wf(data@, i as int));
            decode_utf8_encode_utf8(nb);
            assert(encode_utf8(entry.name@) == nb);
        }
        let name_bytes = entry.name.as_str().as_bytes();
        let bytes = archive.entry_bytes(data, entry);
        if has_extension_ci_exec(name_bytes, vstd::array::array_as_slice(&ncz_ext)) {
            let decoded = match decompress_ncz_to_vec(bytes) {
                Ok(v) => v,
                Err(e) => {
                    proof {
                        assert(!ncz_decompress_ok(pfs0_entry_payload(data@, i as int)));
                        assert(!nsz_decompress_container_ok(data@));
                    }
                    return Err(e);
                },
            };
            if name_bytes.len() > usize::MAX - 4 {
                proof {
                    assert(pfs0_name_bytes(data@, i as int).len() + 4 > usize::MAX);
                    assert(!nsz_decompress_container_ok(data@));
                }
                return Err(container_format_error("entry name exceeds platform limits"));
            }
            let new_name = change_name_ext_nca(&entry.name);
            proof {
                assert(encode_utf8(new_name@) == nsz_out_name(data@, i as int));
            }
            output_entries.push((new_name, EntryData::Owned(decoded)));
        } else {
            output_entries.push((entry.name.clone(), EntryData::Borrowed(bytes)));
        }
        i = i + 1;
    }

    let first_file_offset = archive.first_file_offset();
    let string_table_size = archive.string_table_size();
    proof {
        if count > 0 {
            crate::container::nsp::lemma_ffo_data_matches(archive, data@, count as int);
        }
        assert(first_file_offset as int == pfs0_ffo_data(data@));
        assert(string_table_size == pfs0_sts(data@) as u32);
        assert(crate::container::nsp::entry_names(output_entries@) =~= Seq::new(
            count as nat,
            |i: int| nsz_out_name(data@, i),
        ));
        assert(crate::container::nsp::entry_payload_bytes(output_entries@) =~= Seq::new(
            count as nat,
            |i: int| nsz_out_payload(data@, i),
        ));
    }
    let r = encode_pfs0(output_entries.as_slice(), first_file_offset, string_table_size);
    proof {
        if r is Ok {
            assert(nsz_decompress_container_ok(data@));
        } else {
            assert(!nsz_decompress_container_ok(data@));
        }
    }
    r
}

/// The output name of HFS0 entry `i` after decompression: `.ncz`
/// becomes `.nca`, everything else keeps its name.
pub open spec fn hfs0_out_name(data: Seq<u8>, i: int) -> Seq<u8> {
    let nb = hfs0_name_bytes(data, i);
    if has_extension_ci(nb, ncz_ext_bytes()) {
        spec_change_extension(nb, nca_ext_bytes())
    } else {
        nb
    }
}

/// The output payload of HFS0 entry `i` after decompression: the
/// rebuilt NCA for `.ncz` entries, the input bytes for everything else.
pub open spec fn hfs0_out_payload(data: Seq<u8>, i: int) -> Seq<u8> {
    let payload = hfs0_entry_payload(data, i);
    if has_extension_ci(hfs0_name_bytes(data, i), ncz_ext_bytes()) {
        ncz_rebuild(payload, ncz_stream_decode(payload).unwrap())
    } else {
        payload
    }
}

/// The whole partition decompresses: it parses, every `.ncz` entry
/// decodes (and its renamed name fits the platform), and the
/// transformed entries re-encode with the source's layout constants.
pub open spec fn hfs0_decompress_partition_ok(data: Seq<u8>) -> bool {
    let count = hfs0_count(data);
    &&& hfs0_wf(data)
    &&& (forall|i: int|
        0 <= i < count ==> (has_extension_ci(#[trigger] hfs0_name_bytes(data, i), ncz_ext_bytes())
            ==> ncz_decompress_ok(hfs0_entry_payload(data, i)) && hfs0_name_bytes(data, i).len()
            + 4 <= usize::MAX))
    &&& crate::container::hfs0::hfs0_encode_ok(
        Seq::new(count as nat, |i: int| hfs0_out_name(data, i)),
        Seq::new(count as nat, |i: int| hfs0_out_payload(data, i)),
        hfs0_ffo_data(data) as u64,
        hfs0_sts(data) as u32,
    )
}

/// The rewritten partition: the HFS0 encoding of the transformed
/// entries with the source's layout constants.
pub open spec fn hfs0_partition_rewrite(data: Seq<u8>) -> Seq<u8> {
    crate::container::hfs0::hfs0_encode_spec(
        Seq::new(hfs0_count(data) as nat, |i: int| hfs0_out_name(data, i)),
        Seq::new(hfs0_count(data) as nat, |i: int| hfs0_out_payload(data, i)),
        hfs0_ffo_data(data) as u64,
        hfs0_sts(data) as u32,
    )
}

/// The root-HFS0 region of a gamecard image: everything from the
/// located root offset to the end of the image.
pub open spec fn xci_root_bytes(data: Seq<u8>) -> Seq<u8> {
    data.subrange(xci_header_base(data) + xci_hfs0_offset(data), data.len() as int)
}

/// The rewritten root HFS0: each partition replaced by its
/// `hfs0_partition_rewrite`, re-encoded with the root's own layout
/// constants.
pub open spec fn xcz_root_rewrite(data: Seq<u8>) -> Seq<u8> {
    let rb = xci_root_bytes(data);
    crate::container::hfs0::hfs0_encode_spec(
        Seq::new(hfs0_count(rb) as nat, |i: int| hfs0_name_bytes(rb, i)),
        Seq::new(
            hfs0_count(rb) as nat,
            |i: int| hfs0_partition_rewrite(hfs0_entry_payload(rb, i)),
        ),
        hfs0_ffo_data(rb) as u64,
        hfs0_sts(rb) as u32,
    )
}

/// The whole image decompresses: it parses, its root HFS0 parses, every
/// partition decompresses, and the rewritten root re-encodes and fits
/// back into the image.
pub open spec fn xcz_decompress_ok(data: Seq<u8>) -> bool {
    let rb = xci_root_bytes(data);
    let n = hfs0_count(rb);
    &&& xci_wf(data)
    &&& hfs0_wf(rb)
    &&& (forall|i: int|
        0 <= i < n ==> hfs0_decompress_partition_ok(#[trigger] hfs0_entry_payload(rb, i)))
    &&& crate::container::hfs0::hfs0_encode_ok(
        Seq::new(n as nat, |i: int| hfs0_name_bytes(rb, i)),
        Seq::new(n as nat, |i: int| hfs0_partition_rewrite(hfs0_entry_payload(rb, i))),
        hfs0_ffo_data(rb) as u64,
        hfs0_sts(rb) as u32,
    )
    &&& xci_header_base(data) + xci_hfs0_offset(data) + xcz_root_rewrite(data).len()
        <= usize::MAX
}

/// `out` is `data` with its root-HFS0 region replaced by `root` and
/// zero-padded back to the original size where the new root is shorter.
pub open spec fn xci_rewrap_ok(data: Seq<u8>, out: Seq<u8>, root: Seq<u8>) -> bool {
    let abs = xci_header_base(data) + xci_hfs0_offset(data);
    let pad: int = if abs + root.len() >= data.len() {
        0
    } else {
        data.len() - abs - root.len()
    };
    out == data.subrange(0, abs) + root + crate::container::nsp::zero_bytes(pad)
}

/// Decompresses a gamecard image: every partition of the root HFS0 is
/// rewritten with its `.ncz` entries decoded to `.nca`, and the image
/// is re-emitted around the new root at its original location.
///
/// It succeeds exactly when the image and its root parse, every
/// partition decompresses, and the rewritten root re-encodes and fits;
/// the output is then the original bytes up to the root HFS0, the
/// rewritten root, and zero padding up to the original size where the
/// root shrank.
pub fn decompress_xcz_to_xci(data: &[u8]) -> (r: Result<Vec<u8>, NszError>)
    ensures
        r is Ok <==> xcz_decompress_ok(data@),
        r matches Ok(out) ==> xci_rewrap_ok(data@, out@, xcz_root_rewrite(data@)),
{
    let xci = match XciArchive::from_bytes(data) {
        Ok(x) => x,
        Err(e) => {
            return Err(e);
        },
    };
    let root_bytes = match xci.root_hfs0_bytes(data) {
        Ok(b) => b,
        Err(e) => {
            proof {
                assert(false);
            }
            return Err(e);
        },
    };
    let ghost rb = xci_root_bytes(data@);
    proof {
        assert(root_bytes@ == rb);
    }
    let root = match Hfs0Archive::from_bytes(root_bytes) {
        Ok(a) => a,
        Err(e) => {
            proof {
                assert(!xcz_decompress_ok(data@));
            }
            return Err(e);
        },
    };

    let partitions = root.entries();
    let n_parts = partitions.len();
    let mut root_output_entries: Vec<(String, EntryData<'_>)> = Vec::new();
    let mut pi: usize = 0;
    while pi < n_parts
        invariant
            hfs0_wf(root_bytes@),
            root_bytes@ == rb,
            rb == xci_root_bytes(data@),
            crate::container::hfs0::hfs0_parses_to(root, root_bytes@),
            crate::container::hfs0::hfs0_archive_bounded(root),
            partitions@ == root.spec_entries(),
            n_parts == partitions@.len(),
            n_parts == hfs0_count(rb),
            pi <= n_parts,
            root_output_entries@.len() == pi,
            forall|j: int|
                0 <= j < pi ==> hfs0_decompress_partition_ok(#[trigger] hfs0_entry_payload(rb, j)),
            forall|j: int|
                0 <= j < pi ==> encode_utf8((#[trigger] root_output_entries@[j]).0@)
                    == hfs0_name_bytes(rb, j) && root_output_entries@[j].1.bytes()
                    == hfs0_partition_rewrite(hfs0_entry_payload(rb, j)),
        decreases n_parts - pi,
    {
        let partition = &partitions[pi];
        let ghost nb = hfs0_name_bytes(rb, pi as int);
        proof {
            assert(crate::container::hfs0::hfs0_entry_parses_to(
                root.spec_entries()[pi as int],
                root_bytes@,
                pi as int,
            ));
            assert(crate::container::hfs0::hfs0_entry_wf(root_bytes@, pi as int));
            decode_utf8_encode_utf8(nb);
            assert(encode_utf8(partition.name@) == nb);
        }
        let partition_bytes = root.entry_bytes(root_bytes, partition);
        proof {
            assert(partition_bytes@ == hfs0_entry_payload(rb, pi as int));
        }
        let partition_output = match decompress_hfs0_partition(partition_bytes) {
            Ok(v) => v,
            Err(e) => {
                proof {
                    assert(!hfs0_decompress_partition_ok(hfs0_entry_payload(rb, pi as int)));
                    assert(!xcz_decompress_ok(data@));
                }
                return Err(e);
            },
        };
        root_output_entries.push((partition.name.clone(), EntryData::Owned(partition_output)));
        pi = pi + 1;
    }

    let root_ffo = root.first_file_offset();
    let root_sts = root.string_table_size();
    proof {
        if n_parts > 0 {
            crate::container::hfs0::lemma_hfs0_ffo_data_matches(root, rb, n_parts as int);
        }
        assert(root_ffo as int == hfs0_ffo_data(rb));
        assert(root_sts == hfs0_sts(rb) as u32);
        assert(crate::container::nsp::entry_names(root_output_entries@) =~= Seq::new(
            n_parts as nat,
            |i: int| hfs0_name_bytes(rb, i),
        ));
        assert(crate::container::nsp::entry_payload_bytes(root_output_entries@) =~= Seq::new(
            n_parts as nat,
            |i: int| hfs0_partition_rewrite(hfs0_entry_payload(rb, i)),
        ));
    }
    let root_output = match crate::container::hfs0::encode_hfs0(
        root_output_entries.as_slice(),
        root_ffo,
        root_sts,
    ) {
        Ok(v) => v,
        Err(e) => {
            proof {
                assert(!xcz_decompress_ok(data@));
            }
            return Err(e);
        },
    };
    proof {
        assert(root_output@ == xcz_root_rewrite(data@));
    }
    let out = match encode_xci_like(data, &xci, root_output.as_slice()) {
        Ok(v) => v,
        Err(e) => {
            proof {
                assert(xci_header_base(data@) + xci_hfs0_offset(data@) + xcz_root_rewrite(
                    data@,
                ).len() > usize::MAX);
                assert(!xcz_decompress_ok(data@));
            }
            return Err(e);
        },
    };
    proof {
        assert(xcz_decompress_ok(data@));
        assert(xci_rewrap_ok(data@, out@, root_output@));
    }
    Ok(out)
}

/// Rewrites one HFS0 partition, decoding its `.ncz` entries.
///
/// It succeeds exactly when the partition parses, every `.ncz` entry
/// decodes, and the transformed entries re-encode; the output is then
/// exactly `hfs0_partition_rewrite`.
pub fn decompress_hfs0_partition(data: &[u8]) -> (r: Result<Vec<u8>, NszError>)
    ensures
        r is Ok <==> hfs0_decompress_partition_ok(data@),
        r matches Ok(out) ==> out@ == hfs0_partition_rewrite(data@),
{
    let archive = match Hfs0Archive::from_bytes(data) {
        Ok(a) => a,
        Err(e) => {
            return Err(e);
        },
    };
    let entries = archive.entries();
    let count = entries.len();
    let ncz_ext: [u8; 3] = [0x6E, 0x63, 0x7A];
    let mut output_entries: Vec<(String, EntryData<'_>)> = Vec::new();
    let mut i: usize = 0;
    while i < count
        invariant
            hfs0_wf(data@),
            crate::container::hfs0::hfs0_parses_to(archive, data@),
            crate::container::hfs0::hfs0_archive_bounded(archive),
            entries@ == archive.spec_entries(),
            count == entries@.len(),
            count == hfs0_count(data@),
            ncz_ext@ =~= ncz_ext_bytes(),
            i <= count,
            output_entries@.len() == i,
            forall|j: int|
                0 <= j < i ==> (has_extension_ci(
                    #[trigger] hfs0_name_bytes(data@, j),
                    ncz_ext_bytes(),
                ) ==> ncz_decompress_ok(hfs0_entry_payload(data@, j)) && hfs0_name_bytes(
                    data@,
                    j,
                ).len() + 4 <= usize::MAX),
            forall|j: int|
                0 <= j < i ==> encode_utf8((#[trigger] output_entries@[j]).0@) == hfs0_out_name(
                    data@,
                    j,
                ) && output_entries@[j].1.bytes() == hfs0_out_payload(data@, j),
        decreases count - i,
    {
        let entry = &entries[i];
        let ghost nb = hfs0_name_bytes(data@, i as int);
        proof {
            assert(crate::container::hfs0::hfs0_entry_parses_to(
                archive.spec_entries()[i as int],
                data@,
                i as int,
            ));
            assert(crate::container::hfs0::hfs0_entry_wf(data@, i as int));
            decode_utf8_encode_utf8(nb);
            assert(encode_utf8(entry.name@) == nb);
        }
        let name_bytes = entry.name.as_str().as_bytes();
        let bytes = archive.entry_bytes(data, entry);
        if has_extension_ci_exec(name_bytes, vstd::array::array_as_slice(&ncz_ext)) {
            let decoded = match decompress_ncz_to_vec(bytes) {
                Ok(v) => v,
                Err(e) => {
                    proof {
                        assert(!ncz_decompress_ok(hfs0_entry_payload(data@, i as int)));
                        assert(!hfs0_decompress_partition_ok(data@));
                    }
                    return Err(e);
                },
            };
            if name_bytes.len() > usize::MAX - 4 {
                proof {
                    assert(hfs0_name_bytes(data@, i as int).len() + 4 > usize::MAX);
                    assert(!hfs0_decompress_partition_ok(data@));
                }
                return Err(container_format_error("entry name exceeds platform limits"));
            }
            let new_name = change_name_ext_nca(&entry.name);
            proof {
                assert(encode_utf8(new_name@) == hfs0_out_name(data@, i as int));
            }
            output_entries.push((new_name, EntryData::Owned(decoded)));
        } else {
            output_entries.push((entry.name.clone(), EntryData::Borrowed(bytes)));
        }
        i = i + 1;
    }
    let ffo = archive.first_file_offset();
    let sts = archive.string_table_size();
    proof {
        if count > 0 {
            crate::container::hfs0::lemma_hfs0_ffo_data_matches(archive, data@, count as int);
        }
        assert(ffo as int == hfs0_ffo_data(data@));
        assert(sts == hfs0_sts(data@) as u32);
        assert(crate::container::nsp::entry_names(output_entries@) =~= Seq::new(
            count as nat,
            |i: int| hfs0_out_name(data@, i),
        ));
        assert(crate::container::nsp::entry_payload_bytes(output_entries@) =~= Seq::new(
            count as nat,
            |i: int| hfs0_out_payload(data@, i),
        ));
    }
    let r = crate::container::hfs0::encode_hfs0(output_entries.as_slice(), ffo, sts);
    proof {
        if r is Ok {
            assert(hfs0_decompress_partition_ok(data@));
        } else {
            assert(!hfs0_decompress_partition_ok(data@));
        }
    }
    r
}

} // verus!
