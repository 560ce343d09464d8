//! The HFS0 partition format used inside gamecard images: a strict,
//! bounds-checked parser and a byte-exact encoder.
//!
//! Layout: `"HFS0"` | u32 file count | u32 string-table size | u32 reserved,
//! then 0x40-byte entries (u64 offset, u64 size, u32 string offset,
//! u32 hashed-region size, 8 reserved bytes, 32-byte SHA-256), the string
//! table of NUL-terminated names, and the payload region. Entry offsets are
//! relative to the end of the header.
use vstd::prelude::*;
use vstd::bytes::*;
use vstd::utf8::decode_utf8;
use vstd::utf8::valid_utf8;

use crate::container::payload::EntryData;
use crate::error::container_format_error;
use crate::error::NszError;
use crate::util::append_slice;
use crate::util::append_u32_le;
use crate::util::append_u64_le;
use crate::util::append_zeros;
use crate::util::bytes_to_array;
use crate::util::find_nul;
use crate::util::find_nul_exec;
use crate::util::string_from_utf8;

verus! {

/// The four magic bytes `"HFS0"`.
pub open spec fn hfs0_magic() -> Seq<u8> {
    seq![0x48u8, 0x46u8, 0x53u8, 0x30u8]
}

/// Number of entries declared by the header.
pub open spec fn hfs0_count(data: Seq<u8>) -> int {
    spec_u32_from_le_bytes(data.subrange(4, 8)) as int
}

/// String-table size declared by the header.
pub open spec fn hfs0_sts(data: Seq<u8>) -> int {
    spec_u32_from_le_bytes(data.subrange(8, 12)) as int
}

/// Total header size: fixed part, entry table and string table. Payload
/// offsets are relative to this point.
pub open spec fn hfs0_header_size(data: Seq<u8>) -> int {
    16 + 0x40 * hfs0_count(data) + hfs0_sts(data)
}

/// Header-relative offset field of entry `i`.
pub open spec fn hfs0_entry_offset(data: Seq<u8>, i: int) -> u64 {
    spec_u64_from_le_bytes(data.subrange(16 + 0x40 * i, 16 + 0x40 * i + 8))
}

/// Size field of entry `i`.
pub open spec fn hfs0_entry_size(data: Seq<u8>, i: int) -> u64 {
    spec_u64_from_le_bytes(data.subrange(16 + 0x40 * i + 8, 16 + 0x40 * i + 16))
}

/// String-table offset field of entry `i`.
pub open spec fn hfs0_entry_string_offset(data: Seq<u8>, i: int) -> u32 {
    spec_u32_from_le_bytes(data.subrange(16 + 0x40 * i + 16, 16 + 0x40 * i + 20))
}

/// Hashed-region-size field of entry `i`.
pub open spec fn hfs0_entry_hashed_region(data: Seq<u8>, i: int) -> u32 {
    spec_u32_from_le_bytes(data.subrange(16 + 0x40 * i + 20, 16 + 0x40 * i + 24))
}

/// The 8 reserved bytes of entry `i`.
pub open spec fn hfs0_entry_reserved(data: Seq<u8>, i: int) -> Seq<u8> {
    data.subrange(16 + 0x40 * i + 24, 16 + 0x40 * i + 32)
}

/// The 32 hash bytes of entry `i`.
pub open spec fn hfs0_entry_hash(data: Seq<u8>, i: int) -> Seq<u8> {
    data.subrange(16 + 0x40 * i + 32, 16 + 0x40 * i + 64)
}

/// The string table region.
pub open spec fn hfs0_string_table(data: Seq<u8>) -> Seq<u8> {
    data.subrange(16 + 0x40 * hfs0_count(data), hfs0_header_size(data))
}

/// The name bytes of entry `i`: from its string offset to the first NUL.
pub open spec fn hfs0_name_bytes(data: Seq<u8>, i: int) -> Seq<u8> {
    let st = hfs0_string_table(data);
    let so = hfs0_entry_string_offset(data, i) as int;
    st.subrange(so, find_nul(st, so))
}

/// Entry `i` is well-formed: its name lies NUL-terminated in the string
/// table, decodes as UTF-8, and its extent lies inside the file.
pub open spec fn hfs0_entry_wf(data: Seq<u8>, i: int) -> bool {
    let st = hfs0_string_table(data);
    let so = hfs0_entry_string_offset(data, i) as int;
    &&& so < hfs0_sts(data)
    &&& find_nul(st, so) >= 0
    &&& valid_utf8(hfs0_name_bytes(data, i))
    &&& hfs0_header_size(data) + hfs0_entry_offset(data, i) + hfs0_entry_size(data, i)
        <= data.len()
}

/// The whole container is well-formed: parsing succeeds exactly here.
pub open spec fn hfs0_wf(data: Seq<u8>) -> bool {
    &&& data.len() >= 16
    &&& data.subrange(0, 4) == hfs0_magic()
    &&& hfs0_header_size(data) <= data.len()
    &&& forall|i: int| 0 <= i < hfs0_count(data) ==> hfs0_entry_wf(data, i)
}

/// One parsed HFS0 entry.
#[derive(Debug, Clone, PartialEq, Eq)]
pub struct Hfs0Entry {
    /// Entry name from the string table.
    pub name: String,
    /// Offset relative to the end of the header.
    pub offset: u64,
    /// Payload size in bytes.
    pub size: u64,
    /// Offset of the name in the string table.
    pub string_table_offset: u32,
    /// Size of the hashed region at the start of the payload.
    pub hashed_region_size: u32,
    /// Reserved bytes, preserved verbatim.
    pub reserved: [u8; 8],
    /// SHA-256 of the hashed region, preserved verbatim.
    pub hash: [u8; 32],
}

/// A parsed HFS0 archive: the entry table and the layout constants.
#[derive(Debug, Clone, PartialEq, Eq)]
pub struct Hfs0Archive {
    entries: Vec<Hfs0Entry>,
    string_table_size: u32,
    data_start: u64,
}

impl Hfs0Archive {
    /// The parsed entries.
    pub closed spec fn spec_entries(&self) -> Seq<Hfs0Entry> {
        self.entries@
    }

    /// The declared string-table size.
    pub closed spec fn spec_string_table_size(&self) -> u32 {
        self.string_table_size
    }

    /// The start of the data region (the header size).
    pub closed spec fn spec_data_start(&self) -> u64 {
        self.data_start
    }
}

/// Every entry extent stays below `u64::MAX` when rebased on the data
/// region; parsing establishes it from the file bounds.
pub open spec fn hfs0_archive_bounded(a: Hfs0Archive) -> bool {
    forall|i: int|
        0 <= i < a.spec_entries().len() ==> (#[trigger] a.spec_entries()[i]).offset
            + a.spec_entries()[i].size + a.spec_data_start() <= u64::MAX
}

/// `e` holds exactly the fields of entry `i` of `data`.
pub open spec fn hfs0_entry_parses_to(e: Hfs0Entry, data: Seq<u8>, i: int) -> bool {
    &&& e.offset == hfs0_entry_offset(data, i)
    &&& e.size == hfs0_entry_size(data, i)
    &&& e.string_table_offset == hfs0_entry_string_offset(data, i)
    &&& e.hashed_region_size == hfs0_entry_hashed_region(data, i)
    &&& e.reserved@ == hfs0_entry_reserved(data, i)
    &&& e.hash@ == hfs0_entry_hash(data, i)
    &&& e.name@ == decode_utf8(hfs0_name_bytes(data, i))
}

/// `a` is the parse of `data`: entry for entry, with the declared
/// string-table size and the header size as data start.
pub open spec fn hfs0_parses_to(a: Hfs0Archive, data: Seq<u8>) -> bool {
    &&& a.spec_entries().len() == hfs0_count(data)
    &&& forall|i: int|
        0 <= i < hfs0_count(data) ==> hfs0_entry_parses_to(#[trigger] a.spec_entries()[i], data, i)
    &&& a.spec_string_table_size() == hfs0_sts(data)
    &&& a.spec_data_start() == hfs0_header_size(data)
}

impl Hfs0Archive {
    /// Parses an HFS0 container.
    ///
    /// Succeeds exactly when `hfs0_wf` holds of the bytes, and then
    /// returns the archive whose fields `hfs0_parses_to` pins down.
    pub fn from_bytes(data: &[u8]) -> (r: Result<Self, NszError>)
        ensures
            r is Ok <==> hfs0_wf(data@),
            r matches Ok(a) ==> hfs0_parses_to(a, data@) && hfs0_archive_bounded(a),
    {
        let n = data.len();
        if n < 16 {
            return Err(container_format_error("HFS0 container too short"));
        }
        if !(data[0] == 0x48 && data[1] == 0x46 && data[2] == 0x53 && data[3] == 0x30) {
            proof {
                assert(data@.subrange(0, 4)[0] == data@[0]);
                assert(data@.subrange(0, 4)[1] == data@[1]);
                assert(data@.subrange(0, 4)[2] == data@[2]);
                assert(data@.subrange(0, 4)[3] == data@[3]);
            }
            return Err(container_format_error("HFS0 magic mismatch"));
        }
        proof {
            assert(data@.subrange(0, 4) =~= hfs0_magic());
        }

        let file_count_u32 = crate::util::read_u32_le(data, 4);
        let file_count = file_count_u32 as usize;
        let string_table_size = crate::util::read_u32_le(data, 8);
        let sts = string_table_size as usize;
        proof {
            assert(hfs0_count(data@) == file_count as int);
            assert(hfs0_sts(data@) == sts as int);
        }

        let header_wide: u128 = 16u128 + 0x40u128 * (file_count as u128) + (sts as u128);
        if header_wide > n as u128 {
            return Err(container_format_error("HFS0 header truncated"));
        }
        let header_size = header_wide as usize;
        proof {
            assert(header_size as int == hfs0_header_size(data@));
        }
        let data_start = header_size as u64;

        let st_start = 16 + 0x40 * file_count;
        let st = vstd::slice::slice_subrange(data, st_start, header_size);
        proof {
            assert(st@ == hfs0_string_table(data@));
        }

        let mut entries: Vec<Hfs0Entry> = Vec::new();
        let mut i: usize = 0;
        while i < file_count
            invariant
                n == data@.len(),
                hfs0_header_size(data@) <= n,
                file_count == hfs0_count(data@),
                sts == hfs0_sts(data@),
                st@ == hfs0_string_table(data@),
                st@.len() == sts,
                data_start as int == hfs0_header_size(data@),
                i <= file_count,
                entries@.len() == i,
                forall|j: int|
                    0 <= j < i ==> hfs0_entry_parses_to(#[trigger] entries@[j], data@, j),
                forall|j: int| 0 <= j < i ==> hfs0_entry_wf(data@, j),
            decreases file_count - i,
        {
            let cursor = 16 + 0x40 * i;
            let off = crate::util::read_u64_le(data, cursor);
            let size = crate::util::read_u64_le(data, cursor + 8);
            let so = crate::util::read_u32_le(data, cursor + 16);
            let hashed_region_size = crate::util::read_u32_le(data, cursor + 20);
            let reserved_slice = vstd::slice::slice_subrange(data, cursor + 24, cursor + 32);
            let hash_slice = vstd::slice::slice_subrange(data, cursor + 32, cursor + 64);
            let reserved: [u8; 8] = bytes_to_array(reserved_slice);
            let hash: [u8; 32] = bytes_to_array(hash_slice);
            proof {
                assert(off == hfs0_entry_offset(data@, i as int));
                assert(size == hfs0_entry_size(data@, i as int));
                assert(so == hfs0_entry_string_offset(data@, i as int));
                assert(hashed_region_size == hfs0_entry_hashed_region(data@, i as int));
                assert(reserved@ == hfs0_entry_reserved(data@, i as int));
                assert(hash@ == hfs0_entry_hash(data@, i as int));
            }
            let so_usize = so as usize;
            if so_usize >= sts {
                proof {
                    assert(!hfs0_entry_wf(data@, i as int));
                }
                return Err(container_format_error("HFS0 string table offset out of bounds"));
            }
            let nul = match find_nul_exec(st, so_usize) {
                Some(nul) => nul,
                None => {
                    proof {
                        assert(!hfs0_entry_wf(data@, i as int));
                    }
                    return Err(
                        container_format_error("HFS0 string table missing NUL terminator"),
                    );
                },
            };
            let name_slice = vstd::slice::slice_subrange(st, so_usize, nul);
            proof {
                assert(name_slice@ == hfs0_name_bytes(data@, i as int));
            }
            let name = match string_from_utf8(name_slice) {
                Some(name) => name,
                None => {
                    proof {
                        assert(!hfs0_entry_wf(data@, i as int));
                    }
                    return Err(container_format_error("HFS0 entry name is not valid UTF-8"));
                },
            };
            if off > u64::MAX - data_start {
                proof {
                    assert(!hfs0_entry_wf(data@, i as int));
                }
                return Err(container_format_error("HFS0 entry offset overflow"));
            }
            let abs_start = data_start + off;
            if size > u64::MAX - abs_start {
                proof {
                    assert(!hfs0_entry_wf(data@, i as int));
                }
                return Err(container_format_error("HFS0 entry end overflow"));
            }
            let abs_end = abs_start + size;
            if abs_end > n as u64 {
                proof {
                    assert(!hfs0_entry_wf(data@, i as int));
                }
                return Err(container_format_error("HFS0 entry points outside file bounds"));
            }
            entries.push(
                Hfs0Entry {
                    name,
                    offset: off,
                    size,
                    string_table_offset: so,
                    hashed_region_size,
                    reserved,
                    hash,
                },
            );
            i = i + 1;
        }

        let archive = Hfs0Archive { entries, string_table_size, data_start };
        proof {
            assert forall|j: int|
                0 <= j < archive.spec_entries().len() implies (
            #[trigger] archive.spec_entries()[j]).offset + archive.spec_entries()[j].size
                + archive.spec_data_start() <= u64::MAX by {
                assert(hfs0_entry_wf(data@, j));
                assert(hfs0_entry_parses_to(archive.spec_entries()[j], data@, j));
            }
        }
        Ok(archive)
    }

    /// The parsed entries, in table order.
    pub fn entries(&self) -> (r: &[Hfs0Entry])
        ensures
            r@ == self.spec_entries(),
    {
        self.entries.as_slice()
    }

    /// The declared string-table size.
    pub fn string_table_size(&self) -> (r: u32)
        ensures
            r == self.spec_string_table_size(),
    {
        self.string_table_size
    }

    /// The smallest absolute payload offset, or the data start when the
    /// archive holds no entries.
    pub fn first_file_offset(&self) -> (r: u64)
        requires
            hfs0_archive_bounded(*self),
        ensures
            r as int == spec_hfs0_first_file_offset(*self),
    {
        let n = self.entries.len();
        if n == 0 {
            return self.data_start;
        }
        proof {
            assert(self.spec_entries()[0].offset + self.spec_entries()[0].size
                + self.spec_data_start() <= u64::MAX);
        }
        let mut best: u64 = self.data_start + self.entries[0].offset;
        let mut i: usize = 1;
        while i < n
            invariant
                n == self.entries@.len(),
                1 <= i <= n,
                hfs0_archive_bounded(*self),
                best as int == spec_hfs0_min_abs_offset(
                    self.spec_entries(),
                    self.spec_data_start(),
                    i as int,
                ),
            decreases n - i,
        {
            let candidate = self.data_start + self.entries[i].offset;
            if candidate < best {
                best = candidate;
            }
            i = i + 1;
        }
        best
    }

    /// Borrows the payload of `entry` out of the buffer the archive was
    /// parsed from.
    pub fn entry_bytes<'a>(&self, data: &'a [u8], entry: &Hfs0Entry) -> (r: &'a [u8])
        requires
            hfs0_wf(data@),
            hfs0_parses_to(*self, data@),
            exists|i: int|
                0 <= i < self.spec_entries().len() && self.spec_entries()[i] == *entry,
        ensures
            r@ == data@.subrange(
                self.spec_data_start() + entry.offset,
                self.spec_data_start() + entry.offset + entry.size,
            ),
    {
        let n = data.len();
        proof {
            let i = choose|i: int|
                0 <= i < self.spec_entries().len() && self.spec_entries()[i] == *entry;
            assert(hfs0_entry_wf(data@, i));
            assert(hfs0_entry_parses_to(self.spec_entries()[i], data@, i));
            assert(self.spec_data_start() + entry.offset + entry.size <= n);
        }
        let start = self.data_start + entry.offset;
        let end = start + entry.size;
        vstd::slice::slice_subrange(data, start as usize, end as usize)
    }
}

/// The minimum of `ds + offset` over the first `i` entries (at least one).
pub open spec fn spec_hfs0_min_abs_offset(entries: Seq<Hfs0Entry>, ds: u64, i: int) -> int
    decreases i,
{
    if i <= 1 {
        ds + entries[0].offset
    } else {
        let c = ds + entries[i - 1].offset;
        let m = spec_hfs0_min_abs_offset(entries, ds, i - 1);
        if c < m {
            c
        } else {
            m
        }
    }
}

/// What `Hfs0Archive::first_file_offset` returns.
pub open spec fn spec_hfs0_first_file_offset(a: Hfs0Archive) -> int {
    if a.spec_entries().len() == 0 {
        a.spec_data_start() as int
    } else {
        spec_hfs0_min_abs_offset(
            a.spec_entries(),
            a.spec_data_start(),
            a.spec_entries().len() as int,
        )
    }
}

/// The minimum absolute payload offset over the first `i` entries,
/// read directly from the container bytes.
pub open spec fn hfs0_min_abs_offset_data(data: Seq<u8>, i: int) -> int
    decreases i,
{
    if i <= 1 {
        hfs0_header_size(data) + hfs0_entry_offset(data, 0)
    } else {
        let c = hfs0_header_size(data) + hfs0_entry_offset(data, i - 1);
        let m = hfs0_min_abs_offset_data(data, i - 1);
        if c < m {
            c
        } else {
            m
        }
    }
}

/// What `first_file_offset` returns, as a function of the bytes.
pub open spec fn hfs0_ffo_data(data: Seq<u8>) -> int {
    if hfs0_count(data) == 0 {
        hfs0_header_size(data)
    } else {
        hfs0_min_abs_offset_data(data, hfs0_count(data))
    }
}

/// On a parsed archive, the entry-level minimum equals the byte-level
/// minimum.
pub proof fn lemma_hfs0_ffo_data_matches(a: Hfs0Archive, data: Seq<u8>, i: int)
    requires
        hfs0_parses_to(a, data),
        1 <= i <= hfs0_count(data),
    ensures
        spec_hfs0_min_abs_offset(a.spec_entries(), a.spec_data_start(), i)
            == hfs0_min_abs_offset_data(data, i),
    decreases i,
{
    assert(hfs0_entry_parses_to(a.spec_entries()[0], data, 0));
    if i > 1 {
        assert(hfs0_entry_parses_to(a.spec_entries()[i - 1], data, i - 1));
        lemma_hfs0_ffo_data_matches(a, data, i - 1);
    }
}

/// The 0x40-byte rows of the first `i` entries of an encoded HFS0 table.
/// The hashed-region, reserved and hash fields are zero-filled: the
/// re-encoder does not recompute per-entry hashes.
pub open spec fn hfs0_entry_table_prefix(
    names: Seq<Seq<u8>>,
    payloads: Seq<Seq<u8>>,
    header_size: int,
    fff: int,
    i: int,
) -> Seq<u8>
    decreases i,
{
    if i <= 0 {
        Seq::<u8>::empty()
    } else {
        hfs0_entry_table_prefix(names, payloads, header_size, fff, i - 1) + spec_u64_to_le_bytes(
            (fff - header_size + crate::container::nsp::payload_prefix_len(payloads, i - 1)) as u64,
        ) + spec_u64_to_le_bytes(payloads[i - 1].len() as u64) + spec_u32_to_le_bytes(
            crate::container::nsp::string_offset_of(names, i - 1) as u32,
        ) + spec_u32_to_le_bytes(0) + spec_u64_to_le_bytes(0) + crate::container::nsp::zero_bytes(
            32,
        )
    }
}

/// The string-table size an encode will declare.
pub open spec fn hfs0_final_sts(names: Seq<Seq<u8>>, base_sts: u32) -> int {
    let raw = crate::container::nsp::string_offset_of(names, names.len() as int);
    if base_sts as int > raw {
        base_sts as int
    } else {
        raw
    }
}

/// Header size an encode will produce.
pub open spec fn hfs0_encoded_header_size(names: Seq<Seq<u8>>, base_sts: u32) -> int {
    16 + 0x40 * names.len() + hfs0_final_sts(names, base_sts)
}

/// Exactly when encoding succeeds: counts fit their fields, the header
/// fits in memory, and the payload region starts at or after its end.
pub open spec fn hfs0_encode_ok(
    names: Seq<Seq<u8>>,
    payloads: Seq<Seq<u8>>,
    fff: u64,
    base_sts: u32,
) -> bool {
    let n = names.len() as int;
    &&& n <= u32::MAX
    &&& hfs0_final_sts(names, base_sts) <= u32::MAX
    &&& hfs0_encoded_header_size(names, base_sts) <= usize::MAX
    &&& hfs0_encoded_header_size(names, base_sts) <= fff
    &&& fff + crate::container::nsp::payload_prefix_len(payloads, n) <= usize::MAX
}

/// The exact bytes an encode produces.
pub open spec fn hfs0_encode_spec(
    names: Seq<Seq<u8>>,
    payloads: Seq<Seq<u8>>,
    fff: u64,
    base_sts: u32,
) -> Seq<u8> {
    let n = names.len() as int;
    let raw = crate::container::nsp::string_table_prefix(names, n);
    let sts = hfs0_final_sts(names, base_sts);
    let header_size = hfs0_encoded_header_size(names, base_sts);
    hfs0_magic() + spec_u32_to_le_bytes(n as u32) + spec_u32_to_le_bytes(sts as u32)
        + spec_u32_to_le_bytes(0) + hfs0_entry_table_prefix(
        names,
        payloads,
        header_size,
        fff as int,
        n,
    ) + raw + crate::container::nsp::zero_bytes(sts - raw.len())
        + crate::container::nsp::zero_bytes(fff - header_size)
        + crate::container::nsp::concat_payloads(payloads, n)
}

/// Encodes an ordered entry list as an HFS0 container.
///
/// The payload region starts at `first_file_offset`; the declared string
/// table is at least `base_string_table_size` bytes. Per-entry hash and
/// reserved fields are zero-filled. Succeeds exactly when
/// `hfs0_encode_ok` holds, and then the output bytes are exactly
/// `hfs0_encode_spec`.
pub fn encode_hfs0(
    entries: &[(String, EntryData<'_>)],
    first_file_offset: u64,
    base_string_table_size: u32,
) -> (r: Result<Vec<u8>, NszError>)
    ensures
        r is Ok <==> hfs0_encode_ok(
            crate::container::nsp::entry_names(entries@),
            crate::container::nsp::entry_payload_bytes(entries@),
            first_file_offset,
            base_string_table_size,
        ),
        r matches Ok(out) ==> out@ == hfs0_encode_spec(
            crate::container::nsp::entry_names(entries@),
            crate::container::nsp::entry_payload_bytes(entries@),
            first_file_offset,
            base_string_table_size,
        ),
{
    proof {
        lemma_auto_spec_u32_to_from_le_bytes();
        lemma_auto_spec_u64_to_from_le_bytes();
    }
    let ghost names = crate::container::nsp::entry_names(entries@);
    let ghost payloads = crate::container::nsp::entry_payload_bytes(entries@);
    let n_entries = entries.len();
    if n_entries as u64 > u32::MAX as u64 {
        return Err(container_format_error("HFS0 entry table size overflow"));
    }

    let mut string_table: Vec<u8> = Vec::new();
    let mut string_offsets: Vec<usize> = Vec::new();
    let mut i: usize = 0;
    while i < n_entries
        invariant
            n_entries == entries@.len(),
            names == crate::container::nsp::entry_names(entries@),
            i <= n_entries,
            string_table@ == crate::container::nsp::string_table_prefix(names, i as int),
            string_offsets@.len() == i,
            forall|j: int|
                0 <= j < i ==> string_offsets@[j] as int
                    == crate::container::nsp::string_offset_of(names, j),
        decreases n_entries - i,
    {
        let pair = vstd::slice::slice_index_get(entries, i);
        let name_bytes = pair.0.as_str().as_bytes();
        proof {
            assert(name_bytes@ == names[i as int]);
        }
        if name_bytes.len() >= usize::MAX - string_table.len() {
            proof {
                crate::container::nsp::lemma_string_table_prefix_mono(
                    names,
                    i as int + 1,
                    n_entries as int,
                );
            }
            return Err(container_format_error("HFS0 string table size overflow"));
        }
        string_offsets.push(string_table.len());
        append_slice(&mut string_table, name_bytes);
        string_table.push(0u8);
        i = i + 1;
        proof {
            assert(string_table@ =~= crate::container::nsp::string_table_prefix(
                names,
                i as int,
            ));
        }
    }

    let raw_len = string_table.len();
    let sts = if (base_string_table_size as usize) > raw_len {
        base_string_table_size as usize
    } else {
        raw_len
    };
    proof {
        assert(sts as int == hfs0_final_sts(names, base_string_table_size));
    }
    if sts as u64 > u32::MAX as u64 {
        return Err(container_format_error("HFS0 string table size overflow"));
    }
    let header_wide: u128 = 16u128 + 0x40u128 * (n_entries as u128) + (sts as u128);
    if header_wide > usize::MAX as u128 {
        return Err(container_format_error("HFS0 output header size overflow"));
    }
    let header_size = header_wide as usize;
    proof {
        assert(header_size as int == hfs0_encoded_header_size(names, base_string_table_size));
    }
    if first_file_offset < header_size as u64 {
        return Err(
            container_format_error("HFS0 first file offset is smaller than header size"),
        );
    }

    let mut total: u128 = 0;
    i = 0;
    while i < n_entries
        invariant
            n_entries == entries@.len(),
            n_entries <= u32::MAX,
            payloads == crate::container::nsp::entry_payload_bytes(entries@),
            i <= n_entries,
            total == crate::container::nsp::payload_prefix_len(payloads, i as int),
            total <= (i as u128) * (u64::MAX as u128),
        decreases n_entries - i,
    {
        let pair = vstd::slice::slice_index_get(entries, i);
        let len = pair.1.len();
        total = total + len as u128;
        i = i + 1;
    }
    if (first_file_offset as u128) + total > usize::MAX as u128 {
        return Err(container_format_error("HFS0 output size overflow"));
    }

    let mut out: Vec<u8> = Vec::new();
    out.push(0x48u8);
    out.push(0x46u8);
    out.push(0x53u8);
    out.push(0x30u8);
    proof {
        assert(out@ =~= hfs0_magic());
    }
    append_u32_le(&mut out, n_entries as u32);
    append_u32_le(&mut out, sts as u32);
    append_u32_le(&mut out, 0u32);
    let ghost fixed_header = hfs0_magic() + spec_u32_to_le_bytes(n_entries as u32)
        + spec_u32_to_le_bytes(sts as u32) + spec_u32_to_le_bytes(0u32);

    let mut abs_offset: u64 = first_file_offset;
    i = 0;
    while i < n_entries
        invariant
            n_entries == entries@.len(),
            names == crate::container::nsp::entry_names(entries@),
            payloads == crate::container::nsp::entry_payload_bytes(entries@),
            i <= n_entries,
            string_offsets@.len() == n_entries,
            forall|j: int|
                0 <= j < n_entries ==> string_offsets@[j] as int
                    == crate::container::nsp::string_offset_of(names, j),
            raw_len as int == crate::container::nsp::string_offset_of(names, n_entries as int),
            sts as int == hfs0_final_sts(names, base_string_table_size),
            raw_len <= sts,
            header_size as int == hfs0_encoded_header_size(names, base_string_table_size),
            header_size as u64 <= first_file_offset,
            first_file_offset + crate::container::nsp::payload_prefix_len(
                payloads,
                n_entries as int,
            ) <= usize::MAX,
            abs_offset as int == first_file_offset + crate::container::nsp::payload_prefix_len(
                payloads,
                i as int,
            ),
            out@.len() == 16 + 0x40 * i,
            out@ == fixed_header + hfs0_entry_table_prefix(
                names,
                payloads,
                header_size as int,
                first_file_offset as int,
                i as int,
            ),
        decreases n_entries - i,
    {
        proof {
            lemma_auto_spec_u32_to_from_le_bytes();
            lemma_auto_spec_u64_to_from_le_bytes();
            crate::container::nsp::lemma_payload_prefix_len_mono(
                payloads,
                i as int,
                n_entries as int,
            );
            crate::container::nsp::lemma_payload_prefix_len_mono(
                payloads,
                i as int + 1,
                n_entries as int,
            );
            crate::container::nsp::lemma_string_table_prefix_mono(
                names,
                i as int,
                n_entries as int,
            );
            assert(out@.len() + 0x40 <= 16 + 0x40 * n_entries);
            assert(16 + 0x40 * n_entries <= header_size);
        }
        let pair = vstd::slice::slice_index_get(entries, i);
        let rel_offset = abs_offset - header_size as u64;
        append_u64_le(&mut out, rel_offset);
        let len = pair.1.len();
        append_u64_le(&mut out, len as u64);
        append_u32_le(&mut out, string_offsets[i] as u32);
        append_u32_le(&mut out, 0u32);
        append_u64_le(&mut out, 0u64);
        append_zeros(&mut out, 32);
        abs_offset = abs_offset + len as u64;
        i = i + 1;
        proof {
            assert(Seq::new(32nat, |k: int| 0u8) =~= crate::container::nsp::zero_bytes(32));
            assert(out@ =~= fixed_header + hfs0_entry_table_prefix(
                names,
                payloads,
                header_size as int,
                first_file_offset as int,
                i as int,
            ));
        }
    }

    proof {
        assert(out@.len() == 16 + 0x40 * n_entries);
        assert(string_table@.len() == raw_len);
        assert(16 + 0x40 * n_entries + sts == header_size);
    }
    append_slice(&mut out, string_table.as_slice());
    append_zeros(&mut out, sts - raw_len);
    proof {
        assert(out@.len() == header_size);
    }
    let pad_to_fff = (first_file_offset as usize) - header_size;
    append_zeros(&mut out, pad_to_fff);
    let ghost before_payloads = out@;
    proof {
        assert(out@.len() == first_file_offset);
    }

    i = 0;
    while i < n_entries
        invariant
            n_entries == entries@.len(),
            payloads == crate::container::nsp::entry_payload_bytes(entries@),
            i <= n_entries,
            before_payloads.len() == first_file_offset,
            first_file_offset + crate::container::nsp::payload_prefix_len(
                payloads,
                n_entries as int,
            ) <= usize::MAX,
            out@ == before_payloads + crate::container::nsp::concat_payloads(payloads, i as int),
            out@.len() == first_file_offset + crate::container::nsp::payload_prefix_len(
                payloads,
                i as int,
            ),
        decreases n_entries - i,
    {
        proof {
            crate::container::nsp::lemma_payload_prefix_len_mono(
                payloads,
                i as int + 1,
                n_entries as int,
            );
        }
        let pair = vstd::slice::slice_index_get(entries, i);
        append_slice(&mut out, pair.1.as_slice());
        i = i + 1;
        proof {
            assert(out@ =~= before_payloads + crate::container::nsp::concat_payloads(
                payloads,
                i as int,
            ));
        }
    }
    proof {
        assert(out@ =~= hfs0_encode_spec(
            names,
            payloads,
            first_file_offset,
            base_string_table_size,
        ));
    }
    Ok(out)
}


// ---------------------------------------------------------------------
// The encode/parse round-trip law.
// ---------------------------------------------------------------------

/// The entry table over `n` rows is `0x40 * n` bytes.
proof fn lemma_hfs0_rows_len(
    names: Seq<Seq<u8>>,
    payloads: Seq<Seq<u8>>,
    header_size: int,
    fff: int,
    n: int,
)
    requires
        0 <= n,
    ensures
        hfs0_entry_table_prefix(names, payloads, header_size, fff, n).len() == 0x40 * n,
    decreases n,
{
    lemma_auto_spec_u32_to_from_le_bytes();
    lemma_auto_spec_u64_to_from_le_bytes();
    if n > 0 {
        lemma_hfs0_rows_len(names, payloads, header_size, fff, n - 1);
    }
}

/// One row of the encoded entry table equals its spec fields.
proof fn lemma_hfs0_row_at(
    names: Seq<Seq<u8>>,
    payloads: Seq<Seq<u8>>,
    header_size: int,
    fff: int,
    i: int,
    n: int,
)
    requires
        0 <= i < n <= names.len(),
    ensures
        hfs0_entry_table_prefix(names, payloads, header_size, fff, n).subrange(
            0x40 * i,
            0x40 * i + 0x40,
        ) == spec_u64_to_le_bytes(
            (fff - header_size + crate::container::nsp::payload_prefix_len(payloads, i)) as u64,
        ) + spec_u64_to_le_bytes(payloads[i].len() as u64) + spec_u32_to_le_bytes(
            crate::container::nsp::string_offset_of(names, i) as u32,
        ) + spec_u32_to_le_bytes(0) + spec_u64_to_le_bytes(0)
            + crate::container::nsp::zero_bytes(32),
    decreases n,
{
    lemma_auto_spec_u32_to_from_le_bytes();
    lemma_auto_spec_u64_to_from_le_bytes();
    lemma_hfs0_rows_len(names, payloads, header_size, fff, n);
    lemma_hfs0_rows_len(names, payloads, header_size, fff, n - 1);
    if i == n - 1 {
        assert(hfs0_entry_table_prefix(names, payloads, header_size, fff, n).subrange(
            0x40 * i,
            0x40 * i + 0x40,
        ) =~= spec_u64_to_le_bytes(
            (fff - header_size + crate::container::nsp::payload_prefix_len(payloads, i)) as u64,
        ) + spec_u64_to_le_bytes(payloads[i].len() as u64) + spec_u32_to_le_bytes(
            crate::container::nsp::string_offset_of(names, i) as u32,
        ) + spec_u32_to_le_bytes(0) + spec_u64_to_le_bytes(0)
            + crate::container::nsp::zero_bytes(32));
    } else {
        lemma_hfs0_row_at(names, payloads, header_size, fff, i, n - 1);
        assert(hfs0_entry_table_prefix(names, payloads, header_size, fff, n).subrange(
            0x40 * i,
            0x40 * i + 0x40,
        ) =~= hfs0_entry_table_prefix(names, payloads, header_size, fff, n - 1).subrange(
            0x40 * i,
            0x40 * i + 0x40,
        ));
    }
}

/// Encoding then parsing is the identity on the public archive fields:
/// the encoded container is well-formed, declares exactly the entries
/// given (with zeroed hash fields), stores each name NUL-terminated,
/// and lays each payload at its computed offset.
#[verifier::rlimit(100)]
#[verifier::spinoff_prover]
pub proof fn lemma_hfs0_encode_parse_roundtrip(
    names: Seq<Seq<u8>>,
    payloads: Seq<Seq<u8>>,
    fff: u64,
    base_sts: u32,
)
    requires
        names.len() == payloads.len(),
        hfs0_encode_ok(names, payloads, fff, base_sts),
        forall|i: int, k: int|
            0 <= i < names.len() && 0 <= k < names[i].len() ==> (#[trigger] names[i][k]) != 0,
    ensures
        ({
            let out = hfs0_encode_spec(names, payloads, fff, base_sts);
            let hs = hfs0_encoded_header_size(names, base_sts);
            &&& hfs0_count(out) == names.len()
            &&& hfs0_sts(out) == hfs0_final_sts(names, base_sts)
            &&& hfs0_header_size(out) == hs
            &&& (forall|i: int|
                0 <= i < names.len() ==> hfs0_entry_offset(out, i) as int == fff - hs
                    + crate::container::nsp::payload_prefix_len(payloads, i) && hfs0_entry_size(
                    out,
                    i,
                ) as int == payloads[i].len() && hfs0_entry_string_offset(out, i) as int
                    == crate::container::nsp::string_offset_of(names, i) && hfs0_name_bytes(
                    out,
                    i,
                ) == names[i])
            &&& (forall|i: int|
                0 <= i < names.len() ==> out.subrange(
                    hs + hfs0_entry_offset(out, i),
                    hs + hfs0_entry_offset(out, i) + hfs0_entry_size(out, i),
                ) == payloads[i])
            &&& ((forall|i: int|
                0 <= i < names.len() ==> vstd::utf8::valid_utf8(#[trigger] names[i]))
                ==> hfs0_wf(out))
        }),
{
    lemma_auto_spec_u32_to_from_le_bytes();
    lemma_auto_spec_u64_to_from_le_bytes();
    let out = hfs0_encode_spec(names, payloads, fff, base_sts);
    let n = names.len() as int;
    let raw = crate::container::nsp::string_table_prefix(names, n);
    let sts = hfs0_final_sts(names, base_sts);
    let hs = hfs0_encoded_header_size(names, base_sts);
    let table = hfs0_entry_table_prefix(names, payloads, hs, fff as int, n);
    let body = crate::container::nsp::concat_payloads(payloads, n);
    lemma_hfs0_rows_len(names, payloads, hs, fff as int, n);
    crate::container::nsp::lemma_concat_payload_len(payloads, n);
    crate::container::nsp::lemma_string_table_prefix_mono(names, 0, n);
    crate::container::nsp::lemma_payload_prefix_len_mono(payloads, 0, n);
    assert(out.len() == fff + crate::container::nsp::payload_prefix_len(payloads, n));

    assert(out.subrange(0, 4) =~= hfs0_magic());
    assert(out.subrange(4, 8) =~= spec_u32_to_le_bytes(n as u32));
    assert(out.subrange(8, 12) =~= spec_u32_to_le_bytes(sts as u32));
    assert(hfs0_count(out) == n);
    assert(hfs0_sts(out) == sts);
    assert(hfs0_header_size(out) == hs);

    assert forall|i: int|
        0 <= i < n implies hfs0_entry_offset(out, i) as int == fff - hs
        + crate::container::nsp::payload_prefix_len(payloads, i) && hfs0_entry_size(
        out,
        i,
    ) as int == payloads[i].len() && hfs0_entry_string_offset(out, i) as int
        == crate::container::nsp::string_offset_of(names, i) by {
        lemma_hfs0_row_at(names, payloads, hs, fff as int, i, n);
        crate::container::nsp::lemma_payload_prefix_len_mono(payloads, 0, i);
        crate::container::nsp::lemma_payload_prefix_len_mono(payloads, i + 1, n);
        crate::container::nsp::lemma_string_table_prefix_mono(names, i, n);
        let row = spec_u64_to_le_bytes(
            (fff - hs + crate::container::nsp::payload_prefix_len(payloads, i)) as u64,
        ) + spec_u64_to_le_bytes(payloads[i].len() as u64) + spec_u32_to_le_bytes(
            crate::container::nsp::string_offset_of(names, i) as u32,
        ) + spec_u32_to_le_bytes(0) + spec_u64_to_le_bytes(0)
            + crate::container::nsp::zero_bytes(32);
        assert(out.subrange(16 + 0x40 * i, 16 + 0x40 * i + 0x40) =~= row);
        assert(out.subrange(16 + 0x40 * i, 16 + 0x40 * i + 8) =~= row.subrange(0, 8));
        assert(out.subrange(16 + 0x40 * i + 8, 16 + 0x40 * i + 16) =~= row.subrange(8, 16));
        assert(out.subrange(16 + 0x40 * i + 16, 16 + 0x40 * i + 20) =~= row.subrange(16, 20));
        assert(row.subrange(0, 8) =~= spec_u64_to_le_bytes(
            (fff - hs + crate::container::nsp::payload_prefix_len(payloads, i)) as u64,
        ));
        assert(row.subrange(8, 16) =~= spec_u64_to_le_bytes(payloads[i].len() as u64));
        assert(row.subrange(16, 20) =~= spec_u32_to_le_bytes(
            crate::container::nsp::string_offset_of(names, i) as u32,
        ));
    }

    let st = out.subrange(16 + 0x40 * n, hs);
    assert(st =~= raw + crate::container::nsp::zero_bytes(sts - raw.len()));
    assert forall|i: int|
        0 <= i < n implies hfs0_name_bytes(out, i) == names[i] && find_nul(
        hfs0_string_table(out),
        crate::container::nsp::string_offset_of(names, i),
    ) == crate::container::nsp::string_offset_of(names, i) + names[i].len()
        && crate::container::nsp::string_offset_of(names, i) + names[i].len() < hfs0_sts(
        out,
    ) by {
        crate::container::nsp::lemma_string_table_at(names, n, i);
        crate::container::nsp::lemma_string_table_prefix_mono(names, i + 1, n);
        let so = crate::container::nsp::string_offset_of(names, i);
        let name_len = names[i].len() as int;
        assert(forall|k: int| 0 <= k < names[i].len() ==> #[trigger] st[so + k] == raw[so + k]);
        assert(st[so + name_len] == raw[so + name_len]);
        assert forall|k: int| so <= k < so + name_len implies st[k] != 0 by {
            let k2 = k - so;
            assert(raw[so + k2] == names[i][k2]);
            assert(st[so + k2] == raw[so + k2]);
            assert(names[i][k2] != 0);
        }
        crate::container::nsp::lemma_find_nul_exact(st, so, so + name_len);
        assert(hfs0_string_table(out) == st);
        assert(st.subrange(so, so + name_len) =~= names[i]) by {
            assert forall|k: int| 0 <= k < name_len implies #[trigger] st.subrange(
                so,
                so + name_len,
            )[k] == names[i][k] by {
                vstd::seq::axiom_seq_subrange_index(st, so, so + name_len, k);
                assert(raw[so + k] == names[i][k]);
                assert(st[so + k] == raw[so + k]);
            }
        }
    }

    assert forall|i: int|
        0 <= i < n implies out.subrange(
        hs + hfs0_entry_offset(out, i),
        hs + hfs0_entry_offset(out, i) + hfs0_entry_size(out, i),
    ) == payloads[i] by {
        crate::container::nsp::lemma_payload_prefix_len_mono(payloads, 0, i);
        crate::container::nsp::lemma_payload_prefix_len_mono(payloads, i + 1, n);
        crate::container::nsp::lemma_concat_payload_suffix(payloads, n, i);
        crate::container::nsp::lemma_concat_from_step(payloads, i, n);
        crate::container::nsp::lemma_concat_from_len(payloads, i + 1, n);
        let t = crate::container::nsp::payload_prefix_len(payloads, i);
        let start = fff + t;
        assert(out.subrange(start as int, start + payloads[i].len()) =~= body.subrange(
            t,
            t + payloads[i].len(),
        )) by {
            assert forall|k: int| 0 <= k < payloads[i].len() implies #[trigger] out.subrange(
                start as int,
                start + payloads[i].len() as int,
            )[k] == body.subrange(t, t + payloads[i].len() as int)[k] by {
                vstd::seq::axiom_seq_subrange_index(
                    out,
                    start as int,
                    start + payloads[i].len() as int,
                    k,
                );
                vstd::seq::axiom_seq_subrange_index(body, t, t + payloads[i].len() as int, k);
                assert(out[start + k] == body[t + k]);
            }
        }
        assert(body.subrange(t, t + payloads[i].len()) =~= payloads[i]) by {
            assert(body.subrange(
                t,
                crate::container::nsp::payload_prefix_len(payloads, n) as int,
            ) == crate::container::nsp::concat_payloads_from(payloads, i, n));
            assert forall|k: int| 0 <= k < payloads[i].len() implies #[trigger] body.subrange(
                t,
                t + payloads[i].len() as int,
            )[k] == payloads[i][k] by {
                vstd::seq::axiom_seq_subrange_index(body, t, t + payloads[i].len() as int, k);
                vstd::seq::axiom_seq_subrange_index(
                    body,
                    t,
                    crate::container::nsp::payload_prefix_len(payloads, n) as int,
                    k,
                );
                assert(crate::container::nsp::concat_payloads_from(payloads, i, n)[k]
                    == payloads[i][k]);
            }
        }
    }

    if forall|i: int| 0 <= i < n ==> vstd::utf8::valid_utf8(#[trigger] names[i]) {
        assert forall|i: int| 0 <= i < n implies hfs0_entry_wf(out, i) by {
            crate::container::nsp::lemma_string_table_prefix_mono(names, i + 1, n);
            crate::container::nsp::lemma_string_table_at(names, n, i);
            crate::container::nsp::lemma_payload_prefix_len_mono(payloads, 0, i);
            crate::container::nsp::lemma_payload_prefix_len_mono(payloads, i + 1, n);
            assert(hfs0_name_bytes(out, i) == names[i]);
            assert(find_nul(
                hfs0_string_table(out),
                crate::container::nsp::string_offset_of(names, i),
            ) == crate::container::nsp::string_offset_of(names, i) + names[i].len());
            assert(crate::container::nsp::string_offset_of(names, i) + names[i].len()
                < hfs0_sts(out));
            assert(vstd::utf8::valid_utf8(names[i]));
        }
        assert(hfs0_wf(out));
    }
}

} // verus!
