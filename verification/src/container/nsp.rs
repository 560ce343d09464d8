//! The PFS0 partition format carried by `.nsp` archives: a strict,
//! bounds-checked parser and a byte-exact encoder.
//!
//! Layout: `"PFS0"` | u32 file count | u32 string-table size | u32 reserved,
//! then 24-byte entries (u64 offset, u64 size, u32 string offset,
//! u32 reserved), the string table of NUL-terminated names, and the payload
//! region. Entry offsets are relative to the data region, whose start is
//! recovered as `file_len - max(offset + size)`.
use vstd::prelude::*;
use vstd::bytes::*;
use vstd::utf8::decode_utf8;
use vstd::utf8::valid_utf8;

use crate::container::payload::EntryData;
use crate::error::container_format_error;
use crate::error::NszError;
use crate::util::append_slice;
use crate::util::append_u32_le;
use crate::util::append_u64_le;
use crate::util::append_zeros;
use crate::util::find_nul;
use crate::util::find_nul_exec;
use crate::util::string_from_utf8;

verus! {

/// The four magic bytes `"PFS0"`.
pub open spec fn pfs0_magic() -> Seq<u8> {
    seq![0x50u8, 0x46u8, 0x53u8, 0x30u8]
}

/// Number of entries declared by the header.
pub open spec fn pfs0_count(data: Seq<u8>) -> int {
    spec_u32_from_le_bytes(data.subrange(4, 8)) as int
}

/// String-table size declared by the header.
pub open spec fn pfs0_sts(data: Seq<u8>) -> int {
    spec_u32_from_le_bytes(data.subrange(8, 12)) as int
}

/// Total header size: fixed part, entry table and string table.
pub open spec fn pfs0_header_size(data: Seq<u8>) -> int {
    16 + 24 * pfs0_count(data) + pfs0_sts(data)
}

/// Data-relative offset field of entry `i`.
pub open spec fn pfs0_entry_offset(data: Seq<u8>, i: int) -> u64 {
    spec_u64_from_le_bytes(data.subrange(16 + 24 * i, 16 + 24 * i + 8))
}

/// Size field of entry `i`.
pub open spec fn pfs0_entry_size(data: Seq<u8>, i: int) -> u64 {
    spec_u64_from_le_bytes(data.subrange(16 + 24 * i + 8, 16 + 24 * i + 16))
}

/// String-table offset field of entry `i`.
pub open spec fn pfs0_entry_string_offset(data: Seq<u8>, i: int) -> u32 {
    spec_u32_from_le_bytes(data.subrange(16 + 24 * i + 16, 16 + 24 * i + 20))
}

/// Reserved field of entry `i`.
pub open spec fn pfs0_entry_reserved(data: Seq<u8>, i: int) -> u32 {
    spec_u32_from_le_bytes(data.subrange(16 + 24 * i + 20, 16 + 24 * i + 24))
}

/// The string table region.
pub open spec fn pfs0_string_table(data: Seq<u8>) -> Seq<u8> {
    data.subrange(16 + 24 * pfs0_count(data), pfs0_header_size(data))
}

/// The name bytes of entry `i`: from its string offset to the first NUL.
pub open spec fn pfs0_name_bytes(data: Seq<u8>, i: int) -> Seq<u8> {
    let st = pfs0_string_table(data);
    let so = pfs0_entry_string_offset(data, i) as int;
    st.subrange(so, find_nul(st, so))
}

/// Largest `offset + size` over the first `n` entries.
pub open spec fn pfs0_max_end(data: Seq<u8>, n: int) -> int
    decreases n,
{
    if n <= 0 {
        0
    } else {
        let e = pfs0_entry_offset(data, n - 1) + pfs0_entry_size(data, n - 1);
        let m = pfs0_max_end(data, n - 1);
        if e > m {
            e
        } else {
            m
        }
    }
}

/// Start of the data region: the file length minus the furthest entry end.
pub open spec fn pfs0_data_start(data: Seq<u8>) -> int {
    data.len() - pfs0_max_end(data, pfs0_count(data))
}

/// Entry `i` is well-formed: its name lies NUL-terminated in the string
/// table, decodes as UTF-8, and its extent lies inside the file.
pub open spec fn pfs0_entry_wf(data: Seq<u8>, i: int) -> bool {
    let st = pfs0_string_table(data);
    let so = pfs0_entry_string_offset(data, i) as int;
    &&& so < pfs0_sts(data)
    &&& find_nul(st, so) >= 0
    &&& valid_utf8(pfs0_name_bytes(data, i))
    &&& pfs0_data_start(data) + pfs0_entry_offset(data, i) + pfs0_entry_size(data, i)
        <= data.len()
}

/// The whole container is well-formed: parsing succeeds exactly here.
pub open spec fn pfs0_wf(data: Seq<u8>) -> bool {
    &&& data.len() >= 16
    &&& data.subrange(0, 4) == pfs0_magic()
    &&& pfs0_header_size(data) <= data.len()
    &&& pfs0_max_end(data, pfs0_count(data)) <= data.len()
    &&& pfs0_data_start(data) >= pfs0_header_size(data)
    &&& forall|i: int| 0 <= i < pfs0_count(data) ==> pfs0_entry_wf(data, i)
}

/// One parsed PFS0 entry.
#[derive(Debug, Clone, PartialEq, Eq)]
pub struct NspEntry {
    /// Entry name from the string table.
    pub name: String,
    /// Offset relative to the data region.
    pub offset: u64,
    /// Payload size in bytes.
    pub size: u64,
    /// Offset of the name in the string table.
    pub string_table_offset: u32,
    /// Reserved field, preserved verbatim.
    pub reserved: u32,
}

/// A parsed PFS0 archive: the entry table and the recovered layout.
#[derive(Debug, Clone, PartialEq, Eq)]
pub struct NspArchive {
    entries: Vec<NspEntry>,
    string_table_size: u32,
    data_start: u64,
}

impl NspArchive {
    /// The parsed entries.
    pub closed spec fn spec_entries(&self) -> Seq<NspEntry> {
        self.entries@
    }

    /// The declared string-table size.
    pub closed spec fn spec_string_table_size(&self) -> u32 {
        self.string_table_size
    }

    /// The recovered start of the data region.
    pub closed spec fn spec_data_start(&self) -> u64 {
        self.data_start
    }

}

/// Every entry extent stays below `u64::MAX` when rebased on the data
/// region. Parsing establishes this from the file bounds; the offset
/// arithmetic of `first_file_offset` rests on it.
pub open spec fn pfs0_archive_bounded(a: NspArchive) -> bool {
    forall|i: int|
        0 <= i < a.spec_entries().len() ==> (#[trigger] a.spec_entries()[i]).offset
            + a.spec_entries()[i].size + a.spec_data_start() <= u64::MAX
}

/// `e` holds exactly the fields of entry `i` of `data`.
pub open spec fn pfs0_entry_parses_to(e: NspEntry, data: Seq<u8>, i: int) -> bool {
    &&& e.offset == pfs0_entry_offset(data, i)
    &&& e.size == pfs0_entry_size(data, i)
    &&& e.string_table_offset == pfs0_entry_string_offset(data, i)
    &&& e.reserved == pfs0_entry_reserved(data, i)
    &&& e.name@ == decode_utf8(pfs0_name_bytes(data, i))
}

/// `a` is the parse of `data`: entry for entry, with the declared
/// string-table size and the recovered data start.
pub open spec fn pfs0_parses_to(a: NspArchive, data: Seq<u8>) -> bool {
    &&& a.spec_entries().len() == pfs0_count(data)
    &&& forall|i: int|
        0 <= i < pfs0_count(data) ==> pfs0_entry_parses_to(#[trigger] a.spec_entries()[i], data, i)
    &&& a.spec_string_table_size() == pfs0_sts(data)
    &&& a.spec_data_start() == pfs0_data_start(data)
}

/// `pfs0_max_end` grows with the number of entries considered.
proof fn lemma_pfs0_max_end_mono(data: Seq<u8>, i: int, j: int)
    requires
        0 <= i <= j,
    ensures
        pfs0_max_end(data, i) <= pfs0_max_end(data, j),
    decreases j,
{
    if j > i {
        lemma_pfs0_max_end_mono(data, i, j - 1);
    }
}

/// Every entry end is bounded by `pfs0_max_end` over all entries.
proof fn lemma_pfs0_max_end_ge(data: Seq<u8>, j: int, n: int)
    requires
        0 <= j < n,
    ensures
        pfs0_entry_offset(data, j) + pfs0_entry_size(data, j) <= pfs0_max_end(data, n),
{
    lemma_pfs0_max_end_mono(data, j + 1, n);
}

impl NspArchive {
    /// Parses a PFS0 container.
    ///
    /// Succeeds exactly when `pfs0_wf` holds of the bytes, and then
    /// returns the archive whose fields `pfs0_parses_to` pins down.
    pub fn from_bytes(data: &[u8]) -> (r: Result<Self, NszError>)
        ensures
            r is Ok <==> pfs0_wf(data@),
            r matches Ok(a) ==> pfs0_parses_to(a, data@) && pfs0_archive_bounded(a),
    {
        let n = data.len();
        if n < 16 {
            return Err(container_format_error("PFS0 container too short"));
        }
        if !(data[0] == 0x50 && data[1] == 0x46 && data[2] == 0x53 && data[3] == 0x30) {
            proof {
                assert(data@.subrange(0, 4)[0] == data@[0]);
                assert(data@.subrange(0, 4)[1] == data@[1]);
                assert(data@.subrange(0, 4)[2] == data@[2]);
                assert(data@.subrange(0, 4)[3] == data@[3]);
            }
            return Err(container_format_error("PFS0 magic mismatch"));
        }
        proof {
            assert(data@.subrange(0, 4) =~= pfs0_magic());
        }

        let file_count_u32 = read_u32_le_at(data, 4);
        let file_count = file_count_u32 as usize;
        let string_table_size = read_u32_le_at(data, 8);
        let sts = string_table_size as usize;
        proof {
            assert(pfs0_count(data@) == file_count as int);
            assert(pfs0_sts(data@) == sts as int);
        }

        let header_wide: u128 = 16u128 + 24u128 * (file_count as u128) + (sts as u128);
        if header_wide > n as u128 {
            return Err(container_format_error("PFS0 header truncated"));
        }
        let header_size = header_wide as usize;
        proof {
            assert(header_size as int == pfs0_header_size(data@));
        }

        let mut raw: Vec<(u64, u64, u32, u32)> = Vec::new();
        let mut max_end: u64 = 0;
        let mut i: usize = 0;
        while i < file_count
            invariant
                n == data@.len(),
                16 + 24 * file_count + sts == pfs0_header_size(data@),
                pfs0_header_size(data@) <= n,
                file_count == pfs0_count(data@),
                i <= file_count,
                raw@.len() == i,
                forall|j: int|
                    0 <= j < i ==> #[trigger] raw@[j] == (
                        pfs0_entry_offset(data@, j),
                        pfs0_entry_size(data@, j),
                        pfs0_entry_string_offset(data@, j),
                        pfs0_entry_reserved(data@, j),
                    ),
                max_end as int == pfs0_max_end(data@, i as int),
            decreases file_count - i,
        {
            let cursor = 16 + 24 * i;
            let off = read_u64_le_at(data, cursor);
            let size = read_u64_le_at(data, cursor + 8);
            let so = read_u32_le_at(data, cursor + 16);
            let res = read_u32_le_at(data, cursor + 20);
            proof {
                assert(off == pfs0_entry_offset(data@, i as int));
                assert(size == pfs0_entry_size(data@, i as int));
                assert(so == pfs0_entry_string_offset(data@, i as int));
                assert(res == pfs0_entry_reserved(data@, i as int));
            }
            if off > u64::MAX - size {
                proof {
                    lemma_pfs0_max_end_ge(data@, i as int, file_count as int);
                    assert(pfs0_data_start(data@) < pfs0_header_size(data@));
                }
                return Err(container_format_error("PFS0 data offsets exceed file size"));
            }
            let end = off + size;
            if end > max_end {
                max_end = end;
            }
            raw.push((off, size, so, res));
            i = i + 1;
        }

        if max_end > n as u64 {
            return Err(container_format_error("PFS0 data offsets exceed file size"));
        }
        let data_start = n as u64 - max_end;
        if data_start < header_size as u64 {
            return Err(container_format_error("PFS0 computed data start overlaps header"));
        }

        let st_start = 16 + 24 * file_count;
        let st = vstd::slice::slice_subrange(data, st_start, header_size);
        proof {
            assert(st@ == pfs0_string_table(data@));
        }

        let mut entries: Vec<NspEntry> = Vec::new();
        i = 0;
        while i < file_count
            invariant
                n == data@.len(),
                pfs0_header_size(data@) <= n,
                file_count == pfs0_count(data@),
                sts == pfs0_sts(data@),
                st@ == pfs0_string_table(data@),
                st@.len() == sts,
                i <= file_count,
                raw@.len() == file_count,
                forall|j: int|
                    0 <= j < file_count ==> #[trigger] raw@[j] == (
                        pfs0_entry_offset(data@, j),
                        pfs0_entry_size(data@, j),
                        pfs0_entry_string_offset(data@, j),
                        pfs0_entry_reserved(data@, j),
                    ),
                data_start as int == pfs0_data_start(data@),
                entries@.len() == i,
                forall|j: int|
                    0 <= j < i ==> pfs0_entry_parses_to(#[trigger] entries@[j], data@, j),
                forall|j: int| 0 <= j < i ==> pfs0_entry_wf(data@, j),
            decreases file_count - i,
        {
            let (off, size, so, res) = raw[i];
            let so_usize = so as usize;
            if so_usize >= sts {
                proof {
                    assert(!pfs0_entry_wf(data@, i as int));
                }
                return Err(container_format_error("PFS0 string table offset out of bounds"));
            }
            let nul = match find_nul_exec(st, so_usize) {
                Some(nul) => nul,
                None => {
                    proof {
                        assert(!pfs0_entry_wf(data@, i as int));
                    }
                    return Err(
                        container_format_error("PFS0 string table missing NUL terminator"),
                    );
                },
            };
            let name_slice = vstd::slice::slice_subrange(st, so_usize, nul);
            proof {
                assert(name_slice@ == pfs0_name_bytes(data@, i as int));
            }
            let name = match string_from_utf8(name_slice) {
                Some(name) => name,
                None => {
                    proof {
                        assert(!pfs0_entry_wf(data@, i as int));
                    }
                    return Err(container_format_error("PFS0 entry name is not valid UTF-8"));
                },
            };
            if off > u64::MAX - data_start {
                proof {
                    assert(!pfs0_entry_wf(data@, i as int));
                }
                return Err(container_format_error("PFS0 entry offset overflow"));
            }
            let abs_start = data_start + off;
            if size > u64::MAX - abs_start {
                proof {
                    assert(!pfs0_entry_wf(data@, i as int));
                }
                return Err(container_format_error("PFS0 entry end overflow"));
            }
            let abs_end = abs_start + size;
            if abs_end > n as u64 {
                proof {
                    assert(!pfs0_entry_wf(data@, i as int));
                }
                return Err(container_format_error("PFS0 entry points outside file bounds"));
            }
            entries.push(
                NspEntry { name, offset: off, size, string_table_offset: so, reserved: res },
            );
            i = i + 1;
        }

        let archive = NspArchive { entries, string_table_size, data_start };
        proof {
            assert forall|j: int|
                0 <= j < archive.spec_entries().len() implies (
            #[trigger] archive.spec_entries()[j]).offset + archive.spec_entries()[j].size
                + archive.spec_data_start() <= u64::MAX by {
                assert(pfs0_entry_wf(data@, j));
                assert(pfs0_entry_parses_to(archive.spec_entries()[j], data@, j));
            }
        }
        Ok(archive)
    }

    /// The parsed entries, in table order.
    pub fn entries(&self) -> (r: &[NspEntry])
        ensures
            r@ == self.spec_entries(),
    {
        self.entries.as_slice()
    }

    /// The declared string-table size.
    pub fn string_table_size(&self) -> (r: u32)
        ensures
            r == self.spec_string_table_size(),
    {
        self.string_table_size
    }

    /// The smallest absolute payload offset, or the data start when the
    /// archive holds no entries.
    pub fn first_file_offset(&self) -> (r: u64)
        requires
            pfs0_archive_bounded(*self),
        ensures
            r as int == spec_first_file_offset(*self),
    {
        let n = self.entries.len();
        if n == 0 {
            return self.data_start;
        }
        proof {
            assert(self.spec_entries()[0].offset + self.spec_entries()[0].size
                + self.spec_data_start() <= u64::MAX);
        }
        let mut best: u64 = self.data_start + self.entries[0].offset;
        let mut i: usize = 1;
        while i < n
            invariant
                n == self.entries@.len(),
                1 <= i <= n,
                pfs0_archive_bounded(*self),
                best as int == spec_min_abs_offset(self.spec_entries(), self.spec_data_start(), i as int),
            decreases n - i,
        {
            let candidate = self.data_start + self.entries[i].offset;
            if candidate < best {
                best = candidate;
            }
            i = i + 1;
        }
        best
    }

    /// Borrows the payload of `entry` out of the buffer the archive was
    /// parsed from.
    pub fn entry_bytes<'a>(&self, data: &'a [u8], entry: &NspEntry) -> (r: &'a [u8])
        requires
            pfs0_wf(data@),
            pfs0_parses_to(*self, data@),
            exists|i: int|
                0 <= i < self.spec_entries().len() && self.spec_entries()[i] == *entry,
        ensures
            r@ == data@.subrange(
                self.spec_data_start() + entry.offset,
                self.spec_data_start() + entry.offset + entry.size,
            ),
    {
        let n = data.len();
        proof {
            let i = choose|i: int|
                0 <= i < self.spec_entries().len() && self.spec_entries()[i] == *entry;
            assert(pfs0_entry_wf(data@, i));
            assert(pfs0_entry_parses_to(self.spec_entries()[i], data@, i));
            assert(self.spec_data_start() + entry.offset + entry.size <= n);
        }
        let start = self.data_start + entry.offset;
        let end = start + entry.size;
        vstd::slice::slice_subrange(data, start as usize, end as usize)
    }
}

/// The minimum of `ds + offset` over the first `i` entries (at least one).
pub open spec fn spec_min_abs_offset(entries: Seq<NspEntry>, ds: u64, i: int) -> int
    decreases i,
{
    if i <= 1 {
        ds + entries[0].offset
    } else {
        let c = ds + entries[i - 1].offset;
        let m = spec_min_abs_offset(entries, ds, i - 1);
        if c < m {
            c
        } else {
            m
        }
    }
}

/// What `NspArchive::first_file_offset` returns.
pub open spec fn spec_first_file_offset(a: NspArchive) -> int {
    if a.spec_entries().len() == 0 {
        a.spec_data_start() as int
    } else {
        spec_min_abs_offset(a.spec_entries(), a.spec_data_start(), a.spec_entries().len() as int)
    }
}


/// Sum of the payload lengths of the first `i` entries.
pub open spec fn payload_prefix_len(payloads: Seq<Seq<u8>>, i: int) -> int
    decreases i,
{
    if i <= 0 {
        0
    } else {
        payload_prefix_len(payloads, i - 1) + payloads[i - 1].len()
    }
}

/// The packed string table over the first `i` names, each NUL-terminated.
pub open spec fn string_table_prefix(names: Seq<Seq<u8>>, i: int) -> Seq<u8>
    decreases i,
{
    if i <= 0 {
        Seq::<u8>::empty()
    } else {
        string_table_prefix(names, i - 1) + names[i - 1] + seq![0u8]
    }
}

/// String-table offset at which name `i` is written.
pub open spec fn string_offset_of(names: Seq<Seq<u8>>, i: int) -> int {
    string_table_prefix(names, i).len() as int
}

/// `n` zero bytes.
pub open spec fn zero_bytes(n: int) -> Seq<u8> {
    Seq::new(n as nat, |i: int| 0u8)
}

/// The 24-byte rows of the first `i` entries of an encoded PFS0 table.
pub open spec fn pfs0_entry_table_prefix(
    names: Seq<Seq<u8>>,
    payloads: Seq<Seq<u8>>,
    header_size: int,
    fff: int,
    i: int,
) -> Seq<u8>
    decreases i,
{
    if i <= 0 {
        Seq::<u8>::empty()
    } else {
        pfs0_entry_table_prefix(names, payloads, header_size, fff, i - 1) + spec_u64_to_le_bytes(
            (fff - header_size + payload_prefix_len(payloads, i - 1)) as u64,
        ) + spec_u64_to_le_bytes(payloads[i - 1].len() as u64) + spec_u32_to_le_bytes(
            string_offset_of(names, i - 1) as u32,
        ) + spec_u32_to_le_bytes(0)
    }
}

/// The first `i` payloads, concatenated.
pub open spec fn concat_payloads(payloads: Seq<Seq<u8>>, i: int) -> Seq<u8>
    decreases i,
{
    if i <= 0 {
        Seq::<u8>::empty()
    } else {
        concat_payloads(payloads, i - 1) + payloads[i - 1]
    }
}

/// The string-table size an encode will declare: the caller-supplied
/// minimum, or the packed table length when that is larger.
pub open spec fn pfs0_final_sts(names: Seq<Seq<u8>>, base_sts: u32) -> int {
    let raw = string_offset_of(names, names.len() as int);
    if base_sts as int > raw {
        base_sts as int
    } else {
        raw
    }
}

/// Header size an encode will produce.
pub open spec fn pfs0_encoded_header_size(names: Seq<Seq<u8>>, base_sts: u32) -> int {
    16 + 24 * names.len() + pfs0_final_sts(names, base_sts)
}

/// Exactly when encoding succeeds: counts fit their fields, the header
/// fits in memory, and the payload region starts at or after its end.
pub open spec fn pfs0_encode_ok(
    names: Seq<Seq<u8>>,
    payloads: Seq<Seq<u8>>,
    fff: u64,
    base_sts: u32,
) -> bool {
    let n = names.len() as int;
    &&& n <= u32::MAX
    &&& pfs0_final_sts(names, base_sts) <= u32::MAX
    &&& pfs0_encoded_header_size(names, base_sts) <= usize::MAX
    &&& pfs0_encoded_header_size(names, base_sts) <= fff
    &&& fff + payload_prefix_len(payloads, n) <= usize::MAX
}

/// The exact bytes an encode produces.
pub open spec fn pfs0_encode_spec(
    names: Seq<Seq<u8>>,
    payloads: Seq<Seq<u8>>,
    fff: u64,
    base_sts: u32,
) -> Seq<u8> {
    let n = names.len() as int;
    let raw = string_table_prefix(names, n);
    let sts = pfs0_final_sts(names, base_sts);
    let header_size = pfs0_encoded_header_size(names, base_sts);
    pfs0_magic() + spec_u32_to_le_bytes(n as u32) + spec_u32_to_le_bytes(sts as u32)
        + spec_u32_to_le_bytes(0) + pfs0_entry_table_prefix(
        names,
        payloads,
        header_size,
        fff as int,
        n,
    ) + raw + zero_bytes(sts - raw.len()) + zero_bytes(fff - header_size) + concat_payloads(
        payloads,
        n,
    )
}

/// The encoded name bytes of an entry list.
pub open spec fn entry_names(entries: Seq<(String, EntryData)>) -> Seq<Seq<u8>> {
    Seq::new(entries.len(), |i: int| vstd::utf8::encode_utf8(entries[i].0@))
}

/// The payload bytes of an entry list.
pub open spec fn entry_payload_bytes(entries: Seq<(String, EntryData)>) -> Seq<Seq<u8>> {
    Seq::new(entries.len(), |i: int| entries[i].1.bytes())
}

/// String-table prefixes only grow.
pub proof fn lemma_string_table_prefix_mono(names: Seq<Seq<u8>>, i: int, j: int)
    requires
        0 <= i <= j,
    ensures
        string_table_prefix(names, i).len() <= string_table_prefix(names, j).len(),
    decreases j,
{
    if j > i {
        lemma_string_table_prefix_mono(names, i, j - 1);
    }
}

/// Payload length sums are non-negative and only grow.
pub proof fn lemma_payload_prefix_len_mono(payloads: Seq<Seq<u8>>, i: int, j: int)
    requires
        0 <= i <= j,
    ensures
        0 <= payload_prefix_len(payloads, 0) <= payload_prefix_len(payloads, i)
            <= payload_prefix_len(payloads, j),
    decreases j,
{
    if i < j {
        lemma_payload_prefix_len_mono(payloads, i, j - 1);
    } else if j > 0 {
        lemma_payload_prefix_len_mono(payloads, i - 1, j - 1);
    }
}

/// Encodes an ordered entry list as a PFS0 container.
///
/// The payload region starts at `first_file_offset`; the declared string
/// table is at least `base_string_table_size` bytes so that a re-encoded
/// archive can keep the header layout of its source. Succeeds exactly
/// when `pfs0_encode_ok` holds, and then the output bytes are exactly
/// `pfs0_encode_spec`.
pub fn encode_pfs0(
    entries: &[(String, EntryData<'_>)],
    first_file_offset: u64,
    base_string_table_size: u32,
) -> (r: Result<Vec<u8>, NszError>)
    ensures
        r is Ok <==> pfs0_encode_ok(
            entry_names(entries@),
            entry_payload_bytes(entries@),
            first_file_offset,
            base_string_table_size,
        ),
        r matches Ok(out) ==> out@ == pfs0_encode_spec(
            entry_names(entries@),
            entry_payload_bytes(entries@),
            first_file_offset,
            base_string_table_size,
        ),
{
    proof {
        lemma_auto_spec_u32_to_from_le_bytes();
        lemma_auto_spec_u64_to_from_le_bytes();
    }
    let ghost names = entry_names(entries@);
    let ghost payloads = entry_payload_bytes(entries@);
    let n_entries = entries.len();
    if n_entries as u64 > u32::MAX as u64 {
        proof {
            lemma_string_table_prefix_mono(names, 0, n_entries as int);
        }
        return Err(container_format_error("PFS0 entry table size overflow"));
    }

    let mut string_table: Vec<u8> = Vec::new();
    let mut string_offsets: Vec<usize> = Vec::new();
    let mut i: usize = 0;
    while i < n_entries
        invariant
            n_entries == entries@.len(),
            names == entry_names(entries@),
            payloads == entry_payload_bytes(entries@),
            i <= n_entries,
            string_table@ == string_table_prefix(names, i as int),
            string_offsets@.len() == i,
            forall|j: int| 0 <= j < i ==> string_offsets@[j] as int == string_offset_of(names, j),
        decreases n_entries - i,
    {
        let pair = vstd::slice::slice_index_get(entries, i);
        let name_bytes = pair.0.as_str().as_bytes();
        proof {
            assert(name_bytes@ == names[i as int]);
        }
        if name_bytes.len() >= usize::MAX - string_table.len() {
            proof {
                lemma_string_table_prefix_mono(names, i as int + 1, n_entries as int);
            }
            return Err(container_format_error("PFS0 string table size overflow"));
        }
        string_offsets.push(string_table.len());
        append_slice(&mut string_table, name_bytes);
        string_table.push(0u8);
        i = i + 1;
        proof {
            assert(string_table@ =~= string_table_prefix(names, i as int));
        }
    }

    let raw_len = string_table.len();
    let sts = if (base_string_table_size as usize) > raw_len {
        base_string_table_size as usize
    } else {
        raw_len
    };
    proof {
        assert(sts as int == pfs0_final_sts(names, base_string_table_size));
    }
    if sts as u64 > u32::MAX as u64 {
        return Err(container_format_error("PFS0 string table size overflow"));
    }
    let header_wide: u128 = 16u128 + 24u128 * (n_entries as u128) + (sts as u128);
    if header_wide > usize::MAX as u128 {
        return Err(container_format_error("PFS0 output header size overflow"));
    }
    let header_size = header_wide as usize;
    proof {
        assert(header_size as int == pfs0_encoded_header_size(names, base_string_table_size));
    }
    if first_file_offset < header_size as u64 {
        return Err(
            container_format_error("PFS0 first file offset is smaller than header size"),
        );
    }

    let mut total: u128 = 0;
    i = 0;
    while i < n_entries
        invariant
            n_entries == entries@.len(),
            n_entries <= u32::MAX,
            payloads == entry_payload_bytes(entries@),
            i <= n_entries,
            total == payload_prefix_len(payloads, i as int),
            total <= (i as u128) * (u64::MAX as u128),
        decreases n_entries - i,
    {
        let pair = vstd::slice::slice_index_get(entries, i);
        let len = pair.1.len();
        total = total + len as u128;
        i = i + 1;
    }
    if (first_file_offset as u128) + total > usize::MAX as u128 {
        return Err(container_format_error("PFS0 output size overflow"));
    }

    let mut out: Vec<u8> = Vec::new();
    out.push(0x50u8);
    out.push(0x46u8);
    out.push(0x53u8);
    out.push(0x30u8);
    proof {
        assert(out@ =~= pfs0_magic());
    }
    append_u32_le(&mut out, n_entries as u32);
    append_u32_le(&mut out, sts as u32);
    append_u32_le(&mut out, 0u32);
    let ghost fixed_header = pfs0_magic() + spec_u32_to_le_bytes(n_entries as u32)
        + spec_u32_to_le_bytes(sts as u32) + spec_u32_to_le_bytes(0u32);

    let mut abs_offset: u64 = first_file_offset;
    i = 0;
    while i < n_entries
        invariant
            n_entries == entries@.len(),
            names == entry_names(entries@),
            payloads == entry_payload_bytes(entries@),
            i <= n_entries,
            string_offsets@.len() == n_entries,
            forall|j: int| 0 <= j < n_entries ==> string_offsets@[j] as int == string_offset_of(names, j),
            raw_len as int == string_offset_of(names, n_entries as int),
            sts as int == pfs0_final_sts(names, base_string_table_size),
            raw_len <= sts,
            header_size as int == pfs0_encoded_header_size(names, base_string_table_size),
            header_size as u64 <= first_file_offset,
            first_file_offset + payload_prefix_len(payloads, n_entries as int) <= usize::MAX,
            abs_offset as int == first_file_offset + payload_prefix_len(payloads, i as int),
            out@.len() == 16 + 24 * i,
            out@ == fixed_header + pfs0_entry_table_prefix(
                names,
                payloads,
                header_size as int,
                first_file_offset as int,
                i as int,
            ),
        decreases n_entries - i,
    {
        proof {
            lemma_auto_spec_u32_to_from_le_bytes();
            lemma_auto_spec_u64_to_from_le_bytes();
            lemma_payload_prefix_len_mono(payloads, i as int, n_entries as int);
            lemma_payload_prefix_len_mono(payloads, i as int + 1, n_entries as int);
            lemma_string_table_prefix_mono(names, i as int, n_entries as int);
            assert(out@.len() + 24 <= 16 + 24 * n_entries);
            assert(16 + 24 * n_entries <= header_size);
        }
        let pair = vstd::slice::slice_index_get(entries, i);
        let rel_offset = abs_offset - header_size as u64;
        append_u64_le(&mut out, rel_offset);
        let len = pair.1.len();
        append_u64_le(&mut out, len as u64);
        append_u32_le(&mut out, string_offsets[i] as u32);
        append_u32_le(&mut out, 0u32);
        abs_offset = abs_offset + len as u64;
        i = i + 1;
        proof {
            assert(out@ =~= fixed_header + pfs0_entry_table_prefix(
                names,
                payloads,
                header_size as int,
                first_file_offset as int,
                i as int,
            ));
        }
    }

    proof {
        assert(out@.len() == 16 + 24 * n_entries);
        assert(string_table@.len() == raw_len);
        assert(16 + 24 * n_entries + sts == header_size);
    }
    append_slice(&mut out, string_table.as_slice());
    append_zeros(&mut out, sts - raw_len);
    proof {
        assert(out@.len() == header_size);
    }
    let pad_to_fff = (first_file_offset as usize) - header_size;
    append_zeros(&mut out, pad_to_fff);
    let ghost before_payloads = out@;
    proof {
        assert(out@.len() == first_file_offset);
    }

    i = 0;
    while i < n_entries
        invariant
            n_entries == entries@.len(),
            payloads == entry_payload_bytes(entries@),
            i <= n_entries,
            before_payloads.len() == first_file_offset,
            first_file_offset + payload_prefix_len(payloads, n_entries as int) <= usize::MAX,
            out@ == before_payloads + concat_payloads(payloads, i as int),
            out@.len() == first_file_offset + payload_prefix_len(payloads, i as int),
        decreases n_entries - i,
    {
        proof {
            lemma_payload_prefix_len_mono(payloads, i as int + 1, n_entries as int);
        }
        let pair = vstd::slice::slice_index_get(entries, i);
        append_slice(&mut out, pair.1.as_slice());
        i = i + 1;
        proof {
            assert(out@ =~= before_payloads + concat_payloads(payloads, i as int));
        }
    }
    proof {
        assert(out@ =~= pfs0_encode_spec(
            names,
            payloads,
            first_file_offset,
            base_string_table_size,
        ));
    }
    Ok(out)
}


/// The minimum absolute payload offset over the first `i` entries,
/// read directly from the container bytes.
pub open spec fn pfs0_min_abs_offset_data(data: Seq<u8>, i: int) -> int
    decreases i,
{
    if i <= 1 {
        pfs0_data_start(data) + pfs0_entry_offset(data, 0)
    } else {
        let c = pfs0_data_start(data) + pfs0_entry_offset(data, i - 1);
        let m = pfs0_min_abs_offset_data(data, i - 1);
        if c < m {
            c
        } else {
            m
        }
    }
}

/// What `first_file_offset` returns, as a function of the bytes.
pub open spec fn pfs0_ffo_data(data: Seq<u8>) -> int {
    if pfs0_count(data) == 0 {
        pfs0_data_start(data)
    } else {
        pfs0_min_abs_offset_data(data, pfs0_count(data))
    }
}

/// On a parsed archive, the entry-level minimum equals the byte-level
/// minimum.
pub proof fn lemma_ffo_data_matches(a: NspArchive, data: Seq<u8>, i: int)
    requires
        pfs0_parses_to(a, data),
        1 <= i <= pfs0_count(data),
    ensures
        spec_min_abs_offset(a.spec_entries(), a.spec_data_start(), i) == pfs0_min_abs_offset_data(
            data,
            i,
        ),
    decreases i,
{
    assert(pfs0_entry_parses_to(a.spec_entries()[0], data, 0));
    if i > 1 {
        assert(pfs0_entry_parses_to(a.spec_entries()[i - 1], data, i - 1));
        lemma_ffo_data_matches(a, data, i - 1);
    }
}

/// Reads the little-endian `u32` at `pos`; a thin local alias so the spec
/// subrange indices line up with the entry-field spec functions.
fn read_u32_le_at(data: &[u8], pos: usize) -> (r: u32)
    requires
        pos + 4 <= data@.len(),
    ensures
        r == spec_u32_from_le_bytes(data@.subrange(pos as int, pos + 4)),
{
    crate::util::read_u32_le(data, pos)
}

/// Reads the little-endian `u64` at `pos`.
fn read_u64_le_at(data: &[u8], pos: usize) -> (r: u64)
    requires
        pos + 8 <= data@.len(),
    ensures
        r == spec_u64_from_le_bytes(data@.subrange(pos as int, pos + 8)),
{
    crate::util::read_u64_le(data, pos)
}


// ---------------------------------------------------------------------
// The encode/parse round-trip law.
// ---------------------------------------------------------------------

/// A nested subrange equals the outer subrange re-based.
pub proof fn lemma_nsp_sub_compose(s: Seq<u8>, a: int, b: int, c: int, d: int)
    requires
        0 <= a <= b <= s.len(),
        a <= c <= d <= b,
    ensures
        s.subrange(c, d) == s.subrange(a, b).subrange(c - a, d - a),
{
    assert forall|k: int| 0 <= k < d - c implies s.subrange(c, d)[k] == s.subrange(
        a,
        b,
    ).subrange(c - a, d - a)[k] by {
        vstd::seq::axiom_seq_subrange_index(s, c, d, k);
        vstd::seq::axiom_seq_subrange_index(s.subrange(a, b), c - a, d - a, k);
        vstd::seq::axiom_seq_subrange_index(s, a, b, c - a + k);
    }
    assert(s.subrange(c, d) =~= s.subrange(a, b).subrange(c - a, d - a));
}

/// A NUL right after a NUL-free span pins the scan result.
pub proof fn lemma_find_nul_exact(s: Seq<u8>, from: int, end: int)
    requires
        0 <= from <= end < s.len(),
        forall|k: int| from <= k < end ==> s[k] != 0,
        s[end] == 0,
    ensures
        find_nul(s, from) == end,
    decreases end - from,
{
    if from < end {
        lemma_find_nul_exact(s, from + 1, end);
    }
}

/// Each name sits NUL-terminated at its offset in the packed table.
pub proof fn lemma_string_table_at(names: Seq<Seq<u8>>, n: int, i: int)
    requires
        0 <= i < n <= names.len(),
    ensures
        string_offset_of(names, i) + names[i].len() < string_table_prefix(names, n).len(),
        forall|k: int|
            0 <= k < names[i].len() ==> #[trigger] string_table_prefix(names, n)[string_offset_of(
                names,
                i,
            ) + k] == names[i][k],
        string_table_prefix(names, n)[string_offset_of(names, i) + names[i].len()] == 0,
    decreases n,
{
    lemma_string_table_prefix_mono(names, i + 1, n);
    if i == n - 1 {
        let prev = string_table_prefix(names, n - 1);
        assert(string_table_prefix(names, n) == prev + names[i] + seq![0u8]);
        assert(forall|k: int|
            0 <= k < names[i].len() ==> #[trigger] (prev + names[i] + seq![0u8])[prev.len() + k]
                == names[i][k]);
        assert((prev + names[i] + seq![0u8])[prev.len() + names[i].len() as int] == 0);
    } else {
        lemma_string_table_at(names, n - 1, i);
        let prev = string_table_prefix(names, n - 1);
        assert(string_table_prefix(names, n) == prev + names[n - 1] + seq![0u8]);
        assert(forall|k: int|
            0 <= k < prev.len() ==> #[trigger] (prev + names[n - 1] + seq![0u8])[k] == prev[k]);
        lemma_string_table_prefix_mono(names, i + 1, n - 1);
    }
}

/// One row of the encoded entry table equals its spec fields.
proof fn lemma_pfs0_row_at(
    names: Seq<Seq<u8>>,
    payloads: Seq<Seq<u8>>,
    header_size: int,
    fff: int,
    i: int,
    n: int,
)
    requires
        0 <= i < n <= names.len(),
    ensures
        pfs0_entry_table_prefix(names, payloads, header_size, fff, n).len() == 24 * n,
        pfs0_entry_table_prefix(names, payloads, header_size, fff, n).subrange(
            24 * i,
            24 * i + 24,
        ) == spec_u64_to_le_bytes((fff - header_size + payload_prefix_len(payloads, i)) as u64)
            + spec_u64_to_le_bytes(payloads[i].len() as u64) + spec_u32_to_le_bytes(
            string_offset_of(names, i) as u32,
        ) + spec_u32_to_le_bytes(0),
    decreases n,
{
    lemma_auto_spec_u32_to_from_le_bytes();
    lemma_auto_spec_u64_to_from_le_bytes();
    if i == n - 1 {
        lemma_pfs0_row_at_len(names, payloads, header_size, fff, n - 1);
        assert(pfs0_entry_table_prefix(names, payloads, header_size, fff, n).subrange(
            24 * i,
            24 * i + 24,
        ) =~= spec_u64_to_le_bytes((fff - header_size + payload_prefix_len(payloads, i)) as u64)
            + spec_u64_to_le_bytes(payloads[i].len() as u64) + spec_u32_to_le_bytes(
            string_offset_of(names, i) as u32,
        ) + spec_u32_to_le_bytes(0));
    } else {
        lemma_pfs0_row_at(names, payloads, header_size, fff, i, n - 1);
        assert(pfs0_entry_table_prefix(names, payloads, header_size, fff, n).subrange(
            24 * i,
            24 * i + 24,
        ) =~= pfs0_entry_table_prefix(names, payloads, header_size, fff, n - 1).subrange(
            24 * i,
            24 * i + 24,
        ));
    }
}

/// The entry table over `n` rows is `24 * n` bytes.
proof fn lemma_pfs0_row_at_len(
    names: Seq<Seq<u8>>,
    payloads: Seq<Seq<u8>>,
    header_size: int,
    fff: int,
    n: int,
)
    requires
        0 <= n,
    ensures
        pfs0_entry_table_prefix(names, payloads, header_size, fff, n).len() == 24 * n,
    decreases n,
{
    lemma_auto_spec_u32_to_from_le_bytes();
    lemma_auto_spec_u64_to_from_le_bytes();
    if n > 0 {
        lemma_pfs0_row_at_len(names, payloads, header_size, fff, n - 1);
    }
}

/// Payload concatenations decompose at any entry boundary.
pub proof fn lemma_concat_payload_suffix(payloads: Seq<Seq<u8>>, n: int, i: int)
    requires
        0 <= i <= n <= payloads.len(),
    ensures
        concat_payloads(payloads, n).len() == payload_prefix_len(payloads, n),
        concat_payloads(payloads, n).subrange(
            payload_prefix_len(payloads, i),
            payload_prefix_len(payloads, n) as int,
        ) == concat_payloads_from(payloads, i, n),
    decreases i,
{
    lemma_payload_prefix_len_mono(payloads, 0, i);
    lemma_payload_prefix_len_mono(payloads, i, n);
    lemma_concat_payload_len(payloads, n);
    if i == n {
        assert(concat_payloads(payloads, n).subrange(
            payload_prefix_len(payloads, n),
            payload_prefix_len(payloads, n) as int,
        ) =~= Seq::<u8>::empty());
    } else if i == 0 {
        assert(concat_payloads(payloads, n).subrange(
            0,
            payload_prefix_len(payloads, n) as int,
        ) =~= concat_payloads(payloads, n));
        lemma_concat_from_zero(payloads, n);
    } else {
        lemma_concat_payload_suffix(payloads, n, i - 1);
        lemma_concat_from_step(payloads, i - 1, n);
        lemma_payload_prefix_len_mono(payloads, i - 1, n);
        lemma_payload_prefix_len_mono(payloads, i - 1, i);
        let whole = concat_payloads(payloads, n);
        let ti = payload_prefix_len(payloads, i);
        let tprev = payload_prefix_len(payloads, i - 1);
        assert(whole.subrange(ti, payload_prefix_len(payloads, n) as int) =~= whole.subrange(
            tprev,
            payload_prefix_len(payloads, n) as int,
        ).subrange(
            payloads[i - 1].len() as int,
            (payload_prefix_len(payloads, n) - tprev) as int,
        )) by {
            lemma_nsp_sub_compose(
                whole,
                tprev,
                payload_prefix_len(payloads, n) as int,
                ti,
                payload_prefix_len(payloads, n) as int,
            );
        }
        assert(concat_payloads_from(payloads, i - 1, n).subrange(
            payloads[i - 1].len() as int,
            concat_payloads_from(payloads, i - 1, n).len() as int,
        ) =~= concat_payloads_from(payloads, i, n));
        lemma_concat_from_len(payloads, i - 1, n);
    }
}

/// The payloads from `i` to `n`, concatenated.
pub open spec fn concat_payloads_from(payloads: Seq<Seq<u8>>, i: int, n: int) -> Seq<u8>
    decreases n - i,
{
    if i >= n {
        Seq::<u8>::empty()
    } else {
        payloads[i] + concat_payloads_from(payloads, i + 1, n)
    }
}

/// Length of a full payload concatenation.
pub proof fn lemma_concat_payload_len(payloads: Seq<Seq<u8>>, n: int)
    requires
        0 <= n <= payloads.len(),
    ensures
        concat_payloads(payloads, n).len() == payload_prefix_len(payloads, n),
    decreases n,
{
    if n > 0 {
        lemma_concat_payload_len(payloads, n - 1);
    }
}

/// Length of a suffix concatenation.
pub proof fn lemma_concat_from_len(payloads: Seq<Seq<u8>>, i: int, n: int)
    requires
        0 <= i <= n <= payloads.len(),
    ensures
        concat_payloads_from(payloads, i, n).len() == payload_prefix_len(payloads, n)
            - payload_prefix_len(payloads, i),
    decreases n - i,
{
    if i < n {
        lemma_concat_from_len(payloads, i + 1, n);
        lemma_payload_prefix_len_mono(payloads, i, i + 1);
    }
}

/// A front-to-back concatenation equals the suffix form from zero.
pub proof fn lemma_concat_from_zero(payloads: Seq<Seq<u8>>, n: int)
    requires
        0 <= n <= payloads.len(),
    ensures
        concat_payloads(payloads, n) == concat_payloads_from(payloads, 0, n),
    decreases n,
{
    if n > 0 {
        lemma_concat_from_zero(payloads, n - 1);
        lemma_concat_from_push(payloads, 0, n);
    }
}

/// Appending the next payload extends a suffix concatenation.
pub proof fn lemma_concat_from_push(payloads: Seq<Seq<u8>>, i: int, n: int)
    requires
        0 <= i < n <= payloads.len(),
    ensures
        concat_payloads_from(payloads, i, n) == concat_payloads_from(payloads, i, n - 1)
            + payloads[n - 1],
    decreases n - i,
{
    if i < n - 1 {
        lemma_concat_from_push(payloads, i + 1, n);
        assert(concat_payloads_from(payloads, i, n) == payloads[i] + concat_payloads_from(
            payloads,
            i + 1,
            n,
        ));
        assert(payloads[i] + (concat_payloads_from(payloads, i + 1, n - 1) + payloads[n - 1])
            =~= (payloads[i] + concat_payloads_from(payloads, i + 1, n - 1)) + payloads[n - 1]);
    } else {
        assert(concat_payloads_from(payloads, i, n) == payloads[i] + concat_payloads_from(
            payloads,
            i + 1,
            n,
        ));
        assert(concat_payloads_from(payloads, i, n - 1) =~= Seq::<u8>::empty());
        assert(payloads[i] + Seq::<u8>::empty() =~= payloads[i]);
    }
}

/// A suffix concatenation's first block is its first payload.
pub proof fn lemma_concat_from_step(payloads: Seq<Seq<u8>>, i: int, n: int)
    requires
        0 <= i < n <= payloads.len(),
    ensures
        concat_payloads_from(payloads, i, n) == payloads[i] + concat_payloads_from(
            payloads,
            i + 1,
            n,
        ),
{
}


/// The largest entry end over the first `i` encoded entries.
proof fn lemma_encoded_max_end(
    names: Seq<Seq<u8>>,
    payloads: Seq<Seq<u8>>,
    fff: u64,
    base_sts: u32,
    i: int,
)
    requires
        names.len() == payloads.len(),
        pfs0_encode_ok(names, payloads, fff, base_sts),
        0 <= i <= names.len(),
        forall|j: int|
            0 <= j < names.len() ==> pfs0_entry_offset(
                pfs0_encode_spec(names, payloads, fff, base_sts),
                j,
            ) as int == fff - pfs0_encoded_header_size(names, base_sts) + payload_prefix_len(
                payloads,
                j,
            ) && pfs0_entry_size(pfs0_encode_spec(names, payloads, fff, base_sts), j) as int
                == payloads[j].len(),
    ensures
        pfs0_max_end(pfs0_encode_spec(names, payloads, fff, base_sts), i) == (if i == 0 {
            0int
        } else {
            fff - pfs0_encoded_header_size(names, base_sts) + payload_prefix_len(payloads, i)
        }),
    decreases i,
{
    let out = pfs0_encode_spec(names, payloads, fff, base_sts);
    let hs = pfs0_encoded_header_size(names, base_sts);
    if i > 0 {
        lemma_encoded_max_end(names, payloads, fff, base_sts, i - 1);
        lemma_payload_prefix_len_mono(payloads, i - 1, i);
        lemma_payload_prefix_len_mono(payloads, 0, i - 1);
    }
}

/// Encoding then parsing is the identity on the public archive fields:
/// the encoded container is well-formed, declares exactly the entries
/// given, stores each name NUL-terminated in the string table, and lays
/// each payload at its computed offset. Names must be NUL-free, as they
/// are in any parseable source archive.
#[verifier::rlimit(100)]
#[verifier::spinoff_prover]
pub proof fn lemma_pfs0_encode_parse_roundtrip(
    names: Seq<Seq<u8>>,
    payloads: Seq<Seq<u8>>,
    fff: u64,
    base_sts: u32,
)
    requires
        names.len() == payloads.len(),
        pfs0_encode_ok(names, payloads, fff, base_sts),
        forall|i: int, k: int|
            0 <= i < names.len() && 0 <= k < names[i].len() ==> (#[trigger] names[i][k]) != 0,
    ensures
        ({
            let out = pfs0_encode_spec(names, payloads, fff, base_sts);
            let hs = pfs0_encoded_header_size(names, base_sts);
            &&& pfs0_count(out) == names.len()
            &&& pfs0_sts(out) == pfs0_final_sts(names, base_sts)
            &&& (forall|i: int|
                0 <= i < names.len() ==> pfs0_entry_offset(out, i) as int == fff - hs
                    + payload_prefix_len(payloads, i) && pfs0_entry_size(out, i) as int
                    == payloads[i].len() && pfs0_entry_string_offset(out, i) as int
                    == string_offset_of(names, i) && pfs0_name_bytes(out, i) == names[i])
            &&& pfs0_data_start(out) == (if names.len() == 0 {
                fff as int
            } else {
                hs
            })
            &&& (forall|i: int|
                0 <= i < names.len() ==> out.subrange(
                    pfs0_data_start(out) + pfs0_entry_offset(out, i),
                    pfs0_data_start(out) + pfs0_entry_offset(out, i) + pfs0_entry_size(out, i),
                ) == payloads[i])
            &&& ((forall|i: int|
                0 <= i < names.len() ==> vstd::utf8::valid_utf8(#[trigger] names[i]))
                ==> pfs0_wf(out))
        }),
{
    lemma_auto_spec_u32_to_from_le_bytes();
    lemma_auto_spec_u64_to_from_le_bytes();
    let out = pfs0_encode_spec(names, payloads, fff, base_sts);
    let n = names.len() as int;
    let raw = string_table_prefix(names, n);
    let sts = pfs0_final_sts(names, base_sts);
    let hs = pfs0_encoded_header_size(names, base_sts);
    let table = pfs0_entry_table_prefix(names, payloads, hs, fff as int, n);
    let pads = zero_bytes(sts - raw.len()) + zero_bytes(fff - hs);
    let body = concat_payloads(payloads, n);
    lemma_pfs0_row_at_len(names, payloads, hs, fff as int, n);
    lemma_concat_payload_len(payloads, n);
    lemma_string_table_prefix_mono(names, 0, n);
    lemma_payload_prefix_len_mono(payloads, 0, n);
    assert(out.len() == fff + payload_prefix_len(payloads, n));

    // Header fields.
    assert(out.subrange(0, 4) =~= pfs0_magic());
    assert(out.subrange(4, 8) =~= spec_u32_to_le_bytes(n as u32));
    assert(out.subrange(8, 12) =~= spec_u32_to_le_bytes(sts as u32));
    assert(pfs0_count(out) == n);
    assert(pfs0_sts(out) == sts);
    assert(pfs0_header_size(out) == hs);

    // Entry rows.
    assert forall|i: int|
        0 <= i < n implies pfs0_entry_offset(out, i) as int == fff - hs + payload_prefix_len(
        payloads,
        i,
    ) && pfs0_entry_size(out, i) as int == payloads[i].len() && pfs0_entry_string_offset(
        out,
        i,
    ) as int == string_offset_of(names, i) by {
        lemma_pfs0_row_at(names, payloads, hs, fff as int, i, n);
        lemma_payload_prefix_len_mono(payloads, 0, i);
        lemma_payload_prefix_len_mono(payloads, i + 1, n);
        lemma_string_table_prefix_mono(names, i, n);
        let row = spec_u64_to_le_bytes((fff - hs + payload_prefix_len(payloads, i)) as u64)
            + spec_u64_to_le_bytes(payloads[i].len() as u64) + spec_u32_to_le_bytes(
            string_offset_of(names, i) as u32,
        ) + spec_u32_to_le_bytes(0);
        assert(out.subrange(16 + 24 * i, 16 + 24 * i + 24) =~= row);
        assert(out.subrange(16 + 24 * i, 16 + 24 * i + 8) =~= row.subrange(0, 8));
        assert(out.subrange(16 + 24 * i + 8, 16 + 24 * i + 16) =~= row.subrange(8, 16));
        assert(out.subrange(16 + 24 * i + 16, 16 + 24 * i + 20) =~= row.subrange(16, 20));
        assert(row.subrange(0, 8) =~= spec_u64_to_le_bytes((fff - hs + payload_prefix_len(
            payloads,
            i,
        )) as u64));
        assert(row.subrange(8, 16) =~= spec_u64_to_le_bytes(payloads[i].len() as u64));
        assert(row.subrange(16, 20) =~= spec_u32_to_le_bytes(string_offset_of(names, i) as u32));
    }

    // The string table region and names.
    let st = out.subrange(16 + 24 * n, hs);
    assert(st =~= raw + zero_bytes(sts - raw.len()));
    assert forall|i: int|
        0 <= i < n implies pfs0_name_bytes(out, i) == names[i] && find_nul(
        pfs0_string_table(out),
        string_offset_of(names, i),
    ) == string_offset_of(names, i) + names[i].len() && string_offset_of(names, i)
        + names[i].len() < pfs0_sts(out) by {
        lemma_string_table_at(names, n, i);
        lemma_string_table_prefix_mono(names, i + 1, n);
        let so = string_offset_of(names, i);
        let name_len = names[i].len() as int;
        assert(forall|k: int| 0 <= k < names[i].len() ==> #[trigger] st[so + k] == raw[so + k]);
        assert(st[so + name_len] == raw[so + name_len]);
        assert forall|k: int| so <= k < so + name_len implies st[k] != 0 by {
            let k2 = k - so;
            assert(raw[so + k2] == names[i][k2]);
            assert(st[so + k2] == raw[so + k2]);
            assert(names[i][k2] != 0);
        }
        lemma_find_nul_exact(st, so, so + name_len);
        assert(pfs0_string_table(out) == st);
        assert(st.subrange(so, so + name_len) =~= names[i]) by {
            assert forall|k: int| 0 <= k < name_len implies #[trigger] st.subrange(
                so,
                so + name_len,
            )[k] == names[i][k] by {
                vstd::seq::axiom_seq_subrange_index(st, so, so + name_len, k);
                assert(raw[so + k] == names[i][k]);
                assert(st[so + k] == raw[so + k]);
            }
        }
    }

    // Data start.
    lemma_encoded_max_end(names, payloads, fff, base_sts, n);
    if n == 0 {
        assert(pfs0_data_start(out) == fff);
    } else {
        assert(pfs0_data_start(out) == hs);
    }

    // Payload extents.
    assert forall|i: int|
        0 <= i < n implies out.subrange(
        pfs0_data_start(out) + pfs0_entry_offset(out, i),
        pfs0_data_start(out) + pfs0_entry_offset(out, i) + pfs0_entry_size(out, i),
    ) == payloads[i] by {
        lemma_payload_prefix_len_mono(payloads, 0, i);
        lemma_payload_prefix_len_mono(payloads, i + 1, n);
        lemma_concat_payload_suffix(payloads, n, i);
        lemma_concat_from_step(payloads, i, n);
        lemma_concat_from_len(payloads, i + 1, n);
        let t = payload_prefix_len(payloads, i);
        let start = fff + t;
        assert(out.subrange(start as int, start + payloads[i].len()) =~= body.subrange(
            t,
            t + payloads[i].len(),
        )) by {
            assert forall|k: int| 0 <= k < payloads[i].len() implies #[trigger] out.subrange(
                start as int,
                start + payloads[i].len() as int,
            )[k] == body.subrange(t, t + payloads[i].len() as int)[k] by {
                vstd::seq::axiom_seq_subrange_index(
                    out,
                    start as int,
                    start + payloads[i].len() as int,
                    k,
                );
                vstd::seq::axiom_seq_subrange_index(body, t, t + payloads[i].len() as int, k);
                assert(out[start + k] == body[t + k]);
            }
        }
        assert(body.subrange(t, t + payloads[i].len()) =~= payloads[i]) by {
            assert(body.subrange(t, payload_prefix_len(payloads, n) as int)
                == concat_payloads_from(payloads, i, n));
            assert forall|k: int| 0 <= k < payloads[i].len() implies #[trigger] body.subrange(
                t,
                t + payloads[i].len() as int,
            )[k] == payloads[i][k] by {
                vstd::seq::axiom_seq_subrange_index(body, t, t + payloads[i].len() as int, k);
                vstd::seq::axiom_seq_subrange_index(
                    body,
                    t,
                    payload_prefix_len(payloads, n) as int,
                    k,
                );
                assert(concat_payloads_from(payloads, i, n)[k] == payloads[i][k]);
            }
        }
    }

    // Well-formedness, when the names decode.
    if forall|i: int| 0 <= i < n ==> vstd::utf8::valid_utf8(#[trigger] names[i]) {
        assert forall|i: int| 0 <= i < n implies pfs0_entry_wf(out, i) by {
            lemma_string_table_prefix_mono(names, i + 1, n);
            lemma_string_table_at(names, n, i);
            lemma_payload_prefix_len_mono(payloads, 0, i);
            lemma_payload_prefix_len_mono(payloads, i + 1, n);
            assert(pfs0_name_bytes(out, i) == names[i]);
            assert(find_nul(pfs0_string_table(out), string_offset_of(names, i))
                == string_offset_of(names, i) + names[i].len());
            assert(string_offset_of(names, i) + names[i].len() < pfs0_sts(out));
            assert(vstd::utf8::valid_utf8(names[i]));
        }
        assert(pfs0_wf(out));
    }
}

} // verus!
