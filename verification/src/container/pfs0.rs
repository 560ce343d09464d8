//! The raw PFS0 header region as a record: entry rows, string table and
//! trailing padding kept verbatim, so a header can be rewritten without
//! touching the payload region.
use vstd::prelude::*;
use vstd::bytes::*;

use crate::container::nsp::pfs0_count;
use crate::container::nsp::pfs0_entry_offset;
use crate::container::nsp::pfs0_entry_reserved;
use crate::container::nsp::pfs0_entry_size;
use crate::container::nsp::pfs0_entry_string_offset;
use crate::container::nsp::pfs0_magic;
use crate::container::nsp::pfs0_sts;
use crate::error::container_format_error;
use crate::error::NszError;
use crate::util::append_slice;
use crate::util::append_u32_le;
use crate::util::append_u64_le;
use crate::util::copy_range;

verus! {

/// One 24-byte PFS0 entry row, fields preserved verbatim.
#[derive(Debug, Clone, PartialEq, Eq)]
pub struct Pfs0FileEntry {
    /// Offset relative to the data region.
    pub offset: u64,
    /// Payload size in bytes.
    pub size: u64,
    /// Offset of the name in the string table.
    pub string_table_offset: u32,
    /// Reserved field, preserved verbatim.
    pub reserved: u32,
}

/// A raw PFS0 header region: counts, rows, string table and padding.
#[derive(Debug, Clone, PartialEq, Eq)]
pub struct Pfs0Header {
    /// Declared number of entries.
    pub file_count: u32,
    /// Declared string-table size.
    pub string_table_size: u32,
    /// The entry rows.
    pub entries: Vec<Pfs0FileEntry>,
    /// The string table bytes, verbatim.
    pub string_table: Vec<u8>,
    /// Everything after the string table, verbatim.
    pub padding: Vec<u8>,
}

/// The header region parses: long enough for the magic, the rows and the
/// declared string table.
pub open spec fn pfs0_header_wf(data: Seq<u8>) -> bool {
    &&& data.len() >= 16
    &&& data.subrange(0, 4) == pfs0_magic()
    &&& 16 + 24 * pfs0_count(data) + pfs0_sts(data) <= data.len()
}

/// `h` holds exactly the fields of the header region `data`.
pub open spec fn pfs0_header_parses_to(h: Pfs0Header, data: Seq<u8>) -> bool {
    let count = pfs0_count(data);
    let sts = pfs0_sts(data);
    &&& h.file_count as int == count
    &&& h.string_table_size as int == sts
    &&& h.entries@.len() == count
    &&& forall|i: int|
        0 <= i < count ==> {
            let e = #[trigger] h.entries@[i];
            e.offset == pfs0_entry_offset(data, i) && e.size == pfs0_entry_size(data, i)
                && e.string_table_offset == pfs0_entry_string_offset(data, i) && e.reserved
                == pfs0_entry_reserved(data, i)
        }
    &&& h.string_table@ == data.subrange(16 + 24 * count, 16 + 24 * count + sts)
    &&& h.padding@ == data.subrange(16 + 24 * count + sts, data.len() as int)
}

/// The 24-byte rows of the first `i` entries, re-serialized.
pub open spec fn pfs0_header_rows(entries: Seq<Pfs0FileEntry>, i: int) -> Seq<u8>
    decreases i,
{
    if i <= 0 {
        Seq::<u8>::empty()
    } else {
        pfs0_header_rows(entries, i - 1) + spec_u64_to_le_bytes(entries[i - 1].offset)
            + spec_u64_to_le_bytes(entries[i - 1].size) + spec_u32_to_le_bytes(
            entries[i - 1].string_table_offset,
        ) + spec_u32_to_le_bytes(entries[i - 1].reserved)
    }
}

/// The exact bytes `Pfs0Header::to_bytes` produces: counts are taken from
/// the actual rows and table, and the reserved header word is zero.
pub open spec fn pfs0_header_bytes(h: Pfs0Header) -> Seq<u8> {
    pfs0_magic() + spec_u32_to_le_bytes(h.entries@.len() as u32) + spec_u32_to_le_bytes(
        h.string_table@.len() as u32,
    ) + spec_u32_to_le_bytes(0) + pfs0_header_rows(h.entries@, h.entries@.len() as int)
        + h.string_table@ + h.padding@
}

impl Pfs0Header {
    /// Parses a raw PFS0 header region.
    ///
    /// Succeeds exactly when `pfs0_header_wf` holds of the bytes, and
    /// then returns the record `pfs0_header_parses_to` pins down.
    pub fn from_bytes(data: &[u8]) -> (r: Result<Self, NszError>)
        ensures
            r is Ok <==> pfs0_header_wf(data@),
            r matches Ok(h) ==> pfs0_header_parses_to(h, data@),
    {
        let n = data.len();
        if n < 16 {
            return Err(container_format_error("PFS0 header too short"));
        }
        if !(data[0] == 0x50 && data[1] == 0x46 && data[2] == 0x53 && data[3] == 0x30) {
            proof {
                assert(data@.subrange(0, 4)[0] == data@[0]);
                assert(data@.subrange(0, 4)[1] == data@[1]);
                assert(data@.subrange(0, 4)[2] == data@[2]);
                assert(data@.subrange(0, 4)[3] == data@[3]);
            }
            return Err(container_format_error("PFS0 magic mismatch"));
        }
        proof {
            assert(data@.subrange(0, 4) =~= pfs0_magic());
        }

        let file_count = crate::util::read_u32_le(data, 4);
        let count = file_count as usize;
        let string_table_size = crate::util::read_u32_le(data, 8);
        let sts = string_table_size as usize;
        proof {
            assert(pfs0_count(data@) == count as int);
            assert(pfs0_sts(data@) == sts as int);
        }

        let header_wide: u128 = 16u128 + 24u128 * (count as u128) + (sts as u128);
        if header_wide > n as u128 {
            return Err(container_format_error("PFS0 truncated before string table end"));
        }

        let mut entries: Vec<Pfs0FileEntry> = Vec::new();
        let mut i: usize = 0;
        while i < count
            invariant
                n == data@.len(),
                16 + 24 * count + sts <= n,
                count == pfs0_count(data@),
                i <= count,
                entries@.len() == i,
                forall|j: int|
                    0 <= j < i ==> {
                        let e = #[trigger] entries@[j];
                        e.offset == pfs0_entry_offset(data@, j) && e.size == pfs0_entry_size(
                            data@,
                            j,
                        ) && e.string_table_offset == pfs0_entry_string_offset(data@, j)
                            && e.reserved == pfs0_entry_reserved(data@, j)
                    },
            decreases count - i,
        {
            let cursor = 16 + 24 * i;
            let offset = crate::util::read_u64_le(data, cursor);
            let size = crate::util::read_u64_le(data, cursor + 8);
            let string_table_offset = crate::util::read_u32_le(data, cursor + 16);
            let reserved = crate::util::read_u32_le(data, cursor + 20);
            entries.push(Pfs0FileEntry { offset, size, string_table_offset, reserved });
            i = i + 1;
        }

        let st_start = 16 + 24 * count;
        let string_table = copy_range(data, st_start, st_start + sts);
        let padding = copy_range(data, st_start + sts, n);

        Ok(Pfs0Header { file_count, string_table_size, entries, string_table, padding })
    }

    /// Serializes the header back to its binary form; the counts are
    /// re-derived from the rows and table held.
    pub fn to_bytes(&self) -> (r: Vec<u8>)
        requires
            self.entries@.len() <= u32::MAX,
            self.string_table@.len() <= u32::MAX,
            16 + 24 * self.entries@.len() + self.string_table@.len() + self.padding@.len()
                <= usize::MAX,
        ensures
            r@ == pfs0_header_bytes(*self),
    {
        proof {
            lemma_auto_spec_u32_to_from_le_bytes();
            lemma_auto_spec_u64_to_from_le_bytes();
        }
        let n = self.entries.len();
        let mut out: Vec<u8> = Vec::new();
        out.push(0x50u8);
        out.push(0x46u8);
        out.push(0x53u8);
        out.push(0x30u8);
        proof {
            assert(out@ =~= pfs0_magic());
        }
        append_u32_le(&mut out, n as u32);
        append_u32_le(&mut out, self.string_table.len() as u32);
        append_u32_le(&mut out, 0u32);
        let ghost fixed = pfs0_magic() + spec_u32_to_le_bytes(n as u32) + spec_u32_to_le_bytes(
            self.string_table@.len() as u32,
        ) + spec_u32_to_le_bytes(0u32);

        let mut i: usize = 0;
        while i < n
            invariant
                n == self.entries@.len(),
                16 + 24 * n + self.string_table@.len() + self.padding@.len() <= usize::MAX,
                i <= n,
                out@.len() == 16 + 24 * i,
                out@ == fixed + pfs0_header_rows(self.entries@, i as int),
            decreases n - i,
        {
            proof {
                lemma_auto_spec_u32_to_from_le_bytes();
                lemma_auto_spec_u64_to_from_le_bytes();
            }
            let e = &self.entries[i];
            append_u64_le(&mut out, e.offset);
            append_u64_le(&mut out, e.size);
            append_u32_le(&mut out, e.string_table_offset);
            append_u32_le(&mut out, e.reserved);
            i = i + 1;
            proof {
                assert(out@ =~= fixed + pfs0_header_rows(self.entries@, i as int));
            }
        }

        append_slice(&mut out, self.string_table.as_slice());
        append_slice(&mut out, self.padding.as_slice());
        proof {
            assert(out@ =~= pfs0_header_bytes(*self));
        }
        out
    }
}

/// Re-serializing a parsed header restores the original region byte for
/// byte, whenever the reserved word of the fixed header is zero (the one
/// field `to_bytes` does not preserve).
pub proof fn lemma_pfs0_header_roundtrip(h: Pfs0Header, data: Seq<u8>)
    requires
        pfs0_header_wf(data),
        pfs0_header_parses_to(h, data),
        data.subrange(12, 16) == spec_u32_to_le_bytes(0u32),
    ensures
        pfs0_header_bytes(h) == data,
{
    lemma_auto_spec_u32_to_from_le_bytes();
    lemma_auto_spec_u64_to_from_le_bytes();
    let count = pfs0_count(data);
    let sts = pfs0_sts(data);
    assert(spec_u32_to_le_bytes(h.file_count) =~= data.subrange(4, 8)) by {
        assert(h.file_count == spec_u32_from_le_bytes(data.subrange(4, 8)));
        assert(data.subrange(4, 8).len() == 4);
    }
    assert(spec_u32_to_le_bytes(h.string_table_size) =~= data.subrange(8, 12)) by {
        assert(data.subrange(8, 12).len() == 4);
    }
    assert(h.entries@.len() as u32 == h.file_count);
    assert(h.string_table@.len() as u32 == h.string_table_size);
    lemma_pfs0_rows_roundtrip(h, data, count);
    assert(pfs0_header_bytes(h) =~= data) by {
        assert(pfs0_magic() =~= data.subrange(0, 4));
        assert(pfs0_header_rows(h.entries@, count) == data.subrange(16, 16 + 24 * count));
        assert(h.string_table@ == data.subrange(16 + 24 * count, 16 + 24 * count + sts));
        assert(h.padding@ == data.subrange(16 + 24 * count + sts, data.len() as int));
    }
}

/// The re-serialized rows of a parsed header equal the original row bytes.
proof fn lemma_pfs0_rows_roundtrip(h: Pfs0Header, data: Seq<u8>, i: int)
    requires
        pfs0_header_wf(data),
        pfs0_header_parses_to(h, data),
        0 <= i <= pfs0_count(data),
    ensures
        pfs0_header_rows(h.entries@, i) == data.subrange(16, 16 + 24 * i),
    decreases i,
{
    lemma_auto_spec_u32_to_from_le_bytes();
    lemma_auto_spec_u64_to_from_le_bytes();
    if i <= 0 {
        assert(pfs0_header_rows(h.entries@, 0) =~= data.subrange(16, 16));
    } else {
        lemma_pfs0_rows_roundtrip(h, data, i - 1);
        let e = h.entries@[i - 1];
        assert(spec_u64_to_le_bytes(e.offset) =~= data.subrange(16 + 24 * (i - 1), 16 + 24 * (i
            - 1) + 8)) by {
            assert(data.subrange(16 + 24 * (i - 1), 16 + 24 * (i - 1) + 8).len() == 8);
        }
        assert(spec_u64_to_le_bytes(e.size) =~= data.subrange(16 + 24 * (i - 1) + 8, 16 + 24 * (i
            - 1) + 16)) by {
            assert(data.subrange(16 + 24 * (i - 1) + 8, 16 + 24 * (i - 1) + 16).len() == 8);
        }
        assert(spec_u32_to_le_bytes(e.string_table_offset) =~= data.subrange(16 + 24 * (i - 1)
            + 16, 16 + 24 * (i - 1) + 20)) by {
            assert(data.subrange(16 + 24 * (i - 1) + 16, 16 + 24 * (i - 1) + 20).len() == 4);
        }
        assert(spec_u32_to_le_bytes(e.reserved) =~= data.subrange(16 + 24 * (i - 1) + 20, 16 + 24
            * (i - 1) + 24)) by {
            assert(data.subrange(16 + 24 * (i - 1) + 20, 16 + 24 * (i - 1) + 24).len() == 4);
        }
        assert(pfs0_header_rows(h.entries@, i) =~= data.subrange(16, 16 + 24 * i));
    }
}

} // verus!
