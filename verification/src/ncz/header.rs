//! The `NCZBLOCK` stream header: version, block-size exponent, block
//! count, total decompressed size and the table of compressed block sizes.
use vstd::prelude::*;
use vstd::bytes::*;

use crate::error::container_format_error;
use crate::error::NszError;
use crate::util::append_u32_le;
use crate::util::append_u64_le;

verus! {

/// The eight magic bytes `"NCZBLOCK"`.
pub open spec fn nczblock_magic() -> Seq<u8> {
    seq![0x4Eu8, 0x43u8, 0x5Au8, 0x42u8, 0x4Cu8, 0x4Fu8, 0x43u8, 0x4Bu8]
}

/// Declared number of blocks.
pub open spec fn nczb_count(data: Seq<u8>) -> int {
    spec_u32_from_le_bytes(data.subrange(12, 16)) as int
}

/// Declared total decompressed size.
pub open spec fn nczb_decompressed_size(data: Seq<u8>) -> u64 {
    spec_u64_from_le_bytes(data.subrange(16, 24))
}

/// Compressed size of block `i`.
pub open spec fn nczb_block_size(data: Seq<u8>, i: int) -> u32 {
    spec_u32_from_le_bytes(data.subrange(24 + 4 * i, 24 + 4 * i + 4))
}

/// The block header parses: magic present and the size table fits.
pub open spec fn nczb_header_wf(data: Seq<u8>) -> bool {
    &&& data.len() >= 24
    &&& data.subrange(0, 8) == nczblock_magic()
    &&& 24 + 4 * nczb_count(data) <= data.len()
}

/// A parsed `NCZBLOCK` header.
#[derive(Debug, Clone, PartialEq, Eq)]
pub struct BlockHeader {
    /// Format version byte.
    pub version: u8,
    /// Block type byte.
    pub block_type: u8,
    /// Unused byte, preserved verbatim.
    pub unused: u8,
    /// Base-2 exponent of the block size.
    pub block_size_exponent: u8,
    /// Declared number of blocks.
    pub number_of_blocks: u32,
    /// Declared total decompressed size.
    pub decompressed_size: u64,
    /// Compressed size of each block, in stream order.
    pub compressed_block_sizes: Vec<u32>,
}

/// `h` holds exactly the header fields of `data`.
pub open spec fn nczb_header_parses_to(h: BlockHeader, data: Seq<u8>) -> bool {
    &&& h.version == data[8]
    &&& h.block_type == data[9]
    &&& h.unused == data[10]
    &&& h.block_size_exponent == data[11]
    &&& h.number_of_blocks as int == nczb_count(data)
    &&& h.decompressed_size == nczb_decompressed_size(data)
    &&& h.compressed_block_sizes@.len() == nczb_count(data)
    &&& forall|i: int|
        0 <= i < nczb_count(data) ==> #[trigger] h.compressed_block_sizes@[i] == nczb_block_size(
            data,
            i,
        )
}

/// The `4 * i` bytes of the first `i` size-table rows, re-serialized.
pub open spec fn nczb_size_rows(sizes: Seq<u32>, i: int) -> Seq<u8>
    decreases i,
{
    if i <= 0 {
        Seq::<u8>::empty()
    } else {
        nczb_size_rows(sizes, i - 1) + spec_u32_to_le_bytes(sizes[i - 1])
    }
}

/// The exact bytes `BlockHeader::to_bytes` produces; the block count is
/// taken from the actual size table.
pub open spec fn nczb_header_bytes(h: BlockHeader) -> Seq<u8> {
    nczblock_magic() + seq![h.version, h.block_type, h.unused, h.block_size_exponent]
        + spec_u32_to_le_bytes(h.compressed_block_sizes@.len() as u32) + spec_u64_to_le_bytes(
        h.decompressed_size,
    ) + nczb_size_rows(h.compressed_block_sizes@, h.compressed_block_sizes@.len() as int)
}

impl BlockHeader {
    /// Parses an `NCZBLOCK` header from the start of a stream.
    ///
    /// Succeeds exactly when `nczb_header_wf` holds of the bytes, and
    /// then returns the record `nczb_header_parses_to` pins down.
    pub fn from_bytes(data: &[u8]) -> (r: Result<Self, NszError>)
        ensures
            r is Ok <==> nczb_header_wf(data@),
            r matches Ok(h) ==> nczb_header_parses_to(h, data@),
    {
        let n = data.len();
        if n < 24 {
            return Err(container_format_error("NCZ block header too short"));
        }
        if !(data[0] == 0x4E && data[1] == 0x43 && data[2] == 0x5A && data[3] == 0x42 && data[4]
            == 0x4C && data[5] == 0x4F && data[6] == 0x43 && data[7] == 0x4B) {
            proof {
                assert(data@.subrange(0, 8) =~= seq![
                    data@[0],
                    data@[1],
                    data@[2],
                    data@[3],
                    data@[4],
                    data@[5],
                    data@[6],
                    data@[7],
                ]);
            }
            return Err(container_format_error("NCZ block header magic mismatch"));
        }
        proof {
            assert(data@.subrange(0, 8) =~= nczblock_magic());
        }

        let version = data[8];
        let block_type = data[9];
        let unused = data[10];
        let block_size_exponent = data[11];
        let number_of_blocks = crate::util::read_u32_le(data, 12);
        let decompressed_size = crate::util::read_u64_le(data, 16);
        let count = number_of_blocks as usize;
        proof {
            assert(nczb_count(data@) == count as int);
        }

        let table_wide: u128 = 24u128 + 4u128 * (count as u128);
        if table_wide > n as u128 {
            return Err(container_format_error("NCZ block header truncated block size list"));
        }

        let mut compressed_block_sizes: Vec<u32> = Vec::new();
        let mut i: usize = 0;
        while i < count
            invariant
                n == data@.len(),
                24 + 4 * count <= n,
                count == nczb_count(data@),
                i <= count,
                compressed_block_sizes@.len() == i,
                forall|j: int|
                    0 <= j < i ==> #[trigger] compressed_block_sizes@[j] == nczb_block_size(
                        data@,
                        j,
                    ),
            decreases count - i,
        {
            let size = crate::util::read_u32_le(data, 24 + 4 * i);
            compressed_block_sizes.push(size);
            i = i + 1;
        }

        Ok(
            BlockHeader {
                version,
                block_type,
                unused,
                block_size_exponent,
                number_of_blocks,
                decompressed_size,
                compressed_block_sizes,
            },
        )
    }

    /// Serializes the header back to its binary form; the block count is
    /// re-derived from the size table held.
    pub fn to_bytes(&self) -> (r: Vec<u8>)
        requires
            self.compressed_block_sizes@.len() <= u32::MAX,
            24 + 4 * self.compressed_block_sizes@.len() <= usize::MAX,
        ensures
            r@ == nczb_header_bytes(*self),
    {
        proof {
            lemma_auto_spec_u32_to_from_le_bytes();
            lemma_auto_spec_u64_to_from_le_bytes();
        }
        let n = self.compressed_block_sizes.len();
        let mut out: Vec<u8> = Vec::new();
        out.push(0x4Eu8);
        out.push(0x43u8);
        out.push(0x5Au8);
        out.push(0x42u8);
        out.push(0x4Cu8);
        out.push(0x4Fu8);
        out.push(0x43u8);
        out.push(0x4Bu8);
        proof {
            assert(out@ =~= nczblock_magic());
        }
        out.push(self.version);
        out.push(self.block_type);
        out.push(self.unused);
        out.push(self.block_size_exponent);
        append_u32_le(&mut out, n as u32);
        append_u64_le(&mut out, self.decompressed_size);
        let ghost fixed = nczblock_magic() + seq![
            self.version,
            self.block_type,
            self.unused,
            self.block_size_exponent,
        ] + spec_u32_to_le_bytes(n as u32) + spec_u64_to_le_bytes(self.decompressed_size);
        proof {
            assert(out@ =~= fixed);
        }

        let mut i: usize = 0;
        while i < n
            invariant
                n == self.compressed_block_sizes@.len(),
                24 + 4 * n <= usize::MAX,
                i <= n,
                out@.len() == 24 + 4 * i,
                out@ == fixed + nczb_size_rows(self.compressed_block_sizes@, i as int),
            decreases n - i,
        {
            proof {
                lemma_auto_spec_u32_to_from_le_bytes();
            }
            append_u32_le(&mut out, self.compressed_block_sizes[i]);
            i = i + 1;
            proof {
                assert(out@ =~= fixed + nczb_size_rows(self.compressed_block_sizes@, i as int));
            }
        }
        out
    }
}

/// Re-serializing a parsed block header restores the header region of the
/// stream byte for byte.
pub proof fn lemma_nczb_header_roundtrip(h: BlockHeader, data: Seq<u8>)
    requires
        nczb_header_wf(data),
        nczb_header_parses_to(h, data),
    ensures
        nczb_header_bytes(h) == data.subrange(0, 24 + 4 * nczb_count(data)),
{
    lemma_auto_spec_u32_to_from_le_bytes();
    lemma_auto_spec_u64_to_from_le_bytes();
    let count = nczb_count(data);
    assert(spec_u32_to_le_bytes(h.number_of_blocks) =~= data.subrange(12, 16)) by {
        assert(data.subrange(12, 16).len() == 4);
    }
    assert(spec_u64_to_le_bytes(h.decompressed_size) =~= data.subrange(16, 24)) by {
        assert(data.subrange(16, 24).len() == 8);
    }
    lemma_nczb_rows_roundtrip(h, data, count);
    assert(nczb_header_bytes(h) =~= data.subrange(0, 24 + 4 * count)) by {
        assert(nczblock_magic() =~= data.subrange(0, 8));
        assert(seq![h.version, h.block_type, h.unused, h.block_size_exponent] =~= data.subrange(
            8,
            12,
        ));
    }
}

/// The re-serialized size rows of a parsed header equal the original bytes.
proof fn lemma_nczb_rows_roundtrip(h: BlockHeader, data: Seq<u8>, i: int)
    requires
        nczb_header_wf(data),
        nczb_header_parses_to(h, data),
        0 <= i <= nczb_count(data),
    ensures
        nczb_size_rows(h.compressed_block_sizes@, i) == data.subrange(24, 24 + 4 * i),
    decreases i,
{
    lemma_auto_spec_u32_to_from_le_bytes();
    if i <= 0 {
        assert(nczb_size_rows(h.compressed_block_sizes@, 0) =~= data.subrange(24, 24));
    } else {
        lemma_nczb_rows_roundtrip(h, data, i - 1);
        assert(spec_u32_to_le_bytes(h.compressed_block_sizes@[i - 1]) =~= data.subrange(24 + 4 * (
        i - 1), 24 + 4 * i)) by {
            assert(data.subrange(24 + 4 * (i - 1), 24 + 4 * i).len() == 4);
        }
        assert(nczb_size_rows(h.compressed_block_sizes@, i) =~= data.subrange(24, 24 + 4 * i));
    }
}

} // verus!
