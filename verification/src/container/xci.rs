//! Gamecard images: locating the root HFS0 behind the `HEAD` header and
//! re-emitting an image with a rewritten root partition while preserving
//! the gamecard header, inter-region padding and file size.
use vstd::prelude::*;
use vstd::bytes::*;

use crate::container::hfs0::hfs0_archive_bounded;
use crate::container::hfs0::hfs0_parses_to;
use crate::container::hfs0::hfs0_wf;
use crate::container::hfs0::Hfs0Archive;
use crate::container::nsp::zero_bytes;
use crate::error::container_format_error;
use crate::error::NszError;
use crate::util::append_slice;
use crate::util::append_zeros;

verus! {

/// The four magic bytes `"HEAD"`.
pub open spec fn xci_head_magic() -> Seq<u8> {
    seq![0x48u8, 0x45u8, 0x41u8, 0x44u8]
}

/// The gamecard header base: 0 when `HEAD` sits at +0x100, else 0x1000.
pub open spec fn xci_header_base(data: Seq<u8>) -> int {
    if data.len() >= 0x104 && data.subrange(0x100, 0x104) == xci_head_magic() {
        0
    } else {
        0x1000
    }
}

/// Root-HFS0 offset field, relative to the header base.
pub open spec fn xci_hfs0_offset(data: Seq<u8>) -> u64 {
    spec_u64_from_le_bytes(
        data.subrange(xci_header_base(data) + 0x138, xci_header_base(data) + 0x140),
    )
}

/// Root-HFS0 header-size field.
pub open spec fn xci_hfs0_header_size(data: Seq<u8>) -> u64 {
    spec_u64_from_le_bytes(
        data.subrange(xci_header_base(data) + 0x140, xci_header_base(data) + 0x148),
    )
}

/// The gamecard image parses: the header with its `HEAD` magic fits, and
/// the root HFS0 it points at lies inside the file.
pub open spec fn xci_wf(data: Seq<u8>) -> bool {
    let base = xci_header_base(data);
    &&& data.len() >= base + 0x148
    &&& data.subrange(base + 0x100, base + 0x104) == xci_head_magic()
    &&& base + xci_hfs0_offset(data) < data.len()
    &&& (xci_hfs0_header_size(data) > 0 ==> base + xci_hfs0_offset(data) + xci_hfs0_header_size(
        data,
    ) <= data.len())
}

/// A located gamecard image: the header base and the root-HFS0 fields.
#[derive(Debug, Clone, PartialEq, Eq)]
pub struct XciArchive {
    /// 0 or 0x1000: where the 0x200-byte gamecard header starts.
    pub header_offset: u64,
    /// Root-HFS0 offset, relative to the header base.
    pub hfs0_offset: u64,
    /// Root-HFS0 header size.
    pub hfs0_header_size: u64,
}

/// `a` holds exactly the fields located in `data`.
pub open spec fn xci_parses_to(a: XciArchive, data: Seq<u8>) -> bool {
    &&& a.header_offset as int == xci_header_base(data)
    &&& a.hfs0_offset == xci_hfs0_offset(data)
    &&& a.hfs0_header_size == xci_hfs0_header_size(data)
}

impl XciArchive {
    /// Locates the gamecard header and the root HFS0.
    ///
    /// Succeeds exactly when `xci_wf` holds of the bytes, and then
    /// returns the record `xci_parses_to` pins down.
    pub fn from_bytes(data: &[u8]) -> (r: Result<Self, NszError>)
        ensures
            r is Ok <==> xci_wf(data@),
            r matches Ok(a) ==> xci_parses_to(a, data@),
    {
        let n = data.len();
        let head_at_zero = n >= 0x104 && data[0x100] == 0x48 && data[0x101] == 0x45
            && data[0x102] == 0x41 && data[0x103] == 0x44;
        proof {
            if n >= 0x104 {
                assert(data@.subrange(0x100, 0x104) =~= seq![
                    data@[0x100],
                    data@[0x101],
                    data@[0x102],
                    data@[0x103],
                ]);
            }
            assert(head_at_zero <==> (data@.len() >= 0x104 && data@.subrange(0x100, 0x104)
                == xci_head_magic()));
        }
        let header_offset: u64 = if head_at_zero {
            0u64
        } else {
            0x1000u64
        };
        let base = header_offset as usize;

        if n < 0x148 || n - 0x148 < base {
            return Err(container_format_error("XCI header truncated"));
        }
        if !(data[base + 0x100] == 0x48 && data[base + 0x101] == 0x45 && data[base + 0x102] == 0x41
            && data[base + 0x103] == 0x44) {
            proof {
                assert(data@.subrange(base + 0x100, base + 0x104) =~= seq![
                    data@[base + 0x100],
                    data@[base + 0x101],
                    data@[base + 0x102],
                    data@[base + 0x103],
                ]);
            }
            return Err(container_format_error("XCI header magic mismatch"));
        }
        proof {
            assert(data@.subrange(base + 0x100, base + 0x104) =~= xci_head_magic());
        }

        let hfs0_offset = crate::util::read_u64_le(data, base + 0x138);
        let hfs0_header_size = crate::util::read_u64_le(data, base + 0x140);
        proof {
            assert(hfs0_offset == xci_hfs0_offset(data@));
            assert(hfs0_header_size == xci_hfs0_header_size(data@));
        }

        if hfs0_offset > u64::MAX - header_offset {
            return Err(container_format_error("XCI HFS0 offset overflow"));
        }
        let hfs0_abs_offset = header_offset + hfs0_offset;
        if hfs0_abs_offset >= n as u64 {
            return Err(container_format_error("XCI HFS0 offset outside file"));
        }
        if hfs0_header_size > 0 {
            if hfs0_header_size > n as u64 - hfs0_abs_offset {
                return Err(container_format_error("XCI HFS0 header range outside file"));
            }
        }
        Ok(XciArchive { header_offset, hfs0_offset, hfs0_header_size })
    }

    /// Borrows the tail of the image from the root HFS0 onward.
    pub fn root_hfs0_bytes<'a>(&self, data: &'a [u8]) -> (r: Result<&'a [u8], NszError>)
        ensures
            r is Ok <==> self.header_offset + self.hfs0_offset < data@.len(),
            r matches Ok(b) ==> b@ == data@.subrange(
                self.header_offset + self.hfs0_offset,
                data@.len() as int,
            ),
    {
        let n = data.len();
        if self.hfs0_offset > u64::MAX - self.header_offset {
            proof {
                assert(self.header_offset + self.hfs0_offset > u64::MAX >= n);
            }
            return Err(container_format_error("XCI root HFS0 absolute offset overflow"));
        }
        let absolute = self.header_offset + self.hfs0_offset;
        if absolute >= n as u64 {
            return Err(container_format_error("XCI root HFS0 offset outside file"));
        }
        Ok(vstd::slice::slice_subrange(data, absolute as usize, n))
    }

    /// Parses the root HFS0 out of the image.
    pub fn root_hfs0_archive(&self, data: &[u8]) -> (r: Result<Hfs0Archive, NszError>)
        ensures
            r is Ok <==> self.header_offset + self.hfs0_offset < data@.len() && hfs0_wf(
                data@.subrange(self.header_offset + self.hfs0_offset, data@.len() as int),
            ),
            r matches Ok(a) ==> hfs0_parses_to(
                a,
                data@.subrange(self.header_offset + self.hfs0_offset, data@.len() as int),
            ) && hfs0_archive_bounded(a),
    {
        let bytes = match self.root_hfs0_bytes(data) {
            Ok(bytes) => bytes,
            Err(e) => {
                return Err(e);
            },
        };
        Hfs0Archive::from_bytes(bytes)
    }
}

/// Rewrites a gamecard image around a new root HFS0: the gamecard header
/// and everything before the root partition are copied verbatim, the new
/// root is written at its original location, and the output is padded
/// with zeros up to the original file size when the new root is shorter.
///
/// When the new root equals the original root region, the output is the
/// input byte for byte: parsing and re-emitting an image with all
/// partitions kept is the identity.
pub fn encode_xci_like(data: &[u8], xci: &XciArchive, root: &[u8]) -> (r: Result<Vec<u8>, NszError>)
    ensures
        r is Ok <==> xci.header_offset + xci.hfs0_offset <= data@.len() && xci.header_offset
            + xci.hfs0_offset + root@.len() <= usize::MAX,
        r matches Ok(out) ==> {
            let abs = xci.header_offset + xci.hfs0_offset;
            let pad = if abs + root@.len() >= data@.len() {
                0
            } else {
                data@.len() - abs - root@.len()
            };
            out@ == data@.subrange(0, abs as int) + root@ + zero_bytes(pad as int)
        },
        r is Ok && root@ == data@.subrange(
            (xci.header_offset + xci.hfs0_offset) as int,
            data@.len() as int,
        ) ==> (r matches Ok(out) && out@ == data@),
{
    let n = data.len();
    if xci.hfs0_offset > u64::MAX - xci.header_offset {
        proof {
            assert(xci.header_offset + xci.hfs0_offset > u64::MAX >= n);
        }
        return Err(container_format_error("XCI root HFS0 absolute offset overflow"));
    }
    let absolute = xci.header_offset + xci.hfs0_offset;
    if absolute > n as u64 {
        return Err(container_format_error("XCI root HFS0 offset outside file"));
    }
    let abs = absolute as usize;
    let root_len = root.len();
    if root_len > usize::MAX - abs {
        return Err(container_format_error("XCI output size overflow"));
    }

    let mut out: Vec<u8> = Vec::new();
    let prefix = vstd::slice::slice_subrange(data, 0, abs);
    append_slice(&mut out, prefix);
    append_slice(&mut out, root);
    let pad: usize = if abs + root_len >= n {
        0
    } else {
        n - abs - root_len
    };
    if pad > 0 {
        proof {
            assert(abs + root@.len() + pad == n);
        }
        append_zeros(&mut out, pad);
    }
    proof {
        let absg = xci.header_offset + xci.hfs0_offset;
        let padg: int = if absg + root@.len() >= data@.len() {
            0
        } else {
            data@.len() - absg - root@.len()
        };
        assert(out@ =~= data@.subrange(0, absg as int) + root@ + zero_bytes(padg));
        if root@ == data@.subrange(absg as int, data@.len() as int) {
            assert(out@ =~= data@);
        }
    }
    Ok(out)
}

} // verus!
