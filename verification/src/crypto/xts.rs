//! AES-128-XTS processing of the 0xC00-byte NCA header, in 0x200-byte
//! sectors. The tweak for sector `i` is AES-encrypted from `i` in
//! big-endian, and multiplied by alpha (LSB-first, reduction 0x87)
//! between 16-byte blocks.
use vstd::prelude::*;

use crate::crypto::primitives::aes128_decrypt_block_spec;
use crate::crypto::primitives::aes128_encrypt_block_spec;
use crate::crypto::primitives::aes_ecb_decrypt_block;
use crate::crypto::primitives::aes_ecb_encrypt_block;
use crate::error::container_format_error;
use crate::error::NszError;
use crate::util::append_slice;
use crate::util::copy_range;

verus! {

/// Bytes of one XTS sector.
pub const XTS_SECTOR_SIZE: usize = 0x200;

/// The 16-byte XOR of two 16-byte blocks.
pub open spec fn xor16(a: Seq<u8>, b: Seq<u8>) -> Seq<u8>
    recommends
        a.len() == 16,
        b.len() == 16,
{
    Seq::new(16, |i: int| a[i] ^ b[i])
}

/// Multiplication of a tweak block by alpha in GF(2^128), LSB-first byte
/// order: every byte shifts left, the carry moves to the next byte, and an
/// overflow of the top bit folds 0x87 into byte 0.
pub open spec fn xts_mul_alpha(t: Seq<u8>) -> Seq<u8>
    recommends
        t.len() == 16,
{
    let shifted = Seq::new(
        16,
        |i: int|
            if i == 0 {
                t[0] << 1
            } else {
                (t[i] << 1) | (t[i - 1] >> 7)
            },
    );
    if t[15] >> 7 == 1 {
        shifted.update(0, shifted[0] ^ 0x87)
    } else {
        shifted
    }
}

/// The 8 big-endian bytes of `x`.
pub open spec fn spec_u64_to_be_bytes(x: u64) -> Seq<u8> {
    seq![
        (x >> 56) as u8,
        ((x >> 48) & 0xff) as u8,
        ((x >> 40) & 0xff) as u8,
        ((x >> 32) & 0xff) as u8,
        ((x >> 24) & 0xff) as u8,
        ((x >> 16) & 0xff) as u8,
        ((x >> 8) & 0xff) as u8,
        (x & 0xff) as u8,
    ]
}

/// The encrypted tweak that starts sector `sector`: the sector index in
/// big-endian in the low 8 bytes of a zeroed block, AES-encrypted under
/// the tweak key.
pub open spec fn xts_initial_tweak(key_tweak: Seq<u8>, sector: u64) -> Seq<u8> {
    aes128_encrypt_block_spec(key_tweak, Seq::new(8, |i: int| 0u8) + spec_u64_to_be_bytes(sector))
}

/// The tweak in force at block `block_idx` of sector `sector`.
pub open spec fn xts_tweak_at(key_tweak: Seq<u8>, sector: u64, block_idx: int) -> Seq<u8>
    decreases block_idx,
{
    if block_idx <= 0 {
        xts_initial_tweak(key_tweak, sector)
    } else {
        xts_mul_alpha(xts_tweak_at(key_tweak, sector, block_idx - 1))
    }
}

/// XTS decryption of one 16-byte block under a given tweak.
pub open spec fn xts_dec_block(key_data: Seq<u8>, tweak: Seq<u8>, c: Seq<u8>) -> Seq<u8> {
    xor16(aes128_decrypt_block_spec(key_data, xor16(c, tweak)), tweak)
}

/// XTS encryption of one 16-byte block under a given tweak.
pub open spec fn xts_enc_block(key_data: Seq<u8>, tweak: Seq<u8>, p: Seq<u8>) -> Seq<u8> {
    xor16(aes128_encrypt_block_spec(key_data, xor16(p, tweak)), tweak)
}

/// The first `j` decrypted blocks of one sector, concatenated.
pub open spec fn xts_dec_sector_prefix(
    key_data: Seq<u8>,
    key_tweak: Seq<u8>,
    sector: u64,
    sector_bytes: Seq<u8>,
    j: int,
) -> Seq<u8>
    decreases j,
{
    if j <= 0 {
        Seq::<u8>::empty()
    } else {
        xts_dec_sector_prefix(key_data, key_tweak, sector, sector_bytes, j - 1) + xts_dec_block(
            key_data,
            xts_tweak_at(key_tweak, sector, j - 1),
            sector_bytes.subrange(16 * (j - 1), 16 * j),
        )
    }
}

/// The first `j` encrypted blocks of one sector, concatenated.
pub open spec fn xts_enc_sector_prefix(
    key_data: Seq<u8>,
    key_tweak: Seq<u8>,
    sector: u64,
    sector_bytes: Seq<u8>,
    j: int,
) -> Seq<u8>
    decreases j,
{
    if j <= 0 {
        Seq::<u8>::empty()
    } else {
        xts_enc_sector_prefix(key_data, key_tweak, sector, sector_bytes, j - 1) + xts_enc_block(
            key_data,
            xts_tweak_at(key_tweak, sector, j - 1),
            sector_bytes.subrange(16 * (j - 1), 16 * j),
        )
    }
}

/// The first `s` decrypted sectors of a buffer, concatenated.
pub open spec fn xts_dec_prefix(
    key_data: Seq<u8>,
    key_tweak: Seq<u8>,
    data: Seq<u8>,
    s: int,
) -> Seq<u8>
    decreases s,
{
    if s <= 0 {
        Seq::<u8>::empty()
    } else {
        xts_dec_prefix(key_data, key_tweak, data, s - 1) + xts_dec_sector_prefix(
            key_data,
            key_tweak,
            (s - 1) as u64,
            data.subrange(0x200 * (s - 1), 0x200 * s),
            32,
        )
    }
}

/// The first `s` encrypted sectors of a buffer, concatenated.
pub open spec fn xts_enc_prefix(
    key_data: Seq<u8>,
    key_tweak: Seq<u8>,
    data: Seq<u8>,
    s: int,
) -> Seq<u8>
    decreases s,
{
    if s <= 0 {
        Seq::<u8>::empty()
    } else {
        xts_enc_prefix(key_data, key_tweak, data, s - 1) + xts_enc_sector_prefix(
            key_data,
            key_tweak,
            (s - 1) as u64,
            data.subrange(0x200 * (s - 1), 0x200 * s),
            32,
        )
    }
}

/// XTS decryption of a whole sector-aligned buffer.
pub open spec fn xts_decrypt_spec(key_data: Seq<u8>, key_tweak: Seq<u8>, data: Seq<u8>) -> Seq<u8>
    recommends
        data.len() % 0x200 == 0,
{
    xts_dec_prefix(key_data, key_tweak, data, data.len() as int / 0x200)
}

/// XTS encryption of a whole sector-aligned buffer.
pub open spec fn xts_encrypt_spec(key_data: Seq<u8>, key_tweak: Seq<u8>, data: Seq<u8>) -> Seq<u8>
    recommends
        data.len() % 0x200 == 0,
{
    xts_enc_prefix(key_data, key_tweak, data, data.len() as int / 0x200)
}

/// A sector prefix reads only the first `16 * j` bytes of its argument.
proof fn lemma_dec_sector_prefix_frame(
    key_data: Seq<u8>,
    key_tweak: Seq<u8>,
    sector: u64,
    s1: Seq<u8>,
    s2: Seq<u8>,
    j: int,
)
    requires
        0 <= j,
        16 * j <= s1.len(),
        16 * j <= s2.len(),
        s1.subrange(0, 16 * j) == s2.subrange(0, 16 * j),
    ensures
        xts_dec_sector_prefix(key_data, key_tweak, sector, s1, j) == xts_dec_sector_prefix(
            key_data,
            key_tweak,
            sector,
            s2,
            j,
        ),
    decreases j,
{
    if j > 0 {
        assert forall|i: int| 0 <= i < 16 * j implies s1[i] == s2[i] by {
            vstd::seq::axiom_seq_subrange_index(s1, 0, 16 * j, i);
            vstd::seq::axiom_seq_subrange_index(s2, 0, 16 * j, i);
            assert(s1.subrange(0, 16 * j)[i] == s2.subrange(0, 16 * j)[i]);
        }
        assert(s1.subrange(0, 16 * (j - 1)) =~= s2.subrange(0, 16 * (j - 1)));
        lemma_dec_sector_prefix_frame(key_data, key_tweak, sector, s1, s2, j - 1);
        assert(s1.subrange(16 * (j - 1), 16 * j) =~= s2.subrange(16 * (j - 1), 16 * j));
    }
}

/// A sector prefix reads only the first `16 * j` bytes of its argument.
proof fn lemma_enc_sector_prefix_frame(
    key_data: Seq<u8>,
    key_tweak: Seq<u8>,
    sector: u64,
    s1: Seq<u8>,
    s2: Seq<u8>,
    j: int,
)
    requires
        0 <= j,
        16 * j <= s1.len(),
        16 * j <= s2.len(),
        s1.subrange(0, 16 * j) == s2.subrange(0, 16 * j),
    ensures
        xts_enc_sector_prefix(key_data, key_tweak, sector, s1, j) == xts_enc_sector_prefix(
            key_data,
            key_tweak,
            sector,
            s2,
            j,
        ),
    decreases j,
{
    if j > 0 {
        assert forall|i: int| 0 <= i < 16 * j implies s1[i] == s2[i] by {
            vstd::seq::axiom_seq_subrange_index(s1, 0, 16 * j, i);
            vstd::seq::axiom_seq_subrange_index(s2, 0, 16 * j, i);
            assert(s1.subrange(0, 16 * j)[i] == s2.subrange(0, 16 * j)[i]);
        }
        assert(s1.subrange(0, 16 * (j - 1)) =~= s2.subrange(0, 16 * (j - 1)));
        lemma_enc_sector_prefix_frame(key_data, key_tweak, sector, s1, s2, j - 1);
        assert(s1.subrange(16 * (j - 1), 16 * j) =~= s2.subrange(16 * (j - 1), 16 * j));
    }
}

/// A buffer prefix reads only the first `0x200 * s` bytes of its argument.
proof fn lemma_dec_prefix_frame(
    key_data: Seq<u8>,
    key_tweak: Seq<u8>,
    d1: Seq<u8>,
    d2: Seq<u8>,
    s: int,
)
    requires
        0 <= s,
        0x200 * s <= d1.len(),
        0x200 * s <= d2.len(),
        d1.subrange(0, 0x200 * s) == d2.subrange(0, 0x200 * s),
    ensures
        xts_dec_prefix(key_data, key_tweak, d1, s) == xts_dec_prefix(key_data, key_tweak, d2, s),
    decreases s,
{
    if s > 0 {
        assert forall|i: int| 0 <= i < 0x200 * s implies d1[i] == d2[i] by {
            vstd::seq::axiom_seq_subrange_index(d1, 0, 0x200 * s, i);
            vstd::seq::axiom_seq_subrange_index(d2, 0, 0x200 * s, i);
            assert(d1.subrange(0, 0x200 * s)[i] == d2.subrange(0, 0x200 * s)[i]);
        }
        assert(d1.subrange(0, 0x200 * (s - 1)) =~= d2.subrange(0, 0x200 * (s - 1)));
        lemma_dec_prefix_frame(key_data, key_tweak, d1, d2, s - 1);
        assert(d1.subrange(0x200 * (s - 1), 0x200 * s) =~= d2.subrange(
            0x200 * (s - 1),
            0x200 * s,
        ));
    }
}

/// A buffer prefix reads only the first `0x200 * s` bytes of its argument.
proof fn lemma_enc_prefix_frame(
    key_data: Seq<u8>,
    key_tweak: Seq<u8>,
    d1: Seq<u8>,
    d2: Seq<u8>,
    s: int,
)
    requires
        0 <= s,
        0x200 * s <= d1.len(),
        0x200 * s <= d2.len(),
        d1.subrange(0, 0x200 * s) == d2.subrange(0, 0x200 * s),
    ensures
        xts_enc_prefix(key_data, key_tweak, d1, s) == xts_enc_prefix(key_data, key_tweak, d2, s),
    decreases s,
{
    if s > 0 {
        assert forall|i: int| 0 <= i < 0x200 * s implies d1[i] == d2[i] by {
            vstd::seq::axiom_seq_subrange_index(d1, 0, 0x200 * s, i);
            vstd::seq::axiom_seq_subrange_index(d2, 0, 0x200 * s, i);
            assert(d1.subrange(0, 0x200 * s)[i] == d2.subrange(0, 0x200 * s)[i]);
        }
        assert(d1.subrange(0, 0x200 * (s - 1)) =~= d2.subrange(0, 0x200 * (s - 1)));
        lemma_enc_prefix_frame(key_data, key_tweak, d1, d2, s - 1);
        assert(d1.subrange(0x200 * (s - 1), 0x200 * s) =~= d2.subrange(
            0x200 * (s - 1),
            0x200 * s,
        ));
    }
}

/// XOR of two 16-byte buffers.
fn xor_vecs(a: &[u8], b: &[u8]) -> (r: Vec<u8>)
    requires
        a@.len() == 16,
        b@.len() == 16,
    ensures
        r@ == xor16(a@, b@),
{
    let mut out: Vec<u8> = Vec::new();
    let mut i: usize = 0;
    while i < 16
        invariant
            i <= 16,
            a@.len() == 16,
            b@.len() == 16,
            out@.len() == i,
            forall|j: int| 0 <= j < i ==> out@[j] == (a@[j] ^ b@[j]),
        decreases 16 - i,
    {
        out.push(a[i] ^ b[i]);
        i = i + 1;
    }
    proof {
        assert(out@ =~= xor16(a@, b@));
    }
    out
}

/// XOR with the same 16-byte mask twice restores the block.
proof fn lemma_xor16_involution(a: Seq<u8>, b: Seq<u8>)
    requires
        a.len() == 16,
    ensures
        xor16(xor16(a, b), b) == a,
{
    assert forall|i: int| 0 <= i < 16 implies xor16(xor16(a, b), b)[i] == a[i] by {
        let x = a[i];
        let y = b[i];
        assert((x ^ y) ^ y == x) by (bit_vector);
    }
    assert(xor16(xor16(a, b), b) =~= a);
}

/// Multiplies a 16-byte tweak block by alpha.
fn xts_mul_alpha_le(t: &[u8]) -> (r: Vec<u8>)
    requires
        t@.len() == 16,
    ensures
        r@ == xts_mul_alpha(t@),
{
    let mut out: Vec<u8> = Vec::new();
    let mut carry: u8 = 0;
    let mut i: usize = 0;
    while i < 16
        invariant
            i <= 16,
            t@.len() == 16,
            out@.len() == i,
            carry == (if i == 0 {
                0u8
            } else {
                t@[i - 1] >> 7
            }),
            forall|j: int|
                0 <= j < i ==> out@[j] == (if j == 0 {
                    t@[0] << 1
                } else {
                    (t@[j] << 1) | (t@[j - 1] >> 7)
                }),
        decreases 16 - i,
    {
        let b = t[i];
        let v = if i == 0 {
            b << 1
        } else {
            (b << 1) | carry
        };
        out.push(v);
        carry = b >> 7;
        i = i + 1;
    }
    if carry != 0 {
        let patched = out[0] ^ 0x87;
        *vstd::std_specs::vec::vec_index_mut(&mut out, 0) = patched;
    }
    proof {
        let c15: u8 = t@[15];
        assert(c15 >> 7 == 0 || c15 >> 7 == 1) by (bit_vector);
        assert(out@ =~= xts_mul_alpha(t@));
    }
    out
}

/// Decrypts the XTS-encrypted NCA header buffer, sector by sector.
///
/// Succeeds exactly when the buffer is sector-aligned; the result is the
/// XTS decryption, and re-encrypting it under the same key pair restores
/// the input byte for byte.
pub fn decrypt_nca_header_xts(data: &[u8], header_key: &[u8; 32]) -> (r: Result<Vec<u8>, NszError>)
    ensures
        r is Ok <==> data@.len() % 0x200 == 0,
        r matches Ok(out) ==> {
            &&& out@ == xts_decrypt_spec(
                header_key@.subrange(0, 16),
                header_key@.subrange(16, 32),
                data@,
            )
            &&& out@.len() == data@.len()
            &&& xts_encrypt_spec(header_key@.subrange(0, 16), header_key@.subrange(16, 32), out@)
                == data@
        },
{
    process_nca_header_xts(data, header_key, true)
}

/// Encrypts a plaintext NCA header buffer, sector by sector.
///
/// Succeeds exactly when the buffer is sector-aligned; the result is the
/// XTS encryption, and decrypting it under the same key pair restores
/// the input byte for byte.
pub fn encrypt_nca_header_xts(data: &[u8], header_key: &[u8; 32]) -> (r: Result<Vec<u8>, NszError>)
    ensures
        r is Ok <==> data@.len() % 0x200 == 0,
        r matches Ok(out) ==> {
            &&& out@ == xts_encrypt_spec(
                header_key@.subrange(0, 16),
                header_key@.subrange(16, 32),
                data@,
            )
            &&& out@.len() == data@.len()
            &&& xts_decrypt_spec(header_key@.subrange(0, 16), header_key@.subrange(16, 32), out@)
                == data@
        },
{
    process_nca_header_xts(data, header_key, false)
}

/// One pass over the sectors, decrypting when `decrypt` holds and
/// encrypting otherwise. The contract carries both the direction computed
/// and the fact that the opposite direction restores the input.
fn process_nca_header_xts(data: &[u8], header_key: &[u8; 32], decrypt: bool) -> (r: Result<
    Vec<u8>,
    NszError,
>)
    ensures
        r is Ok <==> data@.len() % 0x200 == 0,
        r matches Ok(out) ==> {
            &&& out@.len() == data@.len()
            &&& (decrypt ==> out@ == xts_decrypt_spec(
                header_key@.subrange(0, 16),
                header_key@.subrange(16, 32),
                data@,
            ) && xts_encrypt_spec(header_key@.subrange(0, 16), header_key@.subrange(16, 32), out@)
                == data@)
            &&& (!decrypt ==> out@ == xts_encrypt_spec(
                header_key@.subrange(0, 16),
                header_key@.subrange(16, 32),
                data@,
            ) && xts_decrypt_spec(header_key@.subrange(0, 16), header_key@.subrange(16, 32), out@)
                == data@)
        },
{
    if data.len() % XTS_SECTOR_SIZE != 0 {
        return Err(container_format_error("XTS buffer size is not aligned to the sector size"));
    }
    let ghost kd = header_key@.subrange(0, 16);
    let ghost kt = header_key@.subrange(16, 32);
    let key_data = vstd::slice::slice_subrange(header_key.as_slice(), 0, 16);
    let key_tweak = vstd::slice::slice_subrange(header_key.as_slice(), 16, 32);
    let n_sectors = data.len() / XTS_SECTOR_SIZE;
    let dlen = data.len();
    proof {
        vstd::arithmetic::div_mod::lemma_fundamental_div_mod(data@.len() as int, 0x200);
        assert(dlen == data@.len());
        assert(n_sectors * 0x200 <= usize::MAX);
    }
    let mut out: Vec<u8> = Vec::new();
    let mut sector: usize = 0;
    while sector < n_sectors
        invariant
            data@.len() == n_sectors * 0x200,
            n_sectors * 0x200 <= usize::MAX,
            sector <= n_sectors,
            kd == header_key@.subrange(0, 16),
            kt == header_key@.subrange(16, 32),
            key_data@ == kd,
            key_tweak@ == kt,
            out@.len() == sector * 0x200,
            decrypt ==> out@ == xts_dec_prefix(kd, kt, data@, sector as int),
            decrypt ==> xts_enc_prefix(kd, kt, out@, sector as int) == data@.subrange(
                0,
                sector * 0x200,
            ),
            !decrypt ==> out@ == xts_enc_prefix(kd, kt, data@, sector as int),
            !decrypt ==> xts_dec_prefix(kd, kt, out@, sector as int) == data@.subrange(
                0,
                sector * 0x200,
            ),
        decreases n_sectors - sector,
    {
        let ghost out_before = out@;
        let sector_base = sector * XTS_SECTOR_SIZE;

        // The tweak source: the sector index, big-endian, in the low 8
        // bytes of a zeroed block.
        let mut tweak_src: Vec<u8> = Vec::new();
        let mut zi: usize = 0;
        while zi < 8
            invariant
                zi <= 8,
                tweak_src@ =~= Seq::new(zi as nat, |i: int| 0u8),
            decreases 8 - zi,
        {
            tweak_src.push(0u8);
            zi = zi + 1;
            proof {
                assert(tweak_src@ =~= Seq::new(zi as nat, |i: int| 0u8));
            }
        }
        let s64: u64 = sector as u64;
        proof {
            assert((s64 >> 56) < 256 && ((s64 >> 48) & 0xff) < 256 && ((s64 >> 40) & 0xff) < 256
                && ((s64 >> 32) & 0xff) < 256 && ((s64 >> 24) & 0xff) < 256 && ((s64 >> 16) & 0xff)
                < 256 && ((s64 >> 8) & 0xff) < 256 && (s64 & 0xff) < 256) by (bit_vector);
        }
        tweak_src.push((s64 >> 56) as u8);
        tweak_src.push(((s64 >> 48) & 0xff) as u8);
        tweak_src.push(((s64 >> 40) & 0xff) as u8);
        tweak_src.push(((s64 >> 32) & 0xff) as u8);
        tweak_src.push(((s64 >> 24) & 0xff) as u8);
        tweak_src.push(((s64 >> 16) & 0xff) as u8);
        tweak_src.push(((s64 >> 8) & 0xff) as u8);
        tweak_src.push((s64 & 0xff) as u8);
        proof {
            assert(tweak_src@ =~= Seq::new(8, |i: int| 0u8) + spec_u64_to_be_bytes(s64));
        }
        let mut tweak = aes_ecb_encrypt_block(key_tweak, tweak_src.as_slice());

        let ghost sector_in = data@.subrange(sector * 0x200, sector * 0x200 + 0x200);
        let mut bi: usize = 0;
        while bi < 32
            invariant
                data@.len() == n_sectors * 0x200,
                n_sectors * 0x200 <= usize::MAX,
                sector < n_sectors,
                sector_base == sector * 0x200,
                s64 == sector as u64,
                kd == header_key@.subrange(0, 16),
                kt == header_key@.subrange(16, 32),
                key_data@ == kd,
                key_tweak@ == kt,
                bi <= 32,
                tweak@ == xts_tweak_at(kt, s64, bi as int),
                tweak@.len() == 16,
                out@.len() == sector * 0x200 + bi * 16,
                out@.subrange(0, sector * 0x200) == out_before,
                out_before.len() == sector * 0x200,
                sector_in == data@.subrange(sector * 0x200, sector * 0x200 + 0x200),
                decrypt ==> out@.subrange(sector * 0x200, out@.len() as int)
                    == xts_dec_sector_prefix(kd, kt, s64, sector_in, bi as int),
                decrypt ==> xts_enc_sector_prefix(
                    kd,
                    kt,
                    s64,
                    out@.subrange(sector * 0x200, out@.len() as int),
                    bi as int,
                ) == data@.subrange(sector * 0x200, sector * 0x200 + bi * 16),
                !decrypt ==> out@.subrange(sector * 0x200, out@.len() as int)
                    == xts_enc_sector_prefix(kd, kt, s64, sector_in, bi as int),
                !decrypt ==> xts_dec_sector_prefix(
                    kd,
                    kt,
                    s64,
                    out@.subrange(sector * 0x200, out@.len() as int),
                    bi as int,
                ) == data@.subrange(sector * 0x200, sector * 0x200 + bi * 16),
            decreases 32 - bi,
        {
            let ghost sector_out_old = out@.subrange(sector * 0x200, out@.len() as int);
            let start = sector_base + bi * 16;
            let cblock = copy_range(data, start, start + 16);
            let xored = xor_vecs(cblock.as_slice(), tweak.as_slice());
            let half = if decrypt {
                aes_ecb_decrypt_block(key_data, xored.as_slice())
            } else {
                aes_ecb_encrypt_block(key_data, xored.as_slice())
            };
            let pblock = xor_vecs(half.as_slice(), tweak.as_slice());
            append_slice(&mut out, pblock.as_slice());
            let ghost t = tweak@;
            let ghost c = cblock@;
            proof {
                lemma_xor16_involution(c, t);
                lemma_xor16_involution(half@, t);
                if decrypt {
                    assert(pblock@ == xts_dec_block(kd, t, c));
                    assert(xor16(pblock@, t) == half@);
                    assert(aes128_encrypt_block_spec(kd, half@) == xored@);
                    assert(xts_enc_block(kd, t, pblock@) == c);
                } else {
                    assert(pblock@ == xts_enc_block(kd, t, c));
                    assert(xor16(pblock@, t) == half@);
                    assert(aes128_decrypt_block_spec(kd, half@) == xored@);
                    assert(xts_dec_block(kd, t, pblock@) == c);
                }
            }
            let new_tweak = xts_mul_alpha_le(tweak.as_slice());
            tweak = new_tweak;
            bi = bi + 1;
            proof {
                let sb = sector * 0x200;
                let sector_out = out@.subrange(sb, out@.len() as int);
                assert(out@.subrange(0, sb) =~= out_before);
                assert(sector_out =~= sector_out_old + pblock@);
                assert(c =~= sector_in.subrange(16 * (bi - 1), 16 * bi));
                assert(sector_out.subrange(0, 16 * (bi - 1)) =~= sector_out_old);
                assert(sector_out_old.subrange(0, 16 * (bi - 1)) =~= sector_out_old);
                assert(sector_out_old.subrange(0, 16 * (bi - 1)) == sector_out.subrange(
                    0,
                    16 * (bi - 1),
                ));
                assert(sector_out.subrange(16 * (bi - 1), 16 * bi) =~= pblock@);
                if decrypt {
                    assert(sector_out =~= xts_dec_sector_prefix(kd, kt, s64, sector_in, bi as int));
                    lemma_enc_sector_prefix_frame(
                        kd,
                        kt,
                        s64,
                        sector_out_old,
                        sector_out,
                        (bi - 1) as int,
                    );
                    assert(xts_enc_sector_prefix(kd, kt, s64, sector_out, bi as int)
                        == xts_enc_sector_prefix(kd, kt, s64, sector_out, (bi - 1) as int)
                        + xts_enc_block(kd, xts_tweak_at(kt, s64, (bi - 1) as int), pblock@));
                    assert(xts_enc_sector_prefix(kd, kt, s64, sector_out, bi as int) =~= data@
                        .subrange(sb, sb + bi * 16));
                } else {
                    assert(sector_out =~= xts_enc_sector_prefix(kd, kt, s64, sector_in, bi as int));
                    lemma_dec_sector_prefix_frame(
                        kd,
                        kt,
                        s64,
                        sector_out_old,
                        sector_out,
                        (bi - 1) as int,
                    );
                    assert(xts_dec_sector_prefix(kd, kt, s64, sector_out, bi as int)
                        == xts_dec_sector_prefix(kd, kt, s64, sector_out, (bi - 1) as int)
                        + xts_dec_block(kd, xts_tweak_at(kt, s64, (bi - 1) as int), pblock@));
                    assert(xts_dec_sector_prefix(kd, kt, s64, sector_out, bi as int) =~= data@
                        .subrange(sb, sb + bi * 16));
                }
            }
        }
        sector = sector + 1;
        proof {
            let sb = (sector - 1) * 0x200;
            let sector_out = out@.subrange(sb, out@.len() as int);
            assert(sector_out =~= out@.subrange(sb, sb + 0x200));
            assert(out@.subrange(0, sb) == out_before);
            assert(out_before.subrange(0, sb) =~= out_before);
            assert(out_before.subrange(0, sb) == out@.subrange(0, sb));
            if decrypt {
                assert(out@ =~= out_before + sector_out);
                assert(out@ =~= xts_dec_prefix(kd, kt, data@, sector as int));
                lemma_enc_prefix_frame(kd, kt, out_before, out@, (sector - 1) as int);
                assert(xts_enc_prefix(kd, kt, out@, sector as int) == xts_enc_prefix(
                    kd,
                    kt,
                    out@,
                    (sector - 1) as int,
                ) + xts_enc_sector_prefix(
                    kd,
                    kt,
                    (sector - 1) as u64,
                    out@.subrange(sb, sb + 0x200),
                    32,
                ));
                assert(xts_enc_prefix(kd, kt, out@, sector as int) =~= data@.subrange(
                    0,
                    sector * 0x200,
                ));
            } else {
                assert(out@ =~= out_before + sector_out);
                assert(out@ =~= xts_enc_prefix(kd, kt, data@, sector as int));
                lemma_dec_prefix_frame(kd, kt, out_before, out@, (sector - 1) as int);
                assert(xts_dec_prefix(kd, kt, out@, sector as int) == xts_dec_prefix(
                    kd,
                    kt,
                    out@,
                    (sector - 1) as int,
                ) + xts_dec_sector_prefix(
                    kd,
                    kt,
                    (sector - 1) as u64,
                    out@.subrange(sb, sb + 0x200),
                    32,
                ));
                assert(xts_dec_prefix(kd, kt, out@, sector as int) =~= data@.subrange(
                    0,
                    sector * 0x200,
                ));
            }
        }
    }
    proof {
        assert(data@.subrange(0, (n_sectors * 0x200) as int) =~= data@);
        assert(out@.len() as int / 0x200 == n_sectors as int) by {
            vstd::arithmetic::div_mod::lemma_div_multiples_vanish(
                n_sectors as int,
                0x200,
            );
        }
    }
    Ok(out)
}

} // verus!
