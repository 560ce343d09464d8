//! Trusted bindings to the AES-128 block cipher, the seekable AES-CTR
//! stream cipher and SHA-256, together with the verified consequences of
//! CTR being a keystream XOR (chunking and involution).
use vstd::prelude::*;

use aes::cipher::BlockCipherDecrypt;
use aes::cipher::BlockCipherEncrypt;
use aes::cipher::KeyInit;
use aes::cipher::KeyIvInit;
use aes::cipher::StreamCipher;
use aes::cipher::StreamCipherSeek;
use sha2::Digest;

verus! {

/// AES-128 encryption of one 16-byte block: a function of key and block alone.
pub uninterp spec fn aes128_encrypt_block_spec(key: Seq<u8>, block: Seq<u8>) -> Seq<u8>;

/// AES-128 decryption of one 16-byte block: a function of key and block alone.
pub uninterp spec fn aes128_decrypt_block_spec(key: Seq<u8>, block: Seq<u8>) -> Seq<u8>;

/// Byte `pos` of the AES-CTR keystream for `key` and initial `counter`:
/// a function of these three alone.
pub uninterp spec fn aes_ctr_keystream_byte(key: Seq<u8>, counter: Seq<u8>, pos: int) -> u8;

/// The SHA-256 digest of `data`: a function of the bytes alone.
pub uninterp spec fn sha256_spec(data: Seq<u8>) -> Seq<u8>;

/// What a seekable AES-CTR cipher does to a buffer: every byte is XORed
/// with the keystream byte at its absolute stream position.
pub open spec fn ctr_xor(key: Seq<u8>, counter: Seq<u8>, offset: int, data: Seq<u8>) -> Seq<u8> {
    Seq::new(data.len(), |i: int| data[i] ^ aes_ctr_keystream_byte(key, counter, offset + i))
}

/// Relies on `aes::Aes128` through `cipher::BlockCipherEncrypt::encrypt_block`:
/// one AES-128 block encryption, determined by key and block; decrypting the
/// result under the same key restores the block (the cipher is a permutation).
#[verifier::external_body]
pub(crate) fn aes_ecb_encrypt_block(key: &[u8], block: &[u8]) -> (r: Vec<u8>)
    requires
        key@.len() == 16,
        block@.len() == 16,
    ensures
        r@ == aes128_encrypt_block_spec(key@, block@),
        r@.len() == 16,
        aes128_decrypt_block_spec(key@, r@) == block@,
{
    let cipher = aes::Aes128::new_from_slice(key).unwrap();
    let mut b = aes::Block::default();
    b.copy_from_slice(block);
    cipher.encrypt_block(&mut b);
    b.to_vec()
}

/// Relies on `aes::Aes128` through `cipher::BlockCipherDecrypt::decrypt_block`:
/// one AES-128 block decryption, determined by key and block; encrypting the
/// result under the same key restores the block.
#[verifier::external_body]
pub(crate) fn aes_ecb_decrypt_block(key: &[u8], block: &[u8]) -> (r: Vec<u8>)
    requires
        key@.len() == 16,
        block@.len() == 16,
    ensures
        r@ == aes128_decrypt_block_spec(key@, block@),
        r@.len() == 16,
        aes128_encrypt_block_spec(key@, r@) == block@,
{
    let cipher = aes::Aes128::new_from_slice(key).unwrap();
    let mut b = aes::Block::default();
    b.copy_from_slice(block);
    cipher.decrypt_block(&mut b);
    b.to_vec()
}

/// Relies on `ctr::Ctr128BE<aes::Aes128>` through
/// `cipher::StreamCipherSeek::seek` and `cipher::StreamCipher::apply_keystream`:
/// XORs the buffer with the AES-CTR keystream of `key` and `counter`,
/// starting `offset` bytes into that stream.
#[verifier::external_body]
pub(crate) fn aes_ctr_transform(buf: &mut Vec<u8>, key: &[u8], counter: &[u8], offset: u64)
    requires
        key@.len() == 16,
        counter@.len() == 16,
    ensures
        final(buf)@ == ctr_xor(key@, counter@, offset as int, old(buf)@),
        forall|i: int|
            0 <= i < old(buf)@.len() ==> final(buf)@[i] == old(buf)@[i] ^ aes_ctr_keystream_byte(
                key@,
                counter@,
                offset + i,
            ),
{
    let mut cipher = ctr::Ctr128BE::<aes::Aes128>::new_from_slices(key, counter).unwrap();
    cipher.seek(offset);
    cipher.apply_keystream(buf.as_mut_slice());
}

/// Relies on `sha2::Sha256` through `digest::Digest::digest`: the 32-byte
/// SHA-256 digest, determined by the input bytes alone.
#[verifier::external_body]
pub(crate) fn sha256_digest(data: &[u8]) -> (r: Vec<u8>)
    ensures
        r@ == sha256_spec(data@),
        r@.len() == 32,
{
    sha2::Sha256::digest(data).to_vec()
}

/// Applies the AES-CTR keystream of `key` and `counter` to `buf`,
/// `offset` bytes into the stream. CTR encryption and decryption are the
/// same operation, so applying this twice restores the buffer.
pub fn aes_ctr_apply(buf: &mut Vec<u8>, key: &[u8], counter: &[u8], offset: u64)
    requires
        key@.len() == 16,
        counter@.len() == 16,
    ensures
        final(buf)@ == ctr_xor(key@, counter@, offset as int, old(buf)@),
{
    aes_ctr_transform(buf, key, counter, offset);
}

/// Applying the CTR keystream twice at the same position restores the data.
pub proof fn lemma_ctr_xor_involution(key: Seq<u8>, counter: Seq<u8>, offset: int, data: Seq<u8>)
    ensures
        ctr_xor(key, counter, offset, ctr_xor(key, counter, offset, data)) == data,
{
    let once = ctr_xor(key, counter, offset, data);
    let twice = ctr_xor(key, counter, offset, once);
    assert forall|i: int| 0 <= i < data.len() implies twice[i] == data[i] by {
        let k = aes_ctr_keystream_byte(key, counter, offset + i);
        let d = data[i];
        assert((d ^ k) ^ k == d) by (bit_vector);
    }
    assert(twice =~= data);
}

/// Applying CTR to a concatenation equals applying it to the pieces with the
/// keystream offset advanced: chunk boundaries do not change the result.
pub proof fn lemma_ctr_xor_chunks(
    key: Seq<u8>,
    counter: Seq<u8>,
    offset: int,
    a: Seq<u8>,
    b: Seq<u8>,
)
    ensures
        ctr_xor(key, counter, offset, a + b) == ctr_xor(key, counter, offset, a) + ctr_xor(
            key,
            counter,
            offset + a.len(),
            b,
        ),
{
    let lhs = ctr_xor(key, counter, offset, a + b);
    let rhs = ctr_xor(key, counter, offset, a) + ctr_xor(key, counter, offset + a.len(), b);
    assert forall|i: int| 0 <= i < lhs.len() implies lhs[i] == rhs[i] by {
        if i < a.len() {
            assert((a + b)[i] == a[i]);
        } else {
            assert((a + b)[i] == b[i - a.len()]);
        }
    }
    assert(lhs =~= rhs);
}

/// A CTR application is split across any sequence of chunks without change:
/// XORing the flattened chunks in one call equals XORing chunk by chunk,
/// each at its own accumulated stream offset.
pub proof fn lemma_ctr_xor_chunked_schedule(
    key: Seq<u8>,
    counter: Seq<u8>,
    offset: int,
    chunks: Seq<Seq<u8>>,
)
    ensures
        ctr_xor(key, counter, offset, chunks.flatten()) == Seq::new(
            chunks.len(),
            |j: int|
                ctr_xor(
                    key,
                    counter,
                    offset + chunks.subrange(0, j).flatten().len(),
                    chunks[j],
                ),
        ).flatten(),
    decreases chunks.len(),
{
    let mapped = Seq::new(
        chunks.len(),
        |j: int| ctr_xor(key, counter, offset + chunks.subrange(0, j).flatten().len(), chunks[j]),
    );
    if chunks.len() == 0 {
        assert(chunks.flatten() =~= Seq::<u8>::empty());
        assert(mapped.flatten() =~= Seq::<u8>::empty());
        assert(ctr_xor(key, counter, offset, chunks.flatten()) =~= Seq::<u8>::empty());
    } else {
        let first = chunks[0];
        let rest = chunks.drop_first();
        assert(chunks.flatten() == first + rest.flatten());
        lemma_ctr_xor_chunks(key, counter, offset, first, rest.flatten());
        lemma_ctr_xor_chunked_schedule(key, counter, offset + first.len(), rest);
        let mapped_rest = Seq::new(
            rest.len(),
            |j: int|
                ctr_xor(
                    key,
                    counter,
                    offset + first.len() + rest.subrange(0, j).flatten().len(),
                    rest[j],
                ),
        );
        assert forall|j: int| 0 <= j < rest.len() implies mapped[j + 1] == mapped_rest[j] by {
            assert(chunks.subrange(0, j + 1) =~= seq![first] + rest.subrange(0, j));
            assert((seq![first] + rest.subrange(0, j)).drop_first() =~= rest.subrange(0, j));
            assert((seq![first] + rest.subrange(0, j)).flatten() == first + rest.subrange(
                0,
                j,
            ).flatten());
        }
        assert(mapped =~= seq![mapped[0]] + mapped_rest);
        assert(mapped.drop_first() =~= mapped_rest);
        assert(mapped.first() == mapped[0]);
        assert(mapped.flatten() == mapped.first() + mapped.drop_first().flatten());
        assert(mapped.flatten() == mapped[0] + mapped_rest.flatten());
        assert(mapped[0] == ctr_xor(key, counter, offset, first)) by {
            assert(chunks.subrange(0, 0) =~= Seq::<Seq<u8>>::empty());
            assert(chunks.subrange(0, 0).flatten() =~= Seq::<u8>::empty());
        }
        assert(ctr_xor(key, counter, offset, chunks.flatten()) =~= mapped.flatten());
    }
}

} // verus!
