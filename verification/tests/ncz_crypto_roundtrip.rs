use aes::cipher::{KeyIvInit, StreamCipher, StreamCipherSeek};
use aes::Aes128;

type AesCtr = ctr::Ctr128BE<Aes128>;

#[test]
fn ctr_streaming_matches_seek_per_chunk() {
    let key = [0x3Au8; 16];
    let counter = [0xC1u8; 16];
    let offset = 0x2345u64;
    let payload: Vec<u8> = (0u32..16384).map(|idx| (idx % 251) as u8).collect();
    let mut stream_output = payload.clone();
    let mut stream_cipher = AesCtr::new(&key.into(), &counter.into());
    stream_cipher.seek(offset);
    stream_cipher.apply_keystream(&mut stream_output);

    let mut chunked_output = payload;
    let mut cursor = 0usize;
    let chunk_size = 257usize;
    while cursor < chunked_output.len() {
        let end = (cursor + chunk_size).min(chunked_output.len());
        let mut chunk_cipher = AesCtr::new((&key).into(), (&counter).into());
        chunk_cipher.seek(offset + cursor as u64);
        chunk_cipher.apply_keystream(&mut chunked_output[cursor..end]);
        cursor = end;
    }

    assert_eq!(stream_output, chunked_output);
}

#[test]
fn library_ctr_matches_reference_cipher() {
    let key = [0x3Au8; 16];
    let counter = [0xC1u8; 16];
    let offset = 0x2345u64;
    let payload: Vec<u8> = (0u32..4096).map(|idx| (idx % 251) as u8).collect();

    let mut expected = payload.clone();
    let mut cipher = AesCtr::new(&key.into(), &counter.into());
    cipher.seek(offset);
    cipher.apply_keystream(&mut expected);

    let mut actual = payload;
    nsz_rs::crypto::primitives::aes_ctr_apply(&mut actual, &key, &counter, offset);
    assert_eq!(actual, expected);
    assert_ne!(actual, (0u32..4096).map(|idx| (idx % 251) as u8).collect::<Vec<u8>>());

    nsz_rs::crypto::primitives::aes_ctr_apply(&mut actual, &key, &counter, offset);
    assert_eq!(actual, (0u32..4096).map(|idx| (idx % 251) as u8).collect::<Vec<u8>>());
}

#[test]
fn ncz_native_decompress_roundtrip_crypto_type3() {
    let payload = b"native-ncz-crypto-payload".to_vec();
    let key = [0x11u8; 16];
    let counter = [0x22u8; 16];

    let mut encrypted = payload.clone();
    let mut cipher = AesCtr::new(&key.into(), &counter.into());
    cipher.seek(0x4000u128);
    cipher.apply_keystream(&mut encrypted);

    let compressed = zstd::stream::encode_all(&encrypted[..], 1).unwrap();

    let mut fixture = vec![0u8; 0x4000];
    fixture.extend_from_slice(b"NCZSECTN");
    fixture.extend_from_slice(&(1u64).to_le_bytes());
    fixture.extend_from_slice(&(0x4000u64).to_le_bytes());
    fixture.extend_from_slice(&(payload.len() as u64).to_le_bytes());
    fixture.extend_from_slice(&(3u64).to_le_bytes());
    fixture.extend_from_slice(&0u64.to_le_bytes());
    fixture.extend_from_slice(&key);
    fixture.extend_from_slice(&counter);
    fixture.extend_from_slice(&compressed);

    let decompressed = nsz_rs::ncz::decompress::decompress_ncz_to_vec(&fixture).unwrap();
    assert_eq!(&decompressed[0x4000..], &payload);
}

#[test]
fn xts_header_roundtrip_restores_bytes() {
    let mut header_key = [0u8; 32];
    for (i, b) in header_key.iter_mut().enumerate() {
        *b = (i as u8).wrapping_mul(7).wrapping_add(3);
    }
    let mut header = vec![0u8; 0xC00];
    for (i, b) in header.iter_mut().enumerate() {
        *b = (i as u8).wrapping_mul(31).wrapping_add(11);
    }

    let decrypted = nsz_rs::crypto::xts::decrypt_nca_header_xts(&header, &header_key).unwrap();
    assert_ne!(decrypted, header);
    let reencrypted =
        nsz_rs::crypto::xts::encrypt_nca_header_xts(&decrypted, &header_key).unwrap();
    assert_eq!(reencrypted, header);

    let encrypted = nsz_rs::crypto::xts::encrypt_nca_header_xts(&header, &header_key).unwrap();
    let restored = nsz_rs::crypto::xts::decrypt_nca_header_xts(&encrypted, &header_key).unwrap();
    assert_eq!(restored, header);
}

#[test]
fn xts_rejects_unaligned_buffers() {
    let header_key = [0u8; 32];
    assert!(nsz_rs::crypto::xts::decrypt_nca_header_xts(&[0u8; 0x300], &header_key).is_err());
}
