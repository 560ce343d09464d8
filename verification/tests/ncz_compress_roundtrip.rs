use nsz_rs::container::nca::{NcaCompressionMeta, NcaCompressionPlan, NcaEncryptionSection};

fn pseudo_random_bytes(len: usize, mut state: u32) -> Vec<u8> {
    let mut out = Vec::with_capacity(len);
    for _ in 0..len {
        state = state.wrapping_mul(1664525).wrapping_add(1013904223);
        out.push((state >> 24) as u8);
    }
    out
}

fn sample_nca(payload_len: usize) -> Vec<u8> {
    let mut data = pseudo_random_bytes(0x4000, 7);
    let payload: Vec<u8> = (0..payload_len).map(|i| (i % 253) as u8).collect();
    data.extend_from_slice(&payload);
    data
}

#[test]
fn ncz_solid_roundtrip_without_plan() {
    let data = sample_nca(0x2500);
    let compressed = nsz_rs::ncz::compress::compress_nca_to_ncz_vec(&data, 3).unwrap();
    let restored = nsz_rs::ncz::decompress::decompress_ncz_to_vec(&compressed).unwrap();
    assert_eq!(restored, data);
}

#[test]
fn ncz_solid_roundtrip_with_encrypted_plan() {
    let data = sample_nca(0x3000);
    let plan = NcaCompressionPlan {
        meta: NcaCompressionMeta { content_type: 0, size: data.len() as u64, packed: true },
        offset_first_section: 0x4000,
        sections: vec![NcaEncryptionSection {
            offset: 0x4000,
            size: 0x3000,
            crypto_type: 3,
            crypto_key: [0x11; 16],
            crypto_counter: [0x22; 16],
        }],
    };
    let compressed =
        nsz_rs::ncz::compress::compress_nca_to_ncz_vec_with_plan(&data, 3, false, 1, Some(&plan))
            .unwrap();
    let restored = nsz_rs::ncz::decompress::decompress_ncz_to_vec(&compressed).unwrap();
    assert_eq!(restored, data);
}

#[test]
fn ncz_block_roundtrip_varies_exponent() {
    // Exponent 32 also round-trips: the payload is far smaller than the
    // block size, so the stream holds one short block.
    for exp in [14u8, 20u8, 24u8, 32u8] {
        let data = sample_nca(0x8123);
        let compressed = nsz_rs::ncz::compress::compress_nca_to_ncz_block_vec_with_plan(
            &data, 3, false, exp, None,
        )
        .unwrap();
        let restored = nsz_rs::ncz::decompress::decompress_ncz_to_vec(&compressed).unwrap();
        assert_eq!(restored, data, "block mode exponent {exp}");
    }
}

#[test]
fn ncz_block_stores_incompressible_blocks_raw() {
    // High-entropy payload: Zstd cannot shrink it, so every full block is
    // stored raw with its size equal to the block size.
    let mut data = pseudo_random_bytes(0x4000, 5);
    data.extend_from_slice(&pseudo_random_bytes(0x4000 * 3 + 17, 99));
    let compressed = nsz_rs::ncz::compress::compress_nca_to_ncz_block_vec_with_plan(
        &data, 3, false, 14, None,
    )
    .unwrap();
    let restored = nsz_rs::ncz::decompress::decompress_ncz_to_vec(&compressed).unwrap();
    assert_eq!(restored, data);

    // The stream offset: 0x4000 header + 16 magic/count + 64 table.
    let stream = &compressed[0x4000 + 16 + 64..];
    assert_eq!(&stream[0..8], b"NCZBLOCK");
    let n_blocks = u32::from_le_bytes(stream[12..16].try_into().unwrap()) as usize;
    let mut raw_blocks = 0;
    for i in 0..n_blocks {
        let size = u32::from_le_bytes(stream[24 + 4 * i..28 + 4 * i].try_into().unwrap());
        if size == 1 << 14 {
            raw_blocks += 1;
        }
    }
    assert!(raw_blocks >= 3, "expected raw blocks, found {raw_blocks}");
}

#[test]
fn ncz_block_rejects_bad_exponent() {
    let data = sample_nca(0x100);
    assert!(nsz_rs::ncz::compress::compress_nca_to_ncz_block_vec_with_plan(
        &data, 3, false, 12, None
    )
    .is_err());
    assert!(nsz_rs::ncz::compress::compress_nca_to_ncz_block_vec_with_plan(
        &data, 3, false, 33, None
    )
    .is_err());
}

#[test]
fn ncz_compress_rejects_short_input() {
    assert!(nsz_rs::ncz::compress::compress_nca_to_ncz_vec(&[0u8; 0x100], 3).is_err());
}
