use sha2::{Digest, Sha256};

fn hex_of(bytes: &[u8]) -> String {
    let mut out = String::new();
    for b in bytes {
        out.push(char::from_digit((b >> 4) as u32, 16).unwrap());
        out.push(char::from_digit((b & 0xF) as u32, 16).unwrap());
    }
    out
}

#[test]
fn verify_accepts_matching_hash_prefix() {
    let payload = b"verify-me-payload".to_vec();
    let digest = Sha256::digest(&payload);
    let stem = hex_of(&digest);
    assert!(nsz_rs::ops::verify::verify_hash_against_expected(&stem, &payload).is_ok());

    // Arbitrary tail bytes beyond the 32 hex characters do not matter.
    let long_stem = format!("{}{}", &stem[..32], "-some-title-v0");
    assert!(nsz_rs::ops::verify::verify_hash_against_expected(&long_stem, &payload).is_ok());

    // Upper-case prefixes compare case-insensitively.
    let upper = stem[..32].to_uppercase();
    assert!(nsz_rs::ops::verify::verify_hash_against_expected(&upper, &payload).is_ok());
}

#[test]
fn verify_rejects_flipped_payload_bit() {
    let payload = b"verify-me-payload".to_vec();
    let digest = Sha256::digest(&payload);
    let stem = hex_of(&digest);

    let mut flipped = payload.clone();
    flipped[3] ^= 0x01;
    let err = nsz_rs::ops::verify::verify_hash_against_expected(&stem, &flipped).unwrap_err();
    match err {
        nsz_rs::NszError::ParityMismatch { expected_sha256, actual_sha256, .. } => {
            assert_eq!(expected_sha256, stem[..32].to_string());
            let new_hash = hex_of(&Sha256::digest(&flipped));
            assert_eq!(actual_sha256[..32], new_hash[..32]);
        },
        other => panic!("unexpected error: {}", other.message()),
    }
}

#[test]
fn verify_short_stems_pass() {
    assert!(nsz_rs::ops::verify::verify_hash_against_expected("short", b"anything").is_ok());
}

#[test]
fn verify_entry_name_uses_stem() {
    let payload = b"entry-payload".to_vec();
    let digest = Sha256::digest(&payload);
    let name = format!("{}.nca", hex_of(&digest));
    assert!(nsz_rs::ops::verify::verify_hash_against_entry_name(&name, &payload).is_ok());
    let bad_name = format!("{}{}.nca", "0".repeat(16), "1".repeat(16));
    assert!(nsz_rs::ops::verify::verify_hash_against_entry_name(&bad_name, &payload).is_err());
}

#[test]
fn verify_container_checks_nca_and_skips_cnmt() {
    let payload = b"container-nca-payload".to_vec();
    let digest = Sha256::digest(&payload);
    let good_name = format!("{}.nca", hex_of(&digest));

    let entries = vec![
        (good_name, nsz_rs::container::payload::EntryData::Borrowed(payload.as_slice())),
        (
            // A .cnmt.nca whose stem is 32+ hex characters that do NOT
            // match its hash: it must be skipped, not failed.
            format!("{}.cnmt.nca", "0".repeat(32)),
            nsz_rs::container::payload::EntryData::Borrowed(payload.as_slice()),
        ),
        ("note.txt".to_string(), nsz_rs::container::payload::EntryData::Borrowed(b"hi")),
    ];
    let container = nsz_rs::container::nsp::encode_pfs0(&entries, 0x200, 0).unwrap();
    assert!(nsz_rs::ops::verify::verify_nsp_like_container(&container, false).is_ok());

    // A wrong-hash plain .nca fails.
    let bad_entries = vec![(
        format!("{}.nca", "0".repeat(32)),
        nsz_rs::container::payload::EntryData::Borrowed(payload.as_slice()),
    )];
    let bad = nsz_rs::container::nsp::encode_pfs0(&bad_entries, 0x200, 0).unwrap();
    assert!(nsz_rs::ops::verify::verify_nsp_like_container(&bad, false).is_err());
}

#[test]
fn verify_compressed_container_decompresses_ncz() {
    let payload = b"ncz-verified-payload".to_vec();
    let mut nca = vec![0u8; 0x4000];
    nca.extend_from_slice(&payload);
    let digest = Sha256::digest(&nca);

    let compressed = zstd::stream::encode_all(&payload[..], 1).unwrap();
    let mut ncz = vec![0u8; 0x4000];
    ncz.extend_from_slice(b"NCZSECTN");
    ncz.extend_from_slice(&(1u64).to_le_bytes());
    ncz.extend_from_slice(&(0x4000u64).to_le_bytes());
    ncz.extend_from_slice(&(payload.len() as u64).to_le_bytes());
    ncz.extend_from_slice(&(0u64).to_le_bytes());
    ncz.extend_from_slice(&0u64.to_le_bytes());
    ncz.extend_from_slice(&[0u8; 16]);
    ncz.extend_from_slice(&[0u8; 16]);
    ncz.extend_from_slice(&compressed);

    let name = format!("{}.ncz", hex_of(&digest));
    let entries =
        vec![(name, nsz_rs::container::payload::EntryData::Borrowed(ncz.as_slice()))];
    let container = nsz_rs::container::nsp::encode_pfs0(&entries, 0x200, 0).unwrap();
    assert!(nsz_rs::ops::verify::verify_nsp_like_container(&container, true).is_ok());
    // Without the compressed flag, .ncz entries are not hashed at all.
    assert!(nsz_rs::ops::verify::verify_nsp_like_container(&container, false).is_ok());
}
