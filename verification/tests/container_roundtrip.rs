use nsz_rs::container::payload::EntryData;

#[test]
fn pfs0_header_roundtrip_is_stable() {
    let fixture: Vec<u8> = vec![
        b'P', b'F', b'S', b'0', 1, 0, 0, 0, 4, 0, 0, 0, 0, 0, 0, 0, 0x20, 0, 0, 0, 0, 0, 0, 0,
        0x10, 0, 0, 0, 0, 0, 0, 0, 0, 0, 0, 0, 0, 0, 0, 0, b'f', b'i', b'l', b'e', 0, 0, 0, 0,
    ];

    let header = nsz_rs::container::pfs0::Pfs0Header::from_bytes(&fixture).unwrap();
    let encoded = header.to_bytes();

    assert_eq!(encoded, fixture);
}

#[test]
fn pfs0_hfs0_encode_accepts_borrowed_payloads() {
    let payload_a = b"alpha".to_vec();
    let payload_b = b"beta".to_vec();
    let pfs_entries = vec![
        ("a.bin".to_string(), EntryData::Borrowed(payload_a.as_slice())),
        ("b.bin".to_string(), EntryData::Borrowed(payload_b.as_slice())),
    ];
    let pfs = nsz_rs::container::nsp::encode_pfs0(&pfs_entries, 0x80, 0).unwrap();
    let pfs_archive = nsz_rs::container::nsp::NspArchive::from_bytes(&pfs).unwrap();
    assert_eq!(pfs_archive.entries().len(), 2);
    assert_eq!(
        pfs_archive.entry_bytes(&pfs, &pfs_archive.entries()[0]),
        payload_a
    );
    assert_eq!(
        pfs_archive.entry_bytes(&pfs, &pfs_archive.entries()[1]),
        payload_b
    );

    let hfs_entries = vec![
        ("c.bin".to_string(), EntryData::Borrowed(payload_a.as_slice())),
        ("d.bin".to_string(), EntryData::Borrowed(payload_b.as_slice())),
    ];
    let hfs = nsz_rs::container::hfs0::encode_hfs0(&hfs_entries, 0x100, 0).unwrap();
    let hfs_archive = nsz_rs::container::hfs0::Hfs0Archive::from_bytes(&hfs).unwrap();
    assert_eq!(hfs_archive.entries().len(), 2);
    assert_eq!(
        hfs_archive.entry_bytes(&hfs, &hfs_archive.entries()[0]),
        payload_a
    );
    assert_eq!(
        hfs_archive.entry_bytes(&hfs, &hfs_archive.entries()[1]),
        payload_b
    );
}

#[test]
fn pfs0_encode_then_parse_keeps_entries() {
    // A PFS0 with entries ("file", 16 bytes of 0x00) at first_file_offset
    // 0x30 encodes to exactly 0x40 bytes, and parsing it back restores
    // the entry table.
    let payload = vec![0u8; 16];
    let entries = vec![("file".to_string(), EntryData::Borrowed(payload.as_slice()))];
    let encoded = nsz_rs::container::nsp::encode_pfs0(&entries, 0x30, 0).unwrap();
    assert_eq!(encoded.len(), 0x40);

    let parsed = nsz_rs::container::nsp::NspArchive::from_bytes(&encoded).unwrap();
    assert_eq!(parsed.entries().len(), 1);
    assert_eq!(parsed.entries()[0].name, "file");
    assert_eq!(parsed.entries()[0].size, 16);
    assert_eq!(parsed.first_file_offset(), 0x30);
    assert_eq!(parsed.entry_bytes(&encoded, &parsed.entries()[0]), payload);

    let reencoded = nsz_rs::container::nsp::encode_pfs0(
        &vec![("file".to_string(), EntryData::Borrowed(payload.as_slice()))],
        parsed.first_file_offset(),
        parsed.string_table_size(),
    )
    .unwrap();
    assert_eq!(reencoded, encoded);
}

#[test]
fn pfs0_parse_rejects_bad_magic() {
    let mut fixture = vec![0u8; 0x40];
    fixture[0] = b'X';
    assert!(nsz_rs::container::nsp::NspArchive::from_bytes(&fixture).is_err());
}

#[test]
fn pfs0_parse_accepts_non_ascii_names() {
    let payload = b"pay".to_vec();
    let entries = vec![(
        "caf\u{e9}.bin".to_string(),
        EntryData::Borrowed(payload.as_slice()),
    )];
    let encoded = nsz_rs::container::nsp::encode_pfs0(&entries, 0x40, 0).unwrap();
    let parsed = nsz_rs::container::nsp::NspArchive::from_bytes(&encoded).unwrap();
    assert_eq!(parsed.entries()[0].name, "caf\u{e9}.bin");
}
