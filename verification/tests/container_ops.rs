use nsz_rs::config::CompressRequest;

fn build_hfs0(entries: &[(String, Vec<u8>)]) -> Vec<u8> {
    let mut string_table = Vec::new();
    let mut string_offsets = Vec::with_capacity(entries.len());
    for (name, _) in entries {
        string_offsets.push(u32::try_from(string_table.len()).unwrap());
        string_table.extend_from_slice(name.as_bytes());
        string_table.push(0);
    }

    let header_size = 16 + entries.len() * 0x40 + string_table.len();
    let mut out = Vec::new();
    out.extend_from_slice(b"HFS0");
    out.extend_from_slice(&u32::try_from(entries.len()).unwrap().to_le_bytes());
    out.extend_from_slice(&u32::try_from(string_table.len()).unwrap().to_le_bytes());
    out.extend_from_slice(&0u32.to_le_bytes());

    let mut offset = 0u64;
    for ((_, data), string_offset) in entries.iter().zip(string_offsets.iter()) {
        out.extend_from_slice(&offset.to_le_bytes());
        out.extend_from_slice(&(data.len() as u64).to_le_bytes());
        out.extend_from_slice(&string_offset.to_le_bytes());
        out.extend_from_slice(&0u32.to_le_bytes());
        out.extend_from_slice(&0u64.to_le_bytes());
        out.extend_from_slice(&[0u8; 32]);
        offset += data.len() as u64;
    }

    out.extend_from_slice(&string_table);
    out.resize(header_size, 0);
    for (_, data) in entries {
        out.extend_from_slice(data);
    }
    out
}

fn build_xci_like(root_hfs0: &[u8]) -> Vec<u8> {
    let hfs0_offset = 0xF000u64;
    let mut out = vec![0u8; 0x200];
    out[0x100..0x104].copy_from_slice(b"HEAD");
    out[0x138..0x140].copy_from_slice(&hfs0_offset.to_le_bytes());
    out[0x140..0x148].copy_from_slice(&(root_hfs0.len() as u64).to_le_bytes());
    out.resize(usize::try_from(hfs0_offset).unwrap(), 0);
    out.extend_from_slice(root_hfs0);
    out
}

#[test]
fn nsp_compress_then_decompress_preserves_layout() {
    // One large convertible NCA (no keys: the single-largest fallback
    // applies), one ticket-like file and a text note.
    let mut nca = vec![0u8; 0x4000];
    let payload: Vec<u8> = (0..0x1800).map(|i| (i % 251) as u8).collect();
    nca.extend_from_slice(&payload);
    let entries = vec![
        ("0123456789abcdef0123456789abcdef.nca".to_string(),
            nsz_rs::container::payload::EntryData::Borrowed(nca.as_slice())),
        ("note.txt".to_string(), nsz_rs::container::payload::EntryData::Borrowed(b"hello")),
    ];
    let nsp = nsz_rs::container::nsp::encode_pfs0(&entries, 0x200, 0).unwrap();

    let request = CompressRequest::default();
    let nsz = nsz_rs::ops::compress::compress_nsp_to_nsz(&nsp, &request, None, 1).unwrap();

    let nsz_archive = nsz_rs::container::nsp::NspArchive::from_bytes(&nsz).unwrap();
    assert_eq!(nsz_archive.entries().len(), 2);
    assert_eq!(nsz_archive.entries()[0].name, "0123456789abcdef0123456789abcdef.ncz");
    assert_eq!(nsz_archive.entries()[1].name, "note.txt");

    let restored = nsz_rs::ops::decompress::decompress_nsz_to_nsp(&nsz).unwrap();
    let restored_archive = nsz_rs::container::nsp::NspArchive::from_bytes(&restored).unwrap();
    let original_archive = nsz_rs::container::nsp::NspArchive::from_bytes(&nsp).unwrap();
    assert_eq!(restored_archive.entries().len(), original_archive.entries().len());
    for (r, o) in restored_archive.entries().iter().zip(original_archive.entries().iter()) {
        assert_eq!(r.name, o.name);
        assert_eq!(r.offset, o.offset);
        assert_eq!(r.size, o.size);
    }
    assert_eq!(
        restored_archive.string_table_size(),
        original_archive.string_table_size()
    );
    assert_eq!(
        restored_archive.first_file_offset(),
        original_archive.first_file_offset()
    );
    assert_eq!(restored, nsp);
}

#[test]
fn xci_compress_and_decompress_roundtrip_secure_partition() {
    let mut nca = vec![0u8; 0x4000];
    let payload: Vec<u8> = (0..0x900).map(|i| (i % 247) as u8).collect();
    nca.extend_from_slice(&payload);
    let secure = build_hfs0(&[
        ("0123456789abcdef0123456789abcdef.nca".to_string(), nca.clone()),
        ("dummy.tik".to_string(), b"tik".to_vec()),
    ]);
    let root = build_hfs0(&[("secure".to_string(), secure)]);
    let xci = build_xci_like(&root);

    let request = CompressRequest::default();
    let xcz = nsz_rs::ops::compress::compress_xci_to_xcz(&xci, &request, None, 1).unwrap();

    let xcz_archive = nsz_rs::container::xci::XciArchive::from_bytes(&xcz).unwrap();
    let xcz_root_bytes = xcz_archive.root_hfs0_bytes(&xcz).unwrap();
    let xcz_root = xcz_archive.root_hfs0_archive(&xcz).unwrap();
    let secure_entry = xcz_root
        .entries()
        .iter()
        .find(|entry| entry.name == "secure")
        .unwrap()
        .clone();
    let secure_bytes = xcz_root.entry_bytes(xcz_root_bytes, &secure_entry);
    let secure_archive = nsz_rs::container::hfs0::Hfs0Archive::from_bytes(secure_bytes).unwrap();
    let ncz_entry = secure_archive
        .entries()
        .iter()
        .find(|entry| entry.name.ends_with(".ncz"))
        .unwrap()
        .clone();
    let ncz_bytes = secure_archive.entry_bytes(secure_bytes, &ncz_entry);
    let restored_nca = nsz_rs::ncz::decompress::decompress_ncz_to_vec(ncz_bytes).unwrap();
    assert_eq!(restored_nca, nca);
}

#[test]
fn xci_parse_reads_head_at_either_base() {
    let root = build_hfs0(&[]);
    let xci = build_xci_like(&root);
    let parsed = nsz_rs::container::xci::XciArchive::from_bytes(&xci).unwrap();
    assert_eq!(parsed.header_offset, 0);
    assert_eq!(parsed.hfs0_offset, 0xF000);
}

#[test]
fn xci_reemit_with_original_root_is_identity() {
    let root = build_hfs0(&[("secure".to_string(), b"abc".to_vec())]);
    let xci = build_xci_like(&root);
    let parsed = nsz_rs::container::xci::XciArchive::from_bytes(&xci).unwrap();
    let tail = parsed.root_hfs0_bytes(&xci).unwrap().to_vec();
    let reemitted = nsz_rs::container::xci::encode_xci_like(&xci, &parsed, &tail).unwrap();
    assert_eq!(reemitted, xci);
}

#[test]
fn path_helpers_change_extensions() {
    assert_eq!(
        nsz_rs::fs_ops::path_tools::change_extension("dir/game.nsp", "nsz"),
        "dir/game.nsz"
    );
    assert_eq!(
        nsz_rs::fs_ops::path_tools::change_extension("archive", ".ncz"),
        "archive.ncz"
    );
    assert_eq!(
        nsz_rs::fs_ops::existing_checks::target_path_for("in/game.nsp", "nsz", "out"),
        "out/game.nsz"
    );
}

#[test]
fn target_path_for_keeps_existing_separator() {
    assert_eq!(
        nsz_rs::fs_ops::existing_checks::target_path_for("in/game.nsp", "nsz", "out/"),
        "out/game.nsz"
    );
    assert_eq!(
        nsz_rs::fs_ops::existing_checks::target_path_for("game.nsp", "nsz", ""),
        "game.nsz"
    );
}

#[test]
fn xcz_full_decompress_restores_secure_nca() {
    let mut nca = vec![0u8; 0x4000];
    let payload: Vec<u8> = (0..0xA00).map(|i| (i % 239) as u8).collect();
    nca.extend_from_slice(&payload);
    let secure = build_hfs0(&[(
        "0123456789abcdef0123456789abcdef.nca".to_string(),
        nca.clone(),
    )]);
    let root = build_hfs0(&[("secure".to_string(), secure)]);
    let xci = build_xci_like(&root);

    let request = CompressRequest::default();
    let xcz = nsz_rs::ops::compress::compress_xci_to_xcz(&xci, &request, None, 1).unwrap();
    let restored = nsz_rs::ops::decompress::decompress_xcz_to_xci(&xcz).unwrap();

    let archive = nsz_rs::container::xci::XciArchive::from_bytes(&restored).unwrap();
    let root_bytes = archive.root_hfs0_bytes(&restored).unwrap();
    let root_archive = nsz_rs::container::hfs0::Hfs0Archive::from_bytes(root_bytes).unwrap();
    let secure_entry = root_archive
        .entries()
        .iter()
        .find(|entry| entry.name == "secure")
        .unwrap()
        .clone();
    let secure_bytes = root_archive.entry_bytes(root_bytes, &secure_entry);
    let secure_archive = nsz_rs::container::hfs0::Hfs0Archive::from_bytes(secure_bytes).unwrap();
    let nca_entry = secure_archive
        .entries()
        .iter()
        .find(|entry| entry.name.ends_with(".nca"))
        .unwrap()
        .clone();
    let nca_bytes = secure_archive.entry_bytes(secure_bytes, &nca_entry);
    assert_eq!(nca_bytes, nca.as_slice());
}
