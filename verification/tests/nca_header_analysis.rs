use aes::cipher::{BlockCipherDecrypt, KeyInit};
use aes::Aes128;

fn hex_of(bytes: &[u8]) -> String {
    let mut out = String::new();
    for b in bytes {
        out.push(char::from_digit((b >> 4) as u32, 16).unwrap());
        out.push(char::from_digit((b & 0xF) as u32, 16).unwrap());
    }
    out
}

/// A plaintext NCA header declaring one section `[0x4000, 0x4000 + n)`
/// with crypto type 0 and content type `content_type`.
fn plain_header(content_type: u8, section_len: u64) -> Vec<u8> {
    let mut h = vec![0u8; 0xC00];
    h[0x200..0x204].copy_from_slice(b"NCA3");
    h[0x205] = content_type;
    let size = 0x4000 + section_len;
    h[0x208..0x210].copy_from_slice(&size.to_le_bytes());
    // Section slot 0: media units of 0x200 bytes.
    let media_start: u32 = (0x4000 / 0x200) as u32;
    let media_end: u32 = (size / 0x200) as u32;
    h[0x240..0x244].copy_from_slice(&media_start.to_le_bytes());
    h[0x244..0x248].copy_from_slice(&media_end.to_le_bytes());
    // Section 0 sub-header: crypto type 0 at +0x4; counter prefix zero.
    h
}

#[test]
fn nca_header_analysis_finds_compressible_program() {
    let mut header_key = [0u8; 32];
    for (i, b) in header_key.iter_mut().enumerate() {
        *b = (i as u8).wrapping_mul(13).wrapping_add(5);
    }
    let plain = plain_header(0x00, 0x2000);
    let encrypted =
        nsz_rs::crypto::xts::encrypt_nca_header_xts(&plain, &header_key).unwrap();
    let mut nca = encrypted;
    nca.resize(0x4000 + 0x2000, 0xCD);

    let meta = nsz_rs::container::nca::analyze_for_compression(&nca, &header_key).unwrap();
    assert!(meta.is_compressible());
    assert_eq!(meta.size, 0x6000);
    assert_eq!(meta.content_type, 0x00);
}

#[test]
fn nca_header_analysis_rejects_unpacked_sections() {
    let mut header_key = [0u8; 32];
    for (i, b) in header_key.iter_mut().enumerate() {
        *b = (i as u8).wrapping_mul(13).wrapping_add(5);
    }
    // Declared size one media unit beyond the section end: not packed.
    let mut plain = plain_header(0x00, 0x2000);
    let size: u64 = 0x4000 + 0x2000 + 0x200;
    plain[0x208..0x210].copy_from_slice(&size.to_le_bytes());
    let encrypted =
        nsz_rs::crypto::xts::encrypt_nca_header_xts(&plain, &header_key).unwrap();
    let mut nca = encrypted;
    nca.resize(size as usize, 0xCD);

    let meta = nsz_rs::container::nca::analyze_for_compression(&nca, &header_key).unwrap();
    assert!(!meta.is_compressible());
}

#[test]
fn nca_header_analysis_rejects_bad_magic() {
    let header_key = [7u8; 32];
    let nca = vec![0u8; 0x6000];
    assert!(nsz_rs::container::nca::analyze_for_compression(&nca, &header_key).is_err());
}

#[test]
fn nca_plan_resolves_key_area_title_key() {
    let mut header_key = [0u8; 32];
    for (i, b) in header_key.iter_mut().enumerate() {
        *b = (i as u8).wrapping_mul(13).wrapping_add(5);
    }
    let master_key = [0x4Du8; 16];
    let kek_gen = [0x01u8; 16];
    let key_gen = [0x02u8; 16];
    let titlekek_src = [0x03u8; 16];
    let kak_src = [0x04u8; 16];

    let keys_text = format!(
        "header_key = {}\naes_kek_generation_source = {}\naes_key_generation_source = {}\ntitlekek_source = {}\nkey_area_key_application_source = {}\nmaster_key_00 = {}\n",
        hex_of(&header_key),
        hex_of(&kek_gen),
        hex_of(&key_gen),
        hex_of(&titlekek_src),
        hex_of(&kak_src),
        hex_of(&master_key),
    );
    let keyset = nsz_rs::container::nca::NcaKeySet::from_keys_str(&keys_text).unwrap();

    let mut plain = plain_header(0x00, 0x2000);
    // An encrypted key block whose third 16-byte word is the wrapped key.
    for (i, b) in plain[0x300..0x340].iter_mut().enumerate() {
        *b = (i as u8).wrapping_mul(3).wrapping_add(1);
    }
    let encrypted_header =
        nsz_rs::crypto::xts::encrypt_nca_header_xts(&plain, &header_key).unwrap();
    let mut nca = encrypted_header;
    nca.resize(0x6000, 0xCD);

    let plan = nsz_rs::container::nca::build_compression_plan(&nca, &keyset, &[]).unwrap();
    assert_eq!(plan.offset_first_section, 0x4000);
    assert!(plan.meta.is_compressible());
    assert_eq!(plan.sections.len(), 1);
    assert_eq!(plan.sections[0].offset, 0x4000);
    assert_eq!(plan.sections[0].size, 0x2000);
    assert_eq!(plan.sections[0].crypto_type, 0);

    // The resolved key must equal the chain computed independently:
    // kak = dec(dec(dec(master, kek_gen), kak_src), key_gen);
    // title key = dec(kak, key_block[0x20..0x30]).
    fn ecb_dec(key: &[u8; 16], block: &[u8; 16]) -> [u8; 16] {
        let cipher = Aes128::new_from_slice(key).unwrap();
        let mut b = aes::Block::default();
        b.copy_from_slice(block);
        cipher.decrypt_block(&mut b);
        b.into()
    }
    let k1 = ecb_dec(&master_key, &kek_gen);
    let k2 = ecb_dec(&k1, &kak_src);
    let kak = ecb_dec(&k2, &key_gen);
    let mut wrapped = [0u8; 16];
    wrapped.copy_from_slice(&plain[0x320..0x330]);
    let expected_title_key = ecb_dec(&kak, &wrapped);
    assert_eq!(plan.sections[0].crypto_key, expected_title_key);
}

#[test]
fn nca_keyset_rejects_invalid_master_hex() {
    let keys_text = "\
header_key = 0000000000000000000000000000000000000000000000000000000000000000\n\
aes_kek_generation_source = 00000000000000000000000000000000\n\
aes_key_generation_source = 00000000000000000000000000000000\n\
titlekek_source = 00000000000000000000000000000000\n\
key_area_key_application_source = 00000000000000000000000000000000\n\
master_key_00 = zz\n";
    assert!(nsz_rs::container::nca::NcaKeySet::from_keys_str(keys_text).is_err());
}

#[test]
fn nca_ticket_parses_fields() {
    // Signature type 0x010004: 0x100-byte signature, base 0x140.
    let mut tik = vec![0u8; 0x140 + 0x174];
    tik[0..4].copy_from_slice(&0x010004u32.to_le_bytes());
    for (i, b) in tik[0x180..0x190].iter_mut().enumerate() {
        *b = 0xA0 + i as u8;
    }
    for (i, b) in tik[0x2A0..0x2B0].iter_mut().enumerate() {
        *b = 0xB0 + i as u8;
    }
    tik[0x285] = 0;
    tik[0x286] = 9;
    let ticket = nsz_rs::container::nca::parse_ticket_record(&tik).unwrap();
    assert_eq!(ticket.encrypted_title_key[0], 0xA0);
    assert_eq!(ticket.rights_id[0], 0xB0);
    assert_eq!(ticket.master_key_revision, 9);
}

#[test]
fn nca_ticket_rejects_unknown_signature() {
    let mut tik = vec![0u8; 0x400];
    tik[0..4].copy_from_slice(&0x020000u32.to_le_bytes());
    assert!(nsz_rs::container::nca::parse_ticket_record(&tik).is_err());
}
