#[test]
fn key_loader_checks_required_entries() {
    let err = nsz_rs::crypto::keys::load_from_str("master_key_00 = 00").unwrap_err();
    assert!(err.message().contains("aes_kek_generation_source"));
}

#[test]
fn key_loader_accepts_complete_files() {
    let content = "\
aes_kek_generation_source = 00\n\
aes_key_generation_source = 01\n\
titlekek_source = 02\n\
key_area_key_application_source = 03\n\
key_area_key_ocean_source = 04\n\
key_area_key_system_source = 05\n";
    let keys = nsz_rs::crypto::keys::load_from_str(content).unwrap();
    assert_eq!(keys.values.len(), 6);
    assert_eq!(keys.values[0].0, "aes_kek_generation_source");
    assert_eq!(keys.values[0].1, "00");
}
