use stream_clipper::license::{
    _c, _d, _e, _f, _k, activate_license, calc_checksum, check_pro_feature, deactivate_license,
    generate_valid_key, requires_pro, runtime_license_check, validate_license_key, LicenseInfo,
};

#[test]
fn test_key_format() {
    assert!(_f("ABCDE-12345-FGHIJ-67890"));
    assert!(!_f("ABCDE-12345-FGHIJ"));
    assert!(!_f("abcde-12345-fghij-67890"));
}

#[test]
fn test_encryption_roundtrip() {
    let data = b"test license data";
    let key = _k("test-machine");
    let encrypted = _e(data, &key);
    let decrypted = _d(&encrypted, &key).unwrap();
    assert_eq!(data.to_vec(), decrypted);
}

#[test]
fn test_generate_and_validate_key() {
    for prefix in ["SCPR", "STRM", "CLIP", "PRO1"] {
        let key = generate_valid_key(prefix);
        println!("Generated key ({}): {}", prefix, key);
        assert!(validate_license_key(&key).is_ok(), "Key should be valid: {}", key);
    }
}

#[test]
fn test_validate_rejects_bad_checksum() {
    // Right shape and prefix, checksum almost surely wrong.
    let r = validate_license_key("SCPRA-AAAAA-AAAAA-A0000");
    assert!(r.is_err());
    assert_eq!(r.unwrap_err(), "License validation failed");
}

#[test]
fn test_checksum_is_stable_and_position_sensitive() {
    let a = calc_checksum("SCPRAAAAAAAAAAAA");
    let b = calc_checksum("SCPRAAAAAAAAAAAA");
    assert_eq!(a, b);
    assert_eq!(a.len(), 4);
    let c = calc_checksum("SCPRAAAAAAAAAAAB");
    assert_ne!(a, c);
}

#[test]
fn test_crypt_rejects_tampering() {
    let key = _k("machine-a");
    let mut enc = _e(b"payload here", &key);
    let n = enc.len();
    enc[n - 5] ^= 0x01;
    assert!(_d(&enc, &key).is_none());
    // Too short to carry header and checksum.
    assert!(_d(&[0u8; 8], &key).is_none());
}

#[test]
fn test_checksum_truncation() {
    let key = _k("m");
    let enc = _e(b"abcd", &key);
    let c = _c(&enc[..enc.len() - 4]);
    let tail = &enc[enc.len() - 4..];
    assert_eq!(c.to_le_bytes().to_vec(), tail.to_vec());
}

#[test]
fn test_requires_pro_features() {
    assert!(requires_pro("chat_detection"));
    assert!(requires_pro("webm_format"));
    assert!(requires_pro("no_watermark"));
    assert!(!requires_pro("audio_detection"));
    assert!(!requires_pro(""));
}

#[test]
fn test_runtime_check_free_license() {
    let l = LicenseInfo::default();
    assert!(!runtime_license_check(&l, "machine"));
    let e = check_pro_feature("chat_detection", &l, "machine").unwrap_err();
    assert_eq!(e, "chat_detection requires Pro");
}

#[test]
fn test_activate_and_deactivate() {
    let key = generate_valid_key("PRO1");
    let l = activate_license(&key, "this-machine").unwrap();
    assert!(l.is_pro);
    assert_eq!(l.license_key.as_deref(), Some(key.as_str()));
    assert!(l.activated_at.is_some());
    assert_eq!(l.machine_id, "this-machine");
    assert!(runtime_license_check(&l, "this-machine"));
    assert!(!runtime_license_check(&l, "other-machine"));

    let off = deactivate_license();
    assert!(!off.is_pro);
    assert!(off.license_key.is_none());
    assert!(off.activated_at.is_none());
}

#[test]
fn test_activate_rejects_bad_key() {
    let r = activate_license("AAAAA-AAAAA-AAAAA-AAAAA", "m");
    assert!(r.is_err());
    assert_eq!(r.unwrap_err(), "License validation failed");
}
