use lrgex_compress::update::{
    download_url, is_machine_wide_install, launch_failure_text, launch_plan, update_prompt, LaunchPlan,
    check_manifest_signature, check_stamp, checked_recently, declined_record_text, is_newer,
    is_update_declined, offer_update, verify_signature, vet_installer, HexError,
    InstallerRejection, ManifestRejection, SignatureError, DECLINE_EXPIRY_SECS,
};

#[test]
fn is_newer_version_compare() {
    assert!(is_newer("1.5.1", "1.4.4"));
    assert!(is_newer("2.0.0", "1.9.9"));
    assert!(!is_newer("1.5.1", "1.5.1"));
    assert!(!is_newer("1.4.4", "1.5.1"));
}

// ─── further cases ────────────────────────────────────────────────────────

#[test]
fn versions_pad_with_zero_and_skip_junk() {
    assert!(is_newer("1.5.0.1", "1.5"));
    assert!(!is_newer("1.5.0", "1.5"));
    assert!(!is_newer("1.5", "1.5.0"));
    assert!(is_newer("1.x.6", "1.5"));
    assert!(is_newer("10.0", "9.99"));
    assert!(!is_newer("", "0.0.0"));
    assert!(is_newer("+2", "1"));
}

#[test]
fn declined_update_roundtrip() {
    let now = 1_700_000_000u64;
    assert!(!is_update_declined(None, "1.5.1", now));
    let rec = declined_record_text("1.5.1", now);
    assert_eq!(rec, "1.5.1\n1700000000");
    assert!(is_update_declined(Some(&rec), "1.5.1", now));
    assert!(!is_update_declined(Some(&rec), "1.5.2", now));
    // Declining a newer version replaces the record.
    let rec2 = declined_record_text("1.5.2", now);
    assert!(!is_update_declined(Some(&rec2), "1.5.1", now));
    assert!(is_update_declined(Some(&rec2), "1.5.2", now));
    assert!(is_update_declined(Some(&rec), "1.5.1", now + DECLINE_EXPIRY_SECS - 1));
    assert!(!is_update_declined(Some(&rec), "1.5.1", now + DECLINE_EXPIRY_SECS));
    // A record time in the future counts as now.
    assert!(is_update_declined(Some(&rec), "1.5.1", now - 5));
    // Whitespace around the record is ignored; an unreadable time counts as 0.
    assert!(is_update_declined(Some("  1.5.1\n1700000000\n"), "1.5.1", now));
    assert!(!is_update_declined(Some("1.5.1\nsoon"), "1.5.1", now));
    assert!(is_update_declined(Some("1.5.1\nsoon"), "1.5.1", DECLINE_EXPIRY_SECS - 1));
}

#[test]
fn check_throttle_is_one_day() {
    let t = 1_000_000u64;
    let stamp = check_stamp(t);
    assert_eq!(stamp, "1000000");
    assert!(checked_recently(&stamp, t));
    assert!(checked_recently(&stamp, t + 86399));
    assert!(!checked_recently(&stamp, t + 86400));
    assert!(checked_recently(" 1000000\r\n", t + 10));
    assert!(!checked_recently("garbage", t));
    assert!(!checked_recently("", t));
}

#[test]
fn offer_requires_newer_signed_and_not_declined() {
    let now = 5_000_000u64;
    let o = offer_update("1.8.0".into(), "https://x/setup.exe".into(), Some("ab".into()), "1.7.2", None, now);
    let info = o.unwrap();
    assert_eq!(info.version, "1.8.0");
    assert_eq!(info.url(), "https://x/setup.exe");
    assert_eq!(info.signature(), Some("ab"));
    assert!(offer_update("1.7.2".into(), "u".into(), Some("ab".into()), "1.7.2", None, now).is_none());
    assert!(offer_update("1.8.0".into(), "u".into(), None, "1.7.2", None, now).is_none());
    assert!(offer_update("1.8.0".into(), "u".into(), Some(String::new()), "1.7.2", None, now).is_none());
    let rec = declined_record_text("1.8.0", now);
    assert!(offer_update("1.8.0".into(), "u".into(), Some("ab".into()), "1.7.2", Some(&rec), now).is_none());
    assert!(offer_update("1.9.0".into(), "u".into(), Some("ab".into()), "1.7.2", Some(&rec), now).is_some());
}

const TEST_KEY_HEX: &str = "d75a980182b10ab7d54bfed3c964073a0ee172f3daa62325af021a68f707511a";
const TEST_SIG_HEX: &str = "e5564300c360ac729086e2cc806e828a84877f1eb8e5d974d873e065224901555fb8821590a33bacc61e39701cf9b46bd25bf5f0595bbe24655141438e7a100b";

#[test]
fn signature_checks_in_order() {
    // RFC 8032 test vector 1: empty message.
    assert_eq!(verify_signature(b"", TEST_SIG_HEX, TEST_KEY_HEX), Ok(()));
    assert_eq!(
        verify_signature(b"x", TEST_SIG_HEX, TEST_KEY_HEX),
        Err(SignatureError::InvalidSignature)
    );
    assert_eq!(
        verify_signature(b"", TEST_SIG_HEX, &format!("  {}\n", TEST_KEY_HEX)),
        Ok(())
    );
    assert_eq!(
        verify_signature(b"", TEST_SIG_HEX, "abc"),
        Err(SignatureError::BadPublicKeyHex(HexError::OddLength))
    );
    assert_eq!(
        verify_signature(b"", TEST_SIG_HEX, "zz"),
        Err(SignatureError::BadPublicKeyHex(HexError::InvalidHexCharacter { c: 'z', index: 0 }))
    );
    assert_eq!(
        verify_signature(b"", TEST_SIG_HEX, "abcd"),
        Err(SignatureError::BadPublicKeyLength(2))
    );
    assert_eq!(
        verify_signature(b"", "0g", TEST_KEY_HEX),
        Err(SignatureError::BadSignatureFormat(HexError::InvalidHexCharacter { c: 'g', index: 1 }))
    );
    assert_eq!(
        verify_signature(b"", "00ff", TEST_KEY_HEX),
        Err(SignatureError::BadSignatureLength(2))
    );
}

#[test]
fn manifest_signature_file_is_trimmed() {
    let sig_file = format!("{}\r\n", TEST_SIG_HEX);
    assert_eq!(check_manifest_signature(b"", sig_file.as_bytes(), TEST_KEY_HEX), Ok(()));
    assert_eq!(
        check_manifest_signature(b"", b" \n", TEST_KEY_HEX),
        Err(ManifestRejection::EmptySignature)
    );
    assert_eq!(
        check_manifest_signature(b"{}", sig_file.as_bytes(), TEST_KEY_HEX),
        Err(ManifestRejection::BadSignature(SignatureError::InvalidSignature))
    );
}

#[test]
fn installer_size_and_signature_gates() {
    let small = vec![0u8; 10];
    assert_eq!(
        vet_installer(&small, &Some(TEST_SIG_HEX.to_string()), TEST_KEY_HEX),
        Err(InstallerRejection::TooSmall(10))
    );
    let huge = vec![0u8; 104857600];
    assert_eq!(
        vet_installer(&huge, &Some(TEST_SIG_HEX.to_string()), TEST_KEY_HEX),
        Err(InstallerRejection::TooLarge)
    );
    let ok_size = vec![7u8; 1_000_000];
    assert_eq!(vet_installer(&ok_size, &None, TEST_KEY_HEX), Err(InstallerRejection::NoSignature));
    assert_eq!(
        vet_installer(&ok_size, &Some(String::new()), TEST_KEY_HEX),
        Err(InstallerRejection::EmptySignature)
    );
    assert_eq!(
        vet_installer(&ok_size, &Some(TEST_SIG_HEX.to_string()), TEST_KEY_HEX),
        Err(InstallerRejection::BadSignature(SignatureError::InvalidSignature))
    );
}

#[test]
fn installer_launch_decisions() {
    let roots = vec!["C:\\Program Files".to_string(), "C:\\Program Files (x86)".to_string()];
    assert!(is_machine_wide_install("c:\\program files\\LRGEX\\lrgex-compress.exe", &roots));
    assert!(!is_machine_wide_install("C:\\Users\\me\\AppData\\lrgex-compress.exe", &roots));
    assert!(!is_machine_wide_install("C:\\Program Files\\x.exe", &Vec::new()));
    assert_eq!(launch_plan(true, false), LaunchPlan::RunAs);
    assert_eq!(launch_plan(true, true), LaunchPlan::Direct);
    assert_eq!(launch_plan(false, false), LaunchPlan::Direct);
    assert!(launch_failure_text(true, 1223).starts_with("Update was cancelled"));
    assert!(launch_failure_text(true, 5).starts_with("The update couldn't be launched"));
    assert!(launch_failure_text(false, 1223).starts_with("The update couldn't be launched"));
    assert_eq!(download_url("https://x/setup.exe", "1.8.0"), "https://x/setup.exe?v=1.8.0");
    assert_eq!(update_prompt("1.8.0", "1.7.2"), "Version 1.8.0 is available (you have v1.7.2).\n\nUpdate now?");
}
