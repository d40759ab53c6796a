use stori::error::AppError;
use stori::server::{
    admin, authorize_request, bearer, device_name, library_fingerprint, pair_device, pairing_code_text,
    rate_limit_pairing, token_verdict, urls, LibraryMonitor, PairingCodes, MAX_PAIRING_ATTEMPTS,
};

#[test]
fn reads_bearer_tokens() {
    assert_eq!(bearer(Some("Bearer abc"), Some("q")).as_deref(), Some("abc"));
    assert_eq!(bearer(Some("Basic abc"), Some("q")).as_deref(), Some("q"));
    assert_eq!(bearer(None, Some("q")).as_deref(), Some("q"));
    assert_eq!(bearer(None, None), None);
    assert_eq!(bearer(Some("Bearer "), None).as_deref(), Some(""));
}

#[test]
fn authorizes_local_requests_and_paired_tokens() {
    assert_eq!(authorize_request(true, None, None).unwrap(), None);
    assert_eq!(authorize_request(false, Some("Bearer t"), None).unwrap().as_deref(), Some("t"));
    assert!(matches!(authorize_request(false, None, None), Err(AppError::Unauthorized)));
    assert!(token_verdict(true).is_ok());
    assert!(matches!(token_verdict(false), Err(AppError::Unauthorized)));
    assert!(admin(true).is_ok());
    assert!(matches!(admin(false), Err(AppError::Unauthorized)));
}

#[test]
fn limits_pairing_attempts_per_window() {
    let mut attempts = Vec::new();
    for i in 0..MAX_PAIRING_ATTEMPTS as u64 {
        assert!(rate_limit_pairing(&mut attempts, 1_000 + i).is_ok());
    }
    match rate_limit_pairing(&mut attempts, 2_000) {
        Err(AppError::BadRequest(m)) => assert_eq!(m, "Too many pairing attempts. Wait five minutes and try again."),
        other => panic!("unexpected {other:?}"),
    }
    assert_eq!(attempts.len(), MAX_PAIRING_ATTEMPTS);
    assert!(rate_limit_pairing(&mut attempts, 1_000 + 300_000).is_ok());
    assert_eq!(attempts.len(), MAX_PAIRING_ATTEMPTS);
    assert!(rate_limit_pairing(&mut attempts, 10_000_000).is_ok());
    assert_eq!(attempts, vec![10_000_000]);
}

#[test]
fn pairing_codes_have_six_digits_and_work_once() {
    assert_eq!(pairing_code_text(42), "000042");
    assert_eq!(pairing_code_text(999_999), "999999");
    let mut codes = PairingCodes::new();
    let code = codes.issue(1_000);
    assert_eq!(code.len(), 6);
    assert!(code.chars().all(|c| c.is_ascii_digit()));
    assert!(codes.redeem(&code, 2_000));
    assert!(!codes.redeem(&code, 2_000));
}

#[test]
fn pairing_codes_expire_after_ten_minutes() {
    let mut codes = PairingCodes::new();
    codes.issue_code("123456".to_string(), 0);
    assert!(!codes.redeem("123456", 600_000));
    codes.issue_code("123456".to_string(), 0);
    codes.issue_code("654321".to_string(), 599_999);
    assert!(codes.redeem("654321", 600_000));
    assert!(codes.redeem("123456", 1));
    assert!(!codes.redeem("123456", 1));
}

#[test]
fn pairs_a_device_with_a_fresh_token() {
    let mut attempts = Vec::new();
    let mut codes = PairingCodes::new();
    codes.issue_code("111111".to_string(), 0);
    let (token, name) = pair_device(&mut attempts, &mut codes, "111111", 10, Some("  Kitchen iPad ")).unwrap();
    assert_eq!(token.len(), 36);
    assert_eq!(name, "Kitchen iPad");
    match pair_device(&mut attempts, &mut codes, "111111", 20, None) {
        Err(AppError::BadRequest(m)) => assert_eq!(m, "Pairing code is invalid or expired"),
        other => panic!("unexpected {other:?}"),
    }
    assert_eq!(attempts.len(), 2);
}

#[test]
fn names_paired_devices() {
    assert_eq!(device_name(None), "iPhone / Safari");
    assert_eq!(device_name(Some("   ")), "iPhone / Safari");
    assert_eq!(device_name(Some(" Phone ")), "Phone");
    assert_eq!(device_name(Some(&"n".repeat(100))).chars().count(), 80);
}

#[test]
fn offers_the_hotspot_address_first() {
    let interfaces = vec![
        ("eth0".to_string(), [10, 0, 0, 5]),
        ("lo".to_string(), [127, 0, 0, 1]),
        ("public".to_string(), [8, 8, 8, 8]),
        ("hotspot".to_string(), [192, 168, 137, 1]),
        ("lan".to_string(), [172, 16, 3, 4]),
    ];
    let rows = urls(&interfaces);
    let listed: Vec<(String, String, bool)> = rows.into_iter().map(|r| (r.url, r.label, r.recommended)).collect();
    assert_eq!(listed, vec![
        ("http://192.168.137.1:1822".to_string(), "Windows Hotspot / Recommended".to_string(), true),
        ("http://127.0.0.1:1822".to_string(), "This PC".to_string(), false),
        ("http://10.0.0.5:1822".to_string(), "eth0".to_string(), false),
        ("http://172.16.3.4:1822".to_string(), "lan".to_string(), false),
    ]);
}

#[test]
fn fingerprints_libraries_and_rescans_on_change() {
    let files = vec![
        (Some("EPUB".to_string()), Some(50)),
        (Some("txt".to_string()), Some(90)),
        (Some("jpg".to_string()), Some(70)),
        (None, Some(99)),
        (Some("pdf".to_string()), None),
    ];
    assert_eq!(library_fingerprint(&files), (3, 70));
    let mut monitor = LibraryMonitor::new();
    assert!(!monitor.observe(1, (3, 70)));
    assert!(!monitor.observe(1, (3, 70)));
    assert!(monitor.observe(1, (4, 70)));
    assert!(!monitor.observe(2, (4, 70)));
    assert!(!monitor.observe(1, (4, 70)));
}
