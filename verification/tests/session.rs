use double_compresso::session::{is_wanted_device, ScanPhase, ScanSession};

#[test]
fn session_without_adapter_cannot_connect() {
    let mut s = ScanSession::new(None);
    assert!(!s.is_scanning());
    assert!(s.begin_connect().is_err());
    assert!(!s.is_scanning());
}

#[test]
fn failed_connection_resumes_scan() {
    let mut s = ScanSession::new(Some(2));
    assert!(s.is_scanning());
    assert_eq!(s.begin_connect().unwrap(), 2);
    assert!(!s.is_scanning());
    assert_eq!(s.connect_failed(), 2);
    assert!(s.is_scanning());
    assert_eq!(s.begin_connect().unwrap(), 2);
    let _ = ScanPhase::Scanning(2);
}

#[test]
fn wanted_device_filter() {
    assert!(is_wanted_device(None, 5));
    assert!(is_wanted_device(Some(5), 5));
    assert!(!is_wanted_device(Some(4), 5));
}
