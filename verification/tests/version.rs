use double_compresso::version::{parse_u8, parse_version, VersionError};

#[test]
fn parses_four_values() {
    let v = parse_version(b"0,double-compresso,0.1.0,3").unwrap();
    assert_eq!(v.ota_ver, 0);
    assert_eq!(v.fw_name, "double-compresso");
    assert_eq!(v.fw_ver, "0.1.0");
    assert_eq!(v.proto_ver, 3);
}

#[test]
fn keeps_empty_and_unicode_strings() {
    let v = parse_version("+12,,ünï,255".as_bytes()).unwrap();
    assert_eq!(v.ota_ver, 12);
    assert_eq!(v.fw_name, "");
    assert_eq!(v.fw_ver, "ünï");
    assert_eq!(v.proto_ver, 255);
}

#[test]
fn errors() {
    assert_eq!(parse_version(&[0xff, 0x2c]).unwrap_err(), VersionError::InvalidUtf8);
    assert_eq!(parse_version(b"").unwrap_err(), VersionError::InvalidNumber);
    assert_eq!(parse_version(b"1").unwrap_err(), VersionError::NotEnoughValues);
    assert_eq!(parse_version(b"1,a,b").unwrap_err(), VersionError::NotEnoughValues);
    assert_eq!(parse_version(b"x,a,b").unwrap_err(), VersionError::InvalidNumber);
    assert_eq!(parse_version(b"1,a,b,256").unwrap_err(), VersionError::InvalidNumber);
    assert_eq!(parse_version(b"1,a,b,2,").unwrap_err(), VersionError::TooManyValues);
    assert_eq!(parse_version(b"1,a,b,x,y").unwrap_err(), VersionError::InvalidNumber);
    assert_eq!(parse_version(b"256,a,b,1").unwrap_err(), VersionError::InvalidNumber);
}

#[test]
fn u8_parsing_matches_std() {
    for text in [
        "", "0", "7", "+7", "+", "-", "-0", "++1", "255", "256", "0255", "00000000000000001", "1a", " 1",
        "99999999999999999999", "25", "250", "259",
    ] {
        assert_eq!(parse_u8(text.as_bytes()), text.parse::<u8>().ok(), "{:?}", text);
    }
}
