use double_compresso::address::{address_bytes, address_key, ADDRESS_KEYS};

#[test]
fn address_key_is_big_endian() {
    assert_eq!(address_key([0x01, 0x02, 0x03, 0x04, 0x05, 0x06]), 0x0102_0304_0506);
    assert_eq!(address_key([0; 6]), 0);
    assert_eq!(address_key([0xff; 6]), ADDRESS_KEYS - 1);
}

#[test]
fn address_key_roundtrip() {
    let bytes = [0xaa, 0xbb, 0xcc, 0x00, 0x11, 0x22];
    assert_eq!(address_bytes(address_key(bytes)), bytes);
    assert_eq!(address_key(address_bytes(0x1234_5678_9abc)), 0x1234_5678_9abc);
}

#[test]
fn address_keys_order_like_addresses() {
    let a = [0x00, 0xff, 0xff, 0xff, 0xff, 0xff];
    let b = [0x01, 0x00, 0x00, 0x00, 0x00, 0x00];
    assert!(a < b);
    assert!(address_key(a) < address_key(b));
    let c = [0x01, 0x00, 0x00, 0x00, 0x00, 0x01];
    assert!(b < c && address_key(b) < address_key(c));
}
