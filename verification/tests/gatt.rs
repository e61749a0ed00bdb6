use double_compresso::gatt::{
    has_fw_service, u128_from_le_bytes, uuid, uuid_from_bytes, GATT_CHAR_FW_VER,
    GATT_CHAR_FW_VER_VALUE, GATT_SERVICE_FW, GATT_SERVICE_FW_VALUE,
};
use uuid::Uuid;

#[test]
fn uuid_is_little_endian() {
    let bytes = uuid(0x0102_0304_0506_0708_090a_0b0c_0d0e_0f10);
    assert_eq!(
        bytes,
        [0x10, 0x0f, 0x0e, 0x0d, 0x0c, 0x0b, 0x0a, 0x09, 0x08, 0x07, 0x06, 0x05, 0x04, 0x03, 0x02, 0x01]
    );
    assert_eq!(uuid(0), [0u8; 16]);
    assert_eq!(uuid(u128::MAX), [0xffu8; 16]);
}

#[test]
fn gatt_constants_encode_their_values() {
    assert_eq!(uuid(0x6c5d6994_9333_46b5_8c8e_8cefab9effff), GATT_SERVICE_FW);
    assert_eq!(uuid(0x6c5d6994_9333_46b5_8c8e_8cefab9e0000), GATT_CHAR_FW_VER);
    assert_eq!(u128_from_le_bytes(GATT_SERVICE_FW), GATT_SERVICE_FW_VALUE);
    assert_eq!(u128_from_le_bytes(GATT_CHAR_FW_VER), GATT_CHAR_FW_VER_VALUE);
}

#[test]
fn le_bytes_roundtrip() {
    for v in [0u128, 1, 255, 256, 0xdead_beef, u128::MAX, 1 << 127] {
        assert_eq!(u128_from_le_bytes(uuid(v)), v);
        assert_eq!(u128_from_le_bytes(uuid(v)).to_le_bytes(), uuid(v));
    }
    let bytes = [7u8, 0, 0, 0, 0, 0, 0, 0, 0, 0, 0, 0, 0, 0, 0, 9];
    assert_eq!(uuid(u128_from_le_bytes(bytes)), bytes);
    assert_eq!(u128_from_le_bytes(bytes), (9u128 << 120) + 7);
}

#[test]
fn uuid_from_bytes_reads_little_endian() {
    let id = uuid_from_bytes(GATT_SERVICE_FW);
    assert_eq!(id, Uuid::from_u128(0x6c5d6994_9333_46b5_8c8e_8cefab9effff));
    assert_eq!(id.to_string(), "6c5d6994-9333-46b5-8c8e-8cefab9effff");
    assert_ne!(uuid_from_bytes(GATT_CHAR_FW_VER), id);
}

#[test]
fn fw_service_is_recognised() {
    let fw = Uuid::from_u128(GATT_SERVICE_FW_VALUE);
    let other = Uuid::from_u128(GATT_CHAR_FW_VER_VALUE);
    assert!(has_fw_service(&vec![other, fw]));
    assert!(has_fw_service(&vec![fw]));
    assert!(!has_fw_service(&vec![other]));
    assert!(!has_fw_service(&vec![]));
}
