//! GATT identifiers shared with the firmware, and the little-endian byte
//! layout in which they are exchanged.

use vstd::prelude::*;
use vstd::arithmetic::power::pow;
use ::uuid::Uuid;

verus! {

/// The number that `bytes` denote when read in little-endian order:
/// `bytes[0]` is the least significant byte.
pub open spec fn le_value(bytes: Seq<u8>) -> nat
    decreases bytes.len(),
{
    if bytes.len() == 0 {
        0
    } else {
        bytes[0] as nat + 256 * le_value(bytes.skip(1))
    }
}

/// Appending a byte adds it at the next power of 256.
pub proof fn lemma_le_value_push(bytes: Seq<u8>, b: u8)
    ensures
        le_value(bytes.push(b)) == le_value(bytes) + pow(256, bytes.len()) * b,
    decreases bytes.len(),
{
    reveal(pow);
    let pushed = bytes.push(b);
    if bytes.len() == 0 {
        assert(pushed.skip(1) =~= Seq::<u8>::empty());
        assert(le_value(Seq::<u8>::empty()) == 0);
        assert(le_value(pushed) == pushed[0] as nat + 256 * le_value(pushed.skip(1)));
        assert(pow(256, 0) == 1);
    } else {
        let tail = bytes.skip(1);
        assert(pushed.skip(1) =~= tail.push(b));
        lemma_le_value_push(tail, b);
        let p = pow(256, tail.len());
        assert(pow(256, bytes.len()) == 256 * p);
        assert(le_value(pushed) == bytes[0] as nat + 256 * le_value(tail.push(b)));
        assert(256 * (le_value(tail) + p * b) == 256 * le_value(tail) + (256 * p) * b)
            by (nonlinear_arith);
    }
}

/// Two byte strings of the same length that denote the same number are equal.
pub proof fn lemma_le_value_injective(a: Seq<u8>, b: Seq<u8>)
    requires
        a.len() == b.len(),
        le_value(a) == le_value(b),
    ensures
        a == b,
    decreases a.len(),
{
    if a.len() > 0 {
        let (x, y) = (le_value(a.skip(1)), le_value(b.skip(1)));
        let (a0, b0) = (a[0] as int, b[0] as int);
        assert(a0 == b0 && x == y) by (nonlinear_arith)
            requires
                a0 + 256 * x == b0 + 256 * y,
                0 <= a0 < 256,
                0 <= b0 < 256,
                x >= 0,
                y >= 0,
        ;
        lemma_le_value_injective(a.skip(1), b.skip(1));
        assert(a =~= seq![a[0]] + a.skip(1));
        assert(b =~= seq![b[0]] + b.skip(1));
    }
}

/// Sixteen bytes span exactly the range of `u128`.
pub proof fn lemma_pow_256_16()
    ensures
        pow(256, 16) == u128::MAX + 1,
{
    reveal_with_fuel(pow, 17);
}

/// The 16 bytes of `value` in little-endian order.
pub fn uuid(value: u128) -> (bytes: [u8; 16])
    ensures
        le_value(bytes@) == value,
{
    let mut bytes = [0u8; 16];
    let mut rest = value;
    let mut i: usize = 0;
    proof {
        reveal(pow);
        assert(bytes@.take(0) =~= Seq::<u8>::empty());
    }
    while i < 16
        invariant
            i <= 16,
            bytes@.len() == 16,
            value == le_value(bytes@.take(i as int)) + pow(256, i as nat) * rest,
        decreases 16 - i,
    {
        let byte = (rest % 256) as u8;
        let ghost prefix = bytes@.take(i as int);
        let ghost old_rest = rest;
        bytes[i] = byte;
        rest = rest / 256;
        proof {
            assert(bytes@.take(i + 1) =~= prefix.push(byte));
            lemma_le_value_push(prefix, byte);
            reveal(pow);
            let p = pow(256, i as nat);
            assert(pow(256, (i + 1) as nat) == 256 * p);
            assert(p * old_rest == p * byte + (256 * p) * rest) by (nonlinear_arith)
                requires
                    old_rest == 256 * rest + byte,
            ;
        }
        i = i + 1;
    }
    proof {
        assert(bytes@.take(16) =~= bytes@);
        lemma_pow_256_16();
        let p = pow(256, 16);
        assert(p * rest == 0) by (nonlinear_arith)
            requires
                value == le_value(bytes@) + p * rest,
                value < p,
                rest >= 0,
        ;
    }
    bytes
}

/// The number that `bytes` denote in little-endian order (what
/// `u128::from_le_bytes` computes).
pub fn u128_from_le_bytes(bytes: [u8; 16]) -> (value: u128)
    ensures
        value == le_value(bytes@),
{
    let mut value: u128 = 0;
    let mut i: usize = 16;
    proof {
        reveal(pow);
        assert(bytes@.skip(16) =~= Seq::<u8>::empty());
    }
    while i > 0
        invariant
            i <= 16,
            bytes@.len() == 16,
            value == le_value(bytes@.skip(i as int)),
            value < pow(256, (16 - i) as nat),
        decreases i,
    {
        i = i - 1;
        let byte = bytes[i];
        proof {
            assert(bytes@.skip(i as int).skip(1) =~= bytes@.skip(i + 1));
            assert(bytes@.skip(i as int)[0] == byte);
            reveal(pow);
            let p = pow(256, (16 - (i + 1)) as nat);
            assert(pow(256, (16 - i) as nat) == 256 * p);
            lemma_pow_256_16();
            vstd::arithmetic::power::lemma_pow_increases(256, (16 - i) as nat, 16);
            assert(byte + 256 * value < 256 * p) by (nonlinear_arith)
                requires
                    value < p,
                    byte < 256,
            ;
        }
        value = byte as u128 + 256 * value;
    }
    proof {
        assert(bytes@.skip(0) =~= bytes@);
    }
    value
}

/// Little-endian encoding and decoding undo each other: the bytes that
/// `uuid` produces for a number decode to that number (its `ensures`), and
/// two 16-byte strings that decode to the same number are the same, so
/// encoding the decoded value of a byte string gives that byte string back.
pub proof fn lemma_le_bytes_roundtrip(a: [u8; 16], b: [u8; 16])
    requires
        le_value(a@) == le_value(b@),
    ensures
        a == b,
{
    lemma_le_value_injective(a@, b@);
    assert(a =~= b);
}

/// Firmware version information and OTA update service.
/// Use this UUID to search for compatible devices.
pub const GATT_SERVICE_FW: [u8; 16] = [
    0xff, 0xff, 0x9e, 0xab, 0xef, 0x8c, 0x8e, 0x8c, 0xb5, 0x46, 0x33, 0x93, 0x94, 0x69, 0x5d, 0x6c,
];

/// The number that `GATT_SERVICE_FW` encodes.
pub const GATT_SERVICE_FW_VALUE: u128 = 0x6c5d6994_9333_46b5_8c8e_8cefab9effff;

/// Firmware version information and supported protocols.
/// A string consisting of comma-separated values: `$OTA,$FW,$PROTO`.
/// The values are:
/// - `$OTA`: OTA update and version info protocol version, unsigned integer.
/// - `$FW`: Firmware version, semver string.
/// - `$PROTO`: Control and data protocol version, unsigned integer.
///
/// The firmware version descriptor that the client reads (see
/// `crate::version`) splits `$FW` into a firmware name and a version, so it
/// holds four values.
pub const GATT_CHAR_FW_VER: [u8; 16] = [
    0x00, 0x00, 0x9e, 0xab, 0xef, 0x8c, 0x8e, 0x8c, 0xb5, 0x46, 0x33, 0x93, 0x94, 0x69, 0x5d, 0x6c,
];

/// The number that `GATT_CHAR_FW_VER` encodes.
pub const GATT_CHAR_FW_VER_VALUE: u128 = 0x6c5d6994_9333_46b5_8c8e_8cefab9e0000;

/// Current OTA update and version info protocol version.
pub const CUR_OTA_VER: u8 = 0;

/// Current control and data protocol version.
pub const CUR_PROTO_VER: u8 = 0;

/// The byte constants hold the little-endian encodings of their numbers.
pub proof fn lemma_gatt_constants()
    ensures
        le_value(GATT_SERVICE_FW@) == GATT_SERVICE_FW_VALUE,
        le_value(GATT_CHAR_FW_VER@) == GATT_CHAR_FW_VER_VALUE,
{
    reveal_with_fuel(le_value, 17);
    assert(le_value(GATT_SERVICE_FW@) == GATT_SERVICE_FW_VALUE);
    assert(le_value(GATT_CHAR_FW_VER@) == GATT_CHAR_FW_VER_VALUE);
}

#[verifier::external_type_specification]
#[verifier::external_body]
pub struct ExUuid(Uuid);

/// The UUID that `uuid::Uuid::from_u128` builds from `value`.
pub uninterp spec fn uuid_of_value(value: u128) -> Uuid;

/// Calls `uuid::Uuid::from_u128`, which stores the big-endian bytes of
/// `value`; the contract only names the result as a function of `value`.
#[verifier::external_body]
fn uuid_from_u128(value: u128) -> (id: Uuid)
    ensures
        id == uuid_of_value(value),
{
    Uuid::from_u128(value)
}

/// Compares two UUIDs with `uuid::Uuid`'s derived `PartialEq`, which compares
/// their 16 bytes; the contract claims that it agrees with equality of values.
#[verifier::external_body]
fn uuid_eq(a: &Uuid, b: &Uuid) -> (equal: bool)
    ensures
        equal == (*a == *b),
{
    a == b
}

/// The UUID whose 128-bit value is the little-endian reading of `bytes`.
pub fn uuid_from_bytes(bytes: [u8; 16]) -> (id: Uuid)
    ensures
        id == uuid_of_value(le_value(bytes@) as u128),
{
    uuid_from_u128(u128_from_le_bytes(bytes))
}

/// The UUID of the firmware service.
pub open spec fn fw_service_uuid() -> Uuid {
    uuid_of_value(GATT_SERVICE_FW_VALUE)
}

/// Whether a device advertises the firmware service among `services`.
pub fn has_fw_service(services: &Vec<Uuid>) -> (found: bool)
    ensures
        found == services@.contains(fw_service_uuid()),
{
    proof {
        lemma_gatt_constants();
    }
    let wanted = uuid_from_bytes(GATT_SERVICE_FW);
    let mut i: usize = 0;
    while i < services.len()
        invariant
            i <= services@.len(),
            wanted == fw_service_uuid(),
            forall|j: int| 0 <= j < i ==> services@[j] != wanted,
        decreases services@.len() - i,
    {
        if uuid_eq(&services[i], &wanted) {
            return true;
        }
        i = i + 1;
    }
    false
}

} // verus!
