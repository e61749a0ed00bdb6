//! The firmware version string that a device reports in its firmware
//! version descriptor: UTF-8 text of four comma-separated values,
//! `$OTA,$NAME,$FW,$PROTO`:
//! - `$OTA`: OTA update and version info protocol version, an unsigned 8-bit
//!   number;
//! - `$NAME`: firmware name;
//! - `$FW`: firmware version;
//! - `$PROTO`: control and data protocol version, an unsigned 8-bit number.
//!
//! This is the characteristic format of `crate::gatt::GATT_CHAR_FW_VER`
//! (`$OTA,$FW,$PROTO`) with the firmware named before its version.

use vstd::prelude::*;
use vstd::string::StringSliceAdditionalSpecFns;
use vstd::utf8::{
    decode_utf8, encode_utf8_decode_utf8, encode_utf8_valid_utf8, is_char_boundary,
    is_char_boundary_iff_not_is_continuation_byte, valid_utf8,
};

verus! {

/// The byte that separates the values.
pub const SEPARATOR: u8 = 0x2c;

/// The version information of a device's firmware.
#[derive(Debug)]
pub struct FirmwareVersion {
    pub ota_ver: u8,
    pub fw_name: String,
    pub fw_ver: String,
    pub proto_ver: u8,
}

/// Why a version string was refused.
#[derive(Debug, Clone, Copy, PartialEq, Eq, Structural)]
pub enum VersionError {
    /// The bytes are not UTF-8.
    InvalidUtf8,
    /// Fewer than four values.
    NotEnoughValues,
    /// A protocol version is not an unsigned 8-bit number.
    InvalidNumber,
    /// More than four values.
    TooManyValues,
}

/// The pieces of `s` between separators, as `str::split` yields them: there
/// is always at least one, and an empty string gives one empty piece.
pub open spec fn split_fields(s: Seq<u8>) -> Seq<Seq<u8>>
    decreases s.len(),
{
    if s.len() == 0 {
        seq![Seq::<u8>::empty()]
    } else {
        let rest = split_fields(s.skip(1));
        if s[0] == SEPARATOR {
            seq![Seq::<u8>::empty()] + rest
        } else {
            rest.update(0, seq![s[0]] + rest[0])
        }
    }
}

/// `split_fields` yields at least one piece.
pub proof fn lemma_split_fields_nonempty(s: Seq<u8>)
    ensures
        split_fields(s).len() >= 1,
    decreases s.len(),
{
    if s.len() > 0 {
        lemma_split_fields_nonempty(s.skip(1));
    }
}

/// A string without separators is a single piece; one whose first separator
/// is at `i` is the piece before it followed by the pieces after it.
pub proof fn lemma_split_fields_first(s: Seq<u8>, i: int)
    requires
        0 <= i <= s.len(),
        forall|k: int| 0 <= k < i ==> s[k] != SEPARATOR,
        i < s.len() ==> s[i] == SEPARATOR,
    ensures
        i == s.len() ==> split_fields(s) == seq![s],
        i < s.len() ==> split_fields(s) == seq![s.take(i)] + split_fields(s.skip(i + 1)),
    decreases i,
{
    if i == 0 {
        if s.len() == 0 {
            assert(s =~= Seq::<u8>::empty());
            assert(split_fields(s) =~= seq![s]);
        } else {
            assert(s.take(0) =~= Seq::<u8>::empty());
        }
    } else {
        let tail = s.skip(1);
        lemma_split_fields_first(tail, i - 1);
        lemma_split_fields_nonempty(tail);
        if i == s.len() {
            assert(seq![s[0]] + tail =~= s);
            assert(split_fields(s) =~= seq![s]);
        } else {
            assert(tail.skip(i) =~= s.skip(i + 1));
            assert(seq![s[0]] + tail.take(i - 1) =~= s.take(i));
            assert(split_fields(s) =~= seq![s.take(i)] + split_fields(s.skip(i + 1)));
        }
    }
}

/// The byte is an ASCII decimal digit.
pub open spec fn is_digit(b: u8) -> bool {
    0x30 <= b <= 0x39
}

/// Every byte of `d` is a digit.
pub open spec fn all_digits(d: Seq<u8>) -> bool {
    forall|i: int| 0 <= i < d.len() ==> #[trigger] is_digit(d[i])
}

/// The number that the decimal digits `d` denote.
pub open spec fn digits_value(d: Seq<u8>) -> nat
    decreases d.len(),
{
    if d.len() == 0 {
        0
    } else {
        digits_value(d.drop_last()) * 10 + (d.last() - 0x30) as nat
    }
}

/// The digits of a number's text: a leading `+` is dropped when digits
/// follow it.
pub open spec fn number_digits(s: Seq<u8>) -> Seq<u8> {
    if s.len() > 1 && s[0] == 0x2b {
        s.skip(1)
    } else {
        s
    }
}

/// The `u8` that `s` denotes, as `str::parse::<u8>` reads it: an optional
/// `+` and one or more decimal digits whose value is at most 255.
pub open spec fn parse_u8_spec(s: Seq<u8>) -> Option<u8> {
    let d = number_digits(s);
    if s.len() > 0 && all_digits(d) && digits_value(d) <= 255 {
        Some(digits_value(d) as u8)
    } else {
        None
    }
}

/// More digits never make a smaller number.
proof fn lemma_digits_value_grows(d: Seq<u8>, k: int)
    requires
        0 <= k <= d.len(),
        all_digits(d),
    ensures
        digits_value(d.take(k)) <= digits_value(d),
    decreases d.len() - k,
{
    if k < d.len() {
        let e = d.take(k + 1);
        assert(e.drop_last() =~= d.take(k));
        assert(is_digit(e.last()));
        assert(all_digits(d));
        lemma_digits_value_grows(d, k + 1);
    } else {
        assert(d.take(k) =~= d);
    }
}

/// The `u8` that `text` denotes, or `None` when it is not one.
pub fn parse_u8(text: &[u8]) -> (value: Option<u8>)
    ensures
        value == parse_u8_spec(text@),
{
    if text.len() == 0 {
        return None;
    }
    let start: usize = if text.len() > 1 && text[0] == 0x2b { 1 } else { 0 };
    let ghost d = number_digits(text@);
    proof {
        assert(d =~= text@.skip(start as int));
        assert(d.take(0) =~= Seq::<u8>::empty());
    }
    let mut value: u8 = 0;
    let mut i: usize = start;
    while i < text.len()
        invariant
            start <= i <= text@.len(),
            d == text@.skip(start as int),
            d == number_digits(text@),
            text@.len() > 0,
            all_digits(d.take(i - start)),
            value as nat == digits_value(d.take(i - start)),
        decreases text@.len() - i,
    {
        let b = text[i];
        let ghost k = i - start;
        proof {
            assert(d[k] == b);
            assert(d.take(k + 1).drop_last() =~= d.take(k));
            assert(d.take(k + 1).last() == b);
        }
        if b < 0x30 || b > 0x39 {
            proof {
                assert(!is_digit(d[k]));
                assert(!all_digits(d));
                assert(parse_u8_spec(text@) is None);
            }
            return None;
        }
        let digit = b - 0x30;
        if value > 25 || (value == 25 && digit > 5) {
            proof {
                assert(all_digits(d.take(k + 1)));
                assert(digits_value(d.take(k + 1)) > 255);
                if all_digits(d) {
                    lemma_digits_value_grows(d, k + 1);
                }
                assert(parse_u8_spec(text@) is None);
            }
            return None;
        }
        value = value * 10 + digit;
        i = i + 1;
    }
    proof {
        assert(d.take(i - start) =~= d);
    }
    Some(value)
}

/// Calls `std::str::from_utf8`, which hands back the same bytes as a string
/// when they are UTF-8 and fails otherwise.
#[verifier::external_body]
fn str_from_utf8(bytes: &[u8]) -> (text: Option<&str>)
    ensures
        match text {
            Some(s) => s.spec_bytes() == bytes@,
            None => !valid_utf8(bytes@),
        },
{
    std::str::from_utf8(bytes).ok()
}

/// The pieces that are still to come from a split string.
pub open spec fn pieces_of(rest: Option<&str>) -> Seq<Seq<u8>> {
    match rest {
        None => Seq::empty(),
        Some(s) => split_fields(s.spec_bytes()),
    }
}

/// The next piece of a split string, and the rest after it (as
/// `Split::next` yields them).
fn next_field<'a>(rest: Option<&'a str>) -> (next: (Option<&'a str>, Option<&'a str>))
    ensures
        match next.0 {
            None => pieces_of(rest).len() == 0 && next.1 is None,
            Some(piece) => pieces_of(rest) == seq![piece.spec_bytes()] + pieces_of(next.1),
        },
{
    let s = match rest {
        None => return (None, None),
        Some(s) => s,
    };
    let bytes = s.as_bytes();
    let mut i: usize = 0;
    while i < bytes.len() && bytes[i] != SEPARATOR
        invariant
            i <= bytes@.len(),
            bytes@ == s.spec_bytes(),
            forall|k: int| 0 <= k < i ==> bytes@[k] != SEPARATOR,
        decreases bytes@.len() - i,
    {
        i = i + 1;
    }
    proof {
        lemma_split_fields_first(bytes@, i as int);
        encode_utf8_valid_utf8(s@);
    }
    if i == bytes.len() {
        return (Some(s), None);
    }
    proof {
        is_char_boundary_iff_not_is_continuation_byte(bytes@, i as int);
    }
    let (piece, tail) = s.split_at(i);
    proof {
        let t = tail.spec_bytes();
        encode_utf8_valid_utf8(tail@);
        assert(t[0] == SEPARATOR);
        reveal_with_fuel(is_char_boundary, 2);
        assert(is_char_boundary(t, 1));
    }
    let (_, after) = tail.split_at(1);
    proof {
        assert(after.spec_bytes() =~= bytes@.skip(i + 1));
    }
    (Some(piece), Some(after))
}

/// The text of a string value, or `NotEnoughValues` when there is none.
fn next_ver_str<'a>(next: Option<&'a str>) -> (value: Result<&'a str, VersionError>)
    ensures
        match next {
            None => value == Err::<&str, VersionError>(VersionError::NotEnoughValues),
            Some(s) => value == Ok::<&str, VersionError>(s),
        },
{
    match next {
        None => Err(VersionError::NotEnoughValues),
        Some(s) => Ok(s),
    }
}

/// The number of a protocol version value: `NotEnoughValues` when there is
/// none, `InvalidNumber` when it is not an unsigned 8-bit number.
fn next_ver_uint(next: Option<&str>) -> (value: Result<u8, VersionError>)
    ensures
        match next {
            None => value == Err::<u8, VersionError>(VersionError::NotEnoughValues),
            Some(s) => match parse_u8_spec(s.spec_bytes()) {
                None => value == Err::<u8, VersionError>(VersionError::InvalidNumber),
                Some(n) => value == Ok::<u8, VersionError>(n),
            },
        },
{
    let s = match next_ver_str(next) {
        Ok(s) => s,
        Err(e) => return Err(e),
    };
    match parse_u8(s.as_bytes()) {
        Some(n) => Ok(n),
        None => Err(VersionError::InvalidNumber),
    }
}

/// What the version string `bytes` holds: the two protocol versions and
/// the firmware name and version, or the first reason, in reading order, why
/// it is refused.
pub open spec fn version_spec(bytes: Seq<u8>) -> Result<(u8, Seq<char>, Seq<char>, u8), VersionError> {
    if !valid_utf8(bytes) {
        Err(VersionError::InvalidUtf8)
    } else {
        let p = split_fields(bytes);
        if parse_u8_spec(p[0]) is None {
            Err(VersionError::InvalidNumber)
        } else if p.len() < 4 {
            Err(VersionError::NotEnoughValues)
        } else if parse_u8_spec(p[3]) is None {
            Err(VersionError::InvalidNumber)
        } else if p.len() > 4 {
            Err(VersionError::TooManyValues)
        } else {
            Ok(
                (
                    parse_u8_spec(p[0])->0,
                    decode_utf8(p[1]),
                    decode_utf8(p[2]),
                    parse_u8_spec(p[3])->0,
                ),
            )
        }
    }
}

/// Reads the firmware version string that a device reported.
pub fn parse_version(bytes: &[u8]) -> (version: Result<FirmwareVersion, VersionError>)
    ensures
        match version_spec(bytes@) {
            Err(e) => version matches Err(f) && f == e,
            Ok((ota, name, ver, proto)) => version matches Ok(v) && v.ota_ver == ota && v.fw_name@
                == name && v.fw_ver@ == ver && v.proto_ver == proto,
        },
{
    let text = match str_from_utf8(bytes) {
        Some(s) => s,
        None => return Err(VersionError::InvalidUtf8),
    };
    proof {
        encode_utf8_valid_utf8(text@);
        lemma_split_fields_nonempty(bytes@);
    }
    let ghost p = split_fields(bytes@);
    let (f0, rest) = next_field(Some(text));
    let ota_ver = match next_ver_uint(f0) {
        Ok(n) => n,
        Err(e) => return Err(e),
    };
    let (f1, rest) = next_field(rest);
    let fw_name = match next_ver_str(f1) {
        Ok(s) => s,
        Err(e) => {
            proof {
                assert(p.len() == 1);
            }
            return Err(e);
        },
    };
    let (f2, rest) = next_field(rest);
    let fw_ver = match next_ver_str(f2) {
        Ok(s) => s,
        Err(e) => {
            proof {
                assert(p.len() == 2);
            }
            return Err(e);
        },
    };
    let (f3, rest) = next_field(rest);
    let proto_ver = match next_ver_uint(f3) {
        Ok(n) => n,
        Err(e) => {
            proof {
                if f3 is None {
                    assert(p.len() == 3);
                } else {
                    assert(p[3] == f3->0.spec_bytes());
                }
            }
            return Err(e);
        },
    };
    let (f4, _) = next_field(rest);
    if f4.is_some() {
        proof {
            assert(p.len() > 4);
        }
        return Err(VersionError::TooManyValues);
    }
    proof {
        assert(p.len() == 4);
        encode_utf8_decode_utf8(fw_name@);
        encode_utf8_decode_utf8(fw_ver@);
        assert(p[1] == fw_name.spec_bytes());
        assert(p[2] == fw_ver.spec_bytes());
    }
    Ok(
        FirmwareVersion {
            ota_ver,
            fw_name: fw_name.to_owned(),
            fw_ver: fw_ver.to_owned(),
            proto_ver,
        },
    )
}

/// A nonempty string of decimal digits whose value is at most 255 reads as
/// that value, as `str::parse::<u8>` reads it.
pub proof fn lemma_parse_u8_digits(d: Seq<u8>)
    requires
        d.len() > 0,
        all_digits(d),
        digits_value(d) <= 255,
    ensures
        parse_u8_spec(d) == Some(digits_value(d) as u8),
{
    assert(is_digit(d[0]));
    assert(number_digits(d) == d);
}

/// `field`, then a separator, then `rest`, splits into `field` followed by
/// the pieces of `rest`, when `field` holds no separator.
proof fn lemma_split_after_field(field: Seq<u8>, rest: Seq<u8>)
    requires
        forall|k: int| 0 <= k < field.len() ==> field[k] != SEPARATOR,
    ensures
        split_fields(field + seq![SEPARATOR] + rest) == seq![field] + split_fields(rest),
{
    let text = field + seq![SEPARATOR] + rest;
    let i = field.len() as int;
    assert(text[i] == SEPARATOR);
    assert forall|k: int| 0 <= k < i implies text[k] != SEPARATOR by {
        assert(text[k] == field[k]);
    }
    lemma_split_fields_first(text, i);
    assert(text.take(i) =~= field);
    assert(text.skip(i + 1) =~= rest);
}

/// The text `ota,name,ver,proto`, where `ota` and `proto` are decimal
/// numbers of at most 255 and `name` and `ver` hold no comma, is read as
/// those four values: the two numbers, and `name` and `ver` as text. So every
/// protocol version from 0 to 255 is accepted, the current ones included.
pub proof fn lemma_version_of_four_fields(ota: Seq<u8>, name: Seq<u8>, ver: Seq<u8>, proto: Seq<u8>)
    requires
        ota.len() > 0,
        all_digits(ota),
        digits_value(ota) <= 255,
        forall|k: int| 0 <= k < name.len() ==> name[k] != SEPARATOR,
        forall|k: int| 0 <= k < ver.len() ==> ver[k] != SEPARATOR,
        proto.len() > 0,
        all_digits(proto),
        digits_value(proto) <= 255,
        valid_utf8(ota + seq![SEPARATOR] + name + seq![SEPARATOR] + ver + seq![SEPARATOR] + proto),
    ensures
        version_spec(ota + seq![SEPARATOR] + name + seq![SEPARATOR] + ver + seq![SEPARATOR] + proto)
            == Ok::<(u8, Seq<char>, Seq<char>, u8), VersionError>(
            (
                digits_value(ota) as u8,
                decode_utf8(name),
                decode_utf8(ver),
                digits_value(proto) as u8,
            ),
        ),
{
    let r2 = ver + seq![SEPARATOR] + proto;
    let r1 = name + seq![SEPARATOR] + r2;
    let text = ota + seq![SEPARATOR] + r1;
    assert(text =~= ota + seq![SEPARATOR] + name + seq![SEPARATOR] + ver + seq![SEPARATOR] + proto);
    assert forall|k: int| 0 <= k < ota.len() implies ota[k] != SEPARATOR by {
        assert(is_digit(ota[k]));
    }
    assert forall|k: int| 0 <= k < proto.len() implies proto[k] != SEPARATOR by {
        assert(is_digit(proto[k]));
    }
    lemma_split_after_field(ota, r1);
    lemma_split_after_field(name, r2);
    lemma_split_after_field(ver, proto);
    lemma_split_fields_first(proto, proto.len() as int);
    let p = split_fields(text);
    assert(p =~= seq![ota, name, ver, proto]);
    lemma_parse_u8_digits(ota);
    lemma_parse_u8_digits(proto);
}

/// Decimal notation is positional: a digit appended to a number's digits
/// gives ten times the number plus the digit, and no digits give 0.
pub proof fn lemma_digits_value_positional(d: Seq<u8>, c: u8)
    requires
        is_digit(c),
    ensures
        digits_value(Seq::<u8>::empty()) == 0,
        digits_value(d.push(c)) == digits_value(d) * 10 + (c - 0x30),
{
    assert(d.push(c).drop_last() =~= d);
}

/// A `+` in front of a number's digits does not change what it reads as,
/// and text with any other byte than digits (a leading `+` before digits
/// aside), or no bytes at all, is no `u8`.
pub proof fn lemma_parse_u8_sign_and_rejects(d: Seq<u8>, s: Seq<u8>, k: int)
    ensures
        d.len() > 0 ==> parse_u8_spec(seq![0x2bu8] + d) == parse_u8_spec(d) || !all_digits(d),
        parse_u8_spec(Seq::<u8>::empty()) is None,
        0 <= k < s.len() && !is_digit(s[k]) && !(k == 0 && s[0] == 0x2b && s.len() > 1)
            ==> parse_u8_spec(s) is None,
{
    if d.len() > 0 && all_digits(d) {
        assert((seq![0x2bu8] + d).skip(1) =~= d);
        assert(is_digit(d[0]));
    }
    if 0 <= k < s.len() && !is_digit(s[k]) && !(k == 0 && s[0] == 0x2b && s.len() > 1) {
        let n = number_digits(s);
        if s.len() > 1 && s[0] == 0x2b {
            assert(n[k - 1] == s[k]);
            assert(!is_digit(n[k - 1]));
        } else {
            assert(!is_digit(n[k]));
        }
    }
}

/// Bytes that are not UTF-8 are refused as such.
pub proof fn lemma_version_rejects_non_utf8(bytes: Seq<u8>)
    requires
        !valid_utf8(bytes),
    ensures
        version_spec(bytes) == Err::<(u8, Seq<char>, Seq<char>, u8), VersionError>(VersionError::InvalidUtf8),
{
}

/// Four well-formed values followed by a comma and anything more are refused
/// as too many values.
pub proof fn lemma_version_too_many(ota: Seq<u8>, name: Seq<u8>, ver: Seq<u8>, proto: Seq<u8>, more: Seq<u8>)
    requires
        ota.len() > 0,
        all_digits(ota),
        digits_value(ota) <= 255,
        forall|k: int| 0 <= k < name.len() ==> name[k] != SEPARATOR,
        forall|k: int| 0 <= k < ver.len() ==> ver[k] != SEPARATOR,
        proto.len() > 0,
        all_digits(proto),
        digits_value(proto) <= 255,
        valid_utf8(ota + seq![SEPARATOR] + name + seq![SEPARATOR] + ver + seq![SEPARATOR] + proto + seq![SEPARATOR] + more),
    ensures
        version_spec(ota + seq![SEPARATOR] + name + seq![SEPARATOR] + ver + seq![SEPARATOR] + proto + seq![SEPARATOR] + more)
            == Err::<(u8, Seq<char>, Seq<char>, u8), VersionError>(VersionError::TooManyValues),
{
    let r3 = proto + seq![SEPARATOR] + more;
    let r2 = ver + seq![SEPARATOR] + r3;
    let r1 = name + seq![SEPARATOR] + r2;
    let text = ota + seq![SEPARATOR] + r1;
    assert(text =~= ota + seq![SEPARATOR] + name + seq![SEPARATOR] + ver + seq![SEPARATOR] + proto + seq![SEPARATOR] + more);
    assert forall|k: int| 0 <= k < ota.len() implies ota[k] != SEPARATOR by {
        assert(is_digit(ota[k]));
    }
    assert forall|k: int| 0 <= k < proto.len() implies proto[k] != SEPARATOR by {
        assert(is_digit(proto[k]));
    }
    lemma_split_after_field(ota, r1);
    lemma_split_after_field(name, r2);
    lemma_split_after_field(ver, r3);
    lemma_split_after_field(proto, more);
    lemma_split_fields_nonempty(more);
    let p = split_fields(text);
    assert(p =~= seq![ota, name, ver, proto] + split_fields(more));
    assert(p[0] == ota && p[3] == proto);
    lemma_parse_u8_digits(ota);
    lemma_parse_u8_digits(proto);
}

} // verus!
