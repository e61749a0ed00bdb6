//! Bluetooth device addresses as keys: the six address bytes, most
//! significant first, read as one big-endian number, so that keys compare as
//! the addresses do.

use vstd::prelude::*;
use vstd::arithmetic::power::pow;
use crate::text::bytes_lt;

verus! {

/// The number of keys: 48 bits.
pub const ADDRESS_KEYS: u64 = 0x1_0000_0000_0000;

/// The number that `bytes` denote in big-endian order.
pub open spec fn be_value(bytes: Seq<u8>) -> nat
    decreases bytes.len(),
{
    if bytes.len() == 0 {
        0
    } else {
        be_value(bytes.drop_last()) * 256 + bytes.last() as nat
    }
}

/// The first byte of a big-endian number weighs `256^(n-1)`.
pub proof fn lemma_be_value_first(x: u8, t: Seq<u8>)
    ensures
        be_value(seq![x] + t) == x * pow(256, t.len()) + be_value(t),
    decreases t.len(),
{
    reveal(pow);
    let s = seq![x] + t;
    assert(be_value(s) == be_value(s.drop_last()) * 256 + s.last() as nat);
    if t.len() == 0 {
        assert(s.drop_last() =~= Seq::<u8>::empty());
        assert(be_value(Seq::<u8>::empty()) == 0);
        assert(s.last() == x);
        assert(pow(256, 0) == 1);
        assert(be_value(t) == 0);
    } else {
        assert(s.drop_last() =~= seq![x] + t.drop_last());
        assert(s.last() == t.last());
        assert(be_value(t) == be_value(t.drop_last()) * 256 + t.last() as nat);
        lemma_be_value_first(x, t.drop_last());
        let p = pow(256, t.drop_last().len());
        assert(pow(256, t.len()) == 256 * p);
        assert((x * p + be_value(t.drop_last())) * 256 + t.last() == x * (256 * p) + (be_value(t.drop_last()) * 256 + t.last()))
            by (nonlinear_arith);
    }
}

/// A big-endian number of `n` bytes is below `256^n`.
pub proof fn lemma_be_value_bound(bytes: Seq<u8>)
    ensures
        be_value(bytes) < pow(256, bytes.len()),
    decreases bytes.len(),
{
    reveal(pow);
    if bytes.len() > 0 {
        let init = bytes.drop_last();
        lemma_be_value_bound(init);
        let p = pow(256, init.len());
        let v = be_value(init);
        assert(pow(256, bytes.len()) == 256 * p);
        assert(v * 256 + bytes.last() < 256 * p) by (nonlinear_arith)
            requires
                v < p,
                bytes.last() < 256,
        ;
    }
}

/// For byte strings of one length, big-endian numbers compare as the byte
/// strings do in lexicographic order, and equal numbers mean equal strings.
pub proof fn lemma_be_value_order(a: Seq<u8>, b: Seq<u8>)
    requires
        a.len() == b.len(),
    ensures
        bytes_lt(a, b) <==> be_value(a) < be_value(b),
        be_value(a) == be_value(b) ==> a == b,
    decreases a.len(),
{
    if a.len() > 0 {
        let (ta, tb) = (a.skip(1), b.skip(1));
        assert(a =~= seq![a[0]] + ta);
        assert(b =~= seq![b[0]] + tb);
        lemma_be_value_first(a[0], ta);
        lemma_be_value_first(b[0], tb);
        lemma_be_value_order(ta, tb);
        lemma_be_value_bound(ta);
        lemma_be_value_bound(tb);
        let p = pow(256, ta.len());
        let (va, vb) = (be_value(ta), be_value(tb));
        let (xa, xb) = (a[0] as int, b[0] as int);
        if xa < xb {
            assert(xa * p + va < xb * p + vb) by (nonlinear_arith)
                requires
                    xa < xb,
                    0 <= va < p,
                    0 <= vb,
            ;
        } else if xa > xb {
            assert(xb * p + vb < xa * p + va) by (nonlinear_arith)
                requires
                    xb < xa,
                    0 <= vb < p,
                    0 <= va,
            ;
        }
    } else {
        assert(a =~= b);
    }
}

/// The key of the address with bytes `bytes`, most significant first.
pub fn address_key(bytes: [u8; 6]) -> (key: u64)
    ensures
        key == be_value(bytes@),
        key < ADDRESS_KEYS,
{
    let mut key: u64 = 0;
    let mut i: usize = 0;
    proof {
        reveal(pow);
        assert(bytes@.take(0) =~= Seq::<u8>::empty());
    }
    while i < 6
        invariant
            i <= 6,
            bytes@.len() == 6,
            key == be_value(bytes@.take(i as int)),
            key < pow(256, i as nat),
            pow(256, i as nat) <= ADDRESS_KEYS,
        decreases 6 - i,
    {
        proof {
            assert(bytes@.take(i + 1).drop_last() =~= bytes@.take(i as int));
            lemma_be_value_bound(bytes@.take(i + 1));
            reveal(pow);
            vstd::arithmetic::power::lemma_pow_increases(256, (i + 1) as nat, 6);
            reveal_with_fuel(pow, 7);
        }
        key = key * 256 + bytes[i] as u64;
        i = i + 1;
    }
    proof {
        assert(bytes@.take(6) =~= bytes@);
    }
    key
}

/// The address bytes of `key`, most significant first.
pub fn address_bytes(key: u64) -> (bytes: [u8; 6])
    requires
        key < ADDRESS_KEYS,
    ensures
        be_value(bytes@) == key,
{
    let mut bytes = [0u8; 6];
    let mut rest = key;
    let mut j: usize = 0;
    proof {
        reveal(pow);
        assert(bytes@.skip(6) =~= Seq::<u8>::empty());
    }
    while j < 6
        invariant
            j <= 6,
            bytes@.len() == 6,
            key == rest * pow(256, j as nat) + be_value(bytes@.skip(6 - j)),
        decreases 6 - j,
    {
        let byte = (rest % 256) as u8;
        let ghost low = bytes@.skip(6 - j);
        let ghost old_rest = rest;
        bytes[5 - j] = byte;
        rest = rest / 256;
        proof {
            assert(bytes@.skip(6 - j) =~= low);
            assert(bytes@.skip(6 - (j + 1)) =~= seq![byte] + low);
            lemma_be_value_first(byte, low);
            reveal(pow);
            let p = pow(256, j as nat);
            assert(pow(256, (j + 1) as nat) == 256 * p);
            assert(old_rest * p == rest * (256 * p) + byte * p) by (nonlinear_arith)
                requires
                    old_rest == 256 * rest + byte,
            ;
        }
        j = j + 1;
    }
    proof {
        assert(bytes@.skip(0) =~= bytes@);
        reveal_with_fuel(pow, 7);
        assert(rest * pow(256, 6) == 0) by (nonlinear_arith)
            requires
                key == rest * pow(256, 6) + be_value(bytes@),
                key < pow(256, 6),
                rest >= 0,
        ;
    }
    bytes
}

/// Address keys and address bytes convert into each other both ways, and
/// keys are ordered as the addresses are: lexicographically by byte, most
/// significant byte first.
pub proof fn lemma_address_key_roundtrip(a: [u8; 6], b: [u8; 6])
    ensures
        bytes_lt(a@, b@) <==> be_value(a@) < be_value(b@),
        be_value(a@) == be_value(b@) ==> a == b,
{
    lemma_be_value_order(a@, b@);
    if be_value(a@) == be_value(b@) {
        assert(a =~= b);
    }
}

} // verus!
