//! Hexadecimal text: the mathematical meaning of hex payloads, and the calls
//! into the `hex` crate that turn byte sequences into hex text and back.

use vstd::prelude::*;

verus! {

/// True when `c` is an ASCII hexadecimal digit, of either case.
pub open spec fn is_hex_digit(c: u8) -> bool {
    (48 <= c <= 57) || (97 <= c <= 102) || (65 <= c <= 70)
}

/// Numeric value of a hexadecimal digit.
pub open spec fn hex_digit_val(c: u8) -> int {
    if 48 <= c <= 57 {
        c - 48
    } else if 97 <= c <= 102 {
        c - 97 + 10
    } else {
        c - 65 + 10
    }
}

/// Lowercase hexadecimal digit for a nibble value `v` (expected in `0..16`).
pub open spec fn hex_digit_lower(v: int) -> u8 {
    if v < 10 {
        (48 + v) as u8
    } else {
        (97 + v - 10) as u8
    }
}

/// Lowercase hex text of a byte sequence: two digits per byte, high nibble first.
pub open spec fn hex_lower_of(bs: Seq<u8>) -> Seq<u8>
    decreases bs.len(),
{
    if bs.len() == 0 {
        Seq::empty()
    } else {
        seq![
            hex_digit_lower(bs[0] as int / 16),
            hex_digit_lower(bs[0] as int % 16),
        ] + hex_lower_of(bs.drop_first())
    }
}

/// A well-formed hex payload: even length, hexadecimal digits only.
pub open spec fn valid_hex(s: Seq<u8>) -> bool {
    s.len() % 2 == 0 && (forall|i: int| 0 <= i < s.len() ==> is_hex_digit(#[trigger] s[i]))
}

/// The bytes denoted by a hex payload, two digits per byte.
pub open spec fn hex_val_of(s: Seq<u8>) -> Seq<u8>
    decreases s.len(),
{
    if s.len() < 2 {
        Seq::empty()
    } else {
        seq![(hex_digit_val(s[0]) * 16 + hex_digit_val(s[1])) as u8] + hex_val_of(s.skip(2))
    }
}

/// Relies on `hex::encode`: lowercase hex text, two digits per byte,
/// high nibble first.
#[verifier::external_body]
pub(crate) fn hex_encode_bytes(b: &[u8]) -> (r: Vec<u8>)
    ensures
        r@ == hex_lower_of(b@),
{
    hex::encode(b).into_bytes()
}

/// Relies on `hex::decode`: it succeeds exactly on even-length sequences of
/// hexadecimal digits, and then returns the bytes the digits denote.
#[verifier::external_body]
pub(crate) fn hex_decode_bytes(s: &[u8]) -> (r: Option<Vec<u8>>)
    ensures
        r is Some <==> valid_hex(s@),
        r is Some ==> r.unwrap()@ == hex_val_of(s@),
{
    match hex::decode(s) {
        Ok(v) => Some(v),
        Err(_) => None,
    }
}

/// Law: the hex text of any byte sequence is a valid hex payload and denotes
/// those bytes again.
pub proof fn lemma_hex_round_trip(bs: Seq<u8>)
    ensures
        valid_hex(hex_lower_of(bs)),
        hex_val_of(hex_lower_of(bs)) == bs,
    decreases bs.len(),
{
    if bs.len() == 0 {
        assert(hex_val_of(hex_lower_of(bs)) =~= bs);
    } else {
        let rest = bs.drop_first();
        lemma_hex_round_trip(rest);
        let hi = hex_digit_lower(bs[0] as int / 16);
        let lo = hex_digit_lower(bs[0] as int % 16);
        let s = hex_lower_of(bs);
        assert(s == seq![hi, lo] + hex_lower_of(rest));
        assert(s.skip(2) =~= hex_lower_of(rest));
        assert(s.len() % 2 == 0);
        assert forall|i: int| 0 <= i < s.len() implies is_hex_digit(#[trigger] s[i]) by {
            if i >= 2 {
                assert(s[i] == hex_lower_of(rest)[i - 2]);
            }
        }
        assert(hex_digit_val(hi) == bs[0] as int / 16);
        assert(hex_digit_val(lo) == bs[0] as int % 16);
        assert(bs[0] as int == 16 * (bs[0] as int / 16) + bs[0] as int % 16);
        assert(hex_val_of(s) =~= bs);
    }
}

} // verus!
