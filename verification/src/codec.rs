//! Leaf codecs of the chain specification format: arbitrary byte sequences
//! (`HexBytes`), exactly-32-byte hashes (`FixedHash`) and numeric identifiers
//! that accept two textual forms (`FlexibleNumber`).

use vstd::prelude::*;

use crate::hexfmt::{
    hex_decode_bytes, hex_encode_bytes, hex_lower_of, hex_val_of, lemma_hex_round_trip, valid_hex,
};

verus! {

/// Why a leaf value failed to decode: the text does not match its grammar, or
/// the decoded byte count misses a fixed expectation.
#[derive(Clone, Copy, Debug, PartialEq, Eq, Structural)]
pub enum CodecError {
    Format,
    Length { actual: usize, expected: usize },
}

/// Text begins with the mandatory `0x` prefix.
pub open spec fn has_hex_prefix(s: Seq<u8>) -> bool {
    s.len() >= 2 && s[0] == 48 && s[1] == 120
}

/// An arbitrary-length byte sequence, written in text as `0x` + lowercase hex.
#[derive(Clone, Debug, PartialEq, Eq)]
pub struct HexBytes {
    pub bytes: Vec<u8>,
}

impl HexBytes {
    /// Canonical text of a byte sequence: `0x` followed by lowercase hex
    /// digits, two per byte.
    pub open spec fn spec_encode(bs: Seq<u8>) -> Seq<u8> {
        seq![48u8, 120u8] + hex_lower_of(bs)
    }

    /// What decoding yields on every input: the denoted bytes when the text is
    /// `0x` + valid hex, and a format error otherwise.
    pub open spec fn spec_decode(s: Seq<u8>) -> Result<Seq<u8>, CodecError> {
        if has_hex_prefix(s) && valid_hex(s.skip(2)) {
            Ok(hex_val_of(s.skip(2)))
        } else {
            Err(CodecError::Format)
        }
    }

    pub fn encode(&self) -> (r: Vec<u8>)
        ensures
            r@ == Self::spec_encode(self.bytes@),
    {
        let mut out: Vec<u8> = Vec::new();
        out.push(48u8);
        out.push(120u8);
        let mut tail = hex_encode_bytes(self.bytes.as_slice());
        out.append(&mut tail);
        proof {
            assert(out@ =~= Self::spec_encode(self.bytes@));
        }
        out
    }

    pub fn decode(s: &[u8]) -> (r: Result<HexBytes, CodecError>)
        ensures
            match r {
                Ok(h) => Self::spec_decode(s@) == Ok::<Seq<u8>, CodecError>(h.bytes@),
                Err(e) => Self::spec_decode(s@) == Err::<Seq<u8>, CodecError>(e),
            },
    {
        if s.len() < 2 || s[0] != 48 || s[1] != 120 {
            return Err(CodecError::Format);
        }
        let payload = vstd::slice::slice_subrange(s, 2, s.len());
        match hex_decode_bytes(payload) {
            Some(v) => Ok(HexBytes { bytes: v }),
            None => Err(CodecError::Format),
        }
    }
}

/// Law: decoding the canonical encoding of any byte sequence yields exactly
/// those bytes again.
pub proof fn lemma_hex_bytes_round_trip(bs: Seq<u8>)
    ensures
        HexBytes::spec_decode(HexBytes::spec_encode(bs)) == Ok::<Seq<u8>, CodecError>(bs),
{
    let s = HexBytes::spec_encode(bs);
    lemma_hex_round_trip(bs);
    assert(s.skip(2) =~= hex_lower_of(bs));
}

/// A 32-byte identifier, written in text as `0x` + lowercase hex; decoding
/// enforces the length, all or nothing.
#[derive(Clone, Debug, PartialEq, Eq)]
pub struct FixedHash {
    pub bytes: Vec<u8>,
}

impl FixedHash {
    /// A well-formed hash holds exactly 32 bytes.
    pub open spec fn wf(self) -> bool {
        self.bytes@.len() == 32
    }

    /// Canonical text: the same form as `HexBytes`.
    pub open spec fn spec_encode(bs: Seq<u8>) -> Seq<u8> {
        seq![48u8, 120u8] + hex_lower_of(bs)
    }

    /// What decoding yields on every input: the prefix and hex rules of
    /// `HexBytes`, then a strict length check against 32.
    pub open spec fn spec_decode(s: Seq<u8>) -> Result<Seq<u8>, CodecError> {
        if !(has_hex_prefix(s) && valid_hex(s.skip(2))) {
            Err(CodecError::Format)
        } else if hex_val_of(s.skip(2)).len() != 32 {
            Err(CodecError::Length { actual: hex_val_of(s.skip(2)).len() as usize, expected: 32 })
        } else {
            Ok(hex_val_of(s.skip(2)))
        }
    }

    pub fn encode(&self) -> (r: Vec<u8>)
        ensures
            r@ == Self::spec_encode(self.bytes@),
    {
        let mut out: Vec<u8> = Vec::new();
        out.push(48u8);
        out.push(120u8);
        let mut tail = hex_encode_bytes(self.bytes.as_slice());
        out.append(&mut tail);
        proof {
            assert(out@ =~= Self::spec_encode(self.bytes@));
        }
        out
    }

    pub fn decode(s: &[u8]) -> (r: Result<FixedHash, CodecError>)
        ensures
            match r {
                Ok(h) => Self::spec_decode(s@) == Ok::<Seq<u8>, CodecError>(h.bytes@) && h.wf(),
                Err(e) => Self::spec_decode(s@) == Err::<Seq<u8>, CodecError>(e),
            },
    {
        if s.len() < 2 || s[0] != 48 || s[1] != 120 {
            return Err(CodecError::Format);
        }
        let payload = vstd::slice::slice_subrange(s, 2, s.len());
        match hex_decode_bytes(payload) {
            Some(v) => {
                if v.len() != 32 {
                    Err(CodecError::Length { actual: v.len(), expected: 32 })
                } else {
                    Ok(FixedHash { bytes: v })
                }
            },
            None => Err(CodecError::Format),
        }
    }
}

/// Law: a 32-byte sequence survives the encode/decode round trip; any other
/// length is rejected with a length error reporting the actual count.
pub proof fn lemma_fixed_hash_round_trip(bs: Seq<u8>)
    requires
        bs.len() <= usize::MAX,
    ensures
        bs.len() == 32 ==> FixedHash::spec_decode(FixedHash::spec_encode(bs)) == Ok::<
            Seq<u8>,
            CodecError,
        >(bs),
        bs.len() != 32 ==> FixedHash::spec_decode(FixedHash::spec_encode(bs)) == Err::<
            Seq<u8>,
            CodecError,
        >(CodecError::Length { actual: bs.len() as usize, expected: 32 }),
{
    let s = FixedHash::spec_encode(bs);
    lemma_hex_round_trip(bs);
    assert(s.skip(2) =~= hex_lower_of(bs));
}

/// True when `c` is an ASCII decimal digit.
pub open spec fn is_dec_digit(c: u8) -> bool {
    48 <= c <= 57
}

/// The number denoted by a decimal digit sequence, most significant first.
pub open spec fn dec_val(s: Seq<u8>) -> int
    decreases s.len(),
{
    if s.len() == 0 {
        0
    } else {
        dec_val(s.drop_last()) * 10 + (s.last() - 48)
    }
}

/// A digit sequence that denotes a `u64`: non-empty, decimal digits only, and
/// within range.
pub open spec fn valid_u64_dec(s: Seq<u8>) -> bool {
    s.len() > 0 && (forall|i: int| 0 <= i < s.len() ==> is_dec_digit(#[trigger] s[i]))
        && dec_val(s) <= u64::MAX
}

/// The digits of a decimal text, once an optional leading `+` sign is gone.
pub open spec fn dec_payload(s: Seq<u8>) -> Seq<u8> {
    if s.len() > 0 && s[0] == 43 {
        s.drop_first()
    } else {
        s
    }
}

/// The canonical decimal text of a number, no sign, no leading zeros except
/// for zero itself.
pub open spec fn dec_repr(n: int) -> Seq<u8>
    decreases n,
{
    if n < 10 {
        seq![(48 + if n >= 0 { n } else { 0 }) as u8]
    } else {
        dec_repr(n / 10).push((48 + n % 10) as u8)
    }
}

/// A numeric identifier that decodes from either a decimal text or a
/// `0x`-prefixed hex text, and always encodes as plain decimal.
#[derive(Clone, Copy, Debug, PartialEq, Eq, Structural)]
pub struct FlexibleNumber {
    pub value: u64,
}

impl FlexibleNumber {
    /// Canonical text: plain decimal, never hex.
    pub open spec fn spec_encode(n: u64) -> Seq<u8> {
        dec_repr(n as int)
    }

    /// What decoding yields on every input. A `0x` text must still be valid
    /// hex but its payload is deliberately discarded: the result is zero, a
    /// transitional rule kept for compatibility. Other text must be an
    /// unsigned decimal number (an optional leading `+` is tolerated, as the
    /// standard integer parser tolerates it).
    pub open spec fn spec_decode(s: Seq<u8>) -> Result<u64, CodecError> {
        if has_hex_prefix(s) {
            if valid_hex(s.skip(2)) {
                Ok(0)
            } else {
                Err(CodecError::Format)
            }
        } else if valid_u64_dec(dec_payload(s)) {
            Ok(dec_val(dec_payload(s)) as u64)
        } else {
            Err(CodecError::Format)
        }
    }

    pub fn encode(&self) -> (r: Vec<u8>)
        ensures
            r@ == Self::spec_encode(self.value),
    {
        let mut out: Vec<u8> = Vec::new();
        push_dec(self.value, &mut out);
        proof {
            assert(out@ =~= Self::spec_encode(self.value));
        }
        out
    }

    pub fn decode(s: &[u8]) -> (r: Result<FlexibleNumber, CodecError>)
        ensures
            match r {
                Ok(f) => Self::spec_decode(s@) == Ok::<u64, CodecError>(f.value),
                Err(e) => Self::spec_decode(s@) == Err::<u64, CodecError>(e),
            },
    {
        if s.len() >= 2 && s[0] == 48 && s[1] == 120 {
            let payload = vstd::slice::slice_subrange(s, 2, s.len());
            return match hex_decode_bytes(payload) {
                Some(_) => Ok(FlexibleNumber { value: 0 }),
                None => Err(CodecError::Format),
            };
        }
        let start: usize = if s.len() > 0 && s[0] == 43 {
            1
        } else {
            0
        };
        let digits = vstd::slice::slice_subrange(s, start, s.len());
        proof {
            assert(digits@ =~= dec_payload(s@));
        }
        match parse_u64_dec(digits) {
            Some(n) => Ok(FlexibleNumber { value: n }),
            None => Err(CodecError::Format),
        }
    }
}

/// Parses an unsigned decimal number, succeeding exactly on non-empty
/// all-digit text whose value fits in a `u64`.
pub(crate) fn parse_u64_dec(s: &[u8]) -> (r: Option<u64>)
    ensures
        r is Some <==> valid_u64_dec(s@),
        r is Some ==> r.unwrap() as int == dec_val(s@),
{
    if s.len() == 0 {
        return None;
    }
    let mut i: usize = 0;
    while i < s.len()
        invariant
            0 <= i <= s.len(),
            forall|j: int| 0 <= j < i ==> is_dec_digit(#[trigger] s@[j]),
        decreases s.len() - i,
    {
        if s[i] < 48 || s[i] > 57 {
            return None;
        }
        i = i + 1;
    }
    proof {
        lemma_dec_val_nonneg(s@);
    }
    let mut acc: u64 = 0;
    let mut k: usize = 0;
    while k < s.len()
        invariant
            0 <= k <= s.len(),
            forall|j: int| 0 <= j < s@.len() ==> is_dec_digit(#[trigger] s@[j]),
            acc as int == dec_val(s@.take(k as int)),
        decreases s.len() - k,
    {
        let d: u64 = (s[k] - 48) as u64;
        let ghost pre = s@.take(k as int);
        let ghost post = s@.take(k + 1);
        proof {
            assert(post.drop_last() =~= pre);
            assert(post.last() == s@[k as int]);
            lemma_dec_val_nonneg(pre);
        }
        if acc > (u64::MAX - d) / 10 {
            proof {
                let x = (u64::MAX - d) as int;
                assert(x == 10 * (x / 10) + x % 10);
                assert(10 * (acc as int) >= 10 * (x / 10) + 10);
                assert(dec_val(post) > u64::MAX);
                lemma_dec_val_prefix_le(s@, k + 1);
            }
            return None;
        }
        proof {
            let x = (u64::MAX - d) as int;
            assert(x == 10 * (x / 10) + x % 10);
            assert(10 * (acc as int) <= 10 * (x / 10));
        }
        acc = acc * 10 + d;
        k = k + 1;
    }
    proof {
        assert(s@.take(s@.len() as int) =~= s@);
    }
    Some(acc)
}

/// Appends the canonical decimal text of `n` to `out`.
fn push_dec(n: u64, out: &mut Vec<u8>)
    ensures
        final(out)@ == old(out)@ + dec_repr(n as int),
    decreases n,
{
    if n < 10 {
        out.push((48 + n) as u8);
        proof {
            assert(out@ =~= old(out)@ + dec_repr(n as int));
        }
    } else {
        push_dec(n / 10, out);
        out.push((48 + n % 10) as u8);
        proof {
            assert(out@ =~= old(out)@ + dec_repr(n as int));
        }
    }
}

/// Digit sequences denote non-negative numbers.
pub proof fn lemma_dec_val_nonneg(s: Seq<u8>)
    requires
        forall|i: int| 0 <= i < s.len() ==> is_dec_digit(#[trigger] s[i]),
    ensures
        dec_val(s) >= 0,
    decreases s.len(),
{
    if s.len() > 0 {
        assert(forall|i: int|
            0 <= i < s.drop_last().len() ==> is_dec_digit(#[trigger] s.drop_last()[i]));
        lemma_dec_val_nonneg(s.drop_last());
    }
}

/// Extending a digit sequence to the right never shrinks its value.
pub proof fn lemma_dec_val_prefix_le(s: Seq<u8>, k: int)
    requires
        0 <= k <= s.len(),
        forall|i: int| 0 <= i < s.len() ==> is_dec_digit(#[trigger] s[i]),
    ensures
        dec_val(s.take(k)) <= dec_val(s),
    decreases s.len() - k,
{
    if k < s.len() {
        let t = s.take(k + 1);
        assert(t.drop_last() =~= s.take(k));
        assert(t.last() == s[k]);
        assert(forall|i: int| 0 <= i < s.take(k).len() ==> is_dec_digit(#[trigger] s.take(k)[i]));
        lemma_dec_val_nonneg(s.take(k));
        assert(dec_val(s.take(k)) <= dec_val(s.take(k + 1)));
        lemma_dec_val_prefix_le(s, k + 1);
        assert(s.take(s.len() as int) =~= s);
    } else {
        assert(s.take(k) =~= s);
    }
}

/// The canonical decimal text of `n >= 0` is made of digits and denotes `n`.
pub proof fn lemma_dec_repr_val(n: int)
    requires
        n >= 0,
    ensures
        dec_repr(n).len() >= 1,
        forall|i: int| 0 <= i < dec_repr(n).len() ==> is_dec_digit(#[trigger] dec_repr(n)[i]),
        dec_val(dec_repr(n)) == n,
    decreases n,
{
    if n < 10 {
        let t = dec_repr(n);
        assert(t.drop_last() =~= Seq::<u8>::empty());
        assert(t.last() == (48 + n) as u8);
        assert(dec_val(t) == dec_val(t.drop_last()) * 10 + (t.last() - 48));
        assert(dec_val(Seq::<u8>::empty()) == 0);
        assert(dec_val(t) == n);
    } else {
        lemma_dec_repr_val(n / 10);
        let t = dec_repr(n);
        assert(t == dec_repr(n / 10).push((48 + n % 10) as u8));
        assert(t.drop_last() =~= dec_repr(n / 10));
        assert(t.last() == (48 + n % 10) as u8);
        assert(dec_val(t) == (n / 10) * 10 + n % 10);
        assert(n == 10 * (n / 10) + n % 10);
        assert forall|i: int| 0 <= i < t.len() implies is_dec_digit(#[trigger] t[i]) by {
            if i < t.len() - 1 {
                assert(t[i] == dec_repr(n / 10)[i]);
            }
        }
    }
}

/// Law: the canonical decimal encoding of any number decodes to that number
/// again (the hex form is only ever read, never produced).
pub proof fn lemma_flexible_number_round_trip(n: u64)
    ensures
        FlexibleNumber::spec_decode(FlexibleNumber::spec_encode(n)) == Ok::<u64, CodecError>(n),
{
    let s = dec_repr(n as int);
    lemma_dec_repr_val(n as int);
    assert(is_dec_digit(s[0]));
    if s.len() >= 2 {
        assert(is_dec_digit(s[1]));
        assert(s[1] != 120);
    }
    assert(!has_hex_prefix(s));
    assert(dec_payload(s) == s);
    assert(valid_u64_dec(s));
}

} // verus!
