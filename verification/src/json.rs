//! The JSON shape of a chain specification document: a structural value type,
//! its mathematical view, the canonical compact text of a value, a verified
//! serializer, and a parser.
//!
//! Number lexemes are kept as text: the schema layer reads the integers it
//! needs, and passthrough data re-encodes without loss.

use vstd::prelude::*;

use crate::codec::is_dec_digit;
use crate::hexfmt::{hex_digit_lower, hex_digit_val, is_hex_digit};

verus! {

/// A structural JSON value. Strings and object keys hold decoded UTF-8 bytes;
/// numbers hold their source lexeme.
#[derive(Debug)]
pub enum JsonValue {
    Null,
    Bool(bool),
    Num(Vec<u8>),
    Str(Vec<u8>),
    Arr(Vec<JsonValue>),
    Obj(Vec<(Vec<u8>, JsonValue)>),
}

/// The mathematical view of a JSON value, over sequences.
#[verifier::ext_equal]
pub enum SpecJson {
    Null,
    Bool(bool),
    Num(Seq<u8>),
    Str(Seq<u8>),
    Arr(Seq<SpecJson>),
    Obj(Seq<(Seq<u8>, SpecJson)>),
}

/// The mathematical value of a JSON tree.
pub open spec fn view_json(v: JsonValue) -> SpecJson
    decreases v,
{
    match v {
        JsonValue::Null => SpecJson::Null,
        JsonValue::Bool(b) => SpecJson::Bool(b),
        JsonValue::Num(lx) => SpecJson::Num(lx@),
        JsonValue::Str(s) => SpecJson::Str(s@),
        JsonValue::Arr(items) => SpecJson::Arr(view_list(items@)),
        JsonValue::Obj(ms) => SpecJson::Obj(view_members(ms@)),
    }
}

/// The views of a list of JSON values, in order.
pub open spec fn view_list(items: Seq<JsonValue>) -> Seq<SpecJson>
    decreases items,
{
    if items.len() == 0 {
        Seq::empty()
    } else {
        view_list(items.drop_last()).push(view_json(items.last()))
    }
}

/// The views of a list of object members, in order.
pub open spec fn view_members(ms: Seq<(Vec<u8>, JsonValue)>) -> Seq<(Seq<u8>, SpecJson)>
    decreases ms,
{
    if ms.len() == 0 {
        Seq::empty()
    } else {
        view_members(ms.drop_last()).push((ms.last().0@, view_json(ms.last().1)))
    }
}

/// The view of a list has the element views, position by position.
pub proof fn lemma_view_list_index(items: Seq<JsonValue>)
    ensures
        view_list(items).len() == items.len(),
        forall|i: int| 0 <= i < items.len() ==> view_list(items)[i] == view_json(#[trigger] items[i]),
    decreases items,
{
    if items.len() > 0 {
        lemma_view_list_index(items.drop_last());
        assert forall|i: int| 0 <= i < items.len() implies view_list(items)[i] == view_json(
            #[trigger] items[i],
        ) by {
            if i < items.len() - 1 {
                assert(items.drop_last()[i] == items[i]);
                assert(view_list(items)[i] == view_list(items.drop_last())[i]);
            } else {
                assert(items.last() == items[i]);
            }
        }
    }
}

/// The view of a member list has the member views, position by position.
pub proof fn lemma_view_members_index(ms: Seq<(Vec<u8>, JsonValue)>)
    ensures
        view_members(ms).len() == ms.len(),
        forall|i: int|
            0 <= i < ms.len() ==> view_members(ms)[i] == (
                #[trigger] ms[i].0@,
                view_json(ms[i].1),
            ),
    decreases ms,
{
    if ms.len() > 0 {
        lemma_view_members_index(ms.drop_last());
        assert forall|i: int|
            0 <= i < ms.len() implies view_members(ms)[i] == (
            #[trigger] ms[i].0@,
            view_json(ms[i].1),
        ) by {
            if i < ms.len() - 1 {
                assert(ms.drop_last()[i] == ms[i]);
                assert(view_members(ms)[i] == view_members(ms.drop_last())[i]);
            } else {
                assert(ms.last() == ms[i]);
            }
        }
    }
}

/// How one byte of string content is written: quote and backslash get a
/// backslash escape, control bytes a `\u00XX` escape, everything else stands
/// as it is.
pub open spec fn spec_escape_byte(c: u8) -> Seq<u8> {
    if c == 34 {
        seq![92u8, 34u8]
    } else if c == 92 {
        seq![92u8, 92u8]
    } else if c < 32 {
        seq![92u8, 117u8, 48u8, 48u8, hex_digit_lower(c as int / 16), hex_digit_lower(
            c as int % 16,
        )]
    } else {
        seq![c]
    }
}

/// String content, escaped byte for byte.
pub open spec fn spec_escape(s: Seq<u8>) -> Seq<u8>
    decreases s.len(),
{
    if s.len() == 0 {
        Seq::empty()
    } else {
        spec_escape(s.drop_last()) + spec_escape_byte(s.last())
    }
}

/// A string value in text: quoted, escaped content.
pub open spec fn spec_str_text(s: Seq<u8>) -> Seq<u8> {
    seq![34u8] + spec_escape(s) + seq![34u8]
}

/// The canonical compact text of a JSON value: no whitespace, members and
/// items in their stored order.
pub open spec fn spec_json_text(sj: SpecJson) -> Seq<u8>
    decreases sj,
{
    match sj {
        SpecJson::Null => seq![110u8, 117u8, 108u8, 108u8],
        SpecJson::Bool(b) => if b {
            seq![116u8, 114u8, 117u8, 101u8]
        } else {
            seq![102u8, 97u8, 108u8, 115u8, 101u8]
        },
        SpecJson::Num(lx) => lx,
        SpecJson::Str(s) => spec_str_text(s),
        SpecJson::Arr(items) => seq![91u8] + spec_arr_body(items) + seq![93u8],
        SpecJson::Obj(ms) => seq![123u8] + spec_obj_body(ms) + seq![125u8],
    }
}

/// The comma-joined items of an array.
pub open spec fn spec_arr_body(items: Seq<SpecJson>) -> Seq<u8>
    decreases items,
{
    if items.len() == 0 {
        Seq::empty()
    } else {
        let head = spec_json_text(items.last());
        if items.len() == 1 {
            head
        } else {
            spec_arr_body(items.drop_last()) + seq![44u8] + head
        }
    }
}

/// The comma-joined `"key":value` members of an object.
pub open spec fn spec_obj_body(ms: Seq<(Seq<u8>, SpecJson)>) -> Seq<u8>
    decreases ms,
{
    if ms.len() == 0 {
        Seq::empty()
    } else {
        let head = spec_str_text(ms.last().0) + seq![58u8] + spec_json_text(ms.last().1);
        if ms.len() == 1 {
            head
        } else {
            spec_obj_body(ms.drop_last()) + seq![44u8] + head
        }
    }
}

/// Lowercase hexadecimal digit of a nibble, as a byte.
fn hex_digit_lower_exec(v: u8) -> (r: u8)
    requires
        v < 16,
    ensures
        r == hex_digit_lower(v as int),
{
    if v < 10 {
        48 + v
    } else {
        97 + v - 10
    }
}

/// Appends the quoted, escaped text of a string to `out`.
fn write_str(s: &[u8], out: &mut Vec<u8>)
    ensures
        final(out)@ == old(out)@ + spec_str_text(s@),
{
    out.push(34u8);
    let ghost base = out@;
    let mut i: usize = 0;
    while i < s.len()
        invariant
            0 <= i <= s.len(),
            out@ == base + spec_escape(s@.take(i as int)),
        decreases s.len() - i,
    {
        let c = s[i];
        if c == 34 {
            out.push(92u8);
            out.push(34u8);
        } else if c == 92 {
            out.push(92u8);
            out.push(92u8);
        } else if c < 32 {
            out.push(92u8);
            out.push(117u8);
            out.push(48u8);
            out.push(48u8);
            let hi = hex_digit_lower_exec(c / 16);
            let lo = hex_digit_lower_exec(c % 16);
            out.push(hi);
            out.push(lo);
        } else {
            out.push(c);
        }
        proof {
            let t = s@.take(i + 1);
            assert(t.drop_last() =~= s@.take(i as int));
            assert(t.last() == s@[i as int]);
            assert(out@ =~= base + spec_escape(t));
        }
        i = i + 1;
    }
    out.push(34u8);
    proof {
        assert(s@.take(s@.len() as int) =~= s@);
        assert(out@ =~= old(out)@ + spec_str_text(s@));
    }
}

/// Appends the canonical compact text of a JSON value to `out`.
#[verifier::loop_isolation(false)]
#[verifier::rlimit(100)]
pub fn write_json(v: &JsonValue, out: &mut Vec<u8>)
    ensures
        final(out)@ == old(out)@ + spec_json_text(view_json(*v)),
    decreases *v,
{
    match v {
        JsonValue::Null => {
            out.push(110u8);
            out.push(117u8);
            out.push(108u8);
            out.push(108u8);
            proof {
                assert(out@ =~= old(out)@ + spec_json_text(view_json(*v)));
            }
        },
        JsonValue::Bool(b) => {
            if *b {
                out.push(116u8);
                out.push(114u8);
                out.push(117u8);
                out.push(101u8);
            } else {
                out.push(102u8);
                out.push(97u8);
                out.push(108u8);
                out.push(115u8);
                out.push(101u8);
            }
            proof {
                assert(out@ =~= old(out)@ + spec_json_text(view_json(*v)));
            }
        },
        JsonValue::Num(lx) => {
            let mut i: usize = 0;
            let ghost base = out@;
            while i < lx.len()
                invariant
                    0 <= i <= lx@.len(),
                    out@ == base + lx@.take(i as int),
                decreases lx@.len() - i,
            {
                out.push(lx[i]);
                proof {
                    assert(out@ =~= base + lx@.take(i + 1));
                }
                i = i + 1;
            }
            proof {
                assert(lx@.take(lx@.len() as int) =~= lx@);
                assert(out@ =~= old(out)@ + spec_json_text(view_json(*v)));
            }
        },
        JsonValue::Str(s) => {
            write_str(s.as_slice(), out);
        },
        JsonValue::Arr(items) => {
            let ghost mapped = view_list(items@);
            proof {
                lemma_view_list_index(items@);
            }
            out.push(91u8);
            let ghost base = out@;
            let mut i: usize = 0;
            while i < items.len()
                invariant
                    0 <= i <= items@.len(),
                    mapped == view_list(items@),
                    mapped.len() == items@.len(),
                    forall|j: int| 0 <= j < items@.len() ==> mapped[j] == view_json(#[trigger] items@[j]),
                    out@ == base + spec_arr_body(mapped.take(i as int)),
                decreases items@.len() - i,
            {
                if i > 0 {
                    out.push(44u8);
                }
                proof {
                    assert(*v == JsonValue::Arr(*items));
                    assert(decreases_to!(JsonValue::Arr(*items) => *items));
                    assert(decreases_to!(*items => items@[i as int]));
                }
                write_json(&items[i], out);
                proof {
                    let t = mapped.take(i + 1);
                    assert(t.drop_last() =~= mapped.take(i as int));
                    assert(t.last() == mapped[i as int]);
                    assert(mapped[i as int] == view_json(items@[i as int]));
                    assert(out@ =~= base + spec_arr_body(t));
                }
                i = i + 1;
            }
            out.push(93u8);
            proof {
                assert(mapped.take(items@.len() as int) =~= mapped);
                assert(view_json(*v) == SpecJson::Arr(mapped));
                assert(mapped.len() == items@.len());
                assert(out@ =~= old(out)@ + spec_json_text(view_json(*v)));
            }
        },
        JsonValue::Obj(ms) => {
            let ghost mapped = view_members(ms@);
            proof {
                lemma_view_members_index(ms@);
            }
            out.push(123u8);
            let ghost base = out@;
            let mut i: usize = 0;
            while i < ms.len()
                invariant
                    0 <= i <= ms@.len(),
                    mapped == view_members(ms@),
                    mapped.len() == ms@.len(),
                    forall|j: int|
                        0 <= j < ms@.len() ==> mapped[j] == (#[trigger] ms@[j].0@, view_json(ms@[j].1)),
                    out@ == base + spec_obj_body(mapped.take(i as int)),
                decreases ms@.len() - i,
            {
                if i > 0 {
                    out.push(44u8);
                }
                write_str(ms[i].0.as_slice(), out);
                out.push(58u8);
                proof {
                    assert(*v == JsonValue::Obj(*ms));
                    assert(decreases_to!(JsonValue::Obj(*ms) => *ms));
                    assert(decreases_to!(*ms => ms@[i as int]));
                    assert(decreases_to!(ms@[i as int] => ms@[i as int].1));
                }
                write_json(&ms[i].1, out);
                proof {
                    let t = mapped.take(i + 1);
                    assert(t.drop_last() =~= mapped.take(i as int));
                    assert(t.last() == mapped[i as int]);
                    assert(mapped[i as int] == (ms@[i as int].0@, view_json(ms@[i as int].1)));
                    assert(out@ =~= base + spec_obj_body(t));
                }
                i = i + 1;
            }
            out.push(125u8);
            proof {
                assert(mapped.take(ms@.len() as int) =~= mapped);
                assert(view_json(*v) == SpecJson::Obj(mapped));
                assert(out@ =~= old(out)@ + spec_json_text(view_json(*v)));
            }
        },
    }
}

/// The canonical compact text of a JSON value.
pub fn json_to_text(v: &JsonValue) -> (r: Vec<u8>)
    ensures
        r@ == spec_json_text(view_json(*v)),
{
    let mut out: Vec<u8> = Vec::new();
    write_json(v, &mut out);
    proof {
        assert(out@ =~= spec_json_text(view_json(*v)));
    }
    out
}

/// True exactly when two byte slices hold the same bytes.
pub fn bytes_eq(a: &[u8], b: &[u8]) -> (r: bool)
    ensures
        r <==> a@ == b@,
{
    if a.len() != b.len() {
        proof {
            assert(a@ != b@);
        }
        return false;
    }
    let mut i: usize = 0;
    while i < a.len()
        invariant
            0 <= i <= a@.len(),
            a@.len() == b@.len(),
            forall|j: int| 0 <= j < i ==> a@[j] == b@[j],
        decreases a@.len() - i,
    {
        if a[i] != b[i] {
            return false;
        }
        i = i + 1;
    }
    proof {
        assert(a@ =~= b@);
    }
    true
}

} // verus!


// The parser: recursive descent over the text bytes. Every executable
// function is proved equal to a spec-level twin, so the meaning of a text is
// a mathematical function of its bytes. The structural functions carry a
// ghost recursion budget that mirrors the spec twins' `fuel` parameter; a
// budget of twice the remaining input plus one always suffices, because each
// nesting level consumes at least one byte and at most two budget units.

verus! {

/// One step of a spec-level parse: a result and the index after it, a
/// rejection, or an exhausted recursion budget (which a sufficient budget
/// never reaches).
pub enum Step<T> {
    Done(T, int),
    Fail,
    Short,
}

/// JSON whitespace.
pub open spec fn is_ws(c: u8) -> bool {
    c == 32 || c == 9 || c == 10 || c == 13
}

/// The first index at or after `i` that does not hold whitespace.
pub open spec fn spec_skip_ws(s: Seq<u8>, i: int) -> int
    decreases s.len() - i,
{
    if 0 <= i < s.len() && is_ws(s[i]) {
        spec_skip_ws(s, i + 1)
    } else {
        i
    }
}

/// Four hexadecimal digits read at `i`, as one number.
pub open spec fn spec_hex4(s: Seq<u8>, i: int) -> Option<int> {
    if i < 0 || s.len() - i < 4 {
        Option::None
    } else if is_hex_digit(s[i]) && is_hex_digit(s[i + 1]) && is_hex_digit(s[i + 2])
        && is_hex_digit(s[i + 3]) {
        Option::Some(
            ((hex_digit_val(s[i]) * 16 + hex_digit_val(s[i + 1])) * 16 + hex_digit_val(s[i + 2]))
                * 16 + hex_digit_val(s[i + 3]),
        )
    } else {
        Option::None
    }
}

/// The UTF-8 bytes of a scalar value.
pub open spec fn spec_utf8_of(cp: int) -> Seq<u8> {
    if cp < 0x80 {
        seq![cp as u8]
    } else if cp < 0x800 {
        seq![(192 + cp / 64) as u8, (128 + cp % 64) as u8]
    } else if cp < 0x10000 {
        seq![(224 + cp / 4096) as u8, (128 + (cp / 64) % 64) as u8, (128 + cp % 64) as u8]
    } else {
        seq![
            (240 + cp / 262144) as u8,
            (128 + (cp / 4096) % 64) as u8,
            (128 + (cp / 64) % 64) as u8,
            (128 + cp % 64) as u8,
        ]
    }
}

/// A UTF-8 continuation byte.
pub open spec fn is_cont(c: u8) -> bool {
    128 <= c <= 191
}

/// The allowed first continuation byte after a three-byte lead: the ranges
/// that exclude overlong forms and surrogates.
pub open spec fn utf8_mid3_ok(lead: u8, c: u8) -> bool {
    if lead == 0xE0 {
        0xA0 <= c <= 0xBF
    } else if lead == 0xED {
        0x80 <= c <= 0x9F
    } else {
        is_cont(c)
    }
}

/// The allowed first continuation byte after a four-byte lead: the ranges
/// that exclude overlong forms and values past the last scalar.
pub open spec fn utf8_mid4_ok(lead: u8, c: u8) -> bool {
    if lead == 0xF0 {
        0x90 <= c <= 0xBF
    } else if lead == 0xF4 {
        0x80 <= c <= 0x8F
    } else {
        is_cont(c)
    }
}

/// Prepends decoded bytes to the rest of a string parse.
pub open spec fn scons(prefix: Seq<u8>, rest: Option<(Seq<u8>, int)>) -> Option<(Seq<u8>, int)> {
    match rest {
        Option::Some((t, e)) => Option::Some((prefix + t, e)),
        Option::None => Option::None,
    }
}

/// String content from `j` (just inside the opening quote) to the closing
/// quote: escapes resolved, surrogate pairs combined, raw bytes accepted
/// only as well-formed UTF-8.
pub open spec fn spec_parse_string(s: Seq<u8>, j: int) -> Option<(Seq<u8>, int)>
    decreases s.len() - j,
{
    if !(0 <= j < s.len()) {
        Option::None
    } else {
        let c = s[j];
        if c == 34 {
            Option::Some((Seq::empty(), j + 1))
        } else if c == 92 {
            if s.len() - j < 2 {
                Option::None
            } else {
                let e = s[j + 1];
                if e == 34 || e == 92 || e == 47 {
                    scons(seq![e], spec_parse_string(s, j + 2))
                } else if e == 98 {
                    scons(seq![8u8], spec_parse_string(s, j + 2))
                } else if e == 102 {
                    scons(seq![12u8], spec_parse_string(s, j + 2))
                } else if e == 110 {
                    scons(seq![10u8], spec_parse_string(s, j + 2))
                } else if e == 114 {
                    scons(seq![13u8], spec_parse_string(s, j + 2))
                } else if e == 116 {
                    scons(seq![9u8], spec_parse_string(s, j + 2))
                } else if e == 117 {
                    if s.len() - j < 6 {
                        Option::None
                    } else {
                        match spec_hex4(s, j + 2) {
                            Option::None => Option::None,
                            Option::Some(v) => if 0xD800 <= v < 0xDC00 {
                                if s.len() - j < 12 {
                                    Option::None
                                } else if s[j + 6] != 92 || s[j + 7] != 117 {
                                    Option::None
                                } else {
                                    match spec_hex4(s, j + 8) {
                                        Option::None => Option::None,
                                        Option::Some(w) => if !(0xDC00 <= w < 0xE000) {
                                            Option::None
                                        } else {
                                            scons(
                                                spec_utf8_of(
                                                    0x10000 + (v - 0xD800) * 1024 + (w - 0xDC00),
                                                ),
                                                spec_parse_string(s, j + 12),
                                            )
                                        },
                                    }
                                }
                            } else if 0xDC00 <= v < 0xE000 {
                                Option::None
                            } else {
                                scons(spec_utf8_of(v), spec_parse_string(s, j + 6))
                            },
                        }
                    }
                } else {
                    Option::None
                }
            }
        } else if c < 32 {
            Option::None
        } else if c < 0x80 {
            scons(seq![c], spec_parse_string(s, j + 1))
        } else if c < 0xC2 {
            Option::None
        } else if c <= 0xDF {
            if s.len() - j < 2 || !is_cont(s[j + 1]) {
                Option::None
            } else {
                scons(seq![c, s[j + 1]], spec_parse_string(s, j + 2))
            }
        } else if c <= 0xEF {
            if s.len() - j < 3 || !utf8_mid3_ok(c, s[j + 1]) || !is_cont(s[j + 2]) {
                Option::None
            } else {
                scons(seq![c, s[j + 1], s[j + 2]], spec_parse_string(s, j + 3))
            }
        } else if c <= 0xF4 {
            if s.len() - j < 4 || !utf8_mid4_ok(c, s[j + 1]) || !is_cont(s[j + 2]) || !is_cont(
                s[j + 3],
            ) {
                Option::None
            } else {
                scons(seq![c, s[j + 1], s[j + 2], s[j + 3]], spec_parse_string(s, j + 4))
            }
        } else {
            Option::None
        }
    }
}

/// The first index at or after `i` that does not hold a decimal digit.
pub open spec fn spec_scan_digits(s: Seq<u8>, i: int) -> int
    decreases s.len() - i,
{
    if 0 <= i < s.len() && is_dec_digit(s[i]) {
        spec_scan_digits(s, i + 1)
    } else {
        i
    }
}

/// A number lexeme after its integer part, which ended at `j`.
pub open spec fn spec_num_after_int(s: Seq<u8>, start: int, j: int) -> Option<(Seq<u8>, int)> {
    if j < s.len() && s[j] == 46 {
        if j + 1 < s.len() && is_dec_digit(s[j + 1]) {
            spec_num_after_frac(s, start, spec_scan_digits(s, j + 1))
        } else {
            Option::None
        }
    } else {
        spec_num_after_frac(s, start, j)
    }
}

/// A number lexeme after its fraction part, which ended at `j`.
pub open spec fn spec_num_after_frac(s: Seq<u8>, start: int, j: int) -> Option<(Seq<u8>, int)> {
    if j < s.len() && (s[j] == 101 || s[j] == 69) {
        let j1 = if j + 2 <= s.len() && (s[j + 1] == 43 || s[j + 1] == 45) {
            j + 2
        } else {
            j + 1
        };
        if j1 < s.len() && is_dec_digit(s[j1]) {
            Option::Some((s.subrange(start, spec_scan_digits(s, j1)), spec_scan_digits(s, j1)))
        } else {
            Option::None
        }
    } else {
        Option::Some((s.subrange(start, j), j))
    }
}

/// A JSON number lexeme starting at `i`: optional minus, a strict integer
/// part, optional fraction and exponent.
pub open spec fn spec_parse_number(s: Seq<u8>, i: int) -> Option<(Seq<u8>, int)> {
    if !(0 <= i < s.len()) {
        Option::None
    } else {
        let j0 = if s[i] == 45 {
            i + 1
        } else {
            i
        };
        if j0 >= s.len() {
            Option::None
        } else if s[j0] == 48 {
            spec_num_after_int(s, i, j0 + 1)
        } else if 49 <= s[j0] <= 57 {
            spec_num_after_int(s, i, spec_scan_digits(s, j0 + 1))
        } else {
            Option::None
        }
    }
}

/// Wraps a member-list step as a value step.
pub open spec fn obj_step(st: Step<Seq<(Seq<u8>, SpecJson)>>) -> Step<SpecJson> {
    match st {
        Step::Done(ms, e) => Step::Done(SpecJson::Obj(ms), e),
        Step::Fail => Step::Fail,
        Step::Short => Step::Short,
    }
}

/// Wraps an item-list step as a value step.
pub open spec fn arr_step(st: Step<Seq<SpecJson>>) -> Step<SpecJson> {
    match st {
        Step::Done(items, e) => Step::Done(SpecJson::Arr(items), e),
        Step::Fail => Step::Fail,
        Step::Short => Step::Short,
    }
}

/// One JSON value starting exactly at `i`; `d` bounds the remaining
/// container nesting and `f` the recursion budget.
pub open spec fn spec_parse_value(s: Seq<u8>, i: int, d: int, f: int) -> Step<SpecJson>
    decreases f, 1int,
{
    if f <= 0 {
        Step::Short
    } else if !(0 <= i < s.len()) {
        Step::Fail
    } else {
        let c = s[i];
        if c == 110 {
            if s.len() - i >= 4 && s[i + 1] == 117 && s[i + 2] == 108 && s[i + 3] == 108 {
                Step::Done(SpecJson::Null, i + 4)
            } else {
                Step::Fail
            }
        } else if c == 116 {
            if s.len() - i >= 4 && s[i + 1] == 114 && s[i + 2] == 117 && s[i + 3] == 101 {
                Step::Done(SpecJson::Bool(true), i + 4)
            } else {
                Step::Fail
            }
        } else if c == 102 {
            if s.len() - i >= 5 && s[i + 1] == 97 && s[i + 2] == 108 && s[i + 3] == 115 && s[i + 4]
                == 101 {
                Step::Done(SpecJson::Bool(false), i + 5)
            } else {
                Step::Fail
            }
        } else if c == 34 {
            match spec_parse_string(s, i + 1) {
                Option::Some((t, j)) => Step::Done(SpecJson::Str(t), j),
                Option::None => Step::Fail,
            }
        } else if c == 123 {
            if d <= 0 {
                Step::Fail
            } else {
                let j = spec_skip_ws(s, i + 1);
                if j < s.len() && s[j] == 125 {
                    Step::Done(SpecJson::Obj(Seq::empty()), j + 1)
                } else {
                    obj_step(spec_parse_members(s, j, d - 1, f - 1, Seq::empty()))
                }
            }
        } else if c == 91 {
            if d <= 0 {
                Step::Fail
            } else {
                let j = spec_skip_ws(s, i + 1);
                if j < s.len() && s[j] == 93 {
                    Step::Done(SpecJson::Arr(Seq::empty()), j + 1)
                } else {
                    arr_step(spec_parse_items(s, j, d - 1, f - 1, Seq::empty()))
                }
            }
        } else if c == 45 || is_dec_digit(c) {
            match spec_parse_number(s, i) {
                Option::Some((lx, j)) => Step::Done(SpecJson::Num(lx), j),
                Option::None => Step::Fail,
            }
        } else {
            Step::Fail
        }
    }
}

/// The members of an object from `i` (at a key's opening quote) to the
/// closing brace, accumulated onto `acc`.
pub open spec fn spec_parse_members(
    s: Seq<u8>,
    i: int,
    d: int,
    f: int,
    acc: Seq<(Seq<u8>, SpecJson)>,
) -> Step<Seq<(Seq<u8>, SpecJson)>>
    decreases f, 0int,
{
    if f <= 0 {
        Step::Short
    } else if !(0 <= i < s.len() && s[i] == 34) {
        Step::Fail
    } else {
        match spec_parse_string(s, i + 1) {
            Option::None => Step::Fail,
            Option::Some((key, j2)) => {
                let j3 = spec_skip_ws(s, j2);
                if !(j3 < s.len() && s[j3] == 58) {
                    Step::Fail
                } else {
                    let j4 = spec_skip_ws(s, j3 + 1);
                    match spec_parse_value(s, j4, d, f - 1) {
                        Step::Short => Step::Short,
                        Step::Fail => Step::Fail,
                        Step::Done(v, j5) => {
                            let j6 = spec_skip_ws(s, j5);
                            if j6 >= s.len() {
                                Step::Fail
                            } else if s[j6] == 44 {
                                spec_parse_members(
                                    s,
                                    spec_skip_ws(s, j6 + 1),
                                    d,
                                    f - 1,
                                    acc.push((key, v)),
                                )
                            } else if s[j6] == 125 {
                                Step::Done(acc.push((key, v)), j6 + 1)
                            } else {
                                Step::Fail
                            }
                        },
                    }
                }
            },
        }
    }
}

/// The items of an array from `i` (at the first item) to the closing
/// bracket, accumulated onto `acc`.
pub open spec fn spec_parse_items(s: Seq<u8>, i: int, d: int, f: int, acc: Seq<SpecJson>) -> Step<
    Seq<SpecJson>,
>
    decreases f, 0int,
{
    if f <= 0 {
        Step::Short
    } else {
        match spec_parse_value(s, i, d, f - 1) {
            Step::Short => Step::Short,
            Step::Fail => Step::Fail,
            Step::Done(v, j2) => {
                let j3 = spec_skip_ws(s, j2);
                if j3 >= s.len() {
                    Step::Fail
                } else if s[j3] == 44 {
                    spec_parse_items(s, spec_skip_ws(s, j3 + 1), d, f - 1, acc.push(v))
                } else if s[j3] == 93 {
                    Step::Done(acc.push(v), j3 + 1)
                } else {
                    Step::Fail
                }
            },
        }
    }
}

/// The meaning of a complete JSON text: one value amid whitespace, parsed
/// with the fixed nesting bound and an always-sufficient budget.
pub open spec fn spec_parse_json(s: Seq<u8>) -> Option<SpecJson> {
    let i = spec_skip_ws(s, 0);
    match spec_parse_value(s, i, 128, 2 * (s.len() as int) + 1) {
        Step::Done(v, j) => if spec_skip_ws(s, j) == s.len() {
            Option::Some(v)
        } else {
            Option::None
        },
        _ => Option::None,
    }
}

} // verus!

// The executable parser, each function proved equal to its spec twin.

verus! {

/// Copies `s[a..b]` into a fresh vector.
pub fn copy_range(s: &[u8], a: usize, b: usize) -> (r: Vec<u8>)
    requires
        a <= b <= s.len(),
    ensures
        r@ == s@.subrange(a as int, b as int),
{
    let mut out: Vec<u8> = Vec::new();
    let mut i: usize = a;
    while i < b
        invariant
            a <= i <= b <= s.len(),
            out@ == s@.subrange(a as int, i as int),
        decreases b - i,
    {
        out.push(s[i]);
        proof {
            assert(out@ =~= s@.subrange(a as int, i + 1));
        }
        i = i + 1;
    }
    out
}

/// First index at or after `i` without whitespace.
fn skip_ws(s: &[u8], i: usize) -> (j: usize)
    requires
        i <= s.len(),
    ensures
        i <= j <= s.len(),
        j as int == spec_skip_ws(s@, i as int),
{
    let mut j: usize = i;
    while j < s.len() && (s[j] == 32 || s[j] == 9 || s[j] == 10 || s[j] == 13)
        invariant
            i <= j <= s.len(),
            spec_skip_ws(s@, i as int) == spec_skip_ws(s@, j as int),
        decreases s.len() - j,
    {
        j = j + 1;
    }
    j
}

/// Value of one hexadecimal digit, if `c` is one.
fn hex_digit_value(c: u8) -> (r: Option<u8>)
    ensures
        r is Some <==> is_hex_digit(c),
        r matches Some(v) ==> v as int == hex_digit_val(c),
{
    if 48 <= c && c <= 57 {
        Some(c - 48)
    } else if 97 <= c && c <= 102 {
        Some(c - 87)
    } else if 65 <= c && c <= 70 {
        Some(c - 55)
    } else {
        None
    }
}

/// Reads four hexadecimal digits starting at `i`.
fn parse_hex4(s: &[u8], i: usize) -> (r: Option<u32>)
    requires
        i <= s.len(),
    ensures
        match r {
            Some(v) => spec_hex4(s@, i as int) == Some(v as int) && v < 0x10000,
            None => spec_hex4(s@, i as int) is None,
        },
{
    if s.len() - i < 4 {
        return None;
    }
    let a = match hex_digit_value(s[i]) {
        Some(v) => v,
        None => return None,
    };
    let b = match hex_digit_value(s[i + 1]) {
        Some(v) => v,
        None => return None,
    };
    let c = match hex_digit_value(s[i + 2]) {
        Some(v) => v,
        None => return None,
    };
    let d = match hex_digit_value(s[i + 3]) {
        Some(v) => v,
        None => return None,
    };
    Some(((a as u32) * 4096) + ((b as u32) * 256) + ((c as u32) * 16) + (d as u32))
}

/// Appends the UTF-8 bytes of the scalar value `cp` to `out`.
fn push_utf8(cp: u32, out: &mut Vec<u8>)
    requires
        cp < 0x110000,
    ensures
        final(out)@ == old(out)@ + spec_utf8_of(cp as int),
{
    if cp < 0x80 {
        out.push(cp as u8);
    } else if cp < 0x800 {
        out.push((192 + cp / 64) as u8);
        out.push((128 + cp % 64) as u8);
    } else if cp < 0x10000 {
        out.push((224 + cp / 4096) as u8);
        out.push((128 + (cp / 64) % 64) as u8);
        out.push((128 + cp % 64) as u8);
    } else {
        out.push((240 + cp / 262144) as u8);
        out.push((128 + (cp / 4096) % 64) as u8);
        out.push((128 + (cp / 64) % 64) as u8);
        out.push((128 + cp % 64) as u8);
    }
    proof {
        assert(out@ =~= old(out)@ + spec_utf8_of(cp as int));
    }
}

/// Reads string content starting just after the opening quote.
#[verifier::loop_isolation(false)]
#[verifier::rlimit(100)]
fn parse_string(s: &[u8], i: usize) -> (r: Option<(Vec<u8>, usize)>)
    requires
        i <= s.len(),
    ensures
        match r {
            Some(p) => spec_parse_string(s@, i as int) == Some((p.0@, p.1 as int)) && i < p.1
                <= s.len(),
            None => spec_parse_string(s@, i as int) is None,
        },
{
    let mut out: Vec<u8> = Vec::new();
    let mut j: usize = i;
    while j < s.len()
        invariant
            i <= j <= s.len(),
            spec_parse_string(s@, i as int) == scons(out@, spec_parse_string(s@, j as int)),
        decreases s.len() - j,
    {
        let ghost pre = out@;
        let c = s[j];
        if c == 34 {
            proof {
                assert(spec_parse_string(s@, j as int) == Some((Seq::<u8>::empty(), j + 1)));
                assert(pre + Seq::<u8>::empty() =~= pre);
            }
            return Some((out, j + 1));
        }
        if c == 92 {
            if s.len() - j < 2 {
                return None;
            }
            let e = s[j + 1];
            if e == 34 || e == 92 || e == 47 {
                out.push(e);
                proof {
                    assert(out@ =~= pre + seq![e]);
                }
                j = j + 2;
            } else if e == 98 {
                out.push(8);
                proof {
                    assert(out@ =~= pre + seq![8u8]);
                }
                j = j + 2;
            } else if e == 102 {
                out.push(12);
                proof {
                    assert(out@ =~= pre + seq![12u8]);
                }
                j = j + 2;
            } else if e == 110 {
                out.push(10);
                proof {
                    assert(out@ =~= pre + seq![10u8]);
                }
                j = j + 2;
            } else if e == 114 {
                out.push(13);
                proof {
                    assert(out@ =~= pre + seq![13u8]);
                }
                j = j + 2;
            } else if e == 116 {
                out.push(9);
                proof {
                    assert(out@ =~= pre + seq![9u8]);
                }
                j = j + 2;
            } else if e == 117 {
                if s.len() - j < 6 {
                    return None;
                }
                let v = match parse_hex4(s, j + 2) {
                    Some(v) => v,
                    None => return None,
                };
                if v >= 0xD800 && v < 0xDC00 {
                    if s.len() - j < 12 {
                        return None;
                    }
                    if s[j + 6] != 92 || s[j + 7] != 117 {
                        return None;
                    }
                    let w = match parse_hex4(s, j + 8) {
                        Some(w) => w,
                        None => return None,
                    };
                    if !(w >= 0xDC00 && w < 0xE000) {
                        return None;
                    }
                    let cp: u32 = 0x10000 + (v - 0xD800) * 1024 + (w - 0xDC00);
                    push_utf8(cp, &mut out);
                    j = j + 12;
                } else if v >= 0xDC00 && v < 0xE000 {
                    return None;
                } else {
                    push_utf8(v, &mut out);
                    j = j + 6;
                }
            } else {
                return None;
            }
        } else if c < 32 {
            return None;
        } else if c < 0x80 {
            out.push(c);
            proof {
                assert(out@ =~= pre + seq![c]);
            }
            j = j + 1;
        } else if c < 0xC2 {
            return None;
        } else if c <= 0xDF {
            if s.len() - j < 2 || !(128 <= s[j + 1] && s[j + 1] <= 191) {
                return None;
            }
            out.push(c);
            out.push(s[j + 1]);
            proof {
                assert(out@ =~= pre + seq![c, s@[j + 1]]);
            }
            j = j + 2;
        } else if c <= 0xEF {
            if s.len() - j < 3 {
                return None;
            }
            let m = s[j + 1];
            let ok1 = if c == 0xE0 {
                0xA0 <= m && m <= 0xBF
            } else if c == 0xED {
                0x80 <= m && m <= 0x9F
            } else {
                128 <= m && m <= 191
            };
            if !ok1 || !(128 <= s[j + 2] && s[j + 2] <= 191) {
                return None;
            }
            out.push(c);
            out.push(s[j + 1]);
            out.push(s[j + 2]);
            proof {
                assert(out@ =~= pre + seq![c, s@[j + 1], s@[j + 2]]);
            }
            j = j + 3;
        } else if c <= 0xF4 {
            if s.len() - j < 4 {
                return None;
            }
            let m = s[j + 1];
            let ok1 = if c == 0xF0 {
                0x90 <= m && m <= 0xBF
            } else if c == 0xF4 {
                0x80 <= m && m <= 0x8F
            } else {
                128 <= m && m <= 191
            };
            if !ok1 || !(128 <= s[j + 2] && s[j + 2] <= 191) || !(128 <= s[j + 3] && s[j + 3]
                <= 191) {
                return None;
            }
            out.push(c);
            out.push(s[j + 1]);
            out.push(s[j + 2]);
            out.push(s[j + 3]);
            proof {
                assert(out@ =~= pre + seq![c, s@[j + 1], s@[j + 2], s@[j + 3]]);
            }
            j = j + 4;
        } else {
            return None;
        }
        proof {
            if spec_parse_string(s@, j as int) is Some {
                let t = spec_parse_string(s@, j as int)->Some_0.0;
                assert(pre + (out@.subrange(pre.len() as int, out@.len() as int) + t) =~= out@
                    + t);
            }
        }
    }
    None
}

/// First index at or after `i` without a decimal digit.
fn scan_digits(s: &[u8], i: usize) -> (j: usize)
    requires
        i <= s.len(),
    ensures
        i <= j <= s.len(),
        j as int == spec_scan_digits(s@, i as int),
{
    let mut j: usize = i;
    while j < s.len() && 48 <= s[j] && s[j] <= 57
        invariant
            i <= j <= s.len(),
            spec_scan_digits(s@, i as int) == spec_scan_digits(s@, j as int),
        decreases s.len() - j,
    {
        j = j + 1;
    }
    j
}

/// Lexes a JSON number starting at `i` and keeps its text.
fn parse_number(s: &[u8], i: usize) -> (r: Option<(Vec<u8>, usize)>)
    requires
        i < s.len(),
    ensures
        match r {
            Some(p) => spec_parse_number(s@, i as int) == Some((p.0@, p.1 as int)) && i < p.1
                <= s.len(),
            None => spec_parse_number(s@, i as int) is None,
        },
{
    let mut j: usize = i;
    if s[j] == 45 {
        j = j + 1;
    }
    if j >= s.len() {
        return None;
    }
    if s[j] == 48 {
        j = j + 1;
    } else if 49 <= s[j] && s[j] <= 57 {
        j = scan_digits(s, j + 1);
    } else {
        return None;
    }
    if j < s.len() && s[j] == 46 {
        if j + 1 < s.len() && 48 <= s[j + 1] && s[j + 1] <= 57 {
            j = scan_digits(s, j + 1);
        } else {
            return None;
        }
    }
    if j < s.len() && (s[j] == 101 || s[j] == 69) {
        let j1: usize = if s.len() - j >= 2 && (s[j + 1] == 43 || s[j + 1] == 45) {
            j + 2
        } else {
            j + 1
        };
        if j1 < s.len() && 48 <= s[j1] && s[j1] <= 57 {
            j = scan_digits(s, j1);
        } else {
            return None;
        }
    }
    Some((copy_range(s, i, j), j))
}

} // verus!

// The structural parser. The ghost `fuel` mirrors the spec twins' budget
// exactly, so each contract is an equality at a known budget; the budget
// bound in the preconditions is maintained by arithmetic alone.

verus! {

/// Parses one JSON value starting exactly at `i`, with `d` container
/// levels still allowed.
#[verifier::loop_isolation(false)]
#[verifier::rlimit(100)]
fn parse_value(s: &[u8], i: usize, d: u32, fuel: Ghost<int>) -> (r: Option<(JsonValue, usize)>)
    requires
        i <= s.len(),
        fuel@ >= 2 * (s.len() - i) + 1,
    ensures
        match r {
            Some(p) => spec_parse_value(s@, i as int, d as int, fuel@) == Step::Done::<SpecJson>(
                view_json(p.0),
                p.1 as int,
            ) && i < p.1 <= s.len(),
            None => spec_parse_value(s@, i as int, d as int, fuel@) == Step::Fail::<SpecJson>,
        },
    decreases s.len() - i,
{
    if i >= s.len() {
        return None;
    }
    let c = s[i];
    if c == 110 {
        if s.len() - i >= 4 && s[i + 1] == 117 && s[i + 2] == 108 && s[i + 3] == 108 {
            Some((JsonValue::Null, i + 4))
        } else {
            None
        }
    } else if c == 116 {
        if s.len() - i >= 4 && s[i + 1] == 114 && s[i + 2] == 117 && s[i + 3] == 101 {
            Some((JsonValue::Bool(true), i + 4))
        } else {
            None
        }
    } else if c == 102 {
        if s.len() - i >= 5 && s[i + 1] == 97 && s[i + 2] == 108 && s[i + 3] == 115 && s[i + 4]
            == 101 {
            Some((JsonValue::Bool(false), i + 5))
        } else {
            None
        }
    } else if c == 34 {
        match parse_string(s, i + 1) {
            Some((content, j)) => Some((JsonValue::Str(content), j)),
            None => None,
        }
    } else if c == 123 {
        if d == 0 {
            return None;
        }
        let mut j = skip_ws(s, i + 1);
        if j < s.len() && s[j] == 125 {
            let ms: Vec<(Vec<u8>, JsonValue)> = Vec::new();
            proof {
                assert(view_members(ms@) =~= Seq::<(Seq<u8>, SpecJson)>::empty());
            }
            return Some((JsonValue::Obj(ms), j + 1));
        }
        let mut ms: Vec<(Vec<u8>, JsonValue)> = Vec::new();
        let ghost f0 = fuel@;
        let ghost mut fj: int = fuel@ - 1;
        proof {
            assert(view_members(ms@) =~= Seq::<(Seq<u8>, SpecJson)>::empty());
        }
        loop
            invariant
                i < j <= s.len(),
                1 <= d,
                fj >= 2 * (s.len() - j) + 2,
                spec_parse_value(s@, i as int, d as int, f0) == obj_step(
                    spec_parse_members(s@, j as int, d as int - 1, fj, view_members(ms@)),
                ),
            decreases s.len() - j,
        {
            let ghost msv = view_members(ms@);
            if j >= s.len() || s[j] != 34 {
                return None;
            }
            let (key, j2) = match parse_string(s, j + 1) {
                Some(p) => p,
                None => return None,
            };
            let j3 = skip_ws(s, j2);
            if j3 >= s.len() || s[j3] != 58 {
                return None;
            }
            let j4 = skip_ws(s, j3 + 1);
            proof {
                assert(fj - 1 >= 2 * (s@.len() - j4) + 1);
            }
            let (val, j5) = match parse_value(s, j4, d - 1, Ghost(fj - 1)) {
                Some(p) => p,
                None => return None,
            };
            let ghost keyv = key@;
            let ghost valv = view_json(val);
            let ghost msvec = ms@;
            ms.push((key, val));
            proof {
                assert(ms@.drop_last() =~= msvec);
                assert(ms@.last() == (ms@[ms@.len() - 1].0, ms@[ms@.len() - 1].1));
                assert(ms@.last().0@ == keyv);
                assert(view_json(ms@.last().1) == valv);
                assert(view_members(ms@) == view_members(msvec).push((keyv, valv)));
                assert(view_members(ms@) == msv.push((keyv, valv)));
            }
            let j6 = skip_ws(s, j5);
            if j6 >= s.len() {
                return None;
            }
            if s[j6] == 44 {
                let jn = skip_ws(s, j6 + 1);
                proof {
                    assert(spec_parse_members(s@, j as int, d as int - 1, fj, msv)
                        == spec_parse_members(
                        s@,
                        jn as int,
                        d as int - 1,
                        fj - 1,
                        msv.push((keyv, valv)),
                    ));
                    fj = fj - 1;
                }
                j = jn;
            } else if s[j6] == 125 {
                proof {
                    assert(spec_parse_members(s@, j as int, d as int - 1, fj, msv)
                        == Step::Done::<Seq<(Seq<u8>, SpecJson)>>(
                        msv.push((keyv, valv)),
                        j6 + 1,
                    ));
                }
                return Some((JsonValue::Obj(ms), j6 + 1));
            } else {
                return None;
            }
        }
    } else if c == 91 {
        if d == 0 {
            return None;
        }
        let mut j = skip_ws(s, i + 1);
        if j < s.len() && s[j] == 93 {
            let items: Vec<JsonValue> = Vec::new();
            proof {
                assert(view_list(items@) =~= Seq::<SpecJson>::empty());
            }
            return Some((JsonValue::Arr(items), j + 1));
        }
        let mut items: Vec<JsonValue> = Vec::new();
        let ghost f0 = fuel@;
        let ghost mut fj: int = fuel@ - 1;
        proof {
            assert(view_list(items@) =~= Seq::<SpecJson>::empty());
        }
        loop
            invariant
                i < j <= s.len(),
                1 <= d,
                fj >= 2 * (s.len() - j) + 2,
                spec_parse_value(s@, i as int, d as int, f0) == arr_step(
                    spec_parse_items(s@, j as int, d as int - 1, fj, view_list(items@)),
                ),
            decreases s.len() - j,
        {
            let ghost lv = view_list(items@);
            proof {
                assert(fj - 1 >= 2 * (s@.len() - j) + 1);
            }
            let (val, j2) = match parse_value(s, j, d - 1, Ghost(fj - 1)) {
                Some(p) => p,
                None => return None,
            };
            let ghost valv = view_json(val);
            let ghost ivec = items@;
            items.push(val);
            proof {
                assert(items@.drop_last() =~= ivec);
                assert(view_json(items@.last()) == valv);
                assert(view_list(items@) == view_list(ivec).push(valv));
                assert(view_list(items@) == lv.push(valv));
            }
            let j3 = skip_ws(s, j2);
            if j3 >= s.len() {
                return None;
            }
            if s[j3] == 44 {
                let jn = skip_ws(s, j3 + 1);
                proof {
                    assert(spec_parse_items(s@, j as int, d as int - 1, fj, lv)
                        == spec_parse_items(s@, jn as int, d as int - 1, fj - 1, lv.push(valv)));
                    fj = fj - 1;
                }
                j = jn;
            } else if s[j3] == 93 {
                proof {
                    assert(spec_parse_items(s@, j as int, d as int - 1, fj, lv)
                        == Step::Done::<Seq<SpecJson>>(lv.push(valv), j3 + 1));
                }
                return Some((JsonValue::Arr(items), j3 + 1));
            } else {
                return None;
            }
        }
    } else if c == 45 || (48 <= c && c <= 57) {
        match parse_number(s, i) {
            Some((lx, j)) => Some((JsonValue::Num(lx), j)),
            None => None,
        }
    } else {
        None
    }
}

/// Parses a complete JSON text: one value, possibly surrounded by
/// whitespace, nested at most 128 container levels deep.
pub(crate) fn parse_json(s: &[u8]) -> (r: Option<JsonValue>)
    ensures
        match r {
            Some(v) => spec_parse_json(s@) == Some(view_json(v)),
            None => spec_parse_json(s@) is None,
        },
{
    let i = skip_ws(s, 0);
    let ghost f = 2 * (s@.len() as int) + 1;
    match parse_value(s, i, 128, Ghost(f)) {
        Some((v, j)) => {
            let k = skip_ws(s, j);
            if k == s.len() {
                Some(v)
            } else {
                None
            }
        },
        None => None,
    }
}

} // verus!
