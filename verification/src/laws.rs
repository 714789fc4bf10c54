//! Laws of the parser, stated over the specification grammar and proved
//! once and for all: what a successfully parsed value tolerates after it,
//! and what it does not.

use vstd::prelude::*;
use crate::diag::sp_error_of;
use crate::grammar::{
    is_digit, is_ws, rem, sp_array, sp_array_rest, sp_digits, sp_ensure_end, sp_hex4, sp_hexdig,
    sp_member, sp_member_value, sp_number, sp_object, sp_object_rest, sp_string,
    sp_string_unicode, sp_value, sp_value_at, Fault, Step,
};
use crate::parser::sp_parse;
use crate::value::Error;
use vstd::utf8::{
    encode_scalar, encode_utf8, encode_utf8_valid_utf8, is_continuation_byte, is_scalar,
    length_of_first_scalar, pop_first_scalar, take_first_scalar, valid_first_scalar, valid_utf8,
    valid_utf8_concat,
};

verus! {

/// A run of whitespace up to the end of the input is accepted.
proof fn lemma_ensure_end_all_ws(s: Seq<u8>, i: int)
    requires
        0 <= i,
        forall|m: int| i <= m < s.len() ==> is_ws(s[m]),
    ensures
        sp_ensure_end(s, i) == Option::<Fault>::None,
    decreases rem(s, i),
{
    if i < s.len() {
        lemma_ensure_end_all_ws(s, i + 1);
    }
}

/// When the tail is accepted, it was whitespace throughout.
proof fn lemma_ensure_end_ws_only(s: Seq<u8>, i: int)
    requires
        0 <= i,
        sp_ensure_end(s, i) == Option::<Fault>::None,
    ensures
        forall|m: int| i <= m < s.len() ==> is_ws(s[m]),
    decreases rem(s, i),
{
    if i < s.len() {
        lemma_ensure_end_ws_only(s, i + 1);
    }
}

/// The tail check fails exactly at the first byte that is not whitespace.
proof fn lemma_ensure_end_first_bad(s: Seq<u8>, i: int, j: int)
    requires
        0 <= i <= j < s.len(),
        forall|m: int| i <= m < j ==> is_ws(s[m]),
        !is_ws(s[j]),
    ensures
        sp_ensure_end(s, i) == Option::Some(Fault::Byte { at: j }),
    decreases j - i,
{
    if i < j {
        lemma_ensure_end_first_bad(s, i + 1, j);
    }
}

/// A digit run neither sees nor crosses appended whitespace: whitespace is
/// no digit, and a run that ended at the old end of input ends there still.
proof fn lemma_digits_frame(s: Seq<u8>, t: Seq<u8>, i: int, acc: Seq<u8>)
    requires
        0 <= i,
        forall|m: int| 0 <= m < t.len() ==> is_ws(t[m]),
    ensures
        sp_digits(s + t, i, acc) == sp_digits(s, i, acc),
    decreases rem(s + t, i),
{
    if i < s.len() && is_digit(s[i]) {
        lemma_digits_frame(s, t, i + 1, acc.push((s[i] - 48) as u8));
    } else if s.len() <= i < (s + t).len() {
        assert(!is_digit((s + t)[i]));
    }
}

/// A hex digit that was read stays the same under appended whitespace.
proof fn lemma_hexdig_frame(s: Seq<u8>, t: Seq<u8>, i: int)
    requires
        0 <= i,
        sp_hexdig(s, i) matches Step::Done { v: _, n: _ },
    ensures
        sp_hexdig(s + t, i) == sp_hexdig(s, i),
{
}

/// Four hex digits that were read stay the same under appended whitespace.
proof fn lemma_hex4_frame(s: Seq<u8>, t: Seq<u8>, i: int)
    requires
        0 <= i,
        sp_hex4(s, i) matches Step::Done { v: _, n: _ },
    ensures
        sp_hex4(s + t, i) == sp_hex4(s, i),
{
    lemma_hexdig_frame(s, t, i);
    lemma_hexdig_frame(s, t, i + 1);
    lemma_hexdig_frame(s, t, i + 2);
    lemma_hexdig_frame(s, t, i + 3);
}

/// A string that was read completely stays the same under appended
/// whitespace.
proof fn lemma_string_frame(s: Seq<u8>, t: Seq<u8>, i: int, acc: Seq<u8>)
    requires
        0 <= i,
        forall|m: int| 0 <= m < t.len() ==> is_ws(t[m]),
        sp_string(s, i, acc) matches Step::Done { v: _, n: _ },
    ensures
        sp_string(s + t, i, acc) == sp_string(s, i, acc),
    decreases rem(s, i), 1int,
{
    let b = s[i];
    if b == 34 {
    } else if b == 92 {
        let e = s[i + 1];
        if e == 34 || e == 92 || e == 47 {
            lemma_string_frame(s, t, i + 2, acc.push(e));
        } else if e == 98 {
            lemma_string_frame(s, t, i + 2, acc.push(8));
        } else if e == 102 {
            lemma_string_frame(s, t, i + 2, acc.push(12));
        } else if e == 116 {
            lemma_string_frame(s, t, i + 2, acc.push(9));
        } else if e == 114 {
            lemma_string_frame(s, t, i + 2, acc.push(13));
        } else if e == 110 {
            lemma_string_frame(s, t, i + 2, acc.push(10));
        } else {
            lemma_string_unicode_frame(s, t, i, acc);
        }
    } else {
        lemma_string_frame(s, t, i + 1, acc.push(b));
    }
}

/// A `\u` escape that was read completely stays the same under appended
/// whitespace.
proof fn lemma_string_unicode_frame(s: Seq<u8>, t: Seq<u8>, i: int, acc: Seq<u8>)
    requires
        0 <= i,
        forall|m: int| 0 <= m < t.len() ==> is_ws(t[m]),
        sp_string_unicode(s, i, acc) matches Step::Done { v: _, n: _ },
    ensures
        sp_string_unicode(s + t, i, acc) == sp_string_unicode(s, i, acc),
    decreases rem(s, i), 0int,
{
    lemma_hex4_frame(s, t, i + 2);
    match sp_hex4(s, i + 2) {
        Step::Stop { f } => {},
        Step::Done { v: cp, n: _ } => {
            if 0xD800 <= cp && cp <= 0xDBFF {
                lemma_hex4_frame(s, t, i + 8);
                match sp_hex4(s, i + 8) {
                    Step::Stop { f } => {},
                    Step::Done { v: lo, n: _ } => {
                        if 0xDC00 <= lo && lo <= 0xDFFF {
                            let scalar = ((cp - 0xD800) * 1024 + (lo - 0xDC00) + 0x10000) as u32;
                            lemma_string_frame(
                                s,
                                t,
                                i + 12,
                                acc + vstd::utf8::encode_scalar(scalar),
                            );
                        }
                    },
                }
            } else if 0xDC00 <= cp && cp <= 0xDFFF {
            } else {
                lemma_string_frame(s, t, i + 6, acc + vstd::utf8::encode_scalar(cp));
            }
        },
    }
}

/// A number that was read completely stays the same under appended
/// whitespace: a digit run ends alike at whitespace and at the end of the
/// input, and whitespace begins no fraction or exponent.
proof fn lemma_number_frame(s: Seq<u8>, t: Seq<u8>, i: int)
    requires
        0 <= i,
        forall|m: int| 0 <= m < t.len() ==> is_ws(t[m]),
        sp_number(s, i) matches Step::Done { v: _, n: _ },
    ensures
        sp_number(s + t, i) == sp_number(s, i),
{
    let neg = i < s.len() && s[i] == 45;
    let j = if neg {
        i + 1
    } else {
        i
    };
    lemma_digits_frame(s, t, j, Seq::empty());
    let (ints, ci) = if s[j] == 48 {
        (seq![0u8], 1nat)
    } else {
        sp_digits(s, j, Seq::empty())
    };
    let p = j + ci;
    if p < s.len() && s[p] == 46 {
        lemma_digits_frame(s, t, p + 1, Seq::empty());
        let (fr, cf) = sp_digits(s, p + 1, Seq::empty());
        lemma_exponent_frame(s, t, p + 1 + cf);
    } else {
        lemma_exponent_frame(s, t, p);
    }
}

/// The exponent part alike: helper for the number frame lemma, covering the
/// digit runs that may stand at `q`.
proof fn lemma_exponent_frame(s: Seq<u8>, t: Seq<u8>, q: int)
    requires
        0 <= q,
        forall|m: int| 0 <= m < t.len() ==> is_ws(t[m]),
    ensures
        (q < s.len() && (s[q] == 101 || s[q] == 69)) ==> {
            let k = if q + 1 < s.len() && (s[q + 1] == 45 || s[q + 1] == 43) {
                q + 2
            } else {
                q + 1
            };
            sp_digits(s + t, k, Seq::empty()) == sp_digits(s, k, Seq::empty())
        },
{
    if q < s.len() && (s[q] == 101 || s[q] == 69) {
        let k = if q + 1 < s.len() && (s[q + 1] == 45 || s[q + 1] == 43) {
            q + 2
        } else {
            q + 1
        };
        lemma_digits_frame(s, t, k, Seq::empty());
    }
}

/// A value that was parsed completely stays the same under appended
/// whitespace.
proof fn lemma_value_frame(s: Seq<u8>, t: Seq<u8>, i: int)
    requires
        0 <= i,
        forall|m: int| 0 <= m < t.len() ==> is_ws(t[m]),
        sp_value(s, i) matches Step::Done { v: _, n: _ },
    ensures
        sp_value(s + t, i) == sp_value(s, i),
    decreases rem(s, i), 4int,
{
    if is_ws(s[i]) {
        lemma_value_frame(s, t, i + 1);
    } else {
        lemma_value_at_frame(s, t, i);
    }
}

/// The dispatched value alike.
proof fn lemma_value_at_frame(s: Seq<u8>, t: Seq<u8>, i: int)
    requires
        0 <= i,
        forall|m: int| 0 <= m < t.len() ==> is_ws(t[m]),
        sp_value_at(s, i) matches Step::Done { v: _, n: _ },
    ensures
        sp_value_at(s + t, i) == sp_value_at(s, i),
    decreases rem(s, i), 3int,
{
    let b = s[i];
    if b == 123 {
        lemma_object_frame(s, t, i + 1);
    } else if b == 91 {
        lemma_array_frame(s, t, i + 1);
    } else if b == 34 {
        lemma_string_frame(s, t, i + 1, Seq::empty());
    } else if b == 45 || is_digit(b) {
        lemma_number_frame(s, t, i);
    }
}

/// An array that was parsed completely stays the same under appended
/// whitespace.
proof fn lemma_array_frame(s: Seq<u8>, t: Seq<u8>, i: int)
    requires
        0 <= i,
        forall|m: int| 0 <= m < t.len() ==> is_ws(t[m]),
        sp_array(s, i) matches Step::Done { v: _, n: _ },
    ensures
        sp_array(s + t, i) == sp_array(s, i),
    decreases rem(s, i), 4int,
{
    if is_ws(s[i]) {
        lemma_array_frame(s, t, i + 1);
    } else if s[i] == 93 {
    } else {
        lemma_value_at_frame(s, t, i);
        match sp_value_at(s, i) {
            Step::Stop { f } => {},
            Step::Done { v, n } => {
                lemma_array_rest_frame(s, t, i + n, seq![v]);
            },
        }
    }
}

/// The comma-separated rest of an array alike.
proof fn lemma_array_rest_frame(s: Seq<u8>, t: Seq<u8>, p: int, acc: Seq<crate::value::SpecValue>)
    requires
        0 <= p,
        forall|m: int| 0 <= m < t.len() ==> is_ws(t[m]),
        sp_array_rest(s, p, acc) matches Step::Done { v: _, n: _ },
    ensures
        sp_array_rest(s + t, p, acc) == sp_array_rest(s, p, acc),
    decreases rem(s, p), 2int,
{
    if is_ws(s[p]) {
        lemma_array_rest_frame(s, t, p + 1, acc);
    } else if s[p] == 93 {
    } else if s[p] == 44 {
        lemma_value_frame(s, t, p + 1);
        match sp_value(s, p + 1) {
            Step::Stop { f } => {},
            Step::Done { v, n } => {
                lemma_array_rest_frame(s, t, p + 1 + n, acc.push(v));
            },
        }
    }
}

/// An object that was parsed completely stays the same under appended
/// whitespace.
proof fn lemma_object_frame(s: Seq<u8>, t: Seq<u8>, i: int)
    requires
        0 <= i,
        forall|m: int| 0 <= m < t.len() ==> is_ws(t[m]),
        sp_object(s, i) matches Step::Done { v: _, n: _ },
    ensures
        sp_object(s + t, i) == sp_object(s, i),
    decreases rem(s, i), 4int,
{
    if is_ws(s[i]) {
        lemma_object_frame(s, t, i + 1);
    } else if s[i] == 125 {
    } else {
        lemma_member_frame(s, t, i);
        match sp_member(s, i) {
            Step::Stop { f } => {},
            Step::Done { v: kv, n } => {
                lemma_object_rest_frame(s, t, i + n, seq![kv]);
            },
        }
    }
}

/// One object member alike.
proof fn lemma_member_frame(s: Seq<u8>, t: Seq<u8>, q: int)
    requires
        0 <= q,
        forall|m: int| 0 <= m < t.len() ==> is_ws(t[m]),
        sp_member(s, q) matches Step::Done { v: _, n: _ },
    ensures
        sp_member(s + t, q) == sp_member(s, q),
    decreases rem(s, q), 3int,
{
    if is_ws(s[q]) {
        lemma_member_frame(s, t, q + 1);
    } else if s[q] == 34 {
        lemma_string_frame(s, t, q + 1, Seq::empty());
        match sp_string(s, q + 1, Seq::empty()) {
            Step::Stop { f } => {},
            Step::Done { v: k, n: ck } => {
                lemma_member_value_frame(s, t, q + 1 + ck);
            },
        }
    }
}

/// A member's colon and value alike.
proof fn lemma_member_value_frame(s: Seq<u8>, t: Seq<u8>, p: int)
    requires
        0 <= p,
        forall|m: int| 0 <= m < t.len() ==> is_ws(t[m]),
        sp_member_value(s, p) matches Step::Done { v: _, n: _ },
    ensures
        sp_member_value(s + t, p) == sp_member_value(s, p),
    decreases rem(s, p), 2int,
{
    if is_ws(s[p]) {
        lemma_member_value_frame(s, t, p + 1);
    } else if s[p] == 58 {
        lemma_value_frame(s, t, p + 1);
    }
}

/// The comma-separated rest of an object alike.
proof fn lemma_object_rest_frame(
    s: Seq<u8>,
    t: Seq<u8>,
    p: int,
    acc: Seq<(Seq<u8>, crate::value::SpecValue)>,
)
    requires
        0 <= p,
        forall|m: int| 0 <= m < t.len() ==> is_ws(t[m]),
        sp_object_rest(s, p, acc) matches Step::Done { v: _, n: _ },
    ensures
        sp_object_rest(s + t, p, acc) == sp_object_rest(s, p, acc),
    decreases rem(s, p), 2int,
{
    if is_ws(s[p]) {
        lemma_object_rest_frame(s, t, p + 1, acc);
    } else if s[p] == 125 {
    } else if s[p] == 44 {
        lemma_member_frame(s, t, p + 1);
        match sp_member(s, p + 1) {
            Step::Stop { f } => {},
            Step::Done { v: kv, n } => {
                lemma_object_rest_frame(
                    s,
                    t,
                    p + 1 + n,
                    crate::grammar::spec_object_insert(acc, kv.0, kv.1),
                );
            },
        }
    }
}

/// A digit run extends its accumulator with values below ten, keeping what
/// was accumulated before.
proof fn lemma_digits_bounds(s: Seq<u8>, i: int, acc: Seq<u8>)
    requires
        0 <= i,
    ensures
        ({
            let (d, c) = sp_digits(s, i, acc);
            &&& d.len() >= acc.len()
            &&& forall|j: int| 0 <= j < acc.len() ==> d[j] == acc[j]
            &&& forall|j: int| acc.len() <= j < d.len() ==> d[j] < 10
        }),
    decreases rem(s, i),
{
    if i < s.len() && is_digit(s[i]) {
        lemma_digits_bounds(s, i + 1, acc.push((s[i] - 48) as u8));
    }
}

/// Law: the digit parts of a parsed number are decimal digit strings: the
/// integer part holds at least one digit, every stored value is a digit
/// value below ten, a leading zero stands alone, and a fraction or an
/// exponent, when present, holds at least one digit.
pub proof fn lemma_number_parts_are_decimal(s: Seq<u8>, i: int)
    requires
        0 <= i,
    ensures
        (match sp_number(s, i) {
            Step::Done { v, n: _ } => {
                &&& v.digits.len() > 0
                &&& forall|j: int| 0 <= j < v.digits.len() ==> v.digits[j] < 10
                &&& forall|j: int| 0 <= j < v.fraction.len() ==> v.fraction[j] < 10
                &&& forall|j: int| 0 <= j < v.exponent.len() ==> v.exponent[j] < 10
                &&& (v.digits[0] == 0 ==> v.digits.len() == 1)
            },
            Step::Stop { f: _ } => true,
        }),
{
    let neg = i < s.len() && s[i] == 45;
    let j = if neg {
        i + 1
    } else {
        i
    };
    if j < s.len() && is_digit(s[j]) {
        if s[j] != 48 {
            lemma_digits_bounds(s, j + 1, seq![(s[j] - 48) as u8]);
        }
        let (ints, ci) = if s[j] == 48 {
            (seq![0u8], 1nat)
        } else {
            sp_digits(s, j, Seq::empty())
        };
        let p = j + ci;
        if p < s.len() && s[p] == 46 {
            if p + 1 < s.len() && is_digit(s[p + 1]) {
                lemma_digits_bounds(s, p + 2, seq![(s[p + 1] - 48) as u8]);
                let (fr, cf) = sp_digits(s, p + 1, Seq::empty());
                lemma_exponent_parts_are_decimal(s, i, p + 1 + cf, neg, ints, fr);
            }
        } else {
            lemma_exponent_parts_are_decimal(s, i, p, neg, ints, Seq::empty());
        }
    }
}

/// The exponent part alike: its digits, when the exponent is present, are
/// digit values below ten.
proof fn lemma_exponent_parts_are_decimal(
    s: Seq<u8>,
    start: int,
    q: int,
    neg: bool,
    ints: Seq<u8>,
    fr: Seq<u8>,
)
    requires
        0 <= q,
    ensures
        (match crate::grammar::sp_exponent(s, start, q, neg, ints, fr) {
            Step::Done { v, n: _ } => forall|j: int|
                0 <= j < v.exponent.len() ==> v.exponent[j] < 10,
            Step::Stop { f: _ } => true,
        }),
{
    if q < s.len() && (s[q] == 101 || s[q] == 69) {
        let k = if q + 1 < s.len() && (s[q + 1] == 45 || s[q + 1] == 43) {
            q + 2
        } else {
            q + 1
        };
        if k < s.len() && is_digit(s[k]) {
            lemma_digits_bounds(s, k + 1, seq![(s[k] - 48) as u8]);
        }
    }
}

/// The comma-separated rest of an object keeps keys unique when they were
/// unique so far: insertion overwrites an existing key in place.
proof fn lemma_object_rest_keys_unique(
    s: Seq<u8>,
    p: int,
    acc: Seq<(Seq<u8>, crate::value::SpecValue)>,
)
    requires
        0 <= p,
        crate::grammar::unique_keys(acc),
    ensures
        (match sp_object_rest(s, p, acc) {
            Step::Done { v, n: _ } => crate::grammar::unique_keys(v),
            Step::Stop { f: _ } => true,
        }),
    decreases rem(s, p), 2int,
{
    if p >= s.len() {
    } else if is_ws(s[p]) {
        lemma_object_rest_keys_unique(s, p + 1, acc);
    } else if s[p] == 44 {
        match sp_member(s, p + 1) {
            Step::Stop { f } => {},
            Step::Done { v: kv, n } => {
                crate::grammar::lemma_object_insert_unique(acc, kv.0, kv.1);
                lemma_object_rest_keys_unique(
                    s,
                    p + 1 + n,
                    crate::grammar::spec_object_insert(acc, kv.0, kv.1),
                );
            },
        }
    }
}

/// Law: every object the grammar assembles has pairwise distinct keys — a
/// duplicate key in the input overwrites the earlier value instead of
/// adding a member (mapping semantics, last write wins).
pub proof fn lemma_object_keys_unique(s: Seq<u8>, i: int)
    requires
        0 <= i,
    ensures
        (match sp_object(s, i) {
            Step::Done { v, n: _ } => crate::grammar::unique_keys(v),
            Step::Stop { f: _ } => true,
        }),
    decreases rem(s, i), 4int,
{
    if i >= s.len() {
    } else if is_ws(s[i]) {
        lemma_object_keys_unique(s, i + 1);
    } else if s[i] == 125 {
    } else {
        match sp_member(s, i) {
            Step::Stop { f } => {},
            Step::Done { v: kv, n } => {
                lemma_object_rest_keys_unique(s, i + n, seq![kv]);
            },
        }
    }
}

/// After an ASCII byte, the rest of a valid UTF-8 suffix is valid too.
proof fn lemma_ascii_pop(s: Seq<u8>, i: int)
    requires
        0 <= i < s.len(),
        valid_utf8(s.subrange(i, s.len() as int)),
        s[i] < 0x80,
    ensures
        valid_utf8(s.subrange(i + 1, s.len() as int)),
{
    let u = s.subrange(i, s.len() as int);
    assert(pop_first_scalar(u) =~= s.subrange(i + 1, s.len() as int));
}

/// Appending one ASCII byte keeps a byte string valid UTF-8.
proof fn lemma_push_ascii_valid(acc: Seq<u8>, b: u8)
    requires
        valid_utf8(acc),
        b < 0x80,
    ensures
        valid_utf8(acc.push(b)),
{
    let one = seq![b];
    assert(pop_first_scalar(one) =~= Seq::<u8>::empty());
    assert(valid_utf8(Seq::<u8>::empty()));
    assert(valid_first_scalar(one));
    assert(valid_utf8(one));
    valid_utf8_concat(acc, one);
    assert(acc.push(b) =~= acc + one);
}

/// The UTF-8 encoding of one Unicode scalar value is valid UTF-8.
proof fn lemma_encode_scalar_valid(cp: u32)
    requires
        is_scalar(cp),
    ensures
        valid_utf8(encode_scalar(cp)),
{
    let c = (cp as char);
    let chars = seq![c];
    encode_utf8_valid_utf8(chars);
    assert(chars.drop_first() =~= Seq::<char>::empty());
    assert(encode_utf8(Seq::<char>::empty()) =~= Seq::<u8>::empty());
    assert(encode_utf8(chars) =~= encode_scalar(cp));
}

/// Law: on valid UTF-8 input, every string body the grammar reads out is
/// itself valid UTF-8: bytes are copied whole characters at a time (the
/// quote and the backslash are ASCII and never split a character), simple
/// escapes decode to ASCII bytes, and `\u` escapes are re-encoded as UTF-8.
pub proof fn lemma_string_bytes_valid_utf8(s: Seq<u8>, i: int, acc: Seq<u8>)
    requires
        0 <= i <= s.len(),
        valid_utf8(s.subrange(i, s.len() as int)),
        valid_utf8(acc),
        sp_string(s, i, acc) matches Step::Done { v: _, n: _ },
    ensures
        (match sp_string(s, i, acc) {
            Step::Done { v, n: _ } => valid_utf8(v),
            Step::Stop { f: _ } => true,
        }),
    decreases rem(s, i), 1int,
{
    let u = s.subrange(i, s.len() as int);
    let b = s[i];
    assert(u[0] == b);
    if b == 34 {
    } else if b == 92 {
        lemma_ascii_pop(s, i);
        let e = s[i + 1];
        if e == 117 {
            assert(sp_string(s, i, acc) == sp_string_unicode(s, i, acc));
            lemma_string_unicode_bytes_valid_utf8(s, i, acc);
        } else {
            // a one-byte escape: both bytes and the decoded byte are ASCII
            lemma_ascii_pop(s, i + 1);
            if e == 34 || e == 92 || e == 47 {
                lemma_push_ascii_valid(acc, e);
                lemma_string_bytes_valid_utf8(s, i + 2, acc.push(e));
            } else if e == 98 {
                lemma_push_ascii_valid(acc, 8);
                lemma_string_bytes_valid_utf8(s, i + 2, acc.push(8));
            } else if e == 102 {
                lemma_push_ascii_valid(acc, 12);
                lemma_string_bytes_valid_utf8(s, i + 2, acc.push(12));
            } else if e == 116 {
                lemma_push_ascii_valid(acc, 9);
                lemma_string_bytes_valid_utf8(s, i + 2, acc.push(9));
            } else if e == 114 {
                lemma_push_ascii_valid(acc, 13);
                lemma_string_bytes_valid_utf8(s, i + 2, acc.push(13));
            } else if e == 110 {
                lemma_push_ascii_valid(acc, 10);
                lemma_string_bytes_valid_utf8(s, i + 2, acc.push(10));
            }
        }
    } else if b < 0x80 {
        // an ordinary ASCII byte is one whole character
        lemma_ascii_pop(s, i);
        lemma_push_ascii_valid(acc, b);
        lemma_string_bytes_valid_utf8(s, i + 1, acc.push(b));
    } else {
        // an ordinary multi-byte character: its continuation bytes are in
        // 0x80..=0xBF, so none of them is a quote or a backslash, and the
        // whole character is copied before the next boundary
        let w = length_of_first_scalar(u);
        let take = take_first_scalar(u);
        let rest = pop_first_scalar(u);
        assert(valid_first_scalar(u));
        assert(2 <= w <= 4);
        assert(rest =~= s.subrange(i + w, s.len() as int));
        assert(pop_first_scalar(take) =~= Seq::<u8>::empty());
        assert(valid_first_scalar(take)) by {
            assert(take[0] == u[0]);
            assert(w >= 2 ==> take[1] == u[1]);
            assert(w >= 3 ==> take[2] == u[2]);
            assert(w >= 4 ==> take[3] == u[3]);
        }
        assert(valid_utf8(Seq::<u8>::empty()));
        assert(valid_utf8(take));
        valid_utf8_concat(acc, take);
        assert(i + w <= s.len());
        let a1 = acc.push(s[i]);
        assert(sp_string(s, i, acc) == crate::grammar::forward(sp_string(s, i + 1, a1), 1));
        if w == 2 {
            assert(is_continuation_byte(s[i + 1]));
            let a2 = a1.push(s[i + 1]);
            assert(sp_string(s, i + 1, a1) == crate::grammar::forward(sp_string(s, i + 2, a2), 1));
            assert(a2 =~= acc + take);
            lemma_string_bytes_valid_utf8(s, i + 2, acc + take);
        } else if w == 3 {
            assert(is_continuation_byte(s[i + 1]) && is_continuation_byte(s[i + 2]));
            let a2 = a1.push(s[i + 1]);
            let a3 = a2.push(s[i + 2]);
            assert(sp_string(s, i + 1, a1) == crate::grammar::forward(sp_string(s, i + 2, a2), 1));
            assert(sp_string(s, i + 2, a2) == crate::grammar::forward(sp_string(s, i + 3, a3), 1));
            assert(a3 =~= acc + take);
            lemma_string_bytes_valid_utf8(s, i + 3, acc + take);
        } else {
            assert(is_continuation_byte(s[i + 1]) && is_continuation_byte(s[i + 2])
                && is_continuation_byte(s[i + 3]));
            let a2 = a1.push(s[i + 1]);
            let a3 = a2.push(s[i + 2]);
            let a4 = a3.push(s[i + 3]);
            assert(sp_string(s, i + 1, a1) == crate::grammar::forward(sp_string(s, i + 2, a2), 1));
            assert(sp_string(s, i + 2, a2) == crate::grammar::forward(sp_string(s, i + 3, a3), 1));
            assert(sp_string(s, i + 3, a3) == crate::grammar::forward(sp_string(s, i + 4, a4), 1));
            assert(a4 =~= acc + take);
            lemma_string_bytes_valid_utf8(s, i + 4, acc + take);
        }
    }
}

/// The `\u` escape alike: the backslash, the `u` and the hex digits are
/// ASCII bytes, and the decoded scalar is re-encoded as valid UTF-8.
proof fn lemma_string_unicode_bytes_valid_utf8(s: Seq<u8>, i: int, acc: Seq<u8>)
    requires
        0 <= i < s.len(),
        s[i] == 92,
        i + 1 < s.len() && s[i + 1] == 117,
        valid_utf8(s.subrange(i, s.len() as int)),
        valid_utf8(acc),
        sp_string_unicode(s, i, acc) matches Step::Done { v: _, n: _ },
    ensures
        (match sp_string_unicode(s, i, acc) {
            Step::Done { v, n: _ } => valid_utf8(v),
            Step::Stop { f: _ } => true,
        }),
    decreases rem(s, i), 0int,
{
    lemma_ascii_pop(s, i);
    lemma_ascii_pop(s, i + 1);
    match sp_hex4(s, i + 2) {
        Step::Stop { f } => {},
        Step::Done { v: cp, n: _ } => {
            lemma_ascii_pop(s, i + 2);
            lemma_ascii_pop(s, i + 3);
            lemma_ascii_pop(s, i + 4);
            lemma_ascii_pop(s, i + 5);
            assert(cp <= 0xFFFF);
            if 0xD800 <= cp && cp <= 0xDBFF {
                match sp_hex4(s, i + 8) {
                    Step::Stop { f } => {},
                    Step::Done { v: lo, n: _ } => {
                        if 0xDC00 <= lo && lo <= 0xDFFF {
                            assert(s[i + 6] == 92 && s[i + 7] == 117);
                            lemma_ascii_pop(s, i + 6);
                            lemma_ascii_pop(s, i + 7);
                            lemma_ascii_pop(s, i + 8);
                            lemma_ascii_pop(s, i + 9);
                            lemma_ascii_pop(s, i + 10);
                            lemma_ascii_pop(s, i + 11);
                            let scalar = ((cp - 0xD800) * 1024 + (lo - 0xDC00) + 0x10000) as u32;
                            lemma_encode_scalar_valid(scalar);
                            valid_utf8_concat(acc, encode_scalar(scalar));
                            assert(sp_string_unicode(s, i, acc) == crate::grammar::forward(
                                sp_string(s, i + 12, acc + encode_scalar(scalar)),
                                12,
                            ));
                            lemma_string_bytes_valid_utf8(s, i + 12, acc + encode_scalar(scalar));
                        }
                    },
                }
            } else if 0xDC00 <= cp && cp <= 0xDFFF {
            } else {
                lemma_encode_scalar_valid(cp);
                valid_utf8_concat(acc, encode_scalar(cp));
                assert(sp_string_unicode(s, i, acc) == crate::grammar::forward(
                    sp_string(s, i + 6, acc + encode_scalar(cp)),
                    6,
                ));
                lemma_string_bytes_valid_utf8(s, i + 6, acc + encode_scalar(cp));
            }
        },
    }
}

/// Law: an input that parses as a whole is one complete value with nothing
/// but whitespace after it.
pub proof fn lemma_success_is_value_then_whitespace(s: Seq<u8>)
    requires
        sp_parse(s) matches Result::Ok(_),
    ensures
        (match sp_value(s, 0) {
            Step::Done { v, n } => sp_parse(s) == Result::<crate::value::SpecValue, Error>::Ok(v)
                && forall|m: int| n <= m < s.len() ==> is_ws(s[m]),
            Step::Stop { f: _ } => false,
        }),
{
    match sp_value(s, 0) {
        Step::Stop { f } => {},
        Step::Done { v, n } => {
            lemma_ensure_end_ws_only(s, n as int);
        },
    }
}

/// Law: an input that parses keeps parsing, to the same value, when only
/// whitespace is appended to it.
pub proof fn lemma_trailing_whitespace_accepted(s: Seq<u8>, t: Seq<u8>)
    requires
        sp_parse(s) matches Result::Ok(_),
        forall|m: int| 0 <= m < t.len() ==> is_ws(t[m]),
    ensures
        sp_parse(s + t) == sp_parse(s),
{
    match sp_value(s, 0) {
        Step::Stop { f } => {},
        Step::Done { v, n } => {
            lemma_value_frame(s, t, 0);
            lemma_ensure_end_ws_only(s, n as int);
            assert forall|m: int| n <= m < (s + t).len() implies is_ws((s + t)[m]) by {
                if m >= s.len() {
                    assert((s + t)[m] == t[m - s.len()]);
                }
            }
            lemma_ensure_end_all_ws(s + t, n as int);
            lemma_ensure_end_all_ws(s, n as int);
        },
    }
}

/// Law: after a complete value, the first byte that is not whitespace makes
/// the whole parse fail, at exactly that byte's position.
pub proof fn lemma_trailing_byte_rejected(s: Seq<u8>, j: int)
    requires
        ({
            &&& sp_value(s, 0) matches Step::Done { v: _, n }
            &&& n <= j < s.len()
            &&& forall|m: int| n <= m < j ==> is_ws(s[m])
            &&& !is_ws(s[j])
        }),
    ensures
        sp_parse(s) == Result::<crate::value::SpecValue, Error>::Err(
            sp_error_of(s, Fault::Byte { at: j }),
        ),
{
    match sp_value(s, 0) {
        Step::Stop { f } => {},
        Step::Done { v, n } => {
            lemma_ensure_end_first_bad(s, n as int, j);
        },
    }
}

} // verus!
