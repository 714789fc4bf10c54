//! The JSON grammar as a specification-level parser over byte sequences.
//!
//! Each `sp_*` function consumes a prefix of `s` starting at position `i` and
//! either succeeds ([`Step::Done`]) with a parsed result and the number of
//! bytes consumed, or fails ([`Step::Stop`]) with the reason and, for an
//! offending byte, its absolute position.  The executable parser is proved to
//! return exactly these results.

use vstd::prelude::*;
use vstd::utf8::encode_scalar;
use crate::value::{SpecNumber, SpecValue};

verus! {

/// Why the specification parser stops: the input ended too early, a byte
/// appeared where the grammar forbids it (`at` is its position), or a `\u`
/// escape did not form a valid scalar.
#[verifier::ext_equal]
pub enum Fault {
    Eof,
    Byte { at: int },
    Utf8,
}

/// Outcome of one specification-level parsing step: a result together with
/// the number of bytes consumed from the starting position, or a fault.
#[verifier::ext_equal]
pub enum Step<T> {
    Done { v: T, n: nat },
    Stop { f: Fault },
}

/// Adds `k` to the consumed count of a successful step: used when a caller
/// has consumed `k` bytes of its own before the sub-parse began.
pub open spec fn forward<T>(st: Step<T>, k: nat) -> Step<T> {
    match st {
        Step::Done { v, n } => Step::Done { v, n: n + k },
        Step::Stop { f } => Step::Stop { f },
    }
}

/// Consumed counts compose: shifting a step twice is shifting it once by
/// the sum.
pub proof fn lemma_forward_add<T>(st: Step<T>, a: nat, b: nat)
    ensures
        forward(forward(st, a), b) == forward(st, a + b),
{
}

/// ASCII whitespace as JSON accepts it between tokens: byte values 9 to 13
/// and 32.
pub open spec fn is_ws(b: u8) -> bool {
    (9 <= b && b <= 13) || b == 32
}

/// An ASCII decimal digit.
pub open spec fn is_digit(b: u8) -> bool {
    48 <= b && b <= 57
}

/// Bytes remaining from position `i`, clamped at zero: the termination
/// measure of every recursive grammar function.
pub open spec fn rem(s: Seq<u8>, i: int) -> nat {
    if i < s.len() {
        (s.len() - i) as nat
    } else {
        0
    }
}

/// The maximal run of digits from `i`, appended to `acc` as digit values,
/// together with the run's length.
pub open spec fn sp_digits(s: Seq<u8>, i: int, acc: Seq<u8>) -> (Seq<u8>, nat)
    decreases rem(s, i),
{
    if i < s.len() && is_digit(s[i]) {
        let (d, c) = sp_digits(s, i + 1, acc.push((s[i] - 48) as u8));
        (d, c + 1)
    } else {
        (acc, 0)
    }
}

/// One hexadecimal digit at `i`, as its value `0..=15`.
pub open spec fn sp_hexdig(s: Seq<u8>, i: int) -> Step<u32> {
    if i >= s.len() {
        Step::Stop { f: Fault::Eof }
    } else {
        let b = s[i];
        if is_digit(b) {
            Step::Done { v: (b - 48) as u32, n: 1 }
        } else if 97 <= b && b <= 102 {
            Step::Done { v: (b - 87) as u32, n: 1 }
        } else if 65 <= b && b <= 70 {
            Step::Done { v: (b - 55) as u32, n: 1 }
        } else {
            Step::Stop { f: Fault::Byte { at: i } }
        }
    }
}

/// Four hexadecimal digits at `i`, combined into one 16-bit code unit.
pub open spec fn sp_hex4(s: Seq<u8>, i: int) -> Step<u32> {
    match sp_hexdig(s, i) {
        Step::Stop { f } => Step::Stop { f },
        Step::Done { v: d0, n: _ } => match sp_hexdig(s, i + 1) {
            Step::Stop { f } => Step::Stop { f },
            Step::Done { v: d1, n: _ } => match sp_hexdig(s, i + 2) {
                Step::Stop { f } => Step::Stop { f },
                Step::Done { v: d2, n: _ } => match sp_hexdig(s, i + 3) {
                    Step::Stop { f } => Step::Stop { f },
                    Step::Done { v: d3, n: _ } => Step::Done {
                        v: (d0 * 4096 + d1 * 256 + d2 * 16 + d3) as u32,
                        n: 4,
                    },
                },
            },
        },
    }
}

/// The body of a string, starting just after the opening quote, with the
/// content bytes decoded so far in `acc`.  Ordinary bytes are kept as they
/// are; escapes are decoded; `\u` escapes (with a surrogate pair where the
/// first code unit is a high surrogate) are re-encoded as UTF-8.  The
/// consumed count includes the closing quote.
pub open spec fn sp_string(s: Seq<u8>, i: int, acc: Seq<u8>) -> Step<Seq<u8>>
    decreases rem(s, i), 1int,
{
    if i >= s.len() {
        Step::Stop { f: Fault::Eof }
    } else {
        let b = s[i];
        if b == 34 {
            Step::Done { v: acc, n: 1 }
        } else if b == 92 {
            if i + 1 >= s.len() {
                Step::Stop { f: Fault::Eof }
            } else {
                let e = s[i + 1];
                if e == 34 || e == 92 || e == 47 {
                    forward(sp_string(s, i + 2, acc.push(e)), 2)
                } else if e == 98 {
                    forward(sp_string(s, i + 2, acc.push(8)), 2)
                } else if e == 102 {
                    forward(sp_string(s, i + 2, acc.push(12)), 2)
                } else if e == 116 {
                    forward(sp_string(s, i + 2, acc.push(9)), 2)
                } else if e == 114 {
                    forward(sp_string(s, i + 2, acc.push(13)), 2)
                } else if e == 110 {
                    forward(sp_string(s, i + 2, acc.push(10)), 2)
                } else if e == 117 {
                    sp_string_unicode(s, i, acc)
                } else {
                    Step::Stop { f: Fault::Byte { at: i + 1 } }
                }
            }
        } else {
            forward(sp_string(s, i + 1, acc.push(b)), 1)
        }
    }
}

/// A `\uXXXX` escape whose backslash stands at `i`.  A code unit in the high
/// surrogate range must be followed immediately by a `\uXXXX` low surrogate;
/// the pair is combined by the standard surrogate formula.  A lone low
/// surrogate, or a high surrogate followed by anything else, is a fault.
pub open spec fn sp_string_unicode(s: Seq<u8>, i: int, acc: Seq<u8>) -> Step<Seq<u8>>
    decreases rem(s, i), 0int,
{
    match sp_hex4(s, i + 2) {
        Step::Stop { f } => Step::Stop { f },
        Step::Done { v: cp, n: _ } => {
            if 0xD800 <= cp && cp <= 0xDBFF {
                if i + 6 >= s.len() {
                    Step::Stop { f: Fault::Eof }
                } else if s[i + 6] != 92 {
                    Step::Stop { f: Fault::Utf8 }
                } else if i + 7 >= s.len() {
                    Step::Stop { f: Fault::Eof }
                } else if s[i + 7] != 117 {
                    Step::Stop { f: Fault::Utf8 }
                } else {
                    match sp_hex4(s, i + 8) {
                        Step::Stop { f } => Step::Stop { f },
                        Step::Done { v: lo, n: _ } => {
                            if 0xDC00 <= lo && lo <= 0xDFFF {
                                let scalar = ((cp - 0xD800) * 1024 + (lo - 0xDC00)
                                    + 0x10000) as u32;
                                forward(sp_string(s, i + 12, acc + encode_scalar(scalar)), 12)
                            } else {
                                Step::Stop { f: Fault::Utf8 }
                            }
                        },
                    }
                }
            } else if 0xDC00 <= cp && cp <= 0xDFFF {
                Step::Stop { f: Fault::Utf8 }
            } else {
                forward(sp_string(s, i + 6, acc + encode_scalar(cp)), 6)
            }
        },
    }
}

/// A number whose first byte (a `-` or a digit) stands at `i`: an optional
/// minus, then a single `0` or a run of digits led by a nonzero digit, then
/// an optional fraction and an optional exponent, each requiring at least one
/// digit.  The byte after the number is left unconsumed.
pub open spec fn sp_number(s: Seq<u8>, i: int) -> Step<SpecNumber> {
    let neg = i < s.len() && s[i] == 45;
    let j = if neg {
        i + 1
    } else {
        i
    };
    if j >= s.len() {
        Step::Stop { f: Fault::Eof }
    } else if !is_digit(s[j]) {
        Step::Stop { f: Fault::Byte { at: j } }
    } else {
        let (ints, ci) = if s[j] == 48 {
            (seq![0u8], 1nat)
        } else {
            sp_digits(s, j, Seq::empty())
        };
        let p = j + ci;
        if p < s.len() && s[p] == 46 {
            if p + 1 >= s.len() {
                Step::Stop { f: Fault::Eof }
            } else if !is_digit(s[p + 1]) {
                Step::Stop { f: Fault::Byte { at: p + 1 } }
            } else {
                let (fr, cf) = sp_digits(s, p + 1, Seq::empty());
                sp_exponent(s, i, p + 1 + cf, neg, ints, fr)
            }
        } else {
            sp_exponent(s, i, p, neg, ints, Seq::empty())
        }
    }
}

/// The optional exponent of a number that began at `start` and whose digits
/// so far end at `q`: `e` or `E`, an optional sign, then at least one digit.
pub open spec fn sp_exponent(
    s: Seq<u8>,
    start: int,
    q: int,
    neg: bool,
    ints: Seq<u8>,
    fr: Seq<u8>,
) -> Step<SpecNumber> {
    if q < s.len() && (s[q] == 101 || s[q] == 69) {
        let eneg = q + 1 < s.len() && s[q + 1] == 45;
        let k = if q + 1 < s.len() && (s[q + 1] == 45 || s[q + 1] == 43) {
            q + 2
        } else {
            q + 1
        };
        if k >= s.len() {
            Step::Stop { f: Fault::Eof }
        } else if !is_digit(s[k]) {
            Step::Stop { f: Fault::Byte { at: k } }
        } else {
            let (ex, ce) = sp_digits(s, k, Seq::empty());
            Step::Done {
                v: SpecNumber {
                    negative: neg,
                    digits: ints,
                    fraction: fr,
                    exponent_negative: eneg,
                    exponent: ex,
                },
                n: (k + ce - start) as nat,
            }
        }
    } else {
        Step::Done {
            v: SpecNumber {
                negative: neg,
                digits: ints,
                fraction: fr,
                exponent_negative: false,
                exponent: Seq::empty(),
            },
            n: (q - start) as nat,
        }
    }
}

/// True when some member of `ms` has key `k`.
pub open spec fn has_key(ms: Seq<(Seq<u8>, SpecValue)>, k: Seq<u8>) -> bool {
    exists|j: int| 0 <= j < ms.len() && ms[j].0 == k
}

/// Mapping-style insertion: a member with key `k` is overwritten in place
/// (last write wins); otherwise the new member is appended.
pub open spec fn spec_object_insert(
    ms: Seq<(Seq<u8>, SpecValue)>,
    k: Seq<u8>,
    v: SpecValue,
) -> Seq<(Seq<u8>, SpecValue)> {
    if has_key(ms, k) {
        Seq::new(
            ms.len(),
            |j: int|
                if ms[j].0 == k {
                    (k, v)
                } else {
                    ms[j]
                },
        )
    } else {
        ms.push((k, v))
    }
}

/// No two members share a key.
pub open spec fn unique_keys(ms: Seq<(Seq<u8>, SpecValue)>) -> bool {
    forall|i: int, j: int| 0 <= i < j < ms.len() ==> ms[i].0 != ms[j].0
}

/// Mapping-style insertion keeps the keys unique.
pub proof fn lemma_object_insert_unique(ms: Seq<(Seq<u8>, SpecValue)>, k: Seq<u8>, v: SpecValue)
    requires
        unique_keys(ms),
    ensures
        unique_keys(spec_object_insert(ms, k, v)),
{
    let r = spec_object_insert(ms, k, v);
    if has_key(ms, k) {
        assert forall|i: int, j: int| 0 <= i < j < r.len() implies r[i].0 != r[j].0 by {
            assert(ms[i].0 != ms[j].0);
        }
    } else {
        assert forall|i: int, j: int| 0 <= i < j < r.len() implies r[i].0 != r[j].0 by {
            if j < ms.len() {
                assert(ms[i].0 != ms[j].0);
            } else {
                assert(r[j].0 == k);
                assert(r[i].0 == ms[i].0);
            }
        }
    }
}

/// One value: leading whitespace, then a dispatch on the first significant
/// byte.
pub open spec fn sp_value(s: Seq<u8>, i: int) -> Step<SpecValue>
    decreases rem(s, i), 4int,
{
    if i >= s.len() {
        Step::Stop { f: Fault::Eof }
    } else if is_ws(s[i]) {
        forward(sp_value(s, i + 1), 1)
    } else {
        sp_value_at(s, i)
    }
}

/// The value whose first significant byte stands exactly at `i`.
pub open spec fn sp_value_at(s: Seq<u8>, i: int) -> Step<SpecValue>
    decreases rem(s, i), 3int,
{
    if i >= s.len() {
        Step::Stop { f: Fault::Eof }
    } else {
        let b = s[i];
        if b == 123 {
            match sp_object(s, i + 1) {
                Step::Stop { f } => Step::Stop { f },
                Step::Done { v, n } => Step::Done { v: SpecValue::Obj(v), n: n + 1 },
            }
        } else if b == 91 {
            match sp_array(s, i + 1) {
                Step::Stop { f } => Step::Stop { f },
                Step::Done { v, n } => Step::Done { v: SpecValue::Arr(v), n: n + 1 },
            }
        } else if b == 34 {
            match sp_string(s, i + 1, Seq::empty()) {
                Step::Stop { f } => Step::Stop { f },
                Step::Done { v, n } => Step::Done { v: SpecValue::Str(v), n: n + 1 },
            }
        } else if b == 45 || is_digit(b) {
            match sp_number(s, i) {
                Step::Stop { f } => Step::Stop { f },
                Step::Done { v, n } => Step::Done { v: SpecValue::Num(v), n },
            }
        } else if b == 116 {
            // the literal `true`
            if i + 1 >= s.len() {
                Step::Stop { f: Fault::Eof }
            } else if s[i + 1] != 114 {
                Step::Stop { f: Fault::Byte { at: i + 1 } }
            } else if i + 2 >= s.len() {
                Step::Stop { f: Fault::Eof }
            } else if s[i + 2] != 117 {
                Step::Stop { f: Fault::Byte { at: i + 2 } }
            } else if i + 3 >= s.len() {
                Step::Stop { f: Fault::Eof }
            } else if s[i + 3] != 101 {
                Step::Stop { f: Fault::Byte { at: i + 3 } }
            } else {
                Step::Done { v: SpecValue::Bool(true), n: 4 }
            }
        } else if b == 102 {
            // the literal `false`
            if i + 1 >= s.len() {
                Step::Stop { f: Fault::Eof }
            } else if s[i + 1] != 97 {
                Step::Stop { f: Fault::Byte { at: i + 1 } }
            } else if i + 2 >= s.len() {
                Step::Stop { f: Fault::Eof }
            } else if s[i + 2] != 108 {
                Step::Stop { f: Fault::Byte { at: i + 2 } }
            } else if i + 3 >= s.len() {
                Step::Stop { f: Fault::Eof }
            } else if s[i + 3] != 115 {
                Step::Stop { f: Fault::Byte { at: i + 3 } }
            } else if i + 4 >= s.len() {
                Step::Stop { f: Fault::Eof }
            } else if s[i + 4] != 101 {
                Step::Stop { f: Fault::Byte { at: i + 4 } }
            } else {
                Step::Done { v: SpecValue::Bool(false), n: 5 }
            }
        } else if b == 110 {
            // the literal `null`
            if i + 1 >= s.len() {
                Step::Stop { f: Fault::Eof }
            } else if s[i + 1] != 117 {
                Step::Stop { f: Fault::Byte { at: i + 1 } }
            } else if i + 2 >= s.len() {
                Step::Stop { f: Fault::Eof }
            } else if s[i + 2] != 108 {
                Step::Stop { f: Fault::Byte { at: i + 2 } }
            } else if i + 3 >= s.len() {
                Step::Stop { f: Fault::Eof }
            } else if s[i + 3] != 108 {
                Step::Stop { f: Fault::Byte { at: i + 3 } }
            } else {
                Step::Done { v: SpecValue::Null, n: 4 }
            }
        } else {
            Step::Stop { f: Fault::Byte { at: i } }
        }
    }
}

/// An array body, starting just after the `[`: whitespace, then either `]`
/// or a first element followed by the comma-separated rest.
pub open spec fn sp_array(s: Seq<u8>, i: int) -> Step<Seq<SpecValue>>
    decreases rem(s, i), 4int,
{
    if i >= s.len() {
        Step::Stop { f: Fault::Eof }
    } else if is_ws(s[i]) {
        forward(sp_array(s, i + 1), 1)
    } else if s[i] == 93 {
        Step::Done { v: Seq::empty(), n: 1 }
    } else {
        match sp_value_at(s, i) {
            Step::Stop { f } => Step::Stop { f },
            Step::Done { v, n } => match sp_array_rest(s, i + n, seq![v]) {
                Step::Stop { f } => Step::Stop { f },
                Step::Done { v: vs, n: n2 } => Step::Done { v: vs, n: n + n2 },
            },
        }
    }
}

/// After one array element: whitespace, then `]` to finish or `,` and
/// another element.
pub open spec fn sp_array_rest(s: Seq<u8>, p: int, acc: Seq<SpecValue>) -> Step<Seq<SpecValue>>
    decreases rem(s, p), 2int,
{
    if p >= s.len() {
        Step::Stop { f: Fault::Eof }
    } else if is_ws(s[p]) {
        forward(sp_array_rest(s, p + 1, acc), 1)
    } else if s[p] == 93 {
        Step::Done { v: acc, n: 1 }
    } else if s[p] == 44 {
        match sp_value(s, p + 1) {
            Step::Stop { f } => Step::Stop { f },
            Step::Done { v, n } => match sp_array_rest(s, p + 1 + n, acc.push(v)) {
                Step::Stop { f } => Step::Stop { f },
                Step::Done { v: vs, n: n2 } => Step::Done { v: vs, n: 1 + n + n2 },
            },
        }
    } else {
        Step::Stop { f: Fault::Byte { at: p } }
    }
}

/// An object body, starting just after the `{`: whitespace, then either `}`
/// or a first `"key": value` member followed by the comma-separated rest.
pub open spec fn sp_object(s: Seq<u8>, i: int) -> Step<Seq<(Seq<u8>, SpecValue)>>
    decreases rem(s, i), 4int,
{
    if i >= s.len() {
        Step::Stop { f: Fault::Eof }
    } else if is_ws(s[i]) {
        forward(sp_object(s, i + 1), 1)
    } else if s[i] == 125 {
        Step::Done { v: Seq::empty(), n: 1 }
    } else {
        match sp_member(s, i) {
            Step::Stop { f } => Step::Stop { f },
            Step::Done { v: kv, n } => match sp_object_rest(s, i + n, seq![kv]) {
                Step::Stop { f } => Step::Stop { f },
                Step::Done { v: ms, n: n2 } => Step::Done { v: ms, n: n + n2 },
            },
        }
    }
}

/// One `"key": value` member: whitespace, the quoted key, then the colon
/// and the value.
pub open spec fn sp_member(s: Seq<u8>, q: int) -> Step<(Seq<u8>, SpecValue)>
    decreases rem(s, q), 3int,
{
    if q >= s.len() {
        Step::Stop { f: Fault::Eof }
    } else if is_ws(s[q]) {
        forward(sp_member(s, q + 1), 1)
    } else if s[q] == 34 {
        match sp_string(s, q + 1, Seq::empty()) {
            Step::Stop { f } => Step::Stop { f },
            Step::Done { v: k, n: ck } => match sp_member_value(s, q + 1 + ck) {
                Step::Stop { f } => Step::Stop { f },
                Step::Done { v, n: cv } => Step::Done { v: (k, v), n: 1 + ck + cv },
            },
        }
    } else {
        Step::Stop { f: Fault::Byte { at: q } }
    }
}

/// A member's `: value` part, starting where whitespace or the colon stands.
pub open spec fn sp_member_value(s: Seq<u8>, p: int) -> Step<SpecValue>
    decreases rem(s, p), 2int,
{
    if p >= s.len() {
        Step::Stop { f: Fault::Eof }
    } else if is_ws(s[p]) {
        forward(sp_member_value(s, p + 1), 1)
    } else if s[p] == 58 {
        forward(sp_value(s, p + 1), 1)
    } else {
        Step::Stop { f: Fault::Byte { at: p } }
    }
}

/// After one object member: whitespace, then `}` to finish or `,` and
/// another member.
pub open spec fn sp_object_rest(
    s: Seq<u8>,
    p: int,
    acc: Seq<(Seq<u8>, SpecValue)>,
) -> Step<Seq<(Seq<u8>, SpecValue)>>
    decreases rem(s, p), 2int,
{
    if p >= s.len() {
        Step::Stop { f: Fault::Eof }
    } else if is_ws(s[p]) {
        forward(sp_object_rest(s, p + 1, acc), 1)
    } else if s[p] == 125 {
        Step::Done { v: acc, n: 1 }
    } else if s[p] == 44 {
        match sp_member(s, p + 1) {
            Step::Stop { f } => Step::Stop { f },
            Step::Done { v: kv, n } => match sp_object_rest(
                s,
                p + 1 + n,
                spec_object_insert(acc, kv.0, kv.1),
            ) {
                Step::Stop { f } => Step::Stop { f },
                Step::Done { v: ms, n: n2 } => Step::Done { v: ms, n: 1 + n + n2 },
            },
        }
    } else {
        Step::Stop { f: Fault::Byte { at: p } }
    }
}

/// After the one top-level value only whitespace may remain; the first
/// other byte is the fault.
pub open spec fn sp_ensure_end(s: Seq<u8>, i: int) -> Option<Fault>
    decreases rem(s, i),
{
    if i >= s.len() {
        Option::None
    } else if is_ws(s[i]) {
        sp_ensure_end(s, i + 1)
    } else {
        Option::Some(Fault::Byte { at: i })
    }
}

} // verus!
