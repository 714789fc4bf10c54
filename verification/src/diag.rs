//! Diagnostics: turning a byte position into a line and column, and a
//! grammar fault into the error value reported to callers.

use vstd::prelude::*;
use vstd::utf8::{
    decode_first_codepoint, is_continuation_byte, is_leading_byte_width_2,
    is_leading_byte_width_3, is_leading_byte_width_4, is_scalar, valid_first_scalar,
};
use crate::grammar::Fault;
use crate::value::Error;

verus! {

/// Relies on `char::from_u32` of std: it returns `Some` exactly for Unicode
/// scalar values (anything else is a surrogate or out of range), and the
/// character it returns has the given scalar value.
pub assume_specification[ char::from_u32 ](v: u32) -> (r: Option<char>)
    ensures
        r is Some <==> is_scalar(v),
        r matches Some(c) ==> c as u32 == v,
;

/// How many line feeds the byte sequence holds.
pub open spec fn count_lf(s: Seq<u8>) -> nat
    decreases s.len(),
{
    if s.len() == 0 {
        0
    } else {
        count_lf(s.drop_last()) + if s.last() == 10u8 {
            1nat
        } else {
            0nat
        }
    }
}

/// How many characters the byte sequence holds, counted as the bytes that do
/// not continue a multi-byte UTF-8 sequence.  On valid UTF-8 this is the
/// character count.
pub open spec fn count_chars(s: Seq<u8>) -> nat
    decreases s.len(),
{
    if s.len() == 0 {
        0
    } else {
        count_chars(s.drop_last()) + if is_continuation_byte(s.last()) {
            0nat
        } else {
            1nat
        }
    }
}

/// The position at which the line holding position `p` begins: just after
/// the nearest line feed before `p`, or the start of the input.
pub open spec fn line_start(s: Seq<u8>, p: int) -> int
    decreases p,
{
    if p <= 0 {
        0
    } else if s[p - 1] == 10u8 {
        p
    } else {
        line_start(s, p - 1)
    }
}

/// A line starts no earlier than the input and no later than the position
/// asked about.
pub proof fn lemma_line_start_bounds(s: Seq<u8>, p: int)
    requires
        0 <= p,
    ensures
        0 <= line_start(s, p) <= p,
    decreases p,
{
    if p > 0 && s[p - 1] != 10u8 {
        lemma_line_start_bounds(s, p - 1);
    }
}

/// The 1-based line of the byte at position `at`.
pub open spec fn sp_line(s: Seq<u8>, at: int) -> nat {
    count_lf(s.subrange(0, at)) + 1
}

/// The 1-based column of the byte at position `at`: characters since the
/// line's start, plus one.
pub open spec fn sp_column(s: Seq<u8>, at: int) -> nat {
    count_chars(s.subrange(line_start(s, at), at)) + 1
}

/// The width that the leading byte of a UTF-8 sequence announces, or 0 when
/// the byte can lead no sequence (a continuation byte, or above `0xF7`).
pub open spec fn announced_width(b: u8) -> int {
    if b < 0x80 {
        1
    } else if is_leading_byte_width_2(b) {
        2
    } else if is_leading_byte_width_3(b) {
        3
    } else if is_leading_byte_width_4(b) {
        4
    } else {
        0
    }
}

/// The error reported for a grammar fault.  An offending byte is decoded to
/// the character it begins (reading its continuation bytes); a byte that
/// begins no valid UTF-8 sequence is reported as an encoding failure, and an
/// input that ends inside the sequence as an unexpected end.
pub open spec fn sp_error_of(s: Seq<u8>, f: Fault) -> Error {
    match f {
        Fault::Eof => Error::UnexpectedEndOfJson,
        Fault::Utf8 => Error::FailedUtf8Parsing,
        Fault::Byte { at } => {
            let b = s[at];
            let w = announced_width(b);
            if b < 0x80 {
                Error::UnexpectedCharacter {
                    ch: b as char,
                    line: sp_line(s, at) as usize,
                    column: sp_column(s, at) as usize,
                }
            } else if w == 0 {
                Error::FailedUtf8Parsing
            } else if at + w > s.len() {
                Error::UnexpectedEndOfJson
            } else {
                let sub = s.subrange(at, at + w);
                if valid_first_scalar(sub) {
                    Error::UnexpectedCharacter {
                        ch: decode_first_codepoint(sub) as char,
                        line: sp_line(s, at) as usize,
                        column: sp_column(s, at) as usize,
                    }
                } else {
                    Error::FailedUtf8Parsing
                }
            }
        },
    }
}

} // verus!
