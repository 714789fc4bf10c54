//! The executable recursive-descent parser, proved against the
//! specification-level grammar of [`crate::grammar`].

use vstd::prelude::*;
use vstd::string::StringSliceAdditionalSpecFns;
use vstd::utf8::{char_u32_cast, encode_scalar, is_scalar};
use crate::diag::{
    count_chars, count_lf, lemma_line_start_bounds, line_start, sp_column, sp_error_of, sp_line,
};
use crate::grammar::{
    lemma_forward_add, lemma_object_insert_unique, forward, sp_array, sp_array_rest, sp_digits,
    sp_ensure_end, sp_hex4, sp_hexdig, sp_member, sp_member_value, sp_number, sp_object,
    sp_object_rest, sp_string, sp_string_unicode, sp_value, sp_value_at, unique_keys, Fault, Step,
};
use crate::value::{
    lemma_vm_members, lemma_vm_seq, object_insert, vm_members, vm_seq, Error, Number, Position,
    SpecValue, Value,
};

verus! {

/// The parser: the input buffer and the read cursor over it.
pub struct Parser<'a> {
    /// The input, borrowed for the duration of the parse.
    pub source: &'a [u8],
    /// The next unread byte's index; never exceeds the input's length.
    pub index: usize,
}

impl<'a> Parser<'a> {
    /// The input as a byte sequence, as every contract speaks of it.
    pub open spec fn s(self) -> Seq<u8> {
        self.source@
    }

    /// The cursor invariant: the read position stays within the buffer.
    pub open spec fn wf(self) -> bool {
        self.index <= self.source@.len()
    }

    /// A parser at the start of the given text.
    pub fn new(source: &'a str) -> (p: Parser<'a>)
        ensures
            p.s() == source.spec_bytes(),
            p.index == 0,
            p.wf(),
    {
        Parser { source: source.as_bytes(), index: 0 }
    }

    /// The 1-based line and column of the byte at `index - 1`, computed by
    /// scanning the input before it for line feeds and counting the
    /// characters since the last one.
    pub fn source_position_from_index(&self, index: usize) -> (pos: Position)
        requires
            1 <= index,
            index <= self.s().len() + 1,
        ensures
            pos.line == sp_line(self.s(), index - 1),
            pos.column == sp_column(self.s(), index - 1),
    {
        let at = index - 1;
        let mut line: usize = 0;
        let mut col: usize = 0;
        let mut i: usize = 0;
        while i < at
            invariant
                i <= at,
                at <= self.s().len(),
                line == count_lf(self.s().subrange(0, i as int)),
                line <= i,
                col == count_chars(self.s().subrange(line_start(self.s(), i as int), i as int)),
                col <= i,
                line_start(self.s(), i as int) <= i,
            decreases at - i,
        {
            let b = self.source[i];
            proof {
                let s = self.s();
                let ii = i as int;
                assert(s.subrange(0, ii + 1).drop_last() =~= s.subrange(0, ii));
                assert(s.subrange(0, ii + 1).last() == s[ii]);
                if b == 10 {
                    assert(line_start(s, ii + 1) == ii + 1);
                    assert(s.subrange(ii + 1, ii + 1) =~= Seq::<u8>::empty());
                } else {
                    assert(line_start(s, ii + 1) == line_start(s, ii));
                    let ls = line_start(s, ii);
                    lemma_line_start_bounds(s, ii);
                    assert(s.subrange(ls, ii + 1).drop_last() =~= s.subrange(ls, ii));
                    assert(s.subrange(ls, ii + 1).last() == s[ii]);
                }
            }
            if b == 10 {
                line = line + 1;
                col = 0;
            } else if !(0x80 <= b && b <= 0xBF) {
                col = col + 1;
            }
            i = i + 1;
        }
        proof {
            assert(self.s().subrange(0, at as int) =~= self.s().subrange(0, i as int));
        }
        Position { line: line + 1, column: col + 1 }
    }

    /// The error for the byte at `at` standing where the grammar forbids it:
    /// the byte's character (decoding a multi-byte UTF-8 sequence where one
    /// begins there) with its line and column, or an encoding failure when
    /// no valid sequence begins there, or an unexpected end when the input
    /// ends inside the sequence.
    fn unexpected_character(&self, at: usize) -> (e: Error)
        requires
            self.wf(),
            at < self.s().len(),
        ensures
            e == sp_error_of(self.s(), Fault::Byte { at: at as int }),
    {
        let ghost s = self.s();
        let n = self.source.len();
        proof {
            assert(at < n);
        }
        let pos = self.source_position_from_index(at + 1);
        let b = self.source[at];
        if b < 0x80 {
            return Error::UnexpectedCharacter { ch: b as char, line: pos.line, column: pos.column };
        }
        let w: usize = if 0xC0 <= b && b <= 0xDF {
            2
        } else if 0xE0 <= b && b <= 0xEF {
            3
        } else if 0xF0 <= b && b <= 0xF7 {
            4
        } else {
            0
        };
        if w == 0 {
            return Error::FailedUtf8Parsing;
        }
        if self.source.len() - at < w {
            return Error::UnexpectedEndOfJson;
        }
        let ghost sub = s.subrange(at as int, at as int + w as int);
        proof {
            assert(sub.len() == w);
            assert(sub[0] == b);
        }
        if w == 2 {
            let b2 = self.source[at + 1];
            proof {
                assert(sub[1] == b2);
            }
            if !(0x80 <= b2 && b2 <= 0xBF) {
                return Error::FailedUtf8Parsing;
            }
            let cp: u32 = (((b & 0x1F) as u32) << 6) | ((b2 & 0x3F) as u32);
            if cp < 0x80 {
                return Error::FailedUtf8Parsing;
            }
            proof {
                assert(cp <= 0x7FF) by (bit_vector)
                    requires
                        cp == (((b & 0x1F) as u32) << 6) | ((b2 & 0x3F) as u32),
                ;
            }
            let ch = char::from_u32(cp).unwrap();
            proof {
                char_u32_cast(ch, cp);
            }
            return Error::UnexpectedCharacter { ch, line: pos.line, column: pos.column };
        }
        if w == 3 {
            let b2 = self.source[at + 1];
            let b3 = self.source[at + 2];
            proof {
                assert(sub[1] == b2);
                assert(sub[2] == b3);
            }
            if !(0x80 <= b2 && b2 <= 0xBF) || !(0x80 <= b3 && b3 <= 0xBF) {
                return Error::FailedUtf8Parsing;
            }
            let cp: u32 = (((b & 0x0F) as u32) << 12) | (((b2 & 0x3F) as u32) << 6) | ((b3
                & 0x3F) as u32);
            if cp < 0x800 || (0xD800 <= cp && cp <= 0xDFFF) {
                return Error::FailedUtf8Parsing;
            }
            proof {
                assert(cp <= 0xFFFF) by (bit_vector)
                    requires
                        cp == (((b & 0x0F) as u32) << 12) | (((b2 & 0x3F) as u32) << 6) | ((b3
                            & 0x3F) as u32),
                ;
            }
            let ch = char::from_u32(cp).unwrap();
            proof {
                char_u32_cast(ch, cp);
            }
            return Error::UnexpectedCharacter { ch, line: pos.line, column: pos.column };
        }
        let b2 = self.source[at + 1];
        let b3 = self.source[at + 2];
        let b4 = self.source[at + 3];
        proof {
            assert(sub[1] == b2);
            assert(sub[2] == b3);
            assert(sub[3] == b4);
        }
        if !(0x80 <= b2 && b2 <= 0xBF) || !(0x80 <= b3 && b3 <= 0xBF) || !(0x80 <= b4 && b4
            <= 0xBF) {
            return Error::FailedUtf8Parsing;
        }
        let cp: u32 = (((b & 0x07) as u32) << 18) | (((b2 & 0x3F) as u32) << 12) | (((b3
            & 0x3F) as u32) << 6) | ((b4 & 0x3F) as u32);
        if cp < 0x10000 || cp > 0x10FFFF {
            return Error::FailedUtf8Parsing;
        }
        let ch = char::from_u32(cp).unwrap();
        proof {
            char_u32_cast(ch, cp);
        }
        Error::UnexpectedCharacter { ch, line: pos.line, column: pos.column }
    }

    /// One hexadecimal digit of a `\u` escape.
    fn read_hexdec_digit(&mut self) -> (r: Result<u32, Error>)
        requires
            old(self).wf(),
        ensures
            final(self).source == old(self).source,
            final(self).wf(),
            match r {
                Ok(d) => sp_hexdig(old(self).s(), old(self).index as int) matches Step::Done {
                    v,
                    n,
                } && v == d && d < 16 && final(self).index == old(self).index + n,
                Err(e) => sp_hexdig(old(self).s(), old(self).index as int) matches Step::Stop { f }
                    && e == sp_error_of(old(self).s(), f),
            },
    {
        if self.index >= self.source.len() {
            return Err(Error::UnexpectedEndOfJson);
        }
        let b = self.source[self.index];
        if 48 <= b && b <= 57 {
            self.index = self.index + 1;
            Ok((b - 48) as u32)
        } else if 97 <= b && b <= 102 {
            self.index = self.index + 1;
            Ok((b - 87) as u32)
        } else if 65 <= b && b <= 70 {
            self.index = self.index + 1;
            Ok((b - 55) as u32)
        } else {
            Err(self.unexpected_character(self.index))
        }
    }

    /// Four hexadecimal digits of a `\u` escape, combined into one 16-bit
    /// code unit.
    fn read_hexdec_codepoint(&mut self) -> (r: Result<u32, Error>)
        requires
            old(self).wf(),
        ensures
            final(self).source == old(self).source,
            final(self).wf(),
            match r {
                Ok(cp) => sp_hex4(old(self).s(), old(self).index as int) matches Step::Done {
                    v,
                    n,
                } && v == cp && n == 4 && cp <= 0xFFFF && final(self).index == old(self).index
                    + 4,
                Err(e) => sp_hex4(old(self).s(), old(self).index as int) matches Step::Stop { f }
                    && e == sp_error_of(old(self).s(), f),
            },
    {
        let d0 = match self.read_hexdec_digit() {
            Ok(d) => d,
            Err(e) => return Err(e),
        };
        let d1 = match self.read_hexdec_digit() {
            Ok(d) => d,
            Err(e) => return Err(e),
        };
        let d2 = match self.read_hexdec_digit() {
            Ok(d) => d,
            Err(e) => return Err(e),
        };
        let d3 = match self.read_hexdec_digit() {
            Ok(d) => d,
            Err(e) => return Err(e),
        };
        Ok(d0 * 4096 + d1 * 256 + d2 * 16 + d3)
    }

    /// A maximal run of decimal digits, appended to `out` as digit values.
    #[verifier::loop_isolation(false)]
    fn read_digits(&mut self, out: &mut Vec<u8>)
        requires
            old(self).wf(),
        ensures
            final(self).source == old(self).source,
            final(self).wf(),
            final(out)@ == sp_digits(old(self).s(), old(self).index as int, old(out)@).0,
            final(self).index == old(self).index + sp_digits(
                old(self).s(),
                old(self).index as int,
                old(out)@,
            ).1,
    {
        let ghost s = self.s();
        let ghost i0 = old(self).index as int;
        let ghost a0 = old(out)@;
        loop
            invariant
                self.wf(),
                self.source == old(self).source,
                i0 <= self.index as int,
                sp_digits(s, i0, a0).0 == sp_digits(s, self.index as int, out@).0,
                sp_digits(s, i0, a0).1 == (self.index - i0) + sp_digits(
                    s,
                    self.index as int,
                    out@,
                ).1,
            decreases s.len() - self.index,
        {
            if self.index >= self.source.len() {
                return ;
            }
            let b = self.source[self.index];
            if !(48 <= b && b <= 57) {
                return ;
            }
            out.push(b - 48);
            self.index = self.index + 1;
        }
    }

    /// The body of a string, after the opening quote was consumed: ordinary
    /// bytes and decoded escapes, up to and including the closing quote.
    #[verifier::loop_isolation(false)]
    fn read_string(&mut self) -> (r: Result<Vec<u8>, Error>)
        requires
            old(self).wf(),
        ensures
            final(self).source == old(self).source,
            final(self).wf(),
            match r {
                Ok(bytes) => sp_string(old(self).s(), old(self).index as int, Seq::empty())
                    matches Step::Done { v, n } && v == bytes@ && final(self).index == old(
                    self,
                ).index + n,
                Err(e) => sp_string(old(self).s(), old(self).index as int, Seq::empty())
                    matches Step::Stop { f } && e == sp_error_of(old(self).s(), f),
            },
    {
        let ghost s = self.s();
        let ghost i0 = old(self).index as int;
        let mut buf: Vec<u8> = Vec::new();
        loop
            invariant
                self.wf(),
                self.source == old(self).source,
                i0 <= self.index as int,
                sp_string(s, i0, Seq::empty()) == forward(
                    sp_string(s, self.index as int, buf@),
                    (self.index - i0) as nat,
                ),
            decreases s.len() - self.index,
        {
            let ghost cur = self.index as int;
            let ghost k = (self.index - i0) as nat;
            if self.index >= self.source.len() {
                return Err(Error::UnexpectedEndOfJson);
            }
            let b = self.source[self.index];
            if b == 34 {
                self.index = self.index + 1;
                return Ok(buf);
            }
            if b != 92 {
                buf.push(b);
                self.index = self.index + 1;
                proof {
                    lemma_forward_add(sp_string(s, cur + 1, buf@), 1, k);
                }
                continue ;
            }
            // an escape sequence
            if self.index + 1 >= self.source.len() {
                return Err(Error::UnexpectedEndOfJson);
            }
            let e = self.source[self.index + 1];
            if e == 34 || e == 92 || e == 47 {
                buf.push(e);
                self.index = self.index + 2;
                proof {
                    lemma_forward_add(sp_string(s, cur + 2, buf@), 2, k);
                }
            } else if e == 98 {
                buf.push(8);
                self.index = self.index + 2;
                proof {
                    lemma_forward_add(sp_string(s, cur + 2, buf@), 2, k);
                }
            } else if e == 102 {
                buf.push(12);
                self.index = self.index + 2;
                proof {
                    lemma_forward_add(sp_string(s, cur + 2, buf@), 2, k);
                }
            } else if e == 116 {
                buf.push(9);
                self.index = self.index + 2;
                proof {
                    lemma_forward_add(sp_string(s, cur + 2, buf@), 2, k);
                }
            } else if e == 114 {
                buf.push(13);
                self.index = self.index + 2;
                proof {
                    lemma_forward_add(sp_string(s, cur + 2, buf@), 2, k);
                }
            } else if e == 110 {
                buf.push(10);
                self.index = self.index + 2;
                proof {
                    lemma_forward_add(sp_string(s, cur + 2, buf@), 2, k);
                }
            } else if e == 117 {
                self.index = self.index + 2;
                let ghost st_u = sp_string_unicode(s, cur, buf@);
                proof {
                    assert(sp_string(s, cur, buf@) == st_u);
                }
                let cp = match self.read_hexdec_codepoint() {
                    Ok(cp) => cp,
                    Err(err) => {
                        proof {
                            assert(st_u matches Step::Stop { f } && err == sp_error_of(s, f));
                        }
                        return Err(err);
                    },
                };
                if 0xD800 <= cp && cp <= 0xDBFF {
                    // a high surrogate: its low surrogate must follow at once
                    if self.index >= self.source.len() {
                        return Err(Error::UnexpectedEndOfJson);
                    }
                    if self.source[self.index] != 92 {
                        return Err(Error::FailedUtf8Parsing);
                    }
                    if self.index + 1 >= self.source.len() {
                        return Err(Error::UnexpectedEndOfJson);
                    }
                    if self.source[self.index + 1] != 117 {
                        return Err(Error::FailedUtf8Parsing);
                    }
                    self.index = self.index + 2;
                    let lo = match self.read_hexdec_codepoint() {
                        Ok(lo) => lo,
                        Err(err) => {
                            proof {
                                assert(st_u matches Step::Stop { f } && err == sp_error_of(
                                    s,
                                    f,
                                ));
                            }
                            return Err(err);
                        },
                    };
                    if !(0xDC00 <= lo && lo <= 0xDFFF) {
                        proof {
                            assert(st_u == (Step::Stop::<Seq<u8>> { f: Fault::Utf8 }));
                        }
                        return Err(Error::FailedUtf8Parsing);
                    }
                    let scalar = (cp - 0xD800) * 1024 + (lo - 0xDC00) + 0x10000;
                    proof {
                        assert(is_scalar(scalar));
                    }
                    push_scalar(&mut buf, scalar);
                    proof {
                        assert(st_u == forward(sp_string(s, cur + 12, buf@), 12));
                        lemma_forward_add(sp_string(s, cur + 12, buf@), 12, k);
                    }
                } else if 0xDC00 <= cp && cp <= 0xDFFF {
                    proof {
                        assert(st_u == (Step::Stop::<Seq<u8>> { f: Fault::Utf8 }));
                    }
                    return Err(Error::FailedUtf8Parsing);
                } else {
                    proof {
                        assert(is_scalar(cp));
                    }
                    push_scalar(&mut buf, cp);
                    proof {
                        assert(st_u == forward(sp_string(s, cur + 6, buf@), 6));
                        lemma_forward_add(sp_string(s, cur + 6, buf@), 6, k);
                    }
                }
            } else {
                return Err(self.unexpected_character(self.index + 1));
            }
        }
    }

    /// A number whose first byte (a `-` or a digit) stands at the cursor.
    /// The digit parts are collected exactly as written; the byte after the
    /// number stays unconsumed.
    fn read_number(&mut self) -> (r: Result<Number, Error>)
        requires
            old(self).wf(),
        ensures
            final(self).source == old(self).source,
            final(self).wf(),
            match r {
                Ok(num) => sp_number(old(self).s(), old(self).index as int) matches Step::Done {
                    v,
                    n,
                } && v == num.vm() && final(self).index == old(self).index + n,
                Err(e) => sp_number(old(self).s(), old(self).index as int) matches Step::Stop { f }
                    && e == sp_error_of(old(self).s(), f),
            },
    {
        let ghost s = self.s();
        let ghost i0 = old(self).index as int;
        let mut negative = false;
        if self.index < self.source.len() && self.source[self.index] == 45 {
            negative = true;
            self.index = self.index + 1;
        }
        if self.index >= self.source.len() {
            return Err(Error::UnexpectedEndOfJson);
        }
        let b = self.source[self.index];
        if !(48 <= b && b <= 57) {
            return Err(self.unexpected_character(self.index));
        }
        let mut digits: Vec<u8> = Vec::new();
        if b == 48 {
            digits.push(0);
            self.index = self.index + 1;
            proof {
                assert(digits@ =~= seq![0u8]);
            }
        } else {
            self.read_digits(&mut digits);
        }
        let ghost p = self.index as int;
        let mut fraction: Vec<u8> = Vec::new();
        if self.index < self.source.len() && self.source[self.index] == 46 {
            if self.index + 1 >= self.source.len() {
                return Err(Error::UnexpectedEndOfJson);
            }
            let fb = self.source[self.index + 1];
            if !(48 <= fb && fb <= 57) {
                return Err(self.unexpected_character(self.index + 1));
            }
            self.index = self.index + 1;
            self.read_digits(&mut fraction);
        }
        let ghost q = self.index as int;
        let mut exponent_negative = false;
        let mut exponent: Vec<u8> = Vec::new();
        let has_exp = if self.index < self.source.len() {
            let c = self.source[self.index];
            c == 101 || c == 69
        } else {
            false
        };
        if has_exp {
            self.index = self.index + 1;
            if self.index < self.source.len() && self.source[self.index] == 45 {
                exponent_negative = true;
                self.index = self.index + 1;
            } else if self.index < self.source.len() && self.source[self.index] == 43 {
                self.index = self.index + 1;
            }
            if self.index >= self.source.len() {
                return Err(Error::UnexpectedEndOfJson);
            }
            let eb = self.source[self.index];
            if !(48 <= eb && eb <= 57) {
                return Err(self.unexpected_character(self.index));
            }
            self.read_digits(&mut exponent);
        }
        let num = Number { negative, digits, fraction, exponent_negative, exponent };
        proof {
            assert(sp_number(s, i0) matches Step::Done { v, n } && v =~= num.vm() && self.index
                == i0 + n);
        }
        Ok(num)
    }

    /// One value: leading whitespace, then a dispatch on the first
    /// significant byte to a literal, a number, a string, an array or an
    /// object.
    #[verifier::loop_isolation(false)]
    fn value(&mut self) -> (r: Result<Value, Error>)
        requires
            old(self).wf(),
        ensures
            final(self).source == old(self).source,
            final(self).wf(),
            match r {
                Ok(v) => sp_value(old(self).s(), old(self).index as int) matches Step::Done {
                    v: sv,
                    n,
                } && sv == v.vm() && final(self).index == old(self).index + n,
                Err(e) => sp_value(old(self).s(), old(self).index as int) matches Step::Stop { f }
                    && e == sp_error_of(old(self).s(), f),
            },
        decreases old(self).s().len() - old(self).index, 0int,
    {
        let ghost s = self.s();
        let ghost i0 = old(self).index as int;
        loop
            invariant
                self.wf(),
                self.source == old(self).source,
                i0 <= self.index as int,
                sp_value(s, i0) == forward(sp_value(s, self.index as int), (self.index - i0) as nat),
            decreases s.len() - self.index,
        {
            let ghost cur = self.index as int;
            let ghost k = (self.index - i0) as nat;
            if self.index >= self.source.len() {
                return Err(Error::UnexpectedEndOfJson);
            }
            let b = self.source[self.index];
            if (9 <= b && b <= 13) || b == 32 {
                proof {
                    lemma_forward_add(sp_value(s, cur + 1), 1, k);
                }
                self.index = self.index + 1;
                continue ;
            }
            proof {
                assert(sp_value(s, cur) == sp_value_at(s, cur));
            }
            if b == 123 {
                self.index = self.index + 1;
                return match self.read_object() {
                    Ok(members) => {
                        proof {
                            assert(sp_value_at(s, cur) == (Step::Done {
                                v: SpecValue::Obj(vm_members(members@)),
                                n: (self.index - cur) as nat,
                            }));
                        }
                        Ok(Value::Object(members))
                    },
                    Err(e) => Err(e),
                };
            } else if b == 91 {
                self.index = self.index + 1;
                return match self.read_array() {
                    Ok(items) => {
                        proof {
                            assert(sp_value_at(s, cur) == (Step::Done {
                                v: SpecValue::Arr(vm_seq(items@)),
                                n: (self.index - cur) as nat,
                            }));
                        }
                        Ok(Value::Array(items))
                    },
                    Err(e) => Err(e),
                };
            } else if b == 34 {
                self.index = self.index + 1;
                return match self.read_string() {
                    Ok(bytes) => {
                        proof {
                            assert(sp_value_at(s, cur) == (Step::Done {
                                v: SpecValue::Str(bytes@),
                                n: (self.index - cur) as nat,
                            }));
                        }
                        Ok(Value::Text(bytes))
                    },
                    Err(e) => Err(e),
                };
            } else if b == 45 || (48 <= b && b <= 57) {
                return match self.read_number() {
                    Ok(num) => {
                        proof {
                            assert(sp_value_at(s, cur) == (Step::Done {
                                v: SpecValue::Num(num.vm()),
                                n: (self.index - cur) as nat,
                            }));
                        }
                        Ok(Value::Number(num))
                    },
                    Err(e) => Err(e),
                };
            } else if b == 116 {
                // the literal `true`
                if self.index + 1 >= self.source.len() {
                    return Err(Error::UnexpectedEndOfJson);
                }
                if self.source[self.index + 1] != 114 {
                    return Err(self.unexpected_character(self.index + 1));
                }
                if self.index + 2 >= self.source.len() {
                    return Err(Error::UnexpectedEndOfJson);
                }
                if self.source[self.index + 2] != 117 {
                    return Err(self.unexpected_character(self.index + 2));
                }
                if self.index + 3 >= self.source.len() {
                    return Err(Error::UnexpectedEndOfJson);
                }
                if self.source[self.index + 3] != 101 {
                    return Err(self.unexpected_character(self.index + 3));
                }
                self.index = self.index + 4;
                return Ok(Value::Boolean(true));
            } else if b == 102 {
                // the literal `false`
                if self.index + 1 >= self.source.len() {
                    return Err(Error::UnexpectedEndOfJson);
                }
                if self.source[self.index + 1] != 97 {
                    return Err(self.unexpected_character(self.index + 1));
                }
                if self.index + 2 >= self.source.len() {
                    return Err(Error::UnexpectedEndOfJson);
                }
                if self.source[self.index + 2] != 108 {
                    return Err(self.unexpected_character(self.index + 2));
                }
                if self.index + 3 >= self.source.len() {
                    return Err(Error::UnexpectedEndOfJson);
                }
                if self.source[self.index + 3] != 115 {
                    return Err(self.unexpected_character(self.index + 3));
                }
                if self.index + 4 >= self.source.len() {
                    return Err(Error::UnexpectedEndOfJson);
                }
                if self.source[self.index + 4] != 101 {
                    return Err(self.unexpected_character(self.index + 4));
                }
                self.index = self.index + 5;
                return Ok(Value::Boolean(false));
            } else if b == 110 {
                // the literal `null`
                if self.index + 1 >= self.source.len() {
                    return Err(Error::UnexpectedEndOfJson);
                }
                if self.source[self.index + 1] != 117 {
                    return Err(self.unexpected_character(self.index + 1));
                }
                if self.index + 2 >= self.source.len() {
                    return Err(Error::UnexpectedEndOfJson);
                }
                if self.source[self.index + 2] != 108 {
                    return Err(self.unexpected_character(self.index + 2));
                }
                if self.index + 3 >= self.source.len() {
                    return Err(Error::UnexpectedEndOfJson);
                }
                if self.source[self.index + 3] != 108 {
                    return Err(self.unexpected_character(self.index + 3));
                }
                self.index = self.index + 4;
                return Ok(Value::Null);
            } else {
                return Err(self.unexpected_character(self.index));
            }
        }
    }

    /// An array body, after the `[` was consumed: either `]` at once, or
    /// comma-separated values up to the closing `]`.
    #[verifier::loop_isolation(false)]
    fn read_array(&mut self) -> (r: Result<Vec<Value>, Error>)
        requires
            old(self).wf(),
        ensures
            final(self).source == old(self).source,
            final(self).wf(),
            match r {
                Ok(items) => sp_array(old(self).s(), old(self).index as int) matches Step::Done {
                    v,
                    n,
                } && v == vm_seq(items@) && final(self).index == old(self).index + n,
                Err(e) => sp_array(old(self).s(), old(self).index as int) matches Step::Stop { f }
                    && e == sp_error_of(old(self).s(), f),
            },
        decreases old(self).s().len() - old(self).index, 1int,
    {
        let ghost s = self.s();
        let ghost i0 = old(self).index as int;
        let mut items: Vec<Value> = Vec::new();
        loop
            invariant
                self.wf(),
                self.source == old(self).source,
                i0 <= self.index as int,
                items@.len() == 0,
                sp_array(s, i0) == forward(sp_array(s, self.index as int), (self.index - i0) as nat),
            decreases s.len() - self.index,
        {
            let ghost cur = self.index as int;
            let ghost k = (self.index - i0) as nat;
            if self.index >= self.source.len() {
                return Err(Error::UnexpectedEndOfJson);
            }
            let b = self.source[self.index];
            if (9 <= b && b <= 13) || b == 32 {
                proof {
                    lemma_forward_add(sp_array(s, cur + 1), 1, k);
                }
                self.index = self.index + 1;
                continue ;
            }
            if b == 93 {
                self.index = self.index + 1;
                proof {
                    lemma_vm_seq(items@);
                    assert(vm_seq(items@) =~= Seq::<SpecValue>::empty());
                }
                return Ok(items);
            }
            // the first element, then the comma-separated rest
            proof {
                assert(sp_value(s, cur) == sp_value_at(s, cur));
            }
            let first = match self.value() {
                Ok(v) => v,
                Err(e) => return Err(e),
            };
            let ghost gv = first.vm();
            items.push(first);
            proof {
                lemma_vm_seq(items@);
                assert(vm_seq(items@) =~= seq![gv]);
                lemma_forward_add(
                    sp_array_rest(s, self.index as int, vm_seq(items@)),
                    ((self.index - cur) as nat),
                    k,
                );
            }
            loop
                invariant
                    self.wf(),
                    self.source == old(self).source,
                    i0 <= self.index as int,
                    sp_array(s, i0) == forward(
                        sp_array_rest(s, self.index as int, vm_seq(items@)),
                        (self.index - i0) as nat,
                    ),
                decreases s.len() - self.index,
            {
                let ghost cur2 = self.index as int;
                let ghost k2 = (self.index - i0) as nat;
                if self.index >= self.source.len() {
                    return Err(Error::UnexpectedEndOfJson);
                }
                let b2 = self.source[self.index];
                if (9 <= b2 && b2 <= 13) || b2 == 32 {
                    proof {
                        lemma_forward_add(sp_array_rest(s, cur2 + 1, vm_seq(items@)), 1, k2);
                    }
                    self.index = self.index + 1;
                    continue ;
                }
                if b2 == 93 {
                    self.index = self.index + 1;
                    return Ok(items);
                }
                if b2 == 44 {
                    let ghost prev = items@;
                    self.index = self.index + 1;
                    let v = match self.value() {
                        Ok(v) => v,
                        Err(e) => return Err(e),
                    };
                    let ghost gv2 = v.vm();
                    items.push(v);
                    proof {
                        lemma_vm_seq(prev);
                        lemma_vm_seq(items@);
                        assert(vm_seq(items@) =~= vm_seq(prev).push(gv2));
                        assert(sp_array_rest(s, cur2, vm_seq(prev)) == forward(
                            sp_array_rest(s, self.index as int, vm_seq(items@)),
                            (self.index - cur2) as nat,
                        ));
                        lemma_forward_add(
                            sp_array_rest(s, self.index as int, vm_seq(items@)),
                            ((self.index - cur2) as nat),
                            k2,
                        );
                    }
                    continue ;
                }
                return Err(self.unexpected_character(self.index));
            }
        }
    }

    /// One `"key": value` member of an object: whitespace, the quoted key,
    /// then the colon and the value.
    #[verifier::loop_isolation(false)]
    fn read_member(&mut self) -> (r: Result<(Vec<u8>, Value), Error>)
        requires
            old(self).wf(),
        ensures
            final(self).source == old(self).source,
            final(self).wf(),
            match r {
                Ok(kv) => sp_member(old(self).s(), old(self).index as int) matches Step::Done {
                    v,
                    n,
                } && v == (kv.0@, kv.1.vm()) && final(self).index == old(self).index + n,
                Err(e) => sp_member(old(self).s(), old(self).index as int) matches Step::Stop { f }
                    && e == sp_error_of(old(self).s(), f),
            },
        decreases old(self).s().len() - old(self).index, 1int,
    {
        let ghost s = self.s();
        let ghost i0 = old(self).index as int;
        loop
            invariant
                self.wf(),
                self.source == old(self).source,
                i0 <= self.index as int,
                sp_member(s, i0) == forward(
                    sp_member(s, self.index as int),
                    (self.index - i0) as nat,
                ),
            decreases s.len() - self.index,
        {
            let ghost cur = self.index as int;
            let ghost k = (self.index - i0) as nat;
            if self.index >= self.source.len() {
                return Err(Error::UnexpectedEndOfJson);
            }
            let b = self.source[self.index];
            if (9 <= b && b <= 13) || b == 32 {
                proof {
                    lemma_forward_add(sp_member(s, cur + 1), 1, k);
                }
                self.index = self.index + 1;
                continue ;
            }
            if b != 34 {
                return Err(self.unexpected_character(self.index));
            }
            self.index = self.index + 1;
            let key = match self.read_string() {
                Ok(bytes) => bytes,
                Err(e) => return Err(e),
            };
            let val = match self.read_member_value() {
                Ok(v) => v,
                Err(e) => return Err(e),
            };
            return Ok((key, val));
        }
    }

    /// A member's `: value` part: whitespace, the colon, then the value.
    #[verifier::loop_isolation(false)]
    fn read_member_value(&mut self) -> (r: Result<Value, Error>)
        requires
            old(self).wf(),
        ensures
            final(self).source == old(self).source,
            final(self).wf(),
            match r {
                Ok(v) => sp_member_value(old(self).s(), old(self).index as int)
                    matches Step::Done { v: sv, n } && sv == v.vm() && final(self).index == old(
                    self,
                ).index + n,
                Err(e) => sp_member_value(old(self).s(), old(self).index as int)
                    matches Step::Stop { f } && e == sp_error_of(old(self).s(), f),
            },
        decreases old(self).s().len() - old(self).index, 0int,
    {
        let ghost s = self.s();
        let ghost i0 = old(self).index as int;
        loop
            invariant
                self.wf(),
                self.source == old(self).source,
                i0 <= self.index as int,
                sp_member_value(s, i0) == forward(
                    sp_member_value(s, self.index as int),
                    (self.index - i0) as nat,
                ),
            decreases s.len() - self.index,
        {
            let ghost cur = self.index as int;
            let ghost k = (self.index - i0) as nat;
            if self.index >= self.source.len() {
                return Err(Error::UnexpectedEndOfJson);
            }
            let b = self.source[self.index];
            if (9 <= b && b <= 13) || b == 32 {
                proof {
                    lemma_forward_add(sp_member_value(s, cur + 1), 1, k);
                }
                self.index = self.index + 1;
                continue ;
            }
            if b != 58 {
                return Err(self.unexpected_character(self.index));
            }
            self.index = self.index + 1;
            return match self.value() {
                Ok(v) => {
                    proof {
                        lemma_forward_add(
                            sp_value(s, cur + 1),
                            ((self.index - cur - 1) as nat),
                            0,
                        );
                    }
                    Ok(v)
                },
                Err(e) => Err(e),
            };
        }
    }

    /// An object body, after the `{` was consumed: either `}` at once, or
    /// comma-separated members up to the closing `}`.  A duplicate key
    /// overwrites its earlier value in place.
    #[verifier::loop_isolation(false)]
    fn read_object(&mut self) -> (r: Result<Vec<(Vec<u8>, Value)>, Error>)
        requires
            old(self).wf(),
        ensures
            final(self).source == old(self).source,
            final(self).wf(),
            match r {
                Ok(members) => sp_object(old(self).s(), old(self).index as int)
                    matches Step::Done { v, n } && v == vm_members(members@) && final(self).index
                    == old(self).index + n,
                Err(e) => sp_object(old(self).s(), old(self).index as int) matches Step::Stop { f }
                    && e == sp_error_of(old(self).s(), f),
            },
        decreases old(self).s().len() - old(self).index, 2int,
    {
        let ghost s = self.s();
        let ghost i0 = old(self).index as int;
        let mut members: Vec<(Vec<u8>, Value)> = Vec::new();
        loop
            invariant
                self.wf(),
                self.source == old(self).source,
                i0 <= self.index as int,
                members@.len() == 0,
                sp_object(s, i0) == forward(
                    sp_object(s, self.index as int),
                    (self.index - i0) as nat,
                ),
            decreases s.len() - self.index,
        {
            let ghost cur = self.index as int;
            let ghost k = (self.index - i0) as nat;
            if self.index >= self.source.len() {
                return Err(Error::UnexpectedEndOfJson);
            }
            let b = self.source[self.index];
            if (9 <= b && b <= 13) || b == 32 {
                proof {
                    lemma_forward_add(sp_object(s, cur + 1), 1, k);
                }
                self.index = self.index + 1;
                continue ;
            }
            if b == 125 {
                self.index = self.index + 1;
                proof {
                    lemma_vm_members(members@);
                    assert(vm_members(members@) =~= Seq::<(Seq<u8>, SpecValue)>::empty());
                }
                return Ok(members);
            }
            // the first member, then the comma-separated rest
            let (key, val) = match self.read_member() {
                Ok(kv) => kv,
                Err(e) => return Err(e),
            };
            let ghost gk = key@;
            let ghost gv = val.vm();
            proof {
                lemma_vm_members(members@);
                assert(vm_members(members@) =~= Seq::<(Seq<u8>, SpecValue)>::empty());
            }
            object_insert(&mut members, key, val);
            proof {
                assert(vm_members(members@) =~= seq![(gk, gv)]);
                lemma_forward_add(
                    sp_object_rest(s, self.index as int, vm_members(members@)),
                    ((self.index - cur) as nat),
                    k,
                );
            }
            loop
                invariant
                    self.wf(),
                    self.source == old(self).source,
                    i0 <= self.index as int,
                    unique_keys(vm_members(members@)),
                    sp_object(s, i0) == forward(
                        sp_object_rest(s, self.index as int, vm_members(members@)),
                        (self.index - i0) as nat,
                    ),
                decreases s.len() - self.index,
            {
                let ghost cur2 = self.index as int;
                let ghost k2 = (self.index - i0) as nat;
                let ghost ms = vm_members(members@);
                if self.index >= self.source.len() {
                    return Err(Error::UnexpectedEndOfJson);
                }
                let b2 = self.source[self.index];
                if (9 <= b2 && b2 <= 13) || b2 == 32 {
                    proof {
                        lemma_forward_add(sp_object_rest(s, cur2 + 1, ms), 1, k2);
                    }
                    self.index = self.index + 1;
                    continue ;
                }
                if b2 == 125 {
                    self.index = self.index + 1;
                    return Ok(members);
                }
                if b2 == 44 {
                    self.index = self.index + 1;
                    let (key, val) = match self.read_member() {
                        Ok(kv) => kv,
                        Err(e) => return Err(e),
                    };
                    let ghost gk2 = key@;
                    let ghost gv2 = val.vm();
                    object_insert(&mut members, key, val);
                    proof {
                        lemma_object_insert_unique(ms, gk2, gv2);
                        lemma_forward_add(
                            sp_object_rest(s, self.index as int, vm_members(members@)),
                            ((self.index - cur2) as nat),
                            k2,
                        );
                    }
                    continue ;
                }
                return Err(self.unexpected_character(self.index));
            }
        }
    }

    /// After the parsed value only whitespace may remain; anything else is
    /// reported at its position.
    #[verifier::loop_isolation(false)]
    fn ensure_end(&mut self) -> (r: Result<(), Error>)
        requires
            old(self).wf(),
        ensures
            final(self).source == old(self).source,
            final(self).wf(),
            match r {
                Ok(_) => sp_ensure_end(old(self).s(), old(self).index as int)
                    is None,
                Err(e) => sp_ensure_end(old(self).s(), old(self).index as int)
                    matches Some(f) && e == sp_error_of(old(self).s(), f),
            },
    {
        let ghost s = self.s();
        let ghost i0 = old(self).index as int;
        loop
            invariant
                self.wf(),
                self.source == old(self).source,
                sp_ensure_end(s, i0) == sp_ensure_end(
                    s,
                    self.index as int,
                ),
            decreases s.len() - self.index,
        {
            if self.index >= self.source.len() {
                return Ok(());
            }
            let b = self.source[self.index];
            if (9 <= b && b <= 13) || b == 32 {
                self.index = self.index + 1;
            } else {
                return Err(self.unexpected_character(self.index));
            }
        }
    }
}

/// What parsing a whole input returns: the model of its one value when the
/// input is valid JSON, and the first error otherwise.
pub open spec fn sp_parse(s: Seq<u8>) -> Result<SpecValue, Error> {
    match sp_value(s, 0) {
        Step::Stop { f } => Result::Err(sp_error_of(s, f)),
        Step::Done { v, n } => match sp_ensure_end(s, n as int) {
            Option::Some(f) => Result::Err(sp_error_of(s, f)),
            Option::None => Result::Ok(v),
        },
    }
}

/// Parses one JSON document: exactly one value, after which only whitespace
/// may remain.  Returns the value tree, or the first error with its place.
pub fn parse(source: &str) -> (r: Result<Value, Error>)
    ensures
        match r {
            Ok(v) => sp_parse(source.spec_bytes()) == Result::<SpecValue, Error>::Ok(v.vm()),
            Err(e) => sp_parse(source.spec_bytes()) == Result::<SpecValue, Error>::Err(e),
        },
{
    let mut parser = Parser::new(source);
    let value = match parser.value() {
        Ok(v) => v,
        Err(e) => return Err(e),
    };
    match parser.ensure_end() {
        Ok(_) => Ok(value),
        Err(e) => Err(e),
    }
}

/// Appends the UTF-8 encoding of one Unicode scalar value, 1 to 4 bytes by
/// the standard length classes.
fn push_scalar(buf: &mut Vec<u8>, cp: u32)
    requires
        is_scalar(cp),
    ensures
        final(buf)@ == old(buf)@ + encode_scalar(cp),
{
    if cp <= 0x7F {
        buf.push((cp & 0x7F) as u8);
    } else if cp <= 0x7FF {
        buf.push(0xC0 | (((cp >> 6) & 0x1F) as u8));
        buf.push(0x80 | ((cp & 0x3F) as u8));
    } else if cp <= 0xFFFF {
        buf.push(0xE0 | (((cp >> 12) & 0x0F) as u8));
        buf.push(0x80 | (((cp >> 6) & 0x3F) as u8));
        buf.push(0x80 | ((cp & 0x3F) as u8));
    } else {
        buf.push(0xF0 | (((cp >> 18) & 0x7) as u8));
        buf.push(0x80 | (((cp >> 12) & 0x3F) as u8));
        buf.push(0x80 | (((cp >> 6) & 0x3F) as u8));
        buf.push(0x80 | ((cp & 0x3F) as u8));
    }
    proof {
        assert(buf@ =~= old(buf)@ + encode_scalar(cp));
    }
}

} // verus!
