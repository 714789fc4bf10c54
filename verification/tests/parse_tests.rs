use json::{parse, Error, Number, Parser, Value};

fn num(
    negative: bool,
    digits: &[u8],
    fraction: &[u8],
    exponent_negative: bool,
    exponent: &[u8],
) -> Number {
    Number {
        negative,
        digits: digits.to_vec(),
        fraction: fraction.to_vec(),
        exponent_negative,
        exponent: exponent.to_vec(),
    }
}

/// Folds the digit parts into an `f64`: shift-and-add up to 18 integer
/// digits in an integer, further digits in floating point, fraction digits
/// by a shrinking precision factor, and a power of ten for the exponent.
fn to_f64(n: &Number) -> f64 {
    let mut int_acc: u64 = 0;
    let mut used: usize = 0;
    for &d in n.digits.iter() {
        if used == 18 {
            break;
        }
        int_acc = (int_acc << 1) + (int_acc << 3) + d as u64;
        used += 1;
    }
    let mut value = int_acc as f64;
    for &d in n.digits.iter().skip(used) {
        value = value * 10.0 + d as f64;
    }
    let mut precision = 0.1;
    for &d in n.fraction.iter() {
        value += d as f64 * precision;
        precision /= 10.0;
    }
    if !n.exponent.is_empty() {
        let mut e: i32 = 0;
        for &d in n.exponent.iter() {
            e = e.saturating_mul(10).saturating_add(d as i32);
        }
        if n.exponent_negative {
            e = -e;
        }
        value *= 10f64.powi(e);
    }
    if n.negative {
        -value
    } else {
        value
    }
}

#[test]
fn parses_null() {
    assert_eq!(parse("null"), Ok(Value::Null));
}

#[test]
fn parses_booleans() {
    assert_eq!(parse("true"), Ok(Value::Boolean(true)));
    assert_eq!(parse("false"), Ok(Value::Boolean(false)));
}

#[test]
fn parses_simple_string() {
    assert_eq!(parse("\"hello\""), Ok(Value::Text(b"hello".to_vec())));
}

#[test]
fn parses_escapes() {
    assert_eq!(
        parse("\"a\\n\\t\\r\\b\\f\\\\\\\"\\/z\""),
        Ok(Value::Text(b"a\n\t\r\x08\x0c\\\"/z".to_vec()))
    );
}

#[test]
fn parses_unicode_escape() {
    assert_eq!(parse("\"\\u0041\""), Ok(Value::Text(b"A".to_vec())));
    assert_eq!(
        parse("\"\\u00e9\""),
        Ok(Value::Text("é".as_bytes().to_vec()))
    );
    assert_eq!(
        parse("\"\\u20ac\""),
        Ok(Value::Text("€".as_bytes().to_vec()))
    );
}

#[test]
fn empty_array_parses_to_empty_sequence() {
    assert_eq!(parse("[]"), Ok(Value::Array(Vec::new())));
    assert_eq!(parse("[  ]"), Ok(Value::Array(Vec::new())));
}

#[test]
fn empty_object_parses_to_empty_mapping() {
    assert_eq!(parse("{}"), Ok(Value::Object(Vec::new())));
    assert_eq!(parse("{   }"), Ok(Value::Object(Vec::new())));
}

#[test]
fn parses_array_of_numbers() {
    let expected = Value::Array(vec![
        Value::Number(num(false, &[1], &[], false, &[])),
        Value::Number(num(false, &[2], &[], false, &[])),
        Value::Number(num(false, &[3], &[], false, &[])),
    ]);
    assert_eq!(parse("[1, 2, 3]"), Ok(expected));
}

#[test]
fn parses_nested_structures() {
    let expected = Value::Object(vec![
        (
            b"a".to_vec(),
            Value::Array(vec![Value::Boolean(true), Value::Null]),
        ),
        (
            b"b".to_vec(),
            Value::Object(vec![(b"c".to_vec(), Value::Text(b"d".to_vec()))]),
        ),
    ]);
    assert_eq!(
        parse("{ \"a\": [true, null], \"b\": { \"c\": \"d\" } }"),
        Ok(expected)
    );
}

#[test]
fn duplicate_keys_last_write_wins() {
    let expected = Value::Object(vec![(
        b"a".to_vec(),
        Value::Number(num(false, &[2], &[], false, &[])),
    )]);
    assert_eq!(parse("{\"a\":1,\"a\":2}"), Ok(expected));
}

#[test]
fn surrogate_pair_decodes_to_four_utf8_bytes() {
    let parsed = parse("\"\\uD83D\\uDE00\"").unwrap();
    assert_eq!(parsed, Value::Text(vec![0xF0, 0x9F, 0x98, 0x80]));
    assert_eq!(parsed, Value::Text("😀".as_bytes().to_vec()));
}

#[test]
fn unpaired_high_surrogate_fails_with_encoding_error() {
    assert_eq!(parse("\"\\uD800\""), Err(Error::FailedUtf8Parsing));
    assert_eq!(parse("\"\\uD800x\""), Err(Error::FailedUtf8Parsing));
    assert_eq!(parse("\"\\uD800\\u0041\""), Err(Error::FailedUtf8Parsing));
    assert_eq!(parse("\"\\uD800"), Err(Error::UnexpectedEndOfJson));
}

#[test]
fn lone_low_surrogate_fails_with_encoding_error() {
    assert_eq!(parse("\"\\uDC00\""), Err(Error::FailedUtf8Parsing));
}

#[test]
fn number_zero_keeps_plain_zero() {
    let parsed = parse("0").unwrap();
    assert_eq!(parsed, Value::Number(num(false, &[0], &[], false, &[])));
    if let Value::Number(n) = parsed {
        let v = to_f64(&n);
        assert_eq!(v, 0.0);
        assert!(!v.is_sign_negative());
    }
}

#[test]
fn number_negative_zero_keeps_its_sign() {
    let parsed = parse("-0").unwrap();
    assert_eq!(parsed, Value::Number(num(true, &[0], &[], false, &[])));
    if let Value::Number(n) = parsed {
        let v = to_f64(&n);
        assert_eq!(v, 0.0);
        assert!(v.is_sign_negative());
    }
}

#[test]
fn number_with_fraction_and_exponent() {
    let parsed = parse("1.5e2").unwrap();
    assert_eq!(parsed, Value::Number(num(false, &[1], &[5], false, &[2])));
    if let Value::Number(n) = parsed {
        assert_eq!(to_f64(&n), 150.0);
    }
}

#[test]
fn number_with_negative_exponent() {
    let parsed = parse("25e-3").unwrap();
    assert_eq!(parsed, Value::Number(num(false, &[2, 5], &[], true, &[3])));
    if let Value::Number(n) = parsed {
        assert_eq!(to_f64(&n), 0.025);
    }
}

#[test]
fn number_with_explicit_positive_exponent() {
    let parsed = parse("2E+1").unwrap();
    assert_eq!(parsed, Value::Number(num(false, &[2], &[], false, &[1])));
}

#[test]
fn long_integer_does_not_overflow() {
    let parsed = parse("123456789012345678901").unwrap();
    let expected_digits: Vec<u8> = vec![1, 2, 3, 4, 5, 6, 7, 8, 9, 0, 1, 2, 3, 4, 5, 6, 7, 8, 9, 0, 1];
    assert_eq!(
        parsed,
        Value::Number(num(false, &expected_digits, &[], false, &[]))
    );
    if let Value::Number(n) = parsed {
        let v = to_f64(&n);
        let expected = ((123456789012345678u64 as f64) * 10.0 + 9.0) * 10.0 * 10.0 + 1.0;
        assert_eq!(v, expected);
        assert!(v.is_finite());
    }
}

#[test]
fn negative_number_parses() {
    let parsed = parse("-12.5").unwrap();
    assert_eq!(parsed, Value::Number(num(true, &[1, 2], &[5], false, &[])));
    if let Value::Number(n) = parsed {
        assert_eq!(to_f64(&n), -12.5);
    }
}

#[test]
fn empty_input_fails_with_end_of_input() {
    assert_eq!(parse(""), Err(Error::UnexpectedEndOfJson));
    assert_eq!(parse("   "), Err(Error::UnexpectedEndOfJson));
}

#[test]
fn open_brace_fails_with_end_of_input() {
    assert_eq!(parse("{"), Err(Error::UnexpectedEndOfJson));
}

#[test]
fn truncated_literal_fails_with_end_of_input() {
    assert_eq!(parse("tru"), Err(Error::UnexpectedEndOfJson));
}

#[test]
fn comma_after_brace_fails_identifying_comma() {
    assert_eq!(parse("{,"), Err(Error::UnexpectedCharacter {
        ch: ',',
        line: 1,
        column: 2,
    }));
}

#[test]
fn malformed_escape_fails_identifying_character() {
    assert_eq!(parse("\"\\q\""), Err(Error::UnexpectedCharacter {
        ch: 'q',
        line: 1,
        column: 3,
    }));
}

#[test]
fn trailing_whitespace_is_accepted() {
    assert_eq!(parse("42 \t\r\n "), parse("42"));
    assert_eq!(parse("[1] \n"), parse("[1]"));
}

#[test]
fn trailing_byte_fails_at_its_position() {
    assert_eq!(parse("42 x"), Err(Error::UnexpectedCharacter {
        ch: 'x',
        line: 1,
        column: 4,
    }));
    assert_eq!(parse("null\nnull"), Err(Error::UnexpectedCharacter {
        ch: 'n',
        line: 2,
        column: 1,
    }));
}

#[test]
fn wrong_literal_fails_at_mismatch() {
    assert_eq!(parse("nul!"), Err(Error::UnexpectedCharacter {
        ch: '!',
        line: 1,
        column: 4,
    }));
}

#[test]
fn bad_dispatch_byte_is_decoded_for_the_message() {
    assert_eq!(parse("é"), Err(Error::UnexpectedCharacter {
        ch: 'é',
        line: 1,
        column: 1,
    }));
    assert_eq!(parse("[1, €]"), Err(Error::UnexpectedCharacter {
        ch: '€',
        line: 1,
        column: 5,
    }));
}

#[test]
fn unterminated_string_fails_with_end_of_input() {
    assert_eq!(parse("\"abc"), Err(Error::UnexpectedEndOfJson));
}

#[test]
fn missing_colon_fails() {
    assert_eq!(parse("{\"a\" 1}"), Err(Error::UnexpectedCharacter {
        ch: '1',
        line: 1,
        column: 6,
    }));
}

#[test]
fn missing_fraction_digits_fail() {
    assert_eq!(parse("1."), Err(Error::UnexpectedEndOfJson));
    assert_eq!(parse("1.e5"), Err(Error::UnexpectedCharacter {
        ch: 'e',
        line: 1,
        column: 3,
    }));
}

#[test]
fn missing_exponent_digits_fail() {
    assert_eq!(parse("1e"), Err(Error::UnexpectedEndOfJson));
    assert_eq!(parse("1e-"), Err(Error::UnexpectedEndOfJson));
    assert_eq!(parse("1e+,"), Err(Error::UnexpectedCharacter {
        ch: ',',
        line: 1,
        column: 4,
    }));
}

#[test]
fn leading_zero_stops_the_integer_part() {
    assert_eq!(parse("01"), Err(Error::UnexpectedCharacter {
        ch: '1',
        line: 1,
        column: 2,
    }));
    let parsed = parse("0.25").unwrap();
    assert_eq!(parsed, Value::Number(num(false, &[0], &[2, 5], false, &[])));
}

#[test]
fn array_without_separator_fails() {
    assert_eq!(parse("[1 2]"), Err(Error::UnexpectedCharacter {
        ch: '2',
        line: 1,
        column: 4,
    }));
}

#[test]
fn all_whitespace_kinds_are_skipped() {
    // byte values 9 to 13 and 32
    assert_eq!(parse("\t\n\x0b\x0c\r true \t"), Ok(Value::Boolean(true)));
}

#[test]
fn empty_string_value_parses() {
    assert_eq!(parse("\"\""), Ok(Value::Text(Vec::new())));
}

#[test]
fn nul_escape_is_kept() {
    assert_eq!(parse("\"\\u0000x\""), Ok(Value::Text(vec![0, b'x'])));
}

#[test]
fn raw_multibyte_text_passes_through() {
    assert_eq!(
        parse("\"héllo €\""),
        Ok(Value::Text("héllo €".as_bytes().to_vec()))
    );
}

#[test]
fn nested_empty_containers() {
    assert_eq!(
        parse("[[], {}]"),
        Ok(Value::Array(vec![
            Value::Array(Vec::new()),
            Value::Object(Vec::new()),
        ]))
    );
}

#[test]
fn unterminated_array_fails_with_end_of_input() {
    assert_eq!(parse("[1, 2"), Err(Error::UnexpectedEndOfJson));
    assert_eq!(parse("[1,"), Err(Error::UnexpectedEndOfJson));
}

#[test]
fn unterminated_object_fails_with_end_of_input() {
    assert_eq!(parse("{\"a\":1"), Err(Error::UnexpectedEndOfJson));
    assert_eq!(parse("{\"a\":"), Err(Error::UnexpectedEndOfJson));
    assert_eq!(parse("{\"a\""), Err(Error::UnexpectedEndOfJson));
}

#[test]
fn bare_minus_fails() {
    assert_eq!(parse("-"), Err(Error::UnexpectedEndOfJson));
    assert_eq!(parse("-x"), Err(Error::UnexpectedCharacter {
        ch: 'x',
        line: 1,
        column: 2,
    }));
}

#[test]
fn source_position_counts_lines_and_columns() {
    let parser = Parser::new("ab\ncdé f");
    let pos = parser.source_position_from_index(2);
    assert_eq!((pos.line, pos.column), (1, 2));
    let pos = parser.source_position_from_index(5);
    assert_eq!((pos.line, pos.column), (2, 2));
    // the é takes two bytes but counts as one character
    let pos = parser.source_position_from_index(8);
    assert_eq!((pos.line, pos.column), (2, 4));
}
