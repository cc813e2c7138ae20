use jsonl_peek::binary64::Binary64;
use jsonl_peek::json::{parse, ErrorKind, ParseError, Value, MAX_DEPTH};

fn number(x: f64) -> Binary64 {
    Binary64::from_bits(x.to_bits())
}

fn err(input: &str) -> ParseError {
    parse(input).unwrap_err()
}

#[test]
fn parses_scalars() {
    assert_eq!(parse("null").unwrap(), Value::Null);
    assert_eq!(parse(" true ").unwrap(), Value::Bool(true));
    assert_eq!(parse("false").unwrap(), Value::Bool(false));
    assert_eq!(parse("0").unwrap(), Value::Int(0));
    assert_eq!(parse("-42").unwrap(), Value::Int(-42));
    assert_eq!(parse("1.5").unwrap(), Value::Float(number(1.5)));
    assert_eq!(parse("1e3").unwrap(), Value::Float(number(1000.0)));
    assert_eq!(parse("-0.0").unwrap(), Value::Float(number(-0.0)));
}

#[test]
fn integers_beyond_i64_become_floats() {
    // 2^64 has no i64 representation, so it degrades to f64 rather than
    // failing outright.
    let v = parse("18446744073709551616").unwrap();
    assert_eq!(v.type_label(), "float");
    assert_eq!(v.as_f64(), Some(number(18446744073709551616.0)));
    assert_eq!(parse("9223372036854775807").unwrap(), Value::Int(i64::MAX));
}

#[test]
fn rejects_malformed_numbers() {
    assert_eq!(err("01").kind, ErrorKind::TrailingData);
    assert_eq!(err("1.").kind, ErrorKind::InvalidNumber);
    assert_eq!(err("-").kind, ErrorKind::UnexpectedEof);
    assert_eq!(err("1e").kind, ErrorKind::InvalidNumber);
    assert_eq!(err("1e+").kind, ErrorKind::InvalidNumber);
    assert_eq!(err("+1").kind, ErrorKind::UnexpectedByte(b'+'));
    assert_eq!(err("1e400").kind, ErrorKind::NumberOutOfRange);
    assert_eq!(err("NaN").kind, ErrorKind::UnexpectedByte(b'N'));
}

#[test]
fn decodes_string_escapes() {
    let v = parse(r#""a\/b\\c\"d\n\t\r\b\f""#).unwrap();
    assert_eq!(v.as_str(), Some("a/b\\c\"d\n\t\r\u{8}\u{c}"));
    assert_eq!(parse(r#""é""#).unwrap().as_str(), Some("é"));
    // Surrogate pair for U+1F600.
    assert_eq!(parse(r#""😀""#).unwrap().as_str(), Some("😀"));
}

#[test]
fn rejects_bad_strings() {
    assert_eq!(err(r#""\x""#).kind, ErrorKind::InvalidEscape(b'x'));
    assert_eq!(err(r#""\u12x4""#).kind, ErrorKind::InvalidUnicodeEscape);
    assert_eq!(err(r#""\u12""#).kind, ErrorKind::UnexpectedEof);
    assert_eq!(err(r#""\ud83d""#).kind, ErrorKind::UnpairedSurrogate);
    assert_eq!(err(r#""\udc00\ud83d""#).kind, ErrorKind::UnpairedSurrogate);
    assert_eq!(err("\"raw\tTab\"").kind, ErrorKind::ControlCharacter(b'\t'));
    assert_eq!(err("\"unterminated").kind, ErrorKind::UnexpectedEof);
}

#[test]
fn multibyte_strings_slice_correctly() {
    let v = parse("\"héllo→\\n世界\"").unwrap();
    assert_eq!(v.as_str(), Some("héllo→\n世界"));
}

#[test]
fn parses_nested_containers() {
    let v = parse(r#"{"a":[1,{"b":null}],"c":{}}"#).unwrap();
    assert_eq!(v.get("a").unwrap().as_array().unwrap().len(), 2);
    assert!(v.get("a").unwrap().as_array().unwrap()[1]
        .get("b")
        .unwrap()
        .is_null());
    assert_eq!(v.get("c").unwrap().as_object().unwrap().len(), 0);
    assert_eq!(v.get("missing"), None);
}

#[test]
fn reports_offsets() {
    let e = err(r#"{"a":1,}"#);
    assert_eq!(e.kind, ErrorKind::ExpectedKey);
    assert_eq!(e.offset, 7);
    let e = err(r#"{"a" 1}"#);
    assert_eq!(e.kind, ErrorKind::ExpectedColon);
    assert_eq!(e.offset, 5);
    let e = err("[1 2]");
    assert_eq!(e.kind, ErrorKind::ExpectedCommaOrCloseBracket);
    assert_eq!(e.offset, 3);
    let e = err("{} {}");
    assert_eq!(e.kind, ErrorKind::TrailingData);
    assert_eq!(e.offset, 3);
}

#[test]
fn rejects_common_near_json() {
    assert_eq!(err("{'a':1}").kind, ErrorKind::ExpectedKey);
    assert_eq!(err("[1,]").kind, ErrorKind::UnexpectedByte(b']'));
    assert_eq!(err("{a:1}").kind, ErrorKind::ExpectedKey);
    assert_eq!(err("").kind, ErrorKind::UnexpectedEof);
    assert_eq!(err("   ").kind, ErrorKind::UnexpectedEof);
}

#[test]
fn enforces_depth_limit() {
    let deep = "[".repeat(MAX_DEPTH + 1);
    assert_eq!(err(&deep).kind, ErrorKind::DepthLimitExceeded);
    let ok = format!("{}{}", "[".repeat(MAX_DEPTH), "]".repeat(MAX_DEPTH));
    assert!(parse(&ok).is_ok());
}

#[test]
fn round_trips_through_writer() {
    let src = r#"{"s":"a\"b\n","i":-3,"f":2.5,"w":1.0,"a":[true,false,null],"o":{}}"#;
    let v = parse(src).unwrap();
    let out = v.to_json();
    assert_eq!(out, src);
    assert_eq!(parse(&out).unwrap(), v);
}

#[test]
fn escapes_control_characters_on_write() {
    let v = Value::Str("\u{1}\u{1f}ok".to_string());
    assert_eq!(v.to_json(), "\"\\u0001\\u001fok\"");
    assert_eq!(parse(&v.to_json()).unwrap(), v);
}

#[test]
fn duplicate_keys_are_preserved() {
    let v = parse(r#"{"a":1,"a":2}"#).unwrap();
    assert_eq!(v.as_object().unwrap().len(), 2);
    assert_eq!(v.get("a"), Some(&Value::Int(1)));
}

#[test]
fn error_display_mentions_offset() {
    let e = err("[1 2]");
    assert_eq!(e.to_string(), "at byte 3: expected ',' or ']' in array");
}

#[test]
fn escapes_by_code_are_decoded() {
    assert_eq!(parse("\"\\u00e9\"").unwrap().as_str(), Some("é"));
    assert_eq!(parse("\"\\u00E9\\u4e16\"").unwrap().as_str(), Some("é世"));
    assert_eq!(parse("\"\\ud83d\\ude00\"").unwrap().as_str(), Some("😀"));
    assert_eq!(parse("\"\\ud83d\\u0041\"").unwrap_err().kind, ErrorKind::UnpairedSurrogate);
    assert_eq!(parse("\"\\uffff\"").unwrap().as_str(), Some("\u{ffff}"));
}

#[test]
fn numbers_are_read_as_the_nearest_double() {
    for text in [
        "0.1",
        "-0.1",
        "3.141592653589793",
        "2.2250738585072014e-308",
        "2.2250738585072011e-308",
        "4.9e-324",
        "2.4703282292062327e-324",
        "2.4703282292062328e-324",
        "1.7976931348623157e308",
        "9007199254740993",
        "9007199254740993.0",
        "9007199254740992.9999999999999999",
        "123456789012345678901234567890",
        "1e-400",
        "0e999999999999999999999",
        "6.02214076E+23",
    ] {
        let expected: f64 = text.parse().unwrap();
        match parse(text).unwrap() {
            Value::Float(x) => assert_eq!(x.to_bits(), expected.to_bits(), "{}", text),
            Value::Int(n) => assert_eq!(n as f64, expected, "{}", text),
            other => panic!("{} is read as {:?}", text, other),
        }
    }
    assert_eq!(err("1.7976931348623159e308").kind, ErrorKind::NumberOutOfRange);
    assert_eq!(parse("-9223372036854775808").unwrap(), Value::Int(i64::MIN));
    assert_eq!(parse("-0").unwrap(), Value::Int(0));
}

#[test]
fn floats_are_written_in_their_shortest_form() {
    for x in [
        1.0,
        -1.0,
        0.0,
        -0.0,
        2.5,
        0.1,
        1.0 / 3.0,
        2.0 / 3.0,
        1e15,
        9999999999999998.0,
        1e16,
        123456789.125,
        1e-7,
        5e-324,
        2.2250738585072014e-308,
        1.5e300,
        9007199254740993.0,
        1.7976931348623157e308,
    ] {
        let text = Value::Float(number(x)).to_json();
        let expected = if x.fract() == 0.0 && x.abs() < 1e16 {
            format!("{:.1}", x)
        } else {
            format!("{}", x)
        };
        assert_eq!(text, expected);
        let back: f64 = text.parse().unwrap();
        assert_eq!(back.to_bits(), x.to_bits());
    }
}

#[test]
fn every_error_has_a_message() {
    let messages = [
        ("", "at byte 0: unexpected end of input"),
        ("+", "at byte 0: unexpected '+'"),
        ("[\u{1}]", "at byte 1: unexpected byte 0x01"),
        ("nul", "at byte 0: invalid literal, expected true/false/null"),
        ("-x", "at byte 0: invalid number"),
        ("1e400", "at byte 0: number out of range for f64"),
        ("\"\\q\"", "at byte 1: invalid escape sequence \\'q'"),
        ("\"\\u00g0\"", "at byte 5: invalid \\u escape"),
        ("\"\\udead\"", "at byte 1: unpaired UTF-16 surrogate"),
        ("\"\u{1f}\"", "at byte 1: unescaped control character byte 0x1f"),
        ("{\"a\"}", "at byte 4: expected ':' after object key"),
        ("{\"a\":1 2}", "at byte 7: expected ',' or '}' in object"),
        ("[1 2]", "at byte 3: expected ',' or ']' in array"),
        ("{1}", "at byte 1: expected a quoted object key"),
        ("{} 1", "at byte 3: trailing data after JSON value"),
    ];
    for (input, message) in messages {
        assert_eq!(err(input).to_string(), message, "{}", input);
    }
    let deep = "[".repeat(MAX_DEPTH + 1);
    assert_eq!(err(&deep).kind.to_string(), "nesting too deep");
}

#[test]
fn accessors_tell_the_types_apart() {
    let v = parse(r#"[null,true,1,1.5,"s",[],{}]"#).unwrap();
    let items = v.as_array().unwrap();
    let labels: Vec<&str> = items.iter().map(|i| i.type_label()).collect();
    assert_eq!(labels, vec!["null", "bool", "int", "float", "string", "array", "object"]);
    assert!(items[0].is_null() && !items[1].is_null());
    assert_eq!(items[4].as_str(), Some("s"));
    assert_eq!(items[3].as_str(), None);
    assert_eq!(items[2].as_f64(), Some(number(1.0)));
    assert_eq!(items[3].as_f64(), Some(number(1.5)));
    assert_eq!(items[4].as_f64(), None);
    assert_eq!(items[6].as_array(), None);
    assert!(items[5].as_object().is_none());
    assert_eq!(v.clone(), v);
}

#[test]
fn a_fraction_needs_a_digit_before_its_point() {
    let e = err(".5");
    assert_eq!((e.offset, e.kind), (0, ErrorKind::InvalidNumber));
    let e = err("[1,.25]");
    assert_eq!((e.offset, e.kind), (3, ErrorKind::InvalidNumber));
    assert_eq!(err(".").kind, ErrorKind::UnexpectedByte(b'.'));
    assert_eq!(err("-.5").kind, ErrorKind::InvalidNumber);
}

#[test]
fn members_are_found_and_errors_located() {
    let v = parse(r#"{"role":"user","tokens":[1,2,3]}"#).unwrap();
    assert_eq!(v.get("role").and_then(Value::as_str), Some("user"));
    assert_eq!(parse("{,}").unwrap_err().offset, 1);
    let tokens = v.get("tokens").and_then(Value::as_array).unwrap();
    let numbers: Vec<Option<i64>> = tokens.iter().map(Value::as_i64).collect();
    assert_eq!(numbers, vec![Some(1), Some(2), Some(3)]);
    assert_eq!(v.as_i64(), None);
    assert_eq!(parse("true").unwrap().as_bool(), Some(true));
    assert_eq!(parse("0").unwrap().as_bool(), None);
}

#[test]
fn white_space_around_a_document_does_not_matter() {
    for space in [" ", "\t\n", "\r \n\t "] {
        for text in ["1", "-0", "1.5e3", "\"x y\"", "null", "[1, 2]", "{\"a\":[{}]}"] {
            let value = parse(text).unwrap();
            assert_eq!(parse(&format!("{space}{text}")).unwrap(), value);
            assert_eq!(parse(&format!("{text}{space}")).unwrap(), value);
        }
        for text in ["", "tru", "[1,", "{\"a\" 1}", "1 2", "\"\\x\"", "01", "\"\\ud800\"", "+"] {
            let e = err(text);
            assert!(e.offset <= text.len());
            let moved = err(&format!("{space}{text}"));
            assert_eq!(moved, ParseError { offset: e.offset + space.len(), kind: e.kind });
        }
    }
}

#[test]
fn floats_below_the_large_ones_are_read_back() {
    for x in [
        0.0, -0.0, 0.1, 1.0, -2.5, 1e15, 9007199254740991.0, 9007199254740993.0, 9999999999999998.0,
        4503599627370497.5, 1e-300, 5e-324, 123456.789,
    ] {
        let value = Value::Float(number(x));
        assert_eq!(parse(&value.to_json()).unwrap(), value, "{}", x);
    }
    // From here on a whole float is written, and read, as an integer.
    assert_eq!(
        parse(&Value::Float(number(1e16)).to_json()).unwrap(),
        Value::Int(10_000_000_000_000_000)
    );
}
