use rgit::rjson::{parse, parse_detailed, parse_hex4, parse_string, CharCursor, Literal, ParseError, Value};

#[test]
fn parses_string_array() {
    let v = parse(r#"["a.git","b.git"]"#).unwrap();
    let arr = v.as_array().unwrap();
    assert_eq!(arr.len(), 2);
    assert_eq!(arr[0].as_str(), Some("a.git"));
    assert_eq!(arr[1].as_str(), Some("b.git"));
}

#[test]
fn parses_object_with_escapes_and_unicode() {
    let v = parse(r#"{"branch":"main","content":"line1\nline2 \"quoted\" 日本"}"#).unwrap();
    assert_eq!(v.get("branch").and_then(Value::as_str), Some("main"));
    assert_eq!(v.get("content").and_then(Value::as_str), Some("line1\nline2 \"quoted\" 日本"));
}

#[test]
fn parses_empty_array_and_object() {
    assert!(parse("[]").unwrap().as_array().unwrap().is_empty());
    assert!(matches!(parse("{}").unwrap(), Value::Object(f) if f.is_empty()));
}

#[test]
fn rejects_malformed_input() {
    assert!(parse("{\"a\":").is_err());
    assert!(parse("[1,2,").is_err());
    assert!(parse("\"unterminated").is_err());
}

#[test]
fn parses_literals_and_numbers() {
    assert!(matches!(parse("true").unwrap(), Value::Bool(true)));
    assert!(matches!(parse(" false ").unwrap(), Value::Bool(false)));
    assert!(matches!(parse("null").unwrap(), Value::Null));
    match parse("-12.5e+3").unwrap() {
        Value::Number(t) => assert_eq!(t, "-12.5e+3"),
        other => panic!("unexpected {other:?}"),
    }
    match parse("[0, 1.]").unwrap() {
        Value::Array(items) => {
            assert!(matches!(&items[0], Value::Number(t) if t == "0"));
            assert!(matches!(&items[1], Value::Number(t) if t == "1."));
        }
        other => panic!("unexpected {other:?}"),
    }
}

#[test]
fn nested_values_keep_their_order() {
    let v = parse(r#" { "a" : [ 1 , { "b" : null } ] , "c" : "d" } "#).unwrap();
    let a = v.get("a").unwrap().as_array().unwrap();
    assert_eq!(a.len(), 2);
    assert!(matches!(a[1].get("b"), Some(Value::Null)));
    assert_eq!(v.get("c").and_then(Value::as_str), Some("d"));
    assert!(v.get("missing").is_none());
    match &v {
        Value::Object(fields) => {
            assert_eq!(fields[0].0, "a");
            assert_eq!(fields[1].0, "c");
        }
        other => panic!("unexpected {other:?}"),
    }
}

#[test]
fn get_returns_the_first_of_repeated_keys() {
    let v = parse(r#"{"k":"first","k":"second"}"#).unwrap();
    assert_eq!(v.get("k").and_then(Value::as_str), Some("first"));
}

#[test]
fn accessors_refuse_other_kinds() {
    let v = parse("[1]").unwrap();
    assert_eq!(v.as_str(), None);
    assert!(v.get("x").is_none());
    let s = parse("\"x\"").unwrap();
    assert!(s.as_array().is_none());
}

#[test]
fn decodes_all_escapes() {
    let v = parse(r#""\"\\\/\n\t\r\b\f\u0041\u00e9""#).unwrap();
    assert_eq!(v.as_str(), Some("\"\\/\n\t\r\u{8}\u{c}Aé"));
}

#[test]
fn combines_surrogate_pairs() {
    let v = parse(r#""\ud83d\ude00!""#).unwrap();
    assert_eq!(v.as_str(), Some("😀!"));
}

#[test]
fn drops_lone_surrogates() {
    // A low surrogate on its own is no character: nothing is kept of it.
    assert_eq!(parse(r#""a\udc00b""#).unwrap().as_str(), Some("ab"));
    // A high surrogate not followed by `\u`: it and the next character are dropped.
    assert_eq!(parse(r#""a\ud83dxyz""#).unwrap().as_str(), Some("ayz"));
}

#[test]
fn plus_sign_in_unicode_escape_is_read_as_hex() {
    assert_eq!(parse(r#""\u+041""#).unwrap().as_str(), Some("A"));
}

#[test]
fn trailing_text_is_not_read() {
    assert!(matches!(parse("[] trailing").unwrap(), Value::Array(items) if items.is_empty()));
}

#[test]
fn error_messages_name_the_problem() {
    assert_eq!(parse("[1,2,").unwrap_err(), "RJson: unexpected token None");
    assert_eq!(parse("?").unwrap_err(), "RJson: unexpected token Some('?')");
    assert_eq!(parse("tru").unwrap_err(), "RJson: expected 'true', got None");
    assert_eq!(parse("nul!").unwrap_err(), "RJson: expected 'null', got Some('!')");
    assert_eq!(parse("1.2.3").unwrap_err(), "RJson: invalid number '1.2.3': invalid float literal");
    assert_eq!(parse("\"abc").unwrap_err(), "RJson: unterminated string");
    assert_eq!(parse(r#""\q""#).unwrap_err(), "RJson: invalid escape Some('q')");
    assert_eq!(parse(r#""\u12"#).unwrap_err(), "RJson: truncated \\u escape");
    assert_eq!(parse(r#""\uzzzz""#).unwrap_err(), "RJson: invalid \\u escape 'zzzz': invalid digit found in string");
    assert_eq!(parse("[1 2]").unwrap_err(), "RJson: expected ',' or ']' in array, got Some('2')");
    assert_eq!(parse("{\"a\" 1}").unwrap_err(), "RJson: expected ':' after key, got Some('1')");
    assert_eq!(parse("{\"a\":1 ").unwrap_err(), "RJson: expected ',' or '}' in object, got None");
    assert_eq!(parse("{1:2}").unwrap_err(), "RJson: expected opening '\"'");
}

#[test]
fn detailed_errors() {
    assert!(matches!(parse_detailed("fals"), Err(ParseError::ExpectedLiteral(Literal::False, None))));
    assert!(matches!(parse_detailed("[1,]"), Err(ParseError::UnexpectedToken(Some(']')))));
    assert!(matches!(parse_detailed("-"), Err(ParseError::InvalidNumber(ref t)) if t == "-"));
    assert!(matches!(parse_detailed(r#""\ud800\u0041""#), Err(ParseError::SurrogateUnderflow)));
}

#[test]
fn number_grammar_agrees_with_f64_from_str() {
    let samples = [
        "0", "-0", "12", "-12", "1.", "1.5", "-.5", "-.", "-", "1e5", "1E+5", "1e-5", "1e", "1e+",
        "1.e3", "1.2.3", "1-2", "1e5e5", "00", "-0.0e-0", "9.99E99", "1+", "1..", "-e5", "1ee5",
    ];
    for text in samples {
        let ours = matches!(parse_detailed(text), Ok(Value::Number(_)));
        assert_eq!(ours, text.parse::<f64>().is_ok(), "{text}");
    }
}

#[test]
fn unicode_escape_agrees_with_from_str_radix() {
    let samples = ["0041", "00e9", "+041", "-041", "00g1", "+", "++12", "FFFF", "dc00", " 041", "4e2d"];
    for h in samples {
        if h.chars().count() != 4 {
            continue;
        }
        let text = format!("\"\\u{h}\"");
        match (u32::from_str_radix(h, 16), parse_detailed(&text)) {
            (Ok(code), Ok(Value::Str(s))) => {
                let expected: String = char::from_u32(code).into_iter().collect();
                assert_eq!(s, expected, "{h}");
            }
            (Err(_), Err(ParseError::InvalidUnicodeEscape(t))) => assert_eq!(t, h),
            (std, ours) => panic!("{h}: {std:?} vs {ours:?}"),
        }
    }
}

#[test]
fn whitespace_is_unicode_white_space() {
    for c in ['\t', '\n', '\u{b}', '\u{c}', '\r', ' ', '\u{85}', '\u{a0}', '\u{1680}', '\u{2000}', '\u{200a}', '\u{2028}', '\u{2029}', '\u{202f}', '\u{205f}', '\u{3000}'] {
        assert!(c.is_whitespace());
        let text = format!("{c}[{c}1{c},{c}2{c}]{c}");
        assert_eq!(parse(&text).unwrap().as_array().unwrap().len(), 2, "{:?}", c);
    }
    for c in ['\u{200b}', '\u{feff}', 'x'] {
        assert!(!c.is_whitespace());
        assert!(parse(&format!("{c}1")).is_err());
    }
}

#[test]
fn high_surrogate_pairs_only_with_a_low_surrogate() {
    // A following escape above the low surrogates is not combined: it stands
    // for its own character and the high surrogate is dropped.
    assert_eq!(parse(r#""\ud800\uffff""#).unwrap().as_str(), Some("\u{ffff}"));
    assert_eq!(parse(r#""\ud800\ue000x""#).unwrap().as_str(), Some("\u{e000}x"));
    assert_eq!(parse(r#""\udbff\udfff""#).unwrap().as_str(), Some("\u{10ffff}"));
}

#[test]
fn string_errors_stop_after_the_last_character_read() {
    let mut chars = CharCursor::new("\"ab");
    assert!(matches!(parse_string(&mut chars), Err(ParseError::UnterminatedString)));
    assert_eq!(chars.next(), None);

    let mut chars = CharCursor::new(r#""a\qrest"#);
    assert!(matches!(parse_string(&mut chars), Err(ParseError::InvalidEscape(Some('q')))));
    assert_eq!(chars.next(), Some('r'));

    let mut chars = CharCursor::new("x\"");
    assert!(matches!(parse_string(&mut chars), Err(ParseError::ExpectedOpeningQuote)));
    assert_eq!(chars.next(), Some('"'));

    let mut chars = CharCursor::new(r#""ok"tail"#);
    assert_eq!(parse_string(&mut chars).unwrap(), "ok");
    assert_eq!(chars.next(), Some('t'));
}

#[test]
fn hex_escapes_consume_four_characters() {
    let mut chars = CharCursor::new("12g4x");
    assert!(matches!(parse_hex4(&mut chars), Err(ParseError::InvalidUnicodeEscape(ref h)) if h == "12g4"));
    assert_eq!(chars.next(), Some('x'));

    let mut chars = CharCursor::new("12");
    assert!(matches!(parse_hex4(&mut chars), Err(ParseError::TruncatedUnicodeEscape)));
    assert_eq!(chars.next(), None);

    let mut chars = CharCursor::new("00e9z");
    assert_eq!(parse_hex4(&mut chars).unwrap(), 0xe9);
    assert_eq!(chars.next(), Some('z'));
}

#[test]
fn whitespace_around_a_text_changes_nothing() {
    let texts = [
        "{\"a\": [1, -2.5e3, true], \"b\": null}",
        "\"x\\u00e9\"",
        "42",
        "false",
        "[]",
        "",
        "tru",
        "[1,",
        "1.2.3",
    ];
    for t in texts {
        let padded = format!(" \n\t{t}\u{a0} \r");
        let plain = parse(t);
        let around = parse(&padded);
        assert_eq!(plain.is_ok(), around.is_ok(), "{:?}", t);
        if plain.is_ok() {
            assert_eq!(format!("{:?}", plain), format!("{:?}", around), "{:?}", t);
        }
    }
}

#[test]
fn surrogate_underflow_has_a_message_of_its_own() {
    let e = parse_detailed(r#""\ud800\u0041""#).unwrap_err();
    assert_eq!(e.message(), "RJson: low surrogate below DC00 after a high surrogate");
}

#[test]
fn whitespace_around_a_text_keeps_a_surrogate_underflow() {
    let t = r#"["\ud800\u0041"]"#;
    assert!(matches!(parse_detailed(t), Err(ParseError::SurrogateUnderflow)));
    let padded = format!("\u{3000} {t}\n\t");
    assert!(matches!(parse_detailed(&padded), Err(ParseError::SurrogateUnderflow)));
    let cut = r#"["\ud800\u004"#;
    assert!(!matches!(parse_detailed(cut), Err(ParseError::SurrogateUnderflow)));
    assert!(!matches!(parse_detailed(&format!("{cut}  ")), Err(ParseError::SurrogateUnderflow)));
}
