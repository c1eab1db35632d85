use json_parser::{parse_document, ErrorKind, JsonNumber, Value};

fn bytes(s: &str) -> Vec<u8> {
    s.as_bytes().to_vec()
}

fn num_to_f64(n: &JsonNumber) -> f64 {
    let mut m: f64 = 0.0;
    for &d in n.int_digits.iter() {
        m = m * 10.0 + d as f64;
    }
    let mut scale: f64 = 0.1;
    for &d in n.frac_digits.iter() {
        m += d as f64 * scale;
        scale /= 10.0;
    }
    let mut e: i32 = 0;
    for &d in n.exp_digits.iter() {
        e = e * 10 + d as i32;
    }
    if n.exp_neg {
        e = -e;
    }
    let v = m * 10f64.powi(e);
    if n.neg { -v } else { v }
}

fn as_f64(v: &Value) -> f64 {
    match v {
        Value::Num(n) => num_to_f64(n),
        _ => panic!("expected a number"),
    }
}

fn parse(s: &str) -> Result<Value, json_parser::ParseError> {
    parse_document(s.as_bytes())
}

fn err_of(s: &str) -> (ErrorKind, usize) {
    let e = parse(s).unwrap_err();
    (e.kind, e.offset)
}

#[test]
fn null_literal() {
    assert_eq!(parse("null").unwrap(), Value::Null);
}

#[test]
fn true_literal() {
    assert_eq!(parse("true").unwrap(), Value::Bool(true));
}

#[test]
fn false_with_surrounding_whitespace() {
    assert_eq!(parse("  false  ").unwrap(), Value::Bool(false));
}

#[test]
fn simple_integer() {
    assert_eq!(as_f64(&parse("123").unwrap()), 123.0);
}

#[test]
fn negative_integer() {
    assert_eq!(as_f64(&parse("-45").unwrap()), -45.0);
}

#[test]
fn fraction_and_exponent() {
    assert_eq!(as_f64(&parse("3.14").unwrap()), 3.14);
    assert_eq!(as_f64(&parse("1e3").unwrap()), 1000.0);
    assert_eq!(as_f64(&parse("2.5e-2").unwrap()), 0.025);
    assert_eq!(as_f64(&parse("-0.5E+2").unwrap()), -50.0);
    assert_eq!(as_f64(&parse("0012").unwrap()), 12.0);
}

#[test]
fn number_kept_digit_for_digit() {
    match parse("-10.250e-07").unwrap() {
        Value::Num(n) => {
            assert!(n.neg);
            assert_eq!(n.int_digits, vec![1, 0]);
            assert_eq!(n.frac_digits, vec![2, 5, 0]);
            assert!(n.exp_neg);
            assert_eq!(n.exp_digits, vec![0, 7]);
        }
        _ => panic!("expected a number"),
    }
}

#[test]
fn simple_string() {
    assert_eq!(parse("\"hi\"").unwrap(), Value::Str(bytes("hi")));
}

#[test]
fn newline_escape_resolved() {
    assert_eq!(parse("\"a\\nb\"").unwrap(), Value::Str(bytes("a\nb")));
}

#[test]
fn all_simple_escapes() {
    assert_eq!(
        parse("\"\\\" \\\\ \\/ \\b \\f \\n \\r \\t\"").unwrap(),
        Value::Str(bytes("\" \\ / \u{8} \u{c} \n \r \t"))
    );
}

#[test]
fn unicode_escapes() {
    assert_eq!(parse("\"\\u0041\"").unwrap(), Value::Str(bytes("A")));
    assert_eq!(parse("\"\\u00e9\"").unwrap(), Value::Str(bytes("\u{e9}")));
    assert_eq!(parse("\"\\u4e2d\"").unwrap(), Value::Str(bytes("\u{4e2d}")));
}

#[test]
fn surrogate_pair_escape() {
    assert_eq!(parse("\"\\ud83d\\ude00\"").unwrap(), Value::Str(bytes("\u{1f600}")));
}

#[test]
fn lone_surrogate_rejected() {
    assert_eq!(err_of("\"\\ud83d\"").0, ErrorKind::InvalidEscape);
    assert_eq!(err_of("\"\\ude00\"").0, ErrorKind::InvalidEscape);
}

#[test]
fn raw_multibyte_content_kept() {
    let text = "\"\u{5f20}\u{4e09}\"";
    assert_eq!(parse(text).unwrap(), Value::Str(bytes("\u{5f20}\u{4e09}")));
}

#[test]
fn array_of_numbers() {
    match parse("[1,2,3]").unwrap() {
        Value::Array(vs) => {
            assert_eq!(vs.len(), 3);
            assert_eq!(as_f64(&vs[0]), 1.0);
            assert_eq!(as_f64(&vs[1]), 2.0);
            assert_eq!(as_f64(&vs[2]), 3.0);
        }
        _ => panic!("expected an array"),
    }
}

#[test]
fn trailing_comma_in_array_rejected() {
    assert_eq!(err_of("[1,2,]").0, ErrorKind::ExpectedElement);
}

#[test]
fn empty_array_and_object() {
    assert_eq!(parse("[]").unwrap(), Value::Array(vec![]));
    assert_eq!(parse("{}").unwrap(), Value::Object(vec![]));
    assert_eq!(parse(" [ ] ").unwrap(), Value::Array(vec![]));
    assert_eq!(parse(" { } ").unwrap(), Value::Object(vec![]));
}

#[test]
fn duplicate_key_last_write_wins() {
    match parse("{\"a\":1,\"a\":2}").unwrap() {
        Value::Object(ps) => {
            assert_eq!(ps.len(), 1);
            assert_eq!(ps[0].0, bytes("a"));
            assert_eq!(as_f64(&ps[0].1), 2.0);
        }
        _ => panic!("expected an object"),
    }
}

#[test]
fn duplicate_key_keeps_first_position() {
    match parse("{\"a\":1,\"b\":2,\"a\":3}").unwrap() {
        Value::Object(ps) => {
            assert_eq!(ps.len(), 2);
            assert_eq!(ps[0].0, bytes("a"));
            assert_eq!(as_f64(&ps[0].1), 3.0);
            assert_eq!(ps[1].0, bytes("b"));
            assert_eq!(as_f64(&ps[1].1), 2.0);
        }
        _ => panic!("expected an object"),
    }
}

#[test]
fn trailing_content_reported_at_offset() {
    assert_eq!(err_of("{\"a\":1} trailing"), (ErrorKind::TrailingContent, 8));
}

#[test]
fn deeply_nested_input_rejected() {
    let text: String = "[".repeat(100000);
    let e = parse_document(text.as_bytes()).unwrap_err();
    assert_eq!(e.kind, ErrorKind::NestingTooDeep);
    assert!(e.offset <= text.len());
}

#[test]
fn nesting_within_the_limit_accepted() {
    let mut text = String::new();
    for _ in 0..100 {
        text.push('[');
    }
    text.push_str("null");
    for _ in 0..100 {
        text.push(']');
    }
    assert!(parse(&text).is_ok());
}

#[test]
fn error_offsets_never_past_the_end() {
    let cases = [
        "", "x", "-", "\"abc", "\"a\\", "[1,", "[1", "{\"a\"", "{\"a\":", "{\"a\":1", "[",
        "nul", "trux", "fals", "12.", "1e", "1e+", "{", "[{\"k\":", "\"\\u12",
    ];
    for c in cases.iter() {
        let e = parse(c).unwrap_err();
        assert!(e.offset <= c.len(), "offset past end for {:?}", c);
    }
}

#[test]
fn each_error_kind_reachable() {
    assert_eq!(err_of(""), (ErrorKind::UnexpectedEndOfInput, 0));
    assert_eq!(err_of("x").0, ErrorKind::UnexpectedToken);
    assert_eq!(err_of("nulx").0, ErrorKind::UnexpectedToken);
    assert_eq!(err_of("-").0, ErrorKind::InvalidNumber);
    assert_eq!(err_of("1.").0, ErrorKind::InvalidNumber);
    assert_eq!(err_of("1e").0, ErrorKind::InvalidNumber);
    assert_eq!(err_of("\"abc").0, ErrorKind::UnterminatedString);
    assert_eq!(err_of("\"a\\q\"").0, ErrorKind::InvalidEscape);
    assert_eq!(err_of("\"\\u12G4\"").0, ErrorKind::InvalidEscape);
    assert_eq!(err_of("[1,]").0, ErrorKind::ExpectedElement);
    assert_eq!(err_of("{1:2}").0, ErrorKind::ExpectedPair);
    assert_eq!(err_of("{\"a\":1,}").0, ErrorKind::ExpectedPair);
    assert_eq!(err_of("{\"a\" 1}").0, ErrorKind::ExpectedColon);
    assert_eq!(err_of("[1 2]").0, ErrorKind::UnterminatedArray);
    assert_eq!(err_of("{\"a\":1 \"b\":2}").0, ErrorKind::UnterminatedObject);
    assert_eq!(err_of("{\"a\":1} x").0, ErrorKind::TrailingContent);
}

#[test]
fn nested_document() {
    let text = "\n        {\n            \"nickname\": \"\u{5f20}\u{4e09}\",\n            \"age\": 30,\n            \"is_teacher\": false,\n            \"scores\": [90, 85, 95],\n            \"address\": {\n                \"city\": \"\u{5317}\u{4eac}\",\n                \"code\": [200, 2000]\n            }\n        }\n    ";
    match parse(text).unwrap() {
        Value::Object(ps) => {
            assert_eq!(ps.len(), 5);
            assert_eq!(ps[0].0, bytes("nickname"));
            assert_eq!(ps[0].1, Value::Str(bytes("\u{5f20}\u{4e09}")));
            assert_eq!(as_f64(&ps[1].1), 30.0);
            assert_eq!(ps[2].1, Value::Bool(false));
            match &ps[3].1 {
                Value::Array(vs) => assert_eq!(vs.len(), 3),
                _ => panic!("expected an array of scores"),
            }
            match &ps[4].1 {
                Value::Object(inner) => {
                    assert_eq!(inner.len(), 2);
                    assert_eq!(inner[0].1, Value::Str(bytes("\u{5317}\u{4eac}")));
                }
                _ => panic!("expected a nested object"),
            }
        }
        _ => panic!("expected an object"),
    }
}

#[test]
fn whitespace_between_tokens_ignored() {
    match parse(" [ 1 , 2 ] ").unwrap() {
        Value::Array(vs) => {
            assert_eq!(vs.len(), 2);
            assert_eq!(as_f64(&vs[0]), 1.0);
            assert_eq!(as_f64(&vs[1]), 2.0);
        }
        _ => panic!("expected an array"),
    }
    match parse("\t{ \"a\" :\n1 }\r").unwrap() {
        Value::Object(ps) => {
            assert_eq!(ps.len(), 1);
            assert_eq!(as_f64(&ps[0].1), 1.0);
        }
        _ => panic!("expected an object"),
    }
}

#[test]
fn failed_alternative_consumes_nothing() {
    // a wrong literal fails where it began, so the offset names the token's start
    assert_eq!(err_of("  truth"), (ErrorKind::UnexpectedToken, 2));
}
