use zlisp::binary::codec::{from_slice, to_vec};
use zlisp::cross::{text_of, value_of};
use zlisp::text::codec::{from_str, to_pretty, to_string, TextValue};
use zlisp::value::Value;
use zlisp::text::config::WhitespaceConfig;
use zlisp::text::error::{ErrorCode, IntErrorKind, Location, TokenType};
use zlisp::text::parse::{parse_f32_text, parse_i32_text};
use zlisp::text::pretty::Element;
use zlisp::text::reader::StrReader;
use zlisp::text::string_writer::StringWriter;
use zlisp::text::tokenizer::{Text, Token, Tokenizer};

fn s(x: &str) -> TextValue {
    TextValue::String(x.as_bytes().to_vec())
}

fn int_list(v: &[i32]) -> TextValue {
    TextValue::List(v.iter().map(|i| TextValue::Int(*i)).collect())
}

fn pretty(v: &TextValue) -> String {
    String::from_utf8(to_pretty(v, &WhitespaceConfig::default()).unwrap()).unwrap()
}

fn round_trip(v: TextValue) {
    let text = to_string(&v, WhitespaceConfig::default()).expect("to_string");
    assert_eq!(from_str(&text).expect("from to_string"), v, "to_string");
    let text = pretty(&v);
    assert_eq!(from_str(&text).expect("from to_pretty"), v, "to_pretty");
}

fn assert_unsupported(input: &str) {
    let reader = StrReader::new(input.as_bytes());
    let err = reader.unsupported();
    assert!(matches!(err.code(), ErrorCode::UnsupportedType));
}

#[test]
fn pfe_invalid_test() {
    let err = parse_f32_text(b"-", Location::new(1, 1)).unwrap_err();
    assert!(matches!(err.code(), ErrorCode::ParseFloatError { .. }));
}

fn assert_i32_ok(s: &str, expected: i32) {
    assert_eq!(parse_i32_text(s.as_bytes(), Location::new(1, 1)).unwrap(), expected);
}

fn assert_i32_err(s: &str, kind: IntErrorKind) {
    let loc = Location::new(1, 1);
    let err = parse_i32_text(s.as_bytes(), loc).unwrap_err();
    assert_eq!(err.location(), Some(loc));
    match err.code() {
        ErrorCode::ParseIntError { kind: k, s: t } => {
            assert_eq!(*k, kind);
            assert_eq!(t.as_slice(), s.as_bytes());
        }
        other => panic!("unexpected {:?}", other),
    }
}

#[test]
fn i32_tests() {
    assert_i32_ok("0", 0);
    assert_i32_ok("-0", 0);
    assert_i32_ok("+0", 0);
    assert_i32_ok("1", 1);
    assert_i32_ok("-1", -1);
    assert_i32_ok("+1", 1);
    assert_i32_ok(&format!("{}", i32::MAX), i32::MAX);
    assert_i32_ok(&format!("{}", i32::MIN), i32::MIN);
    assert_i32_err("", IntErrorKind::Empty);
    assert_i32_err("-", IntErrorKind::InvalidDigit);
    assert_i32_err("+", IntErrorKind::InvalidDigit);
    assert_i32_err("0x0", IntErrorKind::InvalidDigit);
    assert_i32_err("a", IntErrorKind::InvalidDigit);
    assert_i32_err(&format!("{}", (i32::MAX as i64) + 1), IntErrorKind::PosOverflow);
    assert_i32_err(&format!("{}", (i32::MIN as i64) - 1), IntErrorKind::NegOverflow);
}

fn assert_f32_ok(s: &str, expected: f32) {
    let text = parse_f32_text(s.as_bytes(), Location::new(1, 1)).unwrap();
    assert_eq!(text.as_slice(), s.as_bytes());
    let value: f32 = std::str::from_utf8(&text).unwrap().parse().unwrap();
    assert_eq!(value, expected);
}

fn assert_f32_err(s: &str) {
    let loc = Location::new(1, 1);
    let err = parse_f32_text(s.as_bytes(), loc).unwrap_err();
    assert_eq!(err.location(), Some(loc));
    match err.code() {
        ErrorCode::ParseFloatError { s: t } => assert_eq!(t.as_slice(), s.as_bytes()),
        other => panic!("unexpected {:?}", other),
    }
}

#[test]
fn f32_tests() {
    for x in ["0", "-0", "+0", "0.", "-0.", "+0.", ".0", "-.0", "+.0", "0.0", "-0.0", "+0.0"] {
        assert_f32_ok(x, 0.0);
    }
    for (x, v) in [
        ("1", 1.0),
        ("-1", -1.0),
        ("+1", 1.0),
        ("1.", 1.0),
        ("-1.", -1.0),
        ("+1.", 1.0),
        (".1", 0.1),
        ("-.1", -0.1),
        ("+.1", 0.1),
        ("1.0", 1.0),
        ("-1.0", -1.0),
        ("+1.0", 1.0),
    ] {
        assert_f32_ok(x, v);
    }
    assert_f32_ok(&format!("{:.1}", f32::MAX), f32::MAX);
    assert_f32_ok(&format!("{:.1}", f32::MIN), f32::MIN);
    for x in [
        "", "-", "+", "a", "-a", "+a", "inf", "-inf", "+inf", "infinity", "-infinity", "+infinity", "NaN", "0..0",
        "-0..0", "+0..0", "0..", "-0..", "+0..", "..0", "-..0", "+..0",
    ] {
        assert_f32_err(x);
    }
    assert_f32_err(&format!("{:.1}", f64::MAX));
    assert_f32_err(&format!("{:.1}", f64::MIN));
}

#[test]
fn peek_does_not_advance_if_peeked_again() {
    let mut reader = StrReader::new(b"()");
    assert_eq!(reader.peek().unwrap().token, Token::ListStart);
    assert_eq!(reader.peek().unwrap().token, Token::ListStart);
    reader.read_list_start().unwrap();
    assert_eq!(reader.peek().unwrap().token, Token::ListEnd);
    assert_eq!(reader.peek().unwrap().token, Token::ListEnd);
    reader.read_list_end().unwrap();
    assert_eq!(reader.peek().unwrap().token, Token::Eof);
    assert_eq!(reader.peek().unwrap().token, Token::Eof);
    reader.finish().unwrap();
}

#[test]
fn peek_does_not_modify_location() {
    let mut reader = StrReader::new(b"()");
    let before = reader.location();
    let span = reader.peek().unwrap();
    assert_eq!(span.token, Token::ListStart);
    assert_eq!(span.loc, before);
    assert_eq!(reader.location(), before);
    reader.read_list_start().unwrap();
    assert_ne!(reader.location(), before);

    let before = reader.location();
    let span = reader.peek().unwrap();
    assert_eq!(span.token, Token::ListEnd);
    assert_eq!(span.loc, before);
    assert_eq!(reader.location(), before);
    reader.read_list_end().unwrap();
    assert_ne!(reader.location(), before);

    let before = reader.location();
    let span = reader.peek().unwrap();
    assert_eq!(span.token, Token::Eof);
    assert_eq!(span.loc, before);
    assert_eq!(reader.location(), before);
    reader.finish().unwrap();
}

#[test]
fn peek_does_not_modify_finish() {
    let mut reader = StrReader::new(b"()");
    let before = reader.clone().finish().unwrap_err();
    let span = reader.peek().unwrap();
    assert_eq!(span.token, Token::ListStart);
    let after = reader.clone().finish().unwrap_err();
    for e in [&before, &after] {
        assert!(matches!(
            e.code(),
            ErrorCode::ExpectedToken { expected: TokenType::Eof, found: TokenType::ListStart }
        ));
    }
    assert_eq!(after.location(), before.location());
    reader.read_list_start().unwrap();

    let before = reader.clone().finish().unwrap_err();
    let span = reader.peek().unwrap();
    assert_eq!(span.token, Token::ListEnd);
    let after = reader.clone().finish().unwrap_err();
    for e in [&before, &after] {
        assert!(matches!(
            e.code(),
            ErrorCode::ExpectedToken { expected: TokenType::Eof, found: TokenType::ListEnd }
        ));
    }
    assert_eq!(after.location(), before.location());
    reader.read_list_end().unwrap();

    reader.clone().finish().unwrap();
    let span = reader.peek().unwrap();
    assert_eq!(span.token, Token::Eof);
    reader.finish().unwrap();
}

#[test]
fn from_str_de_tests_bool_tests() {
    assert_unsupported("");
}

#[test]
fn from_str_de_tests_signed_tests() {
    assert_unsupported("");
    assert_eq!(from_str("0").unwrap(), TextValue::Int(0));
}

#[test]
fn from_str_de_tests_unsigned_tests() {
    assert_unsupported("");
}

#[test]
fn from_str_de_tests_float_tests() {
    assert_unsupported("");
    assert_eq!(from_str("0.0").unwrap(), TextValue::Float(b"0.0".to_vec()));
}

#[test]
fn from_str_de_tests_char_tests() {
    assert_unsupported("");
}

#[test]
fn from_str_de_tests_string_tests() {
    assert_unsupported("");
    assert_eq!(from_str("foo").unwrap(), s("foo"));
}

#[test]
fn from_str_de_tests_bytes_tests() {
    assert_unsupported("");
}

#[test]
fn from_str_de_tests_option_tests() {
    assert_eq!(from_str("()").unwrap(), TextValue::List(vec![]));
    assert_eq!(from_str("(())").unwrap(), TextValue::List(vec![TextValue::List(vec![])]));
    assert_eq!(from_str("(-1)").unwrap(), int_list(&[-1]));
    let mut reader = StrReader::new(b"(-1 -2)");
    reader.read_list_start().unwrap();
    assert_eq!(reader.read_i32().unwrap(), -1);
    let err = reader.read_list_end().unwrap_err();
    assert!(matches!(err.code(), ErrorCode::ExpectedToken { expected: TokenType::ListEnd, found: TokenType::Text }));
    assert_eq!(err.location(), Some(Location::new(1, "(-1 ".len())));
}

#[test]
fn from_str_de_tests_unit_type_tests() {
    let mut reader = StrReader::new(b"()");
    reader.read_list_start().unwrap();
    reader.read_list_end().unwrap();
    reader.finish().unwrap();
    let mut reader = StrReader::new(b"(-1)");
    reader.read_list_start().unwrap();
    let err = reader.read_list_end().unwrap_err();
    assert!(matches!(err.code(), ErrorCode::ExpectedToken { expected: TokenType::ListEnd, found: TokenType::Text }));
    assert_eq!(err.location(), Some(Location::new(1, 1)));
}

#[test]
fn from_str_de_tests_struct_tests() {
    for input in ["(a -1 b -2)", "(b -2 a -1)"] {
        let v = from_str(input).unwrap();
        let TextValue::List(items) = v else { panic!("not a list") };
        let mut a = None;
        let mut b = None;
        for pair in items.chunks(2) {
            match (&pair[0], &pair[1]) {
                (TextValue::String(k), TextValue::Int(x)) if k.as_slice() == b"a" => a = Some(*x),
                (TextValue::String(k), TextValue::Int(x)) if k.as_slice() == b"b" => b = Some(*x),
                _ => panic!("unexpected field"),
            }
        }
        assert_eq!((a, b), (Some(-1), Some(-2)));
    }
}

#[test]
fn from_str_de_tests_enum_unit_variant_tests() {
    let mut reader = StrReader::new(b"!");
    let loc = reader.location();
    let name = reader.read_string().unwrap();
    assert_eq!(name, b"!".to_vec());
    assert_eq!(loc, Location::new(1, 0));
}

#[test]
fn round_trip_tests_signed_tests() {
    for v in [0, 1, -1, i32::MIN, i32::MAX] {
        round_trip(TextValue::Int(v));
    }
}

#[test]
fn round_trip_tests_float_tests() {
    for v in [0.0f32, 1.0, -1.0, f32::MIN, f32::MAX] {
        round_trip(TextValue::Float(format!("{:.6}", v).into_bytes()));
    }
}

#[test]
fn round_trip_tests_string_tests() {
    for x in ["foo", " ", "\t", "\r", "\n", "(", ")"] {
        round_trip(s(x));
    }
}

#[test]
fn round_trip_tests_option_tests() {
    round_trip(TextValue::List(vec![]));
    round_trip(int_list(&[-1]));
    round_trip(TextValue::List(vec![TextValue::List(vec![])]));
}

#[test]
fn round_trip_tests_unit_type_tests() {
    round_trip(TextValue::List(vec![]));
}

#[test]
fn round_trip_tests_unit_struct_tests() {
    round_trip(TextValue::List(vec![]));
}

#[test]
fn round_trip_tests_newtype_struct_tests() {
    round_trip(TextValue::Int(-1));
}

#[test]
fn round_trip_tests_seq_tests() {
    round_trip(int_list(&[]));
    round_trip(int_list(&[-1]));
    round_trip(int_list(&[-1, -2]));
}

#[test]
fn round_trip_tests_tuple_tests() {
    round_trip(TextValue::List(vec![TextValue::Int(-1), s("foo")]));
}

#[test]
fn round_trip_tests_tuple_struct_tests() {
    round_trip(int_list(&[-1, -2]));
}

#[test]
fn round_trip_tests_map_tests() {
    round_trip(TextValue::List(vec![s("a"), TextValue::Int(-1), s("b"), TextValue::Int(-2)]));
}

#[test]
fn round_trip_tests_struct_tests() {
    round_trip(TextValue::List(vec![s("a"), TextValue::Int(-1), s("b"), TextValue::Int(-2)]));
}

#[test]
fn round_trip_tests_struct_optional_tests() {
    round_trip(TextValue::List(vec![s("a"), TextValue::Int(-1)]));
    round_trip(TextValue::List(vec![]));
}

fn variant_round_trip(payload: Option<&TextValue>) {
    let mut w = StringWriter::new(WhitespaceConfig::default());
    w.write_str(b"V").unwrap();
    if let Some(TextValue::List(items)) = payload {
        w.write_list_start(items.len() as i32).unwrap();
        for item in items {
            match item {
                TextValue::Int(i) => w.write_i32(*i),
                TextValue::String(x) => w.write_str(x).unwrap(),
                _ => panic!("unexpected payload"),
            }
        }
        w.write_list_end();
    }
    let text = w.finish();
    let mut reader = StrReader::new(text.as_bytes());
    assert_eq!(reader.read_string().unwrap(), b"V".to_vec());
    if let Some(TextValue::List(items)) = payload {
        reader.read_list_start().unwrap();
        for item in items {
            match item {
                TextValue::Int(i) => assert_eq!(reader.read_i32().unwrap(), *i),
                TextValue::String(x) => assert_eq!(&reader.read_string().unwrap(), x),
                _ => panic!("unexpected payload"),
            }
        }
        reader.read_list_end().unwrap();
    }
    reader.finish().unwrap();
}

#[test]
fn round_trip_tests_enum_newtype_variant_tests() {
    variant_round_trip(Some(&int_list(&[-1])));
}

#[test]
fn round_trip_tests_enum_tuple_variant_tests() {
    variant_round_trip(Some(&int_list(&[-1, -2])));
}

#[test]
fn round_trip_tests_enum_struct_variant_tests() {
    variant_round_trip(Some(&TextValue::List(vec![s("a"), TextValue::Int(-1), s("b"), TextValue::Int(-2)])));
}

#[test]
fn round_trip_tests_enum_struct_variant_optional_tests() {
    variant_round_trip(Some(&TextValue::List(vec![s("a"), TextValue::Int(-1)])));
    variant_round_trip(Some(&TextValue::List(vec![])));
}

#[test]
fn round_trip_tests_enum_unit_variant_tests() {
    variant_round_trip(None);
}

fn assert_quoted(input: &str, value: &str, output: &str) {
    let o = format!("{}\r\n", output);
    let v = from_str(input).unwrap();
    assert_eq!(v, s(value));
    assert_eq!(to_string(&v, WhitespaceConfig::default()).unwrap(), o, "to_string");
    assert_eq!(pretty(&v), o, "to_pretty");
}

#[test]
fn string_quoting_tests_string_tests() {
    assert_quoted("foo", "foo", "foo");
    assert_quoted("\"f\"oo", "foo", "foo");
    assert_quoted("f\"o\"o", "foo", "foo");
    assert_quoted("fo\"o\"", "foo", "foo");
    assert_quoted("\"fo\"o", "foo", "foo");
    assert_quoted("\"foo\"", "foo", "foo");
    assert_quoted("\"f\"o\"o\"", "foo", "foo");
    assert_quoted("\"f\"\"o\"\"o\"", "foo", "foo");
    assert_quoted("\" \t\r\n\"", " \t\r\n", "\" \t\r\n\"");
}

#[test]
fn quoting_policy() {
    assert_eq!(to_string(&s(""), WhitespaceConfig::default()).unwrap(), "\"\"\r\n");
    assert_eq!(to_string(&s("42"), WhitespaceConfig::default()).unwrap(), "\"42\"\r\n");
    assert_eq!(from_str("\"42\"").unwrap(), s("42"));
    assert_eq!(from_str("42").unwrap(), TextValue::Int(42));
    assert_eq!(from_str("\"\"").unwrap(), s(""));
}

fn test_config() -> WhitespaceConfig<'static> {
    WhitespaceConfig::builder().indent("    ").delimiter(" ").newline("\n").build()
}

fn assert_fmt(e: Element, expected: &str) {
    let out = zlisp::text::pretty::write(&e, &test_config());
    assert_eq!(String::from_utf8(out).unwrap(), format!("{}\n", expected));
}

fn scalar(x: &str) -> Element {
    Element::Scalar(x.as_bytes().to_vec())
}

fn ints(n: i32) -> Vec<Element> {
    (0..n).map(|i| scalar(&i.to_string())).collect()
}

const TWELVE: &str = "(\n    0\n    1\n    2\n    3\n    4\n    5\n    6\n    7\n    8\n    9\n    10\n    11\n)";

#[test]
fn fmt_scalar_tests() {
    assert_fmt(scalar("0"), "0");
    assert_fmt(scalar("0.000000"), "0.000000");
    assert_fmt(scalar("foo"), "foo");
}

#[test]
fn fmt_unit_tests() {
    assert_fmt(Element::Unit, "()");
}

#[test]
fn fmt_option_tests() {
    assert_fmt(Element::Unit, "()");
    assert_fmt(Element::Wrapped(Box::new(scalar("-1"))), "(-1)");
    assert_fmt(Element::Wrapped(Box::new(Element::Unit)), "(())");
    assert_fmt(Element::Wrapped(Box::new(Element::seq(ints(12)))), &format!("({})", TWELVE));
    assert_fmt(Element::Wrapped(Box::new(Element::Wrapped(Box::new(scalar("-1"))))), "((-1))");
}

#[test]
fn fmt_seq_tests() {
    assert_fmt(Element::seq(vec![]), "()");
    assert_fmt(Element::seq(vec![scalar("-1")]), "(-1)");
    assert_fmt(Element::seq(vec![scalar("-1"), scalar("-2")]), "(-1 -2)");
    assert_fmt(Element::seq(ints(12)), TWELVE);
    assert_fmt(Element::seq(vec![Element::seq(ints(3))]), "((0 1 2))");
    assert_fmt(
        Element::seq(vec![Element::seq(ints(12))]),
        "(\n    (\n        0\n        1\n        2\n        3\n        4\n        5\n        6\n        7\n        8\n        9\n        10\n        11\n    )\n)",
    );
}

#[test]
fn fmt_tuple_tests() {
    assert_fmt(Element::seq(ints(3)), "(0 1 2)");
    assert_fmt(Element::seq(ints(12)), TWELVE);
}

#[test]
fn fmt_tuple_struct_tests() {
    assert_fmt(Element::seq(vec![scalar("-1"), scalar("-2")]), "(-1 -2)");
}

#[test]
fn fmt_map_tests() {
    assert_fmt(Element::Mapping(vec![]), "(\n)");
    assert_fmt(Element::Mapping(vec![(scalar("-1"), scalar("-2"))]), "(\n    -1 -2\n)");
}

#[test]
fn fmt_struct_tests() {
    let fields = vec![(b"a".to_vec(), scalar("-1")), (b"b".to_vec(), scalar("-2"))];
    assert_fmt(Element::structure(fields), "(a -1 b -2)");
    let fields: Vec<(Vec<u8>, Element)> =
        ["a", "b", "c", "d", "e", "f"].iter().zip(1..).map(|(k, i)| (k.as_bytes().to_vec(), scalar(&format!("-{}", i)))).collect();
    assert_fmt(Element::structure(fields), "(\n    a -1\n    b -2\n    c -3\n    d -4\n    e -5\n    f -6\n)");
}

#[test]
fn fmt_enum_unit_variant_tests() {
    assert_fmt(Element::Enum(b"V".to_vec(), zlisp::text::pretty::Variant::Unit, true), "V");
}

#[test]
fn fmt_enum_newtype_variant_tests() {
    assert_fmt(Element::newtype_variant(b"V".to_vec(), scalar("-1")), "V(-1)");
    assert_fmt(Element::newtype_variant(b"V".to_vec(), Element::Wrapped(Box::new(scalar("-1")))), "V((-1))");
}

#[test]
fn fmt_enum_tuple_variant_tests() {
    assert_fmt(Element::tuple_variant(b"V".to_vec(), vec![scalar("-1"), scalar("-2")]), "V(-1 -2)");
}

#[test]
fn fmt_enum_struct_variant_tests() {
    let fields = vec![(b"a".to_vec(), scalar("-1")), (b"b".to_vec(), scalar("-2"))];
    assert_fmt(Element::struct_variant(b"V".to_vec(), fields), "V(a -1 b -2)");
}

#[test]
fn to_string_ser_tests_string_tests() {
    for (x, code) in [("\0", 0), ("\"", 1), ("\u{1F385}", 2)] {
        let err = to_string(&s(x), WhitespaceConfig::default()).unwrap_err();
        match code {
            0 => assert!(matches!(err.code(), ErrorCode::StringContainsNull)),
            1 => assert!(matches!(err.code(), ErrorCode::StringContainsQuote)),
            _ => assert!(matches!(err.code(), ErrorCode::StringContainsInvalidChar)),
        }
        assert_eq!(err.location(), None);
    }
    to_string(&s(&" ".repeat(255)), WhitespaceConfig::default()).unwrap();
    let err = to_string(&s(&" ".repeat(256)), WhitespaceConfig::default()).unwrap_err();
    assert!(matches!(err.code(), ErrorCode::StringTooLong));
}

#[test]
fn to_string_ser_tests_signed_tests() {
    assert_eq!(to_string(&TextValue::Int(-12), WhitespaceConfig::default()).unwrap(), "-12\r\n");
    assert_eq!(to_string(&TextValue::Int(i32::MIN), WhitespaceConfig::default()).unwrap(), "-2147483648\r\n");
}

#[test]
fn struct_compact_text() {
    let v = TextValue::List(vec![s("a"), TextValue::Int(-1), s("b"), TextValue::Int(-2)]);
    assert_eq!(pretty(&v), "(a\t-1\tb\t-2)\r\n");
    assert_eq!(
        to_string(&v, WhitespaceConfig::default()).unwrap(),
        "(\r\n\ta\r\n\t-1\r\n\tb\r\n\t-2\r\n)\r\n"
    );
}

#[test]
fn pretty_expansion_scenario() {
    let twelve = int_list(&(0..12).collect::<Vec<i32>>());
    let mut expected = String::from("(\r\n");
    for i in 0..12 {
        expected.push_str(&format!("\t{}\r\n", i));
    }
    expected.push_str(")\r\n");
    assert_eq!(pretty(&twelve), expected);
    assert_eq!(pretty(&int_list(&[0, 1, 2])), "(0\t1\t2)\r\n");
}

#[test]
fn unknown_variant_location() {
    let mut reader = StrReader::new(b"!");
    let loc = reader.location();
    let name = reader.read_string().unwrap();
    assert_ne!(name, b"V".to_vec());
    let msg = format!("unknown variant `{}`, expected `V`", String::from_utf8(name).unwrap());
    let err = zlisp::text::error::Error::custom(msg).attach_location(loc);
    match err.code() {
        ErrorCode::Custom(m) => assert!(m.contains("unknown variant")),
        other => panic!("unexpected {:?}", other),
    }
    assert_eq!(err.location(), Some(Location::new(1, 0)));
    let err = err.attach_location(Location::new(5, 5));
    assert_eq!(err.location(), Some(Location::new(1, 0)));
}

#[test]
fn tokenizer_quotes_and_locations() {
    let mut t = Tokenizer::new(b"a\"b c\"d (x)\n y");
    let span = t.read_token().unwrap();
    assert_eq!(span.token, Token::Text(Text::Quoted(b"ab cd".to_vec())));
    assert_eq!(span.loc, Location::new(1, 0));
    assert_eq!(t.read_token().unwrap().token, Token::ListStart);
    assert_eq!(t.read_token().unwrap().token, Token::Text(Text::Unquoted(b"x".to_vec())));
    assert_eq!(t.read_token().unwrap().token, Token::ListEnd);
    let span = t.read_token().unwrap();
    assert_eq!(span.token, Token::Text(Text::Unquoted(b"y".to_vec())));
    assert_eq!(span.loc, Location::new(2, 1));
    assert_eq!(t.read_token().unwrap().token, Token::Eof);
    let err = Tokenizer::new(b"\"abc").read_token().unwrap_err();
    assert!(matches!(err.code(), ErrorCode::EofWhileParsingQuote));
}

#[test]
fn error_locations_do_not_go_back() {
    let err = from_str("(1 2\n  (3 \"x").unwrap_err();
    let loc = err.location().unwrap();
    assert!(loc.line() >= 2);
    let err = from_str("(1 2) 3").unwrap_err();
    assert!(matches!(err.code(), ErrorCode::ExpectedToken { expected: TokenType::Eof, found: TokenType::Text }));
    assert_eq!(err.location(), Some(Location::new(1, 6)));
}

fn f6(x: f32) -> TextValue {
    TextValue::Float(format!("{:.6}", x).into_bytes())
}

fn shown_compact(v: &TextValue) -> String {
    String::from_utf8(v.display_compact()).unwrap()
}

fn shown_pretty(v: &TextValue) -> String {
    String::from_utf8(v.display_pretty()).unwrap()
}

#[test]
fn display_tests() {
    assert_eq!(shown_compact(&TextValue::Int(i32::MIN)), format!("{}", i32::MIN));
    assert_eq!(shown_compact(&TextValue::Int(0)), "0");
    assert_eq!(shown_compact(&TextValue::Int(i32::MAX)), format!("{}", i32::MAX));
    assert_eq!(shown_compact(&f6(f32::MIN)), format!("{:.6}", f32::MIN));
    assert_eq!(shown_compact(&f6(0.0)), "0.000000");
    assert_eq!(shown_compact(&s("foo")), "foo");
    assert_eq!(shown_compact(&TextValue::List(vec![])), "()");
    assert_eq!(shown_compact(&int_list(&[0])), "(0)");
    let v = TextValue::List(vec![TextValue::Int(0), f6(0.0), s("foo"), TextValue::List(vec![])]);
    assert_eq!(shown_compact(&v), "(0 0.000000 foo ())");
}

#[test]
fn pretty_tests() {
    assert_eq!(shown_pretty(&TextValue::Int(i32::MIN)), format!("{}", i32::MIN));
    assert_eq!(shown_pretty(&TextValue::Int(0)), "0");
    assert_eq!(shown_pretty(&f6(f32::MAX)), format!("{:.6}", f32::MAX));
    assert_eq!(shown_pretty(&s("foo")), "foo");
    assert_eq!(shown_pretty(&TextValue::List(vec![])), "()");
    assert_eq!(shown_pretty(&int_list(&[0])), "(0)");
    assert_eq!(shown_pretty(&TextValue::List(vec![TextValue::Int(0), f6(0.0), s("foo")])), "(0\t0.000000\tfoo)");
    assert_eq!(shown_pretty(&TextValue::List(vec![TextValue::List(vec![])])), "(\n\t()\n)");
    assert_eq!(shown_pretty(&TextValue::List(vec![int_list(&[0])])), "(\n\t(0)\n)");
    let v = TextValue::List(vec![TextValue::Int(0), f6(0.0), s("foo"), TextValue::List(vec![])]);
    assert_eq!(shown_pretty(&v), "(\n\t0\n\t0.000000\n\tfoo\n\t()\n)");
}

#[test]
fn text_error_messages() {
    let err = from_str("(1 2) 3").unwrap_err();
    assert_eq!(err.message(), "expected end of file, found text (at line: 1, column: 6)");
    let err = parse_i32_text(b"0x0", Location::new(1, 1)).unwrap_err();
    assert_eq!(err.message(), "invalid digit found in string: `0x0` (at line: 1, column: 1)");
    let err = to_string(&s("\""), WhitespaceConfig::default()).unwrap_err();
    assert_eq!(err.message(), "string contains a quote");
}

#[test]
fn nested_text_round_trips() {
    let twelve = int_list(&(0..12).collect::<Vec<i32>>());
    let v = TextValue::List(vec![
        s("a b"),
        TextValue::List(vec![s(""), s("42"), f6(-1.5), twelve]),
        TextValue::Int(i32::MIN),
        s("x"),
        TextValue::List(vec![]),
    ]);
    round_trip(v);
    let config = WhitespaceConfig::builder().indent("  ").delimiter(" ").newline("\n").build();
    let v = TextValue::List(vec![int_list(&[1, 2]), s("(")]);
    let text = to_string(&v, config).unwrap();
    assert_eq!(from_str(&text).unwrap(), v);
    let text = String::from_utf8(to_pretty(&v, &config).unwrap()).unwrap();
    assert_eq!(text, "((1 2) \"(\")\n");
    assert_eq!(from_str(&text).unwrap(), v);
}

fn assert_write_unsupported() {
    let w = StringWriter::new(WhitespaceConfig::default());
    let err = w.unsupported();
    assert!(matches!(err.code(), ErrorCode::UnsupportedType));
    assert_eq!(err.location(), None);
    assert_eq!(w.finish(), "");
}

#[test]
fn to_string_ser_tests_bool_tests() {
    assert_write_unsupported();
}

#[test]
fn to_string_ser_tests_unsigned_tests() {
    assert_write_unsupported();
}

#[test]
fn to_string_ser_tests_float_tests() {
    assert_write_unsupported();
}

#[test]
fn to_string_ser_tests_char_tests() {
    assert_write_unsupported();
}

#[test]
fn to_string_ser_tests_bytes_tests() {
    assert_write_unsupported();
}

#[test]
fn text_list_limits() {
    let ok = int_list(&vec![0; 255]);
    round_trip(ok);
    let err = to_string(&int_list(&vec![0; 256]), WhitespaceConfig::default()).unwrap_err();
    assert!(matches!(err.code(), ErrorCode::SequenceTooLong));
    let err = to_pretty(&int_list(&vec![0; 256]), &WhitespaceConfig::default()).unwrap_err();
    assert!(matches!(err.code(), ErrorCode::SequenceTooLong));
    let mut text = String::from("(");
    for _ in 0..256 {
        text.push_str("0 ");
    }
    text.push(')');
    let err = from_str(&text).unwrap_err();
    assert!(matches!(err.code(), ErrorCode::SequenceTooLong));
    assert_eq!(err.location(), Some(Location::new(1, 1 + 2 * 255)));
}

#[test]
fn struct_variant_counts_names_and_values() {
    let fields = |n: usize| -> Vec<(Vec<u8>, Element)> {
        (0..n).map(|i| (format!("f{}", i).into_bytes(), scalar("0"))).collect()
    };
    assert!(Element::struct_variant(b"V".to_vec(), fields(3)).is_compact());
    assert!(!Element::struct_variant(b"V".to_vec(), fields(4)).is_compact());
    assert!(!Element::structure(fields(4)).is_compact());
}

#[test]
fn peek_keeps_location_after_whitespace() {
    let mut reader = StrReader::new(b"  \n x");
    let before = reader.location();
    assert_eq!(before, Location::new(2, 1));
    let span = reader.peek().unwrap();
    assert_eq!(span.loc, before);
    assert_eq!(reader.location(), before);
    let plain = reader.clone();
    let e1 = StrReader::new(b"  \n x").finish().unwrap_err();
    let e2 = plain.finish().unwrap_err();
    assert_eq!(e1.location(), e2.location());
    assert_eq!(e1.message(), e2.message());
}

#[test]
fn quoted_number_stays_a_string() {
    assert_eq!(from_str("\"42\"\r\n").unwrap(), s("42"));
    let mut reader = StrReader::new(b"\"42\"");
    let err = reader.read_i32().unwrap_err();
    assert!(matches!(err.code(), ErrorCode::QuotedString));
    let mut reader = StrReader::new(b"\"4");
    let err = reader.read_string().unwrap_err();
    assert!(matches!(err.code(), ErrorCode::EofWhileParsingQuote));
}

#[test]
fn cross_format_chains() {
    let v = Value::List(vec![
        Value::Int(-3),
        Value::String(b"42".to_vec()),
        Value::List(vec![Value::String(b"a b".to_vec()), Value::List(vec![])]),
    ]);
    let bin = to_vec(&v).unwrap();
    let decoded = from_slice(&bin).unwrap();
    let t = text_of(&decoded).unwrap();
    let text = to_string(&t, WhitespaceConfig::default()).unwrap();
    let t2 = from_str(&text).unwrap();
    let v2 = value_of(&t2).unwrap();
    assert_eq!(v2, v);
    let back = from_slice(&to_vec(&v2).unwrap()).unwrap();
    assert_eq!(back, v);
    assert!(text_of(&Value::Float(0)).is_none());
    assert!(value_of(&TextValue::Float(b"1.0".to_vec())).is_none());
}
