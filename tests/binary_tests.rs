use zlisp::binary::codec::{from_slice, to_vec, write_value};
use zlisp::binary::error::{ErrorCode, TokenType};
use zlisp::binary::reader::{SliceReader, Token};
use zlisp::binary::writer::IoWriter;
use zlisp::value::Value;

const INT: i32 = 1;
const FLOAT: i32 = 2;
const STRING: i32 = 3;
const LIST: i32 = 4;
const INVALID_TYPE: i32 = 5;
const MAX_LIST_LEN: i32 = 255;

struct BinBuilder(Vec<u8>);

impl BinBuilder {
    fn new() -> Self {
        BinBuilder(Vec::new())
    }

    fn root() -> Self {
        BinBuilder::new().i32(LIST).i32(2)
    }

    fn build(self) -> Vec<u8> {
        self.0
    }

    fn i32(mut self, v: i32) -> Self {
        self.0.extend_from_slice(&v.to_le_bytes());
        self
    }

    fn slice(mut self, v: &[u8]) -> Self {
        self.0.extend_from_slice(v);
        self
    }

    fn int_token(self, v: i32) -> Self {
        self.i32(INT).i32(v)
    }

    fn float(self, v: f32) -> Self {
        self.i32(FLOAT).slice(&v.to_le_bytes())
    }

    fn str(self, s: &str) -> Self {
        let len = s.len() as i32;
        self.i32(STRING).i32(len).slice(s.as_bytes())
    }

    fn list(self, len: usize) -> Self {
        self.i32(LIST).i32(len as i32 + 1)
    }
}

fn read_i32_all(input: &[u8]) -> Result<i32, zlisp::binary::error::Error> {
    let mut r = SliceReader::new(input);
    let v = r.read_i32()?;
    r.finish()?;
    Ok(v)
}

fn read_f32_all(input: &[u8]) -> Result<f32, zlisp::binary::error::Error> {
    let mut r = SliceReader::new(input);
    let v = r.read_f32()?;
    r.finish()?;
    Ok(f32::from_bits(v))
}

fn read_str_all(input: &[u8]) -> Result<Vec<u8>, zlisp::binary::error::Error> {
    let mut r = SliceReader::new(input);
    let v = r.read_str()?;
    r.finish()?;
    Ok(v)
}

fn read_ints_all(input: &[u8]) -> Result<Vec<i32>, zlisp::binary::error::Error> {
    let mut r = SliceReader::new(input);
    let (len, _) = r.read_list()?;
    let mut v = Vec::new();
    for _ in 0..len {
        v.push(r.read_i32()?);
    }
    r.finish()?;
    Ok(v)
}

fn assert_unsupported(input: &[u8]) {
    let r = SliceReader::new(input);
    let err = r.unsupported();
    assert!(matches!(err.code(), ErrorCode::UnsupportedType));
    assert_eq!(err.offset(), Some(0));
}

#[test]
fn from_slice_de_tests_bool_tests() {
    assert_unsupported(&BinBuilder::new().build());
}

#[test]
fn from_slice_de_tests_signed_tests() {
    assert_unsupported(&BinBuilder::new().build());
    let input = BinBuilder::new().int_token(0).build();
    assert_eq!(read_i32_all(&input).unwrap(), 0);
}

#[test]
fn from_slice_de_tests_unsigned_tests() {
    assert_unsupported(&BinBuilder::new().build());
}

#[test]
fn from_slice_de_tests_float_tests() {
    assert_unsupported(&BinBuilder::new().build());
    let input = BinBuilder::new().float(0.0).build();
    assert_eq!(read_f32_all(&input).unwrap(), 0.0);
}

#[test]
fn from_slice_de_tests_char_tests() {
    assert_unsupported(&BinBuilder::new().build());
}

#[test]
fn from_slice_de_tests_string_tests() {
    let input = BinBuilder::new().str("foo").build();
    assert_eq!(read_str_all(&input).unwrap(), b"foo".to_vec());
}

#[test]
fn from_slice_de_tests_bytes_tests() {
    assert_unsupported(&BinBuilder::new().build());
}

#[test]
fn from_slice_de_tests_option_tests() {
    let input = BinBuilder::new().list(0).build();
    assert_eq!(SliceReader::new(&input).read_option().unwrap(), false);
    let input = BinBuilder::new().list(1).int_token(-1).build();
    let mut r = SliceReader::new(&input);
    assert_eq!(r.read_option().unwrap(), true);
    assert_eq!(r.read_i32().unwrap(), -1);
    r.finish().unwrap();
    let input = BinBuilder::new().list(2).build();
    let err = SliceReader::new(&input).read_option().unwrap_err();
    assert!(matches!(
        err.code(),
        ErrorCode::ExpectedListOfLength { expected_min: 0, expected_max: 1, found: 2 }
    ));
    assert_eq!(err.offset(), Some(4));
}

#[test]
fn from_slice_de_tests_unit_type_tests() {
    let input = BinBuilder::new().list(0).build();
    SliceReader::new(&input).read_tuple(0).unwrap();
    let input = BinBuilder::new().list(1).int_token(-1).build();
    let err = SliceReader::new(&input).read_tuple(0).unwrap_err();
    assert!(matches!(
        err.code(),
        ErrorCode::ExpectedListOfLength { expected_min: 0, expected_max: 0, found: 1 }
    ));
    assert_eq!(err.offset(), Some(4));
}

#[test]
fn must_consume_all_data() {
    let input = BinBuilder::new().int_token(1).slice(&[0u8]).build();
    let err = read_i32_all(&input).unwrap_err();
    assert!(matches!(err.code(), ErrorCode::TrailingData));
    assert_eq!(err.offset(), Some(8));
    let input = BinBuilder::root().int_token(1).slice(&[0u8]).build();
    let err = from_slice(&input).unwrap_err();
    assert!(matches!(err.code(), ErrorCode::TrailingData));
    assert_eq!(err.offset(), Some(16));
}

fn assert_i32_err(input: &[u8], offset: usize, check: fn(&ErrorCode) -> bool) {
    let err = read_i32_all(input).unwrap_err();
    assert!(check(err.code()), "{:?}", err);
    assert_eq!(err.offset(), Some(offset));
}

#[test]
fn parse_int() {
    for v in [0, 1, -1, i32::MIN, i32::MAX] {
        let input = BinBuilder::new().int_token(v).build();
        assert_eq!(read_i32_all(&input).unwrap(), v);
    }
    assert_i32_err(&BinBuilder::new().build(), 0, |c| {
        matches!(c, ErrorCode::ExpectedToken { expected: TokenType::Int, found: TokenType::Eof })
    });
    assert_i32_err(&BinBuilder::new().slice(&[0u8]).build(), 0, |c| {
        matches!(c, ErrorCode::InsufficientData { expected: 4, available: 1 })
    });
    assert_i32_err(&BinBuilder::new().slice(&[0u8, 0u8]).build(), 0, |c| {
        matches!(c, ErrorCode::InsufficientData { expected: 4, available: 2 })
    });
    assert_i32_err(&BinBuilder::new().slice(&[0u8, 0u8, 0u8]).build(), 0, |c| {
        matches!(c, ErrorCode::InsufficientData { expected: 4, available: 3 })
    });
    assert_i32_err(&BinBuilder::new().i32(INVALID_TYPE).build(), 0, |c| matches!(c, ErrorCode::InvalidTokenType));
    assert_i32_err(&BinBuilder::new().i32(FLOAT).build(), 0, |c| {
        matches!(c, ErrorCode::ExpectedToken { expected: TokenType::Int, found: TokenType::Float })
    });
    assert_i32_err(&BinBuilder::new().i32(STRING).build(), 0, |c| {
        matches!(c, ErrorCode::ExpectedToken { expected: TokenType::Int, found: TokenType::String })
    });
    assert_i32_err(&BinBuilder::new().i32(LIST).build(), 0, |c| {
        matches!(c, ErrorCode::ExpectedToken { expected: TokenType::Int, found: TokenType::List })
    });
}

#[test]
fn parse_float() {
    for v in [0.0f32, 1.0, -1.0, f32::MIN, f32::MAX] {
        let input = BinBuilder::new().float(v).build();
        assert_eq!(read_f32_all(&input).unwrap(), v);
    }
    let err = read_f32_all(&BinBuilder::new().build()).unwrap_err();
    assert!(matches!(
        err.code(),
        ErrorCode::ExpectedToken { expected: TokenType::Float, found: TokenType::Eof }
    ));
    assert_eq!(err.offset(), Some(0));
    let err = read_f32_all(&BinBuilder::new().slice(&[0u8]).build()).unwrap_err();
    assert!(matches!(err.code(), ErrorCode::InsufficientData { expected: 4, available: 1 }));
    let err = read_f32_all(&BinBuilder::new().i32(INVALID_TYPE).build()).unwrap_err();
    assert!(matches!(err.code(), ErrorCode::InvalidTokenType));
    let err = read_f32_all(&BinBuilder::new().i32(INT).build()).unwrap_err();
    assert!(matches!(
        err.code(),
        ErrorCode::ExpectedToken { expected: TokenType::Float, found: TokenType::Int }
    ));
    let err = read_f32_all(&BinBuilder::new().i32(STRING).build()).unwrap_err();
    assert!(matches!(
        err.code(),
        ErrorCode::ExpectedToken { expected: TokenType::Float, found: TokenType::String }
    ));
    let err = read_f32_all(&BinBuilder::new().i32(LIST).build()).unwrap_err();
    assert!(matches!(
        err.code(),
        ErrorCode::ExpectedToken { expected: TokenType::Float, found: TokenType::List }
    ));
}

#[test]
fn parse_str_content() {
    let input = BinBuilder::new().str("\0").build();
    let err = read_str_all(&input).unwrap_err();
    assert!(matches!(err.code(), ErrorCode::StringContainsNull));
    assert_eq!(err.offset(), Some(8));
    let input = BinBuilder::new().str("\"").build();
    let err = read_str_all(&input).unwrap_err();
    assert!(matches!(err.code(), ErrorCode::StringContainsQuote));
    assert_eq!(err.offset(), Some(8));
    let input = BinBuilder::new().str("\u{1F385}").build();
    let err = read_str_all(&input).unwrap_err();
    assert!(matches!(err.code(), ErrorCode::StringContainsInvalidByte));
    assert_eq!(err.offset(), Some(8));

    let max_len = " ".repeat(255);
    let input = BinBuilder::new().str(&max_len).build();
    assert_eq!(read_str_all(&input).unwrap(), max_len.as_bytes().to_vec());

    let over_len = " ".repeat(256);
    let input = BinBuilder::new().str(&over_len).build();
    let err = read_str_all(&input).unwrap_err();
    assert!(matches!(err.code(), ErrorCode::StringTooLong));
    assert_eq!(err.offset(), Some(4));
}

fn assert_list_err(input: &[u8], offset: usize, check: fn(&ErrorCode) -> bool) {
    let err = read_ints_all(input).unwrap_err();
    assert!(check(err.code()), "{:?}", err);
    assert_eq!(err.offset(), Some(offset));
}

#[test]
fn parse_list() {
    assert_eq!(read_ints_all(&BinBuilder::new().list(0).build()).unwrap(), Vec::<i32>::new());
    assert_eq!(read_ints_all(&BinBuilder::new().list(1).int_token(2).build()).unwrap(), vec![2]);
    assert_list_err(&BinBuilder::new().build(), 0, |c| {
        matches!(c, ErrorCode::ExpectedToken { expected: TokenType::List, found: TokenType::Eof })
    });
    assert_list_err(&BinBuilder::new().slice(&[0u8]).build(), 0, |c| {
        matches!(c, ErrorCode::InsufficientData { expected: 4, available: 1 })
    });
    assert_list_err(&BinBuilder::new().slice(&[0u8, 0u8, 0u8]).build(), 0, |c| {
        matches!(c, ErrorCode::InsufficientData { expected: 4, available: 3 })
    });
    assert_list_err(&BinBuilder::new().i32(INVALID_TYPE).build(), 0, |c| matches!(c, ErrorCode::InvalidTokenType));
    assert_list_err(&BinBuilder::new().i32(INT).build(), 0, |c| {
        matches!(c, ErrorCode::ExpectedToken { expected: TokenType::List, found: TokenType::Int })
    });
    assert_list_err(&BinBuilder::new().i32(FLOAT).build(), 0, |c| {
        matches!(c, ErrorCode::ExpectedToken { expected: TokenType::List, found: TokenType::Float })
    });
    assert_list_err(&BinBuilder::new().i32(STRING).build(), 0, |c| {
        matches!(c, ErrorCode::ExpectedToken { expected: TokenType::List, found: TokenType::String })
    });
    assert_list_err(&BinBuilder::new().i32(LIST).build(), 4, |c| {
        matches!(c, ErrorCode::InsufficientData { expected: 4, available: 0 })
    });
    assert_list_err(&BinBuilder::new().i32(LIST).slice(&[0u8]).build(), 4, |c| {
        matches!(c, ErrorCode::InsufficientData { expected: 4, available: 1 })
    });
    assert_eq!(read_ints_all(&BinBuilder::new().i32(LIST).i32(1).build()).unwrap(), Vec::<i32>::new());
    let mut builder = BinBuilder::new().i32(LIST).i32(MAX_LIST_LEN + 1);
    let mut expected = Vec::new();
    for i in 0..MAX_LIST_LEN {
        builder = builder.int_token(i);
        expected.push(i);
    }
    assert_eq!(read_ints_all(&builder.build()).unwrap(), expected);
    assert_list_err(&BinBuilder::new().i32(LIST).i32(0).build(), 4, |c| matches!(c, ErrorCode::InvalidListLength));
    assert_list_err(&BinBuilder::new().i32(LIST).i32(-1).build(), 4, |c| matches!(c, ErrorCode::InvalidListLength));
    assert_list_err(&BinBuilder::new().i32(LIST).i32(i32::MIN).build(), 4, |c| {
        matches!(c, ErrorCode::InvalidListLength)
    });
    assert_list_err(&BinBuilder::new().i32(LIST).i32(MAX_LIST_LEN + 2).build(), 4, |c| {
        matches!(c, ErrorCode::SequenceTooLong)
    });
    assert_list_err(&BinBuilder::new().i32(LIST).i32(i32::MAX).build(), 4, |c| matches!(c, ErrorCode::SequenceTooLong));
}

#[test]
fn parse_any() {
    let input = BinBuilder::new().int_token(-1).build();
    assert_eq!(SliceReader::new(&input).read_any().unwrap(), Token::Int(-1));
    let input = BinBuilder::new().float(1.0).build();
    assert_eq!(SliceReader::new(&input).read_any().unwrap(), Token::Float(1.0f32.to_bits()));
    let input = BinBuilder::new().str("foo").build();
    assert_eq!(SliceReader::new(&input).read_any().unwrap(), Token::Str(b"foo".to_vec()));
    let input = BinBuilder::new().list(3).build();
    assert_eq!(SliceReader::new(&input).read_any().unwrap(), Token::List(3));
    let err = SliceReader::new(&[]).read_any().unwrap_err();
    assert!(matches!(err.code(), ErrorCode::ExpectedToken { expected: TokenType::Any, found: TokenType::Eof }));
}

fn round_trip(v: Value) {
    let bin = to_vec(&v).unwrap();
    let actual = from_slice(&bin).unwrap();
    assert_eq!(actual, v);
}

fn s(x: &str) -> Value {
    Value::String(x.as_bytes().to_vec())
}

#[test]
fn binary_round_trip_signed_tests() {
    for v in [0, 1, -1, i32::MIN, i32::MAX] {
        round_trip(Value::Int(v));
    }
}

#[test]
fn binary_round_trip_float_tests() {
    for v in [0.0f32, 1.0, -1.0, f32::MIN, f32::MAX] {
        round_trip(Value::Float(v.to_bits()));
    }
}

#[test]
fn binary_round_trip_string_tests() {
    round_trip(s("foo"));
}

#[test]
fn binary_round_trip_option_tests() {
    round_trip(Value::List(vec![]));
    round_trip(Value::List(vec![Value::Int(-1)]));
    round_trip(Value::List(vec![Value::List(vec![])]));
}

#[test]
fn binary_round_trip_unit_type_tests() {
    round_trip(Value::List(vec![]));
}

#[test]
fn binary_round_trip_seq_tests() {
    round_trip(Value::List(vec![]));
    round_trip(Value::List(vec![Value::Int(-1)]));
    round_trip(Value::List(vec![Value::Int(-1), Value::Int(-2)]));
}

#[test]
fn binary_round_trip_tuple_tests() {
    round_trip(Value::List(vec![Value::Int(-1), s("foo")]));
}

#[test]
fn binary_round_trip_map_tests() {
    round_trip(Value::List(vec![s("a"), Value::Int(-1), s("b"), Value::Int(-2)]));
}

#[test]
fn to_vec_ser_tests_signed_tests() {
    let mut w = IoWriter::new(Vec::new());
    w.write_i32(0);
    assert_eq!(w.finish(), BinBuilder::new().int_token(0).build());
    assert_eq!(to_vec(&Value::Int(7)).unwrap(), BinBuilder::root().int_token(7).build());
}

#[test]
fn to_vec_ser_tests_float_tests() {
    let mut w = IoWriter::new(Vec::new());
    w.write_f32(0.0f32.to_bits());
    assert_eq!(w.finish(), BinBuilder::new().float(0.0).build());
}

#[test]
fn to_vec_ser_tests_string_tests() {
    let mut w = IoWriter::new(Vec::new());
    let err = w.write_str(b"\0").unwrap_err();
    assert!(matches!(err.code(), ErrorCode::StringContainsNull));
    assert_eq!(err.offset(), None);
    let err = w.write_str(b"\"").unwrap_err();
    assert!(matches!(err.code(), ErrorCode::StringContainsQuote));
    let err = w.write_str("\u{1F385}".as_bytes()).unwrap_err();
    assert!(matches!(err.code(), ErrorCode::StringContainsInvalidByte));
    w.write_str(" ".repeat(255).as_bytes()).unwrap();
    let err = w.write_str(" ".repeat(256).as_bytes()).unwrap_err();
    assert!(matches!(err.code(), ErrorCode::StringTooLong));
}

#[test]
fn binary_integer_scenario() {
    let input = [4u8, 0, 0, 0, 2, 0, 0, 0, 1, 0, 0, 0, 7, 0, 0, 0];
    assert_eq!(from_slice(&input).unwrap(), Value::Int(7));
}

#[test]
fn binary_string_scenario() {
    let input = [4u8, 0, 0, 0, 2, 0, 0, 0, 3, 0, 0, 0, 3, 0, 0, 0, 0x66, 0x6f, 0x6f];
    assert_eq!(from_slice(&input).unwrap(), s("foo"));
}

#[test]
fn binary_list_of_int_scenario() {
    let v = Value::List(vec![Value::Int(1), Value::Int(2)]);
    let bin = to_vec(&v).unwrap();
    assert_eq!(bin, BinBuilder::root().list(2).int_token(1).int_token(2).build());
    let mut trailing = bin.clone();
    trailing.push(0);
    let err = from_slice(&trailing).unwrap_err();
    assert!(matches!(err.code(), ErrorCode::TrailingData));
    assert_eq!(err.offset(), Some(bin.len()));
}

#[test]
fn invalid_inner_tag_offset() {
    let input = BinBuilder::root().i32(INVALID_TYPE).i32(0).build();
    let err = from_slice(&input).unwrap_err();
    assert!(matches!(err.code(), ErrorCode::InvalidTokenType));
    assert_eq!(err.offset(), Some(8));
}

#[test]
fn outer_wrapper_is_required() {
    let err = from_slice(&BinBuilder::new().int_token(7).build()).unwrap_err();
    assert!(matches!(err.code(), ErrorCode::ExpectedToken { expected: TokenType::List, found: TokenType::Int }));
    assert_eq!(err.offset(), Some(0));
    let err = from_slice(&BinBuilder::new().list(2).int_token(1).int_token(2).build()).unwrap_err();
    assert!(matches!(err.code(), ErrorCode::InvalidListLength));
    assert_eq!(err.offset(), Some(4));
    let err = from_slice(&[]).unwrap_err();
    assert!(matches!(err.code(), ErrorCode::ExpectedToken { expected: TokenType::List, found: TokenType::Eof }));
}

#[test]
fn length_limits() {
    let ok = Value::List((0..255).map(Value::Int).collect());
    round_trip(ok);
    let err = to_vec(&Value::List((0..256).map(Value::Int).collect())).unwrap_err();
    assert!(matches!(err.code(), ErrorCode::SequenceTooLong));
    round_trip(s(&"a".repeat(255)));
    let err = to_vec(&s(&"a".repeat(256))).unwrap_err();
    assert!(matches!(err.code(), ErrorCode::StringTooLong));
}

#[test]
fn alphabet_closure() {
    for x in ["", "foo", "a b\tc", "(x)", "-1.5", "~!@#$%^&*"] {
        round_trip(s(x));
    }
    for bad in ["\0", "\"", "\u{e9}"] {
        assert!(to_vec(&s(bad)).is_err());
    }
}

#[test]
fn nested_round_trip_and_offsets() {
    let v = Value::List(vec![s("a"), Value::List(vec![Value::Float(0x3fc0_0000), Value::List(vec![])])]);
    round_trip(v);
    let mut w = IoWriter::new(Vec::new());
    w.wrap_outer_list();
    w.write_list(Some(2)).unwrap();
    w.write_i32(1);
    w.write_str(b"x").unwrap();
    let mut bin = w.finish();
    bin.truncate(bin.len() - 1);
    let err = from_slice(&bin).unwrap_err();
    assert!(matches!(err.code(), ErrorCode::InsufficientData { expected: 1, available: 0 }));
    assert_eq!(err.offset(), Some(bin.len()));
    let mut w = IoWriter::new(Vec::new());
    assert!(matches!(w.write_list(None).unwrap_err().code(), ErrorCode::SequenceMustHaveLength));
    let mut out = IoWriter::new(Vec::new());
    write_value(&mut out, &Value::Int(3)).unwrap();
    assert_eq!(out.finish(), BinBuilder::new().int_token(3).build());
}

#[test]
fn map_pairs_are_checked() {
    let r = SliceReader::new(&[]);
    assert_eq!(r.next_key(0).unwrap(), false);
    assert_eq!(r.next_key(2).unwrap(), true);
    let err = r.next_key(1).unwrap_err();
    assert!(matches!(err.code(), ErrorCode::ExpectedKeyValuePair));
    assert_eq!(err.offset(), Some(0));
}

#[test]
fn int_tests() {
    for v in [0, 1, -1, i32::MAX, i32::MIN] {
        let bin = to_vec(&Value::Int(v)).unwrap();
        let mut r = SliceReader::new(&bin);
        assert_eq!(r.read_list().unwrap(), (1, 4));
        assert_eq!(r.read_any().unwrap(), Token::Int(v));
        r.finish().unwrap();
    }
}

#[test]
fn serde_float_tests() {
    for v in [0.0f32, 1.0, -1.0, f32::MAX, f32::MIN] {
        let bin = to_vec(&Value::Float(v.to_bits())).unwrap();
        let mut r = SliceReader::new(&bin);
        r.read_list().unwrap();
        assert_eq!(r.read_any().unwrap(), Token::Float(v.to_bits()));
        r.finish().unwrap();
    }
}

#[test]
fn binary_error_messages() {
    let err = read_i32_all(&BinBuilder::new().i32(FLOAT).build()).unwrap_err();
    assert_eq!(err.message(), "expected integer, found float (at offset: 0)");
    let err = read_i32_all(&BinBuilder::new().slice(&[0u8]).build()).unwrap_err();
    assert_eq!(err.message(), "expected: 4 bytes, available: 1 bytes (at offset: 0)");
    let err = to_vec(&s(&"a".repeat(256))).unwrap_err();
    assert_eq!(err.message(), "string is too long");
}

fn assert_write_unsupported() {
    let w = IoWriter::new(Vec::new());
    let err = w.unsupported();
    assert!(matches!(err.code(), ErrorCode::UnsupportedType));
    assert_eq!(err.offset(), None);
    assert!(w.finish().is_empty());
}

#[test]
fn to_vec_ser_tests_bool_tests() {
    assert_write_unsupported();
}

#[test]
fn to_vec_ser_tests_unsigned_tests() {
    assert_write_unsupported();
}

#[test]
fn to_vec_ser_tests_char_tests() {
    assert_write_unsupported();
}

#[test]
fn to_vec_ser_tests_bytes_tests() {
    assert_write_unsupported();
}

#[test]
fn from_slice_typed_errors() {
    for v in [0, 1, -1, i32::MIN, i32::MAX] {
        assert_eq!(from_slice(&BinBuilder::root().int_token(v).build()).unwrap(), Value::Int(v));
    }
    let err = from_slice(&BinBuilder::root().build()).unwrap_err();
    assert!(matches!(err.code(), ErrorCode::ExpectedToken { expected: TokenType::Any, found: TokenType::Eof }));
    assert_eq!(err.offset(), Some(8));
    let err = from_slice(&BinBuilder::root().slice(&[0u8, 0u8]).build()).unwrap_err();
    assert!(matches!(err.code(), ErrorCode::InsufficientData { expected: 4, available: 2 }));
    assert_eq!(err.offset(), Some(8));
    let err = from_slice(&BinBuilder::root().str("\"").build()).unwrap_err();
    assert!(matches!(err.code(), ErrorCode::StringContainsQuote));
    assert_eq!(err.offset(), Some(16));
    let err = from_slice(&BinBuilder::root().i32(LIST).i32(0).build()).unwrap_err();
    assert!(matches!(err.code(), ErrorCode::InvalidListLength));
    assert_eq!(err.offset(), Some(12));
}

#[test]
fn outer_count_above_limit_is_invalid_length() {
    let err = from_slice(&BinBuilder::new().i32(LIST).i32(300).build()).unwrap_err();
    assert!(matches!(err.code(), ErrorCode::InvalidListLength));
    assert_eq!(err.offset(), Some(4));
}
