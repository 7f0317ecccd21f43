use minikv::parser::{DecodeError, Parser, Value, ValueType};

fn simple(text: &str) -> Value {
    Value {
        value: Some(text.to_string()),
        value_type: ValueType::SimpleString,
        null: false,
        array: Vec::new(),
    }
}

#[test]
fn test_array_parse_ping_array() {
    let input = "*1\r\n$4\r\nping\r\n".to_string();
    let mut p = Parser::new(input);
    let val = p.parse().unwrap();
    assert_eq!(val.value_type, ValueType::Array);
    assert_eq!(val.array.len(), 1);
    assert_eq!(val.array[0].value_type, ValueType::BulkString);
    assert_eq!(val.array[0].value.as_deref(), Some("ping"));
}

#[test]
fn test_array_two_elements_parse_array() {
    let input = "*2\r\n$3\r\nget\r\n$3\r\nkey\r\n".to_string();
    let mut p = Parser::new(input);
    let val = p.parse().unwrap();
    assert_eq!(val.value_type, ValueType::Array);
    assert_eq!(val.array.len(), 2);
    assert_eq!(val.array[0].value.as_deref(), Some("get"));
    assert_eq!(val.array[1].value.as_deref(), Some("key"));
}

#[test]
fn test_array_two_elements_parse_respect_length_array() {
    let input = "*2\r\n$4\r\necho\r\n$5\r\nhello world\r\n".to_string();
    let mut p = Parser::new(input);
    let val = p.parse().unwrap();
    assert_eq!(val.value_type, ValueType::Array);
    assert_eq!(val.array.len(), 2);
    assert_eq!(val.array[0].value.as_deref(), Some("echo"));
    // The declared length wins: five bytes of "hello world".
    assert_eq!(val.array[1].value.as_deref(), Some("hello"));
}

#[test]
fn test_empty_bulk_string() {
    let input = "$0\r\n\r\n".to_string();
    let mut p = Parser::new(input);
    let val = p.parse().unwrap();
    assert_eq!(val.value_type, ValueType::BulkString);
    assert_eq!(val.value.as_deref(), Some(""));
}

#[test]
fn test_null_case() {
    let input = "$-1\r\n".to_string();
    let mut p = Parser::new(input);
    let val = p.parse().unwrap();
    assert_eq!(val.value_type, ValueType::Null);
    assert!(val.null);
    assert_eq!(val.value, None);
}

#[test]
fn test_simple_string() {
    let input = "+OK\r\n".to_string();
    let mut p = Parser::new(input);
    let val = p.parse().unwrap();
    assert_eq!(val.value_type, ValueType::SimpleString);
    assert_eq!(val.value.as_deref(), Some("OK"));
}

#[test]
fn test_simple_string_hello_world() {
    let input = "+hello world\r\n".to_string();
    let mut p = Parser::new(input);
    let val = p.parse().unwrap();
    assert_eq!(val.value_type, ValueType::SimpleString);
    assert_eq!(val.value.as_deref(), Some("hello world"));
}

#[test]
fn test_basic_error_message() {
    let input = "-Error message\r\n".to_string();
    let mut p = Parser::new(input);
    let val = p.parse().unwrap();
    assert_eq!(val.value_type, ValueType::Error);
    assert_eq!(val.value.as_deref(), Some("Error message"));
}

#[test]
fn test_negative_integer() {
    let input = ":-333\r\n".to_string();
    let mut p = Parser::new(input);
    let val = p.parse().unwrap();
    assert_eq!(val.value_type, ValueType::Integer);
    assert_eq!(val.value.as_deref(), Some("-333"));
}

#[test]
fn test_postive_integer() {
    let input = ":89\r\n".to_string();
    let mut p = Parser::new(input);
    let val = p.parse().unwrap();
    assert_eq!(val.value_type, ValueType::Integer);
    assert_eq!(val.value.as_deref(), Some("89"));
}

#[test]
fn test_mixed_array() {
    let input = "*4\r\n$5\r\nhello\r\n:-33\r\n:69\r\n+MIXED\r\n".to_string();
    let mut p = Parser::new(input);
    let val = p.parse().unwrap();
    assert_eq!(val.value_type, ValueType::Array);
    assert_eq!(val.array.len(), 4);
    assert_eq!(val.array[0].value_type, ValueType::BulkString);
    assert_eq!(val.array[0].value.as_deref(), Some("hello"));
    assert_eq!(val.array[1].value_type, ValueType::Integer);
    assert_eq!(val.array[1].value.as_deref(), Some("-33"));
    assert_eq!(val.array[2].value.as_deref(), Some("69"));
    assert_eq!(val.array[3].value_type, ValueType::SimpleString);
    assert_eq!(val.array[3].value.as_deref(), Some("MIXED"));
}

#[test]
fn test_simple_string_stringify() {
    let val = simple("Hello");
    let s = minikv::parser::stringify(&val);
    assert_eq!(s, "+Hello\r\n");
}

#[test]
fn test_null_stringify() {
    let val = Value {
        value: None,
        value_type: ValueType::Null,
        null: true,
        array: Vec::new(),
    };
    let s = minikv::parser::stringify(&val);
    assert_eq!(s, "$-1\r\n");
}

#[test]
fn test_simple_string_array_stringify() {
    let val = Value {
        value: None,
        value_type: ValueType::Array,
        null: false,
        array: vec![simple("Hello"), simple("World"), simple("John")],
    };
    let s = minikv::parser::stringify(&val);
    assert_eq!(s, "*3\r\n+Hello\r\n+World\r\n+John\r\n");
}

#[test]
fn test_bulk_string() {
    let val = Value {
        value: Some("Hello".to_string()),
        value_type: ValueType::BulkString,
        null: false,
        array: Vec::new(),
    };
    let s = minikv::parser::stringify(&val);
    assert_eq!(s, "$5\r\nHello\r\n");
}

#[test]
fn bulk_length_beyond_payload_is_an_error() {
    // Declared length five, payload of two: a decode error, not a panic.
    let mut p = Parser::new("$5\r\nhi\r\n".to_string());
    assert_eq!(p.parse().unwrap_err(), DecodeError::LengthMismatch);
}

#[test]
fn truncated_array_is_an_error() {
    // Five declared elements, four present.
    let mut p = Parser::new("*5\r\n$5\r\nhello\r\n:-33\r\n:69\r\n+MIXED\r\n".to_string());
    assert_eq!(p.parse().unwrap_err(), DecodeError::UnexpectedEnd);
}

#[test]
fn missing_terminator_is_an_error() {
    let mut p = Parser::new("+OK".to_string());
    assert_eq!(p.parse().unwrap_err(), DecodeError::MissingTerminator);
}

#[test]
fn unknown_leading_byte_is_an_error() {
    let mut p = Parser::new("@oops\r\n".to_string());
    assert_eq!(p.parse().unwrap_err(), DecodeError::UnknownType);
}

#[test]
fn empty_buffer_is_an_error() {
    let mut p = Parser::new(String::new());
    assert_eq!(p.parse().unwrap_err(), DecodeError::UnexpectedEnd);
}

#[test]
fn bulk_header_with_sign_parses_as_number() {
    // usize parsing accepts a leading plus sign.
    let mut p = Parser::new("$+2\r\nab\r\n".to_string());
    let val = p.parse().unwrap();
    assert_eq!(val.value_type, ValueType::BulkString);
    assert_eq!(val.value.as_deref(), Some("ab"));
}

#[test]
fn bad_bulk_header_defaults_to_zero() {
    // A length that is no number counts as zero, as inherited.
    let mut p = Parser::new("$x\r\nab\r\n".to_string());
    let val = p.parse().unwrap();
    assert_eq!(val.value_type, ValueType::BulkString);
    assert_eq!(val.value.as_deref(), Some(""));
}

#[test]
fn round_trip_mixed_array() {
    // Decoding wire text and writing the value back reproduces the text.
    let wire = "*4\r\n$5\r\nhello\r\n:-33\r\n$-1\r\n+MIXED\r\n";
    let mut p = Parser::new(wire.to_string());
    let val = p.parse().unwrap();
    assert_eq!(minikv::parser::stringify(&val), wire);
}

#[test]
fn next_command_reads_one_line() {
    let mut p = Parser::new("abc\r\nrest".to_string());
    assert_eq!(p.next_command().unwrap(), "abc");
}

#[test]
fn next_reads_one_character() {
    let mut p = Parser::new("xy".to_string());
    assert_eq!(p.next(), 'x');
    assert_eq!(p.next(), 'y');
}

#[test]
fn bulk_header_counts_bytes() {
    // One two-byte character: the header says 2, and decoding consumes it
    // back as one character worth two bytes.
    let val = Value {
        value: Some("é".to_string()),
        value_type: ValueType::BulkString,
        null: false,
        array: Vec::new(),
    };
    let wire = minikv::parser::stringify(&val);
    assert_eq!(wire, "$2\r\né\r\n");
    let mut p = Parser::new(wire);
    let back = p.parse().unwrap();
    assert_eq!(back.value_type, ValueType::BulkString);
    assert_eq!(back.value.as_deref(), Some("é"));
}

#[test]
fn bulk_length_inside_a_character_is_an_error() {
    // One byte of a two-byte character: the count lands mid-character.
    let mut p = Parser::new("$1\r\né\r\n".to_string());
    assert_eq!(p.parse().unwrap_err(), DecodeError::LengthMismatch);
}

#[test]
fn parsed_values_are_tidy() {
    let mut p = Parser::new(":-333\r\n".to_string());
    let val = p.parse().unwrap();
    assert!(!val.null);
    assert!(val.array.is_empty());
    let mut p = Parser::new("$-1\r\n".to_string());
    let val = p.parse().unwrap();
    assert!(val.null);
    assert_eq!(val.value, None);
    assert!(val.array.is_empty());
    let mut p = Parser::new("*1\r\n$4\r\nPING\r\n".to_string());
    let val = p.parse().unwrap();
    assert!(!val.null);
    assert_eq!(val.value, None);
    assert!(!val.array[0].null);
    assert!(val.array[0].array.is_empty());
}
