use resp_store::{decode, DecodeError, Parser, Value};

fn simple(s: &str) -> Value {
    Value::SimpleString(String::from(s))
}

fn bulk(s: &str) -> Value {
    Value::BulkString(String::from(s))
}

#[test]
fn test_parse_string() {
    let data = b"+ABC\r\n";
    let mut p = Parser::new(data);
    assert_eq!(p.parse_value(), Ok(Value::SimpleString(String::from("ABC"))));
}

#[test]
fn test_parse_empty_string() {
    let data = b"+\r\n";
    let mut p = Parser::new(data);
    assert_eq!(p.parse_value(), Ok(Value::SimpleString(String::from(""))));
}

// The declared length is 5, so the byte after "abcde" must start the
// terminator: a sixth payload byte breaks the frame.
#[test]
fn test_parse_bulk_string() {
    let data = b"$5\r\nabcdef\r\n";
    let mut p = Parser::new(data);
    assert_eq!(p.parse_value(), Err(DecodeError::Protocol));
    assert_ne!(decode(data, 0).map(|(v, _)| v), Ok(Value::BulkString(String::from("abcdef"))));
}

#[test]
fn test_parse_array() {
    let data = b"*2\r\n+AB\r\n+CD\r\n";
    let mut p = Parser::new(data);
    assert_eq!(
        p.parse_value(),
        Ok(Value::Array(vec![
            Value::SimpleString(String::from("AB")),
            Value::SimpleString(String::from("CD"))
        ]))
    );
}

#[test]
fn test_parse_echo_command() {
    let data = b"*2\r\n$4\r\nECHO\r\n$3\r\nhey\r\n";
    let mut p = Parser::new(data);
    assert_eq!(
        p.parse_value(),
        Ok(Value::Array(vec![
            Value::BulkString(String::from("ECHO")),
            Value::BulkString(String::from("hey"))
        ]))
    );
}

#[test]
fn test_parse_echo_command_no_args() {
    let data = b"*1\r\n$4\r\nECHO\r\n";
    let mut p = Parser::new(data);
    assert_eq!(
        p.parse_value(),
        Ok(Value::Array(vec![Value::BulkString(String::from("ECHO"))]))
    );
}

#[test]
fn test_parse_get_command() {
    let data = b"*2\r\n$3\r\nGET\r\n$3\r\nKEY\r\n";
    let mut p = Parser::new(data);
    assert_eq!(
        p.parse_value(),
        Ok(Value::Array(vec![
            Value::BulkString(String::from("GET")),
            Value::BulkString(String::from("KEY"))
        ]))
    );
}

#[test]
fn decodes_bulk_string_with_declared_length() {
    assert_eq!(decode(b"$5\r\nabcde\r\n", 0), Ok((bulk("abcde"), 11)));
}

#[test]
fn decodes_bulk_string_with_two_digit_length() {
    assert_eq!(decode(b"$12\r\nhelloworld!!\r\n", 0), Ok((bulk("helloworld!!"), 19)));
}

#[test]
fn decodes_empty_bulk_string() {
    assert_eq!(decode(b"$0\r\n\r\n", 0), Ok((bulk(""), 6)));
}

#[test]
fn decodes_simple_string_and_counts_bytes() {
    assert_eq!(decode(b"+ABC\r\n", 0), Ok((simple("ABC"), 6)));
    assert_eq!(decode(b"+\r\n", 0), Ok((simple(""), 3)));
}

#[test]
fn decodes_array_of_simple_strings() {
    assert_eq!(
        decode(b"*2\r\n+AB\r\n+CD\r\n", 0),
        Ok((Value::Array(vec![simple("AB"), simple("CD")]), 14))
    );
}

#[test]
fn decodes_empty_and_nested_arrays() {
    assert_eq!(decode(b"*0\r\n", 0), Ok((Value::Array(vec![]), 4)));
    assert_eq!(
        decode(b"*2\r\n*1\r\n+A\r\n$1\r\nB\r\n", 0),
        Ok((Value::Array(vec![Value::Array(vec![simple("A")]), bulk("B")]), 19))
    );
}

#[test]
fn decodes_from_a_position_and_leaves_trailing_bytes() {
    assert_eq!(decode(b"+A\r\n+BC\r\n", 4), Ok((simple("BC"), 5)));
    assert_eq!(decode(b"+A\r\n+BC\r\n", 0), Ok((simple("A"), 4)));
}

#[test]
fn decodes_utf8_payload_by_bytes() {
    assert_eq!(decode("$2\r\né\r\n".as_bytes(), 0), Ok((bulk("é"), 8)));
}

#[test]
fn short_buffers_are_incomplete() {
    assert_eq!(decode(b"", 0), Err(DecodeError::Incomplete));
    assert_eq!(decode(b"+AB", 0), Err(DecodeError::Incomplete));
    assert_eq!(decode(b"+AB\r", 0), Err(DecodeError::Incomplete));
    assert_eq!(decode(b"$5\r\nab", 0), Err(DecodeError::Incomplete));
    assert_eq!(decode(b"$12", 0), Err(DecodeError::Incomplete));
    assert_eq!(decode(b"*2\r\n+AB\r\n", 0), Err(DecodeError::Incomplete));
    assert_eq!(decode(b"*", 0), Err(DecodeError::Incomplete));
}

#[test]
fn malformed_frames_are_protocol_errors() {
    assert_eq!(decode(b":1\r\n", 0), Err(DecodeError::Protocol));
    assert_eq!(decode(b"$x\r\nab\r\n", 0), Err(DecodeError::Protocol));
    assert_eq!(decode(b"$-1\r\n", 0), Err(DecodeError::Protocol));
    assert_eq!(decode(b"*2x\r\n", 0), Err(DecodeError::Protocol));
    assert_eq!(decode(b"+AB\rX", 0), Err(DecodeError::Protocol));
    assert_eq!(decode(b"$2\r\nabXY", 0), Err(DecodeError::Protocol));
    assert_eq!(decode(b"$99999999999999999999999\r\n", 0), Err(DecodeError::Protocol));
    assert_eq!(decode(b"$1\r\n\xff\r\n", 0), Err(DecodeError::Protocol));
}

#[test]
fn parser_moves_past_each_element() {
    let mut p = Parser::new(b"+A\r\n$1\r\nB\r\n+");
    assert_eq!(p.parse_value(), Ok(simple("A")));
    assert_eq!(p.parse_value(), Ok(bulk("B")));
    assert_eq!(p.parse_value(), Err(DecodeError::Incomplete));
    assert_eq!(p.parse_value(), Err(DecodeError::Incomplete));
}

#[test]
fn clone_copies_nested_values() {
    let v = Value::Array(vec![simple("A"), Value::Array(vec![bulk("B")]), bulk("")]);
    let c = v.clone();
    assert_eq!(c, v);
    assert_eq!(resp_store::copy_value(&v), v);
}
