use resp_store::{
    execute, execute_read, extract_string, get_command, handle_command, next_request, parse_command,
    Command, CommandError, Request, RequestError, Store, Value,
};

fn bulk(s: &str) -> Value {
    Value::BulkString(String::from(s))
}

fn args(items: &[&str]) -> Vec<Value> {
    items.iter().map(|s| bulk(s)).collect()
}

fn run(store: &mut Store, parts: &[&str], now: u128) -> Result<Vec<u8>, RequestError> {
    handle_command((String::from(parts[0]), args(&parts[1..])), store, now)
}

#[test]
fn test_get_command_get() {
    let data = Value::Array(vec![
        Value::BulkString(String::from("GET")),
        Value::BulkString(String::from("hey")),
    ]);
    assert_eq!(
        get_command(data),
        Ok((
            "GET".to_string(),
            vec![Value::BulkString(String::from("hey"))]
        ))
    );
}

#[test]
fn test_get_command_set() {
    let data = Value::Array(vec![
        Value::BulkString(String::from("SET")),
        Value::BulkString(String::from("hey")),
        Value::BulkString(String::from("value")),
    ]);
    assert_eq!(
        get_command(data),
        Ok((
            "SET".to_string(),
            vec![
                Value::BulkString(String::from("hey")),
                Value::BulkString(String::from("value"))
            ]
        ))
    );
}

#[test]
fn test_parse_command() {
    let data = Value::Array(vec![
        Value::BulkString(String::from("ECHO")),
        Value::BulkString(String::from("hey")),
    ]);
    assert_eq!(
        get_command(data),
        Ok((
            "ECHO".to_string(),
            vec![Value::BulkString(String::from("hey"))]
        ))
    );
}

#[test]
fn get_command_splits_set_with_value() {
    let data = Value::Array(vec![bulk("SET"), bulk("k"), bulk("v")]);
    assert_eq!(get_command(data), Ok(("SET".to_string(), vec![bulk("k"), bulk("v")])));
}

#[test]
fn get_command_rejects_other_shapes() {
    assert_eq!(get_command(bulk("PING")), Err(CommandError::NotAnArray));
    assert_eq!(get_command(Value::Array(vec![])), Err(CommandError::Empty));
    assert_eq!(
        get_command(Value::Array(vec![Value::Array(vec![]), bulk("x")])),
        Err(CommandError::NotAString)
    );
    assert_eq!(
        get_command(Value::Array(vec![bulk("ECHO"), Value::Array(vec![])])),
        Err(CommandError::NotAString)
    );
}

#[test]
fn extract_string_reads_both_string_kinds() {
    assert_eq!(extract_string(&bulk("a")), Some(String::from("a")));
    assert_eq!(extract_string(&Value::SimpleString(String::from("b"))), Some(String::from("b")));
    assert_eq!(extract_string(&Value::Array(vec![])), None);
}

#[test]
fn parse_command_ignores_case() {
    assert_eq!(parse_command(&String::from("pInG"), &vec![]), Ok(Command::Ping));
    assert_eq!(
        parse_command(&String::from("get"), &args(&["k"])),
        Ok(Command::Get { key: String::from("k") })
    );
}

#[test]
fn parse_command_reads_px() {
    assert_eq!(
        parse_command(&String::from("SET"), &args(&["k", "v", "px", "100"])),
        Ok(Command::SetValue { key: String::from("k"), value: String::from("v"), ttl_ms: Some(100) })
    );
    assert_eq!(
        parse_command(&String::from("SET"), &args(&["k", "v", "EX", "100"])),
        Ok(Command::SetValue { key: String::from("k"), value: String::from("v"), ttl_ms: None })
    );
    assert_eq!(
        parse_command(&String::from("SET"), &args(&["k", "v", "PX", "1x"])),
        Ok(Command::SetValue { key: String::from("k"), value: String::from("v"), ttl_ms: None })
    );
}

#[test]
fn argument_errors() {
    assert_eq!(parse_command(&String::from("SET"), &args(&["k"])), Err(RequestError::Argument));
    assert_eq!(parse_command(&String::from("GET"), &args(&[])), Err(RequestError::Argument));
    assert_eq!(parse_command(&String::from("ECHO"), &args(&[])), Err(RequestError::Argument));
    assert_eq!(parse_command(&String::from("PING"), &args(&["x"])), Err(RequestError::Argument));
    assert_eq!(
        parse_command(&String::from("GET"), &vec![Value::Array(vec![])]),
        Err(RequestError::Argument)
    );
}

#[test]
fn unknown_command_is_an_error_reply() {
    let mut store = Store::new();
    assert_eq!(run(&mut store, &["FLUSHALL"], 0), Err(RequestError::UnknownCommand));
    assert_eq!(RequestError::UnknownCommand.reply(), b"-ERR unknown command\r\n".to_vec());
    assert_eq!(RequestError::Protocol.reply(), b"-ERR protocol error\r\n".to_vec());
}

#[test]
fn ping_and_echo_replies() {
    let mut store = Store::new();
    assert_eq!(run(&mut store, &["PING"], 0), Ok(b"+PONG\r\n".to_vec()));
    assert_eq!(run(&mut store, &["ECHO", "hey"], 0), Ok(b"+hey\r\n".to_vec()));
    assert_eq!(run(&mut store, &["echo", "a", "bc", "d"], 0), Ok(b"+abcd\r\n".to_vec()));
}

#[test]
fn set_then_get_at_once() {
    let mut store = Store::new();
    assert_eq!(run(&mut store, &["SET", "k", "v"], 1000), Ok(b"+OK\r\n".to_vec()));
    assert_eq!(run(&mut store, &["GET", "k"], 1000), Ok(b"$1\r\nv\r\n".to_vec()));
    assert_eq!(run(&mut store, &["GET", "other"], 1000), Ok(b"$-1\r\n".to_vec()));
}

#[test]
fn zero_ttl_is_absent_later() {
    let mut store = Store::new();
    assert_eq!(run(&mut store, &["SET", "k", "v", "PX", "0"], 500), Ok(b"+OK\r\n".to_vec()));
    assert_eq!(run(&mut store, &["GET", "k"], 501), Ok(b"$-1\r\n".to_vec()));
}

#[test]
fn overwrite_keeps_last_value() {
    let mut store = Store::new();
    run(&mut store, &["SET", "k", "a"], 10).unwrap();
    run(&mut store, &["SET", "k", "b"], 10).unwrap();
    assert_eq!(run(&mut store, &["GET", "k"], 10), Ok(b"$1\r\nb\r\n".to_vec()));
}

#[test]
fn bulk_reply_counts_bytes() {
    let mut store = Store::new();
    run(&mut store, &["SET", "k", "héllo wörld"], 0).unwrap();
    assert_eq!(run(&mut store, &["GET", "k"], 0), Ok("$13\r\nhéllo wörld\r\n".as_bytes().to_vec()));
}

#[test]
fn reads_share_the_store() {
    let mut store = Store::new();
    run(&mut store, &["SET", "k", "v"], 0).unwrap();
    let get = Command::Get { key: String::from("k") };
    let first = execute_read(&get, &store, 5);
    let second = execute_read(&get, &store, 5);
    assert_eq!(first, Some(b"$1\r\nv\r\n".to_vec()));
    assert_eq!(first, second);
    let set = Command::SetValue { key: String::from("k"), value: String::from("w"), ttl_ms: None };
    assert_eq!(execute_read(&set, &store, 5), None);
    assert_eq!(execute(set, &mut store, 5), b"+OK\r\n".to_vec());
    assert_eq!(store.get(&String::from("k"), 5), Some(String::from("w")));
}

#[test]
fn ping_frame_gets_pong() {
    let mut store = Store::new();
    let frame = b"*1\r\n$4\r\nPING\r\n";
    match next_request(frame) {
        Request::Ready { command, consumed } => {
            assert_eq!(consumed, frame.len());
            assert_eq!(execute(command, &mut store, 0), b"+PONG\r\n".to_vec());
        }
        other => panic!("unexpected {:?}", other),
    }
}

#[test]
fn px_expiry_over_the_wire() {
    let mut store = Store::new();
    let set = b"*5\r\n$3\r\nSET\r\n$1\r\nk\r\n$1\r\nv\r\n$2\r\nPX\r\n$3\r\n100\r\n";
    match next_request(set) {
        Request::Ready { command, .. } => {
            assert_eq!(execute(command, &mut store, 1000), b"+OK\r\n".to_vec())
        }
        other => panic!("unexpected {:?}", other),
    }
    match next_request(b"*2\r\n$3\r\nGET\r\n$1\r\nk\r\n") {
        Request::Ready { command, .. } => {
            assert_eq!(execute_read(&command, &store, 1050), Some(b"$1\r\nv\r\n".to_vec()));
            assert_eq!(execute_read(&command, &store, 1150), Some(b"$-1\r\n".to_vec()));
        }
        other => panic!("unexpected {:?}", other),
    }
}

#[test]
fn next_request_waits_and_rejects() {
    assert_eq!(next_request(b"*1\r\n$4\r\nPI"), Request::NeedMore);
    assert_eq!(next_request(b"!"), Request::Reject { error: RequestError::Protocol });
    assert_eq!(
        next_request(b"+PING\r\n"),
        Request::Reject { error: RequestError::Command(CommandError::NotAnArray) }
    );
    assert_eq!(
        next_request(b"*1\r\n$4\r\nNOPE\r\n"),
        Request::Reject { error: RequestError::UnknownCommand }
    );
}

#[test]
fn px_amount_may_have_a_plus_sign() {
    assert_eq!(
        parse_command(&String::from("SET"), &args(&["k", "v", "PX", "+5"])),
        Ok(Command::SetValue { key: String::from("k"), value: String::from("v"), ttl_ms: Some(5) })
    );
    assert_eq!(
        parse_command(&String::from("SET"), &args(&["k", "v", "PX", "+"])),
        Ok(Command::SetValue { key: String::from("k"), value: String::from("v"), ttl_ms: None })
    );
    let mut store = Store::new();
    run(&mut store, &["SET", "k", "v", "PX", "+5"], 100).unwrap();
    assert_eq!(run(&mut store, &["GET", "k"], 104), Ok(b"$1\r\nv\r\n".to_vec()));
    assert_eq!(run(&mut store, &["GET", "k"], 105), Ok(b"$-1\r\n".to_vec()));
}

#[test]
fn set_with_non_string_argument_is_refused() {
    let mut store = Store::new();
    let bad = vec![bulk("k"), bulk("v"), Value::Array(vec![]), bulk("100")];
    assert_eq!(
        handle_command((String::from("SET"), bad), &mut store, 0),
        Err(RequestError::Argument)
    );
    let bad_amount = vec![bulk("k"), bulk("v"), bulk("PX"), Value::Array(vec![])];
    assert_eq!(parse_command(&String::from("SET"), &bad_amount), Err(RequestError::Argument));
    assert_eq!(store.get(&String::from("k"), 0), None);
}
