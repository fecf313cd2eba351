use crache::resp::{Resp, Value, Writer};
use crache::wire::DecodeError;

fn bulk(s: &str) -> Value {
    Value::BulkString(Some(s.as_bytes().to_vec()))
}

fn simple(s: &str) -> Value {
    Value::SimpleString(s.as_bytes().to_vec())
}

#[test]
fn test_read_array_empty() {
    let input = b"*0\r\n".to_vec();
    let mut resp = Resp::from_bytes(input);

    let result = resp.read();
    assert!(result.is_ok());
    let value = result.unwrap();
    assert_eq!(value, Value::Array(Some(vec![])));
}

#[test]
fn test_read_bulk_empty() {
    let input = b"$0\r\n\r\n".to_vec();
    let mut resp = Resp::from_bytes(input);

    let result = resp.read();
    assert!(result.is_ok());
    let value = result.unwrap();
    assert_eq!(value, Value::BulkString(Some(vec![])));
}

#[test]
fn test_unknown_type() {
    // An unsupported marker is malformed input, not a value.
    let input = b"?0\r\n".to_vec();
    let mut resp = Resp::from_bytes(input);

    let result = resp.read();
    assert_eq!(result, Err(DecodeError::Protocol));
    assert_eq!(resp.remaining(), 4);
}

#[test]
fn test_read_simple_string() {
    let input = b"+OK\r\n".to_vec();
    let mut resp = Resp::from_bytes(input);

    let result = resp.read();
    assert!(result.is_ok());
    let value = result.unwrap();
    assert_eq!(value, simple("OK"));
}

#[test]
fn test_read_integer() {
    let input = b":1000\r\n".to_vec();
    let mut resp = Resp::from_bytes(input);

    let result = resp.read();
    assert!(result.is_ok());
    let value = result.unwrap();
    assert_eq!(value, Value::Integer(1000));
}

#[test]
fn test_read_bulk_string() {
    let input = b"$5\r\nAhmed\r\n".to_vec();
    let mut resp = Resp::from_bytes(input);

    let result = resp.read();
    assert!(result.is_ok());
    let value = result.unwrap();
    assert_eq!(value, bulk("Ahmed"));
}

#[test]
fn test_read_bulk_string_with_spaces() {
    let input = b"$11\r\nHello World\r\n".to_vec();
    let mut resp = Resp::from_bytes(input);

    let result = resp.read();
    assert!(result.is_ok());
    let value = result.unwrap();
    assert_eq!(value, bulk("Hello World"));
}

#[test]
fn test_read_bulk_string_with_special_chars() {
    let input = b"$16\r\nTest@123!$%^&*()\r\n".to_vec();
    let mut resp = Resp::from_bytes(input);

    let result = resp.read();
    assert!(result.is_ok());
    let value = result.unwrap();
    assert_eq!(value, bulk("Test@123!$%^&*()"));
}

#[test]
fn test_read_array_with_mixed_types() {
    let input = b"*3\r\n+OK\r\n:1000\r\n$5\r\nAhmed\r\n".to_vec();
    let mut resp = Resp::from_bytes(input);

    let result = resp.read();
    assert!(result.is_ok());
    let value = result.unwrap();
    let items = match value {
        Value::Array(Some(items)) => items,
        other => panic!("not an array: {:?}", other),
    };
    assert_eq!(items.len(), 3);
    assert_eq!(items[0], simple("OK"));
    assert_eq!(items[1], Value::Integer(1000));
    assert_eq!(items[2], bulk("Ahmed"));
}

#[test]
fn test_read_nested_array() {
    let input = b"*2\r\n*2\r\n+Hello\r\n+World\r\n$5\r\nAhmed\r\n".to_vec();
    let mut resp = Resp::from_bytes(input);

    let result = resp.read();
    assert!(result.is_ok());
    let value = result.unwrap();
    let items = match value {
        Value::Array(Some(items)) => items,
        other => panic!("not an array: {:?}", other),
    };
    assert_eq!(items.len(), 2);

    let inner = match &items[0] {
        Value::Array(Some(inner)) => inner,
        other => panic!("not an array: {:?}", other),
    };
    assert_eq!(inner.len(), 2);
    assert_eq!(inner[0], simple("Hello"));
    assert_eq!(inner[1], simple("World"));

    assert_eq!(items[1], bulk("Ahmed"));
}

#[test]
fn test_read_command() {
    let input = b"*3\r\n$3\r\nSET\r\n$3\r\nkey\r\n$5\r\nvalue\r\n".to_vec();
    let mut resp = Resp::from_bytes(input);

    let result = resp.read();
    assert!(result.is_ok());
    let value = result.unwrap();
    let items = match value {
        Value::Array(Some(items)) => items,
        other => panic!("not an array: {:?}", other),
    };
    assert_eq!(items.len(), 3);
    assert_eq!(items[0], bulk("SET"));
    assert_eq!(items[1], bulk("key"));
    assert_eq!(items[2], bulk("value"));
}

#[test]
fn test_print_bulk_string() {
    let input = b"$5\r\nAhmed\r\n".to_vec();
    let mut resp = Resp::from_bytes(input);

    let result = resp.read();
    assert!(result.is_ok());
    let value = result.unwrap();
    assert_eq!(value.print(), b"Bulk: \"Ahmed\"");
}

#[test]
fn test_print_array() {
    let input = b"*2\r\n$5\r\nAhmed\r\n:123\r\n".to_vec();
    let mut resp = Resp::from_bytes(input);

    let result = resp.read();
    assert!(result.is_ok());
    let value = result.unwrap();
    assert_eq!(value.print(), b"Array: [Bulk: \"Ahmed\", Integer: 123]");
}

#[test]
fn test_marshal_string() {
    let value = simple("OK");
    let result = value.marshal();
    assert_eq!(result, b"+OK\r\n");
}

#[test]
fn test_marshal_error() {
    let value = Value::Error(b"Error message".to_vec());
    let result = value.marshal();
    assert_eq!(result, b"-Error message\r\n");
}

#[test]
fn test_marshal_integer() {
    let value = Value::Integer(42);
    let result = value.marshal();
    assert_eq!(result, b":42\r\n");
}

#[test]
fn test_marshal_bulk() {
    let value = bulk("Hello World");
    let result = value.marshal();
    assert_eq!(result, b"$11\r\nHello World\r\n");
}

#[test]
fn test_marshal_null() {
    let value = Value::BulkString(None);
    let result = value.marshal();
    assert_eq!(result, b"$-1\r\n");
}

#[test]
fn test_marshal_empty_array() {
    let value = Value::Array(Some(vec![]));
    let result = value.marshal();
    assert_eq!(result, b"*0\r\n");
}

#[test]
fn test_marshal_array_with_elements() {
    let value = Value::Array(Some(vec![simple("OK"), Value::Integer(1000), bulk("Ahmed")]));
    let result = value.marshal();
    assert_eq!(result, b"*3\r\n+OK\r\n:1000\r\n$5\r\nAhmed\r\n");
}

#[test]
fn test_marshal_nested_array() {
    let value = Value::Array(Some(vec![
        Value::Array(Some(vec![simple("Hello"), simple("World")])),
        bulk("Ahmed"),
    ]));
    let result = value.marshal();
    assert_eq!(result, b"*2\r\n*2\r\n+Hello\r\n+World\r\n$5\r\nAhmed\r\n");
}

#[test]
fn test_marshal_redis_command() {
    let value = Value::Array(Some(vec![bulk("SET"), bulk("key"), bulk("value")]));
    let result = value.marshal();
    assert_eq!(result, b"*3\r\n$3\r\nSET\r\n$3\r\nkey\r\n$5\r\nvalue\r\n");
}

#[test]
fn test_writer_writes_value() {
    let value = simple("OK");

    let buffer = Vec::new();
    let mut writer = Writer::new(buffer);

    writer.write(&value);
    assert_eq!(writer.writer, b"+OK\r\n");
}

#[test]
fn test_writer_writes_complex_value() {
    let value = Value::Array(Some(vec![
        simple("OK"),
        Value::Integer(42),
        bulk("Hello"),
        Value::BulkString(None),
    ]));

    let buffer = Vec::new();
    let mut writer = Writer::new(buffer);

    writer.write(&value);
    assert_eq!(writer.writer, b"*4\r\n+OK\r\n:42\r\n$5\r\nHello\r\n$-1\r\n");

    writer.write(&value);
    assert_eq!(
        writer.writer,
        b"*4\r\n+OK\r\n:42\r\n$5\r\nHello\r\n$-1\r\n*4\r\n+OK\r\n:42\r\n$5\r\nHello\r\n$-1\r\n"
    );
}
