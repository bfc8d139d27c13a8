use redis_clone::resp::{ParseFrame, Resp, RespError};

#[test]
fn parses_ping_array() {
    // redis-cli ping sends this RESP array.
    let input = b"*1\r\n$4\r\nPING\r\n";

    // Parse raw RESP bytes into our Rust enum.
    let parsed = Resp::parse(input);

    assert_eq!(
        parsed,
        Ok(Resp::Array(vec![Resp::BulkString(b"PING".to_vec())]))
    );
}

#[test]
fn parses_set_array() {
    // redis-cli set name shady sends this RESP array.
    let input = b"*3\r\n$3\r\nSET\r\n$4\r\nname\r\n$5\r\nshady\r\n";

    // Parse raw bytes.
    let parsed = Resp::parse(input);

    assert_eq!(
        parsed,
        Ok(Resp::Array(vec![
            Resp::BulkString(b"SET".to_vec()),
            Resp::BulkString(b"name".to_vec()),
            Resp::BulkString(b"shady".to_vec()),
        ]))
    );
}

#[test]
fn parses_null_bulk_string() {
    // Redis null bulk string.
    let input = b"$-1\r\n";

    let parsed = Resp::parse(input);

    assert_eq!(parsed, Ok(Resp::Null));
}

#[test]
fn encodes_simple_string() {
    // PING response.
    let resp = Resp::SimpleString("PONG".to_string());

    assert_eq!(resp.encode(), b"+PONG\r\n".to_vec());
}

#[test]
fn encodes_error() {
    // Redis-style error response.
    let resp = Resp::Error("ERR unknown command".to_string());

    assert_eq!(resp.encode(), b"-ERR unknown command\r\n".to_vec());
}

#[test]
fn encodes_integer() {
    // Integer response used by DEL, EXISTS, INCR, DECR.
    let resp = Resp::Integer(1);

    assert_eq!(resp.encode(), b":1\r\n".to_vec());
}

#[test]
fn encodes_bulk_string() {
    // GET response for a string value.
    let resp = Resp::BulkString(b"shady".to_vec());

    assert_eq!(resp.encode(), b"$5\r\nshady\r\n".to_vec());
}

#[test]
fn encodes_null() {
    // GET response for a missing key.
    let resp = Resp::Null;

    assert_eq!(resp.encode(), b"$-1\r\n".to_vec());
}

#[test]
fn encodes_negative_and_extreme_integers() {
    assert_eq!(Resp::Integer(-1).encode(), b":-1\r\n".to_vec());
    assert_eq!(Resp::Integer(0).encode(), b":0\r\n".to_vec());
    assert_eq!(
        Resp::Integer(i64::MIN).encode(),
        b":-9223372036854775808\r\n".to_vec()
    );
    assert_eq!(
        Resp::Integer(i64::MAX).encode(),
        b":9223372036854775807\r\n".to_vec()
    );
}

#[test]
fn encodes_nested_array() {
    let resp = Resp::Array(vec![
        Resp::Integer(7),
        Resp::Array(vec![Resp::Null, Resp::SimpleString("OK".to_string())]),
        Resp::BulkString(Vec::new()),
    ]);
    assert_eq!(
        resp.encode(),
        b"*3\r\n:7\r\n*2\r\n$-1\r\n+OK\r\n$0\r\n\r\n".to_vec()
    );
}

#[test]
fn encode_then_parse_gives_back_the_value() {
    let values = vec![
        Resp::SimpleString("hello world".to_string()),
        Resp::Error("ERR bad".to_string()),
        Resp::Integer(-42),
        Resp::BulkString(b"bin\r\nary".to_vec()),
        Resp::Null,
        Resp::Array(vec![
            Resp::BulkString(b"SET".to_vec()),
            Resp::Array(Vec::new()),
            Resp::Integer(12345),
        ]),
    ];
    for value in values {
        let bytes = value.encode();
        assert_eq!(Resp::parse(&bytes), Ok(value));
    }
}

#[test]
fn parses_simple_string_error_and_integer() {
    assert_eq!(
        Resp::parse(b"+OK\r\n"),
        Ok(Resp::SimpleString("OK".to_string()))
    );
    assert_eq!(
        Resp::parse(b"-ERR no\r\n"),
        Ok(Resp::Error("ERR no".to_string()))
    );
    assert_eq!(Resp::parse(b":-12\r\n"), Ok(Resp::Integer(-12)));
    assert_eq!(Resp::parse(b"*-1\r\n"), Err(RespError::InvalidLength));
}

#[test]
fn parse_frame_reports_consumed_bytes_and_ignores_the_rest() {
    let input = b"*1\r\n$4\r\nPING\r\n*1\r\n$4\r\nPI";
    assert_eq!(
        Resp::parse_frame(input),
        Ok(ParseFrame::Complete {
            resp: Resp::Array(vec![Resp::BulkString(b"PING".to_vec())]),
            consumed: 14,
        })
    );
}

#[test]
fn parse_frame_waits_for_partial_input() {
    let whole = b"*2\r\n$4\r\nECHO\r\n$5\r\nhello\r\n";
    for cut in 0..whole.len() {
        assert_eq!(
            Resp::parse_frame(&whole[..cut]),
            Ok(ParseFrame::Incomplete),
            "prefix of length {cut}"
        );
    }
    assert_eq!(Resp::parse(&whole[..10]), Err(RespError::Incomplete));
}

#[test]
fn parse_errors_name_each_fault() {
    assert_eq!(Resp::parse(b"PING\r\n"), Err(RespError::UnknownType));
    assert_eq!(Resp::parse(b"+OK\n"), Err(RespError::InvalidLine));
    assert_eq!(Resp::parse(b"+O\rK\r\n"), Err(RespError::InvalidLine));
    assert_eq!(Resp::parse(b"+\xff\r\n"), Err(RespError::InvalidUtf8));
    assert_eq!(Resp::parse(b":+5\r\n"), Err(RespError::InvalidInteger));
    assert_eq!(Resp::parse(b":007\r\n"), Err(RespError::InvalidInteger));
    assert_eq!(
        Resp::parse(b":9223372036854775808\r\n"),
        Err(RespError::InvalidInteger)
    );
    assert_eq!(Resp::parse(b"$-2\r\n"), Err(RespError::InvalidLength));
    assert_eq!(Resp::parse(b"*x\r\n"), Err(RespError::InvalidLength));
    assert_eq!(Resp::parse(b"$3\r\nabcd\r\n"), Err(RespError::MissingCrlf));
    assert_eq!(Resp::parse(b":1\r\nextra"), Err(RespError::TrailingBytes));
    assert_eq!(Resp::parse(b""), Err(RespError::Incomplete));
}

#[test]
fn error_messages() {
    assert_eq!(
        RespError::UnknownType.message(),
        "Protocol error: invalid type byte".to_string()
    );
    assert_eq!(
        RespError::TrailingBytes.message(),
        "Protocol error: unexpected bytes after value".to_string()
    );
}

#[test]
fn clone_copies_every_item() {
    let value = Resp::Array(vec![
        Resp::SimpleString("a".to_string()),
        Resp::Array(vec![Resp::Integer(3), Resp::BulkString(b"xy".to_vec())]),
        Resp::Error("e".to_string()),
        Resp::Null,
    ]);
    let copy = value.clone();
    assert_eq!(copy, value);
    assert_eq!(copy.encode(), value.encode());
}
