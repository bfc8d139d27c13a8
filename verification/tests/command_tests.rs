use redis_clone::command::Command;
use redis_clone::resp::Resp;
use redis_clone::store::Store;

fn bulk(text: &str) -> Resp {
    Resp::BulkString(text.as_bytes().to_vec())
}

fn command(parts: &[&str]) -> Command {
    Command::from_resp(Resp::Array(parts.iter().map(|p| bulk(p)).collect()))
}

#[test]
fn parses_ping_command() {
    // A Redis PING command is an array with one bulk string.
    let resp = Resp::Array(vec![Resp::BulkString(b"PING".to_vec())]);

    // Convert RESP into our typed command enum.
    let command = Command::from_resp(resp);

    assert_eq!(command, Command::Ping);
}

#[test]
fn parses_echo_command() {
    // ECHO has one argument.
    let resp = Resp::Array(vec![
        Resp::BulkString(b"ECHO".to_vec()),
        Resp::BulkString(b"hello".to_vec()),
    ]);

    let command = Command::from_resp(resp);

    assert_eq!(command, Command::Echo("hello".to_string()));
}

#[test]
fn parses_set_command() {
    // SET has key and value arguments.
    let resp = Resp::Array(vec![
        Resp::BulkString(b"SET".to_vec()),
        Resp::BulkString(b"name".to_vec()),
        Resp::BulkString(b"shady".to_vec()),
    ]);

    let command = Command::from_resp(resp);

    assert_eq!(
        command,
        Command::SetKey {
            key: "name".to_string(),
            value: "shady".to_string()
        }
    );
}

#[test]
fn unknown_command_returns_unknown() {
    // Unknown command names should not crash the parser.
    let resp = Resp::Array(vec![Resp::BulkString(b"NOPE".to_vec())]);

    let command = Command::from_resp(resp);

    assert_eq!(
        command,
        Command::Unknown("unknown command: NOPE".to_string())
    );
}

#[test]
fn execute_ping_returns_pong() {
    // Create a store even though PING does not use it.
    let mut store = Store::new();

    let response = Command::Ping.execute(&mut store, 0);

    assert_eq!(response, Resp::SimpleString("PONG".to_string()));
}

#[test]
fn execute_set_then_get_returns_value() {
    // Commands should share the same store.
    let mut store = Store::new();

    let set_response = Command::SetKey {
        key: "name".to_string(),
        value: "shady".to_string(),
    }
    .execute(&mut store, 0);

    assert_eq!(set_response, Resp::SimpleString("OK".to_string()));

    let get_response = Command::Get {
        key: "name".to_string(),
    }
    .execute(&mut store, 0);

    assert_eq!(get_response, Resp::BulkString(b"shady".to_vec()));
}

#[test]
fn execute_incr_returns_incremented_integer() {
    // INCR should mutate the store and return the new number.
    let mut store = Store::new();

    let first = Command::Incr {
        key: "count".to_string(),
    }
    .execute(&mut store, 0);

    let second = Command::Incr {
        key: "count".to_string(),
    }
    .execute(&mut store, 0);

    assert_eq!(first, Resp::Integer(1));
    assert_eq!(second, Resp::Integer(2));
}

#[test]
fn parses_expire_command() {
    let resp = Resp::Array(vec![
        Resp::BulkString(b"EXPIRE".to_vec()),
        Resp::BulkString(b"session".to_vec()),
        Resp::BulkString(b"3".to_vec()),
    ]);

    let command = Command::from_resp(resp);

    assert_eq!(
        command,
        Command::Expire {
            key: "session".to_string(),
            seconds: 3,
        }
    );
}

#[test]
fn parses_ttl_command() {
    let resp = Resp::Array(vec![
        Resp::BulkString(b"TTL".to_vec()),
        Resp::BulkString(b"session".to_vec()),
    ]);

    let command = Command::from_resp(resp);

    assert_eq!(
        command,
        Command::Ttl {
            key: "session".to_string(),
        }
    );
}

#[test]
fn command_names_are_case_insensitive() {
    assert_eq!(command(&["ping"]), Command::Ping);
    assert_eq!(
        command(&["gEt", "k"]),
        Command::Get {
            key: "k".to_string()
        }
    );
    assert_eq!(
        command(&["nope"]),
        Command::Unknown("unknown command: NOPE".to_string())
    );
}

#[test]
fn parses_every_command() {
    assert_eq!(command(&["PING", "extra"]), Command::Ping);
    assert_eq!(
        command(&["DEL", "a", "b"]),
        Command::Delete {
            keys: vec!["a".to_string(), "b".to_string()]
        }
    );
    assert_eq!(
        command(&["EXISTS", "a"]),
        Command::Exists {
            keys: vec!["a".to_string()]
        }
    );
    assert_eq!(
        command(&["INCR", "c"]),
        Command::Incr {
            key: "c".to_string()
        }
    );
    assert_eq!(
        command(&["DECR", "c"]),
        Command::Decr {
            key: "c".to_string()
        }
    );
    assert_eq!(
        command(&["EXPIRE", "s", "+007"]),
        Command::Expire {
            key: "s".to_string(),
            seconds: 7
        }
    );
}

#[test]
fn invalid_arguments_give_reasons() {
    let cases: Vec<(Resp, &str)> = vec![
        (Resp::Integer(1), "Expected command array"),
        (Resp::Array(Vec::new()), "empty command"),
        (Resp::Array(vec![Resp::Integer(1)]), "command must be a bulk string"),
        (
            Resp::Array(vec![Resp::BulkString(vec![0xff])]),
            "command must be a bulk string",
        ),
        (Resp::Array(vec![bulk("ECHO")]), "ECHO expects one argument"),
        (
            Resp::Array(vec![bulk("ECHO"), Resp::Null]),
            "ECHO argument must be a bulk string",
        ),
        (Resp::Array(vec![bulk("SET"), bulk("k")]), "SET expects key and value"),
        (
            Resp::Array(vec![bulk("SET"), Resp::Null, bulk("v")]),
            "SET key must be a bulk string",
        ),
        (
            Resp::Array(vec![bulk("SET"), bulk("k"), Resp::Null]),
            "SET value must be a bulk string",
        ),
        (Resp::Array(vec![bulk("GET")]), "GET expects key"),
        (
            Resp::Array(vec![bulk("GET"), Resp::Integer(3)]),
            "GET key must be a bulk string",
        ),
        (Resp::Array(vec![bulk("DEL")]), "DEL expects at least one key"),
        (
            Resp::Array(vec![bulk("DEL"), bulk("a"), Resp::Null]),
            "DEL key must be a bulk string",
        ),
        (Resp::Array(vec![bulk("EXISTS")]), "EXISTS expects at least one key"),
        (
            Resp::Array(vec![bulk("EXISTS"), Resp::Null]),
            "EXISTS key must be a bulk string",
        ),
        (Resp::Array(vec![bulk("INCR")]), "INCR expects key"),
        (
            Resp::Array(vec![bulk("INCR"), Resp::Null]),
            "INCR key must be a bulk string",
        ),
        (Resp::Array(vec![bulk("DECR")]), "DECR expects key"),
        (
            Resp::Array(vec![bulk("DECR"), Resp::Null]),
            "DECR key must be a bulk string",
        ),
        (
            Resp::Array(vec![bulk("EXPIRE"), bulk("k")]),
            "EXPIRE expects key and seconds",
        ),
        (
            Resp::Array(vec![bulk("EXPIRE"), Resp::Null, bulk("1")]),
            "EXPIRE key must be a bulk string",
        ),
        (
            Resp::Array(vec![bulk("EXPIRE"), bulk("k"), Resp::Null]),
            "EXPIRE seconds must be a bulk string",
        ),
        (
            Resp::Array(vec![bulk("EXPIRE"), bulk("k"), bulk("-1")]),
            "EXPIRE seconds must be an integer",
        ),
        (
            Resp::Array(vec![bulk("EXPIRE"), bulk("k"), bulk("18446744073709551616")]),
            "EXPIRE seconds must be an integer",
        ),
        (Resp::Array(vec![bulk("TTL")]), "TTL expects key"),
        (
            Resp::Array(vec![bulk("TTL"), Resp::Null]),
            "TTL key must be a bulk string",
        ),
    ];
    for (resp, reason) in cases {
        assert_eq!(Command::from_resp(resp), Command::Unknown(reason.to_string()));
    }
}

#[test]
fn execute_answers_every_command() {
    let mut store = Store::new();
    assert_eq!(
        command(&["ECHO", "hi"]).execute(&mut store, 0),
        Resp::BulkString(b"hi".to_vec())
    );
    assert_eq!(
        command(&["GET", "missing"]).execute(&mut store, 0),
        Resp::Null
    );
    command(&["SET", "a", "1"]).execute(&mut store, 0);
    command(&["SET", "b", "x"]).execute(&mut store, 0);
    assert_eq!(
        command(&["EXISTS", "a", "b", "c", "a"]).execute(&mut store, 0),
        Resp::Integer(3)
    );
    assert_eq!(
        command(&["DECR", "a"]).execute(&mut store, 0),
        Resp::Integer(0)
    );
    assert_eq!(
        command(&["INCR", "b"]).execute(&mut store, 0),
        Resp::Error("ERR value is not an integer or out of range".to_string())
    );
    assert_eq!(command(&["TTL", "a"]).execute(&mut store, 0), Resp::Integer(-1));
    assert_eq!(
        command(&["EXPIRE", "a", "3"]).execute(&mut store, 1000),
        Resp::Integer(1)
    );
    assert_eq!(command(&["TTL", "a"]).execute(&mut store, 1500), Resp::Integer(2));
    assert_eq!(
        command(&["GET", "a"]).execute(&mut store, 3999),
        Resp::BulkString(b"0".to_vec())
    );
    assert_eq!(command(&["GET", "a"]).execute(&mut store, 4000), Resp::Null);
    assert_eq!(command(&["TTL", "a"]).execute(&mut store, 4000), Resp::Integer(-2));
    assert_eq!(
        command(&["EXPIRE", "missing", "3"]).execute(&mut store, 0),
        Resp::Integer(0)
    );
    assert_eq!(
        command(&["DEL", "a", "b", "c", "b"]).execute(&mut store, 0),
        Resp::Integer(1)
    );
    assert_eq!(
        command(&["NOPE"]).execute(&mut store, 0),
        Resp::Error("ERR unknown command: NOPE".to_string())
    );
}

#[test]
fn upper_casing_the_name_bytes_keeps_the_command() {
    let names: Vec<&[u8]> = vec![
        b"ping",
        b"Get",
        b"p\xc3\xafng",
        b"\xffping",
        b"ex\xe2\x82\xacpire",
        b"",
    ];
    for name in names {
        let rest = vec![bulk("k"), bulk("v")];
        let mut items = vec![Resp::BulkString(name.to_vec())];
        items.extend(rest.iter().cloned());
        let mut upper_items = vec![Resp::BulkString(name.to_ascii_uppercase())];
        upper_items.extend(rest.iter().cloned());
        assert_eq!(
            Command::from_resp(Resp::Array(items)),
            Command::from_resp(Resp::Array(upper_items)),
            "name {:?}",
            name
        );
    }
    assert_eq!(
        Command::from_resp(Resp::Array(vec![Resp::BulkString(b"p\xc3\xafng".to_vec())])),
        Command::Unknown("unknown command: P\u{ef}NG".to_string())
    );
    assert_eq!(
        Command::from_resp(Resp::Array(vec![Resp::BulkString(b"\xffping".to_vec())])),
        Command::Unknown("command must be a bulk string".to_string())
    );
}
