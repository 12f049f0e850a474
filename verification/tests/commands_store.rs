use bytes::Bytes;
use resp_core::commands::{parse_command, Commands, ParseError};
use resp_core::db::{DBValue, Store};
use resp_core::decoders::v2::StreamDecoder;
use resp_core::protocol::DataType;

fn bulk(s: &str) -> DataType {
    DataType::BulkString {
        string: s.as_bytes().to_vec(),
    }
}

fn request(words: &[&str]) -> DataType {
    DataType::Array {
        items: words.iter().map(|w| bulk(w)).collect(),
    }
}

#[test]
fn parse_ping_command_echo_get() {
    assert!(matches!(
        parse_command(request(&["ping"])),
        Ok(Commands::PING)
    ));
    assert!(matches!(
        parse_command(request(&["Command"])),
        Ok(Commands::COMMAND)
    ));
    match parse_command(request(&["ECHO", "hey"])) {
        Ok(Commands::ECHO { message }) => assert_eq!(message, b"hey".to_vec()),
        other => panic!("unexpected: {:?}", other),
    }
    match parse_command(request(&["get", "k"])) {
        Ok(Commands::GET { key }) => assert_eq!(key, b"k".to_vec()),
        other => panic!("unexpected: {:?}", other),
    }
}

#[test]
fn parse_set_with_and_without_expiry() {
    match parse_command(request(&["set", "k", "v"])) {
        Ok(Commands::SET { key, value, expiry }) => {
            assert_eq!(key, b"k".to_vec());
            assert_eq!(value, Bytes::from(&b"v"[..]));
            assert_eq!(expiry, 0);
        }
        other => panic!("unexpected: {:?}", other),
    }
    match parse_command(request(&["SET", "k", "v", "px", "150"])) {
        Ok(Commands::SET { expiry, .. }) => assert_eq!(expiry, 150),
        other => panic!("unexpected: {:?}", other),
    }
}

#[test]
fn parse_command_error_variants() {
    assert!(matches!(
        parse_command(request(&[])),
        Err(ParseError::EmptyArray)
    ));
    match parse_command(request(&["FLUSH"])) {
        Err(ParseError::UnkownCommand(name)) => assert_eq!(name, b"FLUSH".to_vec()),
        other => panic!("unexpected: {:?}", other),
    }
    assert!(matches!(
        parse_command(DataType::Array {
            items: vec![DataType::Integer { number: 1 }],
        }),
        Err(ParseError::InvalidFirstAttribute)
    ));
    assert!(matches!(
        parse_command(DataType::Integer { number: 1 }),
        Err(ParseError::InvalidCommandDataType)
    ));
    assert!(matches!(
        parse_command(request(&["echo"])),
        Err(ParseError::BadArguments)
    ));
    assert!(matches!(
        parse_command(request(&["set", "k"])),
        Err(ParseError::BadArguments)
    ));
    assert!(matches!(
        parse_command(request(&["set", "k", "v", "px"])),
        Err(ParseError::BadArguments)
    ));
    assert!(matches!(
        parse_command(request(&["set", "k", "v", "px", "-3"])),
        Err(ParseError::BadArguments)
    ));
    match parse_command(request(&["set", "k", "v", "EX", "9"])) {
        Err(ParseError::UnsupportedOption(opt, cmd)) => {
            assert_eq!(opt, b"EX".to_vec());
            assert_eq!(cmd, b"SET".to_vec());
        }
        other => panic!("unexpected: {:?}", other),
    }
}

#[test]
fn execute_ping_command_echo() {
    let mut store = Store::new();
    let r = Commands::PING.execute(&mut store, 0);
    assert_eq!(
        r,
        DataType::SimpleString {
            string: b"PONG".to_vec()
        }
    );
    let r = Commands::COMMAND.execute(&mut store, 0);
    assert_eq!(
        r,
        DataType::SimpleString {
            string: Vec::new()
        }
    );
    let r = Commands::ECHO {
        message: b"hi".to_vec(),
    }
    .execute(&mut store, 0);
    assert_eq!(r, bulk("hi"));
}

#[test]
fn execute_get_missing_key_is_null() {
    let mut store = Store::new();
    let r = Commands::GET {
        key: b"nope".to_vec(),
    }
    .execute(&mut store, 12345);
    assert_eq!(r, DataType::NullBulkString);
}

#[test]
fn expiry_semantics() {
    // a key written without PX never reports expired, however late the read
    let mut store = Store::new();
    let set = Commands::SET {
        key: b"k".to_vec(),
        value: Bytes::from(&b"v"[..]),
        expiry: 0,
    };
    set.execute(&mut store, 1_000);
    let get = Commands::GET {
        key: b"k".to_vec(),
    };
    assert_eq!(get.execute(&mut store, usize::MAX), bulk("v"));

    // a key written with PX 50 reads back before the deadline and not after
    let mut store = Store::new();
    let set = Commands::SET {
        key: b"k".to_vec(),
        value: Bytes::from(&b"v"[..]),
        expiry: 50,
    };
    set.execute(&mut store, 1_000);
    assert_eq!(get.execute(&mut store, 1_049), bulk("v"));
    assert_eq!(get.execute(&mut store, 1_050), DataType::NullBulkString);
    assert_eq!(get.execute(&mut store, 2_000), DataType::NullBulkString);
}

#[test]
fn set_previous_value_semantics() {
    // an unexpired previous entry comes back from the second SET
    let mut store = Store::new();
    Commands::SET {
        key: b"k".to_vec(),
        value: Bytes::from(&b"v1"[..]),
        expiry: 0,
    }
    .execute(&mut store, 100);
    let r = Commands::SET {
        key: b"k".to_vec(),
        value: Bytes::from(&b"v2"[..]),
        expiry: 0,
    }
    .execute(&mut store, 200);
    assert_eq!(r, bulk("v1"));

    // an expired previous entry is not reported: the reply is plain OK
    let mut store = Store::new();
    Commands::SET {
        key: b"k".to_vec(),
        value: Bytes::from(&b"v1"[..]),
        expiry: 1,
    }
    .execute(&mut store, 100);
    let r = Commands::SET {
        key: b"k".to_vec(),
        value: Bytes::from(&b"v2"[..]),
        expiry: 0,
    }
    .execute(&mut store, 150);
    assert_eq!(
        r,
        DataType::SimpleString {
            string: b"OK".to_vec()
        }
    );
}

#[test]
fn store_insert_returns_previous_entry() {
    let mut store = Store::new();
    let first = DBValue::with_expiration(Bytes::from(&b"a"[..]), 0, 7);
    assert!(store.insert(b"key".to_vec(), first).is_none());
    let second = DBValue::with_expiration(Bytes::from(&b"b"[..]), 10, 7);
    let prev = store.insert(b"key".to_vec(), second).unwrap();
    assert_eq!(prev.value, Bytes::from(&b"a"[..]));
    assert_eq!(prev.expiration, 0);
    let current = store.get(&b"key".to_vec()).unwrap();
    assert_eq!(current.value, Bytes::from(&b"b"[..]));
    assert_eq!(current.expiration, 17);
    assert!(!current.is_expired(16));
    assert!(current.is_expired(17));
}

#[test]
fn end_to_end_set_then_get() {
    // two requests over one connection, byte for byte, in order
    let mut decoder = StreamDecoder::new();
    let mut store = Store::new();
    let mut responses: Vec<Vec<u8>> = Vec::new();
    let wire = b"*3\r\n$3\r\nSET\r\n$1\r\na\r\n$1\r\n1\r\n*2\r\n$3\r\nGET\r\n$1\r\na\r\n";
    decoder.feed(wire).unwrap();
    while let Some(value) = decoder.pop_parsed() {
        let cmd = parse_command(value).unwrap();
        let response = cmd.execute(&mut store, 5_000);
        responses.push(response.encode());
    }
    assert_eq!(responses.len(), 2);
    assert_eq!(responses[0], b"+OK\r\n".to_vec());
    assert_eq!(responses[1], b"$1\r\n1\r\n".to_vec());
}
