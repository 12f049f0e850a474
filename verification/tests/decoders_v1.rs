use bytes::Bytes;
use resp_core::decoders::v1::{parse_buffer, read_until_rn, DataTypeFrom, ScanError};
use resp_core::protocol::DataType;

#[test]
fn test_read_until_rn_basic() {
    let tests = &[
        "Some string",
        "Some string\nwith new\nlines",
        "with multiple \r\r",
    ];
    for test in tests {
        let expected = String::from(*test);
        let mut buf = Vec::new();
        let mut bytes = Bytes::from(format!("{}\r\n", expected));
        read_until_rn(&mut bytes, &mut buf).unwrap();
        assert_eq!(String::from_utf8(buf).unwrap(), expected);
    }
}

#[test]
fn test_read_until_rn_multiple_rn() {
    let data = String::from("Some string\r\nother string");
    let mut buf = Vec::new();
    let mut bytes = Bytes::from(format!("{}\r\n", data));
    read_until_rn(&mut bytes, &mut buf).unwrap();
    assert_eq!(String::from_utf8(buf).unwrap(), "Some string");
    assert_eq!(
        String::from_utf8(bytes.to_vec()).unwrap(),
        "other string\r\n"
    );
}

#[test]
fn test_read_until_rn_without_delim() {
    let expected = String::from("not finished");
    let mut buf = Vec::new();
    let mut bytes = Bytes::from(expected.clone());
    match read_until_rn(&mut bytes, &mut buf) {
        Err(e) => assert_eq!(e.message(), "no bytes left"),
        Ok(..) => assert!(false, "collect should fail"),
    };
    // input buffer was still consumed into the content buffer
    assert_eq!(String::from_utf8(buf).unwrap(), expected);
}

#[test]
fn v1_test_decode_simple_string() {
    let expected = String::from("some string");
    let orig = format!("+{expected}\r\n");
    let mut data = Bytes::from(orig.clone());
    let parsed = DataType::from_bytes(&mut data).unwrap();
    assert_eq!(
        parsed,
        DataType::SimpleString {
            string: expected.into_bytes()
        }
    );
    let encoded = DataType::encode(&parsed);
    assert_eq!(
        String::from_utf8(encoded).unwrap(),
        String::from(orig),
        "string encoded data differs from original data"
    );
}

#[test]
fn v1_test_decode_error() {
    let expected = String::from("some error");
    let orig = format!("-{expected}\r\n");
    let mut data = Bytes::from(orig.clone());
    let parsed = DataType::from_bytes(&mut data).unwrap();
    assert_eq!(
        parsed,
        DataType::Error {
            type_: Vec::new(),
            error: expected.into_bytes()
        }
    );
    let encoded = DataType::encode(&parsed);
    assert_eq!(
        String::from_utf8(encoded).unwrap(),
        String::from(orig),
        "string encoded data differs from original data"
    );
}

#[test]
fn v1_test_decode_integer() {
    let tests: &[isize] = &[204123, 0, -1, -2300123, -0];
    for expected in tests {
        let orig = format!(":{expected}\r\n");
        let mut data = Bytes::from(orig.clone());
        let parsed = DataType::from_bytes(&mut data).unwrap();
        assert_eq!(parsed, DataType::Integer { number: *expected });
        let encoded = DataType::encode(&parsed);
        assert_eq!(
            String::from_utf8(encoded).unwrap(),
            String::from(orig),
            "string encoded data differs from original data"
        );
    }
}

#[test]
fn v1_test_decode_bulk_string() {
    let tests = &["", "hello", "hello\r\nhello", "hello\nhello"];
    for test in tests {
        let expected = String::from(*test);
        let orig = format!("${}\r\n{}\r\n", expected.len(), expected);
        let mut data = Bytes::from(orig.clone());
        let parsed = DataType::from_bytes(&mut data).unwrap();
        assert_eq!(
            parsed,
            DataType::BulkString {
                string: String::from(*test).into_bytes()
            }
        );
        let encoded = DataType::encode(&parsed);
        assert_eq!(
            String::from_utf8(encoded).unwrap(),
            String::from(orig),
            "string encoded data differs from original data"
        );
    }
}

#[test]
fn v1_test_decode_null_bulk_string() {
    let orig = "$-1\r\n";
    let mut data = Bytes::from(orig);
    let parsed = DataType::from_bytes(&mut data).unwrap();
    assert_eq!(parsed, DataType::NullBulkString);
    let encoded = DataType::encode(&parsed);
    assert_eq!(
        String::from_utf8(encoded).unwrap(),
        String::from(orig),
        "string encoded data differs from original data"
    );
}

#[test]
fn v1_test_decode_array() {
    let orig = "*2\r\n*3\r\n:1\r\n:2\r\n:3\r\n*3\r\n+Hello\r\n-World\r\n$11\r\nHello\nWorld\r\n";
    let mut data = Bytes::from(orig);
    let parsed = DataType::from_bytes(&mut data).unwrap();
    assert_eq!(
        parsed,
        DataType::Array {
            items: vec![
                DataType::Array {
                    items: vec![
                        DataType::Integer { number: 1 },
                        DataType::Integer { number: 2 },
                        DataType::Integer { number: 3 },
                    ]
                },
                DataType::Array {
                    items: vec![
                        DataType::SimpleString {
                            string: String::from("Hello").into_bytes()
                        },
                        DataType::Error {
                            type_: Vec::new(),
                            error: String::from("World").into_bytes()
                        },
                        DataType::BulkString {
                            string: String::from("Hello\nWorld").into_bytes()
                        }
                    ]
                },
            ]
        }
    );

    let encoded = DataType::encode(&parsed);
    assert_eq!(
        String::from_utf8(encoded).unwrap(),
        String::from(orig),
        "array encoded data differs from original data"
    );
}

#[test]
fn v1_parse_buffer_takes_all_values_and_stops_at_padding() {
    // a fixed-size read buffer: two whole values, then zero padding
    let mut raw = b"+first\r\n:42\r\n".to_vec();
    raw.resize(64, 0);
    let mut data = Bytes::from(raw);
    let parsed = parse_buffer(&mut data).unwrap();
    assert_eq!(
        parsed,
        vec![
            DataType::SimpleString {
                string: b"first".to_vec()
            },
            DataType::Integer { number: 42 },
        ]
    );
}

#[test]
fn v1_error_variants() {
    // the zero padding tag: the quiet end of a chunk
    let mut data = Bytes::from(&b"\0\0"[..]);
    assert_eq!(
        DataType::from_bytes(&mut data),
        Err(ScanError::StreamEnded)
    );

    // a tag byte that names no kind
    let mut data = Bytes::from(&b"x"[..]);
    assert_eq!(
        DataType::from_bytes(&mut data),
        Err(ScanError::UnkownDataType('x'))
    );

    // exhaustion in the middle of a value
    let mut data = Bytes::from(&b"+abc"[..]);
    assert_eq!(
        DataType::from_bytes(&mut data),
        Err(ScanError::NoBytesLeft)
    );

    // a length below the null sentinel
    let mut data = Bytes::from(&b"$-2\r\n"[..]);
    assert_eq!(
        DataType::from_bytes(&mut data),
        Err(ScanError::InvalidBulkStringLength)
    );

    // a payload not closed by CRLF
    let mut data = Bytes::from(&b"$1\r\nab\r\n"[..]);
    assert_eq!(
        DataType::from_bytes(&mut data),
        Err(ScanError::InvalidStringTermination)
    );

    // a size field that is not a number
    let mut data = Bytes::from(&b":abc\r\n"[..]);
    assert_eq!(
        DataType::from_bytes(&mut data),
        Err(ScanError::InvalidInteger)
    );
}
