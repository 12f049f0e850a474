use resp_core::decoders::v2::{DecodeError, StreamDecoder};
use resp_core::protocol::DataType;

fn decode_one(orig: &str) -> DataType {
    let mut decoder = StreamDecoder::new();
    decoder.feed(orig.as_bytes()).unwrap();
    let item = decoder.pop_parsed().expect("should have parsed a value");
    assert_eq!(decoder.pop_parsed(), None);
    item
}

fn that_array() -> DataType {
    DataType::Array {
        items: vec![
            DataType::Array {
                items: vec![
                    DataType::Integer { number: 1 },
                    DataType::Integer { number: 2 },
                    DataType::Integer { number: 3 },
                ],
            },
            DataType::Array {
                items: vec![
                    DataType::SimpleString {
                        string: String::from("Hello").into_bytes(),
                    },
                    DataType::Error {
                        type_: Vec::new(),
                        error: String::from("World").into_bytes(),
                    },
                    DataType::BulkString {
                        string: String::from("Hello\nWorld").into_bytes(),
                    },
                ],
            },
        ],
    }
}

#[test]
fn v2_test_decode_simple_string() {
    let expected = String::from("some string");
    let orig = format!("+{expected}\r\n");
    assert_eq!(
        decode_one(&orig),
        DataType::SimpleString {
            string: expected.into_bytes()
        }
    );
}

#[test]
fn v2_test_decode_integer() {
    let tests: &[isize] = &[204123, 0, -1, -2300123, -0];
    for expected in tests {
        let orig = format!(":{expected}\r\n");
        assert_eq!(decode_one(&orig), DataType::Integer { number: *expected });
    }
}

#[test]
fn v2_test_decode_bulk_string() {
    let tests = &["", "hello", "hello\r\nhello", "hello\nhello"];
    for test in tests {
        let expected = String::from(*test);
        let orig = format!("${}\r\n{}\r\n", expected.len(), expected);
        assert_eq!(
            decode_one(&orig),
            DataType::BulkString {
                string: String::from(*test).into_bytes()
            }
        );
    }
}

#[test]
fn v2_test_decode_null_bulk_string() {
    let orig = "$-1\r\n";
    assert_eq!(decode_one(orig), DataType::NullBulkString);
}

#[test]
fn v2_test_decode_error() {
    let expected = String::from("some error");
    let orig = format!("-{expected}\r\n");
    assert_eq!(
        decode_one(&orig),
        DataType::Error {
            type_: Vec::new(),
            error: expected.into_bytes()
        }
    );
}

#[test]
fn v2_test_decode_array() {
    let orig =
        String::from("*2\r\n*3\r\n:1\r\n:2\r\n:3\r\n*3\r\n+Hello\r\n-World\r\n$11\r\nHello\nWorld\r\n");
    assert_eq!(decode_one(&orig), that_array());
}

#[test]
fn test_all() {
    let expected_err = String::from("some error");
    let expected_simple_string = String::from("hellohello");
    let expected_bulk_string = String::from("hello\nhello");
    let expected_int = -4231232;
    let orig = String::from(format!(
        "{}{}{}{}{}{}",
        "*2\r\n*3\r\n:1\r\n:2\r\n:3\r\n*3\r\n+Hello\r\n-World\r\n$11\r\nHello\nWorld\r\n",
        format!("-{expected_err}\r\n"),
        format!(
            "${}\r\n{}\r\n",
            expected_bulk_string.len(),
            expected_bulk_string
        ),
        format!(":{expected_int}\r\n"),
        format!("+{expected_simple_string}\r\n"),
        "$-1\r\n",
    ));
    let mut decoder = StreamDecoder::new();
    decoder.feed(orig.as_bytes()).unwrap();
    let mut values = Vec::new();
    while let Some(v) = decoder.pop_parsed() {
        values.push(v);
    }
    assert_eq!(
        values,
        vec![
            that_array(),
            DataType::Error {
                type_: Vec::new(),
                error: expected_err.into_bytes()
            },
            DataType::BulkString {
                string: expected_bulk_string.into_bytes()
            },
            DataType::Integer {
                number: expected_int
            },
            DataType::SimpleString {
                string: expected_simple_string.into_bytes()
            },
            DataType::NullBulkString,
        ]
    );
}

#[test]
fn v2_streaming_equivalence_byte_at_a_time() {
    // feeding one byte at a time must yield the very same values as one feed
    let orig = "*2\r\n*3\r\n:1\r\n:2\r\n:3\r\n*3\r\n+Hello\r\n-World\r\n$11\r\nHello\nWorld\r\n+x\r\n";
    let mut whole = StreamDecoder::new();
    whole.feed(orig.as_bytes()).unwrap();
    let mut stepped = StreamDecoder::new();
    for b in orig.as_bytes() {
        stepped.push_byte(*b).unwrap();
    }
    loop {
        let a = whole.pop_parsed();
        let b = stepped.pop_parsed();
        assert_eq!(a, b);
        if a.is_none() {
            break;
        }
    }
}

#[test]
fn v2_boundary_split_independence() {
    // splitting the input at every possible byte offset must not change
    // the parsed values
    let orig = b"*2\r\n$5\r\nhello\r\n:-42\r\n+ok\r\n";
    let mut reference = StreamDecoder::new();
    reference.feed(orig).unwrap();
    let mut expected = Vec::new();
    while let Some(v) = reference.pop_parsed() {
        expected.push(v);
    }
    for split in 0..=orig.len() {
        let mut decoder = StreamDecoder::new();
        decoder.feed(&orig[..split]).unwrap();
        decoder.feed(&orig[split..]).unwrap();
        let mut values = Vec::new();
        while let Some(v) = decoder.pop_parsed() {
            values.push(v);
        }
        assert_eq!(values, expected, "split at {split}");
    }
}

#[test]
fn v2_array_closure_bubbling_single_byte() {
    // the last byte of the innermost value closes three array levels at once
    let orig = b"*1\r\n*1\r\n*1\r\n:5\r\n";
    let mut decoder = StreamDecoder::new();
    decoder.feed(&orig[..orig.len() - 1]).unwrap();
    assert_eq!(decoder.pop_parsed(), None);
    decoder.push_byte(orig[orig.len() - 1]).unwrap();
    assert_eq!(
        decoder.pop_parsed(),
        Some(DataType::Array {
            items: vec![DataType::Array {
                items: vec![DataType::Array {
                    items: vec![DataType::Integer { number: 5 }],
                }],
            }],
        })
    );
    assert_eq!(decoder.pop_parsed(), None);
}

#[test]
fn v2_zero_count_array_completes_at_once() {
    let mut decoder = StreamDecoder::new();
    decoder.feed(b"*0\r\n+next\r\n").unwrap();
    assert_eq!(decoder.pop_parsed(), Some(DataType::Array { items: vec![] }));
    assert_eq!(
        decoder.pop_parsed(),
        Some(DataType::SimpleString {
            string: b"next".to_vec()
        })
    );
}

#[test]
fn v2_idle_bytes_are_skipped() {
    let mut decoder = StreamDecoder::new();
    decoder.feed(b"  \n:7\r\n").unwrap();
    assert_eq!(decoder.pop_parsed(), Some(DataType::Integer { number: 7 }));
}

#[test]
fn v2_null_bulk_string_distinct_and_reencodes() {
    let mut decoder = StreamDecoder::new();
    decoder.feed(b"$-1\r\n").unwrap();
    let parsed = decoder.pop_parsed().unwrap();
    assert_eq!(parsed, DataType::NullBulkString);
    assert_ne!(parsed, DataType::BulkString { string: Vec::new() });
    assert_eq!(parsed.encode(), b"$-1\r\n".to_vec());
}

#[test]
fn v2_error_variants() {
    let mut decoder = StreamDecoder::new();
    assert_eq!(decoder.feed(b":12x\r\n"), Err(DecodeError::InvalidInteger));

    let mut decoder = StreamDecoder::new();
    assert_eq!(
        decoder.feed(b"$-2\r\n"),
        Err(DecodeError::InvalidBulkStringLength)
    );

    let mut decoder = StreamDecoder::new();
    assert_eq!(
        decoder.feed(b"$1\r\nab\r\n"),
        Err(DecodeError::BadStringTermination)
    );

    let mut decoder = StreamDecoder::new();
    assert_eq!(decoder.feed(b"*-1\r\n"), Err(DecodeError::InvalidArraySize));
}

#[test]
fn v2_lone_cr_is_literal_content() {
    // a CR not followed by LF is ordinary scalar content
    let mut decoder = StreamDecoder::new();
    decoder.feed(b"+a\rb\r\n").unwrap();
    assert_eq!(
        decoder.pop_parsed(),
        Some(DataType::SimpleString {
            string: b"a\rb".to_vec()
        })
    );

    // a run of CRs before the closing LF: all but the last are content
    let mut decoder = StreamDecoder::new();
    decoder.feed(b"+a\r\r\r\n").unwrap();
    assert_eq!(
        decoder.pop_parsed(),
        Some(DataType::SimpleString {
            string: b"a\r\r".to_vec()
        })
    );
}
