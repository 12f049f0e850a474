use bytes::Bytes;
use resp_core::decoders::v1::DataTypeFrom;
use resp_core::protocol::SafeRead;
use resp_core::decoders::v2::StreamDecoder;
use resp_core::protocol::{
    encode_bulk_string, encode_error, encode_integer, encode_null_string, encode_simple_string,
    DataType,
};

fn constructible_values() -> Vec<DataType> {
    vec![
        DataType::SimpleString {
            string: b"OK".to_vec(),
        },
        DataType::SimpleString {
            string: b"lone\rcarriage".to_vec(),
        },
        DataType::Error {
            type_: Vec::new(),
            error: b"boom".to_vec(),
        },
        DataType::Integer { number: 0 },
        DataType::Integer { number: -1 },
        DataType::Integer { number: isize::MAX },
        DataType::Integer { number: isize::MIN },
        DataType::BulkString {
            string: Vec::new(),
        },
        DataType::BulkString {
            string: b"binary\r\nsafe\0bytes".to_vec(),
        },
        DataType::NullBulkString,
        DataType::Array { items: vec![] },
        DataType::Array {
            items: vec![
                DataType::Integer { number: 7 },
                DataType::Array {
                    items: vec![DataType::NullBulkString],
                },
                DataType::BulkString {
                    string: b"x".to_vec(),
                },
            ],
        },
    ]
}

#[test]
fn decode_of_encode_is_identity_batch() {
    for value in constructible_values() {
        let encoded = value.encode();
        let mut data = Bytes::from(encoded.clone());
        let parsed = DataType::from_bytes(&mut data).unwrap();
        assert_eq!(parsed, value);
        assert_eq!(data.len(), 0, "decoding must consume the whole encoding");
        // and encoding the decoded value gives the same bytes again
        assert_eq!(parsed.encode(), encoded);
    }
}

#[test]
fn decode_of_encode_is_identity_streaming() {
    for value in constructible_values() {
        let encoded = value.encode();
        let mut decoder = StreamDecoder::new();
        decoder.feed(&encoded).unwrap();
        assert_eq!(decoder.pop_parsed(), Some(value));
        assert_eq!(decoder.pop_parsed(), None);
    }
}

#[test]
fn exact_wire_forms() {
    assert_eq!(
        encode_simple_string(&b"OK".to_vec()),
        b"+OK\r\n".to_vec()
    );
    assert_eq!(
        encode_error(&Vec::new(), &b"oops".to_vec()),
        b"-oops\r\n".to_vec()
    );
    assert_eq!(
        encode_error(&b"ERR".to_vec(), &b"unknown".to_vec()),
        b"-ERR unknown\r\n".to_vec()
    );
    assert_eq!(encode_integer(0), b":0\r\n".to_vec());
    assert_eq!(encode_integer(-120), b":-120\r\n".to_vec());
    assert_eq!(encode_integer(98301), b":98301\r\n".to_vec());
    assert_eq!(
        encode_bulk_string(&b"hello".to_vec()),
        b"$5\r\nhello\r\n".to_vec()
    );
    assert_eq!(encode_bulk_string(&Vec::new()), b"$0\r\n\r\n".to_vec());
    assert_eq!(encode_null_string(), b"$-1\r\n".to_vec());
    assert_eq!(
        DataType::Array {
            items: vec![
                DataType::Integer { number: 1 },
                DataType::Integer { number: 2 },
            ],
        }
        .encode(),
        b"*2\r\n:1\r\n:2\r\n".to_vec()
    );
}

#[test]
fn error_kind_merges_into_message_on_decode() {
    // an error with a non-empty kind encodes as "-kind message"; the
    // decoder keeps no kind of its own, so the text comes back merged
    let value = DataType::Error {
        type_: b"ERR".to_vec(),
        error: b"unknown".to_vec(),
    };
    let mut data = Bytes::from(value.encode());
    let parsed = DataType::from_bytes(&mut data).unwrap();
    assert_eq!(
        parsed,
        DataType::Error {
            type_: Vec::new(),
            error: b"ERR unknown".to_vec(),
        }
    );
}

#[test]
fn safe_read_yields_bytes_then_fails() {
    let mut b = Bytes::from(&b"ab"[..]);
    assert_eq!(b.get_u8_safe().unwrap(), b'a');
    assert_eq!(b.get_u8_safe().unwrap(), b'b');
    assert_eq!(b.get_u8_safe().unwrap_err().message(), "no bytes left");
}
