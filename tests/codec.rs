use bytes::BytesMut;
use rustis::command::{decimal_text, encode_batch, encode_command};
use rustis::decoder::{decode, decode_error};
use rustis::{cmd, Error, RedisErrorKind, Value, ValueDecoder};

fn bulk(b: &[u8]) -> Value {
    Value::BulkString(Some(b.to_vec()))
}

/// Feeds `stream` to a decoder in pieces of `size` bytes, decoding after each.
fn feed_in_pieces(stream: &[u8], size: usize) -> (Vec<Value>, usize) {
    let mut buf = BytesMut::new();
    let mut decoder = ValueDecoder;
    let mut frames = Vec::new();
    for piece in stream.chunks(size) {
        buf.extend_from_slice(piece);
        while let Some(v) = decoder.decode(&mut buf).unwrap() {
            frames.push(v);
        }
    }
    (frames, buf.len())
}

#[test]
fn simple_string_consumes_its_bytes() {
    let mut buf = BytesMut::from("+OK\r\n");
    let v = ValueDecoder.decode(&mut buf).unwrap();
    assert_eq!(Some(Value::SimpleString("OK".to_owned())), v);
    assert_eq!(0, buf.len());

    let mut buf = BytesMut::from("+OK\r");
    assert_eq!(None, ValueDecoder.decode(&mut buf).unwrap());
    assert_eq!(4, buf.len());

    assert_eq!(
        Some((Value::SimpleString("OK".to_owned()), 5)),
        decode(b"+OK\r\n").unwrap()
    );
}

#[test]
fn decoder_leaves_the_next_frame_in_the_buffer() {
    let mut buf = BytesMut::from("+OK\r\n:1\r\n");
    assert_eq!(
        Some(Value::SimpleString("OK".to_owned())),
        ValueDecoder.decode(&mut buf).unwrap()
    );
    assert_eq!(&b":1\r\n"[..], &buf[..]);
    assert_eq!(Some(Value::Integer(1)), ValueDecoder.decode(&mut buf).unwrap());
    assert_eq!(0, buf.len());
}

#[test]
fn nested_array() {
    let v = decode(b"*2\r\n$5\r\nhello\r\n$5\r\nworld\r\n").unwrap();
    assert_eq!(
        Some((Value::Array(Some(vec![bulk(b"hello"), bulk(b"world")])), 26)),
        v
    );
    let v = decode(b"*2\r\n*1\r\n:1\r\n*0\r\n").unwrap();
    assert_eq!(
        Some((
            Value::Array(Some(vec![
                Value::Array(Some(vec![Value::Integer(1)])),
                Value::Array(Some(vec![]))
            ])),
            16
        )),
        v
    );
}

#[test]
fn null_bulk() {
    assert_eq!(
        Some((Value::BulkString(None), 5)),
        decode(b"$-1\r\n").unwrap()
    );
    assert_eq!(Some((bulk(b""), 6)), decode(b"$0\r\n\r\n").unwrap());
}

#[test]
fn fragmentation_independence() {
    let stream: &[u8] =
        b"+OK\r\n*2\r\n$5\r\nhello\r\n$5\r\nworld\r\n:42\r\n>2\r\n#t\r\n_\r\n-ERR bad thing\r\n";
    let (whole, left) = feed_in_pieces(stream, stream.len());
    assert_eq!(5, whole.len());
    assert_eq!(0, left);
    for size in 1..stream.len() {
        let (frames, left) = feed_in_pieces(stream, size);
        assert_eq!(whole, frames, "pieces of {size} bytes");
        assert_eq!(0, left);
    }
}

#[test]
fn strict_prefixes_need_more_bytes() {
    let frames: [&[u8]; 6] = [
        b"+OK\r\n",
        b":-12\r\n",
        b"$5\r\nhello\r\n",
        b"*2\r\n$1\r\na\r\n:2\r\n",
        b"%1\r\n+k\r\n+v\r\n",
        b",-1.5e3\r\n",
    ];
    for frame in frames {
        assert!(decode(frame).unwrap().is_some());
        for k in 0..frame.len() {
            let mut buf = BytesMut::from(&frame[..k]);
            assert_eq!(None, ValueDecoder.decode(&mut buf).unwrap(), "prefix {k}");
            assert_eq!(k, buf.len());
        }
    }
}

#[test]
fn malformed_bytes_give_the_position() {
    assert_eq!(Err(Error::Parse(0)), decode(b"?x\r\n"));
    assert_eq!(Err(Error::Parse(5)), decode(b"+abc\rx"));
    assert_eq!(Err(Error::Parse(1)), decode(b"$-2\r\n"));
    assert_eq!(Err(Error::Parse(1)), decode(b":1a\r\n"));
    assert_eq!(Err(Error::Parse(9)), decode(b"$5\r\nhelloXY"));
    assert_eq!(Err(Error::Parse(10)), decode(b"$5\r\nhello\rY"));
    assert_eq!(Err(Error::Parse(4)), decode(b"*1\r\n?\r\n"));
    let mut buf = BytesMut::from("?x\r\n");
    assert_eq!(Err(Error::Parse(0)), ValueDecoder.decode(&mut buf));
    assert_eq!(4, buf.len());
}

#[test]
fn integer_limits() {
    assert_eq!(
        Some((Value::Integer(i64::MAX), 22)),
        decode(b":9223372036854775807\r\n").unwrap()
    );
    assert_eq!(
        Some((Value::Integer(i64::MIN), 23)),
        decode(b":-9223372036854775808\r\n").unwrap()
    );
    assert!(decode(b":9223372036854775808\r\n").is_err());
    assert!(decode(b":-9223372036854775809\r\n").is_err());
    assert!(decode(b":123456789012345678901234567890\r\n").is_err());
    assert!(decode(b":-\r\n").is_err());
    assert!(decode(b":\r\n").is_err());
    assert!(decode(b":1-2\r\n").is_err());
}

#[test]
fn doubles() {
    for text in ["1", "-1.5e3", ".5", "1.", "+2E-7", "inf", "-Infinity", "NaN"] {
        let frame = format!(",{text}\r\n");
        assert_eq!(
            Some((Value::Double(text.to_owned()), frame.len())),
            decode(frame.as_bytes()).unwrap(),
            "{text}"
        );
        assert!(text.parse::<f64>().is_ok());
    }
    for text in ["", ".", "1e", "1.2.3", "e5", "--1", "infinit", "1e+"] {
        let frame = format!(",{text}\r\n");
        assert!(decode(frame.as_bytes()).is_err(), "{text}");
        assert!(text.parse::<f64>().is_err());
    }
}

#[test]
fn error_kinds() {
    let e = decode_error(b"WRONGTYPE Operation against a key");
    assert_eq!(RedisErrorKind::WrongType, e.kind);
    assert_eq!("Operation against a key", e.description);
    let e = decode_error(b"ERR");
    assert_eq!(RedisErrorKind::GenericErr, e.kind);
    assert_eq!("", e.description);
    let e = decode_error(b"CUSTOM thing");
    assert_eq!(RedisErrorKind::Other("CUSTOM".to_owned()), e.kind);
    assert_eq!("thing", e.description);
    let e = decode_error(b"MOVED 3999 127.0.0.1:6381");
    assert_eq!(RedisErrorKind::Moved, e.kind);
    assert_eq!("3999 127.0.0.1:6381", e.description);
    assert_eq!(RedisErrorKind::Oom, decode_error(b"OOM x").kind);
    assert_eq!(RedisErrorKind::Xx, decode_error(b"XX").kind);
}

#[test]
fn invalid_utf8_is_replaced() {
    assert_eq!(
        Some((Value::SimpleString("h\u{FFFD}i".to_owned()), 6)),
        decode(b"+h\xffi\r\n").unwrap()
    );
    assert_eq!(Some((bulk(b"\xff"), 7)), decode(b"$1\r\n\xff\r\n").unwrap());
}

#[test]
fn command_encoding() {
    let c = cmd("SET").arg(b"k").arg(b"v");
    assert_eq!(
        b"*3\r\n$3\r\nSET\r\n$1\r\nk\r\n$1\r\nv\r\n".to_vec(),
        encode_command(&c)
    );
    let bytes = encode_command(&cmd("GET").arg(b"key"));
    assert_eq!(
        Some((
            Value::Array(Some(vec![bulk(b"GET"), bulk(b"key")])),
            bytes.len()
        )),
        decode(&bytes).unwrap()
    );
    let long = vec![b'x'; 12];
    assert_eq!(
        b"*1\r\n$12\r\nxxxxxxxxxxxx\r\n".to_vec(),
        encode_command(&rustis::Command { parts: vec![long.clone()] })
    );
    let batch = vec![cmd("PING"), cmd("ECHO").arg(b"hi")];
    assert_eq!(
        b"*1\r\n$4\r\nPING\r\n*2\r\n$4\r\nECHO\r\n$2\r\nhi\r\n".to_vec(),
        encode_batch(&batch)
    );
    assert_eq!(b"0".to_vec(), decimal_text(0));
    assert_eq!(b"1234".to_vec(), decimal_text(1234));
    assert_eq!(b"18446744073709551615".to_vec(), decimal_text(u64::MAX));
}

#[test]
fn decode_available_in_pieces() {
    let stream: &[u8] = b"+OK\r\n*2\r\n:1\r\n:2\r\n$3\r\nabc\r\n";
    let mut decoder = ValueDecoder;
    for size in 1..=stream.len() {
        let mut buf = BytesMut::new();
        let mut frames = Vec::new();
        for piece in stream.chunks(size) {
            buf.extend_from_slice(piece);
            frames.extend(decoder.decode_available(&mut buf).unwrap());
        }
        assert_eq!(
            vec![
                Value::SimpleString("OK".to_owned()),
                Value::Array(Some(vec![Value::Integer(1), Value::Integer(2)])),
                bulk(b"abc")
            ],
            frames,
            "pieces of {size} bytes"
        );
        assert_eq!(0, buf.len());
    }
    let mut buf = BytesMut::from(":1\r\n:2\r\n:3");
    assert_eq!(vec![Value::Integer(1), Value::Integer(2)], decoder.decode_available(&mut buf).unwrap());
    assert_eq!(&b":3"[..], &buf[..]);
    let mut buf = BytesMut::from(":1\r\n?\r\n");
    // The first frame was taken out; the fault is at the front of what is left.
    assert_eq!(Err(Error::Parse(0)), decoder.decode_available(&mut buf));
    assert_eq!(&b"?\r\n"[..], &buf[..]);
}
