use respkv::resp::{RespError, RespType};

fn bulk(s: &[u8]) -> RespType {
    RespType::BulkString(Some(s.to_vec()))
}

#[test]
fn serialize_simple_string() {
    let v = RespType::SimpleString(b"OK".to_vec());
    assert_eq!(v.serialize(), b"+OK\r\n".to_vec());
}

#[test]
fn serialize_error() {
    let v = RespType::Error(b"ERR boom".to_vec());
    assert_eq!(v.serialize(), b"-ERR boom\r\n".to_vec());
}

#[test]
fn serialize_integer() {
    assert_eq!(RespType::Integer(123).serialize(), b":123\r\n".to_vec());
    assert_eq!(RespType::Integer(-45).serialize(), b":-45\r\n".to_vec());
    assert_eq!(RespType::Integer(0).serialize(), b":0\r\n".to_vec());
    assert_eq!(
        RespType::Integer(i64::MIN).serialize(),
        b":-9223372036854775808\r\n".to_vec()
    );
}

#[test]
fn serialize_bulk_string() {
    assert_eq!(RespType::BulkString(None).serialize(), b"$-1\r\n".to_vec());
    assert_eq!(bulk(b"hello").serialize(), b"$5\r\nhello\r\n".to_vec());
    assert_eq!(bulk(b"").serialize(), b"$0\r\n\r\n".to_vec());
}

#[test]
fn serialize_array() {
    assert_eq!(RespType::Array(None).serialize(), b"*-1\r\n".to_vec());
    assert_eq!(
        RespType::Array(Some(vec![])).serialize(),
        b"*0\r\n".to_vec()
    );
    let v = RespType::Array(Some(vec![bulk(b"a"), RespType::Integer(1)]));
    assert_eq!(v.serialize(), b"*2\r\n$1\r\na\r\n:1\r\n".to_vec());
}

#[test]
fn parse_round_trip_each_variant() {
    let values = vec![
        RespType::SimpleString(b"PONG".to_vec()),
        RespType::Error(b"ERR x".to_vec()),
        RespType::Integer(-9001),
        RespType::BulkString(None),
        bulk(b"payload"),
        RespType::Array(None),
        RespType::Array(Some(vec![
            bulk(b"nested"),
            RespType::Array(Some(vec![RespType::Integer(7)])),
            RespType::BulkString(None),
        ])),
    ];
    for v in values {
        let bytes = v.serialize();
        let parsed = RespType::parse(&bytes).unwrap();
        let (got, consumed) = parsed.expect("complete frame must parse");
        assert_eq!(got, v);
        assert_eq!(consumed, bytes.len());
    }
}

#[test]
fn parse_incremental_never_consumes_early() {
    let v = RespType::Array(Some(vec![bulk(b"set"), bulk(b"k"), bulk(b"v")]));
    let bytes = v.serialize();
    for cut in 0..bytes.len() {
        let r = RespType::parse(&bytes[..cut]).unwrap();
        assert!(r.is_none(), "prefix of {} bytes must be incomplete", cut);
    }
    let (got, consumed) = RespType::parse(&bytes).unwrap().unwrap();
    assert_eq!(got, v);
    assert_eq!(consumed, bytes.len());
}

#[test]
fn parse_leaves_trailing_bytes() {
    let bytes = b"+a\r\n+b\r\n";
    let (got, consumed) = RespType::parse(bytes).unwrap().unwrap();
    assert_eq!(got, RespType::SimpleString(b"a".to_vec()));
    assert_eq!(consumed, 4);
    let (got2, consumed2) = RespType::parse(&bytes[consumed..]).unwrap().unwrap();
    assert_eq!(got2, RespType::SimpleString(b"b".to_vec()));
    assert_eq!(consumed2, 4);
}

#[test]
fn parse_bulk_with_embedded_crlf() {
    let bytes = b"$4\r\na\r\nb\r\n";
    let (got, consumed) = RespType::parse(bytes).unwrap().unwrap();
    assert_eq!(got, bulk(b"a\r\nb"));
    assert_eq!(consumed, bytes.len());
}

#[test]
fn parse_plain_text_line() {
    let (got, consumed) = RespType::parse(b"PING\r\n").unwrap().unwrap();
    assert_eq!(got, RespType::Array(Some(vec![bulk(b"PING")])));
    assert_eq!(consumed, 6);

    let (got, consumed) = RespType::parse(b"set  k\tv\r\n").unwrap().unwrap();
    assert_eq!(
        got,
        RespType::Array(Some(vec![bulk(b"set"), bulk(b"k"), bulk(b"v")]))
    );
    assert_eq!(consumed, 10);
}

#[test]
fn parse_blank_line_is_malformed() {
    assert_eq!(RespType::parse(b"  \r\n"), Err(RespError::InvalidData));
    assert_eq!(RespType::parse(b"\r\n"), Err(RespError::InvalidData));
}

#[test]
fn parse_bad_integer_is_malformed() {
    assert_eq!(RespType::parse(b":abc\r\n"), Err(RespError::InvalidData));
    assert_eq!(RespType::parse(b":\r\n"), Err(RespError::InvalidData));
    assert_eq!(
        RespType::parse(b":9223372036854775808\r\n"),
        Err(RespError::InvalidData)
    );
}

#[test]
fn parse_bad_lengths_are_malformed() {
    assert_eq!(RespType::parse(b"$x\r\n"), Err(RespError::InvalidData));
    assert_eq!(RespType::parse(b"$-5\r\n"), Err(RespError::InvalidData));
    assert_eq!(RespType::parse(b"*-3\r\n"), Err(RespError::InvalidData));
}

#[test]
fn parse_incomplete_buffers() {
    assert_eq!(RespType::parse(b""), Ok(None));
    assert_eq!(RespType::parse(b"+abc"), Ok(None));
    assert_eq!(RespType::parse(b"$5\r\nab"), Ok(None));
    assert_eq!(RespType::parse(b"*2\r\n:1\r\n"), Ok(None));
    assert_eq!(RespType::parse(b"no line break yet"), Ok(None));
}

#[test]
fn parse_null_sentinels() {
    assert_eq!(
        RespType::parse(b"$-1\r\n"),
        Ok(Some((RespType::BulkString(None), 5)))
    );
    assert_eq!(
        RespType::parse(b"*-1\r\n"),
        Ok(Some((RespType::Array(None), 5)))
    );
}

#[test]
fn parse_rejects_invalid_text() {
    // a bulk payload that is not valid UTF-8 is a surfaced decode error
    assert_eq!(RespType::parse(b"$1\r\n\xFF\r\n"), Err(RespError::InvalidUtf8));
    // a truncated multi-byte sequence inside the payload likewise
    assert_eq!(RespType::parse(b"$1\r\n\xC3\r\n"), Err(RespError::InvalidUtf8));
    // status and error lines are text too
    assert_eq!(RespType::parse(b"+\xFF\r\n"), Err(RespError::InvalidUtf8));
    assert_eq!(RespType::parse(b"-\xC0\xAF\r\n"), Err(RespError::InvalidUtf8));
    // and so is a plain-text line
    assert_eq!(RespType::parse(b"\xFFcmd\r\n"), Err(RespError::InvalidUtf8));
    // a UTF-16 surrogate encoded as UTF-8 is invalid
    assert_eq!(RespType::parse(b"$3\r\n\xED\xA0\x80\r\n"), Err(RespError::InvalidUtf8));
}

#[test]
fn parse_accepts_multibyte_text() {
    let (got, consumed) = RespType::parse(b"+caf\xC3\xA9\r\n").unwrap().unwrap();
    assert_eq!(got, RespType::SimpleString(b"caf\xC3\xA9".to_vec()));
    assert_eq!(consumed, 8);
    let v = bulk("déjà vu".as_bytes());
    let bytes = v.serialize();
    let (got, consumed) = RespType::parse(&bytes).unwrap().unwrap();
    assert_eq!(got, v);
    assert_eq!(consumed, bytes.len());
}

#[test]
fn find_crlf_positions() {
    assert_eq!(respkv::resp::find_crlf(b"ab\r\ncd\r\n"), Some(2));
    assert_eq!(respkv::resp::find_crlf(b"\r\n"), Some(0));
    assert_eq!(respkv::resp::find_crlf(b"abc"), None);
    assert_eq!(respkv::resp::find_crlf(b"a\rb\nc"), None);
}
