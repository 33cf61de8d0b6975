use bencoded::{from_bytes, from_bytes_with_depth, from_str, slice_while, DeError, Deserializer, Shape, Value};

#[test]
fn each_decode_error_has_an_input() {
    assert_eq!(from_str("i12", &Shape::Int), Err(DeError::UnexpectedEof));
    assert_eq!(from_str("5:abc", &Shape::Bytes), Err(DeError::UnexpectedEof));
    assert_eq!(from_str("i1ex", &Shape::Int), Err(DeError::SyntaxError(b'x', None)));
    assert_eq!(from_str("l1e", &Shape::Int), Err(DeError::SyntaxError(b'l', Some(b'i'))));
    assert_eq!(from_str("x", &Shape::Any), Err(DeError::SyntaxError(b'x', None)));
    assert_eq!(from_str("iabce", &Shape::Int), Err(DeError::ParseIntegerError));
    assert_eq!(from_str("i-1e", &Shape::UInt), Err(DeError::ParseIntegerError));
    assert_eq!(from_str("x:abc", &Shape::Bytes), Err(DeError::ParseIntegerError));
    assert_eq!(from_bytes(b"1:\xFF", &Shape::Text), Err(DeError::Utf8Error));
    assert_eq!(from_str("di1ei2ee", &Shape::Any), Err(DeError::ExpectedString));
    assert_eq!(
        from_str("i1e", &Shape::Enum(vec![("A".to_string(), None)])),
        Err(DeError::ExpectedDictionary)
    );
    let n = Shape::Enum(vec![("N".to_string(), Some(Shape::UInt))]);
    assert_eq!(from_str("d1:Ni1e1:Mi2ee", &n), Err(DeError::ExpectedEndOfDictionary));
    assert_eq!(from_str("1:N", &n), Err(DeError::ExpectedDictionary));
    assert_eq!(from_str("1:Z", &n), Err(DeError::UnknownVariant));
    let a = Shape::Enum(vec![("A".to_string(), None)]);
    assert_eq!(from_str("d1:Ai1ee", &a), Err(DeError::ExpectedString));
    assert_eq!(
        from_str("4:Unit", &Shape::UnitStruct("Other".to_string())),
        Err(DeError::ExpectedUnitStructName)
    );
    assert_eq!(from_str("1:1", &Shape::Bool), Err(DeError::ExpectedInteger));
    assert_eq!(from_str("5:hello", &Shape::Char), Err(DeError::ExpectedCharString));
    assert_eq!(from_str("0:", &Shape::Char), Err(DeError::ExpectedCharString));
    assert_eq!(from_str("i7e", &Shape::Bool), Err(DeError::ExpectedBoolean));
    assert_eq!(from_str("i1e", &Shape::Float), Err(DeError::FloatingPointNotSupported));
    assert_eq!(
        from_bytes_with_depth(b"lli1eee", &Shape::Any, false, 2),
        Err(DeError::DepthLimitExceeded)
    );
    assert_eq!(
        from_bytes_with_depth(b"lli1eee", &Shape::Any, false, 3),
        Ok(Value::List(vec![Value::List(vec![Value::UInt(1)])]))
    );
}

#[test]
fn a_multi_byte_char_is_read() {
    assert_eq!(from_str("2:é", &Shape::Char), Ok(Value::Char('é')));
}

#[test]
fn slice_while_stops_at_the_end_byte() {
    assert_eq!(slice_while(b"12:ab", b':'), Ok(&b"12"[..]));
    assert_eq!(slice_while(b":", b':'), Ok(&b""[..]));
    assert_eq!(slice_while(b"12", b':'), Err(DeError::UnexpectedEof));
}

#[test]
fn cursor_reads_forward() {
    let mut de = Deserializer::from_bytes(b"i-5e4:spamx");
    assert_eq!(de.peek_next(), Ok(b'i'));
    assert_eq!(de.peek_second(), Ok(b'-'));
    assert_eq!(de.advance(), Ok(b'i'));
    assert_eq!(de.advance_to(b'e'), Ok(&b"-5"[..]));
    assert_eq!(de.parse_byte_string(), Ok(&b"spam"[..]));
    assert!(!de.is_exhausted());
    assert_eq!(de.advance_by(2), Err(DeError::UnexpectedEof));
    assert_eq!(de.advance_by(1), Ok(&b"x"[..]));
    assert!(de.is_exhausted());
    assert_eq!(de.advance(), Err(DeError::UnexpectedEof));
    let mut de = Deserializer::from_bytes(b"xl");
    assert_eq!(de.decode_value(&Shape::Any, 4), Err(DeError::SyntaxError(b'x', None)));
    assert_eq!(de.peek_next(), Ok(b'x'));
    assert_eq!(de.decode_value(&Shape::Float, 4), Err(DeError::FloatingPointNotSupported));
    assert_eq!(de.advance_to(b'e'), Err(DeError::UnexpectedEof));
    assert_eq!(de.peek_next(), Ok(b'x'));
    let mut de = Deserializer::from_bytes(b"li1ei2e");
    assert_eq!(
        de.decode_value(&Shape::List(Box::new(Shape::Int)), 4),
        Err(DeError::UnexpectedEof)
    );
    assert_eq!(de.peek_next(), Ok(b'l'));
    let mut de = Deserializer::from_bytes(b"3x:ab");
    assert_eq!(de.parse_byte_string(), Err(DeError::ParseIntegerError));
    assert_eq!(de.peek_next(), Ok(b'3'));
    let mut de = Deserializer::from_str_auto("4:spam");
    assert_eq!(de.decode_value(&Shape::Any, 4), Ok(Value::Text("spam".to_string())));
}
