use bencoded::{from_bytes, from_bytes_auto, from_str, DeError, Shape, Value};

fn text(s: &str) -> Value {
    Value::Text(s.to_string())
}

fn list_of(s: Shape) -> Shape {
    Shape::List(Box::new(s))
}

#[test]
fn primitives() {
    assert_eq!(from_str("i1e", &Shape::Int), Ok(Value::Int(1)));
    assert_eq!(from_str("i-1e", &Shape::Int), Ok(Value::Int(-1)));
    assert_eq!(from_str("i0e", &Shape::UInt), Ok(Value::UInt(0)));
    assert_eq!(from_str("i1e", &Shape::UInt), Ok(Value::UInt(1)));
    assert_eq!(
        from_str(&format!("i{}e", u64::MAX), &Shape::UInt),
        Ok(Value::UInt(u64::MAX))
    );
    assert_eq!(
        from_str(&format!("i{}e", i64::MAX), &Shape::Int),
        Ok(Value::Int(i64::MAX))
    );
    assert_eq!(
        from_str(&format!("i{}e", i64::MIN), &Shape::Int),
        Ok(Value::Int(i64::MIN))
    );
    assert_eq!(from_str("i1e", &Shape::Bool), Ok(Value::Bool(true)));
    assert_eq!(from_str("i0e", &Shape::Bool), Ok(Value::Bool(false)));
    assert_eq!(from_str("i2e", &Shape::Bool).ok(), None);
    assert_eq!(from_str("i-1e", &Shape::Bool).ok(), None);
    assert_eq!(from_str("1:a", &Shape::Char), Ok(Value::Char('a')));
    assert_eq!(from_str("2:ab", &Shape::Char).ok(), None);
}

#[test]
fn byte_string() {
    assert_eq!(
        from_str("5:hello", &Shape::Bytes),
        Ok(Value::Bytes(b"hello".to_vec()))
    );
    assert_eq!(from_bytes(b"5:hello", &Shape::Bytes), Ok(Value::Bytes(b"hello".to_vec())));
    assert_eq!(from_str("5:hello", &Shape::Text), Ok(text("hello")));
    assert_eq!(from_bytes(b"5:hello", &Shape::Text), Ok(text("hello")));
}

#[test]
fn seq() {
    assert_eq!(
        from_str("li1ei2ei3ee", &list_of(Shape::UInt)),
        Ok(Value::List(vec![Value::UInt(1), Value::UInt(2), Value::UInt(3)]))
    );
    let abc = Value::List(vec![text("a"), text("b"), text("c")]);
    assert_eq!(from_str("l1:a1:b1:ce", &list_of(Shape::Text)), Ok(Value::List(vec![text("a"), text("b"), text("c")])));
    let three = Shape::Tuple(vec![Shape::Text, Shape::Text, Shape::Text]);
    assert_eq!(from_str("l1:a1:b1:ce", &three), Ok(abc));
    assert_eq!(
        from_str("l1:a1:b1:ce", &three),
        Ok(Value::List(vec![text("a"), text("b"), text("c")]))
    );
}

#[test]
fn dictionary() {
    let shape = Shape::Dictionary(Box::new(Shape::Text), Box::new(Shape::Int));
    let d = from_str("d1:ai1e1:bi2e1:ci3ee", &shape);
    assert_eq!(
        d,
        Ok(Value::Dict(vec![
            (text("a"), Value::Int(1)),
            (text("b"), Value::Int(2)),
            (text("c"), Value::Int(3)),
        ]))
    );
}

#[test]
fn de_options() {
    let shape = Shape::Optional(Box::new(Shape::Int));
    assert_eq!(from_str("", &shape), Ok(Value::Absent));
    assert_eq!(
        from_str("i55e", &shape),
        Ok(Value::Present(Box::new(Value::Int(55))))
    );
}

#[test]
fn de_unit() {
    assert_eq!(from_str(":0", &Shape::Unit), Ok(Value::Unit));
}

#[test]
fn de_unit_struct() {
    let shape = Shape::UnitStruct("EmptyInside".to_string());
    assert_eq!(from_str("11:EmptyInside", &shape), Ok(text("EmptyInside")));
}

fn enum_ab() -> Shape {
    Shape::Enum(vec![("A".to_string(), None), ("B".to_string(), None)])
}

#[test]
fn unit_variant() {
    assert_eq!(
        from_str("1:A", &enum_ab()),
        Ok(Value::Variant("A".to_string(), None))
    );
    assert_eq!(
        from_str("1:B", &enum_ab()),
        Ok(Value::Variant("B".to_string(), None))
    );
}

#[test]
fn de_newtype_struct() {
    assert_eq!(from_str("i100e", &Shape::UInt), Ok(Value::UInt(100)));
}

fn enum_ns() -> Shape {
    Shape::Enum(vec![
        ("N".to_string(), Some(Shape::UInt)),
        ("S".to_string(), Some(Shape::Text)),
    ])
}

#[test]
fn de_newtype_variant() {
    assert_eq!(
        from_str("d1:Ni1ee", &enum_ns()),
        Ok(Value::Variant("N".to_string(), Some(Box::new(Value::UInt(1)))))
    );
    assert_eq!(
        from_str("d1:S3:bufe", &enum_ns()),
        Ok(Value::Variant("S".to_string(), Some(Box::new(text("buf")))))
    );
}

#[test]
fn test_auto() {
    let input = b"d6:string4:12345:bytes4:\x01\x02\x03\xFFe";
    let de = from_bytes_auto(input, &Shape::Any);
    assert_eq!(
        de,
        Ok(Value::Dict(vec![
            (text("string"), text("1234")),
            (text("bytes"), Value::Bytes(vec![1, 2, 3, 0xFF])),
        ]))
    );
}

#[test]
fn untyped_strings_are_bytes_when_simple() {
    assert_eq!(
        from_bytes(b"l4:spami7ei-3ee", &Shape::Any),
        Ok(Value::List(vec![
            Value::Bytes(b"spam".to_vec()),
            Value::UInt(7),
            Value::Int(-3),
        ]))
    );
    assert_eq!(
        from_bytes_auto(b"l4:spame", &Shape::Any),
        Ok(Value::List(vec![text("spam")]))
    );
}

#[test]
fn record_fields_take_their_shapes() {
    let shape = Shape::Record(vec![
        ("name".to_string(), Shape::Text),
        ("size".to_string(), Shape::UInt),
    ]);
    assert_eq!(
        from_str("d4:sizei0e4:name1:xe", &shape),
        Ok(Value::Dict(vec![
            (text("size"), Value::UInt(0)),
            (text("name"), text("x")),
        ]))
    );
    assert_eq!(
        from_str("d5:extrai-2e4:name1:xe", &shape),
        Ok(Value::Dict(vec![
            (text("extra"), Value::Int(-2)),
            (text("name"), text("x")),
        ]))
    );
}

#[test]
fn tuple_needs_its_closing_e() {
    let pair = Shape::Tuple(vec![Shape::UInt, Shape::UInt]);
    assert_eq!(
        from_str("li1ei2ei3ee", &pair),
        Err(DeError::SyntaxError(b'i', Some(b'e')))
    );
}
