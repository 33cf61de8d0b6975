use bencoded::{from_bytes, from_str, to_string, to_vec, to_vec_with, EncodeConfig, SerError, Shape, Value};

fn text(s: &str) -> Value {
    Value::Text(s.to_string())
}

fn sample() -> (Value, Shape) {
    let variants = vec![
        ("A".to_string(), None),
        ("N".to_string(), Some(Shape::Int)),
        ("R".to_string(), Some(Shape::Record(vec![("x".to_string(), Shape::UInt)]))),
    ];
    let shape = Shape::Record(vec![
        ("bytes".to_string(), Shape::Bytes),
        ("flag".to_string(), Shape::Bool),
        ("kind".to_string(), Shape::Enum(variants)),
        ("letter".to_string(), Shape::Char),
        (
            "more".to_string(),
            Shape::Dictionary(Box::new(Shape::Text), Box::new(Shape::List(Box::new(Shape::Int)))),
        ),
        ("name".to_string(), Shape::UnitStruct("Tag".to_string())),
        ("opt".to_string(), Shape::Optional(Box::new(Shape::UInt))),
        ("pair".to_string(), Shape::Tuple(vec![Shape::UInt, Shape::Text])),
        ("unit".to_string(), Shape::Unit),
    ]);
    let value = Value::Dict(vec![
        (text("bytes"), Value::Bytes(vec![0, 0xFF, b'e'])),
        (text("flag"), Value::Bool(true)),
        (
            text("kind"),
            Value::Variant(
                "R".to_string(),
                Some(Box::new(Value::Dict(vec![(text("x"), Value::UInt(u64::MAX))]))),
            ),
        ),
        (text("letter"), Value::Char('ß')),
        (
            text("more"),
            Value::Dict(vec![
                (text(""), Value::List(vec![])),
                (text("neg"), Value::List(vec![Value::Int(i64::MIN), Value::Int(-1)])),
            ]),
        ),
        (text("name"), text("Tag")),
        (text("opt"), Value::Present(Box::new(Value::UInt(0)))),
        (text("pair"), Value::List(vec![Value::UInt(7), text("seven")])),
        (text("unit"), Value::Unit),
    ]);
    (value, shape)
}

#[test]
fn round_trip_of_a_nested_record() {
    let (value, shape) = sample();
    let mut cfg = EncodeConfig::new();
    cfg.allow_bool = true;
    let bytes = to_vec_with(&value, &cfg).unwrap();
    assert_eq!(from_bytes(&bytes, &shape), Ok(value));
}

#[test]
fn round_trip_in_given_order() {
    let value = Value::Dict(vec![
        (text("z"), Value::Int(1)),
        (text("a"), Value::List(vec![Value::Variant("A".to_string(), None)])),
    ]);
    let shape = Shape::Record(vec![
        ("z".to_string(), Shape::Int),
        ("a".to_string(), Shape::List(Box::new(Shape::Enum(vec![("A".to_string(), None)])))),
    ]);
    let mut in_order = EncodeConfig::new();
    in_order.canonical = false;
    let bytes = to_vec_with(&value, &in_order).unwrap();
    assert_eq!(from_bytes(&bytes, &shape), Ok(value));
}

#[test]
fn canonical_output_ignores_insertion_order() {
    let entries = vec![
        (text("info"), Value::Dict(vec![(text("b"), Value::Int(2)), (text("a"), Value::Int(1))])),
        (text("announce"), text("http://tracker")),
        (Value::Bytes(vec![0x00]), Value::UInt(3)),
    ];
    let mut reversed = Vec::new();
    for i in (0..3).rev() {
        reversed.push(match i {
            0 => (text("info"), Value::Dict(vec![(text("a"), Value::Int(1)), (text("b"), Value::Int(2))])),
            1 => (text("announce"), text("http://tracker")),
            _ => (Value::Bytes(vec![0x00]), Value::UInt(3)),
        });
    }
    let one = to_vec(&Value::Dict(entries)).unwrap();
    let two = to_vec(&Value::Dict(reversed)).unwrap();
    assert_eq!(one, two);
    assert_eq!(one, b"d1:\x00i3e8:announce14:http://tracker4:infod1:ai1e1:bi2eee".to_vec());
}

#[test]
fn boundary_values() {
    assert_eq!(to_string(&Value::Bytes(vec![])).unwrap(), "0:");
    assert_eq!(from_str("0:", &Shape::Bytes), Ok(Value::Bytes(vec![])));
    let max = to_vec(&Value::UInt(u64::MAX)).unwrap();
    assert_eq!(max, b"i18446744073709551615e".to_vec());
    assert_eq!(from_bytes(&max, &Shape::UInt), Ok(Value::UInt(u64::MAX)));
    let min = to_vec(&Value::Int(i64::MIN)).unwrap();
    assert_eq!(min, b"i-9223372036854775808e".to_vec());
    assert_eq!(from_bytes(&min, &Shape::Int), Ok(Value::Int(i64::MIN)));
    assert!(from_str("i18446744073709551616e", &Shape::UInt).is_err());
    assert!(from_str("i-9223372036854775809e", &Shape::Int).is_err());
}

#[test]
fn non_string_keys_are_refused() {
    for key in [Value::Int(1), Value::UInt(1), Value::Unit, Value::Char('c'), Value::Bool(true)] {
        let map = Value::Dict(vec![(key, Value::Int(1))]);
        assert_eq!(to_vec(&map), Err(SerError::DictionaryKeyMustBeString));
    }
}

#[test]
fn a_later_non_string_key_is_refused() {
    let map = Value::Dict(vec![
        (text("a"), Value::Int(1)),
        (Value::Bytes(b"b".to_vec()), Value::Int(2)),
        (Value::Int(3), Value::Int(3)),
    ]);
    assert_eq!(to_vec(&map), Err(SerError::DictionaryKeyMustBeString));
}

#[test]
fn scenarios() {
    assert_eq!(from_str("i-1e", &Shape::Int), Ok(Value::Int(-1)));
    assert_eq!(
        from_str("li1ei2ei3ee", &Shape::List(Box::new(Shape::UInt))),
        Ok(Value::List(vec![Value::UInt(1), Value::UInt(2), Value::UInt(3)]))
    );
    assert_eq!(
        from_str("d1:ai1e1:bi2ee", &Shape::Dictionary(Box::new(Shape::Text), Box::new(Shape::Int))),
        Ok(Value::Dict(vec![(text("a"), Value::Int(1)), (text("b"), Value::Int(2))]))
    );
    let opt = Shape::Optional(Box::new(Shape::Int));
    assert_eq!(from_str("", &opt), Ok(Value::Absent));
    assert_eq!(from_str("i55e", &opt), Ok(Value::Present(Box::new(Value::Int(55)))));
    let ab = Shape::Enum(vec![("A".to_string(), None), ("B".to_string(), None)]);
    assert_eq!(from_str("1:A", &ab), Ok(Value::Variant("A".to_string(), None)));
    let n = Shape::Enum(vec![("N".to_string(), Some(Shape::Int))]);
    assert_eq!(
        from_str("d1:Ni1ee", &n),
        Ok(Value::Variant("N".to_string(), Some(Box::new(Value::Int(1)))))
    );
}
