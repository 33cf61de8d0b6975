use bencoded::{to_string, to_vec, to_vec_with, EncodeConfig, SerError, Value};

fn text(s: &str) -> Value {
    Value::Text(s.to_string())
}

fn abc_map(order: &[(&str, i64)]) -> Value {
    Value::Dict(order.iter().map(|(k, v)| (text(k), Value::Int(*v))).collect())
}

#[test]
fn numbers() {
    assert_eq!(to_string(&Value::Int(1)).unwrap(), "i1e");
    assert_eq!(to_string(&Value::Int(0)).unwrap(), "i0e");
    assert_eq!(to_string(&Value::Int(-1)).unwrap(), "i-1e");
    assert_eq!(to_string(&Value::UInt(u64::MAX)).unwrap(), "i18446744073709551615e");
    assert_eq!(to_string(&Value::Int(i64::MIN)).unwrap(), "i-9223372036854775808e");
}

fn with_bools() -> EncodeConfig {
    let mut cfg = EncodeConfig::new();
    cfg.allow_bool = true;
    cfg
}

#[test]
fn bools() {
    assert_eq!(to_vec_with(&Value::Bool(true), &with_bools()).unwrap(), b"i1e".to_vec());
    assert_eq!(to_vec_with(&Value::Bool(false), &with_bools()).unwrap(), b"i0e".to_vec());
    assert_eq!(to_string(&Value::Bool(true)), Err(SerError::BoolNotEnabled));
}

#[test]
fn strings() {
    assert_eq!(to_string(&text("abc")).unwrap(), "3:abc");
    assert_eq!(to_string(&text("")).unwrap(), "0:");
    let len = 1024 * 10;
    let very_long = std::iter::repeat('r').take(len).collect::<String>();
    assert_eq!(
        to_string(&Value::Text(very_long.clone())).unwrap(),
        format!("{}:{}", len, very_long)
    );
}

#[test]
fn bytes() {
    assert_eq!(to_string(&Value::Bytes(vec![b'a', b'b', b'c'])).unwrap(), "3:abc");
    assert_eq!(to_string(&Value::Bytes(vec![])).unwrap(), "0:");
    let len = 1024 * 10;
    let very_long = std::iter::repeat(b'r').take(len).collect::<Vec<u8>>();
    assert_eq!(
        to_string(&Value::Bytes(very_long.clone())).unwrap(),
        format!("{}:{}", len, std::str::from_utf8(very_long.as_slice()).unwrap())
    );
}

#[test]
fn ser_options() {
    assert_eq!(to_string(&Value::Present(Box::new(Value::Int(1)))).unwrap(), "i1e");
    let none = to_string(&Value::Absent);
    assert!(none.is_err());
    assert_eq!(none.unwrap_err(), SerError::NoneNotSupported);
}

#[test]
fn ser_unit() {
    assert_eq!(to_string(&Value::Unit).unwrap(), "0:");
}

#[test]
fn ser_unit_struct() {
    assert_eq!(to_string(&text("EmptyInside")).unwrap(), "11:EmptyInside");
}

#[test]
fn ser_newtype_struct() {
    assert_eq!(to_string(&Value::UInt(300)).unwrap(), format!("i300e"));
}

#[test]
fn ser_newtype_variant() {
    let n = Value::Variant("N".to_string(), Some(Box::new(Value::UInt(1))));
    assert_eq!(to_string(&n).unwrap(), "d1:Ni1ee");
    let s = Value::Variant("S".to_string(), Some(Box::new(text("buf"))));
    assert_eq!(to_string(&s).unwrap(), "d1:S3:bufe");
}

#[test]
fn sequence() {
    let ints = Value::List((1..=5).map(Value::Int).collect());
    assert_eq!(to_string(&ints).unwrap(), format!("li1ei2ei3ei4ei5ee"));
    let chars = Value::List(vec![Value::Char('a'), Value::Char('b'), Value::Char('c')]);
    assert_eq!(to_string(&chars).unwrap(), format!("l1:a1:b1:ce"));
}

#[test]
fn tuple() {
    let pair = Value::List(vec![text("one"), text("two")]);
    assert_eq!(to_string(&pair).unwrap(), "l3:one3:twoe");
    let tuple = Value::List(vec![text("one"), text("two")]);
    assert_eq!(to_string(&tuple).unwrap(), "l3:one3:twoe");
}

#[test]
fn tuple_struct() {
    let rgb = Value::List(vec![Value::UInt(255), Value::UInt(64), Value::UInt(64)]);
    assert_eq!(to_string(&rgb).unwrap(), "li255ei64ei64ee");
}

#[test]
fn map() {
    let map = abc_map(&[("a", 1), ("b", 2), ("c", 3)]);
    assert_eq!(to_string(&map).unwrap(), "d1:ai1e1:bi2e1:ci3ee");
    {
        let map2 = Value::Dict(vec![
            (Value::Int(1), Value::Int(2)),
            (Value::Int(2), Value::Int(3)),
            (Value::Int(3), Value::Int(4)),
        ]);
        assert!(to_string(&map2).is_err());
    }
    {
        let map = abc_map(&[("a", 1), ("c", 3), ("b", 2)]);
        assert_eq!(to_string(&map).unwrap(), "d1:ai1e1:bi2e1:ci3ee");
        let mut in_order = EncodeConfig::new();
        in_order.canonical = false;
        assert_eq!(to_vec_with(&map, &in_order).unwrap(), b"d1:ai1e1:ci3e1:bi2ee".to_vec());
    }
}

#[test]
fn map_of_options() {
    let map = Value::Dict(vec![
        (text("e"), Value::Absent),
        (text("d"), Value::Present(Box::new(Value::Int(8)))),
        (text("c"), Value::Absent),
        (text("b"), Value::Absent),
        (text("a"), Value::Present(Box::new(Value::Int(3)))),
    ]);
    let b = to_string(&map);
    assert!(b.is_err());
    assert_eq!(b.unwrap_err(), SerError::NoneNotSupported);
}

#[test]
fn struct_test() {
    let s = Value::Dict(vec![
        (text("unit"), Value::Unit),
        (text("list"), Value::List(vec![Value::UInt(9), Value::UInt(8), Value::UInt(7)])),
        (text("string"), text("hello")),
        (text("map"), abc_map(&[("a", 1), ("b", 2), ("c", 3)])),
    ]);
    assert_eq!(
        to_string(&s).unwrap(),
        "d4:listli9ei8ei7ee3:mapd1:ai1e1:bi2e1:ci3ee6:string5:hello4:unit0:e"
    );
    let mut in_order = EncodeConfig::new();
    in_order.canonical = false;
    assert_eq!(
        to_vec_with(&s, &in_order).unwrap(),
        b"d4:unit0:4:listli9ei8ei7ee6:string5:hello3:mapd1:ai1e1:bi2e1:ci3eee".to_vec()
    );
}

#[test]
fn each_encode_error_has_an_input() {
    let key = Value::Dict(vec![(Value::Char('k'), Value::Int(1))]);
    assert_eq!(to_vec(&key), Err(SerError::DictionaryKeyMustBeString));
    assert_eq!(to_vec(&Value::Bool(true)), Err(SerError::BoolNotEnabled));
    assert_eq!(to_vec(&Value::Absent), Err(SerError::NoneNotSupported));
    assert_eq!(to_string(&Value::Bytes(vec![0xFF])), Err(SerError::FromUtf8Error));
    assert_eq!(to_vec(&Value::Bytes(vec![0xFF])), Ok(b"1:\xFF".to_vec()));
}

#[test]
fn lenient_absent_values_write_nothing() {
    let mut lenient = EncodeConfig::new();
    lenient.none_is_error = false;
    assert_eq!(to_vec_with(&Value::Absent, &lenient), Ok(vec![]));
    let list = Value::List(vec![Value::Absent, Value::Int(2)]);
    assert_eq!(to_vec_with(&list, &lenient), Ok(b"li2ee".to_vec()));
}

#[test]
fn bytes_keys_are_allowed_and_sorted_by_raw_bytes() {
    let map = Value::Dict(vec![
        (Value::Bytes(vec![0xFF]), Value::Int(1)),
        (text("zz"), Value::Int(2)),
        (Value::Bytes(vec![b'a', b'b', b'c']), Value::Int(3)),
    ]);
    assert_eq!(to_vec(&map), Ok(b"d3:abci3e2:zzi2e1:\xFFi1ee".to_vec()));
}

#[test]
fn unit_variants_and_chars_are_byte_strings() {
    assert_eq!(to_string(&Value::Variant("A".to_string(), None)).unwrap(), "1:A");
    assert_eq!(to_string(&Value::Char('é')).unwrap(), "2:é");
    let tv = Value::Variant(
        "T".to_string(),
        Some(Box::new(Value::List(vec![Value::UInt(1), Value::UInt(2)]))),
    );
    assert_eq!(to_string(&tv).unwrap(), "d1:Tli1ei2eee");
}

#[test]
fn tuple_variant() {
    let t = Value::Variant(
        "T".to_string(),
        Some(Box::new(Value::List(vec![Value::UInt(1), Value::UInt(2)]))),
    );
    assert_eq!(to_string(&t).unwrap(), "d1:Tli1ei2eee");
}
