use cicada::serde_text::{Serializer, Deserializer, Error, ValueKind};

fn ser(f: impl Fn(&mut Serializer)) -> String {
    let mut s = Serializer::new();
    f(&mut s);
    s.output()
}

#[test]
fn ser_test_primitive() {
    let unit = ser(|s| s.serialize_unit());
    println!("- ser : {}", unit);
    assert_eq!(unit, "()");
    let int = ser(|s| s.serialize_i64(1234));
    println!("- ser : {}", int);
    assert_eq!(int, "1234");
    let float = ser(|s| s.serialize_float_text(&3.14f64.to_string()));
    println!("- ser : {}", float);
    assert_eq!(float, "3.14");
    let str1 = ser(|s| s.serialize_str("1234"));
    println!("- ser : {}", str1);
    assert_eq!(str1, "\"1234\"");
    let string = String::from("1234");
    let str2 = ser(|s| s.serialize_str(&string));
    println!("- ser : {}", str2);
    assert_eq!(str2, "\"1234\"");
}

#[test]
fn test_option() {
    let none = ser(|s| s.serialize_none());
    println!("- ser : {}", none);
    assert_eq!(none, "None");
    let some_int = ser(|s| {
        s.serialize_some_start();
        s.serialize_i64(1234);
        s.close_paren();
    });
    println!("- ser : {}", some_int);
    assert_eq!(some_int, "Some (1234)");
    let some_str = ser(|s| {
        s.serialize_some_start();
        s.serialize_str("1234");
        s.close_paren();
    });
    println!("- ser : {}", some_str);
    assert_eq!(some_str, "Some (\"1234\")");
    let string = String::from("1234");
    let some_string = ser(|s| {
        s.serialize_some_start();
        s.serialize_str(&string);
        s.close_paren();
    });
    println!("- ser : {}", some_string);
    assert_eq!(some_string, "Some (\"1234\")");
}

#[test]
fn ser_negative_and_extreme_numbers() {
    assert_eq!(ser(|s| s.serialize_i64(-42)), "-42");
    assert_eq!(ser(|s| s.serialize_i64(i64::MIN)), "-9223372036854775808");
    assert_eq!(ser(|s| s.serialize_u64(u64::MAX)), "18446744073709551615");
    assert_eq!(ser(|s| s.serialize_u64(0)), "0");
}

#[test]
fn ser_compound_values() {
    let seq = ser(|s| {
        s.serialize_seq_start();
        s.serialize_seq_element();
        s.serialize_u64(1);
        s.serialize_seq_element();
        s.serialize_u64(2);
        s.serialize_seq_end();
    });
    assert_eq!(seq, "[1, 2]");
    let st = ser(|s| {
        s.serialize_struct_start("Struct1");
        s.serialize_field("int");
        s.serialize_u64(1);
        s.serialize_field("seq");
        s.serialize_seq_start();
        s.serialize_seq_element();
        s.serialize_str("a");
        s.serialize_seq_end();
        s.serialize_map_end();
    });
    assert_eq!(st, "Struct1 { int: 1, seq: [\"a\"] }");
    let tuple = ser(|s| {
        s.serialize_newtype_variant_start("E", "Tuple");
        s.serialize_tuple_element();
        s.serialize_u64(1);
        s.serialize_tuple_element();
        s.serialize_u64(2);
        s.close_paren();
    });
    assert_eq!(tuple, "E::Tuple (1, 2)");
    assert_eq!(ser(|s| s.serialize_unit_variant("E", "Unit")), "E::Unit");
    assert_eq!(ser(|s| s.serialize_char('x')), "\"x\"");
    assert_eq!(ser(|s| s.serialize_bool(false)), "false");
}

#[test]
fn de_test_primitive() {
    let mut d = Deserializer::from_str("true");
    let t = d.parse_bool().unwrap();
    d.end().unwrap();
    println!("- de : {:?}", t);
    assert!(t);
    let mut d = Deserializer::from_str("false");
    let f = d.parse_bool().unwrap();
    d.end().unwrap();
    println!("- de : {:?}", f);
    assert!(!f);
    let mut d = Deserializer::from_str("()");
    let u = d.parse_unit().unwrap();
    d.end().unwrap();
    println!("- de : {:?}", u);
}

#[test]
fn de_errors() {
    let mut d = Deserializer::from_str("maybe");
    assert_eq!(d.parse_bool(), Err(Error::ExpectedBoolean));
    let mut d = Deserializer::from_str("");
    assert_eq!(d.next_char(), Err(Error::Eof));
    let mut d = Deserializer::from_str("x1");
    assert_eq!(d.parse_unsigned(), Err(Error::ExpectedInteger));
    let mut d = Deserializer::from_str("truex");
    assert_eq!(d.parse_bool(), Ok(true));
    assert_eq!(d.end(), Err(Error::TrailingCharacters));
    let mut d = Deserializer::from_str("1");
    assert_eq!(d.parse_unit(), Err(Error::ExpectedNull));
    let mut d = Deserializer::from_str("?");
    assert_eq!(d.any_kind(), Err(Error::Syntax));
}

#[test]
fn de_numbers_strings_and_sequences() {
    let mut d = Deserializer::from_str("1234,");
    assert_eq!(d.parse_unsigned(), Ok(1234));
    assert_eq!(d.peek_char(), Ok(','));
    let mut d = Deserializer::from_str("\"ab\"c");
    assert_eq!(d.parse_string(), Ok("ab"));
    assert_eq!(d.next_char(), Ok('c'));
    let mut d = Deserializer::from_str("\"ab");
    assert_eq!(d.parse_string(), Err(Error::Eof));
    let mut d = Deserializer::from_str("[1,2]");
    assert_eq!(d.any_kind(), Ok(ValueKind::Sequence));
    d.expect_char('[', Error::ExpectedArray).unwrap();
    assert_eq!(d.element_start(true, ']', Error::ExpectedArrayComma), Ok(true));
    assert_eq!(d.parse_unsigned(), Ok(1));
    assert_eq!(d.element_start(false, ']', Error::ExpectedArrayComma), Ok(true));
    assert_eq!(d.parse_unsigned(), Ok(2));
    assert_eq!(d.element_start(false, ']', Error::ExpectedArrayComma), Ok(false));
    d.expect_char(']', Error::ExpectedArrayEnd).unwrap();
    d.end().unwrap();
    let mut d = Deserializer::from_str("None");
    assert!(!d.parse_option());
    d.end().unwrap();
    let mut d = Deserializer::from_str("{\"Newtype\":1}");
    assert_eq!(d.enum_start(), Ok(false));
    assert_eq!(d.parse_string(), Ok("Newtype"));
    let mut d = Deserializer::from_str("\"Unit\"");
    assert_eq!(d.enum_start(), Ok(true));
}

#[test]
fn written_values_read_back() {
    for b in [true, false] {
        let text = ser(|s| s.serialize_bool(b));
        let mut d = Deserializer::from_str(&text);
        assert_eq!(d.parse_bool(), Ok(b));
        assert_eq!(d.end(), Ok(()));
    }
    for n in [0u64, 7, 1234, u64::MAX] {
        let text = ser(|s| s.serialize_u64(n));
        let mut d = Deserializer::from_str(&text);
        assert_eq!(d.parse_unsigned(), Ok(n));
        assert_eq!(d.end(), Ok(()));
    }
    let text = ser(|s| s.serialize_str("a b,c"));
    let mut d = Deserializer::from_str(&text);
    assert_eq!(d.parse_string(), Ok("a b,c"));
    assert_eq!(d.end(), Ok(()));
    let text = ser(|s| s.serialize_unit());
    let mut d = Deserializer::from_str(&text);
    assert_eq!(d.parse_unit(), Ok(()));
    let text = ser(|s| s.serialize_none());
    let mut d = Deserializer::from_str(&text);
    assert!(!d.parse_option());
    assert_eq!(d.end(), Ok(()));
}
