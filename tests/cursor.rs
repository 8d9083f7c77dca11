use framed_codec::wire::{BYTE_DELIMITER, MAP_DELIMITER, SEQ_DELIMITER, STRING_DELIMITER};
use framed_codec::{
    CustomDeserializer, Error, IntKind, MinimalMapDeserializer, MinimalSequenceDeserializer, Shape,
    Value,
};

#[test]
fn peek_and_eat() {
    let data = [1u8, 2, 3];
    let mut de = CustomDeserializer::new(&data);
    assert_eq!(de.peek_byte(), Ok(1));
    assert_eq!(de.eat_byte(), Ok(1));
    assert_eq!(de.remaining(), 2);
    assert_eq!(de.eat_bytes(3).err(), Some(Error::EndOfInput));
    assert_eq!(de.eat_bytes(2).unwrap(), &[2, 3]);
    assert_eq!(de.peek_byte(), Err(Error::EndOfInput));
    assert_eq!(de.eat_byte(), Err(Error::EndOfInput));
}

#[test]
fn unsigned_and_signed_widths() {
    let data = [0xFEu8, 0xFF, 0x01, 0, 0, 0, 0, 0, 0, 0x80];
    let mut de = CustomDeserializer::new(&data);
    assert_eq!(de.parse_signed(2), Ok(-2));
    assert_eq!(de.parse_unsigned(8), Ok(0x8000_0000_0000_0001));
    let mut de = CustomDeserializer::new(&data);
    assert_eq!(de.parse_unsigned(3), Err(Error::InvalidTypeSize));
    assert_eq!(de.parse_unsigned(4), Ok(0x01FFFE));
    assert_eq!(de.parse_signed(8), Err(Error::EndOfInput));
    let neg = [0x00u8, 0, 0, 0, 0, 0, 0, 0x80];
    let mut de = CustomDeserializer::new(&neg);
    assert_eq!(de.parse_signed(8), Ok(i64::MIN));
}

#[test]
fn bool_and_char() {
    let data = [0u8, 9, 0x41, 0, 0, 0, 0xFF, 0xFF, 0xFF, 0xFF];
    let mut de = CustomDeserializer::new(&data);
    assert_eq!(de.parse_bool(), Ok(false));
    assert_eq!(de.parse_bool(), Ok(true));
    assert_eq!(de.parse_char(), Ok('A'));
    assert_eq!(de.parse_char(), Err(Error::InvalidCodePoint));
}

#[test]
fn str_and_bytes_payloads() {
    let data = [b'h', b'i', STRING_DELIMITER, 7, STRING_DELIMITER, BYTE_DELIMITER, 1];
    let mut de = CustomDeserializer::new(&data);
    let mut buf = Vec::new();
    assert_eq!(de.parse_str(&mut buf), Ok("hi".to_string()));
    assert_eq!(buf, vec![b'h', b'i']);
    let mut raw = Vec::new();
    assert_eq!(de.parse_bytes(&mut raw), Ok(()));
    assert_eq!(raw, vec![7, STRING_DELIMITER]);
    let mut rest = Vec::new();
    assert_eq!(de.parse_bytes(&mut rest), Err(Error::EndOfInput));
    let bad = [0xFFu8 - 1, 0xC3, STRING_DELIMITER];
    let mut de = CustomDeserializer::new(&bad[1..]);
    let mut buf = Vec::new();
    assert_eq!(de.parse_str(&mut buf), Err(Error::ConversionError));
}

#[test]
fn sequence_reader_steps() {
    let data = [1u8, framed_codec::wire::SEQ_VALUE_DELIMITER, 2, SEQ_DELIMITER];
    let mut de = CustomDeserializer::new(&data);
    let mut seq = MinimalSequenceDeserializer::new();
    let u8s = Shape::Int(IntKind::U8);
    let a = seq.next_element(&mut de, &u8s).unwrap().unwrap();
    let b = seq.next_element(&mut de, &u8s).unwrap().unwrap();
    assert_eq!(format!("{:?}", a), format!("{:?}", Value::U8(1)));
    assert_eq!(format!("{:?}", b), format!("{:?}", Value::U8(2)));
    assert!(seq.next_element(&mut de, &u8s).unwrap().is_none());
    assert_eq!(de.remaining(), 1);
}

#[test]
fn map_reader_steps() {
    let bytes = framed_codec::to_bytes(&Value::Mapping(vec![(Value::U8(4), Value::Bool(true))]));
    let mut de = CustomDeserializer::new(&bytes[1..]);
    let mut map = MinimalMapDeserializer::new();
    let k = map.next_key(&mut de, &Shape::Int(IntKind::U8)).unwrap().unwrap();
    let v = map.next_value(&mut de, &Shape::Bool).unwrap();
    assert_eq!(format!("{:?}", k), format!("{:?}", Value::U8(4)));
    assert_eq!(format!("{:?}", v), format!("{:?}", Value::Bool(true)));
    assert!(map.next_key(&mut de, &Shape::Int(IntKind::U8)).unwrap().is_none());
    assert_eq!(de.peek_byte(), Ok(MAP_DELIMITER));
}
