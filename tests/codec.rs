use framed_codec::wire::{
    BYTE_DELIMITER, ENUM_DELIMITER, MAP_DELIMITER, MAP_KEY_DELIMITER, MAP_VALUE_DELIMITER,
    MAP_VALUE_SEPARATOR, SEQ_DELIMITER, SEQ_VALUE_DELIMITER, STRING_DELIMITER, UNIT,
};
use framed_codec::{from_bytes, to_bytes, Error, IntKind, ListShape, Shape, Value};

fn dbg(v: &Value) -> String {
    format!("{:?}", v)
}

fn s(text: &str) -> Value {
    Value::Str(text.to_string())
}

fn person() -> Value {
    Value::Mapping(vec![(s("name"), s("Al")), (s("age"), Value::U8(3))])
}

fn person_shape() -> Shape {
    Shape::Mapping(
        Box::new(Shape::Str),
        ListShape::Fixed(vec![Shape::Str, Shape::Int(IntKind::U8)]),
    )
}

fn round_trips(v: &Value, sh: &Shape) {
    let bytes = to_bytes(v);
    let back = from_bytes(sh, &bytes).expect("decodes");
    assert_eq!(dbg(&back), dbg(v));
}

#[test]
fn struct_encodes_byte_for_byte() {
    let expected: Vec<u8> = vec![
        MAP_DELIMITER,
        MAP_KEY_DELIMITER,
        STRING_DELIMITER,
        b'n',
        b'a',
        b'm',
        b'e',
        STRING_DELIMITER,
        MAP_KEY_DELIMITER,
        MAP_VALUE_DELIMITER,
        STRING_DELIMITER,
        b'A',
        b'l',
        STRING_DELIMITER,
        MAP_VALUE_DELIMITER,
        MAP_VALUE_SEPARATOR,
        MAP_KEY_DELIMITER,
        STRING_DELIMITER,
        b'a',
        b'g',
        b'e',
        STRING_DELIMITER,
        MAP_KEY_DELIMITER,
        MAP_VALUE_DELIMITER,
        3,
        MAP_VALUE_DELIMITER,
        MAP_DELIMITER,
    ];
    assert_eq!(to_bytes(&person()), expected);
    round_trips(&person(), &person_shape());
}

#[test]
fn delimiters_are_distinct() {
    let all = [
        STRING_DELIMITER,
        BYTE_DELIMITER,
        UNIT,
        SEQ_DELIMITER,
        SEQ_VALUE_DELIMITER,
        MAP_DELIMITER,
        MAP_KEY_DELIMITER,
        MAP_VALUE_DELIMITER,
        MAP_VALUE_SEPARATOR,
        ENUM_DELIMITER,
    ];
    for i in 0..all.len() {
        for j in 0..all.len() {
            if i != j {
                assert_ne!(all[i], all[j]);
            }
        }
    }
}

#[test]
fn empty_sequence_and_map() {
    let seq = Value::Sequence(vec![]);
    assert_eq!(to_bytes(&seq), vec![SEQ_DELIMITER, SEQ_DELIMITER]);
    round_trips(&seq, &Shape::Sequence(ListShape::Repeat(Box::new(Shape::Bool))));
    let map = Value::Mapping(vec![]);
    assert_eq!(to_bytes(&map), vec![MAP_DELIMITER, MAP_DELIMITER]);
    round_trips(
        &map,
        &Shape::Mapping(Box::new(Shape::Str), ListShape::Repeat(Box::new(Shape::Bool))),
    );
}

#[test]
fn empty_string_and_bytes() {
    assert_eq!(to_bytes(&s("")), vec![STRING_DELIMITER, STRING_DELIMITER]);
    round_trips(&s(""), &Shape::Str);
    let b = Value::Bytes(vec![]);
    assert_eq!(to_bytes(&b), vec![BYTE_DELIMITER, BYTE_DELIMITER]);
    round_trips(&b, &Shape::Bytes);
}

#[test]
fn option_identity() {
    assert_eq!(to_bytes(&Value::Opt(None)), vec![UNIT]);
    let inner = s("hi");
    let present = Value::Opt(Some(Box::new(s("hi"))));
    assert_eq!(to_bytes(&present), to_bytes(&inner));
    let sh = Shape::Opt(Box::new(Shape::Str));
    round_trips(&present, &sh);
    round_trips(&Value::Opt(None), &sh);
    let absent = from_bytes(&sh, &[UNIT]).unwrap();
    assert_eq!(dbg(&absent), dbg(&Value::Opt(None)));
    let data = [UNIT, 1, 2];
    let mut de = framed_codec::CustomDeserializer::new(&data);
    let absent = framed_codec::deserializer::decode_value(&mut de, &sh).unwrap();
    assert_eq!(dbg(&absent), dbg(&Value::Opt(None)));
    assert_eq!(de.remaining(), 2);
}

#[test]
fn primitives_are_little_endian() {
    assert_eq!(to_bytes(&Value::U16(0x0102)), vec![2, 1]);
    assert_eq!(to_bytes(&Value::U32(0x01020304)), vec![4, 3, 2, 1]);
    assert_eq!(to_bytes(&Value::I16(-2)), vec![0xFE, 0xFF]);
    assert_eq!(to_bytes(&Value::I8(-1)), vec![0xFF]);
    assert_eq!(to_bytes(&Value::I64(-1)), vec![0xFF; 8]);
    assert_eq!(to_bytes(&Value::Bool(true)), vec![1]);
    assert_eq!(to_bytes(&Value::Bool(false)), vec![0]);
    assert_eq!(to_bytes(&Value::Char('A')), vec![0x41, 0, 0, 0]);
    assert_eq!(
        to_bytes(&Value::F64(1.5f64.to_bits())),
        1.5f64.to_le_bytes().to_vec()
    );
    assert_eq!(to_bytes(&Value::F32(0.25f32.to_bits())), 0.25f32.to_le_bytes().to_vec());
}

#[test]
fn primitives_round_trip() {
    round_trips(&Value::U64(u64::MAX), &Shape::Int(IntKind::U64));
    round_trips(&Value::I64(i64::MIN), &Shape::Int(IntKind::I64));
    round_trips(&Value::I32(-123456), &Shape::Int(IntKind::I32));
    round_trips(&Value::I16(i16::MIN), &Shape::Int(IntKind::I16));
    round_trips(&Value::I8(-128), &Shape::Int(IntKind::I8));
    round_trips(&Value::U32(7), &Shape::Int(IntKind::U32));
    round_trips(&Value::F32(0.5f32.to_bits()), &Shape::Int(IntKind::F32));
    round_trips(&Value::Char('é'), &Shape::Char);
    round_trips(&Value::Bool(true), &Shape::Bool);
    round_trips(&Value::Unit, &Shape::Unit);
    round_trips(&s("héllo"), &Shape::Str);
    round_trips(&Value::Bytes(vec![0, 1, 2, 0xFF]), &Shape::Bytes);
}

#[test]
fn any_nonzero_byte_is_true() {
    let v = from_bytes(&Shape::Bool, &[7]).unwrap();
    assert_eq!(dbg(&v), dbg(&Value::Bool(true)));
}

fn nested() -> (Value, Shape) {
    // A map from names to sequences of enum values, one of each variant kind.
    let variants = vec![
        None,
        Some(Shape::Int(IntKind::U16)),
        Some(Shape::Sequence(ListShape::Fixed(vec![Shape::Bool, Shape::Str]))),
        Some(person_shape()),
    ];
    let enum_shape = Shape::Enum(variants);
    let sh = Shape::Mapping(
        Box::new(Shape::Str),
        ListShape::Repeat(Box::new(Shape::Sequence(ListShape::Repeat(Box::new(enum_shape))))),
    );
    let v = Value::Mapping(vec![
        (
            s("first"),
            Value::Sequence(vec![
                Value::Enum(0, None),
                Value::Enum(1, Some(Box::new(Value::U16(500)))),
            ]),
        ),
        (
            s("second"),
            Value::Sequence(vec![
                Value::Enum(
                    2,
                    Some(Box::new(Value::Sequence(vec![Value::Bool(false), s("x")]))),
                ),
                Value::Enum(3, Some(Box::new(person()))),
            ]),
        ),
        (s("third"), Value::Sequence(vec![])),
    ]);
    (v, sh)
}

#[test]
fn nested_composites_round_trip() {
    let (v, sh) = nested();
    round_trips(&v, &sh);
}

#[test]
fn trailing_bytes_are_rejected() {
    let mut bytes = to_bytes(&Value::U16(9));
    bytes.push(42);
    assert_eq!(from_bytes(&Shape::Int(IntKind::U16), &bytes).err(), Some(Error::TrailingBytes));
    let mut de = framed_codec::CustomDeserializer::new(&bytes);
    let v = framed_codec::deserializer::decode_value(&mut de, &Shape::Int(IntKind::U16)).unwrap();
    assert_eq!(dbg(&v), dbg(&Value::U16(9)));
    assert_eq!(de.remaining(), 1);
}

#[test]
fn separator_turned_into_closing_delimiter_is_rejected() {
    let seq = Value::Sequence(vec![Value::U8(1), Value::U8(2)]);
    let sh = Shape::Sequence(ListShape::Repeat(Box::new(Shape::Int(IntKind::U8))));
    let mut b = to_bytes(&seq);
    assert_eq!(b, vec![SEQ_DELIMITER, 1, SEQ_VALUE_DELIMITER, 2, SEQ_DELIMITER]);
    b[2] = SEQ_DELIMITER;
    assert_eq!(from_bytes(&sh, &b).err(), Some(Error::TrailingBytes));
    let map = Value::Mapping(vec![(Value::U8(1), Value::Bool(true)), (Value::U8(2), Value::Bool(false))]);
    let msh = Shape::Mapping(
        Box::new(Shape::Int(IntKind::U8)),
        ListShape::Repeat(Box::new(Shape::Bool)),
    );
    let mut b = to_bytes(&map);
    let sep = b.iter().position(|x| *x == MAP_VALUE_SEPARATOR).unwrap();
    b[sep] = MAP_DELIMITER;
    assert_eq!(from_bytes(&msh, &b).err(), Some(Error::TrailingBytes));
    let mut b = to_bytes(&map);
    b[sep] = 0x20;
    assert_eq!(from_bytes(&msh, &b).err(), Some(Error::ExpectedMapValueSeparator));
}

#[test]
fn every_delimiter_corruption_of_a_record_fails() {
    let (v, sh) = nested();
    let bytes = to_bytes(&v);
    let delimiters = [
        STRING_DELIMITER,
        BYTE_DELIMITER,
        UNIT,
        SEQ_DELIMITER,
        SEQ_VALUE_DELIMITER,
        MAP_DELIMITER,
        MAP_KEY_DELIMITER,
        MAP_VALUE_DELIMITER,
        MAP_VALUE_SEPARATOR,
        ENUM_DELIMITER,
    ];
    for i in 0..bytes.len() {
        if !delimiters.contains(&bytes[i]) {
            continue;
        }
        for c in delimiters.iter().copied().chain([0x00u8, 0x20, 0x7F]) {
            if c == bytes[i] {
                continue;
            }
            let mut b = bytes.clone();
            b[i] = c;
            if let Ok(w) = from_bytes(&sh, &b) {
                panic!("byte {} set to {:#x} decoded to {:?}", i, c, w);
            }
        }
    }
}

#[test]
fn every_proper_prefix_fails_with_end_of_input() {
    let (v, sh) = nested();
    let bytes = to_bytes(&v);
    for j in 0..bytes.len() {
        let r = from_bytes(&sh, &bytes[..j]);
        assert_eq!(r.err(), Some(Error::EndOfInput), "prefix of length {}", j);
    }
    let pb = to_bytes(&person());
    for j in 0..pb.len() {
        assert_eq!(from_bytes(&person_shape(), &pb[..j]).err(), Some(Error::EndOfInput));
    }
}

#[test]
fn corrupted_delimiters_are_rejected() {
    let pb = to_bytes(&person());
    let cases: Vec<(usize, Error)> = vec![
        (0, Error::ExpectedMapDelimiter),
        (1, Error::ExpectedMapKeyDelimiter),
        (2, Error::ExpectedStringDelimiter),
        (8, Error::ExpectedMapKeyDelimiter),
        (9, Error::ExpectedMapValueDelimiter),
        (14, Error::ExpectedMapValueDelimiter),
        (15, Error::ExpectedMapValueSeparator),
        (26, Error::ExpectedMapDelimiter),
    ];
    for (at, err) in cases {
        let mut b = pb.clone();
        b[at] = 0x20;
        assert_eq!(from_bytes(&person_shape(), &b).err(), Some(err), "byte {}", at);
    }
    let seq = Value::Sequence(vec![Value::U8(1), Value::U8(2)]);
    let sh = Shape::Sequence(ListShape::Repeat(Box::new(Shape::Int(IntKind::U8))));
    let mut b = to_bytes(&seq);
    b[2] = 0x20;
    assert_eq!(from_bytes(&sh, &b).err(), Some(Error::ExpectedSeqValueDelimiter));
    let mut b = to_bytes(&seq);
    b[0] = 0x20;
    assert_eq!(from_bytes(&sh, &b).err(), Some(Error::ExpectedSeqDelimiter));
    let e = Value::Enum(0, None);
    let mut b = to_bytes(&e);
    b[0] = 0x20;
    assert_eq!(from_bytes(&Shape::Enum(vec![None]), &b).err(), Some(Error::ExpectedEnumDelimiter));
    assert_eq!(from_bytes(&Shape::Unit, &[0x20]).err(), Some(Error::ExpectedUnit));
    assert_eq!(from_bytes(&Shape::Bytes, &[0x20]).err(), Some(Error::ExpectedByteDelimiter));
}

#[test]
fn decode_errors() {
    assert_eq!(
        from_bytes(&Shape::Char, &[0x00, 0xD8, 0, 0]).err(),
        Some(Error::InvalidCodePoint)
    );
    assert_eq!(
        from_bytes(&Shape::Str, &[STRING_DELIMITER, 0xC3, STRING_DELIMITER]).err(),
        Some(Error::ConversionError)
    );
    let e = to_bytes(&Value::Enum(5, None));
    assert_eq!(from_bytes(&Shape::Enum(vec![None]), &e).err(), Some(Error::UnknownVariant));
    let short = to_bytes(&Value::Sequence(vec![Value::Bool(true)]));
    let pair = Shape::Sequence(ListShape::Fixed(vec![Shape::Bool, Shape::Bool]));
    assert_eq!(from_bytes(&pair, &short).err(), Some(Error::LengthMismatch));
    let long = to_bytes(&Value::Sequence(vec![Value::Bool(true), Value::Bool(true)]));
    let single = Shape::Sequence(ListShape::Fixed(vec![Shape::Bool]));
    assert_eq!(from_bytes(&single, &long).err(), Some(Error::ExpectedSeqDelimiter));
    assert_eq!(from_bytes(&Shape::Int(IntKind::U32), &[1, 2]).err(), Some(Error::EndOfInput));
}

#[test]
fn byte_buffers_end_at_their_own_delimiter() {
    let v = Value::Bytes(vec![STRING_DELIMITER, 5]);
    round_trips(&v, &Shape::Bytes);
}

#[test]
fn struct_with_extra_or_missing_fields() {
    let three = Value::Mapping(vec![
        (s("name"), s("Al")),
        (s("age"), Value::U8(3)),
        (s("extra"), s("x")),
    ]);
    let wide = Shape::Mapping(
        Box::new(Shape::Str),
        ListShape::Fixed(vec![Shape::Str, Shape::Int(IntKind::U8), Shape::Str]),
    );
    round_trips(&three, &wide);
    assert_eq!(from_bytes(&person_shape(), &to_bytes(&three)).err(), Some(Error::ExpectedMapDelimiter));
    let one = Value::Mapping(vec![(s("name"), s("Al"))]);
    assert_eq!(from_bytes(&person_shape(), &to_bytes(&one)).err(), Some(Error::LengthMismatch));
}

#[test]
fn strings_never_hold_a_delimiter() {
    let text = "ÿ€𝄞\u{10FFFF}";
    let bytes = to_bytes(&s(text));
    assert_eq!(bytes.iter().filter(|b| **b == STRING_DELIMITER).count(), 2);
    round_trips(&s(text), &Shape::Str);
    for j in 0..bytes.len() {
        assert_eq!(from_bytes(&Shape::Str, &bytes[..j]).err(), Some(Error::EndOfInput));
    }
}

#[test]
fn corrupted_closing_delimiters() {
    let mut b = to_bytes(&s("ok"));
    let last = b.len() - 1;
    b[last] = b'!';
    assert_eq!(from_bytes(&Shape::Str, &b).err(), Some(Error::EndOfInput));
    let mut b = to_bytes(&Value::Bytes(vec![1, 2]));
    let last = b.len() - 1;
    b[last] = 0;
    assert_eq!(from_bytes(&Shape::Bytes, &b).err(), Some(Error::EndOfInput));
    let pair = Value::Sequence(vec![Value::Bool(true), s("a")]);
    let pair_shape = Shape::Sequence(ListShape::Fixed(vec![Shape::Bool, Shape::Str]));
    let mut b = to_bytes(&pair);
    let last = b.len() - 1;
    b[last] = 0x20;
    assert_eq!(from_bytes(&pair_shape, &b).err(), Some(Error::ExpectedSeqDelimiter));
}
