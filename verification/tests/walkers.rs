use store::dump_into_be_bytes;
use store::dump_into_le_bytes;
use store::load_from_be_bytes;
use store::load_from_le_bytes;
use store::Error;
use store::Shape;
use store::Value;

fn le_round_trip(v: Value, s: &Shape) -> Value {
    let mut buf = Vec::new();
    dump_into_le_bytes(&v, &mut buf).unwrap();
    let out = load_from_le_bytes(s, &buf).unwrap();
    assert_eq!(out, v);
    out
}

fn be_round_trip(v: Value, s: &Shape) -> Value {
    let mut buf = Vec::new();
    dump_into_be_bytes(&v, &mut buf).unwrap();
    let out = load_from_be_bytes(s, &buf).unwrap();
    assert_eq!(out, v);
    out
}

#[test]
fn scalars_round_trip_both_orders() {
    le_round_trip(Value::Bool(true), &Shape::Bool);
    be_round_trip(Value::Bool(false), &Shape::Bool);
    le_round_trip(Value::I8(-7), &Shape::I8);
    be_round_trip(Value::I16(-12345), &Shape::I16);
    le_round_trip(Value::I32(-2000000000), &Shape::I32);
    be_round_trip(Value::I64(i64::MIN), &Shape::I64);
    le_round_trip(Value::U8(200), &Shape::U8);
    be_round_trip(Value::U16(0xBEEF), &Shape::U16);
    le_round_trip(Value::U32(0xDEADBEEF), &Shape::U32);
    be_round_trip(Value::U64(u64::MAX), &Shape::U64);
    le_round_trip(Value::Char('\u{1F600}'), &Shape::Char);
    be_round_trip(Value::Char('A'), &Shape::Char);
}

#[test]
fn float_bit_patterns_round_trip_exactly() {
    let f = 1.5_f32;
    let d = -0.1_f64;
    let v32 = le_round_trip(Value::F32Bits(f.to_bits()), &Shape::F32);
    assert_eq!(v32, Value::F32Bits(f.to_bits()));
    let v64 = be_round_trip(Value::F64Bits(d.to_bits()), &Shape::F64);
    assert_eq!(v64, Value::F64Bits(d.to_bits()));
    // a NaN payload survives unchanged
    let nan_bits = f32::NAN.to_bits() | 0x0007_0001;
    le_round_trip(Value::F32Bits(nan_bits), &Shape::F32);
}

#[test]
fn scalar_widths_are_exact() {
    let mut buf = Vec::new();
    assert_eq!(dump_into_le_bytes(&Value::Unit, &mut buf).unwrap(), 0);
    assert_eq!(dump_into_le_bytes(&Value::Bool(true), &mut buf).unwrap(), 1);
    assert_eq!(dump_into_le_bytes(&Value::I8(-1), &mut buf).unwrap(), 1);
    assert_eq!(dump_into_le_bytes(&Value::U16(9), &mut buf).unwrap(), 2);
    assert_eq!(dump_into_le_bytes(&Value::I32(-9), &mut buf).unwrap(), 4);
    assert_eq!(dump_into_le_bytes(&Value::U64(1), &mut buf).unwrap(), 8);
    assert_eq!(
        dump_into_be_bytes(&Value::Char('x'), &mut buf).unwrap(),
        4
    );
}

#[test]
fn byte_orders_differ_on_multibyte_scalars() {
    let mut le = Vec::new();
    let mut be = Vec::new();
    dump_into_le_bytes(&Value::U16(0x1234), &mut le).unwrap();
    dump_into_be_bytes(&Value::U16(0x1234), &mut be).unwrap();
    assert_eq!(le, vec![0x34, 0x12]);
    assert_eq!(be, vec![0x12, 0x34]);
}

#[test]
fn option_some_unit_is_one_byte() {
    let mut buf = Vec::new();
    let some = Value::Opt(Some(Box::new(Value::Unit)));
    assert_eq!(dump_into_le_bytes(&some, &mut buf).unwrap(), 1);
    assert_eq!(buf, vec![0x01]);
    let mut buf2 = Vec::new();
    assert_eq!(
        dump_into_le_bytes(&Value::Opt(None), &mut buf2).unwrap(),
        1
    );
    assert_eq!(buf2, vec![0x00]);
    let shape = Shape::Opt(Box::new(Shape::Unit));
    assert_eq!(load_from_le_bytes(&shape, &buf).unwrap(), some);
    assert_eq!(load_from_le_bytes(&shape, &buf2).unwrap(), Value::Opt(None));
}

#[test]
fn enum_second_variant_with_i32_payload() {
    let v = Value::Variant(1, Box::new(Value::I32(-1)));
    let mut buf = Vec::new();
    dump_into_le_bytes(&v, &mut buf).unwrap();
    assert_eq!(buf, vec![0x01, 0xFF, 0xFF, 0xFF, 0xFF]);
    let shape = Shape::Enum(vec![Shape::Unit, Shape::I32]);
    assert_eq!(load_from_le_bytes(&shape, &buf).unwrap(), v);
}

#[test]
fn text_hi_is_length_prefixed_utf8() {
    let v = Value::Text(String::from("hi"));
    let mut buf = Vec::new();
    dump_into_le_bytes(&v, &mut buf).unwrap();
    assert_eq!(buf, vec![0x02, 0x68, 0x69]);
    assert_eq!(load_from_le_bytes(&Shape::Text, &buf).unwrap(), v);
}

#[test]
fn empty_sequence_is_a_single_count_byte() {
    let v = Value::List(vec![]);
    let mut buf = Vec::new();
    assert_eq!(dump_into_le_bytes(&v, &mut buf).unwrap(), 1);
    assert_eq!(buf, vec![0x00]);
    let shape = Shape::List(Box::new(Shape::U8));
    assert_eq!(load_from_le_bytes(&shape, &buf).unwrap(), v);
}

#[test]
fn composites_round_trip_both_orders() {
    let tuple = Value::Tuple(vec![Value::I16(-2), Value::I32(77)]);
    let tuple_shape = Shape::Tuple(vec![Shape::I16, Shape::I32]);
    le_round_trip(tuple, &tuple_shape);
    let tuple2 = Value::Tuple(vec![Value::I16(-2), Value::I32(77)]);
    be_round_trip(tuple2, &tuple_shape);

    let list = Value::List(vec![Value::U32(1), Value::U32(2), Value::U32(3)]);
    let list_shape = Shape::List(Box::new(Shape::U32));
    le_round_trip(list, &list_shape);

    let dict = Value::Dict(vec![
        (Value::Text(String::from("a")), Value::U8(1)),
        (Value::Text(String::from("b")), Value::U8(2)),
    ]);
    let dict_shape = Shape::Dict(Box::new(Shape::Text), Box::new(Shape::U8));
    be_round_trip(dict, &dict_shape);

    let nested = Value::Opt(Some(Box::new(Value::List(vec![Value::Text(
        String::from("xyz"),
    )]))));
    let nested_shape = Shape::Opt(Box::new(Shape::List(Box::new(Shape::Text))));
    le_round_trip(nested, &nested_shape);

    let bytes = Value::Bytes(vec![0, 255, 7]);
    be_round_trip(bytes, &Shape::Bytes);
}

#[test]
fn tuple_of_i16_i32_is_six_bytes() {
    let v = Value::Tuple(vec![Value::I16(1), Value::I32(2)]);
    let mut buf = Vec::new();
    assert_eq!(dump_into_le_bytes(&v, &mut buf).unwrap(), 6);
}

#[test]
fn truncated_prefix_fails_with_unexpected_end() {
    let cases: Vec<(Value, Shape)> = vec![
        (Value::U32(0xABCD1234), Shape::U32),
        (Value::Text(String::from("hello")), Shape::Text),
        (
            Value::List(vec![Value::U16(9), Value::U16(10)]),
            Shape::List(Box::new(Shape::U16)),
        ),
        (
            Value::Variant(0, Box::new(Value::I64(-5))),
            Shape::Enum(vec![Shape::I64]),
        ),
        (Value::Opt(None), Shape::Opt(Box::new(Shape::U8))),
    ];
    for (v, s) in cases {
        let mut buf = Vec::new();
        dump_into_le_bytes(&v, &mut buf).unwrap();
        assert!(!buf.is_empty());
        buf.pop();
        assert_eq!(load_from_le_bytes(&s, &buf), Err(Error::UnexpectedEnd));
    }
}

#[test]
fn out_of_range_discriminant_is_invalid() {
    // a two-variant enum: index 5 exceeds the declared count
    let shape = Shape::Enum(vec![Shape::Unit, Shape::I32]);
    assert_eq!(
        load_from_le_bytes(&shape, &[0x05]),
        Err(Error::InvalidEncoding)
    );
}

#[test]
fn invalid_bytes_are_rejected() {
    // a boolean byte other than 0 or 1
    assert_eq!(
        load_from_le_bytes(&Shape::Bool, &[0x02]),
        Err(Error::InvalidEncoding)
    );
    // a surrogate code point is not a Unicode scalar value
    let mut surrogate = Vec::new();
    dump_into_le_bytes(&Value::U32(0xD800), &mut surrogate).unwrap();
    assert_eq!(
        load_from_le_bytes(&Shape::Char, &surrogate),
        Err(Error::InvalidEncoding)
    );
    // malformed UTF-8 text, distinct from running out of bytes
    assert_eq!(
        load_from_le_bytes(&Shape::Text, &[0x01, 0xFF]),
        Err(Error::InvalidEncoding)
    );
    // empty input for a fixed-width scalar
    assert_eq!(
        load_from_le_bytes(&Shape::U16, &[]),
        Err(Error::UnexpectedEnd)
    );
}

#[test]
fn char_decodes_through_its_code_point() {
    let mut buf = Vec::new();
    dump_into_le_bytes(&Value::U32('A' as u32), &mut buf).unwrap();
    assert_eq!(load_from_le_bytes(&Shape::Char, &buf).unwrap(), Value::Char('A'));
}

#[test]
fn oversized_count_on_short_buffer_is_unexpected_end() {
    // a sequence claiming u64::MAX elements backed by two bytes
    let mut buf = Vec::new();
    store::ULeb128::from(u64::MAX).write_into(&mut buf).unwrap();
    buf.push(7);
    let shape = Shape::List(Box::new(Shape::U8));
    assert_eq!(load_from_le_bytes(&shape, &buf), Err(Error::UnexpectedEnd));
}

#[test]
fn trailing_bytes_are_ignored() {
    let mut buf = Vec::new();
    dump_into_le_bytes(&Value::U8(9), &mut buf).unwrap();
    buf.push(0xAA);
    assert_eq!(load_from_le_bytes(&Shape::U8, &buf).unwrap(), Value::U8(9));
}

#[test]
fn error_kinds_describe_themselves() {
    assert_eq!(Error::UnexpectedEnd.describe(), "unexpected end of input");
    assert_eq!(Error::InvalidEncoding.describe(), "invalid encoding");
    assert_eq!(Error::NarrowingOverflow.describe(), "narrowing overflow");
}

#[test]
fn big_endian_enum_round_trip() {
    let v = Value::Variant(1, Box::new(Value::I32(-1)));
    let mut buf = Vec::new();
    dump_into_be_bytes(&v, &mut buf).unwrap();
    assert_eq!(buf, vec![0x01, 0xFF, 0xFF, 0xFF, 0xFF]);
    let shape = Shape::Enum(vec![Shape::Unit, Shape::I32]);
    assert_eq!(load_from_be_bytes(&shape, &buf).unwrap(), v);
}
