use sube::codec::{
    decode_value, encode_compact, encode_value, Registry, TypeDef, Value, VariantDef,
};
use sube::Error;

const DEPTH: u64 = 32;

fn reg(types: Vec<TypeDef>) -> Registry {
    Registry { types }
}

fn roundtrip(r: &Registry, ty: u32, v: &Value) -> (Vec<u8>, Value) {
    let bytes = encode_value(r, ty, v).unwrap();
    let (back, used) = decode_value(r, ty, &bytes, DEPTH).unwrap();
    assert_eq!(used, bytes.len(), "consumed exactly what was produced");
    (bytes, back)
}

#[test]
fn scalars_roundtrip() {
    let r = reg(vec![
        TypeDef::Bool,
        TypeDef::U8,
        TypeDef::U16,
        TypeDef::U32,
        TypeDef::U64,
        TypeDef::U128,
    ]);
    let (bytes, back) = roundtrip(&r, 0, &Value::Bool(true));
    assert_eq!(bytes, vec![1]);
    assert!(matches!(back, Value::Bool(true)));
    let (bytes, back) = roundtrip(&r, 3, &Value::U32(5));
    assert_eq!(bytes, vec![5, 0, 0, 0]);
    assert!(matches!(back, Value::U32(5)));
    let (bytes, back) = roundtrip(&r, 2, &Value::U16(0xabcd));
    assert_eq!(bytes, vec![0xcd, 0xab]);
    assert!(matches!(back, Value::U16(0xabcd)));
    let (_, back) = roundtrip(&r, 5, &Value::U128(u128::MAX));
    assert!(matches!(back, Value::U128(u128::MAX)));
}

#[test]
fn compact_roundtrips_at_mode_boundaries() {
    let r = reg(vec![TypeDef::Compact]);
    for v in [
        0u128,
        1,
        63,
        64,
        16383,
        16384,
        1073741823,
        1073741824,
        u64::MAX as u128,
        u128::MAX,
    ] {
        let (_, back) = roundtrip(&r, 0, &Value::Compact(v));
        match back {
            Value::Compact(x) => assert_eq!(x, v),
            _ => panic!("expected a compact value"),
        }
    }
}

#[test]
fn compact_known_encodings() {
    assert_eq!(encode_compact(0), vec![0]);
    assert_eq!(encode_compact(1), vec![4]);
    assert_eq!(encode_compact(63), vec![252]);
    assert_eq!(encode_compact(64), vec![0x01, 0x01]);
    assert_eq!(encode_compact(16384), vec![0x02, 0x00, 0x01, 0x00]);
    assert_eq!(
        encode_compact(1073741824),
        vec![0x03, 0x00, 0x00, 0x00, 0x40]
    );
}

#[test]
fn sequence_roundtrips_with_length_prefix() {
    let r = reg(vec![TypeDef::U16, TypeDef::Sequence(0)]);
    let v = Value::List(vec![Value::U16(1), Value::U16(2), Value::U16(3)]);
    let (bytes, back) = roundtrip(&r, 1, &v);
    assert_eq!(bytes, vec![12, 1, 0, 2, 0, 3, 0]);
    match back {
        Value::List(vs) => assert_eq!(vs.len(), 3),
        _ => panic!("expected a list"),
    }
}

#[test]
fn array_has_no_prefix() {
    let r = reg(vec![TypeDef::U8, TypeDef::Array(4, 0)]);
    let v = Value::List(vec![
        Value::U8(1),
        Value::U8(2),
        Value::U8(3),
        Value::U8(4),
    ]);
    let (bytes, _) = roundtrip(&r, 1, &v);
    assert_eq!(bytes, vec![1, 2, 3, 4]);
    // wrong length is rejected by the encoder
    let bad = Value::List(vec![Value::U8(1)]);
    assert!(matches!(encode_value(&r, 1, &bad), Err(Error::BadInput)));
}

#[test]
fn tuple_and_composite_roundtrip() {
    let r = reg(vec![
        TypeDef::U8,
        TypeDef::U32,
        TypeDef::Tuple(vec![0, 1]),
        TypeDef::Composite(vec![1, 1]),
    ]);
    let t = Value::List(vec![Value::U8(7), Value::U32(9)]);
    let (bytes, _) = roundtrip(&r, 2, &t);
    assert_eq!(bytes, vec![7, 9, 0, 0, 0]);
    let c = Value::List(vec![Value::U32(1), Value::U32(2)]);
    let (bytes, back) = roundtrip(&r, 3, &c);
    assert_eq!(bytes, vec![1, 0, 0, 0, 2, 0, 0, 0]);
    assert!(matches!(back, Value::List(_)));
}

#[test]
fn variant_roundtrips_by_discriminant() {
    let r = reg(vec![
        TypeDef::U32,
        TypeDef::Variants(vec![
            VariantDef {
                name: b"None".to_vec(),
                index: 0,
                fields: vec![],
            },
            VariantDef {
                name: b"Some".to_vec(),
                index: 1,
                fields: vec![0],
            },
        ]),
    ]);
    let none = Value::Variant(0, vec![]);
    let (bytes, back) = roundtrip(&r, 1, &none);
    assert_eq!(bytes, vec![0]);
    assert!(matches!(back, Value::Variant(0, _)));
    let some = Value::Variant(1, vec![Value::U32(5)]);
    let (bytes, back) = roundtrip(&r, 1, &some);
    assert_eq!(bytes, vec![1, 5, 0, 0, 0]);
    match back {
        Value::Variant(1, fields) => assert!(matches!(fields[0], Value::U32(5))),
        _ => panic!("expected the second variant"),
    }
}

#[test]
fn unknown_discriminant_is_decode_error() {
    let r = reg(vec![TypeDef::Variants(vec![VariantDef {
        name: b"Only".to_vec(),
        index: 0,
        fields: vec![],
    }])]);
    assert!(matches!(
        decode_value(&r, 0, &[9], DEPTH),
        Err(Error::Decode)
    ));
}

#[test]
fn bits_roundtrip() {
    let r = reg(vec![TypeDef::Bits]);
    let v = Value::Bits(10, vec![0b1010_1010, 0b0000_0011]);
    let (bytes, back) = roundtrip(&r, 0, &v);
    assert_eq!(bytes, vec![40, 0b1010_1010, 0b0000_0011]);
    match back {
        Value::Bits(n, data) => {
            assert_eq!(n, 10);
            assert_eq!(data, vec![0b1010_1010, 0b0000_0011]);
        }
        _ => panic!("expected a bit sequence"),
    }
}

#[test]
fn nested_recursive_shape_roundtrips() {
    // type 1 refers to itself through a sequence: a rose tree of u8
    let r = reg(vec![
        TypeDef::U8,
        TypeDef::Sequence(2),
        TypeDef::Tuple(vec![0, 1]),
    ]);
    let leaf = |n: u8| Value::List(vec![Value::U8(n), Value::List(vec![])]);
    let tree = Value::List(vec![
        Value::U8(1),
        Value::List(vec![leaf(2), leaf(3)]),
    ]);
    let (bytes, _) = roundtrip(&r, 2, &tree);
    assert_eq!(bytes, vec![1, 8, 2, 0, 3, 0]);
}

#[test]
fn short_buffer_is_decode_error() {
    let r = reg(vec![TypeDef::U32]);
    assert!(matches!(
        decode_value(&r, 0, &[1, 2], DEPTH),
        Err(Error::Decode)
    ));
    // empty input at a four-byte type
    assert!(matches!(
        decode_value(&r, 0, &[], DEPTH),
        Err(Error::Decode)
    ));
}

#[test]
fn trailing_bytes_are_not_an_error() {
    let r = reg(vec![TypeDef::U8]);
    let (v, used) = decode_value(&r, 0, &[7, 8, 9], DEPTH).unwrap();
    assert!(matches!(v, Value::U8(7)));
    assert_eq!(used, 1);
}

#[test]
fn empty_buffer_decodes_at_zero_size_type() {
    let r = reg(vec![TypeDef::Tuple(vec![])]);
    let (v, used) = decode_value(&r, 0, &[], DEPTH).unwrap();
    assert!(matches!(v, Value::List(_)));
    assert_eq!(used, 0);
}

#[test]
fn bool_rejects_other_bytes() {
    let r = reg(vec![TypeDef::Bool]);
    assert!(matches!(
        decode_value(&r, 0, &[2], DEPTH),
        Err(Error::Decode)
    ));
}

#[test]
fn encoder_rejects_shape_mismatch() {
    let r = reg(vec![TypeDef::U32]);
    assert!(matches!(
        encode_value(&r, 0, &Value::Bool(true)),
        Err(Error::BadInput)
    ));
    assert!(matches!(
        encode_value(&r, 7, &Value::U32(1)),
        Err(Error::BadInput)
    ));
}
