//! End-to-end round trips of the five concrete record schemas.

use shua_codec::codec::{decode_value, encode_value};
use shua_codec::records::{
    game_key_schema, game_progress_schema, game_record_schema, summary_schema, user_schema,
};
use shua_codec::value::Value;

fn flags(bits: &[bool]) -> Value {
    Value::List(bits.iter().map(|b| Value::Bool(*b)).collect())
}

fn byte_flags(bits: &[bool]) -> Value {
    Value::List(bits.iter().map(|b| Value::ByteBool(*b)).collect())
}

#[test]
fn user_roundtrip() {
    let schema = user_schema();
    let original = Value::Record(vec![
        Value::Bool(true),
        Value::Str("hello there".to_string()),
        Value::Str("avatar01".to_string()),
        Value::Str("bg.png".to_string()),
    ]);
    let bytes = encode_value(&schema, &original).unwrap();
    // One flag padded to a byte, then three length-prefixed strings.
    assert_eq!(bytes[0], 0x01);
    assert_eq!(bytes[1], 11);
    let (parsed, used) = decode_value(&schema, &bytes).unwrap();
    assert_eq!(parsed, original);
    assert_eq!(used, 8 * bytes.len());
}

fn level(clear: u16, fc: u16, phi: u16) -> Value {
    Value::Record(vec![Value::U16(clear), Value::U16(fc), Value::U16(phi)])
}

#[test]
fn summary_roundtrip() {
    let schema = summary_schema();
    let rks: f32 = 13.37;
    let original = Value::Record(vec![
        Value::U8(3),
        Value::U16(42),
        Value::F32Bits(rks.to_bits()),
        Value::VarInt(300),
        Value::Str("avatar".to_string()),
        Value::Record(vec![
            level(10, 5, 1),
            level(20, 6, 2),
            level(30, 7, 3),
            level(40, 8, 4),
        ]),
    ]);
    let bytes = encode_value(&schema, &original).unwrap();
    let (parsed, used) = decode_value(&schema, &bytes).unwrap();
    assert_eq!(parsed, original);
    assert_eq!(used, 8 * bytes.len());
}

#[test]
fn game_key_roundtrip() {
    let schema = game_key_schema();
    // Two keys; each key's flag list holds one entry less than its length
    // byte says.
    let key1 = Value::Record(vec![
        Value::Str("key.one".to_string()),
        Value::U8(3),
        byte_flags(&[true, false, false, true, false, false, false, false]),
        flags(&[true, false]),
    ]);
    let key2 = Value::Record(vec![
        Value::Str("key.two".to_string()),
        Value::U8(1),
        byte_flags(&[false; 8]),
        Value::List(vec![]),
    ]);
    let original = Value::Record(vec![
        Value::Record(vec![Value::VarInt(2), Value::List(vec![key1, key2])]),
        byte_flags(&[true, true, false, false, true, false, true, false]),
        byte_flags(&[false; 8]),
        Value::Bool(true),
        Value::Bool(false),
    ]);
    let bytes = encode_value(&schema, &original).unwrap();
    let (parsed, used) = decode_value(&schema, &bytes).unwrap();
    assert_eq!(parsed, original);
    assert_eq!(used, 8 * bytes.len() - 6);
}

#[test]
fn game_progress_roundtrip() {
    let schema = game_progress_schema();
    let original = Value::Record(vec![
        Value::Record(vec![
            Value::Bool(true),
            Value::Bool(false),
            Value::Bool(true),
            Value::Bool(false),
        ]),
        Value::Str("8".to_string()),
        Value::VarInt(99),
        Value::U16(2),
        Value::Record(vec![
            Value::VarInt(1),
            Value::VarInt(2),
            Value::VarInt(3),
            Value::VarInt(4),
            Value::VarInt(5),
        ]),
        flags(&[true, true, false, false]),
        flags(&[false, false, true, true]),
        flags(&[true, false, false, true]),
        flags(&[true, true, true, true, false, false, false, false]),
        flags(&[true, false, true, false, true, false]),
        Value::Record(vec![Value::Bool(true), Value::Bool(false), Value::Bool(true)]),
        flags(&[false, true, false, true, false, true]),
        flags(&[true, true, false]),
    ]);
    let bytes = encode_value(&schema, &original).unwrap();
    let (parsed, used) = decode_value(&schema, &bytes).unwrap();
    assert_eq!(parsed, original);
    assert_eq!(used, 8 * bytes.len());
}

#[test]
fn game_record_roundtrip() {
    let schema = game_record_schema();
    // One song with two unlocked difficulties: exactly two level records
    // follow, as the count of true unlock flags dictates.
    let acc1: f32 = 99.5;
    let acc2: f32 = 100.0;
    let song = Value::Record(vec![
        Value::Str("song.0".to_string()),
        Value::VarInt(18),
        byte_flags(&[true, false, true, false, false]),
        byte_flags(&[true, false, false, false, false]),
        Value::List(vec![
            Value::Record(vec![Value::U32(987654), Value::F32Bits(acc1.to_bits())]),
            Value::Record(vec![Value::U32(1000000), Value::F32Bits(acc2.to_bits())]),
        ]),
    ]);
    let original = Value::Record(vec![Value::VarInt(1), Value::List(vec![song])]);
    let bytes = encode_value(&schema, &original).unwrap();
    let (parsed, used) = decode_value(&schema, &bytes).unwrap();
    assert_eq!(parsed, original);
    assert_eq!(used, 8 * bytes.len());

    // A record announcing a song it does not carry is rejected.
    let missing = encode_value(
        &schema,
        &Value::Record(vec![Value::VarInt(2), Value::List(vec![])]),
    )
    .unwrap();
    assert!(decode_value(&schema, &missing).is_err());
}
