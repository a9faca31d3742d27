//! Behaviour of the codec framework on concrete buffers: the primitive
//! widths, the variable-length integer boundaries, strings, dynamic
//! lengths, alignment padding, and every error condition.

use shua_codec::codec::{decode_value, encode_value};
use shua_codec::schema::{AlignSpec, Codec, Field, LenPolicy};
use shua_codec::value::{CodecError, Value};

fn no_align() -> AlignSpec {
    AlignSpec { align: 0, every: 0 }
}

fn plain_field(name: &str, codec: Codec) -> Field {
    Field { name: name.to_string(), align: 0, codec }
}

fn record(fields: Vec<Field>) -> Codec {
    Codec::Record { fields }
}

fn counted_array(elem: Codec, count_field: &str) -> Codec {
    Codec::VarArray {
        elem: Box::new(elem),
        len: LenPolicy::Sibling(count_field.to_string()),
        align: no_align(),
    }
}

fn vec_header_schema() -> Codec {
    record(vec![
        plain_field("len", Codec::U8),
        plain_field("data", counted_array(Codec::U8, "len")),
    ])
}

#[test]
fn test_vec_header_with_data() {
    let schema = vec_header_schema();
    let original = Value::Record(vec![
        Value::U8(3),
        Value::List(vec![Value::U8(10), Value::U8(20), Value::U8(30)]),
    ]);

    let bits = encode_value(&schema, &original).unwrap();
    let (parsed, _) = decode_value(&schema, &bits).unwrap();

    let fields = match parsed {
        Value::Record(fs) => fs,
        other => panic!("not a record: {:?}", other),
    };
    assert_eq!(fields[0], Value::U8(3));
    assert_eq!(
        fields[1],
        Value::List(vec![Value::U8(10), Value::U8(20), Value::U8(30)])
    );
}

#[test]
fn test_vec_header_empty() {
    let schema = vec_header_schema();
    let original = Value::Record(vec![Value::U8(0), Value::List(vec![])]);

    let bits = encode_value(&schema, &original).unwrap();
    let (parsed, _) = decode_value(&schema, &bits).unwrap();

    let fields = match parsed {
        Value::Record(fs) => fs,
        other => panic!("not a record: {:?}", other),
    };
    assert_eq!(fields[0], Value::U8(0));
    assert_eq!(fields[1], Value::List(vec![]));
}

#[test]
fn test_array() {
    let schema = Codec::Array { elem: Box::new(Codec::U8), count: 3, align: no_align() };
    let arr = Value::List(vec![Value::U8(1), Value::U8(2), Value::U8(3)]);

    let bits = encode_value(&schema, &arr).unwrap();
    let (parsed, _) = decode_value(&schema, &bits).unwrap();

    assert_eq!(arr, parsed);
}

#[test]
fn test_struct_roundtrip() {
    let schema = record(vec![plain_field("v", Codec::U8)]);
    let original = Value::Record(vec![Value::U8(99)]);

    let bits = encode_value(&schema, &original).unwrap();
    let (parsed, _) = decode_value(&schema, &bits).unwrap();

    assert_eq!(original, parsed);
}

#[test]
fn test_nested_struct() {
    let header = record(vec![plain_field("v", Codec::U8)]);
    let schema = record(vec![
        plain_field("h", header),
        plain_field("a", Codec::U8),
        plain_field("b", Codec::U16),
        plain_field("c", Codec::U32),
        plain_field("d", Codec::F32Bits),
        plain_field("e", Codec::Bool),
        plain_field("f", Codec::VarInt),
        plain_field("g", Codec::Str),
        plain_field("z", Codec::ByteBool),
    ]);
    let d_original: f32 = 3.14;
    let original = Value::Record(vec![
        Value::Record(vec![Value::U8(114)]),
        Value::U8(42),
        Value::U16(0x1234),
        Value::U32(0x87654321),
        Value::F32Bits(d_original.to_bits()),
        Value::Bool(true),
        Value::VarInt(200),
        Value::Str("hi".to_string()),
        Value::ByteBool(false),
    ]);

    let bits = encode_value(&schema, &original).unwrap();
    let (parsed, _) = decode_value(&schema, &bits).unwrap();

    let fields = match parsed {
        Value::Record(fs) => fs,
        other => panic!("not a record: {:?}", other),
    };
    assert_eq!(fields[0], Value::Record(vec![Value::U8(114)]));
    assert_eq!(fields[1], Value::U8(42));
    assert_eq!(fields[2], Value::U16(0x1234));
    assert_eq!(fields[3], Value::U32(0x87654321));
    let d_parsed = match fields[4] {
        Value::F32Bits(raw) => f32::from_bits(raw),
        ref other => panic!("not float bits: {:?}", other),
    };
    assert!((d_parsed - d_original).abs() < f32::EPSILON);
    assert_eq!(fields[5], Value::Bool(true));
    assert_eq!(fields[6], Value::VarInt(200));
    assert_eq!(fields[7], Value::Str("hi".to_string()));
    assert_eq!(fields[8], Value::ByteBool(false));
}

#[test]
fn varint_boundaries() {
    let bytes_127 = encode_value(&Codec::VarInt, &Value::VarInt(127)).unwrap();
    assert_eq!(bytes_127, vec![0x7F]);
    let bytes_128 = encode_value(&Codec::VarInt, &Value::VarInt(128)).unwrap();
    assert_eq!(bytes_128, vec![0x80, 0x01]);
    let bytes_16383 = encode_value(&Codec::VarInt, &Value::VarInt(16383)).unwrap();
    assert_eq!(bytes_16383, vec![0xFF, 0x7F]);

    let (v, used) = decode_value(&Codec::VarInt, &vec![0x7F]).unwrap();
    assert_eq!(v, Value::VarInt(127));
    assert_eq!(used, 8);
    let (v, used) = decode_value(&Codec::VarInt, &vec![0x80, 0x01]).unwrap();
    assert_eq!(v, Value::VarInt(128));
    assert_eq!(used, 16);
    let (v, used) = decode_value(&Codec::VarInt, &vec![0xFF, 0x7F]).unwrap();
    assert_eq!(v, Value::VarInt(16383));
    assert_eq!(used, 16);
}

#[test]
fn byte_bool_and_bit_bool_packing() {
    let byte_schema = Codec::Array { elem: Box::new(Codec::ByteBool), count: 8, align: no_align() };
    let bit_schema = Codec::Array { elem: Box::new(Codec::Bool), count: 8, align: no_align() };

    // The same logical values, alternating true and false.
    let byte_bytes = vec![1u8, 0, 1, 0, 1, 0, 1, 0];
    let bit_bytes = vec![0b01010101u8];

    let (byte_vals, byte_used) = decode_value(&byte_schema, &byte_bytes).unwrap();
    let (bit_vals, bit_used) = decode_value(&bit_schema, &bit_bytes).unwrap();

    assert_eq!(byte_used, 64);
    assert_eq!(bit_used, 8);

    let expected_flags = [true, false, true, false, true, false, true, false];
    match (&byte_vals, &bit_vals) {
        (Value::List(bytes), Value::List(bits)) => {
            for i in 0..8 {
                assert_eq!(bytes[i], Value::ByteBool(expected_flags[i]));
                assert_eq!(bits[i], Value::Bool(expected_flags[i]));
            }
        },
        other => panic!("not lists: {:?}", other),
    }
}

#[test]
fn string_roundtrip() {
    let bytes = encode_value(&Codec::Str, &Value::Str("hi".to_string())).unwrap();
    assert_eq!(bytes, vec![0x02, 0x68, 0x69]);

    let (v, used) = decode_value(&Codec::Str, &bytes).unwrap();
    assert_eq!(v, Value::Str("hi".to_string()));
    assert_eq!(used, 24);
}

#[test]
fn string_multibyte_roundtrip() {
    let s = "caf\u{e9}";
    let bytes = encode_value(&Codec::Str, &Value::Str(s.to_string())).unwrap();
    assert_eq!(bytes, vec![0x05, 0x63, 0x61, 0x66, 0xC3, 0xA9]);
    let (v, used) = decode_value(&Codec::Str, &bytes).unwrap();
    assert_eq!(v, Value::Str(s.to_string()));
    assert_eq!(used, 48);
}

#[test]
fn dynamic_length_consumes_count_plus_elements() {
    let schema = vec_header_schema();
    let (parsed, used) = decode_value(&schema, &vec![3, 10, 20, 30]).unwrap();
    assert_eq!(used, 8 + 3 * 8);
    let fields = match parsed {
        Value::Record(fs) => fs,
        other => panic!("not a record: {:?}", other),
    };
    assert_eq!(
        fields[1],
        Value::List(vec![Value::U8(10), Value::U8(20), Value::U8(30)])
    );

    let short = decode_value(&schema, &vec![3, 10, 20]);
    assert_eq!(short, Err(CodecError::InsufficientBits));
}

#[test]
fn truncated_input_never_panics() {
    let empty: Vec<u8> = vec![];
    let one = vec![0xFFu8];
    assert_eq!(decode_value(&Codec::U8, &empty), Err(CodecError::InsufficientBits));
    assert_eq!(decode_value(&Codec::U16, &one), Err(CodecError::InsufficientBits));
    assert_eq!(decode_value(&Codec::U32, &one), Err(CodecError::InsufficientBits));
    assert_eq!(decode_value(&Codec::F32Bits, &one), Err(CodecError::InsufficientBits));
    assert_eq!(decode_value(&Codec::Bool, &empty), Err(CodecError::InsufficientBits));
    assert_eq!(decode_value(&Codec::ByteBool, &empty), Err(CodecError::InsufficientBits));
    assert_eq!(decode_value(&Codec::VarInt, &empty), Err(CodecError::InsufficientBits));
    // A two-byte integer whose second byte is missing.
    assert_eq!(decode_value(&Codec::VarInt, &vec![0x80]), Err(CodecError::InsufficientBits));
    // A string shorter than its declared length.
    assert_eq!(decode_value(&Codec::Str, &vec![0x05, 0x61]), Err(CodecError::InsufficientBits));
    // A nested record cut off inside its second field.
    let schema = record(vec![
        plain_field("outer", record(vec![plain_field("a", Codec::U8), plain_field("b", Codec::U32)])),
    ]);
    assert_eq!(decode_value(&schema, &vec![1, 2]), Err(CodecError::InsufficientBits));
}

#[test]
fn alignment_pads_field_to_byte() {
    // Thirteen single-bit flags end at bit offset 13; the declared 8-bit
    // alignment consumes three padding bits, so the next field begins at
    // bit 16.
    let schema = record(vec![
        Field {
            name: "flags".to_string(),
            align: 8,
            codec: Codec::Array { elem: Box::new(Codec::Bool), count: 13, align: no_align() },
        },
        plain_field("tail", Codec::U8),
    ]);
    let bytes = vec![0xFFu8, 0x1F, 0xAB];
    let (parsed, used) = decode_value(&schema, &bytes).unwrap();
    assert_eq!(used, 24);
    let fields = match parsed {
        Value::Record(fs) => fs,
        other => panic!("not a record: {:?}", other),
    };
    match &fields[0] {
        Value::List(flags) => {
            assert_eq!(flags.len(), 13);
            for f in flags.iter() {
                assert_eq!(*f, Value::Bool(true));
            }
        },
        other => panic!("not a list: {:?}", other),
    }
    assert_eq!(fields[1], Value::U8(0xAB));
}

#[test]
fn alignment_every_second_element() {
    // Two single-bit elements, then padding to the byte, twice over.
    let schema = Codec::Array {
        elem: Box::new(Codec::Bool),
        count: 4,
        align: AlignSpec { align: 8, every: 2 },
    };
    let bytes = vec![0b0000_0011u8, 0b0000_0010u8];
    let (parsed, used) = decode_value(&schema, &bytes).unwrap();
    assert_eq!(used, 16);
    assert_eq!(
        parsed,
        Value::List(vec![
            Value::Bool(true),
            Value::Bool(true),
            Value::Bool(false),
            Value::Bool(true),
        ])
    );

    let bits = encode_value(&schema, &parsed).unwrap();
    assert_eq!(bits, bytes);
}

#[test]
fn noncanonical_varint_reencodes_short() {
    // A small value spelled in the two-byte form decodes fine; its
    // re-encoding uses the one-byte form, and decoding that consumes
    // exactly the re-encoding.
    let (v, used) = decode_value(&Codec::VarInt, &vec![0x85, 0x00]).unwrap();
    assert_eq!(v, Value::VarInt(5));
    assert_eq!(used, 16);
    let bytes = encode_value(&Codec::VarInt, &v).unwrap();
    assert_eq!(bytes, vec![0x05]);
    let (v2, used2) = decode_value(&Codec::VarInt, &bytes).unwrap();
    assert_eq!(v2, Value::VarInt(5));
    assert_eq!(used2, 8);
}

#[test]
fn varint_above_encodable_range_decodes_but_never_encodes() {
    // Two bytes with the second above 127 decode to a value past the
    // encoding's declared range; such a value is refused on encode.
    let (v, used) = decode_value(&Codec::VarInt, &vec![0xFF, 0xFF]).unwrap();
    assert_eq!(v, Value::VarInt(32767));
    assert_eq!(used, 16);
    assert_eq!(encode_value(&Codec::VarInt, &v), Err(CodecError::OutOfRange));
}

#[test]
fn invalid_utf8_carries_the_bytes() {
    let r = decode_value(&Codec::Str, &vec![0x01, 0xFF]);
    assert_eq!(r, Err(CodecError::InvalidUtf8(vec![0xFF])));
}

#[test]
fn out_of_range_on_encode() {
    // A variable-length integer above its declared range.
    assert_eq!(
        encode_value(&Codec::VarInt, &Value::VarInt(16384)),
        Err(CodecError::OutOfRange)
    );
    // A value of the wrong shape for its codec.
    assert_eq!(encode_value(&Codec::U8, &Value::Bool(true)), Err(CodecError::OutOfRange));
    // A fixed-size array of the wrong length.
    let schema = Codec::Array { elem: Box::new(Codec::U8), count: 2, align: no_align() };
    assert_eq!(
        encode_value(&schema, &Value::List(vec![Value::U8(1)])),
        Err(CodecError::OutOfRange)
    );
}

#[test]
fn missing_length_source_degrades_to_zero() {
    let schema = record(vec![
        plain_field("len", Codec::U8),
        plain_field("data", counted_array(Codec::U8, "missing")),
        plain_field("tail", Codec::U8),
    ]);
    let (parsed, used) = decode_value(&schema, &vec![7, 9]).unwrap();
    assert_eq!(used, 16);
    let fields = match parsed {
        Value::Record(fs) => fs,
        other => panic!("not a record: {:?}", other),
    };
    assert_eq!(fields[1], Value::List(vec![]));
    assert_eq!(fields[2], Value::U8(9));
}

#[test]
fn nested_record_shares_flat_table() {
    // The count decoded inside a nested record is visible to a later
    // sibling of the parent, and a later record under the same name
    // shadows an earlier one.
    let inner = || record(vec![plain_field("n", Codec::U8)]);
    let schema = record(vec![
        plain_field("first", inner()),
        plain_field("second", inner()),
        plain_field("data", counted_array(Codec::U8, "n")),
    ]);
    // first.n = 5, second.n = 2: the later value wins, two elements follow.
    let (parsed, used) = decode_value(&schema, &vec![5, 2, 40, 41]).unwrap();
    assert_eq!(used, 32);
    let fields = match parsed {
        Value::Record(fs) => fs,
        other => panic!("not a record: {:?}", other),
    };
    assert_eq!(fields[2], Value::List(vec![Value::U8(40), Value::U8(41)]));
}

#[test]
fn sub_byte_booleans_before_aligned_byte() {
    // A single-bit flag, padding to the byte, then a whole byte: the
    // byte-aligned field coexists with the bit-packed one.
    let schema = record(vec![
        Field { name: "flag".to_string(), align: 8, codec: Codec::Bool },
        plain_field("count", Codec::U8),
    ]);
    let (parsed, used) = decode_value(&schema, &vec![0x01, 0x2A]).unwrap();
    assert_eq!(used, 16);
    let fields = match parsed {
        Value::Record(fs) => fs,
        other => panic!("not a record: {:?}", other),
    };
    assert_eq!(fields[0], Value::Bool(true));
    assert_eq!(fields[1], Value::U8(0x2A));
}
