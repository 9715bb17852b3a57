use bitpack::compressed::Compressed;
use bitpack::error::{CompressError, DecompressError};
use bitpack::schema::{BinaryChunk, Schema};
use bitpack::value::Value;

fn record_schema(bounds: &[u128]) -> Schema {
    Schema::Record(bounds.iter().map(|m| Schema::Uint(*m)).collect())
}

fn record_value(values: &[u128]) -> Value {
    Value::Record(values.iter().map(|x| Value::Uint(*x)).collect())
}

fn bytes_of(c: &Compressed) -> Vec<u8> {
    match c {
        Compressed::Bytes(b) => b.clone(),
        Compressed::Binaries(_) => panic!("expected finalized bytes"),
    }
}

#[test]
fn end_to_end_two_field_record() {
    // A record {a: bound 5, b: bound 300} holding {a: 5, b: 300}:
    // a is 3 bits (101), b is 9 bits (100101100), and 4 zero pad bits
    // finalize the 12 bits into exactly 2 bytes.
    let schema = record_schema(&[5, 300]);
    let value = record_value(&[5, 300]);
    let compressed = schema.compress(&value).unwrap();
    let bytes = bytes_of(&compressed);
    assert_eq!(bytes, vec![0b1011_0010, 0b1100_0000]);
    let back = schema.decompress(&compressed).unwrap();
    assert!(back.equals(&value));
}

#[test]
fn tagged_variant_small_case() {
    // A 3-case variant (no payload; bound 15; bound 1000) compressing the
    // middle case with payload 9: tag 0001, then 4 payload bits 1001.
    let schema = Schema::Variant(vec![
        None,
        Some(Box::new(Schema::Uint(15))),
        Some(Box::new(Schema::Uint(1000))),
    ]);
    let value = Value::Variant(1, Some(Box::new(Value::Uint(9))));
    let compressed = schema.compress(&value).unwrap();
    assert_eq!(bytes_of(&compressed), vec![0b0001_1001]);
    let back = schema.decompress(&compressed).unwrap();
    assert!(back.equals(&value));
}

#[test]
fn round_trip_nested_record_with_variant() {
    let inner = record_schema(&[7, 1]);
    let schema = Schema::Record(vec![
        Schema::Uint(2),
        inner,
        Schema::Variant(vec![Some(Box::new(Schema::Uint(300))), None]),
    ]);
    let value = Value::Record(vec![
        Value::Uint(2),
        Value::Record(vec![Value::Uint(7), Value::Uint(0)]),
        Value::Variant(0, Some(Box::new(Value::Uint(299)))),
    ]);
    let compressed = schema.compress(&value).unwrap();
    let back = schema.decompress(&compressed).unwrap();
    assert!(back.equals(&value));
}

#[test]
fn round_trip_payload_free_case() {
    let schema = Schema::Variant(vec![None, Some(Box::new(Schema::Uint(15)))]);
    let value = Value::Variant(0, None);
    let compressed = schema.compress(&value).unwrap();
    // Only the 4 tag bits 0000, padded to one byte.
    assert_eq!(bytes_of(&compressed), vec![0]);
    let back = schema.decompress(&compressed).unwrap();
    assert!(back.equals(&value));
}

#[test]
fn round_trip_empty_record() {
    let schema = Schema::Record(vec![]);
    let value = Value::Record(vec![]);
    let compressed = schema.compress(&value).unwrap();
    assert_eq!(bytes_of(&compressed), Vec::<u8>::new());
    let back = schema.decompress(&compressed).unwrap();
    assert!(back.equals(&value));
}

#[test]
fn degenerate_zero_bound_is_one_bit() {
    // A bound of 0 is a 1-bit field whose value must be 0.
    let schema = Schema::Uint(0);
    let chunk = schema.max_binaries();
    assert!(chunk.equals(&BinaryChunk::Single(1)));
    let compressed = schema.compress(&Value::Uint(0)).unwrap();
    assert_eq!(bytes_of(&compressed), vec![0]);
    let back = schema.decompress(&compressed).unwrap();
    assert!(back.equals(&Value::Uint(0)));
    assert!(matches!(
        schema.compress(&Value::Uint(1)),
        Err(CompressError::ValueExceedsMax)
    ));
}

#[test]
fn value_over_bound_is_rejected() {
    let schema = record_schema(&[5, 300]);
    let value = record_value(&[6, 300]);
    assert!(matches!(
        schema.compress(&value),
        Err(CompressError::ValueExceedsMax)
    ));
    let value = record_value(&[5, 301]);
    assert!(matches!(
        schema.compress_to_binaries(&value),
        Err(CompressError::ValueExceedsMax)
    ));
}

#[test]
fn value_at_bound_is_accepted() {
    let schema = Schema::Uint(u128::MAX);
    let value = Value::Uint(u128::MAX);
    let compressed = schema.compress(&value).unwrap();
    assert_eq!(bytes_of(&compressed), vec![0xff; 16]);
    let back = schema.decompress(&compressed).unwrap();
    assert!(back.equals(&value));
}

#[test]
fn unknown_discriminant_is_rejected() {
    // A 2-case variant: a stream opening with tag 2 names no case.
    let schema = Schema::Variant(vec![None, None]);
    let compressed = Compressed::Bytes(vec![0b0010_0000]);
    assert!(matches!(
        schema.decompress(&compressed),
        Err(DecompressError::UnknownVariant)
    ));
}

#[test]
fn short_buffer_is_rejected() {
    let schema = record_schema(&[5, 300]);
    // 8 bits cannot hold the 12 the schema demands.
    let compressed = Compressed::Bytes(vec![0b1011_0010]);
    assert!(matches!(
        schema.decompress(&compressed),
        Err(DecompressError::WrongBytesLength)
    ));
    // An empty stream cannot even hold a variant tag.
    let variant = Schema::Variant(vec![None]);
    let empty = Compressed::Bytes(vec![]);
    assert!(matches!(
        variant.decompress(&empty),
        Err(DecompressError::WrongBytesLength)
    ));
}

#[test]
fn short_payload_is_rejected() {
    // The tag names a case whose 9-bit payload is not all there.
    let schema = Schema::Variant(vec![Some(Box::new(Schema::Uint(300)))]);
    let compressed = Compressed::Bytes(vec![0b0000_1010]);
    assert!(matches!(
        schema.decompress(&compressed),
        Err(DecompressError::WrongBytesLength)
    ));
}

#[test]
fn sixteen_cases_round_trip() {
    let cases: Vec<Option<Box<Schema>>> = (0..16).map(|_| None).collect();
    let schema = Schema::Variant(cases);
    for tag in 0..16usize {
        let value = Value::Variant(tag, None);
        let compressed = schema.compress(&value).unwrap();
        let back = schema.decompress(&compressed).unwrap();
        assert!(back.equals(&value));
    }
}

#[test]
fn padding_bits_are_zero_and_ignored() {
    // 3 encoded bits, 5 pad bits: the pad is zero and decode ignores it.
    let schema = record_schema(&[5]);
    let value = record_value(&[2]);
    let compressed = schema.compress(&value).unwrap();
    assert_eq!(bytes_of(&compressed), vec![0b0100_0000]);
    let back = schema.decompress(&compressed).unwrap();
    assert!(back.equals(&value));
}

#[test]
fn compress_to_binaries_stays_unaligned() {
    let schema = Schema::Uint(300);
    let value = Value::Uint(300);
    let c = schema.compress_to_binaries(&value).unwrap();
    match &c {
        Compressed::Binaries(bits) => assert_eq!(bits.len(), 9),
        Compressed::Bytes(_) => panic!("compress_to_binaries stays unaligned"),
    }
}

#[test]
fn equals_tells_values_apart() {
    let a = record_value(&[1, 2]);
    let b = record_value(&[1, 3]);
    let c = record_value(&[1]);
    assert!(a.equals(&a));
    assert!(!a.equals(&b));
    assert!(!a.equals(&c));
    assert!(!Value::Uint(1).equals(&Value::Uint(2)));
    assert!(!Value::Uint(1).equals(&record_value(&[1])));
    let v = Value::Variant(1, Some(Box::new(Value::Uint(9))));
    let w = Value::Variant(1, Some(Box::new(Value::Uint(8))));
    let u = Value::Variant(2, Some(Box::new(Value::Uint(9))));
    assert!(v.equals(&v));
    assert!(!v.equals(&w));
    assert!(!v.equals(&u));
    assert!(!v.equals(&Value::Variant(1, None)));
}

#[test]
fn round_trip_variant_inside_variant() {
    let inner = Schema::Variant(vec![None, Some(Box::new(Schema::Uint(5)))]);
    let schema = Schema::Variant(vec![Some(Box::new(inner)), None]);
    let value = Value::Variant(
        0,
        Some(Box::new(Value::Variant(1, Some(Box::new(Value::Uint(4)))))),
    );
    let compressed = schema.compress(&value).unwrap();
    // tag 0000, inner tag 0001, payload 100, padded: 0000 0001 100 00000.
    assert_eq!(bytes_of(&compressed), vec![0b0000_0001, 0b1000_0000]);
    let back = schema.decompress(&compressed).unwrap();
    assert!(back.equals(&value));
}

#[test]
fn decompress_accepts_an_unaligned_intermediate() {
    // The intermediate form round-trips too: no finalization required.
    let schema = record_schema(&[5, 300]);
    let value = record_value(&[5, 300]);
    let binaries = schema.compress_to_binaries(&value).unwrap();
    let back = schema.decompress(&binaries).unwrap();
    assert!(back.equals(&value));
}
