use bitpack::bits::bit_width;
use bitpack::declaration::{build_schema, TypeDecl};
use bitpack::error::SchemaError;
use bitpack::schema::{BinaryChunk, Schema};
use bitpack::value::Value;

#[test]
fn minimal_widths_match_the_formula() {
    // max(1, ceil(log2(m + 1))) bits, independent of any value.
    assert_eq!(bit_width(0), 1);
    assert_eq!(bit_width(1), 1);
    assert_eq!(bit_width(2), 2);
    assert_eq!(bit_width(5), 3);
    assert_eq!(bit_width(7), 3);
    assert_eq!(bit_width(8), 4);
    assert_eq!(bit_width(15), 4);
    assert_eq!(bit_width(255), 8);
    assert_eq!(bit_width(256), 9);
    assert_eq!(bit_width(300), 9);
    assert_eq!(bit_width(1000), 10);
    assert_eq!(bit_width(u128::MAX), 128);
}

#[test]
fn encoded_width_is_independent_of_the_value() {
    // Every value under the bound 5 occupies the same 3 bits.
    let schema = Schema::Uint(5);
    for x in 0..=5u128 {
        match schema.compress_to_binaries(&Value::Uint(x)).unwrap() {
            bitpack::compressed::Compressed::Binaries(bits) => assert_eq!(bits.len(), 3),
            _ => panic!("expected an unaligned bit sequence"),
        }
    }
}

#[test]
fn layout_tree_is_deterministic() {
    // The same schema yields the same tree on every call, with no value in
    // sight.
    let schema = Schema::Record(vec![
        Schema::Uint(5),
        Schema::Record(vec![Schema::Uint(300)]),
        Schema::Variant(vec![None, Some(Box::new(Schema::Uint(7)))]),
    ]);
    let first = schema.max_binaries();
    let second = schema.max_binaries();
    assert!(first.equals(&second));
}

#[test]
fn layout_tree_shapes() {
    let schema = Schema::Record(vec![Schema::Uint(5), Schema::Uint(300)]);
    let expected = BinaryChunk::Nested(vec![BinaryChunk::Single(3), BinaryChunk::Single(9)]);
    assert!(schema.max_binaries().equals(&expected));
    let variant = Schema::Variant(vec![None]);
    assert!(variant.max_binaries().equals(&BinaryChunk::Delimiter));
}

#[test]
fn build_schema_accepts_a_full_declaration() {
    let decl = TypeDecl::Record {
        fields: vec![
            TypeDecl::Integer { bounds: vec![5] },
            TypeDecl::Variant {
                cases: vec![None, Some(Box::new(TypeDecl::Integer { bounds: vec![300] }))],
            },
        ],
    };
    let schema = build_schema(&decl).unwrap();
    let expected = Schema::Record(vec![
        Schema::Uint(5),
        Schema::Variant(vec![None, Some(Box::new(Schema::Uint(300)))]),
    ]);
    assert!(schema.max_binaries().equals(&expected.max_binaries()));
    let value = Value::Record(vec![
        Value::Uint(5),
        Value::Variant(1, Some(Box::new(Value::Uint(300)))),
    ]);
    let compressed = schema.compress(&value).unwrap();
    let back = schema.decompress(&compressed).unwrap();
    assert!(back.equals(&value));
}

#[test]
fn build_schema_requires_a_bound() {
    let decl = TypeDecl::Record {
        fields: vec![TypeDecl::Integer { bounds: vec![] }],
    };
    assert!(matches!(build_schema(&decl), Err(SchemaError::MissingBound)));
}

#[test]
fn build_schema_rejects_two_bounds() {
    let decl = TypeDecl::Integer { bounds: vec![5, 6] };
    assert!(matches!(build_schema(&decl), Err(SchemaError::MultipleBounds)));
}

#[test]
fn build_schema_rejects_an_empty_variant() {
    let decl = TypeDecl::Variant { cases: vec![] };
    assert!(matches!(build_schema(&decl), Err(SchemaError::NoCases)));
}

#[test]
fn build_schema_rejects_seventeen_cases() {
    let decl = TypeDecl::Variant {
        cases: (0..17).map(|_| None).collect(),
    };
    assert!(matches!(build_schema(&decl), Err(SchemaError::TooManyCases)));
}

#[test]
fn build_schema_reports_the_first_error_in_order() {
    let decl = TypeDecl::Record {
        fields: vec![
            TypeDecl::Integer { bounds: vec![1] },
            TypeDecl::Integer { bounds: vec![2, 3] },
            TypeDecl::Integer { bounds: vec![] },
        ],
    };
    assert!(matches!(build_schema(&decl), Err(SchemaError::MultipleBounds)));
}

#[test]
fn layout_needs_no_instance() {
    // The tree exists before any value of the type does, and differs once
    // the declared bound differs.
    let a = Schema::Record(vec![Schema::Uint(5)]).max_binaries();
    let b = Schema::Record(vec![Schema::Uint(7)]).max_binaries();
    let c = Schema::Record(vec![Schema::Uint(8)]).max_binaries();
    assert!(a.equals(&b));
    assert!(!a.equals(&c));
}
