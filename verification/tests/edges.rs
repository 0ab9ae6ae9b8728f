//! Edge widths and nesting: one-bit and sixty-four-bit scalars, wide
//! tags, structs inside structs, and cursor errors at the boundary.

use abstract_bits::BitReader;
use abstract_bits::BitWriter;
use abstract_bits::BufferTooSmall;
use abstract_bits::Field;
use abstract_bits::FieldKind;
use abstract_bits::Schema;
use abstract_bits::UnexpectedEndOfBits;
use abstract_bits::Value;

#[test]
fn one_bit_and_sixty_four_bit_scalars_round_trip() {
    let narrow = Schema::UInt { width: 1 };
    let bytes = narrow.to_abstract_bits(&Value::Uint(1)).unwrap();
    assert_eq!(bytes, vec![1u8]);
    assert_eq!(narrow.from_abstract_bits(&bytes).unwrap(), Value::Uint(1));

    let wide = Schema::UInt { width: 64 };
    let v = Value::Uint(u64::MAX);
    let bytes = wide.to_abstract_bits(&v).unwrap();
    assert_eq!(bytes, vec![0xFF; 8]);
    assert_eq!(wide.from_abstract_bits(&bytes).unwrap(), v);
    assert!(Value::Uint(u64::MAX).conforms_to(&wide));
}

#[test]
fn byte_wide_discriminants_round_trip() {
    let schema = Schema::Enum { name: "Wide", width: 8, tags: vec![0, 17, 255] };
    assert!(schema.is_well_formed());
    for tag in [0u64, 17, 255] {
        let v = Value::Enum(tag);
        let bytes = schema.to_abstract_bits(&v).unwrap();
        assert_eq!(bytes, vec![tag as u8]);
        assert_eq!(schema.from_abstract_bits(&bytes).unwrap(), v);
    }
}

#[test]
fn structs_nest_without_byte_alignment() {
    let inner = Schema::Struct {
        name: "Inner",
        fields: vec![
            Field { name: "lo", kind: FieldKind::Scalar { ty: Schema::UInt { width: 3 } } },
            Field { name: "hi", kind: FieldKind::Scalar { ty: Schema::UInt { width: 3 } } },
        ],
    };
    let outer = Schema::Struct {
        name: "Outer",
        fields: vec![
            Field { name: "tag", kind: FieldKind::Scalar { ty: Schema::UInt { width: 2 } } },
            Field { name: "body", kind: FieldKind::Scalar { ty: inner } },
        ],
    };
    assert!(outer.is_well_formed());
    assert_eq!(outer.min_bits(), 8);
    assert_eq!(outer.max_bits(), 8);
    let v = Value::Struct(vec![
        Value::Uint(2),
        Value::Struct(vec![Value::Uint(5), Value::Uint(6)]),
    ]);
    let bytes = outer.to_abstract_bits(&v).unwrap();
    // tag 2 in bits 0..2, lo 5 in bits 2..5, hi 6 in bits 5..8.
    assert_eq!(bytes, vec![2 | (5 << 2) | (6 << 5)]);
    assert_eq!(outer.from_abstract_bits(&bytes).unwrap(), v);
}

#[test]
fn cursor_errors_carry_exact_counts() {
    let bytes = [0u8];
    let mut reader = BitReader::new(&bytes);
    reader.skip(3).unwrap();
    assert_eq!(
        reader.skip(6),
        Err(UnexpectedEndOfBits { requested_bits: 6, available_bits: 5 })
    );
    assert_eq!(
        reader.read_bits(8),
        Err(UnexpectedEndOfBits { requested_bits: 8, available_bits: 5 })
    );

    let mut writer = BitWriter::new(1);
    writer.write_bits(7, 0x55).unwrap();
    assert_eq!(
        writer.write_bits(2, 0),
        Err(BufferTooSmall { requested_bits: 2, available_bits: 1 })
    );
    assert_eq!(
        writer.skip(2),
        Err(BufferTooSmall { requested_bits: 2, available_bits: 1 })
    );
}
