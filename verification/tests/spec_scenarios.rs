//! The worked byte-layout scenarios: exact bytes, exact errors, and the
//! static bit bounds.

use abstract_bits::BitReader;
use abstract_bits::BitWriter;
use abstract_bits::Field;
use abstract_bits::FieldKind;
use abstract_bits::FromBytesError;
use abstract_bits::ReadErrorCause;
use abstract_bits::Schema;
use abstract_bits::ToBytesError;
use abstract_bits::Value;

/// `{u4 header, bool flag, u3 padding}`: 8 bits total.
fn header_flag_schema() -> Schema {
    Schema::Struct {
        name: "HeaderFlag",
        fields: vec![
            Field { name: "header", kind: FieldKind::Scalar { ty: Schema::UInt { width: 4 } } },
            Field { name: "flag", kind: FieldKind::Scalar { ty: Schema::Boolean } },
            Field { name: "padding", kind: FieldKind::Padding { bits: 3 } },
        ],
    }
}

#[test]
fn header_flag_fills_one_byte() {
    let schema = header_flag_schema();
    assert!(schema.is_well_formed());
    assert_eq!(schema.min_bits(), 8);
    assert_eq!(schema.max_bits(), 8);
    let v = Value::Struct(vec![Value::Uint(9), Value::Bool(true), Value::Unit]);
    assert!(v.conforms_to(&schema));
    let bytes = schema.to_abstract_bits(&v).unwrap();
    // header 9 in bits 0..4, flag in bit 4, padding zero: 9 + 16.
    assert_eq!(bytes, vec![25u8]);
    assert_eq!(schema.from_abstract_bits(&bytes).unwrap(), v);
}

/// `{bool has_source, u16 Option source, u5 length, List<u8> data}`.
fn source_data_schema() -> Schema {
    Schema::Struct {
        name: "SourceData",
        fields: vec![
            Field { name: "has_source", kind: FieldKind::OptionControl { controlled: 1 } },
            Field {
                name: "source",
                kind: FieldKind::OptionField { control: 0, ty: Schema::UInt { width: 16 } },
            },
            Field { name: "length", kind: FieldKind::ListControl { width: 5, controlled: 3 } },
            Field {
                name: "data",
                kind: FieldKind::ListField { control: 2, ty: Schema::UInt { width: 8 } },
            },
        ],
    }
}

#[test]
fn absent_source_and_empty_list_occupy_six_bits() {
    let schema = source_data_schema();
    assert!(schema.is_well_formed());
    let v = Value::Struct(vec![
        Value::Bool(false),
        Value::Opt(None),
        Value::Uint(0),
        Value::List(vec![]),
    ]);
    let bytes = schema.to_abstract_bits(&v).unwrap();
    // 1 + 0 + 5 + 0 significant bits, padded to one byte of zeros.
    assert_eq!(bytes, vec![0u8]);
    assert_eq!(schema.from_abstract_bits(&bytes).unwrap(), v);
    assert_eq!(schema.min_bits(), 6);
    assert_eq!(schema.max_bits(), 6 + 16 + 31 * 8);
}

#[test]
fn present_control_with_absent_value_names_the_field() {
    let schema = source_data_schema();
    let v = Value::Struct(vec![
        Value::Bool(true),
        Value::Opt(None),
        Value::Uint(0),
        Value::List(vec![]),
    ]);
    match schema.to_abstract_bits(&v) {
        Err(ToBytesError::ValidationError { field_name, control_value, live_value }) => {
            assert_eq!(field_name, "source");
            assert_eq!(control_value, 1);
            assert_eq!(live_value, 0);
        }
        other => panic!("expected a validation failure, got {:?}", other),
    }
}

#[test]
fn undeclared_discriminant_is_rejected_with_its_value() {
    let schema = Schema::Enum { name: "ThreeTags", width: 2, tags: vec![0, 1, 2] };
    assert!(schema.is_well_formed());
    // The low two bits of 3 read back as tag 3, which no variant declares.
    match schema.from_abstract_bits(&[3u8]) {
        Err(FromBytesError::ReadEnum { enum_name, cause }) => {
            assert_eq!(enum_name, "ThreeTags");
            assert_eq!(cause, ReadErrorCause::InvalidDiscriminant { ty: "ThreeTags", got: 3 });
        }
        other => panic!("expected an undeclared discriminant, got {:?}", other),
    }
    // Every declared variant round-trips exactly.
    for tag in [0u64, 1, 2] {
        let v = Value::Enum(tag);
        let bytes = schema.to_abstract_bits(&v).unwrap();
        assert_eq!(schema.from_abstract_bits(&bytes).unwrap(), v);
    }
}

#[test]
fn list_longer_than_its_control_can_say_is_too_long() {
    let schema = source_data_schema();
    let v = Value::Struct(vec![
        Value::Bool(false),
        Value::Opt(None),
        Value::Uint(0),
        Value::List((0..32).map(|_| Value::Uint(0)).collect()),
    ]);
    match schema.to_abstract_bits(&v) {
        Err(ToBytesError::ListTooLong { max, got }) => {
            assert_eq!(max, 31);
            assert_eq!(got, 32);
        }
        other => panic!("expected a too-long list, got {:?}", other),
    }
}

/// `{u3 mode, [bool; 10] flags}`: truncated input fails inside the array.
fn flags_schema() -> Schema {
    Schema::Struct {
        name: "Flags",
        fields: vec![
            Field { name: "mode", kind: FieldKind::Scalar { ty: Schema::UInt { width: 3 } } },
            Field { name: "flags", kind: FieldKind::Array { len: 10, ty: Schema::Boolean } },
        ],
    }
}

#[test]
fn truncated_array_reports_struct_field_and_length() {
    let schema = flags_schema();
    // One byte holds the mode and five flags; the sixth flag is missing.
    match schema.from_abstract_bits(&[0xFFu8]) {
        Err(FromBytesError::ReadArray { array_len, field_name, struct_name, cause }) => {
            assert_eq!(array_len, 10);
            assert_eq!(field_name, "flags");
            assert_eq!(struct_name, "Flags");
            match cause {
                ReadErrorCause::NotEnoughInput { ty, cause } => {
                    assert_eq!(ty, "bool");
                    assert_eq!(cause.requested_bits, 1);
                    assert_eq!(cause.available_bits, 0);
                }
                other => panic!("expected missing input, got {:?}", other),
            }
        }
        other => panic!("expected an array read failure, got {:?}", other),
    }
}

#[test]
fn each_read_error_keeps_its_context() {
    // A bare primitive read that runs out of input.
    let u16_schema = Schema::UInt { width: 16 };
    match u16_schema.from_abstract_bits(&[7u8]) {
        Err(FromBytesError::ReadPrimitive(ReadErrorCause::NotEnoughInput { ty, cause })) => {
            assert_eq!(ty, "uint");
            assert_eq!(cause.requested_bits, 16);
            assert_eq!(cause.available_bits, 8);
        }
        other => panic!("expected a primitive failure, got {:?}", other),
    }

    // Padding that cannot be skipped.
    let padded = Schema::Struct {
        name: "Padded",
        fields: vec![
            Field { name: "x", kind: FieldKind::Scalar { ty: Schema::UInt { width: 8 } } },
            Field { name: "reserved", kind: FieldKind::Padding { bits: 8 } },
        ],
    };
    match padded.from_abstract_bits(&[1u8]) {
        Err(FromBytesError::SkipPadding { struct_name, .. }) => {
            assert_eq!(struct_name, "Padded");
        }
        other => panic!("expected a padding failure, got {:?}", other),
    }

    // A plain field inside a struct.
    let wrapped = Schema::Struct {
        name: "Holder",
        fields: vec![Field {
            name: "inner",
            kind: FieldKind::Scalar { ty: Schema::UInt { width: 8 } },
        }],
    };
    match wrapped.from_abstract_bits(&[]) {
        Err(FromBytesError::ReadField { field_name, struct_name, .. }) => {
            assert_eq!(field_name, "inner");
            assert_eq!(struct_name, "Holder");
        }
        other => panic!("expected a field failure, got {:?}", other),
    }

    // An option's control bit, then its value; then a list's length.
    let schema = source_data_schema();
    match schema.from_abstract_bits(&[]) {
        Err(FromBytesError::ReadOptionController { controlled_option_field, struct_name, .. }) => {
            assert_eq!(controlled_option_field, "source");
            assert_eq!(struct_name, "SourceData");
        }
        other => panic!("expected a control-bit failure, got {:?}", other),
    }
    match schema.from_abstract_bits(&[0x01u8]) {
        Err(FromBytesError::ReadOption { field_name, struct_name, .. }) => {
            assert_eq!(field_name, "source");
            assert_eq!(struct_name, "SourceData");
        }
        other => panic!("expected an option failure, got {:?}", other),
    }
    // A seven-bit field leaves one bit of the byte: the five-bit
    // length that follows is cut short.
    let packet = Schema::Struct {
        name: "Packet",
        fields: vec![
            Field { name: "kind", kind: FieldKind::Scalar { ty: Schema::UInt { width: 7 } } },
            Field { name: "length", kind: FieldKind::ListControl { width: 5, controlled: 2 } },
            Field {
                name: "data",
                kind: FieldKind::ListField { control: 1, ty: Schema::UInt { width: 8 } },
            },
        ],
    };
    match packet.from_abstract_bits(&[0x00u8]) {
        Err(FromBytesError::ReadListLength { field_name, struct_name, .. }) => {
            assert_eq!(field_name, "data");
            assert_eq!(struct_name, "Packet");
        }
        other => panic!("expected a list length failure, got {:?}", other),
    }
    // Length says four elements; only two fit in what remains.
    match schema.from_abstract_bits(&[0x08u8, 0x01, 0x02]) {
        Err(FromBytesError::ReadList { list_len, field_name, struct_name, .. }) => {
            assert_eq!(list_len, 4);
            assert_eq!(field_name, "data");
            assert_eq!(struct_name, "SourceData");
        }
        other => panic!("expected a list failure, got {:?}", other),
    }
}

#[test]
fn trailing_bytes_are_not_an_error() {
    let schema = header_flag_schema();
    let v = Value::Struct(vec![Value::Uint(4), Value::Bool(false), Value::Unit]);
    let mut bytes = schema.to_abstract_bits(&v).unwrap();
    bytes.push(0xAB);
    bytes.push(0xCD);
    assert_eq!(schema.from_abstract_bits(&bytes).unwrap(), v);
}

#[test]
fn wrappers_delegate_wholly() {
    let schema = Schema::Wrapper {
        name: "Meters",
        inner: Box::new(Schema::UInt { width: 12 }),
    };
    assert!(schema.is_well_formed());
    assert_eq!(schema.min_bits(), 12);
    assert_eq!(schema.max_bits(), 12);
    let v = Value::Uint(0xABC);
    let bytes = schema.to_abstract_bits(&v).unwrap();
    assert_eq!(bytes, vec![0xBC, 0x0A]);
    assert_eq!(schema.from_abstract_bits(&bytes).unwrap(), v);
}

#[test]
fn ill_formed_schemas_are_refused() {
    // Width out of range.
    assert!(!Schema::UInt { width: 0 }.is_well_formed());
    assert!(!Schema::UInt { width: 65 }.is_well_formed());
    // A tag that does not fit its width.
    assert!(!Schema::Enum { name: "E", width: 2, tags: vec![0, 4] }.is_well_formed());
    assert!(Schema::Enum { name: "E", width: 3, tags: vec![0, 4] }.is_well_formed());
    // A control pointing at a field that does not point back.
    let broken = Schema::Struct {
        name: "Broken",
        fields: vec![
            Field { name: "c", kind: FieldKind::OptionControl { controlled: 1 } },
            Field { name: "x", kind: FieldKind::Scalar { ty: Schema::Boolean } },
        ],
    };
    assert!(!broken.is_well_formed());
}

#[test]
fn values_of_the_wrong_shape_do_not_conform() {
    let schema = header_flag_schema();
    assert!(!Value::Uint(3).conforms_to(&schema));
    // A scalar too wide for its field.
    let v = Value::Struct(vec![Value::Uint(16), Value::Bool(true), Value::Unit]);
    assert!(!v.conforms_to(&schema));
    // An array of the wrong length.
    let f = flags_schema();
    let short = Value::Struct(vec![
        Value::Uint(0),
        Value::List((0..9).map(|_| Value::Bool(false)).collect()),
    ]);
    assert!(!short.conforms_to(&f));
}

#[test]
fn bit_cursors_report_their_position() {
    let bytes = [0xFFu8, 0x0F];
    let mut reader = BitReader::new(&bytes);
    assert_eq!(reader.bits_read(), 0);
    assert_eq!(reader.read_bits(12).unwrap(), 0xFFF);
    assert_eq!(reader.bits_read(), 12);
    assert_eq!(reader.bytes_read(), 2);
    assert!(reader.read_bits(5).is_err());
    assert_eq!(reader.skip(4), Ok(()));
    assert_eq!(reader.bits_read(), 16);

    let mut writer = BitWriter::new(2);
    writer.write_bits(12, 0xABC).unwrap();
    assert_eq!(writer.bits_written(), 12);
    assert_eq!(writer.bytes_written(), 2);
    writer.write_bit(true).unwrap();
    let out = writer.into_vec();
    assert_eq!(out, vec![0xBC, 0x1A]);
}

#[test]
fn bits_written_stay_within_the_static_bounds() {
    let schema = source_data_schema();
    let lo = schema.min_bits();
    let hi = schema.max_bits();
    let values = [
        Value::Struct(vec![
            Value::Bool(false),
            Value::Opt(None),
            Value::Uint(0),
            Value::List(vec![]),
        ]),
        Value::Struct(vec![
            Value::Bool(true),
            Value::Opt(Some(Box::new(Value::Uint(0xBEEF)))),
            Value::Uint(3),
            Value::List(vec![Value::Uint(1), Value::Uint(2), Value::Uint(3)]),
        ]),
        Value::Struct(vec![
            Value::Bool(false),
            Value::Opt(None),
            Value::Uint(31),
            Value::List((0..31).map(Value::Uint).collect()),
        ]),
    ];
    for v in &values {
        assert!(v.conforms_to(&schema));
        let mut writer = BitWriter::new(hi / 8 + 1);
        schema.write_abstract_bits(v, &mut writer).unwrap();
        let written = writer.bits_written();
        assert!(lo <= written && written <= hi);
        // Encoding emits exactly the bytes the written bits cover.
        let bytes = schema.to_abstract_bits(v).unwrap();
        assert_eq!(bytes.len(), (written + 7) / 8);
    }
}
