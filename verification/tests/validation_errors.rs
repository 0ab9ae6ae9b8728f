use abstract_bits::Field;
use abstract_bits::FieldKind;
use abstract_bits::Schema;
use abstract_bits::ToBytesError;
use abstract_bits::Value;

/// `{bool has_value, Option<u8> value «presence_from has_value»}`.
fn test_option_schema() -> Schema {
    Schema::Struct {
        name: "TestOption",
        fields: vec![
            Field { name: "has_value", kind: FieldKind::OptionControl { controlled: 1 } },
            Field {
                name: "value",
                kind: FieldKind::OptionField { control: 0, ty: Schema::UInt { width: 8 } },
            },
        ],
    }
}

/// `{u5 length, Vec<u8> data «length_from length»}`.
fn test_vec_schema() -> Schema {
    Schema::Struct {
        name: "TestVec",
        fields: vec![
            Field { name: "length", kind: FieldKind::ListControl { width: 5, controlled: 1 } },
            Field {
                name: "data",
                kind: FieldKind::ListField { control: 0, ty: Schema::UInt { width: 8 } },
            },
        ],
    }
}

/// `{bool has_source, u3 data_len, Option<u16> source, Vec<u8> data}`.
fn complex_schema() -> Schema {
    Schema::Struct {
        name: "ComplexStruct",
        fields: vec![
            Field { name: "has_source", kind: FieldKind::OptionControl { controlled: 2 } },
            Field { name: "data_len", kind: FieldKind::ListControl { width: 3, controlled: 3 } },
            Field {
                name: "source",
                kind: FieldKind::OptionField { control: 0, ty: Schema::UInt { width: 16 } },
            },
            Field {
                name: "data",
                kind: FieldKind::ListField { control: 1, ty: Schema::UInt { width: 8 } },
            },
        ],
    }
}

fn option_value(has_value: bool, value: Option<u64>) -> Value {
    Value::Struct(vec![
        Value::Bool(has_value),
        Value::Opt(value.map(|x| Box::new(Value::Uint(x)))),
    ])
}

fn vec_value(length: u64, data: Vec<u64>) -> Value {
    Value::Struct(vec![
        Value::Uint(length),
        Value::List(data.into_iter().map(Value::Uint).collect()),
    ])
}

fn complex_value(has_source: bool, data_len: u64, source: Option<u64>, data: Vec<u64>) -> Value {
    Value::Struct(vec![
        Value::Bool(has_source),
        Value::Uint(data_len),
        Value::Opt(source.map(|x| Box::new(Value::Uint(x)))),
        Value::List(data.into_iter().map(Value::Uint).collect()),
    ])
}

#[test]
fn test_option_presence_mismatch_true_but_none() {
    let schema = test_option_schema();
    let invalid_struct = option_value(true, None);
    let result = schema.to_abstract_bits(&invalid_struct);
    assert!(
        result.is_err(),
        "Expected serialization to fail when has_value=true but value=None"
    );
}

#[test]
fn test_option_presence_mismatch_false_but_some() {
    let schema = test_option_schema();
    let invalid_struct = option_value(false, Some(42));
    let result = schema.to_abstract_bits(&invalid_struct);
    assert!(
        result.is_err(),
        "Expected serialization to fail when has_value=false but value=Some"
    );
}

#[test]
fn test_option_valid_combinations() {
    let schema = test_option_schema();
    let valid1 = option_value(true, Some(42));
    assert!(
        schema.to_abstract_bits(&valid1).is_ok(),
        "Expected serialization to succeed when has_value=true and value=Some"
    );
    let valid2 = option_value(false, None);
    assert!(
        schema.to_abstract_bits(&valid2).is_ok(),
        "Expected serialization to succeed when has_value=false and value=None"
    );
}

#[test]
fn test_vec_length_mismatch_too_short() {
    let schema = test_vec_schema();
    let invalid_struct = vec_value(5, vec![1, 2, 3]);
    let result = schema.to_abstract_bits(&invalid_struct);
    assert!(
        result.is_err(),
        "Expected serialization to fail when length=5 but data has 3 elements"
    );
}

#[test]
fn test_vec_length_mismatch_too_long() {
    let schema = test_vec_schema();
    let invalid_struct = vec_value(2, vec![1, 2, 3, 4, 5]);
    let result = schema.to_abstract_bits(&invalid_struct);
    assert!(
        result.is_err(),
        "Expected serialization to fail when length=2 but data has 5 elements"
    );
}

#[test]
fn test_vec_valid_length_match() {
    let schema = test_vec_schema();
    let valid_struct = vec_value(3, vec![1, 2, 3]);
    assert!(
        schema.to_abstract_bits(&valid_struct).is_ok(),
        "Expected serialization to succeed when length matches data size"
    );
}

#[test]
fn test_vec_empty_valid() {
    let schema = test_vec_schema();
    let valid_struct = vec_value(0, vec![]);
    assert!(
        schema.to_abstract_bits(&valid_struct).is_ok(),
        "Expected serialization to succeed for empty vec with length=0"
    );
}

#[test]
fn test_complex_struct_multiple_mismatches() {
    let schema = complex_schema();
    let invalid_struct = complex_value(true, 2, None, vec![1, 2, 3, 4]);
    let result = schema.to_abstract_bits(&invalid_struct);
    assert!(
        result.is_err(),
        "Expected serialization to fail with multiple validation errors"
    );
}

#[test]
fn test_complex_struct_valid() {
    let schema = complex_schema();
    let valid_struct = complex_value(true, 3, Some(0x1234), vec![1, 2, 3]);
    assert!(
        schema.to_abstract_bits(&valid_struct).is_ok(),
        "Expected serialization to succeed with valid field combinations"
    );
}

#[test]
fn test_complex_struct_valid_no_source() {
    let schema = complex_schema();
    let valid_struct = complex_value(false, 1, None, vec![42]);
    assert!(
        schema.to_abstract_bits(&valid_struct).is_ok(),
        "Expected serialization to succeed with no source"
    );
}

#[test]
fn test_roundtrip_after_validation() {
    let schema = complex_schema();
    let original = complex_value(true, 2, Some(0xABCD), vec![0xFF, 0x00]);
    let bytes = schema
        .to_abstract_bits(&original)
        .expect("Serialization should succeed");
    let deserialized = schema
        .from_abstract_bits(&bytes)
        .expect("Deserialization should succeed");
    assert_eq!(original, deserialized, "Roundtrip should preserve data");
}

#[test]
fn test_error_message_content() {
    let schema = test_option_schema();
    let invalid_option = option_value(true, None);
    let result = schema.to_abstract_bits(&invalid_option);
    match result {
        Err(ToBytesError::ValidationError { field_name, control_value, live_value }) => {
            assert_eq!(field_name, "value", "Error should name the field");
            assert_eq!(control_value, 1, "Error should carry the controller's state");
            assert_eq!(live_value, 0, "Error should describe the mismatch");
        }
        _ => panic!("Expected ValidationError"),
    }

    let vec_schema = test_vec_schema();
    let invalid_vec = vec_value(3, vec![1, 2, 3, 4, 5]);
    let result = vec_schema.to_abstract_bits(&invalid_vec);
    match result {
        Err(ToBytesError::ValidationError { field_name, control_value, live_value }) => {
            assert_eq!(field_name, "data", "Error should name the field");
            assert_eq!(control_value, 3, "Error should carry the expected length");
            assert_eq!(live_value, 5, "Error should carry the actual length");
        }
        _ => panic!("Expected ValidationError"),
    }
}
