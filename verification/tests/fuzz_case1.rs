use abstract_bits::Field;
use abstract_bits::FieldKind;
use abstract_bits::Schema;
use abstract_bits::Value;

/// 4 + 3 + 1 + 10 = 18 bits long.
fn message_schema() -> Schema {
    Schema::Struct {
        name: "Message",
        fields: vec![
            Field { name: "header", kind: FieldKind::Scalar { ty: Schema::UInt { width: 4 } } },
            Field { name: "reserved", kind: FieldKind::Padding { bits: 3 } },
            Field { name: "is_important", kind: FieldKind::Scalar { ty: Schema::Boolean } },
            Field { name: "bits", kind: FieldKind::Array { len: 10, ty: Schema::Boolean } },
        ],
    }
}

fn frame_schema() -> Schema {
    Schema::Struct {
        name: "Frame",
        fields: vec![
            Field { name: "header", kind: FieldKind::Scalar { ty: Schema::UInt { width: 4 } } },
            Field { name: "has_source", kind: FieldKind::OptionControl { controlled: 4 } },
            Field { name: "data_len", kind: FieldKind::ListControl { width: 5, controlled: 5 } },
            Field {
                name: "ty",
                kind: FieldKind::Scalar {
                    ty: Schema::Enum { name: "Type", width: 2, tags: vec![0, 1, 2] },
                },
            },
            Field {
                name: "source",
                kind: FieldKind::OptionField { control: 1, ty: Schema::UInt { width: 16 } },
            },
            Field { name: "data", kind: FieldKind::ListField { control: 2, ty: message_schema() } },
        ],
    }
}

fn message(header: u64, bits: [bool; 10]) -> Value {
    Value::Struct(vec![
        Value::Uint(header),
        Value::Unit,
        Value::Bool(true),
        Value::List(bits.iter().map(|b| Value::Bool(*b)).collect()),
    ])
}

fn test_input() -> Value {
    let all = [true; 10];
    let headers: [u64; 31] = [
        15, 15, 9, 9, 15, 15, 15, 15, 9, 9, 9, 9, 7, 1, 7, 7, 15, 15, 7, 7, 7, 7, 7, 2, 7, 15,
        15, 15, 15, 7, 7,
    ];
    let mut data: Vec<Value> = Vec::new();
    for (i, header) in headers.iter().enumerate() {
        let bits = if i == 20 {
            [true, true, true, false, false, false, false, false, false, true]
        } else if i == 30 {
            [true, true, true, true, true, true, true, false, true, true]
        } else {
            all
        };
        data.push(message(*header, bits));
    }
    Value::Struct(vec![
        Value::Uint(9),
        Value::Bool(true),
        Value::Uint(31),
        Value::Enum(0),
        Value::Opt(Some(Box::new(Value::Uint(63479)))),
        Value::List(data),
    ])
}

#[test]
fn test_test_case() {
    let schema = frame_schema();
    assert!(schema.is_well_formed());
    let input = test_input();
    assert!(input.conforms_to(&schema));
    let serialized = schema.to_abstract_bits(&input).unwrap();
    let deserialized = schema.from_abstract_bits(&serialized).unwrap();
    assert_eq!(test_input(), deserialized)
}
