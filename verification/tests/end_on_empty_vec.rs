use abstract_bits::Field;
use abstract_bits::FieldKind;
use abstract_bits::Schema;
use abstract_bits::Value;

fn link_status_command_schema() -> Schema {
    Schema::Struct {
        name: "LinkStatusCommand",
        fields: vec![
            Field {
                name: "list_length",
                kind: FieldKind::ListControl { width: 5, controlled: 4 },
            },
            Field { name: "is_first_frame", kind: FieldKind::Scalar { ty: Schema::Boolean } },
            Field { name: "is_last_frame", kind: FieldKind::Scalar { ty: Schema::Boolean } },
            Field { name: "reserved", kind: FieldKind::Padding { bits: 1 } },
            Field {
                name: "link_statuses",
                kind: FieldKind::ListField { control: 0, ty: Schema::UInt { width: 8 } },
            },
        ],
    }
}

#[test]
fn end_on_empty_vec_main() {
    let schema = link_status_command_schema();
    let command = Value::Struct(vec![
        Value::Uint(0),
        Value::Bool(false),
        Value::Bool(true),
        Value::Unit,
        Value::List(vec![]),
    ]);
    let bytes = schema.to_abstract_bits(&command).unwrap();
    let link_status_cmd = schema.from_abstract_bits(&bytes).unwrap();
    match &link_status_cmd {
        Value::Struct(slots) => match &slots[4] {
            Value::List(statuses) => {
                assert_eq!(statuses.len(), 0);
                println!("number of links: {}", statuses.len());
            }
            other => panic!("expected a list, got {:?}", other),
        },
        other => panic!("expected a struct, got {:?}", other),
    }
}
