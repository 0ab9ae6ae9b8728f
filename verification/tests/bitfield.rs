use abstract_bits::Field;
use abstract_bits::FieldKind;
use abstract_bits::Schema;

fn register_schema() -> Schema {
    Schema::Struct {
        name: "Register",
        fields: vec![
            Field { name: "device", kind: FieldKind::Scalar { ty: Schema::UInt { width: 4 } } },
            Field { name: "reserved", kind: FieldKind::Padding { bits: 1 } },
            Field { name: "on", kind: FieldKind::Scalar { ty: Schema::Boolean } },
            Field { name: "count", kind: FieldKind::Scalar { ty: Schema::UInt { width: 2 } } },
        ],
    }
}

#[test]
fn bitfield_main() {
    let register = register_schema();
    assert!(register.is_well_formed());
    assert_eq!(register.min_bits(), register.max_bits());
    assert_eq!(register.min_bits(), 8);
}
