//! Frames taken and adapted from the `zigpy/ziggurat` project.

use abstract_bits::Field;
use abstract_bits::FieldKind;
use abstract_bits::Schema;
use abstract_bits::Value;

fn nwk() -> Schema {
    Schema::Wrapper { name: "Nwk", inner: Box::new(Schema::UInt { width: 16 }) }
}

fn eui64() -> Schema {
    Schema::Struct {
        name: "Eui64",
        fields: vec![Field {
            name: "octets",
            kind: FieldKind::Array { len: 8, ty: Schema::UInt { width: 8 } },
        }],
    }
}

fn eui64_value(octets: [u64; 8]) -> Value {
    Value::Struct(vec![Value::List(octets.iter().map(|o| Value::Uint(*o)).collect())])
}

/// Zigbee spec 3.4.2 Route Reply Command.
fn route_reply_schema() -> Schema {
    Schema::Struct {
        name: "NwkRouteReplyCommand",
        fields: vec![
            Field { name: "reserved", kind: FieldKind::Padding { bits: 4 } },
            Field {
                name: "has_originator_eui64",
                kind: FieldKind::OptionControl { controlled: 8 },
            },
            Field {
                name: "has_responder_eui64",
                kind: FieldKind::OptionControl { controlled: 9 },
            },
            Field { name: "reserved", kind: FieldKind::Padding { bits: 2 } },
            Field {
                name: "route_request_identifier",
                kind: FieldKind::Scalar { ty: Schema::UInt { width: 8 } },
            },
            Field { name: "originator_nwk", kind: FieldKind::Scalar { ty: nwk() } },
            Field { name: "responder_nwk", kind: FieldKind::Scalar { ty: nwk() } },
            Field { name: "path_cost", kind: FieldKind::Scalar { ty: Schema::UInt { width: 8 } } },
            Field {
                name: "originator_eui64",
                kind: FieldKind::OptionField { control: 1, ty: eui64() },
            },
            Field {
                name: "responder_eui64",
                kind: FieldKind::OptionField { control: 2, ty: eui64() },
            },
        ],
    }
}

#[test]
fn test_nwk_route_reply_command() {
    let bytes: [u8; 23] = [
        48, 95, 55, 95, 10, 147, 3, 113, 56, 33, 5, 1, 136, 23, 0, 174, 211, 31, 11, 1, 136, 23,
        0,
    ];
    let schema = route_reply_schema();
    assert!(schema.is_well_formed());
    let command = schema.from_abstract_bits(&bytes).unwrap();

    // `00:17:88:01:05:21:38:71` and `00:17:88:01:0b:1f:d3:ae`, least
    // significant octet first.
    let expected = Value::Struct(vec![
        Value::Unit,
        Value::Bool(true),
        Value::Bool(true),
        Value::Unit,
        Value::Uint(95),
        Value::Uint(0x5F37),
        Value::Uint(0x930A),
        Value::Uint(3),
        Value::Opt(Some(Box::new(eui64_value([113, 56, 33, 5, 1, 136, 23, 0])))),
        Value::Opt(Some(Box::new(eui64_value([174, 211, 31, 11, 1, 136, 23, 0])))),
    ]);
    assert_eq!(command, expected);
    assert_eq!(schema.to_abstract_bits(&command).unwrap(), bytes.to_vec());
}

/// Zigbee spec 3.4.8 link status entry.
fn link_status_schema() -> Schema {
    Schema::Struct {
        name: "NwkLinkStatus",
        fields: vec![
            Field { name: "address", kind: FieldKind::Scalar { ty: nwk() } },
            Field {
                name: "incoming_cost",
                kind: FieldKind::Scalar { ty: Schema::UInt { width: 3 } },
            },
            Field { name: "reserved", kind: FieldKind::Padding { bits: 1 } },
            Field {
                name: "outgoing_cost",
                kind: FieldKind::Scalar { ty: Schema::UInt { width: 3 } },
            },
            Field { name: "reserved", kind: FieldKind::Padding { bits: 1 } },
        ],
    }
}

/// Zigbee spec compressed: 3.4.8.3.
fn link_status_command_schema() -> Schema {
    Schema::Struct {
        name: "NwkLinkStatusCommand",
        fields: vec![
            Field {
                name: "link_statuses_len",
                kind: FieldKind::ListControl { width: 5, controlled: 4 },
            },
            Field { name: "is_first_frame", kind: FieldKind::Scalar { ty: Schema::Boolean } },
            Field { name: "is_last_frame", kind: FieldKind::Scalar { ty: Schema::Boolean } },
            Field { name: "reserved", kind: FieldKind::Padding { bits: 1 } },
            Field {
                name: "link_statuses",
                kind: FieldKind::ListField { control: 0, ty: link_status_schema() },
            },
        ],
    }
}

fn link_status_value(address: u64, incoming_cost: u64, outgoing_cost: u64) -> Value {
    Value::Struct(vec![
        Value::Uint(address),
        Value::Uint(incoming_cost),
        Value::Unit,
        Value::Uint(outgoing_cost),
        Value::Unit,
    ])
}

#[test]
fn test_nwk_link_status_command() {
    // hex 0862e73c120ac711, with the leading command byte stripped off.
    let bytes: Vec<u8> = vec![0x62, 0xe7, 0x3c, 0x12, 0x0a, 0xc7, 0x11];
    let schema = link_status_command_schema();
    assert!(schema.is_well_formed());
    let command = schema.from_abstract_bits(&bytes).unwrap();

    let expected = Value::Struct(vec![
        Value::Uint(2),
        Value::Bool(true),  // byte 0x62 -> 0b01100010
        Value::Bool(true),
        Value::Unit,
        Value::List(vec![
            // e7 3c then 12 -> 0b00010010 (inc=2, out=1)
            link_status_value(0x3CE7, 2, 1),
            // 0a c7 then 11 -> 0b00010001 (inc=1, out=1)
            link_status_value(0xC70A, 1, 1),
        ]),
    ]);
    assert_eq!(command, expected);
    assert_eq!(schema.to_abstract_bits(&command).unwrap(), bytes);
}
