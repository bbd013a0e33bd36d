use rasn::types::{Integer, ObjectIdentifier as RasnOid, OctetString};
use rasn_smi::v1::{Counter, Gauge, IpAddress, TimeTicks};
use rasn_smi::v2::{ApplicationSyntax, Counter64, ObjectSyntax, SimpleSyntax};
use rasn_snmp::v2::{BulkPdu, GetBulkRequest, GetRequest, Pdu as RasnPdu, Response, VarBind as RasnVarBind, VarBindValue as RasnValue};
use rasn_snmp::v2c::Message as RasnMessage;

use snmp_manager::codec::{decode_message, encode_message};
use snmp_manager::message::{AgentAddress, AgentIp, Message, Pdu, PduKind, Target};
use snmp_manager::oid::ObjectIdentifier;
use snmp_manager::query::{finish_get, prepare_get, prepare_get_bulk};
use snmp_manager::value::{ObjectValue, VarBind, VarBindValue};

fn rasn_oid(arcs: &[u32]) -> RasnOid {
    RasnOid::new(arcs.to_vec()).unwrap()
}

fn target() -> Target {
    Target::Community {
        address: AgentAddress { ip: AgentIp::V4([127, 0, 0, 1]), port: 161 },
        community: b"public".to_vec(),
    }
}

#[test]
fn get_request_matches_rasn() {
    let ours = prepare_get(
        &target(),
        1234,
        &vec![
            ObjectIdentifier::parse("1.3.6.1.2.1.1.1.0").unwrap(),
            ObjectIdentifier::parse("1.3.6.1.2.1.1.5.0").unwrap(),
        ],
    )
    .unwrap();
    let theirs = RasnMessage {
        version: 1.into(),
        community: OctetString::from(b"public".to_vec()),
        data: GetRequest(RasnPdu {
            request_id: 1234,
            error_status: 0,
            error_index: 0,
            variable_bindings: vec![
                RasnVarBind { name: rasn_oid(&[1, 3, 6, 1, 2, 1, 1, 1, 0]), value: RasnValue::Unspecified },
                RasnVarBind { name: rasn_oid(&[1, 3, 6, 1, 2, 1, 1, 5, 0]), value: RasnValue::Unspecified },
            ],
        }),
    };
    assert_eq!(ours, rasn::ber::encode(&theirs).unwrap());
}

#[test]
fn get_bulk_request_matches_rasn() {
    let root = ObjectIdentifier::parse("1.3.6.1.2.1.2.2.1.200000").unwrap();
    let ours = prepare_get_bulk(&target(), 70000, &root, 20).unwrap();
    let theirs = RasnMessage {
        version: 1.into(),
        community: OctetString::from(b"public".to_vec()),
        data: GetBulkRequest(BulkPdu {
            request_id: 70000,
            non_repeaters: 0,
            max_repetitions: 20,
            variable_bindings: vec![RasnVarBind {
                name: rasn_oid(&[1, 3, 6, 1, 2, 1, 2, 2, 1, 200000]),
                value: RasnValue::Unspecified,
            }],
        }),
    };
    assert_eq!(ours, rasn::ber::encode(&theirs).unwrap());
}

#[test]
fn rasn_response_decodes() {
    let app = |s: ApplicationSyntax| RasnValue::Value(ObjectSyntax::ApplicationWide(s));
    let simple = |s: SimpleSyntax| RasnValue::Value(ObjectSyntax::Simple(s));
    let name = rasn_oid(&[1, 3, 6, 1, 2, 1, 1, 3, 0]);
    let theirs = RasnMessage {
        version: 1.into(),
        community: OctetString::from(b"public".to_vec()),
        data: Response(RasnPdu {
            request_id: -5,
            error_status: 0,
            error_index: 0,
            variable_bindings: vec![
                RasnVarBind { name: name.clone(), value: simple(SimpleSyntax::Integer(Integer::from(-300))) },
                RasnVarBind { name: name.clone(), value: simple(SimpleSyntax::String(OctetString::from(b"Linux host".to_vec()))) },
                RasnVarBind { name: name.clone(), value: simple(SimpleSyntax::ObjectId(rasn_oid(&[1, 3, 6, 1, 4, 1, 8072]))) },
                RasnVarBind { name: name.clone(), value: app(ApplicationSyntax::Address(IpAddress([10, 0, 0, 7].into()))) },
                RasnVarBind { name: name.clone(), value: app(ApplicationSyntax::Counter(Counter(4_000_000_000))) },
                RasnVarBind { name: name.clone(), value: app(ApplicationSyntax::Unsigned(Gauge(255))) },
                RasnVarBind { name: name.clone(), value: app(ApplicationSyntax::Ticks(TimeTicks(123456))) },
                RasnVarBind { name: name.clone(), value: app(ApplicationSyntax::BigCounter(Counter64(u64::MAX))) },
            ],
        }),
    };
    let bytes = rasn::ber::encode(&theirs).unwrap();
    let r = finish_get(-5, &bytes).unwrap();
    let got: Vec<String> = r.iter().map(|b| format!("{:?}", b.value)).collect();
    let want: Vec<String> = vec![
        ObjectValue::Integer(vec![0xfe, 0xd4]),
        ObjectValue::OctetString(b"Linux host".to_vec()),
        ObjectValue::ObjectIdentifier(ObjectIdentifier::parse("1.3.6.1.4.1.8072").unwrap()),
        ObjectValue::IpAddress([10, 0, 0, 7]),
        ObjectValue::Counter32(4_000_000_000),
        ObjectValue::Unsigned32(255),
        ObjectValue::TimeTicks(123456),
        ObjectValue::Counter64(u64::MAX),
    ]
    .iter()
    .map(|v| format!("{:?}", v))
    .collect();
    assert_eq!(got, want);
}

#[test]
fn our_response_decodes_with_rasn() {
    let m = Message {
        version: 1,
        community: b"private".to_vec(),
        pdu: Pdu {
            kind: PduKind::Response,
            request_id: 42,
            error_status: 0,
            error_index: 0,
            variable_bindings: vec![
                VarBind {
                    name: ObjectIdentifier::parse("1.3.6.1.2.1.1.3.0").unwrap(),
                    value: VarBindValue::Value(ObjectValue::TimeTicks(99)),
                },
                VarBind {
                    name: ObjectIdentifier::parse("1.3.6.1.2.1.1.9.0").unwrap(),
                    value: VarBindValue::EndOfMibView,
                },
            ],
        },
    };
    let bytes = encode_message(&m).unwrap();
    let theirs: RasnMessage<Response> = rasn::ber::decode(&bytes).unwrap();
    assert_eq!(theirs.data.0.request_id, 42);
    assert_eq!(theirs.data.0.variable_bindings.len(), 2);
    assert_eq!(
        theirs.data.0.variable_bindings[0].value,
        RasnValue::Value(ObjectSyntax::ApplicationWide(ApplicationSyntax::Ticks(TimeTicks(99))))
    );
    assert_eq!(theirs.data.0.variable_bindings[1].value, RasnValue::EndOfMibView);
    assert_eq!(decode_message(&bytes).unwrap().pdu.request_id, 42);
}
