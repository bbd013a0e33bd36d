use snmp_manager::codec::{decode_message, encode_message};
use snmp_manager::error::{Boundary, Error, ProtocolFault};
use snmp_manager::exchange::{receive_capacity, Action, Event, Exchange, MAX_DATAGRAM};
use snmp_manager::message::{
    AgentAddress, AgentIp, Message, Pdu, PduKind, RequestIds, Target, DEFAULT_MAX_REPETITIONS,
};
use snmp_manager::oid::ObjectIdentifier;
use snmp_manager::query::{finish_get, finish_get_bulk, next_walk_seed, prepare_get, prepare_get_bulk};
use snmp_manager::value::{ObjectValue, VarBind, VarBindValue};

fn oid(s: &str) -> ObjectIdentifier {
    ObjectIdentifier::parse(s).unwrap()
}

fn target() -> Target {
    Target::Community {
        address: AgentAddress { ip: AgentIp::V4([127, 0, 0, 1]), port: 161 },
        community: b"public".to_vec(),
    }
}

fn response(request_id: i32, status: i32, index: i32, bindings: Vec<VarBind>) -> Vec<u8> {
    let m = Message {
        version: 1,
        community: b"public".to_vec(),
        pdu: Pdu {
            kind: PduKind::Response,
            request_id,
            error_status: status,
            error_index: index,
            variable_bindings: bindings,
        },
    };
    encode_message(&m).unwrap()
}

fn bind(name: &str, value: ObjectValue) -> VarBind {
    VarBind { name: oid(name), value: VarBindValue::Value(value) }
}

#[test]
fn parse_then_text_round_trip() {
    for s in ["1.3.6.1.2.1.1.1.0", "0", "2.999.4294967295", "1.3"] {
        assert_eq!(ObjectIdentifier::parse(s).unwrap().to_text(), s);
    }
}

#[test]
fn parse_reads_arcs() {
    assert_eq!(*oid("1.3.6.1.2.1.1.1.0").arcs(), vec![1, 3, 6, 1, 2, 1, 1, 1, 0]);
    assert_eq!(oid("01.002").to_text(), "1.2");
}

#[test]
fn parse_rejects_malformed_text() {
    for s in ["", ".", "1.", ".1", "1..2", "1.a", "1.-2", "+1", "4294967296", "1.3.x.4"] {
        assert_eq!(ObjectIdentifier::parse(s).unwrap_err(), Error::MalformedIdentifier, "{}", s);
    }
}

#[test]
fn starts_with_is_literal_prefix() {
    let a = oid("1.3.6.1.2.1.1.1.0");
    assert!(a.starts_with(&oid("1.3.6.1.2.1.1")));
    assert!(a.starts_with(&a));
    assert!(!a.starts_with(&oid("1.3.6.1.2.1.11")));
    assert!(!oid("1.3.6.1.2.1.1").starts_with(&a));
    assert!(!a.starts_with(&oid("1.3.6.1.2.1.1.1.0.5")));
}

#[test]
fn get_request_octets() {
    let b = prepare_get(&target(), 1, &vec![oid("1.3.6.1.2.1.1.1.0")]).unwrap();
    let expected: Vec<u8> = vec![
        0x30, 0x26, 0x02, 0x01, 0x01, 0x04, 0x06, b'p', b'u', b'b', b'l', b'i', b'c', 0xa0, 0x19,
        0x02, 0x01, 0x01, 0x02, 0x01, 0x00, 0x02, 0x01, 0x00, 0x30, 0x0e, 0x30, 0x0c, 0x06, 0x08,
        0x2b, 0x06, 0x01, 0x02, 0x01, 0x01, 0x01, 0x00, 0x05, 0x00,
    ];
    assert_eq!(b, expected);
}

#[test]
fn get_bulk_request_octets() {
    let b = prepare_get_bulk(&target(), 300, &oid("1.3.6.1.2.1.1"), 10).unwrap();
    let m = decode_message(&b).unwrap();
    assert_eq!(m.pdu.kind, PduKind::GetBulkRequest);
    assert_eq!(m.pdu.request_id, 300);
    assert_eq!(m.pdu.error_status, 0);
    assert_eq!(m.pdu.error_index, 10);
    assert_eq!(m.pdu.variable_bindings.len(), 1);
    assert_eq!(m.pdu.variable_bindings[0].name.to_text(), "1.3.6.1.2.1.1");
    assert!(matches!(m.pdu.variable_bindings[0].value, VarBindValue::Unspecified));
    // request id 300 needs two octets: 02 02 01 2c
    assert_eq!(&b[13..19], &[0xa5, 0x18, 0x02, 0x02, 0x01, 0x2c]);
    assert_eq!(DEFAULT_MAX_REPETITIONS, 20);
}

#[test]
fn unencodable_identifier_is_refused() {
    let r = prepare_get(&target(), 1, &vec![oid("7.1")]);
    assert_eq!(r.unwrap_err(), Error::MalformedIdentifier);
    let r = prepare_get(&target(), 1, &vec![oid("1")]);
    assert_eq!(r.unwrap_err(), Error::MalformedIdentifier);
    let r = prepare_get(&target(), 1, &vec![oid("1.40")]);
    assert_eq!(r.unwrap_err(), Error::MalformedIdentifier);
}

#[test]
fn oversized_request_is_refused() {
    let t = Target::Community {
        address: AgentAddress { ip: AgentIp::V4([10, 0, 0, 1]), port: 161 },
        community: vec![b'x'; 70000],
    };
    let r = prepare_get(&t, 1, &vec![oid("1.3.6")]);
    assert_eq!(r.unwrap_err(), Error::RequestTooLarge);
}

#[test]
fn get_scenario_octet_string() {
    let reply = response(7, 0, 0, vec![bind("1.3.6.1.2.1.1.1.0", ObjectValue::OctetString(b"Linux host".to_vec()))]);
    let r = finish_get(7, &reply).unwrap();
    assert_eq!(r.len(), 1);
    assert_eq!(r[0].object_id.to_text(), "1.3.6.1.2.1.1.1.0");
    match &r[0].value {
        ObjectValue::OctetString(b) => assert_eq!(b.as_slice(), b"Linux host"),
        other => panic!("unexpected {:?}", other),
    }
}

#[test]
fn get_bulk_scenario_stops_outside_subtree() {
    let reply = response(
        9,
        0,
        0,
        vec![
            bind("1.3.6.1.2.1.1.1.0", ObjectValue::OctetString(b"a".to_vec())),
            bind("1.3.6.1.2.1.1.2.0", ObjectValue::ObjectIdentifier(oid("1.3.6.1.4.1.8072"))),
            bind("1.3.6.1.2.1.1.3.0", ObjectValue::TimeTicks(12345)),
            bind("1.3.6.1.2.1.2.1.0", ObjectValue::Integer(vec![3])),
            bind("1.3.6.1.2.1.1.4.0", ObjectValue::Integer(vec![4])),
        ],
    );
    let r = finish_get_bulk(9, &oid("1.3.6.1.2.1.1"), &reply).unwrap();
    let names: Vec<String> = r.iter().map(|b| b.object_id.to_text()).collect();
    assert_eq!(names, vec!["1.3.6.1.2.1.1.1.0", "1.3.6.1.2.1.1.2.0", "1.3.6.1.2.1.1.3.0"]);
    assert!(matches!(r[2].value, ObjectValue::TimeTicks(12345)));
}

#[test]
fn get_bulk_stops_at_end_of_mib_view() {
    let reply = response(
        9,
        0,
        0,
        vec![
            bind("1.3.6.1.2.1.1.1.0", ObjectValue::Counter32(5)),
            VarBind { name: oid("1.3.6.1.2.1.1.1.0"), value: VarBindValue::EndOfMibView },
        ],
    );
    let r = finish_get_bulk(9, &oid("1.3.6.1.2.1.1"), &reply).unwrap();
    assert_eq!(r.len(), 1);
}

#[test]
fn agent_error_status_is_protocol_error() {
    let reply = response(
        4,
        2,
        1,
        vec![VarBind { name: oid("1.3.6.1.2.1.1.99.0"), value: VarBindValue::Unspecified }],
    );
    assert_eq!(
        finish_get(4, &reply).unwrap_err(),
        Error::ProtocolError(ProtocolFault::AgentError { status: 2, index: 1 })
    );
}

#[test]
fn mismatched_request_id_is_protocol_error() {
    let reply = response(5, 0, 0, vec![bind("1.3.6.1", ObjectValue::Counter64(1))]);
    let expected = Error::ProtocolError(ProtocolFault::RequestIdMismatch { expected: 6, received: 5 });
    assert_eq!(finish_get(6, &reply).unwrap_err(), expected);
    assert_eq!(finish_get_bulk(6, &oid("1.3"), &reply).unwrap_err(), expected);
}

#[test]
fn markers_are_boundary_conditions() {
    let reply = response(
        1,
        0,
        0,
        vec![VarBind { name: oid("1.3.6.1.2.1.1.9.0"), value: VarBindValue::NoSuchObject }],
    );
    assert_eq!(finish_get(1, &reply).unwrap_err(), Error::BoundaryCondition(Boundary::NoSuchObject));
    let reply = response(
        1,
        0,
        0,
        vec![VarBind { name: oid("1.3.6.1.2.1.1.9.0"), value: VarBindValue::NoSuchInstance }],
    );
    assert_eq!(finish_get(1, &reply).unwrap_err(), Error::BoundaryCondition(Boundary::NoSuchInstance));
}

#[test]
fn request_pdu_is_no_reply() {
    let b = prepare_get(&target(), 1, &vec![oid("1.3.6.1")]).unwrap();
    assert_eq!(finish_get(1, &b).unwrap_err(), Error::MalformedResponse);
}

#[test]
fn malformed_octets_are_refused() {
    let good = response(3, 0, 0, vec![bind("1.3.6.1", ObjectValue::Unsigned32(9))]);
    for cut in 0..good.len() {
        assert_eq!(finish_get(3, &good[..cut].to_vec()).unwrap_err(), Error::MalformedResponse);
    }
    let mut longer = good.clone();
    longer.push(0);
    assert_eq!(finish_get(3, &longer).unwrap_err(), Error::MalformedResponse);
    assert_eq!(finish_get(3, &vec![0xff; 40]).unwrap_err(), Error::MalformedResponse);
    assert!(finish_get(3, &good).is_ok());
}

#[test]
fn every_syntax_round_trips() {
    let values = vec![
        ObjectValue::Integer(vec![0xff, 0x00, 0x12]),
        ObjectValue::OctetString(vec![0xc3, 0x28, 0x00]),
        ObjectValue::ObjectIdentifier(oid("2.999.3")),
        ObjectValue::IpAddress([192, 168, 0, 1]),
        ObjectValue::Counter32(u32::MAX),
        ObjectValue::Unsigned32(128),
        ObjectValue::TimeTicks(0),
        ObjectValue::Opaque(vec![1, 2, 3]),
        ObjectValue::Counter64(u64::MAX),
    ];
    let bindings: Vec<VarBind> = values.iter().map(|v| bind("1.3.6.1.2.1.1.5.0", v.clone())).collect();
    let reply = response(i32::MAX, 0, 0, bindings);
    let r = finish_get(i32::MAX, &reply).unwrap();
    assert_eq!(r.len(), values.len());
    for (got, want) in r.iter().zip(values.iter()) {
        assert_eq!(format!("{:?}", got.value), format!("{:?}", want));
    }
}

#[test]
fn integer32_reads_back_as_integer() {
    let reply = response(1, 0, 0, vec![bind("1.3.6.1", ObjectValue::Integer32(-129))]);
    let r = finish_get(1, &reply).unwrap();
    match &r[0].value {
        ObjectValue::Integer(b) => assert_eq!(b, &vec![0xff, 0x7f]),
        other => panic!("unexpected {:?}", other),
    }
}

#[test]
fn integers_use_minimal_octets() {
    let m = Message {
        version: 1,
        community: vec![],
        pdu: Pdu {
            kind: PduKind::Response,
            request_id: -1,
            error_status: 0,
            error_index: 0,
            variable_bindings: vec![bind("1.3", ObjectValue::Counter32(0x80))],
        },
    };
    let b = encode_message(&m).unwrap();
    let expected: Vec<u8> = vec![
        0x30, 0x1b, 0x02, 0x01, 0x01, 0x04, 0x00, 0xa2, 0x14, 0x02, 0x01, 0xff, 0x02, 0x01, 0x00,
        0x02, 0x01, 0x00, 0x30, 0x09, 0x30, 0x07, 0x06, 0x01, 0x2b, 0x41, 0x02, 0x00, 0x80,
    ];
    assert_eq!(b, expected);
    let back = decode_message(&b).unwrap();
    assert_eq!(back.pdu.request_id, -1);
}

#[test]
fn long_form_lengths_round_trip() {
    let reply = response(2, 0, 0, vec![bind("1.3.6.1", ObjectValue::OctetString(vec![7; 300]))]);
    assert_eq!(reply[1], 0x82);
    let r = finish_get(2, &reply).unwrap();
    match &r[0].value {
        ObjectValue::OctetString(b) => assert_eq!(b.len(), 300),
        other => panic!("unexpected {:?}", other),
    }
}

#[test]
fn request_ids_are_distinct() {
    let mut ids = RequestIds::new(1);
    let a = ids.allocate();
    let b = ids.allocate();
    assert_eq!((a, b), (1, 2));
    let mut top = RequestIds::new(i32::MAX);
    assert_eq!(top.allocate(), i32::MAX);
    assert_eq!(top.allocate(), 1);
}

#[test]
fn timeouts_exhaust_retries() {
    let (mut x, first) = Exchange::start(2);
    assert_eq!(first, Action::Send);
    let mut sends = 1;
    loop {
        match x.on_event(Event::TimedOut) {
            Action::Send => sends += 1,
            Action::Fail(e) => {
                assert_eq!(e, Error::Timeout);
                break;
            }
            other => panic!("unexpected {:?}", other),
        }
    }
    assert_eq!(sends, 3);
    assert_eq!(x.sends, 3);
}

#[test]
fn exchange_checks_sends_and_sizes() {
    let (mut x, _) = Exchange::start(0);
    assert_eq!(x.on_event(Event::Sent { sent: 10, expected: 10 }), Action::AwaitReply);
    assert_eq!(x.on_event(Event::Sent { sent: 9, expected: 10 }), Action::Fail(Error::TransportError));
    assert_eq!(x.on_event(Event::Received { byte_count: 100, capacity: 65535 }), Action::Decode);
    assert_eq!(
        x.on_event(Event::Received { byte_count: 65535, capacity: 65535 }),
        Action::Fail(Error::ResponseTooLarge)
    );
    assert_eq!(x.on_event(Event::IoFailed), Action::Fail(Error::TransportError));
    assert_eq!(x.on_event(Event::TimedOut), Action::Fail(Error::Timeout));
}

#[test]
fn walk_seed_follows_last_binding() {
    let reply = response(
        2,
        0,
        0,
        vec![
            bind("1.3.6.1.2.1.1.1.0", ObjectValue::Counter32(1)),
            bind("1.3.6.1.2.1.1.2.0", ObjectValue::Counter32(2)),
        ],
    );
    let round = finish_get_bulk(2, &oid("1.3.6.1.2.1.1"), &reply).unwrap();
    let seed = oid("1.3.6.1.2.1.1");
    assert_eq!(next_walk_seed(&seed, &round).unwrap().to_text(), "1.3.6.1.2.1.1.2.0");
    assert!(next_walk_seed(&seed, &Vec::new()).is_none());
    // an agent that does not move past the seed ends the walk
    assert!(next_walk_seed(&oid("1.3.6.1.2.1.1.2.0"), &round).is_none());
    assert!(next_walk_seed(&oid("1.3.6.1.2.1.1.3"), &round).is_none());
}

#[test]
fn from_str_parses() {
    let o: ObjectIdentifier = "1.3.6.1".parse().unwrap();
    assert_eq!(*o.arcs(), vec![1, 3, 6, 1]);
    assert!("1..3".parse::<ObjectIdentifier>().is_err());
    let full: ObjectIdentifier = "1.3.6.1.2.1.1.1.0".parse().unwrap();
    assert_eq!(*full.arcs(), vec![1, 3, 6, 1, 2, 1, 1, 1, 0]);
    assert_eq!("".parse::<ObjectIdentifier>().unwrap_err(), Error::MalformedIdentifier);
    assert_eq!("1.3.abc".parse::<ObjectIdentifier>().unwrap_err(), Error::MalformedIdentifier);
    let back: ObjectIdentifier = full.to_text().parse().unwrap();
    assert_eq!(*back.arcs(), *full.arcs());
}

fn relength(short: &[u8], octets: usize) -> Vec<u8> {
    // Rewrites a message whose outer SEQUENCE uses a one-octet length into
    // one that uses the long form with `octets` length octets.
    let n = short[1] as usize;
    let mut out = vec![short[0], 0x80 | octets as u8];
    for k in (0..octets).rev() {
        out.push(((n >> (8 * k)) & 0xff) as u8);
    }
    out.extend_from_slice(&short[2..]);
    out
}

#[test]
fn long_form_lengths_of_any_octet_count_decode() {
    let reply = response(11, 0, 0, vec![bind("1.3.6.1", ObjectValue::TimeTicks(5))]);
    assert!(reply[1] < 0x80);
    for octets in 1..=4 {
        let r = finish_get(11, &relength(&reply, octets)).unwrap();
        assert!(matches!(r[0].value, ObjectValue::TimeTicks(5)));
    }
    let mut indefinite = reply.clone();
    indefinite[1] = 0x80;
    assert_eq!(finish_get(11, &indefinite).unwrap_err(), Error::MalformedResponse);
    assert_eq!(finish_get(11, &relength(&reply, 5)).unwrap_err(), Error::MalformedResponse);
}

#[test]
fn non_minimal_integer_is_not_encoded() {
    for bad in [vec![], vec![0x00, 0x01], vec![0xff, 0x80]] {
        let m = Message {
            version: 1,
            community: vec![],
            pdu: Pdu {
                kind: PduKind::Response,
                request_id: 1,
                error_status: 0,
                error_index: 0,
                variable_bindings: vec![bind("1.3", ObjectValue::Integer(bad))],
            },
        };
        assert_eq!(encode_message(&m).unwrap_err(), Error::MalformedValue);
    }
}

#[test]
fn integer_octets_as_i64() {
    assert_eq!(snmp_manager::ber::integer_as_i64(&vec![0xfe, 0xd4]), Some(-300));
    assert_eq!(snmp_manager::ber::integer_as_i64(&vec![0x00, 0x80]), Some(128));
    assert_eq!(snmp_manager::ber::integer_as_i64(&vec![0x80, 0, 0, 0, 0, 0, 0, 0]), Some(i64::MIN));
    assert_eq!(snmp_manager::ber::integer_as_i64(&vec![0x7f, 0xff, 0xff, 0xff, 0xff, 0xff, 0xff, 0xff]), Some(i64::MAX));
    assert_eq!(snmp_manager::ber::integer_as_i64(&vec![]), None);
    assert_eq!(snmp_manager::ber::integer_as_i64(&vec![1; 9]), None);
}

#[test]
fn identifier_order_is_lexicographic() {
    assert!(oid("1.3.6").precedes(&oid("1.3.6.1")));
    assert!(oid("1.3.6.1").precedes(&oid("1.3.7")));
    assert!(oid("1.3.6.2").precedes(&oid("1.3.6.10")));
    assert!(!oid("1.3.6").precedes(&oid("1.3.6")));
    assert!(!oid("1.3.7").precedes(&oid("1.3.6.1")));
}

#[test]
fn stray_datagrams_keep_waiting() {
    let (mut x, _) = Exchange::start(1);
    assert_eq!(x.on_event(Event::Stray), Action::AwaitReply);
    assert_eq!(x.sends, 1);
}

#[test]
fn receive_buffer_is_bounded() {
    assert_eq!(receive_capacity(0), MAX_DATAGRAM);
    assert_eq!(receive_capacity(1500), 1500);
    assert_eq!(receive_capacity(MAX_DATAGRAM + 1), MAX_DATAGRAM);
}
