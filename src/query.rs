//! GET and GET-BULK without the transport: the request octets to send, and
//! what a reply's octets yield.
use vstd::prelude::*;

use crate::codec::{
    decode_message, encode_message, ints_ok, lemma_message_round_trip, message_bytes,
    message_encodable, message_reads_back, read_message, int_ok, slot_reads_back,
};
use crate::error::{Error, ProtocolFault};
use crate::message::{
    build_get_bulk_request, build_get_request, bulk_values, check_reply,
    lemma_bulk_within_root, read_bulk_values, read_values, reply_verdict, request_bindings,
    values_of, MessageModel, PduKind, Target, VERSION_V2C,
};
use crate::oid::{is_prefix, oid_before, ObjectIdentifier};
use crate::value::{clone_oid, SlotModel, ValueModel, VariableBinding};

verus! {

/// A request as the HTTP front end hands it over.
#[derive(Debug, Clone)]
pub enum SnmpRequest {
    Get { oids: Vec<ObjectIdentifier> },
    GetBulk { oid: ObjectIdentifier },
}

/// The GetRequest that `prepare_get` encodes.
pub open spec fn get_request_model(community: Seq<u8>, request_id: i32, oids: Seq<Seq<u32>>) -> MessageModel {
    MessageModel {
        version: VERSION_V2C,
        community,
        kind: PduKind::GetRequest,
        request_id,
        error_status: 0,
        error_index: 0,
        bindings: request_bindings(oids),
    }
}

/// The GetBulkRequest that `prepare_get_bulk` encodes.
pub open spec fn bulk_request_model(
    community: Seq<u8>,
    request_id: i32,
    root: Seq<u32>,
    max_repetitions: i32,
) -> MessageModel {
    MessageModel {
        version: VERSION_V2C,
        community,
        kind: PduKind::GetBulkRequest,
        request_id,
        error_status: 0,
        error_index: max_repetitions,
        bindings: request_bindings(seq![root]),
    }
}

/// What a GET yields from the reply octets `b`.
pub open spec fn get_outcome(expected_id: i32, b: Seq<u8>) -> Result<Seq<(Seq<u32>, ValueModel)>, Error> {
    match read_message(b) {
        None => Err(Error::MalformedResponse),
        Some(m) => match reply_verdict(expected_id, m) {
            Err(e) => Err(e),
            Ok(_) => values_of(m.bindings),
        },
    }
}

/// What a GET-BULK walk step under `root` yields from the reply octets `b`.
pub open spec fn bulk_outcome(expected_id: i32, root: Seq<u32>, b: Seq<u8>) -> Result<
    Seq<(Seq<u32>, ValueModel)>,
    Error,
> {
    match read_message(b) {
        None => Err(Error::MalformedResponse),
        Some(m) => match reply_verdict(expected_id, m) {
            Err(e) => Err(e),
            Ok(_) => bulk_values(root, m.bindings),
        },
    }
}

/// The octets of a GetRequest for `oids`.
pub fn prepare_get(target: &Target, request_id: i32, oids: &Vec<ObjectIdentifier>) -> (r: Result<
    Vec<u8>,
    Error,
>)
    ensures
        ({
            let m = get_request_model(
                target.spec_community(),
                request_id,
                oids@.map_values(|o: ObjectIdentifier| o@),
            );
            &&& r is Ok <==> message_encodable(m)
            &&& r matches Ok(b) ==> b@ == message_bytes(m)
            &&& r matches Err(e) ==> e == Error::MalformedIdentifier || e == Error::RequestTooLarge
        }),
{
    let m = build_get_request(target, request_id, oids);
    proof {
        assert(ints_ok(m@)) by {
            assert forall|j: int| 0 <= j < m@.bindings.len() implies int_ok(#[trigger] m@.bindings[j]) by {
                assert(m@.bindings[j].1 == SlotModel::Unspecified);
            }
        }
    }
    encode_message(&m)
}

/// The octets of a GetBulkRequest seeded at `root`.
pub fn prepare_get_bulk(
    target: &Target,
    request_id: i32,
    root: &ObjectIdentifier,
    max_repetitions: i32,
) -> (r: Result<Vec<u8>, Error>)
    requires
        max_repetitions > 0,
    ensures
        ({
            let m = bulk_request_model(target.spec_community(), request_id, root@, max_repetitions);
            &&& r is Ok <==> message_encodable(m)
            &&& r matches Ok(b) ==> b@ == message_bytes(m)
            &&& r matches Err(e) ==> e == Error::MalformedIdentifier || e == Error::RequestTooLarge
        }),
{
    let m = build_get_bulk_request(target, request_id, root, max_repetitions);
    proof {
        assert(request_bindings(seq![root@]) == seq![(root@, SlotModel::Unspecified)]);
        assert(ints_ok(m@)) by {
            assert forall|j: int| 0 <= j < m@.bindings.len() implies int_ok(#[trigger] m@.bindings[j]) by {
                assert(m@.bindings[j].1 == SlotModel::Unspecified);
            }
        }
    }
    encode_message(&m)
}

/// The bindings that a GET's reply reports, in the agent's order.
pub fn finish_get(request_id: i32, reply: &Vec<u8>) -> (r: Result<Vec<VariableBinding>, Error>)
    ensures
        match get_outcome(request_id, reply@) {
            Ok(s) => r matches Ok(v) && v@.map_values(|b: VariableBinding| b@) == s,
            Err(e) => r == Err::<Vec<VariableBinding>, Error>(e),
        },
{
    let m = decode_message(reply)?;
    check_reply(request_id, &m)?;
    read_values(&m.pdu.variable_bindings)
}

/// The bindings under `root` that a GET-BULK's reply reports, in the
/// agent's order, up to the first one outside `root` or at the end of the
/// MIB view. None lies outside `root`, and there are never more than the
/// reply holds.
pub fn finish_get_bulk(request_id: i32, root: &ObjectIdentifier, reply: &Vec<u8>) -> (r: Result<
    Vec<VariableBinding>,
    Error,
>)
    ensures
        match bulk_outcome(request_id, root@, reply@) {
            Ok(s) => r matches Ok(v) && v@.map_values(|b: VariableBinding| b@) == s,
            Err(e) => r == Err::<Vec<VariableBinding>, Error>(e),
        },
        r matches Ok(v) ==> (forall|k: int|
            0 <= k < v@.len() ==> is_prefix(root@, #[trigger] v@[k].object_id@)) && v@.len()
            <= read_message(reply@)->Some_0.bindings.len(),
{
    let m = decode_message(reply)?;
    check_reply(request_id, &m)?;
    let r = read_bulk_values(root, &m.pdu.variable_bindings);
    proof {
        lemma_bulk_within_root(root@, m@.bindings);
        match &r {
            Ok(v) => {
                let s = v@.map_values(|b: VariableBinding| b@);
                assert forall|k: int| 0 <= k < v@.len() implies is_prefix(
                    root@,
                    #[trigger] v@[k].object_id@,
                ) by {
                    assert(s[k].0 == v@[k].object_id@);
                }
            },
            Err(_) => {},
        }
    }
    r
}

/// Where a subtree walk goes after one GET-BULK round seeded at `seed`: on
/// from the last identifier the round returned, provided it lies after the
/// seed; nowhere when the round returned nothing under the root, or when the
/// agent did not move forward (which would make the walk repeat forever).
pub fn next_walk_seed(seed: &ObjectIdentifier, round: &Vec<VariableBinding>) -> (r: Option<
    ObjectIdentifier,
>)
    ensures
        r is Some <==> round@.len() > 0 && oid_before(seed@, round@.last().object_id@),
        r matches Some(o) ==> o@ == round@.last().object_id@ && oid_before(seed@, o@),
{
    if round.len() == 0 {
        return None;
    }
    let last = &round[round.len() - 1].object_id;
    assert(round@.last() == round@[round@.len() - 1]);
    if !seed.precedes(last) {
        return None;
    }
    Some(clone_oid(last))
}

/// A decoded v2c Response whose request id differs from the request's is
/// refused with a protocol error, by GET and by GET-BULK alike.
pub proof fn lemma_mismatched_id_rejected(expected_id: i32, root: Seq<u32>, b: Seq<u8>)
    requires
        read_message(b) matches Some(m) && m.kind == PduKind::Response && m.version == VERSION_V2C
            && m.request_id != expected_id,
    ensures
        get_outcome(expected_id, b) == Err::<Seq<(Seq<u32>, ValueModel)>, Error>(
            Error::ProtocolError(
                ProtocolFault::RequestIdMismatch {
                    expected: expected_id,
                    received: read_message(b)->Some_0.request_id,
                },
            ),
        ),
        bulk_outcome(expected_id, root, b) == get_outcome(expected_id, b),
{
}

/// The values of bindings that all hold values: each name with its value, in order.
pub open spec fn all_values(bs: Seq<(Seq<u32>, SlotModel)>) -> Seq<(Seq<u32>, ValueModel)> {
    bs.map_values(|b: (Seq<u32>, SlotModel)| (b.0, b.1->Value_0))
}

proof fn lemma_values_all(bs: Seq<(Seq<u32>, SlotModel)>)
    requires
        forall|j: int| 0 <= j < bs.len() ==> #[trigger] bs[j].1 is Value,
    ensures
        values_of(bs) == Ok::<Seq<(Seq<u32>, ValueModel)>, Error>(all_values(bs)),
    decreases bs.len(),
{
    if bs.len() > 0 {
        assert(bs[0].1 is Value);
        assert forall|j: int| 0 <= j < bs.drop_first().len() implies #[trigger] bs.drop_first()[j].1 is Value by {
            assert(bs.drop_first()[j] == bs[j + 1]);
        }
        lemma_values_all(bs.drop_first());
        let v = bs[0].1->Value_0;
        assert(bs[0].1 == SlotModel::Value(v));
        assert(values_of(bs.drop_first()) == Ok::<Seq<(Seq<u32>, ValueModel)>, Error>(
            all_values(bs.drop_first()),
        ));
        assert(values_of(bs) == Ok::<Seq<(Seq<u32>, ValueModel)>, Error>(
            seq![(bs[0].0, v)] + all_values(bs.drop_first()),
        ));
        assert(seq![(bs[0].0, v)] + all_values(bs.drop_first()) == all_values(bs));
    } else {
        assert(all_values(bs) == Seq::<(Seq<u32>, ValueModel)>::empty());
    }
}

/// A GET whose reply is the encoding of a v2c Response that answers it
/// (same request id, error-status zero) and whose bindings all hold values
/// yields exactly those bindings, in the agent's order, nothing lost. The
/// reply must be encodable and hold no `Integer32`, which reads back as
/// `Integer`.
pub proof fn lemma_get_reply_values(expected_id: i32, m: MessageModel)
    requires
        m.kind == PduKind::Response,
        m.version == VERSION_V2C,
        m.request_id == expected_id,
        m.error_status == 0,
        message_encodable(m),
        message_reads_back(m),
        forall|j: int| 0 <= j < m.bindings.len() ==> #[trigger] m.bindings[j].1 is Value,
    ensures
        get_outcome(expected_id, message_bytes(m)) == Ok::<Seq<(Seq<u32>, ValueModel)>, Error>(
            all_values(m.bindings),
        ),
        all_values(m.bindings).len() == m.bindings.len(),
{
    lemma_message_round_trip(m);
    lemma_values_all(m.bindings);
}

/// The octets that `prepare_get` sends decode to the GetRequest it describes:
/// version, community, request id, cleared error fields, and each identifier
/// with an unspecified value, in order.
pub proof fn lemma_get_request_reads_back(community: Seq<u8>, request_id: i32, oids: Seq<Seq<u32>>)
    requires
        message_encodable(get_request_model(community, request_id, oids)),
    ensures
        read_message(message_bytes(get_request_model(community, request_id, oids))) == Some(
            get_request_model(community, request_id, oids),
        ),
{
    let m = get_request_model(community, request_id, oids);
    assert forall|j: int| 0 <= j < m.bindings.len() implies slot_reads_back(#[trigger] m.bindings[j].1) by {
        assert(m.bindings[j].1 == SlotModel::Unspecified);
    }
    lemma_message_round_trip(m);
}

/// The octets that `prepare_get_bulk` sends decode to the GetBulkRequest it
/// describes: no non-repeaters, the caller's max-repetitions, the root with
/// an unspecified value.
pub proof fn lemma_bulk_request_reads_back(
    community: Seq<u8>,
    request_id: i32,
    root: Seq<u32>,
    max_repetitions: i32,
)
    requires
        message_encodable(bulk_request_model(community, request_id, root, max_repetitions)),
    ensures
        read_message(message_bytes(bulk_request_model(community, request_id, root, max_repetitions)))
            == Some(bulk_request_model(community, request_id, root, max_repetitions)),
{
    let m = bulk_request_model(community, request_id, root, max_repetitions);
    assert forall|j: int| 0 <= j < m.bindings.len() implies slot_reads_back(#[trigger] m.bindings[j].1) by {
        assert(m.bindings[j].1 == SlotModel::Unspecified);
    }
    lemma_message_round_trip(m);
}

} // verus!
