//! v2c messages: building requests, checking replies, and reading their bindings.
use vstd::prelude::*;

use crate::error::{Error, ProtocolFault};
use crate::oid::{is_prefix, ObjectIdentifier};
use crate::value::{
    clone_oid, convert, slot_marker, SlotModel, ValueModel, VarBind,
    VarBindValue, VariableBinding,
};

verus! {

/// The version field of a v2c message.
pub const VERSION_V2C: i32 = 1;

/// The max-repetitions that a GET-BULK asks for when the caller names none.
pub const DEFAULT_MAX_REPETITIONS: i32 = 20;

#[derive(Debug, Clone, Copy, PartialEq, Eq, Structural)]
pub enum PduKind {
    GetRequest,
    GetBulkRequest,
    Response,
}

/// A PDU. For `GetBulkRequest` the two middle fields hold non-repeaters and
/// max-repetitions, which stand where the others hold error-status and
/// error-index.
#[derive(Debug, Clone)]
pub struct Pdu {
    pub kind: PduKind,
    pub request_id: i32,
    pub error_status: i32,
    pub error_index: i32,
    pub variable_bindings: Vec<VarBind>,
}

#[derive(Debug, Clone)]
pub struct Message {
    pub version: i32,
    pub community: Vec<u8>,
    pub pdu: Pdu,
}

pub ghost struct MessageModel {
    pub version: i32,
    pub community: Seq<u8>,
    pub kind: PduKind,
    pub request_id: i32,
    pub error_status: i32,
    pub error_index: i32,
    pub bindings: Seq<(Seq<u32>, SlotModel)>,
}

impl View for Message {
    type V = MessageModel;

    open spec fn view(&self) -> MessageModel {
        MessageModel {
            version: self.version,
            community: self.community@,
            kind: self.pdu.kind,
            request_id: self.pdu.request_id,
            error_status: self.pdu.error_status,
            error_index: self.pdu.error_index,
            bindings: self.pdu.variable_bindings@.map_values(|b: VarBind| b@),
        }
    }
}

/// An IP address of an agent.
#[derive(Debug, Clone, Copy)]
pub enum AgentIp {
    V4([u8; 4]),
    V6([u16; 8]),
}

/// A UDP endpoint: address and port (161 for agents, conventionally).
#[derive(Debug, Clone, Copy)]
pub struct AgentAddress {
    pub ip: AgentIp,
    pub port: u16,
}

/// An agent and the credential used to reach it.
#[derive(Debug, Clone)]
pub enum Target {
    Community { address: AgentAddress, community: Vec<u8> },
}

impl Target {
    pub open spec fn spec_community(&self) -> Seq<u8> {
        match self {
            Target::Community { community, .. } => community@,
        }
    }

    pub fn get_address(&self) -> (r: &AgentAddress)
        ensures
            match self {
                Target::Community { address, .. } => r == address,
            },
    {
        match self {
            Target::Community { address, .. } => address,
        }
    }

    pub fn community(&self) -> (r: &Vec<u8>)
        ensures
            match self {
                Target::Community { community, .. } => r == community,
            },
    {
        match self {
            Target::Community { community, .. } => community,
        }
    }
}

/// Hands out request ids: positive, increasing, and back to 1 after
/// `i32::MAX`, so that no two outstanding requests share one.
#[derive(Debug)]
pub struct RequestIds {
    pub next: i32,
}

impl RequestIds {
    pub open spec fn wf(&self) -> bool {
        self.next >= 1
    }

    /// Starts at `first`, or at 1 when `first` is not positive.
    pub fn new(first: i32) -> (r: RequestIds)
        ensures
            r.wf(),
            r.next == if first >= 1 { first } else { 1 },
    {
        RequestIds { next: if first >= 1 { first } else { 1 } }
    }

    pub fn allocate(&mut self) -> (r: i32)
        requires
            old(self).wf(),
        ensures
            r == old(self).next,
            final(self).wf(),
            final(self).next == if old(self).next == i32::MAX { 1 } else { old(self).next + 1 },
    {
        let r = self.next;
        self.next = if r == i32::MAX { 1 } else { r + 1 };
        r
    }
}

/// The bindings of a request: each identifier with an unspecified value.
pub open spec fn request_bindings(oids: Seq<Seq<u32>>) -> Seq<(Seq<u32>, SlotModel)> {
    oids.map_values(|o: Seq<u32>| (o, SlotModel::Unspecified))
}

fn unspecified_bindings(oids: &Vec<ObjectIdentifier>) -> (r: Vec<VarBind>)
    ensures
        r@.map_values(|b: VarBind| b@) == request_bindings(oids@.map_values(|o: ObjectIdentifier| o@)),
{
    let mut r: Vec<VarBind> = Vec::new();
    let mut i: usize = 0;
    while i < oids.len()
        invariant
            i <= oids@.len(),
            r@.map_values(|b: VarBind| b@) == request_bindings(
                oids@.take(i as int).map_values(|o: ObjectIdentifier| o@),
            ),
        decreases oids@.len() - i,
    {
        r.push(VarBind { name: clone_oid(&oids[i]), value: VarBindValue::Unspecified });
        proof {
            assert(oids@.take(i + 1 as int).map_values(|o: ObjectIdentifier| o@) == oids@.take(
                i as int,
            ).map_values(|o: ObjectIdentifier| o@).push(oids@[i as int]@));
            assert(r@.map_values(|b: VarBind| b@) == request_bindings(
                oids@.take(i as int).map_values(|o: ObjectIdentifier| o@),
            ).push((oids@[i as int]@, SlotModel::Unspecified)));
        }
        i = i + 1;
    }
    proof {
        assert(oids@.take(i as int) == oids@);
    }
    r
}

/// A GetRequest for `oids`, in their order, with error fields cleared.
pub fn build_get_request(target: &Target, request_id: i32, oids: &Vec<ObjectIdentifier>) -> (r:
    Message)
    ensures
        r@ == (MessageModel {
            version: VERSION_V2C,
            community: target.spec_community(),
            kind: PduKind::GetRequest,
            request_id,
            error_status: 0,
            error_index: 0,
            bindings: request_bindings(oids@.map_values(|o: ObjectIdentifier| o@)),
        }),
{
    Message {
        version: VERSION_V2C,
        community: target.community().clone(),
        pdu: Pdu {
            kind: PduKind::GetRequest,
            request_id,
            error_status: 0,
            error_index: 0,
            variable_bindings: unspecified_bindings(oids),
        },
    }
}

/// A GetBulkRequest seeded at `root`: no non-repeaters, `max_repetitions`
/// successors asked for.
pub fn build_get_bulk_request(
    target: &Target,
    request_id: i32,
    root: &ObjectIdentifier,
    max_repetitions: i32,
) -> (r: Message)
    requires
        max_repetitions > 0,
    ensures
        r@ == (MessageModel {
            version: VERSION_V2C,
            community: target.spec_community(),
            kind: PduKind::GetBulkRequest,
            request_id,
            error_status: 0,
            error_index: max_repetitions,
            bindings: seq![(root@, SlotModel::Unspecified)],
        }),
{
    let mut bindings: Vec<VarBind> = Vec::new();
    bindings.push(VarBind { name: clone_oid(root), value: VarBindValue::Unspecified });
    proof {
        assert(bindings@.map_values(|b: VarBind| b@) == seq![(root@, SlotModel::Unspecified)]);
    }
    Message {
        version: VERSION_V2C,
        community: target.community().clone(),
        pdu: Pdu {
            kind: PduKind::GetBulkRequest,
            request_id,
            error_status: 0,
            error_index: max_repetitions,
            variable_bindings: bindings,
        },
    }
}

/// Whether a decoded reply answers the request with id `expected_id`.
pub open spec fn reply_verdict(expected_id: i32, m: MessageModel) -> Result<(), Error> {
    if m.kind != PduKind::Response || m.version != VERSION_V2C {
        Err(Error::MalformedResponse)
    } else if m.request_id != expected_id {
        Err(
            Error::ProtocolError(
                ProtocolFault::RequestIdMismatch { expected: expected_id, received: m.request_id },
            ),
        )
    } else if m.error_status != 0 {
        Err(
            Error::ProtocolError(
                ProtocolFault::AgentError { status: m.error_status, index: m.error_index },
            ),
        )
    } else {
        Ok(())
    }
}

/// Refuses a reply that is no v2c Response, that carries another request id,
/// or whose error-status is not zero.
pub fn check_reply(expected_id: i32, reply: &Message) -> (r: Result<(), Error>)
    ensures
        r == reply_verdict(expected_id, reply@),
{
    if reply.pdu.kind != PduKind::Response || reply.version != VERSION_V2C {
        Err(Error::MalformedResponse)
    } else if reply.pdu.request_id != expected_id {
        Err(
            Error::ProtocolError(
                ProtocolFault::RequestIdMismatch {
                    expected: expected_id,
                    received: reply.pdu.request_id,
                },
            ),
        )
    } else if reply.pdu.error_status != 0 {
        Err(
            Error::ProtocolError(
                ProtocolFault::AgentError {
                    status: reply.pdu.error_status,
                    index: reply.pdu.error_index,
                },
            ),
        )
    } else {
        Ok(())
    }
}

/// The values of all bindings, in order; the first marker met is a boundary condition.
pub open spec fn values_of(bs: Seq<(Seq<u32>, SlotModel)>) -> Result<
    Seq<(Seq<u32>, ValueModel)>,
    Error,
>
    decreases bs.len(),
{
    if bs.len() == 0 {
        Ok(Seq::empty())
    } else {
        match bs[0].1 {
            SlotModel::Value(v) => match values_of(bs.drop_first()) {
                Ok(t) => Ok(seq![(bs[0].0, v)] + t),
                Err(e) => Err(e),
            },
            _ => Err(Error::BoundaryCondition(slot_marker(bs[0].1)->Some_0)),
        }
    }
}

/// A binding that a GET-BULK walk of `root` keeps going over.
pub open spec fn in_scope(root: Seq<u32>, b: (Seq<u32>, SlotModel)) -> bool {
    is_prefix(root, b.0) && b.1 != SlotModel::EndOfMibView
}

/// The bindings of a GET-BULK reply under `root`, in order, up to the first
/// one that is outside `root` or marks the end of the MIB view; another
/// marker before that point is a boundary condition.
pub open spec fn bulk_values(root: Seq<u32>, bs: Seq<(Seq<u32>, SlotModel)>) -> Result<
    Seq<(Seq<u32>, ValueModel)>,
    Error,
>
    decreases bs.len(),
{
    if bs.len() == 0 || !in_scope(root, bs[0]) {
        Ok(Seq::empty())
    } else {
        match bs[0].1 {
            SlotModel::Value(v) => match bulk_values(root, bs.drop_first()) {
                Ok(t) => Ok(seq![(bs[0].0, v)] + t),
                Err(e) => Err(e),
            },
            _ => Err(Error::BoundaryCondition(slot_marker(bs[0].1)->Some_0)),
        }
    }
}

pub open spec fn prepend<T>(done: Seq<T>, r: Result<Seq<T>, Error>) -> Result<Seq<T>, Error> {
    match r {
        Ok(t) => Ok(done + t),
        Err(e) => Err(e),
    }
}

/// The values of a reply's bindings, in the order the agent sent them.
pub fn read_values(bindings: &Vec<VarBind>) -> (r: Result<Vec<VariableBinding>, Error>)
    ensures
        match values_of(bindings@.map_values(|b: VarBind| b@)) {
            Ok(s) => r matches Ok(v) && v@.map_values(|b: VariableBinding| b@) == s,
            Err(e) => r == Err::<Vec<VariableBinding>, Error>(e),
        },
{
    let ghost bs = bindings@.map_values(|b: VarBind| b@);
    let mut out: Vec<VariableBinding> = Vec::new();
    let mut i: usize = 0;
    proof {
        assert(bs.skip(0) == bs);
        match values_of(bs) {
            Ok(t) => {
                assert(Seq::<(Seq<u32>, ValueModel)>::empty() + t == t);
            },
            Err(e) => {},
        }
    }
    while i < bindings.len()
        invariant
            i <= bindings@.len(),
            bs == bindings@.map_values(|b: VarBind| b@),
            values_of(bs) == prepend(out@.map_values(|b: VariableBinding| b@), values_of(bs.skip(i as int))),
        decreases bindings@.len() - i,
    {
        let b = &bindings[i];
        proof {
            let rest = bs.skip(i as int);
            assert(rest[0] == b@);
            assert(rest.drop_first() == bs.skip(i + 1 as int));
        }
        match convert(&b.value) {
            Ok(v) => {
                let ghost o_old = out@.map_values(|b: VariableBinding| b@);
                let ghost x = (b.name@, v@);
                out.push(VariableBinding { object_id: clone_oid(&b.name), value: v });
                proof {
                    let o = out@.map_values(|b: VariableBinding| b@);
                    assert(o == o_old.push(x));
                    match values_of(bs.skip(i + 1 as int)) {
                        Ok(t) => {
                            assert(o_old + (seq![x] + t) == o + t);
                        },
                        Err(e) => {},
                    }
                }
            },
            Err(e) => {
                return Err(e);
            },
        }
        i = i + 1;
    }
    proof {
        assert(bs.skip(i as int).len() == 0);
        assert(out@.map_values(|b: VariableBinding| b@) + Seq::empty() == out@.map_values(|b: VariableBinding| b@));
    }
    Ok(out)
}

/// The bindings of a GET-BULK reply that lie under `root`, in order, up to
/// the first one outside `root` or marking the end of the MIB view.
pub fn read_bulk_values(root: &ObjectIdentifier, bindings: &Vec<VarBind>) -> (r: Result<
    Vec<VariableBinding>,
    Error,
>)
    ensures
        match bulk_values(root@, bindings@.map_values(|b: VarBind| b@)) {
            Ok(s) => r matches Ok(v) && v@.map_values(|b: VariableBinding| b@) == s,
            Err(e) => r == Err::<Vec<VariableBinding>, Error>(e),
        },
{
    let ghost bs = bindings@.map_values(|b: VarBind| b@);
    let mut out: Vec<VariableBinding> = Vec::new();
    let mut i: usize = 0;
    proof {
        assert(bs.skip(0) == bs);
        match bulk_values(root@, bs) {
            Ok(t) => {
                assert(Seq::<(Seq<u32>, ValueModel)>::empty() + t == t);
            },
            Err(e) => {},
        }
    }
    while i < bindings.len()
        invariant
            i <= bindings@.len(),
            bs == bindings@.map_values(|b: VarBind| b@),
            bulk_values(root@, bs) == prepend(
                out@.map_values(|b: VariableBinding| b@),
                bulk_values(root@, bs.skip(i as int)),
            ),
        decreases bindings@.len() - i,
    {
        let b = &bindings[i];
        proof {
            let rest = bs.skip(i as int);
            assert(rest[0] == b@);
            assert(rest.drop_first() == bs.skip(i + 1 as int));
        }
        let end = match &b.value {
            VarBindValue::EndOfMibView => true,
            _ => false,
        };
        if end || !b.name.starts_with(root) {
            proof {
                let o = out@.map_values(|b: VariableBinding| b@);
                assert(o + Seq::empty() == o);
            }
            return Ok(out);
        }
        match convert(&b.value) {
            Ok(v) => {
                let ghost o_old = out@.map_values(|b: VariableBinding| b@);
                let ghost x = (b.name@, v@);
                out.push(VariableBinding { object_id: clone_oid(&b.name), value: v });
                proof {
                    let o = out@.map_values(|b: VariableBinding| b@);
                    assert(o == o_old.push(x));
                    match bulk_values(root@, bs.skip(i + 1 as int)) {
                        Ok(t) => {
                            assert(o_old + (seq![x] + t) == o + t);
                        },
                        Err(e) => {},
                    }
                }
            },
            Err(e) => {
                return Err(e);
            },
        }
        i = i + 1;
    }
    proof {
        assert(bs.skip(i as int).len() == 0);
        let o = out@.map_values(|b: VariableBinding| b@);
        assert(o + Seq::empty() == o);
    }
    Ok(out)
}

/// A GET-BULK walk step keeps only identifiers under its root, and never
/// more bindings than the agent sent.
pub proof fn lemma_bulk_within_root(root: Seq<u32>, bs: Seq<(Seq<u32>, SlotModel)>)
    ensures
        bulk_values(root, bs) matches Ok(s) ==> s.len() <= bs.len() && forall|k: int|
            0 <= k < s.len() ==> is_prefix(root, #[trigger] s[k].0),
    decreases bs.len(),
{
    if bs.len() > 0 && in_scope(root, bs[0]) {
        lemma_bulk_within_root(root, bs.drop_first());
        match bs[0].1 {
            SlotModel::Value(v) => {
                match bulk_values(root, bs.drop_first()) {
                    Ok(t) => {
                        let s = seq![(bs[0].0, v)] + t;
                        assert forall|k: int| 0 <= k < s.len() implies is_prefix(root, #[trigger] s[k].0) by {
                            if k > 0 {
                                assert(s[k] == t[k - 1]);
                            }
                        }
                    },
                    Err(e) => {},
                }
            },
            _ => {},
        }
    }
}

} // verus!
