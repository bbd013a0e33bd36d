//! The SNMPv2c message grammar in BER: spec writers, spec readers, the
//! executable encoder and decoder that match them, and the round trip.
use vstd::prelude::*;

use crate::ber::{
    b128, decode_int, int_content, int_in_range, lemma_int_round_trip, lemma_read_tlv,
    lemma_subid_round_trip, push_b128, push_int_content, push_tlv, read_int, read_subid,
    read_subid_at, read_tlv, read_tlv_at, tlv,
};
use crate::error::Error;
use crate::message::{Message, MessageModel, Pdu, PduKind};
use crate::oid::ObjectIdentifier;
use crate::value::{ObjectValue, SlotModel, ValueModel, VarBind, VarBindValue};

verus! {

// ---------------------------------------------------------------- identifiers

/// An identifier that BER can carry: at least two arcs, the first at most 2,
/// the second below 40 unless the first is 2, and the two fused into one
/// sub-identifier that fits in `u32`.
pub open spec fn wire_oid_ok(a: Seq<u32>) -> bool {
    &&& a.len() >= 2
    &&& a[0] <= 2
    &&& (a[0] < 2 ==> a[1] < 40)
    &&& 40 * a[0] + a[1] <= u32::MAX
}

pub open spec fn subids_of(a: Seq<u32>) -> Seq<nat> {
    seq![(40 * a[0] + a[1]) as nat] + a.skip(2).map_values(|x: u32| x as nat)
}

pub open spec fn concat_b128(ids: Seq<nat>) -> Seq<u8>
    decreases ids.len(),
{
    if ids.len() == 0 { Seq::empty() } else { b128(ids[0]) + concat_b128(ids.drop_first()) }
}

/// Content octets of an OBJECT IDENTIFIER.
pub open spec fn oid_content(a: Seq<u32>) -> Seq<u8> {
    concat_b128(subids_of(a))
}

pub open spec fn read_subids(s: Seq<u8>) -> Option<Seq<nat>>
    decreases s.len(),
{
    if s.len() == 0 {
        Some(Seq::empty())
    } else {
        match read_subid(s) {
            Some((v, k)) => if 1 <= k <= s.len() {
                match read_subids(s.skip(k as int)) {
                    Some(t) => Some(seq![v] + t),
                    None => None,
                }
            } else {
                None
            },
            None => None,
        }
    }
}

/// Arcs from sub-identifiers: the first one splits into two arcs.
pub open spec fn arcs_of(ids: Seq<nat>) -> Option<Seq<u32>> {
    if ids.len() == 0 {
        None
    } else {
        let x = ids[0];
        let (a0, a1) = if x < 40 { (0nat, x) } else if x < 80 { (1nat, (x - 40) as nat) } else { (
            2nat,
            (x - 80) as nat,
        ) };
        Some(seq![a0 as u32, a1 as u32] + ids.drop_first().map_values(|v: nat| v as u32))
    }
}

pub open spec fn read_oid_content(c: Seq<u8>) -> Option<Seq<u32>> {
    match read_subids(c) {
        Some(ids) => arcs_of(ids),
        None => None,
    }
}

proof fn lemma_concat_push(ids: Seq<nat>, x: nat)
    ensures
        concat_b128(ids.push(x)) == concat_b128(ids) + b128(x),
    decreases ids.len(),
{
    if ids.len() > 0 {
        assert(ids.push(x).drop_first() == ids.drop_first().push(x));
        assert(ids.push(x)[0] == ids[0]);
        lemma_concat_push(ids.drop_first(), x);
        assert(b128(ids[0]) + (concat_b128(ids.drop_first()) + b128(x)) == (b128(ids[0])
            + concat_b128(ids.drop_first())) + b128(x));
    } else {
        assert(ids.push(x).drop_first() == Seq::<nat>::empty());
        assert(concat_b128(Seq::<nat>::empty()) == Seq::<u8>::empty());
        assert(b128(x) + Seq::<u8>::empty() == b128(x));
        assert(Seq::<u8>::empty() + b128(x) == b128(x));
        assert(ids == Seq::<nat>::empty());
    }
}

proof fn lemma_read_subids(ids: Seq<nat>)
    requires
        forall|j: int| 0 <= j < ids.len() ==> ids[j] <= u32::MAX,
    ensures
        read_subids(concat_b128(ids)) == Some(ids),
    decreases ids.len(),
{
    if ids.len() > 0 {
        let rest = concat_b128(ids.drop_first());
        lemma_subid_round_trip(ids[0], rest);
        let s = concat_b128(ids);
        assert(s.skip(b128(ids[0]).len() as int) == rest);
        lemma_read_subids(ids.drop_first());
        assert(seq![ids[0]] + ids.drop_first() == ids);
    }
}

/// OID content octets read back as the identifier they were made from.
pub proof fn lemma_oid_round_trip(a: Seq<u32>)
    requires
        wire_oid_ok(a),
    ensures
        read_oid_content(oid_content(a)) == Some(a),
{
    let ids = subids_of(a);
    lemma_read_subids(ids);
    assert(ids.drop_first() == a.skip(2).map_values(|x: u32| x as nat));
    assert(ids.drop_first().map_values(|v: nat| v as u32) == a.skip(2));
    assert(seq![a[0], a[1]] + a.skip(2) == a);
}

/// Appends the content octets of an identifier.
pub fn push_oid_content(o: &ObjectIdentifier, out: &mut Vec<u8>)
    requires
        wire_oid_ok(o@),
    ensures
        final(out)@ == old(out)@ + oid_content(o@),
{
    let ghost ids = subids_of(o@);
    let ghost start = old(out)@;
    let arcs = o.arcs();
    push_b128(40 * arcs[0] + arcs[1], out);
    proof {
        assert(ids.take(1) == seq![ids[0]]);
        assert(seq![ids[0]].drop_first() == Seq::<nat>::empty());
        assert(concat_b128(seq![ids[0]]) == b128(ids[0]) + concat_b128(Seq::<nat>::empty()));
        assert(b128(ids[0]) + Seq::<u8>::empty() == b128(ids[0]));
    }
    let mut i: usize = 2;
    while i < arcs.len()
        invariant
            2 <= i <= o@.len(),
            arcs@ == o@,
            ids == subids_of(o@),
            out@ == start + concat_b128(ids.take(i - 1)),
        decreases o@.len() - i,
    {
        push_b128(arcs[i], out);
        proof {
            assert(ids[i - 1] == o@[i as int] as nat);
            assert(ids.take(i as int) == ids.take(i - 1).push(ids[i - 1]));
            lemma_concat_push(ids.take(i - 1), ids[i - 1]);
        }
        i = i + 1;
    }
    proof {
        assert(ids.take(i - 1) == ids);
    }
}

/// The identifier held by the content `b[start..end]`.
pub fn decode_oid(b: &Vec<u8>, start: usize, end: usize) -> (r: Option<ObjectIdentifier>)
    requires
        start <= end <= b@.len(),
    ensures
        match read_oid_content(b@.subrange(start as int, end as int)) {
            Some(a) => r matches Some(o) && o@ == a,
            None => r is None,
        },
{
    let ghost s = b@.subrange(start as int, end as int);
    let mut ids: Vec<u32> = Vec::new();
    let mut pos: usize = start;
    proof {
        assert(s.skip(0) == s);
        assert(Seq::<nat>::empty() + Seq::<nat>::empty() == Seq::<nat>::empty());
    }
    while pos < end
        invariant
            start <= pos <= end <= b@.len(),
            s == b@.subrange(start as int, end as int),
            read_subids(s) == (match read_subids(s.skip(pos - start)) {
                Some(t) => Some(ids@.map_values(|v: u32| v as nat) + t),
                None => None,
            }),
        decreases end - pos,
    {
        let ghost rest = s.skip(pos - start);
        proof {
            assert(rest == b@.subrange(pos as int, end as int));
        }
        match read_subid_at(b, pos, end) {
            Some((v, k)) => {
                if k < 1 || k > end - pos {
                    return None;
                }
                let ghost before = ids@.map_values(|v: u32| v as nat);
                ids.push(v);
                proof {
                    assert(rest.skip(k as int) == s.skip(pos + k - start));
                    assert(ids@.map_values(|v: u32| v as nat) == before.push(v as nat));
                    match read_subids(s.skip(pos + k - start)) {
                        Some(t) => {
                            assert(before + (seq![v as nat] + t) == before.push(v as nat) + t);
                        },
                        None => {},
                    }
                }
                pos = pos + k;
            },
            None => {
                return None;
            },
        }
    }
    proof {
        assert(s.skip(pos - start).len() == 0);
        let m = ids@.map_values(|v: u32| v as nat);
        assert(m + Seq::<nat>::empty() == m);
    }
    if ids.len() == 0 {
        return None;
    }
    let x = ids[0];
    let (a0, a1): (u32, u32) = if x < 40 { (0, x) } else if x < 80 { (1, x - 40) } else { (2, x - 80) };
    let mut arcs: Vec<u32> = Vec::new();
    arcs.push(a0);
    arcs.push(a1);
    let mut i: usize = 1;
    let ghost m = ids@.map_values(|v: u32| v as nat);
    while i < ids.len()
        invariant
            1 <= i <= ids@.len(),
            m == ids@.map_values(|v: u32| v as nat),
            arcs@ == seq![a0, a1] + m.drop_first().take(i - 1).map_values(|v: nat| v as u32),
        decreases ids@.len() - i,
    {
        arcs.push(ids[i]);
        proof {
            assert(m.drop_first().take(i as int) == m.drop_first().take(i - 1).push(m[i as int]));
        }
        i = i + 1;
    }
    proof {
        assert(m.drop_first().take(i - 1) == m.drop_first());
    }
    ObjectIdentifier::from_arcs(arcs)
}

// ---------------------------------------------------------------- values

/// Tag and content octets of a value. `Integer32` shares the INTEGER tag.
pub open spec fn value_wire(v: ValueModel) -> (u8, Seq<u8>) {
    match v {
        ValueModel::Integer(b) => (0x02u8, b),
        ValueModel::OctetString(b) => (0x04u8, b),
        ValueModel::ObjectIdentifier(a) => (0x06u8, oid_content(a)),
        ValueModel::Integer32(x) => (0x02u8, int_content(x as int)),
        ValueModel::IpAddress(b) => (0x40u8, b),
        ValueModel::Counter32(x) => (0x41u8, int_content(x as int)),
        ValueModel::Unsigned32(x) => (0x42u8, int_content(x as int)),
        ValueModel::TimeTicks(x) => (0x43u8, int_content(x as int)),
        ValueModel::Opaque(b) => (0x44u8, b),
        ValueModel::Counter64(x) => (0x46u8, int_content(x as int)),
    }
}

/// Tag and content octets of a value slot; the markers have empty content.
pub open spec fn slot_wire(s: SlotModel) -> (u8, Seq<u8>) {
    match s {
        SlotModel::Value(v) => value_wire(v),
        SlotModel::Unspecified => (0x05u8, Seq::empty()),
        SlotModel::NoSuchObject => (0x80u8, Seq::empty()),
        SlotModel::NoSuchInstance => (0x81u8, Seq::empty()),
        SlotModel::EndOfMibView => (0x82u8, Seq::empty()),
    }
}

/// A slot that can be put on the wire: an identifier in it must be one BER carries.
pub open spec fn slot_encodable(s: SlotModel) -> bool {
    slot_ids_ok(s) && slot_ints_ok(s)
}

/// An identifier held as a value is one BER carries.
pub open spec fn slot_ids_ok(s: SlotModel) -> bool {
    match s {
        SlotModel::Value(ValueModel::ObjectIdentifier(a)) => wire_oid_ok(a),
        _ => true,
    }
}

/// An `Integer` holds a valid INTEGER content: at least one octet, and no
/// leading octet that only repeats the sign of the next.
pub open spec fn slot_ints_ok(s: SlotModel) -> bool {
    match s {
        SlotModel::Value(ValueModel::Integer(b)) => minimal_int(b),
        _ => true,
    }
}

pub open spec fn minimal_int(b: Seq<u8>) -> bool {
    b.len() >= 1 && (b.len() == 1 || !((b[0] == 0 && b[1] < 0x80) || (b[0] == 0xff && b[1] >= 0x80)))
}

/// A slot whose encoding reads back as itself: not an `Integer32` (read back
/// as `Integer`), and an `Integer` with at least one octet.
pub open spec fn slot_reads_back(s: SlotModel) -> bool {
    match s {
        SlotModel::Value(ValueModel::Integer(b)) => b.len() >= 1,
        SlotModel::Value(ValueModel::Integer32(_)) => false,
        SlotModel::Value(ValueModel::IpAddress(b)) => b.len() == 4,
        _ => slot_encodable(s),
    }
}

/// Reads a slot from its tag and content.
#[verifier::opaque]
pub open spec fn read_slot(tag: u8, c: Seq<u8>) -> Option<SlotModel> {
    if tag == 0x02 {
        if c.len() >= 1 { Some(SlotModel::Value(ValueModel::Integer(c))) } else { None }
    } else if tag == 0x04 {
        Some(SlotModel::Value(ValueModel::OctetString(c)))
    } else if tag == 0x06 {
        match read_oid_content(c) {
            Some(a) => Some(SlotModel::Value(ValueModel::ObjectIdentifier(a))),
            None => None,
        }
    } else if tag == 0x40 {
        if c.len() == 4 { Some(SlotModel::Value(ValueModel::IpAddress(c))) } else { None }
    } else if tag == 0x41 || tag == 0x42 || tag == 0x43 {
        match read_int(c) {
            Some(x) => if 0 <= x <= u32::MAX {
                Some(SlotModel::Value(
                    if tag == 0x41 {
                        ValueModel::Counter32(x as u32)
                    } else if tag == 0x42 {
                        ValueModel::Unsigned32(x as u32)
                    } else {
                        ValueModel::TimeTicks(x as u32)
                    },
                ))
            } else {
                None
            },
            None => None,
        }
    } else if tag == 0x44 {
        Some(SlotModel::Value(ValueModel::Opaque(c)))
    } else if tag == 0x46 {
        match read_int(c) {
            Some(x) => if 0 <= x <= u64::MAX {
                Some(SlotModel::Value(ValueModel::Counter64(x as u64)))
            } else {
                None
            },
            None => None,
        }
    } else if c.len() == 0 && tag == 0x05 {
        Some(SlotModel::Unspecified)
    } else if c.len() == 0 && tag == 0x80 {
        Some(SlotModel::NoSuchObject)
    } else if c.len() == 0 && tag == 0x81 {
        Some(SlotModel::NoSuchInstance)
    } else if c.len() == 0 && tag == 0x82 {
        Some(SlotModel::EndOfMibView)
    } else {
        None
    }
}

proof fn lemma_slot_round_trip(sl: SlotModel)
    requires
        slot_reads_back(sl),
    ensures
        read_slot(slot_wire(sl).0, slot_wire(sl).1) == Some(sl),
{
    reveal(read_slot);
    match sl {
        SlotModel::Value(ValueModel::ObjectIdentifier(a)) => {
            lemma_oid_round_trip(a);
        },
        SlotModel::Value(ValueModel::Counter32(x)) => {
            lemma_int_round_trip(x as int);
        },
        SlotModel::Value(ValueModel::Unsigned32(x)) => {
            lemma_int_round_trip(x as int);
        },
        SlotModel::Value(ValueModel::TimeTicks(x)) => {
            lemma_int_round_trip(x as int);
        },
        SlotModel::Value(ValueModel::Counter64(x)) => {
            lemma_int_round_trip(x as int);
        },
        _ => {},
    }
}

/// Whether an identifier can be put on the wire.
pub fn oid_wire_ok(o: &ObjectIdentifier) -> (r: bool)
    ensures
        r == wire_oid_ok(o@),
{
    let a = o.arcs();
    a.len() >= 2 && a[0] <= 2 && (a[0] >= 2 || a[1] < 40) && (a[1] as u64 + 40 * a[0] as u64
        <= 0xffff_ffff)
}

/// Whether a slot can be put on the wire.
pub fn slot_ids_wire_ok(v: &VarBindValue) -> (r: bool)
    ensures
        r == slot_ids_ok(v@),
{
    match v {
        VarBindValue::Value(ObjectValue::ObjectIdentifier(o)) => oid_wire_ok(o),
        _ => true,
    }
}

/// Whether an `Integer` slot holds valid INTEGER content.
pub fn slot_ints_wire_ok(v: &VarBindValue) -> (r: bool)
    ensures
        r == slot_ints_ok(v@),
{
    match v {
        VarBindValue::Value(ObjectValue::Integer(b)) => {
            b.len() >= 1 && (b.len() == 1 || !((b[0] == 0 && b[1] < 0x80) || (b[0] == 0xff && b[1]
                >= 0x80)))
        },
        _ => true,
    }
}

fn copy_bytes(b: &Vec<u8>) -> (r: Vec<u8>)
    ensures
        r@ == b@,
{
    b.clone()
}

fn int_bytes(v: i128) -> (r: Vec<u8>)
    requires
        int_in_range(v as int),
    ensures
        r@ == int_content(v as int),
{
    let mut r: Vec<u8> = Vec::new();
    push_int_content(v, &mut r);
    proof {
        assert(Seq::<u8>::empty() + int_content(v as int) == int_content(v as int));
    }
    r
}

/// Tag and content octets of a slot.
pub fn slot_content(v: &VarBindValue) -> (r: (u8, Vec<u8>))
    requires
        slot_encodable(v@),
    ensures
        (r.0, r.1@) == slot_wire(v@),
{
    match v {
        VarBindValue::Value(x) => match x {
            ObjectValue::Integer(b) => (0x02, copy_bytes(b)),
            ObjectValue::OctetString(b) => (0x04, copy_bytes(b)),
            ObjectValue::ObjectIdentifier(o) => {
                let mut c: Vec<u8> = Vec::new();
                push_oid_content(o, &mut c);
                proof {
                    assert(Seq::<u8>::empty() + oid_content(o@) == oid_content(o@));
                }
                (0x06, c)
            },
            ObjectValue::Integer32(n) => (0x02, int_bytes(*n as i128)),
            ObjectValue::IpAddress(a) => {
                let mut c: Vec<u8> = Vec::new();
                c.push(a[0]);
                c.push(a[1]);
                c.push(a[2]);
                c.push(a[3]);
                proof {
                    assert(c@ == a@);
                }
                (0x40, c)
            },
            ObjectValue::Counter32(n) => (0x41, int_bytes(*n as i128)),
            ObjectValue::Unsigned32(n) => (0x42, int_bytes(*n as i128)),
            ObjectValue::TimeTicks(n) => (0x43, int_bytes(*n as i128)),
            ObjectValue::Opaque(b) => (0x44, copy_bytes(b)),
            ObjectValue::Counter64(n) => (0x46, int_bytes(*n as i128)),
        },
        VarBindValue::Unspecified => (0x05, Vec::new()),
        VarBindValue::NoSuchObject => (0x80, Vec::new()),
        VarBindValue::NoSuchInstance => (0x81, Vec::new()),
        VarBindValue::EndOfMibView => (0x82, Vec::new()),
    }
}

fn slice_bytes(b: &Vec<u8>, start: usize, end: usize) -> (r: Vec<u8>)
    requires
        start <= end <= b@.len(),
    ensures
        r@ == b@.subrange(start as int, end as int),
{
    let mut r: Vec<u8> = Vec::new();
    let mut i: usize = start;
    while i < end
        invariant
            start <= i <= end <= b@.len(),
            r@ == b@.subrange(start as int, i as int),
        decreases end - i,
    {
        r.push(b[i]);
        proof {
            assert(b@.subrange(start as int, i + 1 as int) == b@.subrange(start as int, i as int).push(b@[i as int]));
        }
        i = i + 1;
    }
    r
}

/// The slot with tag `tag` and content `b[cs..ce]`.
pub fn decode_slot(b: &Vec<u8>, tag: u8, cs: usize, ce: usize) -> (r: Option<VarBindValue>)
    requires
        cs <= ce <= b@.len(),
    ensures
        match read_slot(tag, b@.subrange(cs as int, ce as int)) {
            Some(x) => r matches Some(v) && v@ == x,
            None => r is None,
        },
{
    let ghost c = b@.subrange(cs as int, ce as int);
    proof {
        reveal(read_slot);
    }
    if tag == 0x02 {
        if ce - cs >= 1 {
            Some(VarBindValue::Value(ObjectValue::Integer(slice_bytes(b, cs, ce))))
        } else {
            None
        }
    } else if tag == 0x04 {
        Some(VarBindValue::Value(ObjectValue::OctetString(slice_bytes(b, cs, ce))))
    } else if tag == 0x06 {
        match decode_oid(b, cs, ce) {
            Some(o) => Some(VarBindValue::Value(ObjectValue::ObjectIdentifier(o))),
            None => None,
        }
    } else if tag == 0x40 {
        if ce - cs == 4 {
            let a: [u8; 4] = [b[cs], b[cs + 1], b[cs + 2], b[cs + 3]];
            proof {
                assert(a@ == c);
            }
            Some(VarBindValue::Value(ObjectValue::IpAddress(a)))
        } else {
            None
        }
    } else if tag == 0x41 || tag == 0x42 || tag == 0x43 {
        match decode_int(b, cs, ce) {
            Some(x) => {
                if 0 <= x && x <= 0xffff_ffff {
                    let n = x as u32;
                    if tag == 0x41 {
                        Some(VarBindValue::Value(ObjectValue::Counter32(n)))
                    } else if tag == 0x42 {
                        Some(VarBindValue::Value(ObjectValue::Unsigned32(n)))
                    } else {
                        Some(VarBindValue::Value(ObjectValue::TimeTicks(n)))
                    }
                } else {
                    None
                }
            },
            None => None,
        }
    } else if tag == 0x44 {
        Some(VarBindValue::Value(ObjectValue::Opaque(slice_bytes(b, cs, ce))))
    } else if tag == 0x46 {
        match decode_int(b, cs, ce) {
            Some(x) => {
                if 0 <= x && x <= 0xffff_ffff_ffff_ffff {
                    Some(VarBindValue::Value(ObjectValue::Counter64(x as u64)))
                } else {
                    None
                }
            },
            None => None,
        }
    } else if ce == cs && tag == 0x05 {
        Some(VarBindValue::Unspecified)
    } else if ce == cs && tag == 0x80 {
        Some(VarBindValue::NoSuchObject)
    } else if ce == cs && tag == 0x81 {
        Some(VarBindValue::NoSuchInstance)
    } else if ce == cs && tag == 0x82 {
        Some(VarBindValue::EndOfMibView)
    } else {
        None
    }
}

// ---------------------------------------------------------------- bindings

/// Content of a binding's SEQUENCE: the name, then the slot.
pub open spec fn varbind_content(b: (Seq<u32>, SlotModel)) -> Seq<u8> {
    tlv(0x06, oid_content(b.0)) + tlv(slot_wire(b.1).0, slot_wire(b.1).1)
}

/// Content of a binding list: each binding as a SEQUENCE, in order.
pub open spec fn varbinds_content(bs: Seq<(Seq<u32>, SlotModel)>) -> Seq<u8>
    decreases bs.len(),
{
    if bs.len() == 0 {
        Seq::empty()
    } else {
        varbinds_content(bs.drop_last()) + tlv(0x30, varbind_content(bs.last()))
    }
}

#[verifier::opaque]
pub open spec fn read_varbind(c: Seq<u8>) -> Option<(Seq<u32>, SlotModel)> {
    match read_tlv(c) {
        Some((t1, oc, k1)) => if t1 != 0x06 {
            None
        } else {
            match read_oid_content(oc) {
                Some(name) => match read_tlv(c.skip(k1 as int)) {
                    Some((t2, vc, k2)) => if k1 + k2 != c.len() {
                        None
                    } else {
                        match read_slot(t2, vc) {
                            Some(sl) => Some((name, sl)),
                            None => None,
                        }
                    },
                    None => None,
                },
                None => None,
            }
        },
        None => None,
    }
}

pub open spec fn read_varbinds(s: Seq<u8>) -> Option<Seq<(Seq<u32>, SlotModel)>>
    decreases s.len(),
{
    if s.len() == 0 {
        Some(Seq::empty())
    } else {
        match read_tlv(s) {
            Some((t, c, k)) => if t != 0x30 || k < 1 || k > s.len() {
                None
            } else {
                match read_varbind(c) {
                    Some(b) => match read_varbinds(s.skip(k as int)) {
                        Some(rest) => Some(seq![b] + rest),
                        None => None,
                    },
                    None => None,
                }
            },
            None => None,
        }
    }
}

/// A binding list splits at its first binding.
proof fn lemma_varbinds_first(bs: Seq<(Seq<u32>, SlotModel)>)
    requires
        bs.len() > 0,
    ensures
        varbinds_content(bs) == tlv(0x30, varbind_content(bs[0])) + varbinds_content(bs.drop_first()),
    decreases bs.len(),
{
    if bs.len() > 1 {
        lemma_varbinds_first(bs.drop_last());
        assert(bs.drop_last().drop_first() == bs.drop_first().drop_last());
        assert(bs.drop_last()[0] == bs[0]);
        assert(bs.drop_first().last() == bs.last());
        let t0 = tlv(0x30, varbind_content(bs[0]));
        let tl = tlv(0x30, varbind_content(bs.last()));
        let mid = varbinds_content(bs.drop_last().drop_first());
        assert(varbinds_content(bs.drop_first()) == varbinds_content(bs.drop_first().drop_last()) + tl);
        assert((t0 + mid) + tl == t0 + (mid + tl));
    } else {
        assert(bs.drop_last().len() == 0);
        assert(bs.drop_first().len() == 0);
        assert(bs.last() == bs[0]);
        let t0 = tlv(0x30, varbind_content(bs[0]));
        assert(varbinds_content(bs.drop_last()) == Seq::<u8>::empty());
        assert(varbinds_content(bs.drop_first()) == Seq::<u8>::empty());
        assert(Seq::<u8>::empty() + t0 == t0);
        assert(t0 + Seq::<u8>::empty() == t0);
    }
}

proof fn lemma_varbinds_prefix_len(bs: Seq<(Seq<u32>, SlotModel)>, i: int)
    requires
        0 <= i <= bs.len(),
    ensures
        varbinds_content(bs.take(i)).len() <= varbinds_content(bs).len(),
    decreases bs.len(),
{
    if i < bs.len() {
        assert(bs.drop_last().take(i) == bs.take(i));
        lemma_varbinds_prefix_len(bs.drop_last(), i);
    } else {
        assert(bs.take(i) == bs);
    }
}

pub open spec fn binding_ok(b: (Seq<u32>, SlotModel)) -> bool {
    wire_oid_ok(b.0) && slot_encodable(b.1)
}

proof fn lemma_read_varbind(b: (Seq<u32>, SlotModel))
    requires
        varbind_content(b).len() < 65536,
        binding_ok(b),
        slot_reads_back(b.1),
    ensures
        read_varbind(varbind_content(b)) == Some(b),
{
    reveal(read_varbind);
    let vc = varbind_content(b);
    let oc = oid_content(b.0);
    let sw = slot_wire(b.1);
    lemma_tlv_len(0x06, oc);
    lemma_tlv_len(sw.0, sw.1);
    lemma_read_tlv(0x06, oc, tlv(sw.0, sw.1));
    lemma_oid_round_trip(b.0);
    assert(vc.skip(tlv(0x06, oc).len() as int) == tlv(sw.0, sw.1));
    lemma_read_tlv(sw.0, sw.1, Seq::empty());
    assert(tlv(sw.0, sw.1) + Seq::<u8>::empty() == tlv(sw.0, sw.1));
    lemma_slot_round_trip(b.1);
}

proof fn lemma_read_varbinds(bs: Seq<(Seq<u32>, SlotModel)>)
    requires
        varbinds_content(bs).len() < 65536,
        forall|j: int| 0 <= j < bs.len() ==> binding_ok(#[trigger] bs[j]) && slot_reads_back(bs[j].1),
    ensures
        read_varbinds(varbinds_content(bs)) == Some(bs),
    decreases bs.len(),
{
    if bs.len() > 0 {
        lemma_varbinds_first(bs);
        let b = bs[0];
        assert(binding_ok(b) && slot_reads_back(b.1));
        let vc = varbind_content(b);
        let rest = varbinds_content(bs.drop_first());
        lemma_tlv_len(0x30, vc);
        lemma_read_tlv(0x30, vc, rest);
        let s = varbinds_content(bs);
        assert(s.skip(tlv(0x30, vc).len() as int) == rest);
        lemma_read_varbind(b);
        assert forall|j: int| 0 <= j < bs.drop_first().len() implies binding_ok(
            #[trigger] bs.drop_first()[j],
        ) && slot_reads_back(bs.drop_first()[j].1) by {
            assert(bs.drop_first()[j] == bs[j + 1]);
        }
        lemma_read_varbinds(bs.drop_first());
        assert(seq![b] + bs.drop_first() == bs);
    }
}

/// The binding whose SEQUENCE content is `b[cs..ce]`.
fn decode_varbind(b: &Vec<u8>, cs: usize, ce: usize) -> (r: Option<VarBind>)
    requires
        cs <= ce <= b@.len(),
    ensures
        match read_varbind(b@.subrange(cs as int, ce as int)) {
            Some(x) => r matches Some(v) && v@ == x,
            None => r is None,
        },
{
    proof {
        reveal(read_varbind);
    }
    let ghost c = b@.subrange(cs as int, ce as int);
    let (t1, ocs, oce) = match read_tlv_at(b, cs, ce) {
        Some(x) => x,
        None => {
            return None;
        },
    };
    if t1 != 0x06 {
        return None;
    }
    let name = match decode_oid(b, ocs, oce) {
        Some(o) => o,
        None => {
            return None;
        },
    };
    proof {
        assert(c.skip(oce - cs) == b@.subrange(oce as int, ce as int));
    }
    let (t2, vcs, vce) = match read_tlv_at(b, oce, ce) {
        Some(x) => x,
        None => {
            return None;
        },
    };
    if vce != ce {
        return None;
    }
    match decode_slot(b, t2, vcs, vce) {
        Some(value) => Some(VarBind { name, value }),
        None => None,
    }
}

/// The binding list held by the content `b[start..end]`.
pub fn decode_varbinds(b: &Vec<u8>, start: usize, end: usize) -> (r: Option<Vec<VarBind>>)
    requires
        start <= end <= b@.len(),
    ensures
        match read_varbinds(b@.subrange(start as int, end as int)) {
            Some(bs) => r matches Some(v) && v@.map_values(|x: VarBind| x@) == bs,
            None => r is None,
        },
{
    let ghost s = b@.subrange(start as int, end as int);
    let mut out: Vec<VarBind> = Vec::new();
    let mut pos: usize = start;
    proof {
        assert(s.skip(0) == s);
        match read_varbinds(s) {
            Some(t) => {
                assert(Seq::<(Seq<u32>, SlotModel)>::empty() + t == t);
            },
            None => {},
        }
    }
    while pos < end
        invariant
            start <= pos <= end <= b@.len(),
            s == b@.subrange(start as int, end as int),
            read_varbinds(s) == (match read_varbinds(s.skip(pos - start)) {
                Some(t) => Some(out@.map_values(|x: VarBind| x@) + t),
                None => None,
            }),
        decreases end - pos,
    {
        let ghost rest = s.skip(pos - start);
        proof {
            assert(rest == b@.subrange(pos as int, end as int));
        }
        let (t, cs, ce) = match read_tlv_at(b, pos, end) {
            Some(x) => x,
            None => {
                return None;
            },
        };
        if t != 0x30 {
            return None;
        }
        let ghost c = b@.subrange(cs as int, ce as int);
        let vb = match decode_varbind(b, cs, ce) {
            Some(v) => v,
            None => {
                return None;
            },
        };
        let ghost before = out@.map_values(|x: VarBind| x@);
        let ghost item = vb@;
        out.push(vb);
        proof {
            assert(rest.skip(ce - pos) == s.skip(ce - start));
            assert(out@.map_values(|x: VarBind| x@) == before.push(item));
            match read_varbinds(s.skip(ce - start)) {
                Some(tt) => {
                    assert(before + (seq![item] + tt) == before.push(item) + tt);
                },
                None => {},
            }
        }
        pos = ce;
    }
    proof {
        assert(s.skip(pos - start).len() == 0);
        let m = out@.map_values(|x: VarBind| x@);
        assert(m + Seq::<(Seq<u32>, SlotModel)>::empty() == m);
    }
    Some(out)
}

// ---------------------------------------------------------------- messages

pub open spec fn kind_tag(k: PduKind) -> u8 {
    match k {
        PduKind::GetRequest => 0xa0u8,
        PduKind::GetBulkRequest => 0xa5u8,
        PduKind::Response => 0xa2u8,
    }
}

pub open spec fn tag_kind(t: u8) -> Option<PduKind> {
    if t == 0xa0 {
        Some(PduKind::GetRequest)
    } else if t == 0xa5 {
        Some(PduKind::GetBulkRequest)
    } else if t == 0xa2 {
        Some(PduKind::Response)
    } else {
        None
    }
}

pub open spec fn int_tlv(v: int) -> Seq<u8> {
    tlv(0x02, int_content(v))
}

/// Content of the PDU: request id, the two counters, the binding list.
pub open spec fn pdu_content(m: MessageModel) -> Seq<u8> {
    int_tlv(m.request_id as int) + int_tlv(m.error_status as int) + int_tlv(m.error_index as int)
        + tlv(0x30, varbinds_content(m.bindings))
}

/// Content of the message SEQUENCE: version, community, PDU.
pub open spec fn message_content(m: MessageModel) -> Seq<u8> {
    int_tlv(m.version as int) + tlv(0x04, m.community) + tlv(kind_tag(m.kind), pdu_content(m))
}

/// The BER octets of a message.
pub open spec fn message_bytes(m: MessageModel) -> Seq<u8> {
    tlv(0x30, message_content(m))
}

/// Every identifier of the message can be put on the wire.
pub open spec fn bindings_ok(m: MessageModel) -> bool {
    forall|j: int| 0 <= j < m.bindings.len() ==> binding_ok(#[trigger] m.bindings[j])
}

/// Every name, and every identifier held as a value, is one BER carries.
pub open spec fn names_ok(m: MessageModel) -> bool {
    forall|j: int| 0 <= j < m.bindings.len() ==> name_ok(#[trigger] m.bindings[j])
}

pub open spec fn name_ok(b: (Seq<u32>, SlotModel)) -> bool {
    wire_oid_ok(b.0) && slot_ids_ok(b.1)
}

pub open spec fn int_ok(b: (Seq<u32>, SlotModel)) -> bool {
    slot_ints_ok(b.1)
}

/// Every `Integer` value holds valid INTEGER content.
pub open spec fn ints_ok(m: MessageModel) -> bool {
    forall|j: int| 0 <= j < m.bindings.len() ==> int_ok(#[trigger] m.bindings[j])
}

/// The message can be encoded into one datagram.
pub open spec fn message_encodable(m: MessageModel) -> bool {
    bindings_ok(m) && message_bytes(m).len() <= 65535
}

/// Every slot of the message reads back as itself.
pub open spec fn message_reads_back(m: MessageModel) -> bool {
    forall|j: int| 0 <= j < m.bindings.len() ==> slot_reads_back(#[trigger] m.bindings[j].1)
}

#[verifier::opaque]
pub open spec fn read_i32_tlv(s: Seq<u8>) -> Option<(i32, nat)> {
    match read_tlv(s) {
        Some((t, c, k)) => if t != 0x02 {
            None
        } else {
            match read_int(c) {
                Some(v) => if i32::MIN <= v <= i32::MAX { Some((v as i32, k)) } else { None },
                None => None,
            }
        },
        None => None,
    }
}

pub open spec fn read_pdu(kind: PduKind, version: i32, community: Seq<u8>, p: Seq<u8>) -> Option<
    MessageModel,
> {
    match read_i32_tlv(p) {
        Some((rid, j1)) => match read_i32_tlv(p.skip(j1 as int)) {
            Some((es, j2)) => match read_i32_tlv(p.skip((j1 + j2) as int)) {
                Some((ei, j3)) => match read_tlv(p.skip((j1 + j2 + j3) as int)) {
                    Some((t, vbc, j4)) => if t != 0x30 || j1 + j2 + j3 + j4 != p.len() {
                        None
                    } else {
                        match read_varbinds(vbc) {
                            Some(bs) => Some(
                                MessageModel {
                                    version,
                                    community,
                                    kind,
                                    request_id: rid,
                                    error_status: es,
                                    error_index: ei,
                                    bindings: bs,
                                },
                            ),
                            None => None,
                        }
                    },
                    None => None,
                },
                None => None,
            },
            None => None,
        },
        None => None,
    }
}

/// Reads a whole message; nothing may follow it.
pub open spec fn read_message(s: Seq<u8>) -> Option<MessageModel> {
    match read_tlv(s) {
        Some((t, c, k)) => if t != 0x30 || k != s.len() {
            None
        } else {
            match read_i32_tlv(c) {
                Some((ver, k1)) => match read_tlv(c.skip(k1 as int)) {
                    Some((t2, comm, k2)) => if t2 != 0x04 {
                        None
                    } else {
                        match read_tlv(c.skip((k1 + k2) as int)) {
                            Some((t3, pc, k3)) => if k1 + k2 + k3 != c.len() {
                                None
                            } else {
                                match tag_kind(t3) {
                                    Some(kind) => read_pdu(kind, ver, comm, pc),
                                    None => None,
                                }
                            },
                            None => None,
                        }
                    },
                    None => None,
                },
                None => None,
            }
        },
        None => None,
    }
}

proof fn lemma_tlv_len(tag: u8, c: Seq<u8>)
    ensures
        tlv(tag, c).len() >= c.len() + 2,
{
}

proof fn lemma_read_i32(v: i32, rest: Seq<u8>)
    ensures
        read_i32_tlv(int_tlv(v as int) + rest) == Some((v, int_tlv(v as int).len())),
{
    reveal(read_i32_tlv);
    lemma_int_round_trip(v as int);
    lemma_read_tlv(0x02, int_content(v as int), rest);
}

/// Encoding a message and decoding the octets gives the message back, for
/// every message that fits in a datagram and holds no `Integer32` (which
/// shares its tag with `Integer` and so reads back as `Integer`).
pub proof fn lemma_message_round_trip(m: MessageModel)
    requires
        message_encodable(m),
        message_reads_back(m),
    ensures
        read_message(message_bytes(m)) == Some(m),
{
    let vbc = varbinds_content(m.bindings);
    let a = int_tlv(m.request_id as int);
    let b = int_tlv(m.error_status as int);
    let c = int_tlv(m.error_index as int);
    let d = tlv(0x30, vbc);
    let p = pdu_content(m);
    let v = int_tlv(m.version as int);
    let cm = tlv(0x04, m.community);
    let pt = tlv(kind_tag(m.kind), p);
    let mc = message_content(m);
    lemma_tlv_len(0x30, mc);
    lemma_tlv_len(kind_tag(m.kind), p);
    lemma_tlv_len(0x04, m.community);
    lemma_tlv_len(0x30, vbc);
    assert(mc == v + cm + pt);
    assert(p == a + b + c + d);
    lemma_read_tlv(0x30, mc, Seq::empty());
    assert(message_bytes(m) + Seq::<u8>::empty() == message_bytes(m));
    lemma_read_i32(m.version, cm + pt);
    assert(mc == v + (cm + pt));
    assert(mc.skip(v.len() as int) == cm + pt);
    lemma_read_tlv(0x04, m.community, pt);
    assert(mc.skip((v.len() + cm.len()) as int) == pt);
    lemma_read_tlv(kind_tag(m.kind), p, Seq::empty());
    assert(pt + Seq::<u8>::empty() == pt);
    lemma_read_pdu(m);
}

proof fn lemma_read_pdu(m: MessageModel)
    requires
        pdu_content(m).len() < 65536,
        bindings_ok(m),
        message_reads_back(m),
    ensures
        read_pdu(m.kind, m.version, m.community, pdu_content(m)) == Some(m),
{
    let vbc = varbinds_content(m.bindings);
    let a = int_tlv(m.request_id as int);
    let b = int_tlv(m.error_status as int);
    let c = int_tlv(m.error_index as int);
    let d = tlv(0x30, vbc);
    let p = pdu_content(m);
    lemma_tlv_len(0x30, vbc);
    assert(p == a + (b + c + d));
    lemma_read_i32(m.request_id, b + c + d);
    assert(p.skip(a.len() as int) == b + (c + d));
    lemma_read_i32(m.error_status, c + d);
    assert(p.skip((a.len() + b.len()) as int) == c + d);
    lemma_read_i32(m.error_index, d);
    assert(p.skip((a.len() + b.len() + c.len()) as int) == d);
    lemma_read_tlv(0x30, vbc, Seq::empty());
    assert(d + Seq::<u8>::empty() == d);
    assert forall|j: int| 0 <= j < m.bindings.len() implies binding_ok(#[trigger] m.bindings[j])
        && slot_reads_back(m.bindings[j].1) by {
        assert(binding_ok(m.bindings[j]));
        assert(slot_reads_back(m.bindings[j].1));
    }
    lemma_read_varbinds(m.bindings);
}

fn kind_tag_exec(k: PduKind) -> (r: u8)
    ensures
        r == kind_tag(k),
{
    match k {
        PduKind::GetRequest => 0xa0,
        PduKind::GetBulkRequest => 0xa5,
        PduKind::Response => 0xa2,
    }
}

fn push_int_tlv(v: i32, out: &mut Vec<u8>)
    ensures
        final(out)@ == old(out)@ + int_tlv(v as int),
{
    let c = int_bytes(v as i128);
    proof {
        lemma_int_round_trip(v as int);
    }
    push_tlv(0x02, &c, out);
}

/// Bytes of one binding's content are part of the whole list.
proof fn lemma_binding_len(bs: Seq<(Seq<u32>, SlotModel)>, i: int)
    requires
        0 <= i < bs.len(),
    ensures
        varbinds_content(bs.take(i + 1)) == varbinds_content(bs.take(i)) + tlv(0x30, varbind_content(bs[i])),
        varbinds_content(bs).len() >= varbinds_content(bs.take(i + 1)).len(),
{
    assert(bs.take(i + 1).drop_last() == bs.take(i));
    lemma_varbinds_prefix_len(bs, i + 1);
}

/// Encodes a message into BER octets: `MalformedIdentifier` when an
/// identifier cannot be carried, `MalformedValue` when an `Integer` is not
/// valid INTEGER content, `RequestTooLarge` when the octets would not fit in
/// one datagram.
pub fn encode_message(m: &Message) -> (r: Result<Vec<u8>, Error>)
    ensures
        r is Ok <==> message_encodable(m@),
        r matches Ok(b) ==> b@ == message_bytes(m@),
        r == Err::<Vec<u8>, Error>(Error::MalformedIdentifier) <==> !names_ok(m@),
        r == Err::<Vec<u8>, Error>(Error::MalformedValue) <==> names_ok(m@) && !ints_ok(m@),
        r matches Err(e) ==> e == Error::MalformedIdentifier || e == Error::MalformedValue || (e
            == Error::RequestTooLarge && bindings_ok(m@)),
{
    let bs = &m.pdu.variable_bindings;
    let ghost mm = m@;
    let mut i: usize = 0;
    while i < bs.len()
        invariant
            i <= bs@.len(),
            mm == m@,
            bs == &m.pdu.variable_bindings,
            forall|j: int| 0 <= j < i ==> name_ok(#[trigger] mm.bindings[j]),
        decreases bs@.len() - i,
    {
        if !oid_wire_ok(&bs[i].name) || !slot_ids_wire_ok(&bs[i].value) {
            proof {
                assert(mm.bindings[i as int] == bs@[i as int]@);
                assert(!name_ok(mm.bindings[i as int]));
            }
            return Err(Error::MalformedIdentifier);
        }
        proof {
            assert(mm.bindings[i as int] == bs@[i as int]@);
        }
        i = i + 1;
    }
    assert(mm.bindings.len() == bs@.len());
    assert(names_ok(mm));
    let mut i: usize = 0;
    while i < bs.len()
        invariant
            i <= bs@.len(),
            mm == m@,
            bs == &m.pdu.variable_bindings,
            names_ok(mm),
            forall|j: int| 0 <= j < i ==> int_ok(#[trigger] mm.bindings[j]),
        decreases bs@.len() - i,
    {
        if !slot_ints_wire_ok(&bs[i].value) {
            proof {
                assert(mm.bindings[i as int] == bs@[i as int]@);
            }
            proof {
                assert(!int_ok(mm.bindings[i as int]));
            }
            return Err(Error::MalformedValue);
        }
        proof {
            assert(mm.bindings[i as int] == bs@[i as int]@);
        }
        i = i + 1;
    }
    assert(ints_ok(mm));
    assert(bindings_ok(mm)) by {
        assert forall|j: int| 0 <= j < mm.bindings.len() implies binding_ok(#[trigger] mm.bindings[j]) by {
            assert(name_ok(mm.bindings[j]));
            assert(int_ok(mm.bindings[j]));
        }
    }
    let ghost all = mm.bindings;
    proof {
        lemma_tlv_len(0x30, message_content(mm));
        lemma_tlv_len(kind_tag(mm.kind), pdu_content(mm));
        lemma_tlv_len(0x30, varbinds_content(all));
        lemma_tlv_len(0x04, mm.community);
    }
    let mut vbs: Vec<u8> = Vec::new();
    let mut i: usize = 0;
    proof {
        assert(all.take(0) == Seq::<(Seq<u32>, SlotModel)>::empty());
    }
    while i < bs.len()
        invariant
            i <= bs@.len(),
            mm == m@,
            all == mm.bindings,
            bs == &m.pdu.variable_bindings,
            bindings_ok(mm),
            vbs@ == varbinds_content(all.take(i as int)),
            message_bytes(mm).len() > varbinds_content(all).len() + 4,
        decreases bs@.len() - i,
    {
        let b = &bs[i];
        proof {
            assert(all[i as int] == b@);
            assert(binding_ok(all[i as int]));
            lemma_binding_len(all, i as int);
            lemma_tlv_len(0x30, varbind_content(b@));
            lemma_tlv_len(0x06, oid_content(b.name@));
            lemma_tlv_len(slot_wire(b.value@).0, slot_wire(b.value@).1);
        }
        let mut c: Vec<u8> = Vec::new();
        let mut oc: Vec<u8> = Vec::new();
        push_oid_content(&b.name, &mut oc);
        if oc.len() > 65535 {
            return Err(Error::RequestTooLarge);
        }
        push_tlv(0x06, &oc, &mut c);
        let (t, sc) = slot_content(&b.value);
        if sc.len() > 65535 {
            return Err(Error::RequestTooLarge);
        }
        push_tlv(t, &sc, &mut c);
        if c.len() > 65535 {
            return Err(Error::RequestTooLarge);
        }
        proof {
            assert(c@ == varbind_content(b@));
        }
        push_tlv(0x30, &c, &mut vbs);
        i = i + 1;
    }
    proof {
        assert(all.take(i as int) == all);
    }
    if vbs.len() > 65535 {
        return Err(Error::RequestTooLarge);
    }
    let mut pc: Vec<u8> = Vec::new();
    push_int_tlv(m.pdu.request_id, &mut pc);
    push_int_tlv(m.pdu.error_status, &mut pc);
    push_int_tlv(m.pdu.error_index, &mut pc);
    push_tlv(0x30, &vbs, &mut pc);
    proof {
        assert(pc@ == pdu_content(mm));
    }
    if pc.len() > 65535 {
        return Err(Error::RequestTooLarge);
    }
    if m.community.len() > 65535 {
        return Err(Error::RequestTooLarge);
    }
    let mut mc: Vec<u8> = Vec::new();
    push_int_tlv(m.version, &mut mc);
    push_tlv(0x04, &m.community, &mut mc);
    push_tlv(kind_tag_exec(m.pdu.kind), &pc, &mut mc);
    proof {
        assert(mc@ == message_content(mm));
    }
    if mc.len() > 65535 {
        return Err(Error::RequestTooLarge);
    }
    let mut out: Vec<u8> = Vec::new();
    push_tlv(0x30, &mc, &mut out);
    proof {
        assert(out@ == message_bytes(mm));
    }
    if out.len() > 65535 {
        return Err(Error::RequestTooLarge);
    }
    Ok(out)
}

fn decode_i32_tlv(b: &Vec<u8>, start: usize, end: usize) -> (r: Option<(i32, usize)>)
    requires
        start <= end <= b@.len(),
    ensures
        read_i32_tlv(b@.subrange(start as int, end as int)) == (match r {
            Some((v, e)) => Some((v, (e - start) as nat)),
            None => None,
        }),
        r matches Some((v, e)) ==> start <= e <= end,
{
    proof {
        reveal(read_i32_tlv);
    }
    match read_tlv_at(b, start, end) {
        Some((t, cs, ce)) => {
            if t != 0x02 {
                return None;
            }
            match decode_int(b, cs, ce) {
                Some(v) => {
                    if -0x8000_0000 <= v && v <= 0x7fff_ffff {
                        Some((v as i32, ce))
                    } else {
                        None
                    }
                },
                None => None,
            }
        },
        None => None,
    }
}

fn tag_kind_exec(t: u8) -> (r: Option<PduKind>)
    ensures
        r == tag_kind(t),
{
    if t == 0xa0 {
        Some(PduKind::GetRequest)
    } else if t == 0xa5 {
        Some(PduKind::GetBulkRequest)
    } else if t == 0xa2 {
        Some(PduKind::Response)
    } else {
        None
    }
}

/// Decodes BER octets into a message. Lengths may use the short form or the
/// long form with one to four octets. Octets that are not exactly one message
/// of this grammar (cut short, trailing data, indefinite lengths, unknown
/// tags) give `MalformedResponse`.
#[verifier::rlimit(100)]
pub fn decode_message(b: &Vec<u8>) -> (r: Result<Message, Error>)
    ensures
        match read_message(b@) {
            Some(mm) => r matches Ok(m) && m@ == mm,
            None => r == Err::<Message, Error>(Error::MalformedResponse),
        },
{
    let n = b.len();
    proof {
        assert(b@.subrange(0, n as int) == b@);
    }
    let (t, cs, ce) = match read_tlv_at(b, 0, n) {
        Some(x) => x,
        None => {
            return Err(Error::MalformedResponse);
        },
    };
    if t != 0x30 || ce != n {
        return Err(Error::MalformedResponse);
    }
    let ghost c = b@.subrange(cs as int, ce as int);
    let (version, after_version) = match decode_i32_tlv(b, cs, ce) {
        Some(x) => x,
        None => {
            return Err(Error::MalformedResponse);
        },
    };
    proof {
        assert(c.skip(after_version - cs) == b@.subrange(after_version as int, ce as int));
    }
    let (t2, ms, me) = match read_tlv_at(b, after_version, ce) {
        Some(x) => x,
        None => {
            return Err(Error::MalformedResponse);
        },
    };
    if t2 != 0x04 {
        return Err(Error::MalformedResponse);
    }
    proof {
        assert(c.skip(me - cs) == b@.subrange(me as int, ce as int));
    }
    let (t3, ps, pe) = match read_tlv_at(b, me, ce) {
        Some(x) => x,
        None => {
            return Err(Error::MalformedResponse);
        },
    };
    if pe != ce {
        return Err(Error::MalformedResponse);
    }
    let kind = match tag_kind_exec(t3) {
        Some(k) => k,
        None => {
            return Err(Error::MalformedResponse);
        },
    };
    let community = slice_bytes(b, ms, me);
    match decode_pdu(b, ps, pe, kind, version, community) {
        Some(m) => Ok(m),
        None => Err(Error::MalformedResponse),
    }
}

/// The PDU with content `b[ps..pe]`, completed into a message.
#[verifier::rlimit(100)]
fn decode_pdu(b: &Vec<u8>, ps: usize, pe: usize, kind: PduKind, version: i32, community: Vec<u8>) -> (r:
    Option<Message>)
    requires
        ps <= pe <= b@.len(),
    ensures
        match read_pdu(kind, version, community@, b@.subrange(ps as int, pe as int)) {
            Some(mm) => r matches Some(m) && m@ == mm,
            None => r is None,
        },
{
    let ghost p = b@.subrange(ps as int, pe as int);
    let (request_id, q1) = match decode_i32_tlv(b, ps, pe) {
        Some(x) => x,
        None => {
            return None;
        },
    };
    proof {
        assert(p.skip(q1 - ps) == b@.subrange(q1 as int, pe as int));
    }
    let (error_status, q2) = match decode_i32_tlv(b, q1, pe) {
        Some(x) => x,
        None => {
            return None;
        },
    };
    proof {
        assert(p.skip(q2 - ps) == b@.subrange(q2 as int, pe as int));
    }
    let (error_index, q3) = match decode_i32_tlv(b, q2, pe) {
        Some(x) => x,
        None => {
            return None;
        },
    };
    proof {
        assert(p.skip(q3 - ps) == b@.subrange(q3 as int, pe as int));
    }
    let (t4, vs, ve) = match read_tlv_at(b, q3, pe) {
        Some(x) => x,
        None => {
            return None;
        },
    };
    if t4 != 0x30 || ve != pe {
        return None;
    }
    let bindings = match decode_varbinds(b, vs, ve) {
        Some(v) => v,
        None => {
            return None;
        },
    };
    Some(
        Message {
            version,
            community,
            pdu: Pdu { kind, request_id, error_status, error_index, variable_bindings: bindings },
        },
    )
}


} // verus!
