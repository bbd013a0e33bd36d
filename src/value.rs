//! Object values, variable bindings and the wire-level value slot.
use vstd::prelude::*;

use crate::error::{Boundary, Error};
use crate::oid::ObjectIdentifier;

verus! {

/// One SNMP object value; one variant per syntax.
#[derive(Debug, Clone)]
pub enum ObjectValue {
    /// Arbitrary-precision integer, as its big-endian two's complement octets.
    Integer(Vec<u8>),
    /// Raw octets, not necessarily text.
    OctetString(Vec<u8>),
    ObjectIdentifier(ObjectIdentifier),
    Integer32(i32),
    IpAddress([u8; 4]),
    Counter32(u32),
    Unsigned32(u32),
    TimeTicks(u32),
    /// An encoded blob that is not interpreted further.
    Opaque(Vec<u8>),
    Counter64(u64),
}

/// Mathematical model of an [`ObjectValue`].
pub ghost enum ValueModel {
    Integer(Seq<u8>),
    OctetString(Seq<u8>),
    ObjectIdentifier(Seq<u32>),
    Integer32(i32),
    IpAddress(Seq<u8>),
    Counter32(u32),
    Unsigned32(u32),
    TimeTicks(u32),
    Opaque(Seq<u8>),
    Counter64(u64),
}

impl View for ObjectValue {
    type V = ValueModel;

    open spec fn view(&self) -> ValueModel {
        match self {
            ObjectValue::Integer(b) => ValueModel::Integer(b@),
            ObjectValue::OctetString(b) => ValueModel::OctetString(b@),
            ObjectValue::ObjectIdentifier(o) => ValueModel::ObjectIdentifier(o@),
            ObjectValue::Integer32(v) => ValueModel::Integer32(*v),
            ObjectValue::IpAddress(a) => ValueModel::IpAddress(a@),
            ObjectValue::Counter32(v) => ValueModel::Counter32(*v),
            ObjectValue::Unsigned32(v) => ValueModel::Unsigned32(*v),
            ObjectValue::TimeTicks(v) => ValueModel::TimeTicks(*v),
            ObjectValue::Opaque(b) => ValueModel::Opaque(b@),
            ObjectValue::Counter64(v) => ValueModel::Counter64(*v),
        }
    }
}

/// What stands in the value slot of a binding on the wire: a value, or one
/// of the four markers.
#[derive(Debug, Clone)]
pub enum VarBindValue {
    Value(ObjectValue),
    Unspecified,
    NoSuchObject,
    NoSuchInstance,
    EndOfMibView,
}

pub ghost enum SlotModel {
    Value(ValueModel),
    Unspecified,
    NoSuchObject,
    NoSuchInstance,
    EndOfMibView,
}

impl View for VarBindValue {
    type V = SlotModel;

    open spec fn view(&self) -> SlotModel {
        match self {
            VarBindValue::Value(v) => SlotModel::Value(v@),
            VarBindValue::Unspecified => SlotModel::Unspecified,
            VarBindValue::NoSuchObject => SlotModel::NoSuchObject,
            VarBindValue::NoSuchInstance => SlotModel::NoSuchInstance,
            VarBindValue::EndOfMibView => SlotModel::EndOfMibView,
        }
    }
}

/// A binding as carried by a PDU.
#[derive(Debug, Clone)]
pub struct VarBind {
    pub name: ObjectIdentifier,
    pub value: VarBindValue,
}

impl View for VarBind {
    type V = (Seq<u32>, SlotModel);

    open spec fn view(&self) -> (Seq<u32>, SlotModel) {
        (self.name@, self.value@)
    }
}

/// One reported management attribute.
#[derive(Debug, Clone)]
pub struct VariableBinding {
    pub object_id: ObjectIdentifier,
    pub value: ObjectValue,
}

impl View for VariableBinding {
    type V = (Seq<u32>, ValueModel);

    open spec fn view(&self) -> (Seq<u32>, ValueModel) {
        (self.object_id@, self.value@)
    }
}

/// The marker that a slot holds, if it holds one.
pub open spec fn slot_marker(s: SlotModel) -> Option<Boundary> {
    match s {
        SlotModel::Value(_) => None,
        SlotModel::Unspecified => Some(Boundary::Unspecified),
        SlotModel::NoSuchObject => Some(Boundary::NoSuchObject),
        SlotModel::NoSuchInstance => Some(Boundary::NoSuchInstance),
        SlotModel::EndOfMibView => Some(Boundary::EndOfMibView),
    }
}

/// Takes the value out of a slot; a marker becomes a boundary condition.
pub fn convert(slot: &VarBindValue) -> (r: Result<ObjectValue, Error>)
    ensures
        match slot@ {
            SlotModel::Value(v) => r matches Ok(x) && x@ == v,
            _ => r == Err::<ObjectValue, Error>(Error::BoundaryCondition(slot_marker(slot@)->Some_0)),
        },
{
    match slot {
        VarBindValue::Value(v) => Ok(clone_value(v)),
        VarBindValue::Unspecified => Err(Error::BoundaryCondition(Boundary::Unspecified)),
        VarBindValue::NoSuchObject => Err(Error::BoundaryCondition(Boundary::NoSuchObject)),
        VarBindValue::NoSuchInstance => Err(Error::BoundaryCondition(Boundary::NoSuchInstance)),
        VarBindValue::EndOfMibView => Err(Error::BoundaryCondition(Boundary::EndOfMibView)),
    }
}

pub fn clone_oid(o: &ObjectIdentifier) -> (r: ObjectIdentifier)
    ensures
        r@ == o@,
{
    o.duplicate()
}

/// A copy with the same model.
pub fn clone_value(v: &ObjectValue) -> (r: ObjectValue)
    ensures
        r@ == v@,
{
    match v {
        ObjectValue::Integer(b) => ObjectValue::Integer(b.clone()),
        ObjectValue::OctetString(b) => ObjectValue::OctetString(b.clone()),
        ObjectValue::ObjectIdentifier(o) => ObjectValue::ObjectIdentifier(clone_oid(o)),
        ObjectValue::Integer32(x) => ObjectValue::Integer32(*x),
        ObjectValue::IpAddress(a) => ObjectValue::IpAddress(*a),
        ObjectValue::Counter32(x) => ObjectValue::Counter32(*x),
        ObjectValue::Unsigned32(x) => ObjectValue::Unsigned32(*x),
        ObjectValue::TimeTicks(x) => ObjectValue::TimeTicks(*x),
        ObjectValue::Opaque(b) => ObjectValue::Opaque(b.clone()),
        ObjectValue::Counter64(x) => ObjectValue::Counter64(*x),
    }
}

} // verus!
