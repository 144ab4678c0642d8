//! Stored values: scalars and nested tables.

use vstd::prelude::*;
use crate::model::{
    val_listeners, val_size, value_view, value_wf, ValM, BOOL_BYTES, INT_BYTES, LEN_PREFIX_BYTES,
};
use crate::table::Table;

verus! {

/// A value held in one slot of the tree: a scalar, or a nested sub-tree.
/// A nested table is owned outright by the slot that holds it; overwriting
/// or removing the slot destroys it.
#[derive(Debug, PartialEq)]
pub enum Value {
    Int(i64),
    Bool(bool),
    Str(String),
    Table(Box<Table>),
}

/// The closed catalogue of value kinds.
#[derive(Clone, Copy, Debug, PartialEq, Eq, Structural)]
pub enum DataType {
    Integer,
    Boolean,
    Text,
    Table,
}

/// The kind of a value.
pub open spec fn value_data_type(v: Value) -> DataType {
    match v {
        Value::Int(_) => DataType::Integer,
        Value::Bool(_) => DataType::Boolean,
        Value::Str(_) => DataType::Text,
        Value::Table(_) => DataType::Table,
    }
}

impl Value {
    /// Serialized footprint of this value, a pure function of its content.
    /// For a nested table this reads the table's maintained total, so it
    /// costs no tree walk.
    pub fn size(&self) -> (r: usize)
        requires
            value_wf(*self),
            val_size(value_view(*self)) <= usize::MAX,
        ensures
            r as nat == val_size(value_view(*self)),
    {
        match self {
            Value::Int(_) => INT_BYTES,
            Value::Bool(_) => BOOL_BYTES,
            Value::Str(s) => LEN_PREFIX_BYTES + s.as_str().len(),
            Value::Table(t) => t.size,
        }
    }

    /// The kind of this value.
    pub fn data_type(&self) -> (r: DataType)
        ensures
            r == value_data_type(*self),
    {
        match self {
            Value::Int(_) => DataType::Integer,
            Value::Bool(_) => DataType::Boolean,
            Value::Str(_) => DataType::Text,
            Value::Table(_) => DataType::Table,
        }
    }

    /// A deep copy: the copy reflects to the same model value, and copying
    /// preserves well-formedness and the cached counts.
    pub fn duplicate(&self) -> (r: Value)
        ensures
            value_view(r) == value_view(*self),
            value_wf(*self) ==> value_wf(r),
        decreases *self,
    {
        match self {
            Value::Int(x) => Value::Int(*x),
            Value::Bool(b) => Value::Bool(*b),
            Value::Str(s) => Value::Str(s.clone()),
            Value::Table(t) => Value::Table(Box::new((&**t).duplicate())),
        }
    }

    /// Number of listeners registered anywhere inside this value.  For a
    /// nested table this reads the table's maintained count.
    pub fn listener_total(&self) -> (r: usize)
        requires
            value_wf(*self),
        ensures
            r as nat == val_listeners(value_view(*self)),
    {
        match self {
            Value::Table(t) => t.child_listener_ct,
            _ => 0,
        }
    }
}

impl Clone for Value {
    /// A deep copy, as `duplicate` makes it.
    fn clone(&self) -> (r: Value)
        ensures
            value_view(r) == value_view(*self),
            value_wf(*self) ==> value_wf(r),
    {
        self.duplicate()
    }
}

} // verus!
