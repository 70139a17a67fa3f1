//! A descriptor locating a value inside a nested strict-encoded structure,
//! one navigation step at a time. A trivial container with no invariant of
//! its own beyond the bounded sequence it wraps.

use vstd::prelude::*;

use crate::collection::StrictVec;
use crate::schema::KeyType;

verus! {

/// One navigation step into a nested value.
#[derive(Clone, Copy, Debug)]
pub enum DataStep {
    /// Into the field with this ordinal.
    StructField(u16),
    /// Into the element at this index.
    ArrayIndex(u16),
    /// Into the entry under a key of this type.
    MapKey(KeyType),
}

/// A path into a nested value: the steps to take, outermost first.
pub struct DataPath(pub StrictVec<DataStep, 0>);

} // verus!
