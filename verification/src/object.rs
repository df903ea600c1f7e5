//! The tagged value and its handles into the store.
//!
//! What needs no cell stands here: the variants, the downcasts and the
//! alias. Equality, hash codes, the deep copy and the constructors of
//! compound values read or fill a store and stand with it.

use vstd::prelude::*;

verus! {

/// A runtime value. `Integer` and `Boolean` carry their datum; the other
/// three carry the slot of a cell in a [`crate::store::Heap`], so that two
/// values with the same slot share one piece of storage.
#[derive(Debug)]
pub enum StackObject {
    Integer(i64),
    Boolean(bool),
    HashMap(usize),
    String(usize),
    Vector(usize),
}

/// A handle to the cell of a compound value.
#[derive(Debug)]
pub struct Handle {
    pub slot: usize,
}

impl From<i64> for StackObject {
    fn from(x: i64) -> (r: StackObject) {
        StackObject::Integer(x)
    }
}

impl vstd::std_specs::convert::FromSpecImpl<i64> for StackObject {
    open spec fn obeys_from_spec() -> bool {
        true
    }

    open spec fn from_spec(x: i64) -> StackObject {
        StackObject::Integer(x)
    }
}

impl From<bool> for StackObject {
    fn from(x: bool) -> (r: StackObject) {
        StackObject::Boolean(x)
    }
}

impl vstd::std_specs::convert::FromSpecImpl<bool> for StackObject {
    open spec fn obeys_from_spec() -> bool {
        true
    }

    open spec fn from_spec(x: bool) -> StackObject {
        StackObject::Boolean(x)
    }
}

impl Handle {
    /// A second handle to the same cell. Nothing is copied in the store.
    pub fn duplicate(&self) -> (r: Handle)
        ensures
            r == *self,
    {
        Handle { slot: self.slot }
    }
}

impl StackObject {
    /// Whether the variant belongs to those that may serve as a map key.
    pub open spec fn hashable(self) -> bool {
        self is Integer || self is Boolean || self is String
    }

    /// 0 for a primitive, one more than the slot for a compound value.
    pub open spec fn rank(self) -> nat {
        match self {
            StackObject::Integer(_) => 0,
            StackObject::Boolean(_) => 0,
            StackObject::HashMap(h) => (h + 1) as nat,
            StackObject::String(h) => (h + 1) as nat,
            StackObject::Vector(h) => (h + 1) as nat,
        }
    }

    pub fn can_hash(&self) -> (r: bool)
        ensures
            r == self.hashable(),
    {
        match self {
            StackObject::Integer(_) => true,
            StackObject::Boolean(_) => true,
            StackObject::String(_) => true,
            _ => false,
        }
    }

    pub fn as_int(&self) -> (r: Option<i64>)
        ensures
            r == (match *self {
                StackObject::Integer(x) => Some(x),
                _ => None,
            }),
    {
        match self {
            StackObject::Integer(x) => Some(*x),
            _ => None,
        }
    }

    pub fn as_bool(&self) -> (r: Option<bool>)
        ensures
            r == (match *self {
                StackObject::Boolean(x) => Some(x),
                _ => None,
            }),
    {
        match self {
            StackObject::Boolean(x) => Some(*x),
            _ => None,
        }
    }

    /// A handle to the map's cell, or `None` for any other variant. The
    /// value itself is left as it was.
    pub fn as_map_rc(&mut self) -> (r: Option<Handle>)
        ensures
            *final(self) == *old(self),
            r == (match *old(self) {
                StackObject::HashMap(h) => Some(Handle { slot: h }),
                _ => None,
            }),
    {
        match self {
            StackObject::HashMap(h) => Some(Handle { slot: *h }),
            _ => None,
        }
    }

    /// A handle to the list's cell, or `None` for any other variant.
    pub fn as_vector_rc(&mut self) -> (r: Option<Handle>)
        ensures
            *final(self) == *old(self),
            r == (match *old(self) {
                StackObject::Vector(h) => Some(Handle { slot: h }),
                _ => None,
            }),
    {
        match self {
            StackObject::Vector(h) => Some(Handle { slot: *h }),
            _ => None,
        }
    }

    /// A handle to the text's cell, or `None` for any other variant.
    pub fn as_string_rc(&mut self) -> (r: Option<Handle>)
        ensures
            *final(self) == *old(self),
            r == (match *old(self) {
                StackObject::String(h) => Some(Handle { slot: h }),
                _ => None,
            }),
    {
        match self {
            StackObject::String(h) => Some(Handle { slot: *h }),
            _ => None,
        }
    }

    /// The alias of a value: the same datum for a primitive, a second value
    /// on the same cell for a compound one. Nothing is copied in the store.
    pub fn ref_clone(&self) -> (r: StackObject)
        ensures
            r == *self,
    {
        match self {
            StackObject::Integer(x) => StackObject::Integer(*x),
            StackObject::Boolean(x) => StackObject::Boolean(*x),
            StackObject::HashMap(h) => StackObject::HashMap(*h),
            StackObject::String(h) => StackObject::String(*h),
            StackObject::Vector(h) => StackObject::Vector(*h),
        }
    }
}

} // verus!
