//! Identifiers of clients and resources.
//!
//! Both are opaque names. The manager only ever compares them, so every
//! contract in this crate speaks of an identifier through its view, the
//! sequence of characters of the name.

use vstd::prelude::*;

verus! {

/// What an identifier is to the contracts: the characters of its name.
pub type Name = Seq<char>;

/// Names a requester of locks.
#[derive(Debug, PartialEq, Eq, Hash)]
pub struct ClientId {
    name: String,
}

/// Names a lockable resource.
#[derive(Debug, PartialEq, Eq, Hash)]
pub struct ResourceId {
    name: String,
}

impl View for ClientId {
    type V = Seq<char>;

    closed spec fn view(&self) -> Seq<char> {
        self.name@
    }
}

impl View for ResourceId {
    type V = Seq<char>;

    closed spec fn view(&self) -> Seq<char> {
        self.name@
    }
}

impl ClientId {
    /// The client called `name`.
    pub fn new(name: &str) -> (id: Self)
        ensures
            id@ == name@,
    {
        ClientId { name: name.to_owned() }
    }

    /// The name this identifier was made from.
    pub fn as_str(&self) -> (name: &str)
        ensures
            name@ == self@,
    {
        self.name.as_str()
    }

    /// Whether two identifiers name the same client.
    pub fn same(&self, other: &ClientId) -> (equal: bool)
        ensures
            equal == (self@ == other@),
    {
        self.name == other.name
    }
}

impl ResourceId {
    /// The resource called `name`.
    pub fn new(name: &str) -> (id: Self)
        ensures
            id@ == name@,
    {
        ResourceId { name: name.to_owned() }
    }

    /// The name this identifier was made from.
    pub fn as_str(&self) -> (name: &str)
        ensures
            name@ == self@,
    {
        self.name.as_str()
    }

    /// Whether two identifiers name the same resource.
    pub fn same(&self, other: &ResourceId) -> (equal: bool)
        ensures
            equal == (self@ == other@),
    {
        self.name == other.name
    }
}

impl Clone for ClientId {
    fn clone(&self) -> (copy: Self)
        ensures
            copy@ == self@,
    {
        ClientId { name: self.name.clone() }
    }
}

impl Clone for ResourceId {
    fn clone(&self) -> (copy: Self)
        ensures
            copy@ == self@,
    {
        ResourceId { name: self.name.clone() }
    }
}

} // verus!
