use vstd::prelude::*;
use vstd::std_specs::convert::FromSpecImpl;

use crate::ordered_map::MapKey;

verus! {

/// Identifier of a node on the 32-bit ring.
#[derive(Debug, Clone, Copy, PartialEq, Eq, Hash, PartialOrd, Ord, Structural)]
pub struct NodeId(pub u32);

impl NodeId {
    /// The underlying integer.
    pub fn value(&self) -> (v: u32)
        ensures
            v == self.0,
    {
        self.0
    }
}

impl core::ops::Deref for NodeId {
    type Target = u32;

    fn deref(&self) -> (v: &u32)
        ensures
            *v == self.0,
    {
        &self.0
    }
}

impl From<u32> for NodeId {
    fn from(value: u32) -> (id: Self) {
        NodeId(value)
    }
}

impl FromSpecImpl<u32> for NodeId {
    open spec fn obeys_from_spec() -> bool {
        true
    }

    open spec fn from_spec(value: u32) -> Self {
        NodeId(value)
    }
}

/// A value that names a node of the ring: an identifier, or the bare number
/// of one.
pub trait NamesNode: Sized {
    /// The node that the value names.
    spec fn node(self) -> NodeId;

    /// The identifier of the node that the value names.
    fn into_node(self) -> (id: NodeId)
        ensures
            id == self.node(),
    ;
}

impl NamesNode for NodeId {
    open spec fn node(self) -> NodeId {
        self
    }

    fn into_node(self) -> (id: NodeId) {
        self
    }
}

impl NamesNode for u32 {
    open spec fn node(self) -> NodeId {
        NodeId(self)
    }

    fn into_node(self) -> (id: NodeId) {
        NodeId(self)
    }
}

impl MapKey for NodeId {
    fn same(&self, other: &Self) -> (b: bool) {
        self.0 == other.0
    }
}

/// Identifier of a broadcast channel.
#[derive(Debug, Clone, Copy, PartialEq, Eq, Hash, Structural)]
pub struct ChannelId(pub u32);

impl ChannelId {
    /// The underlying integer.
    pub fn value(&self) -> (v: u32)
        ensures
            v == self.0,
    {
        self.0
    }
}

impl core::ops::Deref for ChannelId {
    type Target = u32;

    fn deref(&self) -> (v: &u32)
        ensures
            *v == self.0,
    {
        &self.0
    }
}

impl From<u32> for ChannelId {
    fn from(value: u32) -> (id: Self) {
        ChannelId(value)
    }
}

impl FromSpecImpl<u32> for ChannelId {
    open spec fn obeys_from_spec() -> bool {
        true
    }

    open spec fn from_spec(value: u32) -> Self {
        ChannelId(value)
    }
}

impl MapKey for ChannelId {
    fn same(&self, other: &Self) -> (b: bool) {
        self.0 == other.0
    }
}

} // verus!
