use vstd::prelude::*;

use crate::addr::NodeId;
use crate::ordered_map::MapKey;
use crate::router::metric::Float;

verus! {

/// Bytes as they travel over one connection.
pub struct NetworkPkt {
    pub conn: Connection,
    pub data: Vec<u8>,
}

/// A link to a neighbour: the node at the other end and the number that the
/// host gave the session.
#[derive(Debug, Clone, Copy, PartialEq, Eq, Hash, Structural)]
pub struct Connection(pub NodeId, pub u32);

impl Connection {
    /// The connection to `node` in the session numbered `session`.
    pub fn from_parts(node: NodeId, session: u32) -> (conn: Self)
        ensures
            conn == Connection(node, session),
    {
        Connection(node, session)
    }

    /// The node at the other end.
    pub fn remote(&self) -> (node: NodeId)
        ensures
            node == self.0,
    {
        self.0
    }

    /// The number of the session.
    pub fn session(&self) -> (session: u32)
        ensures
            session == self.1,
    {
        self.1
    }
}

impl MapKey for Connection {
    fn same(&self, other: &Self) -> (b: bool) {
        self.0.0 == other.0.0 && self.1 == other.1
    }
}

/// A message together with the connection it came over or is to go over.
#[derive(Debug, Clone, PartialEq, Eq)]
pub struct NetworkMsg<MSG> {
    pub conn: Connection,
    pub msg: MSG,
}

/// A `NetworkMsg` whose message is taken by its view.
pub struct NetworkMsgView<M> {
    pub conn: Connection,
    pub msg: M,
}

impl<MSG: View> View for NetworkMsg<MSG> {
    type V = NetworkMsgView<MSG::V>;

    open spec fn view(&self) -> NetworkMsgView<MSG::V> {
        NetworkMsgView { conn: self.conn, msg: self.msg@ }
    }
}

/// What the host has measured on one connection.
#[derive(Debug, Clone, Copy, PartialEq, Eq)]
pub struct ConnectionStats {
    pub rtt_ms: u32,
    pub lost_percent: Float<2>,
    pub jitter_ms: u32,
    pub bandwidth_kbps: u32,
}

} // verus!
