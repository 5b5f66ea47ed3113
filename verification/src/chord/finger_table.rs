use std::collections::{HashMap, VecDeque};
use vstd::arithmetic::power2::pow2;
use vstd::prelude::*;
use vstd::std_specs::iter::IteratorSpec;

use crate::addr::{NamesNode, NodeId};

verus! {

broadcast use vstd::std_specs::hash::group_hash_axioms;

/// Number of fingers a node keeps: one for each bit of an identifier.
pub const FINGER_TABLE_SIZE: usize = 32;

/// Age, in milliseconds, at which a pending request is given up.
pub const REQUEST_TIMEOUT_MS: u64 = 10000;

/// Age, in milliseconds, below which a predecessor is never dropped.
pub const PREDECESSOR_WARMUP_MS: u64 = 10000;

/// Silence, in milliseconds, after which a predecessor counts as gone.
pub const PREDECESSOR_TIMEOUT_MS: u64 = 10000;

/// Where a node can be reached.
pub type NodeAddr = String;

/// Ring order: whether `key` lies on the arc that runs clockwise from `lo` to
/// `hi`. With `lo <= hi` the arc is the plain interval between them; with
/// `lo > hi` it passes through zero. Each end belongs to the arc exactly when
/// its flag is set.
pub open spec fn in_range(key: u32, lo: u32, hi: u32, left_incl: bool, right_incl: bool) -> bool {
    ||| left_incl && key == lo
    ||| right_incl && key == hi
    ||| if lo <= hi {
        lo < key < hi
    } else {
        key > lo || key < hi
    }
}

/// Clockwise distance from `from` to `to` on the ring.
pub open spec fn clockwise(from: u32, to: u32) -> int {
    (to - from) % 0x1_0000_0000
}

/// Ring order is order by clockwise distance from the left end: a key is
/// strictly inside the arc when it is nearer to `lo` than `hi` is, and the ends
/// are decided by their flags alone. An arc from a point to itself holds
/// nothing but that point.
pub proof fn lemma_in_range_by_distance(key: u32, lo: u32, hi: u32, left_incl: bool, right_incl: bool)
    ensures
        in_range(key, lo, hi, left_incl, right_incl) <==> {
            ||| left_incl && key == lo
            ||| right_incl && key == hi
            ||| 0 < clockwise(lo, key) < clockwise(lo, hi)
        },
        lo == hi ==> (in_range(key, lo, hi, left_incl, right_incl) <==> (left_incl || right_incl) && key
            == lo),
{
}

/// An arc of the identifier ring, from the first node clockwise to the second.
pub struct NodeIdRange(pub NodeId, pub NodeId);

impl NodeIdRange {
    /// The arc from `start` clockwise to `end`.
    pub fn new<A: NamesNode>(start: A, end: A) -> (r: Self)
        ensures
            r.0 == start.node(),
            r.1 == end.node(),
    {
        NodeIdRange(start.into_node(), end.into_node())
    }

    /// Whether `key` lies on the arc; `left` and `right` say whether the ends count.
    pub fn contains(&self, key: NodeId, left: bool, right: bool) -> (b: bool)
        ensures
            b == in_range(key.0, self.0.0, self.1.0, left, right),
    {
        if left && self.0.0 == key.0 {
            return true;
        }
        if right && self.1.0 == key.0 {
            return true;
        }
        if self.0.0 <= self.1.0 {
            self.0.0 < key.0 && key.0 < self.1.0
        } else {
            key.0 > self.0.0 || key.0 < self.1.0
        }
    }
}

/// What a node tells of itself.
#[derive(Debug, PartialEq, Eq)]
pub struct NodeInfo {
    pub node_id: NodeId,
    pub address: NodeAddr,
    pub created_at: u64,
    pub last_pong: Option<u64>,
}

impl Clone for NodeInfo {
    fn clone(&self) -> (r: Self)
        ensures
            r == *self,
    {
        NodeInfo {
            node_id: self.node_id,
            address: self.address.clone(),
            created_at: self.created_at,
            last_pong: self.last_pong,
        }
    }
}

/// A message of the ring protocol. Outgoing, `remote` is the node it goes to;
/// incoming, the node it came from.
#[allow(inconsistent_fields)]
#[derive(Debug, Clone, PartialEq, Eq)]
pub enum ChordEvent {
    PingPredecessor { remote: NodeId, ts: u64 },
    PongPredecessor { remote: NodeId, ts: u64 },
    Notify { remote: NodeId, info: NodeInfo },
    FindSuccessor { req: u32, remote: NodeId, key: NodeId },
    FindPredecessor { req: u32, remote: NodeId },
    FoundSuccessor { req: u32, remote: NodeId, key: NodeId, info: Option<NodeInfo> },
    FoundPredecessor { req: u32, remote: NodeId, info: Option<NodeInfo> },
}

/// On whose behalf a request is pending.
#[derive(Debug, Clone, Copy, PartialEq, Eq)]
pub enum RequestSource {
    /// Another node asked; `req` is the number it gave its request.
    Remote { node: NodeId, key: NodeId, req: u32 },
    /// This node asked, to fill the finger `slot`.
    LocalSuccessor { slot: usize },
    /// This node asked its successor for that node's predecessor.
    LocalPredecessor,
}

/// A request that waits for its answer since `ts`.
#[derive(Debug, Clone, Copy, PartialEq, Eq)]
pub struct RequestSlot {
    pub source: RequestSource,
    pub ts: u64,
}

/// Whether a request sent at `ts` has waited out the timeout at `now`.
pub open spec fn expired(ts: u64, now: u64) -> bool {
    now - ts >= REQUEST_TIMEOUT_MS
}

/// The numbers of the requests of `queue` that have timed out at `now`.
pub open spec fn timed_out(queue: Map<u32, RequestSlot>, now: u64) -> Set<u32> {
    Set::new(|req: u32| queue.contains_key(req) && expired(queue[req].ts, now))
}

/// Whether `walk` names each request of `queue` that has timed out at `now`,
/// once and in any order. The requests are kept in a hash map, which hands
/// them out in an order of its own.
pub open spec fn walks_timed_out(queue: Map<u32, RequestSlot>, now: u64, walk: Seq<u32>) -> bool {
    walk.no_duplicates() && walk.to_set() == timed_out(queue, now)
}

/// The negative answers owed for the requests that `walk` names: one for
/// each that was made for another node, in the order of the walk.
pub open spec fn timeout_replies(queue: Map<u32, RequestSlot>, walk: Seq<u32>) -> Seq<ChordEvent>
    decreases walk.len(),
{
    if walk.len() == 0 {
        Seq::empty()
    } else {
        let rest = timeout_replies(queue, walk.drop_last());
        match queue[walk.last()].source {
            RequestSource::Remote { node, key, req } => rest.push(
                ChordEvent::FoundSuccessor { req, remote: node, key, info: None },
            ),
            _ => rest,
        }
    }
}

/// Start of the `i`-th finger of node `id`: `id + 2^i` on the ring.
pub open spec fn finger_start(id: u32, i: int) -> u32 {
    ((id + pow2(i as nat)) % 0x1_0000_0000) as u32
}

/// The state of a node of the ring, as a mathematical value.
pub struct ChordState {
    pub req_seed: u32,
    pub node_info: NodeInfo,
    pub finger: Seq<Option<NodeInfo>>,
    pub predecessor: Option<NodeInfo>,
    pub actions: Seq<ChordEvent>,
    pub req_queue: Map<u32, RequestSlot>,
    pub fix_finger_next: usize,
}

impl ChordState {
    /// There is a finger for each slot, the slot that is fixed next is one of
    /// them, every pending number has been given out, so that it lies below
    /// the next number, and every request that is to fill a finger names a
    /// slot that exists.
    pub open spec fn wf(self) -> bool {
        &&& self.finger.len() == FINGER_TABLE_SIZE
        &&& self.fix_finger_next < FINGER_TABLE_SIZE
        &&& self.req_queue.dom().finite()
        &&& forall|req: u32| #[trigger] self.req_queue.contains_key(req) ==> req < self.req_seed
        &&& forall|req: u32| #[trigger]
            self.req_queue.contains_key(req) ==> (self.req_queue[req].source matches RequestSource::LocalSuccessor {
                slot,
            } ==> slot < FINGER_TABLE_SIZE)
    }

    /// The state of a node that has just been created.
    pub open spec fn init(node_info: NodeInfo) -> Self {
        ChordState {
            req_seed: 0,
            node_info,
            finger: Seq::new(FINGER_TABLE_SIZE as nat, |i: int| None),
            predecessor: None,
            actions: Seq::empty(),
            req_queue: Map::empty(),
            fix_finger_next: 0,
        }
    }

    /// The identifier of this node.
    pub open spec fn id(self) -> u32 {
        self.node_info.node_id.0
    }

    /// The first finger, or the node itself while that finger is empty.
    pub open spec fn successor(self) -> NodeInfo {
        match self.finger[0] {
            Some(info) => info,
            None => self.node_info,
        }
    }

    /// Whether the finger `slot` is set and lies strictly between this node
    /// and `key` on the ring.
    pub open spec fn precedes(self, slot: int, key: NodeId) -> bool {
        self.finger[slot] matches Some(info) && in_range(info.node_id.0, self.id(), key.0, false, false)
    }

    /// The highest of the first `n` fingers that lies strictly between this
    /// node and `key`; the node itself if there is none.
    pub open spec fn closest_preceding_below(self, key: NodeId, n: int) -> NodeInfo
        decreases n,
    {
        if n <= 0 {
            self.node_info
        } else {
            match self.finger[n - 1] {
                Some(info) if in_range(info.node_id.0, self.id(), key.0, false, false) => info,
                _ => self.closest_preceding_below(key, n - 1),
            }
        }
    }

    /// The finger of the highest slot that lies strictly between this node
    /// and `key`; the node itself if there is none.
    pub open spec fn closest_preceding(self, key: NodeId) -> NodeInfo {
        self.closest_preceding_below(key, FINGER_TABLE_SIZE as int)
    }

    /// The state with `event` added to what is to be sent.
    pub open spec fn emit(self, event: ChordEvent) -> Self {
        ChordState { actions: self.actions.push(event), ..self }
    }

    /// The request that is pending under the number `req`, if there is one.
    pub open spec fn pending(self, req: u32) -> Option<RequestSlot> {
        if self.req_queue.contains_key(req) {
            Some(self.req_queue[req])
        } else {
            None
        }
    }

    /// The state in which the request numbered `req` waits as `slot`.
    pub open spec fn track(self, req: u32, slot: RequestSlot) -> Self {
        ChordState { req_queue: self.req_queue.insert(req, slot), ..self }
    }

    /// The state in which the request numbered `req` waits no longer.
    pub open spec fn untrack(self, req: u32) -> Self {
        ChordState { req_queue: self.req_queue.remove(req), ..self }
    }

    /// Whether a request can still be numbered: the numbers run up to the
    /// largest that fits and are never used twice.
    pub open spec fn has_request_ids(self) -> bool {
        self.req_seed < u32::MAX
    }

    /// Whether the successor of `key` is not known here, so that the question
    /// has to be passed on under a new request number.
    pub open spec fn looks_further(self, key: NodeId) -> bool {
        !in_range(key.0, self.id(), self.successor().node_id.0, false, true)
    }

    /// The state after the next request number has been given out.
    pub open spec fn take_req(self) -> Self {
        ChordState { req_seed: (self.req_seed + 1) as u32, ..self }
    }

    /// Whether `info` would make this node its own first finger. Such an
    /// answer is never stored: the first finger names another node or nobody.
    pub open spec fn names_itself(self, slot: usize, info: NodeInfo) -> bool {
        slot == 0 && info.node_id == self.node_info.node_id
    }

    /// The state with `info` as the finger `slot`.
    pub open spec fn set_finger(self, slot: int, info: NodeInfo) -> Self {
        ChordState { finger: self.finger.update(slot, Some(info)), ..self }
    }

    /// The state with `predecessor` as the predecessor.
    pub open spec fn set_predecessor(self, predecessor: Option<NodeInfo>) -> Self {
        ChordState { predecessor, ..self }
    }

    /// Joins the ring of which `remote` is a node: forgets the predecessor
    /// and asks `remote` for the successor of this node's own identifier, to
    /// become the first finger.
    pub open spec fn join(self, now: u64, remote: NodeId) -> Self {
        self.set_predecessor(None).take_req().emit(
            ChordEvent::FindSuccessor { req: self.req_seed, remote, key: self.node_info.node_id },
        ).track(
            self.req_seed,
            RequestSlot { source: RequestSource::LocalSuccessor { slot: 0 }, ts: now },
        )
    }

    /// Looks `key` up for `source`, which is another node or a finger of this
    /// one: answers at once where the key falls to the successor, else passes
    /// the question on to the closest preceding finger under a new request
    /// number. An answer that would make this node its own first finger is
    /// not stored.
    pub open spec fn find_successor(self, now: u64, source: RequestSource, key: NodeId) -> Self
        recommends
            !(source is LocalPredecessor),
    {
        let succ = self.successor();
        if !self.looks_further(key) {
            match source {
                RequestSource::Remote { node, key: _, req } => self.emit(
                    ChordEvent::FoundSuccessor { req, remote: node, key, info: Some(succ) },
                ),
                RequestSource::LocalSuccessor { slot } => if self.names_itself(slot, succ) {
                    self
                } else {
                    self.set_finger(slot as int, succ)
                },
                RequestSource::LocalPredecessor => self,
            }
        } else {
            let next = self.closest_preceding(key).node_id;
            if next != self.node_info.node_id {
                self.take_req().emit(
                    ChordEvent::FindSuccessor { req: self.req_seed, remote: next, key },
                ).track(self.req_seed, RequestSlot { source, ts: now })
            } else {
                self.take_req()
            }
        }
    }

    /// The first half of a stabilisation round: asks the successor for its
    /// predecessor.
    pub open spec fn stabilize(self, now: u64) -> Self {
        self.take_req().emit(
            ChordEvent::FindPredecessor { req: self.req_seed, remote: self.successor().node_id },
        ).track(self.req_seed, RequestSlot { source: RequestSource::LocalPredecessor, ts: now })
    }

    /// The second half of a stabilisation round: the successor has named
    /// `candidate` as its predecessor.
    pub open spec fn adopt_successor(self, candidate: NodeInfo) -> Self {
        let s = if in_range(candidate.node_id.0, self.id(), self.successor().node_id.0, false, false) {
            self.set_finger(0, candidate)
        } else {
            self
        };
        s.emit(ChordEvent::Notify { remote: s.successor().node_id, info: self.node_info })
    }

    /// The slot that `fix_fingers` turns to next: the one after the last,
    /// and the first again after the last of all.
    pub open spec fn next_finger(self) -> usize {
        if self.fix_finger_next + 1 >= FINGER_TABLE_SIZE {
            0
        } else {
            (self.fix_finger_next + 1) as usize
        }
    }

    /// The key that `fix_fingers` looks up next.
    pub open spec fn next_finger_start(self) -> NodeId {
        NodeId(finger_start(self.id(), self.next_finger() as int))
    }

    /// Whether `fix_fingers` can run: it needs a request number where it has
    /// to pass its question on.
    pub open spec fn can_fix_fingers(self) -> bool {
        self.looks_further(self.next_finger_start()) ==> self.has_request_ids()
    }

    /// Moves on to the next slot and looks up the node that belongs there:
    /// the successor of this node's identifier plus two to the power of the slot.
    pub open spec fn fix_fingers(self, now: u64) -> Self {
        let slot = self.next_finger();
        ChordState { fix_finger_next: slot, ..self }.find_successor(
            now,
            RequestSource::LocalSuccessor { slot },
            NodeId(finger_start(self.id(), slot as int)),
        )
    }

    /// Forgets a predecessor that is past its warm-up time and has not
    /// answered a ping within the timeout; pings any other.
    pub open spec fn check_predecessor(self, now: u64) -> Self {
        match self.predecessor {
            None => self,
            Some(p) => {
                let last_pong = match p.last_pong {
                    Some(ts) => ts,
                    None => 0,
                };
                if p.created_at + PREDECESSOR_WARMUP_MS <= now && now - last_pong
                    >= PREDECESSOR_TIMEOUT_MS {
                    self.set_predecessor(None)
                } else {
                    self.emit(ChordEvent::PingPredecessor { remote: p.node_id, ts: now })
                }
            },
        }
    }

    /// Gives up the requests that have timed out at `now`, and answers in
    /// the negative those among them that were made for another node, in
    /// the order in which `walk` names them.
    pub open spec fn check_timeout_requests(self, now: u64, walk: Seq<u32>) -> Self {
        ChordState {
            req_queue: self.req_queue.remove_keys(timed_out(self.req_queue, now)),
            actions: self.actions + timeout_replies(self.req_queue, walk),
            ..self
        }
    }

    /// Whether `event` can be handled. An answer must fit the request it
    /// answers; an answer to a request that is not pending always fits. A
    /// question that has to be passed on needs a request number.
    pub open spec fn accepts(self, event: ChordEvent) -> bool {
        match event {
            ChordEvent::FindSuccessor { key, .. } => self.looks_further(key) ==> self.has_request_ids(),
            ChordEvent::FoundSuccessor { req, .. } => match self.pending(req) {
                Some(slot) => match slot.source {
                    RequestSource::Remote { node, .. } => node != self.node_info.node_id,
                    RequestSource::LocalSuccessor { .. } => true,
                    RequestSource::LocalPredecessor => false,
                },
                None => true,
            },
            ChordEvent::FoundPredecessor { req, .. } => match self.pending(req) {
                Some(slot) => slot.source is LocalPredecessor,
                None => true,
            },
            _ => true,
        }
    }

    /// Handles a message from the ring. A ping is answered with its own
    /// timestamp, and a pong of the predecessor recorded. A notification
    /// sets an empty predecessor, and replaces one that lies further back on
    /// the ring. Questions are answered or passed on. An answer ends the
    /// request it belongs to: it is sent on to the node that asked, fills the
    /// finger it was asked for, or completes the stabilisation round; an
    /// answer to a request that is not pending is dropped, and so is one
    /// that names this node as its own first finger.
    pub open spec fn on_event(self, now: u64, event: ChordEvent) -> Self {
        match event {
            ChordEvent::PingPredecessor { remote, ts } => self.emit(
                ChordEvent::PongPredecessor { remote, ts },
            ),
            ChordEvent::PongPredecessor { remote, ts } => match self.predecessor {
                Some(p) if p.node_id == remote => self.set_predecessor(
                    Some(NodeInfo { last_pong: Some(ts), ..p }),
                ),
                _ => self,
            },
            ChordEvent::Notify { remote: _, info } => match self.predecessor {
                Some(p) if !in_range(info.node_id.0, p.node_id.0, self.id(), false, false) => self,
                _ => self.set_predecessor(Some(info)),
            },
            ChordEvent::FindSuccessor { req, remote, key } => self.find_successor(
                now,
                RequestSource::Remote { node: remote, key, req },
                key,
            ),
            ChordEvent::FindPredecessor { req, remote } => self.emit(
                ChordEvent::FoundPredecessor { req, remote, info: self.predecessor },
            ),
            ChordEvent::FoundSuccessor { req, remote: _, key, info } => match self.pending(req) {
                Some(slot) => match slot.source {
                    RequestSource::Remote { node, key: _, req: asked } => self.untrack(req).emit(
                        ChordEvent::FoundSuccessor { req: asked, remote: node, key, info },
                    ),
                    RequestSource::LocalSuccessor { slot } => match info {
                        Some(info) if !self.names_itself(slot, info) => self.untrack(req).set_finger(
                            slot as int,
                            info,
                        ),
                        _ => self.untrack(req),
                    },
                    RequestSource::LocalPredecessor => self.untrack(req),
                },
                None => self,
            },
            ChordEvent::FoundPredecessor { req, remote: _, info } => match self.pending(req) {
                Some(_) => match info {
                    Some(info) => self.untrack(req).adopt_successor(info),
                    None => self.untrack(req),
                },
                None => self,
            },
        }
    }

    /// Every pending request is younger than the timeout at `now`.
    pub open spec fn all_fresh(self, now: u64) -> bool {
        forall|req: u32| #[trigger] self.req_queue.contains_key(req) ==> !expired(self.req_queue[req].ts, now)
    }

    /// The first finger, where it is set, names another node.
    pub open spec fn successor_is_remote(self) -> bool {
        self.finger[0] matches Some(info) ==> info.node_id != self.node_info.node_id
    }
}

/// The ring-membership engine of one node: its successor, fingers and
/// predecessor, the requests it waits on, and the messages it wants sent.
pub struct ChordFingerTable {
    req_seed: u32,
    node_info: NodeInfo,
    finger: Vec<Option<NodeInfo>>,
    predecessor: Option<NodeInfo>,
    actions: VecDeque<ChordEvent>,
    req_queue: HashMap<u32, RequestSlot>,
    fix_finger_next: usize,
}

impl View for ChordFingerTable {
    type V = ChordState;

    closed spec fn view(&self) -> ChordState {
        ChordState {
            req_seed: self.req_seed,
            node_info: self.node_info,
            finger: self.finger@,
            predecessor: self.predecessor,
            actions: self.actions@,
            req_queue: self.req_queue@,
            fix_finger_next: self.fix_finger_next,
        }
    }
}

impl ChordFingerTable {
    /// The table is well formed when its state is.
    pub open spec fn wf(&self) -> bool {
        self@.wf()
    }

    /// The table of a node that knows nobody yet.
    pub fn new(node_info: NodeInfo) -> (table: Self)
        ensures
            table@ == ChordState::init(node_info),
            table.wf(),
    {
        let mut finger: Vec<Option<NodeInfo>> = Vec::new();
        while finger.len() < FINGER_TABLE_SIZE
            invariant
                finger.len() <= FINGER_TABLE_SIZE,
                forall|i: int| 0 <= i < finger.len() ==> finger@[i] is None,
            decreases FINGER_TABLE_SIZE - finger.len(),
        {
            finger.push(None);
        }
        let table = ChordFingerTable {
            req_seed: 0,
            node_info,
            finger,
            predecessor: None,
            actions: VecDeque::new(),
            req_queue: HashMap::new(),
            fix_finger_next: 0,
        };
        assert(table@.finger =~= ChordState::init(node_info).finger);
        assert(table@ =~= ChordState::init(node_info));
        table
    }

    /// Asks the node `remote`, which is already on the ring, for this node's successor.
    pub fn join(&mut self, now_ms: u64, remote: NodeId)
        requires
            old(self).wf(),
            old(self)@.has_request_ids(),
        ensures
            final(self).wf(),
            final(self)@ == old(self)@.join(now_ms, remote),
    {
        self.predecessor = None;
        let req = self.next_req();
        self.actions.push_back(
            ChordEvent::FindSuccessor { req, remote, key: self.node_info.node_id },
        );
        self.track(req, RequestSlot { source: RequestSource::LocalSuccessor { slot: 0 }, ts: now_ms });
    }

    /// Whether `event` fits the request it answers, so that `on_event` can take it.
    pub fn accepts(&self, event: &ChordEvent) -> (b: bool)
        requires
            self.wf(),
        ensures
            b == self@.accepts(*event),
    {
        match event {
            ChordEvent::FindSuccessor { key, .. } => !self.looks_further(*key) || self.has_request_ids(),
            ChordEvent::FoundSuccessor { req, .. } => match self.req_queue.get(req) {
                Some(slot) => match slot.source {
                    RequestSource::Remote { node, .. } => node.0 != self.node_info.node_id.0,
                    RequestSource::LocalSuccessor { .. } => true,
                    RequestSource::LocalPredecessor => false,
                },
                None => true,
            },
            ChordEvent::FoundPredecessor { req, .. } => match self.req_queue.get(req) {
                Some(slot) => match slot.source {
                    RequestSource::LocalPredecessor => true,
                    _ => false,
                },
                None => true,
            },
            _ => true,
        }
    }

    /// Handles a message that came in from the ring.
    pub fn on_event(&mut self, now_ms: u64, event: ChordEvent)
        requires
            old(self).wf(),
            old(self)@.accepts(event),
        ensures
            final(self).wf(),
            final(self)@ == old(self)@.on_event(now_ms, event),
    {
        match event {
            ChordEvent::PingPredecessor { remote, ts } => {
                self.actions.push_back(ChordEvent::PongPredecessor { remote, ts });
            },
            ChordEvent::PongPredecessor { remote, ts } => {
                let matched = match &self.predecessor {
                    Some(p) => p.node_id.0 == remote.0,
                    None => false,
                };
                if matched {
                    if let Some(p) = self.predecessor.take() {
                        self.predecessor = Some(NodeInfo { last_pong: Some(ts), ..p });
                    }
                }
            },
            ChordEvent::Notify { remote: _, info } => {
                let replace = match &self.predecessor {
                    Some(p) => NodeIdRange(p.node_id, self.node_info.node_id).contains(
                        info.node_id,
                        false,
                        false,
                    ),
                    None => true,
                };
                if replace {
                    self.predecessor = Some(info);
                }
            },
            ChordEvent::FindSuccessor { req, remote, key } => {
                self.find_successor(now_ms, RequestSource::Remote { node: remote, key, req }, key);
            },
            ChordEvent::FindPredecessor { req, remote } => {
                let info = self.predecessor.clone();
                self.actions.push_back(ChordEvent::FoundPredecessor { req, remote, info });
            },
            ChordEvent::FoundSuccessor { req, remote: _, key, info } => {
                if let Some(slot) = self.req_queue.remove(&req) {
                    match slot.source {
                        RequestSource::Remote { node, key: _, req: asked } => {
                            self.actions.push_back(
                                ChordEvent::FoundSuccessor { req: asked, remote: node, key, info },
                            );
                        },
                        RequestSource::LocalSuccessor { slot } => {
                            if let Some(info) = info {
                                if slot != 0 || info.node_id.0 != self.node_info.node_id.0 {
                                    self.finger[slot] = Some(info);
                                }
                            }
                        },
                        RequestSource::LocalPredecessor => {},
                    }
                } else {
                    assert(self.req_queue@ =~= old(self).req_queue@);
                }
            },
            ChordEvent::FoundPredecessor { req, remote: _, info } => {
                if let Some(_) = self.req_queue.remove(&req) {
                    if let Some(info) = info {
                        self.stablize_1(info);
                    }
                } else {
                    assert(self.req_queue@ =~= old(self).req_queue@);
                }
            },
        }
        proof {
            assert(self@ =~= old(self)@.on_event(now_ms, event));
        }
    }

    /// Starts a stabilisation round: asks the successor for its predecessor.
    pub fn stablize(&mut self, now_ms: u64)
        requires
            old(self).wf(),
            old(self)@.has_request_ids(),
        ensures
            final(self).wf(),
            final(self)@ == old(self)@.stabilize(now_ms),
    {
        self.stablize_0(now_ms);
    }

    /// Refreshes the next finger in turn.
    pub fn fix_fingers(&mut self, now_ms: u64)
        requires
            old(self).wf(),
            old(self)@.can_fix_fingers(),
        ensures
            final(self).wf(),
            final(self)@ == old(self)@.fix_fingers(now_ms),
    {
        self.fix_finger_next += 1;
        if self.fix_finger_next >= FINGER_TABLE_SIZE {
            self.fix_finger_next = 0;
        }
        let slot: usize = self.fix_finger_next;
        let key = self.finger_key(slot);
        assert(key == old(self)@.next_finger_start());
        self.find_successor(now_ms, RequestSource::LocalSuccessor { slot }, key);
    }

    /// Pings the predecessor, or forgets it when it has been silent too long.
    pub fn check_predecessor(&mut self, now_ms: u64)
        requires
            old(self).wf(),
        ensures
            final(self).wf(),
            final(self)@ == old(self)@.check_predecessor(now_ms),
    {
        let verdict: Option<NodeId> = match &self.predecessor {
            None => {
                return ;
            },
            Some(p) => {
                let last_pong: u64 = match p.last_pong {
                    Some(ts) => ts,
                    None => 0,
                };
                let warmed_up = now_ms >= PREDECESSOR_WARMUP_MS && p.created_at <= now_ms
                    - PREDECESSOR_WARMUP_MS;
                let silent = now_ms >= PREDECESSOR_TIMEOUT_MS && last_pong <= now_ms
                    - PREDECESSOR_TIMEOUT_MS;
                if warmed_up && silent {
                    None
                } else {
                    Some(p.node_id)
                }
            },
        };
        match verdict {
            None => {
                self.predecessor = None;
            },
            Some(remote) => {
                self.actions.push_back(ChordEvent::PingPredecessor { remote, ts: now_ms });
            },
        }
    }

    /// Gives up the requests that have waited too long, and answers in the
    /// negative those that were made for another node. The answers come in
    /// the order in which the hash map hands the requests out: each request
    /// that has timed out is walked once, in some order.
    pub fn check_timeout_requests(&mut self, now_ms: u64)
        requires
            old(self).wf(),
        ensures
            final(self).wf(),
            exists|walk: Seq<u32>|
                walks_timed_out(old(self)@.req_queue, now_ms, walk) && final(self)@ == old(
                    self,
                )@.check_timeout_requests(now_ms, walk),
            final(self)@.all_fresh(now_ms),
    {
        let to_remove = self.timed_out_requests(now_ms);
        let ghost queue = self.req_queue@;
        let mut i: usize = 0;
        proof {
            assert(to_remove@.take(0) =~= Seq::empty());
            assert(queue.remove_keys(to_remove@.take(0).to_set()) =~= queue);
        }
        while i < to_remove.len()
            invariant
                i <= to_remove@.len(),
                queue == old(self)@.req_queue,
                walks_timed_out(queue, now_ms, to_remove@),
                self.req_queue@ == queue.remove_keys(to_remove@.take(i as int).to_set()),
                self.actions@ == old(self)@.actions + timeout_replies(queue, to_remove@.take(i as int)),
                self@ == (ChordState { req_queue: self.req_queue@, actions: self.actions@, ..old(self)@ }),
            decreases to_remove@.len() - i,
        {
            let req = to_remove[i];
            let ghost before = to_remove@.take(i as int);
            let ghost after = to_remove@.take(i + 1);
            proof {
                assert(after.drop_last() =~= before);
                assert(after.last() == req);
                assert(to_remove@.to_set().contains(to_remove@[i as int]));
                assert(queue.contains_key(req));
                assert(!before.to_set().contains(req)) by {
                    if before.to_set().contains(req) {
                        let j = choose|j: int| 0 <= j < before.len() && before[j] == req;
                        assert(to_remove@[j] == to_remove@[i as int]);
                    }
                }
                assert(after.to_set() =~= before.to_set().insert(req));
                assert(queue.remove_keys(after.to_set()) =~= queue.remove_keys(before.to_set()).remove(req));
            }
            if let Some(slot) = self.req_queue.remove(&req) {
                if let RequestSource::Remote { node, key, req } = slot.source {
                    self.actions.push_back(
                        ChordEvent::FoundSuccessor { req, remote: node, key, info: None },
                    );
                }
            }
            proof {
                assert(self.actions@ =~= old(self)@.actions + timeout_replies(queue, after));
            }
            i += 1;
        }
        proof {
            assert(to_remove@.take(i as int) =~= to_remove@);
            assert(self@ == old(self)@.check_timeout_requests(now_ms, to_remove@));
        }
    }

    /// The numbers of the requests that have waited too long, each once, in
    /// the order in which the hash map hands them out.
    fn timed_out_requests(&self, now_ms: u64) -> (walk: Vec<u32>)
        ensures
            walks_timed_out(self@.req_queue, now_ms, walk@),
    {
        let mut found: Vec<u32> = Vec::new();
        let ghost queue = self.req_queue@;
        let ghost keys: Seq<u32> = self.req_queue.keys().remaining().unref();
        let ghost seen: int = 0;
        for req in it: self.req_queue.keys()
            invariant
                queue == self.req_queue@,
                it.seq().unref() == keys,
                keys.no_duplicates(),
                keys.to_set() == queue.dom(),
                seen == it.index(),
                found@.no_duplicates(),
                forall|a: int|
                    0 <= a < found@.len() ==> exists|j: int|
                        0 <= j < seen && keys[j] == #[trigger] found@[a] && expired(
                            queue[found@[a]].ts,
                            now_ms,
                        ),
                forall|j: int|
                    0 <= j < seen && expired(queue[#[trigger] keys[j]].ts, now_ms) ==> found@.contains(
                        keys[j],
                    ),
        {
            let ghost before = found@;
            proof {
                assert(keys[seen] == *req);
                assert(keys.to_set().contains(keys[seen]));
            }
            if let Some(slot) = self.req_queue.get(req) {
                let late = now_ms >= REQUEST_TIMEOUT_MS && slot.ts <= now_ms - REQUEST_TIMEOUT_MS;
                if late {
                    found.push(*req);
                    proof {
                        assert forall|a: int, b: int| 0 <= a < b < found@.len() implies found@[a]
                            != found@[b] by {
                            if b == before.len() {
                                let j = choose|j: int|
                                    0 <= j < seen && keys[j] == before[a] && expired(
                                        queue[before[a]].ts,
                                        now_ms,
                                    );
                                assert(keys[j] != keys[seen]);
                            }
                        }
                        assert(found@[before.len() as int] == *req);
                        assert forall|j: int|
                            0 <= j < seen + 1 && expired(
                                queue[#[trigger] keys[j]].ts,
                                now_ms,
                            ) implies found@.contains(keys[j]) by {
                            if j < seen {
                                let a = choose|a: int| 0 <= a < before.len() && before[a] == keys[j];
                                assert(found@[a] == keys[j]);
                            }
                        }
                    }
                }
            }
            proof {
                seen = seen + 1;
            }
        }
        proof {
            assert(seen == keys.len());
            assert forall|req: u32| found@.to_set().contains(req) <==> timed_out(queue, now_ms).contains(
                req,
            ) by {
                if found@.contains(req) {
                    let a = choose|a: int| 0 <= a < found@.len() && found@[a] == req;
                    let j = choose|j: int|
                        0 <= j < seen && keys[j] == found@[a] && expired(queue[found@[a]].ts, now_ms);
                    assert(keys.to_set().contains(keys[j]));
                }
                if timed_out(queue, now_ms).contains(req) {
                    assert(keys.to_set().contains(req));
                    let j = choose|j: int| 0 <= j < keys.len() && keys[j] == req;
                    assert(found@.contains(keys[j]));
                }
            }
            assert(found@.to_set() =~= timed_out(queue, now_ms));
        }
        found
    }

    /// The next message that this node wants sent, oldest first.
    pub fn pop_action(&mut self) -> (action: Option<ChordEvent>)
        requires
            old(self).wf(),
        ensures
            final(self).wf(),
            old(self)@.actions.len() == 0 ==> action is None && final(self)@ == old(self)@,
            old(self)@.actions.len() > 0 ==> action == Some(old(self)@.actions[0]) && final(self)@ == (
            ChordState { actions: old(self)@.actions.skip(1), ..old(self)@ }),
    {
        let action = self.actions.pop_front();
        proof {
            if old(self)@.actions.len() > 0 {
                assert(self@.actions =~= old(self)@.actions.skip(1));
            } else {
                assert(self@.actions =~= old(self)@.actions);
            }
        }
        action
    }

    /// What this node tells of itself.
    pub fn node_info(&self) -> (info: &NodeInfo)
        ensures
            *info == self@.node_info,
    {
        &self.node_info
    }

    /// The finger `slot`, if it is set.
    pub fn finger(&self, slot: usize) -> (info: Option<&NodeInfo>)
        requires
            self.wf(),
            slot < FINGER_TABLE_SIZE,
        ensures
            info is Some == self@.finger[slot as int] is Some,
            info matches Some(f) ==> Some(*f) == self@.finger[slot as int],
    {
        self.finger[slot].as_ref()
    }

    /// The number of requests that wait for an answer.
    pub fn pending_requests(&self) -> (n: usize)
        ensures
            n == self@.req_queue.len(),
    {
        self.req_queue.len()
    }

    /// Whether a request can still be numbered.
    pub fn has_request_ids(&self) -> (b: bool)
        ensures
            b == self@.has_request_ids(),
    {
        self.req_seed < u32::MAX
    }

    /// Whether the successor of `key` is not known here.
    pub fn looks_further(&self, key: NodeId) -> (b: bool)
        requires
            self.wf(),
        ensures
            b == self@.looks_further(key),
    {
        !NodeIdRange(self.node_info.node_id, self.successor().node_id).contains(key, false, true)
    }

    /// Whether `fix_fingers` can run.
    pub fn can_fix_fingers(&self) -> (b: bool)
        requires
            self.wf(),
        ensures
            b == self@.can_fix_fingers(),
    {
        let slot: usize = if self.fix_finger_next + 1 >= FINGER_TABLE_SIZE {
            0
        } else {
            self.fix_finger_next + 1
        };
        let key = self.finger_key(slot);
        !self.looks_further(key) || self.has_request_ids()
    }

    /// The start of the finger `slot`.
    fn finger_key(&self, slot: usize) -> (key: NodeId)
        requires
            slot < FINGER_TABLE_SIZE,
        ensures
            key.0 == finger_start(self@.id(), slot as int),
    {
        let shift: u32 = slot as u32;
        proof {
            vstd::bits::lemma_u32_pow2_no_overflow(slot as nat);
            vstd::bits::lemma_u32_shl_is_mul(1u32, shift);
        }
        let step: u32 = 1u32 << shift;
        NodeId(self.node_info.node_id.0.wrapping_add(step))
    }

    /// The first finger, or the node itself while that finger is empty.
    pub fn successor(&self) -> (info: &NodeInfo)
        requires
            self.wf(),
        ensures
            *info == self@.successor(),
    {
        match &self.finger[0] {
            Some(info) => info,
            None => &self.node_info,
        }
    }

    /// The node that last made itself known as this node's predecessor.
    pub fn predecessor(&self) -> (info: Option<&NodeInfo>)
        ensures
            info is Some == self@.predecessor is Some,
            info matches Some(p) ==> Some(*p) == self@.predecessor,
    {
        self.predecessor.as_ref()
    }

    /// Looks `key` up for `source`.
    fn find_successor(&mut self, now_ms: u64, source: RequestSource, key: NodeId)
        requires
            old(self).wf(),
            old(self)@.looks_further(key) ==> old(self)@.has_request_ids(),
            source matches RequestSource::LocalSuccessor { slot } ==> slot < FINGER_TABLE_SIZE,
            !(source is LocalPredecessor),
        ensures
            final(self).wf(),
            final(self)@ == old(self)@.find_successor(now_ms, source, key),
    {
        let successor = self.successor().clone();
        if !self.looks_further(key) {
            match source {
                RequestSource::Remote { node, key: _, req } => {
                    self.actions.push_back(
                        ChordEvent::FoundSuccessor { req, remote: node, key, info: Some(successor) },
                    );
                },
                RequestSource::LocalSuccessor { slot } => {
                    if slot != 0 || successor.node_id.0 != self.node_info.node_id.0 {
                        self.finger[slot] = Some(successor);
                    }
                },
                RequestSource::LocalPredecessor => {},
            }
        } else {
            let next_node = self.closest_preceding_node(key).node_id;
            let req = self.next_req();
            if next_node.0 != self.node_info.node_id.0 {
                self.actions.push_back(ChordEvent::FindSuccessor { req, remote: next_node, key });
                self.track(req, RequestSlot { source, ts: now_ms });
            }
        }
        proof {
            assert(self@ =~= old(self)@.find_successor(now_ms, source, key));
        }
    }

    /// The finger to ask for `key`, or the node itself if no finger is nearer to it.
    fn closest_preceding_node(&self, key: NodeId) -> (info: &NodeInfo)
        requires
            self.wf(),
        ensures
            *info == self@.closest_preceding(key),
    {
        let mut i: usize = FINGER_TABLE_SIZE;
        while i > 0
            invariant
                i <= FINGER_TABLE_SIZE,
                self.wf(),
                self@.closest_preceding(key) == self@.closest_preceding_below(key, i as int),
            decreases i,
        {
            i -= 1;
            if let Some(info) = &self.finger[i] {
                if NodeIdRange(self.node_info.node_id, key).contains(info.node_id, false, false) {
                    return info;
                }
            }
        }
        &self.node_info
    }

    /// Gives out the next request number.
    fn next_req(&mut self) -> (req: u32)
        requires
            old(self)@.has_request_ids(),
        ensures
            req == old(self)@.req_seed,
            final(self)@ == old(self)@.take_req(),
    {
        let req = self.req_seed;
        self.req_seed += 1;
        req
    }

    /// Lets the request numbered `req` wait as `slot`.
    fn track(&mut self, req: u32, slot: RequestSlot)
        requires
            old(self).wf(),
            req < old(self)@.req_seed,
            slot.source matches RequestSource::LocalSuccessor { slot } ==> slot < FINGER_TABLE_SIZE,
        ensures
            final(self).wf(),
            final(self)@ == old(self)@.track(req, slot),
    {
        self.req_queue.insert(req, slot);
    }

    /// The first half of a stabilisation round.
    fn stablize_0(&mut self, now_ms: u64)
        requires
            old(self).wf(),
            old(self)@.has_request_ids(),
        ensures
            final(self).wf(),
            final(self)@ == old(self)@.stabilize(now_ms),
    {
        let req = self.next_req();
        let remote = self.successor().node_id;
        self.actions.push_back(ChordEvent::FindPredecessor { req, remote });
        self.track(req, RequestSlot { source: RequestSource::LocalPredecessor, ts: now_ms });
    }

    /// The second half of a stabilisation round.
    fn stablize_1(&mut self, predecessor: NodeInfo)
        requires
            old(self).wf(),
        ensures
            final(self).wf(),
            final(self)@ == old(self)@.adopt_successor(predecessor),
    {
        let successor_id = self.successor().node_id;
        if NodeIdRange(self.node_info.node_id, successor_id).contains(
            predecessor.node_id,
            false,
            false,
        ) {
            self.finger[0] = Some(predecessor);
        }
        let remote = self.successor().node_id;
        let info = self.node_info.clone();
        self.actions.push_back(ChordEvent::Notify { remote, info });
        proof {
            assert(self@ =~= old(self)@.adopt_successor(predecessor));
        }
    }
}

/// The closest preceding node of `key` is the finger of the highest slot
/// that lies strictly between this node and `key`; where no finger does, it
/// is the node itself.
pub proof fn lemma_closest_preceding(s: ChordState, key: NodeId)
    requires
        s.wf(),
    ensures
        ({
            let found = s.closest_preceding(key);
            ||| exists|i: int|
                0 <= i < FINGER_TABLE_SIZE && s.precedes(i, key) && s.finger[i] == Some(found) && forall|
                    j: int,
                | i < j < FINGER_TABLE_SIZE ==> !s.precedes(j, key)
            ||| found == s.node_info && forall|j: int| 0 <= j < FINGER_TABLE_SIZE ==> !s.precedes(j, key)
        }),
{
    lemma_closest_preceding_below(s, key, FINGER_TABLE_SIZE as int);
}

/// The same, for the first `n` fingers alone.
proof fn lemma_closest_preceding_below(s: ChordState, key: NodeId, n: int)
    requires
        s.wf(),
        0 <= n <= FINGER_TABLE_SIZE,
    ensures
        ({
            let found = s.closest_preceding_below(key, n);
            ||| exists|i: int|
                0 <= i < n && s.precedes(i, key) && s.finger[i] == Some(found) && forall|j: int|
                    i < j < n ==> !s.precedes(j, key)
            ||| found == s.node_info && forall|j: int| 0 <= j < n ==> !s.precedes(j, key)
        }),
    decreases n,
{
    if n > 0 {
        if s.precedes(n - 1, key) {
            let found = s.closest_preceding_below(key, n);
            assert(s.finger[n - 1] == Some(found));
        } else {
            lemma_closest_preceding_below(s, key, n - 1);
            let found = s.closest_preceding_below(key, n - 1);
            if found != s.node_info || exists|j: int| 0 <= j < n - 1 && s.precedes(j, key) {
                let i = choose|i: int|
                    0 <= i < n - 1 && s.precedes(i, key) && s.finger[i] == Some(found) && forall|j: int|
                        i < j < n - 1 ==> !s.precedes(j, key);
                assert forall|j: int| i < j < n implies !s.precedes(j, key) by {}
            }
        }
    }
}

/// No request outlives the timeout unnoticed. After `check_timeout_requests`
/// at `now` every pending request is younger than the timeout; and where that
/// holds at `now`, each other operation carried out at the same `now` leaves
/// it so, since a request that it adds is stamped `now`.
pub proof fn lemma_pending_requests_fresh(
    s: ChordState,
    now: u64,
    remote: NodeId,
    event: ChordEvent,
    walk: Seq<u32>,
)
    requires
        s.wf(),
    ensures
        s.check_timeout_requests(now, walk).all_fresh(now),
        s.all_fresh(now) ==> {
            &&& s.join(now, remote).all_fresh(now)
            &&& s.on_event(now, event).all_fresh(now)
            &&& s.stabilize(now).all_fresh(now)
            &&& s.fix_fingers(now).all_fresh(now)
            &&& s.check_predecessor(now).all_fresh(now)
        },
{
}

/// A node is never its own first finger. The finger is empty at first, and no
/// operation sets it to the node itself, whatever comes in from the ring.
pub proof fn lemma_successor_is_remote(
    info: NodeInfo,
    s: ChordState,
    now: u64,
    remote: NodeId,
    event: ChordEvent,
    walk: Seq<u32>,
)
    requires
        s.wf(),
        s.successor_is_remote(),
    ensures
        ChordState::init(info).successor_is_remote(),
        s.join(now, remote).successor_is_remote(),
        s.on_event(now, event).successor_is_remote(),
        forall|source: RequestSource, key: NodeId|
            (source matches RequestSource::LocalSuccessor { slot } ==> slot < FINGER_TABLE_SIZE) ==> (
            #[trigger] s.find_successor(now, source, key)).successor_is_remote(),
        s.stabilize(now).successor_is_remote(),
        s.fix_fingers(now).successor_is_remote(),
        s.check_predecessor(now).successor_is_remote(),
        s.check_timeout_requests(now, walk).successor_is_remote(),
{
    vstd::arithmetic::power2::lemma2_to64();
    vstd::bits::lemma_u32_pow2_no_overflow(s.next_finger() as nat);
}

/// Request numbers only go up: where an operation can run, it leaves the
/// next number at least as high as it found it, so that no number is given
/// out twice.
pub proof fn lemma_request_ids_increase(
    s: ChordState,
    now: u64,
    remote: NodeId,
    event: ChordEvent,
    walk: Seq<u32>,
)
    requires
        s.wf(),
    ensures
        s.has_request_ids() ==> s.join(now, remote).req_seed == s.req_seed + 1,
        s.has_request_ids() ==> s.stabilize(now).req_seed == s.req_seed + 1,
        s.accepts(event) ==> s.on_event(now, event).req_seed >= s.req_seed,
        s.can_fix_fingers() ==> s.fix_fingers(now).req_seed >= s.req_seed,
        s.check_predecessor(now).req_seed == s.req_seed,
        s.check_timeout_requests(now, walk).req_seed == s.req_seed,
{
}

/// Every operation that can run leaves a well-formed state well formed.
pub proof fn lemma_wf_preserved(s: ChordState, now: u64, remote: NodeId, event: ChordEvent, walk: Seq<u32>)
    requires
        s.wf(),
    ensures
        s.has_request_ids() ==> s.join(now, remote).wf(),
        s.accepts(event) ==> s.on_event(now, event).wf(),
        s.has_request_ids() ==> s.stabilize(now).wf(),
        s.can_fix_fingers() ==> s.fix_fingers(now).wf(),
        s.check_predecessor(now).wf(),
        s.check_timeout_requests(now, walk).wf(),
{
    let kept = s.check_timeout_requests(now, walk).req_queue;
    vstd::set_lib::lemma_len_subset(kept.dom(), s.req_queue.dom());
}

/// A new request never takes the place of a pending one: the number that is
/// given out next is not pending, so every pending request stays as it is
/// when a request is recorded under that number.
pub proof fn lemma_new_request(s: ChordState, slot: RequestSlot)
    requires
        s.wf(),
    ensures
        !s.req_queue.contains_key(s.req_seed),
        forall|req: u32|
            s.req_queue.contains_key(req) ==> (#[trigger] s.take_req().track(s.req_seed, slot).pending(req))
                == s.pending(req),
        s.take_req().track(s.req_seed, slot).pending(s.req_seed) == Some(slot),
{
    if s.req_queue.contains_key(s.req_seed) {
        assert(s.req_seed < s.req_seed);
    }
}

/// What `check_timeout_requests` leaves and what it answers: the requests
/// that have not timed out stay as they are and the others are gone; and a
/// negative answer goes to each node whose request has timed out, and to no
/// other.
pub proof fn lemma_timeouts(s: ChordState, now: u64, walk: Seq<u32>)
    requires
        s.wf(),
        walks_timed_out(s.req_queue, now, walk),
    ensures
        forall|req: u32| #[trigger]
            s.check_timeout_requests(now, walk).pending(req) == if s.req_queue.contains_key(req) && !expired(
                s.req_queue[req].ts,
                now,
            ) {
                s.pending(req)
            } else {
                None
            },
        forall|event: ChordEvent|
            timeout_replies(s.req_queue, walk).contains(event) <==> exists|req: u32| #[trigger]
                s.req_queue.contains_key(req) && expired(s.req_queue[req].ts, now) && owes(
                    s.req_queue[req],
                    event,
                ),
{
    lemma_timeout_replies(s.req_queue, walk);
    assert forall|event: ChordEvent|
        timeout_replies(s.req_queue, walk).contains(event) <==> exists|req: u32| #[trigger]
            s.req_queue.contains_key(req) && expired(s.req_queue[req].ts, now) && owes(
                s.req_queue[req],
                event,
            ) by {
        if timeout_replies(s.req_queue, walk).contains(event) {
            let j = choose|j: int| 0 <= j < walk.len() && owes(s.req_queue[walk[j]], event);
            assert(walk.to_set().contains(walk[j]));
            assert(s.req_queue.contains_key(walk[j]));
        }
        if exists|req: u32| #[trigger]
            s.req_queue.contains_key(req) && expired(s.req_queue[req].ts, now) && owes(
                s.req_queue[req],
                event,
            ) {
            let req = choose|req: u32| #[trigger]
                s.req_queue.contains_key(req) && expired(s.req_queue[req].ts, now) && owes(
                    s.req_queue[req],
                    event,
                );
            assert(timed_out(s.req_queue, now).contains(req));
            assert(walk.to_set().contains(req));
            let j = choose|j: int| 0 <= j < walk.len() && walk[j] == req;
            assert(owes(s.req_queue[walk[j]], event));
        }
    }
}

/// Whether `event` is the negative answer that is owed for the request
/// `slot` when it times out: the answer to the node that made it.
pub open spec fn owes(slot: RequestSlot, event: ChordEvent) -> bool {
    slot.source matches RequestSource::Remote { node, key, req } && event == (
    ChordEvent::FoundSuccessor { req, remote: node, key, info: None })
}

/// The answers for a walk are those owed for the requests that it names.
proof fn lemma_timeout_replies(queue: Map<u32, RequestSlot>, walk: Seq<u32>)
    ensures
        forall|event: ChordEvent|
            timeout_replies(queue, walk).contains(event) <==> exists|j: int|
                0 <= j < walk.len() && owes(queue[#[trigger] walk[j]], event),
    decreases walk.len(),
{
    if walk.len() == 0 {
        assert forall|event: ChordEvent| !timeout_replies(queue, walk).contains(event) by {}
    } else {
        let front = walk.drop_last();
        lemma_timeout_replies(queue, front);
        let rest = timeout_replies(queue, front);
        let all = timeout_replies(queue, walk);
        let slot = queue[walk.last()];
        assert forall|event: ChordEvent|
            all.contains(event) <==> exists|j: int| 0 <= j < walk.len() && owes(queue[#[trigger] walk[j]], event) by {
            if all.contains(event) {
                let k = choose|k: int| 0 <= k < all.len() && all[k] == event;
                if k < rest.len() {
                    assert(rest[k] == event);
                    assert(rest.contains(event));
                    let j = choose|j: int| 0 <= j < front.len() && owes(queue[#[trigger] front[j]], event);
                    assert(walk[j] == front[j]);
                } else {
                    assert(owes(queue[walk[walk.len() - 1]], event));
                }
            }
            if exists|j: int| 0 <= j < walk.len() && owes(queue[#[trigger] walk[j]], event) {
                let j = choose|j: int| 0 <= j < walk.len() && owes(queue[#[trigger] walk[j]], event);
                if j < front.len() {
                    assert(front[j] == walk[j]);
                    assert(rest.contains(event));
                    let k = choose|k: int| 0 <= k < rest.len() && rest[k] == event;
                    assert(all[k] == event);
                } else {
                    assert(all[all.len() - 1] == event);
                }
            }
        }
    }
}

} // verus!
