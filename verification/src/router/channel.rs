use vstd::prelude::*;

use crate::addr::{ChannelId, NodeId};
use crate::network::Connection;
use crate::ordered_map::{deep, delete, distinct_keys, lemma_deep, put, OrderedMap};
use crate::router::path::{ChannelPath, ChannelPathView};

verus! {

/// Whether a path may be advertised to `dest`: it may when `dest` is not
/// among its hops. With no `dest` every path may be used.
pub open spec fn usable(path: ChannelPathView, dest: Option<NodeId>) -> bool {
    dest matches Some(node) ==> !path.hops.contains(node)
}

/// Whether the `i`-th path is the best of the usable ones: none is cheaper,
/// and among equally cheap ones it comes first.
pub open spec fn first_cheapest(
    paths: Seq<(Connection, ChannelPathView)>,
    dest: Option<NodeId>,
    i: int,
) -> bool {
    &&& 0 <= i < paths.len()
    &&& usable(paths[i].1, dest)
    &&& forall|j: int|
        0 <= j < paths.len() && usable(#[trigger] paths[j].1, dest) ==> paths[i].1.metric.rtt
            <= paths[j].1.metric.rtt
    &&& forall|j: int|
        0 <= j < i && usable(#[trigger] paths[j].1, dest) ==> paths[i].1.metric.rtt
            < paths[j].1.metric.rtt
}

/// The index of the best usable path, if any path is usable.
pub open spec fn best(paths: Seq<(Connection, ChannelPathView)>, dest: Option<NodeId>) -> Option<int> {
    if exists|i: int| first_cheapest(paths, dest, i) {
        Some(choose|i: int| first_cheapest(paths, dest, i))
    } else {
        None
    }
}

/// There is one best path at most.
pub proof fn lemma_best_unique(
    paths: Seq<(Connection, ChannelPathView)>,
    dest: Option<NodeId>,
    i: int,
)
    requires
        first_cheapest(paths, dest, i),
    ensures
        best(paths, dest) == Some(i),
{
    let k = choose|k: int| first_cheapest(paths, dest, k);
    if k < i {
        assert(usable(paths[k].1, dest));
    } else if i < k {
        assert(usable(paths[i].1, dest));
    }
}

/// Where no path is usable, none is best.
pub proof fn lemma_best_none(paths: Seq<(Connection, ChannelPathView)>, dest: Option<NodeId>)
    requires
        forall|j: int| 0 <= j < paths.len() ==> !usable(#[trigger] paths[j].1, dest),
    ensures
        best(paths, dest) is None,
{
}

/// The best of the paths stays the best when one more path comes that is
/// not usable or not cheaper.
proof fn lemma_best_stays(paths: Seq<(Connection, ChannelPathView)>, dest: Option<NodeId>, b: int)
    requires
        paths.len() > 0,
        first_cheapest(paths.drop_last(), dest, b),
        !usable(paths.last().1, dest) || paths[b].1.metric.rtt <= paths.last().1.metric.rtt,
    ensures
        first_cheapest(paths, dest, b),
{
    let seen = paths.drop_last();
    assert(seen[b] == paths[b]);
    assert forall|j: int| 0 <= j < paths.len() && usable(#[trigger] paths[j].1, dest) implies paths[b].1.metric.rtt
        <= paths[j].1.metric.rtt by {
        if j < seen.len() {
            assert(usable(seen[j].1, dest));
        }
    }
    assert forall|j: int| 0 <= j < b && usable(#[trigger] paths[j].1, dest) implies paths[b].1.metric.rtt
        < paths[j].1.metric.rtt by {
        assert(usable(seen[j].1, dest));
    }
}

/// A usable path that comes last is the best if it is cheaper than the best
/// of those before it, or if none before it is usable.
proof fn lemma_best_moves(paths: Seq<(Connection, ChannelPathView)>, dest: Option<NodeId>, before: Option<int>)
    requires
        paths.len() > 0,
        usable(paths.last().1, dest),
        match before {
            Some(b) => first_cheapest(paths.drop_last(), dest, b) && paths.last().1.metric.rtt
                < paths[b].1.metric.rtt,
            None => forall|j: int|
                0 <= j < paths.len() - 1 ==> !usable(#[trigger] paths.drop_last()[j].1, dest),
        },
    ensures
        first_cheapest(paths, dest, paths.len() - 1),
{
    let seen = paths.drop_last();
    let i = paths.len() - 1;
    assert forall|j: int| 0 <= j < i && usable(#[trigger] paths[j].1, dest) implies paths[i].1.metric.rtt
        < paths[j].1.metric.rtt by {
        assert(seen[j] == paths[j]);
        assert(usable(seen[j].1, dest));
        if let Some(b) = before {
            assert(seen[b] == paths[b]);
        }
    }
}

/// The paths to one channel, one for each neighbour that advertised it.
pub struct ChannelRoute {
    channel_id: ChannelId,
    paths: OrderedMap<Connection, ChannelPath>,
}

/// A `ChannelRoute` with its paths taken by their views.
pub struct ChannelRouteView {
    pub channel_id: ChannelId,
    pub paths: Seq<(Connection, ChannelPathView)>,
}

impl ChannelRouteView {
    /// No neighbour has two paths.
    pub open spec fn wf(self) -> bool {
        distinct_keys(self.paths)
    }

    /// The neighbour `from` advertises `path`, in place of what it
    /// advertised before.
    pub open spec fn on_sync(self, from: Connection, path: ChannelPathView) -> Self {
        ChannelRouteView { paths: put(self.paths, from, path), ..self }
    }

    /// What the neighbour `conn` advertised is forgotten.
    pub open spec fn on_disconnected(self, conn: Connection) -> Self {
        ChannelRouteView { paths: delete(self.paths, conn), ..self }
    }

    /// The best path that does not pass `dest`.
    pub open spec fn create_sync(self, dest: NodeId) -> Option<ChannelPathView> {
        match best(self.paths, Some(dest)) {
            Some(i) => Some(self.paths[i].1),
            None => None,
        }
    }

    /// The neighbour that advertised the best path.
    pub open spec fn next_hop(self) -> Option<Connection> {
        match best(self.paths, None) {
            Some(i) => Some(self.paths[i].0),
            None => None,
        }
    }
}

impl View for ChannelRoute {
    type V = ChannelRouteView;

    closed spec fn view(&self) -> ChannelRouteView {
        ChannelRouteView { channel_id: self.channel_id, paths: deep(self.paths@) }
    }
}

impl ChannelRoute {
    /// The route is well formed when its state is.
    pub open spec fn wf(&self) -> bool {
        self@.wf()
    }

    /// The route to `channel_id`, without a path yet.
    pub fn new(channel_id: ChannelId) -> (route: Self)
        ensures
            route.wf(),
            route@ == (ChannelRouteView { channel_id, paths: Seq::empty() }),
    {
        let route = ChannelRoute { channel_id, paths: OrderedMap::new() };
        assert(route@.paths =~= Seq::empty());
        route
    }

    /// The clock has moved on. Paths do not age, so nothing changes.
    pub fn on_tick(&mut self, _now_ms: u64)
        ensures
            *final(self) == *old(self),
    {
    }

    /// Takes in the path that the neighbour `from` advertises; it replaces
    /// what that neighbour advertised before.
    pub fn on_sync(&mut self, _now_ms: u64, from: Connection, path: ChannelPath)
        requires
            old(self).wf(),
        ensures
            final(self).wf(),
            final(self)@ == old(self)@.on_sync(from, path@),
    {
        proof {
            self.lemma_view();
            lemma_deep(self.paths@);
            crate::ordered_map::lemma_put(self.paths@, from, path);
            lemma_deep(put(self.paths@, from, path));
        }
        self.paths.insert(from, path);
    }

    /// Forgets what the neighbour `conn` advertised.
    pub fn on_disconnected(&mut self, conn: Connection)
        requires
            old(self).wf(),
        ensures
            final(self).wf(),
            final(self)@ == old(self)@.on_disconnected(conn),
    {
        proof {
            self.lemma_view();
            lemma_deep(self.paths@);
            crate::ordered_map::lemma_delete(self.paths@, conn);
            lemma_deep(delete(self.paths@, conn));
        }
        self.paths.remove(&conn);
    }

    /// The best path to advertise to `dest`: the cheapest that does not pass
    /// `dest` already, the earliest of them where several cost the same.
    pub fn create_sync(&self, dest: NodeId) -> (path: Option<ChannelPath>)
        requires
            self.wf(),
        ensures
            path is Some == self@.create_sync(dest) is Some,
            path matches Some(p) ==> Some(p@) == self@.create_sync(dest),
    {
        match self.find_best(Some(dest)) {
            Some(i) => Some(self.paths.value_at(i).clone()),
            None => None,
        }
    }

    /// The neighbour over which the channel is reached best: the one with the
    /// cheapest path, the earliest of them where several cost the same.
    pub fn next_hop(&self) -> (conn: Option<Connection>)
        requires
            self.wf(),
        ensures
            conn == self@.next_hop(),
    {
        match self.find_best(None) {
            Some(i) => Some(self.paths.key_at(i)),
            None => None,
        }
    }

    /// The state holds the paths as the map holds them, each by its view.
    proof fn lemma_view(&self)
        ensures
            self.wf() == self.paths.wf(),
            self@.paths.len() == self.paths@.len(),
            forall|i: int|
                0 <= i < self.paths@.len() ==> (#[trigger] self@.paths[i]) == (
                    self.paths@[i].0,
                    self.paths@[i].1@,
                ),
    {
        if self.paths.wf() {
            lemma_deep(self.paths@);
        }
        if self.wf() {
            crate::ordered_map::lemma_same_keys(self@.paths, self.paths@);
        }
    }

    /// The index of the best usable path.
    fn find_best(&self, dest: Option<NodeId>) -> (r: Option<usize>)
        requires
            self.wf(),
        ensures
            r is Some == best(self@.paths, dest) is Some,
            r matches Some(i) ==> best(self@.paths, dest) == Some(i as int) && i < self.paths@.len(),
    {
        proof {
            self.lemma_view();
        }
        let mut found: Option<usize> = None;
        let mut i: usize = 0;
        while i < self.paths.len()
            invariant
                i <= self.paths@.len(),
                self@.paths.len() == self.paths@.len(),
                forall|j: int|
                    0 <= j < self.paths@.len() ==> (#[trigger] self@.paths[j]) == (
                        self.paths@[j].0,
                        self.paths@[j].1@,
                    ),
                found is None ==> forall|j: int| 0 <= j < i ==> !usable(#[trigger] self@.paths[j].1, dest),
                found matches Some(b) ==> first_cheapest(self@.paths.take(i as int), dest, b as int),
            decreases self.paths@.len() - i,
        {
            let path = self.paths.value_at(i);
            let ok = match dest {
                Some(node) => !passes(&path.hops, node),
                None => true,
            };
            let ghost seen = self@.paths.take(i as int);
            let ghost next = self@.paths.take(i + 1);
            proof {
                assert(self@.paths[i as int].1 == path@);
                assert(ok == usable(path@, dest));
                assert(next[i as int] == self@.paths[i as int]);
                assert(next.drop_last() =~= seen);
            }
            match found {
                Some(b) => {
                    if ok && path.metric.score() < self.paths.value_at(b).metric.score() {
                        found = Some(i);
                        proof {
                            assert(seen[b as int] == next[b as int]);
                            lemma_best_moves(next, dest, Some(b as int));
                        }
                    } else {
                        proof {
                            assert(seen[b as int] == next[b as int]);
                            lemma_best_stays(next, dest, b as int);
                        }
                    }
                },
                None => {
                    if ok {
                        found = Some(i);
                        proof {
                            assert forall|j: int| 0 <= j < i implies !usable(#[trigger] seen[j].1, dest) by {
                                assert(seen[j] == self@.paths[j]);
                            }
                            lemma_best_moves(next, dest, None);
                        }
                    }
                },
            }
            i += 1;
        }
        proof {
            assert(self@.paths.take(i as int) =~= self@.paths);
            match found {
                Some(b) => {
                    lemma_best_unique(self@.paths, dest, b as int);
                },
                None => {
                    lemma_best_none(self@.paths, dest);
                },
            }
        }
        found
    }
}

/// Whether `node` is among `hops`.
fn passes(hops: &Vec<NodeId>, node: NodeId) -> (b: bool)
    ensures
        b == hops@.contains(node),
{
    let mut i: usize = 0;
    while i < hops.len()
        invariant
            i <= hops.len(),
            forall|j: int| 0 <= j < i ==> hops@[j] != node,
        decreases hops.len() - i,
    {
        if hops[i].0 == node.0 {
            return true;
        }
        i += 1;
    }
    false
}

} // verus!
