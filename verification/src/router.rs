use std::collections::HashMap;
use vstd::prelude::*;
use vstd::std_specs::iter::IteratorSpec;

use crate::addr::{ChannelId, NodeId};
use crate::message::{views, RouterRow, RouterRowView, RouterSync};
use crate::network::{Connection, ConnectionStats, NetworkMsg, NetworkMsgView};
use crate::ordered_map::{
    deep, delete, distinct_keys, has_key, lemma_deep, lookup, position_of, put, value_of, OrderedMap,
};
use crate::router::channel::{ChannelRoute, ChannelRouteView};
use crate::router::metric::{Float, Metric};
use crate::router::path::{ChannelPath, ChannelPathView};

pub mod channel;
pub mod metric;
pub mod path;

verus! {

broadcast use vstd::std_specs::hash::group_hash_axioms;

/// Bandwidth, in kilobits per second, that a node advertises for a channel it hosts.
pub const ORIGIN_BANDWIDTH_KBPS: u32 = 10_000_000;

/// What the router is told.
pub enum InputEvent {
    /// A neighbour's advertisement came in.
    Recv(NetworkMsg<RouterSync>),
    /// The host lost a connection.
    ConnectionDisconnected(Connection),
    /// The host measured a connection.
    ConnectionStats(NetworkMsg<ConnectionStats>),
}

/// Where a channel's traffic goes next.
#[derive(Debug, Clone, Copy, PartialEq, Eq, Structural)]
pub enum NextHop {
    /// The channel is hosted here.
    Local,
    Remote(Connection),
}

/// The row with which a node advertises a channel that it hosts.
pub open spec fn origin_row(channel: ChannelId) -> RouterRowView {
    RouterRowView {
        channel: channel.0,
        bandwidth: ORIGIN_BANDWIDTH_KBPS,
        rtt: 0,
        loss: Float { value: 0 },
        jitter: 0,
        hops: Seq::empty(),
    }
}

/// The path that the row `row` stands for once it has come in over `conn`:
/// the advertised metric with that of the connection added, and the
/// neighbour as one more hop.
pub open spec fn learned_path(
    now: u64,
    conn: Connection,
    stats: ConnectionStats,
    row: RouterRowView,
) -> ChannelPathView {
    let path = ChannelPathView::from_row(now, row);
    ChannelPathView {
        metric: path.metric.plus(Metric::of_stats(stats)),
        hops: path.hops.push(conn.0),
        ..path
    }
}

/// The routes after one row has come in: a row for a known channel replaces
/// what `conn` advertised for it before, any other row changes nothing.
pub open spec fn learn_row(
    routes: Seq<(ChannelId, ChannelRouteView)>,
    now: u64,
    conn: Connection,
    stats: ConnectionStats,
    row: RouterRowView,
) -> Seq<(ChannelId, ChannelRouteView)> {
    let channel = ChannelId(row.channel);
    if has_key(routes, channel) {
        let i = position_of(routes, channel);
        routes.update(i, (channel, routes[i].1.on_sync(conn, learned_path(now, conn, stats, row))))
    } else {
        routes
    }
}

/// The routes after the rows have come in, one after the other.
pub open spec fn learn_rows(
    routes: Seq<(ChannelId, ChannelRouteView)>,
    now: u64,
    conn: Connection,
    stats: ConnectionStats,
    rows: Seq<RouterRowView>,
) -> Seq<(ChannelId, ChannelRouteView)>
    decreases rows.len(),
{
    if rows.len() == 0 {
        routes
    } else {
        learn_row(learn_rows(routes, now, conn, stats, rows.drop_last()), now, conn, stats, rows.last())
    }
}

/// The state of a router, as a mathematical value.
pub struct RouterState {
    pub node: NodeId,
    pub conns: Seq<(Connection, ConnectionStats)>,
    pub remote_channels: Seq<(ChannelId, ChannelRouteView)>,
    /// The numbers of the channels that are hosted here.
    pub local_channels: Set<u32>,
}

impl RouterState {
    /// No connection and no channel is held twice, and every route is well
    /// formed and stands under its own channel.
    pub open spec fn wf(self) -> bool {
        &&& distinct_keys(self.conns)
        &&& self.local_channels.finite()
        &&& distinct_keys(self.remote_channels)
        &&& forall|i: int|
            0 <= i < self.remote_channels.len() ==> (#[trigger] self.remote_channels[i]).1.wf()
                && self.remote_channels[i].1.channel_id == self.remote_channels[i].0
    }

    /// The state of a router that knows no neighbour and no channel.
    pub open spec fn init(node: NodeId) -> Self {
        RouterState {
            node,
            conns: Seq::empty(),
            remote_channels: Seq::empty(),
            local_channels: Set::empty(),
        }
    }

    /// `channel` is hosted here.
    pub open spec fn add_channel(self, channel: ChannelId) -> Self {
        RouterState { local_channels: self.local_channels.insert(channel.0), ..self }
    }

    /// `channel` is hosted here no longer.
    pub open spec fn remove_channel(self, channel: ChannelId) -> Self {
        RouterState { local_channels: self.local_channels.remove(channel.0), ..self }
    }

    /// Starts to keep paths to `channel`; a channel that is kept already
    /// stays as it is. Nothing else makes a channel known: a row that names
    /// a channel which was never watched is skipped.
    pub open spec fn watch_channel(self, channel: ChannelId) -> Self {
        if has_key(self.remote_channels, channel) {
            self
        } else {
            RouterState {
                remote_channels: self.remote_channels.push(
                    (channel, ChannelRouteView { channel_id: channel, paths: Seq::empty() }),
                ),
                ..self
            }
        }
    }

    /// Whether `event` can be handled: the delays that an advertised row
    /// would add up to must fit.
    pub open spec fn accepts(self, event: InputEvent) -> bool {
        match event {
            InputEvent::Recv(msg) => self.accepts_sync(msg.conn, msg.msg@),
            _ => true,
        }
    }

    /// The channels that rows of `rows` name and the router does not watch,
    /// one for each such row, in the order of the rows. These are the rows
    /// that an advertisement is skipped for.
    pub open spec fn unknown_channels(self, rows: Seq<RouterRowView>) -> Seq<u32>
        decreases rows.len(),
    {
        if rows.len() == 0 {
            Seq::empty()
        } else if has_key(self.remote_channels, ChannelId(rows.last().channel)) {
            self.unknown_channels(rows.drop_last())
        } else {
            self.unknown_channels(rows.drop_last()).push(rows.last().channel)
        }
    }

    /// Whether the rows `rows`, advertised over `conn`, can be taken in.
    pub open spec fn accepts_sync(self, conn: Connection, rows: Seq<RouterRowView>) -> bool {
        match lookup(self.conns, conn) {
            Some(stats) => self.rows_fit(rows, stats),
            None => true,
        }
    }

    /// Whether each of `rows` that names a known channel has delays to which
    /// those of `stats` can be added.
    pub open spec fn rows_fit(self, rows: Seq<RouterRowView>, stats: ConnectionStats) -> bool {
        forall|i: int|
            0 <= i < rows.len() && has_key(self.remote_channels, ChannelId((#[trigger] rows[i]).channel))
                ==> ChannelPathView::from_row(0, rows[i]).metric.fits(Metric::of_stats(stats))
    }

    /// An advertisement that comes over a measured connection is taken in
    /// row by row. A connection that is lost is forgotten, with every path
    /// that it advertised. A measurement replaces the last one.
    pub open spec fn on_event(self, now: u64, event: InputEvent) -> Self {
        match event {
            InputEvent::Recv(msg) => match lookup(self.conns, msg.conn) {
                Some(stats) => RouterState {
                    remote_channels: learn_rows(self.remote_channels, now, msg.conn, stats, msg.msg@),
                    ..self
                },
                None => self,
            },
            InputEvent::ConnectionDisconnected(conn) => RouterState {
                conns: delete(self.conns, conn),
                remote_channels: Seq::new(
                    self.remote_channels.len(),
                    |i: int| (self.remote_channels[i].0, self.remote_channels[i].1.on_disconnected(conn)),
                ),
                ..self
            },
            InputEvent::ConnectionStats(stats) => RouterState {
                conns: put(self.conns, stats.conn, stats.msg),
                ..self
            },
        }
    }

    /// Where traffic for `channel` goes: nowhere further if the channel is
    /// hosted here, else to the neighbour with the best path, if there is one.
    pub open spec fn next_hop_for(self, channel: ChannelId) -> Option<NextHop> {
        if self.local_channels.contains(channel.0) {
            Some(NextHop::Local)
        } else {
            match lookup(self.remote_channels, channel) {
                Some(route) => match route.next_hop() {
                    Some(conn) => Some(NextHop::Remote(conn)),
                    None => None,
                },
                None => None,
            }
        }
    }

    /// Whether `hosted` names each channel that is hosted here, once and in
    /// any order. The hosted channels are kept in a hash map, which hands
    /// them out in an order of its own.
    pub open spec fn walks_hosted(self, hosted: Seq<u32>) -> bool {
        hosted.no_duplicates() && hosted.to_set() == self.local_channels
    }

    /// The rows for the channels hosted here, in the order of `hosted`.
    pub open spec fn local_rows(self, hosted: Seq<u32>) -> Seq<RouterRowView> {
        Seq::new(hosted.len(), |i: int| origin_row(ChannelId(hosted[i])))
    }

    /// The rows that advertise to the node `dest` the first `n` of the
    /// channels reached through others: for each that is not hosted here too,
    /// its best path that does not pass `dest`, if it has one.
    pub open spec fn remote_rows(self, dest: NodeId, n: int) -> Seq<RouterRowView>
        decreases n,
    {
        if n <= 0 {
            Seq::empty()
        } else {
            let rest = self.remote_rows(dest, n - 1);
            let (channel, route) = self.remote_channels[n - 1];
            if self.local_channels.contains(channel.0) {
                rest
            } else {
                match route.create_sync(dest) {
                    Some(path) => rest.push(path.to_row(channel)),
                    None => rest,
                }
            }
        }
    }

    /// The rows advertised to the node `dest`: first those for the channels
    /// hosted here, in the order of `hosted`, then those for the channels
    /// reached through others.
    pub open spec fn sync_rows(self, dest: NodeId, hosted: Seq<u32>) -> Seq<RouterRowView> {
        self.local_rows(hosted) + self.remote_rows(dest, self.remote_channels.len() as int)
    }

    /// The advertisements for the first `n` connections: one for each
    /// neighbour for which there is a row at all.
    pub open spec fn sync_msgs(self, n: int, hosted: Seq<u32>) -> Seq<NetworkMsgView<Seq<RouterRowView>>>
        decreases n,
    {
        if n <= 0 {
            Seq::empty()
        } else {
            let rest = self.sync_msgs(n - 1, hosted);
            let conn = self.conns[n - 1].0;
            let rows = self.sync_rows(conn.0, hosted);
            if rows.len() > 0 {
                rest.push(NetworkMsgView { conn, msg: rows })
            } else {
                rest
            }
        }
    }

    /// The advertisements for all neighbours, with the channels hosted here
    /// in the order of `hosted`.
    pub open spec fn create_sync(self, hosted: Seq<u32>) -> Seq<NetworkMsgView<Seq<RouterRowView>>> {
        self.sync_msgs(self.conns.len() as int, hosted)
    }
}

/// Picks the best next hop for each channel from what the neighbours
/// advertise, and advertises this node's own best paths in turn.
pub struct Router {
    node: NodeId,
    conns: OrderedMap<Connection, ConnectionStats>,
    remote_channels: OrderedMap<ChannelId, ChannelRoute>,
    local_channels: HashMap<u32, ()>,
}

impl View for Router {
    type V = RouterState;

    closed spec fn view(&self) -> RouterState {
        RouterState {
            node: self.node,
            conns: self.conns@,
            remote_channels: deep(self.remote_channels@),
            local_channels: self.local_channels@.dom(),
        }
    }
}

impl Router {
    /// The router is well formed when its state is.
    pub open spec fn wf(&self) -> bool {
        self@.wf()
    }

    /// The router of the node `node`.
    pub fn new(node: NodeId) -> (router: Self)
        ensures
            router.wf(),
            router@ == RouterState::init(node),
    {
        let router = Router {
            node,
            conns: OrderedMap::new(),
            remote_channels: OrderedMap::new(),
            local_channels: HashMap::new(),
        };
        assert(router@.remote_channels =~= Seq::empty());
        assert(router@.local_channels =~= Set::empty());
        router
    }

    /// The node that this router belongs to.
    pub fn node(&self) -> (node: NodeId)
        ensures
            node == self@.node,
    {
        self.node
    }

    /// Declares that `channel` is hosted here.
    pub fn add_channel(&mut self, channel: ChannelId)
        requires
            old(self).wf(),
        ensures
            final(self).wf(),
            final(self)@ == old(self)@.add_channel(channel),
    {
        self.local_channels.insert(channel.0, ());
        assert(self@.local_channels =~= old(self)@.local_channels.insert(channel.0));
    }

    /// Declares that `channel` is hosted here no longer.
    pub fn remove_channel(&mut self, channel: ChannelId)
        requires
            old(self).wf(),
        ensures
            final(self).wf(),
            final(self)@ == old(self)@.remove_channel(channel),
    {
        self.local_channels.remove(&channel.0);
        assert(self@.local_channels =~= old(self)@.local_channels.remove(channel.0));
    }

    /// Starts to keep the paths that neighbours advertise for `channel`.
    /// This is the only way in which a channel becomes known to the router:
    /// until it is called for a channel, every row that names the channel is
    /// skipped, and no path to the channel is ever learned.
    pub fn watch_channel(&mut self, channel: ChannelId)
        requires
            old(self).wf(),
        ensures
            final(self).wf(),
            final(self)@ == old(self)@.watch_channel(channel),
    {
        proof {
            self.lemma_view();
        }
        if !self.remote_channels.contains_key(&channel) {
            let route = ChannelRoute::new(channel);
            self.remote_channels.insert(channel, route);
            proof {
                assert(self@.remote_channels =~= old(self)@.watch_channel(channel).remote_channels);
                crate::ordered_map::lemma_same_keys(self.remote_channels@, self@.remote_channels);
            }
        }
    }

    /// The clock has reached `now_ms`. Paths do not age, so nothing changes.
    pub fn on_tick(&mut self, now_ms: u64)
        requires
            old(self).wf(),
        ensures
            final(self).wf(),
            final(self)@ == old(self)@,
    {
        let mut i: usize = 0;
        while i < self.remote_channels.len()
            invariant
                self.node == old(self).node,
                self.conns == old(self).conns,
                self.local_channels == old(self).local_channels,
                self.remote_channels@ =~= old(self).remote_channels@,
            decreases self.remote_channels@.len() - i,
        {
            self.remote_channels.value_at_mut(i).on_tick(now_ms);
            i += 1;
        }
    }

    /// Whether `event` can be handled, so that `on_event` can take it.
    pub fn accepts(&self, event: &InputEvent) -> (b: bool)
        requires
            self.wf(),
        ensures
            b == self@.accepts(*event),
    {
        match event {
            InputEvent::Recv(msg) => self.accepts_sync(msg.conn, &msg.msg),
            _ => true,
        }
    }

    /// The channels of the rows of `sync` that `on_event` would skip because
    /// the channel is not known here, for the host to report.
    pub fn unknown_channels(&self, sync: &RouterSync) -> (channels: Vec<u32>)
        requires
            self.wf(),
        ensures
            channels@ == self@.unknown_channels(sync@),
    {
        proof {
            self.lemma_view();
        }
        let mut channels: Vec<u32> = Vec::new();
        let mut i: usize = 0;
        proof {
            assert(sync@.take(0) =~= Seq::empty());
        }
        while i < sync.rows.len()
            invariant
                i <= sync.rows@.len(),
                sync@.len() == sync.rows@.len(),
                self.wf(),
                self.remote_channels.wf(),
                forall|k: ChannelId| has_key(self@.remote_channels, k) == has_key(self.remote_channels@, k),
                channels@ == self@.unknown_channels(sync@.take(i as int)),
            decreases sync.rows@.len() - i,
        {
            let channel = sync.rows[i].channel;
            proof {
                assert(sync@.take(i + 1).drop_last() =~= sync@.take(i as int));
                assert(sync@.take(i + 1).last() == sync.rows@[i as int]@);
            }
            if !self.remote_channels.contains_key(&ChannelId(channel)) {
                channels.push(channel);
            }
            i += 1;
        }
        proof {
            assert(sync@.take(i as int) =~= sync@);
        }
        channels
    }

    /// Whether an advertisement that came over `conn` can be handled.
    pub fn accepts_sync(&self, conn: Connection, sync: &RouterSync) -> (b: bool)
        requires
            self.wf(),
        ensures
            b == self@.accepts_sync(conn, sync@),
    {
        proof {
            self.lemma_view();
        }
        match self.conns.get(&conn) {
            Some(stats) => self.rows_fit(&sync.rows, stats),
            None => true,
        }
    }

    /// Handles an advertisement, a lost connection or a measurement.
    pub fn on_event(&mut self, now_ms: u64, event: InputEvent)
        requires
            old(self).wf(),
            old(self)@.accepts(event),
        ensures
            final(self).wf(),
            final(self)@ == old(self)@.on_event(now_ms, event),
    {
        proof {
            self.lemma_view();
        }
        match event {
            InputEvent::Recv(msg) => {
                let NetworkMsg { conn, msg } = msg;
                let stats = match self.conns.get(&conn) {
                    Some(stats) => *stats,
                    None => {
                        return ;
                    },
                };
                let ghost rows = msg@;
                let ghost before = self@.remote_channels;
                proof {
                    assert(rows.take(0) =~= Seq::empty());
                }
                for row in it: msg.rows
                    invariant
                        rows == views(it.seq()),
                        self.node == old(self).node,
                        self.conns == old(self).conns,
                        self.local_channels == old(self).local_channels,
                        self.wf(),
                        before == old(self)@.remote_channels,
                        self@.remote_channels == learn_rows(
                            before,
                            now_ms,
                            conn,
                            stats,
                            rows.take(it.index() as int),
                        ),
                        forall|k: ChannelId| has_key(self@.remote_channels, k) == has_key(before, k),
                        forall|i: int|
                            0 <= i < rows.len() && has_key(before, ChannelId((#[trigger] rows[i]).channel))
                                ==> ChannelPathView::from_row(0, rows[i]).metric.fits(
                                Metric::of_stats(stats),
                            ),
                {
                    let ghost n = it.index() as int;
                    let ghost routes = self@.remote_channels;
                    proof {
                        assert(rows.take(n + 1).drop_last() =~= rows.take(n));
                        assert(rows.take(n + 1).last() == rows[n]);
                        assert(rows[n] == row@);
                        self.lemma_view();
                    }
                    let channel = ChannelId(row.channel);
                    if let Some(i) = self.remote_channels.position(&channel) {
                        let mut path = ChannelPath::from_row(now_ms, row);
                        path.metric = path.metric.add_local(&stats);
                        path.hops.push(conn.remote());
                        assert(path@ == learned_path(now_ms, conn, stats, rows[n]));
                        assert(routes[i as int].1.wf());
                        self.remote_channels.value_at_mut(i).on_sync(now_ms, conn, path);
                        proof {
                            self.lemma_entries();
                            assert(self@.remote_channels =~= learn_row(
                                routes,
                                now_ms,
                                conn,
                                stats,
                                rows[n],
                            ));
                            crate::ordered_map::lemma_update_keys(routes, i as int, self@.remote_channels[i as int].1);
                            crate::ordered_map::lemma_put(routes[i as int].1.paths, conn, path@);
                            assert forall|j: int|
                                0 <= j < self@.remote_channels.len() implies (
                            #[trigger] self@.remote_channels[j]).1.wf() && self@.remote_channels[j].1.channel_id
                                == self@.remote_channels[j].0 by {
                                if j != i {
                                    assert(self@.remote_channels[j] == routes[j]);
                                }
                            }
                        }
                    }
                }
                proof {
                    assert(rows.take(rows.len() as int) =~= rows);
                }
            },
            InputEvent::ConnectionDisconnected(conn) => {
                self.conns.remove(&conn);
                let ghost before = old(self)@.remote_channels;
                let ghost target = Seq::new(
                    before.len(),
                    |j: int| (before[j].0, before[j].1.on_disconnected(conn)),
                );
                let mut i: usize = 0;
                while i < self.remote_channels.len()
                    invariant
                        i <= self.remote_channels@.len(),
                        self.node == old(self).node,
                        self.conns@ == delete(old(self).conns@, conn),
                        self.conns.wf(),
                        self.local_channels == old(self).local_channels,
                        self.remote_channels.wf(),
                        self.remote_channels@.len() == old(self).remote_channels@.len(),
                        before == old(self)@.remote_channels,
                        target == Seq::new(
                            before.len(),
                            |j: int| (before[j].0, before[j].1.on_disconnected(conn)),
                        ),
                        target.len() == old(self).remote_channels@.len(),
                        old(self).wf(),
                        forall|j: int|
                            0 <= j < self.remote_channels@.len() ==> (
                            #[trigger] self.remote_channels@[j]).0 == old(self).remote_channels@[j].0,
                        forall|j: int|
                            0 <= j < i ==> (#[trigger] self.remote_channels@[j]).1@ == target[j].1,
                        forall|j: int|
                            i <= j < self.remote_channels@.len() ==> (
                            #[trigger] self.remote_channels@[j]).1 == old(self).remote_channels@[j].1,
                    decreases self.remote_channels@.len() - i,
                {
                    proof {
                        old(self).lemma_view();
                        assert(old(self)@.remote_channels[i as int].1.wf());
                        assert(self.remote_channels@[i as int].1 == old(self).remote_channels@[i as int].1);
                        assert(self.remote_channels@[i as int].1.wf());
                    }
                    let ghost prior = self.remote_channels@;
                    self.remote_channels.value_at_mut(i).on_disconnected(conn);
                    proof {
                        assert(self.remote_channels@[i as int].1@ == target[i as int].1);
                        assert forall|j: int| 0 <= j < i implies (
                        #[trigger] self.remote_channels@[j]).1@ == target[j].1 by {
                            assert(self.remote_channels@[j] == prior[j]);
                        }
                    }
                    i += 1;
                }
                proof {
                    old(self).lemma_view();
                    assert(self@.remote_channels =~= target);
                    crate::ordered_map::lemma_delete(old(self).conns@, conn);
                    assert forall|j: int| 0 <= j < target.len() implies (#[trigger] target[j]).1.wf()
                        && target[j].1.channel_id == target[j].0 by {
                        assert(old(self)@.remote_channels[j].1.wf());
                        crate::ordered_map::lemma_delete(old(self)@.remote_channels[j].1.paths, conn);
                    }
                    crate::ordered_map::lemma_same_keys(old(self)@.remote_channels, target);
                }
            },
            InputEvent::ConnectionStats(stats) => {
                let NetworkMsg { conn, msg } = stats;
                self.conns.insert(conn, msg);
            },
        }
    }

    /// Where traffic for `channel` goes next.
    pub fn next_hop_for(&self, channel: ChannelId) -> (hop: Option<NextHop>)
        requires
            self.wf(),
        ensures
            hop == self@.next_hop_for(channel),
    {
        proof {
            self.lemma_view();
        }
        if self.local_channels.contains_key(&channel.0) {
            Some(NextHop::Local)
        } else {
            match self.remote_channels.position(&channel) {
                Some(i) => {
                    assert(self@.remote_channels[i as int].1.wf());
                    match self.remote_channels.value_at(i).next_hop() {
                        Some(conn) => Some(NextHop::Remote(conn)),
                        None => None,
                    }
                },
                None => None,
            }
        }
    }

    /// Creates the advertisement for each neighbour: a row for each channel
    /// hosted here, and for each other channel the best path that does not
    /// pass that neighbour. The hosted channels come in the order in which
    /// the hash map hands them out, the same for every neighbour. No row
    /// that is sent to a neighbour names that neighbour among its hops.
    pub fn create_sync(&self) -> (outputs: Vec<NetworkMsg<RouterSync>>)
        requires
            self.wf(),
        ensures
            exists|hosted: Seq<u32>|
                self@.walks_hosted(hosted) && views(outputs@) == self@.create_sync(hosted),
            forall|i: int, j: int|
                0 <= i < outputs@.len() && 0 <= j < outputs@[i].msg@.len() ==> !(
                #[trigger] outputs@[i].msg@[j]).hops.contains(outputs@[i].conn.0.0),
    {
        let hosted = self.hosted();
        let mut outputs: Vec<NetworkMsg<RouterSync>> = Vec::new();
        let mut n: usize = 0;
        proof {
            assert(views(outputs@) =~= self@.sync_msgs(0, hosted@));
        }
        while n < self.conns.len()
            invariant
                n <= self.conns@.len(),
                self.wf(),
                self.conns@ == self@.conns,
                views(outputs@) == self@.sync_msgs(n as int, hosted@),
            decreases self.conns@.len() - n,
        {
            let conn = self.conns.key_at(n);
            let rows = self.sync_rows(conn.remote(), &hosted);
            let ghost before = outputs@;
            if rows.len() > 0 {
                let sync = NetworkMsg { conn, msg: RouterSync { rows } };
                outputs.push(sync);
                proof {
                    assert(views(outputs@) =~= views(before).push(sync@));
                }
            }
            n += 1;
        }
        proof {
            lemma_split_horizon(self@, hosted@);
            assert forall|i: int, j: int|
                0 <= i < outputs@.len() && 0 <= j < outputs@[i].msg@.len() implies !(
            #[trigger] outputs@[i].msg@[j]).hops.contains(outputs@[i].conn.0.0) by {
                assert(views(outputs@)[i] == outputs@[i]@);
                assert(self@.create_sync(hosted@)[i].msg[j] == outputs@[i].msg@[j]);
                assert(self@.create_sync(hosted@)[i].conn == outputs@[i].conn);
            }
        }
        outputs
    }

    /// The numbers of the channels hosted here, each once, in the order in
    /// which the hash map hands them out.
    fn hosted(&self) -> (walk: Vec<u32>)
        ensures
            self@.walks_hosted(walk@),
    {
        let mut found: Vec<u32> = Vec::new();
        let ghost keys: Seq<u32> = self.local_channels.keys().remaining().unref();
        let ghost seen: int = 0;
        proof {
            assert(keys.take(0) =~= Seq::empty());
        }
        for channel in it: self.local_channels.keys()
            invariant
                it.seq().unref() == keys,
                keys.no_duplicates(),
                keys.to_set() == self.local_channels@.dom(),
                seen == it.index(),
                found@ == keys.take(seen),
        {
            proof {
                assert(keys[seen] == *channel);
                assert(keys.take(seen + 1) =~= keys.take(seen).push(keys[seen]));
            }
            found.push(*channel);
            proof {
                seen = seen + 1;
            }
        }
        proof {
            assert(keys.take(keys.len() as int) =~= keys);
        }
        found
    }

    /// Whether the delays of `stats` can be added to each of `rows` that
    /// names a known channel.
    fn rows_fit(&self, rows: &Vec<RouterRow>, stats: &ConnectionStats) -> (b: bool)
        requires
            self.wf(),
        ensures
            b == self@.rows_fit(views(rows@), *stats),
    {
        proof {
            self.lemma_view();
        }
        let mut i: usize = 0;
        while i < rows.len()
            invariant
                i <= rows@.len(),
                self.wf(),
                self.remote_channels.wf(),
                forall|k: ChannelId| has_key(self@.remote_channels, k) == has_key(self.remote_channels@, k),
                forall|j: int|
                    0 <= j < i && has_key(
                        self@.remote_channels,
                        ChannelId((#[trigger] views(rows@)[j]).channel),
                    ) ==> ChannelPathView::from_row(0, views(rows@)[j]).metric.fits(
                        Metric::of_stats(*stats),
                    ),
            decreases rows@.len() - i,
        {
            let row = &rows[i];
            assert(views(rows@)[i as int] == row@);
            if self.remote_channels.contains_key(&ChannelId(row.channel)) {
                let fits = row.rtt <= u32::MAX - stats.rtt_ms && row.jitter <= u32::MAX
                    - stats.jitter_ms;
                if !fits {
                    proof {
                        let bad = views(rows@)[i as int];
                        assert(has_key(self@.remote_channels, ChannelId(bad.channel)));
                        assert(!ChannelPathView::from_row(0, bad).metric.fits(Metric::of_stats(*stats)));
                    }
                    return false;
                }
            }
            i += 1;
        }
        true
    }

    /// The rows to advertise to the node `dest`, with the channels hosted
    /// here in the order of `hosted`.
    fn sync_rows(&self, dest: NodeId, hosted: &Vec<u32>) -> (rows: Vec<RouterRow>)
        requires
            self.wf(),
        ensures
            views(rows@) == self@.sync_rows(dest, hosted@),
    {
        proof {
            self.lemma_view();
        }
        let mut rows: Vec<RouterRow> = Vec::new();
        let mut i: usize = 0;
        while i < hosted.len()
            invariant
                i <= hosted@.len(),
                views(rows@) =~= self@.local_rows(hosted@.take(i as int)),
            decreases hosted@.len() - i,
        {
            let ghost before = rows@;
            let row = RouterRow {
                channel: hosted[i],
                bandwidth: ORIGIN_BANDWIDTH_KBPS,
                rtt: 0,
                loss: Float::from_raw(0),
                jitter: 0,
                hops: Vec::new(),
            };
            rows.push(row);
            proof {
                assert(row@.hops =~= Seq::empty());
                assert(row@ == origin_row(ChannelId(hosted@[i as int])));
                assert(views(rows@) =~= views(before).push(row@));
            }
            i += 1;
        }
        proof {
            assert(hosted@.take(i as int) =~= hosted@);
        }
        let ghost local = views(rows@);
        let mut k: usize = 0;
        proof {
            assert(views(rows@) =~= local + self@.remote_rows(dest, 0));
        }
        while k < self.remote_channels.len()
            invariant
                k <= self.remote_channels@.len(),
                self.wf(),
                self.local_channels@.dom() == self@.local_channels,
                self@.remote_channels.len() == self.remote_channels@.len(),
                forall|j: int|
                    0 <= j < self.remote_channels@.len() ==> (#[trigger] self@.remote_channels[j]) == (
                        self.remote_channels@[j].0,
                        self.remote_channels@[j].1@,
                    ),
                views(rows@) == local + self@.remote_rows(dest, k as int),
            decreases self.remote_channels@.len() - k,
        {
            let ghost before = rows@;
            let channel = self.remote_channels.key_at(k);
            assert(self@.remote_channels[k as int].1.wf());
            if !self.local_channels.contains_key(&channel.0) {
                if let Some(path) = self.remote_channels.value_at(k).create_sync(dest) {
                    let row = path.to_row(channel);
                    rows.push(row);
                    proof {
                        assert(views(rows@) =~= views(before).push(row@));
                    }
                }
            }
            proof {
                assert(views(rows@) =~= local + self@.remote_rows(dest, k + 1));
            }
            k += 1;
        }
        rows
    }

    /// The state holds the routes as the map holds them, each by its view.
    proof fn lemma_entries(&self)
        ensures
            self.conns@ == self@.conns,
            self.local_channels@.dom() == self@.local_channels,
            self@.remote_channels.len() == self.remote_channels@.len(),
            forall|j: int|
                0 <= j < self.remote_channels@.len() ==> (#[trigger] self@.remote_channels[j]) == (
                    self.remote_channels@[j].0,
                    self.remote_channels@[j].1@,
                ),
    {
    }

    /// In a well-formed router the maps are well formed too, and the map of
    /// routes finds a channel where the state has it.
    proof fn lemma_view(&self)
        requires
            self.wf(),
        ensures
            self.conns.wf(),
            self.remote_channels.wf(),
            self.conns@ == self@.conns,
            self.local_channels@.dom() == self@.local_channels,
            self@.remote_channels.len() == self.remote_channels@.len(),
            forall|j: int|
                0 <= j < self.remote_channels@.len() ==> (#[trigger] self@.remote_channels[j]) == (
                    self.remote_channels@[j].0,
                    self.remote_channels@[j].1@,
                ),
            forall|k: ChannelId| has_key(self@.remote_channels, k) == has_key(self.remote_channels@, k),
            forall|k: ChannelId|
                has_key(self.remote_channels@, k) ==> position_of(self@.remote_channels, k)
                    == position_of(self.remote_channels@, k),
    {
        crate::ordered_map::lemma_same_keys(self@.remote_channels, self.remote_channels@);
        lemma_deep(self.remote_channels@);
    }
}

/// The index of the last of `rows` that names `channel`, or -1 if none does.
pub open spec fn last_row_for(rows: Seq<RouterRowView>, channel: ChannelId) -> int
    decreases rows.len(),
{
    if rows.len() == 0 {
        -1
    } else if rows.last().channel == channel.0 {
        rows.len() - 1
    } else {
        last_row_for(rows.drop_last(), channel)
    }
}

/// What an advertisement does to the routes: no channel comes or goes; a
/// channel that no row names keeps its route; and for a channel that is
/// named, the last row that names it replaces what the neighbour advertised
/// before.
pub proof fn lemma_learn_rows(
    routes: Seq<(ChannelId, ChannelRouteView)>,
    now: u64,
    conn: Connection,
    stats: ConnectionStats,
    rows: Seq<RouterRowView>,
)
    requires
        distinct_keys(routes),
        forall|i: int| 0 <= i < routes.len() ==> (#[trigger] routes[i]).1.wf(),
    ensures
        learn_rows(routes, now, conn, stats, rows).len() == routes.len(),
        forall|i: int|
            0 <= i < routes.len() ==> (#[trigger] learn_rows(routes, now, conn, stats, rows)[i]) == {
                let last = last_row_for(rows, routes[i].0);
                if last < 0 {
                    routes[i]
                } else {
                    (routes[i].0, routes[i].1.on_sync(conn, learned_path(now, conn, stats, rows[last])))
                }
            },
        forall|channel: ChannelId| -1 <= #[trigger] last_row_for(rows, channel) < rows.len(),
        forall|channel: ChannelId|
            0 <= #[trigger] last_row_for(rows, channel) ==> rows[last_row_for(rows, channel)].channel
                == channel.0,
        forall|channel: ChannelId, j: int|
            #![trigger last_row_for(rows, channel), rows[j]]
            last_row_for(rows, channel) < j < rows.len() ==> rows[j].channel != channel.0,
    decreases rows.len(),
{
    if rows.len() > 0 {
        let front = rows.drop_last();
        let row = rows.last();
        lemma_learn_rows(routes, now, conn, stats, front);
        let before = learn_rows(routes, now, conn, stats, front);
        let after = learn_rows(routes, now, conn, stats, rows);
        let named = ChannelId(row.channel);
        assert forall|channel: ChannelId| -1 <= #[trigger] last_row_for(rows, channel) < rows.len() by {
            assert(-1 <= last_row_for(front, channel) < front.len());
        }
        assert forall|channel: ChannelId|
            0 <= #[trigger] last_row_for(rows, channel) implies rows[last_row_for(rows, channel)].channel
            == channel.0 by {
            if row.channel != channel.0 {
                let l = last_row_for(front, channel);
                assert(-1 <= l < front.len());
                assert(front[l] == rows[l]);
            }
        }
        assert forall|channel: ChannelId, j: int|
            #![trigger last_row_for(rows, channel), rows[j]]
            last_row_for(rows, channel) < j < rows.len() implies rows[j].channel != channel.0 by {
            assert(-1 <= last_row_for(front, channel) < front.len());
            if j < front.len() {
                assert(front[j] == rows[j]);
                assert(last_row_for(front, channel) < j);
            }
        }
        assert forall|i: int| 0 <= i < routes.len() implies before[i].0 == routes[i].0 by {}
        crate::ordered_map::lemma_same_keys(routes, before);
        if has_key(before, named) {
            let p = position_of(before, named);
            crate::ordered_map::lemma_position_unique(before, p);
        }
        assert forall|i: int| 0 <= i < routes.len() implies (#[trigger] after[i]) == {
            let last = last_row_for(rows, routes[i].0);
            if last < 0 {
                routes[i]
            } else {
                (routes[i].0, routes[i].1.on_sync(conn, learned_path(now, conn, stats, rows[last])))
            }
        } by {
            let l = last_row_for(front, routes[i].0);
            assert(-1 <= l < front.len());
            if routes[i].0 == named {
                assert(before[i].0 == named);
                crate::ordered_map::lemma_position_unique(before, i);
                let path = learned_path(now, conn, stats, row);
                // a later path of the same neighbour takes the place of an earlier one
                let paths = routes[i].1.paths;
                let earlier = before[i].1.paths;
                assert(put(earlier, conn, path) == put(paths, conn, path)) by {
                    if l >= 0 {
                        let old_path = learned_path(now, conn, stats, front[l]);
                        crate::ordered_map::lemma_put_twice(paths, conn, old_path, path);
                    }
                }
            } else {
                if has_key(before, named) {
                    assert(position_of(before, named) != i);
                }
                if l >= 0 {
                    assert(front[l] == rows[l]);
                }
            }
        }
    }
}

/// A connection that is lost is purged: the router has no measurement of it
/// any more, and no route keeps a path that it advertised.
pub proof fn lemma_disconnect_purges(s: RouterState, now: u64, conn: Connection)
    requires
        s.wf(),
    ensures
        s.on_event(now, InputEvent::ConnectionDisconnected(conn)).wf(),
        !has_key(s.on_event(now, InputEvent::ConnectionDisconnected(conn)).conns, conn),
        forall|i: int|
            0 <= i < s.on_event(now, InputEvent::ConnectionDisconnected(conn)).remote_channels.len()
                ==> !has_key(
                (#[trigger] s.on_event(
                    now,
                    InputEvent::ConnectionDisconnected(conn),
                ).remote_channels[i]).1.paths,
                conn,
            ),
{
    let r = s.on_event(now, InputEvent::ConnectionDisconnected(conn));
    crate::ordered_map::lemma_delete(s.conns, conn);
    assert forall|i: int| 0 <= i < r.remote_channels.len() implies (#[trigger] r.remote_channels[i]).1.wf()
        && r.remote_channels[i].1.channel_id == r.remote_channels[i].0 && !has_key(
        r.remote_channels[i].1.paths,
        conn,
    ) by {
        assert(s.remote_channels[i].1.wf());
        crate::ordered_map::lemma_delete(s.remote_channels[i].1.paths, conn);
    }
    crate::ordered_map::lemma_same_keys(s.remote_channels, r.remote_channels);
}

/// Every advertisement goes to a neighbour and holds a row at least, and the
/// neighbours are served in their order, each once at most.
pub proof fn lemma_sync_shape(s: RouterState, hosted: Seq<u32>)
    requires
        s.wf(),
    ensures
        s.create_sync(hosted).len() <= s.conns.len(),
        forall|i: int|
            0 <= i < s.create_sync(hosted).len() ==> (#[trigger] s.create_sync(hosted)[i]).msg.len() > 0
                && has_key(s.conns, s.create_sync(hosted)[i].conn) && s.create_sync(hosted)[i].msg
                == s.sync_rows(s.create_sync(hosted)[i].conn.0, hosted),
        forall|i: int, j: int|
            0 <= i < j < s.create_sync(hosted).len() ==> position_of(
                s.conns,
                s.create_sync(hosted)[i].conn,
            ) < position_of(s.conns, s.create_sync(hosted)[j].conn),
{
    lemma_sync_shape_upto(s, s.conns.len() as int, hosted);
}

/// The same, for the first `n` connections alone.
proof fn lemma_sync_shape_upto(s: RouterState, n: int, hosted: Seq<u32>)
    requires
        s.wf(),
        0 <= n <= s.conns.len(),
    ensures
        s.sync_msgs(n, hosted).len() <= n,
        forall|i: int|
            0 <= i < s.sync_msgs(n, hosted).len() ==> (#[trigger] s.sync_msgs(n, hosted)[i]).msg.len() > 0 && has_key(
                s.conns,
                s.sync_msgs(n, hosted)[i].conn,
            ) && position_of(s.conns, s.sync_msgs(n, hosted)[i].conn) < n && s.sync_msgs(n, hosted)[i].msg
                == s.sync_rows(s.sync_msgs(n, hosted)[i].conn.0, hosted),
        forall|i: int, j: int|
            0 <= i < j < s.sync_msgs(n, hosted).len() ==> position_of(s.conns, s.sync_msgs(n, hosted)[i].conn)
                < position_of(s.conns, s.sync_msgs(n, hosted)[j].conn),
    decreases n,
{
    if n > 0 {
        lemma_sync_shape_upto(s, n - 1, hosted);
        crate::ordered_map::lemma_position_unique(s.conns, n - 1);
        let rest = s.sync_msgs(n - 1, hosted);
        let all = s.sync_msgs(n, hosted);
        assert forall|i: int| 0 <= i < all.len() implies (#[trigger] all[i]).msg.len() > 0 && has_key(
            s.conns,
            all[i].conn,
        ) && position_of(s.conns, all[i].conn) < n && all[i].msg == s.sync_rows(all[i].conn.0, hosted) by {
            if i < rest.len() {
                assert(all[i] == rest[i]);
            }
        }
        assert forall|i: int, j: int| 0 <= i < j < all.len() implies position_of(s.conns, all[i].conn)
            < position_of(s.conns, all[j].conn) by {
            assert(all[i] == rest[i]);
            if j < rest.len() {
                assert(all[j] == rest[j]);
            }
        }
    }
}

/// Split horizon: no row that is advertised to a neighbour names that
/// neighbour among its hops. A node is thus never offered a path that leads
/// back through itself.
pub proof fn lemma_split_horizon(s: RouterState, hosted: Seq<u32>)
    ensures
        forall|i: int, j: int|
            0 <= i < s.create_sync(hosted).len() && 0 <= j < s.create_sync(hosted)[i].msg.len() ==> !(
            #[trigger] s.create_sync(hosted)[i].msg[j]).hops.contains(s.create_sync(hosted)[i].conn.0.0),
{
    lemma_sync_msgs(s, s.conns.len() as int, hosted);
}

/// No row for a channel that is reached through others names `dest`.
proof fn lemma_sync_rows(s: RouterState, dest: NodeId, n: int)
    requires
        0 <= n <= s.remote_channels.len(),
    ensures
        forall|j: int|
            0 <= j < s.remote_rows(dest, n).len() ==> !(#[trigger] s.remote_rows(dest, n)[j]).hops.contains(
                dest.0,
            ),
    decreases n,
{
    if n > 0 {
        lemma_sync_rows(s, dest, n - 1);
        let (channel, route) = s.remote_channels[n - 1];
        let rest = s.remote_rows(dest, n - 1);
        let all = s.remote_rows(dest, n);
        if s.local_channels.contains(channel.0) {
            assert(all == rest);
        } else {
            if route.create_sync(dest) is None {
                assert(all == rest);
            }
            if let Some(path) = route.create_sync(dest) {
                let row = path.to_row(channel);
                let b = crate::router::channel::best(route.paths, Some(dest))->0;
                assert(crate::router::channel::first_cheapest(route.paths, Some(dest), b));
                assert(crate::router::channel::usable(path, Some(dest)));
                if row.hops.contains(dest.0) {
                    let k = choose|k: int| 0 <= k < row.hops.len() && row.hops[k] == dest.0;
                    assert(path.hops[k] == dest);
                }
                assert(all == rest.push(row));
                assert forall|j: int| 0 <= j < all.len() implies !(#[trigger] all[j]).hops.contains(
                    dest.0,
                ) by {
                    if j < rest.len() {
                        assert(all[j] == rest[j]);
                    }
                }
            }
        }
    }
}

/// Split horizon for the first `n` connections.
proof fn lemma_sync_msgs(s: RouterState, n: int, hosted: Seq<u32>)
    requires
        0 <= n <= s.conns.len(),
    ensures
        forall|i: int, j: int|
            0 <= i < s.sync_msgs(n, hosted).len() && 0 <= j < s.sync_msgs(n, hosted)[i].msg.len() ==> !(
            #[trigger] s.sync_msgs(n, hosted)[i].msg[j]).hops.contains(s.sync_msgs(n, hosted)[i].conn.0.0),
    decreases n,
{
    if n > 0 {
        lemma_sync_msgs(s, n - 1, hosted);
        let conn = s.conns[n - 1].0;
        let dest = conn.0;
        lemma_sync_rows(s, dest, s.remote_channels.len() as int);
        let local = s.local_rows(hosted);
        let remote = s.remote_rows(dest, s.remote_channels.len() as int);
        let rows = s.sync_rows(dest, hosted);
        assert forall|j: int| 0 <= j < rows.len() implies !(#[trigger] rows[j]).hops.contains(dest.0) by {
            if j < local.len() {
                assert(rows[j] == local[j]);
                assert(local[j].hops =~= Seq::empty());
            } else {
                assert(rows[j] == remote[j - local.len()]);
            }
        }
        let rest = s.sync_msgs(n - 1, hosted);
        let all = s.sync_msgs(n, hosted);
        assert forall|i: int, j: int| 0 <= i < all.len() && 0 <= j < all[i].msg.len() implies !(
        #[trigger] all[i].msg[j]).hops.contains(all[i].conn.0.0) by {
            if i < rest.len() {
                assert(all[i] == rest[i]);
            } else {
                assert(all[i] == (NetworkMsgView { conn, msg: rows }));
            }
        }
    }
}

} // verus!
