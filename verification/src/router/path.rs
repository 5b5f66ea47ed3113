use vstd::prelude::*;

use crate::addr::{ChannelId, NodeId};
use crate::message::{RouterRow, RouterRowView};
use crate::router::metric::Metric;

verus! {

/// A way to a channel as one neighbour advertised it.
#[derive(Debug)]
pub struct ChannelPath {
    /// When the advertisement came in, in milliseconds.
    pub last_sync: u64,
    pub metric: Metric,
    /// The nodes the path passes, the origin's side first.
    pub hops: Vec<NodeId>,
}

/// A `ChannelPath` with its hops as a sequence.
pub struct ChannelPathView {
    pub last_sync: u64,
    pub metric: Metric,
    pub hops: Seq<NodeId>,
}

impl View for ChannelPath {
    type V = ChannelPathView;

    open spec fn view(&self) -> ChannelPathView {
        ChannelPathView { last_sync: self.last_sync, metric: self.metric, hops: self.hops@ }
    }
}

impl Clone for ChannelPath {
    fn clone(&self) -> (path: Self)
        ensures
            path@ == self@,
    {
        let mut hops: Vec<NodeId> = Vec::new();
        let mut i: usize = 0;
        while i < self.hops.len()
            invariant
                i <= self.hops.len(),
                hops@ == self.hops@.take(i as int),
            decreases self.hops.len() - i,
        {
            hops.push(self.hops[i]);
            proof {
                assert(self.hops@.take(i + 1) =~= self.hops@.take(i as int).push(self.hops@[i as int]));
            }
            i += 1;
        }
        proof {
            assert(self.hops@.take(self.hops@.len() as int) =~= self.hops@);
        }
        ChannelPath { last_sync: self.last_sync, metric: self.metric, hops }
    }
}

impl ChannelPathView {
    /// The row that advertises this path for `channel`. The bandwidth is not
    /// passed on: the row carries zero.
    pub open spec fn to_row(self, channel: ChannelId) -> RouterRowView {
        RouterRowView {
            channel: channel.0,
            rtt: self.metric.rtt,
            loss: self.metric.loss,
            jitter: self.metric.jitter,
            bandwidth: 0,
            hops: Seq::new(self.hops.len(), |i: int| self.hops[i].0),
        }
    }

    /// The path that `row` advertised at `now`.
    pub open spec fn from_row(now: u64, row: RouterRowView) -> ChannelPathView {
        ChannelPathView {
            last_sync: now,
            metric: Metric {
                rtt: row.rtt,
                loss: row.loss,
                jitter: row.jitter,
                bandwidth: row.bandwidth,
            },
            hops: Seq::new(row.hops.len(), |i: int| NodeId(row.hops[i])),
        }
    }
}

impl ChannelPath {
    /// The row that advertises this path for `channel`.
    pub fn to_row(&self, channel: ChannelId) -> (row: RouterRow)
        ensures
            row@ == self@.to_row(channel),
    {
        let mut hops: Vec<u32> = Vec::new();
        let mut i: usize = 0;
        while i < self.hops.len()
            invariant
                i <= self.hops.len(),
                hops@.len() == i,
                forall|j: int| 0 <= j < i ==> hops@[j] == self.hops@[j].0,
            decreases self.hops.len() - i,
        {
            hops.push(self.hops[i].0);
            i += 1;
        }
        let row = RouterRow {
            channel: channel.0,
            rtt: self.metric.rtt,
            loss: self.metric.loss,
            jitter: self.metric.jitter,
            bandwidth: 0,
            hops,
        };
        assert(row@.hops =~= self@.to_row(channel).hops);
        row
    }

    /// The path that the row `value` advertised at `now_ms`.
    pub fn from_row(now_ms: u64, value: RouterRow) -> (path: Self)
        ensures
            path@ == ChannelPathView::from_row(now_ms, value@),
    {
        let mut hops: Vec<NodeId> = Vec::new();
        let mut i: usize = 0;
        while i < value.hops.len()
            invariant
                i <= value.hops.len(),
                hops@.len() == i,
                forall|j: int| 0 <= j < i ==> hops@[j] == NodeId(value.hops@[j]),
            decreases value.hops.len() - i,
        {
            hops.push(NodeId(value.hops[i]));
            i += 1;
        }
        let path = ChannelPath {
            last_sync: now_ms,
            hops,
            metric: Metric {
                rtt: value.rtt,
                loss: value.loss,
                jitter: value.jitter,
                bandwidth: value.bandwidth,
            },
        };
        assert(path@.hops =~= ChannelPathView::from_row(now_ms, value@).hops);
        path
    }
}

/// A path that is advertised and read back keeps its delays, its loss and its
/// hops, and takes the time at which it was read. Its bandwidth is lost: the
/// row carries zero.
pub proof fn lemma_row_round_trip(path: ChannelPathView, channel: ChannelId, now: u64)
    ensures
        ChannelPathView::from_row(now, path.to_row(channel)).metric.rtt == path.metric.rtt,
        ChannelPathView::from_row(now, path.to_row(channel)).metric.loss == path.metric.loss,
        ChannelPathView::from_row(now, path.to_row(channel)).metric.jitter == path.metric.jitter,
        ChannelPathView::from_row(now, path.to_row(channel)).metric.bandwidth == 0,
        ChannelPathView::from_row(now, path.to_row(channel)).hops == path.hops,
        ChannelPathView::from_row(now, path.to_row(channel)).last_sync == now,
        path.to_row(channel).channel == channel.0,
{
    assert(ChannelPathView::from_row(now, path.to_row(channel)).hops =~= path.hops);
}

} // verus!
