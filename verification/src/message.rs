use vstd::prelude::*;

use crate::router::metric::Float;

verus! {

/// The views of the elements of `s`, in their order.
pub open spec fn views<T: View>(s: Seq<T>) -> Seq<T::V> {
    Seq::new(s.len(), |i: int| s[i]@)
}

/// One advertised route: how a channel is reached through the sender.
#[derive(Debug, Clone, PartialEq, Eq)]
pub struct RouterRow {
    pub channel: u32,
    /// Kilobits per second.
    pub bandwidth: u32,
    /// Milliseconds.
    pub rtt: u32,
    /// Percent, in hundredths.
    pub loss: Float<2>,
    /// Milliseconds.
    pub jitter: u32,
    /// The nodes the route passes, the origin's side first.
    pub hops: Vec<u32>,
}

/// A `RouterRow` with its hops as a sequence.
pub struct RouterRowView {
    pub channel: u32,
    pub bandwidth: u32,
    pub rtt: u32,
    pub loss: Float<2>,
    pub jitter: u32,
    pub hops: Seq<u32>,
}

impl View for RouterRow {
    type V = RouterRowView;

    open spec fn view(&self) -> RouterRowView {
        RouterRowView {
            channel: self.channel,
            bandwidth: self.bandwidth,
            rtt: self.rtt,
            loss: self.loss,
            jitter: self.jitter,
            hops: self.hops@,
        }
    }
}

/// The routes that a node advertises to one neighbour.
#[derive(Debug, Clone, PartialEq, Eq)]
pub struct RouterSync {
    pub rows: Vec<RouterRow>,
}

impl View for RouterSync {
    type V = Seq<RouterRowView>;

    open spec fn view(&self) -> Seq<RouterRowView> {
        views(self.rows@)
    }
}

/// Asks the receiver to forward what is published on a channel.
#[derive(Debug, Clone, Copy, PartialEq, Eq, Structural)]
pub struct ChannelSub {
    pub channel: u32,
}

impl View for ChannelSub {
    type V = ChannelSub;

    open spec fn view(&self) -> ChannelSub {
        *self
    }
}

/// Tells the receiver to stop forwarding a channel.
#[derive(Debug, Clone, Copy, PartialEq, Eq, Structural)]
pub struct ChannelUnsub {
    pub channel: u32,
}

impl View for ChannelUnsub {
    type V = ChannelUnsub;

    open spec fn view(&self) -> ChannelUnsub {
        *self
    }
}

/// Bytes published on a channel.
#[derive(Debug, Clone, PartialEq, Eq)]
pub struct ChannelData {
    pub channel: u32,
    pub data: Vec<u8>,
}

/// A `ChannelData` with its bytes as a sequence.
pub struct ChannelDataView {
    pub channel: u32,
    pub data: Seq<u8>,
}

impl View for ChannelData {
    type V = ChannelDataView;

    open spec fn view(&self) -> ChannelDataView {
        ChannelDataView { channel: self.channel, data: self.data@ }
    }
}

/// What one message between neighbours can be.
#[derive(Debug, Clone, PartialEq, Eq)]
pub enum MessageType {
    RouterSync(RouterSync),
    ChannelSub(ChannelSub),
    ChannelUnsub(ChannelUnsub),
    ChannelData(ChannelData),
}

/// A `MessageType` with its contents taken by their views.
pub enum MessageView {
    RouterSync(Seq<RouterRowView>),
    ChannelSub(ChannelSub),
    ChannelUnsub(ChannelUnsub),
    ChannelData(ChannelDataView),
}

impl View for MessageType {
    type V = MessageView;

    open spec fn view(&self) -> MessageView {
        match self {
            MessageType::RouterSync(sync) => MessageView::RouterSync(sync@),
            MessageType::ChannelSub(sub) => MessageView::ChannelSub(*sub),
            MessageType::ChannelUnsub(unsub) => MessageView::ChannelUnsub(*unsub),
            MessageType::ChannelData(data) => MessageView::ChannelData(data@),
        }
    }
}

} // verus!
