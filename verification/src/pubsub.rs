use std::collections::VecDeque;
use vstd::prelude::*;

use crate::addr::{ChannelId, NodeId};
use crate::message::{views, ChannelData, ChannelDataView, ChannelSub, ChannelUnsub};
use crate::network::{Connection, NetworkMsg, NetworkMsgView};
use crate::ordered_map::{deep, distinct_keys, has_key, lemma_deep, position_of, OrderedMap};
use crate::pubsub::channel::{ChannelOutput, ChannelState, PubsubChannel};

pub mod channel;

verus! {

/// What the pubsub engine is told by a neighbour.
pub enum InputEvent {
    RecvSub(NetworkMsg<ChannelSub>),
    RecvData(NetworkMsg<ChannelData>),
    RecvUnsub(NetworkMsg<ChannelUnsub>),
}

/// What the pubsub engine wants done.
#[derive(Debug, Clone, PartialEq, Eq)]
pub enum OutputEvent {
    /// Subscribe upstream, wherever that is.
    SendSub(ChannelSub),
    /// Send the data over the connection.
    SendData(NetworkMsg<ChannelData>),
    /// Cancel the subscription upstream.
    SendUnsub(ChannelUnsub),
    /// Hand the data to the local subscriber.
    OnChannelData(ChannelId, Vec<u8>),
}

/// An `OutputEvent` with its contents taken by their views.
pub enum PubsubOutput {
    SendSub(ChannelSub),
    SendData(NetworkMsgView<ChannelDataView>),
    SendUnsub(ChannelUnsub),
    OnChannelData(ChannelId, Seq<u8>),
}

impl View for OutputEvent {
    type V = PubsubOutput;

    open spec fn view(&self) -> PubsubOutput {
        match self {
            OutputEvent::SendSub(sub) => PubsubOutput::SendSub(*sub),
            OutputEvent::SendData(msg) => PubsubOutput::SendData(msg@),
            OutputEvent::SendUnsub(unsub) => PubsubOutput::SendUnsub(*unsub),
            OutputEvent::OnChannelData(channel, data) => PubsubOutput::OnChannelData(*channel, data@),
        }
    }
}

/// The message that carries `data` on `channel` over `conn`.
pub open spec fn data_for(channel: ChannelId, conn: Connection, data: Seq<u8>) -> PubsubOutput {
    PubsubOutput::SendData(
        NetworkMsgView { conn, msg: ChannelDataView { channel: channel.0, data } },
    )
}

/// What an event of the channel `channel` asks of the engine: a request to
/// subscribe or unsubscribe upstream is passed on as it is; data goes to each
/// subscribed neighbour in turn, and then to the local subscriber if there is one.
pub open spec fn asked_by(channel: ChannelId, event: ChannelOutput) -> Seq<PubsubOutput> {
    match event {
        ChannelOutput::Sub => seq![PubsubOutput::SendSub(ChannelSub { channel: channel.0 })],
        ChannelOutput::Data { data, remotes, local } => {
            let sends = Seq::new(remotes.len(), |i: int| data_for(channel, remotes[i], data));
            if local {
                sends.push(PubsubOutput::OnChannelData(channel, data))
            } else {
                sends
            }
        },
        ChannelOutput::Unsub => seq![PubsubOutput::SendUnsub(ChannelUnsub { channel: channel.0 })],
    }
}

/// The channel `state` after the clock has reached `now` and the channel has
/// handed on what it then asked for.
pub open spec fn ticked(state: ChannelState, now: u64) -> ChannelState {
    drained(state.on_tick(now))
}

/// The channels of `channels` that are still wanted once the clock has
/// reached `now`, each as the tick left it, in their order.
pub open spec fn kept_at_tick(channels: Seq<(ChannelId, ChannelState)>, now: u64) -> Seq<
    (ChannelId, ChannelState),
>
    decreases channels.len(),
{
    if channels.len() == 0 {
        channels
    } else if ticked(channels.last().1, now).is_empty() {
        kept_at_tick(channels.drop_last(), now)
    } else {
        kept_at_tick(channels.drop_last(), now).push(
            (channels.last().0, ticked(channels.last().1, now)),
        )
    }
}

/// What the channels of `channels` ask for when the clock reaches `now`, in
/// their order.
pub open spec fn asked_at_tick(channels: Seq<(ChannelId, ChannelState)>, now: u64) -> Seq<PubsubOutput>
    decreases channels.len(),
{
    if channels.len() == 0 {
        Seq::empty()
    } else {
        asked_at_tick(channels.drop_last(), now) + handed_on(
            channels.last().0,
            channels.last().1.on_tick(now),
        )
    }
}

/// What handing on the oldest event of a channel adds to the engine's queue.
pub open spec fn handed_on(channel: ChannelId, state: ChannelState) -> Seq<PubsubOutput> {
    if state.outputs.len() > 0 {
        asked_by(channel, state.outputs[0])
    } else {
        Seq::empty()
    }
}

/// The channel after its oldest event has been handed on.
pub open spec fn drained(state: ChannelState) -> ChannelState {
    if state.outputs.len() > 0 {
        ChannelState { outputs: state.outputs.skip(1), ..state }
    } else {
        state
    }
}

/// The state of the pubsub engine, as a mathematical value.
pub struct PubsubState {
    pub outputs: Seq<PubsubOutput>,
    pub channels: Seq<(ChannelId, ChannelState)>,
}

impl PubsubState {
    /// Whether every channel but the `i`-th is at rest: somebody wants it,
    /// and it has handed on all its events.
    pub open spec fn rest_except(self, i: int) -> bool {
        &&& distinct_keys(self.channels)
        &&& forall|j: int| 0 <= j < self.channels.len() ==> (#[trigger] self.channels[j]).1.wf()
        &&& forall|j: int|
            0 <= j < self.channels.len() && j != i ==> !(#[trigger] self.channels[j]).1.is_empty()
                && self.channels[j].1.outputs.len() == 0
    }

    /// No channel is held twice, and every channel that is held is at rest:
    /// somebody wants it, and it has handed on all its events.
    pub open spec fn wf(self) -> bool {
        self.rest_except(-1)
    }

    /// The state of an engine that holds no channel.
    pub open spec fn init() -> Self {
        PubsubState { outputs: Seq::empty(), channels: Seq::empty() }
    }

    /// The state in which `channel` is held: as it is, or new and unwanted
    /// at the end.
    pub open spec fn with_channel(self, channel: ChannelId) -> Self {
        if has_key(self.channels, channel) {
            self
        } else {
            PubsubState { channels: self.channels.push((channel, ChannelState::init())), ..self }
        }
    }

    /// The state after the `i`-th channel has moved on to `next`: its oldest
    /// event is handed on, and the channel is let go if nobody wants it any more.
    pub open spec fn moved(self, i: int, next: ChannelState) -> Self {
        let channel = self.channels[i].0;
        PubsubState {
            outputs: self.outputs + handed_on(channel, next),
            channels: if drained(next).is_empty() {
                self.channels.remove(i)
            } else {
                self.channels.update(i, (channel, drained(next)))
            },
        }
    }

    /// This node subscribes: the channel is taken up if it is not held, and
    /// takes the step.
    pub open spec fn sub_channel(self, channel: ChannelId) -> Self {
        let s = self.with_channel(channel);
        let i = position_of(s.channels, channel);
        s.moved(i, s.channels[i].1.on_local_sub())
    }

    /// This node cancels its subscription; nothing happens for a channel
    /// that is not held.
    pub open spec fn unsub_channel(self, channel: ChannelId) -> Self {
        if has_key(self.channels, channel) {
            let i = position_of(self.channels, channel);
            self.moved(i, self.channels[i].1.on_local_unsub())
        } else {
            self
        }
    }

    /// Data is published on the channel; it is dropped where nobody wants
    /// the channel.
    pub open spec fn pub_channel(self, channel: ChannelId, data: Seq<u8>) -> Self {
        if has_key(self.channels, channel) {
            let i = position_of(self.channels, channel);
            self.moved(i, self.channels[i].1.relay_data(data))
        } else {
            self
        }
    }

    /// The clock has reached `now` for every channel, in the order in which
    /// the channels were taken up: each lets its subscriptions lapse and hands
    /// on what it then asks for, and those that nobody wants any more are let go.
    pub open spec fn on_tick(self, now: u64) -> Self {
        PubsubState {
            outputs: self.outputs + asked_at_tick(self.channels, now),
            channels: kept_at_tick(self.channels, now),
        }
    }

    /// A neighbour subscribes, cancels, or sends data.
    pub open spec fn on_event(self, now: u64, event: InputEvent) -> Self {
        match event {
            InputEvent::RecvSub(msg) => {
                let channel = ChannelId(msg.msg.channel);
                let s = self.with_channel(channel);
                let i = position_of(s.channels, channel);
                s.moved(i, s.channels[i].1.on_remote_sub(now, msg.conn))
            },
            InputEvent::RecvData(msg) => self.pub_channel(ChannelId(msg.msg.channel), msg.msg.data@),
            InputEvent::RecvUnsub(msg) => {
                let channel = ChannelId(msg.msg.channel);
                if has_key(self.channels, channel) {
                    let i = position_of(self.channels, channel);
                    self.moved(i, self.channels[i].1.on_remote_unsub(msg.conn))
                } else {
                    self
                }
            },
        }
    }

    /// The events that came to the queue on the way from `self` to `next`.
    pub open spec fn emitted(self, next: PubsubState) -> Seq<PubsubOutput> {
        next.outputs.skip(self.outputs.len() as int)
    }
}

/// Keeps, for each channel that anybody here or next door wants, who wants
/// it; asks upstream for what is wanted, and passes published data on.
pub struct Pubsub {
    outputs: VecDeque<OutputEvent>,
    channels: OrderedMap<ChannelId, PubsubChannel>,
}

impl View for Pubsub {
    type V = PubsubState;

    closed spec fn view(&self) -> PubsubState {
        PubsubState { outputs: views(self.outputs@), channels: deep(self.channels@) }
    }
}

impl Pubsub {
    /// The engine is well formed when its state is.
    pub open spec fn wf(&self) -> bool {
        self@.wf()
    }

    /// An engine that holds no channel.
    pub fn new() -> (pubsub: Self)
        ensures
            pubsub.wf(),
            pubsub@ == PubsubState::init(),
    {
        let pubsub = Pubsub { outputs: VecDeque::new(), channels: OrderedMap::new() };
        assert(pubsub@.outputs =~= Seq::empty());
        assert(pubsub@.channels =~= Seq::empty());
        pubsub
    }

    /// This node subscribes to the channel.
    pub fn sub_channel(&mut self, channel_id: ChannelId)
        requires
            old(self).wf(),
        ensures
            final(self).wf(),
            final(self)@ == old(self)@.sub_channel(channel_id),
    {
        let i = self.slot(channel_id);
        let ghost prior = *self;
        self.channels.value_at_mut(i).on_local_sub();
        proof {
            crate::pubsub::channel::lemma_sub_wanted(prior@.channels[i as int].1);
            self.lemma_touched(&prior, i as int);
        }
        self.settle(i);
    }

    /// This node cancels its subscription to the channel.
    pub fn unsub_channel(&mut self, channel_id: ChannelId)
        requires
            old(self).wf(),
        ensures
            final(self).wf(),
            final(self)@ == old(self)@.unsub_channel(channel_id),
    {
        proof {
            self.lemma_view();
        }
        if let Some(i) = self.channels.position(&channel_id) {
            self.channels.value_at_mut(i).on_local_unsub();
            proof {
                self.lemma_touched(old(self), i as int);
            }
            self.settle(i);
        }
    }

    /// This node publishes `data` on the channel.
    pub fn pub_channel(&mut self, channel_id: ChannelId, data: Vec<u8>)
        requires
            old(self).wf(),
        ensures
            final(self).wf(),
            final(self)@ == old(self)@.pub_channel(channel_id, data@),
    {
        proof {
            self.lemma_view();
        }
        if let Some(i) = self.channels.position(&channel_id) {
            self.channels.value_at_mut(i).relay_data(data);
            proof {
                self.lemma_touched(old(self), i as int);
            }
            self.settle(i);
        }
    }

    /// Lets the subscriptions that have run out lapse, channel by channel.
    pub fn on_tick(&mut self, now_ms: u64)
        requires
            old(self).wf(),
        ensures
            final(self).wf(),
            final(self)@ == old(self)@.on_tick(now_ms),
    {
        let ghost channels = self@.channels;
        let ghost done: int = 0;
        let mut i: usize = 0;
        proof {
            self.lemma_view();
            assert(channels.take(0) =~= Seq::empty());
            assert(channels.skip(0) =~= channels);
            assert(self@.outputs + asked_at_tick(channels.take(0), now_ms) =~= self@.outputs);
        }
        while i < self.channels.len()
            invariant
                0 <= done <= channels.len(),
                channels == old(self)@.channels,
                self.wf(),
                self@.channels.len() == self.channels@.len(),
                self@.channels =~= kept_at_tick(channels.take(done), now_ms) + channels.skip(done),
                i == kept_at_tick(channels.take(done), now_ms).len(),
                self@.outputs =~= old(self)@.outputs + asked_at_tick(channels.take(done), now_ms),
            decreases channels.len() - done,
        {
            let ghost prior = *self;
            proof {
                self.lemma_view();
                assert(channels.take(done + 1).drop_last() =~= channels.take(done));
                assert(channels.take(done + 1).last() == channels[done]);
                assert(channels.skip(done)[0] == channels[done]);
                assert(channels.skip(done + 1) =~= channels.skip(done).skip(1));
                assert(self@.channels[i as int] == channels[done]);
                crate::pubsub::channel::lemma_step_wf(channels[done].1);
            }
            let held = self.channels.len();
            self.channels.value_at_mut(i).on_tick(now_ms);
            proof {
                self.lemma_touched(&prior, i as int);
            }
            self.settle(i);
            proof {
                self.lemma_view();
            }
            if self.channels.len() == held {
                i += 1;
            }
            proof {
                done = done + 1;
            }
        }
        proof {
            assert(channels.take(done) =~= channels);
        }
    }

    /// Handles what a neighbour sent.
    pub fn on_event(&mut self, now_ms: u64, event: InputEvent)
        requires
            old(self).wf(),
        ensures
            final(self).wf(),
            final(self)@ == old(self)@.on_event(now_ms, event),
    {
        match event {
            InputEvent::RecvSub(msg) => {
                let i = self.slot(ChannelId(msg.msg.channel));
                let ghost prior = *self;
                self.channels.value_at_mut(i).on_remote_sub(now_ms, msg.conn);
                proof {
                    crate::pubsub::channel::lemma_sub_wanted(prior@.channels[i as int].1);
                    self.lemma_touched(&prior, i as int);
                }
                self.settle(i);
            },
            InputEvent::RecvData(msg) => {
                self.pub_channel(ChannelId(msg.msg.channel), msg.msg.data);
            },
            InputEvent::RecvUnsub(msg) => {
                proof {
                    self.lemma_view();
                }
                if let Some(i) = self.channels.position(&ChannelId(msg.msg.channel)) {
                    self.channels.value_at_mut(i).on_remote_unsub(now_ms, msg.conn);
                    proof {
                        self.lemma_touched(old(self), i as int);
                    }
                    self.settle(i);
                }
            },
        }
    }

    /// Whether anybody, here or next door, wants the channel.
    pub fn has_channel(&self, channel_id: ChannelId) -> (b: bool)
        requires
            self.wf(),
        ensures
            b == has_key(self@.channels, channel_id),
    {
        proof {
            self.lemma_view();
        }
        self.channels.contains_key(&channel_id)
    }

    /// The next thing that the engine wants done, oldest first.
    pub fn pop_output(&mut self) -> (event: Option<OutputEvent>)
        requires
            old(self).wf(),
        ensures
            final(self).wf(),
            old(self)@.outputs.len() == 0 ==> event is None && final(self)@ == old(self)@,
            old(self)@.outputs.len() > 0 ==> event is Some && event->0@ == old(self)@.outputs[0]
                && final(self)@ == (PubsubState { outputs: old(self)@.outputs.skip(1), ..old(self)@ }),
    {
        let event = self.outputs.pop_front();
        proof {
            if old(self)@.outputs.len() > 0 {
                assert(self@.outputs =~= old(self)@.outputs.skip(1));
            } else {
                assert(self@.outputs =~= old(self)@.outputs);
            }
        }
        event
    }

    /// The place of `channel_id` among the channels; a channel that is not
    /// held yet is added at the end.
    fn slot(&mut self, channel_id: ChannelId) -> (i: usize)
        requires
            old(self).wf(),
        ensures
            final(self)@ == old(self)@.with_channel(channel_id),
            i == position_of(final(self)@.channels, channel_id),
            i < final(self).channels@.len(),
            final(self)@.rest_except(i as int),
            final(self)@.channels[i as int].1.outputs.len() == 0,
            final(self).channels.wf(),
    {
        proof {
            self.lemma_view();
        }
        match self.channels.position(&channel_id) {
            Some(i) => i,
            None => {
                let n = self.channels.len();
                self.channels.insert(channel_id, PubsubChannel::new());
                proof {
                    self.lemma_entries();
                    old(self).lemma_entries();
                    assert(self@.channels =~= old(self)@.with_channel(channel_id).channels);
                    assert(self@.channels[n as int].0 == channel_id);
                    self.lemma_distinct();
                    crate::ordered_map::lemma_position_unique(self@.channels, n as int);
                    assert forall|j: int| 0 <= j < self@.channels.len() implies (
                    #[trigger] self@.channels[j]).1.wf() by {
                        if j < n {
                            assert(self@.channels[j] == old(self)@.channels[j]);
                        }
                    }
                    assert forall|j: int| 0 <= j < self@.channels.len() && j != n implies !(
                    #[trigger] self@.channels[j]).1.is_empty() && self@.channels[j].1.outputs.len()
                        == 0 by {
                        assert(self@.channels[j] == old(self)@.channels[j]);
                    }
                }
                n
            },
        }
    }

    /// Hands on the oldest event of the `i`-th channel, and lets the channel
    /// go if nobody wants it any more.
    fn settle(&mut self, i: usize)
        requires
            i < old(self).channels@.len(),
            old(self).channels.wf(),
            old(self)@.rest_except(i as int),
            old(self)@.channels[i as int].1.outputs.len() <= 1,
        ensures
            final(self).wf(),
            final(self)@ == old(self)@.moved(i as int, old(self)@.channels[i as int].1),
    {
        proof {
            self.lemma_entries();
        }
        self.pop_channel_output(i);
        let ghost mid = *self;
        proof {
            self.lemma_entries();
            assert(self@.channels =~= old(self)@.channels.update(
                i as int,
                (old(self)@.channels[i as int].0, drained(old(self)@.channels[i as int].1)),
            ));
            self.lemma_distinct();
        }
        if self.channels.value_at(i).is_empty() {
            self.channels.remove_at(i);
            proof {
                self.lemma_entries();
                assert(self@.channels =~= mid@.channels.remove(i as int));
                assert(self@.channels =~= old(self)@.channels.remove(i as int));
                assert forall|j: int| 0 <= j < self@.channels.len() implies (
                #[trigger] self@.channels[j]).1.wf() && !self@.channels[j].1.is_empty()
                    && self@.channels[j].1.outputs.len() == 0 by {
                    let a = if j < i { j } else { j + 1 };
                    assert(self@.channels[j] == old(self)@.channels[a]);
                }
                self.lemma_distinct();
            }
        } else {
            proof {
                assert forall|j: int| 0 <= j < self@.channels.len() implies (
                #[trigger] self@.channels[j]).1.wf() && !self@.channels[j].1.is_empty()
                    && self@.channels[j].1.outputs.len() == 0 by {
                    if j != i {
                        assert(self@.channels[j] == old(self)@.channels[j]);
                    }
                }
            }
        }
    }

    /// Hands on the oldest event of the `i`-th channel.
    fn pop_channel_output(&mut self, i: usize)
        requires
            i < old(self).channels@.len(),
            old(self).channels.wf(),
            old(self).channels@[i as int].1.wf(),
        ensures
            final(self).channels.wf(),
            final(self).channels@.len() == old(self).channels@.len(),
            forall|j: int|
                0 <= j < old(self).channels@.len() && j != i ==> final(self).channels@[j] == old(
                    self,
                ).channels@[j],
            final(self).channels@[i as int].0 == old(self).channels@[i as int].0,
            final(self).channels@[i as int].1@ == drained(old(self).channels@[i as int].1@),
            final(self).channels@[i as int].1.wf(),
            final(self)@.outputs == old(self)@.outputs + handed_on(
                old(self).channels@[i as int].0,
                old(self).channels@[i as int].1@,
            ),
    {
        let channel_id = self.channels.key_at(i);
        let event = self.channels.value_at_mut(i).pop_output();
        let ghost start = self@.outputs;
        let ghost channels = self.channels;
        proof {
            self.lemma_entries();
            old(self).lemma_entries();
            assert(start == old(self)@.outputs);
        }
        if let Some(output) = event {
            match output {
                crate::pubsub::channel::OutputEvent::Sub => {
                    self.push(OutputEvent::SendSub(ChannelSub { channel: channel_id.0 }));
                },
                crate::pubsub::channel::OutputEvent::Data { data, remotes, local } => {
                    let mut k: usize = 0;
                    proof {
                        assert(self@.outputs =~= start + Seq::new(
                            0,
                            |j: int| data_for(channel_id, remotes@[j], data@),
                        ));
                    }
                    while k < remotes.len()
                        invariant
                            k <= remotes@.len(),
                            self.channels == channels,
                            self@.outputs == start + Seq::new(
                                k as nat,
                                |j: int| data_for(channel_id, remotes@[j], data@),
                            ),
                        decreases remotes@.len() - k,
                    {
                        let copy = data.clone();
                        assert(copy@ =~= data@);
                        self.push(
                            OutputEvent::SendData(
                                NetworkMsg {
                                    conn: remotes[k],
                                    msg: ChannelData { channel: channel_id.0, data: copy },
                                },
                            ),
                        );
                        proof {
                            assert(self@.outputs =~= start + Seq::new(
                                (k + 1) as nat,
                                |j: int| data_for(channel_id, remotes@[j], data@),
                            ));
                        }
                        k += 1;
                    }
                    if local {
                        self.push(OutputEvent::OnChannelData(channel_id, data));
                    }
                    proof {
                        assert(self@.outputs =~= start + asked_by(channel_id, output@));
                    }
                },
                crate::pubsub::channel::OutputEvent::Unsub => {
                    self.push(OutputEvent::SendUnsub(ChannelUnsub { channel: channel_id.0 }));
                },
            }
            proof {
                assert(self@.outputs =~= start + asked_by(channel_id, output@));
            }
        } else {
            proof {
                assert(self@.outputs =~= start + Seq::empty());
            }
        }
    }

    /// After the `i`-th channel alone has been changed, the channels are as
    /// before but for that one.
    proof fn lemma_touched(&self, prior: &Pubsub, i: int)
        requires
            prior.channels.wf(),
            0 <= i < prior.channels@.len(),
            prior@.rest_except(i),
            self.outputs == prior.outputs,
            self.channels@ == prior.channels@.update(i, (prior.channels@[i].0, self.channels@[i].1)),
            self.channels@[i].1.wf(),
        ensures
            self.channels.wf(),
            self@.rest_except(i),
            self@.outputs == prior@.outputs,
            self@.channels == prior@.channels.update(i, (prior@.channels[i].0, self.channels@[i].1@)),
            self@.channels[i] == (prior@.channels[i].0, self.channels@[i].1@),
            forall|next: ChannelState| #[trigger] self@.moved(i, next) == prior@.moved(i, next),
    {
        self.lemma_entries();
        prior.lemma_entries();
        assert(self@.channels =~= prior@.channels.update(i, (prior@.channels[i].0, self.channels@[i].1@)));
        crate::ordered_map::lemma_update_keys(prior.channels@, i, self.channels@[i].1);
        self.lemma_distinct();
        assert forall|j: int| 0 <= j < self@.channels.len() implies (#[trigger] self@.channels[j]).1.wf() by {
            if j != i {
                assert(self@.channels[j] == prior@.channels[j]);
            }
        }
        assert forall|j: int| 0 <= j < self@.channels.len() && j != i implies !(
        #[trigger] self@.channels[j]).1.is_empty() && self@.channels[j].1.outputs.len() == 0 by {
            assert(self@.channels[j] == prior@.channels[j]);
        }
        assert forall|next: ChannelState| #[trigger] self@.moved(i, next) == prior@.moved(i, next) by {
            assert(self@.channels.remove(i) =~= prior@.channels.remove(i));
            assert(self@.channels.update(i, (self@.channels[i].0, drained(next)))
                =~= prior@.channels.update(i, (prior@.channels[i].0, drained(next))));
        }
    }

    /// Queues `event`.
    fn push(&mut self, event: OutputEvent)
        ensures
            final(self).channels == old(self).channels,
            final(self)@.outputs == old(self)@.outputs.push(event@),
    {
        self.outputs.push_back(event);
        assert(self@.outputs =~= old(self)@.outputs.push(event@));
    }

    /// The state holds no channel twice where the map holds none twice.
    proof fn lemma_distinct(&self)
        requires
            self.channels.wf(),
        ensures
            distinct_keys(self@.channels),
    {
        lemma_deep(self.channels@);
    }

    /// The state holds the channels as the map holds them, each by its view.
    proof fn lemma_entries(&self)
        ensures
            self@.channels.len() == self.channels@.len(),
            forall|j: int|
                0 <= j < self.channels@.len() ==> (#[trigger] self@.channels[j]) == (
                    self.channels@[j].0,
                    self.channels@[j].1@,
                ),
            self@.outputs == views(self.outputs@),
    {
    }

    /// In a well-formed engine the map of channels is well formed too, and
    /// finds a channel where the state has it.
    proof fn lemma_view(&self)
        requires
            self.wf(),
        ensures
            self.channels.wf(),
            self@.channels.len() == self.channels@.len(),
            forall|j: int|
                0 <= j < self.channels@.len() ==> (#[trigger] self@.channels[j]) == (
                    self.channels@[j].0,
                    self.channels@[j].1@,
                ),
            forall|k: ChannelId| has_key(self@.channels, k) == has_key(self.channels@, k),
            forall|k: ChannelId|
                has_key(self.channels@, k) ==> position_of(self@.channels, k) == position_of(
                    self.channels@,
                    k,
                ),
            forall|j: int| 0 <= j < self.channels@.len() ==> (#[trigger] self.channels@[j]).1.wf(),
    {
        crate::ordered_map::lemma_same_keys(self@.channels, self.channels@);
        lemma_deep(self.channels@);
        assert forall|j: int| 0 <= j < self.channels@.len() implies (#[trigger] self.channels@[j]).1.wf() by {
            assert(self@.channels[j].1.wf());
        }
    }
}

/// The request to cancel the subscription to `channel` upstream.
pub open spec fn send_unsub(channel: ChannelId) -> PubsubOutput {
    PubsubOutput::SendUnsub(ChannelUnsub { channel: channel.0 })
}

/// Whether on the way from `s` to `r` the queue has only grown, and an
/// upstream `Unsub` was queued for exactly the channels that `s` held and `r`
/// holds no longer.
pub open spec fn unsub_iff_let_go(s: PubsubState, r: PubsubState) -> bool {
    &&& s.outputs.len() <= r.outputs.len()
    &&& r.outputs.take(s.outputs.len() as int) == s.outputs
    &&& forall|channel: ChannelId|
        s.emitted(r).contains(#[trigger] send_unsub(channel)) <==> has_key(s.channels, channel) && !has_key(
            r.channels,
            channel,
        )
}

/// What one step on the `i`-th channel does, where the step takes the
/// channel from `s.channels[i].1` to `next`: the engine stays well formed; a
/// channel that is unwanted after the step is let go and all others are
/// kept; and `Unsub` goes upstream for that channel exactly if the step
/// itself asked for it.
proof fn lemma_moved(s: PubsubState, i: int, next: ChannelState)
    requires
        0 <= i < s.channels.len(),
        s.rest_except(i),
        s.channels[i].1.outputs.len() == 0,
        next.wf(),
        next.outputs.len() <= 1,
        next.outputs.len() == 1 && next.outputs[0] == ChannelOutput::Unsub <==> next.is_empty()
            && !s.channels[i].1.is_empty(),
        next.is_empty() ==> !s.channels[i].1.is_empty() || s.channels[i].1 == ChannelState::init(),
    ensures
        s.moved(i, next).wf(),
        s.outputs.len() <= s.moved(i, next).outputs.len(),
        s.moved(i, next).outputs.take(s.outputs.len() as int) == s.outputs,
        forall|channel: ChannelId|
            s.emitted(s.moved(i, next)).contains(#[trigger] send_unsub(channel)) <==> channel
                == s.channels[i].0 && next.is_empty() && !s.channels[i].1.is_empty(),
        forall|channel: ChannelId| #[trigger]
            has_key(s.moved(i, next).channels, channel) <==> has_key(s.channels, channel) && !(channel
                == s.channels[i].0 && next.is_empty()),
        s.moved(i, next).channels.len() == if next.is_empty() {
            s.channels.len() - 1
        } else {
            s.channels.len() as int
        },
{
    let r = s.moved(i, next);
    let key = s.channels[i].0;
    let added = handed_on(key, next);
    assert(r.outputs.take(s.outputs.len() as int) =~= s.outputs);
    assert(s.emitted(r) =~= added);
    crate::ordered_map::lemma_position_unique(s.channels, i);
    if next.is_empty() {
        assert(r.channels == s.channels.remove(i));
        assert(s.channels.remove(i) == crate::ordered_map::delete(s.channels, key));
        crate::ordered_map::lemma_delete(s.channels, key);
        assert forall|j: int| 0 <= j < r.channels.len() implies (#[trigger] r.channels[j]).1.wf()
            && !r.channels[j].1.is_empty() && r.channels[j].1.outputs.len() == 0 by {
            let a = if j < i { j } else { j + 1 };
            assert(r.channels[j] == s.channels[a]);
        }
    } else {
        crate::ordered_map::lemma_update_keys(s.channels, i, drained(next));
        assert forall|j: int| 0 <= j < r.channels.len() implies (#[trigger] r.channels[j]).1.wf()
            && !r.channels[j].1.is_empty() && r.channels[j].1.outputs.len() == 0 by {
            if j != i {
                assert(r.channels[j] == s.channels[j]);
            }
        }
    }
    lemma_handed_on(key, next);
}

/// What a tick does to the channels `channels`, all at rest: those it keeps
/// are at rest again and were held before, and `Unsub` is asked for exactly
/// the channels that it lets go.
proof fn lemma_tick(channels: Seq<(ChannelId, ChannelState)>, now: u64)
    requires
        (PubsubState { outputs: Seq::empty(), channels }).wf(),
    ensures
        (PubsubState { outputs: Seq::empty(), channels: kept_at_tick(channels, now) }).wf(),
        forall|channel: ChannelId| #[trigger]
            has_key(kept_at_tick(channels, now), channel) ==> has_key(channels, channel),
        forall|channel: ChannelId|
            asked_at_tick(channels, now).contains(#[trigger] send_unsub(channel)) <==> has_key(
                channels,
                channel,
            ) && !has_key(kept_at_tick(channels, now), channel),
    decreases channels.len(),
{
    let kept = kept_at_tick(channels, now);
    let asked = asked_at_tick(channels, now);
    if channels.len() == 0 {
        assert forall|channel: ChannelId| !asked.contains(#[trigger] send_unsub(channel)) by {}
    } else {
        let n = channels.len() - 1;
        let front = channels.drop_last();
        let (key, state) = channels.last();
        let next = state.on_tick(now);
        let kept_front = kept_at_tick(front, now);
        let asked_front = asked_at_tick(front, now);
        let added = handed_on(key, next);
        assert(channels[n] == (key, state));
        assert forall|j: int| 0 <= j < front.len() implies front[j] == channels[j] by {}
        assert((PubsubState { outputs: Seq::empty(), channels: front }).wf()) by {
            assert forall|a: int, b: int| 0 <= a < b < front.len() implies front[a].0 != front[b].0 by {
                assert(channels[a].0 != channels[b].0);
            }
            assert forall|j: int| 0 <= j < front.len() implies (#[trigger] front[j]).1.wf()
                && !front[j].1.is_empty() && front[j].1.outputs.len() == 0 by {
                assert(front[j] == channels[j]);
            }
        }
        lemma_tick(front, now);
        // the last channel alone
        crate::pubsub::channel::lemma_step_wf(state);
        crate::pubsub::channel::lemma_unsub_iff_emptied(state, now, Connection(NodeId(0), 0), Seq::empty());
        assert(state.emitted(next) =~= next.outputs);
        assert(next.outputs.contains(ChannelOutput::Unsub) <==> next.outputs.len() == 1 && next.outputs[0]
            == ChannelOutput::Unsub) by {
            if next.outputs.contains(ChannelOutput::Unsub) {
                let k = choose|k: int| 0 <= k < next.outputs.len() && next.outputs[k] == ChannelOutput::Unsub;
                assert(k == 0);
            }
        }
        lemma_handed_on(key, next);
        assert(!has_key(front, key)) by {
            if has_key(front, key) {
                let p = position_of(front, key);
                assert(channels[p].0 != channels[n].0);
            }
        }
        assert(has_key(channels, key)) by {
            assert(channels[n].0 == key);
        }
        assert forall|channel: ChannelId| channel != key implies has_key(channels, channel) == has_key(
            front,
            channel,
        ) by {
            if has_key(channels, channel) {
                let p = position_of(channels, channel);
                assert(front[p].0 == channel);
            }
            if has_key(front, channel) {
                let p = position_of(front, channel);
                assert(channels[p].0 == channel);
            }
        }
        let wanted = !ticked(state, now).is_empty();
        assert forall|channel: ChannelId| #[trigger]
            has_key(kept, channel) <==> has_key(kept_front, channel) || (channel == key && wanted) by {
            if wanted {
                assert(kept == kept_front.push((key, ticked(state, now))));
                if has_key(kept, channel) {
                    let p = position_of(kept, channel);
                    if p < kept_front.len() {
                        assert(kept_front[p].0 == channel);
                    }
                }
                if has_key(kept_front, channel) {
                    let p = position_of(kept_front, channel);
                    assert(kept[p].0 == channel);
                }
                assert(kept[kept_front.len() as int].0 == key);
            }
        }
        if wanted {
            assert forall|a: int, b: int| 0 <= a < b < kept.len() implies kept[a].0 != kept[b].0 by {
                if b == kept_front.len() {
                    assert(kept_front[a].0 == kept[a].0);
                    assert(has_key(kept_front, kept[a].0));
                } else {
                    assert(kept_front[a].0 != kept_front[b].0);
                }
            }
            assert forall|j: int| 0 <= j < kept.len() implies (#[trigger] kept[j]).1.wf()
                && !kept[j].1.is_empty() && kept[j].1.outputs.len() == 0 by {
                if j < kept_front.len() {
                    assert(kept[j] == kept_front[j]);
                }
            }
        }
        assert forall|channel: ChannelId|
            asked.contains(#[trigger] send_unsub(channel)) <==> has_key(channels, channel) && !has_key(
                kept,
                channel,
            ) by {
            let e = send_unsub(channel);
            if asked.contains(e) {
                let k = choose|k: int| 0 <= k < asked.len() && asked[k] == e;
                if k < asked_front.len() {
                    assert(asked_front[k] == e);
                    assert(asked_front.contains(send_unsub(channel)));
                } else {
                    assert(added[k - asked_front.len()] == e);
                    assert(added.contains(send_unsub(channel)));
                }
            }
            if asked_front.contains(e) {
                let k = choose|k: int| 0 <= k < asked_front.len() && asked_front[k] == e;
                assert(asked[k] == e);
            }
            if added.contains(e) {
                let k = choose|k: int| 0 <= k < added.len() && added[k] == e;
                assert(asked[asked_front.len() + k] == e);
            }
        }
    }
}

/// Of what a channel hands on, only its own `Unsub` is a request to
/// unsubscribe upstream.
proof fn lemma_handed_on(key: ChannelId, next: ChannelState)
    requires
        next.outputs.len() <= 1,
    ensures
        forall|channel: ChannelId|
            handed_on(key, next).contains(#[trigger] send_unsub(channel)) <==> channel == key
                && next.outputs.len() == 1 && next.outputs[0] == ChannelOutput::Unsub,
{
    let added = handed_on(key, next);
    assert forall|channel: ChannelId|
        added.contains(#[trigger] send_unsub(channel)) <==> channel == key && next.outputs.len() == 1
            && next.outputs[0] == ChannelOutput::Unsub by {
        if next.outputs.len() == 1 {
            match next.outputs[0] {
                ChannelOutput::Sub => {
                    assert(added =~= seq![PubsubOutput::SendSub(ChannelSub { channel: key.0 })]);
                },
                ChannelOutput::Unsub => {
                    assert(added =~= seq![send_unsub(key)]);
                    assert(added[0] == send_unsub(key));
                },
                ChannelOutput::Data { data, remotes, local } => {
                    if added.contains(send_unsub(channel)) {
                        let k = choose|k: int| 0 <= k < added.len() && added[k] == send_unsub(channel);
                        if k < remotes.len() {
                            assert(added[k] == data_for(key, remotes[k], data));
                        }
                    }
                },
            }
        } else {
            assert(added =~= Seq::empty());
        }
    }
}

/// No channel is held that nobody wants, and an upstream `Unsub` is never
/// spurious. Each operation leaves the engine well formed, so that every
/// channel it still holds is wanted by somebody; and it queues an `Unsub`
/// for a channel exactly if it held the channel before and has let it go.
pub proof fn lemma_unsub_iff_channel_let_go(
    s: PubsubState,
    now: u64,
    channel: ChannelId,
    data: Seq<u8>,
    event: InputEvent,
)
    requires
        s.wf(),
    ensures
        s.sub_channel(channel).wf() && unsub_iff_let_go(s, s.sub_channel(channel)),
        s.unsub_channel(channel).wf() && unsub_iff_let_go(s, s.unsub_channel(channel)),
        s.pub_channel(channel, data).wf() && unsub_iff_let_go(s, s.pub_channel(channel, data)),
        s.on_event(now, event).wf() && unsub_iff_let_go(s, s.on_event(now, event)),
        s.on_tick(now).wf() && unsub_iff_let_go(s, s.on_tick(now)),
{
    lemma_tick(s.channels, now);
    assert(s.on_tick(now).outputs.take(s.outputs.len() as int) =~= s.outputs);
    assert(s.emitted(s.on_tick(now)) =~= asked_at_tick(s.channels, now));
    lemma_with_channel(s, channel);
    lemma_step(s, channel, true, ChannelStep::LocalSub);
    lemma_step(s, channel, false, ChannelStep::LocalUnsub);
    lemma_step(s, channel, false, ChannelStep::Relay(data));
    match event {
        InputEvent::RecvSub(msg) => {
            lemma_with_channel(s, ChannelId(msg.msg.channel));
            lemma_step(s, ChannelId(msg.msg.channel), true, ChannelStep::RemoteSub(now, msg.conn));
        },
        InputEvent::RecvData(msg) => {
            lemma_step(s, ChannelId(msg.msg.channel), false, ChannelStep::Relay(msg.msg.data@));
        },
        InputEvent::RecvUnsub(msg) => {
            lemma_step(s, ChannelId(msg.msg.channel), false, ChannelStep::RemoteUnsub(msg.conn));
        },
    }
}

/// After `with_channel` the channel is held, and no channel is held twice
/// if none was; a channel that is new stands last.
proof fn lemma_with_channel(s: PubsubState, channel: ChannelId)
    ensures
        has_key(s.with_channel(channel).channels, channel),
        distinct_keys(s.channels) ==> distinct_keys(s.with_channel(channel).channels),
        distinct_keys(s.channels) && !has_key(s.channels, channel) ==> position_of(
            s.with_channel(channel).channels,
            channel,
        ) == s.channels.len(),
{
    let base = s.with_channel(channel);
    if !has_key(s.channels, channel) {
        let n = s.channels.len() as int;
        assert(base.channels[n].0 == channel);
        if distinct_keys(s.channels) {
            assert forall|a: int, b: int| 0 <= a < b < base.channels.len() implies base.channels[a].0
                != base.channels[b].0 by {
                if b == n {
                    assert(s.channels[a].0 != channel);
                } else {
                    assert(s.channels[a].0 != s.channels[b].0);
                }
            }
            crate::ordered_map::lemma_position_unique(base.channels, n);
        }
    }
}

/// The steps that a single channel can take.
enum ChannelStep {
    LocalSub,
    LocalUnsub,
    RemoteSub(u64, Connection),
    RemoteUnsub(Connection),
    Relay(Seq<u8>),
}

/// The channel `state` after the step `step`.
spec fn stepped(state: ChannelState, step: ChannelStep) -> ChannelState {
    match step {
        ChannelStep::LocalSub => state.on_local_sub(),
        ChannelStep::LocalUnsub => state.on_local_unsub(),
        ChannelStep::RemoteSub(now, from) => state.on_remote_sub(now, from),
        ChannelStep::RemoteUnsub(from) => state.on_remote_unsub(from),
        ChannelStep::Relay(data) => state.relay_data(data),
    }
}

/// The engine after `channel` has taken the step `step`; with `create`, a
/// channel that is not held is taken up first, without it nothing happens
/// to such a channel.
spec fn step_on(s: PubsubState, channel: ChannelId, create: bool, step: ChannelStep) -> PubsubState {
    let base = if create {
        s.with_channel(channel)
    } else {
        s
    };
    if has_key(base.channels, channel) {
        let i = position_of(base.channels, channel);
        base.moved(i, stepped(base.channels[i].1, step))
    } else {
        s
    }
}

/// A step of one channel keeps the engine well formed and sends `Unsub`
/// exactly if it lets the channel go.
proof fn lemma_step(s: PubsubState, channel: ChannelId, create: bool, step: ChannelStep)
    requires
        s.wf(),
        create ==> step is LocalSub || step is RemoteSub,
    ensures
        step_on(s, channel, create, step).wf(),
        unsub_iff_let_go(s, step_on(s, channel, create, step)),
{
    let base = if create {
        s.with_channel(channel)
    } else {
        s
    };
    if has_key(base.channels, channel) {
        let i = position_of(base.channels, channel);
        let fresh = !has_key(s.channels, channel);
        if fresh {
            lemma_with_channel(s, channel);
            assert(base.rest_except(i));
        }
        let before = base.channels[i].1;
        let next = stepped(before, step);
        assert(before.wf());
        crate::pubsub::channel::lemma_unsub_iff_emptied(
            before,
            0,
            match step {
                ChannelStep::RemoteSub(_, from) => from,
                ChannelStep::RemoteUnsub(from) => from,
                _ => Connection(NodeId(0), 0),
            },
            match step {
                ChannelStep::Relay(data) => data,
                _ => Seq::empty(),
            },
        );
        crate::pubsub::channel::lemma_sub_wanted(before);
        crate::pubsub::channel::lemma_step_wf(before);
        assert(before.emitted(next) =~= next.outputs);
        assert(next.outputs.len() == 1 && next.outputs[0] == ChannelOutput::Unsub
            <==> next.outputs.contains(ChannelOutput::Unsub)) by {
            if next.outputs.contains(ChannelOutput::Unsub) {
                let k = choose|k: int| 0 <= k < next.outputs.len() && next.outputs[k] == ChannelOutput::Unsub;
                assert(k == 0);
            }
        }
        lemma_moved(base, i, next);
        let r = base.moved(i, next);
        crate::ordered_map::lemma_position_unique(base.channels, i);
        assert(s.emitted(r) =~= base.emitted(r));
        assert forall|c: ChannelId|
            s.emitted(r).contains(#[trigger] send_unsub(c)) <==> has_key(s.channels, c) && !has_key(
                r.channels,
                c,
            ) by {
            if fresh {
                assert(has_key(base.channels, c) <==> has_key(s.channels, c) || c == channel) by {
                    if has_key(s.channels, c) {
                        let p = position_of(s.channels, c);
                        assert(base.channels[p].0 == c);
                    }
                    if has_key(base.channels, c) {
                        let p = position_of(base.channels, c);
                        if p < s.channels.len() {
                            assert(s.channels[p].0 == c);
                        }
                    }
                }
            }
        }
    } else {
        assert(s.emitted(s) =~= Seq::empty());
        assert(s.outputs.take(s.outputs.len() as int) =~= s.outputs);
    }
}

/// The channel `channel` as the engine holds it, or a channel that nobody
/// wants where it holds none.
pub open spec fn channel_of(s: PubsubState, channel: ChannelId) -> ChannelState {
    match crate::ordered_map::lookup(s.channels, channel) {
        Some(state) => state,
        None => ChannelState::init(),
    }
}

/// The engine after `channel` has moved on to `next`, read as a map: what
/// the channel then asks for is queued, and the channel is bound to what is
/// left of it, or unbound if nobody wants it any more.
pub open spec fn settled(s: PubsubState, channel: ChannelId, next: ChannelState) -> PubsubState {
    PubsubState {
        outputs: s.outputs + handed_on(channel, next),
        channels: if drained(next).is_empty() {
            crate::ordered_map::delete(s.channels, channel)
        } else {
            crate::ordered_map::put(s.channels, channel, drained(next))
        },
    }
}

/// The operations on one channel, read as operations on a map from channels
/// to their states: each takes the channel as it is held, or an unwanted one
/// if it is not held, lets it take its step, and binds it to the outcome.
pub proof fn lemma_steps_as_map(s: PubsubState, now: u64, channel: ChannelId, conn: Connection, data: Seq<u8>)
    requires
        s.wf(),
    ensures
        s.sub_channel(channel) == settled(s, channel, channel_of(s, channel).on_local_sub()),
        s.unsub_channel(channel) == settled(s, channel, channel_of(s, channel).on_local_unsub()),
        s.pub_channel(channel, data) == settled(s, channel, channel_of(s, channel).relay_data(data)),
        s.on_event(
            now,
            InputEvent::RecvSub(NetworkMsg { conn, msg: ChannelSub { channel: channel.0 } }),
        ) == settled(s, channel, channel_of(s, channel).on_remote_sub(now, conn)),
        s.on_event(
            now,
            InputEvent::RecvUnsub(NetworkMsg { conn, msg: ChannelUnsub { channel: channel.0 } }),
        ) == settled(s, channel, channel_of(s, channel).on_remote_unsub(conn)),
{
    let held = channel_of(s, channel);
    crate::ordered_map::lemma_lookup_index(s.channels, channel);
    crate::pubsub::channel::lemma_sub_wanted(held);
    crate::pubsub::channel::lemma_step_wf(held);
    if has_key(s.channels, channel) {
        let i = position_of(s.channels, channel);
        assert(s.with_channel(channel) == s);
    } else {
        let base = s.with_channel(channel);
        let n = s.channels.len() as int;
        lemma_with_channel(s, channel);
        assert forall|next: ChannelState| !next.is_empty() implies #[trigger] base.moved(n, next) == settled(
            s,
            channel,
            next,
        ) by {
            assert(base.channels.update(n, (channel, drained(next))) =~= s.channels.push(
                (channel, drained(next)),
            ));
        }
        assert(settled(s, channel, held.on_local_unsub()) == s) by {
            assert(s.outputs + Seq::<PubsubOutput>::empty() =~= s.outputs);
        }
        assert(settled(s, channel, held.relay_data(data)) == s) by {
            assert(s.outputs + Seq::<PubsubOutput>::empty() =~= s.outputs);
        }
        assert(settled(s, channel, held.on_remote_unsub(conn)) == s) by {
            assert(s.outputs + Seq::<PubsubOutput>::empty() =~= s.outputs);
            assert(!has_key(held.remote_subs, conn));
        }
    }
}

/// To subscribe again changes nothing: a second `sub_channel` for a channel
/// leaves the state as the first left it, so that no further `Sub` goes
/// upstream before the subscription is cancelled or the clock is moved on.
pub proof fn lemma_sub_channel_idempotent(s: PubsubState, channel: ChannelId)
    requires
        s.wf(),
    ensures
        s.sub_channel(channel).sub_channel(channel) == s.sub_channel(channel),
{
    lemma_step(s, channel, true, ChannelStep::LocalSub);
    let base = s.with_channel(channel);
    let i = position_of(base.channels, channel);
    lemma_with_channel(s, channel);
    crate::ordered_map::lemma_lookup_index(base.channels, channel);
    let once = s.sub_channel(channel);
    let next = base.channels[i].1.on_local_sub();
    assert(once.channels == base.channels.update(i, (channel, drained(next))));
    assert(once.channels[i].0 == channel);
    crate::ordered_map::lemma_position_unique(once.channels, i);
    let twice = once.sub_channel(channel);
    assert(once.with_channel(channel) == once);
    assert(once.channels[i].1.on_local_sub() == once.channels[i].1);
    assert(twice.channels =~= once.channels);
    assert(twice.outputs =~= once.outputs);
}

/// What is in the queue has no part in `sub_channel`: with another queue in
/// its place, the channels come out the same, and the same events are added.
pub proof fn lemma_sub_channel_queue(s: PubsubState, channel: ChannelId, outputs: Seq<PubsubOutput>)
    ensures
        (PubsubState { outputs, ..s }).sub_channel(channel) == (PubsubState {
            outputs: outputs + s.emitted(s.sub_channel(channel)),
            ..s.sub_channel(channel)
        }),
{
    let t = PubsubState { outputs, ..s };
    let base = s.with_channel(channel);
    let i = position_of(base.channels, channel);
    let added = handed_on(channel, base.channels[i].1.on_local_sub());
    assert(t.with_channel(channel).channels == base.channels);
    lemma_with_channel(s, channel);
    crate::ordered_map::lemma_lookup_index(base.channels, channel);
    assert(s.sub_channel(channel).outputs == s.outputs + added);
    assert(s.emitted(s.sub_channel(channel)) =~= added);
}

} // verus!
