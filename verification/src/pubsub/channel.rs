use std::collections::VecDeque;
use vstd::prelude::*;

use crate::message::views;
use crate::network::Connection;
use crate::ordered_map::{delete, distinct_keys, has_key, put, OrderedMap};

verus! {

/// Time, in milliseconds, for which a neighbour's subscription holds without
/// being renewed.
pub const SUB_TIMEOUT_MS: u64 = 5000;

/// The subscription of one neighbour.
#[derive(Debug, Clone, Copy, PartialEq, Eq)]
pub struct RemoteSub {
    /// When the neighbour last subscribed, in milliseconds.
    pub last_sub: u64,
}

/// What a channel wants done.
#[derive(Debug, Clone, PartialEq, Eq)]
pub enum OutputEvent {
    /// Subscribe upstream, or renew the subscription there.
    Sub,
    /// Hand `data` to each of `remotes`, and to the local subscriber if `local`.
    Data { data: Vec<u8>, remotes: Vec<Connection>, local: bool },
    /// Cancel the subscription upstream.
    Unsub,
}

/// An `OutputEvent` with its contents as sequences.
pub enum ChannelOutput {
    Sub,
    Data { data: Seq<u8>, remotes: Seq<Connection>, local: bool },
    Unsub,
}

impl View for OutputEvent {
    type V = ChannelOutput;

    open spec fn view(&self) -> ChannelOutput {
        match self {
            OutputEvent::Sub => ChannelOutput::Sub,
            OutputEvent::Data { data, remotes, local } => ChannelOutput::Data {
                data: data@,
                remotes: remotes@,
                local: *local,
            },
            OutputEvent::Unsub => ChannelOutput::Unsub,
        }
    }
}

/// Whether a subscription made at `last_sub` has run out at `now`.
pub open spec fn lapsed(last_sub: u64, now: u64) -> bool {
    last_sub <= now - SUB_TIMEOUT_MS
}

/// The subscriptions of `subs` that still hold at `now`, in their order.
pub open spec fn live_subs(subs: Seq<(Connection, RemoteSub)>, now: u64) -> Seq<(Connection, RemoteSub)>
    decreases subs.len(),
{
    if subs.len() == 0 {
        subs
    } else if lapsed(subs.last().1.last_sub, now) {
        live_subs(subs.drop_last(), now)
    } else {
        live_subs(subs.drop_last(), now).push(subs.last())
    }
}

/// What `live_subs` keeps: the subscriptions of `subs` that have not run
/// out, all of them and no others, with their keys still distinct.
pub proof fn lemma_live_subs(subs: Seq<(Connection, RemoteSub)>, now: u64)
    ensures
        forall|i: int|
            0 <= i < live_subs(subs, now).len() ==> !lapsed(
                (#[trigger] live_subs(subs, now)[i]).1.last_sub,
                now,
            ) && subs.contains(live_subs(subs, now)[i]),
        forall|i: int|
            0 <= i < subs.len() && !lapsed((#[trigger] subs[i]).1.last_sub, now) ==> live_subs(
                subs,
                now,
            ).contains(subs[i]),
        distinct_keys(subs) ==> distinct_keys(live_subs(subs, now)),
        live_subs(subs, now).len() <= subs.len(),
    decreases subs.len(),
{
    if subs.len() > 0 {
        let front = subs.drop_last();
        lemma_live_subs(front, now);
        let kept = live_subs(subs, now);
        let kept_front = live_subs(front, now);
        assert forall|i: int|
            0 <= i < subs.len() && !lapsed((#[trigger] subs[i]).1.last_sub, now) implies kept.contains(
            subs[i],
        ) by {
            if i < front.len() {
                assert(front[i] == subs[i]);
                let j = choose|j: int| 0 <= j < kept_front.len() && kept_front[j] == front[i];
                assert(kept[j] == subs[i]);
            } else {
                assert(kept[kept.len() - 1] == subs[i]);
            }
        }
        assert forall|i: int| 0 <= i < kept.len() implies !lapsed((#[trigger] kept[i]).1.last_sub, now)
            && subs.contains(kept[i]) by {
            if i < kept_front.len() {
                let j = choose|j: int| 0 <= j < front.len() && front[j] == kept_front[i];
                assert(subs[j] == kept[i]);
            } else {
                assert(subs[subs.len() - 1] == kept[i]);
            }
        }
        if distinct_keys(subs) {
            assert(distinct_keys(front));
            assert forall|i: int, j: int| 0 <= i < j < kept.len() implies kept[i].0 != kept[j].0 by {
                if j >= kept_front.len() {
                    let a = choose|a: int| 0 <= a < front.len() && front[a] == kept_front[i];
                    assert(subs[a].0 != subs[subs.len() - 1].0);
                }
            }
        }
    }
}

/// The state of one channel, as a mathematical value.
pub struct ChannelState {
    pub local_sub: bool,
    pub remote_subs: Seq<(Connection, RemoteSub)>,
    pub outputs: Seq<ChannelOutput>,
}

impl ChannelState {
    /// No neighbour is subscribed twice.
    pub open spec fn wf(self) -> bool {
        distinct_keys(self.remote_subs)
    }

    /// The state of a channel that nobody wants.
    pub open spec fn init() -> Self {
        ChannelState { local_sub: false, remote_subs: Seq::empty(), outputs: Seq::empty() }
    }

    /// Nobody is interested in the channel: neither this node nor a neighbour.
    pub open spec fn is_empty(self) -> bool {
        !self.local_sub && self.remote_subs.len() == 0
    }

    /// The state with `event` added to the queue.
    pub open spec fn emit(self, event: ChannelOutput) -> Self {
        ChannelState { outputs: self.outputs.push(event), ..self }
    }

    /// The neighbours that are subscribed, in the order in which they came.
    pub open spec fn remotes(self) -> Seq<Connection> {
        Seq::new(self.remote_subs.len(), |i: int| self.remote_subs[i].0)
    }

    /// Drops the subscriptions that have run out. A channel that is still
    /// wanted renews its own subscription upstream; one that has just lost
    /// its last subscriber cancels it.
    pub open spec fn on_tick(self, now: u64) -> Self {
        let s = ChannelState { remote_subs: live_subs(self.remote_subs, now), ..self };
        if !s.is_empty() {
            s.emit(ChannelOutput::Sub)
        } else if !self.is_empty() {
            s.emit(ChannelOutput::Unsub)
        } else {
            s
        }
    }

    /// Data goes to all who are subscribed, if anybody is.
    pub open spec fn relay_data(self, data: Seq<u8>) -> Self {
        if !self.is_empty() {
            self.emit(ChannelOutput::Data { data, remotes: self.remotes(), local: self.local_sub })
        } else {
            self
        }
    }

    /// This node subscribes. The first subscriber of all makes the channel
    /// subscribe upstream.
    pub open spec fn on_local_sub(self) -> Self {
        if self.local_sub {
            self
        } else {
            let s = ChannelState { local_sub: true, ..self };
            if self.remote_subs.len() == 0 {
                s.emit(ChannelOutput::Sub)
            } else {
                s
            }
        }
    }

    /// This node cancels. The last subscriber of all makes the channel
    /// cancel upstream.
    pub open spec fn on_local_unsub(self) -> Self {
        if !self.local_sub {
            self
        } else {
            let s = ChannelState { local_sub: false, ..self };
            if self.remote_subs.len() == 0 {
                s.emit(ChannelOutput::Unsub)
            } else {
                s
            }
        }
    }

    /// The neighbour `from` subscribes, or renews its subscription. The
    /// first subscriber of all makes the channel subscribe upstream.
    pub open spec fn on_remote_sub(self, now: u64, from: Connection) -> Self {
        let s = ChannelState {
            remote_subs: put(self.remote_subs, from, RemoteSub { last_sub: now }),
            ..self
        };
        if self.is_empty() {
            s.emit(ChannelOutput::Sub)
        } else {
            s
        }
    }

    /// The neighbour `from` cancels. The last subscriber of all makes the
    /// channel cancel upstream.
    pub open spec fn on_remote_unsub(self, from: Connection) -> Self {
        let s = ChannelState { remote_subs: delete(self.remote_subs, from), ..self };
        if has_key(self.remote_subs, from) && s.is_empty() {
            s.emit(ChannelOutput::Unsub)
        } else {
            s
        }
    }

    /// The events that came to the queue on the way from `self` to `next`.
    pub open spec fn emitted(self, next: ChannelState) -> Seq<ChannelOutput> {
        next.outputs.skip(self.outputs.len() as int)
    }
}

/// Who is subscribed to one channel: this node itself, and the neighbours
/// that asked for the channel and renewed their request in time.
pub struct PubsubChannel {
    local_sub: bool,
    remote_subs: OrderedMap<Connection, RemoteSub>,
    outputs: VecDeque<OutputEvent>,
}

impl View for PubsubChannel {
    type V = ChannelState;

    closed spec fn view(&self) -> ChannelState {
        ChannelState {
            local_sub: self.local_sub,
            remote_subs: self.remote_subs@,
            outputs: views(self.outputs@),
        }
    }
}

impl PubsubChannel {
    /// The channel is well formed when its state is.
    pub open spec fn wf(&self) -> bool {
        self@.wf()
    }

    /// A channel that nobody wants.
    pub fn new() -> (channel: Self)
        ensures
            channel.wf(),
            channel@ == ChannelState::init(),
    {
        let channel = PubsubChannel {
            local_sub: false,
            remote_subs: OrderedMap::new(),
            outputs: VecDeque::new(),
        };
        assert(channel@.outputs =~= Seq::empty());
        channel
    }

    /// Whether nobody is interested in the channel.
    pub fn is_empty(&self) -> (b: bool)
        ensures
            b == self@.is_empty(),
    {
        !self.local_sub && self.remote_subs.is_empty()
    }

    /// The clock has reached `now_ms`: subscriptions that were not renewed lapse.
    pub fn on_tick(&mut self, now_ms: u64)
        requires
            old(self).wf(),
        ensures
            final(self).wf(),
            final(self)@ == old(self)@.on_tick(now_ms),
    {
        let was_empty = self.is_empty();
        let ghost subs = self.remote_subs@;
        let ghost done: int = 0;
        let mut i: usize = 0;
        proof {
            assert(subs.take(0) =~= Seq::empty());
            assert(subs.skip(0) =~= subs);
        }
        while i < self.remote_subs.len()
            invariant
                0 <= done <= subs.len(),
                subs == old(self)@.remote_subs,
                self.remote_subs.wf(),
                self.remote_subs@ =~= live_subs(subs.take(done), now_ms) + subs.skip(done),
                i == live_subs(subs.take(done), now_ms).len(),
                self.local_sub == old(self).local_sub,
                self.outputs == old(self).outputs,
            decreases subs.len() - done,
        {
            let sub = *self.remote_subs.value_at(i);
            proof {
                assert(subs.take(done + 1).drop_last() =~= subs.take(done));
                assert(subs.take(done + 1).last() == subs[done]);
                assert(subs.skip(done)[0] == subs[done]);
                assert(subs.skip(done + 1) =~= subs.skip(done).skip(1));
            }
            let gone = now_ms >= SUB_TIMEOUT_MS && sub.last_sub <= now_ms - SUB_TIMEOUT_MS;
            if gone {
                self.remote_subs.remove_at(i);
            } else {
                i += 1;
            }
            proof {
                done = done + 1;
            }
        }
        proof {
            assert(subs.take(done) =~= subs);
        }
        if !self.is_empty() {
            self.push(OutputEvent::Sub);
        } else if !was_empty {
            self.push(OutputEvent::Unsub);
        }
    }

    /// Passes `data` on to whoever is subscribed.
    pub fn relay_data(&mut self, data: Vec<u8>)
        requires
            old(self).wf(),
        ensures
            final(self).wf(),
            final(self)@ == old(self)@.relay_data(data@),
    {
        let mut remotes: Vec<Connection> = Vec::new();
        let mut i: usize = 0;
        while i < self.remote_subs.len()
            invariant
                i <= self.remote_subs@.len(),
                remotes@.len() == i,
                forall|j: int| 0 <= j < i ==> remotes@[j] == self.remote_subs@[j].0,
            decreases self.remote_subs@.len() - i,
        {
            remotes.push(self.remote_subs.key_at(i));
            i += 1;
        }
        assert(remotes@ =~= self@.remotes());
        if remotes.len() > 0 || self.local_sub {
            let local = self.local_sub;
            self.push(OutputEvent::Data { data, remotes, local });
        }
    }

    /// This node subscribes.
    pub fn on_local_sub(&mut self)
        requires
            old(self).wf(),
        ensures
            final(self).wf(),
            final(self)@ == old(self)@.on_local_sub(),
    {
        if !self.local_sub {
            self.local_sub = true;
            if self.remote_subs.is_empty() {
                self.push(OutputEvent::Sub);
            }
        }
    }

    /// This node cancels its subscription.
    pub fn on_local_unsub(&mut self)
        requires
            old(self).wf(),
        ensures
            final(self).wf(),
            final(self)@ == old(self)@.on_local_unsub(),
    {
        if self.local_sub {
            self.local_sub = false;
            if self.remote_subs.is_empty() {
                self.push(OutputEvent::Unsub);
            }
        }
    }

    /// A neighbour subscribes, or renews its subscription.
    pub fn on_remote_sub(&mut self, now_ms: u64, from: Connection)
        requires
            old(self).wf(),
        ensures
            final(self).wf(),
            final(self)@ == old(self)@.on_remote_sub(now_ms, from),
    {
        if !self.local_sub && self.remote_subs.is_empty() {
            self.push(OutputEvent::Sub);
        }
        self.remote_subs.insert(from, RemoteSub { last_sub: now_ms });
    }

    /// A neighbour cancels its subscription.
    pub fn on_remote_unsub(&mut self, _now_ms: u64, from: Connection)
        requires
            old(self).wf(),
        ensures
            final(self).wf(),
            final(self)@ == old(self)@.on_remote_unsub(from),
    {
        if self.remote_subs.remove(&from).is_some() && self.remote_subs.is_empty() && !self.local_sub {
            self.push(OutputEvent::Unsub);
        }
    }

    /// The next thing that the channel wants done, oldest first.
    pub fn pop_output(&mut self) -> (event: Option<OutputEvent>)
        requires
            old(self).wf(),
        ensures
            final(self).wf(),
            old(self)@.outputs.len() == 0 ==> event is None && final(self)@ == old(self)@,
            old(self)@.outputs.len() > 0 ==> event is Some && event->0@ == old(self)@.outputs[0]
                && final(self)@ == (ChannelState { outputs: old(self)@.outputs.skip(1), ..old(self)@ }),
    {
        let event = self.outputs.pop_front();
        proof {
            if old(self)@.outputs.len() > 0 {
                assert(self@.outputs =~= old(self)@.outputs.skip(1));
            } else {
                assert(self@.outputs =~= old(self)@.outputs);
            }
        }
        event
    }

    /// Queues `event`.
    fn push(&mut self, event: OutputEvent)
        ensures
            final(self)@ == old(self)@.emit(event@),
    {
        self.outputs.push_back(event);
        assert(self@.outputs =~= old(self)@.outputs.push(event@));
    }
}

/// A channel to which somebody has just subscribed is wanted, keeps its
/// subscriptions distinct, and has queued one event at most.
pub proof fn lemma_sub_wanted(s: ChannelState)
    requires
        s.wf(),
    ensures
        !s.on_local_sub().is_empty(),
        s.on_local_sub().outputs.len() <= s.outputs.len() + 1,
        forall|now: u64, from: Connection| !(#[trigger] s.on_remote_sub(now, from)).is_empty(),
        forall|now: u64, from: Connection|
            (#[trigger] s.on_remote_sub(now, from)).outputs.len() <= s.outputs.len() + 1,
{
    assert forall|now: u64, from: Connection| !(#[trigger] s.on_remote_sub(now, from)).is_empty() by {
        crate::ordered_map::lemma_put(s.remote_subs, from, RemoteSub { last_sub: now });
        let t = put(s.remote_subs, from, RemoteSub { last_sub: now });
        if t.len() == 0 {
            assert(has_key(t, from));
        }
    }
}

/// Each step leaves the subscriptions of a channel distinct and queues one
/// event at most; a step that leaves the channel unwanted found it wanted,
/// unless it did nothing at all.
pub proof fn lemma_step_wf(s: ChannelState)
    requires
        s.wf(),
    ensures
        s.on_local_sub().wf(),
        s.on_local_unsub().wf(),
        s.on_local_unsub().outputs.len() <= s.outputs.len() + 1,
        forall|now: u64| (#[trigger] s.on_tick(now)).wf() && s.on_tick(now).outputs.len() <= s.outputs.len()
            + 1,
        forall|now: u64, from: Connection| (#[trigger] s.on_remote_sub(now, from)).wf(),
        forall|from: Connection|
            (#[trigger] s.on_remote_unsub(from)).wf() && s.on_remote_unsub(from).outputs.len()
                <= s.outputs.len() + 1,
        forall|data: Seq<u8>|
            (#[trigger] s.relay_data(data)).wf() && s.relay_data(data).outputs.len() <= s.outputs.len()
                + 1 && s.relay_data(data).is_empty() == s.is_empty(),
        s.on_local_unsub().is_empty() ==> !s.is_empty() || s.on_local_unsub() == s,
        forall|from: Connection|
            (#[trigger] s.on_remote_unsub(from)).is_empty() ==> !s.is_empty() || s.on_remote_unsub(from)
                == s,
{
    assert forall|now: u64| (#[trigger] s.on_tick(now)).wf() && s.on_tick(now).outputs.len()
        <= s.outputs.len() + 1 by {
        lemma_live_subs(s.remote_subs, now);
    }
    assert forall|now: u64, from: Connection| (#[trigger] s.on_remote_sub(now, from)).wf() by {
        crate::ordered_map::lemma_put(s.remote_subs, from, RemoteSub { last_sub: now });
    }
    assert forall|from: Connection|
        (#[trigger] s.on_remote_unsub(from)).wf() && s.on_remote_unsub(from).outputs.len()
            <= s.outputs.len() + 1 by {
        crate::ordered_map::lemma_delete(s.remote_subs, from);
    }
    assert forall|from: Connection|
        (#[trigger] s.on_remote_unsub(from)).is_empty() implies !s.is_empty() || s.on_remote_unsub(from)
        == s by {
        if s.is_empty() {
            assert(!has_key(s.remote_subs, from));
        }
    }
}

/// An upstream `Unsub` comes exactly when a channel loses its last
/// subscriber: each operation emits one if it takes the channel from wanted
/// to unwanted, and none otherwise.
pub proof fn lemma_unsub_iff_emptied(s: ChannelState, now: u64, from: Connection, data: Seq<u8>)
    requires
        s.wf(),
    ensures
        s.emitted(s.on_tick(now)).contains(ChannelOutput::Unsub) <==> !s.is_empty() && s.on_tick(
            now,
        ).is_empty(),
        s.emitted(s.on_local_sub()).contains(ChannelOutput::Unsub) <==> !s.is_empty()
            && s.on_local_sub().is_empty(),
        s.emitted(s.on_local_unsub()).contains(ChannelOutput::Unsub) <==> !s.is_empty()
            && s.on_local_unsub().is_empty(),
        s.emitted(s.on_remote_sub(now, from)).contains(ChannelOutput::Unsub) <==> !s.is_empty()
            && s.on_remote_sub(now, from).is_empty(),
        s.emitted(s.on_remote_unsub(from)).contains(ChannelOutput::Unsub) <==> !s.is_empty()
            && s.on_remote_unsub(from).is_empty(),
        s.emitted(s.relay_data(data)).contains(ChannelOutput::Unsub) <==> !s.is_empty()
            && s.relay_data(data).is_empty(),
{
    lemma_emitted(s, ChannelOutput::Sub);
    lemma_emitted(s, ChannelOutput::Unsub);
    lemma_emitted(s, ChannelOutput::Data { data, remotes: s.remotes(), local: s.local_sub });
    lemma_emitted(ChannelState { local_sub: true, ..s }, ChannelOutput::Sub);
    lemma_emitted(ChannelState { local_sub: false, ..s }, ChannelOutput::Unsub);
    // tick
    let live = ChannelState { remote_subs: live_subs(s.remote_subs, now), ..s };
    lemma_live_subs(s.remote_subs, now);
    lemma_emitted(live, ChannelOutput::Sub);
    lemma_emitted(live, ChannelOutput::Unsub);
    assert(s.emitted(live) =~= Seq::empty());
    if !live.is_empty() {
        assert(s.emitted(s.on_tick(now)) =~= seq![ChannelOutput::Sub]);
    } else if !s.is_empty() {
        assert(s.emitted(s.on_tick(now)) =~= seq![ChannelOutput::Unsub]);
        assert(seq![ChannelOutput::Unsub][0] == ChannelOutput::Unsub);
    }
    // a neighbour subscribes
    let put_s = ChannelState { remote_subs: put(s.remote_subs, from, RemoteSub { last_sub: now }), ..s };
    lemma_emitted(put_s, ChannelOutput::Sub);
    crate::ordered_map::lemma_put(s.remote_subs, from, RemoteSub { last_sub: now });
    assert(put_s.remote_subs.len() > 0) by {
        if put_s.remote_subs.len() == 0 {
            assert(has_key(put_s.remote_subs, from));
        }
    }
    assert(s.emitted(put_s) =~= Seq::empty());
    // a neighbour unsubscribes
    let del_s = ChannelState { remote_subs: delete(s.remote_subs, from), ..s };
    lemma_emitted(del_s, ChannelOutput::Unsub);
    assert(s.emitted(del_s) =~= Seq::empty());
    if has_key(s.remote_subs, from) {
        assert(s.remote_subs.len() > 0);
        if del_s.is_empty() {
            assert(s.emitted(s.on_remote_unsub(from)) =~= seq![ChannelOutput::Unsub]);
            assert(seq![ChannelOutput::Unsub][0] == ChannelOutput::Unsub);
        }
    } else {
        assert(del_s == s);
    }
}

/// What a state has emitted since a state with the same queue is nothing,
/// and after one `emit` it is that one event.
proof fn lemma_emitted(s: ChannelState, event: ChannelOutput)
    ensures
        forall|t: ChannelState| t.outputs == s.outputs ==> (#[trigger] s.emitted(t)) =~= Seq::empty(),
        forall|t: ChannelState|
            t.outputs == s.outputs ==> (#[trigger] t.emitted(s.emit(event))) =~= seq![event],
{
}

} // verus!
