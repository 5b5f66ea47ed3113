use std::collections::{HashMap, VecDeque};
use vstd::prelude::*;

use crate::addr::{ChannelId, NodeId};
use crate::message::{views, MessageType, MessageView, RouterSync};
use crate::network::{Connection, ConnectionStats, NetworkMsg, NetworkMsgView};
use crate::pubsub::{Pubsub, PubsubOutput, PubsubState};
use crate::router::{NextHop, Router, RouterState};

verus! {

broadcast use vstd::std_specs::hash::group_hash_axioms;

/// What the host tells the node.
pub enum InputEvent {
    /// A message came in over a connection.
    Recv(NetworkMsg<MessageType>),
    /// A connection was measured.
    Stats(NetworkMsg<ConnectionStats>),
}

/// What the node asks of the host.
#[derive(Debug, Clone, PartialEq, Eq)]
pub enum OutputEvent {
    /// Send the message over the connection.
    Send(NetworkMsg<MessageType>),
    /// Data has arrived on a channel to which this node is subscribed.
    OnChannelData(ChannelId, Vec<u8>),
}

/// An `OutputEvent` with its contents taken by their views.
pub enum RunnerOutput {
    Send(NetworkMsgView<MessageView>),
    OnChannelData(ChannelId, Seq<u8>),
}

impl View for OutputEvent {
    type V = RunnerOutput;

    open spec fn view(&self) -> RunnerOutput {
        match self {
            OutputEvent::Send(msg) => RunnerOutput::Send(msg@),
            OutputEvent::OnChannelData(channel, data) => RunnerOutput::OnChannelData(*channel, data@),
        }
    }
}

/// The request to send `msg` over `conn`.
pub open spec fn send(conn: Connection, msg: MessageView) -> RunnerOutput {
    RunnerOutput::Send(NetworkMsgView { conn, msg })
}

/// The state of a node, as a mathematical value.
pub struct RunnerState {
    pub router: RouterState,
    pub pubsub: PubsubState,
    /// For each channel that is subscribed upstream, the connection over
    /// which it was subscribed.
    pub pinned: Map<u32, Connection>,
    pub outputs: Seq<RunnerOutput>,
}

impl RunnerState {
    /// The engines are well formed.
    pub open spec fn wf_parts(self) -> bool {
        &&& self.router.wf()
        &&& self.pubsub.wf()
    }

    /// The parts are well formed, and all that the pubsub engine has asked
    /// for has been carried out.
    pub open spec fn wf(self) -> bool {
        &&& self.wf_parts()
        &&& self.pubsub.outputs.len() == 0
    }

    /// The state of a node that has just been started.
    pub open spec fn init(node: NodeId) -> Self {
        RunnerState {
            router: RouterState::init(node),
            pubsub: PubsubState::init(),
            pinned: Map::empty(),
            outputs: Seq::empty(),
        }
    }

    /// The state with `event` added to the queue.
    pub open spec fn emit(self, event: RunnerOutput) -> Self {
        RunnerState { outputs: self.outputs.push(event), ..self }
    }

    /// Where a subscription to `channel` goes: to the connection that is
    /// pinned for the channel, else to the router's next hop if that is a
    /// neighbour.
    pub open spec fn upstream(self, channel: ChannelId) -> Option<Connection> {
        if self.pinned.contains_key(channel.0) {
            Some(self.pinned[channel.0])
        } else {
            match self.router.next_hop_for(channel) {
                Some(NextHop::Remote(conn)) => Some(conn),
                _ => None,
            }
        }
    }

    /// Carries out one request of the pubsub engine. A subscription goes
    /// upstream and pins the connection it took; a cancellation goes over the
    /// pinned connection and unpins it, and is dropped where none is pinned;
    /// data goes where the engine says.
    pub open spec fn forward(self, event: PubsubOutput) -> Self {
        match event {
            PubsubOutput::SendSub(sub) => match self.upstream(ChannelId(sub.channel)) {
                Some(conn) => RunnerState {
                    pinned: self.pinned.insert(sub.channel, conn),
                    ..self
                }.emit(send(conn, MessageView::ChannelSub(sub))),
                None => self,
            },
            PubsubOutput::SendUnsub(unsub) => if self.pinned.contains_key(unsub.channel) {
                RunnerState { pinned: self.pinned.remove(unsub.channel), ..self }.emit(
                    send(self.pinned[unsub.channel], MessageView::ChannelUnsub(unsub)),
                )
            } else {
                self
            },
            PubsubOutput::SendData(msg) => self.emit(send(msg.conn, MessageView::ChannelData(msg.msg))),
            PubsubOutput::OnChannelData(channel, data) => self.emit(
                RunnerOutput::OnChannelData(channel, data),
            ),
        }
    }

    /// Carries out all that the pubsub engine has asked for, oldest first.
    pub open spec fn pump_pubsub(self) -> Self
        decreases self.pubsub.outputs.len(),
    {
        if self.pubsub.outputs.len() == 0 {
            self
        } else {
            let rest = RunnerState {
                pubsub: PubsubState { outputs: self.pubsub.outputs.skip(1), ..self.pubsub },
                ..self
            };
            rest.forward(self.pubsub.outputs[0]).pump_pubsub()
        }
    }

    /// Queues the router's advertisements, one for each neighbour, with the
    /// channels hosted here in the order of `hosted`.
    pub open spec fn pump_router(self, hosted: Seq<u32>) -> Self {
        let syncs = self.router.create_sync(hosted);
        RunnerState {
            outputs: self.outputs + Seq::new(
                syncs.len(),
                |i: int| send(syncs[i].conn, MessageView::RouterSync(syncs[i].msg)),
            ),
            ..self
        }
    }

    /// The clock has reached `now`: the pubsub engine lets subscriptions
    /// lapse, the router's advertisements are queued, and then what the
    /// pubsub engine has asked for is carried out.
    pub open spec fn on_tick(self, now: u64, hosted: Seq<u32>) -> Self {
        RunnerState { pubsub: self.pubsub.on_tick(now), ..self }.pump_router(hosted).pump_pubsub()
    }

    /// Whether `event` can be handled: an advertisement must be one that the
    /// router can take in.
    pub open spec fn accepts(self, event: InputEvent) -> bool {
        match event {
            InputEvent::Recv(msg) => match msg.msg {
                MessageType::RouterSync(sync) => self.router.accepts_sync(msg.conn, sync@),
                _ => true,
            },
            InputEvent::Stats(_) => true,
        }
    }

    /// A measurement or an advertisement goes to the router; a subscription,
    /// a cancellation or data goes to the pubsub engine, and what that asks
    /// for is carried out.
    pub open spec fn on_msg(self, now: u64, event: InputEvent) -> Self {
        match event {
            InputEvent::Stats(msg) => RunnerState {
                router: self.router.on_event(now, crate::router::InputEvent::ConnectionStats(msg)),
                ..self
            },
            InputEvent::Recv(msg) => match msg.msg {
                MessageType::RouterSync(sync) => RunnerState {
                    router: self.router.on_event(
                        now,
                        crate::router::InputEvent::Recv(NetworkMsg { conn: msg.conn, msg: sync }),
                    ),
                    ..self
                },
                MessageType::ChannelSub(sub) => RunnerState {
                    pubsub: self.pubsub.on_event(
                        now,
                        crate::pubsub::InputEvent::RecvSub(NetworkMsg { conn: msg.conn, msg: sub }),
                    ),
                    ..self
                }.pump_pubsub(),
                MessageType::ChannelUnsub(unsub) => RunnerState {
                    pubsub: self.pubsub.on_event(
                        now,
                        crate::pubsub::InputEvent::RecvUnsub(NetworkMsg { conn: msg.conn, msg: unsub }),
                    ),
                    ..self
                }.pump_pubsub(),
                MessageType::ChannelData(data) => RunnerState {
                    pubsub: self.pubsub.on_event(
                        now,
                        crate::pubsub::InputEvent::RecvData(NetworkMsg { conn: msg.conn, msg: data }),
                    ),
                    ..self
                }.pump_pubsub(),
            },
        }
    }

    /// This node subscribes to `channel`.
    pub open spec fn subscribe(self, channel: ChannelId) -> Self {
        RunnerState { pubsub: self.pubsub.sub_channel(channel), ..self }.pump_pubsub()
    }

    /// This node cancels its subscription to `channel`.
    pub open spec fn unsubscribe(self, channel: ChannelId) -> Self {
        RunnerState { pubsub: self.pubsub.unsub_channel(channel), ..self }.pump_pubsub()
    }

    /// This node publishes `data` on `channel`.
    pub open spec fn publish(self, channel: ChannelId, data: Seq<u8>) -> Self {
        RunnerState { pubsub: self.pubsub.pub_channel(channel, data), ..self }.pump_pubsub()
    }
}

/// One node of the overlay: the router and the pubsub engine, and between
/// them the one place that knows both. The host feeds it the clock and what
/// comes in, and takes from it what is to go out.
pub struct P2pStreamRunner {
    router: Router,
    pubsub: Pubsub,
    remote_channels: HashMap<u32, Connection>,
    outputs: VecDeque<OutputEvent>,
}

impl View for P2pStreamRunner {
    type V = RunnerState;

    closed spec fn view(&self) -> RunnerState {
        RunnerState {
            router: self.router@,
            pubsub: self.pubsub@,
            pinned: self.remote_channels@,
            outputs: views(self.outputs@),
        }
    }
}

impl P2pStreamRunner {
    /// The node is well formed when its state is.
    pub open spec fn wf(&self) -> bool {
        self@.wf()
    }

    /// The node `node`, with no neighbour and no channel.
    pub fn new(node: NodeId) -> (runner: Self)
        ensures
            runner.wf(),
            runner@ == RunnerState::init(node),
    {
        let runner = P2pStreamRunner {
            router: Router::new(node),
            pubsub: Pubsub::new(),
            remote_channels: HashMap::new(),
            outputs: VecDeque::new(),
        };
        assert(runner@.outputs =~= Seq::empty());
        runner
    }

    /// The clock has reached `now_ms`: subscriptions that were not renewed
    /// lapse, and the routes are advertised to each neighbour.
    pub fn on_tick(&mut self, now_ms: u64)
        requires
            old(self).wf(),
        ensures
            final(self).wf(),
            exists|hosted: Seq<u32>|
                old(self)@.router.walks_hosted(hosted) && final(self)@ == old(self)@.on_tick(
                    now_ms,
                    hosted,
                ),
    {
        self.router.on_tick(now_ms);
        self.pubsub.on_tick(now_ms);
        let ghost ticked = self@;
        self.pop_router_outputs();
        let ghost hosted = choose|hosted: Seq<u32>|
            ticked.router.walks_hosted(hosted) && self@ == ticked.pump_router(hosted);
        self.pop_pubsub_outputs();
        proof {
            assert(self@ == old(self)@.on_tick(now_ms, hosted));
        }
    }

    /// Whether `event` can be handled, so that `on_msg` can take it.
    pub fn accepts(&self, event: &InputEvent) -> (b: bool)
        requires
            self.wf(),
        ensures
            b == self@.accepts(*event),
    {
        match event {
            InputEvent::Recv(msg) => match &msg.msg {
                MessageType::RouterSync(sync) => self.router.accepts_sync(msg.conn, sync),
                _ => true,
            },
            InputEvent::Stats(_) => true,
        }
    }

    /// The channels of the rows of `sync` that `on_msg` would skip because
    /// the channel is not known to the router, for the host to report.
    pub fn unknown_channels(&self, sync: &RouterSync) -> (channels: Vec<u32>)
        requires
            self.wf(),
        ensures
            channels@ == self@.router.unknown_channels(sync@),
    {
        self.router.unknown_channels(sync)
    }

    /// Something came in from the host: a measurement, or a message from a neighbour.
    pub fn on_msg(&mut self, now_ms: u64, event: InputEvent)
        requires
            old(self).wf(),
            old(self)@.accepts(event),
        ensures
            final(self).wf(),
            final(self)@ == old(self)@.on_msg(now_ms, event),
    {
        match event {
            InputEvent::Stats(msg) => {
                self.router.on_event(now_ms, crate::router::InputEvent::ConnectionStats(msg));
            },
            InputEvent::Recv(NetworkMsg { conn, msg }) => match msg {
                MessageType::RouterSync(sync) => {
                    self.router.on_event(
                        now_ms,
                        crate::router::InputEvent::Recv(NetworkMsg { conn, msg: sync }),
                    );
                },
                MessageType::ChannelSub(sub) => {
                    self.pubsub.on_event(
                        now_ms,
                        crate::pubsub::InputEvent::RecvSub(NetworkMsg { conn, msg: sub }),
                    );
                    self.pop_pubsub_outputs();
                },
                MessageType::ChannelUnsub(unsub) => {
                    self.pubsub.on_event(
                        now_ms,
                        crate::pubsub::InputEvent::RecvUnsub(NetworkMsg { conn, msg: unsub }),
                    );
                    self.pop_pubsub_outputs();
                },
                MessageType::ChannelData(data) => {
                    self.pubsub.on_event(
                        now_ms,
                        crate::pubsub::InputEvent::RecvData(NetworkMsg { conn, msg: data }),
                    );
                    self.pop_pubsub_outputs();
                },
            },
        }
    }

    /// This node subscribes to `channel`.
    pub fn subscribe(&mut self, channel: ChannelId)
        requires
            old(self).wf(),
        ensures
            final(self).wf(),
            final(self)@ == old(self)@.subscribe(channel),
    {
        self.pubsub.sub_channel(channel);
        self.pop_pubsub_outputs();
    }

    /// This node cancels its subscription to `channel`.
    pub fn unsubscribe(&mut self, channel: ChannelId)
        requires
            old(self).wf(),
        ensures
            final(self).wf(),
            final(self)@ == old(self)@.unsubscribe(channel),
    {
        self.pubsub.unsub_channel(channel);
        self.pop_pubsub_outputs();
    }

    /// This node publishes `data` on `channel`.
    pub fn publish(&mut self, channel: ChannelId, data: Vec<u8>)
        requires
            old(self).wf(),
        ensures
            final(self).wf(),
            final(self)@ == old(self)@.publish(channel, data@),
    {
        self.pubsub.pub_channel(channel, data);
        self.pop_pubsub_outputs();
    }

    /// Declares that `channel` is hosted on this node.
    pub fn add_channel(&mut self, channel: ChannelId)
        requires
            old(self).wf(),
        ensures
            final(self).wf(),
            final(self)@ == (RunnerState { router: old(self)@.router.add_channel(channel), ..old(self)@ }),
    {
        self.router.add_channel(channel);
    }

    /// Declares that `channel` is hosted on this node no longer.
    pub fn remove_channel(&mut self, channel: ChannelId)
        requires
            old(self).wf(),
        ensures
            final(self).wf(),
            final(self)@ == (RunnerState {
                router: old(self)@.router.remove_channel(channel),
                ..old(self)@
            }),
    {
        self.router.remove_channel(channel);
    }

    /// Starts to keep the paths that neighbours advertise for `channel`.
    /// This is the only way in which a channel becomes known to the router:
    /// until it is called for a channel, every advertised row that names the
    /// channel is skipped, and no path to the channel is ever learned.
    pub fn watch_channel(&mut self, channel: ChannelId)
        requires
            old(self).wf(),
        ensures
            final(self).wf(),
            final(self)@ == (RunnerState {
                router: old(self)@.router.watch_channel(channel),
                ..old(self)@
            }),
    {
        self.router.watch_channel(channel);
    }

    /// The next thing that the node asks of the host, oldest first.
    pub fn pop_output(&mut self) -> (event: Option<OutputEvent>)
        requires
            old(self).wf(),
        ensures
            final(self).wf(),
            old(self)@.outputs.len() == 0 ==> event is None && final(self)@ == old(self)@,
            old(self)@.outputs.len() > 0 ==> event is Some && event->0@ == old(self)@.outputs[0]
                && final(self)@ == (RunnerState { outputs: old(self)@.outputs.skip(1), ..old(self)@ }),
    {
        let event = self.outputs.pop_front();
        proof {
            if old(self)@.outputs.len() > 0 {
                assert(self@.outputs =~= old(self)@.outputs.skip(1));
            } else {
                assert(self@.outputs =~= old(self)@.outputs);
            }
        }
        event
    }

    /// Queues the router's advertisements.
    fn pop_router_outputs(&mut self)
        requires
            old(self)@.wf_parts(),
        ensures
            final(self)@.wf_parts(),
            exists|hosted: Seq<u32>|
                old(self)@.router.walks_hosted(hosted) && final(self)@ == old(self)@.pump_router(hosted),
    {
        let mut sync_msgs = self.router.create_sync();
        let ghost hosted = choose|hosted: Seq<u32>|
            self@.router.walks_hosted(hosted) && views(sync_msgs@) == self@.router.create_sync(hosted);
        let ghost syncs = self@.router.create_sync(hosted);
        let ghost start = self@.outputs;
        let total = sync_msgs.len();
        let mut done: usize = 0;
        proof {
            assert(self@.outputs =~= start + Seq::new(
                0,
                |i: int| send(syncs[i].conn, MessageView::RouterSync(syncs[i].msg)),
            ));
        }
        for sync in it: sync_msgs
            invariant
                syncs == views(it.seq()),
                self.router == old(self).router,
                self.pubsub == old(self).pubsub,
                self.remote_channels == old(self).remote_channels,
                self@.outputs == start + Seq::new(
                    it.index() as nat,
                    |i: int| send(syncs[i].conn, MessageView::RouterSync(syncs[i].msg)),
                ),
        {
            let ghost n = it.index() as int;
            assert(syncs[n] == sync@);
            self.push(OutputEvent::Send(NetworkMsg { conn: sync.conn, msg: MessageType::RouterSync(sync.msg) }));
            proof {
                assert(self@.outputs =~= start + Seq::new(
                    (n + 1) as nat,
                    |i: int| send(syncs[i].conn, MessageView::RouterSync(syncs[i].msg)),
                ));
            }
        }
        proof {
            assert(self@ == old(self)@.pump_router(hosted));
        }
    }

    /// Carries out all that the pubsub engine has asked for.
    fn pop_pubsub_outputs(&mut self)
        requires
            old(self)@.wf_parts(),
        ensures
            final(self).wf(),
            final(self)@ == old(self)@.pump_pubsub(),
    {
        loop
            invariant
                self@.wf_parts(),
                self@.pump_pubsub() == old(self)@.pump_pubsub(),
            ensures
                self.wf(),
                self@ == old(self)@.pump_pubsub(),
            decreases self@.pubsub.outputs.len(),
        {
            match self.pubsub.pop_output() {
                None => {
                    break ;
                },
                Some(event) => {
                    self.forward(event);
                },
            }
        }
    }

    /// Carries out one request of the pubsub engine.
    fn forward(&mut self, event: crate::pubsub::OutputEvent)
        requires
            old(self)@.wf_parts(),
        ensures
            final(self)@.wf_parts(),
            final(self)@ == old(self)@.forward(event@),
    {
        match event {
            crate::pubsub::OutputEvent::SendSub(sub) => {
                let channel_id = ChannelId(sub.channel);
                let conn = match self.remote_channels.get(&sub.channel) {
                    Some(conn) => *conn,
                    None => match self.router.next_hop_for(channel_id) {
                        Some(NextHop::Remote(conn)) => conn,
                        _ => {
                            return ;
                        },
                    },
                };
                self.remote_channels.insert(sub.channel, conn);
                self.push(OutputEvent::Send(NetworkMsg { conn, msg: MessageType::ChannelSub(sub) }));
            },
            crate::pubsub::OutputEvent::SendUnsub(unsub) => {
                if let Some(conn) = self.remote_channels.remove(&unsub.channel) {
                    self.push(OutputEvent::Send(NetworkMsg { conn, msg: MessageType::ChannelUnsub(unsub) }));
                } else {
                    assert(self@.pinned =~= old(self)@.pinned);
                }
            },
            crate::pubsub::OutputEvent::SendData(NetworkMsg { conn, msg }) => {
                self.push(OutputEvent::Send(NetworkMsg { conn, msg: MessageType::ChannelData(msg) }));
            },
            crate::pubsub::OutputEvent::OnChannelData(channel_id, data) => {
                self.push(OutputEvent::OnChannelData(channel_id, data));
            },
        }
    }

    /// Queues `event`.
    fn push(&mut self, event: OutputEvent)
        ensures
            final(self).router == old(self).router,
            final(self).pubsub == old(self).pubsub,
            final(self).remote_channels == old(self).remote_channels,
            final(self)@ == old(self)@.emit(event@),
    {
        self.outputs.push_back(event);
        assert(self@.outputs =~= old(self)@.outputs.push(event@));
    }
}

/// Carrying out what the pubsub engine has asked for empties its queue and
/// leaves the engine as it is otherwise.
pub proof fn lemma_pump_pubsub(s: RunnerState)
    ensures
        s.pump_pubsub().pubsub == (PubsubState { outputs: Seq::empty(), ..s.pubsub }),
        s.pump_pubsub().router == s.router,
        s.pubsub.outputs.len() == 0 ==> s.pump_pubsub() == s,
    decreases s.pubsub.outputs.len(),
{
    if s.pubsub.outputs.len() > 0 {
        let rest = RunnerState {
            pubsub: PubsubState { outputs: s.pubsub.outputs.skip(1), ..s.pubsub },
            ..s
        };
        lemma_pump_pubsub(rest.forward(s.pubsub.outputs[0]));
    } else {
        assert(s.pubsub.outputs =~= Seq::empty());
    }
}

/// To subscribe again changes nothing: after `subscribe`, a second
/// `subscribe` to the same channel leaves the node as it is, and so sends no
/// further request upstream.
pub proof fn lemma_subscribe_idempotent(s: RunnerState, channel: ChannelId)
    requires
        s.wf(),
    ensures
        s.subscribe(channel).subscribe(channel) == s.subscribe(channel),
{
    let first = s.pubsub.sub_channel(channel);
    let once = s.subscribe(channel);
    lemma_pump_pubsub(RunnerState { pubsub: first, ..s });
    crate::pubsub::lemma_sub_channel_idempotent(s.pubsub, channel);
    crate::pubsub::lemma_sub_channel_queue(first, channel, Seq::empty());
    assert(once.pubsub.sub_channel(channel) == once.pubsub) by {
        assert(first.emitted(first) =~= Seq::empty());
        assert(once.pubsub.outputs + Seq::<PubsubOutput>::empty() =~= once.pubsub.outputs);
    }
    lemma_pump_pubsub(once);
}

} // verus!
