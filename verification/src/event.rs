//! Tick-synchronized publish/subscribe event channels.
//!
//! One emitter/receiver pair exists per event kind. Emitting only buffers;
//! nothing is delivered until the system tick, when the receiver drains its
//! paired emitter and hands every buffered event, in emission order, to every
//! subscriber exactly once. Events emitted after a drain wait for the next
//! tick.

use vstd::prelude::*;
use crate::plugin::PluginInfo;

verus! {

/// The event broadcast through the registry itself.
///
/// `Tick` carries the previous frame's duration in nanoseconds and is the
/// synchronization point at which channels drain and timers are scanned.
#[derive(Debug, Clone, PartialEq, Eq, Structural)]
pub enum LayerEvent {
    Tick(u64),
    Panic,
}

/// A demo event kind, useful for exercising a channel.
#[derive(Debug, Clone, Copy, PartialEq, Eq, Structural)]
pub enum EngineEvent {
    TestEventA,
    TestEventB,
}

/// A consumer of one event kind.
///
/// `received()` is the subscriber's own record of every event handed to it so
/// far, oldest first; an implementation must show that `receive_event`
/// appends exactly the event it was handed. The delivery guarantees of
/// [`EventReceiver::on_tick`] are stated over this record.
pub trait EventSubscriber<E> {
    spec fn received(&self) -> Seq<E>;

    fn receive_event(&mut self, event: &E)
        ensures
            final(self).received() == old(self).received().push(*event),
    ;
}

/// The producer half of a channel: events pile up in a buffer.
pub struct EventEmitter<E> {
    buffer: Vec<E>,
}

impl<E> EventEmitter<E> {
    /// The buffered events, oldest first.
    pub closed spec fn buffer(&self) -> Seq<E> {
        self.buffer@
    }

    pub fn new() -> (r: EventEmitter<E>)
        ensures
            r.buffer() == Seq::<E>::empty(),
    {
        EventEmitter { buffer: Vec::new() }
    }

    /// Appends `event` to the buffer; nothing is delivered yet.
    pub fn emit(&mut self, event: E)
        ensures
            final(self).buffer() == old(self).buffer().push(event),
    {
        self.buffer.push(event);
    }

    /// Moves every buffered event to the back of `b`, in order.
    pub fn drain_into(&mut self, b: &mut Vec<E>)
        ensures
            final(b)@ == old(b)@ + old(self).buffer(),
            final(self).buffer() == Seq::<E>::empty(),
    {
        b.append(&mut self.buffer);
    }
}

/// The consumer half of a channel: subscribers registered here get every
/// event of this kind once per tick.
pub struct EventReceiver<E, Sub> {
    events: Vec<E>,
    subscribers: Vec<Sub>,
}

impl<E, Sub: EventSubscriber<E>> EventReceiver<E, Sub> {
    /// Events drained but not yet delivered (empty between ticks).
    pub closed spec fn pending(&self) -> Seq<E> {
        self.events@
    }

    /// The registered subscribers, in registration order.
    pub closed spec fn subscribers(&self) -> Seq<Sub> {
        self.subscribers@
    }

    pub fn new() -> (r: EventReceiver<E, Sub>)
        ensures
            r.pending() == Seq::<E>::empty(),
            r.subscribers() == Seq::<Sub>::empty(),
    {
        EventReceiver { events: Vec::new(), subscribers: Vec::new() }
    }

    /// The registered subscribers, for inspection.
    pub fn subscribers_slice(&self) -> (r: &[Sub])
        ensures
            r@ == self.subscribers(),
    {
        self.subscribers.as_slice()
    }

    /// Registers one more consumer; any number may subscribe.
    pub fn subscribe(&mut self, subscriber: Sub)
        ensures
            final(self).subscribers() == old(self).subscribers().push(subscriber),
            final(self).pending() == old(self).pending(),
    {
        self.subscribers.push(subscriber);
    }

    /// The tick synchronization point: drains the paired emitter and delivers
    /// every pending event, in buffer order, to every subscriber exactly
    /// once. Events emitted afterwards wait for the next tick, so a tick with
    /// nothing buffered delivers nothing.
    pub fn on_tick(&mut self, emitter: &mut EventEmitter<E>)
        ensures
            final(emitter).buffer() == Seq::<E>::empty(),
            final(self).pending() == Seq::<E>::empty(),
            final(self).subscribers().len() == old(self).subscribers().len(),
            forall|j: int|
                0 <= j < old(self).subscribers().len() ==> final(self).subscribers()[j].received()
                    == old(self).subscribers()[j].received() + old(self).pending() + old(
                    emitter,
                ).buffer(),
    {
        emitter.drain_into(&mut self.events);
        let ghost evts = self.events@;
        let ghost origs = self.subscribers@;
        let n = self.events.len();
        let m = self.subscribers.len();
        for i in 0..n
            invariant
                self.events@ == evts,
                n == evts.len(),
                m == self.subscribers@.len(),
                forall|k: int|
                    0 <= k < m ==> #[trigger] self.subscribers@[k].received() == origs[k].received()
                        + evts.take(i as int),
        {
            for j in 0..m
                invariant
                    self.events@ == evts,
                    n == evts.len(),
                    i < n,
                    m == self.subscribers@.len(),
                    forall|k: int|
                        0 <= k < j ==> #[trigger] self.subscribers@[k].received()
                            == origs[k].received() + evts.take(i + 1),
                    forall|k: int|
                        j <= k < m ==> #[trigger] self.subscribers@[k].received()
                            == origs[k].received() + evts.take(i as int),
            {
                let ghost pre = self.subscribers@;
                let sub = &mut self.subscribers[j];
                sub.receive_event(&self.events[i]);
                proof {
                    assert(evts.take(i as int).push(evts[i as int]) =~= evts.take(i + 1));
                    assert(self.subscribers@[j as int].received() == origs[j as int].received()
                        + evts.take(i + 1));
                    assert(forall|k: int|
                        0 <= k < m && k != j ==> self.subscribers@[k] == pre[k]);
                }
            }
        }
        proof {
            assert(evts.take(n as int) =~= evts);
            assert(evts =~= old(self).pending() + old(emitter).buffer());
        }
        self.events.clear();
    }
}

/// A subscriber that simply records every event handed to it, in order —
/// its record is literally the `received()` log the delivery guarantees
/// speak of.
pub struct EngineEventRecorder {
    got: Vec<EngineEvent>,
}

impl EngineEventRecorder {
    pub fn new() -> (r: EngineEventRecorder)
        ensures
            r.received() == Seq::<EngineEvent>::empty(),
    {
        EngineEventRecorder { got: Vec::new() }
    }

    /// Everything received so far, oldest first.
    pub fn events(&self) -> (r: &[EngineEvent])
        ensures
            r@ == self.received(),
    {
        self.got.as_slice()
    }
}

impl EventSubscriber<EngineEvent> for EngineEventRecorder {
    closed spec fn received(&self) -> Seq<EngineEvent> {
        self.got@
    }

    fn receive_event(&mut self, event: &EngineEvent) {
        self.got.push(*event);
    }
}

/// The descriptor of an emitter plugin for one event kind. Each kind's
/// pair carries its own identities, so the registry's one-entry-per-identity
/// rule keeps the pair unique.
pub struct EventEmitterPlugin {
    pub identity: u64,
}

impl EventEmitterPlugin {
    pub fn info(&self) -> (r: PluginInfo)
        ensures
            r.identity == self.identity,
            r.deps@ == Seq::<u64>::empty(),
            r.name@ == "EventEmitter"@,
    {
        PluginInfo::build(self.identity, "EventEmitter".to_owned())
    }
}

/// The descriptor of a receiver plugin: it depends on its paired emitter.
pub struct EventReceiverPlugin {
    pub identity: u64,
    pub emitter_identity: u64,
}

impl EventReceiverPlugin {
    pub fn info(&self) -> (r: PluginInfo)
        ensures
            r.identity == self.identity,
            r.deps@ == seq![self.emitter_identity],
            r.name@ == "EventReceiver"@,
    {
        let info = PluginInfo::build(self.identity, "EventReceiver".to_owned());
        let info = info.dep(self.emitter_identity);
        proof {
            assert(info.deps@ =~= seq![self.emitter_identity]);
        }
        info
    }
}

} // verus!
