use thorn::event::{EngineEvent, EngineEventRecorder, EventEmitter, EventReceiver};
use thorn::gobject::EngineEventCounter;

#[test]
fn emit_buffers_without_delivering() {
    let mut emitter: EventEmitter<EngineEvent> = EventEmitter::new();
    let mut receiver: EventReceiver<EngineEvent, EngineEventRecorder> = EventReceiver::new();
    receiver.subscribe(EngineEventRecorder::new());
    emitter.emit(EngineEvent::TestEventA);
    // nothing observed a delivery yet: only the tick drains
    assert!(receiver.subscribers_slice()[0].events().is_empty());
}

#[test]
fn tick_delivers_in_order_to_every_subscriber_once() {
    // emit(e1); emit(e2); one tick delivers e1, e2 in order to every
    // subscriber exactly once; a second tick with no new emits delivers
    // nothing.
    let mut emitter: EventEmitter<EngineEvent> = EventEmitter::new();
    let mut receiver: EventReceiver<EngineEvent, EngineEventRecorder> = EventReceiver::new();
    receiver.subscribe(EngineEventRecorder::new());
    receiver.subscribe(EngineEventRecorder::new());

    emitter.emit(EngineEvent::TestEventA);
    emitter.emit(EngineEvent::TestEventB);
    receiver.on_tick(&mut emitter);
    for sub in receiver.subscribers_slice() {
        assert_eq!(sub.events(), &[EngineEvent::TestEventA, EngineEvent::TestEventB]);
    }

    receiver.on_tick(&mut emitter);
    for sub in receiver.subscribers_slice() {
        assert_eq!(sub.events().len(), 2);
    }
}

#[test]
fn events_after_drain_wait_for_next_tick() {
    let mut emitter: EventEmitter<EngineEvent> = EventEmitter::new();
    let mut receiver: EventReceiver<EngineEvent, EngineEventRecorder> = EventReceiver::new();
    receiver.subscribe(EngineEventRecorder::new());
    emitter.emit(EngineEvent::TestEventA);
    receiver.on_tick(&mut emitter);
    emitter.emit(EngineEvent::TestEventB);
    assert_eq!(receiver.subscribers_slice()[0].events().len(), 1);
    receiver.on_tick(&mut emitter);
    assert_eq!(
        receiver.subscribers_slice()[0].events(),
        &[EngineEvent::TestEventA, EngineEvent::TestEventB]
    );
}

#[test]
fn late_subscriber_misses_earlier_ticks() {
    let mut emitter: EventEmitter<EngineEvent> = EventEmitter::new();
    let mut receiver: EventReceiver<EngineEvent, EngineEventRecorder> = EventReceiver::new();
    receiver.subscribe(EngineEventRecorder::new());
    emitter.emit(EngineEvent::TestEventA);
    receiver.on_tick(&mut emitter);
    receiver.subscribe(EngineEventRecorder::new());
    emitter.emit(EngineEvent::TestEventB);
    receiver.on_tick(&mut emitter);
    let subs = receiver.subscribers_slice();
    assert_eq!(subs[0].events(), &[EngineEvent::TestEventA, EngineEvent::TestEventB]);
    assert_eq!(subs[1].events(), &[EngineEvent::TestEventB]);
}

#[test]
fn counter_subscriber_counts_events() {
    let mut emitter: EventEmitter<EngineEvent> = EventEmitter::new();
    let mut receiver: EventReceiver<EngineEvent, EngineEventCounter> = EventReceiver::new();
    receiver.subscribe(EngineEventCounter::new());
    emitter.emit(EngineEvent::TestEventA);
    emitter.emit(EngineEvent::TestEventA);
    emitter.emit(EngineEvent::TestEventB);
    receiver.on_tick(&mut emitter);
    let counter = &receiver.subscribers_slice()[0];
    assert_eq!(counter.seen_a, 2);
    assert_eq!(counter.seen_b, 1);
}
