use std::cell::RefCell;
use std::rc::Rc;
use thorn::engine::MainLoopState;
use thorn::event::{EngineEvent, EngineEventRecorder, EventEmitter, EventReceiver, LayerEvent};
use thorn::layer::{LayerDispatch, LayerReg};
use thorn::loader::PluginLoader;
use thorn::plugin::{Plugin, PluginInfo};
use thorn::tasks::Tasks;

struct NullSvc;

impl LayerDispatch<LayerEvent> for NullSvc {
    fn dispatch_ensures(&self, _event: LayerEvent, _post: Self) -> bool {
        true
    }

    fn dispatch(&mut self, _event: &LayerEvent) {}
}

struct NullPlugin {
    id: u64,
}

impl Plugin for NullPlugin {
    type Service = NullSvc;

    fn info(&self) -> PluginInfo {
        PluginInfo::build(self.id, String::from("null"))
    }

    fn load(&mut self, _reg: &LayerReg<NullSvc>) -> Result<NullSvc, String> {
        Ok(NullSvc)
    }
}

#[test]
fn empty_loader_loads_nothing_successfully() {
    let mut loader: PluginLoader<NullPlugin> = PluginLoader::new();
    assert!(loader.dep_sort().unwrap().is_empty());
    loader.load_all().expect("an empty set is trivially loadable");
    assert_eq!(loader.loaded_count(), 0);
    loader.unload_all();
    assert_eq!(loader.pending_count(), 0);
}

#[test]
fn reload_after_unload_hits_occupied_registry_slots() {
    // unload leaves the registry entries in place, so loading the same
    // plugin again reports an occupied slot rather than overwriting
    let mut loader: PluginLoader<NullPlugin> = PluginLoader::new();
    loader.discover_plugin(NullPlugin { id: 1 });
    loader.load_all().expect("loadable");
    loader.unload_all();
    assert!(loader.load_all().is_err());
}

#[test]
fn dispatch_on_empty_registry_is_a_no_op() {
    let mut reg: LayerReg<NullSvc> = LayerReg::new();
    reg.dispatch(&LayerEvent::Tick(1));
    assert_eq!(reg.len(), 0);
}

#[test]
fn tick_with_no_subscribers_still_drains() {
    let mut emitter: EventEmitter<EngineEvent> = EventEmitter::new();
    let mut receiver: EventReceiver<EngineEvent, EngineEventRecorder> = EventReceiver::new();
    emitter.emit(EngineEvent::TestEventA);
    receiver.on_tick(&mut emitter);
    // a late subscriber does not see what was drained without listeners
    receiver.subscribe(EngineEventRecorder::new());
    receiver.on_tick(&mut emitter);
    assert!(receiver.subscribers_slice()[0].events().is_empty());
}

#[test]
fn task_clock_saturates_instead_of_wrapping() {
    let mut q: Tasks<u32> = Tasks::new();
    q.repeating(10, 1);
    q.on_tick(u64::MAX);
    q.take_handover();
    // a second enormous tick saturates the clock; the queue stays usable
    q.on_tick(u64::MAX);
    q.on_tick(5);
    q.cancel(0);
    q.on_tick(5);
    assert!(q.take_handover().len() <= 2);
}

#[test]
fn empty_message_batch_changes_nothing() {
    let mut st: MainLoopState<u32, u8> = MainLoopState::new();
    let before = (st.fps_cap, st.delta);
    assert!(st.handle_msgs(Vec::new()));
    assert_eq!((st.fps_cap, st.delta), before);
    assert!(st.tasks.is_empty());
    assert!(st.hooks.is_empty());
}

#[derive(Clone, Copy, PartialEq, Eq, Debug)]
enum Note {
    Loaded(u64),
    Unloaded(u64),
}

struct NotingPlugin {
    id: u64,
    notes: Rc<RefCell<Vec<Note>>>,
}

impl Plugin for NotingPlugin {
    type Service = NullSvc;

    fn info(&self) -> PluginInfo {
        PluginInfo::build(self.id, String::from("noting"))
    }

    fn load(&mut self, _reg: &LayerReg<NullSvc>) -> Result<NullSvc, String> {
        Ok(NullSvc)
    }

    fn notify_loaded(&mut self, _reg: &LayerReg<NullSvc>) {
        self.notes.borrow_mut().push(Note::Loaded(self.id));
    }

    fn notify_unloaded(&mut self, _reg: &LayerReg<NullSvc>) {
        self.notes.borrow_mut().push(Note::Unloaded(self.id));
    }
}

#[test]
fn single_plugin_lifecycle_notifications() {
    let notes = Rc::new(RefCell::new(Vec::new()));
    let mut loader: PluginLoader<NotingPlugin> = PluginLoader::new();
    loader.discover_plugin(NotingPlugin { id: 9, notes: Rc::clone(&notes) });
    loader.load_all().expect("loadable");
    loader.unload_all();
    assert_eq!(*notes.borrow(), vec![Note::Loaded(9), Note::Unloaded(9)]);
}
