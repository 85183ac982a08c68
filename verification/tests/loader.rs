use std::cell::RefCell;
use std::rc::Rc;
use thorn::error::ThError;
use thorn::layer::LayerReg;
use thorn::loader::PluginLoader;
use thorn::plugin::{Plugin, PluginInfo};

#[derive(Debug, PartialEq, Eq)]
struct TestSvc {
    tag: u64,
}

#[derive(Clone, Copy, PartialEq, Eq, Debug)]
enum Note {
    Loaded(u64),
    Unloaded(u64),
}

struct TestPlugin {
    id: u64,
    deps: Vec<u64>,
    fail_load: bool,
    notes: Rc<RefCell<Vec<Note>>>,
}

impl TestPlugin {
    fn new(id: u64, deps: &[u64], notes: &Rc<RefCell<Vec<Note>>>) -> TestPlugin {
        TestPlugin { id, deps: deps.to_vec(), fail_load: false, notes: Rc::clone(notes) }
    }

    fn failing(id: u64, notes: &Rc<RefCell<Vec<Note>>>) -> TestPlugin {
        TestPlugin { id, deps: Vec::new(), fail_load: true, notes: Rc::clone(notes) }
    }
}

impl Plugin for TestPlugin {
    type Service = TestSvc;

    fn info(&self) -> PluginInfo {
        let mut info = PluginInfo::build(self.id, format!("plugin-{}", self.id));
        for d in &self.deps {
            info = info.dep(*d);
        }
        info
    }

    fn load(&mut self, _reg: &LayerReg<TestSvc>) -> Result<TestSvc, String> {
        if self.fail_load {
            Err(String::from("construction refused"))
        } else {
            Ok(TestSvc { tag: self.id * 100 })
        }
    }

    fn notify_loaded(&mut self, _reg: &LayerReg<TestSvc>) {
        self.notes.borrow_mut().push(Note::Loaded(self.id));
    }

    fn notify_unloaded(&mut self, _reg: &LayerReg<TestSvc>) {
        self.notes.borrow_mut().push(Note::Unloaded(self.id));
    }
}

fn notes() -> Rc<RefCell<Vec<Note>>> {
    Rc::new(RefCell::new(Vec::new()))
}

#[test]
fn discover_plugin_accepts_fresh_identity() {
    let log = notes();
    let mut loader = PluginLoader::new();
    assert!(loader.discover_plugin(TestPlugin::new(1, &[], &log)).is_none());
    assert!(loader.discover_plugin(TestPlugin::new(2, &[], &log)).is_none());
    assert_eq!(loader.pending_count(), 2);
}

#[test]
fn discover_same_identity_twice_returns_second_unconsumed() {
    // The duplicate comes back unconsumed and exactly one pending entry
    // remains.
    let log = notes();
    let mut loader = PluginLoader::new();
    assert!(loader.discover_plugin(TestPlugin::new(1, &[], &log)).is_none());
    let back = loader
        .discover_plugin(TestPlugin::new(1, &[7], &log))
        .expect("duplicate identity must hand the plugin back");
    assert_eq!(back.id(), 1);
    assert_eq!(back.deps().as_slice(), &[7]);
    assert_eq!(back.plugin.deps, vec![7]);
    assert_eq!(loader.pending_count(), 1);
}

#[test]
fn dep_sort_orders_dependencies_first() {
    // A DAG resolves, and every plugin comes after all its dependencies.
    let log = notes();
    let mut loader = PluginLoader::new();
    loader.discover_plugin(TestPlugin::new(1, &[2], &log));
    loader.discover_plugin(TestPlugin::new(2, &[3], &log));
    loader.discover_plugin(TestPlugin::new(3, &[], &log));
    let order = loader.dep_sort().expect("a DAG must resolve");
    assert_eq!(order.len(), 3);
    let pos = |id: u64| order.iter().position(|x| *x == id).unwrap();
    assert!(pos(3) < pos(2));
    assert!(pos(2) < pos(1));
}

#[test]
fn dep_sort_diamond_resolves() {
    let log = notes();
    let mut loader = PluginLoader::new();
    loader.discover_plugin(TestPlugin::new(1, &[2, 3], &log));
    loader.discover_plugin(TestPlugin::new(2, &[4], &log));
    loader.discover_plugin(TestPlugin::new(3, &[4], &log));
    loader.discover_plugin(TestPlugin::new(4, &[], &log));
    let order = loader.dep_sort().expect("a diamond is a DAG");
    let pos = |id: u64| order.iter().position(|x| *x == id).unwrap();
    assert!(pos(4) < pos(2) && pos(4) < pos(3));
    assert!(pos(2) < pos(1) && pos(3) < pos(1));
}

#[test]
fn cycle_fails_resolution_and_loads_nothing() {
    // A two-cycle makes resolution fail, and load_all performs zero
    // insertions.
    let log = notes();
    let mut loader = PluginLoader::new();
    loader.discover_plugin(TestPlugin::new(1, &[2], &log));
    loader.discover_plugin(TestPlugin::new(2, &[1], &log));
    assert!(matches!(loader.dep_sort(), Err(ThError::PluginLoadOrder)));
    assert!(matches!(loader.load_all(), Err(ThError::PluginLoadOrder)));
    assert_eq!(loader.pending_count(), 2);
    assert_eq!(loader.loaded_count(), 0);
    assert_eq!(loader.registry_mut().len(), 0);
    assert!(log.borrow().is_empty());
}

#[test]
fn missing_dependency_fails_resolution() {
    let log = notes();
    let mut loader = PluginLoader::new();
    loader.discover_plugin(TestPlugin::new(1, &[99], &log));
    assert!(matches!(loader.dep_sort(), Err(ThError::PluginLoadOrder)));
}

#[test]
fn load_all_moves_everything_and_fills_registry() {
    let log = notes();
    let mut loader = PluginLoader::new();
    loader.discover_plugin(TestPlugin::new(1, &[2], &log));
    loader.discover_plugin(TestPlugin::new(2, &[], &log));
    loader.load_all().expect("loadable set");
    assert_eq!(loader.pending_count(), 0);
    assert_eq!(loader.loaded_count(), 2);
    assert_eq!(loader.registry_mut().len(), 2);
    let reg = loader.registry_mut();
    assert_eq!(reg.get(1).unwrap().read().tag, 100);
    assert_eq!(reg.get(2).unwrap().read().tag, 200);
    assert_eq!(*log.borrow(), vec![Note::Loaded(2), Note::Loaded(1)]);
}

#[test]
fn construction_failure_aborts_remaining_loads() {
    let log = notes();
    let mut loader = PluginLoader::new();
    loader.discover_plugin(TestPlugin::failing(1, &log));
    match loader.load_all() {
        Err(ThError::PluginLoadFailed(name, cause)) => {
            assert_eq!(name, "plugin-1");
            assert_eq!(cause, "construction refused");
        },
        other => panic!("expected PluginLoadFailed, got {:?}", other.map(|_| ())),
    }
    assert_eq!(loader.loaded_count(), 0);
    assert_eq!(loader.registry_mut().len(), 0);
}

#[test]
fn unload_all_reverses_load_order() {
    // After load_all, unload_all empties the loaded set, restores every
    // plugin to pending, and the pre-unload notifications run in exactly
    // the reverse order of the post-load notifications.
    let log = notes();
    let mut loader = PluginLoader::new();
    loader.discover_plugin(TestPlugin::new(1, &[2, 3], &log));
    loader.discover_plugin(TestPlugin::new(2, &[3], &log));
    loader.discover_plugin(TestPlugin::new(3, &[], &log));
    loader.load_all().expect("loadable set");
    loader.unload_all();
    assert_eq!(loader.loaded_count(), 0);
    assert_eq!(loader.pending_count(), 3);

    let entries = log.borrow();
    let loaded: Vec<u64> = entries
        .iter()
        .filter_map(|n| match n {
            Note::Loaded(id) => Some(*id),
            Note::Unloaded(_) => None,
        })
        .collect();
    let unloaded: Vec<u64> = entries
        .iter()
        .filter_map(|n| match n {
            Note::Unloaded(id) => Some(*id),
            Note::Loaded(_) => None,
        })
        .collect();
    let mut reversed = loaded.clone();
    reversed.reverse();
    assert_eq!(unloaded, reversed);
    // and the registry entries stay, so a second load_all reports duplicates
    assert_eq!(loader.registry_mut().len(), 3);
}

#[test]
fn plugin_info_builder_collects_fields() {
    let info = PluginInfo::build(11, String::from("demo"))
        .name(String::from("renamed"))
        .version(String::from("0.1"))
        .dep(3)
        .dep(4);
    assert_eq!(info.identity, 11);
    assert_eq!(info.name, "renamed");
    assert_eq!(info.version, "0.1");
    assert_eq!(info.deps, vec![3, 4]);
}
