use thorn::engine::CorePlugin;
use thorn::event::{EventEmitterPlugin, EventReceiverPlugin};
use thorn::gobject::GobjectManagerPlugin;
use thorn::platform::PlatformPlugin;
use thorn::renderer::{Backend, RendererPlugin};
use thorn::tasks::TasksPlugin;

#[test]
fn engine_plugin_descriptors_declare_their_dependencies() {
    let core = CorePlugin { identity: 1 }.info();
    assert_eq!(core.identity, 1);
    assert!(core.deps.is_empty());
    assert_eq!(core.name, "Core");

    let tasks = TasksPlugin { identity: 2, core_identity: 1 }.info();
    assert_eq!(tasks.deps, vec![1]);

    let emitter = EventEmitterPlugin { identity: 3 }.info();
    assert!(emitter.deps.is_empty());

    let receiver = EventReceiverPlugin { identity: 4, emitter_identity: 3 }.info();
    assert_eq!(receiver.deps, vec![3]);

    let gobj = GobjectManagerPlugin { identity: 5, tasks_identity: 2, receiver_identity: 4 }.info();
    assert_eq!(gobj.deps, vec![2, 4]);

    let renderer = RendererPlugin {
        identity: 6,
        tasks_identity: 2,
        receiver_identity: 4,
        backend: Backend::Vulkan,
    }
    .info();
    assert_eq!(renderer.deps, vec![2, 4]);

    let platform = PlatformPlugin { identity: 7, emitter_identity: 3, renderer_identity: 6 }.info();
    assert_eq!(platform.deps, vec![3, 6]);
}
