//! The game-object manager: a registry of polymorphic objects ticked every
//! frame and driven by engine events.

use vstd::prelude::*;
use crate::event::{EngineEvent, EventSubscriber, LayerEvent};
use crate::layer::LayerDispatch;
use crate::plugin::PluginInfo;

verus! {

/// A managed object's lifecycle: ticked every frame, reset when added,
/// destroyed when removed, and poked by the demo event.
pub trait Gobject {
    fn tick(&mut self, delta: u64) {
    }

    fn test_event_a(&mut self) {
    }

    fn reset(&mut self) {
    }

    fn destroy(&mut self) {
    }
}

/// One managed object with the id it can be removed by.
pub struct GobjContainer<G> {
    pub id: u64,
    pub obj: G,
}

impl<G: Gobject> GobjContainer<G> {
    pub fn new(id: u64, obj: G) -> (r: GobjContainer<G>)
        ensures
            r.id == id,
            r.obj == obj,
    {
        GobjContainer { id, obj }
    }
}

/// The ids of a run of containers, in order.
pub open spec fn gobj_ids<G>(s: Seq<GobjContainer<G>>) -> Seq<u64> {
    s.map_values(|c: GobjContainer<G>| c.id)
}

/// The manager: owns its objects, hands out ids, ticks everything.
pub struct GobjectManager<G> {
    gobjs: Vec<GobjContainer<G>>,
    next_id: u64,
    task_id: Option<u64>,
}

impl<G: Gobject> GobjectManager<G> {
    /// The managed objects, oldest first.
    pub closed spec fn objects(&self) -> Seq<GobjContainer<G>> {
        self.gobjs@
    }

    pub closed spec fn spec_next_id(&self) -> u64 {
        self.next_id
    }

    /// The manager's own repeating-task id, once registered.
    pub closed spec fn spec_task_id(&self) -> Option<u64> {
        self.task_id
    }

    /// Ids are unique and below `next_id`.
    pub open spec fn wf(&self) -> bool {
        forall|i: int, j: int|
            0 <= i <= j < self.objects().len() ==> (#[trigger] self.objects()[i]).id
                < self.spec_next_id() && (i < j ==> self.objects()[i].id != (
            #[trigger] self.objects()[j]).id)
    }

    pub fn new() -> (r: GobjectManager<G>)
        ensures
            r.objects() == Seq::<GobjContainer<G>>::empty(),
            r.spec_next_id() == 0,
            r.spec_task_id() is None,
            r.wf(),
    {
        GobjectManager { gobjs: Vec::new(), next_id: 0, task_id: None }
    }

    /// Takes an object in: resets it, stores it under a fresh id, and
    /// returns the id it can later be removed by.
    pub fn add_gobj(&mut self, gobj: G) -> (r: u64)
        requires
            old(self).spec_next_id() < u64::MAX,
        ensures
            r == old(self).spec_next_id(),
            final(self).spec_next_id() == old(self).spec_next_id() + 1,
            final(self).objects().len() == old(self).objects().len() + 1,
            forall|k: int|
                0 <= k < old(self).objects().len() ==> #[trigger] final(self).objects()[k] == old(self).objects()[k],
            final(self).objects().last().id == r,
            final(self).spec_task_id() == old(self).spec_task_id(),
            old(self).wf() ==> final(self).wf(),
    {
        let mut gobj = gobj;
        gobj.reset();
        let id = self.next_id;
        self.next_id = self.next_id + 1;
        self.gobjs.push(GobjContainer::new(id, gobj));
        proof {
            if old(self).wf() {
                assert forall|i: int, j: int|
                    0 <= i <= j < self.gobjs@.len() implies (#[trigger] self.gobjs@[i]).id
                    < self.next_id && (i < j ==> self.gobjs@[i].id != (
                #[trigger] self.gobjs@[j]).id) by {
                    if j < old(self).objects().len() {
                        assert(self.gobjs@[i] == old(self).objects()[i]);
                        assert(self.gobjs@[j] == old(self).objects()[j]);
                    } else {
                        assert(self.gobjs@[j].id == id);
                        if i < j {
                            assert(self.gobjs@[i] == old(self).objects()[i]);
                        }
                    }
                }
            }
        }
        id
    }

    /// Destroys and drops the object stored under `gobj`, keeping every
    /// other object in order; unknown ids are a no-op.
    pub fn remove_obj(&mut self, gobj: u64)
        ensures
            final(self).spec_next_id() == old(self).spec_next_id(),
            final(self).spec_task_id() == old(self).spec_task_id(),
            !gobj_ids(old(self).objects()).contains(gobj) ==> final(self).objects() == old(self).objects(),
            gobj_ids(old(self).objects()).contains(gobj) ==> exists|i: int|
                0 <= i < old(self).objects().len() && old(self).objects()[i].id == gobj && final(self).objects().len() == old(self).objects().len() - 1 && (forall|k: int|
                    0 <= k < i ==> #[trigger] final(self).objects()[k] == old(self).objects()[k])
                    && (forall|k: int|
                    i <= k < final(self).objects().len() ==> #[trigger] final(self).objects()[k]
                        == old(self).objects()[k + 1]),
            old(self).wf() ==> final(self).wf(),
    {
        let n = self.gobjs.len();
        let mut found: Option<usize> = None;
        for i in 0..n
            invariant
                n == self.gobjs@.len(),
                match found {
                    Some(w) => w < n && self.gobjs@[w as int].id == gobj,
                    None => forall|k: int| 0 <= k < i ==> (#[trigger] self.gobjs@[k]).id != gobj,
                },
        {
            if found.is_none() && self.gobjs[i].id == gobj {
                found = Some(i);
            }
        }
        match found {
            Some(i) => {
                let mut c = self.gobjs.remove(i);
                c.obj.destroy();
                proof {
                    assert(old(self).objects()[i as int].id == gobj);
                    assert(gobj_ids(old(self).objects())[i as int] == gobj);
                    if old(self).wf() {
                        assert forall|a: int, b: int|
                            0 <= a <= b < self.gobjs@.len() implies (#[trigger] self.gobjs@[a]).id
                            < self.next_id && (a < b ==> self.gobjs@[a].id != (
                        #[trigger] self.gobjs@[b]).id) by {
                            let a2: int = if a < i as int {
                                a
                            } else {
                                a + 1
                            };
                            let b2: int = if b < i as int {
                                b
                            } else {
                                b + 1
                            };
                            assert(self.gobjs@[a] == old(self).objects()[a2]);
                            assert(self.gobjs@[b] == old(self).objects()[b2]);
                        }
                    }
                }
            },
            None => {
                proof {
                    if gobj_ids(old(self).objects()).contains(gobj) {
                        let k = choose|k: int|
                            0 <= k < gobj_ids(old(self).objects()).len() && gobj_ids(
                                old(self).objects(),
                            )[k] == gobj;
                        assert(old(self).objects()[k].id == gobj);
                    }
                }
            },
        }
    }

    /// Ticks every managed object once, in storage order, with the frame's
    /// delta. The set of objects and their ids are untouched.
    pub fn tick_all(&mut self, delta: u64)
        ensures
            final(self).objects().len() == old(self).objects().len(),
            forall|k: int|
                0 <= k < old(self).objects().len() ==> (#[trigger] final(self).objects()[k]).id
                    == old(self).objects()[k].id,
            final(self).spec_next_id() == old(self).spec_next_id(),
            final(self).spec_task_id() == old(self).spec_task_id(),
            old(self).wf() ==> final(self).wf(),
    {
        let n = self.gobjs.len();
        for i in 0..n
            invariant
                n == self.gobjs@.len(),
                forall|k: int|
                    0 <= k < n ==> (#[trigger] self.gobjs@[k]).id == old(self).objects()[k].id,
                self.next_id == old(self).spec_next_id(),
                self.task_id == old(self).spec_task_id(),
        {
            let ghost pre = self.gobjs@;
            let c = &mut self.gobjs[i];
            let o = &mut c.obj;
            o.tick(delta);
            proof {
                assert(forall|k: int| 0 <= k < n && k != i as int ==> self.gobjs@[k] == pre[k]);
                assert(self.gobjs@[i as int].id == pre[i as int].id);
            }
        }
        proof {
            if old(self).wf() {
                assert forall|a: int, b: int|
                    0 <= a <= b < self.gobjs@.len() implies (#[trigger] self.gobjs@[a]).id
                    < self.next_id && (a < b ==> self.gobjs@[a].id != (
                #[trigger] self.gobjs@[b]).id) by {
                    assert(self.gobjs@[a].id == old(self).objects()[a].id);
                    assert(self.gobjs@[b].id == old(self).objects()[b].id);
                }
            }
        }
    }

    /// Records the manager's own repeating-task id.
    pub fn set_task_id(&mut self, id: u64)
        ensures
            final(self).spec_task_id() == Some(id),
            final(self).objects() == old(self).objects(),
            final(self).spec_next_id() == old(self).spec_next_id(),
    {
        self.task_id = Some(id);
    }

    /// Clears and returns the manager's repeating-task id, for the caller
    /// to cancel.
    pub fn take_task_id(&mut self) -> (r: Option<u64>)
        ensures
            r == old(self).spec_task_id(),
            final(self).spec_task_id() is None,
            final(self).objects() == old(self).objects(),
            final(self).spec_next_id() == old(self).spec_next_id(),
    {
        self.task_id.take()
    }
}

impl<G: Gobject> LayerDispatch<LayerEvent> for GobjectManager<G> {
    /// The manager ignores registry broadcasts: its objects are ticked
    /// through `tick_all` by the frame-driven task instead.
    open spec fn dispatch_ensures(&self, event: LayerEvent, post: Self) -> bool {
        post == *self
    }

    fn dispatch(&mut self, _event: &LayerEvent) {
    }
}

/// The descriptor of the game-object manager plugin, which depends on the
/// task queue and on the engine-event receiver.
pub struct GobjectManagerPlugin {
    pub identity: u64,
    pub tasks_identity: u64,
    pub receiver_identity: u64,
}

impl GobjectManagerPlugin {
    pub fn info(&self) -> (r: PluginInfo)
        ensures
            r.identity == self.identity,
            r.deps@ == seq![self.tasks_identity, self.receiver_identity],
            r.name@ == "GobjectManager"@,
    {
        let info = PluginInfo::build(self.identity, "GobjectManager".to_owned());
        let info = info.dep(self.tasks_identity);
        let info = info.dep(self.receiver_identity);
        proof {
            assert(info.deps@ =~= seq![self.tasks_identity, self.receiver_identity]);
        }
        info
    }
}

/// An event-counting subscriber for the demo event kind: it remembers how
/// often the demo events arrived, and its record of received events is what
/// the delivery guarantees are stated over.
pub struct EngineEventCounter {
    pub seen_a: u64,
    pub seen_b: u64,
    pub log: Ghost<Seq<EngineEvent>>,
}

impl EngineEventCounter {
    pub fn new() -> (r: EngineEventCounter)
        ensures
            r.seen_a == 0,
            r.seen_b == 0,
            r.received() == Seq::<EngineEvent>::empty(),
    {
        EngineEventCounter { seen_a: 0, seen_b: 0, log: Ghost(Seq::empty()) }
    }
}

impl EventSubscriber<EngineEvent> for EngineEventCounter {
    open spec fn received(&self) -> Seq<EngineEvent> {
        self.log@
    }

    fn receive_event(&mut self, event: &EngineEvent) {
        match event {
            EngineEvent::TestEventA => {
                if self.seen_a < u64::MAX {
                    self.seen_a = self.seen_a + 1;
                }
            },
            EngineEvent::TestEventB => {
                if self.seen_b < u64::MAX {
                    self.seen_b = self.seen_b + 1;
                }
            },
        }
        self.log = Ghost(self.log@.push(*event));
    }
}

} // verus!
