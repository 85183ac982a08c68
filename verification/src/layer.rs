//! The identity-keyed service registry.
//!
//! A *layer* is a service value produced by a plugin's load step. The
//! registry stores at most one layer per identity and never overwrites: an
//! insert into an occupied slot hands the rejected value back to the caller.
//!
//! The kernel never inspects what a layer is made of, so the registry is
//! generic over the service payload `S`: an application chooses one payload
//! type (typically a sum over all its service kinds) and the registry maps a
//! plain `u64` identity to it. The host thread owns the registry and hands
//! out borrows; what crosses threads is messages, never the map itself.

use vstd::prelude::*;
use vstd::pervasive::unreached;

verus! {

/// The capability to observe a broadcast event.
///
/// Every stored service exposes this; [`LayerReg::dispatch`] drives it.
/// `dispatch_ensures` is the transition relation the implementor declares
/// for one observation of an event — what the registry's broadcast contract
/// promises of every stored entry is exactly each entry's own relation, so
/// an event provably reaches every service once.
pub trait LayerDispatch<E>: Sized {
    spec fn dispatch_ensures(&self, event: E, post: Self) -> bool;

    fn dispatch(&mut self, event: &E)
        ensures
            old(self).dispatch_ensures(*event, *final(self)),
    ;
}

/// An owning cell holding one service value.
pub struct Layer<T> {
    value: T,
}

impl<T> Layer<T> {
    pub closed spec fn spec_value(&self) -> T {
        self.value
    }

    pub fn new(value: T) -> (r: Layer<T>)
        ensures
            r.spec_value() == value,
    {
        Layer { value }
    }

    /// Read access to the held service.
    pub fn read(&self) -> (r: &T)
        ensures
            *r == self.spec_value(),
    {
        &self.value
    }

    /// Exclusive access to the held service.
    pub fn write(&mut self) -> (r: &mut T)
        ensures
            *r == old(self).spec_value(),
            final(self).spec_value() == *final(r),
    {
        &mut self.value
    }

    /// Gives the service back, consuming the cell.
    pub fn into_inner(self) -> (r: T)
        ensures
            r == self.spec_value(),
    {
        self.value
    }
}

/// A service value tagged with the identity it is registered under.
pub struct AnyLayer<S> {
    id: u64,
    layer: Layer<S>,
}

impl<S> AnyLayer<S> {
    pub closed spec fn spec_id(&self) -> u64 {
        self.id
    }

    pub closed spec fn spec_value(&self) -> S {
        self.layer.spec_value()
    }

    /// The entry as it stands after its service value was replaced.
    pub closed spec fn update_value(l: AnyLayer<S>, v: S) -> AnyLayer<S> {
        AnyLayer { id: l.id, layer: Layer { value: v } }
    }

    /// `update_value` changes the service and nothing else.
    pub proof fn lemma_update_value(l: AnyLayer<S>, v: S)
        ensures
            Self::update_value(l, v).spec_id() == l.spec_id(),
            Self::update_value(l, v).spec_value() == v,
    {
    }

    pub fn new(id: u64, value: S) -> (r: AnyLayer<S>)
        ensures
            r.spec_id() == id,
            r.spec_value() == value,
    {
        AnyLayer { id, layer: Layer::new(value) }
    }

    pub fn id(&self) -> (r: u64)
        ensures
            r == self.spec_id(),
    {
        self.id
    }

    /// Read access to the tagged service.
    pub fn read(&self) -> (r: &S)
        ensures
            *r == self.spec_value(),
    {
        self.layer.read()
    }

    /// Exclusive access to the tagged service; the identity tag is untouched.
    pub fn write(&mut self) -> (r: &mut S)
        ensures
            *r == old(self).spec_value(),
            *final(self) == Self::update_value(*old(self), *final(r)),
    {
        self.layer.write()
    }

    /// Gives the untagged service cell back, consuming the tag.
    pub fn into_inner(self) -> (r: Layer<S>)
        ensures
            r.spec_value() == self.spec_value(),
    {
        self.layer
    }
}

/// The registry: a map from identity to service, in insertion order.
pub struct LayerReg<S> {
    layers: Vec<AnyLayer<S>>,
}

impl<S> LayerReg<S> {
    /// The stored entries, oldest first.
    pub closed spec fn entries(&self) -> Seq<AnyLayer<S>> {
        self.layers@
    }

    /// The identities in storage order.
    pub open spec fn ids(&self) -> Seq<u64> {
        self.entries().map_values(|l: AnyLayer<S>| l.spec_id())
    }

    pub open spec fn has_id(&self, id: u64) -> bool {
        self.ids().contains(id)
    }

    /// At most one entry per identity.
    pub open spec fn wf(&self) -> bool {
        forall|i: int, j: int|
            0 <= i < j < self.entries().len() ==> self.entries()[i].spec_id()
                != self.entries()[j].spec_id()
    }

    /// The storage position of an identity, if present.
    pub open spec fn index_of(&self, id: u64) -> int {
        choose|i: int| 0 <= i < self.entries().len() && self.entries()[i].spec_id() == id
    }

    /// The registry as a map from identity to service value.
    pub open spec fn as_map(&self) -> Map<u64, S> {
        Map::new(
            |id: u64| self.has_id(id),
            |id: u64| self.entries()[self.index_of(id)].spec_value(),
        )
    }

    /// `has_id` is the same question as membership in `ids()`, element-wise.
    pub proof fn lemma_ids_index(&self)
        ensures
            self.ids().len() == self.entries().len(),
            forall|k: int|
                0 <= k < self.entries().len() ==> self.ids()[k] == self.entries()[k].spec_id(),
    {
    }

    pub fn new() -> (r: LayerReg<S>)
        ensures
            r.entries() == Seq::<AnyLayer<S>>::empty(),
            r.wf(),
    {
        LayerReg { layers: Vec::new() }
    }

    /// The storage position of `id`, searched from the front.
    fn find(&self, id: u64) -> (r: Option<usize>)
        ensures
            match r {
                Some(i) => i < self.entries().len() && self.entries()[i as int].spec_id() == id,
                None => !self.has_id(id),
            },
    {
        proof {
            self.lemma_ids_index();
        }
        let n = self.layers.len();
        for i in 0..n
            invariant
                n == self.entries().len(),
                forall|k: int| 0 <= k < i ==> self.entries()[k].spec_id() != id,
        {
            if self.layers[i].id() == id {
                return Some(i);
            }
        }
        proof {
            self.lemma_ids_index();
            if self.ids().contains(id) {
                let k = choose|k: int| 0 <= k < self.ids().len() && self.ids()[k] == id;
                assert(self.entries()[k].spec_id() == id);
            }
        }
        None
    }

    /// Stores a pre-tagged layer; an occupied identity rejects the layer and
    /// hands it back unconsumed.
    pub fn insert_any(&mut self, layer: AnyLayer<S>) -> (r: Option<AnyLayer<S>>)
        ensures
            old(self).has_id(layer.spec_id()) ==> r == Some(layer) && final(self).entries()
                == old(self).entries(),
            !old(self).has_id(layer.spec_id()) ==> r is None && final(self).entries()
                == old(self).entries().push(layer),
            old(self).wf() ==> final(self).wf(),
    {
        proof {
            self.lemma_ids_index();
        }
        match self.find(layer.id()) {
            Some(i) => {
                proof {
                    assert(old(self).ids()[i as int] == layer.spec_id());
                }
                Some(layer)
            },
            None => {
                let ghost pre = self.layers@;
                self.layers.push(layer);
                proof {
                    if old(self).wf() {
                        assert forall|i: int, j: int|
                            0 <= i < j < self.entries().len() implies self.entries()[i].spec_id()
                            != self.entries()[j].spec_id() by {
                            if j < pre.len() {
                                assert(self.entries()[i] == pre[i]);
                                assert(self.entries()[j] == pre[j]);
                            } else {
                                assert(self.entries()[j] == layer);
                                assert(self.entries()[i] == pre[i]);
                                assert(old(self).ids()[i] == pre[i].spec_id());
                            }
                        }
                    }
                }
                None
            },
        }
    }

    /// Stores `layer` under `id`; an occupied identity rejects the value and
    /// hands it back unconsumed.
    pub fn insert(&mut self, id: u64, layer: S) -> (r: Option<S>)
        ensures
            old(self).has_id(id) ==> r == Some(layer) && final(self).entries() == old(self).entries(),
            !old(self).has_id(id) ==> r is None && (exists|l: AnyLayer<S>|
                l.spec_id() == id && l.spec_value() == layer && final(self).entries() == old(self).entries().push(l)),
            old(self).wf() ==> final(self).wf(),
    {
        match self.find(id) {
            Some(i) => {
                proof {
                    self.lemma_ids_index();
                    assert(old(self).ids()[i as int] == id);
                }
                Some(layer)
            },
            None => {
                let tagged = AnyLayer::new(id, layer);
                let r = self.insert_any(tagged);
                proof {
                    assert(r is None);
                }
                None
            },
        }
    }

    /// A fresh insert extends the map view by exactly the new binding;
    /// every earlier binding — in particular the first holder of any
    /// identity — is untouched, so a lookup keeps reflecting it.
    pub proof fn lemma_insert_extends_map(pre: Self, post: Self, l: AnyLayer<S>)
        requires
            pre.wf(),
            !pre.has_id(l.spec_id()),
            post.entries() == pre.entries().push(l),
        ensures
            post.wf(),
            post.as_map() =~= pre.as_map().insert(l.spec_id(), l.spec_value()),
    {
        pre.lemma_ids_index();
        post.lemma_ids_index();
        let n = pre.entries().len() as int;
        assert forall|i: int, j: int|
            0 <= i < j < post.entries().len() implies post.entries()[i].spec_id()
            != post.entries()[j].spec_id() by {
            if j < n {
                assert(post.entries()[i] == pre.entries()[i]);
                assert(post.entries()[j] == pre.entries()[j]);
            } else {
                assert(post.entries()[j] == l);
                assert(post.entries()[i] == pre.entries()[i]);
                assert(pre.ids()[i] == pre.entries()[i].spec_id());
                assert(pre.ids().contains(pre.ids()[i]));
            }
        }
        assert forall|x: u64| #[trigger] post.has_id(x) implies x == l.spec_id() || pre.has_id(
            x,
        ) by {
            let k = choose|k: int| 0 <= k < post.ids().len() && post.ids()[k] == x;
            if k < n {
                assert(pre.ids()[k] == x);
            } else {
                assert(post.entries()[k] == l);
            }
        }
        assert forall|x: u64| pre.has_id(x) implies #[trigger] post.has_id(x) by {
            let k = choose|k: int| 0 <= k < pre.ids().len() && pre.ids()[k] == x;
            assert(post.ids()[k] == x);
        }
        assert(post.has_id(l.spec_id())) by {
            assert(post.ids()[n] == l.spec_id());
        }
        assert forall|x: u64| #[trigger] post.has_id(x) implies post.as_map()[x]
            == pre.as_map().insert(l.spec_id(), l.spec_value())[x] by {
            let w = post.index_of(x);
            assert(post.entries()[w].spec_id() == x) by {
                let k = choose|k: int| 0 <= k < post.ids().len() && post.ids()[k] == x;
                assert(post.entries()[k].spec_id() == x);
            }
            if x == l.spec_id() {
                assert(post.entries()[n].spec_id() == x);
                assert(w == n);
                assert(post.as_map()[x] == l.spec_value());
            } else {
                assert(pre.has_id(x));
                let v = pre.index_of(x);
                assert(pre.entries()[v].spec_id() == x) by {
                    let k = choose|k: int| 0 <= k < pre.ids().len() && pre.ids()[k] == x;
                    assert(pre.entries()[k].spec_id() == x);
                }
                assert(w != n);
                assert(post.entries()[w] == pre.entries()[w]);
                assert(w == v);
                assert(post.as_map()[x] == pre.as_map()[x]);
            }
        }
    }

    /// Looks an identity up.
    pub fn get(&self, id: u64) -> (r: Option<&AnyLayer<S>>)
        ensures
            match r {
                Some(l) => self.has_id(id) && l.spec_id() == id && (self.wf() ==> l.spec_value()
                    == self.as_map()[id]),
                None => !self.has_id(id),
            },
    {
        match self.find(id) {
            Some(i) => {
                let l = &self.layers[i];
                proof {
                    self.lemma_ids_index();
                    assert(self.ids()[i as int] == id);
                    if self.wf() {
                        let w = self.index_of(id);
                        assert(self.entries()[w].spec_id() == id);
                        assert(w == i as int);
                    }
                }
                Some(l)
            },
            None => None,
        }
    }

    /// Exclusive access to the service stored under `id`, which must be
    /// present. Only that one entry moves, and only its service value.
    pub fn get_mut(&mut self, id: u64) -> (r: &mut S)
        requires
            old(self).has_id(id),
            old(self).wf(),
        ensures
            *r == old(self).entries()[old(self).index_of(id)].spec_value(),
            final(self).entries() == old(self).entries().update(
                old(self).index_of(id),
                AnyLayer::update_value(old(self).entries()[old(self).index_of(id)], *final(r)),
            ),
    {
        proof {
            self.lemma_ids_index();
        }
        match self.find(id) {
            Some(i) => {
                proof {
                    let w = old(self).index_of(id);
                    assert(old(self).entries()[w].spec_id() == id);
                    assert(w == i as int);
                }
                let entry = &mut self.layers[i];
                entry.write()
            },
            None => unreached(),
        }
    }

    /// Replacing one entry's service value leaves the identity map alone.
    ///
    /// This is the companion of [`LayerReg::get_mut`]: whatever a caller does
    /// through the handed-out reference, the identities and their order are
    /// untouched.
    pub proof fn lemma_update_keeps_ids(pre: Self, post: Self, i: int, v: S)
        requires
            0 <= i < pre.entries().len(),
            post.entries() == pre.entries().update(
                i,
                AnyLayer::update_value(pre.entries()[i], v),
            ),
        ensures
            post.ids() == pre.ids(),
            pre.wf() ==> post.wf(),
    {
        pre.lemma_ids_index();
        post.lemma_ids_index();
        AnyLayer::lemma_update_value(pre.entries()[i], v);
        assert(post.ids() =~= pre.ids());
    }

    /// Looks an identity up that the caller knows is present.
    pub fn get_unchecked(&self, id: u64) -> (r: &AnyLayer<S>)
        requires
            self.has_id(id),
        ensures
            r.spec_id() == id,
            self.wf() ==> r.spec_value() == self.as_map()[id],
    {
        match self.get(id) {
            Some(l) => l,
            None => unreached(),
        }
    }

    /// Removes and returns the service stored under `id`; later entries keep
    /// their relative order.
    pub fn remove(&mut self, id: u64) -> (r: Option<Layer<S>>)
        ensures
            old(self).has_id(id) <==> r is Some,
            r is Some ==> exists|i: int|
                0 <= i < old(self).entries().len() && old(self).entries()[i].spec_id() == id
                    && r.unwrap().spec_value() == old(self).entries()[i].spec_value() && final(self).entries() == old(self).entries().remove(i),
            r is None ==> final(self).entries() == old(self).entries(),
            old(self).wf() ==> final(self).wf() && !final(self).has_id(id),
    {
        proof {
            self.lemma_ids_index();
        }
        match self.find(id) {
            Some(i) => {
                proof {
                    assert(old(self).ids()[i as int] == id);
                }
                let entry = self.layers.remove(i);
                proof {
                    if old(self).wf() {
                        self.lemma_ids_index();
                        assert forall|k: int|
                            0 <= k < self.ids().len() implies self.ids()[k] != id by {
                            if k < i as int {
                                assert(self.entries()[k] == old(self).entries()[k]);
                            } else {
                                assert(self.entries()[k] == old(self).entries()[k + 1]);
                            }
                        }
                    }
                }
                Some(entry.into_inner())
            },
            None => None,
        }
    }

    /// How many services are stored.
    pub fn len(&self) -> (r: usize)
        ensures
            r == self.entries().len(),
    {
        self.layers.len()
    }

    /// Broadcasts `event` to every stored service in storage order.
    ///
    /// The identities and their order are untouched, and every stored
    /// service observes the event exactly once: each entry's new value
    /// stands in the transition relation its own `dispatch` declares, so
    /// no entry is skipped and none is delivered to twice.
    pub fn dispatch<E>(&mut self, event: &E) where S: LayerDispatch<E>
        ensures
            final(self).ids() == old(self).ids(),
            final(self).entries().len() == old(self).entries().len(),
            forall|k: int|
                0 <= k < old(self).entries().len() ==> (#[trigger] final(self).entries()[k]).spec_id()
                    == old(self).entries()[k].spec_id() && old(self).entries()[k].spec_value().dispatch_ensures(
                    *event,
                    final(self).entries()[k].spec_value(),
                ),
    {
        let n = self.layers.len();
        for i in 0..n
            invariant
                n == self.entries().len(),
                n == old(self).entries().len(),
                self.ids() == old(self).ids(),
                forall|k: int|
                    0 <= k < i ==> (#[trigger] self.entries()[k]).spec_id() == old(self).entries()[k].spec_id()
                        && old(self).entries()[k].spec_value().dispatch_ensures(
                        *event,
                        self.entries()[k].spec_value(),
                    ),
                forall|k: int|
                    i <= k < n ==> #[trigger] self.entries()[k] == old(self).entries()[k],
        {
            let ghost pre = self.layers@;
            let entry = &mut self.layers[i];
            let value = entry.write();
            value.dispatch(event);
            proof {
                assert(self.layers@[i as int].spec_id() == pre[i as int].spec_id());
                assert(forall|k: int|
                    0 <= k < pre.len() && k != i as int ==> self.layers@[k] == pre[k]);
                assert(self.ids() =~= old(self).ids()) by {
                    self.lemma_ids_index();
                    assert(forall|k: int|
                        0 <= k < pre.len() ==> pre.map_values(|l: AnyLayer<S>| l.spec_id())[k]
                            == pre[k].spec_id());
                }
            }
        }
    }
}

} // verus!
