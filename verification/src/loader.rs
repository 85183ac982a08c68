//! The plugin host: discovery, order resolution, and the load/unload
//! lifecycle.
//!
//! Plugins wait in the *pending* set until [`PluginLoader::load_all`] moves
//! them, in resolved dependency order, onto the *loaded* stack; unloading
//! walks that stack strictly in reverse. The loader owns the service
//! registry and inserts each plugin's service under the plugin's identity.

use vstd::prelude::*;
use crate::error::{ThError, ThResult};
use crate::layer::LayerReg;
use crate::order::{deps_of, node_ids, partial_order_ok, position, ranked, sortable, topo_ok};
use crate::order::{lemma_deps_of_at, lemma_position_unique, lemma_ranked_sortable, lemma_stuck_unsortable, lemma_topo_covers, placed_before};
use crate::plugin::{Plugin, PluginInfo};
use vstd::set_lib::lemma_len_subset;

verus! {

/// A discovered plugin together with the descriptor it was discovered under.
///
/// The descriptor is read once, at discovery time; the loader goes by this
/// copy from then on.
pub struct Plug<P> {
    pub info: PluginInfo,
    pub plugin: P,
}

impl<P: Plugin> Plug<P> {
    pub fn new(plugin: P) -> (r: Plug<P>)
        ensures
            r.plugin == plugin,
    {
        let info = plugin.info();
        Plug { info, plugin }
    }

    /// The dependency identities this plugin declared.
    pub fn deps(&self) -> (r: &Vec<u64>)
        ensures
            r@ == self.info.deps@,
    {
        &self.info.deps
    }

    /// The identity this plugin was discovered under.
    pub fn id(&self) -> (r: u64)
        ensures
            r == self.info.identity,
    {
        self.info.identity
    }
}

/// The identities of a run of plugs, in order.
pub open spec fn plug_ids<P>(s: Seq<Plug<P>>) -> Seq<u64> {
    s.map_values(|p: Plug<P>| p.info.identity)
}

/// Whether any plug in the run carries `id`.
pub open spec fn plugs_have_id<P>(s: Seq<Plug<P>>, id: u64) -> bool {
    plug_ids(s).contains(id)
}

fn vec_contains_u64(v: &Vec<u64>, x: u64) -> (r: bool)
    ensures
        r == v@.contains(x),
{
    let n = v.len();
    for i in 0..n
        invariant
            n == v@.len(),
            forall|k: int| 0 <= k < i ==> v@[k] != x,
    {
        if v[i] == x {
            return true;
        }
    }
    false
}

fn all_contained(ds: &Vec<u64>, within: &Vec<u64>) -> (r: bool)
    ensures
        r == forall|k: int| 0 <= k < ds@.len() ==> within@.contains(#[trigger] ds@[k]),
{
    let n = ds.len();
    for i in 0..n
        invariant
            n == ds@.len(),
            forall|k: int| 0 <= k < i ==> within@.contains(#[trigger] ds@[k]),
    {
        if !vec_contains_u64(within, ds[i]) {
            return false;
        }
    }
    true
}

fn plugs_find<P: Plugin>(v: &Vec<Plug<P>>, id: u64) -> (r: Option<usize>)
    ensures
        match r {
            Some(i) => i < v@.len() && v@[i as int].info.identity == id,
            None => !plugs_have_id(v@, id),
        },
{
    let n = v.len();
    for i in 0..n
        invariant
            n == v@.len(),
            forall|k: int| 0 <= k < i ==> v@[k].info.identity != id,
    {
        if v[i].id() == id {
            return Some(i);
        }
    }
    proof {
        if plug_ids(v@).contains(id) {
            let k = choose|k: int| 0 <= k < plug_ids(v@).len() && plug_ids(v@)[k] == id;
            assert(v@[k].info.identity == id);
        }
    }
    None
}

/// The host of the plugin lifecycle.
pub struct PluginLoader<P: Plugin> {
    plugins: Vec<Plug<P>>,
    registry: LayerReg<<P as Plugin>::Service>,
    loaded: Vec<Plug<P>>,
    loaded_log: Ghost<Seq<u64>>,
    unloaded_log: Ghost<Seq<u64>>,
}

impl<P: Plugin> PluginLoader<P> {
    /// The pending (discovered, not loaded) plugins, in discovery order.
    pub closed spec fn pending(&self) -> Seq<Plug<P>> {
        self.plugins@
    }

    /// The loaded plugins, in load order (a stack: last loaded on top).
    pub closed spec fn loaded_plugs(&self) -> Seq<Plug<P>> {
        self.loaded@
    }

    /// The loader's service registry.
    pub closed spec fn spec_registry(&self) -> LayerReg<<P as Plugin>::Service> {
        self.registry
    }

    /// Every identity whose post-load notification ran, in that order.
    pub closed spec fn loaded_log(&self) -> Seq<u64> {
        self.loaded_log@
    }

    /// Every identity whose pre-unload notification ran, in that order.
    pub closed spec fn unloaded_log(&self) -> Seq<u64> {
        self.unloaded_log@
    }

    pub open spec fn pending_ids(&self) -> Seq<u64> {
        plug_ids(self.pending())
    }

    pub open spec fn loaded_ids(&self) -> Seq<u64> {
        plug_ids(self.loaded_plugs())
    }

    /// Whether `id` is known to the loader, pending or loaded.
    pub open spec fn has_identity(&self, id: u64) -> bool {
        self.pending_ids().contains(id) || self.loaded_ids().contains(id)
    }

    /// The pending dependency graph: each pending plugin's identity with its
    /// declared dependency identities.
    pub open spec fn graph(&self) -> Seq<(u64, Seq<u64>)> {
        self.pending().map_values(|p: Plug<P>| (p.info.identity, p.info.deps@))
    }

    /// Identity uniqueness, across both sets, and a sound registry.
    pub open spec fn wf(&self) -> bool {
        &&& self.pending_ids().no_duplicates()
        &&& self.loaded_ids().no_duplicates()
        &&& forall|id: u64|
            self.pending_ids().contains(id) ==> !self.loaded_ids().contains(id)
        &&& self.spec_registry().wf()
    }

    /// The pending graph's nodes are exactly the pending identities.
    pub proof fn lemma_graph_ids(&self)
        ensures
            node_ids(self.graph()) == self.pending_ids(),
            self.graph().len() == self.pending().len(),
            forall|k: int|
                0 <= k < self.pending().len() ==> #[trigger] self.graph()[k] == (
                self.pending()[k].info.identity,
                self.pending()[k].info.deps@,
                ),
    {
        assert(node_ids(self.graph()) =~= self.pending_ids());
    }

    /// In a well-formed loader, a pending identity is never loaded.
    pub proof fn lemma_wf_disjoint(&self, id: u64)
        requires
            self.wf(),
            self.pending_ids().contains(id),
        ensures
            !self.loaded_ids().contains(id),
    {
        assert(self.pending_ids().contains(id) ==> !self.loaded_ids().contains(id));
    }

    pub fn new() -> (r: PluginLoader<P>)
        ensures
            r.pending() == Seq::<Plug<P>>::empty(),
            r.loaded_plugs() == Seq::<Plug<P>>::empty(),
            r.spec_registry().entries().len() == 0,
            r.loaded_log() == Seq::<u64>::empty(),
            r.unloaded_log() == Seq::<u64>::empty(),
            r.wf(),
    {
        PluginLoader {
            plugins: Vec::new(),
            registry: LayerReg::new(),
            loaded: Vec::new(),
            loaded_log: Ghost(Seq::empty()),
            unloaded_log: Ghost(Seq::empty()),
        }
    }

    /// How many plugins wait in the pending set.
    pub fn pending_count(&self) -> (r: usize)
        ensures
            r == self.pending().len(),
    {
        self.plugins.len()
    }

    /// How many plugins are loaded.
    pub fn loaded_count(&self) -> (r: usize)
        ensures
            r == self.loaded_plugs().len(),
    {
        self.loaded.len()
    }

    /// Exclusive access to the registry; the plugin sets are untouched.
    pub fn registry_mut(&mut self) -> (r: &mut LayerReg<<P as Plugin>::Service>)
        ensures
            *r == old(self).spec_registry(),
            final(self).spec_registry() == *final(r),
            final(self).pending() == old(self).pending(),
            final(self).loaded_plugs() == old(self).loaded_plugs(),
            final(self).loaded_log() == old(self).loaded_log(),
            final(self).unloaded_log() == old(self).unloaded_log(),
    {
        &mut self.registry
    }

    /// Takes a plugin in: a fresh identity joins the pending set; an
    /// identity already known, pending or loaded, has the plugin handed back
    /// unconsumed.
    pub fn discover_plugin(&mut self, plugin: P) -> (r: Option<Plug<P>>)
        ensures
            r is Some ==> *final(self) == *old(self) && old(self).has_identity(
                r.unwrap().info.identity,
            ) && r.unwrap().plugin == plugin,
            r is None ==> (exists|pl: Plug<P>|
                pl.plugin == plugin && !old(self).has_identity(pl.info.identity)
                    && final(self).pending() == old(self).pending().push(pl)) && final(self).loaded_plugs() == old(self).loaded_plugs() && final(self).spec_registry() == old(self).spec_registry()
                && final(self).loaded_log() == old(self).loaded_log() && final(self).unloaded_log() == old(self).unloaded_log(),
            old(self).wf() ==> final(self).wf(),
    {
        let plug = Plug::new(plugin);
        let id = plug.id();
        let in_pending = plugs_find(&self.plugins, id).is_some();
        let in_loaded = plugs_find(&self.loaded, id).is_some();
        if in_pending || in_loaded {
            proof {
                if in_pending {
                    let i = choose|i: int|
                        0 <= i < self.pending().len() && self.pending()[i].info.identity == id;
                    assert(self.pending_ids()[i] == id);
                } else {
                    let i = choose|i: int|
                        0 <= i < self.loaded_plugs().len() && self.loaded_plugs()[i].info.identity
                            == id;
                    assert(self.loaded_ids()[i] == id);
                }
            }
            return Some(plug);
        }
        proof {
            if self.pending_ids().contains(id) {
                let k = choose|k: int|
                    0 <= k < self.pending_ids().len() && self.pending_ids()[k] == id;
                assert(self.pending()[k].info.identity == id);
            }
            if self.loaded_ids().contains(id) {
                let k = choose|k: int|
                    0 <= k < self.loaded_ids().len() && self.loaded_ids()[k] == id;
                assert(self.loaded_plugs()[k].info.identity == id);
            }
        }
        let ghost pre = self.plugins@;
        let ghost the_plug = plug;
        self.plugins.push(plug);
        proof {
            assert(plug_ids(self.plugins@) =~= plug_ids(pre).push(the_plug.info.identity));
            if old(self).wf() {
                assert forall|i: int, j: int|
                    0 <= i < j < self.pending_ids().len() implies self.pending_ids()[i]
                    != self.pending_ids()[j] by {
                    if j < pre.len() {
                        assert(plug_ids(pre)[i] == self.pending_ids()[i]);
                        assert(plug_ids(pre)[j] == self.pending_ids()[j]);
                    } else {
                        assert(self.pending_ids()[j] == the_plug.info.identity);
                        assert(plug_ids(pre)[i] == self.pending_ids()[i]);
                        assert(plug_ids(pre).contains(plug_ids(pre)[i]));
                    }
                }
                assert forall|x: u64| self.pending_ids().contains(x) implies !self.loaded_ids()
                    .contains(x) by {
                    let k = choose|k: int|
                        0 <= k < self.pending_ids().len() && self.pending_ids()[k] == x;
                    if k < pre.len() {
                        assert(plug_ids(pre)[k] == x);
                        assert(plug_ids(pre).contains(x));
                    }
                }
            }
        }
        None
    }

    /// The declared dependencies of a pending plugin, or nothing when `id`
    /// is not pending.
    fn deps_of(&self, id: u64) -> (r: Option<&Vec<u64>>)
        ensures
            match r {
                Some(ds) => self.pending_ids().contains(id) && (self.wf() ==> ds@ == deps_of(
                    self.graph(),
                    id,
                )),
                None => !self.pending_ids().contains(id),
            },
    {
        match plugs_find(&self.plugins, id) {
            Some(i) => {
                proof {
                    assert(self.pending_ids().contains(id)) by {
                        assert(self.pending_ids()[i as int] == id);
                    }
                    self.lemma_graph_ids();
                    if self.wf() {
                        assert(self.graph()[i as int].0 == id);
                        lemma_deps_of_at(self.graph(), i as int);
                        assert(self.graph()[i as int].1 == self.pending()[i as int].info.deps@);
                    }
                }
                Some(&self.plugins[i].info.deps)
            },
            None => {
                proof {
                    if self.pending_ids().contains(id) {
                        let k = choose|k: int|
                            0 <= k < self.pending_ids().len() && self.pending_ids()[k] == id;
                        assert(self.pending()[k].info.identity == id);
                    }
                }
                None
            },
        }
    }

    /// The declared dependencies of a plugin known to be pending.
    fn deps_of_pending(&self, id: u64) -> (r: &Vec<u64>)
        requires
            self.wf(),
            self.pending_ids().contains(id),
        ensures
            r@ == deps_of(self.graph(), id),
    {
        match self.deps_of(id) {
            Some(ds) => ds,
            None => vstd::pervasive::unreached(),
        }
    }

    /// Resolves a load order for the pending set by an iterative fixed
    /// point: any plugin whose dependencies are all already placed is
    /// appended, until a full scan makes no progress.
    ///
    /// Success yields a topological order over the pending graph; failure
    /// means no such order exists at all — a dependency cycle or a
    /// dependency missing from the pending set, the two undistinguished.
    pub fn dep_sort(&self) -> (r: ThResult<Vec<u64>>)
        requires
            self.wf(),
        ensures
            match r {
                Ok(order) => topo_ok(self.graph(), order@),
                Err(e) => e is PluginLoadOrder && !sortable(self.graph()),
            },
    {
        let ghost g = self.graph();
        proof {
            self.lemma_graph_ids();
        }

        let mut plugs: Vec<u64> = Vec::new();
        let n = self.plugins.len();
        for i in 0..n
            invariant
                n == self.pending().len(),
                plugs@ =~= self.pending_ids().take(i as int),
        {
            let p = &self.plugins[i];
            plugs.push(p.info.identity);
            proof {
                assert(plugs@ =~= self.pending_ids().take(i + 1));
            }
        }
        proof {
            assert(plugs@ =~= self.pending_ids());
            assert(plugs@ == node_ids(g));
        }

        let mut sorted: Vec<u64> = Vec::new();
        let mut progress = true;
        while progress
            invariant
                self.wf(),
                g == self.graph(),
                plugs@ == node_ids(g),
                partial_order_ok(g, sorted@),
                sorted@.len() <= plugs@.len(),
                !progress ==> forall|k: int|
                    0 <= k < plugs@.len() && !sorted@.contains(#[trigger] plugs@[k])
                        ==> exists|d: u64|
                        deps_of(g, plugs@[k]).contains(d) && !sorted@.contains(d),
            decreases plugs@.len() - sorted@.len() + (if progress { 1int } else { 0int }),
        {
            let before = sorted.len();
            let m = plugs.len();
            let mut idx: usize = 0;
            while idx < m
                invariant
                    self.wf(),
                    g == self.graph(),
                    plugs@ == node_ids(g),
                    m == plugs@.len(),
                    idx <= m,
                    partial_order_ok(g, sorted@),
                    before <= sorted@.len() <= plugs@.len(),
                    sorted@.len() == before ==> forall|k: int|
                        0 <= k < idx && !sorted@.contains(#[trigger] plugs@[k]) ==> exists|d: u64|
                            deps_of(g, plugs@[k]).contains(d) && !sorted@.contains(d),
                decreases m - idx,
            {
                let id = plugs[idx];
                proof {
                    assert(self.pending_ids().contains(id)) by {
                        self.lemma_graph_ids();
                        assert(plugs@[idx as int] == id);
                    }
                }
                if !vec_contains_u64(&sorted, id) {
                    let ds = self.deps_of_pending(id);
                    let ready = all_contained(ds, &sorted);
                    if ready {
                        let ghost pre = sorted@;
                        sorted.push(id);
                        proof {
                            assert(node_ids(g).contains(id)) by {
                                assert(node_ids(g)[idx as int] == id);
                            }
                            assert(partial_order_ok(g, sorted@)) by {
                                assert forall|i2: int, k2: int|
                                    0 <= i2 < sorted@.len() && 0 <= k2 < deps_of(
                                        g,
                                        sorted@[i2],
                                    ).len() implies placed_before(
                                    sorted@,
                                    #[trigger] deps_of(g, sorted@[i2])[k2],
                                    i2,
                                ) by {
                                    let d = deps_of(g, sorted@[i2])[k2];
                                    if i2 < pre.len() {
                                        assert(sorted@[i2] == pre[i2]);
                                        assert(0 <= k2 < deps_of(g, pre[i2]).len());
                                        assert(placed_before(pre, deps_of(g, pre[i2])[k2], i2));
                                        let j = choose|j: int| 0 <= j < i2 && pre[j] == d;
                                        assert(sorted@[j] == pre[j]);
                                        assert(sorted@[j] == d);
                                    } else {
                                        assert(sorted@[i2] == id);
                                        assert(ds@[k2] == d);
                                        assert(pre.contains(d));
                                        let j = choose|j: int| 0 <= j < pre.len() && pre[j] == d;
                                        assert(sorted@[j] == d);
                                        assert(0 <= j < i2);
                                    }
                                }
                                assert(sorted@.no_duplicates()) by {
                                    assert(forall|k: int|
                                        0 <= k < pre.len() ==> sorted@[k] == pre[k]);
                                }
                            }
                            assert(sorted@.len() <= plugs@.len()) by {
                                assert(plugs@.no_duplicates()) by {
                                    self.lemma_graph_ids();
                                }
                                sorted@.unique_seq_to_set();
                                plugs@.unique_seq_to_set();
                                assert(sorted@.to_set().subset_of(plugs@.to_set())) by {
                                    assert forall|x: u64|
                                        sorted@.to_set().contains(x) implies plugs@.to_set()
                                        .contains(x) by {
                                        assert(sorted@.contains(x));
                                        assert(node_ids(g).contains(x));
                                    }
                                }
                                lemma_len_subset(sorted@.to_set(), plugs@.to_set());
                            }
                        }
                    }
                }
                idx += 1;
            }
            progress = sorted.len() > before;
        }

        if sorted.len() == plugs.len() {
            proof {
                assert(topo_ok(g, sorted@));
            }
            Ok(sorted)
        } else {
            proof {
                assert(node_ids(g).no_duplicates());
                assert(plugs@.no_duplicates()) by {
                    self.lemma_graph_ids();
                }
                assert(exists|k: int|
                    0 <= k < g.len() && !sorted@.contains(#[trigger] g[k].0)) by {
                    if forall|k: int| 0 <= k < g.len() ==> sorted@.contains(#[trigger] g[k].0) {
                        sorted@.unique_seq_to_set();
                        plugs@.unique_seq_to_set();
                        assert(plugs@.to_set().subset_of(sorted@.to_set())) by {
                            assert forall|x: u64|
                                plugs@.to_set().contains(x) implies sorted@.to_set().contains(
                                x,
                            ) by {
                                let k = choose|k: int|
                                    0 <= k < plugs@.len() && plugs@[k] == x;
                                assert(g[k].0 == x);
                                assert(sorted@.contains(x));
                            }
                        }
                        lemma_len_subset(plugs@.to_set(), sorted@.to_set());
                        assert(false);
                    }
                }
                assert forall|k: int|
                    0 <= k < g.len() && !sorted@.contains(#[trigger] g[k].0) implies exists|d: u64|
                    deps_of(g, g[k].0).contains(d) && !sorted@.contains(d) by {
                    assert(plugs@[k] == g[k].0);
                }
                lemma_stuck_unsortable(g, sorted@);
            }
            Err(ThError::PluginLoadOrder)
        }
    }

    /// Loads one plugin that was just taken out of the pending set:
    /// constructs its service against the current registry, stores the
    /// service under the plugin's identity, notifies the plugin, and pushes
    /// it onto the loaded stack. Either failure — the plugin's own, or an
    /// occupied registry slot — leaves the loaded stack and the registry as
    /// they were; the plugin itself is consumed.
    fn load_plugin(&mut self, plug: Plug<P>) -> (r: ThResult<()>)
        requires
            old(self).wf(),
            !old(self).pending_ids().contains(plug.info.identity),
            !old(self).loaded_ids().contains(plug.info.identity),
        ensures
            final(self).wf(),
            final(self).pending() == old(self).pending(),
            final(self).unloaded_log() == old(self).unloaded_log(),
            r is Ok ==> !old(self).spec_registry().has_id(plug.info.identity) && (exists|
                p2: Plug<P>,
            |
                p2.info == plug.info && final(self).loaded_plugs() == old(self).loaded_plugs().push(p2)) && final(self).loaded_log() == old(self).loaded_log().push(plug.info.identity) && final(self).spec_registry().ids() == old(self).spec_registry().ids().push(plug.info.identity),
            r is Err ==> (r->Err_0 is PluginLoadFailed) && final(self).loaded_plugs() == old(self).loaded_plugs() && final(self).loaded_log() == old(self).loaded_log() && final(self).spec_registry().entries() == old(self).spec_registry().entries(),
    {
        let mut plug = plug;
        let id = plug.info.identity;
        match plug.plugin.load(&self.registry) {
            Ok(service) => {
                match self.registry.insert(id, service) {
                    Some(_rejected) => {
                        proof {
                            assert(self.spec_registry().entries() == old(self).spec_registry().entries());
                        }
                        Err(
                            ThError::PluginLoadFailed(
                                plug.info.name,
                                "the plugin's layer is already loaded".to_owned(),
                            ),
                        )
                    },
                    None => {
                        proof {
                            assert(self.spec_registry().ids() == old(self).spec_registry().ids().push(id)) by {
                                let ghost pre = old(self).spec_registry().entries();
                                let ghost post = self.spec_registry().entries();
                                assert(exists|l: crate::layer::AnyLayer<<P as Plugin>::Service>|
                                    l.spec_id() == id && post == pre.push(l));
                                let l = choose|l: crate::layer::AnyLayer<<P as Plugin>::Service>|
                                    l.spec_id() == id && post == pre.push(l);
                                assert(self.spec_registry().ids() =~= old(self).spec_registry().ids().push(id)) by {
                                    self.spec_registry().lemma_ids_index();
                                    old(self).spec_registry().lemma_ids_index();
                                }
                            }
                        }
                        plug.plugin.notify_loaded(&self.registry);
                        self.loaded_log = Ghost(self.loaded_log@.push(id));
                        let ghost the_plug = plug;
                        self.loaded.push(plug);
                        proof {
                            assert(final(self).wf()) by {
                                let ghost lpre = old(self).loaded_ids();
                                assert(plug_ids(self.loaded@) =~= lpre.push(id));
                                assert forall|i: int, j: int|
                                    0 <= i < j < self.loaded_ids().len() implies self.loaded_ids()[i]
                                    != self.loaded_ids()[j] by {
                                    if j < lpre.len() {
                                        assert(self.loaded_ids()[i] == lpre[i]);
                                        assert(self.loaded_ids()[j] == lpre[j]);
                                    } else {
                                        assert(self.loaded_ids()[j] == id);
                                        assert(self.loaded_ids()[i] == lpre[i]);
                                        assert(lpre.contains(lpre[i]));
                                    }
                                }
                                assert forall|x: u64|
                                    self.pending_ids().contains(x) implies !self.loaded_ids()
                                    .contains(x) by {
                                    if self.loaded_ids().contains(x) {
                                        let k = choose|k: int|
                                            0 <= k < self.loaded_ids().len()
                                                && self.loaded_ids()[k] == x;
                                        if k < lpre.len() {
                                            assert(lpre[k] == x);
                                            assert(lpre.contains(x));
                                        } else {
                                            assert(x == id);
                                        }
                                    }
                                }
                            }
                            assert(final(self).loaded_plugs() == old(self).loaded_plugs().push(
                                the_plug,
                            ));
                        }
                        Ok(())
                    },
                }
            },
            Err(e) => Err(ThError::PluginLoadFailed(plug.info.name, e)),
        }
    }

    /// Loads every pending plugin in resolved dependency order.
    ///
    /// An unresolvable graph fails up front with `PluginLoadOrder` and
    /// changes nothing — not one service is inserted. A plugin's own
    /// construction failure aborts the remaining loads at once and is
    /// wrapped in `PluginLoadFailed`; what loaded before it stays loaded,
    /// for the caller to unwind through [`PluginLoader::unload_all`].
    pub fn load_all(&mut self) -> (r: ThResult<()>)
        requires
            old(self).wf(),
        ensures
            final(self).wf(),
            final(self).unloaded_log() == old(self).unloaded_log(),
            !sortable(old(self).graph()) ==> (r matches Err(e) && e is PluginLoadOrder)
                && *final(self) == *old(self),
            (r matches Err(e) && e is PluginLoadOrder) ==> !sortable(old(self).graph()) && *final(self) == *old(self),
            r is Err ==> (r->Err_0 is PluginLoadOrder) || (r->Err_0 is PluginLoadFailed),
            r is Ok ==> sortable(old(self).graph()) && final(self).pending().len() == 0 && (exists|
                order: Seq<u64>,
            |
                topo_ok(old(self).graph(), order) && final(self).loaded_log() == old(self).loaded_log() + order && final(self).loaded_ids() == old(self).loaded_ids()
                    + order && final(self).spec_registry().ids() == old(self).spec_registry().ids()
                    + order),
            (r matches Err(e) && e is PluginLoadFailed) ==> exists|order: Seq<u64>, k: int|
                topo_ok(old(self).graph(), order) && 0 <= k < order.len() && final(self).loaded_log() == old(self).loaded_log() + order.take(k) && final(self).loaded_ids() == old(self).loaded_ids() + order.take(k) && final(self).spec_registry().ids() == old(self).spec_registry().ids() + order.take(k),
    {
        let order = match self.dep_sort() {
            Ok(o) => o,
            Err(e) => {
                return Err(e);
            },
        };
        let ghost g = old(self).graph();
        let ghost ord = order@;
        let n = order.len();
        let mut k: usize = 0;
        while k < n
            invariant
                self.wf(),
                old(self).wf(),
                n == ord.len(),
                k <= n,
                order@ == ord,
                topo_ok(g, ord),
                g == old(self).graph(),
                self.unloaded_log() == old(self).unloaded_log(),
                self.loaded_log() == old(self).loaded_log() + ord.take(k as int),
                self.loaded_ids() == old(self).loaded_ids() + ord.take(k as int),
                self.spec_registry().ids() == old(self).spec_registry().ids() + ord.take(k as int),
                self.pending_ids().to_set() =~= old(self).pending_ids().to_set().difference(
                    ord.take(k as int).to_set(),
                ),
            decreases n - k,
        {
            let id = order[k];
            proof {
                assert(ord[k as int] == id);
                assert(self.pending_ids().contains(id)) by {
                    old(self).lemma_graph_ids();
                    assert(node_ids(g).contains(ord[k as int]));
                    assert(old(self).pending_ids().to_set().contains(id));
                    assert(!ord.take(k as int).to_set().contains(id)) by {
                        if ord.take(k as int).contains(id) {
                            let j = choose|j: int|
                                0 <= j < k as int && ord.take(k as int)[j] == id;
                            assert(ord[j] == ord[k as int]);
                            assert(false);
                        }
                    }
                    assert(self.pending_ids().to_set().contains(id));
                }
            }
            match plugs_find(&self.plugins, id) {
                Some(i) => {
                    let ghost pre_pending = self.pending();
                    let plug = self.plugins.remove(i);
                    proof {
                        assert(plug.info.identity == id);
                        assert(plug_ids(self.plugins@) =~= plug_ids(pre_pending).remove(i as int));
                        assert forall|a: int, b: int|
                            0 <= a < b < self.pending_ids().len() implies self.pending_ids()[a]
                            != self.pending_ids()[b] by {
                            let pi = plug_ids(pre_pending);
                            let a2: int = if a < i as int { a } else { a + 1 };
                            let b2: int = if b < i as int { b } else { b + 1 };
                            assert(self.pending_ids()[a] == pi[a2]);
                            assert(self.pending_ids()[b] == pi[b2]);
                        }
                        assert(!self.pending_ids().contains(id)) by {
                            let pi = plug_ids(pre_pending);
                            if self.pending_ids().contains(id) {
                                let w = choose|w: int|
                                    0 <= w < self.pending_ids().len() && self.pending_ids()[w]
                                        == id;
                                let w2: int = if w < i as int { w } else { w + 1 };
                                assert(pi[w2] == id);
                                assert(pi[i as int] == id);
                                assert(w2 != i as int);
                                assert(false);
                            }
                        }
                        assert(!self.loaded_ids().contains(id)) by {
                            assert(self.loaded_ids() == old(self).loaded_ids() + ord.take(
                                k as int,
                            ));
                            if old(self).loaded_ids().contains(id) {
                                assert(old(self).pending_ids().contains(id)) by {
                                    old(self).lemma_graph_ids();
                                    assert(node_ids(g).contains(ord[k as int]));
                                }
                                old(self).lemma_wf_disjoint(id);
                                assert(false);
                            }
                            if ord.take(k as int).contains(id) {
                                let j = choose|j: int|
                                    0 <= j < k as int && ord.take(k as int)[j] == id;
                                assert(ord[j] == ord[k as int]);
                                assert(false);
                            }
                            if self.loaded_ids().contains(id) {
                                let w = choose|w: int|
                                    0 <= w < self.loaded_ids().len() && self.loaded_ids()[w] == id;
                                if w < old(self).loaded_ids().len() {
                                    assert(old(self).loaded_ids().contains(id));
                                } else {
                                    assert(ord.take(k as int).contains(id)) by {
                                        assert(ord.take(k as int)[w - old(self).loaded_ids().len()] == id);
                                    }
                                }
                                assert(false);
                            }
                        }
                        assert(self.wf()) by {
                            assert forall|x: u64|
                                self.pending_ids().contains(x) implies !self.loaded_ids().contains(
                                x,
                            ) by {
                                if self.pending_ids().contains(x) {
                                    let pi = plug_ids(pre_pending);
                                    let w = choose|w: int|
                                        0 <= w < self.pending_ids().len() && self.pending_ids()[w]
                                            == x;
                                    let w2: int = if w < i as int { w } else { w + 1 };
                                    assert(pi[w2] == x);
                                    assert(pi.contains(x));
                                }
                            }
                        }
                    }
                    let ghost mid = *self;
                    match self.load_plugin(plug) {
                        Ok(()) => {
                            proof {
                                assert(self.pending() == mid.pending());
                                let p2 = choose|p2: Plug<P>|
                                    p2.info == plug.info && self.loaded_plugs()
                                        == mid.loaded_plugs().push(p2);
                                assert(ord.take(k as int).push(id) =~= ord.take(k as int + 1));
                                assert(self.spec_registry().ids() =~= old(self).spec_registry().ids()
                                    + ord.take(k as int + 1)) by {
                                    assert(self.spec_registry().ids() == mid.spec_registry().ids().push(
                                        id,
                                    ));
                                    assert(mid.spec_registry().ids() == old(self).spec_registry().ids()
                                        + ord.take(k as int));
                                }
                                assert(self.loaded_ids() =~= old(self).loaded_ids() + ord.take(
                                    k as int + 1,
                                )) by {
                                    assert(plug_ids(mid.loaded_plugs().push(p2))
                                        =~= plug_ids(mid.loaded_plugs()).push(id));
                                    assert(mid.loaded_ids() == old(self).loaded_ids() + ord.take(
                                        k as int,
                                    ));
                                }
                                assert(self.loaded_log() =~= old(self).loaded_log() + ord.take(
                                    k as int + 1,
                                )) by {
                                    assert(self.loaded_log() == mid.loaded_log().push(id));
                                }
                                let pi = plug_ids(pre_pending);
                                assert(plug_ids(self.pending()) == pi.remove(i as int));
                                assert(pi.to_set() =~= old(self).pending_ids().to_set().difference(
                                    ord.take(k as int).to_set(),
                                ));
                                assert(pi.no_duplicates());
                                assert(pi[i as int] == id);
                                assert(self.pending_ids().to_set() =~= old(self).pending_ids().to_set().difference(
                                    ord.take(k as int + 1).to_set(),
                                )) by {
                                    assert forall|x: u64|
                                        self.pending_ids().to_set().contains(x) implies old(self).pending_ids().to_set().contains(x) && !ord.take(
                                        k as int + 1,
                                    ).to_set().contains(x) by {
                                        let w = choose|w: int|
                                            0 <= w < self.pending_ids().len()
                                                && self.pending_ids()[w] == x;
                                        let w2: int = if w < i as int {
                                            w
                                        } else {
                                            w + 1
                                        };
                                        assert(pi[w2] == x);
                                        assert(pi.contains(x));
                                        assert(pi.to_set().contains(x));
                                        assert(x != id) by {
                                            if x == id {
                                                assert(pi[w2] == pi[i as int]);
                                                assert(w2 != i as int);
                                            }
                                        }
                                        if ord.take(k as int + 1).contains(x) {
                                            let k1: int = k as int + 1;
                                            let j = choose|j: int|
                                                0 <= j < k1 && #[trigger] ord.take(k1)[j] == x;
                                            assert(ord[j] == x);
                                            assert(ord.take(k as int).contains(x)) by {
                                                assert(j != k as int);
                                                assert(ord.take(k as int)[j] == x);
                                            }
                                            assert(ord.take(k as int).to_set().contains(x));
                                            assert(false);
                                        }
                                    }
                                    assert forall|x: u64|
                                        old(self).pending_ids().to_set().contains(x) && !ord.take(
                                            k as int + 1,
                                        ).to_set().contains(x) implies self.pending_ids().to_set()
                                        .contains(x) by {
                                        assert(!ord.take(k as int).to_set().contains(x)) by {
                                            if ord.take(k as int).contains(x) {
                                                let j = choose|j: int|
                                                    0 <= j < k as int && ord.take(k as int)[j]
                                                        == x;
                                                assert(ord.take(k as int + 1)[j] == x);
                                                assert(ord.take(k as int + 1).contains(x));
                                            }
                                        }
                                        assert(x != id) by {
                                            assert(ord.take(k as int + 1)[k as int] == id);
                                            assert(ord.take(k as int + 1).contains(id));
                                        }
                                        assert(pi.to_set().contains(x));
                                        assert(pi.contains(x));
                                        let w2 = choose|w2: int|
                                            0 <= w2 < pi.len() && pi[w2] == x;
                                        assert(w2 != i as int);
                                        let w: int = if w2 < i as int {
                                            w2
                                        } else {
                                            w2 - 1
                                        };
                                        assert(self.pending_ids()[w] == x);
                                        assert(self.pending_ids().contains(x));
                                    }
                                }
                            }
                        },
                        Err(e) => {
                            proof {
                                assert(topo_ok(old(self).graph(), ord));
                                assert(0 <= (k as int) && (k as int) < ord.len());
                                assert(self.loaded_log() == old(self).loaded_log() + ord.take(
                                    k as int,
                                ));
                                assert(self.loaded_ids() == old(self).loaded_ids() + ord.take(
                                    k as int,
                                ));
                                assert(self.spec_registry().ids() == old(self).spec_registry().ids()
                                    + ord.take(k as int));
                            }
                            return Err(e);
                        },
                    }
                },
                None => {
                    proof {
                        assert(false);
                    }
                },
            }
            k += 1;
        }
        proof {
            assert(self.pending().len() == 0) by {
                assert(ord.take(n as int) =~= ord);
                old(self).lemma_graph_ids();
                assert forall|x: u64|
                    old(self).pending_ids().to_set().contains(x) implies ord.to_set().contains(
                    x,
                ) by {
                    // every pending identity is a graph node, and ord covers the graph
                    let w = choose|w: int|
                        0 <= w < old(self).pending_ids().len() && old(self).pending_ids()[w] == x;
                    assert(node_ids(g)[w] == x);
                    assert(node_ids(g).no_duplicates());
                    node_ids(g).unique_seq_to_set();
                    ord.unique_seq_to_set();
                    assert(ord.to_set().subset_of(node_ids(g).to_set())) by {
                        assert forall|y: u64|
                            ord.to_set().contains(y) implies node_ids(g).to_set().contains(y) by {
                            let j = choose|j: int| 0 <= j < ord.len() && ord[j] == y;
                            assert(node_ids(g).contains(ord[j]));
                        }
                    }
                    crate::order::lemma_subset_same_len(ord.to_set(), node_ids(g).to_set());
                    assert(node_ids(g).to_set().contains(x));
                }
                assert(self.pending_ids().to_set() =~= Set::<u64>::empty());
                self.pending_ids().lemma_cardinality_of_empty_set_is_0();
            }
        }
        Ok(())
    }

    /// Takes one plugin off the loaded stack's top: notifies it while its
    /// dependencies are still loaded, then moves it back to pending. The
    /// registry entry stays.
    fn unload_plugin(&mut self, plug: Plug<P>)
        requires
            old(self).wf(),
            !old(self).pending_ids().contains(plug.info.identity),
            !old(self).loaded_ids().contains(plug.info.identity),
        ensures
            final(self).wf(),
            final(self).loaded_plugs() == old(self).loaded_plugs(),
            final(self).loaded_log() == old(self).loaded_log(),
            final(self).spec_registry().entries() == old(self).spec_registry().entries(),
            exists|p2: Plug<P>|
                p2.info == plug.info && final(self).pending() == old(self).pending().push(p2),
            final(self).unloaded_log() == old(self).unloaded_log().push(plug.info.identity),
    {
        let mut plug = plug;
        let id = plug.info.identity;
        plug.plugin.notify_unloaded(&self.registry);
        self.unloaded_log = Ghost(self.unloaded_log@.push(id));
        let ghost the_plug = plug;
        let ghost pre = self.plugins@;
        self.plugins.push(plug);
        proof {
            assert(plug_ids(self.plugins@) =~= plug_ids(pre).push(id));
            assert forall|a: int, b: int|
                0 <= a < b < self.pending_ids().len() implies self.pending_ids()[a]
                != self.pending_ids()[b] by {
                let pi = plug_ids(pre);
                if b < pi.len() {
                    assert(self.pending_ids()[a] == pi[a]);
                    assert(self.pending_ids()[b] == pi[b]);
                } else {
                    assert(self.pending_ids()[b] == id);
                    assert(self.pending_ids()[a] == pi[a]);
                    assert(pi.contains(pi[a]));
                }
            }
            assert forall|x: u64|
                self.pending_ids().contains(x) implies !self.loaded_ids().contains(x) by {
                let k = choose|k: int|
                    0 <= k < self.pending_ids().len() && self.pending_ids()[k] == x;
                let pi = plug_ids(pre);
                if k < pi.len() {
                    assert(pi[k] == x);
                    assert(pi.contains(x));
                } else {
                    assert(x == id);
                }
            }
        }
    }

    /// Unloads everything, strictly in reverse load order: pops the loaded
    /// stack, notifying each plugin before it moves back to pending. The
    /// pre-unload notifications therefore run in exactly the reverse of the
    /// post-load notification order.
    pub fn unload_all(&mut self)
        requires
            old(self).wf(),
        ensures
            final(self).wf(),
            final(self).loaded_plugs().len() == 0,
            final(self).loaded_log() == old(self).loaded_log(),
            final(self).spec_registry().entries() == old(self).spec_registry().entries(),
            final(self).pending_ids() == old(self).pending_ids() + old(self).loaded_ids().reverse(),
            final(self).unloaded_log() == old(self).unloaded_log() + old(self).loaded_ids().reverse(),
    {
        let ghost l0 = old(self).loaded_ids();
        while self.loaded.len() > 0
            invariant
                self.wf(),
                self.loaded@.len() <= l0.len(),
                self.loaded_ids() == l0.take(self.loaded@.len() as int),
                self.loaded_log() == old(self).loaded_log(),
                self.spec_registry().entries() == old(self).spec_registry().entries(),
                self.pending_ids() == old(self).pending_ids() + l0.skip(
                    self.loaded@.len() as int,
                ).reverse(),
                self.unloaded_log() == old(self).unloaded_log() + l0.skip(
                    self.loaded@.len() as int,
                ).reverse(),
            decreases self.loaded@.len(),
        {
            let ghost prev = self.loaded@;
            let ghost len = self.loaded@.len() as int;
            let plug = match self.loaded.pop() {
                Some(p) => p,
                None => vstd::pervasive::unreached(),
            };
            proof {
                assert(self.loaded@ == prev.subrange(0, len - 1));
                assert(plug == prev[len - 1]);
                assert(plug_ids(prev) == l0.take(len));
                assert(plug.info.identity == plug_ids(prev)[len - 1]);
                assert(plug.info.identity == l0.take(len)[len - 1]);
                assert(plug.info.identity == l0[len - 1]);
                assert(plug_ids(self.loaded@) =~= l0.take(len - 1)) by {
                    assert forall|w: int|
                        0 <= w < len - 1 implies plug_ids(self.loaded@)[w] == l0.take(
                        len - 1,
                    )[w] by {
                        assert(self.loaded@[w] == prev[w]);
                        assert(plug_ids(self.loaded@)[w] == prev[w].info.identity);
                        assert(plug_ids(prev)[w] == prev[w].info.identity);
                        assert(l0.take(len)[w] == l0[w]);
                    }
                }
                assert(!self.loaded_ids().contains(plug.info.identity)) by {
                    if self.loaded_ids().contains(plug.info.identity) {
                        let lm1: int = len - 1;
                        let w = choose|w: int|
                            0 <= w < lm1 && #[trigger] l0.take(lm1)[w] == plug.info.identity;
                        assert(l0[w] == l0[len - 1]);
                        assert(l0.no_duplicates()) by {
                            assert forall|a: int, b: int|
                                0 <= a < b < l0.len() implies l0[a] != l0[b] by {
                                assert(old(self).loaded_ids()[a] != old(self).loaded_ids()[b]);
                            }
                        }
                        assert(false);
                    }
                }
                assert(!self.pending_ids().contains(plug.info.identity)) by {
                    if self.pending_ids().contains(plug.info.identity) {
                        assert(!self.loaded_ids().contains(plug.info.identity));
                        let w = choose|w: int|
                            0 <= w < self.pending_ids().len() && self.pending_ids()[w]
                                == plug.info.identity;
                        if w < old(self).pending_ids().len() {
                            assert(old(self).pending_ids()[w] == plug.info.identity);
                            assert(old(self).pending_ids().contains(plug.info.identity));
                            assert(old(self).loaded_ids().contains(plug.info.identity)) by {
                                assert(l0[len - 1] == plug.info.identity);
                            }
                            assert(false);
                        } else {
                            let w2 = w - old(self).pending_ids().len();
                            assert(l0.skip(len).reverse()[w2] == plug.info.identity);
                            assert(l0.skip(len).reverse().len() == l0.len() - len);
                            assert(l0.skip(len)[l0.len() - len - 1 - w2] == plug.info.identity);
                            assert(l0[l0.len() - 1 - w2] == plug.info.identity);
                            assert(l0.no_duplicates()) by {
                                assert forall|a: int, b: int|
                                    0 <= a < b < l0.len() implies l0[a] != l0[b] by {
                                    assert(old(self).loaded_ids()[a] != old(self).loaded_ids()[b]);
                                }
                            }
                            assert(l0.len() - 1 - w2 >= len);
                            assert(false);
                        }
                    }
                }
            }
            self.unload_plugin(plug);
            proof {
                assert(self.pending_ids() =~= old(self).pending_ids() + l0.skip(
                    len - 1,
                ).reverse()) by {
                    assert(l0.skip(len - 1).reverse() =~= l0.skip(len).reverse().push(
                        l0[len - 1],
                    ));
                    assert(self.pending_ids() =~= (old(self).pending_ids() + l0.skip(
                        len,
                    ).reverse()).push(l0[len - 1]));
                }
                assert(self.unloaded_log() =~= old(self).unloaded_log() + l0.skip(
                    len - 1,
                ).reverse()) by {
                    assert(l0.skip(len - 1).reverse() =~= l0.skip(len).reverse().push(
                        l0[len - 1],
                    ));
                }
            }
        }
        proof {
            assert(l0.skip(0) =~= l0);
            assert(self.loaded_plugs().len() == 0);
        }
    }
}

/// A pending set whose dependency identities form a DAG restricted to the
/// set — witnessed by a rank labelling under which every declared
/// dependency stays pending and strictly descends — always resolves: by
/// `dep_sort`'s contract, resolution then returns an order that puts every
/// plugin after all of its dependencies.
pub proof fn lemma_dag_resolves<P: Plugin>(loader: &PluginLoader<P>, rank: Map<u64, int>)
    requires
        loader.wf(),
        ranked(loader.graph(), rank),
    ensures
        sortable(loader.graph()),
{
    loader.lemma_graph_ids();
    lemma_ranked_sortable(loader.graph(), rank);
}

/// Two pending plugins that depend on each other leave no topological order
/// at all: `dep_sort` must fail, and by `load_all`'s contract an
/// unresolvable graph means the loader performs zero insertions.
pub proof fn lemma_cycle_unresolvable<P: Plugin>(loader: &PluginLoader<P>, a: u64, b: u64)
    requires
        loader.wf(),
        a != b,
        loader.pending_ids().contains(a),
        loader.pending_ids().contains(b),
        deps_of(loader.graph(), a).contains(b),
        deps_of(loader.graph(), b).contains(a),
    ensures
        !sortable(loader.graph()),
{
    loader.lemma_graph_ids();
    let g = loader.graph();
    if sortable(g) {
        let order = choose|order: Seq<u64>| topo_ok(g, order);
        lemma_topo_covers(g, order);
        assert(order.contains(a));
        assert(order.contains(b));
        let ia = choose|i: int| 0 <= i < order.len() && order[i] == a;
        let ib = choose|i: int| 0 <= i < order.len() && order[i] == b;
        lemma_position_unique(order, ia);
        lemma_position_unique(order, ib);

        let ka = choose|k: int| 0 <= k < deps_of(g, a).len() && deps_of(g, a)[k] == b;
        assert(deps_of(g, order[ia])[ka] == b);
        assert(placed_before(order, b, ia));
        let jb = choose|j: int| 0 <= j < ia && order[j] == b;
        lemma_position_unique(order, jb);
        assert(position(order, b) < position(order, a));

        let kb = choose|k: int| 0 <= k < deps_of(g, b).len() && deps_of(g, b)[k] == a;
        assert(deps_of(g, order[ib])[kb] == a);
        assert(placed_before(order, a, ib));
        let ja = choose|j: int| 0 <= j < ib && order[j] == a;
        lemma_position_unique(order, ja);
        assert(position(order, a) < position(order, b));
        assert(false);
    }
}

/// Unloading everything after loading everything undoes the lifecycle: the
/// loaded set is empty, every loaded plugin is pending again, and the
/// pre-unload notifications ran in exactly the reverse order of the
/// post-load notifications — whatever order the plugins were loaded in.
///
/// `before`, `loaded` and `after` are a loader's states before `load_all`,
/// between the two calls, and after `unload_all`; the premises are what
/// those two calls' contracts guarantee when loading succeeds.
pub proof fn lemma_unload_reverses_load<P: Plugin>(
    before: PluginLoader<P>,
    loaded: PluginLoader<P>,
    after: PluginLoader<P>,
    order: Seq<u64>,
)
    requires
        before.loaded_ids() == Seq::<u64>::empty(),
        loaded.loaded_log() == before.loaded_log() + order,
        loaded.loaded_ids() == before.loaded_ids() + order,
        loaded.unloaded_log() == before.unloaded_log(),
        after.loaded_plugs().len() == 0,
        after.loaded_log() == loaded.loaded_log(),
        after.unloaded_log() == loaded.unloaded_log() + loaded.loaded_ids().reverse(),
        after.pending_ids() == loaded.pending_ids() + loaded.loaded_ids().reverse(),
    ensures
        after.unloaded_log() == before.unloaded_log() + order.reverse(),
        after.loaded_log() == before.loaded_log() + order,
        after.pending_ids().to_set() == loaded.pending_ids().to_set().union(order.to_set()),
{
    assert(loaded.loaded_ids() =~= order);
    assert(after.pending_ids().to_set() =~= loaded.pending_ids().to_set().union(
        order.to_set(),
    )) by {
        let rev = order.reverse();
        assert forall|x: u64|
            after.pending_ids().to_set().contains(x) == loaded.pending_ids().to_set().union(
                order.to_set(),
            ).contains(x) by {
            if after.pending_ids().to_set().contains(x) {
                let w = choose|w: int|
                    0 <= w < after.pending_ids().len() && after.pending_ids()[w] == x;
                if w < loaded.pending_ids().len() {
                    assert(loaded.pending_ids()[w] == x);
                    assert(loaded.pending_ids().contains(x));
                    assert(loaded.pending_ids().to_set().contains(x));
                } else {
                    assert(rev[w - loaded.pending_ids().len()] == x);
                    assert(order[order.len() - 1 - (w - loaded.pending_ids().len())] == x);
                    assert(order.contains(x));
                    assert(order.to_set().contains(x));
                }
            }
            if loaded.pending_ids().to_set().contains(x) {
                let w = choose|w: int|
                    0 <= w < loaded.pending_ids().len() && loaded.pending_ids()[w] == x;
                assert(after.pending_ids()[w] == x);
                assert(after.pending_ids().contains(x));
                assert(after.pending_ids().to_set().contains(x));
            }
            if order.to_set().contains(x) {
                let i = choose|i: int| 0 <= i < order.len() && order[i] == x;
                assert(rev[order.len() - 1 - i] == x);
                assert(after.pending_ids()[loaded.pending_ids().len() + (order.len() - 1 - i)]
                    == x);
                assert(after.pending_ids().contains(x));
                assert(after.pending_ids().to_set().contains(x));
            }
        }
    }
}

} // verus!
