//! The dependency-order vocabulary.
//!
//! A dependency graph is a sequence of nodes, each an identity paired with
//! the identities it depends on. A load order is *topological* when it lists
//! every node exactly once and each node comes after all of its declared
//! dependencies. The loader's order resolution is specified against these
//! definitions, and the lemmas here settle when such an order exists.

use vstd::prelude::*;
use vstd::set_lib::lemma_len_subset;

verus! {

/// The identities of the graph's nodes, in node order.
pub open spec fn node_ids(g: Seq<(u64, Seq<u64>)>) -> Seq<u64> {
    g.map_values(|n: (u64, Seq<u64>)| n.0)
}

/// The declared dependencies of `id`, empty when `id` is no node.
pub open spec fn deps_of(g: Seq<(u64, Seq<u64>)>, id: u64) -> Seq<u64> {
    if node_ids(g).contains(id) {
        g[choose|i: int| 0 <= i < g.len() && g[i].0 == id].1
    } else {
        Seq::<u64>::empty()
    }
}

/// `d` occurs in `order` strictly before position `i`.
pub open spec fn placed_before(order: Seq<u64>, d: u64, i: int) -> bool {
    exists|j: int| 0 <= j < i && order[j] == d
}

/// `order` lists nodes of `g` at most once, each after all its
/// dependencies — the shape a partially built load order keeps throughout
/// resolution.
pub open spec fn partial_order_ok(g: Seq<(u64, Seq<u64>)>, order: Seq<u64>) -> bool {
    &&& order.no_duplicates()
    &&& forall|i: int| 0 <= i < order.len() ==> node_ids(g).contains(#[trigger] order[i])
    &&& forall|i: int, k: int|
        0 <= i < order.len() && 0 <= k < deps_of(g, order[i]).len() ==> placed_before(
            order,
            #[trigger] deps_of(g, order[i])[k],
            i,
        )
}

/// In a duplicate-free graph, `deps_of` at a node's identity is that node's
/// own dependency list.
pub proof fn lemma_deps_of_at(g: Seq<(u64, Seq<u64>)>, i: int)
    requires
        node_ids(g).no_duplicates(),
        0 <= i < g.len(),
    ensures
        deps_of(g, g[i].0) == g[i].1,
{
    let id = g[i].0;
    assert(node_ids(g)[i] == id);
    assert(node_ids(g).contains(id));
    assert forall|j: int| 0 <= j < g.len() && (#[trigger] g[j]).0 == id implies j == i by {
        assert(node_ids(g)[j] == g[j].0);
        assert(node_ids(g)[i] == g[i].0);
        if j != i {
            assert(node_ids(g)[j] == node_ids(g)[i]);
            assert(false);
        }
    }
}

/// `order` lists every node exactly once, each after all its dependencies.
pub open spec fn topo_ok(g: Seq<(u64, Seq<u64>)>, order: Seq<u64>) -> bool {
    &&& partial_order_ok(g, order)
    &&& order.len() == g.len()
}

/// Some topological order exists: the dependency identities, restricted to
/// the set, form an acyclic graph whose edges all stay inside the set.
pub open spec fn sortable(g: Seq<(u64, Seq<u64>)>) -> bool {
    exists|order: Seq<u64>| topo_ok(g, order)
}

/// The position of `x` in a duplicate-free order.
pub open spec fn position(order: Seq<u64>, x: u64) -> int {
    choose|i: int| 0 <= i < order.len() && order[i] == x
}

/// In a duplicate-free order, `position` really is the index.
pub proof fn lemma_position_unique(order: Seq<u64>, j: int)
    requires
        order.no_duplicates(),
        0 <= j < order.len(),
    ensures
        position(order, order[j]) == j,
{
    let x = order[j];
    assert(0 <= j < order.len() && order[j] == x);
    let i = position(order, x);
    assert(0 <= i < order.len() && order[i] == x);
    if i != j {
        assert(order[i] == order[j]);
        assert(false);
    }
}

/// A subset with the same finite cardinality is the whole set.
pub proof fn lemma_subset_same_len<A>(a: Set<A>, b: Set<A>)
    requires
        b.finite(),
        a.subset_of(b),
        a.len() == b.len(),
    ensures
        a =~= b,
{
    broadcast use vstd::set_lib::lemma_set_subset_finite;

    if exists|x: A| b.contains(x) && !a.contains(x) {
        let x = choose|x: A| b.contains(x) && !a.contains(x);
        let b2 = b.remove(x);
        assert(a.subset_of(b2));
        lemma_len_subset(a, b2);
        assert(b2.len() == b.len() - 1);
        assert(false);
    }
}

/// A nonempty finite set has an element of least measure.
pub proof fn lemma_exists_min<A>(s: Set<A>, f: spec_fn(A) -> int)
    ensures
        s.finite() && s.len() > 0 ==> exists|m: A|
            s.contains(m) && forall|v: A| s.contains(v) ==> f(m) <= #[trigger] f(v),
    decreases s.len(),
{
    if s.finite() && s.len() > 0 {
        let x = s.choose();
        assert(s.contains(x));
        let rest = s.remove(x);
        if rest.len() == 0 {
            rest.lemma_len0_is_empty();
            assert forall|v: A| s.contains(v) implies f(x) <= #[trigger] f(v) by {
                if v != x {
                    assert(rest.contains(v));
                }
            }
            assert(s.contains(x) && forall|v: A| s.contains(v) ==> f(x) <= #[trigger] f(v));
        } else {
            lemma_exists_min(rest, f);
            let m0 = choose|m: A|
                rest.contains(m) && forall|v: A| rest.contains(v) ==> f(m) <= #[trigger] f(v);
            if f(x) <= f(m0) {
                assert forall|v: A| s.contains(v) implies f(x) <= #[trigger] f(v) by {
                    if v != x {
                        assert(rest.contains(v));
                        assert(f(m0) <= f(v));
                    }
                }
                assert(s.contains(x) && forall|v: A| s.contains(v) ==> f(x) <= #[trigger] f(v));
            } else {
                assert forall|v: A| s.contains(v) implies f(m0) <= #[trigger] f(v) by {
                    if v != x {
                        assert(rest.contains(v));
                    }
                }
                assert(s.contains(m0) && forall|v: A| s.contains(v) ==> f(m0) <= #[trigger] f(v));
            }
        }
    }
}

/// A rank labelling witnesses acyclicity: every declared dependency stays
/// inside the node set and strictly descends in rank. A dependency graph,
/// restricted to its own node set, is a directed acyclic graph exactly when
/// such a labelling exists.
pub open spec fn ranked(g: Seq<(u64, Seq<u64>)>, rank: Map<u64, int>) -> bool {
    forall|k: int, d: int|
        0 <= k < g.len() && 0 <= d < g[k].1.len() ==> node_ids(g).contains(#[trigger] g[k].1[d])
            && rank[g[k].1[d]] < rank[g[k].0]
}

/// Any topological order covers every node identity.
pub proof fn lemma_topo_covers(g: Seq<(u64, Seq<u64>)>, order: Seq<u64>)
    requires
        node_ids(g).no_duplicates(),
        topo_ok(g, order),
    ensures
        forall|x: u64| node_ids(g).contains(x) ==> order.contains(x),
{
    broadcast use vstd::seq_lib::group_seq_lib_default;
    broadcast use vstd::set_lib::lemma_set_subset_finite;

    let ids = node_ids(g);
    ids.unique_seq_to_set();
    order.unique_seq_to_set();
    assert(order.to_set().subset_of(ids.to_set())) by {
        assert forall|x: u64| order.to_set().contains(x) implies ids.to_set().contains(x) by {
            let i = choose|i: int| 0 <= i < order.len() && order[i] == x;
            assert(ids.contains(order[i]));
        }
    }
    lemma_subset_same_len(order.to_set(), ids.to_set());
    assert forall|x: u64| ids.contains(x) implies order.contains(x) by {
        assert(ids.to_set().contains(x));
        assert(order.to_set().contains(x));
    }
}

/// Under a rank labelling, a partial order that has not placed every node
/// can always be extended, so a full topological order exists.
proof fn lemma_ranked_completes(g: Seq<(u64, Seq<u64>)>, rank: Map<u64, int>, placed: Seq<u64>)
    requires
        node_ids(g).no_duplicates(),
        ranked(g, rank),
        partial_order_ok(g, placed),
        placed.len() <= g.len(),
    ensures
        sortable(g),
    decreases g.len() - placed.len(),
{
    broadcast use vstd::seq_lib::group_seq_lib_default;
    broadcast use vstd::set_lib::lemma_set_subset_finite;

    let ids = node_ids(g);
    if placed.len() == g.len() {
        assert(topo_ok(g, placed));
        assert(sortable(g));
    } else {
        // Some node is unplaced.
        ids.unique_seq_to_set();
        placed.unique_seq_to_set();
        assert(placed.to_set().subset_of(ids.to_set())) by {
            assert forall|x: u64| placed.to_set().contains(x) implies ids.to_set().contains(
                x,
            ) by {
                let i = choose|i: int| 0 <= i < placed.len() && placed[i] == x;
                assert(ids.contains(placed[i]));
            }
        }
        let unplaced = ids.to_set().difference(placed.to_set());
        assert(unplaced.len() > 0) by {
            if unplaced.len() == 0 {
                unplaced.lemma_len0_is_empty();
                assert(ids.to_set().subset_of(placed.to_set())) by {
                    assert forall|x: u64| ids.to_set().contains(x) implies placed.to_set()
                        .contains(x) by {
                        assert(!unplaced.contains(x));
                    }
                }
                lemma_len_subset(ids.to_set(), placed.to_set());
                assert(false);
            }
        }

        // Take an unplaced node of least rank: all its dependencies are
        // ranked lower, hence already placed.
        let f = |x: u64| rank[x];
        lemma_exists_min(unplaced, f);
        let m = choose|m: u64|
            unplaced.contains(m) && forall|v: u64| unplaced.contains(v) ==> f(m) <= #[trigger] f(
                v,
            );
        assert(ids.to_set().contains(m));
        assert(ids.contains(m));
        let km = choose|k: int| 0 <= k < ids.len() && ids[k] == m;
        assert(g[km].0 == m);
        lemma_deps_of_at(g, km);

        let placed2 = placed.push(m);
        assert(partial_order_ok(g, placed2)) by {
            assert(placed2.no_duplicates()) by {
                assert(!placed.contains(m));
                assert(forall|k: int| 0 <= k < placed.len() ==> placed2[k] == placed[k]);
            }
            assert forall|i: int| 0 <= i < placed2.len() implies ids.contains(
                #[trigger] placed2[i],
            ) by {
                if i < placed.len() {
                    assert(placed2[i] == placed[i]);
                } else {
                    assert(placed2[i] == m);
                }
            }
            assert forall|i: int, k: int|
                0 <= i < placed2.len() && 0 <= k < deps_of(g, placed2[i]).len() implies placed_before(
                placed2,
                #[trigger] deps_of(g, placed2[i])[k],
                i,
            ) by {
                let d = deps_of(g, placed2[i])[k];
                if i < placed.len() {
                    assert(placed2[i] == placed[i]);
                    assert(placed_before(placed, deps_of(g, placed[i])[k], i));
                    let j = choose|j: int| 0 <= j < i && placed[j] == d;
                    assert(placed2[j] == d);
                } else {
                    assert(placed2[i] == m);
                    assert(deps_of(g, m) == g[km].1);
                    assert(g[km].1[k] == d);
                    assert(ids.contains(d) && rank[d] < rank[m]);
                    assert(placed.contains(d)) by {
                        if !placed.to_set().contains(d) {
                            assert(unplaced.contains(d));
                            assert(f(m) <= f(d));
                            assert(false);
                        }
                    }
                    let j = choose|j: int| 0 <= j < placed.len() && placed[j] == d;
                    assert(placed2[j] == d);
                }
            }
        }
        lemma_ranked_completes(g, rank, placed2);
    }
}

/// A graph with a rank labelling — a DAG whose edges stay inside the node
/// set — always has a topological order.
pub proof fn lemma_ranked_sortable(g: Seq<(u64, Seq<u64>)>, rank: Map<u64, int>)
    requires
        node_ids(g).no_duplicates(),
        ranked(g, rank),
    ensures
        sortable(g),
{
    lemma_ranked_completes(g, rank, Seq::empty());
}

/// When order resolution is stuck — some node is unplaced, and every
/// unplaced node still waits for an unplaced dependency — no topological
/// order exists at all.
///
/// This is the heart of the failure direction: a cycle, or a dependency
/// missing from the set, leaves the fixed-point scan stuck, and this lemma
/// turns "stuck" into "impossible".
pub proof fn lemma_stuck_unsortable(g: Seq<(u64, Seq<u64>)>, placed: Seq<u64>)
    requires
        node_ids(g).no_duplicates(),
        exists|k: int| 0 <= k < g.len() && !placed.contains(#[trigger] g[k].0),
        forall|k: int|
            0 <= k < g.len() && !placed.contains(#[trigger] g[k].0) ==> exists|d: u64|
                deps_of(g, g[k].0).contains(d) && !placed.contains(d),
    ensures
        !sortable(g),
{
    broadcast use vstd::seq_lib::group_seq_lib_default;
    broadcast use vstd::set_lib::lemma_set_subset_finite;

    if sortable(g) {
        let order = choose|order: Seq<u64>| topo_ok(g, order);

        // The order covers exactly the node identities.
        let ids = node_ids(g);
        assert(ids.len() == g.len());
        ids.unique_seq_to_set();
        order.unique_seq_to_set();
        assert(order.to_set().subset_of(ids.to_set())) by {
            assert forall|x: u64| order.to_set().contains(x) implies ids.to_set().contains(
                x,
            ) by {
                let i = choose|i: int| 0 <= i < order.len() && order[i] == x;
                assert(ids.contains(order[i]));
            }
        }
        lemma_subset_same_len(order.to_set(), ids.to_set());

        // The unplaced identities, of which there is at least one.
        let unplaced = ids.to_set().difference(placed.to_set());
        let k0 = choose|k: int| 0 <= k < g.len() && !placed.contains(#[trigger] g[k].0);
        assert(ids[k0] == g[k0].0);
        assert(ids.to_set().contains(g[k0].0));
        assert(!placed.to_set().contains(g[k0].0));
        assert(unplaced.contains(g[k0].0));
        assert(unplaced.finite());
        assert(unplaced.len() > 0) by {
            if unplaced.len() == 0 {
                unplaced.lemma_len0_is_empty();
            }
        }

        // Take the unplaced identity that comes earliest in the order.
        let pos = |x: u64| position(order, x);
        lemma_exists_min(unplaced, pos);
        let m = choose|m: u64|
            unplaced.contains(m) && forall|v: u64| unplaced.contains(v) ==> pos(m) <= #[trigger] pos(
                v,
            );

        // m is a node identity, so it sits somewhere in the order.
        assert(ids.to_set().contains(m));
        assert(order.to_set().contains(m));
        let im = choose|i: int| 0 <= i < order.len() && order[i] == m;
        lemma_position_unique(order, im);

        // m is unplaced, so some dependency d of m is unplaced too.
        let km = choose|k: int| 0 <= k < ids.len() && ids[k] == m;
        assert(g[km].0 == m);
        assert(!placed.contains(m));
        let d = choose|d: u64| deps_of(g, g[km].0).contains(d) && !placed.contains(d);
        let kd = choose|k: int| 0 <= k < deps_of(g, m).len() && deps_of(g, m)[k] == d;

        // The order puts d strictly before m.
        assert(order[im] == m);
        assert(deps_of(g, order[im])[kd] == d);
        assert(placed_before(order, d, im));
        let jd = choose|j: int| 0 <= j < im && order[j] == d;
        lemma_position_unique(order, jd);
        assert(pos(d) == jd);
        assert(pos(d) < pos(m));

        // But d is itself unplaced, so m's minimality says otherwise.
        assert(ids.to_set().contains(d)) by {
            assert(ids.contains(order[jd]));
        }
        assert(unplaced.contains(d));
        assert(pos(m) <= pos(d));
        assert(false);
    }
}

} // verus!
