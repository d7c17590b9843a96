//! Properties of the orchestrator, stated over the graph model and the
//! applied-state sets that `up` and `down` promise in their contracts.

use vstd::prelude::*;

use crate::migrator::down_target_ids;
use crate::migrator::up_target_ids;
use crate::model::GraphView;

verus! {

/// Idempotent no-op: a second `up` with the same target and no
/// intervening change to the store leaves the applied set exactly as the
/// first call left it.
pub proof fn lemma_up_idempotent(
    g: GraphView,
    to: Option<u128>,
    a0: Set<u128>,
    a1: Set<u128>,
    a2: Set<u128>,
)
    requires
        a1 == a0.union(up_target_ids(g, to)),
        a2 == a1.union(up_target_ids(g, to)),
    ensures
        a2 == a1,
{
    assert(a2 =~= a1);
}

/// Ancestor closure: driving `up` to a registered migration from an empty
/// store applies exactly the migration and its transitive dependencies,
/// regardless of what else is registered.
pub proof fn lemma_up_ancestor_closure(g: GraphView, x: u128, a1: Set<u128>)
    requires
        g.wf(),
        g.registered(x),
        a1 == Set::<u128>::empty().union(up_target_ids(g, Some(x))),
    ensures
        a1 == g.ancestor_ids(x),
        a1.contains(x),
        forall|d: u128| #[trigger] g.deps_of(x).contains(d) ==> a1.contains(d),
{
    assert(a1 =~= g.ancestor_ids(x));
    let i = g.index_of(x);
    assert(0 <= i < g.n() && g.ids[i] == x);
    g.lemma_reach_refl(i);
    assert(g.ancestor_idxs(i).contains(i));
    assert(g.ancestor_ids(x).contains(x));
    assert forall|d: u128| #[trigger] g.deps_of(x).contains(d) implies a1.contains(d) by {
        let j = choose|j: int|
            g.preds[i].contains(j) && 0 <= j < g.n() && g.ids[j] == d;
        assert(g.edge(j, i));
        g.lemma_reach_refl(i);
        g.lemma_reach_head(j, i, i);
        assert(g.ancestor_idxs(i).contains(j));
    }
}

/// Descendant closure with the boundary preserved: after `down` to a
/// registered, applied migration, the migration itself is still applied
/// and nothing that transitively depends on it is.
pub proof fn lemma_down_boundary(g: GraphView, x: u128, a0: Set<u128>, a1: Set<u128>)
    requires
        g.wf(),
        g.registered(x),
        a0.contains(x),
        a1 == a0.difference(down_target_ids(g, Some(x))),
    ensures
        a1.contains(x),
        forall|y: u128| #[trigger] g.strict_descendant_ids(x).contains(y) ==> !a1.contains(y),
{
    let i = g.index_of(x);
    assert(0 <= i < g.n() && g.ids[i] == x);
    assert(!down_target_ids(g, Some(x)).contains(x)) by {
        if down_target_ids(g, Some(x)).contains(x) {
            let j = choose|j: int|
                g.descendant_idxs(i).remove(i).contains(j) && 0 <= j < g.n() && g.ids[j] == x;
            assert(j == i);
        }
    }
    assert(g.strict_descendant_ids(x) == down_target_ids(g, Some(x)));
}

/// The induction base for topological safety: an empty applied-state set
/// is closed under dependencies. `up` and `down` each promise to keep a
/// closed set closed, so after any sequence of calls that started from an
/// empty store, every applied migration has all its dependencies applied.
pub proof fn lemma_empty_dep_closed(g: GraphView)
    ensures
        g.dep_closed(Set::<u128>::empty()),
{
}

/// With no target, `up` aims at every registered migration.
pub proof fn lemma_up_target_all(g: GraphView)
    requires
        g.wf(),
    ensures
        up_target_ids(g, None) == g.all_ids(),
{
    assert(up_target_ids(g, None) =~= g.all_ids()) by {
        assert forall|q: u128| g.all_ids().contains(q) implies up_target_ids(g, None).contains(
            q,
        ) by {
            let i = choose|i: int| 0 <= i < g.ids.len() && g.ids[i] == q;
            assert(g.all_idxs().contains(i));
        }
    }
}

/// With no target, `down` aims at every registered migration.
pub proof fn lemma_down_target_all(g: GraphView)
    requires
        g.wf(),
    ensures
        down_target_ids(g, None) == g.all_ids(),
{
    assert(down_target_ids(g, None) =~= g.all_ids()) by {
        assert forall|q: u128| g.all_ids().contains(q) implies down_target_ids(g, None).contains(
            q,
        ) by {
            let i = choose|i: int| 0 <= i < g.ids.len() && g.ids[i] == q;
            assert(g.all_idxs().contains(i));
        }
    }
}

} // verus!
