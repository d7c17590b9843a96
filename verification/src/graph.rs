//! The dependency graph: an adjacency-list DAG of registered migrations.
//!
//! Nodes are stored in an arena (a growable vector) and referred to by
//! index; each node carries the list of indices it depends on. The graph
//! maintains acyclicity as an invariant: every mutation either cannot create
//! a cycle or is checked exactly and rejected without effect.

use vstd::prelude::*;

use crate::migration::DependencyError;
use crate::migration::Migration;
use crate::model::GraphView;
use crate::model::idx_set;
use crate::model::to_int_seq;

verus! {

/// How many entries of a boolean sequence are set.
spec fn count_true(s: Seq<bool>) -> int
    decreases s.len(),
{
    if s.len() == 0 {
        0
    } else {
        count_true(s.drop_last()) + if s.last() {
            1int
        } else {
            0int
        }
    }
}

proof fn lemma_count_true_bounds(s: Seq<bool>)
    ensures
        0 <= count_true(s) <= s.len(),
    decreases s.len(),
{
    if s.len() > 0 {
        lemma_count_true_bounds(s.drop_last());
    }
}

proof fn lemma_count_true_update(s: Seq<bool>, i: int)
    requires
        0 <= i < s.len(),
        !s[i],
    ensures
        count_true(s.update(i, true)) == count_true(s) + 1,
    decreases s.len(),
{
    if i == s.len() - 1 {
        assert(s.update(i, true).drop_last() =~= s.drop_last());
    } else {
        assert(s.update(i, true).drop_last() =~= s.drop_last().update(i, true));
        lemma_count_true_update(s.drop_last(), i);
    }
}

proof fn lemma_count_true_all(s: Seq<bool>)
    requires
        count_true(s) == s.len(),
    ensures
        forall|i: int| 0 <= i < s.len() ==> s[i],
    decreases s.len(),
{
    if s.len() > 0 {
        lemma_count_true_bounds(s.drop_last());
        lemma_count_true_all(s.drop_last());
        assert forall|i: int| 0 <= i < s.len() implies s[i] by {
            if i < s.len() - 1 {
                assert(s.drop_last()[i]);
            }
        }
    }
}

proof fn lemma_count_true_full(s: Seq<bool>)
    requires
        forall|i: int| 0 <= i < s.len() ==> s[i],
    ensures
        count_true(s) == s.len(),
    decreases s.len(),
{
    if s.len() > 0 {
        assert forall|i: int| 0 <= i < s.drop_last().len() implies s.drop_last()[i] by {
            assert(s[i]);
        }
        lemma_count_true_full(s.drop_last());
    }
}

/// Whether `list` holds the index `x`.
fn contains_usize(list: &Vec<usize>, x: usize) -> (r: bool)
    ensures
        r == idx_set(list@).contains(x as int),
{
    let mut j: usize = 0;
    while j < list.len()
        invariant
            j <= list@.len(),
            forall|t: int| 0 <= t < j ==> #[trigger] list@[t] != x,
        decreases list@.len() - j,
    {
        if list[j] == x {
            assert(list@[j as int] as int == x as int);
            return true;
        }
        j += 1;
    }
    false
}

/// Whether every index in `dep_list` is marked in `placed`.
fn all_placed(dep_list: &Vec<usize>, placed: &Vec<bool>) -> (r: bool)
    requires
        forall|j: int|
            0 <= j < dep_list@.len() ==> (#[trigger] dep_list@[j] as int) < placed@.len(),
    ensures
        r <==> forall|j: int| 0 <= j < dep_list@.len() ==> placed@[#[trigger] dep_list@[j] as int],
{
    let mut j: usize = 0;
    while j < dep_list.len()
        invariant
            j <= dep_list@.len(),
            forall|t: int|
                0 <= t < dep_list@.len() ==> (#[trigger] dep_list@[t] as int) < placed@.len(),
            forall|t: int| 0 <= t < j ==> placed@[#[trigger] dep_list@[t] as int],
        decreases dep_list@.len() - j,
    {
        if !placed[dep_list[j]] {
            return false;
        }
        j += 1;
    }
    true
}

/// Finds the lowest-index node that is not yet placed but has every
/// dependency placed.
fn scan_ready(preds: &Vec<Vec<usize>>, placed: &Vec<bool>) -> (r: Option<usize>)
    requires
        placed@.len() == preds@.len(),
        forall|c: int, j: int|
            0 <= c < preds@.len() && 0 <= j < preds@[c]@.len() ==> (#[trigger] preds@[c]@[j] as int)
                < preds@.len(),
    ensures
        match r {
            Some(v) => {
                &&& (v as int) < preds@.len()
                &&& !placed@[v as int]
                &&& forall|j: int|
                    0 <= j < preds@[v as int]@.len() ==> placed@[#[trigger] preds@[v as int]@[j] as int]
            },
            None => forall|v: int|
                0 <= v < preds@.len() && !placed@[v] ==> exists|j: int|
                    0 <= j < preds@[v]@.len() && !placed@[preds@[v]@[j] as int],
        },
{
    let mut v: usize = 0;
    while v < preds.len()
        invariant
            v <= preds@.len(),
            placed@.len() == preds@.len(),
            forall|c: int, j: int|
                0 <= c < preds@.len() && 0 <= j < preds@[c]@.len() ==> (
                #[trigger] preds@[c]@[j] as int) < preds@.len(),
            forall|u: int|
                0 <= u < v && !placed@[u] ==> exists|j: int|
                    0 <= j < preds@[u]@.len() && !placed@[preds@[u]@[j] as int],
        decreases preds@.len() - v,
    {
        if !placed[v] && all_placed(&preds[v], placed) {
            return Some(v);
        }
        v += 1;
    }
    None
}

/// Invariant of the placing loop: `placed` marks exactly the nodes of
/// `order`, which lists each node at most once and only after all of its
/// dependencies.
spec fn topo_inv(g: GraphView, placed: Seq<bool>, order: Seq<usize>) -> bool {
    &&& placed.len() == g.n()
    &&& (forall|j: int| 0 <= j < order.len() ==> (#[trigger] order[j] as int) < g.n())
    &&& (forall|v: int|
        0 <= v < g.n() ==> (placed[v] <==> exists|j: int|
            0 <= j < order.len() && #[trigger] order[j] as int == v))
    &&& count_true(placed) == order.len()
    &&& (forall|j1: int, j2: int|
        0 <= j1 < order.len() && 0 <= j2 < order.len() && j1 != j2 ==> order[j1] != order[j2])
    &&& (forall|j: int, d: int|
        0 <= j < order.len() && #[trigger] g.edge(d, order[j] as int) ==> exists|j2: int|
            0 <= j2 < j && #[trigger] order[j2] as int == d)
}

proof fn lemma_topo_init(g: GraphView, placed: Seq<bool>)
    requires
        placed.len() == g.n(),
        forall|i: int| 0 <= i < placed.len() ==> !placed[i],
    ensures
        topo_inv(g, placed, Seq::<usize>::empty()),
{
    lemma_count_true_zero(placed);
}

/// Placing a ready node (unplaced, all dependencies placed) preserves the
/// loop invariant.
proof fn lemma_topo_step(
    g: GraphView,
    placed: Seq<bool>,
    order: Seq<usize>,
    v: usize,
    dep_list: Seq<usize>,
)
    requires
        g.wf(),
        topo_inv(g, placed, order),
        (v as int) < g.n(),
        !placed[v as int],
        g.preds[v as int] == idx_set(dep_list),
        forall|j: int| 0 <= j < dep_list.len() ==> placed[#[trigger] dep_list[j] as int],
    ensures
        topo_inv(g, placed.update(v as int, true), order.push(v)),
{
    let placed2 = placed.update(v as int, true);
    let order2 = order.push(v);
    lemma_count_true_update(placed, v as int);
    assert forall|u: int| 0 <= u < g.n() implies (placed2[u] <==> exists|j: int|
        0 <= j < order2.len() && #[trigger] order2[j] as int == u) by {
        if u == v as int {
            assert(order2[order.len() as int] as int == u);
        } else {
            if placed2[u] {
                let j = choose|j: int| 0 <= j < order.len() && #[trigger] order[j] as int == u;
                assert(order2[j] as int == u);
            } else if exists|j: int| 0 <= j < order2.len() && #[trigger] order2[j] as int == u {
                let j = choose|j: int| 0 <= j < order2.len() && #[trigger] order2[j] as int == u;
                assert(order[j] as int == u);
            }
        }
    }
    assert forall|j1: int, j2: int|
        0 <= j1 < order2.len() && 0 <= j2 < order2.len() && j1 != j2 implies order2[j1]
        != order2[j2] by {
        if j1 == order.len() as int && order2[j1] == order2[j2] {
            assert(order[j2] as int == v as int);
            assert(placed[v as int]);
        }
        if j2 == order.len() as int && order2[j1] == order2[j2] {
            assert(order[j1] as int == v as int);
            assert(placed[v as int]);
        }
    }
    assert forall|j: int, d: int|
        0 <= j < order2.len() && #[trigger] g.edge(d, order2[j] as int) implies exists|j2: int|
        0 <= j2 < j && #[trigger] order2[j2] as int == d by {
        if j < order.len() {
            assert(g.edge(d, order[j] as int));
            let j2 = choose|j2: int| 0 <= j2 < j && #[trigger] order[j2] as int == d;
            assert(order2[j2] as int == d);
        } else {
            assert(g.preds[v as int].contains(d));
            let t = choose|t: int| 0 <= t < dep_list.len() && dep_list[t] as int == d;
            assert(placed[d]);
            let j2 = choose|j2: int| 0 <= j2 < order.len() && #[trigger] order[j2] as int == d;
            assert(order2[j2] as int == d);
        }
    }
}

/// A stall reported over adjacency lists is a stall over graph edges.
proof fn lemma_stall_edges(g: GraphView, preds: Seq<Vec<usize>>, placed: Seq<bool>)
    requires
        g.n() == preds.len(),
        g.preds == Seq::new(preds.len(), |c: int| idx_set(preds[c]@)),
        forall|v: int|
            0 <= v < preds.len() && !placed[v] ==> exists|j: int|
                0 <= j < preds[v]@.len() && !placed[preds[v]@[j] as int],
    ensures
        forall|v: int|
            0 <= v < g.n() && !placed[v] ==> exists|d: int| g.edge(d, v) && !placed[d],
{
    assert forall|v: int| 0 <= v < g.n() && !placed[v] implies exists|d: int|
        g.edge(d, v) && !placed[d] by {
        let j = choose|j: int| 0 <= j < preds[v]@.len() && !placed[preds[v]@[j] as int];
        let d = preds[v]@[j] as int;
        assert(g.preds[v].contains(d));
        assert(g.edge(d, v) && !placed[d]);
    }
}

/// When every node was placed, the produced listing is a topological order.
proof fn lemma_topo_ok(g: GraphView, placed: Seq<bool>, order: Seq<usize>)
    requires
        g.wf(),
        topo_inv(g, placed, order),
        order.len() == g.n(),
    ensures
        g.valid_order(to_int_seq(order)),
{
    lemma_count_true_all(placed);
    let o = to_int_seq(order);
    assert forall|v: int| 0 <= v < g.n() implies #[trigger] o.contains(v) by {
        assert(placed[v]);
        let j = choose|j: int| 0 <= j < order.len() && #[trigger] order[j] as int == v;
        assert(o[j] == v);
    }
    assert forall|i: int, j: int|
        0 <= i < o.len() && 0 <= j < o.len() && g.edge(o[i], o[j]) implies i < j by {
        assert(g.edge(o[i], order[j] as int));
        let j2 = choose|j2: int| 0 <= j2 < j && #[trigger] order[j2] as int == o[i];
        if i != j2 {
            assert(order[i] != order[j2]);
        }
    }
    assert(g.valid_order(o));
}

proof fn lemma_not_all_placed(placed: Seq<bool>, k: int)
    requires
        count_true(placed) == k,
        k < placed.len(),
    ensures
        exists|i: int| 0 <= i < placed.len() && !placed[i],
{
    if forall|i: int| 0 <= i < placed.len() ==> placed[i] {
        lemma_count_true_full(placed);
        assert(false);
    }
}

/// When the loop stalls before placing every node, the graph is cyclic.
proof fn lemma_topo_err(g: GraphView, placed: Seq<bool>)
    requires
        g.wf(),
        placed.len() == g.n(),
        exists|i: int| 0 <= i < g.n() && !placed[i],
        forall|v: int|
            0 <= v < g.n() && !placed[v] ==> exists|d: int| g.edge(d, v) && !placed[d],
    ensures
        !g.acyclic(),
{
    let blocked = Set::new(|i: int| 0 <= i < g.n() && !placed[i]);
    let w = choose|i: int| 0 <= i < g.n() && !placed[i];
    assert(blocked.contains(w));
    assert forall|c: int| #[trigger] blocked.contains(c) implies exists|d: int|
        g.edge(d, c) && blocked.contains(d) by {
        let d = choose|d: int| g.edge(d, c) && !placed[d];
        assert(0 <= d < g.n());
        assert(g.edge(d, c) && blocked.contains(d));
    }
    g.lemma_blocked_not_acyclic(blocked);
}

/// Computes a topological order of the graph whose adjacency lists are
/// `preds`, or reports exactly that none exists. The scan always picks the
/// lowest-index ready node, so the result is a pure function of the graph.
///
/// On failure the returned marks describe the stalled state: some node is
/// unplaced, and every unplaced node has an unplaced dependency.
fn compute_topo_order(preds: &Vec<Vec<usize>>, Ghost(g): Ghost<GraphView>) -> (r: Result<
    Vec<usize>,
    Vec<bool>,
>)
    requires
        g.wf(),
        g.n() == preds@.len(),
        g.preds == Seq::new(preds@.len(), |c: int| idx_set(preds@[c]@)),
    ensures
        match r {
            Ok(o) => o@.len() == g.n() && g.valid_order(to_int_seq(o@)),
            Err(placed) => {
                &&& placed@.len() == g.n()
                &&& exists|i: int| 0 <= i < g.n() && !placed@[i]
                &&& forall|c: int|
                    0 <= c < g.n() && !placed@[c] ==> exists|d: int|
                        g.edge(d, c) && !placed@[d]
                &&& !g.acyclic()
            },
        },
{
    let n = preds.len();
    proof {
        assert forall|c: int, j: int|
            0 <= c < preds@.len() && 0 <= j < preds@[c]@.len() implies (
        #[trigger] preds@[c]@[j] as int) < preds@.len() by {
            assert(g.preds[c].contains(preds@[c]@[j] as int));
        }
    }
    let mut placed: Vec<bool> = Vec::new();
    let mut k: usize = 0;
    while k < n
        invariant
            k <= n,
            placed@.len() == k,
            forall|i: int| 0 <= i < k ==> !placed@[i],
        decreases n - k,
    {
        placed.push(false);
        k += 1;
    }
    let mut order: Vec<usize> = Vec::new();
    let mut stalled = false;
    proof {
        lemma_topo_init(g, placed@);
    }
    while !stalled && order.len() < n
        invariant
            g.wf(),
            g.n() == preds@.len(),
            g.preds == Seq::new(preds@.len(), |c: int| idx_set(preds@[c]@)),
            n == preds@.len(),
            forall|c: int, j: int|
                0 <= c < preds@.len() && 0 <= j < preds@[c]@.len() ==> (
                #[trigger] preds@[c]@[j] as int) < preds@.len(),
            topo_inv(g, placed@, order@),
            stalled ==> forall|v: int|
                0 <= v < g.n() && !placed@[v] ==> exists|d: int| g.edge(d, v) && !placed@[d],
        decreases n - order@.len(), (if stalled {
            0int
        } else {
            1int
        }),
    {
        match scan_ready(preds, &placed) {
            Some(v) => {
                proof {
                    assert(g.preds[v as int] == idx_set(preds@[v as int]@));
                    lemma_topo_step(g, placed@, order@, v, preds@[v as int]@);
                }
                placed.set(v, true);
                order.push(v);
            },
            None => {
                proof {
                    lemma_stall_edges(g, preds@, placed@);
                }
                stalled = true;
            },
        }
    }
    if order.len() == n {
        proof {
            lemma_topo_ok(g, placed@, order@);
        }
        Ok(order)
    } else {
        proof {
            lemma_count_true_bounds(placed@);
            lemma_not_all_placed(placed@, order@.len() as int);
            lemma_topo_err(g, placed@);
        }
        Err(placed)
    }
}

proof fn lemma_count_true_zero(s: Seq<bool>)
    requires
        forall|i: int| 0 <= i < s.len() ==> !s[i],
    ensures
        count_true(s) == 0,
    decreases s.len(),
{
    if s.len() > 0 {
        assert forall|i: int| 0 <= i < s.drop_last().len() implies !s.drop_last()[i] by {
            assert(!s[i]);
        }
        lemma_count_true_zero(s.drop_last());
    }
}

/// A copy of a list of node indices.
fn copy_indices(list: &Vec<usize>) -> (r: Vec<usize>)
    ensures
        r@ == list@,
{
    let mut r: Vec<usize> = Vec::new();
    let mut t: usize = 0;
    while t < list.len()
        invariant
            t <= list@.len(),
            r@.len() == t,
            forall|u: int| 0 <= u < t ==> r@[u] == list@[u],
        decreases list@.len() - t,
    {
        r.push(list[t]);
        t += 1;
    }
    proof {
        assert(r@ =~= list@);
    }
    r
}

/// The indices whose mark is set, in increasing order.
fn collect_marked(marks: &Vec<bool>) -> (r: Vec<usize>)
    ensures
        forall|v: int|
            #[trigger] idx_set(r@).contains(v) <==> (0 <= v < marks@.len() && marks@[v]),
        forall|t1: int, t2: int|
            0 <= t1 < r@.len() && 0 <= t2 < r@.len() && t1 != t2 ==> r@[t1] != r@[t2],
{
    let mut r: Vec<usize> = Vec::new();
    let mut i: usize = 0;
    while i < marks.len()
        invariant
            i <= marks@.len(),
            forall|t: int|
                0 <= t < r@.len() ==> (#[trigger] r@[t] as int) < i && marks@[r@[t] as int],
            forall|v: int|
                0 <= v < i && marks@[v] ==> exists|t: int|
                    0 <= t < r@.len() && #[trigger] r@[t] as int == v,
            forall|t1: int, t2: int|
                0 <= t1 < r@.len() && 0 <= t2 < r@.len() && t1 != t2 ==> r@[t1] != r@[t2],
        decreases marks@.len() - i,
    {
        let ghost r0 = r@;
        if marks[i] {
            r.push(i);
            proof {
                assert forall|v: int|
                    0 <= v < i + 1 && marks@[v] implies exists|t: int|
                    0 <= t < r@.len() && #[trigger] r@[t] as int == v by {
                    if v < i as int {
                        let t = choose|t: int| 0 <= t < r0.len() && #[trigger] r0[t] as int == v;
                        assert(r@[t] as int == v);
                    } else {
                        assert(r@[r@.len() - 1] as int == v);
                    }
                }
            }
        }
        i += 1;
    }
    proof {
        assert forall|v: int| #[trigger] idx_set(r@).contains(v) implies (0 <= v
            < marks@.len() && marks@[v]) by {
            let t = choose|t: int| 0 <= t < r@.len() && #[trigger] r@[t] as int == v;
        }
        assert forall|v: int| 0 <= v < marks@.len() && marks@[v] implies #[trigger] idx_set(
            r@,
        ).contains(v) by {
            let t = choose|t: int| 0 <= t < r@.len() && #[trigger] r@[t] as int == v;
        }
    }
    r
}

/// In a stalled marking, finds an edge between two unplaced nodes: an
/// unplaced dependency of the lowest-index unplaced node that has one.
fn find_blocked_edge(preds: &Vec<Vec<usize>>, placed: &Vec<bool>, Ghost(g): Ghost<GraphView>) -> (r: (
    usize,
    usize,
))
    requires
        g.wf(),
        g.n() == preds@.len(),
        g.preds == Seq::new(preds@.len(), |c: int| idx_set(preds@[c]@)),
        placed@.len() == preds@.len(),
        exists|i: int| 0 <= i < g.n() && !placed@[i],
        forall|c: int|
            0 <= c < g.n() && !placed@[c] ==> exists|d: int| g.edge(d, c) && !placed@[d],
    ensures
        g.edge(r.0 as int, r.1 as int),
{
    let n = preds.len();
    let mut c: usize = 0;
    while c < n
        invariant
            g.wf(),
            g.n() == preds@.len(),
            g.preds == Seq::new(preds@.len(), |c2: int| idx_set(preds@[c2]@)),
            placed@.len() == preds@.len(),
            n == preds@.len(),
            c <= n,
            exists|i: int| 0 <= i < g.n() && !placed@[i],
            forall|c2: int|
                0 <= c2 < g.n() && !placed@[c2] ==> exists|d: int| g.edge(d, c2) && !placed@[d],
            forall|u: int| 0 <= u < c ==> placed@[u],
        decreases n - c,
    {
        if !placed[c] {
            let dl = &preds[c];
            let mut t: usize = 0;
            proof {
                assert forall|tt: int| 0 <= tt < dl@.len() implies (#[trigger] dl@[tt] as int)
                    < n by {
                    assert(g.preds[c as int].contains(dl@[tt] as int));
                }
            }
            while t < dl.len()
                invariant
                    t <= dl@.len(),
                    placed@.len() == n,
                    dl@ == preds@[c as int]@,
                    (c as int) < n,
                    g.preds.len() == n,
                    g.preds[c as int] == idx_set(dl@),
                    forall|tt: int| 0 <= tt < dl@.len() ==> (#[trigger] dl@[tt] as int) < n,
                    forall|tt: int| 0 <= tt < t ==> placed@[#[trigger] dl@[tt] as int],
                decreases dl@.len() - t,
            {
                if !placed[dl[t]] {
                    let d = dl[t];
                    proof {
                        assert(d == dl@[t as int]);
                        assert(g.preds[c as int].contains(d as int));
                        assert((c as int) < g.preds.len());
                        assert(g.edge(d as int, c as int));
                    }
                    return (d, c);
                }
                t += 1;
            }
            proof {
                let d = choose|d: int| g.edge(d, c as int) && !placed@[d];
                let tt = choose|tt: int| 0 <= tt < dl@.len() && dl@[tt] as int == d;
                assert(placed@[d]);
                assert(false);
            }
            return (0, 0);
        }
        c += 1;
    }
    proof {
        let i = choose|i: int| 0 <= i < g.n() && !placed@[i];
        assert(placed@[i]);
        assert(false);
    }
    (0, 0)
}

/// The identities of a batch of migrations, in order.
pub open spec fn batch_ids<M: Migration>(ms: Seq<M>) -> Seq<u128> {
    ms.map_values(|m: M| m.spec_id())
}

/// The dependency index sets of a batch, in order.
pub open spec fn batch_pred_sets(ps: Seq<Vec<usize>>) -> Seq<Set<int>> {
    ps.map_values(|v: Vec<usize>| idx_set(v@))
}

/// A directed acyclic graph of migrations, keyed by node index.
pub struct DependencyGraph<M: Migration> {
    nodes: Vec<M>,
    ids: Vec<u128>,
    preds: Vec<Vec<usize>>,
}

impl<M: Migration> View for DependencyGraph<M> {
    type V = GraphView;

    closed spec fn view(&self) -> GraphView {
        GraphView {
            ids: self.ids@,
            preds: Seq::new(self.preds@.len(), |c: int| idx_set(self.preds@[c]@)),
        }
    }
}

impl<M: Migration> DependencyGraph<M> {
    /// The graph is well formed: parallel arenas, identities matching the
    /// stored migrations, and an acyclic, structurally valid edge relation.
    pub closed spec fn wf(&self) -> bool {
        &&& self.ids@.len() == self.nodes@.len()
        &&& self.preds@.len() == self.nodes@.len()
        &&& (forall|i: int|
            0 <= i < self.nodes@.len() ==> self.ids@[i] == #[trigger] self.nodes@[i].spec_id())
        &&& self@.wf()
        &&& self@.acyclic()
    }

    /// A well-formed graph has a well-formed, acyclic view.
    pub proof fn lemma_wf_view(&self)
        requires
            self.wf(),
        ensures
            self@.wf(),
            self@.acyclic(),
            self@.preds.len() == self@.ids.len(),
    {
    }

    /// An empty graph.
    pub fn new() -> (g: Self)
        ensures
            g.wf(),
            g@.ids.len() == 0,
            g@.preds.len() == 0,
    {
        let g = DependencyGraph { nodes: Vec::new(), ids: Vec::new(), preds: Vec::new() };
        proof {
            let empty_order = Seq::<int>::empty();
            assert(g@.valid_order(empty_order));
        }
        g
    }

    /// Number of registered migrations.
    pub fn len(&self) -> (n: usize)
        ensures
            n == self@.ids.len(),
    {
        self.ids.len()
    }

    /// The node index of the migration with identity `id`, if registered.
    pub fn find_index(&self, id: u128) -> (r: Option<usize>)
        ensures
            match r {
                Some(i) => i < self@.ids.len() && self@.ids[i as int] == id,
                None => !self@.registered(id),
            },
    {
        let mut i: usize = 0;
        while i < self.ids.len()
            invariant
                i <= self.ids@.len(),
                forall|j: int| 0 <= j < i ==> self.ids@[j] != id,
            decreases self.ids@.len() - i,
        {
            if self.ids[i] == id {
                return Some(i);
            }
            i += 1;
        }
        None
    }

    /// The identity of the node at index `i`.
    pub fn id_at(&self, i: usize) -> (r: u128)
        requires
            i < self@.ids.len(),
        ensures
            r == self@.ids[i as int],
    {
        self.ids[i]
    }

    /// A reference to the migration at index `i`.
    pub fn node(&self, i: usize) -> (m: &M)
        requires
            self.wf(),
            i < self@.ids.len(),
        ensures
            m.spec_id() == self@.ids[i as int],
    {
        &self.nodes[i]
    }

    /// Insert a migration whose dependencies are the already registered
    /// nodes at indices `dep_idxs`. No cycle can arise: every edge runs
    /// from an existing node to the new one.
    pub fn add_node_with_deps(&mut self, migration: M, dep_idxs: Vec<usize>)
        requires
            old(self).wf(),
            !old(self)@.registered(migration.spec_id()),
            forall|j: int|
                0 <= j < dep_idxs@.len() ==> (#[trigger] dep_idxs@[j] as int) < old(self)@.n(),
        ensures
            final(self).wf(),
            final(self)@.ids == old(self)@.ids.push(migration.spec_id()),
            final(self)@.preds == old(self)@.preds.push(idx_set(dep_idxs@)),
    {
        let ghost old_view = self@;
        let ghost new_id = migration.spec_id();
        let ghost dep_set = idx_set(dep_idxs@);
        let id = migration.id();
        self.nodes.push(migration);
        self.ids.push(id);
        self.preds.push(dep_idxs);
        proof {
            assert(self@.ids =~= old_view.ids.push(new_id));
            assert(self@.preds =~= old_view.preds.push(dep_set)) by {
                assert forall|c: int| 0 <= c < self@.preds.len() implies self@.preds[c]
                    == old_view.preds.push(dep_set)[c] by {
                    if c < old_view.preds.len() {
                        assert(self.preds@[c] == old(self).preds@[c]);
                    }
                }
            }
            assert(self@ =~= old_view.extend(seq![new_id], seq![dep_set])) by {
                assert(self@.ids =~= old_view.ids + seq![new_id]);
                assert(self@.preds =~= old_view.preds + seq![dep_set]);
            }
            let order = choose|order: Seq<int>| old_view.valid_order(order);
            old_view.lemma_order_extend_node(order, new_id, dep_set);
            assert(self@.valid_order(order.push(old_view.n())));
            assert(self@.wf()) by {
                assert(forall|i: int|
                    0 <= i < old_view.n() ==> old_view.ids[i] == #[trigger] self@.ids[i]);
            }
        }
    }

    /// A total order of all migrations consistent with every dependency
    /// edge. Deterministic for a given graph state: among the nodes whose
    /// dependencies are all listed, the lowest index is always listed next.
    pub fn toposort(&self) -> (o: Vec<usize>)
        requires
            self.wf(),
        ensures
            o@.len() == self@.n(),
            self@.valid_order(to_int_seq(o@)),
    {
        match compute_topo_order(&self.preds, Ghost(self@)) {
            Ok(o) => o,
            Err(_) => {
                // unreachable: the graph invariant keeps the graph acyclic
                proof {
                    assert(false);
                }
                Vec::new()
            },
        }
    }

    /// Marks the ancestors of `start`: `marks[i]` holds exactly when
    /// `start` is `i` or transitively depends on it.
    pub fn mark_ancestors(&self, start: usize) -> (marks: Vec<bool>)
        requires
            self.wf(),
            (start as int) < self@.n(),
        ensures
            marks@.len() == self@.n(),
            forall|i: int|
                0 <= i < self@.n() ==> (marks@[i] <==> self@.ancestor_idxs(
                    start as int,
                ).contains(i)),
    {
        let ghost g = self@;
        let n = self.nodes.len();
        let mut marks: Vec<bool> = Vec::new();
        let mut k: usize = 0;
        while k < n
            invariant
                k <= n,
                marks@.len() == k,
                forall|i: int| 0 <= i < k ==> !marks@[i],
            decreases n - k,
        {
            marks.push(false);
            k += 1;
        }
        let mut queue: Vec<usize> = Vec::new();
        marks.set(start, true);
        queue.push(start);
        proof {
            g.lemma_reach_refl(start as int);
            assert(queue@[0] as int == start as int);
            lemma_count_true_bounds(marks@);
        }
        while queue.len() > 0
            invariant
                self.wf(),
                g == self@,
                n == g.n(),
                marks@.len() == n,
                (start as int) < n,
                marks@[start as int],
                forall|j: int|
                    0 <= j < queue@.len() ==> (#[trigger] queue@[j] as int) < n
                        && marks@[queue@[j] as int],
                forall|i: int| 0 <= i < n && marks@[i] ==> g.reaches(i, start as int),
                forall|i: int|
                    0 <= i < n && #[trigger] marks@[i] ==> ((exists|t: int|
                        0 <= t < queue@.len() && #[trigger] queue@[t] as int == i) || (forall|
                        d: int,
                    |
                        #[trigger] g.edge(d, i) ==> marks@[d])),
                0 <= count_true(marks@) <= n,
            decreases n - count_true(marks@), queue@.len(),
        {
            let ghost c0 = count_true(marks@);
            let ghost q0 = queue@;
            let v = queue.pop().unwrap();
            proof {
                assert(g.reaches(v as int, start as int));
                assert forall|i: int|
                    0 <= i < n && #[trigger] marks@[i] implies ((exists|t: int|
                    0 <= t < queue@.len() && #[trigger] queue@[t] as int == i) || (forall|d: int|
                    #[trigger] g.edge(d, i) ==> marks@[d]) || i == v as int) by {
                    if i != v as int && !(forall|d: int| #[trigger] g.edge(d, i) ==> marks@[d]) {
                        let t = choose|t: int|
                            0 <= t < q0.len() && #[trigger] q0[t] as int == i;
                        assert(queue@[t] as int == i);
                    }
                }
            }
            let mut j: usize = 0;
            while j < self.preds[v].len()
                invariant
                    self.wf(),
                    g == self@,
                    n == g.n(),
                    marks@.len() == n,
                    (start as int) < n,
                    (v as int) < n,
                    j <= self.preds@[v as int]@.len(),
                    marks@[start as int],
                    marks@[v as int],
                    g.reaches(v as int, start as int),
                    forall|t: int|
                        0 <= t < queue@.len() ==> (#[trigger] queue@[t] as int) < n
                            && marks@[queue@[t] as int],
                    forall|i: int| 0 <= i < n && marks@[i] ==> g.reaches(i, start as int),
                    forall|i: int|
                        0 <= i < n && #[trigger] marks@[i] ==> ((exists|t: int|
                            0 <= t < queue@.len() && #[trigger] queue@[t] as int == i) || (forall|
                            d: int,
                        |
                            #[trigger] g.edge(d, i) ==> marks@[d]) || i == v as int),
                    forall|t: int|
                        0 <= t < j ==> marks@[#[trigger] self.preds@[v as int]@[t] as int],
                    count_true(marks@) == c0 + queue@.len() - (q0.len() - 1),
                    queue@.len() >= q0.len() - 1,
                    0 <= count_true(marks@) <= n,
                decreases self.preds@[v as int]@.len() - j,
            {
                let ghost m0 = marks@;
                let ghost qq0 = queue@;
                let d = self.preds[v][j];
                proof {
                    assert(g.preds[v as int].contains(d as int));
                    assert((d as int) < n);
                }
                if !marks[d] {
                    proof {
                        lemma_count_true_update(marks@, d as int);
                        g.lemma_reach_head(d as int, v as int, start as int);
                    }
                    marks.set(d, true);
                    queue.push(d);
                    proof {
                        lemma_count_true_bounds(marks@);
                    }
                    proof {
                        assert forall|i: int| 0 <= i < n && #[trigger] marks@[i] implies ((exists|
                            t: int,
                        |
                            0 <= t < queue@.len() && #[trigger] queue@[t] as int == i) || (forall|
                            dd: int,
                        |
                            #[trigger] g.edge(dd, i) ==> marks@[dd]) || i == v as int) by {
                            if i == d as int {
                                assert(queue@[queue@.len() - 1] as int == i);
                            } else {
                                assert(m0[i]);
                                if exists|t: int|
                                    0 <= t < qq0.len() && #[trigger] qq0[t] as int == i {
                                    let t = choose|t: int|
                                        0 <= t < qq0.len() && #[trigger] qq0[t] as int == i;
                                    assert(queue@[t] as int == i);
                                }
                            }
                        }
                    }
                }
                proof {
                    assert(marks@[d as int]);
                    assert forall|t: int|
                        0 <= t < j + 1 implies marks@[
                    #[trigger] self.preds@[v as int]@[t] as int] by {
                        let dt = self.preds@[v as int]@[t];
                        assert(idx_set(self.preds@[v as int]@).contains(dt as int));
                        assert(g.preds[v as int].contains(dt as int));
                        assert((dt as int) < n);
                        if t == j as int {
                            assert(dt == d);
                        } else {
                            assert(m0[dt as int]);
                        }
                    }
                }
                j += 1;
            }
            proof {
                // every dependency of `v` is now marked
                assert forall|d: int| #[trigger] g.edge(d, v as int) implies marks@[d] by {
                    let t = choose|t: int|
                        0 <= t < self.preds@[v as int]@.len() && self.preds@[v as int]@[t] as int
                            == d;
                    assert(marks@[self.preds@[v as int]@[t] as int]);
                }
            }
        }
        proof {
            let vset = Set::new(|i: int| 0 <= i < n && marks@[i]);
            assert forall|i2: int, d: int|
                vset.contains(i2) && #[trigger] g.edge(d, i2) implies vset.contains(d) by {
                assert(0 <= d < g.n());
                assert(marks@[d]);
            }
            assert forall|i: int| 0 <= i < g.n() implies (marks@[i] <==> g.ancestor_idxs(
                start as int,
            ).contains(i)) by {
                if marks@[i] {
                    assert(g.reaches(i, start as int));
                } else if g.ancestor_idxs(start as int).contains(i) {
                    let k2 = choose|k2: nat| g.reach_k(i, start as int, k2);
                    g.lemma_pred_closed_reaches(vset, i, start as int, k2);
                }
            }
        }
        marks
    }

    /// Insert a whole batch of migrations at once, all or nothing.
    ///
    /// `new_preds[k]` lists the dependency indices of the `k`-th new node,
    /// resolved against the combined graph: existing nodes keep their
    /// indices and the `k`-th new node has index `n + k`. When the
    /// combined edges admit no topological order, the graph is left
    /// unchanged and one edge `(dependency, dependent)` of the combined
    /// graph that stands in the blocked part is returned.
    pub fn add_batch(&mut self, migrations: Vec<M>, new_preds: Vec<Vec<usize>>) -> (r: Result<
        (),
        (usize, usize),
    >)
        requires
            old(self).wf(),
            migrations@.len() == new_preds@.len(),
            forall|k1: int, k2: int|
                0 <= k1 < k2 < migrations@.len() ==> migrations@[k1].spec_id()
                    != migrations@[k2].spec_id(),
            forall|k: int|
                0 <= k < migrations@.len() ==> !old(self)@.registered(
                    #[trigger] migrations@[k].spec_id(),
                ),
            forall|k: int, j: int|
                0 <= k < new_preds@.len() && 0 <= j < new_preds@[k]@.len() ==> (
                #[trigger] new_preds@[k]@[j] as int) < old(self)@.n() + new_preds@.len(),
        ensures
            final(self).wf(),
            (r matches Ok(_)) <==> old(self)@.extend(
                batch_ids(migrations@),
                batch_pred_sets(new_preds@),
            ).acyclic(),
            r matches Ok(_) ==> final(self)@ == old(self)@.extend(
                batch_ids(migrations@),
                batch_pred_sets(new_preds@),
            ),
            r matches Err(e) ==> {
                &&& final(self)@ == old(self)@
                &&& old(self)@.extend(batch_ids(migrations@), batch_pred_sets(new_preds@)).edge(
                    e.0 as int,
                    e.1 as int,
                )
                &&& (e.0 as int) < old(self)@.n() + migrations@.len()
                &&& (e.1 as int) < old(self)@.n() + migrations@.len()
            },
    {
        let ghost old_view = self@;
        let ghost ms0 = migrations@;
        let ghost np0 = new_preds@;
        let ghost cand = old_view.extend(batch_ids(ms0), batch_pred_sets(np0));
        let ghost old_preds0 = self.preds@;
        let ghost old_ids0 = self.ids@;
        let ghost old_nodes0 = self.nodes@;
        let old_n = self.nodes.len();
        // tentatively extend the adjacency lists
        let mut k: usize = 0;
        while k < new_preds.len()
            invariant
                k <= new_preds@.len(),
                new_preds@ == np0,
                old_preds0.len() == old_n,
                self.preds@.len() == old_n + k,
                self.ids@ == old_ids0,
                self.nodes@ == old_nodes0,
                forall|t: int| 0 <= t < old_n ==> self.preds@[t] == old_preds0[t],
                forall|t: int|
                    0 <= t < k ==> (#[trigger] self.preds@[old_n + t]@) == new_preds@[t]@,
            decreases new_preds@.len() - k,
        {
            let src_list = &new_preds[k];
            let mut copy: Vec<usize> = Vec::new();
            let mut t: usize = 0;
            while t < src_list.len()
                invariant
                    t <= src_list@.len(),
                    copy@.len() == t,
                    forall|u: int| 0 <= u < t ==> copy@[u] == src_list@[u],
                decreases src_list@.len() - t,
            {
                copy.push(src_list[t]);
                t += 1;
            }
            proof {
                assert(copy@ =~= src_list@);
            }
            self.preds.push(copy);
            k += 1;
        }
        proof {
            // the combined graph is exactly the tentative adjacency state
            assert(cand.ids.len() == old_n + ms0.len());
            assert(cand.preds.len() == old_n + ms0.len());
            assert(cand.preds =~= Seq::new(
                self.preds@.len(),
                |c: int| idx_set(self.preds@[c]@),
            )) by {
                assert forall|c: int| 0 <= c < old_n + ms0.len() implies cand.preds[c] == idx_set(
                    self.preds@[c]@,
                ) by {
                    if c < old_n {
                        assert(cand.preds[c] == old_view.preds[c]);
                        assert(self.preds@[c] == old_preds0[c]);
                    } else {
                        assert(cand.preds[c] == idx_set(np0[c - old_n]@));
                        let t = c - old_n;
                        assert(self.preds@[old_n + t]@ == np0[t]@);
                        assert(old_n + t == c);
                        assert(self.preds@[c]@ == np0[c - old_n]@);
                    }
                }
            }
            // the combined graph is well formed
            assert(cand.wf()) by {
                assert forall|i: int, j: int|
                    0 <= i < cand.n() && 0 <= j < cand.n() && i != j implies cand.ids[i]
                    != cand.ids[j] by {
                    if i < old_n && j >= old_n {
                        assert(!old_view.registered(ms0[j - old_n].spec_id()));
                        assert(cand.ids[i] == old_view.ids[i]);
                    }
                    if j < old_n && i >= old_n {
                        assert(!old_view.registered(ms0[i - old_n].spec_id()));
                        assert(cand.ids[j] == old_view.ids[j]);
                    }
                }
                assert forall|c: int, d: int|
                    0 <= c < cand.n() && #[trigger] cand.preds[c].contains(d) implies 0 <= d
                    < cand.n() by {
                    if c < old_n {
                        assert(old_view.preds[c].contains(d));
                    } else {
                        let s = np0[c - old_n]@;
                        let j = choose|j: int| 0 <= j < s.len() && #[trigger] s[j] as int == d;
                        assert((np0[c - old_n]@[j] as int) < old_view.n() + np0.len());
                    }
                }
            }
        }
        let ghost preds_after = self.preds@;
        match compute_topo_order(&self.preds, Ghost(cand)) {
            Ok(o) => {
                proof {
                    assert(cand.valid_order(to_int_seq(o@)));
                }
                // commit: append the migrations and their identities
                let mut ms = migrations;
                while ms.len() > 0
                    invariant
                        ms0.len() >= ms@.len(),
                        ms@ == ms0.skip(ms0.len() - ms@.len()),
                        self.nodes@ == old_nodes0 + ms0.take(ms0.len() - ms@.len()),
                        self.ids@ == old_ids0 + batch_ids(ms0).take(ms0.len() - ms@.len()),
                        self.preds@ == preds_after,
                    decreases ms@.len(),
                {
                    let ghost j = ms0.len() - ms@.len();
                    let m = ms.remove(0);
                    proof {
                        assert(m == ms0.skip(j as int)[0]);
                        assert(m == ms0[j as int]);
                    }
                    let id = m.id();
                    self.nodes.push(m);
                    self.ids.push(id);
                    proof {
                        assert(ms@ =~= ms0.skip(j as int + 1));
                        assert(self.nodes@ =~= old_nodes0 + ms0.take(j as int + 1));
                        assert(self.ids@ =~= old_ids0 + batch_ids(ms0).take(j as int + 1));
                    }
                }
                proof {
                    assert(ms0.take(ms0.len() as int) =~= ms0);
                    assert(batch_ids(ms0).take(ms0.len() as int) =~= batch_ids(ms0));
                    assert(self@.ids =~= cand.ids);
                    assert(self@.preds =~= cand.preds);
                    assert(self@ =~= cand);
                    assert(self.wf()) by {
                        assert forall|i: int| 0 <= i < self.nodes@.len() implies self.ids@[i]
                            == #[trigger] self.nodes@[i].spec_id() by {
                            if i >= old_n {
                                assert(self.nodes@[i] == ms0[i - old_n]);
                                assert(self.ids@[i] == batch_ids(ms0)[i - old_n]);
                            }
                        }
                    }
                }
                Ok(())
            },
            Err(placed) => {
                let e = find_blocked_edge(&self.preds, &placed, Ghost(cand));
                self.preds.truncate(old_n);
                proof {
                    assert(self.preds@ =~= old_preds0);
                    assert(self@ =~= old_view);
                    assert((e.0 as int) < cand.n() && (e.1 as int) < cand.n());
                }
                Err(e)
            },
        }
    }

    /// Marks the descendants of `start`: `marks[i]` holds exactly when `i`
    /// is `start` or transitively depends on it.
    pub fn mark_descendants(&self, start: usize) -> (marks: Vec<bool>)
        requires
            self.wf(),
            (start as int) < self@.n(),
        ensures
            marks@.len() == self@.n(),
            forall|i: int|
                0 <= i < self@.n() ==> (marks@[i] <==> self@.descendant_idxs(
                    start as int,
                ).contains(i)),
    {
        let ghost g = self@;
        let n = self.nodes.len();
        let mut marks: Vec<bool> = Vec::new();
        let mut k: usize = 0;
        while k < n
            invariant
                k <= n,
                marks@.len() == k,
                forall|i: int| 0 <= i < k ==> !marks@[i],
            decreases n - k,
        {
            marks.push(false);
            k += 1;
        }
        let mut queue: Vec<usize> = Vec::new();
        marks.set(start, true);
        queue.push(start);
        proof {
            g.lemma_reach_refl(start as int);
            assert(queue@[0] as int == start as int);
            lemma_count_true_bounds(marks@);
        }
        while queue.len() > 0
            invariant
                self.wf(),
                g == self@,
                n == g.n(),
                marks@.len() == n,
                (start as int) < n,
                marks@[start as int],
                forall|j: int|
                    0 <= j < queue@.len() ==> (#[trigger] queue@[j] as int) < n
                        && marks@[queue@[j] as int],
                forall|i: int| 0 <= i < n && marks@[i] ==> g.reaches(start as int, i),
                forall|i: int|
                    0 <= i < n && #[trigger] marks@[i] ==> ((exists|t: int|
                        0 <= t < queue@.len() && #[trigger] queue@[t] as int == i) || (forall|
                        c: int,
                    |
                        #[trigger] g.edge(i, c) ==> marks@[c])),
                0 <= count_true(marks@) <= n,
            decreases n - count_true(marks@), queue@.len(),
        {
            let ghost c0 = count_true(marks@);
            let ghost q0 = queue@;
            let v = queue.pop().unwrap();
            proof {
                assert(g.reaches(start as int, v as int));
                assert forall|i: int|
                    0 <= i < n && #[trigger] marks@[i] implies ((exists|t: int|
                    0 <= t < queue@.len() && #[trigger] queue@[t] as int == i) || (forall|c: int|
                    #[trigger] g.edge(i, c) ==> marks@[c]) || i == v as int) by {
                    if i != v as int && !(forall|c: int| #[trigger] g.edge(i, c) ==> marks@[c]) {
                        let t = choose|t: int|
                            0 <= t < q0.len() && #[trigger] q0[t] as int == i;
                        assert(queue@[t] as int == i);
                    }
                }
            }
            let mut j: usize = 0;
            while j < n
                invariant
                    self.wf(),
                    g == self@,
                    n == g.n(),
                    marks@.len() == n,
                    (start as int) < n,
                    (v as int) < n,
                    j <= n,
                    marks@[start as int],
                    marks@[v as int],
                    g.reaches(start as int, v as int),
                    forall|t: int|
                        0 <= t < queue@.len() ==> (#[trigger] queue@[t] as int) < n
                            && marks@[queue@[t] as int],
                    forall|i: int| 0 <= i < n && marks@[i] ==> g.reaches(start as int, i),
                    forall|i: int|
                        0 <= i < n && #[trigger] marks@[i] ==> ((exists|t: int|
                            0 <= t < queue@.len() && #[trigger] queue@[t] as int == i) || (forall|
                            c: int,
                        |
                            #[trigger] g.edge(i, c) ==> marks@[c]) || i == v as int),
                    forall|c: int| 0 <= c < j && #[trigger] g.edge(v as int, c) ==> marks@[c],
                    count_true(marks@) == c0 + queue@.len() - (q0.len() - 1),
                    queue@.len() >= q0.len() - 1,
                    0 <= count_true(marks@) <= n,
                decreases n - j,
            {
                let ghost m0 = marks@;
                let ghost qq0 = queue@;
                let is_succ = contains_usize(&self.preds[j], v);
                proof {
                    assert(g.preds[j as int] == idx_set(self.preds@[j as int]@));
                    assert(is_succ == g.edge(v as int, j as int));
                }
                if is_succ && !marks[j] {
                    proof {
                        lemma_count_true_update(marks@, j as int);
                        g.lemma_reach_append(start as int, v as int, j as int);
                    }
                    marks.set(j, true);
                    queue.push(j);
                    proof {
                        lemma_count_true_bounds(marks@);
                        assert forall|i: int| 0 <= i < n && #[trigger] marks@[i] implies ((exists|
                            t: int,
                        |
                            0 <= t < queue@.len() && #[trigger] queue@[t] as int == i) || (forall|
                            c: int,
                        |
                            #[trigger] g.edge(i, c) ==> marks@[c]) || i == v as int) by {
                            if i == j as int {
                                assert(queue@[queue@.len() - 1] as int == i);
                            } else {
                                assert(m0[i]);
                                if exists|t: int|
                                    0 <= t < qq0.len() && #[trigger] qq0[t] as int == i {
                                    let t = choose|t: int|
                                        0 <= t < qq0.len() && #[trigger] qq0[t] as int == i;
                                    assert(queue@[t] as int == i);
                                }
                            }
                        }
                    }
                }
                proof {
                    assert forall|c: int|
                        0 <= c < j + 1 && #[trigger] g.edge(v as int, c) implies marks@[c] by {
                        if c < j as int {
                            assert(m0[c]);
                        }
                    }
                }
                j += 1;
            }
        }
        proof {
            let vset = Set::new(|i: int| 0 <= i < n && marks@[i]);
            assert forall|i2: int, c: int|
                vset.contains(i2) && #[trigger] g.edge(i2, c) implies vset.contains(c) by {
                assert(0 <= c < g.n());
                assert(marks@[c]);
            }
            assert forall|i: int| 0 <= i < g.n() implies (marks@[i] <==> g.descendant_idxs(
                start as int,
            ).contains(i)) by {
                if marks@[i] {
                    assert(g.reaches(start as int, i));
                } else if g.descendant_idxs(start as int).contains(i) {
                    let k2 = choose|k2: nat| g.reach_k(start as int, i, k2);
                    g.lemma_succ_closed_reaches(vset, start as int, i, k2);
                }
            }
        }
        marks
    }

    /// Insert a directed edge from dependency `from_idx` to dependent
    /// `to_idx`. When the edge would close a cycle the graph is left in its
    /// prior state and `Cycle` names the two identities; the check is exact.
    pub fn add_edge(&mut self, from_idx: usize, to_idx: usize) -> (r: Result<(), DependencyError>)
        requires
            old(self).wf(),
            (from_idx as int) < old(self)@.n(),
            (to_idx as int) < old(self)@.n(),
        ensures
            final(self).wf(),
            (r matches Ok(_)) <==> old(self)@.with_edge(from_idx as int, to_idx as int).acyclic(),
            r matches Ok(_) ==> final(self)@ == old(self)@.with_edge(from_idx as int, to_idx as int),
            r matches Err(e) ==> final(self)@ == old(self)@ && e == (DependencyError::Cycle {
                from: old(self)@.ids[from_idx as int],
                to: old(self)@.ids[to_idx as int],
            }),
    {
        let ghost old_view = self@;
        let ghost cand = old_view.with_edge(from_idx as int, to_idx as int);
        let ghost orig_list = self.preds@[to_idx as int]@;
        let mut dl = copy_indices(&self.preds[to_idx]);
        dl.push(from_idx);
        self.preds.set(to_idx, dl);
        proof {
            assert(cand.preds =~= Seq::new(
                self.preds@.len(),
                |c: int| idx_set(self.preds@[c]@),
            )) by {
                assert forall|c: int| 0 <= c < cand.preds.len() implies cand.preds[c] == idx_set(
                    self.preds@[c]@,
                ) by {
                    if c == to_idx as int {
                        assert(self.preds@[c]@ =~= orig_list.push(from_idx));
                        assert(idx_set(orig_list.push(from_idx)) =~= old_view.preds[c].insert(
                            from_idx as int,
                        )) by {
                            assert forall|d: int|
                                idx_set(orig_list.push(from_idx)).contains(d)
                                    == old_view.preds[c].insert(from_idx as int).contains(d) by {
                                let s2 = orig_list.push(from_idx);
                                if idx_set(s2).contains(d) {
                                    let j = choose|j: int|
                                        0 <= j < s2.len() && #[trigger] s2[j] as int == d;
                                    if j < orig_list.len() {
                                        assert(orig_list[j] as int == d);
                                    }
                                }
                                if old_view.preds[c].insert(from_idx as int).contains(d) {
                                    if old_view.preds[c].contains(d) {
                                        let j = choose|j: int|
                                            0 <= j < orig_list.len() && #[trigger] orig_list[j] as int
                                                == d;
                                        assert(s2[j] as int == d);
                                    } else {
                                        assert(s2[s2.len() - 1] as int == d);
                                    }
                                }
                            }
                        }
                    }
                }
            }
            assert(cand.wf()) by {
                assert forall|c: int, d: int|
                    0 <= c < cand.n() && #[trigger] cand.preds[c].contains(d) implies 0 <= d
                    < cand.n() by {
                    if c == to_idx as int && d != from_idx as int {
                        assert(old_view.preds[c].contains(d));
                    }
                    if c != to_idx as int {
                        assert(old_view.preds[c].contains(d));
                    }
                }
            }
        }
        match compute_topo_order(&self.preds, Ghost(cand)) {
            Ok(o) => {
                proof {
                    assert(cand.valid_order(to_int_seq(o@)));
                    assert(self@ =~= cand);
                }
                Ok(())
            },
            Err(_) => {
                let mut dl2 = copy_indices(&self.preds[to_idx]);
                dl2.pop();
                self.preds.set(to_idx, dl2);
                proof {
                    assert(dl2@ =~= orig_list);
                    assert(self@.preds =~= old_view.preds);
                    assert(self@ =~= old_view);
                }
                let from_id = self.ids[from_idx];
                let to_id = self.ids[to_idx];
                Err(DependencyError::Cycle { from: from_id, to: to_id })
            },
        }
    }

    /// The indices of `x` and of every migration it transitively depends
    /// on, in increasing index order.
    pub fn ancestors(&self, x: usize) -> (r: Vec<usize>)
        requires
            self.wf(),
            (x as int) < self@.n(),
        ensures
            idx_set(r@) == self@.ancestor_idxs(x as int),
            forall|t1: int, t2: int|
                0 <= t1 < r@.len() && 0 <= t2 < r@.len() && t1 != t2 ==> r@[t1] != r@[t2],
    {
        let marks = self.mark_ancestors(x);
        let r = collect_marked(&marks);
        proof {
            assert(idx_set(r@) =~= self@.ancestor_idxs(x as int));
        }
        r
    }

    /// The indices of `x` and of every migration that transitively depends
    /// on it, in increasing index order.
    pub fn descendants(&self, x: usize) -> (r: Vec<usize>)
        requires
            self.wf(),
            (x as int) < self@.n(),
        ensures
            idx_set(r@) == self@.descendant_idxs(x as int),
            forall|t1: int, t2: int|
                0 <= t1 < r@.len() && 0 <= t2 < r@.len() && t1 != t2 ==> r@[t1] != r@[t2],
    {
        let marks = self.mark_descendants(x);
        let r = collect_marked(&marks);
        proof {
            assert(idx_set(r@) =~= self@.descendant_idxs(x as int));
        }
        r
    }

    /// The indices of the migrations that depend on nothing.
    pub fn sources(&self) -> (r: Vec<usize>)
        requires
            self.wf(),
        ensures
            forall|v: int|
                #[trigger] idx_set(r@).contains(v) <==> (0 <= v < self@.n() && forall|d: int|
                    !self@.edge(d, v)),
    {
        let n = self.nodes.len();
        let mut marks: Vec<bool> = Vec::new();
        let mut i: usize = 0;
        while i < n
            invariant
                self.wf(),
                n == self@.n(),
                i <= n,
                marks@.len() == i,
                forall|v: int|
                    0 <= v < i ==> (marks@[v] <==> forall|d: int| !self@.edge(d, v)),
            decreases n - i,
        {
            let empty = self.preds[i].len() == 0;
            proof {
                if empty {
                    assert forall|d: int| !self@.edge(d, i as int) by {
                        if self@.edge(d, i as int) {
                            let j = choose|j: int|
                                0 <= j < self.preds@[i as int]@.len()
                                    && #[trigger] self.preds@[i as int]@[j] as int == d;
                        }
                    }
                } else {
                    assert(self@.edge(self.preds@[i as int]@[0] as int, i as int));
                }
            }
            marks.push(empty);
            i += 1;
        }
        let r = collect_marked(&marks);
        r
    }

    /// The indices of the migrations that nothing depends on.
    pub fn sinks(&self) -> (r: Vec<usize>)
        requires
            self.wf(),
        ensures
            forall|v: int|
                #[trigger] idx_set(r@).contains(v) <==> (0 <= v < self@.n() && forall|c: int|
                    !self@.edge(v, c)),
    {
        let n = self.nodes.len();
        let mut marks: Vec<bool> = Vec::new();
        let mut i: usize = 0;
        while i < n
            invariant
                self.wf(),
                n == self@.n(),
                i <= n,
                marks@.len() == i,
                forall|v: int|
                    0 <= v < i ==> (marks@[v] <==> forall|c: int| !self@.edge(v, c)),
            decreases n - i,
        {
            let mut has_dependent = false;
            let mut c: usize = 0;
            while c < n
                invariant
                    self.wf(),
                    n == self@.n(),
                    (i as int) < n,
                    c <= n,
                    has_dependent ==> exists|c2: int| self@.edge(i as int, c2),
                    !has_dependent ==> forall|c2: int| 0 <= c2 < c ==> !self@.edge(i as int, c2),
                decreases n - c,
            {
                if contains_usize(&self.preds[c], i) {
                    has_dependent = true;
                    proof {
                        assert(self@.preds[c as int] == idx_set(self.preds@[c as int]@));
                        assert(self@.edge(i as int, c as int));
                    }
                }
                c += 1;
            }
            proof {
                if !has_dependent {
                    assert forall|c2: int| !self@.edge(i as int, c2) by {
                        if self@.edge(i as int, c2) {
                            assert(0 <= c2 < n);
                        }
                    }
                }
            }
            marks.push(!has_dependent);
            i += 1;
        }
        let r = collect_marked(&marks);
        r
    }
}

} // verus!
