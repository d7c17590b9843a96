//! Mathematical model of the dependency graph.
//!
//! A graph is a sequence of migration identities (one per node, in
//! registration order) together with, for each node, the set of indices of
//! the nodes it depends on. Edges run from dependency to dependent: the edge
//! `(d, c)` exists when node `c` depends on node `d`.

use vstd::prelude::*;

verus! {

/// Model of a dependency graph: `ids[i]` is the identity of node `i`, and
/// `preds[c]` is the set of indices of the nodes that node `c` depends on.
#[verifier::ext_equal]
pub ghost struct GraphView {
    pub ids: Seq<u128>,
    pub preds: Seq<Set<int>>,
}

impl GraphView {
    /// Number of nodes.
    pub open spec fn n(self) -> int {
        self.ids.len() as int
    }

    /// Structurally well formed: one dependency set per node, distinct
    /// identities, and every dependency index names a node.
    pub open spec fn wf(self) -> bool {
        &&& self.preds.len() == self.ids.len()
        &&& (forall|i: int, j: int|
            0 <= i < self.n() && 0 <= j < self.n() && i != j ==> self.ids[i] != self.ids[j])
        &&& (forall|c: int, d: int|
            0 <= c < self.n() && #[trigger] self.preds[c].contains(d) ==> 0 <= d < self.n())
    }

    /// Directed edge from dependency `d` to dependent `c`.
    pub open spec fn edge(self, d: int, c: int) -> bool {
        0 <= c < self.preds.len() && self.preds[c].contains(d)
    }

    /// Whether a migration with identity `id` is registered.
    pub open spec fn registered(self, id: u128) -> bool {
        self.ids.contains(id)
    }

    /// The node index of a registered identity.
    pub open spec fn index_of(self, id: u128) -> int {
        choose|i: int| 0 <= i < self.n() && self.ids[i] == id
    }

    /// There is a path of length at most `k` from `a` to `b` along edges.
    pub open spec fn reach_k(self, a: int, b: int, k: nat) -> bool
        decreases k,
    {
        a == b || (k > 0 && exists|m: int| self.edge(a, m) && self.reach_k(m, b, (k - 1) as nat))
    }

    /// There is a path from `a` to `b` along edges (`b` transitively depends
    /// on `a`, or `a == b`).
    pub open spec fn reaches(self, a: int, b: int) -> bool {
        exists|k: nat| self.reach_k(a, b, k)
    }

    /// Indices of the ancestors of node `x`: `x` itself and every node it
    /// transitively depends on.
    pub open spec fn ancestor_idxs(self, x: int) -> Set<int> {
        Set::new(|y: int| 0 <= y < self.n() && self.reaches(y, x))
    }

    /// Indices of the descendants of node `x`: `x` itself and every node
    /// that transitively depends on it.
    pub open spec fn descendant_idxs(self, x: int) -> Set<int> {
        Set::new(|y: int| 0 <= y < self.n() && self.reaches(x, y))
    }

    /// All node indices.
    pub open spec fn all_idxs(self) -> Set<int> {
        Set::new(|i: int| 0 <= i < self.n())
    }

    /// The identities of a set of node indices.
    pub open spec fn ids_of(self, s: Set<int>) -> Set<u128> {
        Set::new(|id: u128| exists|i: int| s.contains(i) && 0 <= i < self.n() && self.ids[i] == id)
    }

    /// All registered identities.
    pub open spec fn all_ids(self) -> Set<u128> {
        self.ids.to_set()
    }

    /// Identities of `id` and of everything it transitively depends on.
    pub open spec fn ancestor_ids(self, id: u128) -> Set<u128> {
        self.ids_of(self.ancestor_idxs(self.index_of(id)))
    }

    /// Identities of everything that transitively depends on `id`, without
    /// `id` itself.
    pub open spec fn strict_descendant_ids(self, id: u128) -> Set<u128> {
        self.ids_of(self.descendant_idxs(self.index_of(id)).remove(self.index_of(id)))
    }

    /// The indices whose identities lie in `dep_ids`.
    pub open spec fn dep_indices(self, dep_ids: Set<u128>) -> Set<int> {
        Set::new(|i: int| 0 <= i < self.n() && dep_ids.contains(self.ids[i]))
    }

    /// The declared dependencies of a registered migration, as identities.
    pub open spec fn deps_of(self, id: u128) -> Set<u128> {
        self.ids_of(self.preds[self.index_of(id)])
    }

    /// `order` lists every node exactly once, with every dependency before
    /// each of its dependents.
    pub open spec fn valid_order(self, order: Seq<int>) -> bool {
        &&& order.len() == self.n()
        &&& (forall|i: int| 0 <= i < order.len() ==> 0 <= #[trigger] order[i] < self.n())
        &&& (forall|i: int, j: int|
            0 <= i < order.len() && 0 <= j < order.len() && i != j ==> order[i] != order[j])
        &&& (forall|v: int| 0 <= v < self.n() ==> #[trigger] order.contains(v))
        &&& (forall|i: int, j: int|
            0 <= i < order.len() && 0 <= j < order.len() && self.edge(order[i], order[j]) ==> i < j)
    }

    /// The graph has no dependency cycle: some topological order exists.
    pub open spec fn acyclic(self) -> bool {
        exists|order: Seq<int>| self.valid_order(order)
    }

    /// Every dependency of an applied migration is applied. This is the
    /// safety property the orchestrator maintains on the backing store.
    pub open spec fn dep_closed(self, applied: Set<u128>) -> bool {
        forall|d: int, c: int|
            #[trigger] self.edge(d, c) && applied.contains(self.ids[c]) ==> applied.contains(
                self.ids[d],
            )
    }

    /// A set of node indices closed under dependencies: targets of `up`.
    pub open spec fn pred_closed(self, s: Set<int>) -> bool {
        forall|d: int, c: int| #[trigger] self.edge(d, c) && s.contains(c) ==> s.contains(d)
    }

    /// A set of node indices closed under dependents: targets of `down`.
    pub open spec fn succ_closed(self, s: Set<int>) -> bool {
        forall|d: int, c: int| #[trigger] self.edge(d, c) && s.contains(d) ==> s.contains(c)
    }

    /// The graph extended by new nodes with the given identities and
    /// dependency sets.
    pub open spec fn extend(self, new_ids: Seq<u128>, new_preds: Seq<Set<int>>) -> GraphView {
        GraphView { ids: self.ids + new_ids, preds: self.preds + new_preds }
    }

    /// The graph with one more dependency edge from `d` to `c`.
    pub open spec fn with_edge(self, d: int, c: int) -> GraphView {
        GraphView { ids: self.ids, preds: self.preds.update(c, self.preds[c].insert(d)) }
    }
}

/// The view of a vector of node indices as a sequence of mathematical
/// integers.
pub open spec fn to_int_seq(s: Seq<usize>) -> Seq<int> {
    s.map_values(|u: usize| u as int)
}

/// The set of node indices held by a vector of indices.
pub open spec fn idx_set(s: Seq<usize>) -> Set<int> {
    Set::new(|d: int| exists|j: int| 0 <= j < s.len() && s[j] as int == d)
}

/// The position of node `v` in `order`.
pub open spec fn position_of(order: Seq<int>, v: int) -> int {
    choose|i: int| 0 <= i < order.len() && order[i] == v
}

/// The set of nodes listed strictly before position `k` of `order`.
pub open spec fn prefix_idxs(order: Seq<int>, k: int) -> Set<int> {
    Set::new(|v: int| exists|j: int| 0 <= j < k && j < order.len() && order[j] == v)
}

/// The set of nodes listed at or after position `k` of `order`.
pub open spec fn suffix_idxs(order: Seq<int>, k: int) -> Set<int> {
    Set::new(|v: int| exists|j: int| k <= j < order.len() && 0 <= j && order[j] == v)
}

impl GraphView {
    /// A node reaches itself.
    pub proof fn lemma_reach_refl(self, a: int)
        ensures
            self.reaches(a, a),
    {
        assert(self.reach_k(a, a, 0));
    }

    /// Prepending an edge to a path yields a path.
    pub proof fn lemma_reach_head(self, a: int, m: int, b: int)
        requires
            self.edge(a, m),
            self.reaches(m, b),
        ensures
            self.reaches(a, b),
    {
        let k = choose|k: nat| self.reach_k(m, b, k);
        assert(self.reach_k(a, b, k + 1));
    }

    /// Appending an edge to a path yields a path.
    pub proof fn lemma_reach_append(self, a: int, m: int, b: int)
        requires
            self.reaches(a, m),
            self.edge(m, b),
        ensures
            self.reaches(a, b),
    {
        let k = choose|k: nat| self.reach_k(a, m, k);
        self.lemma_reach_append_k(a, m, b, k);
    }

    proof fn lemma_reach_append_k(self, a: int, m: int, b: int, k: nat)
        requires
            self.reach_k(a, m, k),
            self.edge(m, b),
        ensures
            self.reaches(a, b),
        decreases k,
    {
        if a == m {
            assert(self.reach_k(b, b, 0));
            assert(self.reach_k(a, b, 1));
        } else {
            let mid = choose|mid: int| self.edge(a, mid) && self.reach_k(mid, m, (k - 1) as nat);
            self.lemma_reach_append_k(mid, m, b, (k - 1) as nat);
            self.lemma_reach_head(a, mid, b);
        }
    }

    /// In a topological order, the start of a nontrivial path is listed
    /// before its end.
    pub proof fn lemma_reach_position(self, order: Seq<int>, a: int, b: int)
        requires
            self.wf(),
            self.valid_order(order),
            self.reaches(a, b),
            a != b,
            0 <= a < self.n(),
        ensures
            0 <= position_of(order, a) < order.len(),
            0 <= position_of(order, b) < order.len(),
            order[position_of(order, a)] == a,
            order[position_of(order, b)] == b,
            position_of(order, a) < position_of(order, b),
    {
        let k = choose|k: nat| self.reach_k(a, b, k);
        self.lemma_reach_position_k(order, a, b, k);
    }

    proof fn lemma_position_valid(self, order: Seq<int>, v: int)
        requires
            self.valid_order(order),
            0 <= v < self.n(),
        ensures
            0 <= position_of(order, v) < order.len(),
            order[position_of(order, v)] == v,
    {
        assert(order.contains(v));
        let i = choose|i: int| 0 <= i < order.len() && order[i] == v;
        assert(0 <= position_of(order, v) < order.len() && order[position_of(order, v)] == v);
    }

    proof fn lemma_reach_position_k(self, order: Seq<int>, a: int, b: int, k: nat)
        requires
            self.wf(),
            self.valid_order(order),
            self.reach_k(a, b, k),
            a != b,
            0 <= a < self.n(),
        ensures
            0 <= position_of(order, a) < order.len(),
            0 <= position_of(order, b) < order.len(),
            order[position_of(order, a)] == a,
            order[position_of(order, b)] == b,
            position_of(order, a) < position_of(order, b),
        decreases k,
    {
        self.lemma_position_valid(order, a);
        let m = choose|m: int| self.edge(a, m) && self.reach_k(m, b, (k - 1) as nat);
        assert(0 <= m < self.n());
        self.lemma_position_valid(order, m);
        let pa = position_of(order, a);
        let pm = position_of(order, m);
        assert(self.edge(order[pa], order[pm]));
        if m == b {
        } else {
            self.lemma_reach_position_k(order, m, b, (k - 1) as nat);
        }
    }

    /// A set that contains `s` and is closed under dependencies of its
    /// members contains everything that reaches `s`.
    pub proof fn lemma_pred_closed_reaches(self, v: Set<int>, y: int, s: int, k: nat)
        requires
            v.contains(s),
            forall|i: int, d: int| v.contains(i) && #[trigger] self.edge(d, i) ==> v.contains(d),
            self.reach_k(y, s, k),
        ensures
            v.contains(y),
        decreases k,
    {
        if y != s {
            let m = choose|m: int| self.edge(y, m) && self.reach_k(m, s, (k - 1) as nat);
            self.lemma_pred_closed_reaches(v, m, s, (k - 1) as nat);
        }
    }

    /// A set that contains `s` and is closed under dependents of its
    /// members contains everything that `s` reaches.
    pub proof fn lemma_succ_closed_reaches(self, v: Set<int>, s: int, y: int, k: nat)
        requires
            v.contains(s),
            forall|i: int, c: int| v.contains(i) && #[trigger] self.edge(i, c) ==> v.contains(c),
            self.reach_k(s, y, k),
        ensures
            v.contains(y),
        decreases k,
    {
        if s != y {
            let m = choose|m: int| self.edge(s, m) && self.reach_k(m, y, (k - 1) as nat);
            self.lemma_succ_closed_reaches(v, m, y, (k - 1) as nat);
        }
    }

    /// Identities are injective on node indices: membership of `ids[c]` in
    /// the identities of an index set means membership of `c` itself.
    pub proof fn lemma_ids_of_inverts(self, s: Set<int>, c: int)
        requires
            self.wf(),
            0 <= c < self.n(),
            self.ids_of(s).contains(self.ids[c]),
        ensures
            s.contains(c),
    {
        let i = choose|i: int| s.contains(i) && 0 <= i < self.n() && self.ids[i] == self.ids[c];
        assert(i == c);
    }

    /// The ancestors of any node form a dependency-closed target set.
    pub proof fn lemma_ancestors_pred_closed(self, x: int)
        requires
            self.wf(),
        ensures
            self.pred_closed(self.ancestor_idxs(x)),
    {
        assert forall|d: int, c: int|
            #[trigger] self.edge(d, c) && self.ancestor_idxs(x).contains(c) implies self
            .ancestor_idxs(x).contains(d) by {
            self.lemma_reach_head(d, c, x);
        }
    }

    /// The full node set is closed in both directions.
    pub proof fn lemma_all_idxs_closed(self)
        requires
            self.wf(),
        ensures
            self.pred_closed(self.all_idxs()),
            self.succ_closed(self.all_idxs()),
    {
    }

    /// The strict descendants of a node form a dependent-closed target set:
    /// the boundary node itself is never pulled back in, because that would
    /// require a cycle.
    pub proof fn lemma_strict_descendants_succ_closed(self, order: Seq<int>, x: int)
        requires
            self.wf(),
            self.valid_order(order),
            0 <= x < self.n(),
        ensures
            self.succ_closed(self.descendant_idxs(x).remove(x)),
    {
        let t = self.descendant_idxs(x).remove(x);
        assert forall|d: int, c: int| #[trigger] self.edge(d, c) && t.contains(d) implies t
            .contains(c) by {
            self.lemma_reach_append(x, d, c);
            if c == x {
                // a path x ->* d plus the edge d -> x would be a cycle
                self.lemma_reach_position(order, x, d);
            }
        }
    }

    /// The nodes before any position of a topological order are closed
    /// under dependencies.
    pub proof fn lemma_prefix_pred_closed(self, order: Seq<int>, k: int)
        requires
            self.wf(),
            self.valid_order(order),
        ensures
            self.pred_closed(prefix_idxs(order, k)),
    {
        assert forall|d: int, c: int|
            #[trigger] self.edge(d, c) && prefix_idxs(order, k).contains(c) implies prefix_idxs(
            order,
            k,
        ).contains(d) by {
            let i = choose|i: int| 0 <= i < k && i < order.len() && order[i] == c;
            self.lemma_position_valid(order, d);
            let j = position_of(order, d);
            assert(self.edge(order[j], order[i]));
        }
    }

    /// The nodes at or after any position of a topological order are closed
    /// under dependents.
    pub proof fn lemma_suffix_succ_closed(self, order: Seq<int>, k: int)
        requires
            self.wf(),
            self.valid_order(order),
        ensures
            self.succ_closed(suffix_idxs(order, k)),
    {
        assert forall|d: int, c: int|
            #[trigger] self.edge(d, c) && suffix_idxs(order, k).contains(d) implies suffix_idxs(
            order,
            k,
        ).contains(c) by {
            let j = choose|j: int| k <= j < order.len() && 0 <= j && order[j] == d;
            self.lemma_position_valid(order, c);
            let i = position_of(order, c);
            assert(self.edge(order[j], order[i]));
        }
    }

    /// Applying, in any dependency-respecting prefix, migrations from a
    /// dependency-closed target keeps the applied set dependency-closed.
    pub proof fn lemma_walk_up_closed(self, t: Set<int>, p: Set<int>, a0: Set<u128>)
        requires
            self.wf(),
            self.pred_closed(t),
            self.pred_closed(p),
            self.dep_closed(a0),
        ensures
            self.dep_closed(a0.union(self.ids_of(t.intersect(p)))),
    {
        let a1 = a0.union(self.ids_of(t.intersect(p)));
        assert forall|d: int, c: int|
            #[trigger] self.edge(d, c) && a1.contains(self.ids[c]) implies a1.contains(
            self.ids[d],
        ) by {
            assert(0 <= d < self.n());
            if a0.contains(self.ids[c]) {
            } else {
                self.lemma_ids_of_inverts(t.intersect(p), c);
                assert(t.intersect(p).contains(d));
            }
        }
    }

    /// Reverting, in any dependent-respecting suffix, migrations from a
    /// dependent-closed target keeps the applied set dependency-closed.
    pub proof fn lemma_walk_down_closed(self, t: Set<int>, q: Set<int>, a0: Set<u128>)
        requires
            self.wf(),
            self.succ_closed(t),
            self.succ_closed(q),
            self.dep_closed(a0),
        ensures
            self.dep_closed(a0.difference(self.ids_of(t.intersect(q)))),
    {
        let a1 = a0.difference(self.ids_of(t.intersect(q)));
        assert forall|d: int, c: int|
            #[trigger] self.edge(d, c) && a1.contains(self.ids[c]) implies a1.contains(
            self.ids[d],
        ) by {
            assert(0 <= d < self.n());
            if self.ids_of(t.intersect(q)).contains(self.ids[d]) {
                self.lemma_ids_of_inverts(t.intersect(q), d);
                assert(t.intersect(q).contains(c));
            }
        }
    }

    /// A topological order of a graph, extended with the index of one new
    /// node whose dependencies all already exist, is a topological order of
    /// the extended graph.
    pub proof fn lemma_order_extend_node(
        self,
        order: Seq<int>,
        new_id: u128,
        new_preds: Set<int>,
    )
        requires
            self.wf(),
            self.valid_order(order),
            forall|d: int| new_preds.contains(d) ==> 0 <= d < self.n(),
        ensures
            self.extend(seq![new_id], seq![new_preds]).valid_order(order.push(self.n())),
    {
        let g2 = self.extend(seq![new_id], seq![new_preds]);
        let o2 = order.push(self.n());
        assert forall|v: int| 0 <= v < g2.n() implies #[trigger] o2.contains(v) by {
            if v < self.n() {
                assert(order.contains(v));
                let i = choose|i: int| 0 <= i < order.len() && order[i] == v;
                assert(o2[i] == v);
            } else {
                assert(o2[order.len() as int] == v);
            }
        }
        assert forall|i: int, j: int|
            0 <= i < o2.len() && 0 <= j < o2.len() && g2.edge(o2[i], o2[j]) implies i < j by {
            if j < order.len() {
                assert(self.edge(order[i], order[j]));
            }
        }
    }

    /// If a nonempty set of nodes is blocked — every member has a
    /// dependency that is also a member — then no topological order exists.
    pub proof fn lemma_blocked_not_acyclic(self, blocked: Set<int>)
        requires
            self.wf(),
            exists|i: int| blocked.contains(i),
            forall|i: int| blocked.contains(i) ==> 0 <= i < self.n(),
            forall|c: int| #[trigger] blocked.contains(c) ==> exists|d: int|
                self.edge(d, c) && blocked.contains(d),
        ensures
            !self.acyclic(),
    {
        if self.acyclic() {
            let order = choose|order: Seq<int>| self.valid_order(order);
            let w = choose|i: int| blocked.contains(i);
            self.lemma_position_valid(order, w);
            let first = self.lemma_first_blocked_position(order, blocked, position_of(order, w));
            let c = order[first];
            let d = choose|d: int| self.edge(d, c) && blocked.contains(d);
            self.lemma_position_valid(order, d);
            let j = position_of(order, d);
            assert(self.edge(order[j], order[first]));
            assert(false);
        }
    }

    /// Returns the earliest position of `order` that holds a member of
    /// `blocked`, given some position `i0` that does.
    proof fn lemma_first_blocked_position(
        self,
        order: Seq<int>,
        blocked: Set<int>,
        i0: int,
    ) -> (first: int)
        requires
            0 <= i0 < order.len(),
            blocked.contains(order[i0]),
        ensures
            0 <= first < order.len(),
            blocked.contains(order[first]),
            forall|j: int| 0 <= j < first ==> !blocked.contains(order[j]),
        decreases i0,
    {
        if exists|j: int| 0 <= j < i0 && blocked.contains(order[j]) {
            let j = choose|j: int| 0 <= j < i0 && blocked.contains(order[j]);
            self.lemma_first_blocked_position(order, blocked, j)
        } else {
            i0
        }
    }
}

} // verus!
