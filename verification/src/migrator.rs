//! The orchestrator: owns the dependency graph and a storage adapter, and
//! drives the applied-state set of the backing store.

use vstd::prelude::*;

use crate::graph::DependencyGraph;
use crate::graph::batch_ids;
use crate::graph::batch_pred_sets;
use crate::migration::DependencyError;
use crate::migration::Migration;
use crate::migration::MigratorError;
use crate::migration::MigrationDirection;
use crate::model::GraphView;
use crate::model::idx_set;
use crate::model::prefix_idxs;
use crate::model::suffix_idxs;
use crate::model::to_int_seq;

verus! {

/// Trait necessary to adapt migration management to a stateful backend.
///
/// The backing store owns the applied-state set, modelled by the spec
/// function `applied`. Applying or reverting one migration is atomic:
/// either the action runs and the record changes, or neither happens.
pub trait Adapter: Sized {
    /// Type migrations must implement for this adapter.
    type MigrationType: Migration;

    /// Type of errors returned by this adapter.
    type Error;

    /// Model of the applied-state set currently in the backing store.
    spec fn applied(&self) -> Set<u128>;

    /// Returns the set of ids for migrations that have been applied.
    fn applied_migrations(&mut self) -> (r: Result<Vec<u128>, Self::Error>)
        ensures
            final(self).applied() == old(self).applied(),
            r matches Ok(ids) ==> ids@.to_set() == old(self).applied(),
    ;

    /// Apply a single migration: run its forward action and record its id
    /// as applied, as one atomic unit.
    fn apply_migration(&mut self, migration: &Self::MigrationType) -> (r: Result<
        (),
        Self::Error,
    >)
        ensures
            r matches Ok(_) ==> final(self).applied() == old(self).applied().insert(
                migration.spec_id(),
            ),
            r matches Err(_) ==> final(self).applied() == old(self).applied(),
    ;

    /// Revert a single migration: run its backward action and remove its
    /// id from applied, as one atomic unit.
    fn revert_migration(&mut self, migration: &Self::MigrationType) -> (r: Result<
        (),
        Self::Error,
    >)
        ensures
            r matches Ok(_) ==> final(self).applied() == old(self).applied().remove(
                migration.spec_id(),
            ),
            r matches Err(_) ==> final(self).applied() == old(self).applied(),
    ;
}

/// Finds the position of an identity in a list of identities.
fn find_u128(list: &Vec<u128>, x: u128) -> (r: Option<usize>)
    ensures
        match r {
            Some(i) => i < list@.len() && list@[i as int] == x,
            None => !list@.contains(x),
        },
{
    let mut j: usize = 0;
    while j < list.len()
        invariant
            j <= list@.len(),
            forall|t: int| 0 <= t < j ==> list@[t] != x,
        decreases list@.len() - j,
    {
        if list[j] == x {
            return Some(j);
        }
        j += 1;
    }
    None
}

/// The identities of a batch of migrations are distinct and none is
/// registered yet.
pub open spec fn batch_fresh<M: Migration>(g: GraphView, ms: Seq<M>) -> bool {
    &&& (forall|k1: int, k2: int|
        0 <= k1 < k2 < ms.len() ==> ms[k1].spec_id() != ms[k2].spec_id())
    &&& (forall|k: int| 0 <= k < ms.len() ==> !g.registered(#[trigger] ms[k].spec_id()))
}

/// Every dependency declared in the batch is either already registered or
/// introduced by the batch itself.
pub open spec fn batch_deps_known<M: Migration>(g: GraphView, ms: Seq<M>) -> bool {
    forall|k: int, d: u128|
        0 <= k < ms.len() && #[trigger] ms[k].spec_dependencies().contains(d) ==> g.registered(d)
            || batch_ids(ms).contains(d)
}

/// The graph that a successful batch registration produces: the existing
/// graph plus one node per batch migration, each depending on the nodes
/// that carry its declared dependency identities.
pub open spec fn batch_graph<M: Migration>(g: GraphView, ms: Seq<M>) -> GraphView {
    GraphView {
        ids: g.ids + batch_ids(ms),
        preds: g.preds + Seq::new(
            ms.len(),
            |k: int|
                Set::new(
                    |i: int|
                        0 <= i < g.ids.len() + ms.len() && ms[k].spec_dependencies().contains(
                            (g.ids + batch_ids(ms))[i],
                        ),
                ),
        ),
    }
}

/// The error shape of a batch rejected for a duplicate identity: the
/// reported id is a batch id that is already registered or declared twice.
pub open spec fn duplicate_err<M: Migration, E>(
    r: Result<(), MigratorError<E>>,
    g: GraphView,
    ms: Seq<M>,
) -> bool {
    match r {
        Err(MigratorError::Dependency(DependencyError::DuplicateId(d))) => batch_ids(ms).contains(
            d,
        ) && (g.registered(d) || exists|k1: int, k2: int|
            0 <= k1 < k2 < ms.len() && ms[k1].spec_id() == d && ms[k2].spec_id() == d),
        _ => false,
    }
}

/// The error shape of a batch rejected for a cycle: the reported pair is a
/// dependency edge of the combined graph.
pub open spec fn cycle_err<M: Migration, E>(
    r: Result<(), MigratorError<E>>,
    g: GraphView,
    ms: Seq<M>,
) -> bool {
    match r {
        Err(MigratorError::Dependency(DependencyError::Cycle { from, to })) => exists|
            d: int,
            c: int,
        |
            #[trigger] batch_graph(g, ms).edge(d, c) && batch_graph(g, ms).ids[d] == from
                && batch_graph(g, ms).ids[c] == to,
        _ => false,
    }
}

/// The error shape of a batch rejected for an unknown dependency: the
/// reported id is declared by a batch member yet neither registered nor
/// introduced by the batch.
pub open spec fn batch_unknown_err<M: Migration, E>(
    r: Result<(), MigratorError<E>>,
    g: GraphView,
    ms: Seq<M>,
) -> bool {
    match r {
        Err(MigratorError::Dependency(DependencyError::UnknownId(d))) => (exists|k: int|
            0 <= k < ms.len() && #[trigger] ms[k].spec_dependencies().contains(d))
            && !g.registered(d) && !batch_ids(ms).contains(d),
        _ => false,
    }
}

/// The error shape of a registration rejected for an unknown dependency:
/// the reported id is a declared dependency that is not registered.
pub open spec fn unknown_dep_err<E>(
    r: Result<(), MigratorError<E>>,
    deps: Set<u128>,
    g: GraphView,
) -> bool {
    match r {
        Err(MigratorError::Dependency(DependencyError::UnknownId(d))) => deps.contains(d)
            && !g.registered(d),
        _ => false,
    }
}

/// The node indices an `up` call targets: the named migration and all of
/// its transitive dependencies, or every node when no target is named.
pub open spec fn up_target_idxs(g: GraphView, to: Option<u128>) -> Set<int> {
    match to {
        Some(x) => g.ancestor_idxs(g.index_of(x)),
        None => g.all_idxs(),
    }
}

/// The identities an `up` call drives to applied.
pub open spec fn up_target_ids(g: GraphView, to: Option<u128>) -> Set<u128> {
    g.ids_of(up_target_idxs(g, to))
}

/// The node indices a `down` call targets: everything that transitively
/// depends on the named migration — the migration itself stays applied —
/// or every node when no target is named.
pub open spec fn down_target_idxs(g: GraphView, to: Option<u128>) -> Set<int> {
    match to {
        Some(x) => g.descendant_idxs(g.index_of(x)).remove(g.index_of(x)),
        None => g.all_idxs(),
    }
}

/// The identities a `down` call drives to unapplied.
pub open spec fn down_target_ids(g: GraphView, to: Option<u128>) -> Set<u128> {
    g.ids_of(down_target_idxs(g, to))
}

/// After an `up` walk stopped by an adapter failure, the applied set is
/// the old one extended by the targeted, previously unapplied part of a
/// prefix of some topological order, cut exactly at the failing
/// migration: everything before it in this run succeeded, nothing after
/// it was attempted.
pub open spec fn up_stopped_at(
    g: GraphView,
    to: Option<u128>,
    a0: Set<u128>,
    a1: Set<u128>,
    id: u128,
) -> bool {
    exists|order: Seq<int>, k: int|
        #![auto]
        {
            &&& g.valid_order(order)
            &&& 0 <= k < order.len()
            &&& up_target_idxs(g, to).contains(order[k])
            &&& g.ids[order[k]] == id
            &&& a1 == a0.union(
                g.ids_of(up_target_idxs(g, to).intersect(prefix_idxs(order, k))),
            )
        }
}

/// After a `down` walk stopped by an adapter failure, the applied set is
/// the old one with the targeted, applied part of a suffix of some
/// topological order removed, cut exactly at the failing migration.
pub open spec fn down_stopped_at(
    g: GraphView,
    to: Option<u128>,
    a0: Set<u128>,
    a1: Set<u128>,
    id: u128,
) -> bool {
    exists|order: Seq<int>, k: int|
        #![auto]
        {
            &&& g.valid_order(order)
            &&& 0 <= k < order.len()
            &&& down_target_idxs(g, to).contains(order[k])
            &&& g.ids[order[k]] == id
            &&& a1 == a0.difference(
                g.ids_of(down_target_idxs(g, to).intersect(suffix_idxs(order, k + 1))),
            )
        }
}

/// Everything `up` promises of its result and of the applied-state set:
/// which target resolutions fail, what a completed walk applies, and what
/// an interrupted walk leaves behind.
pub open spec fn up_outcome<E>(
    r: Result<(), MigratorError<E>>,
    g: GraphView,
    to: Option<u128>,
    a0: Set<u128>,
    a1: Set<u128>,
) -> bool {
    match r {
        Ok(_) => (match to {
            Some(x) => g.registered(x),
            None => true,
        }) && a1 == a0.union(up_target_ids(g, to)),
        Err(MigratorError::Dependency(e)) => (match to {
            Some(x) => e == DependencyError::UnknownId(x) && !g.registered(x),
            None => false,
        }) && a1 == a0,
        Err(MigratorError::Adapter(_)) => a1 == a0,
        Err(MigratorError::Migration { id, description, direction, error }) => direction
            == MigrationDirection::Up && !a0.contains(id) && up_stopped_at(g, to, a0, a1, id),
    }
}

/// Everything `down` promises of its result and of the applied-state set.
pub open spec fn down_outcome<E>(
    r: Result<(), MigratorError<E>>,
    g: GraphView,
    to: Option<u128>,
    a0: Set<u128>,
    a1: Set<u128>,
) -> bool {
    match r {
        Ok(_) => (match to {
            Some(x) => g.registered(x),
            None => true,
        }) && a1 == a0.difference(down_target_ids(g, to)),
        Err(MigratorError::Dependency(e)) => (match to {
            Some(x) => e == DependencyError::UnknownId(x) && !g.registered(x),
            None => false,
        }) && a1 == a0,
        Err(MigratorError::Adapter(_)) => a1 == a0,
        Err(MigratorError::Migration { id, description, direction, error }) => direction
            == MigrationDirection::Down && a0.contains(id) && down_stopped_at(g, to, a0, a1, id),
    }
}

/// Primary type for defining and applying migrations.
pub struct Migrator<T: Adapter> {
    /// The storage adapter. Public so that callers can inspect the
    /// applied-state set of the store after driving migrations.
    pub adapter: T,
    dependencies: DependencyGraph<T::MigrationType>,
}

impl<T: Adapter> Migrator<T> {
    /// The dependency graph that has been registered so far.
    pub closed spec fn graph(&self) -> GraphView {
        self.dependencies@
    }

    /// The applied-state set of the backing store, as the adapter models
    /// it.
    pub closed spec fn applied(&self) -> Set<u128> {
        self.adapter.applied()
    }

    /// The migrator's invariant: its graph is well formed and acyclic.
    pub closed spec fn wf(&self) -> bool {
        self.dependencies.wf()
    }

    /// A well-formed migrator has a well-formed, acyclic graph.
    pub proof fn lemma_wf_graph(&self)
        requires
            self.wf(),
        ensures
            self.graph().wf(),
            self.graph().acyclic(),
    {
        self.dependencies.lemma_wf_view();
    }

    /// The set of ids the backing store currently records as applied,
    /// as the adapter reports it.
    pub fn applied_migrations(&mut self) -> (r: Result<Vec<u128>, T::Error>)
        ensures
            final(self).applied() == old(self).applied(),
            final(self).graph() == old(self).graph(),
            old(self).wf() ==> final(self).wf(),
            r matches Ok(ids) ==> ids@.to_set() == old(self).applied(),
    {
        self.adapter.applied_migrations()
    }

    /// Create a `Migrator` using the given `Adapter`.
    pub fn new(adapter: T) -> (m: Migrator<T>)
        ensures
            m.wf(),
            m.graph().ids.len() == 0,
            m.graph().preds.len() == 0,
            m.applied() == adapter.applied(),
    {
        Migrator { adapter, dependencies: DependencyGraph::new() }
    }

    /// Register a migration into the dependency graph.
    ///
    /// Succeeds exactly when the id is new and every declared dependency
    /// is already registered; the graph then gains one node whose incoming
    /// edges come from the declared dependency set. A duplicate id is
    /// rejected as `DuplicateId`, an unregistered dependency as
    /// `UnknownId`; on any failure the graph is unchanged. The
    /// applied-state set is never touched.
    pub fn register(&mut self, migration: T::MigrationType) -> (r: Result<
        (),
        MigratorError<T::Error>,
    >)
        requires
            old(self).wf(),
        ensures
            final(self).wf(),
            final(self).applied() == old(self).applied(),
            (r matches Ok(_)) <==> (!old(self).graph().registered(migration.spec_id()) && forall|
                d: u128,
            |
                #[trigger] migration.spec_dependencies().contains(d) ==> old(
                    self,
                ).graph().registered(d)),
            r matches Ok(_) ==> final(self).graph().ids == old(self).graph().ids.push(
                migration.spec_id(),
            ) && final(self).graph().preds == old(self).graph().preds.push(
                old(self).graph().dep_indices(migration.spec_dependencies()),
            ),
            r matches Err(_) ==> final(self).graph() == old(self).graph(),
            old(self).graph().registered(migration.spec_id()) ==> r == Err::<
                (),
                MigratorError<T::Error>,
            >(MigratorError::Dependency(DependencyError::DuplicateId(migration.spec_id()))),
            (!old(self).graph().registered(migration.spec_id()) && exists|d: u128|
                #[trigger] migration.spec_dependencies().contains(d) && !old(
                    self,
                ).graph().registered(d)) ==> unknown_dep_err(
                r,
                migration.spec_dependencies(),
                old(self).graph(),
            ),
    {
        let id = migration.id();
        if self.dependencies.find_index(id).is_some() {
            return Err(MigratorError::Dependency(DependencyError::DuplicateId(id)));
        }
        let deps = migration.dependencies();
        let mut dep_idxs: Vec<usize> = Vec::new();
        let mut j: usize = 0;
        while j < deps.len()
            invariant
                self.adapter == old(self).adapter,
                self.dependencies == old(self).dependencies,
                self.wf(),
                !self.graph().registered(migration.spec_id()),
                deps@.to_set() == migration.spec_dependencies(),
                j <= deps@.len(),
                dep_idxs@.len() == j,
                forall|t: int|
                    0 <= t < j ==> (#[trigger] dep_idxs@[t] as int) < self.graph().n()
                        && self.graph().ids[dep_idxs@[t] as int] == deps@[t],
            decreases deps@.len() - j,
        {
            match self.dependencies.find_index(deps[j]) {
                None => {
                    proof {
                        assert(deps@.contains(deps@[j as int]));
                        assert(migration.spec_dependencies().contains(deps@[j as int]));
                    }
                    return Err(MigratorError::Dependency(DependencyError::UnknownId(deps[j])));
                },
                Some(i) => {
                    dep_idxs.push(i);
                },
            }
            j += 1;
        }
        proof {
            let g = self.graph();
            self.dependencies.lemma_wf_view();
            // every declared dependency is registered
            assert forall|d: u128| #[trigger] migration.spec_dependencies().contains(d) implies
            g.registered(d) by {
                let t = choose|t: int| 0 <= t < deps@.len() && deps@[t] == d;
                assert(g.ids[dep_idxs@[t] as int] == d);
                assert(g.ids.contains(d));
            }
            // the resolved indices are exactly the declared dependency set
            assert(idx_set(dep_idxs@) =~= g.dep_indices(migration.spec_dependencies())) by {
                assert forall|i: int| #[trigger] idx_set(dep_idxs@).contains(i) implies
                g.dep_indices(migration.spec_dependencies()).contains(i) by {
                    let t = choose|t: int|
                        0 <= t < dep_idxs@.len() && #[trigger] dep_idxs@[t] as int == i;
                    assert(deps@.contains(deps@[t]));
                }
                assert forall|i: int|
                    #[trigger] g.dep_indices(migration.spec_dependencies()).contains(i) implies
                idx_set(dep_idxs@).contains(i) by {
                    let t = choose|t: int| 0 <= t < deps@.len() && deps@[t] == g.ids[i];
                    assert(g.ids[dep_idxs@[t] as int] == g.ids[i]);
                    assert(dep_idxs@[t] as int == i);
                    assert(idx_set(dep_idxs@).contains(dep_idxs@[t] as int));
                }
            }
        }
        self.dependencies.add_node_with_deps(migration, dep_idxs);
        Ok(())
    }

    /// Register multiple migrations into the dependency graph at once. The
    /// vector does not need to be ordered by dependency structure.
    ///
    /// The whole batch is validated before any mutation — duplicate ids
    /// first (against the graph and within the batch), then unknown
    /// dependencies, then cycles — so on any failure the graph is exactly
    /// as it was. The applied-state set is never touched.
    pub fn register_multiple(&mut self, migrations: Vec<T::MigrationType>) -> (r: Result<
        (),
        MigratorError<T::Error>,
    >)
        requires
            old(self).wf(),
            old(self).graph().n() + migrations@.len() <= usize::MAX,
        ensures
            final(self).wf(),
            final(self).applied() == old(self).applied(),
            (r matches Ok(_)) <==> (batch_fresh(old(self).graph(), migrations@)
                && batch_deps_known(old(self).graph(), migrations@) && batch_graph(
                old(self).graph(),
                migrations@,
            ).acyclic()),
            r matches Ok(_) ==> final(self).graph() == batch_graph(old(self).graph(), migrations@),
            r matches Err(_) ==> final(self).graph() == old(self).graph(),
            !batch_fresh(old(self).graph(), migrations@) ==> duplicate_err(
                r,
                old(self).graph(),
                migrations@,
            ),
            (batch_fresh(old(self).graph(), migrations@) && !batch_deps_known(
                old(self).graph(),
                migrations@,
            )) ==> batch_unknown_err(r, old(self).graph(), migrations@),
            (batch_fresh(old(self).graph(), migrations@) && batch_deps_known(
                old(self).graph(),
                migrations@,
            ) && !batch_graph(old(self).graph(), migrations@).acyclic()) ==> cycle_err(
                r,
                old(self).graph(),
                migrations@,
            ),
    {
        let ghost g0 = self.graph();
        let ghost ms0 = migrations@;
        let ghost cand = batch_graph(g0, ms0);
        proof {
            self.dependencies.lemma_wf_view();
        }
        let n0 = self.dependencies.len();
        let b = migrations.len();
        // collect the batch identities, rejecting duplicates
        let mut batch: Vec<u128> = Vec::new();
        let mut k: usize = 0;
        while k < b
            invariant
                self.adapter == old(self).adapter,
                self.dependencies == old(self).dependencies,
                self.wf(),
                g0 == self.graph(),
                ms0 == migrations@,
                b == ms0.len(),
                k <= b,
                batch@.len() == k,
                forall|t: int| 0 <= t < k ==> batch@[t] == ms0[t].spec_id(),
                forall|t: int| 0 <= t < k ==> !g0.registered(#[trigger] batch@[t]),
                forall|t1: int, t2: int| 0 <= t1 < t2 < k ==> batch@[t1] != batch@[t2],
            decreases b - k,
        {
            let id = migrations[k].id();
            if self.dependencies.find_index(id).is_some() {
                proof {
                    assert(batch_ids(ms0)[k as int] == id);
                    assert(batch_ids(ms0).contains(id));
                }
                return Err(MigratorError::Dependency(DependencyError::DuplicateId(id)));
            }
            match find_u128(&batch, id) {
                Some(t) => {
                    proof {
                        assert(ms0[t as int].spec_id() == id);
                        assert(batch_ids(ms0)[k as int] == id);
                        assert(batch_ids(ms0).contains(id));
                    }
                    return Err(MigratorError::Dependency(DependencyError::DuplicateId(id)));
                },
                None => {},
            }
            batch.push(id);
            k += 1;
        }
        proof {
            assert(batch@ =~= batch_ids(ms0));
            assert forall|k3: int| 0 <= k3 < ms0.len() implies !g0.registered(
                #[trigger] ms0[k3].spec_id(),
            ) by {
                assert(batch@[k3] == ms0[k3].spec_id());
                assert(!g0.registered(batch@[k3]));
            }
            assert forall|ka: int, kb: int| 0 <= ka < kb < ms0.len() implies ms0[ka].spec_id()
                != ms0[kb].spec_id() by {
                assert(batch@[ka] == ms0[ka].spec_id());
                assert(batch@[kb] == ms0[kb].spec_id());
            }
            assert(batch_fresh(g0, ms0));
            // the combined identities are distinct
            assert forall|i: int, j: int|
                0 <= i < cand.ids.len() && 0 <= j < cand.ids.len() && i != j implies cand.ids[i]
                != cand.ids[j] by {
                if i < n0 && j >= n0 {
                    assert(!g0.registered(batch@[j - n0]));
                    assert(cand.ids[i] == g0.ids[i]);
                }
                if j < n0 && i >= n0 {
                    assert(!g0.registered(batch@[i - n0]));
                    assert(cand.ids[j] == g0.ids[j]);
                }
            }
        }
        // resolve every declared dependency against the combined identities
        let mut new_preds: Vec<Vec<usize>> = Vec::new();
        let mut k2: usize = 0;
        while k2 < b
            invariant
                self.adapter == old(self).adapter,
                self.dependencies == old(self).dependencies,
                self.wf(),
                g0 == self.graph(),
                ms0 == migrations@,
                cand == batch_graph(g0, ms0),
                b == ms0.len(),
                n0 == g0.n(),
                n0 + b <= usize::MAX,
                batch@ == batch_ids(ms0),
                batch_fresh(g0, ms0),
                g0.wf(),
                forall|i: int, j: int|
                    0 <= i < cand.ids.len() && 0 <= j < cand.ids.len() && i != j ==> cand.ids[i]
                        != cand.ids[j],
                k2 <= b,
                new_preds@.len() == k2,
                forall|t: int, j: int|
                    0 <= t < k2 && 0 <= j < new_preds@[t]@.len() ==> (
                    #[trigger] new_preds@[t]@[j] as int) < n0 + b,
                forall|t: int|
                    0 <= t < k2 ==> idx_set(#[trigger] new_preds@[t]@) == cand.preds[n0 + t],
                forall|t: int, d: u128|
                    0 <= t < k2 && #[trigger] ms0[t].spec_dependencies().contains(d) ==> (
                    g0.registered(d) || batch_ids(ms0).contains(d)),
                cand.ids == g0.ids + batch_ids(ms0),
            decreases b - k2,
        {
            let deps = migrations[k2].dependencies();
            let mut dl: Vec<usize> = Vec::new();
            let mut j: usize = 0;
            while j < deps.len()
                invariant
                    self.adapter == old(self).adapter,
                    self.dependencies == old(self).dependencies,
                    self.wf(),
                    g0 == self.graph(),
                    ms0 == migrations@,
                    b == ms0.len(),
                    n0 == g0.n(),
                    n0 + b <= usize::MAX,
                    batch@ == batch_ids(ms0),
                    batch_fresh(g0, ms0),
                    g0.wf(),
                    cand == batch_graph(g0, ms0),
                    forall|i1: int, i2: int|
                        0 <= i1 < cand.ids.len() && 0 <= i2 < cand.ids.len() && i1 != i2
                            ==> cand.ids[i1] != cand.ids[i2],
                    (k2 as int) < b,
                    deps@.to_set() == ms0[k2 as int].spec_dependencies(),
                    j <= deps@.len(),
                    dl@.len() == j,
                    forall|t: int|
                        0 <= t < j ==> (#[trigger] dl@[t] as int) < n0 + b && cand.ids[dl@[t] as int]
                            == deps@[t],
                    cand.ids == g0.ids + batch_ids(ms0),
                decreases deps@.len() - j,
            {
                let d = deps[j];
                proof {
                    assert(deps@.contains(deps@[j as int]));
                    assert(ms0[k2 as int].spec_dependencies().contains(d));
                }
                match self.dependencies.find_index(d) {
                    Some(i) => {
                        proof {
                            assert(cand.ids[i as int] == g0.ids[i as int]);
                        }
                        dl.push(i);
                    },
                    None => {
                        match find_u128(&batch, d) {
                            Some(bi) => {
                                proof {
                                    assert(cand.ids[n0 + bi] == batch@[bi as int]);
                                }
                                dl.push(n0 + bi);
                            },
                            None => {
                                proof {
                                    assert(!g0.registered(d));
                                    assert(!batch_ids(ms0).contains(d));
                                }
                                return Err(
                                    MigratorError::Dependency(DependencyError::UnknownId(d)),
                                );
                            },
                        }
                    },
                }
                j += 1;
            }
            proof {
                assert(g0.preds.len() == g0.ids.len());
                let target = cand.preds[n0 + k2];
                assert(target == Set::new(
                    |i: int|
                        0 <= i < g0.ids.len() + ms0.len()
                            && ms0[k2 as int].spec_dependencies().contains(cand.ids[i]),
                ));
                assert(idx_set(dl@) =~= target) by {
                    assert forall|i: int| #[trigger] idx_set(dl@).contains(i) implies
                    target.contains(i) by {
                        let t = choose|t: int|
                            0 <= t < dl@.len() && #[trigger] dl@[t] as int == i;
                        assert(deps@.contains(deps@[t]));
                        assert(ms0[k2 as int].spec_dependencies().contains(cand.ids[i]));
                    }
                    assert forall|i: int| #[trigger] target.contains(i) implies idx_set(
                        dl@,
                    ).contains(i) by {
                        let t = choose|t: int| 0 <= t < deps@.len() && deps@[t] == cand.ids[i];
                        assert(cand.ids[dl@[t] as int] == cand.ids[i]);
                        assert(dl@[t] as int == i);
                        assert(dl@[t] as int == i && 0 <= t < dl@.len());
                    }
                }
            }
            proof {
                assert forall|d: u128|
                    #[trigger] ms0[k2 as int].spec_dependencies().contains(d) implies (
                g0.registered(d) || batch_ids(ms0).contains(d)) by {
                    let t = choose|t: int| 0 <= t < deps@.len() && deps@[t] == d;
                    let i = dl@[t] as int;
                    assert(cand.ids[i] == d);
                    if i < n0 {
                        assert(g0.ids[i] == d);
                        assert(g0.ids.contains(d));
                    } else {
                        assert(batch_ids(ms0)[i - n0] == d);
                        assert(batch_ids(ms0).contains(d));
                    }
                }
            }
            new_preds.push(dl);
            k2 += 1;
        }
        proof {
            assert(batch_deps_known(g0, ms0));
        }
        let ghost np0 = new_preds@;
        match self.dependencies.add_batch(migrations, new_preds) {
            Ok(()) => {
                proof {
                    assert(g0.extend(batch_ids(ms0), batch_pred_sets(np0)) =~= cand) by {
                        assert(batch_pred_sets(np0).len() == ms0.len());
                        assert forall|t: int|
                            0 <= t < cand.preds.len() implies g0.extend(
                            batch_ids(ms0),
                            batch_pred_sets(np0),
                        ).preds[t] == cand.preds[t] by {
                            if t >= n0 {
                                assert(batch_pred_sets(np0)[t - n0] == idx_set(np0[t - n0]@));
                                assert(idx_set(np0[t - n0]@) == cand.preds[n0 + (t - n0)]);
                                assert(n0 + (t - n0) == t);
                            }
                        }
                    }
                }
                Ok(())
            },
            Err(edge) => {
                let (d, c) = edge;
                proof {
                    assert(g0.extend(batch_ids(ms0), batch_pred_sets(np0)) =~= cand) by {
                        assert forall|t: int|
                            0 <= t < cand.preds.len() implies g0.extend(
                            batch_ids(ms0),
                            batch_pred_sets(np0),
                        ).preds[t] == cand.preds[t] by {
                            if t >= n0 {
                                assert(batch_pred_sets(np0)[t - n0] == idx_set(np0[t - n0]@));
                                assert(idx_set(np0[t - n0]@) == cand.preds[n0 + (t - n0)]);
                                assert(n0 + (t - n0) == t);
                            }
                        }
                    }
                    assert(cand.edge(d as int, c as int));
                }
                let from_id = if d < n0 {
                    self.dependencies.id_at(d)
                } else {
                    batch[d - n0]
                };
                let to_id = if c < n0 {
                    self.dependencies.id_at(c)
                } else {
                    batch[c - n0]
                };
                proof {
                    assert(cand.ids[d as int] == from_id);
                    assert(cand.ids[c as int] == to_id);
                }
                Err(MigratorError::Dependency(DependencyError::Cycle { from: from_id, to: to_id }))
            },
        }
    }

    /// Apply migrations as necessary so that the specified migration and
    /// everything it depends on are applied (inclusive).
    ///
    /// If `to` is `None`, apply all registered migrations. The current
    /// applied-state set is fetched fresh from the adapter; the walk
    /// follows one topological order of the whole graph and invokes the
    /// adapter once for each targeted migration not already applied,
    /// skipping the rest. The first adapter failure stops the walk at
    /// once, attributed to its migration and direction. Whatever the
    /// outcome, an applied set closed under dependencies stays closed.
    pub fn up(&mut self, to: Option<u128>) -> (r: Result<(), MigratorError<T::Error>>)
        requires
            old(self).wf(),
        ensures
            final(self).wf(),
            final(self).graph() == old(self).graph(),
            up_outcome(r, old(self).graph(), to, old(self).applied(), final(self).applied()),
            match to {
                Some(x) => !old(self).graph().registered(x) ==> r == Err::<
                    (),
                    MigratorError<T::Error>,
                >(MigratorError::Dependency(DependencyError::UnknownId(x))),
                None => true,
            },
            old(self).graph().dep_closed(old(self).applied()) ==> old(self).graph().dep_closed(
                final(self).applied(),
            ),
    {
        let ghost g = self.graph();
        let ghost a0 = self.applied();
        proof {
            self.dependencies.lemma_wf_view();
        }
        let n = self.dependencies.len();
        let marks: Vec<bool> = match to {
            Some(x) => {
                match self.dependencies.find_index(x) {
                    None => {
                        return Err(MigratorError::Dependency(DependencyError::UnknownId(x)));
                    },
                    Some(i) => {
                        proof {
                            let i0 = g.index_of(x);
                            assert(0 <= i0 < g.n() && g.ids[i0] == x);
                            assert(i0 == i as int);
                            g.lemma_ancestors_pred_closed(i as int);
                        }
                        self.dependencies.mark_ancestors(i)
                    },
                }
            },
            None => {
                proof {
                    g.lemma_all_idxs_closed();
                }
                vec![true; n]
            },
        };
        let ghost tset = up_target_idxs(g, to);
        proof {
            assert(forall|i: int| 0 <= i < g.n() ==> (marks@[i] <==> tset.contains(i)));
            assert(g.pred_closed(tset));
            assert(match to {
                Some(x) => g.registered(x),
                None => true,
            });
        }
        let applied0: Vec<u128> = match self.adapter.applied_migrations() {
            Ok(v) => v,
            Err(e) => {
                return Err(MigratorError::Adapter(e));
            },
        };
        let order = self.dependencies.toposort();
        let ghost io = to_int_seq(order@);
        proof {
            assert(tset.intersect(prefix_idxs(io, 0)) =~= Set::<int>::empty());
            assert(g.ids_of(Set::<int>::empty()) =~= Set::<u128>::empty());
            assert(a0.union(Set::<u128>::empty()) =~= a0);
        }
        let mut k: usize = 0;
        while k < order.len()
            invariant
                self.dependencies == old(self).dependencies,
                self.wf(),
                g == self.graph(),
                g.wf(),
                n == g.n(),
                marks@.len() == g.n(),
                forall|i: int| 0 <= i < g.n() ==> (marks@[i] <==> tset.contains(i)),
                tset == up_target_idxs(g, to),
                g.pred_closed(tset),
                applied0@.to_set() == a0,
                a0 == old(self).applied(),
                g.valid_order(io),
                io == to_int_seq(order@),
                order@.len() == g.n(),
                k <= order@.len(),
                self.applied() == a0.union(g.ids_of(tset.intersect(prefix_idxs(io, k as int)))),
                match to {
                    Some(x) => g.registered(x),
                    None => true,
                },
            decreases order@.len() - k,
        {
            let v = order[k];
            proof {
                assert(io[k as int] == v as int);
                assert(0 <= io[k as int] < g.n());
            }
            let id = self.dependencies.id_at(v);
            let ghost applied_pre = self.applied();
            let targeted = marks[v];
            let already = find_u128(&applied0, id).is_some();
            proof {
                if already {
                    assert(applied0@.contains(id));
                    assert(a0.contains(id));
                } else {
                    assert(!applied0@.contains(id));
                    assert(!a0.contains(id));
                }
                assert(prefix_idxs(io, k + 1) =~= prefix_idxs(io, k as int).insert(v as int)) by {
                    assert forall|u: int| prefix_idxs(io, k + 1).contains(u) implies prefix_idxs(
                        io,
                        k as int,
                    ).insert(v as int).contains(u) by {
                        let j = choose|j: int| 0 <= j < k + 1 && j < io.len() && io[j] == u;
                        if j == k as int {
                            assert(u == v as int);
                        }
                    }
                }
            }
            if targeted && !already {
                let node = self.dependencies.node(v);
                let desc = node.description();
                match self.adapter.apply_migration(node) {
                    Ok(_) => {
                        proof {
                            assert(self.applied() == applied_pre.insert(id));
                            lemma_up_step(g, tset, a0, io, k as int, v as int, id, applied_pre, self.applied());
                        }
                    },
                    Err(e) => {
                        proof {
                            assert(self.applied() == applied_pre);
                            assert(tset.contains(io[k as int]));
                            assert(g.ids[io[k as int]] == id);
                            assert(up_stopped_at(g, to, a0, self.applied(), id));
                            if g.dep_closed(a0) {
                                g.lemma_prefix_pred_closed(io, k as int);
                                g.lemma_walk_up_closed(tset, prefix_idxs(io, k as int), a0);
                            }
                        }
                        return Err(
                            MigratorError::Migration {
                                id,
                                description: desc,
                                direction: MigrationDirection::Up,
                                error: e,
                            },
                        );
                    },
                }
            } else {
                proof {
                    lemma_up_skip(g, tset, a0, io, k as int, v as int, id, targeted, already, applied_pre);
                }
            }
            k += 1;
        }
        proof {
            assert(tset.intersect(prefix_idxs(io, g.n())) =~= tset) by {
                assert forall|u: int| tset.contains(u) implies prefix_idxs(io, g.n()).contains(
                    u,
                ) by {
                    assert(0 <= u < g.n());
                    assert(io.contains(u));
                    let j = choose|j: int| 0 <= j < io.len() && io[j] == u;
                }
            }
            if g.dep_closed(a0) {
                g.lemma_prefix_pred_closed(io, g.n());
                g.lemma_walk_up_closed(tset, prefix_idxs(io, g.n()), a0);
                assert(a0.union(g.ids_of(tset.intersect(prefix_idxs(io, g.n())))) == a0.union(
                    g.ids_of(tset),
                ));
            }
        }
        Ok(())
    }

    /// Revert migrations as necessary so that no migration dependent on
    /// the specified migration remains applied; the specified migration
    /// itself stays applied.
    ///
    /// If `to` is `None`, revert all applied migrations. The current
    /// applied-state set is fetched fresh from the adapter; the walk
    /// follows one topological order of the whole graph in reverse and
    /// invokes the adapter once for each targeted migration that is
    /// applied, skipping the rest. The first adapter failure stops the
    /// walk at once, attributed to its migration and direction. Whatever
    /// the outcome, an applied set closed under dependencies stays closed.
    pub fn down(&mut self, to: Option<u128>) -> (r: Result<(), MigratorError<T::Error>>)
        requires
            old(self).wf(),
        ensures
            final(self).wf(),
            final(self).graph() == old(self).graph(),
            down_outcome(r, old(self).graph(), to, old(self).applied(), final(self).applied()),
            match to {
                Some(x) => !old(self).graph().registered(x) ==> r == Err::<
                    (),
                    MigratorError<T::Error>,
                >(MigratorError::Dependency(DependencyError::UnknownId(x))),
                None => true,
            },
            old(self).graph().dep_closed(old(self).applied()) ==> old(self).graph().dep_closed(
                final(self).applied(),
            ),
    {
        let ghost g = self.graph();
        let ghost a0 = self.applied();
        proof {
            self.dependencies.lemma_wf_view();
        }
        let n = self.dependencies.len();
        let marks: Vec<bool> = match to {
            Some(x) => {
                match self.dependencies.find_index(x) {
                    None => {
                        return Err(MigratorError::Dependency(DependencyError::UnknownId(x)));
                    },
                    Some(i) => {
                        proof {
                            let i0 = g.index_of(x);
                            assert(0 <= i0 < g.n() && g.ids[i0] == x);
                            assert(i0 == i as int);
                            let w = choose|w: Seq<int>| g.valid_order(w);
                            g.lemma_strict_descendants_succ_closed(w, i as int);
                        }
                        let mut m = self.dependencies.mark_descendants(i);
                        m.set(i, false);
                        m
                    },
                }
            },
            None => {
                proof {
                    g.lemma_all_idxs_closed();
                }
                vec![true; n]
            },
        };
        let ghost tset = down_target_idxs(g, to);
        proof {
            assert(forall|i: int| 0 <= i < g.n() ==> (marks@[i] <==> tset.contains(i)));
            assert(g.succ_closed(tset));
            assert(match to {
                Some(x) => g.registered(x),
                None => true,
            });
        }
        let applied0: Vec<u128> = match self.adapter.applied_migrations() {
            Ok(v) => v,
            Err(e) => {
                return Err(MigratorError::Adapter(e));
            },
        };
        let order = self.dependencies.toposort();
        let ghost io = to_int_seq(order@);
        proof {
            assert(tset.intersect(suffix_idxs(io, io.len() as int)) =~= Set::<int>::empty());
            assert(g.ids_of(Set::<int>::empty()) =~= Set::<u128>::empty());
            assert(a0.difference(Set::<u128>::empty()) =~= a0);
        }
        let mut k: usize = order.len();
        while k > 0
            invariant
                self.dependencies == old(self).dependencies,
                self.wf(),
                g == self.graph(),
                g.wf(),
                n == g.n(),
                marks@.len() == g.n(),
                forall|i: int| 0 <= i < g.n() ==> (marks@[i] <==> tset.contains(i)),
                tset == down_target_idxs(g, to),
                g.succ_closed(tset),
                applied0@.to_set() == a0,
                a0 == old(self).applied(),
                g.valid_order(io),
                io == to_int_seq(order@),
                order@.len() == g.n(),
                k <= order@.len(),
                self.applied() == a0.difference(
                    g.ids_of(tset.intersect(suffix_idxs(io, k as int))),
                ),
                match to {
                    Some(x) => g.registered(x),
                    None => true,
                },
            decreases k,
        {
            k -= 1;
            let v = order[k];
            proof {
                assert(io[k as int] == v as int);
                assert(0 <= io[k as int] < g.n());
            }
            let id = self.dependencies.id_at(v);
            let ghost applied_pre = self.applied();
            let targeted = marks[v];
            let already = find_u128(&applied0, id).is_some();
            proof {
                if already {
                    assert(applied0@.contains(id));
                    assert(a0.contains(id));
                } else {
                    assert(!applied0@.contains(id));
                    assert(!a0.contains(id));
                }
                assert(suffix_idxs(io, k as int) =~= suffix_idxs(io, k + 1).insert(v as int)) by {
                    assert forall|u: int| suffix_idxs(io, k as int).contains(u) implies
                    suffix_idxs(io, k + 1).insert(v as int).contains(u) by {
                        let j = choose|j: int|
                            k <= j < io.len() && 0 <= j && io[j] == u;
                        if j == k as int {
                            assert(u == v as int);
                        }
                    }
                }
            }
            if targeted && already {
                let node = self.dependencies.node(v);
                let desc = node.description();
                match self.adapter.revert_migration(node) {
                    Ok(_) => {
                        proof {
                            assert(self.applied() == applied_pre.remove(id));
                            lemma_down_step(g, tset, a0, io, k as int, v as int, id, applied_pre, self.applied());
                        }
                    },
                    Err(e) => {
                        proof {
                            assert(self.applied() == applied_pre);
                            assert(tset.contains(io[k as int]));
                            assert(g.ids[io[k as int]] == id);
                            assert(down_stopped_at(g, to, a0, self.applied(), id));
                            if g.dep_closed(a0) {
                                g.lemma_suffix_succ_closed(io, k + 1);
                                g.lemma_walk_down_closed(tset, suffix_idxs(io, k + 1), a0);
                            }
                        }
                        return Err(
                            MigratorError::Migration {
                                id,
                                description: desc,
                                direction: MigrationDirection::Down,
                                error: e,
                            },
                        );
                    },
                }
            } else {
                proof {
                    lemma_down_skip(g, tset, a0, io, k as int, v as int, id, targeted, already, applied_pre);
                }
            }
        }
        proof {
            assert(tset.intersect(suffix_idxs(io, 0)) =~= tset) by {
                assert forall|u: int| tset.contains(u) implies suffix_idxs(io, 0).contains(u) by {
                    assert(0 <= u < g.n());
                    assert(io.contains(u));
                    let j = choose|j: int| 0 <= j < io.len() && io[j] == u;
                }
            }
            if g.dep_closed(a0) {
                g.lemma_suffix_succ_closed(io, 0);
                g.lemma_walk_down_closed(tset, suffix_idxs(io, 0), a0);
                assert(a0.difference(g.ids_of(tset.intersect(suffix_idxs(io, 0))))
                    == a0.difference(g.ids_of(tset)));
            }
        }
        Ok(())
    }
}

/// One reverting step of the `down` walk: the new applied set is the old
/// invariant shape with the suffix grown by one.
proof fn lemma_down_step(
    g: GraphView,
    tset: Set<int>,
    a0: Set<u128>,
    io: Seq<int>,
    k: int,
    v: int,
    id: u128,
    applied_pre: Set<u128>,
    applied_post: Set<u128>,
)
    requires
        g.wf(),
        g.valid_order(io),
        0 <= k < io.len(),
        io[k] == v,
        0 <= v < g.n(),
        g.ids[v] == id,
        tset.contains(v),
        applied_pre == a0.difference(g.ids_of(tset.intersect(suffix_idxs(io, k + 1)))),
        applied_post == applied_pre.remove(id),
        suffix_idxs(io, k) == suffix_idxs(io, k + 1).insert(v),
    ensures
        applied_post == a0.difference(g.ids_of(tset.intersect(suffix_idxs(io, k)))),
    decreases 0int,
{
    assert(tset.intersect(suffix_idxs(io, k)) =~= tset.intersect(suffix_idxs(io, k + 1)).insert(
        v,
    ));
    assert(g.ids_of(tset.intersect(suffix_idxs(io, k + 1)).insert(v)) =~= g.ids_of(
        tset.intersect(suffix_idxs(io, k + 1)),
    ).insert(id)) by {
        assert forall|q: u128|
            #![trigger g.ids_of(tset.intersect(suffix_idxs(io, k + 1)).insert(v)).contains(q)]
            g.ids_of(tset.intersect(suffix_idxs(io, k + 1)).insert(v)).contains(q) implies
        g.ids_of(tset.intersect(suffix_idxs(io, k + 1))).insert(id).contains(q) by {
            let i = choose|i: int|
                tset.intersect(suffix_idxs(io, k + 1)).insert(v).contains(i) && 0 <= i < g.n()
                    && g.ids[i] == q;
            if i == v {
            } else {
                assert(tset.intersect(suffix_idxs(io, k + 1)).contains(i));
            }
        }
        assert forall|q: u128|
            #![trigger g.ids_of(tset.intersect(suffix_idxs(io, k + 1)).insert(v)).contains(q)]
            g.ids_of(tset.intersect(suffix_idxs(io, k + 1))).insert(id).contains(q) implies
        g.ids_of(tset.intersect(suffix_idxs(io, k + 1)).insert(v)).contains(q) by {
            if q == id {
                assert(tset.intersect(suffix_idxs(io, k + 1)).insert(v).contains(v));
            } else {
                let i = choose|i: int|
                    tset.intersect(suffix_idxs(io, k + 1)).contains(i) && 0 <= i < g.n()
                        && g.ids[i] == q;
                assert(tset.intersect(suffix_idxs(io, k + 1)).insert(v).contains(i));
            }
        }
    }
    assert(applied_post =~= a0.difference(g.ids_of(tset.intersect(suffix_idxs(io, k)))));
}

/// One skipping step of the `down` walk: an untargeted or not currently
/// applied migration changes nothing.
proof fn lemma_down_skip(
    g: GraphView,
    tset: Set<int>,
    a0: Set<u128>,
    io: Seq<int>,
    k: int,
    v: int,
    id: u128,
    targeted: bool,
    already: bool,
    applied_pre: Set<u128>,
)
    requires
        g.wf(),
        g.valid_order(io),
        0 <= k < io.len(),
        io[k] == v,
        0 <= v < g.n(),
        g.ids[v] == id,
        targeted <==> tset.contains(v),
        already <==> a0.contains(id),
        !(targeted && already),
        applied_pre == a0.difference(g.ids_of(tset.intersect(suffix_idxs(io, k + 1)))),
        suffix_idxs(io, k) == suffix_idxs(io, k + 1).insert(v),
    ensures
        applied_pre == a0.difference(g.ids_of(tset.intersect(suffix_idxs(io, k)))),
    decreases 0int,
{
    if !targeted {
        assert(tset.intersect(suffix_idxs(io, k)) =~= tset.intersect(suffix_idxs(io, k + 1)));
    } else {
        // targeted and not applied: removing its identity changes nothing
        assert(tset.intersect(suffix_idxs(io, k)) =~= tset.intersect(
            suffix_idxs(io, k + 1),
        ).insert(v));
        assert(a0.difference(g.ids_of(tset.intersect(suffix_idxs(io, k)))) =~= applied_pre) by {
            assert forall|q: u128|
                #![trigger applied_pre.contains(q), a0.contains(q)]
                applied_pre.contains(q) implies a0.difference(
                g.ids_of(tset.intersect(suffix_idxs(io, k))),
            ).contains(q) by {
                if g.ids_of(tset.intersect(suffix_idxs(io, k))).contains(q) {
                    let i = choose|i: int|
                        tset.intersect(suffix_idxs(io, k)).contains(i) && 0 <= i < g.n()
                            && g.ids[i] == q;
                    if i == v {
                        assert(q == id);
                        assert(!a0.contains(q));
                    } else {
                        assert(tset.intersect(suffix_idxs(io, k + 1)).contains(i));
                        assert(g.ids_of(tset.intersect(suffix_idxs(io, k + 1))).contains(q));
                    }
                }
            }
            assert forall|q: u128|
                #![trigger applied_pre.contains(q), a0.contains(q)]
                a0.difference(g.ids_of(tset.intersect(suffix_idxs(io, k)))).contains(q) implies
            applied_pre.contains(q) by {
                if g.ids_of(tset.intersect(suffix_idxs(io, k + 1))).contains(q) {
                    let i = choose|i: int|
                        tset.intersect(suffix_idxs(io, k + 1)).contains(i) && 0 <= i < g.n()
                            && g.ids[i] == q;
                    assert(tset.intersect(suffix_idxs(io, k)).contains(i));
                }
            }
        }
    }
}

/// One applying step of the `up` walk: the new applied set is the old
/// invariant shape with the prefix advanced by one.
proof fn lemma_up_step(
    g: GraphView,
    tset: Set<int>,
    a0: Set<u128>,
    io: Seq<int>,
    k: int,
    v: int,
    id: u128,
    applied_pre: Set<u128>,
    applied_post: Set<u128>,
)
    requires
        g.wf(),
        g.valid_order(io),
        0 <= k < io.len(),
        io[k] == v,
        0 <= v < g.n(),
        g.ids[v] == id,
        tset.contains(v),
        applied_pre == a0.union(g.ids_of(tset.intersect(prefix_idxs(io, k)))),
        applied_post == applied_pre.insert(id),
        prefix_idxs(io, k + 1) == prefix_idxs(io, k).insert(v),
    ensures
        applied_post == a0.union(g.ids_of(tset.intersect(prefix_idxs(io, k + 1)))),
    decreases 0int,
{
    assert(tset.intersect(prefix_idxs(io, k + 1)) =~= tset.intersect(prefix_idxs(io, k)).insert(
        v,
    ));
    assert(g.ids_of(tset.intersect(prefix_idxs(io, k)).insert(v)) =~= g.ids_of(
        tset.intersect(prefix_idxs(io, k)),
    ).insert(id)) by {
        assert forall|q: u128|
            g.ids_of(tset.intersect(prefix_idxs(io, k)).insert(v)).contains(q) implies g.ids_of(
            tset.intersect(prefix_idxs(io, k)),
        ).insert(id).contains(q) by {
            let i = choose|i: int|
                tset.intersect(prefix_idxs(io, k)).insert(v).contains(i) && 0 <= i < g.n()
                    && g.ids[i] == q;
            if i == v {
            } else {
                assert(tset.intersect(prefix_idxs(io, k)).contains(i));
            }
        }
        assert forall|q: u128|
            g.ids_of(tset.intersect(prefix_idxs(io, k))).insert(id).contains(q) implies g.ids_of(
            tset.intersect(prefix_idxs(io, k)).insert(v),
        ).contains(q) by {
            if q == id {
                assert(tset.intersect(prefix_idxs(io, k)).insert(v).contains(v));
            } else {
                let i = choose|i: int|
                    tset.intersect(prefix_idxs(io, k)).contains(i) && 0 <= i < g.n() && g.ids[i]
                        == q;
                assert(tset.intersect(prefix_idxs(io, k)).insert(v).contains(i));
            }
        }
    }
    assert(applied_post =~= a0.union(g.ids_of(tset.intersect(prefix_idxs(io, k + 1)))));
}

/// One skipping step of the `up` walk: an untargeted or already applied
/// migration changes nothing.
proof fn lemma_up_skip(
    g: GraphView,
    tset: Set<int>,
    a0: Set<u128>,
    io: Seq<int>,
    k: int,
    v: int,
    id: u128,
    targeted: bool,
    already: bool,
    applied_pre: Set<u128>,
)
    requires
        g.wf(),
        g.valid_order(io),
        0 <= k < io.len(),
        io[k] == v,
        0 <= v < g.n(),
        g.ids[v] == id,
        targeted <==> tset.contains(v),
        already <==> a0.contains(id),
        !(targeted && !already),
        applied_pre == a0.union(g.ids_of(tset.intersect(prefix_idxs(io, k)))),
        prefix_idxs(io, k + 1) == prefix_idxs(io, k).insert(v),
    ensures
        applied_pre == a0.union(g.ids_of(tset.intersect(prefix_idxs(io, k + 1)))),
    decreases 0int,
{
    if !targeted {
        assert(tset.intersect(prefix_idxs(io, k + 1)) =~= tset.intersect(prefix_idxs(io, k)));
    } else {
        // targeted and already applied: the added identity is absorbed
        assert(tset.intersect(prefix_idxs(io, k + 1)) =~= tset.intersect(
            prefix_idxs(io, k),
        ).insert(v));
        assert(a0.union(g.ids_of(tset.intersect(prefix_idxs(io, k + 1)))) =~= applied_pre) by {
            assert forall|q: u128|
                a0.union(g.ids_of(tset.intersect(prefix_idxs(io, k + 1)))).contains(q) implies
            applied_pre.contains(q) by {
                if !a0.contains(q) {
                    let i = choose|i: int|
                        tset.intersect(prefix_idxs(io, k + 1)).contains(i) && 0 <= i < g.n()
                            && g.ids[i] == q;
                    if i == v {
                        assert(q == id);
                        assert(a0.contains(q));
                    } else {
                        assert(tset.intersect(prefix_idxs(io, k)).contains(i));
                        assert(g.ids_of(tset.intersect(prefix_idxs(io, k))).contains(q));
                    }
                }
            }
            assert forall|q: u128| applied_pre.contains(q) implies a0.union(
                g.ids_of(tset.intersect(prefix_idxs(io, k + 1))),
            ).contains(q) by {
                if !a0.contains(q) {
                    let i = choose|i: int|
                        tset.intersect(prefix_idxs(io, k)).contains(i) && 0 <= i < g.n()
                            && g.ids[i] == q;
                    assert(tset.intersect(prefix_idxs(io, k + 1)).contains(i));
                }
            }
        }
    }
}

} // verus!
