//! Test harness for applying a generic test suite to any backend-specific
//! adapter.

use vstd::prelude::*;

use crate::migration::Migration;
use crate::migrator::Adapter;
use crate::migrator::Migrator;

verus! {

/// A trivial struct implementing `Migration` on which adapters can build
/// their mock migrations.
pub struct TestMigration {
    id: u128,
    dependencies: Vec<u128>,
}

impl TestMigration {
    /// A migration with the given identity and dependency ids.
    pub fn new(id: u128, dependencies: Vec<u128>) -> (m: TestMigration)
        ensures
            m.spec_id() == id,
            m.spec_dependencies() == dependencies@.to_set(),
    {
        TestMigration { id, dependencies }
    }
}

impl Migration for TestMigration {
    closed spec fn spec_id(&self) -> u128 {
        self.id
    }

    closed spec fn spec_dependencies(&self) -> Set<u128> {
        self.dependencies@.to_set()
    }

    fn id(&self) -> (r: u128) {
        self.id
    }

    fn dependencies(&self) -> (r: Vec<u128>) {
        let mut r: Vec<u128> = Vec::new();
        let mut t: usize = 0;
        while t < self.dependencies.len()
            invariant
                t <= self.dependencies@.len(),
                r@.len() == t,
                forall|u: int| 0 <= u < t ==> r@[u] == self.dependencies@[u],
            decreases self.dependencies@.len() - t,
        {
            r.push(self.dependencies[t]);
            t += 1;
        }
        proof {
            assert(r@ =~= self.dependencies@);
        }
        r
    }

    fn description(&self) -> &'static str {
        "Test Migration"
    }
}

/// A trait required for running the generic test suite on an `Adapter`.
pub trait TestAdapter: Adapter {
    /// Construct a mock, no-op migration of the adapter's migration type.
    fn mock(id: u128, dependencies: Vec<u128>) -> (m: Self::MigrationType)
        ensures
            m.spec_id() == id,
            m.spec_dependencies() == dependencies@.to_set(),
    ;
}

/// The error type of [`DefaultTestAdapter`]; its actions never fail, so no
/// value of this type is ever produced.
#[derive(Clone, Copy, Debug, PartialEq, Eq, Structural)]
pub struct DefaultTestAdapterError;

/// An adapter that records the applied-state set in memory. Its actions
/// always succeed, and it counts the apply and revert actions performed,
/// so that tests can observe that a repeated operation acts zero times.
pub struct DefaultTestAdapter {
    applied_ids: Vec<u128>,
    actions: u64,
}

impl DefaultTestAdapter {
    /// How many apply and revert actions have been performed; saturates.
    pub closed spec fn spec_actions(&self) -> u64 {
        self.actions
    }

    /// A fresh adapter with an empty applied-state set.
    pub fn new() -> (a: DefaultTestAdapter)
        ensures
            a.applied() == Set::<u128>::empty(),
            a.spec_actions() == 0,
    {
        let a = DefaultTestAdapter { applied_ids: Vec::new(), actions: 0 };
        proof {
            assert(a.applied() =~= Set::<u128>::empty());
        }
        a
    }

    /// How many apply and revert actions this adapter has performed.
    pub fn action_count(&self) -> (n: u64)
        ensures
            n == self.spec_actions(),
    {
        self.actions
    }

    fn bump(&mut self)
        ensures
            final(self).applied_ids == old(self).applied_ids,
    {
        if self.actions < u64::MAX {
            self.actions = self.actions + 1;
        }
    }
}

/// Whether a fetched applied-state listing holds `id`.
fn contains_id(ids: &Vec<u128>, id: u128) -> (r: bool)
    ensures
        r == ids@.contains(id),
{
    let mut j: usize = 0;
    while j < ids.len()
        invariant
            j <= ids@.len(),
            forall|t: int| 0 <= t < j ==> ids@[t] != id,
        decreases ids@.len() - j,
    {
        if ids[j] == id {
            return true;
        }
        j += 1;
    }
    false
}

/// A copy of a fetched applied-state listing.
fn clone_ids(ids: &Vec<u128>) -> (r: Vec<u128>)
    ensures
        r@ == ids@,
{
    let mut r: Vec<u128> = Vec::new();
    let mut t: usize = 0;
    while t < ids.len()
        invariant
            t <= ids@.len(),
            r@.len() == t,
            forall|u: int| 0 <= u < t ==> r@[u] == ids@[u],
        decreases ids@.len() - t,
    {
        r.push(ids[t]);
        t += 1;
    }
    proof {
        assert(r@ =~= ids@);
    }
    r
}

/// Record `id` in the listing, once.
fn insert_id(ids: &mut Vec<u128>, id: u128)
    ensures
        final(ids)@.to_set() == old(ids)@.to_set().insert(id),
{
    let ghost s0 = ids@;
    if !contains_id(ids, id) {
        ids.push(id);
        proof {
            assert(ids@.to_set() =~= s0.to_set().insert(id)) by {
                assert forall|q: u128| ids@.to_set().contains(q) implies s0.to_set().insert(
                    id,
                ).contains(q) by {
                    let j = choose|j: int| 0 <= j < ids@.len() && ids@[j] == q;
                    if j < s0.len() {
                        assert(s0[j] == q);
                    }
                }
                assert forall|q: u128| s0.to_set().insert(id).contains(q) implies
                ids@.to_set().contains(q) by {
                    if q == id {
                        assert(ids@[ids@.len() - 1] == q);
                    } else {
                        let j = choose|j: int| 0 <= j < s0.len() && s0[j] == q;
                        assert(ids@[j] == q);
                    }
                }
            }
        }
    } else {
        proof {
            assert(ids@.to_set() =~= s0.to_set().insert(id));
        }
    }
}

/// Strike `id` from the listing.
fn remove_id(ids: &mut Vec<u128>, id: u128)
    ensures
        final(ids)@.to_set() == old(ids)@.to_set().remove(id),
{
    let ghost s0 = ids@;
    let mut remaining: Vec<u128> = Vec::new();
    let mut t: usize = 0;
    while t < ids.len()
        invariant
            t <= ids@.len(),
            ids@ == s0,
            forall|q: u128|
                #[trigger] remaining@.contains(q) <==> (q != id && exists|j: int|
                    0 <= j < t && s0[j] == q),
        decreases ids@.len() - t,
    {
        let v = ids[t];
        let ghost r0 = remaining@;
        if v != id {
            remaining.push(v);
        }
        proof {
            assert forall|q: u128| #[trigger] remaining@.contains(q) implies (q != id && exists|
                j: int,
            | 0 <= j < t + 1 && s0[j] == q) by {
                let u = choose|u: int| 0 <= u < remaining@.len() && remaining@[u] == q;
                if u < r0.len() {
                    assert(r0[u] == q);
                    assert(r0.contains(q));
                } else {
                    assert(q == v);
                    assert(s0[t as int] == q);
                }
            }
            assert forall|q: u128|
                q != id && (exists|j: int| 0 <= j < t + 1 && s0[j] == q) implies
            #[trigger] remaining@.contains(q) by {
                let j = choose|j: int| 0 <= j < t + 1 && s0[j] == q;
                if j < t as int {
                    assert(r0.contains(q));
                    let u = choose|u: int| 0 <= u < r0.len() && r0[u] == q;
                    assert(remaining@[u] == q);
                } else {
                    assert(q == v);
                    assert(remaining@[remaining@.len() - 1] == q);
                }
            }
        }
        t += 1;
    }
    *ids = remaining;
    proof {
        assert(ids@.to_set() =~= s0.to_set().remove(id)) by {
            assert forall|q: u128| ids@.to_set().contains(q) implies s0.to_set().remove(
                id,
            ).contains(q) by {
                let j = choose|j: int| 0 <= j < s0.len() && s0[j] == q;
            }
            assert forall|q: u128| s0.to_set().remove(id).contains(q) implies
            ids@.to_set().contains(q) by {
                let j = choose|j: int| 0 <= j < s0.len() && s0[j] == q;
            }
        }
    }
}

impl Adapter for DefaultTestAdapter {
    type MigrationType = TestMigration;

    type Error = DefaultTestAdapterError;

    closed spec fn applied(&self) -> Set<u128> {
        self.applied_ids@.to_set()
    }

    fn applied_migrations(&mut self) -> (r: Result<Vec<u128>, DefaultTestAdapterError>) {
        Ok(clone_ids(&self.applied_ids))
    }

    fn apply_migration(&mut self, migration: &TestMigration) -> (r: Result<
        (),
        DefaultTestAdapterError,
    >) {
        let id = migration.id();
        insert_id(&mut self.applied_ids, id);
        self.bump();
        Ok(())
    }

    fn revert_migration(&mut self, migration: &TestMigration) -> (r: Result<
        (),
        DefaultTestAdapterError,
    >) {
        let id = migration.id();
        remove_id(&mut self.applied_ids, id);
        self.bump();
        Ok(())
    }
}

/// An in-memory adapter whose apply action fails on one chosen identity,
/// for exercising failure attribution. Everything else behaves as
/// [`DefaultTestAdapter`] does.
pub struct FailingTestAdapter {
    applied_ids: Vec<u128>,
    fail_on: u128,
    fail_fetch: bool,
}

impl FailingTestAdapter {
    /// The identity whose apply action fails.
    pub closed spec fn spec_fail_on(&self) -> u128 {
        self.fail_on
    }

    /// A fresh adapter, empty, that refuses to apply `fail_on`.
    pub fn new(fail_on: u128) -> (a: FailingTestAdapter)
        ensures
            a.applied() == Set::<u128>::empty(),
            a.spec_fail_on() == fail_on,
    {
        let a = FailingTestAdapter { applied_ids: Vec::new(), fail_on, fail_fetch: false };
        proof {
            assert(a.applied() =~= Set::<u128>::empty());
        }
        a
    }

    /// A fresh adapter, empty, that cannot even fetch the applied set.
    pub fn new_with_failing_fetch() -> (a: FailingTestAdapter)
        ensures
            a.applied() == Set::<u128>::empty(),
    {
        let a = FailingTestAdapter { applied_ids: Vec::new(), fail_on: 0, fail_fetch: true };
        proof {
            assert(a.applied() =~= Set::<u128>::empty());
        }
        a
    }
}

impl Adapter for FailingTestAdapter {
    type MigrationType = TestMigration;

    type Error = DefaultTestAdapterError;

    closed spec fn applied(&self) -> Set<u128> {
        self.applied_ids@.to_set()
    }

    fn applied_migrations(&mut self) -> (r: Result<Vec<u128>, DefaultTestAdapterError>) {
        if self.fail_fetch {
            return Err(DefaultTestAdapterError);
        }
        Ok(clone_ids(&self.applied_ids))
    }

    fn apply_migration(&mut self, migration: &TestMigration) -> (r: Result<
        (),
        DefaultTestAdapterError,
    >) {
        let id = migration.id();
        if id == self.fail_on {
            return Err(DefaultTestAdapterError);
        }
        insert_id(&mut self.applied_ids, id);
        Ok(())
    }

    fn revert_migration(&mut self, migration: &TestMigration) -> (r: Result<
        (),
        DefaultTestAdapterError,
    >) {
        let id = migration.id();
        remove_id(&mut self.applied_ids, id);
        Ok(())
    }
}

impl TestAdapter for DefaultTestAdapter {
    fn mock(id: u128, dependencies: Vec<u128>) -> (m: TestMigration) {
        TestMigration::new(id, dependencies)
    }
}

/// Test the application and reversion of a singleton migration. Returns
/// whether every operation succeeded and the applied-state set matched
/// each expectation.
pub fn test_single_migration<A: TestAdapter>(adapter: A) -> (ok: bool) {
    let uuid1: u128 = 0xbc960dc8_0e4a_4182_a62a_8e776d1e2b30;
    let migration1 = A::mock(uuid1, Vec::new());

    let mut migrator: Migrator<A> = Migrator::new(adapter);

    if migrator.register(migration1).is_err() {
        return false;
    }
    if migrator.up(None).is_err() {
        return false;
    }
    let applied = match migrator.applied_migrations() {
        Ok(v) => v,
        Err(_) => {
            return false;
        },
    };
    if !contains_id(&applied, uuid1) {
        return false;
    }
    if migrator.down(None).is_err() {
        return false;
    }
    let applied = match migrator.applied_migrations() {
        Ok(v) => v,
        Err(_) => {
            return false;
        },
    };
    if contains_id(&applied, uuid1) {
        return false;
    }
    true
}

/// Test the partial application and reversion of a chain of three
/// dependent migrations.
pub fn test_migration_chain<A: TestAdapter>(adapter: A) -> (ok: bool) {
    let uuid1: u128 = 0xbc960dc8_0e4a_4182_a62a_8e776d1e2b30;
    let uuid2: u128 = 0x4885e8ab_dafa_4d76_a565_2dee8b04ef60;
    let uuid3: u128 = 0xc5d07448_851f_45e8_8fa7_4823d5250609;
    let migration1 = A::mock(uuid1, Vec::new());
    let mut deps2: Vec<u128> = Vec::new();
    deps2.push(uuid1);
    let migration2 = A::mock(uuid2, deps2);
    let mut deps3: Vec<u128> = Vec::new();
    deps3.push(uuid2);
    let migration3 = A::mock(uuid3, deps3);

    let mut migrator: Migrator<A> = Migrator::new(adapter);

    if migrator.register(migration1).is_err() {
        return false;
    }
    if migrator.register(migration2).is_err() {
        return false;
    }
    if migrator.register(migration3).is_err() {
        return false;
    }

    if migrator.up(Some(uuid2)).is_err() {
        return false;
    }
    let applied = match migrator.applied_migrations() {
        Ok(v) => v,
        Err(_) => {
            return false;
        },
    };
    if !contains_id(&applied, uuid1) || !contains_id(&applied, uuid2) || contains_id(
        &applied,
        uuid3,
    ) {
        return false;
    }

    if migrator.down(Some(uuid1)).is_err() {
        return false;
    }
    let applied = match migrator.applied_migrations() {
        Ok(v) => v,
        Err(_) => {
            return false;
        },
    };
    if !contains_id(&applied, uuid1) || contains_id(&applied, uuid2) || contains_id(
        &applied,
        uuid3,
    ) {
        return false;
    }
    true
}

/// Test that application and reversion of two disjoint dependency chains
/// are independent.
pub fn test_multi_component_dag<A: TestAdapter>(adapter: A) -> (ok: bool) {
    let uuid1: u128 = 0xbc960dc8_0e4a_4182_a62a_8e776d1e2b30;
    let uuid2: u128 = 0x4885e8ab_dafa_4d76_a565_2dee8b04ef60;
    let uuid3: u128 = 0xc5d07448_851f_45e8_8fa7_4823d5250609;
    let uuid4: u128 = 0x9433a432_386f_467e_a59f_a9fb7e249767;
    let migration1 = A::mock(uuid1, Vec::new());
    let mut deps2: Vec<u128> = Vec::new();
    deps2.push(uuid1);
    let migration2 = A::mock(uuid2, deps2);
    let migration3 = A::mock(uuid3, Vec::new());
    let mut deps4: Vec<u128> = Vec::new();
    deps4.push(uuid3);
    let migration4 = A::mock(uuid4, deps4);

    let mut migrator: Migrator<A> = Migrator::new(adapter);

    if migrator.register(migration1).is_err() {
        return false;
    }
    if migrator.register(migration2).is_err() {
        return false;
    }
    if migrator.register(migration3).is_err() {
        return false;
    }
    if migrator.register(migration4).is_err() {
        return false;
    }

    if migrator.up(Some(uuid2)).is_err() {
        return false;
    }
    let applied = match migrator.applied_migrations() {
        Ok(v) => v,
        Err(_) => {
            return false;
        },
    };
    if !contains_id(&applied, uuid1) || !contains_id(&applied, uuid2) || contains_id(
        &applied,
        uuid3,
    ) || contains_id(&applied, uuid4) {
        return false;
    }

    if migrator.down(Some(uuid1)).is_err() {
        return false;
    }
    let applied = match migrator.applied_migrations() {
        Ok(v) => v,
        Err(_) => {
            return false;
        },
    };
    if !contains_id(&applied, uuid1) || contains_id(&applied, uuid2) || contains_id(
        &applied,
        uuid3,
    ) || contains_id(&applied, uuid4) {
        return false;
    }

    if migrator.up(Some(uuid3)).is_err() {
        return false;
    }
    let applied = match migrator.applied_migrations() {
        Ok(v) => v,
        Err(_) => {
            return false;
        },
    };
    if !contains_id(&applied, uuid1) || contains_id(&applied, uuid2) || !contains_id(
        &applied,
        uuid3,
    ) || contains_id(&applied, uuid4) {
        return false;
    }

    if migrator.up(None).is_err() {
        return false;
    }
    let applied = match migrator.applied_migrations() {
        Ok(v) => v,
        Err(_) => {
            return false;
        },
    };
    if !contains_id(&applied, uuid1) || !contains_id(&applied, uuid2) || !contains_id(
        &applied,
        uuid3,
    ) || !contains_id(&applied, uuid4) {
        return false;
    }

    if migrator.down(None).is_err() {
        return false;
    }
    let applied = match migrator.applied_migrations() {
        Ok(v) => v,
        Err(_) => {
            return false;
        },
    };
    if contains_id(&applied, uuid1) || contains_id(&applied, uuid2) || contains_id(
        &applied,
        uuid3,
    ) || contains_id(&applied, uuid4) {
        return false;
    }
    true
}

/// Test application and reversion on a branching DAG.
pub fn test_branching_dag<A: TestAdapter>(adapter: A) -> (ok: bool) {
    let uuid1: u128 = 0xbc960dc8_0e4a_4182_a62a_8e776d1e2b30;
    let uuid2: u128 = 0x4885e8ab_dafa_4d76_a565_2dee8b04ef60;
    let uuid3: u128 = 0xc5d07448_851f_45e8_8fa7_4823d5250609;
    let uuid4: u128 = 0x9433a432_386f_467e_a59f_a9fb7e249767;
    let uuid5: u128 = 0x0940acb1_0e2e_4b99_9d69_2302a9c74524;
    let migration1 = A::mock(uuid1, Vec::new());
    let migration2 = A::mock(uuid2, Vec::new());
    let mut deps3: Vec<u128> = Vec::new();
    deps3.push(uuid1);
    deps3.push(uuid2);
    let migration3 = A::mock(uuid3, deps3);
    let mut deps4: Vec<u128> = Vec::new();
    deps4.push(uuid3);
    let migration4 = A::mock(uuid4, deps4);
    let mut deps5: Vec<u128> = Vec::new();
    deps5.push(uuid3);
    let migration5 = A::mock(uuid5, deps5);

    let mut migrator: Migrator<A> = Migrator::new(adapter);

    if migrator.register(migration1).is_err() {
        return false;
    }
    if migrator.register(migration2).is_err() {
        return false;
    }
    if migrator.register(migration3).is_err() {
        return false;
    }
    if migrator.register(migration4).is_err() {
        return false;
    }
    if migrator.register(migration5).is_err() {
        return false;
    }
    let ghost g = migrator.graph();
    proof {
        assert(g.ids =~= seq![uuid1, uuid2, uuid3, uuid4, uuid5]);
        assert(deps3@.to_set() =~= set![uuid1, uuid2]) by {
            assert(deps3@[0] == uuid1);
            assert(deps3@[1] == uuid2);
        }
        assert(deps4@.to_set() =~= set![uuid3]) by {
            assert(deps4@[0] == uuid3);
        }
        assert(deps5@.to_set() =~= set![uuid3]) by {
            assert(deps5@[0] == uuid3);
        }
        assert(g.preds =~= seq![
            Set::<int>::empty(),
            Set::<int>::empty(),
            set![0int, 1int],
            set![2int],
            set![2int],
        ]) by {
            assert(g.preds[0] =~= Set::<int>::empty());
            assert(g.preds[1] =~= Set::<int>::empty());
            assert(g.preds[2] =~= set![0int, 1int]);
            assert(g.preds[3] =~= set![2int]);
            assert(g.preds[4] =~= set![2int]);
        }
    }

    if migrator.up(Some(uuid4)).is_err() {
        return false;
    }
    proof {
        // the walk applied the whole ancestor closure of the target
        let i4 = g.index_of(uuid4);
        assert(0 <= i4 < g.n() && g.ids[i4] == uuid4);
        assert(i4 == 3);
        assert(g.edge(0, 2) && g.edge(1, 2) && g.edge(2, 3) && g.edge(2, 4));
        assert(g.reach_k(3, 3, 0));
        assert(g.reach_k(2, 3, 1));
        assert(g.reach_k(0, 3, 2));
        assert(g.reach_k(1, 3, 2));
        assert(g.ancestor_idxs(3).contains(0) && g.ids[0] == uuid1);
        assert(g.ancestor_idxs(3).contains(1) && g.ids[1] == uuid2);
        assert(g.ancestor_idxs(3).contains(2) && g.ids[2] == uuid3);
        assert(g.ancestor_idxs(3).contains(3) && g.ids[3] == uuid4);
        assert(migrator.applied().contains(uuid1));
        assert(migrator.applied().contains(uuid2));
        assert(migrator.applied().contains(uuid3));
        assert(migrator.applied().contains(uuid4));
    }
    let ghost applied_up = migrator.applied();
    let applied = match migrator.applied_migrations() {
        Ok(v) => v,
        Err(_) => {
            return false;
        },
    };
    if !contains_id(&applied, uuid1) || !contains_id(&applied, uuid2) || !contains_id(
        &applied,
        uuid3,
    ) || !contains_id(&applied, uuid4) || contains_id(&applied, uuid5) {
        return false;
    }

    if migrator.down(Some(uuid1)).is_err() {
        return false;
    }
    proof {
        // reverting to the first migration strips exactly its strict
        // descendants, and nothing else reaches back to it
        crate::laws::lemma_down_boundary(g, uuid1, applied_up, migrator.applied());
        assert(migrator.applied().contains(uuid1));
        // a topological order that lists the second migration first shows
        // that the first never reaches it
        let o5: Seq<int> = seq![1int, 0int, 2int, 3int, 4int];
        assert(g.valid_order(o5)) by {
            assert forall|v: int| 0 <= v < g.n() implies #[trigger] o5.contains(v) by {
                if v == 0 {
                    assert(o5[1] == v);
                } else if v == 1 {
                    assert(o5[0] == v);
                } else {
                    assert(o5[v] == v);
                }
            }
        }
        if g.reaches(0, 1) {
            g.lemma_reach_position(o5, 0, 1);
            assert(o5[crate::model::position_of(o5, 0)] == 0);
            assert(false);
        }
        assert(!g.strict_descendant_ids(uuid1).contains(uuid2)) by {
            if g.strict_descendant_ids(uuid1).contains(uuid2) {
                let i = choose|i: int|
                    g.descendant_idxs(g.index_of(uuid1)).remove(g.index_of(uuid1)).contains(i)
                        && 0 <= i < g.n() && g.ids[i] == uuid2;
                assert(i == 1);
                assert(g.reaches(0, 1));
            }
        }
        assert(migrator.applied().contains(uuid2));
        // everything built on the first migration is reverted, the never
        // applied branch included
        assert(g.reach_k(2, 2, 0));
        assert(g.reach_k(4, 4, 0));
        assert(g.reach_k(0, 2, 1));
        assert(g.reach_k(2, 3, 1));
        assert(g.reach_k(2, 4, 1));
        assert(g.reach_k(0, 3, 2));
        assert(g.reach_k(0, 4, 2));
        assert(g.strict_descendant_ids(uuid1).contains(uuid3)) by {
            assert(g.descendant_idxs(0).remove(0).contains(2) && g.ids[2] == uuid3);
        }
        assert(g.strict_descendant_ids(uuid1).contains(uuid4)) by {
            assert(g.descendant_idxs(0).remove(0).contains(3) && g.ids[3] == uuid4);
        }
        assert(g.strict_descendant_ids(uuid1).contains(uuid5)) by {
            assert(g.descendant_idxs(0).remove(0).contains(4) && g.ids[4] == uuid5);
        }
        assert(!migrator.applied().contains(uuid3));
        assert(!migrator.applied().contains(uuid4));
        assert(!migrator.applied().contains(uuid5));
    }
    let applied = match migrator.applied_migrations() {
        Ok(v) => v,
        Err(_) => {
            return false;
        },
    };
    if !contains_id(&applied, uuid1) || !contains_id(&applied, uuid2) || contains_id(
        &applied,
        uuid3,
    ) || contains_id(&applied, uuid4) || contains_id(&applied, uuid5) {
        return false;
    }
    true
}

} // verus!
