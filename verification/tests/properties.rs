//! Orchestrator behaviour on concrete graphs: idempotence, ancestor and
//! descendant closure, and independence of disjoint components.

use schemer::testing::DefaultTestAdapter;
use schemer::testing::TestMigration;
use schemer::Migrator;

const A: u128 = 1;
const B: u128 = 2;
const C: u128 = 3;
const D: u128 = 4;
const E: u128 = 5;

fn applied_of(migrator: &mut Migrator<DefaultTestAdapter>) -> Vec<u128> {
    let mut ids = migrator.applied_migrations().expect("fetch failed");
    ids.sort();
    ids
}

/// Two chains A -> B and C -> D.
fn two_chains() -> Migrator<DefaultTestAdapter> {
    let mut migrator = Migrator::new(DefaultTestAdapter::new());
    migrator.register(TestMigration::new(A, vec![])).unwrap();
    migrator.register(TestMigration::new(B, vec![A])).unwrap();
    migrator.register(TestMigration::new(C, vec![])).unwrap();
    migrator.register(TestMigration::new(D, vec![C])).unwrap();
    migrator
}

/// A and B free, C depends on both, D and E depend on C.
fn branching() -> Migrator<DefaultTestAdapter> {
    let mut migrator = Migrator::new(DefaultTestAdapter::new());
    migrator.register(TestMigration::new(A, vec![])).unwrap();
    migrator.register(TestMigration::new(B, vec![])).unwrap();
    migrator.register(TestMigration::new(C, vec![A, B])).unwrap();
    migrator.register(TestMigration::new(D, vec![C])).unwrap();
    migrator.register(TestMigration::new(E, vec![C])).unwrap();
    migrator
}

#[test]
fn up_twice_is_idempotent() {
    let mut migrator = branching();
    migrator.up(None).unwrap();
    let applied_once = applied_of(&mut migrator);
    let actions_once = migrator.adapter.action_count();
    assert_eq!(applied_once, vec![A, B, C, D, E]);

    migrator.up(None).unwrap();
    let applied_twice = applied_of(&mut migrator);
    // the applied set is unchanged and the second call performed zero
    // adapter actions
    assert_eq!(applied_twice, applied_once);
    assert_eq!(migrator.adapter.action_count(), actions_once);
}

#[test]
fn up_applies_exactly_the_ancestors() {
    let mut migrator = branching();
    migrator.up(Some(C)).unwrap();
    assert_eq!(applied_of(&mut migrator), vec![A, B, C]);
}

#[test]
fn down_keeps_the_boundary_applied() {
    let mut migrator = branching();
    migrator.up(None).unwrap();
    migrator.down(Some(C)).unwrap();
    // C itself stays; everything depending on it is reverted
    assert_eq!(applied_of(&mut migrator), vec![A, B, C]);
}

#[test]
fn disjoint_components_are_independent() {
    let mut migrator = two_chains();
    migrator.up(Some(B)).unwrap();
    assert_eq!(applied_of(&mut migrator), vec![A, B]);

    migrator.up(Some(D)).unwrap();
    assert_eq!(applied_of(&mut migrator), vec![A, B, C, D]);

    migrator.down(None).unwrap();
    assert_eq!(applied_of(&mut migrator), Vec::<u128>::new());
}

#[test]
fn branching_dag_partial_up_and_down() {
    let mut migrator = branching();
    migrator.up(Some(D)).unwrap();
    // E is not applied even though it shares C
    assert_eq!(applied_of(&mut migrator), vec![A, B, C, D]);

    // E was never applied, so reverting past it is a silent no-op for it
    migrator.down(Some(A)).unwrap();
    assert_eq!(applied_of(&mut migrator), vec![A, B]);
}

#[test]
fn down_of_unapplied_target_is_a_no_op() {
    let mut migrator = two_chains();
    migrator.down(Some(A)).unwrap();
    assert_eq!(applied_of(&mut migrator), Vec::<u128>::new());
}

#[test]
fn register_multiple_accepts_any_order() {
    let mut migrator = Migrator::new(DefaultTestAdapter::new());
    migrator
        .register_multiple(vec![
            TestMigration::new(D, vec![C]),
            TestMigration::new(C, vec![A, B]),
            TestMigration::new(B, vec![]),
            TestMigration::new(A, vec![]),
        ])
        .unwrap();
    migrator.up(Some(D)).unwrap();
    assert_eq!(applied_of(&mut migrator), vec![A, B, C, D]);
}

fn closed_under_dependencies(applied: &[u128], edges: &[(u128, u128)]) -> bool {
    edges
        .iter()
        .all(|(dep, dependent)| !applied.contains(dependent) || applied.contains(dep))
}

#[test]
fn applied_set_stays_dependency_closed() {
    let edges = [(A, C), (B, C), (C, D), (C, E)];
    let mut migrator = branching();
    migrator.up(Some(D)).unwrap();
    assert!(closed_under_dependencies(&applied_of(&mut migrator), &edges));
    migrator.down(Some(C)).unwrap();
    assert!(closed_under_dependencies(&applied_of(&mut migrator), &edges));
    migrator.up(Some(E)).unwrap();
    assert!(closed_under_dependencies(&applied_of(&mut migrator), &edges));
    migrator.up(None).unwrap();
    assert!(closed_under_dependencies(&applied_of(&mut migrator), &edges));
    migrator.down(Some(B)).unwrap();
    assert!(closed_under_dependencies(&applied_of(&mut migrator), &edges));
    migrator.down(None).unwrap();
    assert!(closed_under_dependencies(&applied_of(&mut migrator), &edges));
    assert_eq!(applied_of(&mut migrator), Vec::<u128>::new());
}
