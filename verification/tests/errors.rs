//! The error taxonomy: duplicate ids, unknown dependencies, cycle
//! rejection, and attribution of adapter failures.

use schemer::testing::DefaultTestAdapter;
use schemer::testing::FailingTestAdapter;
use schemer::testing::TestMigration;
use schemer::DependencyError;
use schemer::MigrationDirection;
use schemer::Migrator;
use schemer::MigratorError;

const A: u128 = 10;
const B: u128 = 20;
const C: u128 = 30;

#[test]
fn duplicate_id_is_rejected() {
    let mut migrator = Migrator::new(DefaultTestAdapter::new());
    migrator.register(TestMigration::new(A, vec![])).unwrap();
    let r = migrator.register(TestMigration::new(A, vec![]));
    assert!(matches!(
        r,
        Err(MigratorError::Dependency(DependencyError::DuplicateId(id))) if id == A
    ));
}

#[test]
fn unknown_dependency_is_rejected() {
    let mut migrator = Migrator::new(DefaultTestAdapter::new());
    let r = migrator.register(TestMigration::new(B, vec![A]));
    assert!(matches!(
        r,
        Err(MigratorError::Dependency(DependencyError::UnknownId(id))) if id == A
    ));
}

#[test]
fn unknown_up_target_is_rejected() {
    let mut migrator = Migrator::new(DefaultTestAdapter::new());
    migrator.register(TestMigration::new(A, vec![])).unwrap();
    let r = migrator.up(Some(B));
    assert!(matches!(
        r,
        Err(MigratorError::Dependency(DependencyError::UnknownId(id))) if id == B
    ));
    let r = migrator.down(Some(C));
    assert!(matches!(
        r,
        Err(MigratorError::Dependency(DependencyError::UnknownId(id))) if id == C
    ));
}

#[test]
fn cycle_is_rejected_and_graph_left_unchanged() {
    let mut migrator = Migrator::new(DefaultTestAdapter::new());
    let r = migrator.register_multiple(vec![
        TestMigration::new(A, vec![B]),
        TestMigration::new(B, vec![A]),
    ]);
    match r {
        Err(MigratorError::Dependency(DependencyError::Cycle { from, to })) => {
            assert!(from == A || from == B);
            assert!(to == A || to == B);
            assert_ne!(from, to);
        }
        other => panic!("expected a cycle rejection, got {:?}", other),
    }
    // the failed batch left nothing behind: both ids register cleanly now
    migrator.register(TestMigration::new(A, vec![])).unwrap();
    migrator.register(TestMigration::new(B, vec![A])).unwrap();
    migrator.up(None).unwrap();
    let ids = migrator.applied_migrations().unwrap();
    assert_eq!(ids.len(), 2);
}

#[test]
fn self_dependency_is_unknown_at_registration() {
    let mut migrator = Migrator::new(DefaultTestAdapter::new());
    let r = migrator.register(TestMigration::new(A, vec![A]));
    assert!(matches!(
        r,
        Err(MigratorError::Dependency(DependencyError::UnknownId(id))) if id == A
    ));
}

#[test]
fn batch_duplicate_against_graph_is_rejected() {
    let mut migrator = Migrator::new(DefaultTestAdapter::new());
    migrator.register(TestMigration::new(A, vec![])).unwrap();
    let r = migrator.register_multiple(vec![TestMigration::new(A, vec![])]);
    assert!(matches!(
        r,
        Err(MigratorError::Dependency(DependencyError::DuplicateId(id))) if id == A
    ));
}

#[test]
fn first_failure_stops_the_walk_with_attribution() {
    let mut migrator = Migrator::new(FailingTestAdapter::new(B));
    migrator.register(TestMigration::new(A, vec![])).unwrap();
    migrator.register(TestMigration::new(B, vec![A])).unwrap();
    migrator.register(TestMigration::new(C, vec![B])).unwrap();
    let r = migrator.up(None);
    match r {
        Err(MigratorError::Migration { id, description, direction, error: _ }) => {
            assert_eq!(id, B);
            assert_eq!(description, "Test Migration");
            assert_eq!(direction, MigrationDirection::Up);
        }
        _ => panic!("expected a migration failure"),
    }
    // everything before the failing migration succeeded; nothing after
    // was attempted
    let ids = migrator.applied_migrations().unwrap();
    assert_eq!(ids, vec![A]);
}

#[test]
fn direction_labels() {
    assert_eq!(MigrationDirection::Up.label(), "up");
    assert_eq!(MigrationDirection::Down.label(), "down");
}

#[test]
fn fetch_failure_surfaces_as_an_adapter_error() {
    let mut migrator = Migrator::new(FailingTestAdapter::new_with_failing_fetch());
    migrator.register(TestMigration::new(A, vec![])).unwrap();
    let r = migrator.up(None);
    assert!(matches!(r, Err(MigratorError::Adapter(_))));
    let r = migrator.down(None);
    assert!(matches!(r, Err(MigratorError::Adapter(_))));
}
