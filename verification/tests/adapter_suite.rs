//! The generic adapter test suite, run against the in-memory adapter.

use schemer::testing::test_branching_dag;
use schemer::testing::test_migration_chain;
use schemer::testing::test_multi_component_dag;
use schemer::testing::test_single_migration;
use schemer::testing::DefaultTestAdapter;

#[test]
fn single_migration() {
    assert!(test_single_migration(DefaultTestAdapter::new()));
}

#[test]
fn migration_chain() {
    assert!(test_migration_chain(DefaultTestAdapter::new()));
}

#[test]
fn multi_component_dag() {
    assert!(test_multi_component_dag(DefaultTestAdapter::new()));
}

#[test]
fn branching_dag() {
    assert!(test_branching_dag(DefaultTestAdapter::new()));
}
