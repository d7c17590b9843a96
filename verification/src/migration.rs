//! The migration descriptor interface and the error taxonomy.

use vstd::prelude::*;

verus! {

/// Metadata defining the identity and dependence relations of a migration.
/// Specific adapters require additional behaviour for actual application and
/// reversion of migrations.
pub trait Migration {
    /// Identity of this migration, as a mathematical value.
    spec fn spec_id(&self) -> u128;

    /// Declared dependencies of this migration, as a mathematical set.
    spec fn spec_dependencies(&self) -> Set<u128>;

    /// Unique identifier for this migration.
    fn id(&self) -> (r: u128)
        ensures
            r == self.spec_id(),
    ;

    /// Ids of all direct dependencies of this migration. Order is irrelevant
    /// and duplicates collapse: only the set of ids matters.
    fn dependencies(&self) -> (r: Vec<u128>)
        ensures
            r@.to_set() == self.spec_dependencies(),
    ;

    /// User-targeted description of this migration, for diagnostics only.
    fn description(&self) -> &'static str;
}

/// Direction in which a migration is applied (`Up`) or reverted (`Down`).
#[derive(Clone, Copy, Debug, PartialEq, Eq, Structural)]
pub enum MigrationDirection {
    Up,
    Down,
}

impl MigrationDirection {
    /// A printable name for this direction.
    pub fn label(&self) -> (r: &'static str)
        ensures
            self is Up ==> r@ == "up"@,
            self is Down ==> r@ == "down"@,
    {
        match self {
            MigrationDirection::Up => "up",
            MigrationDirection::Down => "down",
        }
    }
}

/// Error resulting from the definition of migration identity and dependency.
#[derive(Clone, Copy, Debug, PartialEq, Eq, Structural)]
pub enum DependencyError {
    /// A migration with this id is already registered.
    DuplicateId(u128),
    /// This id was referenced but is not registered.
    UnknownId(u128),
    /// Linking dependency `from` to dependent `to` would close a cycle.
    Cycle { from: u128, to: u128 },
}

/// Error resulting either from migration definitions or from migration
/// application with an adapter.
#[derive(Debug)]
pub enum MigratorError<E> {
    /// An error in the definition of migration dependencies.
    Dependency(DependencyError),
    /// An adapter error outside of any single migration, such as a failure
    /// to fetch the applied-state set.
    Adapter(E),
    /// An adapter error attributed to one migration and direction.
    Migration { id: u128, description: &'static str, direction: MigrationDirection, error: E },
}

} // verus!
