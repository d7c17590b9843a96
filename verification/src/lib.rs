//! A schema migration library that supports directed acyclic graph (DAG)
//! dependencies between migrations.
//!
//! Migrations are identified by a 128-bit id and declare the set of ids they
//! depend on. A [`Migrator`] owns the dependency graph and a storage
//! [`Adapter`]; `up` and `down` drive the adapter so that the applied set in
//! the backing store stays closed under dependencies.

pub mod graph;
pub mod laws;
pub mod migration;
pub mod migrator;
pub mod model;
pub mod testing;

pub use migration::DependencyError;
pub use migration::Migration;
pub use migration::MigrationDirection;
pub use migration::MigratorError;
pub use migrator::Adapter;
pub use migrator::Migrator;
