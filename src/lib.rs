//! Change-set indexing: classifies the state mutations of one transaction,
//! turns them into batches of index rows, and re-groups them per table for
//! the state-sync log; projects transactions and events into rows; and
//! answers cursor-paginated queries over the three logs.

pub mod actor;
pub mod changelog;
pub mod changeset;
pub mod keyhash;
pub mod keystore;
pub mod laws;
pub mod materialize;
pub mod projector;
pub mod query;
pub mod store;
pub mod txlog;
