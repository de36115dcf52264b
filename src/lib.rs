//! Schema-migration reconciliation: change-block parsing, object identity
//! checks, dependency ordering and ledger reconciliation.

pub mod change_block;
pub mod graph;
pub mod identity;
pub mod ledger;
pub mod reconcile;
pub mod source;
pub mod sql;
pub mod text;
pub mod topsort;
