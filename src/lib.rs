//! An operations telemetry store for compute clusters: cluster registration,
//! trace spans, audited command executions and summary rows.
pub mod model;
pub mod ordering;
pub mod store;
pub mod summary;

pub use model::{Cluster, CommandExecution, Money, StoreError, Trace};
pub use store::DatabaseClient;
pub use summary::{SummaryCell, SummaryEntry, SummaryValue};
