//! The records that the store keeps. Identifiers are 128-bit values, instants
//! are milliseconds since the Unix epoch, and structured payloads are JSON text.
use vstd::prelude::*;

verus! {

/// A fixed-point amount of money: `mantissa / 10^scale`.
#[derive(Clone, Copy, Debug, PartialEq, Eq, Structural)]
pub struct Money {
    pub mantissa: i128,
    pub scale: u32,
}

/// A managed compute cluster.
#[derive(Debug)]
pub struct Cluster {
    pub id: u128,
    pub name: String,
    pub environment: String,
    pub cluster_type: String,
    pub region: Option<String>,
    pub zone: Option<String>,
    pub node_count: i32,
    pub node_size: String,
    pub status: String,
    pub cost_budget: Option<Money>,
    pub cost_threshold: Option<i32>,
    pub created_at: i64,
    pub updated_at: i64,
}

/// One span of a distributed trace.
#[derive(Debug)]
pub struct Trace {
    pub id: u128,
    pub cluster_id: Option<u128>,
    pub trace_id: String,
    pub span_id: String,
    pub parent_span_id: Option<String>,
    pub operation_name: String,
    pub service_name: String,
    pub start_time: i64,
    pub end_time: Option<i64>,
    pub duration_ms: Option<i64>,
    pub status: String,
    pub error_message: Option<String>,
    pub tags: String,
    pub logs: String,
    pub created_at: i64,
}

/// One audited run of a shell command or script.
#[derive(Debug)]
pub struct CommandExecution {
    pub id: u128,
    pub cluster_id: Option<u128>,
    pub command: String,
    pub script_name: Option<String>,
    pub arguments: String,
    pub exit_code: Option<i32>,
    pub stdout: Option<String>,
    pub stderr: Option<String>,
    pub start_time: i64,
    pub end_time: Option<i64>,
    pub duration_ms: Option<i64>,
    pub user_id: Option<String>,
    pub session_id: Option<u128>,
    pub created_at: i64,
}

/// Why a write to the store was refused.
#[derive(Clone, Copy, Debug, PartialEq, Eq, Structural)]
pub enum StoreError {
    /// No record has the given identifier.
    NotFound,
    /// Another record already has the given identifier.
    DuplicateId,
    /// The execution has been closed already.
    AlreadyClosed,
    /// The elapsed time between two instants does not fit in 64 bits.
    TimeOutOfRange,
    /// A listing was asked for a negative number of rows.
    InvalidLimit,
}

/// An exact copy of an optional string.
pub fn copy_text(o: &Option<String>) -> (r: Option<String>)
    ensures
        r == *o,
{
    match o {
        Some(s) => Some(s.clone()),
        None => None,
    }
}

impl Cluster {
    /// An exact copy of this record.
    pub fn duplicate(&self) -> (r: Cluster)
        ensures
            r == *self,
    {
        Cluster {
            id: self.id,
            name: self.name.clone(),
            environment: self.environment.clone(),
            cluster_type: self.cluster_type.clone(),
            region: copy_text(&self.region),
            zone: copy_text(&self.zone),
            node_count: self.node_count,
            node_size: self.node_size.clone(),
            status: self.status.clone(),
            cost_budget: self.cost_budget,
            cost_threshold: self.cost_threshold,
            created_at: self.created_at,
            updated_at: self.updated_at,
        }
    }
}

impl Trace {
    /// An exact copy of this record.
    pub fn duplicate(&self) -> (r: Trace)
        ensures
            r == *self,
    {
        Trace {
            id: self.id,
            cluster_id: self.cluster_id,
            trace_id: self.trace_id.clone(),
            span_id: self.span_id.clone(),
            parent_span_id: copy_text(&self.parent_span_id),
            operation_name: self.operation_name.clone(),
            service_name: self.service_name.clone(),
            start_time: self.start_time,
            end_time: self.end_time,
            duration_ms: self.duration_ms,
            status: self.status.clone(),
            error_message: copy_text(&self.error_message),
            tags: self.tags.clone(),
            logs: self.logs.clone(),
            created_at: self.created_at,
        }
    }
}

impl CommandExecution {
    /// An exact copy of this record.
    pub fn duplicate(&self) -> (r: CommandExecution)
        ensures
            r == *self,
    {
        CommandExecution {
            id: self.id,
            cluster_id: self.cluster_id,
            command: self.command.clone(),
            script_name: copy_text(&self.script_name),
            arguments: self.arguments.clone(),
            exit_code: self.exit_code,
            stdout: copy_text(&self.stdout),
            stderr: copy_text(&self.stderr),
            start_time: self.start_time,
            end_time: self.end_time,
            duration_ms: self.duration_ms,
            user_id: copy_text(&self.user_id),
            session_id: self.session_id,
            created_at: self.created_at,
        }
    }

    /// Open while no outcome has been recorded.
    pub open spec fn is_open(&self) -> bool {
        self.end_time.is_none()
    }
}

} // verus!
