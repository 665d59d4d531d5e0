//! The metrics that come in, and what can go wrong with them.
//!
//! ```json
//! {
//!   "version": "1.0",
//!   "source": "draco-mcp",
//!   "workspace_key": "my-app-v1",
//!   "metrics": [
//!     { "metric_id": "tel-p99-001", "file_path": "src/db/query.rs",
//!       "function_name": "query_users", "line_number": 88,
//!       "p50_ms": 12.5, "p99_ms": 1250.0,
//!       "alloc_bytes_per_req": 10485760, "call_count_per_min": 5000,
//!       "environment": "production", "recorded_at": "2026-08-10T06:00:00Z" }
//!   ]
//! }
//! ```

use vstd::prelude::*;

use crate::draco_client::DracoError;
use crate::millis::Millis;
use crate::registry::DbError;

verus! {

/// A batch of metrics for one workspace.
#[derive(Debug, PartialEq)]
pub struct TelemetryIngestPayload {
    pub version: String,
    pub source: String,
    pub workspace_key: String,
    pub metrics: Vec<Metric>,
}

/// One metric of one function.
#[derive(Debug, PartialEq)]
pub struct Metric {
    pub metric_id: String,
    pub file_path: String,
    pub function_name: String,
    pub line_number: u32,
    pub p50_ms: Millis,
    pub p99_ms: Millis,
    pub alloc_bytes_per_req: i64,
    pub call_count_per_min: i64,
    pub environment: String,
    pub recorded_at: String,
}

impl Clone for Metric {
    fn clone(&self) -> (copy: Self)
        ensures
            copy == *self,
    {
        Metric {
            metric_id: self.metric_id.clone(),
            file_path: self.file_path.clone(),
            function_name: self.function_name.clone(),
            line_number: self.line_number,
            p50_ms: self.p50_ms,
            p99_ms: self.p99_ms,
            alloc_bytes_per_req: self.alloc_bytes_per_req,
            call_count_per_min: self.call_count_per_min,
            environment: self.environment.clone(),
            recorded_at: self.recorded_at.clone(),
        }
    }
}

impl Clone for TelemetryIngestPayload {
    fn clone(&self) -> (copy: Self)
        ensures
            copy.version == self.version,
            copy.source == self.source,
            copy.workspace_key == self.workspace_key,
            copy.metrics@ == self.metrics@,
    {
        let mut metrics: Vec<Metric> = Vec::new();
        let mut i: usize = 0;
        while i < self.metrics.len()
            invariant
                i <= self.metrics.len(),
                metrics@ == self.metrics@.take(i as int),
            decreases self.metrics.len() - i,
        {
            metrics.push(self.metrics[i].clone());
            i += 1;
        }
        TelemetryIngestPayload {
            version: self.version.clone(),
            source: self.source.clone(),
            workspace_key: self.workspace_key.clone(),
            metrics,
        }
    }
}

/// The environment of a metric that names none.
pub fn default_environment() -> (env: String)
    ensures
        env@ == "production"@,
{
    "production".to_owned()
}

/// Why metrics could not be taken in.
#[derive(Debug, PartialEq, Eq)]
pub enum IngestError {
    /// The file could not be read.
    Io(String),
    /// The text is no batch of metrics.
    Json(String),
    /// A row could not be stored.
    Db(DbError),
    /// The server could not be asked, or gave no batch of metrics.
    Draco(DracoError),
}

impl DbError {
    /// The message of the error.
    pub open spec fn message_spec(self) -> Seq<char> {
        match self {
            DbError::P50NotNull => "NOT NULL constraint failed: telemetry_bindings.p50_ms"@,
            DbError::P99NotNull => "NOT NULL constraint failed: telemetry_bindings.p99_ms"@,
        }
    }

    /// The message of the error.
    pub fn message(&self) -> (m: String)
        ensures
            m@ == self.message_spec(),
    {
        match self {
            DbError::P50NotNull => "NOT NULL constraint failed: telemetry_bindings.p50_ms".to_owned(),
            DbError::P99NotNull => "NOT NULL constraint failed: telemetry_bindings.p99_ms".to_owned(),
        }
    }
}

impl IngestError {
    /// The message of the error.
    pub open spec fn message_spec(self) -> Seq<char> {
        match self {
            IngestError::Io(cause) => "io error: "@ + cause@,
            IngestError::Json(cause) => "json error: "@ + cause@,
            IngestError::Db(cause) => "db error: "@ + cause.message_spec(),
            IngestError::Draco(cause) => "draco error: "@ + cause.message_spec(),
        }
    }

    /// The message of the error.
    pub fn message(&self) -> (m: String)
        ensures
            m@ == self.message_spec(),
    {
        match self {
            IngestError::Io(cause) => "io error: ".to_owned().concat(cause),
            IngestError::Json(cause) => "json error: ".to_owned().concat(cause),
            IngestError::Db(cause) => "db error: ".to_owned().concat(&cause.message()),
            IngestError::Draco(cause) => "draco error: ".to_owned().concat(&cause.message()),
        }
    }
}

/// The message of an error holds all of its cause.
pub proof fn error_message_holds_its_cause(cause: String, db: DbError, draco: DracoError)
    ensures
        IngestError::Io(cause).message_spec() == "io error: "@ + cause@,
        IngestError::Json(cause).message_spec() == "json error: "@ + cause@,
        IngestError::Db(db).message_spec() == "db error: "@ + db.message_spec(),
        IngestError::Draco(draco).message_spec() == "draco error: "@ + draco.message_spec(),
{
}

} // verus!
