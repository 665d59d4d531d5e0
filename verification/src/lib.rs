//! Bridge from observability data to the symbols of a code graph.
//!
//! Metrics come in as points, a file and a line. The bridge binds each to the
//! canonical id of the innermost symbol around it, judges whether it is a hotspot,
//! keeps it in the `telemetry_bindings` table, and writes the hotspots of a
//! workspace as an observability block.
//!
//! - `resolver`: from a line or a symbol name to a canonical id.
//! - `registry`, `cells`: the table and its rows as database cells.
//! - `telemetry`: taking metrics in, thresholds, queries and reports.
//! - `sync`: the observability block and the packet.
//! - `draco_client`: requests to the Draco server and its replies.
//! - `ingest`, `graph`, `settings`: what comes in from outside.
//! - `json`, `millis`, `text`: JSON documents, latencies and text.
//!
//! `TelemetryPlugin` is the face of it all. It holds no connection and reads no
//! file: the table, the graph, the time and the environment are handed in.

pub mod cells;
pub mod draco_client;
pub mod graph;
pub mod ingest;
pub mod json;
pub mod millis;
pub mod registry;
pub mod resolver;
pub mod settings;
pub mod sync;
pub mod telemetry;
pub mod text;

use vstd::prelude::*;

use crate::draco_client::DracoError;
use crate::graph::{GraphOutput, Node, WorkspaceContext};
use crate::ingest::{IngestError, TelemetryIngestPayload};
use crate::json::Json;
use crate::millis::Millis;
use crate::registry::{TelemetryBinding, TelemetryDb};
use crate::resolver::Resolved;
use crate::settings::EnvVars;
use crate::telemetry::{IngestReport, TelemetryService, ToonError};

verus! {

/// The id of the plugin.
pub const PLUGIN_ID: &'static str = "graphify-plugin-telemetry";

/// The plugin: a telemetry service behind the methods that a host calls.
#[derive(Debug)]
pub struct TelemetryPlugin {
    service: TelemetryService,
}

impl TelemetryPlugin {
    /// The service that does the work.
    pub closed spec fn inner(&self) -> TelemetryService {
        self.service
    }

    /// The workspace that the plugin is bound to.
    pub open spec fn key(&self) -> Seq<char> {
        self.inner().key()
    }

    /// The nodes of the cached graph.
    pub open spec fn nodes(&self) -> Option<Seq<Node>> {
        self.inner().nodes()
    }

    /// A plugin without workspace and graph, set up from the environment.
    pub fn new(env: &EnvVars) -> (p: Self)
        ensures
            p.key() == Seq::<char>::empty(),
            p.nodes() is None,
            p.inner().db_path() is None,
            p.inner().client().url() == (match env.draco_base_url {
                Some(u) => u@,
                None => crate::draco_client::DEFAULT_BASE_URL@,
            }),
            p.inner().client().session() is None,
            p.inner().limits().p99_ms == (match env.hotspot_p99_ms {
                Some(ms) => ms,
                None => (Millis { bits: crate::telemetry::DEFAULT_P99_BITS }),
            }),
            p.inner().limits().alloc_bytes == (match env.hotspot_alloc_bytes {
                Some(v) => match text::i64_value(text::trimmed(v@)) {
                    Some(b) => b,
                    None => crate::telemetry::DEFAULT_ALLOC_BYTES,
                },
                None => crate::telemetry::DEFAULT_ALLOC_BYTES,
            }),
    {
        TelemetryPlugin { service: TelemetryService::new(env) }
    }

    /// The same plugin with another place for the database.
    pub fn with_registry_path(self, path: std::path::PathBuf) -> (p: Self)
        ensures
            p.inner().db_path() == Some(path),
            p.key() == self.key(),
            p.nodes() == self.nodes(),
            p.inner().limits() == self.inner().limits(),
            p.inner().client() == self.inner().client(),
    {
        TelemetryPlugin { service: self.service.with_registry_path(path) }
    }

    /// The same plugin with another Draco server.
    pub fn with_draco_url(self, url: &str) -> (p: Self)
        ensures
            p.inner().client().url() == url@,
            p.inner().client().session() is None,
            p.key() == self.key(),
            p.nodes() == self.nodes(),
            p.inner().limits() == self.inner().limits(),
            p.inner().db_path() == self.inner().db_path(),
    {
        TelemetryPlugin { service: self.service.with_draco_url(url) }
    }

    /// Binds the plugin to the workspace of the directory `cwd`, given the key of
    /// that workspace and the last component of the path.
    pub fn bind_for_cli(
        self,
        workspace_key: String,
        dir_name: Option<String>,
        cwd: String,
    ) -> (p: Self)
        ensures
            p.key() == workspace_key@,
            p.nodes() == self.nodes(),
            p.inner().same_setup(&self.inner()),
    {
        let mut p: TelemetryPlugin = self;
        p.bind(WorkspaceContext::of_directory(workspace_key, dir_name, cwd));
        p
    }

    /// The service behind the plugin.
    pub fn service(&self) -> (s: &TelemetryService)
        ensures
            *s == self.inner(),
    {
        &self.service
    }

    /// A copy of the cached graph.
    pub fn graph(&self) -> (r: Option<GraphOutput>)
        ensures
            match r {
                Some(g) => self.nodes() == Some(g.nodes@),
                None => self.nodes() is None,
            },
    {
        self.service.graph()
    }

    /// Finds the innermost node of the cached graph around a line.
    pub fn resolve(&self, file_path: &str, line: u32) -> (r: Option<Resolved>)
        ensures
            match r {
                Some(found) => self.nodes() matches Some(nodes) && resolver::line_symbol(
                    nodes,
                    file_path@,
                    line as int,
                ) == Some(found.node_id.0@),
                None => self.nodes() matches Some(nodes) ==> resolver::line_symbol(
                    nodes,
                    file_path@,
                    line as int,
                ) is None,
            },
    {
        self.service.resolve(file_path, line)
    }

    /// Takes in a batch of metrics; see `TelemetryService::telemetry_ingest`.
    pub fn telemetry_ingest(
        &self,
        payload: &TelemetryIngestPayload,
        db: &mut TelemetryDb,
        now: &str,
    ) -> (r: Result<IngestReport, IngestError>)
        requires
            old(db).wf(),
        ensures
            final(db).wf(),
            telemetry::is_ingest(
                telemetry::bound_rows(*payload, self.nodes(), self.inner().limits(), now@),
                old(db)@,
                final(db)@,
                r,
            ),
    {
        self.service.telemetry_ingest(payload, db, now)
    }

    /// Takes in the metrics that the Draco server was asked for; see
    /// `TelemetryService::telemetry_ingest_draco`.
    pub fn telemetry_ingest_draco(
        &self,
        fetched: Result<TelemetryIngestPayload, DracoError>,
        db: &mut TelemetryDb,
        now: &str,
    ) -> (r: Result<IngestReport, IngestError>)
        requires
            old(db).wf(),
        ensures
            final(db).wf(),
            match fetched {
                Ok(payload) => telemetry::is_ingest(
                    telemetry::bound_rows(payload, self.nodes(), self.inner().limits(), now@),
                    old(db)@,
                    final(db)@,
                    r,
                ),
                Err(e) => r == Err::<IngestReport, IngestError>(IngestError::Draco(e)) && final(db)@
                    == old(db)@,
            },
    {
        self.service.telemetry_ingest_draco(fetched, db, now)
    }

    /// The rows that are bound to a node, by falling p99, and the id of the node;
    /// see `TelemetryService::telemetry_get_context`.
    pub fn telemetry_get_context(
        &self,
        db: &TelemetryDb,
        workspace_key: &str,
        node_id: &str,
        include_impact_radius: bool,
    ) -> (r: (String, Vec<TelemetryBinding>))
        ensures
            r.0@ == node_id@,
            registry::views(r.1@) == registry::ranked(
                registry::of_node(db@, workspace_key@, node_id@),
            ),
    {
        self.service.telemetry_get_context(db, workspace_key, node_id, include_impact_radius)
    }

    /// The id of the plugin.
    pub fn get_id(&self) -> (id: &str)
        ensures
            id@ == PLUGIN_ID@,
    {
        PLUGIN_ID
    }

    /// Binds the plugin to a workspace.
    pub fn bind(&mut self, ctx: WorkspaceContext)
        ensures
            final(self).key() == ctx.workspace_key@,
            final(self).nodes() == old(self).nodes(),
            final(self).inner().same_setup(&old(self).inner()),
    {
        self.service.set_workspace_key(ctx.workspace_key);
    }

    /// The key of the workspace that the plugin is bound to; empty where there is
    /// none.
    pub fn get_workspace_key(&self) -> (k: &str)
        ensures
            k@ == self.key(),
    {
        self.service.workspace_key()
    }

    /// Caches a graph that came in and answers with the packet that carries
    /// `summary`; see `TelemetryService::sync_packet`.
    pub fn sync_packet(
        &mut self,
        opt_toon: Option<Result<GraphOutput, ToonError>>,
        summary: &Json,
    ) -> (bytes: Vec<u8>)
        ensures
            final(self).key() == old(self).key(),
            final(self).inner().same_setup(&old(self).inner()),
            final(self).nodes() == (match opt_toon {
                Some(Ok(graph)) => Some(graph.nodes@),
                _ => old(self).nodes(),
            }),
            bytes@ == telemetry::packet_bytes(
                opt_toon is Some && opt_toon->0 is Err,
                old(self).key(),
                summary@,
            ),
            !(opt_toon is Some && opt_toon->0 is Err) && json::is_plain(
                summary@,
                json::PLAIN_DEPTH as nat,
            ) ==> json::parsed(json::written(summary@)) == Some(summary@),
    {
        self.service.sync_packet(opt_toon, summary)
    }

    /// Brings the plugin up to date and reports; see `TelemetryService::sync_toon`.
    pub fn sync_toon(
        &mut self,
        opt_toon: Option<Result<GraphOutput, ToonError>>,
        db: Option<&TelemetryDb>,
    ) -> (bytes: Vec<u8>)
        ensures
            final(self).key() == old(self).key(),
            final(self).inner().same_setup(&old(self).inner()),
            final(self).nodes() == (match opt_toon {
                Some(Ok(graph)) => Some(graph.nodes@),
                _ => old(self).nodes(),
            }),
            bytes@ == telemetry::sync_answer(
                opt_toon is Some && opt_toon->0 is Err,
                telemetry::rows_of(db),
                old(self).key(),
            ),
            !(opt_toon is Some && opt_toon->0 is Err) ==> telemetry::summary_reads_back(
                telemetry::rows_of(db),
                old(self).key(),
            ),
    {
        self.service.sync_toon(opt_toon, db)
    }

    /// Takes note of a change of the graph. Nothing depends on it yet.
    pub fn on_graph_updated(&mut self)
        ensures
            *final(self) == *old(self),
    {
        self.service.on_graph_updated();
    }
}

} // verus!
