//! The telemetry service: binds incoming metrics to symbols, judges hotspots,
//! answers queries and reports.
//!
//! The service decides; it does no I/O. The table, the parsed graph, the time and
//! the environment are handed to it.

use vstd::prelude::*;

use crate::draco_client::{default_draco_url, DracoError, DracoMcpClient};
use crate::graph::{GraphOutput, Node};
use crate::ingest::{IngestError, Metric, TelemetryIngestPayload};
use crate::json;
use crate::json::{Json, JsonView};
use crate::millis;
use crate::millis::Millis;
use crate::registry;
use crate::registry::{BindingView, TelemetryBinding, TelemetryDb};
use crate::resolver;
use crate::resolver::{resolve_line, Resolved};
use crate::settings::EnvVars;
use crate::sync;
use crate::sync::{emit_error_packet, emit_packet, synthesize_hotspot_block, HotspotView};
use crate::text;

verus! {

/// The path type of std.
#[verifier::external_type_specification]
#[verifier::external_body]
pub struct ExPathBuf(std::path::PathBuf);

/// The limits beyond which a metric is a hotspot.
#[derive(Debug, Clone, Copy)]
pub struct ThresholdConfig {
    /// The limit of the p99 latency.
    pub p99_ms: Millis,
    /// The limit of the bytes allocated per request.
    pub alloc_bytes: i64,
}

impl PartialEq for ThresholdConfig {
    fn eq(&self, other: &ThresholdConfig) -> (r: bool) {
        self.p99_ms == other.p99_ms && self.alloc_bytes == other.alloc_bytes
    }
}

impl vstd::std_specs::cmp::PartialEqSpecImpl for ThresholdConfig {
    open spec fn obeys_eq_spec() -> bool {
        true
    }

    open spec fn eq_spec(&self, other: &ThresholdConfig) -> bool {
        self.p99_ms.same_number(other.p99_ms) && self.alloc_bytes == other.alloc_bytes
    }
}

/// The bits of 500.
pub const DEFAULT_P99_BITS: u64 = 0x407f_4000_0000_0000;

/// 5 MB.
pub const DEFAULT_ALLOC_BYTES: i64 = 5_242_880;

impl Default for ThresholdConfig {
    /// 500 ms and 5 MB.
    fn default() -> (c: Self)
        ensures
            c.p99_ms.bits == DEFAULT_P99_BITS,
            c.p99_ms.units() == 500 * millis::one(),
            c.alloc_bytes == 5 * 1024 * 1024,
    {
        proof {
            lemma_default_p99();
        }
        ThresholdConfig {
            p99_ms: Millis::from_bits(DEFAULT_P99_BITS),
            alloc_bytes: DEFAULT_ALLOC_BYTES,
        }
    }
}

/// The default bits encode 500.
proof fn lemma_default_p99()
    ensures
        (Millis { bits: DEFAULT_P99_BITS }).units() == 500 * millis::one(),
{
    vstd::arithmetic::power2::lemma_pow2_adds(44, 1030);
    vstd::arithmetic::power2::lemma2_to64_rest();
    let p = vstd::arithmetic::power2::pow2(1030);
    assert(0x1f_4000_0000_0000 * p == 500 * (0x1000_0000_0000 * p)) by (nonlinear_arith);
}

impl ThresholdConfig {
    /// Whether a metric goes beyond one of the limits.
    pub open spec fn judges(self, p99_ms: Millis, alloc_bytes: i64) -> bool {
        p99_ms.exceeds_spec(self.p99_ms) || alloc_bytes > self.alloc_bytes
    }

    /// The limits that the environment sets, and the defaults for the others.
    ///
    /// White space around the number of bytes is ignored; text that is no number
    /// counts as not set.
    pub fn from_env(env: &EnvVars) -> (c: Self)
        ensures
            c.p99_ms == (match env.hotspot_p99_ms {
                Some(ms) => ms,
                None => Millis { bits: DEFAULT_P99_BITS },
            }),
            c.alloc_bytes == (match env.hotspot_alloc_bytes {
                Some(v) => match text::i64_value(text::trimmed(v@)) {
                    Some(b) => b,
                    None => DEFAULT_ALLOC_BYTES,
                },
                None => DEFAULT_ALLOC_BYTES,
            }),
    {
        let mut c: ThresholdConfig = ThresholdConfig::default();
        match env.hotspot_p99_ms {
            Some(ms) => {
                c.p99_ms = ms;
            },
            None => {},
        }
        match &env.hotspot_alloc_bytes {
            Some(v) => match text::parse_i64(text::trim(v)) {
                Some(b) => {
                    c.alloc_bytes = b;
                },
                None => {},
            },
            None => {},
        }
        c
    }

    /// Whether a metric is a hotspot: its p99 latency or its allocation is above
    /// the limit.
    pub fn is_hotspot(self, p99_ms: Millis, alloc_bytes: i64) -> (r: bool)
        ensures
            r == self.judges(p99_ms, alloc_bytes),
    {
        p99_ms.exceeds(self.p99_ms) || alloc_bytes > self.alloc_bytes
    }
}

/// What became of a batch of metrics.
#[derive(Debug, Clone, Copy, PartialEq, Eq, Structural)]
pub struct IngestReport {
    /// How many metrics there were.
    pub total: usize,
    /// How many were bound to a node.
    pub bound: usize,
    /// How many lie in no node of the graph.
    pub orphan: usize,
    /// How many are hotspots.
    pub hotspots: usize,
}

/// The text that was to be a graph is none.
#[derive(Debug, Clone, Copy, PartialEq, Eq, Structural)]
pub struct ToonError;

/// The node that a metric is bound to; empty where there is none.
pub open spec fn canonical_id(graph: Option<Seq<Node>>, metric: Metric) -> Seq<char> {
    match graph {
        Some(nodes) => match resolver::line_symbol(
            nodes,
            metric.file_path@,
            metric.line_number as int,
        ) {
            Some(id) => id,
            None => Seq::empty(),
        },
        None => Seq::empty(),
    }
}

/// The row that a metric is stored as.
pub open spec fn bound_row(
    workspace_key: Seq<char>,
    graph: Option<Seq<Node>>,
    threshold: ThresholdConfig,
    metric: Metric,
    now: Seq<char>,
) -> BindingView {
    BindingView {
        workspace_key,
        id: metric.metric_id@,
        canonical_node_id: canonical_id(graph, metric),
        file_path: metric.file_path@,
        function_name: metric.function_name@,
        p50_ms: metric.p50_ms,
        p99_ms: metric.p99_ms,
        alloc_bytes: metric.alloc_bytes_per_req,
        call_count: metric.call_count_per_min,
        is_hotspot: threshold.judges(metric.p99_ms, metric.alloc_bytes_per_req),
        environment: metric.environment@,
        created_at: metric.recorded_at@,
        updated_at: now,
    }
}

/// The rows that a batch of metrics is stored as.
pub open spec fn bound_rows(
    payload: TelemetryIngestPayload,
    graph: Option<Seq<Node>>,
    threshold: ThresholdConfig,
    now: Seq<char>,
) -> Seq<BindingView> {
    Seq::new(
        payload.metrics@.len(),
        |i: int|
            bound_row(payload.workspace_key@, graph, threshold, payload.metrics@[i], now),
    )
}

/// The rows that are bound to a node.
pub open spec fn bound_of(rows: Seq<BindingView>) -> Seq<BindingView> {
    rows.filter(|row: BindingView| row.canonical_node_id.len() > 0)
}

/// The rows that are bound to no node.
pub open spec fn orphans_of(rows: Seq<BindingView>) -> Seq<BindingView> {
    rows.filter(|row: BindingView| row.canonical_node_id.len() == 0)
}

/// The rows that are hotspots.
pub open spec fn hot_of(rows: Seq<BindingView>) -> Seq<BindingView> {
    rows.filter(|row: BindingView| row.is_hotspot)
}

/// Whether `report` counts `rows` rightly.
pub open spec fn reports(report: IngestReport, rows: Seq<BindingView>) -> bool {
    &&& report.total == rows.len()
    &&& report.bound == bound_of(rows).len()
    &&& report.orphan == orphans_of(rows).len()
    &&& report.hotspots == hot_of(rows).len()
}

/// Whether storing `rows` in the table `before` ends in `after` with result `r`:
/// all rows are stored and counted, or those before the first one that cannot
/// be, and that one's error comes back.
pub open spec fn is_ingest(
    rows: Seq<BindingView>,
    before: Seq<BindingView>,
    after: Seq<BindingView>,
    r: Result<IngestReport, IngestError>,
) -> bool {
    match r {
        Ok(report) => {
            &&& forall|i: int| 0 <= i < rows.len() ==> registry::storable(#[trigger] rows[i])
            &&& after == registry::upserted_all(before, rows)
            &&& reports(report, rows)
        },
        Err(e) => exists|k: int|
            {
                &&& 0 <= k < rows.len()
                &&& registry::store_error(#[trigger] rows[k]) matches Some(cause) && e
                    == IngestError::Db(cause)
                &&& forall|i: int| 0 <= i < k ==> registry::storable(#[trigger] rows[i])
                &&& after == registry::upserted_all(before, rows.take(k))
            },
    }
}

/// The summary of a workspace. Keys are in order.
pub open spec fn summary_view(
    workspace_key: Seq<char>,
    bindings: nat,
    hotspots: nat,
    block: Seq<char>,
) -> JsonView {
    JsonView::Object(
        seq![
            (
                "telemetry"@,
                JsonView::Object(
                    seq![
                        ("bindings"@, JsonView::Number(text::decimal(bindings))),
                        ("hotspots"@, JsonView::Number(text::decimal(hotspots))),
                        ("plugin"@, JsonView::Text(crate::PLUGIN_ID@)),
                        ("toon_block"@, JsonView::Text(block)),
                        ("workspace_key"@, JsonView::Text(workspace_key)),
                    ],
                ),
            ),
        ],
    )
}

/// What is shown of the hotspots of a workspace, by falling p99.
pub open spec fn shown_hotspots(rows: Seq<BindingView>, workspace_key: Seq<char>) -> Seq<
    sync::Shown,
> {
    registry::ranked(registry::hotspots_of(rows, workspace_key)).map_values(
        |row: BindingView| sync::shown(row),
    )
}

/// The summary of a workspace, given the table; all zero where there is none.
pub open spec fn summary_of(rows: Option<Seq<BindingView>>, workspace_key: Seq<char>) -> JsonView {
    match rows {
        Some(rows) => summary_view(
            workspace_key,
            registry::of_workspace(rows, workspace_key).len(),
            registry::hotspots_of(rows, workspace_key).len(),
            sync::hotspot_block(shown_hotspots(rows, workspace_key)),
        ),
        None => summary_view(workspace_key, 0, 0, Seq::empty()),
    }
}

/// The rows of a table that may not be there.
pub open spec fn rows_of(db: Option<&TelemetryDb>) -> Option<Seq<BindingView>> {
    match db {
        Some(d) => Some(d@),
        None => None,
    }
}

/// A count that may not have come.
pub open spec fn count_or_zero(count: Option<usize>) -> nat {
    match count {
        Some(n) => n as nat,
        None => 0,
    }
}

/// The answer to a sync, in UTF-8: an error packet where the text that came in was
/// `broken`, else the packet with the summary.
pub open spec fn packet_bytes(
    broken: bool,
    workspace_key: Seq<char>,
    summary: JsonView,
) -> Seq<u8> {
    vstd::utf8::encode_utf8(
        if broken {
            sync::error_packet("Cannot parse .toon into GraphOutput."@)
        } else {
            sync::packet(workspace_key, json::written(summary))
        },
    )
}

/// The answer to a sync, given the table.
pub open spec fn sync_answer(
    broken: bool,
    rows: Option<Seq<BindingView>>,
    workspace_key: Seq<char>,
) -> Seq<u8> {
    packet_bytes(broken, workspace_key, summary_of(rows, workspace_key))
}

/// Whether the summary in the packet is read back as it was written.
pub open spec fn summary_reads_back(
    rows: Option<Seq<BindingView>>,
    workspace_key: Seq<char>,
) -> bool {
    json::parsed(json::written(summary_of(rows, workspace_key))) == Some(
        summary_of(rows, workspace_key),
    )
}

/// The state of the plugin.
#[derive(Debug)]
pub struct TelemetryService {
    workspace_key: String,
    /// Where the database is, where that is not the default place.
    registry_path: Option<std::path::PathBuf>,
    /// The graph that came in last.
    graph_cache: Option<GraphOutput>,
    draco_client: DracoMcpClient,
    threshold: ThresholdConfig,
}

impl TelemetryService {
    /// The workspace that the service is bound to.
    pub closed spec fn key(&self) -> Seq<char> {
        self.workspace_key@
    }

    /// The nodes of the cached graph.
    pub closed spec fn nodes(&self) -> Option<Seq<Node>> {
        match self.graph_cache {
            Some(g) => Some(g.nodes@),
            None => None,
        }
    }

    /// The limits of a hotspot.
    pub closed spec fn limits(&self) -> ThresholdConfig {
        self.threshold
    }

    /// The place of the database, where it was set.
    pub closed spec fn db_path(&self) -> Option<std::path::PathBuf> {
        self.registry_path
    }

    /// The client of the Draco server.
    pub closed spec fn client(&self) -> DracoMcpClient {
        self.draco_client
    }

    /// Whether all but the workspace and the cached graph is the same.
    pub open spec fn same_setup(&self, other: &Self) -> bool {
        &&& self.limits() == other.limits()
        &&& self.db_path() == other.db_path()
        &&& self.client() == other.client()
    }

    /// A service without workspace and graph, set up from the environment.
    pub fn new(env: &EnvVars) -> (s: Self)
        ensures
            s.key() == Seq::<char>::empty(),
            s.nodes() is None,
            s.db_path() is None,
            s.client().url() == (match env.draco_base_url {
                Some(u) => u@,
                None => crate::draco_client::DEFAULT_BASE_URL@,
            }),
            s.client().session() is None,
            s.limits().p99_ms == (match env.hotspot_p99_ms {
                Some(ms) => ms,
                None => Millis { bits: DEFAULT_P99_BITS },
            }),
            s.limits().alloc_bytes == (match env.hotspot_alloc_bytes {
                Some(v) => match text::i64_value(text::trimmed(v@)) {
                    Some(b) => b,
                    None => DEFAULT_ALLOC_BYTES,
                },
                None => DEFAULT_ALLOC_BYTES,
            }),
    {
        let url: String = default_draco_url(env);
        TelemetryService {
            workspace_key: String::new(),
            registry_path: None,
            graph_cache: None,
            draco_client: DracoMcpClient::new(&url),
            threshold: ThresholdConfig::from_env(env),
        }
    }

    /// The same service with another place for the database.
    pub fn with_registry_path(self, path: std::path::PathBuf) -> (s: Self)
        ensures
            s.db_path() == Some(path),
            s.key() == self.key(),
            s.nodes() == self.nodes(),
            s.limits() == self.limits(),
            s.client() == self.client(),
    {
        TelemetryService { registry_path: Some(path), ..self }
    }

    /// The same service with a new client for another server.
    pub fn with_draco_url(self, url: &str) -> (s: Self)
        ensures
            s.client().url() == url@,
            s.client().session() is None,
            s.key() == self.key(),
            s.nodes() == self.nodes(),
            s.limits() == self.limits(),
            s.db_path() == self.db_path(),
    {
        TelemetryService { draco_client: DracoMcpClient::new(url), ..self }
    }

    /// The same service with other limits.
    pub fn with_threshold(self, threshold: ThresholdConfig) -> (s: Self)
        ensures
            s.limits() == threshold,
            s.key() == self.key(),
            s.nodes() == self.nodes(),
            s.db_path() == self.db_path(),
            s.client() == self.client(),
    {
        TelemetryService { threshold, ..self }
    }

    /// Binds the service to a workspace.
    pub fn set_workspace_key(&mut self, workspace_key: String)
        ensures
            final(self).key() == workspace_key@,
            final(self).nodes() == old(self).nodes(),
            final(self).same_setup(old(self)),
    {
        self.workspace_key = workspace_key;
    }

    /// The workspace that the service is bound to; empty where there is none.
    pub fn workspace_key(&self) -> (k: &str)
        ensures
            k@ == self.key(),
    {
        &self.workspace_key
    }

    /// Where the database is, given its default place.
    pub fn registry_path<'a>(&'a self, default: &'a std::path::PathBuf) -> (p:
        &'a std::path::PathBuf)
        ensures
            *p == (match self.db_path() {
                Some(path) => path,
                None => *default,
            }),
    {
        match &self.registry_path {
            Some(path) => path,
            None => default,
        }
    }

    /// The client of the Draco server.
    pub fn draco_client(&self) -> (c: &DracoMcpClient)
        ensures
            *c == self.client(),
    {
        &self.draco_client
    }

    /// A copy of the cached graph.
    pub fn graph(&self) -> (r: Option<GraphOutput>)
        ensures
            match r {
                Some(g) => self.nodes() == Some(g.nodes@),
                None => self.nodes() is None,
            },
    {
        match &self.graph_cache {
            Some(g) => Some(g.clone()),
            None => None,
        }
    }

    /// Finds the innermost node of the cached graph around a line.
    pub fn resolve(&self, file_path: &str, line: u32) -> (r: Option<Resolved>)
        ensures
            match r {
                Some(found) => self.nodes() matches Some(nodes) && resolver::line_symbol(
                    nodes,
                    file_path@,
                    line as int,
                ) == Some(found.node_id.0@),
                None => self.nodes() matches Some(nodes) ==> resolver::line_symbol(
                    nodes,
                    file_path@,
                    line as int,
                ) is None,
            },
    {
        match &self.graph_cache {
            Some(g) => resolve_line(g, file_path, line),
            None => None,
        }
    }

    /// Binds one metric to its node and judges it.
    fn bind_metric(&self, workspace_key: &String, metric: &Metric, now: &str) -> (b:
        TelemetryBinding)
        ensures
            b@ == bound_row(workspace_key@, self.nodes(), self.limits(), *metric, now@),
    {
        let canonical: String = match self.resolve(&metric.file_path, metric.line_number) {
            Some(found) => found.node_id.0,
            None => String::new(),
        };
        TelemetryBinding {
            workspace_key: workspace_key.clone(),
            id: metric.metric_id.clone(),
            canonical_node_id: canonical,
            file_path: metric.file_path.clone(),
            function_name: metric.function_name.clone(),
            p50_ms: metric.p50_ms,
            p99_ms: metric.p99_ms,
            alloc_bytes: metric.alloc_bytes_per_req,
            call_count: metric.call_count_per_min,
            is_hotspot: self.threshold.is_hotspot(metric.p99_ms, metric.alloc_bytes_per_req),
            environment: metric.environment.clone(),
            created_at: metric.recorded_at.clone(),
            updated_at: now.to_owned(),
        }
    }

    /// Takes in a batch of metrics: binds each to the innermost node around its
    /// line, judges whether it is a hotspot, and stores it, bound or not, in the
    /// workspace that the batch names.
    ///
    /// Stops at the first metric that cannot be stored; those before it stay
    /// stored.
    pub fn telemetry_ingest(
        &self,
        payload: &TelemetryIngestPayload,
        db: &mut TelemetryDb,
        now: &str,
    ) -> (r: Result<IngestReport, IngestError>)
        requires
            old(db).wf(),
        ensures
            final(db).wf(),
            is_ingest(
                bound_rows(*payload, self.nodes(), self.limits(), now@),
                old(db)@,
                final(db)@,
                r,
            ),
    {
        let ghost rows = bound_rows(*payload, self.nodes(), self.limits(), now@);
        let ghost before = db@;
        let mut bound: usize = 0;
        let mut orphan: usize = 0;
        let mut hotspots: usize = 0;
        let mut i: usize = 0;
        proof {
            reveal(Seq::filter);
            assert(rows.take(0) =~= Seq::<BindingView>::empty());
        }
        while i < payload.metrics.len()
            invariant
                i <= payload.metrics.len(),
                rows == bound_rows(*payload, self.nodes(), self.limits(), now@),
                before == old(db)@,
                db.wf(),
                db@ == registry::upserted_all(before, rows.take(i as int)),
                forall|j: int| 0 <= j < i ==> registry::storable(#[trigger] rows[j]),
                bound <= i,
                orphan <= i,
                hotspots <= i,
                bound == bound_of(rows.take(i as int)).len(),
                orphan == orphans_of(rows.take(i as int)).len(),
                hotspots == hot_of(rows.take(i as int)).len(),
            decreases payload.metrics.len() - i,
        {
            let binding: TelemetryBinding = self.bind_metric(
                &payload.workspace_key,
                &payload.metrics[i],
                now,
            );
            proof {
                reveal(Seq::filter);
                assert(rows[i as int] == binding@);
                assert(rows.take(i + 1).drop_last() =~= rows.take(i as int));
                assert(rows.take(i + 1).last() == rows[i as int]);
            }
            if binding.canonical_node_id.as_str().is_empty() {
                orphan += 1;
            } else {
                bound += 1;
            }
            if binding.is_hotspot {
                hotspots += 1;
            }
            match db.upsert(&binding) {
                Ok(()) => {},
                Err(e) => {
                    assert(registry::store_error(rows[i as int]) == Some(e));
                    return Err(IngestError::Db(e));
                },
            }
            i += 1;
        }
        assert(rows.take(i as int) =~= rows);
        Ok(IngestReport { total: payload.metrics.len(), bound, orphan, hotspots })
    }

    /// Takes in the metrics that the Draco server was asked for.
    ///
    /// Where the server could not be asked or gave no metrics, that error comes
    /// back and nothing is stored.
    pub fn telemetry_ingest_draco(
        &self,
        fetched: Result<TelemetryIngestPayload, DracoError>,
        db: &mut TelemetryDb,
        now: &str,
    ) -> (r: Result<IngestReport, IngestError>)
        requires
            old(db).wf(),
        ensures
            final(db).wf(),
            match fetched {
                Ok(payload) => is_ingest(
                    bound_rows(payload, self.nodes(), self.limits(), now@),
                    old(db)@,
                    final(db)@,
                    r,
                ),
                Err(e) => r == Err::<IngestReport, IngestError>(IngestError::Draco(e)) && final(db)@
                    == old(db)@,
            },
    {
        match fetched {
            Ok(payload) => self.telemetry_ingest(&payload, db, now),
            Err(e) => Err(IngestError::Draco(e)),
        }
    }

    /// The rows that are bound to a node, by falling p99, and the id of the node.
    ///
    /// The impact radius is not looked at yet: the answer is the same with and
    /// without it.
    pub fn telemetry_get_context(
        &self,
        db: &TelemetryDb,
        workspace_key: &str,
        node_id: &str,
        _include_impact_radius: bool,
    ) -> (r: (String, Vec<TelemetryBinding>))
        ensures
            r.0@ == node_id@,
            registry::views(r.1@) == registry::ranked(
                registry::of_node(db@, workspace_key@, node_id@),
            ),
    {
        (node_id.to_owned(), db.query_by_node(workspace_key, node_id))
    }

    /// What is shown of the hotspots of the workspace, by falling p99.
    pub fn hotspots(&self, db: &TelemetryDb) -> (r: Vec<HotspotView>)
        ensures
            sync::shown_views(r@) == shown_hotspots(db@, self.key()),
    {
        let rows: Vec<TelemetryBinding> = db.query_hotspots(&self.workspace_key);
        let ghost all = registry::views(rows@).map_values(|row: BindingView| sync::shown(row));
        let mut shown: Vec<HotspotView> = Vec::new();
        let mut i: usize = 0;
        assert(sync::shown_views(shown@) =~= all.take(0));
        while i < rows.len()
            invariant
                i <= rows.len(),
                all == registry::views(rows@).map_values(|row: BindingView| sync::shown(row)),
                sync::shown_views(shown@) == all.take(i as int),
            decreases rows.len() - i,
        {
            let row: &TelemetryBinding = &rows[i];
            assert(registry::views(rows@)[i as int] == row@);
            let view: HotspotView = HotspotView {
                node_id: row.canonical_node_id.clone(),
                p99_ms: row.p99_ms,
                alloc_bytes: row.alloc_bytes,
                call_count: row.call_count,
                environment: row.environment.clone(),
            };
            let ghost so_far = sync::shown_views(shown@);
            shown.push(view);
            assert(view@ == all[i as int]);
            assert(sync::shown_views(shown@) =~= so_far.push(view@));
            assert(all.take(i + 1) =~= all.take(i as int).push(all[i as int]));
            i += 1;
        }
        assert(all.take(i as int) =~= all);
        shown
    }

    /// The summary of the workspace, given what the database answered to each of
    /// three questions: how many rows there are, how many hotspots, and which. An
    /// answer that did not come counts as zero or as none.
    pub fn summary_from(
        &self,
        bindings: Option<usize>,
        hotspots: Option<usize>,
        views: Option<&Vec<HotspotView>>,
    ) -> (doc: Json)
        ensures
            doc@ == summary_view(
                self.key(),
                count_or_zero(bindings),
                count_or_zero(hotspots),
                match views {
                    Some(v) => sync::hotspot_block(sync::shown_views(v@)),
                    None => Seq::empty(),
                },
            ),
            json::is_plain(doc@, json::PLAIN_DEPTH as nat),
    {
        let b: u64 = match bindings {
            Some(n) => n as u64,
            None => 0,
        };
        let h: u64 = match hotspots {
            Some(n) => n as u64,
            None => 0,
        };
        let toon_block: String = match views {
            Some(v) => synthesize_hotspot_block(v),
            None => String::new(),
        };
        let mut telemetry: Vec<(String, Json)> = Vec::new();
        json::push_member(&mut telemetry, "bindings", Json::number(b));
        json::push_member(&mut telemetry, "hotspots", Json::number(h));
        json::push_member(&mut telemetry, "plugin", Json::text(crate::PLUGIN_ID));
        json::push_member(&mut telemetry, "toon_block", Json::text(&toon_block));
        json::push_member(&mut telemetry, "workspace_key", Json::text(&self.workspace_key));
        let mut doc: Vec<(String, Json)> = Vec::new();
        json::push_member(&mut doc, "telemetry", Json::object(telemetry));
        proof {
            let view = summary_view(self.key(), b as nat, h as nat, toon_block@);
            assert(view->Object_0[0].1->Object_0 =~= json::member_views(telemetry@));
            assert(view->Object_0 =~= json::member_views(doc@));
            lemma_summary_is_plain(self.key(), b, h, toon_block@);
        }
        Json::object(doc)
    }

    /// The summary of the workspace: how many rows and hotspots it has, and the
    /// observability block. All zero where the database is not available.
    pub fn summary_json(&self, db: Option<&TelemetryDb>) -> (doc: Json)
        ensures
            doc@ == summary_of(rows_of(db), self.key()),
            json::is_plain(doc@, json::PLAIN_DEPTH as nat),
    {
        match db {
            Some(d) => {
                let views: Vec<HotspotView> = self.hotspots(d);
                self.summary_from(
                    Some(d.count(&self.workspace_key)),
                    Some(d.count_hotspots(&self.workspace_key)),
                    Some(&views),
                )
            },
            None => self.summary_from(None, None, None),
        }
    }

    /// Caches a graph that came in and answers with the packet that carries
    /// `summary`.
    ///
    /// Where the text that came in was no graph, the answer is an error packet
    /// and the cache stays as it is.
    pub fn sync_packet(
        &mut self,
        opt_toon: Option<Result<GraphOutput, ToonError>>,
        summary: &Json,
    ) -> (bytes: Vec<u8>)
        ensures
            final(self).key() == old(self).key(),
            final(self).same_setup(old(self)),
            final(self).nodes() == (match opt_toon {
                Some(Ok(graph)) => Some(graph.nodes@),
                _ => old(self).nodes(),
            }),
            bytes@ == packet_bytes(
                opt_toon is Some && opt_toon->0 is Err,
                old(self).key(),
                summary@,
            ),
            !(opt_toon is Some && opt_toon->0 is Err) && json::is_plain(
                summary@,
                json::PLAIN_DEPTH as nat,
            ) ==> json::parsed(json::written(summary@)) == Some(summary@),
    {
        match opt_toon {
            Some(Ok(graph)) => {
                self.graph_cache = Some(graph);
            },
            Some(Err(_)) => {
                return emit_error_packet("Cannot parse .toon into GraphOutput.").as_str()
                    .as_bytes_vec();
            },
            None => {},
        }
        emit_packet(&self.workspace_key, summary).as_str().as_bytes_vec()
    }

    /// Brings the service up to date and reports.
    ///
    /// A graph that came in is cached; the answer is the packet with the summary.
    /// Where the text that came in was no graph, the answer is an error packet
    /// and the cache stays as it is. With nothing new, only the summary is given.
    pub fn sync_toon(
        &mut self,
        opt_toon: Option<Result<GraphOutput, ToonError>>,
        db: Option<&TelemetryDb>,
    ) -> (bytes: Vec<u8>)
        ensures
            final(self).key() == old(self).key(),
            final(self).same_setup(old(self)),
            final(self).nodes() == (match opt_toon {
                Some(Ok(graph)) => Some(graph.nodes@),
                _ => old(self).nodes(),
            }),
            bytes@ == sync_answer(
                opt_toon is Some && opt_toon->0 is Err,
                rows_of(db),
                old(self).key(),
            ),
            !(opt_toon is Some && opt_toon->0 is Err) ==> summary_reads_back(
                rows_of(db),
                old(self).key(),
            ),
    {
        let summary: Json = self.summary_json(db);
        self.sync_packet(opt_toon, &summary)
    }

    /// Takes note of a change of the graph. Nothing depends on it yet.
    pub fn on_graph_updated(&mut self)
        ensures
            *final(self) == *old(self),
    {
    }
}

/// The first letters of two keys put them in order.
proof fn lemma_before_by_first(a: Seq<char>, b: Seq<char>)
    requires
        a.len() > 0,
        b.len() > 0,
        a[0] < b[0],
    ensures
        json::before(a, b),
{
    assert(a.take(0) =~= b.take(0));
    assert(json::differ_at(a, b, 0));
}

/// The first letters of the keys of a summary.
proof fn lemma_summary_keys()
    ensures
        "bindings"@.len() > 0 && "bindings"@[0] == 'b',
        "hotspots"@.len() > 0 && "hotspots"@[0] == 'h',
        "plugin"@.len() > 0 && "plugin"@[0] == 'p',
        "toon_block"@.len() > 0 && "toon_block"@[0] == 't',
        "workspace_key"@.len() > 0 && "workspace_key"@[0] == 'w',
{
    reveal_strlit("bindings");
    reveal_strlit("hotspots");
    reveal_strlit("plugin");
    reveal_strlit("toon_block");
    reveal_strlit("workspace_key");
}

/// A summary is made of strings, whole numbers and objects with ordered keys.
proof fn lemma_summary_is_plain(
    workspace_key: Seq<char>,
    bindings: u64,
    hotspots: u64,
    block: Seq<char>,
)
    ensures
        json::is_plain(
            summary_view(workspace_key, bindings as nat, hotspots as nat, block),
            json::PLAIN_DEPTH as nat,
        ),
{
    let doc = summary_view(workspace_key, bindings as nat, hotspots as nat, block);
    let inner = doc->Object_0[0].1;
    let members = inner->Object_0;
    lemma_summary_keys();
    assert forall|i: int, j: int| 0 <= i < j < members.len() implies json::before(
        (#[trigger] members[i]).0,
        (#[trigger] members[j]).0,
    ) by {
        lemma_before_by_first(members[i].0, members[j].0);
    }
    assert forall|i: int| 0 <= i < members.len() implies json::is_plain(
        (#[trigger] members[i]).1,
        (json::PLAIN_DEPTH - 2) as nat,
    ) by {}
    assert(json::is_plain(inner, (json::PLAIN_DEPTH - 1) as nat));
}

/// A summary names the workspace and the plugin, counts the rows and the hotspots
/// of the workspace, and holds the observability block of the hotspots.
pub proof fn summary_holds_the_block(rows: Seq<BindingView>, workspace_key: Seq<char>)
    ensures
        json::field(summary_of(Some(rows), workspace_key), "telemetry"@) matches Some(t) && {
            &&& json::field(t, "bindings"@) == Some(
                JsonView::Number(
                    text::decimal(registry::of_workspace(rows, workspace_key).len()),
                ),
            )
            &&& json::field(t, "hotspots"@) == Some(
                JsonView::Number(text::decimal(registry::hotspots_of(rows, workspace_key).len())),
            )
            &&& json::field(t, "plugin"@) == Some(JsonView::Text(crate::PLUGIN_ID@))
            &&& json::field(t, "toon_block"@) == Some(
                JsonView::Text(sync::hotspot_block(shown_hotspots(rows, workspace_key))),
            )
            &&& json::field(t, "workspace_key"@) == Some(JsonView::Text(workspace_key))
        },
{
    reveal_with_fuel(json::member, 6);
    lemma_summary_keys();
}

/// Every metric of a batch is bound or an orphan, and no more are hotspots than
/// there are.
pub proof fn report_adds_up(report: IngestReport, rows: Seq<BindingView>)
    requires
        reports(report, rows),
    ensures
        report.bound + report.orphan == report.total,
        report.hotspots <= report.total,
{
    lemma_split(rows);
    rows.lemma_filter_len(|row: BindingView| row.is_hotspot);
}

/// A row is bound or an orphan.
proof fn lemma_split(rows: Seq<BindingView>)
    ensures
        bound_of(rows).len() + orphans_of(rows).len() == rows.len(),
    decreases rows.len(),
{
    reveal(Seq::filter);
    if rows.len() > 0 {
        lemma_split(rows.drop_last());
    }
}

/// Without a graph every metric is an orphan, and is stored all the same.
pub proof fn without_a_graph_all_are_orphans(
    payload: TelemetryIngestPayload,
    threshold: ThresholdConfig,
    now: Seq<char>,
    report: IngestReport,
)
    requires
        reports(report, bound_rows(payload, None, threshold, now)),
    ensures
        report.bound == 0,
        report.orphan == payload.metrics@.len(),
{
    let rows = bound_rows(payload, None, threshold, now);
    report_adds_up(report, rows);
    lemma_none_bound(rows);
}

/// Where no row has a node, none is bound.
proof fn lemma_none_bound(rows: Seq<BindingView>)
    requires
        forall|i: int| 0 <= i < rows.len() ==> (#[trigger] rows[i]).canonical_node_id.len() == 0,
    ensures
        bound_of(rows).len() == 0,
    decreases rows.len(),
{
    reveal(Seq::filter);
    if rows.len() > 0 {
        assert(rows.last() == rows[rows.len() - 1]);
        assert(forall|i: int| 0 <= i < rows.len() - 1 ==> rows.drop_last()[i] == rows[i]);
        lemma_none_bound(rows.drop_last());
    }
}

/// Storing a batch leaves a table.
proof fn lemma_batch_is_table(before: Seq<BindingView>, batch: Seq<BindingView>)
    requires
        registry::is_table(before),
        forall|i: int| 0 <= i < batch.len() ==> registry::storable(#[trigger] batch[i]),
    ensures
        registry::is_table(registry::upserted_all(before, batch)),
    decreases batch.len(),
{
    if batch.len() > 0 {
        let head = batch.drop_last();
        assert(forall|i: int| 0 <= i < head.len() ==> head[i] == batch[i]);
        assert(registry::storable(batch[batch.len() - 1]));
        lemma_batch_is_table(before, head);
        registry::lemma_upserted_is_table(registry::upserted_all(before, head), batch.last());
    }
}

/// What a batch stored is read back: under the key of a metric stands the last
/// row of the batch with that key, `batch[k]`, as the table keeps it. Only its time
/// of creation may be older: it is that of the row that was there before the batch, or else of the
/// first row of the batch with that key, `batch[first]`.
pub proof fn ingested_metric_is_found(
    before: Seq<BindingView>,
    batch: Seq<BindingView>,
    first: int,
    k: int,
)
    requires
        registry::is_table(before),
        forall|i: int| 0 <= i < batch.len() ==> registry::storable(#[trigger] batch[i]),
        0 <= first <= k < batch.len(),
        registry::has_key(batch[first], batch[k].workspace_key, batch[k].id),
        forall|i: int|
            0 <= i < first || k < i < batch.len() ==> !registry::has_key(
                #[trigger] batch[i],
                batch[k].workspace_key,
                batch[k].id,
            ),
    ensures
        registry::lookup(
            registry::upserted_all(before, batch),
            batch[k].workspace_key,
            batch[k].id,
        ) matches Some(row) && {
            &&& row == registry::replaced(row, batch[k])
            &&& row.created_at == (match registry::lookup(
                before,
                batch[k].workspace_key,
                batch[k].id,
            ) {
                Some(stored) => stored.created_at,
                None => batch[first].created_at,
            })
        },
    decreases batch.len(),
{
    let head = batch.drop_last();
    let last = batch.last();
    let mid = registry::upserted_all(before, head);
    assert(forall|i: int| 0 <= i < head.len() ==> head[i] == batch[i]);
    assert(registry::storable(batch[batch.len() - 1]));
    lemma_batch_is_table(before, head);
    if k == batch.len() - 1 {
        registry::stored_row_is_found(mid, last);
        lemma_creation_is_kept(before, head, batch[k].workspace_key, batch[k].id);
        if first == k {
            lemma_absent_key(before, head, batch[k].workspace_key, batch[k].id);
        } else {
            lemma_first_creation(before, head, first, batch[k].workspace_key, batch[k].id);
        }
    } else {
        ingested_metric_is_found(before, head, first, k);
        assert(!registry::has_key(
            batch[batch.len() - 1],
            batch[k].workspace_key,
            batch[k].id,
        ));
        registry::other_keys_are_kept(mid, last, batch[k].workspace_key, batch[k].id);
    }
}

/// A metric that was taken in stands in the context of the symbol that it was bound
/// to, and among the hotspots of its workspace if and only if it was judged to be
/// one. `first` and `k` are the first and the last metric of the batch with its id.
pub proof fn ingested_metric_is_in_its_context(
    payload: TelemetryIngestPayload,
    graph: Option<Seq<Node>>,
    threshold: ThresholdConfig,
    now: Seq<char>,
    before: Seq<BindingView>,
    after: Seq<BindingView>,
    report: IngestReport,
    first: int,
    k: int,
)
    requires
        registry::is_table(before),
        is_ingest(bound_rows(payload, graph, threshold, now), before, after, Ok(report)),
        0 <= first <= k < payload.metrics@.len(),
        payload.metrics@[first].metric_id@ == payload.metrics@[k].metric_id@,
        forall|i: int|
            0 <= i < first || k < i < payload.metrics@.len() ==> (
            #[trigger] payload.metrics@[i]).metric_id@ != payload.metrics@[k].metric_id@,
    ensures
        registry::lookup(
            after,
            payload.workspace_key@,
            payload.metrics@[k].metric_id@,
        ) matches Some(row) && {
            let metric = payload.metrics@[k];
            &&& row == registry::replaced(
                row,
                bound_row(payload.workspace_key@, graph, threshold, metric, now),
            )
            &&& registry::ranked(
                registry::of_node(after, payload.workspace_key@, canonical_id(graph, metric)),
            ).contains(row)
            &&& registry::ranked(
                registry::hotspots_of(after, payload.workspace_key@),
            ).contains(row) == threshold.judges(metric.p99_ms, metric.alloc_bytes_per_req)
        },
{
    let rows = bound_rows(payload, graph, threshold, now);
    let key = payload.workspace_key@;
    let metric = payload.metrics@[k];
    assert forall|i: int| 0 <= i < first || k < i < rows.len() implies !registry::has_key(
        #[trigger] rows[i],
        rows[k].workspace_key,
        rows[k].id,
    ) by {
        assert(payload.metrics@[i].metric_id@ != metric.metric_id@);
    }
    ingested_metric_is_found(before, rows, first, k);
    lemma_batch_is_table(before, rows);
    let at = registry::key_index(after, key, metric.metric_id@);
    assert(0 <= at < after.len() && registry::has_key(after[at], key, metric.metric_id@));
    assert(after.contains(after[at]));
    registry::queries_are_exact(after, key, canonical_id(graph, metric), after[at]);
}

/// A row that is there keeps its time of creation through a batch.
proof fn lemma_creation_is_kept(
    before: Seq<BindingView>,
    batch: Seq<BindingView>,
    workspace_key: Seq<char>,
    id: Seq<char>,
)
    requires
        registry::is_table(before),
        forall|i: int| 0 <= i < batch.len() ==> registry::storable(#[trigger] batch[i]),
    ensures
        registry::lookup(before, workspace_key, id) matches Some(stored) ==> (registry::lookup(
            registry::upserted_all(before, batch),
            workspace_key,
            id,
        ) matches Some(row) && row.created_at == stored.created_at),
    decreases batch.len(),
{
    if batch.len() > 0 {
        let head = batch.drop_last();
        let last = batch.last();
        let mid = registry::upserted_all(before, head);
        assert(forall|i: int| 0 <= i < head.len() ==> head[i] == batch[i]);
        assert(registry::storable(batch[batch.len() - 1]));
        lemma_batch_is_table(before, head);
        lemma_creation_is_kept(before, head, workspace_key, id);
        if registry::has_key(last, workspace_key, id) {
            registry::stored_row_is_found(mid, last);
        } else {
            registry::other_keys_are_kept(mid, last, workspace_key, id);
        }
    }
}

/// A key that is neither in the table nor in a batch is not there afterwards.
proof fn lemma_absent_key(
    before: Seq<BindingView>,
    batch: Seq<BindingView>,
    workspace_key: Seq<char>,
    id: Seq<char>,
)
    requires
        registry::is_table(before),
        forall|i: int|
            0 <= i < batch.len() ==> registry::storable(#[trigger] batch[i])
                && !registry::has_key(batch[i], workspace_key, id),
    ensures
        registry::lookup(registry::upserted_all(before, batch), workspace_key, id)
            == registry::lookup(before, workspace_key, id),
    decreases batch.len(),
{
    if batch.len() > 0 {
        let head = batch.drop_last();
        assert(forall|i: int| 0 <= i < head.len() ==> head[i] == batch[i]);
        assert(registry::storable(batch[batch.len() - 1]));
        lemma_batch_is_table(before, head);
        lemma_absent_key(before, head, workspace_key, id);
        registry::other_keys_are_kept(
            registry::upserted_all(before, head),
            batch.last(),
            workspace_key,
            id,
        );
    }
}

/// A key that was not in the table has the time of creation of the first row of
/// the batch that brought it.
proof fn lemma_first_creation(
    before: Seq<BindingView>,
    batch: Seq<BindingView>,
    first: int,
    workspace_key: Seq<char>,
    id: Seq<char>,
)
    requires
        registry::is_table(before),
        forall|i: int| 0 <= i < batch.len() ==> registry::storable(#[trigger] batch[i]),
        0 <= first < batch.len(),
        registry::has_key(batch[first], workspace_key, id),
        forall|i: int|
            0 <= i < first ==> !registry::has_key(#[trigger] batch[i], workspace_key, id),
    ensures
        registry::lookup(before, workspace_key, id) is None ==> (registry::lookup(
            registry::upserted_all(before, batch),
            workspace_key,
            id,
        ) matches Some(row) && row.created_at == batch[first].created_at),
    decreases batch.len(),
{
    let head = batch.drop_last();
    let last = batch.last();
    let mid = registry::upserted_all(before, head);
    assert(forall|i: int| 0 <= i < head.len() ==> head[i] == batch[i]);
    assert(registry::storable(batch[batch.len() - 1]));
    lemma_batch_is_table(before, head);
    if first == batch.len() - 1 {
        lemma_absent_key(before, head, workspace_key, id);
        registry::stored_row_is_found(mid, last);
    } else {
        lemma_first_creation(before, head, first, workspace_key, id);
        if registry::has_key(last, workspace_key, id) {
            registry::stored_row_is_found(mid, last);
        } else {
            registry::other_keys_are_kept(mid, last, workspace_key, id);
        }
    }
}

/// Taking in the same batch again gives the same report and changes nothing but the
/// time of the update: there are as many rows as before, each with its key at its
/// place and every other column as it was.
pub proof fn ingesting_again_changes_only_the_time(
    payload: TelemetryIngestPayload,
    graph: Option<Seq<Node>>,
    threshold: ThresholdConfig,
    now: Seq<char>,
    later: Seq<char>,
    before: Seq<BindingView>,
    after: Seq<BindingView>,
    report: IngestReport,
    again: Seq<BindingView>,
    r: Result<IngestReport, IngestError>,
)
    requires
        registry::is_table(before),
        is_ingest(bound_rows(payload, graph, threshold, now), before, after, Ok(report)),
        is_ingest(bound_rows(payload, graph, threshold, later), after, again, r),
    ensures
        r == Ok::<IngestReport, IngestError>(report),
        again.len() == after.len(),
        forall|i: int|
            0 <= i < after.len() ==> #[trigger] again[i] == (BindingView {
                updated_at: again[i].updated_at,
                ..after[i]
            }),
{
    let rows = bound_rows(payload, graph, threshold, now);
    let next = bound_rows(payload, graph, threshold, later);
    assert forall|i: int| 0 <= i < next.len() implies registry::storable(#[trigger] next[i]) by {
        assert(registry::storable(rows[i]));
    }
    assert(r is Ok);
    lemma_counts_ignore_the_time(rows, next);
    lemma_batch_is_table(before, rows);
    lemma_batch_is_table(after, next);
    assert forall|j: int| 0 <= j < next.len() implies registry::contains_key(
        after,
        (#[trigger] next[j]).workspace_key,
        next[j].id,
    ) by {
        lemma_batch_keys_are_there(before, rows, j);
        assert(rows[j].id == next[j].id);
    }
    lemma_known_batch_keeps_keys(after, next);
    assert forall|i: int| 0 <= i < after.len() implies #[trigger] again[i] == (BindingView {
        updated_at: again[i].updated_at,
        ..after[i]
    }) by {
        let key = after[i].workspace_key;
        let id = after[i].id;
        registry::lemma_key_index(after, i);
        registry::lemma_key_index(again, i);
        if registry::contains_key(next, key, id) {
            let k = last_with_key(next, key, id);
            let first = first_with_key(next, key, id);
            assert forall|j: int| 0 <= j < first || k < j < rows.len() implies !registry::has_key(
                #[trigger] rows[j],
                rows[k].workspace_key,
                rows[k].id,
            ) by {
                assert(!registry::has_key(next[j], key, id));
            }
            ingested_metric_is_found(before, rows, first, k);
            ingested_metric_is_found(after, next, first, k);
        } else {
            assert forall|j: int| 0 <= j < next.len() implies registry::storable(
                #[trigger] next[j],
            ) && !registry::has_key(next[j], key, id) by {}
            lemma_absent_key(after, next, key, id);
        }
    }
}

/// Rows that differ only in the time of the update are counted alike.
proof fn lemma_counts_ignore_the_time(a: Seq<BindingView>, b: Seq<BindingView>)
    requires
        a.len() == b.len(),
        forall|i: int|
            0 <= i < a.len() ==> (#[trigger] a[i]).canonical_node_id == b[i].canonical_node_id
                && a[i].is_hotspot == b[i].is_hotspot,
    ensures
        bound_of(a).len() == bound_of(b).len(),
        orphans_of(a).len() == orphans_of(b).len(),
        hot_of(a).len() == hot_of(b).len(),
    decreases a.len(),
{
    reveal(Seq::filter);
    if a.len() > 0 {
        assert(forall|i: int| 0 <= i < a.len() - 1 ==> a.drop_last()[i] == a[i]);
        assert(forall|i: int| 0 <= i < b.len() - 1 ==> b.drop_last()[i] == b[i]);
        assert(a[a.len() - 1].is_hotspot == b[b.len() - 1].is_hotspot);
        lemma_counts_ignore_the_time(a.drop_last(), b.drop_last());
    }
}

/// Every key of a batch is in the table afterwards.
proof fn lemma_batch_keys_are_there(before: Seq<BindingView>, batch: Seq<BindingView>, j: int)
    requires
        registry::is_table(before),
        forall|i: int| 0 <= i < batch.len() ==> registry::storable(#[trigger] batch[i]),
        0 <= j < batch.len(),
    ensures
        registry::contains_key(
            registry::upserted_all(before, batch),
            batch[j].workspace_key,
            batch[j].id,
        ),
    decreases batch.len(),
{
    let head = batch.drop_last();
    let mid = registry::upserted_all(before, head);
    assert(forall|i: int| 0 <= i < head.len() ==> head[i] == batch[i]);
    assert(registry::storable(batch[batch.len() - 1]));
    lemma_batch_is_table(before, head);
    registry::stored_row_is_found(mid, batch.last());
    if j < batch.len() - 1 {
        lemma_batch_keys_are_there(before, head, j);
        if !registry::has_key(batch.last(), batch[j].workspace_key, batch[j].id) {
            registry::other_keys_are_kept(
                mid,
                batch.last(),
                batch[j].workspace_key,
                batch[j].id,
            );
        }
    }
}

/// A batch whose keys are all known leaves every key at its place.
proof fn lemma_known_batch_keeps_keys(rows: Seq<BindingView>, batch: Seq<BindingView>)
    requires
        forall|j: int|
            0 <= j < batch.len() ==> registry::contains_key(
                rows,
                (#[trigger] batch[j]).workspace_key,
                batch[j].id,
            ),
    ensures
        registry::upserted_all(rows, batch).len() == rows.len(),
        forall|i: int|
            0 <= i < rows.len() ==> registry::has_key(
                #[trigger] registry::upserted_all(rows, batch)[i],
                rows[i].workspace_key,
                rows[i].id,
            ),
    decreases batch.len(),
{
    if batch.len() > 0 {
        let head = batch.drop_last();
        let last = batch.last();
        assert(forall|i: int| 0 <= i < head.len() ==> head[i] == batch[i]);
        lemma_known_batch_keeps_keys(rows, head);
        let mid = registry::upserted_all(rows, head);
        assert(registry::contains_key(rows, batch[batch.len() - 1].workspace_key, last.id));
        let known = registry::key_index(rows, last.workspace_key, last.id);
        assert(0 <= known < rows.len() && registry::has_key(
            rows[known],
            last.workspace_key,
            last.id,
        ));
        assert(registry::has_key(mid[known], last.workspace_key, last.id));
        let at = registry::key_index(mid, last.workspace_key, last.id);
        assert(0 <= at < mid.len() && registry::has_key(mid[at], last.workspace_key, last.id));
        assert(registry::has_key(mid[at], rows[at].workspace_key, rows[at].id));
    }
}

/// Where a key stands last in a batch.
proof fn last_with_key(
    batch: Seq<BindingView>,
    workspace_key: Seq<char>,
    id: Seq<char>,
) -> (k: int)
    requires
        registry::contains_key(batch, workspace_key, id),
    ensures
        0 <= k < batch.len(),
        registry::has_key(batch[k], workspace_key, id),
        forall|i: int|
            k < i < batch.len() ==> !registry::has_key(#[trigger] batch[i], workspace_key, id),
    decreases batch.len(),
{
    if registry::has_key(batch.last(), workspace_key, id) {
        batch.len() - 1
    } else {
        let head = batch.drop_last();
        let i = registry::key_index(batch, workspace_key, id);
        assert(0 <= i < batch.len() && registry::has_key(batch[i], workspace_key, id));
        assert(registry::has_key(head[i], workspace_key, id));
        let k = last_with_key(head, workspace_key, id);
        assert forall|j: int| k < j < batch.len() implies !registry::has_key(
            #[trigger] batch[j],
            workspace_key,
            id,
        ) by {
            if j < head.len() {
                assert(!registry::has_key(head[j], workspace_key, id));
            }
        }
        k
    }
}

/// Where a key stands first in a batch.
proof fn first_with_key(
    batch: Seq<BindingView>,
    workspace_key: Seq<char>,
    id: Seq<char>,
) -> (k: int)
    requires
        registry::contains_key(batch, workspace_key, id),
    ensures
        0 <= k < batch.len(),
        registry::has_key(batch[k], workspace_key, id),
        forall|i: int| 0 <= i < k ==> !registry::has_key(#[trigger] batch[i], workspace_key, id),
    decreases batch.len(),
{
    let head = batch.drop_last();
    if registry::contains_key(head, workspace_key, id) {
        let k = first_with_key(head, workspace_key, id);
        assert forall|j: int| 0 <= j < k implies !registry::has_key(
            #[trigger] batch[j],
            workspace_key,
            id,
        ) by {
            assert(!registry::has_key(head[j], workspace_key, id));
        }
        k
    } else {
        let i = registry::key_index(batch, workspace_key, id);
        assert(0 <= i < batch.len() && registry::has_key(batch[i], workspace_key, id));
        assert forall|j: int| 0 <= j < batch.len() - 1 implies !registry::has_key(
            #[trigger] batch[j],
            workspace_key,
            id,
        ) by {
            assert(!registry::has_key(head[j], workspace_key, id));
        }
        batch.len() - 1
    }
}

/// Taking in a batch changes nothing in any workspace but the one that the batch
/// names.
pub proof fn ingest_keeps_other_workspaces(
    payload: TelemetryIngestPayload,
    graph: Option<Seq<Node>>,
    threshold: ThresholdConfig,
    now: Seq<char>,
    before: Seq<BindingView>,
    after: Seq<BindingView>,
    r: Result<IngestReport, IngestError>,
    workspace_key: Seq<char>,
    node_id: Seq<char>,
)
    requires
        is_ingest(bound_rows(payload, graph, threshold, now), before, after, r),
        payload.workspace_key@ != workspace_key,
    ensures
        registry::of_workspace(after, workspace_key) == registry::of_workspace(
            before,
            workspace_key,
        ),
        registry::of_node(after, workspace_key, node_id) == registry::of_node(
            before,
            workspace_key,
            node_id,
        ),
        registry::hotspots_of(after, workspace_key) == registry::hotspots_of(
            before,
            workspace_key,
        ),
{
    let rows = bound_rows(payload, graph, threshold, now);
    match r {
        Ok(_) => {
            lemma_batch_elsewhere(before, rows, workspace_key, node_id);
        },
        Err(_) => {
            let k = choose|k: int|
                0 <= k < rows.len() && registry::store_error(#[trigger] rows[k]) is Some && after
                    == registry::upserted_all(before, rows.take(k));
            lemma_batch_elsewhere(before, rows.take(k), workspace_key, node_id);
        },
    }
}

/// Storing a batch of other workspaces leaves a workspace as it was.
proof fn lemma_batch_elsewhere(
    before: Seq<BindingView>,
    batch: Seq<BindingView>,
    workspace_key: Seq<char>,
    node_id: Seq<char>,
)
    requires
        forall|i: int|
            0 <= i < batch.len() ==> (#[trigger] batch[i]).workspace_key != workspace_key,
    ensures
        registry::of_workspace(registry::upserted_all(before, batch), workspace_key)
            == registry::of_workspace(before, workspace_key),
        registry::of_node(registry::upserted_all(before, batch), workspace_key, node_id)
            == registry::of_node(before, workspace_key, node_id),
        registry::hotspots_of(registry::upserted_all(before, batch), workspace_key)
            == registry::hotspots_of(before, workspace_key),
    decreases batch.len(),
{
    if batch.len() > 0 {
        let head = batch.drop_last();
        assert(forall|i: int| 0 <= i < head.len() ==> head[i] == batch[i]);
        assert(batch[batch.len() - 1].workspace_key != workspace_key);
        lemma_batch_elsewhere(before, head, workspace_key, node_id);
        registry::other_workspaces_are_kept(
            registry::upserted_all(before, head),
            batch.last(),
            workspace_key,
            node_id,
        );
    }
}

/// Either limit is enough: a p99 above its limit makes a hotspot whatever is allocated,
/// an allocation above its limit makes one whatever the p99 is, and a metric within
/// both limits is none. A p99 or a limit that is no number is never above or exceeded.
pub proof fn either_limit_makes_a_hotspot(limits: ThresholdConfig, p99_ms: Millis, alloc_bytes: i64)
    ensures
        !p99_ms.is_nan_spec() && !limits.p99_ms.is_nan_spec() && p99_ms.units()
            > limits.p99_ms.units() ==> limits.judges(p99_ms, alloc_bytes),
        alloc_bytes > limits.alloc_bytes ==> limits.judges(p99_ms, alloc_bytes),
        alloc_bytes <= limits.alloc_bytes && (p99_ms.is_nan_spec() || limits.p99_ms.is_nan_spec()
            || p99_ms.units() <= limits.p99_ms.units()) ==> !limits.judges(p99_ms, alloc_bytes),
{
}

/// There is a row for each metric of a batch, in order, with every field of the metric
/// in the column of that name, in the workspace of the batch.
pub proof fn each_metric_has_its_row(
    payload: TelemetryIngestPayload,
    graph: Option<Seq<Node>>,
    limits: ThresholdConfig,
    now: Seq<char>,
    i: int,
)
    requires
        0 <= i < payload.metrics@.len(),
    ensures
        bound_rows(payload, graph, limits, now).len() == payload.metrics@.len(),
        ({
            let row = bound_rows(payload, graph, limits, now)[i];
            let metric = payload.metrics@[i];
            let slow = !metric.p99_ms.is_nan_spec() && !limits.p99_ms.is_nan_spec()
                && metric.p99_ms.units() > limits.p99_ms.units();
            &&& row.workspace_key == payload.workspace_key@
            &&& row.id == metric.metric_id@
            &&& row.file_path == metric.file_path@
            &&& row.function_name == metric.function_name@
            &&& row.p50_ms == metric.p50_ms
            &&& row.p99_ms == metric.p99_ms
            &&& row.alloc_bytes == metric.alloc_bytes_per_req
            &&& row.call_count == metric.call_count_per_min
            &&& row.is_hotspot <==> slow || metric.alloc_bytes_per_req > limits.alloc_bytes
            &&& row.environment == metric.environment@
            &&& row.created_at == metric.recorded_at@
            &&& row.updated_at == now
            &&& graph is None ==> row.canonical_node_id.len() == 0
            &&& graph matches Some(nodes) ==> match resolver::line_symbol(
                nodes,
                metric.file_path@,
                metric.line_number as int,
            ) {
                Some(id) => row.canonical_node_id == id,
                None => row.canonical_node_id.len() == 0,
            }
        }),
{
}

/// After a batch was taken in, the row under the id of a metric, the last one of the
/// batch with that id, has each column equal to the field of that metric, the latencies
/// as numbers. The time of creation is the one that was stored, or else that of the
/// first metric with that id; the time of the update is that of the call.
pub proof fn stored_row_has_the_fields_of_its_metric(
    payload: TelemetryIngestPayload,
    graph: Option<Seq<Node>>,
    limits: ThresholdConfig,
    now: Seq<char>,
    before: Seq<BindingView>,
    after: Seq<BindingView>,
    report: IngestReport,
    first: int,
    k: int,
)
    requires
        registry::is_table(before),
        is_ingest(bound_rows(payload, graph, limits, now), before, after, Ok(report)),
        0 <= first <= k < payload.metrics@.len(),
        payload.metrics@[first].metric_id@ == payload.metrics@[k].metric_id@,
        forall|i: int|
            0 <= i < first || k < i < payload.metrics@.len() ==> (
            #[trigger] payload.metrics@[i]).metric_id@ != payload.metrics@[k].metric_id@,
    ensures
        registry::lookup(
            after,
            payload.workspace_key@,
            payload.metrics@[k].metric_id@,
        ) matches Some(row) && {
            let metric = payload.metrics@[k];
            let slow = !limits.p99_ms.is_nan_spec() && metric.p99_ms.units()
                > limits.p99_ms.units();
            &&& row.workspace_key == payload.workspace_key@
            &&& row.id == metric.metric_id@
            &&& row.file_path == metric.file_path@
            &&& row.function_name == metric.function_name@
            &&& row.p50_ms.units() == metric.p50_ms.units()
            &&& row.p99_ms.units() == metric.p99_ms.units()
            &&& row.alloc_bytes == metric.alloc_bytes_per_req
            &&& row.call_count == metric.call_count_per_min
            &&& row.is_hotspot <==> slow || metric.alloc_bytes_per_req > limits.alloc_bytes
            &&& row.environment == metric.environment@
            &&& row.updated_at == now
            &&& row.created_at == match registry::lookup(
                before,
                payload.workspace_key@,
                metric.metric_id@,
            ) {
                Some(stored) => stored.created_at,
                None => payload.metrics@[first].recorded_at@,
            }
            &&& graph is None ==> row.canonical_node_id.len() == 0
            &&& graph matches Some(nodes) ==> match resolver::line_symbol(
                nodes,
                metric.file_path@,
                metric.line_number as int,
            ) {
                Some(id) => row.canonical_node_id == id,
                None => row.canonical_node_id.len() == 0,
            }
        },
{
    let rows = bound_rows(payload, graph, limits, now);
    assert forall|i: int| 0 <= i < first || k < i < rows.len() implies !registry::has_key(
        #[trigger] rows[i],
        rows[k].workspace_key,
        rows[k].id,
    ) by {
        assert(payload.metrics@[i].metric_id@ != payload.metrics@[k].metric_id@);
    }
    assert(registry::storable(rows[k]));
    ingested_metric_is_found(before, rows, first, k);
}

/// A batch is taken in exactly where every latency in it is a number. Otherwise the
/// first metric without one decides the error, and the rows before it are stored.
pub proof fn ingest_stops_at_the_first_metric_without_a_number(
    payload: TelemetryIngestPayload,
    graph: Option<Seq<Node>>,
    limits: ThresholdConfig,
    now: Seq<char>,
    before: Seq<BindingView>,
    after: Seq<BindingView>,
    r: Result<IngestReport, IngestError>,
)
    requires
        is_ingest(bound_rows(payload, graph, limits, now), before, after, r),
    ensures
        r is Ok <==> forall|i: int|
            0 <= i < payload.metrics@.len() ==> !(
            #[trigger] payload.metrics@[i]).p50_ms.is_nan_spec()
                && !payload.metrics@[i].p99_ms.is_nan_spec(),
        r matches Ok(report) ==> {
            &&& after == registry::upserted_all(before, bound_rows(payload, graph, limits, now))
            &&& reports(report, bound_rows(payload, graph, limits, now))
            &&& report.total == payload.metrics@.len()
        },
        r matches Err(e) ==> exists|k: int|
            {
                &&& 0 <= k < payload.metrics@.len()
                &&& (#[trigger] payload.metrics@[k]).p50_ms.is_nan_spec() ==> e
                    == IngestError::Db(registry::DbError::P50NotNull)
                &&& !payload.metrics@[k].p50_ms.is_nan_spec() ==> payload.metrics@[
                k].p99_ms.is_nan_spec() && e == IngestError::Db(registry::DbError::P99NotNull)
                &&& forall|i: int|
                    0 <= i < k ==> !(#[trigger] payload.metrics@[i]).p50_ms.is_nan_spec()
                        && !payload.metrics@[i].p99_ms.is_nan_spec()
                &&& after == registry::upserted_all(
                    before,
                    bound_rows(payload, graph, limits, now).take(k),
                )
            },
{
    let rows = bound_rows(payload, graph, limits, now);
    match r {
        Ok(report) => {
            assert forall|i: int| 0 <= i < payload.metrics@.len() implies !(
            #[trigger] payload.metrics@[i]).p50_ms.is_nan_spec()
                && !payload.metrics@[i].p99_ms.is_nan_spec() by {
                assert(registry::storable(rows[i]));
            }
        },
        Err(e) => {
            let k = choose|k: int|
                {
                    &&& 0 <= k < rows.len()
                    &&& registry::store_error(#[trigger] rows[k]) matches Some(cause) && e
                        == IngestError::Db(cause)
                    &&& forall|i: int| 0 <= i < k ==> registry::storable(#[trigger] rows[i])
                    &&& after == registry::upserted_all(before, rows.take(k))
                };
            let metric = payload.metrics@[k];
            assert(metric.p50_ms.is_nan_spec() || metric.p99_ms.is_nan_spec());
            assert forall|i: int| 0 <= i < k implies !(
            #[trigger] payload.metrics@[i]).p50_ms.is_nan_spec()
                && !payload.metrics@[i].p99_ms.is_nan_spec() by {
                assert(registry::storable(rows[i]));
            }
        },
    }
}

/// Taking in a batch leaves every row whose key is not in it as it was.
pub proof fn ingest_keeps_rows_of_other_metrics(
    payload: TelemetryIngestPayload,
    graph: Option<Seq<Node>>,
    limits: ThresholdConfig,
    now: Seq<char>,
    before: Seq<BindingView>,
    after: Seq<BindingView>,
    report: IngestReport,
    workspace_key: Seq<char>,
    id: Seq<char>,
)
    requires
        registry::is_table(before),
        is_ingest(bound_rows(payload, graph, limits, now), before, after, Ok(report)),
        workspace_key != payload.workspace_key@ || forall|i: int|
            0 <= i < payload.metrics@.len() ==> (#[trigger] payload.metrics@[i]).metric_id@ != id,
    ensures
        registry::lookup(after, workspace_key, id) == registry::lookup(before, workspace_key, id),
{
    let rows = bound_rows(payload, graph, limits, now);
    assert forall|i: int| 0 <= i < rows.len() implies registry::storable(#[trigger] rows[i])
        && !registry::has_key(rows[i], workspace_key, id) by {
        assert(payload.metrics@[i].metric_id@ == rows[i].id);
    }
    lemma_absent_key(before, rows, workspace_key, id);
}

/// Every row is counted, however many there are: one more adds one to the total, one to
/// those bound or to the orphans, and one to the hotspots where it is one.
pub proof fn reports_count_every_row(
    rows: Seq<BindingView>,
    row: BindingView,
    nothing: IngestReport,
    one_less: IngestReport,
    report: IngestReport,
)
    requires
        reports(nothing, Seq::empty()),
        reports(one_less, rows),
        reports(report, rows.push(row)),
    ensures
        nothing.total == 0 && nothing.bound == 0 && nothing.orphan == 0 && nothing.hotspots == 0,
        report.total == one_less.total + 1,
        row.canonical_node_id.len() > 0 ==> report.bound == one_less.bound + 1 && report.orphan
            == one_less.orphan,
        row.canonical_node_id.len() == 0 ==> report.bound == one_less.bound && report.orphan
            == one_less.orphan + 1,
        row.is_hotspot ==> report.hotspots == one_less.hotspots + 1,
        !row.is_hotspot ==> report.hotspots == one_less.hotspots,
{
    reveal(Seq::filter);
    assert(rows.push(row).drop_last() =~= rows);
}

/// All hotspots of a workspace are shown, by falling p99, each with the fields of its
/// row.
pub proof fn every_hotspot_is_shown(rows: Seq<BindingView>, workspace_key: Seq<char>)
    requires
        registry::is_table(rows),
    ensures
        shown_hotspots(rows, workspace_key).len() == registry::hotspots_of(
            rows,
            workspace_key,
        ).len(),
        forall|i: int|
            0 <= i < registry::hotspots_of(rows, workspace_key).len() ==> {
                let row = registry::ranked(registry::hotspots_of(rows, workspace_key))[i];
                let h = #[trigger] shown_hotspots(rows, workspace_key)[i];
                &&& h.node_id == row.canonical_node_id
                &&& h.p99_ms == row.p99_ms
                &&& h.alloc_bytes == row.alloc_bytes
                &&& h.call_count == row.call_count
                &&& h.environment == row.environment
            },
{
    registry::hotspots_are_rows_of_the_workspace(rows, workspace_key);
}

/// A summary has the two counts, the id of the plugin, the block and the workspace, and
/// nothing else.
pub proof fn summary_has_its_members(
    workspace_key: Seq<char>,
    bindings: nat,
    hotspots: nat,
    block: Seq<char>,
)
    ensures
        summary_view(workspace_key, bindings, hotspots, block) matches JsonView::Object(outer) && {
            &&& outer.len() == 1
            &&& outer[0].0 == "telemetry"@
            &&& outer[0].1 matches JsonView::Object(members) && {
                &&& members.len() == 5
                &&& members[0] == ("bindings"@, JsonView::Number(text::decimal(bindings)))
                &&& members[1] == ("hotspots"@, JsonView::Number(text::decimal(hotspots)))
                &&& members[2] == ("plugin"@, JsonView::Text(crate::PLUGIN_ID@))
                &&& members[3] == ("toon_block"@, JsonView::Text(block))
                &&& members[4] == ("workspace_key"@, JsonView::Text(workspace_key))
            }
        },
{
}

/// The summary counts all rows and all hotspots of the workspace and shows all of the
/// latter; without a table it is that of no rows.
pub proof fn summary_counts_the_whole_workspace(rows: Seq<BindingView>, workspace_key: Seq<char>)
    ensures
        summary_of(Some(rows), workspace_key) == summary_view(
            workspace_key,
            registry::of_workspace(rows, workspace_key).len(),
            registry::hotspots_of(rows, workspace_key).len(),
            sync::hotspot_block(shown_hotspots(rows, workspace_key)),
        ),
        summary_of(None, workspace_key) == summary_view(workspace_key, 0, 0, Seq::empty()),
        summary_of(None, workspace_key) == summary_of(Some(Seq::empty()), workspace_key),
        forall|n: usize| #[trigger] count_or_zero(Some(n)) == n,
        count_or_zero(None) == 0,
{
    reveal(Seq::filter);
    assert(registry::hotspots_of(Seq::empty(), workspace_key) =~= Seq::<BindingView>::empty());
    assert(registry::of_workspace(Seq::empty(), workspace_key) =~= Seq::<BindingView>::empty());
    assert(registry::ranked(Seq::empty()) =~= Seq::<BindingView>::empty());
    assert(shown_hotspots(Seq::empty(), workspace_key) =~= Seq::<sync::Shown>::empty());
}

/// The answer to a sync is the packet with the summary of the table, and an error packet
/// where the text that came in was broken.
pub proof fn sync_answers_with_the_summary(
    rows: Option<Seq<BindingView>>,
    workspace_key: Seq<char>,
    summary: JsonView,
)
    ensures
        packet_bytes(false, workspace_key, summary) == vstd::utf8::encode_utf8(
            sync::packet(workspace_key, json::written(summary)),
        ),
        packet_bytes(true, workspace_key, summary) == vstd::utf8::encode_utf8(
            sync::error_packet("Cannot parse .toon into GraphOutput."@),
        ),
        sync_answer(false, rows, workspace_key) == packet_bytes(
            false,
            workspace_key,
            summary_of(rows, workspace_key),
        ),
        sync_answer(true, rows, workspace_key) == packet_bytes(true, workspace_key, summary),
{
}

/// The rows of a table that is there are all of its rows.
pub proof fn table_rows_are_all_there(db: &TelemetryDb)
    ensures
        rows_of(Some(db)) == Some(db@),
        rows_of(None) is None,
{
}

/// Two services are set up alike exactly where limits, database and client are the same.
pub proof fn same_setup_is_all_of_it(a: &TelemetryService, b: &TelemetryService)
    ensures
        a.same_setup(b) <==> a.limits() == b.limits() && a.db_path() == b.db_path() && a.client()
            == b.client(),
{
}

/// Limits are equal exactly where both are, the latencies as numbers.
pub proof fn limits_are_equal_as_numbers(a: ThresholdConfig, b: ThresholdConfig)
    ensures
        vstd::std_specs::cmp::PartialEqSpec::eq_spec(&a, &b) <==> !a.p99_ms.is_nan_spec()
            && !b.p99_ms.is_nan_spec() && a.p99_ms.units() == b.p99_ms.units() && a.alloc_bytes
            == b.alloc_bytes,
{
}

} // verus!
