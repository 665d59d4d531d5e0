use graphify_plugin_telemetry::draco_client::DracoError;
use graphify_plugin_telemetry::graph::{GraphOutput, Node, NodeId};
use graphify_plugin_telemetry::ingest::{IngestError, Metric, TelemetryIngestPayload};
use graphify_plugin_telemetry::json::Json;
use graphify_plugin_telemetry::millis::Millis;
use graphify_plugin_telemetry::registry::{DbError, TelemetryDb};
use graphify_plugin_telemetry::settings::EnvVars;
use graphify_plugin_telemetry::telemetry::{
    IngestReport, TelemetryService, ThresholdConfig, ToonError,
};

const NOW: &str = "2026-08-10T07:00:00Z";

fn ms(x: f64) -> Millis {
    Millis::from_bits(x.to_bits())
}

fn service_with_tmp_db() -> (TelemetryDb, TelemetryService) {
    let svc = TelemetryService::new(&EnvVars::unset()).with_draco_url("http://127.0.0.1:1/mcp");
    (TelemetryDb::new(), svc)
}

fn query_graph() -> GraphOutput {
    GraphOutput {
        nodes: vec![Node {
            id: NodeId("src/db/query.rs:function:query_users".to_string()),
            kind: "function".to_string(),
            source_file: "src/db/query.rs".to_string(),
            start_line: 80,
            end_line: 120,
        }],
    }
}

fn feed_graph(svc: &mut TelemetryService) {
    let _ = svc.sync_toon(Some(Ok(query_graph())), None);
}

fn metric(id: &str, p99: f64, alloc: i64) -> Metric {
    Metric {
        metric_id: id.to_string(),
        file_path: "src/db/query.rs".to_string(),
        function_name: "query_users".to_string(),
        line_number: 88,
        p50_ms: ms(12.5),
        p99_ms: ms(p99),
        alloc_bytes_per_req: alloc,
        call_count_per_min: 5000,
        environment: "production".to_string(),
        recorded_at: "2026-08-10T06:00:00Z".to_string(),
    }
}

fn payload(ws: &str, metrics: Vec<Metric>) -> TelemetryIngestPayload {
    TelemetryIngestPayload {
        version: "1.0".to_string(),
        source: "draco-mcp".to_string(),
        workspace_key: ws.to_string(),
        metrics,
    }
}

fn summary_field<'a>(doc: &'a Json, key: &str) -> &'a Json {
    doc.get("telemetry").unwrap().get(key).unwrap()
}

#[test]
fn hotspot_thresholds() {
    let def = ThresholdConfig::default();
    assert_eq!(f64::from_bits(def.p99_ms.to_bits()), 500.0);
    assert_eq!(def.alloc_bytes, 5 * 1024 * 1024);
    assert!(!def.is_hotspot(ms(100.0), 1024));
    assert!(def.is_hotspot(ms(501.0), 1024), "p99 over 500ms");
    assert!(!def.is_hotspot(ms(500.0), 1024), "p99 must exceed 500ms");
    assert!(def.is_hotspot(ms(100.0), 5 * 1024 * 1024 + 1), "alloc over 5MB");
    assert!(!def.is_hotspot(ms(100.0), 5 * 1024 * 1024), "alloc must exceed 5MB");

    let custom = ThresholdConfig { p99_ms: ms(1000.0), alloc_bytes: 1024 };
    assert!(!custom.is_hotspot(ms(600.0), 1024), "600ms is below 1000ms");
    assert!(custom.is_hotspot(ms(100.0), 2048), "alloc over 1KB");
}

#[test]
fn ingest_respects_custom_threshold() {
    let (mut db, mut svc) = service_with_tmp_db();
    svc = svc.with_threshold(ThresholdConfig { p99_ms: ms(1000.0), alloc_bytes: 1024 });
    feed_graph(&mut svc);
    let report = svc
        .telemetry_ingest(&payload("w-1", vec![metric("tel-1", 600.0, 1024)]), &mut db, NOW)
        .unwrap();
    assert_eq!(report, IngestReport { total: 1, bound: 1, orphan: 0, hotspots: 0 });
    let report = svc
        .telemetry_ingest(&payload("w-1", vec![metric("tel-2", 100.0, 2048)]), &mut db, NOW)
        .unwrap();
    assert_eq!(report, IngestReport { total: 1, bound: 1, orphan: 0, hotspots: 1 });
}

#[test]
fn ingest_binds_and_queries_context() {
    let (mut db, mut svc) = service_with_tmp_db();
    feed_graph(&mut svc);
    let report = svc
        .telemetry_ingest(&payload("w-1", vec![metric("tel-1", 1250.0, 1024)]), &mut db, NOW)
        .unwrap();
    assert_eq!(report, IngestReport { total: 1, bound: 1, orphan: 0, hotspots: 1 });

    let (node, rows) =
        svc.telemetry_get_context(&db, "w-1", "src/db/query.rs:function:query_users", true);
    assert_eq!(node, "src/db/query.rs:function:query_users");
    assert_eq!(rows.len(), 1);
    assert_eq!(rows[0].id, "tel-1");
    assert!(rows[0].is_hotspot);
    assert_eq!(f64::from_bits(rows[0].p99_ms.to_bits()), 1250.0);
}

#[test]
fn non_hotspot_metric_not_in_summary() {
    let (mut db, mut svc) = service_with_tmp_db();
    svc.set_workspace_key("w-1".to_string());
    feed_graph(&mut svc);
    svc.telemetry_ingest(&payload("w-1", vec![metric("tel-2", 12.5, 1024)]), &mut db, NOW)
        .unwrap();
    let summary = svc.summary_json(Some(&db));
    assert_eq!(summary_field(&summary, "bindings"), &Json::Number("1".to_string()));
    assert_eq!(summary_field(&summary, "hotspots"), &Json::Number("0".to_string()));
    assert_eq!(summary_field(&summary, "toon_block"), &Json::Text("".to_string()));
    assert!(svc.hotspots(&db).is_empty());
}

#[test]
fn hotspot_synthesized_into_toon_block() {
    let (mut db, mut svc) = service_with_tmp_db();
    svc.set_workspace_key("w-1".to_string());
    feed_graph(&mut svc);
    svc.telemetry_ingest(
        &payload("w-1", vec![metric("tel-3", 2450.0, 1024 * 1024 * 15)]),
        &mut db,
        NOW,
    )
    .unwrap();
    let summary = svc.summary_json(Some(&db));
    let block = summary_field(&summary, "toon_block").as_text().unwrap();
    assert!(block.contains("[src/db/query.rs:function:query_users (AST Node)]"));
    assert!(block.contains("⚡ [Draco Telemetry] p99 Latency: 2,450ms (CRITICAL HOTSPOT)"));
    assert!(block.contains("📊 Alloc: 15.0MB | Calls: 5,000/min (prod)"));
}

#[test]
fn ingest_orphan_line_not_binding() {
    let (mut db, svc) = service_with_tmp_db();
    let mut m = metric("tel-4", 1250.0, 1024);
    m.file_path = "src/missing.rs".to_string();
    let report = svc.telemetry_ingest(&payload("w-1", vec![m]), &mut db, NOW).unwrap();
    assert_eq!(report.orphan, 1);
    assert_eq!(report.bound, 0);
    // An orphan is stored, under the empty id.
    let (_, rows) = svc.telemetry_get_context(&db, "w-1", "", true);
    assert_eq!(rows.len(), 1);
}

#[test]
fn telemetry_sync_toon_none_does_not_panic() {
    let (db, mut svc) = service_with_tmp_db();
    svc.set_workspace_key("w-9".to_string());
    let out = svc.sync_toon(None, Some(&db));
    assert!(String::from_utf8_lossy(&out).contains("workspace_key"));
}

#[test]
fn sync_toon_garbage_is_lenient_and_caches_empty_graph() {
    // The lenient reader of the host makes an empty graph of `not-a-toon`.
    let (db, mut svc) = service_with_tmp_db();
    let out = svc.sync_toon(Some(Ok(GraphOutput { nodes: Vec::new() })), Some(&db));
    let text = String::from_utf8_lossy(&out);
    assert!(text.contains("workspace_key"), "summary packet expected: {text}");
    let g = svc.graph().expect("garbage toon caches an empty graph");
    assert!(g.nodes.is_empty());
}

#[test]
fn broken_toon_keeps_the_cache() {
    let (db, mut svc) = service_with_tmp_db();
    feed_graph(&mut svc);
    let out = svc.sync_toon(Some(Err(ToonError)), Some(&db));
    assert_eq!(
        String::from_utf8(out).unwrap(),
        "metadata:\n  error: Cannot parse .toon into GraphOutput.\n"
    );
    assert_eq!(svc.graph().unwrap(), query_graph());
}

#[test]
fn packet_text_is_exact() {
    let (mut db, mut svc) = service_with_tmp_db();
    svc.set_workspace_key("w-1".to_string());
    let out = svc.sync_toon(None, None);
    assert_eq!(
        String::from_utf8(out).unwrap(),
        "metadata:\n  workspace_key: w-1\nplugin_data: {\"telemetry\":{\"bindings\":0,\"hotspots\":0,\"plugin\":\"graphify-plugin-telemetry\",\"toon_block\":\"\",\"workspace_key\":\"w-1\"}}\n"
    );
    feed_graph(&mut svc);
    svc.telemetry_ingest(&payload("w-1", vec![metric("a", 600.0, 0)]), &mut db, NOW).unwrap();
    let text = String::from_utf8(svc.sync_toon(None, Some(&db))).unwrap();
    let data = text.split("plugin_data: ").nth(1).unwrap();
    let doc = Json::from_text(data).unwrap();
    assert_eq!(doc, svc.summary_json(Some(&db)));
    assert_eq!(
        summary_field(&doc, "toon_block").as_text().unwrap(),
        "[src/db/query.rs:function:query_users (AST Node)]\n ├── ⚡ [Draco Telemetry] p99 Latency: 600ms (CRITICAL HOTSPOT)\n └── 📊 Alloc: 0.0MB | Calls: 5,000/min (prod)\n"
    );
}

#[test]
fn threshold_comes_from_the_environment() {
    let mut env = EnvVars::unset();
    let c = ThresholdConfig::from_env(&env);
    assert_eq!(c, ThresholdConfig::default());
    env.hotspot_p99_ms = Some(ms(750.5));
    env.hotspot_alloc_bytes = Some(" 1024\n".to_string());
    let c = ThresholdConfig::from_env(&env);
    assert_eq!(c, ThresholdConfig { p99_ms: ms(750.5), alloc_bytes: 1024 });
    env.hotspot_alloc_bytes = Some("lots".to_string());
    assert_eq!(ThresholdConfig::from_env(&env).alloc_bytes, 5_242_880);
    // A limit that is no number is never exceeded.
    env.hotspot_p99_ms = Some(ms(f64::NAN));
    let c = ThresholdConfig::from_env(&env);
    assert!(!c.is_hotspot(ms(f64::INFINITY), 0));
    assert!(c.is_hotspot(ms(0.0), i64::MAX));
    assert!(!ThresholdConfig::default().is_hotspot(ms(f64::NAN), 0));
}

#[test]
fn report_counts_add_up() {
    let (mut db, mut svc) = service_with_tmp_db();
    feed_graph(&mut svc);
    let mut stray = metric("c", 1.0, 6_000_000);
    stray.line_number = 121;
    let batch =
        payload("w-1", vec![metric("a", 600.0, 0), metric("b", 1.0, 0), stray, metric("a", 1.0, 0)]);
    let report = svc.telemetry_ingest(&batch, &mut db, NOW).unwrap();
    assert_eq!(report, IngestReport { total: 4, bound: 3, orphan: 1, hotspots: 2 });
    assert_eq!(report.bound + report.orphan, report.total);
    assert_eq!(db.count("w-1"), 3);
    assert_eq!(db.count_hotspots("w-1"), 1);
}

#[test]
fn last_metric_of_an_id_is_read_back() {
    let (mut db, mut svc) = service_with_tmp_db();
    feed_graph(&mut svc);
    let mut again = metric("a", 2.0, 7);
    again.recorded_at = "2026-08-10T06:30:00Z".to_string();
    svc.telemetry_ingest(&payload("w-1", vec![metric("a", 600.0, 0), again]), &mut db, NOW)
        .unwrap();
    let row = db.get("w-1", "a").unwrap();
    assert_eq!(row.p99_ms, ms(2.0));
    assert_eq!(row.alloc_bytes, 7);
    assert_eq!(row.created_at, "2026-08-10T06:00:00Z");
    assert_eq!(row.updated_at, NOW);
    assert!(!row.is_hotspot);
    let (_, rows) =
        svc.telemetry_get_context(&db, "w-1", "src/db/query.rs:function:query_users", false);
    assert_eq!(rows, vec![row]);
}

#[test]
fn ingest_leaves_other_workspaces_alone() {
    let (mut db, svc) = service_with_tmp_db();
    svc.telemetry_ingest(&payload("w-1", vec![metric("a", 600.0, 0)]), &mut db, NOW).unwrap();
    let before = db.get("w-1", "a");
    svc.telemetry_ingest(&payload("w-2", vec![metric("a", 1.0, 0)]), &mut db, NOW).unwrap();
    assert_eq!(db.get("w-1", "a"), before);
    assert_eq!(db.count("w-1"), 1);
    assert_eq!(db.count("w-2"), 1);
}

#[test]
fn ingest_stops_at_a_metric_that_cannot_be_stored() {
    let (mut db, svc) = service_with_tmp_db();
    let mut bad = metric("b", f64::NAN, 0);
    let batch = payload("w-1", vec![metric("a", 1.0, 0), bad.clone(), metric("c", 1.0, 0)]);
    assert_eq!(
        svc.telemetry_ingest(&batch, &mut db, NOW),
        Err(IngestError::Db(DbError::P99NotNull))
    );
    assert_eq!(db.count("w-1"), 1);
    assert!(db.get("w-1", "a").is_some());
    bad.p50_ms = ms(f64::NAN);
    assert_eq!(
        svc.telemetry_ingest(&payload("w-1", vec![bad]), &mut db, NOW),
        Err(IngestError::Db(DbError::P50NotNull))
    );
}

#[test]
fn draco_metrics_are_taken_in_or_the_error_comes_back() {
    let (mut db, mut svc) = service_with_tmp_db();
    feed_graph(&mut svc);
    assert_eq!(
        svc.telemetry_ingest_draco(Err(DracoError::NotInitialized), &mut db, NOW),
        Err(IngestError::Draco(DracoError::NotInitialized))
    );
    assert_eq!(db.count("w-1"), 0);
    let fetched = payload("w-1", vec![metric("a", 501.0, 0)]);
    assert_eq!(
        svc.telemetry_ingest_draco(Ok(fetched.clone()), &mut db, NOW),
        Ok(IngestReport { total: 1, bound: 1, orphan: 0, hotspots: 1 })
    );
    assert_eq!(fetched.metrics[0].metric_id, "a");
    assert_eq!(db.count("w-1"), 1);
}

#[test]
fn empty_batch_changes_nothing() {
    let (mut db, svc) = service_with_tmp_db();
    assert_eq!(
        svc.telemetry_ingest(&payload("w-1", Vec::new()), &mut db, NOW),
        Ok(IngestReport { total: 0, bound: 0, orphan: 0, hotspots: 0 })
    );
    assert_eq!(db.count("w-1"), 0);
}

#[test]
fn hotspots_are_shown_by_falling_p99() {
    let (mut db, mut svc) = service_with_tmp_db();
    svc.set_workspace_key("w-1".to_string());
    let batch = payload(
        "w-1",
        vec![metric("a", 600.0, 1), metric("b", 9000.0, 2), metric("c", 3.0, 3)],
    );
    svc.telemetry_ingest(&batch, &mut db, NOW).unwrap();
    let shown = svc.hotspots(&db);
    assert_eq!(shown.len(), 2);
    assert_eq!(shown[0].alloc_bytes, 2);
    assert_eq!(shown[1].alloc_bytes, 1);
    assert_eq!(shown[0].node_id, "");
    assert_eq!(shown[0].environment, "production");
    assert_eq!(shown[0].call_count, 5000);
}

#[test]
fn registry_path_falls_back_to_the_default() {
    let fallback = std::path::PathBuf::from("/var/lib/graphify.db");
    let svc = TelemetryService::new(&EnvVars::unset());
    assert_eq!(svc.registry_path(&fallback), &fallback);
    let svc = svc.with_registry_path(std::path::PathBuf::from("/tmp/graphify.db"));
    assert_eq!(svc.registry_path(&fallback), &std::path::PathBuf::from("/tmp/graphify.db"));
    assert!(!svc.draco_client().is_initialized());
}

#[test]
fn same_batch_again_changes_only_the_time() {
    let (mut db, mut svc) = service_with_tmp_db();
    feed_graph(&mut svc);
    svc.telemetry_ingest(&payload("w-1", vec![metric("z", 1.0, 0)]), &mut db, NOW).unwrap();
    let mut second = metric("a", 2.0, 7);
    second.recorded_at = "2026-08-10T06:30:00Z".to_string();
    let batch = payload("w-1", vec![metric("a", 600.0, 0), metric("b", 700.0, 0), second]);
    let report = svc.telemetry_ingest(&batch, &mut db, NOW).unwrap();
    let before: Vec<_> = ["z", "a", "b"].iter().map(|id| db.get("w-1", id).unwrap()).collect();
    let later = "2026-08-11T00:00:00Z";
    assert_eq!(svc.telemetry_ingest(&batch, &mut db, later), Ok(report));
    assert_eq!(db.count("w-1"), 3);
    assert_eq!(db.get("w-1", "z").unwrap(), before[0]);
    for row in &before[1..] {
        let mut expected = row.clone();
        expected.updated_at = later.to_string();
        assert_eq!(db.get("w-1", &row.id).unwrap(), expected);
    }
}

#[test]
fn answers_that_did_not_come_count_as_zero() {
    let (mut db, mut svc) = service_with_tmp_db();
    svc.set_workspace_key("w-1".to_string());
    svc.telemetry_ingest(&payload("w-1", vec![metric("a", 600.0, 0)]), &mut db, NOW).unwrap();
    let views = svc.hotspots(&db);
    assert_eq!(svc.summary_from(Some(1), Some(1), Some(&views)), svc.summary_json(Some(&db)));
    assert_eq!(svc.summary_from(None, None, None), svc.summary_json(None));
    let part = svc.summary_from(Some(7), None, None);
    assert_eq!(summary_field(&part, "bindings"), &Json::Number("7".to_string()));
    assert_eq!(summary_field(&part, "hotspots"), &Json::Number("0".to_string()));
    assert_eq!(summary_field(&part, "toon_block"), &Json::Text("".to_string()));
}

#[test]
fn packet_carries_the_given_summary() {
    let (_, mut svc) = service_with_tmp_db();
    svc.set_workspace_key("w-1".to_string());
    let out = svc.sync_packet(Some(Ok(query_graph())), &Json::text("s"));
    assert_eq!(
        String::from_utf8(out).unwrap(),
        "metadata:\n  workspace_key: w-1\nplugin_data: \"s\"\n"
    );
    assert_eq!(svc.graph().unwrap(), query_graph());
    let out = svc.sync_packet(Some(Err(ToonError)), &Json::text("s"));
    assert_eq!(
        String::from_utf8(out).unwrap(),
        "metadata:\n  error: Cannot parse .toon into GraphOutput.\n"
    );
    assert_eq!(svc.graph().unwrap(), query_graph());
}

#[test]
fn limits_compare_as_numbers() {
    let zero = ThresholdConfig { p99_ms: ms(0.0), alloc_bytes: 1 };
    let negative = ThresholdConfig { p99_ms: ms(-0.0), alloc_bytes: 1 };
    let none = ThresholdConfig { p99_ms: ms(f64::NAN), alloc_bytes: 1 };
    assert_eq!(zero, negative);
    assert_ne!(none, none);
    assert_ne!(zero, ThresholdConfig { p99_ms: ms(0.0), alloc_bytes: 2 });
    assert_ne!(metric("a", f64::NAN, 0), metric("a", f64::NAN, 0));
    assert_eq!(metric("a", 0.0, 0), metric("a", -0.0, 0));
}
