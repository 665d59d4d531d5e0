use graphify_plugin_telemetry::draco_client::DracoError;
use graphify_plugin_telemetry::graph::{GraphOutput, Node, NodeId, WorkspaceContext};
use graphify_plugin_telemetry::ingest::{IngestError, Metric, TelemetryIngestPayload};
use graphify_plugin_telemetry::millis::Millis;
use graphify_plugin_telemetry::registry::TelemetryDb;
use graphify_plugin_telemetry::settings::EnvVars;
use graphify_plugin_telemetry::TelemetryPlugin;

const NOW: &str = "2026-08-10T07:00:00Z";

fn ms(x: f64) -> Millis {
    Millis::from_bits(x.to_bits())
}

fn plugin_with_tmp_db() -> (TelemetryDb, TelemetryPlugin) {
    let plugin = TelemetryPlugin::new(&EnvVars::unset())
        .with_registry_path(std::path::PathBuf::from("/tmp/graphify.db"))
        .with_draco_url("http://127.0.0.1:1/mcp");
    (TelemetryDb::new(), plugin)
}

fn context(key: &str, name: &str, root: &str) -> WorkspaceContext {
    WorkspaceContext::new(key.to_string(), name.to_string(), root.to_string())
}

fn one_function(id: &str, file: &str, start: usize, end: usize) -> GraphOutput {
    GraphOutput {
        nodes: vec![Node {
            id: NodeId(id.to_string()),
            kind: "function".to_string(),
            source_file: file.to_string(),
            start_line: start,
            end_line: end,
        }],
    }
}

#[test]
fn plugin_id_and_workspace_key_roundtrip() {
    let mut p = TelemetryPlugin::new(&EnvVars::unset());
    assert_eq!(p.get_id(), "graphify-plugin-telemetry");
    assert_eq!(p.get_workspace_key(), "");
    let ctx = context("w-abc", "telemetry-demo", "/tmp/ws");
    p.bind(ctx);
    assert_eq!(p.get_workspace_key(), "w-abc");
}

#[test]
fn bind_for_cli_derives_workspace_key() {
    let p = TelemetryPlugin::new(&EnvVars::unset()).bind_for_cli(
        "w-5f3a".to_string(),
        Some("some-workspace".to_string()),
        "/tmp/some-workspace".to_string(),
    );
    assert!(!p.get_workspace_key().is_empty());
    assert_eq!(p.get_workspace_key(), "w-5f3a");
}

#[test]
fn ingest_binds_lines_and_queries_context() {
    let (mut db, mut p) = plugin_with_tmp_db();
    p.bind(context("w-1", "ws", "/tmp/ws"));

    let graph =
        one_function("src/db/query.rs:function:query_users", "src/db/query.rs", 80, 120);
    let packet = p.sync_toon(Some(Ok(graph)), Some(&db));
    assert!(packet.starts_with(b"metadata:\n"));
    assert!(p.graph().is_some());

    let payload = TelemetryIngestPayload {
        version: "1.0".to_string(),
        source: "draco-mcp".to_string(),
        workspace_key: "w-1".to_string(),
        metrics: vec![Metric {
            metric_id: "tel-p99-001".to_string(),
            file_path: "src/db/query.rs".to_string(),
            function_name: "query_users".to_string(),
            line_number: 88,
            p50_ms: ms(12.5),
            p99_ms: ms(1250.0),
            alloc_bytes_per_req: 10_485_760,
            call_count_per_min: 5000,
            environment: "production".to_string(),
            recorded_at: "2026-08-10T06:00:00Z".to_string(),
        }],
    };
    let report = p.telemetry_ingest(&payload, &mut db, NOW).unwrap();
    assert_eq!(report.bound, 1);
    assert_eq!(report.orphan, 0);
    assert_eq!(report.hotspots, 1);

    let (node, rows) =
        p.telemetry_get_context(&db, "w-1", "src/db/query.rs:function:query_users", true);
    assert_eq!(node, "src/db/query.rs:function:query_users");
    assert_eq!(rows.len(), 1);
    assert_eq!(rows[0].id, "tel-p99-001");
    assert_eq!(f64::from_bits(rows[0].p99_ms.to_bits()), 1250.0);
    assert!(rows[0].is_hotspot);
}

#[test]
fn sync_toon_packet_carries_hotspot_block() {
    let (mut db, mut p) = plugin_with_tmp_db();
    p.bind(context("w-1", "ws", "/tmp/ws"));
    let graph = one_function(
        "src/payment/stripe.rs:function:process_payment",
        "src/payment/stripe.rs",
        10,
        40,
    );
    let _ = p.sync_toon(Some(Ok(graph)), Some(&db));

    let payload = TelemetryIngestPayload {
        version: "1.0".to_string(),
        source: "draco-mcp".to_string(),
        workspace_key: "w-1".to_string(),
        metrics: vec![Metric {
            metric_id: "tel-p99-002".to_string(),
            file_path: "src/payment/stripe.rs".to_string(),
            function_name: "process_payment".to_string(),
            line_number: 20,
            p50_ms: ms(88.0),
            p99_ms: ms(2450.0),
            alloc_bytes_per_req: 1024,
            call_count_per_min: 1200,
            environment: "production".to_string(),
            recorded_at: "2026-08-10T06:00:00Z".to_string(),
        }],
    };
    let _ = p.telemetry_ingest(&payload, &mut db, NOW).unwrap();

    let out = p.sync_toon(None, Some(&db));
    let text = String::from_utf8_lossy(&out);
    assert!(
        text.contains("[src/payment/stripe.rs:function:process_payment (AST Node)]"),
        "hotspot block expected in packet: {text}"
    );
    assert!(text.contains("CRITICAL HOTSPOT"));
}

#[test]
fn lib_sync_toon_none_does_not_panic() {
    let (db, mut p) = plugin_with_tmp_db();
    p.bind(context("w-9", "ws", "/tmp/ws"));
    let out = p.sync_toon(None, Some(&db));
    assert!(String::from_utf8_lossy(&out).contains("workspace_key"));
}

#[test]
fn context_of_a_directory() {
    let ctx = WorkspaceContext::of_directory("k".to_string(), None, "/".to_string());
    assert_eq!(ctx, context("k", "workspace", "/"));
    let ctx = WorkspaceContext::of_directory(
        "k".to_string(),
        Some("demo".to_string()),
        "/tmp/demo".to_string(),
    );
    assert_eq!(ctx, context("k", "demo", "/tmp/demo"));
}

#[test]
fn plugin_resolves_with_the_cached_graph() {
    let (_, mut p) = plugin_with_tmp_db();
    assert!(p.resolve("src/a.rs", 5).is_none());
    assert!(p.graph().is_none());
    let _ = p.sync_toon(Some(Ok(one_function("src/a.rs:function:f", "src/a.rs", 1, 9))), None);
    assert_eq!(p.resolve("src/a.rs", 5).unwrap().node_id.0, "src/a.rs:function:f");
    assert!(p.resolve("src/a.rs", 10).is_none());
    p.on_graph_updated();
    assert_eq!(p.graph().unwrap().nodes.len(), 1);
    assert_eq!(p.service().workspace_key(), "");
}

#[test]
fn plugin_hands_back_a_draco_error() {
    let (mut db, p) = plugin_with_tmp_db();
    let err = p.telemetry_ingest_draco(Err(DracoError::EmptyResult), &mut db, NOW).unwrap_err();
    assert_eq!(err, IngestError::Draco(DracoError::EmptyResult));
    assert_eq!(err.message(), "draco error: empty result from Draco");
}

#[test]
fn plugin_sends_a_given_summary() {
    let (db, mut p) = plugin_with_tmp_db();
    p.bind(context("w-1", "ws", "/tmp/ws"));
    let summary = p.service().summary_json(Some(&db));
    let packet = p.sync_packet(None, &summary);
    assert_eq!(packet, p.sync_toon(None, Some(&db)));
}
