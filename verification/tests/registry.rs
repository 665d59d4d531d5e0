use graphify_plugin_telemetry::millis::Millis;
use graphify_plugin_telemetry::registry::{DbError, TelemetryBinding, TelemetryDb};

fn ms(x: f64) -> Millis {
    Millis::from_bits(x.to_bits())
}

fn binding(ws: &str, id: &str, node: &str) -> TelemetryBinding {
    TelemetryBinding {
        workspace_key: ws.to_string(),
        id: id.to_string(),
        canonical_node_id: node.to_string(),
        file_path: "src/db/query.rs".to_string(),
        function_name: "query_users".to_string(),
        p50_ms: ms(12.5),
        p99_ms: ms(1250.0),
        alloc_bytes: 10_485_760,
        call_count: 5000,
        is_hotspot: true,
        environment: "production".to_string(),
        created_at: "2026-08-10T06:00:00Z".to_string(),
        updated_at: "2026-08-10T06:00:00Z".to_string(),
    }
}

fn ids(rows: &[TelemetryBinding]) -> Vec<&str> {
    rows.iter().map(|r| r.id.as_str()).collect()
}

#[test]
fn upsert_and_query_by_node() {
    let mut db = TelemetryDb::new();
    db.upsert(&binding("w-1", "tel-1", "src/db/query.rs:function:query_users")).unwrap();
    let rows = db.query_by_node("w-1", "src/db/query.rs:function:query_users");
    assert_eq!(rows.len(), 1);
    assert_eq!(rows[0].id, "tel-1");
    assert!(rows[0].is_hotspot);
    assert_eq!(f64::from_bits(rows[0].p99_ms.to_bits()), 1250.0);
}

#[test]
fn upsert_same_metric_id_replaces() {
    let mut db = TelemetryDb::new();
    let mut b = binding("w-1", "tel-1", "src/db/query.rs:function:query_users");
    db.upsert(&b).unwrap();
    b.canonical_node_id = "src/db/query.rs:function:query_other".to_string();
    b.p99_ms = ms(2.0);
    b.is_hotspot = false;
    db.upsert(&b).unwrap();
    let rows = db.query_by_node("w-1", "src/db/query.rs:function:query_other");
    assert_eq!(rows.len(), 1, "replaced, not duplicated");
    assert_eq!(f64::from_bits(rows[0].p99_ms.to_bits()), 2.0);
    let old = db.query_by_node("w-1", "src/db/query.rs:function:query_users");
    assert!(old.is_empty());
}

#[test]
fn workspace_isolation_and_hotspot_filter() {
    let mut db = TelemetryDb::new();
    db.upsert(&binding("w-1", "tel-1", "n")).unwrap();
    db.upsert(&binding("w-2", "tel-1", "n")).unwrap();
    assert_eq!(db.count("w-1"), 1);
    assert_eq!(db.count("w-2"), 1);
    assert_eq!(db.query_hotspots("w-1").len(), 1);
    let hot = db.query_hotspots("w-1");
    assert_eq!(hot[0].id, "tel-1");
}

#[test]
fn non_hotspot_excluded_from_hotspots() {
    let mut db = TelemetryDb::new();
    let mut b = binding("w-1", "tel-2", "n");
    b.is_hotspot = false;
    db.upsert(&b).unwrap();
    assert_eq!(db.count_hotspots("w-1"), 0);
    assert!(db.query_hotspots("w-1").is_empty());
}

#[test]
fn get_by_metric_id() {
    let mut db = TelemetryDb::new();
    db.upsert(&binding("w-1", "tel-1", "n")).unwrap();
    let row = db.get("w-1", "tel-1").unwrap();
    assert_eq!(row.function_name, "query_users");
    assert!(db.get("w-1", "nope").is_none());
}

#[test]
fn creation_time_survives_an_upsert() {
    let mut db = TelemetryDb::new();
    db.upsert(&binding("w-1", "tel-1", "n")).unwrap();
    let mut b = binding("w-1", "tel-1", "n");
    b.created_at = "2026-09-01T00:00:00Z".to_string();
    b.updated_at = "2026-09-01T00:00:01Z".to_string();
    b.environment = "staging".to_string();
    b.file_path = "src/db/other.rs".to_string();
    b.function_name = "other".to_string();
    b.p50_ms = ms(1.0);
    b.alloc_bytes = -3;
    b.call_count = 9;
    db.upsert(&b).unwrap();
    b.created_at = "2026-08-10T06:00:00Z".to_string();
    assert_eq!(db.get("w-1", "tel-1").unwrap(), b);
    assert_eq!(db.count("w-1"), 1);
}

#[test]
fn storing_twice_is_storing_once() {
    let mut db = TelemetryDb::new();
    db.upsert(&binding("w-1", "tel-1", "n")).unwrap();
    let once = db.get("w-1", "tel-1");
    db.upsert(&binding("w-1", "tel-1", "n")).unwrap();
    assert_eq!(db.get("w-1", "tel-1"), once);
    assert_eq!(db.count("w-1"), 1);
}

#[test]
fn queries_fall_by_p99() {
    let mut db = TelemetryDb::new();
    let values = [
        ("a", -1.0),
        ("b", f64::INFINITY),
        ("c", 0.5),
        ("d", 0.0),
        ("e", 1e300),
        ("f", 0.5),
        ("g", f64::NEG_INFINITY),
        ("h", 5e-324),
        ("i", -0.0),
    ];
    for (id, p99) in values {
        let mut b = binding("w-1", id, "n");
        b.p99_ms = ms(p99);
        db.upsert(&b).unwrap();
    }
    let expected = vec!["b", "e", "c", "f", "h", "d", "i", "a", "g"];
    assert_eq!(ids(&db.query_by_node("w-1", "n")), expected);
    assert_eq!(ids(&db.query_hotspots("w-1")), expected);
    assert_eq!(db.count_hotspots("w-1"), 9);
}

#[test]
fn latency_that_is_no_number_is_refused() {
    let mut db = TelemetryDb::new();
    let mut b = binding("w-1", "tel-1", "n");
    b.p99_ms = ms(f64::NAN);
    assert_eq!(db.upsert(&b), Err(DbError::P99NotNull));
    b.p50_ms = ms(f64::NAN);
    assert_eq!(db.upsert(&b), Err(DbError::P50NotNull));
    b.p99_ms = ms(1.0);
    assert_eq!(db.upsert(&b), Err(DbError::P50NotNull));
    assert_eq!(db.count("w-1"), 0);
    assert_eq!(
        DbError::P50NotNull.message(),
        "NOT NULL constraint failed: telemetry_bindings.p50_ms"
    );
    assert_eq!(
        DbError::P99NotNull.message(),
        "NOT NULL constraint failed: telemetry_bindings.p99_ms"
    );
}

#[test]
fn refused_row_leaves_the_stored_one() {
    let mut db = TelemetryDb::new();
    db.upsert(&binding("w-1", "tel-1", "n")).unwrap();
    let mut b = binding("w-1", "tel-1", "other");
    b.p99_ms = ms(f64::NAN);
    assert!(db.upsert(&b).is_err());
    assert_eq!(db.get("w-1", "tel-1").unwrap(), binding("w-1", "tel-1", "n"));
}

#[test]
fn rows_load_as_a_table() {
    let rows = vec![
        binding("w-1", "tel-1", "n"),
        binding("w-2", "tel-1", "n"),
        binding("w-1", "tel-2", "m"),
    ];
    let db = TelemetryDb::from_rows(&rows).unwrap();
    assert_eq!(db.get("w-1", "tel-1").unwrap(), rows[0]);
    assert_eq!(db.get("w-2", "tel-1").unwrap(), rows[1]);
    assert_eq!(db.get("w-1", "tel-2").unwrap(), rows[2]);
    assert_eq!(db.count("w-1"), 2);
    let mut broken = binding("w-3", "x", "n");
    broken.p50_ms = ms(f64::NAN);
    let bad = vec![rows[0].clone(), broken];
    assert!(matches!(TelemetryDb::from_rows(&bad), Err(DbError::P50NotNull)));
}

#[test]
fn other_workspace_is_untouched_by_an_upsert() {
    let mut db = TelemetryDb::new();
    db.upsert(&binding("w-1", "tel-1", "n")).unwrap();
    let mut b = binding("w-2", "tel-1", "n");
    b.p99_ms = ms(1.0);
    b.is_hotspot = false;
    db.upsert(&b).unwrap();
    assert_eq!(db.query_by_node("w-1", "n"), vec![binding("w-1", "tel-1", "n")]);
    assert_eq!(db.query_hotspots("w-2"), Vec::new());
    assert_eq!(db.count_hotspots("w-1"), 1);
}

#[test]
fn negative_zero_is_stored_as_zero() {
    let mut db = TelemetryDb::new();
    let mut b = binding("w-1", "tel-1", "n");
    b.p50_ms = ms(-0.0);
    b.p99_ms = ms(-0.0);
    db.upsert(&b).unwrap();
    let row = db.get("w-1", "tel-1").unwrap();
    assert_eq!(row.p50_ms.to_bits(), 0);
    assert_eq!(row.p99_ms.to_bits(), 0);
    // As numbers the two zeros are equal.
    assert_eq!(row, b);
    db.upsert(&binding("w-1", "tel-1", "n")).unwrap();
    db.upsert(&b).unwrap();
    assert_eq!(db.get("w-1", "tel-1").unwrap().p99_ms.to_bits(), 0);
    let loaded = TelemetryDb::from_rows(&vec![b]).unwrap();
    assert_eq!(loaded.query_by_node("w-1", "n")[0].p50_ms.to_bits(), 0);
}

#[test]
fn rows_with_equal_numbers_are_equal() {
    let a = binding("w-1", "tel-1", "n");
    let mut b = a.clone();
    assert_eq!(a, b);
    b.p50_ms = ms(f64::NAN);
    assert_ne!(a, b);
    let c = b.clone();
    assert_ne!(b, c, "what is no number equals nothing");
}
