use graphify_plugin_telemetry::cells::{row_from_sql, row_to_sql, Cell, RowError};
use graphify_plugin_telemetry::ingest::{default_environment, IngestError};
use graphify_plugin_telemetry::json::Json;
use graphify_plugin_telemetry::millis::Millis;
use graphify_plugin_telemetry::registry::{DbError, TelemetryBinding};
use graphify_plugin_telemetry::sync::{
    emit_error_packet, emit_packet, synthesize_hotspot_block, HotspotView,
};
use graphify_plugin_telemetry::text;

fn ms(x: f64) -> Millis {
    Millis::from_bits(x.to_bits())
}

fn hotspot(p99: f64, alloc: i64, calls: i64, env: &str) -> HotspotView {
    HotspotView {
        node_id: "n".to_string(),
        p99_ms: ms(p99),
        alloc_bytes: alloc,
        call_count: calls,
        environment: env.to_string(),
    }
}

fn row() -> TelemetryBinding {
    TelemetryBinding {
        workspace_key: "w-1".to_string(),
        id: "tel-1".to_string(),
        canonical_node_id: "n".to_string(),
        file_path: "src/a.rs".to_string(),
        function_name: "f".to_string(),
        p50_ms: ms(1.5),
        p99_ms: ms(-0.0),
        alloc_bytes: -7,
        call_count: 9,
        is_hotspot: true,
        environment: "local".to_string(),
        created_at: "t0".to_string(),
        updated_at: "t1".to_string(),
    }
}

#[test]
fn latencies_compare_as_numbers() {
    let values = [
        f64::NEG_INFINITY,
        -1e300,
        -1.5,
        -5e-324,
        -0.0,
        0.0,
        5e-324,
        2.2250738585072014e-308,
        0.1,
        500.0,
        500.00000000000006,
        1e300,
        f64::INFINITY,
        f64::NAN,
        -f64::NAN,
    ];
    for a in values {
        for b in values {
            assert_eq!(ms(a).exceeds(ms(b)), a > b, "{} > {}", a, b);
            assert_eq!(ms(a) == ms(b), a == b, "{} == {}", a, b);
        }
        assert_eq!(ms(a).is_nan(), a.is_nan());
        assert_eq!(ms(a).rounded(), a.round() as i64, "{}", a);
        assert_eq!(ms(a).to_bits(), a.to_bits());
        let zero = if a == 0.0 { 0.0 } else { a };
        assert_eq!(ms(a).unsigned_zero().to_bits(), zero.to_bits());
    }
}

#[test]
fn latencies_round_half_away_from_zero() {
    for (x, r) in [
        (0.5, 1),
        (-0.5, -1),
        (1.5, 2),
        (2.5, 3),
        (-2.5, -3),
        (0.49999999999999994, 0),
        (1249.5, 1250),
        (1249.4999, 1249),
        (4503599627370495.5, 4503599627370496),
        (4503599627370497.0, 4503599627370497),
        (9007199254740993.0, 9007199254740992),
        (9223372036854774784.0, 9223372036854774784),
        (9223372036854775808.0, i64::MAX),
        (-9223372036854775808.0, i64::MIN),
        (1e19, i64::MAX),
        (-1e19, i64::MIN),
    ] {
        assert_eq!(ms(x).rounded(), r, "{}", x);
        assert_eq!(x.round() as i64, r, "{}", x);
    }
    assert_eq!(ms(f64::NAN).rounded(), 0);
}

#[test]
fn integers_become_the_nearest_latency() {
    let limit = 9_007_199_254_740_992i64;
    for n in [
        0,
        1,
        -1,
        2,
        3,
        500,
        1 << 52,
        limit - 1,
        limit,
        limit + 1,
        limit + 2,
        limit + 3,
        -limit - 1,
        2 * limit + 2,
        2 * limit + 6,
        (1 << 62) - 1,
        (1 << 62) + 256,
        (1 << 62) + 512,
        (1 << 62) + 513,
        (1 << 62) + 1536,
        i64::MAX - 512,
        i64::MAX - 511,
        i64::MAX,
        i64::MIN,
        i64::MIN + 1,
    ] {
        assert_eq!(Millis::from_integer(n).to_bits(), (n as f64).to_bits(), "{}", n);
    }
}

#[test]
fn block_lines_are_exact() {
    let block = synthesize_hotspot_block(&vec![
        hotspot(1250.0, 10_485_760, 5000, "production"),
        hotspot(999.5, 1_572_864, -1_234_567, "staging"),
    ]);
    assert_eq!(
        block,
        "[n (AST Node)]\n ├── ⚡ [Draco Telemetry] p99 Latency: 1,250ms (CRITICAL HOTSPOT)\n └── 📊 Alloc: 10.0MB | Calls: 5,000/min (prod)\n\
         [n (AST Node)]\n ├── ⚡ [Draco Telemetry] p99 Latency: 1,000ms (CRITICAL HOTSPOT)\n └── 📊 Alloc: 1.5MB | Calls: -1,234,567/min (staging)\n"
    );
    assert_eq!(synthesize_hotspot_block(&Vec::new()), "");
}

#[test]
fn megabytes_have_one_decimal() {
    for (bytes, shown) in [
        (0, "0.0MB"),
        (1, "0.0MB"),
        (262_144, "0.2MB"),
        (786_432, "0.8MB"),
        (52_428, "0.0MB"),
        (52_429, "0.1MB"),
        (1_048_576, "1.0MB"),
        (1_048_575, "1.0MB"),
        (15_938_355, "15.2MB"),
        (-1_048_576, "-1.0MB"),
        (i64::MAX, "8796093022208.0MB"),
        (i64::MIN, "-8796093022208.0MB"),
    ] {
        let block = synthesize_hotspot_block(&vec![hotspot(1.0, bytes, 1, "x")]);
        assert!(block.contains(&format!("Alloc: {} |", shown)), "{} in {}", shown, block);
        assert_eq!(shown, format!("{:.1}MB", bytes as f64 / 1_048_576.0));
    }
}

#[test]
fn digits_are_grouped_by_threes() {
    for (n, shown) in [
        (0, "0"),
        (7, "7"),
        (999, "999"),
        (1000, "1,000"),
        (12_005, "12,005"),
        (1_000_000, "1,000,000"),
        (-999, "-999"),
        (-1000, "-1,000"),
        (i64::MAX, "9,223,372,036,854,775,807"),
        (i64::MIN, "-9,223,372,036,854,775,808"),
    ] {
        let mut out = String::from("x");
        text::push_signed_grouped(&mut out, n);
        assert_eq!(out, format!("x{}", shown));
        assert_eq!(shown.replace(',', ""), n.to_string());
    }
    let mut out = String::new();
    text::push_grouped(&mut out, u64::MAX);
    assert_eq!(out, "18,446,744,073,709,551,615");
    let mut out = String::new();
    text::push_decimal(&mut out, 40_302);
    text::push_digit(&mut out, 9);
    assert_eq!(out, "403029");
}

#[test]
fn numbers_are_read_strictly() {
    for s in [
        "", "0", "-0", "+5", "007", "-12", "+", "-", "--1", "+-1", "1 ", " 1", "1_000", "1.0", "٣",
        "9223372036854775807", "9223372036854775808", "-9223372036854775808",
        "-9223372036854775809", "99999999999999999999999999999999999999999999", "0x10",
    ] {
        assert_eq!(text::parse_i64(s), s.parse::<i64>().ok(), "{:?}", s);
    }
}

#[test]
fn white_space_is_trimmed() {
    for s in ["", " ", "a", " a ", "\t\n a b \r\n", "\u{a0}x\u{3000}", "\u{200b}x", "\u{2028}\u{85}"] {
        assert_eq!(text::trim(s), s.trim(), "{:?}", s);
    }
    for n in 0..0x3100u32 {
        if let Some(c) = char::from_u32(n) {
            assert_eq!(text::white_space(c), c.is_whitespace(), "{:x}", n);
        }
    }
}

#[test]
fn segments_follow_the_last_separator() {
    for s in ["", ":", "::", "a", "a:b", "a::b", "a:::b", "a::", "x:y::z:w", "src/a.rs:function:f"] {
        assert_eq!(text::segment_after_path_sep(s), s.rsplit("::").next().unwrap(), "{}", s);
    }
    for (s, name) in [
        ("", ""),
        (":", ""),
        ("::", "::"),
        (":::", "::"),
        ("a", "a"),
        ("a:b", "b"),
        ("a::b", "a::b"),
        ("a:::b", "::b"),
        ("a:b:", ""),
        ("x:y::z:w", "w"),
        ("src/a.rs:function:f", "f"),
        ("src/a.rs:function:db::q", "db::q"),
        ("src/a.rs:function:db::q::", "db::q::"),
    ] {
        assert_eq!(text::segment_after_single_colon(s), name, "{}", s);
    }
    assert!(text::same_text("é", "é"));
    assert!(!text::same_text("ab", "b"));
    assert!(text::ends_with(&vec!['a', 'b'], &vec!['b']));
    assert!(text::has_char(&text::chars_of("a/b"), '/'));
}

#[test]
fn json_text_is_read_and_written() {
    let source = r#" {"b": [1, -2.50, true, null], "a": {"k": "v\né"}} "#;
    let doc = Json::from_text(source).unwrap();
    assert_eq!(
        doc,
        Json::Object(vec![
            (
                "a".to_string(),
                Json::Object(vec![("k".to_string(), Json::Text("v\né".to_string()))]),
            ),
            (
                "b".to_string(),
                Json::Array(vec![
                    Json::Number("1".to_string()),
                    Json::Number("-2.5".to_string()),
                    Json::Bool(true),
                    Json::Null,
                ]),
            ),
        ])
    );
    assert_eq!(doc.to_text(), r#"{"a":{"k":"v\né"},"b":[1,-2.5,true,null]}"#);
    assert_eq!(Json::from_text(&doc.to_text()), Some(doc.clone()));
    assert_eq!(doc.get("a").unwrap().get("k"), Some(&Json::text("v\né")));
    assert!(doc.get("c").is_none());
    assert!(doc.as_text().is_none());
    assert!(doc.as_array().is_none());
    assert_eq!(doc.get("b").unwrap().as_array().unwrap().len(), 4);
    for bad in ["", "{", "nope", "{\"a\":1,}", "1 2", "\u{feff}1"] {
        assert_eq!(Json::from_text(bad), None, "{:?}", bad);
    }
}

#[test]
fn plain_documents_read_back() {
    let mut doc = Json::object(vec![
        ("".to_string(), Json::text("\u{0}\u{1f}\"\\/\u{7f}😀")),
        ("a".to_string(), Json::number(u64::MAX)),
        ("é".to_string(), Json::number(0)),
    ]);
    assert_eq!(Json::from_text(&doc.to_text()), Some(doc.clone()));
    for _ in 0..99 {
        doc = Json::object(vec![("k".to_string(), doc)]);
    }
    assert_eq!(Json::from_text(&doc.to_text()), Some(doc.clone()));
}

#[test]
fn rows_turn_into_cells_and_back() {
    let cells = row_to_sql(&row());
    assert_eq!(cells.len(), 13);
    assert_eq!(cells[0], Cell::Text("w-1".to_string()));
    assert_eq!(cells[5], Cell::Real(ms(1.5)));
    assert_eq!(cells[7], Cell::Integer(-7));
    assert_eq!(cells[9], Cell::Integer(1));
    assert_eq!(row_from_sql(&cells), Ok(row()));
    assert_eq!(row_from_sql(&cells).unwrap().p99_ms.to_bits(), (-0.0f64).to_bits());
    let mut calm = row();
    calm.is_hotspot = false;
    assert_eq!(row_to_sql(&calm)[9], Cell::Integer(0));
    assert_eq!(row_from_sql(&row_to_sql(&calm)), Ok(calm));
}

#[test]
fn wrong_cells_are_refused() {
    for column in 0..13 {
        let mut cells = row_to_sql(&row());
        cells[column] = Cell::Null;
        assert_eq!(row_from_sql(&cells), Err(RowError { column }));
        cells[column] = Cell::Blob;
        assert_eq!(row_from_sql(&cells), Err(RowError { column }));
        cells.truncate(column);
        assert_eq!(row_from_sql(&cells), Err(RowError { column }));
    }
    let mut cells = row_to_sql(&row());
    cells[6] = Cell::Text("5".to_string());
    assert_eq!(row_from_sql(&cells), Err(RowError { column: 6 }));
    let mut cells = row_to_sql(&row());
    cells[7] = Cell::Real(ms(5.0));
    assert_eq!(row_from_sql(&cells), Err(RowError { column: 7 }));
    let mut cells = row_to_sql(&row());
    cells[5] = Cell::Integer(-5);
    assert_eq!(row_from_sql(&cells).unwrap().p50_ms, ms(-5.0));
    let mut cells = row_to_sql(&row());
    cells[9] = Cell::Integer(-2);
    assert!(row_from_sql(&cells).unwrap().is_hotspot);
}

#[test]
fn packets_are_exact() {
    assert_eq!(
        emit_packet("w-1", &Json::text("x")),
        "metadata:\n  workspace_key: w-1\nplugin_data: \"x\"\n"
    );
    assert_eq!(emit_error_packet("no"), "metadata:\n  error: no\n");
}

#[test]
fn ingest_error_messages() {
    assert_eq!(IngestError::Io("gone".to_string()).message(), "io error: gone");
    assert_eq!(IngestError::Json("bad".to_string()).message(), "json error: bad");
    assert_eq!(
        IngestError::Db(DbError::P99NotNull).message(),
        "db error: NOT NULL constraint failed: telemetry_bindings.p99_ms"
    );
    assert_eq!(default_environment(), "production");
}
