use graphify_plugin_telemetry::graph::{GraphOutput, Node, NodeId};
use graphify_plugin_telemetry::resolver::{file_matches, resolve_line, resolve_symbol};

fn node(id: &str, source_file: &str, start: usize, end: usize) -> Node {
    Node {
        id: NodeId(id.to_string()),
        kind: id.split(':').nth(1).unwrap_or("function").to_string(),
        source_file: source_file.to_string(),
        start_line: start,
        end_line: end,
    }
}

fn graph_with(nodes: Vec<Node>) -> GraphOutput {
    GraphOutput { nodes }
}

#[test]
fn resolves_innermost_symbol() {
    let g = graph_with(vec![
        node("src/auth.rs:module", "src/auth.rs", 1, 100),
        node("src/auth.rs:class:Auth", "src/auth.rs", 10, 90),
        node("src/auth.rs:function:verify_token", "src/auth.rs", 30, 60),
    ]);
    let r = resolve_line(&g, "src/auth.rs", 42).unwrap();
    assert_eq!(
        r.node_id.0, "src/auth.rs:function:verify_token",
        "innermost (smallest span) wins"
    );
}

#[test]
fn resolves_outer_when_no_inner() {
    let g = graph_with(vec![node("src/auth.rs:module", "src/auth.rs", 1, 100)]);
    let r = resolve_line(&g, "src/auth.rs", 99).unwrap();
    assert_eq!(r.node_id.0, "src/auth.rs:module");
}

#[test]
fn boundary_lines_inclusive() {
    let g = graph_with(vec![node("src/a.rs:function:f", "src/a.rs", 10, 20)]);
    assert!(resolve_line(&g, "src/a.rs", 10).is_some());
    assert!(resolve_line(&g, "src/a.rs", 20).is_some());
    assert!(resolve_line(&g, "src/a.rs", 21).is_none());
}

#[test]
fn orphan_line_returns_none() {
    let g = graph_with(vec![node("src/a.rs:function:f", "src/a.rs", 10, 20)]);
    assert!(resolve_line(&g, "src/a.rs", 5).is_none());
    assert!(resolve_line(&g, "src/b.rs", 15).is_none());
}

#[test]
fn suffix_path_matches() {
    let g = graph_with(vec![node("f:function:f", "/repo/src/a.rs", 1, 5)]);
    assert!(resolve_line(&g, "/repo/src/a.rs", 3).is_some());
    assert!(resolve_line(&g, "src/a.rs", 3).is_some());
    // A bare file name is no suffix.
    assert!(resolve_line(&g, "a.rs", 3).is_none());
}

#[test]
fn file_matches_bidirectional() {
    assert!(file_matches("./src/auth.rs", "src/auth.rs"));
    assert!(file_matches("src/auth.rs", "/repo/src/auth.rs"));
    assert!(file_matches("./src/auth.rs", "/mnt/data/project/src/auth.rs"));
    assert!(!file_matches("./src/other.rs", "/mnt/data/project/src/auth.rs"));
    assert!(file_matches("/absolute/path/src/auth.rs", "src/auth.rs"));
    assert!(file_matches("./src/auth.rs", "src/auth.rs"));
    assert!(!file_matches("./src/auth.rs", "src/auth/verify.rs"));
    assert!(file_matches("./src/auth.rs", "src/auth.rs"));
    assert!(!file_matches("src/auth.rs", "./src/other.rs"));
}

#[test]
fn file_matches_rules() {
    assert!(file_matches("src/auth.rs", "src/auth.rs"));
    assert!(file_matches("/repo/src/auth.rs", "src/auth.rs"));
    assert!(file_matches("src/auth/verify.rs", "auth/verify.rs"));
    assert!(!file_matches("src/auth.rs", "auth.rs"));
    assert!(!file_matches("src/foosrc/auth.rs", "src/auth.rs"));
    assert!(file_matches("src/foosrc/auth.rs", "src/foosrc/auth.rs"));
}

#[test]
fn resolves_symbol_by_function_name() {
    let g = graph_with(vec![node(
        "src/db/query.rs:function:query_users",
        "src/db/query.rs",
        80,
        120,
    )]);
    let r = resolve_symbol(&g, "src/db/query.rs", "query_users").unwrap();
    assert_eq!(r.node_id.0, "src/db/query.rs:function:query_users");
}

#[test]
fn resolves_symbol_leaf_of_namespaced_name() {
    let g = graph_with(vec![node(
        "src/db/query.rs:function:query_users",
        "src/db/query.rs",
        80,
        120,
    )]);
    let r = resolve_symbol(&g, "src/db/query.rs", "crate::db::query_users").unwrap();
    assert_eq!(r.node_id.0, "src/db/query.rs:function:query_users");
}

#[test]
fn symbol_prefers_function_over_same_leaf_name() {
    let g = graph_with(vec![
        node("src/db/query.rs:module:query_users", "src/db/query.rs", 1, 200),
        node("src/db/query.rs:function:query_users", "src/db/query.rs", 80, 120),
    ]);
    let r = resolve_symbol(&g, "src/db/query.rs", "query_users").unwrap();
    assert_eq!(r.node_id.0, "src/db/query.rs:function:query_users");
}

#[test]
fn symbol_orphan_cases() {
    let g = graph_with(vec![node(
        "src/db/query.rs:function:query_users",
        "src/db/query.rs",
        80,
        120,
    )]);
    assert!(resolve_symbol(&g, "src/other.rs", "query_users").is_none());
    assert!(resolve_symbol(&g, "src/db/query.rs", "query_orders").is_none());
    assert!(resolve_symbol(&g, "src/db/query.rs", "").is_none());
}

#[test]
fn earlier_node_wins_among_equal_spans() {
    let g = graph_with(vec![
        node("src/a.rs:function:first", "src/a.rs", 10, 20),
        node("src/a.rs:function:second", "src/a.rs", 12, 22),
    ]);
    assert_eq!(resolve_line(&g, "src/a.rs", 15).unwrap().node_id.0, "src/a.rs:function:first");
    assert_eq!(resolve_line(&g, "src/a.rs", 21).unwrap().node_id.0, "src/a.rs:function:second");
}

#[test]
fn whole_range_still_resolves() {
    let g = graph_with(vec![node("src/a.rs:module", "src/a.rs", 0, usize::MAX)]);
    assert_eq!(resolve_line(&g, "src/a.rs", 7).unwrap().node_id.0, "src/a.rs:module");
}

#[test]
fn reversed_range_spans_no_line() {
    let g = graph_with(vec![node("src/a.rs:function:f", "src/a.rs", 20, 10)]);
    assert!(resolve_line(&g, "src/a.rs", 15).is_none());
}

#[test]
fn shifted_graph_gives_the_same_id() {
    let base = graph_with(vec![
        node("src/a.rs:module", "src/a.rs", 1, 50),
        node("src/a.rs:function:f", "src/a.rs", 10, 20),
    ]);
    let moved = graph_with(vec![
        node("src/a.rs:module", "src/a.rs", 8, 57),
        node("src/a.rs:function:f", "src/a.rs", 17, 27),
    ]);
    assert_eq!(resolve_line(&base, "src/a.rs", 12), resolve_line(&moved, "src/a.rs", 19));
    assert_eq!(resolve_line(&moved, "src/a.rs", 19).unwrap().node_id.0, "src/a.rs:function:f");
}

#[test]
fn path_edge_cases() {
    assert!(file_matches("", ""));
    assert!(!file_matches("src/a.rs", ""));
    assert!(!file_matches("", "src/a.rs"));
    assert!(!file_matches("a.rs", "src/a.rs"));
    assert!(!file_matches("./a.rs", "src/a.rs"));
    assert!(file_matches("./src/a.rs", "./src/a.rs"));
    assert!(file_matches("./src/a.rs", "x/./src/a.rs"));
    assert!(file_matches("./src/a.rs", "x/src/a.rs"));
    assert!(!file_matches("./src/a.rs", "xsrc/a.rs"));
    // The wanted path ends with the graph path once its `./` is dropped.
    assert!(file_matches("./src/a.rs", "/src/a.rs"));
    assert!(!file_matches("./src/a.rs", "/a.rs"));
    assert!(file_matches("結構/檔.rs", "專案/結構/檔.rs"));
    assert!(!file_matches("src/a.rs", "a.rs"));
}

#[test]
fn symbol_edge_cases() {
    let g = graph_with(vec![
        node("src/a.rs:class:Auth", "src/a.rs", 1, 9),
        node("src/a.rs:function:one", "src/a.rs", 1, 3),
        node("src/a.rs:function:one", "./src/a.rs", 4, 6),
        node("src/a.rs:function:", "src/a.rs", 7, 8),
    ]);
    // A class is taken where no function has the name.
    assert_eq!(resolve_symbol(&g, "src/a.rs", "Auth").unwrap().node_id.0, "src/a.rs:class:Auth");
    assert_eq!(
        resolve_symbol(&g, "/repo/src/a.rs", "m::one").unwrap().node_id.0,
        "src/a.rs:function:one"
    );
    // The last segment of `m::` is empty, as is the name in the last id.
    assert_eq!(resolve_symbol(&g, "src/a.rs", "m::").unwrap().node_id.0, "src/a.rs:function:");
    assert!(resolve_symbol(&g, "src/a.rs", "m:one").is_none());
    assert_eq!(resolve_symbol(&g, "src/a.rs", "::one").unwrap().node_id.0, "src/a.rs:function:one");
}

#[test]
fn longest_name_wins_among_functions() {
    let g = graph_with(vec![
        node("src/a.rs:function:q", "src/a.rs", 1, 5),
        node("src/a.rs:function:db::q", "src/a.rs", 10, 15),
    ]);
    assert_eq!(
        resolve_symbol(&g, "src/a.rs", "crate::db::q").unwrap().node_id.0,
        "src/a.rs:function:db::q"
    );
    let g = graph_with(vec![
        node("src/a.rs:class:outer::inner::q", "src/a.rs", 1, 9),
        node("src/a.rs:function:db::q", "src/a.rs", 10, 15),
        node("src/a.rs:function:ab::q", "src/a.rs", 16, 17),
        node("src/a.rs:function:q", "src/a.rs", 20, 25),
    ]);
    // A function comes before a longer name, and the earlier of two equal ones wins.
    assert_eq!(
        resolve_symbol(&g, "src/a.rs", "q").unwrap().node_id.0,
        "src/a.rs:function:db::q"
    );
    // All matches end in the same segment.
    assert!(resolve_symbol(&g, "src/a.rs", "db").is_none());
}

#[test]
fn resolved_clones_equal() {
    let g = graph_with(vec![node("src/a.rs:function:f", "src/a.rs", 1, 2)]);
    let r = resolve_line(&g, "src/a.rs", 1).unwrap();
    assert_eq!(r.clone(), r);
    assert_eq!(g.clone(), g);
}
