use nix_analyze::collect::{collect_system_graph, CollectError, RawPathInfo};
use nix_analyze::graph::{NodeRecord, SizeMetric, SystemGraph};
use nix_analyze::text::{normalize_store_key, short_name};

fn entry(key: &str, nar: u64, closure: u64, refs: &[&str]) -> (String, RawPathInfo) {
    (
        key.to_string(),
        RawPathInfo {
            nar_size: nar,
            closure_size: closure,
            references: refs.iter().map(|r| r.to_string()).collect(),
            deriver: None,
        },
    )
}

fn build(root: &str, entries: Vec<(String, RawPathInfo)>) -> SystemGraph {
    collect_system_graph(&vec![root.to_string()], "/nix/store".to_string(), &entries).unwrap()
}

fn node<'a>(g: &'a SystemGraph, id: &str) -> &'a NodeRecord {
    g.nodes.iter().find(|n| n.id == id).unwrap()
}

#[test]
fn short_name_drops_hash_prefix() {
    assert_eq!(short_name("abc123-hello-2.1"), "hello-2.1");
    assert_eq!(short_name("nohyphen"), "nohyphen");
    assert_eq!(short_name("-x"), "x");
    assert_eq!(short_name(""), "");
}

#[test]
fn normalize_store_key_takes_last_segment() {
    assert_eq!(normalize_store_key("/nix/store/abc-foo"), "abc-foo");
    assert_eq!(normalize_store_key("abc-foo"), "abc-foo");
    assert_eq!(normalize_store_key("/nix/store/"), "");
}

#[test]
fn metric_labels_and_kinds() {
    assert_eq!(SizeMetric::NarSize.label(), "narSize");
    assert_eq!(SizeMetric::ClosureSize.label(), "closureSize");
    assert_eq!(SizeMetric::Dependencies.label(), "dependencies");
    assert_eq!(SizeMetric::ReverseDependencies.label(), "reverseDependencies");
    assert!(SizeMetric::NarSize.is_byte_metric());
    assert!(SizeMetric::ClosureSize.is_byte_metric());
    assert!(!SizeMetric::Dependencies.is_byte_metric());
    assert!(!SizeMetric::ReverseDependencies.is_byte_metric());
}

#[test]
fn node_metric_reads_each_quantity() {
    let g = build(
        "/nix/store/r-root",
        vec![
            entry("/nix/store/r-root", 10, 100, &["/nix/store/a-a", "/nix/store/b-b"]),
            entry("/nix/store/a-a", 5, 0, &["/nix/store/b-b"]),
            entry("/nix/store/b-b", 7, 7, &[]),
        ],
    );
    let r = node(&g, "r-root");
    assert_eq!(r.metric(SizeMetric::NarSize), 10);
    assert_eq!(r.metric(SizeMetric::ClosureSize), 100);
    assert_eq!(r.metric(SizeMetric::Dependencies), 2);
    assert_eq!(node(&g, "b-b").metric(SizeMetric::ReverseDependencies), 2);
}

#[test]
fn collect_rejects_empty_root_listing() {
    let r = collect_system_graph(&vec![], "/nix/store".to_string(), &vec![entry("/nix/store/a-a", 1, 1, &[])]);
    assert!(matches!(r, Err(CollectError::EmptyRootInfo)));
}

#[test]
fn collect_rejects_listing_without_ids() {
    let r = collect_system_graph(
        &vec!["/nix/store/a-a".to_string()],
        "/nix/store".to_string(),
        &vec![entry("/nix/store/", 1, 1, &[])],
    );
    assert!(matches!(r, Err(CollectError::NoClosureNodes)));
    let r = collect_system_graph(&vec!["/nix/store/a-a".to_string()], "/nix/store".to_string(), &vec![]);
    assert!(matches!(r, Err(CollectError::NoClosureNodes)));
}

#[test]
fn collect_normalizes_and_filters_references() {
    let g = build(
        "/nix/store/r-root",
        vec![
            entry(
                "/nix/store/r-root",
                10,
                0,
                &["/nix/store/c-c", "/nix/store/r-root", "/nix/store/zz-missing", "/nix/store/a-a", "/nix/store/c-c", ""],
            ),
            entry("a-a", 5, 9, &[]),
            entry("/nix/store/c-c", 3, 3, &["/nix/store/a-a"]),
        ],
    );
    assert_eq!(g.node_count(), 3);
    assert_eq!(g.root_id, "r-root");
    let r = node(&g, "r-root");
    // self reference, unknown reference, repeats and empty ids dropped; sorted
    assert_eq!(r.references, vec!["a-a".to_string(), "c-c".to_string()]);
    // a missing closure size falls back to the NAR size
    assert_eq!(r.closure_size, 10);
    assert_eq!(r.full_path, "/nix/store/r-root");
    // a key without a leading slash gets the store directory
    assert_eq!(node(&g, "a-a").full_path, "/nix/store/a-a");
    assert_eq!(node(&g, "a-a").referrers, vec!["c-c".to_string(), "r-root".to_string()]);
    assert_eq!(g.edge_count, 3);
    assert_eq!(g.store_dir, "/nix/store");
}

#[test]
fn collect_last_entry_wins_and_root_falls_back() {
    let mut e = entry("/nix/store/a-a", 1, 1, &[]);
    e.1.deriver = Some("/nix/store/d-a.drv".to_string());
    let g = collect_system_graph(
        &vec!["/nix/store/gone-root".to_string()],
        "/nix/store".to_string(),
        &vec![e, entry("/other/a-a", 2, 2, &[]), entry("/nix/store/b-b", 3, 3, &[])],
    )
    .unwrap();
    assert_eq!(g.node_count(), 2);
    assert_eq!(node(&g, "a-a").nar_size, 2);
    assert_eq!(node(&g, "a-a").full_path, "/other/a-a");
    assert_eq!(node(&g, "a-a").deriver, None);
    assert_eq!(g.root_id, g.nodes[0].id);
    let mut e = entry("/nix/store/a-a", 1, 1, &[]);
    e.1.deriver = Some("/nix/store/d-a.drv".to_string());
    let g = build("/nix/store/a-a", vec![e]);
    assert_eq!(node(&g, "a-a").deriver, Some("d-a.drv".to_string()));
}

fn ranking_graph() -> SystemGraph {
    build(
        "/nix/store/r-root",
        vec![
            entry("/nix/store/r-root", 50, 500, &["/nix/store/a-a", "/nix/store/b-b", "/nix/store/c-c"]),
            entry("/nix/store/a-a", 100, 300, &["/nix/store/c-c"]),
            entry("/nix/store/b-b", 100, 100, &[]),
            entry("/nix/store/c-c", 20, 20, &[]),
        ],
    )
}

#[test]
fn ranked_by_metric_orders_by_metric_then_references() {
    let g = ranking_graph();
    assert_eq!(
        g.ranked_by_metric(SizeMetric::NarSize, 10),
        vec!["a-a".to_string(), "b-b".to_string(), "r-root".to_string(), "c-c".to_string()]
    );
    assert_eq!(g.ranked_by_metric(SizeMetric::ClosureSize, 2), vec!["r-root".to_string(), "a-a".to_string()]);
    assert_eq!(g.top_by_metric(SizeMetric::NarSize, 1), vec!["a-a".to_string()]);
    assert!(g.ranked_by_metric(SizeMetric::NarSize, 0).is_empty());
}

#[test]
fn ranked_by_referrers_and_dependencies() {
    let g = ranking_graph();
    assert_eq!(
        g.ranked_by_referrers(10),
        vec!["c-c".to_string(), "a-a".to_string(), "b-b".to_string(), "r-root".to_string()]
    );
    assert_eq!(g.top_by_referrers(1), vec!["c-c".to_string()]);
    assert_eq!(
        g.ranked_by_dependencies(3),
        vec!["r-root".to_string(), "a-a".to_string(), "b-b".to_string()]
    );
}

fn path_graph() -> SystemGraph {
    build(
        "/nix/store/root",
        vec![
            entry("/nix/store/root", 1, 1, &["/nix/store/A", "/nix/store/C"]),
            entry("/nix/store/A", 1, 1, &["/nix/store/B"]),
            entry("/nix/store/B", 1, 1, &[]),
            entry("/nix/store/C", 1, 1, &[]),
            entry("/nix/store/unreachable_id", 1, 1, &["/nix/store/root"]),
        ],
    )
}

#[test]
fn shortest_path_follows_references() {
    let g = path_graph();
    assert_eq!(
        g.shortest_path_from_root("B"),
        Some(vec!["root".to_string(), "A".to_string(), "B".to_string()])
    );
    assert_eq!(g.shortest_path_from_root("C"), Some(vec!["root".to_string(), "C".to_string()]));
    assert_eq!(g.shortest_path_from_root("root"), Some(vec!["root".to_string()]));
    assert_eq!(g.shortest_path_from_root("unreachable_id"), None);
    assert_eq!(g.shortest_path_from_root("no-such-node"), None);
}

#[test]
fn shortest_path_terminates_on_cycles() {
    let g = build(
        "/nix/store/root",
        vec![
            entry("/nix/store/root", 1, 1, &["/nix/store/A"]),
            entry("/nix/store/A", 1, 1, &["/nix/store/B"]),
            entry("/nix/store/B", 1, 1, &["/nix/store/A"]),
        ],
    );
    assert_eq!(
        g.shortest_path_from_root("B"),
        Some(vec!["root".to_string(), "A".to_string(), "B".to_string()])
    );
}

#[test]
fn index_of_finds_records() {
    let g = path_graph();
    let i = g.index_of("C").unwrap();
    assert_eq!(g.nodes[i].id, "C");
    assert_eq!(g.index_of("Z"), None);
}
