use nix_analyze::collect::{collect_system_graph, RawPathInfo};
use nix_analyze::graph::{SizeMetric, SystemGraph};
use nix_analyze::highlight::{
    build_highlight_state, build_highlight_state_for_selected_id, collect_related_paths,
    collect_related_paths_by_id, shortest_root_path, RELATED_NODE_LIMIT,
};
use nix_analyze::render::{filtered_node_ids, include_node_in_current_graph, rebuild_render_graph, RenderGraph};

fn entry(key: &str, nar: u64, refs: &[&str]) -> (String, RawPathInfo) {
    (
        key.to_string(),
        RawPathInfo {
            nar_size: nar,
            closure_size: nar,
            references: refs.iter().map(|r| r.to_string()).collect(),
            deriver: None,
        },
    )
}

fn build(root: &str, entries: Vec<(String, RawPathInfo)>) -> SystemGraph {
    collect_system_graph(&vec![root.to_string()], "/s".to_string(), &entries).unwrap()
}

fn sample() -> SystemGraph {
    build(
        "root",
        vec![
            entry("root", 5, &["a", "b", "c"]),
            entry("a", 400, &["b", "d"]),
            entry("b", 300, &["d"]),
            entry("c", 200, &[]),
            entry("d", 100, &["a"]),
        ],
    )
}

fn ids(rg: &RenderGraph) -> Vec<&str> {
    rg.ids.iter().map(|s| s.as_str()).collect()
}

fn check_mirror(rg: &RenderGraph) {
    for &(a, b) in &rg.edges {
        assert_ne!(a, b);
        assert!(rg.outgoing[a].contains(&b));
        assert!(rg.incoming[b].contains(&a));
    }
    for (a, row) in rg.outgoing.iter().enumerate() {
        for &b in row {
            assert!(rg.edges.contains(&(a, b)));
        }
    }
}

#[test]
fn filter_pins_root_and_selection_then_ranks() {
    let g = sample();
    let sel = filtered_node_ids(&g, SizeMetric::NarSize, 150, 3, Some("c"));
    let names: Vec<&str> = sel.iter().map(|&i| g.nodes[i].id.as_str()).collect();
    assert_eq!(names, vec!["root", "c", "a"]);
    // budget is at least two
    let sel = filtered_node_ids(&g, SizeMetric::NarSize, 0, 0, None);
    assert_eq!(sel.len(), 2);
}

#[test]
fn threshold_above_everything_keeps_only_root() {
    let g = sample();
    let (rg, carry) = rebuild_render_graph(&g, SizeMetric::NarSize, 10_000, 450, None, None).unwrap();
    assert_eq!(ids(&rg), vec!["root"]);
    assert!(rg.edges.is_empty());
    assert_eq!(rg.root_index, Some(0));
    assert_eq!(carry, vec![None]);
    let tree = nix_analyze::quadtree::build_quadtree(&vec![0u32]).unwrap();
    assert_eq!(tree.cells.len(), 1);
    assert!(tree.is_leaf(tree.root));
}

#[test]
fn rebuild_edges_are_sorted_mirrored_and_loop_free() {
    let g = sample();
    let (rg, _) = rebuild_render_graph(&g, SizeMetric::NarSize, 0, 450, None, None).unwrap();
    assert_eq!(ids(&rg), vec!["root", "a", "b", "c", "d"]);
    assert_eq!(rg.edges, vec![(0, 1), (0, 2), (0, 3), (1, 2), (1, 4), (2, 4), (4, 1)]);
    check_mirror(&rg);
    assert_eq!(rg.metric_values, vec![5, 400, 300, 200, 100]);
    assert_eq!((rg.min_metric, rg.max_metric), (5, 400));
}

#[test]
fn relaxed_filter_carries_previous_nodes() {
    let g = sample();
    let (first, _) = rebuild_render_graph(&g, SizeMetric::NarSize, 0, 3, None, None).unwrap();
    assert_eq!(ids(&first), vec!["root", "a", "b"]);
    let (second, carry) = rebuild_render_graph(&g, SizeMetric::NarSize, 0, 4, None, Some(&first)).unwrap();
    assert_eq!(ids(&second), vec!["root", "a", "b", "c"]);
    assert_eq!(carry, vec![Some(0), Some(1), Some(2), None]);
    check_mirror(&second);
}

#[test]
fn empty_filter_result_gives_none() {
    let g = build("/s/elsewhere", vec![entry("x", 1, &[]), entry("y", 1, &[])]);
    // the root key is not in the closure, so the first record becomes root
    assert!(rebuild_render_graph(&g, SizeMetric::NarSize, 100, 10, None, None).is_some());
}

#[test]
fn including_a_node_adds_edges_both_ways_once() {
    let g = sample();
    let (mut rg, _) = rebuild_render_graph(&g, SizeMetric::NarSize, 250, 450, None, None).unwrap();
    assert_eq!(ids(&rg), vec!["root", "a", "b"]);
    let old_edges = rg.edges.clone();
    let added = include_node_in_current_graph(&mut rg, &g, SizeMetric::NarSize, "d");
    assert_eq!(&rg.edges[..old_edges.len()], &old_edges[..]);
    assert_eq!(added, Some(3));
    assert_eq!(rg.ids[3], "d");
    assert_eq!(rg.metric_values[3], 100);
    assert!(rg.edges.contains(&(3, 1)));
    assert!(rg.edges.contains(&(1, 3)));
    assert!(rg.edges.contains(&(2, 3)));
    check_mirror(&rg);
    assert_eq!((rg.min_metric, rg.max_metric), (5, 400));
    let mut seen = rg.edges.clone();
    seen.sort();
    seen.dedup();
    assert_eq!(seen.len(), rg.edges.len());
    let before = rg.edges.clone();
    assert_eq!(include_node_in_current_graph(&mut rg, &g, SizeMetric::NarSize, "d"), None);
    assert_eq!(include_node_in_current_graph(&mut rg, &g, SizeMetric::NarSize, "nope"), None);
    assert_eq!(rg.edges, before);
    assert_eq!(rg.ids.len(), 4);
}

fn fan_graph(n: usize) -> SystemGraph {
    let names: Vec<String> = (0..n).map(|i| format!("n{i:04}")).collect();
    let refs: Vec<&str> = names.iter().map(|s| s.as_str()).collect();
    let mut entries = vec![entry("hub", 1, &refs)];
    for name in &names {
        entries.push(entry(name, 1, &["hub"]));
    }
    build("hub", entries)
}

#[test]
fn related_nodes_stay_within_the_cap() {
    let g = fan_graph(1000);
    let (rg, _) = rebuild_render_graph(&g, SizeMetric::NarSize, 0, 2000, None, None).unwrap();
    assert_eq!(rg.ids.len(), 1001);
    let h = build_highlight_state(&rg, 0);
    assert!(h.related_nodes.len() <= RELATED_NODE_LIMIT);
    // 160 neighbours each way, the same nodes: 161 with the hub
    assert_eq!(h.related_nodes.len(), 161);
    assert_eq!(h.related_edges.len(), 320);
    let again = build_highlight_state(&rg, 0);
    assert_eq!(h.related_nodes, again.related_nodes);
    assert!(h.related_edges.iter().all(|&(a, b)| a == 0 || b == 0));
    let by_id = build_highlight_state_for_selected_id(&g, &rg, "hub").unwrap();
    assert!(by_id.related_edges.iter().all(|&(a, b)| a == 0 || b == 0));
    assert!(by_id.related_nodes.len() <= RELATED_NODE_LIMIT);
    assert!(build_highlight_state_for_selected_id(&g, &rg, "missing").is_none());
}

#[test]
fn related_expansion_stops_at_the_limit() {
    let adjacency: Vec<Vec<usize>> = vec![(1..1000).collect()];
    let mut nodes: Vec<usize> = (5000..5270).collect();
    let mut edges = Vec::new();
    collect_related_paths(&adjacency, 0, true, &mut nodes, &mut edges);
    // the selected node and eight neighbours fill the set up to the limit
    assert_eq!(nodes.len(), RELATED_NODE_LIMIT);
    assert_eq!(edges.len(), 9);
    assert_eq!(edges[0], (0, 1));
    let mut nodes = vec![0usize];
    let mut edges = Vec::new();
    collect_related_paths(&adjacency, 0, false, &mut nodes, &mut edges);
    assert_eq!(nodes.len(), 161);
    assert_eq!(edges[0], (1, 0));
}

#[test]
fn related_by_id_maps_to_shown_nodes() {
    let g = sample();
    let (rg, _) = rebuild_render_graph(&g, SizeMetric::NarSize, 250, 450, None, None).unwrap();
    let mut nodes = Vec::new();
    let mut edges = Vec::new();
    collect_related_paths_by_id(&g, &rg, "a", true, &mut nodes, &mut edges);
    // a -> b is shown, a -> d is not
    assert_eq!(nodes, vec![1, 2]);
    assert_eq!(edges, vec![(1, 2)]);
}

#[test]
fn root_path_overlay() {
    let g = sample();
    let (rg, _) = rebuild_render_graph(&g, SizeMetric::NarSize, 0, 450, None, None).unwrap();
    let (nodes, edges) = shortest_root_path(&rg, 0, 4);
    assert_eq!(nodes, vec![0, 1, 4]);
    assert_eq!(edges, vec![(0, 1), (1, 4)]);
    let (nodes, edges) = shortest_root_path(&rg, 3, 0);
    assert!(nodes.is_empty() && edges.is_empty());
    let (nodes, _) = shortest_root_path(&rg, 0, 99);
    assert!(nodes.is_empty());
    let h = build_highlight_state(&rg, 4);
    assert_eq!(h.root_path_nodes, vec![0, 1, 4]);
    let h = build_highlight_state_for_selected_id(&g, &rg, "d").unwrap();
    assert_eq!(h.root_path_nodes, vec![0, 1, 4]);
    assert_eq!(h.root_path_edges, vec![(0, 1), (1, 4)]);
}

#[test]
fn pseudo_matches_use_short_names() {
    let g = build("/s/r-root", vec![entry("r-root", 1, &["h1-firefox", "h2-bash"]), entry("h1-firefox", 1, &[]), entry("h2-bash", 1, &[])]);
    let (rg, _) = rebuild_render_graph(&g, SizeMetric::NarSize, 0, 10, None, None).unwrap();
    let m = nix_analyze::search::pseudo_matches(&rg, "fire");
    assert_eq!(m.len(), 1);
    assert_eq!(rg.ids[m[0]], "h1-firefox");
    // the hash prefix is not searched
    assert!(nix_analyze::search::pseudo_matches(&rg, "h1").is_empty());
}
