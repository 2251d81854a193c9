use nix_analyze::lod::{density_stride, draw_order, edge_stride, skip_edge};
use nix_analyze::quadtree::{build_quadtree, quadrant, QuadTree, QUADTREE_LEAF_CAPACITY};
use nix_analyze::search::{fuzzy_match_score, matched_indices};

fn check_masses(t: &QuadTree) {
    for cell in &t.cells {
        if cell.children.is_empty() {
            assert_eq!(cell.mass, cell.indices.len());
        } else {
            assert!(cell.indices.is_empty());
            let sum: usize = cell.children.iter().map(|&c| t.cells[c].mass).sum();
            assert_eq!(cell.mass, sum);
        }
    }
}

#[test]
fn quadtree_empty_input_gives_none() {
    assert!(build_quadtree(&vec![]).is_none());
}

#[test]
fn quadtree_splits_past_leaf_capacity() {
    // 16 points in the four quadrants of the root
    let codes: Vec<u32> = (0..16u32).map(|i| i % 4).collect();
    let t = build_quadtree(&codes).unwrap();
    let root = &t.cells[t.root];
    assert_eq!(root.mass, 16);
    assert_eq!(root.children.len(), 4);
    for &c in &root.children {
        assert_eq!(t.cells[c].mass, 4);
        assert_eq!(t.cells[c].depth, 1);
    }
    check_masses(&t);
}

#[test]
fn quadtree_small_sets_and_coincident_points_stay_leaves() {
    let t = build_quadtree(&vec![0, 1, 2, 3]).unwrap();
    assert_eq!(t.cells.len(), 1);
    assert_eq!(t.cells[t.root].indices, vec![0, 1, 2, 3]);
    let same = vec![7u32; QUADTREE_LEAF_CAPACITY + 5];
    let t = build_quadtree(&same).unwrap();
    assert_eq!(t.cells.len(), 1);
    assert_eq!(t.cells[t.root].mass, QUADTREE_LEAF_CAPACITY + 5);
}

#[test]
fn quadtree_masses_add_up_on_deep_trees() {
    let codes: Vec<u32> = (0..500u32).map(|i| i.wrapping_mul(2654435761)).collect();
    let t = build_quadtree(&codes).unwrap();
    assert_eq!(t.cells[t.root].mass, 500);
    check_masses(&t);
    let leaves: usize = t.cells.iter().filter(|c| c.children.is_empty()).map(|c| c.indices.len()).sum();
    assert_eq!(leaves, 500);
}

#[test]
fn quadrant_reads_two_bits_per_level() {
    let code = 0b11_10_01_00u32;
    assert_eq!(quadrant(code, 0), 0);
    assert_eq!(quadrant(code, 1), 1);
    assert_eq!(quadrant(code, 2), 2);
    assert_eq!(quadrant(code, 3), 3);
}

#[test]
fn density_strides_grow_with_density() {
    assert_eq!(density_stride(0), 1);
    assert_eq!(density_stride(40), 1);
    assert_eq!(density_stride(41), 2);
    assert_eq!(density_stride(71), 3);
    assert_eq!(density_stride(111), 4);
    let mut last = 0;
    for d in 0..200 {
        let s = density_stride(d);
        assert!(s >= last);
        last = s;
    }
    assert_eq!(edge_stride(200, 2, 1), 2);
    assert_eq!(edge_stride(200, 4, 1), 4);
    assert_eq!(edge_stride(0, 4, 3), 3);
}

#[test]
fn skip_edge_is_a_deterministic_hash_test() {
    assert!(!skip_edge(5, 9, 1));
    // 2*31 ^ 4*131 = 62 ^ 524 = 562, even
    assert!(!skip_edge(2, 4, 2));
    // 1*31 ^ 0 = 31
    assert!(skip_edge(1, 0, 2));
    assert!(!skip_edge(1, 0, 31));
    assert_eq!(skip_edge(7, 3, 3), skip_edge(7, 3, 3));
}

#[test]
fn draw_order_paints_large_nodes_last() {
    assert_eq!(draw_order(&vec![5, 1, 5, 0]), vec![3, 1, 0, 2]);
    assert!(draw_order(&vec![]).is_empty());
}

#[test]
fn fuzzy_scores_fall_back_to_lowercase() {
    assert!(fuzzy_match_score("hello-world", "hw").is_some());
    assert!(fuzzy_match_score("hello", "xyz").is_none());
    assert_eq!(fuzzy_match_score("anything", ""), Some(0));
    // an upper-case query is case-sensitive for skim; the lowered retry matches
    assert!(fuzzy_match_score("firefox", "FIRE").is_some());
}

#[test]
fn matched_indices_lists_present_scores() {
    assert_eq!(matched_indices(&vec![Some(3), None, Some(0)]), vec![0, 2]);
}

#[test]
fn quadtree_single_point_is_one_leaf() {
    let t = build_quadtree(&vec![9]).unwrap();
    assert_eq!(t.cells.len(), 1);
    assert!(t.is_leaf(t.root));
    assert_eq!(t.cells[t.root].indices, vec![0]);
    assert_eq!(t.cells[t.root].mass, 1);
    assert_eq!(t.cells[t.root].depth, 0);
}

#[test]
fn quadtree_leaves_partition_points_and_follow_paths() {
    let codes: Vec<u32> = (0..300u32).map(|i| i.wrapping_mul(2246822519)).collect();
    let t = build_quadtree(&codes).unwrap();
    let mut seen = vec![0usize; codes.len()];
    for cell in &t.cells {
        assert_eq!(cell.depth, cell.path.len());
        if cell.children.is_empty() {
            assert!(cell.indices.len() <= QUADTREE_LEAF_CAPACITY || cell.depth == 10);
            for &i in &cell.indices {
                seen[i] += 1;
                for (level, &q) in cell.path.iter().enumerate() {
                    assert_eq!(quadrant(codes[i], level), q);
                }
            }
        } else {
            for &c in &cell.children {
                assert_eq!(t.cells[c].depth, cell.depth + 1);
                assert_eq!(t.cells[c].path[cell.depth], t.cells[c].quadrant);
            }
        }
    }
    assert!(seen.iter().all(|&n| n == 1));
}
