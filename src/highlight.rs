use vstd::prelude::*;
use crate::graph::SystemGraph;
use crate::paths::{adj_wf, bfs_path, is_walk, reaches};
use crate::render::{no_repeats, pair_no_repeats, RenderGraph};

verus! {

/// Most nodes a related set holds.
pub const RELATED_NODE_LIMIT: usize = 280;

/// Most neighbours looked at per node.
pub const RELATED_NEIGHBOR_LIMIT: usize = 160;


/// The edge between the selected node `s` and neighbour `x`, in reference
/// direction.
pub open spec fn oriented(s: usize, x: usize, forward: bool) -> (usize, usize) {
    if forward {
        (s, x)
    } else {
        (x, s)
    }
}

/// Nodes that step `q` touches: the selected node and the neighbour, where
/// they are shown.
pub open spec fn step_nodes(sel: Option<usize>, nbrs: Seq<Option<usize>>, q: int) -> Set<usize> {
    let a: Set<usize> = match sel {
        Some(s) => set![s],
        None => Set::empty(),
    };
    match nbrs[q] {
        Some(x) => a.insert(x),
        None => a,
    }
}

/// Nodes touched by the first `t` steps.
pub open spec fn touched_nodes(sel: Option<usize>, nbrs: Seq<Option<usize>>, t: int) -> Set<usize> {
    Set::new(|x: usize| exists|q: int| 0 <= q < t && #[trigger] step_nodes(sel, nbrs, q).contains(x))
}

/// Edges touched by the first `t` steps (where both ends are shown).
pub open spec fn touched_edges(
    sel: Option<usize>,
    nbrs: Seq<Option<usize>>,
    forward: bool,
    t: int,
) -> Set<(usize, usize)> {
    Set::new(
        |e: (usize, usize)|
            exists|q: int|
                0 <= q < t && sel is Some && nbrs[q] is Some && e == oriented(
                    sel->0,
                    #[trigger] nbrs[q]->0,
                    forward,
                ),
    )
}

/// How many nodes step `q` would add to `nodes`.
pub open spec fn new_count(nodes: Seq<usize>, sel: Option<usize>, nbrs: Seq<Option<usize>>, q: int) -> int {
    let s_new: int = match sel {
        Some(s) => if nodes.contains(s) {
            0
        } else {
            1
        },
        None => 0,
    };
    let x_new: int = match nbrs[q] {
        Some(x) => if nodes.contains(x) || sel == Some(x) {
            0
        } else {
            1
        },
        None => 0,
    };
    s_new + x_new
}

fn contains_index(v: &Vec<usize>, x: usize) -> (r: bool)
    ensures
        r == v@.contains(x),
{
    let mut k: usize = 0;
    while k < v.len()
        invariant
            k <= v@.len(),
            forall|j: int| 0 <= j < k ==> v@[j] != x,
        decreases v@.len() - k,
    {
        if v[k] == x {
            return true;
        }
        k = k + 1;
    }
    false
}

fn contains_pair(v: &Vec<(usize, usize)>, x: (usize, usize)) -> (r: bool)
    ensures
        r == v@.contains(x),
{
    let mut k: usize = 0;
    while k < v.len()
        invariant
            k <= v@.len(),
            forall|j: int| 0 <= j < k ==> v@[j] != x,
        decreases v@.len() - k,
    {
        if v[k].0 == x.0 && v[k].1 == x.1 {
            return true;
        }
        k = k + 1;
    }
    false
}

fn push_new(v: &mut Vec<usize>, x: usize)
    requires
        no_repeats(old(v)@),
    ensures
        no_repeats(final(v)@),
        final(v)@.to_set() == old(v)@.to_set().insert(x),
        final(v)@.len() == old(v)@.len() + if old(v)@.contains(x) {
            0int
        } else {
            1int
        },
{
    if !contains_index(v, x) {
        v.push(x);
    }
    assert(final(v)@.to_set() =~= old(v)@.to_set().insert(x)) by {
        assert forall|y: usize| final(v)@.to_set().contains(y) <==> old(v)@.to_set().insert(x).contains(y) by {
            if final(v)@.contains(y) && y != x {
                let t = choose|t: int| 0 <= t < final(v)@.len() && final(v)@[t] == y;
                assert(old(v)@[t] == y);
            }
            if old(v)@.contains(y) {
                let t = choose|t: int| 0 <= t < old(v)@.len() && old(v)@[t] == y;
                assert(final(v)@[t] == y);
            }
            if y == x && !old(v)@.contains(x) {
                assert(final(v)@[final(v)@.len() - 1] == x);
            }
        }
    }
}

fn push_new_pair(v: &mut Vec<(usize, usize)>, x: (usize, usize))
    requires
        pair_no_repeats(old(v)@),
    ensures
        pair_no_repeats(final(v)@),
        final(v)@.to_set() == old(v)@.to_set().insert(x),
{
    if !contains_pair(v, x) {
        v.push(x);
    }
    assert(final(v)@.to_set() =~= old(v)@.to_set().insert(x)) by {
        assert forall|y: (usize, usize)| final(v)@.to_set().contains(y) <==> old(v)@.to_set().insert(x).contains(y) by {
            if final(v)@.contains(y) && y != x {
                let t = choose|t: int| 0 <= t < final(v)@.len() && final(v)@[t] == y;
                assert(old(v)@[t] == y);
            }
            if old(v)@.contains(y) {
                let t = choose|t: int| 0 <= t < old(v)@.len() && old(v)@[t] == y;
                assert(final(v)@[t] == y);
            }
            if y == x && !old(v)@.contains(x) {
                assert(final(v)@[final(v)@.len() - 1] == x);
            }
        }
    }
}

/// Adds to `nodes` and `edges` what each step touches, in order, while the
/// node set stays within `RELATED_NODE_LIMIT`: the first step that would
/// push it past the limit, and every later one, is left out.
fn add_related(
    nodes: &mut Vec<usize>,
    edges: &mut Vec<(usize, usize)>,
    sel: Option<usize>,
    nbrs: &Vec<Option<usize>>,
    forward: bool,
)
    requires
        no_repeats(old(nodes)@),
        pair_no_repeats(old(edges)@),
    ensures
        no_repeats(final(nodes)@),
        pair_no_repeats(final(edges)@),
        related_from(
            old(nodes)@.to_set(),
            old(edges)@.to_set(),
            sel,
            nbrs@,
            forward,
            final(nodes)@,
            final(edges)@,
        ),
        final(nodes)@.len() <= if old(nodes)@.len() > RELATED_NODE_LIMIT {
            old(nodes)@.len() as int
        } else {
            RELATED_NODE_LIMIT as int
        },
{
    let ghost n0 = old(nodes)@;
    let ghost e0 = old(edges)@;
    let ghost bound: int = if n0.len() > RELATED_NODE_LIMIT {
        n0.len() as int
    } else {
        RELATED_NODE_LIMIT as int
    };
    let mut q: usize = 0;
    while q < nbrs.len()
        invariant
            n0 == old(nodes)@,
            e0 == old(edges)@,
            bound == if n0.len() > RELATED_NODE_LIMIT {
                n0.len() as int
            } else {
                RELATED_NODE_LIMIT as int
            },
            q <= nbrs@.len(),
            no_repeats(nodes@),
            pair_no_repeats(edges@),
            nodes@.to_set() == n0.to_set().union(touched_nodes(sel, nbrs@, q as int)),
            edges@.to_set() == e0.to_set().union(touched_edges(sel, nbrs@, forward, q as int)),
            nodes@.len() <= bound,
            forall|r: int| 0 <= r < q ==> #[trigger] fits_through(n0.to_set(), sel, nbrs@, r),
        decreases nbrs@.len() - q,
    {
        let s_new: usize = match sel {
            Some(s) => if contains_index(nodes, s) {
                0
            } else {
                1
            },
            None => 0,
        };
        let x_new: usize = match nbrs[q] {
            Some(x) => {
                let same = match sel {
                    Some(s) => s == x,
                    None => false,
                };
                if same || contains_index(nodes, x) {
                    0
                } else {
                    1
                }
            },
            None => 0,
        };
        assert(s_new + x_new == new_count(nodes@, sel, nbrs@, q as int));
        if nodes.len() > RELATED_NODE_LIMIT - s_new - x_new {
            return;
        }
        let ghost before_n = nodes@;
        let ghost before_e = edges@;
        match sel {
            Some(s) => push_new(nodes, s),
            None => {},
        }
        let ghost mid_n = nodes@;
        match nbrs[q] {
            Some(x) => push_new(nodes, x),
            None => {},
        }
        proof {
            match sel {
                Some(s) => {
                    assert(mid_n.to_set().contains(s));
                    assert(mid_n.contains(s));
                    assert(mid_n.len() == before_n.len() + s_new);
                },
                None => {
                    assert(mid_n == before_n);
                },
            }
            match nbrs@[q as int] {
                Some(x) => {
                    if before_n.contains(x) || sel == Some(x) {
                        assert(mid_n.contains(x)) by {
                            if before_n.contains(x) {
                                assert(mid_n.to_set().contains(x));
                            } else {
                                assert(mid_n.to_set().contains(x));
                            }
                        }
                    } else {
                        assert(!mid_n.contains(x)) by {
                            if mid_n.contains(x) {
                                assert(mid_n.to_set().contains(x));
                            }
                        }
                    }
                },
                None => {},
            }
            assert(nodes@.len() == before_n.len() + s_new + x_new);
        }
        match (sel, nbrs[q]) {
            (Some(s), Some(x)) => {
                let e = if forward {
                    (s, x)
                } else {
                    (x, s)
                };
                push_new_pair(edges, e);
            },
            _ => {},
        }
        proof {
            assert(nodes@.to_set() =~= before_n.to_set().union(step_nodes(sel, nbrs@, q as int)));
            assert(touched_nodes(sel, nbrs@, q + 1) =~= touched_nodes(sel, nbrs@, q as int).union(
                step_nodes(sel, nbrs@, q as int),
            )) by {
                assert forall|x: usize| #[trigger] touched_nodes(sel, nbrs@, q + 1).contains(x) implies touched_nodes(sel, nbrs@, q as int).union(
                step_nodes(sel, nbrs@, q as int)).contains(x) by {
                    let r = choose|r: int| 0 <= r < q + 1 && #[trigger] step_nodes(sel, nbrs@, r).contains(x);
                    if r < q {
                        assert(touched_nodes(sel, nbrs@, q as int).contains(x));
                    }
                }
                assert forall|x: usize| #[trigger] touched_nodes(sel, nbrs@, q as int).union(
                step_nodes(sel, nbrs@, q as int)).contains(x) implies touched_nodes(sel, nbrs@, q + 1).contains(x) by {
                    if touched_nodes(sel, nbrs@, q as int).contains(x) {
                        let r = choose|r: int| 0 <= r < q && #[trigger] step_nodes(sel, nbrs@, r).contains(x);
                        assert(step_nodes(sel, nbrs@, r).contains(x));
                    } else {
                        assert(step_nodes(sel, nbrs@, q as int).contains(x));
                    }
                }
            }
            assert(edges@.to_set() =~= e0.to_set().union(touched_edges(sel, nbrs@, forward, q + 1))) by {
                assert forall|e: (usize, usize)| edges@.to_set().contains(e) <==> e0.to_set().union(
                    touched_edges(sel, nbrs@, forward, q + 1)).contains(e) by {
                    if touched_edges(sel, nbrs@, forward, q + 1).contains(e) && !touched_edges(sel, nbrs@, forward, q as int).contains(e) {
                        let r = choose|r: int| 0 <= r < q + 1 && sel is Some && nbrs@[r] is Some && e == oriented(
                            sel->0, #[trigger] nbrs@[r]->0, forward);
                        assert(r == q as int);
                    }
                    if touched_edges(sel, nbrs@, forward, q as int).contains(e) {
                        let r = choose|r: int| 0 <= r < q && sel is Some && nbrs@[r] is Some && e == oriented(
                            sel->0, #[trigger] nbrs@[r]->0, forward);
                        assert(touched_edges(sel, nbrs@, forward, q + 1).contains(e));
                    }
                    if sel is Some && nbrs@[q as int] is Some && e == oriented(sel->0, nbrs@[q as int]->0, forward) {
                        assert(touched_edges(sel, nbrs@, forward, q + 1).contains(e));
                    }
                }
            }
        }
        proof {
            nodes@.unique_seq_to_set();
            assert(nodes@.to_set() =~= n0.to_set().union(touched_nodes(sel, nbrs@, q + 1)));
            assert(nodes@.len() <= RELATED_NODE_LIMIT);
            assert(fits_through(n0.to_set(), sel, nbrs@, q as int));
        }
        q = q + 1;
    }
}

/// Related and root-path overlays for a selection (render indices).
#[derive(Clone, Debug)]
pub struct HighlightState {
    pub related_nodes: Vec<usize>,
    pub related_edges: Vec<(usize, usize)>,
    pub root_path_nodes: Vec<usize>,
    pub root_path_edges: Vec<(usize, usize)>,
}

/// The first `RELATED_NEIGHBOR_LIMIT` entries of `list`, all present.
pub open spec fn first_neighbors(list: Seq<usize>) -> Seq<Option<usize>> {
    let k = if list.len() > RELATED_NEIGHBOR_LIMIT {
        RELATED_NEIGHBOR_LIMIT as int
    } else {
        list.len() as int
    };
    Seq::new(k as nat, |i: int| Some(list[i]))
}

/// `nodes`/`edges` grew from `n0`/`e0` by the steps over `nbrs` that fit in
/// the node limit.
pub open spec fn related_from(
    n0: Set<usize>,
    e0: Set<(usize, usize)>,
    sel: Option<usize>,
    nbrs: Seq<Option<usize>>,
    forward: bool,
    nodes: Seq<usize>,
    edges: Seq<(usize, usize)>,
) -> bool {
    &&& no_repeats(nodes)
    &&& pair_no_repeats(edges)
    &&& exists|t: int|
        0 <= t <= nbrs.len() && nodes.to_set() == n0.union(#[trigger] touched_nodes(sel, nbrs, t))
            && edges.to_set() == e0.union(touched_edges(sel, nbrs, forward, t)) && (t < nbrs.len()
            ==> nodes.len() + new_count(nodes, sel, nbrs, t) > RELATED_NODE_LIMIT) && (forall|r: int|
            0 <= r < t ==> #[trigger] fits_through(n0, sel, nbrs, r))
}

/// After step `r` the node set is still within `RELATED_NODE_LIMIT`.
pub open spec fn fits_through(n0: Set<usize>, sel: Option<usize>, nbrs: Seq<Option<usize>>, r: int) -> bool {
    n0.union(touched_nodes(sel, nbrs, r + 1)).len() <= RELATED_NODE_LIMIT
}

fn first_neighbors_exec(list: &Vec<usize>) -> (r: Vec<Option<usize>>)
    ensures
        r@ == first_neighbors(list@),
{
    let k = if list.len() > RELATED_NEIGHBOR_LIMIT {
        RELATED_NEIGHBOR_LIMIT
    } else {
        list.len()
    };
    let mut r: Vec<Option<usize>> = Vec::new();
    let mut i: usize = 0;
    while i < k
        invariant
            k <= list@.len(),
            k == if list@.len() > RELATED_NEIGHBOR_LIMIT {
                RELATED_NEIGHBOR_LIMIT as int
            } else {
                list@.len() as int
            },
            i <= k,
            r@ == first_neighbors(list@).take(i as int),
        decreases k - i,
    {
        r.push(Some(list[i]));
        i = i + 1;
    }
    r
}

/// One hop of related-node expansion from `selected_index` along
/// `adjacency` (outgoing lists when `forward`, incoming otherwise): the
/// first `RELATED_NEIGHBOR_LIMIT` neighbours and the edges to them are
/// added, while the node set stays within `RELATED_NODE_LIMIT`.
pub fn collect_related_paths(
    adjacency: &Vec<Vec<usize>>,
    selected_index: usize,
    forward: bool,
    related_nodes: &mut Vec<usize>,
    related_edges: &mut Vec<(usize, usize)>,
)
    requires
        selected_index < adjacency@.len(),
        no_repeats(old(related_nodes)@),
        pair_no_repeats(old(related_edges)@),
    ensures
        related_from(
            old(related_nodes)@.to_set(),
            old(related_edges)@.to_set(),
            Some(selected_index),
            first_neighbors(adjacency@[selected_index as int]@),
            forward,
            final(related_nodes)@,
            final(related_edges)@,
        ),
        final(related_nodes)@.len() <= if old(related_nodes)@.len() > RELATED_NODE_LIMIT {
            old(related_nodes)@.len() as int
        } else {
            RELATED_NODE_LIMIT as int
        },
{
    let nbrs = first_neighbors_exec(&adjacency[selected_index]);
    add_related(related_nodes, related_edges, Some(selected_index), &nbrs, forward);
}

/// Render index of record `g`, if it is shown.
fn render_position(cache: &RenderGraph, g: usize) -> (r: Option<usize>)
    ensures
        r matches Some(i) ==> i < cache.graph_index@.len() && cache.graph_index@[i as int] == g,
        r is None ==> !cache.graph_index@.contains(g),
{
    let mut i: usize = 0;
    while i < cache.graph_index.len()
        invariant
            i <= cache.graph_index@.len(),
            forall|j: int| 0 <= j < i ==> cache.graph_index@[j] != g,
        decreases cache.graph_index@.len() - i,
    {
        if cache.graph_index[i] == g {
            return Some(i);
        }
        i = i + 1;
    }
    None
}

/// Render index of each of the first `RELATED_NEIGHBOR_LIMIT` records of
/// `list`, where shown.
pub open spec fn shown_neighbors(cache: RenderGraph, list: Seq<usize>) -> Seq<Option<usize>> {
    let k = if list.len() > RELATED_NEIGHBOR_LIMIT {
        RELATED_NEIGHBOR_LIMIT as int
    } else {
        list.len() as int
    };
    Seq::new(
        k as nat,
        |i: int|
            if cache.graph_index@.contains(list[i]) {
                Some(choose|j: usize| (j as int) < cache.graph_index@.len() && cache.graph_index@[j as int] == list[i])
            } else {
                None
            },
    )
}

pub open spec fn as_index(o: Option<int>) -> Option<usize> {
    match o {
        Some(i) => Some(i as usize),
        None => None,
    }
}

/// One hop of related-node expansion over the full graph from the record
/// `selected_id` (references when `forward`, referrers otherwise), mapped to
/// the render graph's indices; neighbours that are not shown count as steps
/// but add nothing.
pub fn collect_related_paths_by_id(
    graph: &SystemGraph,
    cache: &RenderGraph,
    selected_id: &str,
    forward: bool,
    related_nodes: &mut Vec<usize>,
    related_edges: &mut Vec<(usize, usize)>,
)
    requires
        graph.wf(),
        cache.wf(),
        no_repeats(cache.graph_index@),
        no_repeats(old(related_nodes)@),
        pair_no_repeats(old(related_edges)@),
    ensures
        graph.spec_index_of(selected_id@) is None ==> final(related_nodes)@ == old(related_nodes)@
            && final(related_edges)@ == old(related_edges)@,
        graph.spec_index_of(selected_id@) matches Some(g) ==> related_from(
            old(related_nodes)@.to_set(),
            old(related_edges)@.to_set(),
            as_index(cache.spec_index_of(selected_id@)),
            shown_neighbors(
                *cache,
                if forward {
                    graph.reference_index@[g]@
                } else {
                    graph.referrer_index@[g]@
                },
            ),
            forward,
            final(related_nodes)@,
            final(related_edges)@,
        ),
        final(related_nodes)@.len() <= if old(related_nodes)@.len() > RELATED_NODE_LIMIT {
            old(related_nodes)@.len() as int
        } else {
            RELATED_NODE_LIMIT as int
        },
{
    let g = match graph.index_of(selected_id) {
        Some(g) => g,
        None => return,
    };
    let list = if forward {
        &graph.reference_index[g]
    } else {
        &graph.referrer_index[g]
    };
    let k = if list.len() > RELATED_NEIGHBOR_LIMIT {
        RELATED_NEIGHBOR_LIMIT
    } else {
        list.len()
    };
    let mut nbrs: Vec<Option<usize>> = Vec::new();
    let mut i: usize = 0;
    while i < k
        invariant
            no_repeats(cache.graph_index@),
            k <= list@.len(),
            k == if list@.len() > RELATED_NEIGHBOR_LIMIT {
                RELATED_NEIGHBOR_LIMIT as int
            } else {
                list@.len() as int
            },
            i <= k,
            nbrs@ == shown_neighbors(*cache, list@).take(i as int),
        decreases k - i,
    {
        let p = render_position(cache, list[i]);
        proof {
            if let Some(x) = p {
                let c = choose|j: usize| (j as int) < cache.graph_index@.len() && cache.graph_index@[j as int] == list@[i as int];
                assert(cache.graph_index@[c as int] == cache.graph_index@[x as int]);
            }
        }
        nbrs.push(p);
        i = i + 1;
    }
    let sel = cache.index_of(selected_id);
    proof {
        assert(sel == as_index(cache.spec_index_of(selected_id@)));
        assert(nbrs@ == shown_neighbors(*cache, list@));
        assert(graph.spec_index_of(selected_id@) == Some(g as int));
    }
    add_related(related_nodes, related_edges, sel, &nbrs, forward);
}

/// Nodes and edges of the breadth-first root path to `target_index` in the
/// render graph; empty when it is unreachable or an index is out of range.
pub fn shortest_root_path(cache: &RenderGraph, root_index: usize, target_index: usize) -> (r: (
    Vec<usize>,
    Vec<(usize, usize)>,
))
    requires
        cache.wf(),
    ensures
        (r.0@.len() > 0) <==> (root_index < cache.ids@.len() && target_index < cache.ids@.len()
            && reaches(cache.outgoing@, root_index as int, target_index as int)),
        r.0@.len() > 0 ==> {
            &&& is_walk(cache.outgoing@, r.0@)
            &&& r.0@[0] == root_index
            &&& r.0@[r.0@.len() - 1] == target_index
            &&& r.1@.len() == r.0@.len() - 1
            &&& forall|k: int| 0 <= k < r.1@.len() ==> #[trigger] r.1@[k] == (r.0@[k], r.0@[k + 1])
            &&& forall|u: Seq<usize>|
                #[trigger] is_walk(cache.outgoing@, u) && u[0] == root_index && u[u.len() - 1]
                    == target_index ==> r.0@.len() <= u.len()
        },
        r.0@.len() == 0 ==> r.1@.len() == 0,
{
    let n = cache.ids.len();
    if root_index >= n || target_index >= n {
        return (Vec::new(), Vec::new());
    }
    assert(adj_wf(cache.outgoing@));
    match bfs_path(&cache.outgoing, root_index, target_index) {
        Some(w) => {
            let mut edges: Vec<(usize, usize)> = Vec::new();
            let mut k: usize = 0;
            while k < w.len() - 1
                invariant
                    w@.len() >= 1,
                    k < w@.len(),
                    edges@.len() == k,
                    forall|j: int| 0 <= j < k ==> #[trigger] edges@[j] == (w@[j], w@[j + 1]),
                decreases w@.len() - k,
            {
                edges.push((w[k], w[k + 1]));
                k = k + 1;
            }
            (w, edges)
        },
        None => (Vec::new(), Vec::new()),
    }
}

/// Highlight for a selected render node: its one-hop neighbourhood both
/// ways, and the root path when the graph shows its root.
pub fn build_highlight_state(cache: &RenderGraph, selected_index: usize) -> (h: HighlightState)
    requires
        cache.wf(),
        selected_index < cache.ids@.len(),
    ensures
        h.related_nodes@.len() <= RELATED_NODE_LIMIT,
        h.related_nodes@.contains(selected_index),
        edges_touch(selected_index, h.related_edges@),
        exists|mid_n: Seq<usize>, mid_e: Seq<(usize, usize)>|
            #[trigger] related_from(
                set![selected_index],
                Set::empty(),
                Some(selected_index),
                first_neighbors(cache.outgoing@[selected_index as int]@),
                true,
                mid_n,
                mid_e,
            ) && related_from(
                mid_n.to_set(),
                mid_e.to_set(),
                Some(selected_index),
                first_neighbors(cache.incoming@[selected_index as int]@),
                false,
                h.related_nodes@,
                h.related_edges@,
            ),
        cache.root_index is None ==> h.root_path_nodes@.len() == 0 && h.root_path_edges@.len() == 0,
        cache.root_index matches Some(root) ==> {
            &&& (h.root_path_nodes@.len() > 0 <==> reaches(cache.outgoing@, root as int, selected_index as int))
            &&& h.root_path_nodes@.len() > 0 ==> is_walk(cache.outgoing@, h.root_path_nodes@)
                && h.root_path_nodes@[0] == root && h.root_path_nodes@[h.root_path_nodes@.len() - 1]
                == selected_index
        },
{
    let mut related_nodes: Vec<usize> = Vec::new();
    let mut related_edges: Vec<(usize, usize)> = Vec::new();
    related_nodes.push(selected_index);
    assert(related_nodes@.to_set() =~= set![selected_index]) by {
        assert(related_nodes@[0] == selected_index);
    }
    assert(related_edges@.to_set() =~= Set::empty());
    collect_related_paths(&cache.outgoing, selected_index, true, &mut related_nodes, &mut related_edges);
    let ghost mid_n = related_nodes@;
    let ghost mid_e = related_edges@;
    collect_related_paths(&cache.incoming, selected_index, false, &mut related_nodes, &mut related_edges);
    proof {
        assert(mid_n.to_set().contains(selected_index));
        assert(related_nodes@.to_set().contains(selected_index));
        lemma_related_edges_touch(
            set![selected_index],
            Set::empty(),
            Some(selected_index),
            first_neighbors(cache.outgoing@[selected_index as int]@),
            true,
            mid_n,
            mid_e,
        );
        assert forall|e: (usize, usize)| #[trigger] mid_e.to_set().contains(e) implies e.0 == selected_index
            || e.1 == selected_index by {
            let k = choose|k: int| 0 <= k < mid_e.len() && mid_e[k] == e;
            assert(edges_touch(selected_index, mid_e));
        }
        lemma_related_edges_touch(
            mid_n.to_set(),
            mid_e.to_set(),
            Some(selected_index),
            first_neighbors(cache.incoming@[selected_index as int]@),
            false,
            related_nodes@,
            related_edges@,
        );
    }
    let (root_path_nodes, root_path_edges) = match cache.root_index {
        Some(root) => shortest_root_path(cache, root, selected_index),
        None => (Vec::new(), Vec::new()),
    };
    HighlightState { related_nodes, related_edges, root_path_nodes, root_path_edges }
}

/// Render index of record `g`, if it is shown.
pub open spec fn shown_at(cache: RenderGraph, g: usize) -> Option<usize> {
    if cache.graph_index@.contains(g) {
        Some(choose|j: usize| (j as int) < cache.graph_index@.len() && cache.graph_index@[j as int] == g)
    } else {
        None
    }
}

/// Render indices of the shown records along the walk `w`, in order.
pub open spec fn shown_path_nodes(cache: RenderGraph, w: Seq<usize>) -> Seq<usize>
    decreases w.len(),
{
    if w.len() == 0 {
        seq![]
    } else {
        let rest = shown_path_nodes(cache, w.drop_last());
        match shown_at(cache, w.last()) {
            Some(j) => rest.push(j),
            None => rest,
        }
    }
}

/// Render edges for the steps of the walk `w` whose two ends are shown.
pub open spec fn shown_path_edges(cache: RenderGraph, w: Seq<usize>) -> Seq<(usize, usize)>
    decreases w.len(),
{
    if w.len() < 2 {
        seq![]
    } else {
        let rest = shown_path_edges(cache, w.drop_last());
        match (shown_at(cache, w[w.len() - 2]), shown_at(cache, w.last())) {
            (Some(a), Some(b)) => rest.push((a, b)),
            _ => rest,
        }
    }
}

/// Highlight for a selected record, by id: its one-hop neighbourhood over
/// the full graph both ways (mapped to shown nodes), and the shown part of
/// a shortest root path. `None` when no record has that id.
pub fn build_highlight_state_for_selected_id(
    graph: &SystemGraph,
    cache: &RenderGraph,
    selected_id: &str,
) -> (r: Option<HighlightState>)
    requires
        graph.wf(),
        cache.wf(),
        no_repeats(cache.graph_index@),
    ensures
        r is None <==> graph.spec_index_of(selected_id@) is None,
        r matches Some(h) ==> {
            let g = graph.spec_index_of(selected_id@)->0;
            let root = graph.spec_index_of(graph.root_id@);
            &&& h.related_nodes@.len() <= RELATED_NODE_LIMIT
            &&& match as_index(cache.spec_index_of(selected_id@)) {
                Some(s) => edges_touch(s, h.related_edges@),
                None => h.related_edges@.len() == 0,
            }
            &&& exists|mid_n: Seq<usize>, mid_e: Seq<(usize, usize)>|
                #[trigger] related_from(
                    Set::empty(),
                    Set::empty(),
                    as_index(cache.spec_index_of(selected_id@)),
                    shown_neighbors(*cache, graph.reference_index@[g]@),
                    true,
                    mid_n,
                    mid_e,
                ) && related_from(
                    mid_n.to_set(),
                    mid_e.to_set(),
                    as_index(cache.spec_index_of(selected_id@)),
                    shown_neighbors(*cache, graph.referrer_index@[g]@),
                    false,
                    h.related_nodes@,
                    h.related_edges@,
                )
            &&& (root is None || !reaches(graph.reference_index@, root->0, g)) ==> h.root_path_nodes@.len()
                == 0 && h.root_path_edges@.len() == 0
            &&& (root is Some && reaches(graph.reference_index@, root->0, g)) ==> exists|w: Seq<usize>|
                {
                    &&& #[trigger] is_walk(graph.reference_index@, w)
                    &&& w[0] == root->0
                    &&& w[w.len() - 1] == g
                    &&& forall|u: Seq<usize>|
                        #[trigger] is_walk(graph.reference_index@, u) && u[0] == w[0] && u[u.len() - 1]
                            == w[w.len() - 1] ==> w.len() <= u.len()
                    &&& h.root_path_nodes@ == shown_path_nodes(*cache, w)
                    &&& h.root_path_edges@ == shown_path_edges(*cache, w)
                }
        },
{
    let g = match graph.index_of(selected_id) {
        Some(g) => g,
        None => return None,
    };
    let mut related_nodes: Vec<usize> = Vec::new();
    let mut related_edges: Vec<(usize, usize)> = Vec::new();
    assert(related_nodes@.to_set() =~= Set::empty());
    assert(related_edges@.to_set() =~= Set::empty());
    collect_related_paths_by_id(graph, cache, selected_id, true, &mut related_nodes, &mut related_edges);
    let ghost mid_n = related_nodes@;
    let ghost mid_e = related_edges@;
    collect_related_paths_by_id(graph, cache, selected_id, false, &mut related_nodes, &mut related_edges);
    proof {
        let sel = as_index(cache.spec_index_of(selected_id@));
        lemma_related_edges_touch(
            Set::empty(),
            Set::empty(),
            sel,
            shown_neighbors(*cache, graph.reference_index@[g as int]@),
            true,
            mid_n,
            mid_e,
        );
        match sel {
            Some(sv) => {
                assert forall|e: (usize, usize)| #[trigger] mid_e.to_set().contains(e) implies e.0 == sv
                    || e.1 == sv by {
                    let k = choose|k: int| 0 <= k < mid_e.len() && mid_e[k] == e;
                    assert(edges_touch(sv, mid_e));
                }
            },
            None => {
                assert(mid_e.to_set() =~= Set::<(usize, usize)>::empty());
            },
        }
        lemma_related_edges_touch(
            mid_n.to_set(),
            mid_e.to_set(),
            sel,
            shown_neighbors(*cache, graph.referrer_index@[g as int]@),
            false,
            related_nodes@,
            related_edges@,
        );
    }
    let mut root_path_nodes: Vec<usize> = Vec::new();
    let mut root_path_edges: Vec<(usize, usize)> = Vec::new();
    let root = graph.index_of(graph.root_id.as_str());
    match root {
        Some(root) => {
            proof {
                assert forall|i: int, k: int|
                    0 <= i < graph.reference_index@.len() && 0 <= k < graph.reference_index@[i]@.len()
                        implies (#[trigger] graph.reference_index@[i]@[k] as int)
                    < graph.reference_index@.len() by {
                    assert(crate::graph::resolves(graph.nodes@, graph.nodes@[i].references@, graph.reference_index@[i]@));
                }
            }
            match bfs_path(&graph.reference_index, root, g) {
                Some(w) => {
                    let mut prev: Option<usize> = None;
                    let mut k: usize = 0;
                    while k < w.len()
                        invariant
                            no_repeats(cache.graph_index@),
                            k <= w@.len(),
                            root_path_nodes@ == shown_path_nodes(*cache, w@.take(k as int)),
                            root_path_edges@ == shown_path_edges(*cache, w@.take(k as int)),
                            k > 0 ==> prev == shown_at(*cache, w@[k - 1]),
                            k == 0 ==> prev is None,
                        decreases w@.len() - k,
                    {
                        let here = render_position(cache, w[k]);
                        proof {
                            if let Some(x) = here {
                                let c = choose|j: usize| (j as int) < cache.graph_index@.len() && cache.graph_index@[j as int] == w@[k as int];
                                assert(cache.graph_index@[c as int] == cache.graph_index@[x as int]);
                            }
                            assert(here == shown_at(*cache, w@[k as int]));
                            assert(w@.take(k + 1).drop_last() == w@.take(k as int));
                            assert(w@.take(k + 1).last() == w@[k as int]);
                            let t1 = w@.take(k + 1);
                            if k > 0 {
                                assert(t1[k - 1] == w@[k - 1]);
                                assert(t1[t1.len() - 2] == w@[k - 1]);
                                assert(shown_path_edges(*cache, t1) == match (prev, here) {
                                    (Some(a), Some(b)) => root_path_edges@.push((a, b)),
                                    _ => root_path_edges@,
                                });
                            } else {
                                assert(shown_path_edges(*cache, t1) == root_path_edges@);
                            }
                        }
                        match here {
                            Some(x) => {
                                root_path_nodes.push(x);
                                match prev {
                                    Some(p) => root_path_edges.push((p, x)),
                                    None => {},
                                }
                            },
                            None => {},
                        }
                        prev = here;
                        k = k + 1;
                    }
                    assert(w@.take(w@.len() as int) == w@);
                },
                None => {},
            }
        },
        None => {},
    }
    Some(HighlightState { related_nodes, related_edges, root_path_nodes, root_path_edges })
}

/// Every edge of a related set touches the selected node, when the starting
/// edges did; without a shown selected node no edge is added.
pub proof fn lemma_related_edges_touch(
    n0: Set<usize>,
    e0: Set<(usize, usize)>,
    sel: Option<usize>,
    nbrs: Seq<Option<usize>>,
    forward: bool,
    nodes: Seq<usize>,
    edges: Seq<(usize, usize)>,
)
    requires
        related_from(n0, e0, sel, nbrs, forward, nodes, edges),
        sel matches Some(s) ==> forall|e: (usize, usize)| #[trigger] e0.contains(e) ==> e.0 == s || e.1 == s,
        sel is None ==> e0 == Set::<(usize, usize)>::empty(),
    ensures
        sel matches Some(s) ==> edges_touch(s, edges),
        sel is None ==> edges.len() == 0,
{
    let t = choose|t: int|
        0 <= t <= nbrs.len() && nodes.to_set() == n0.union(#[trigger] touched_nodes(sel, nbrs, t))
            && edges.to_set() == e0.union(touched_edges(sel, nbrs, forward, t)) && (t < nbrs.len()
            ==> nodes.len() + new_count(nodes, sel, nbrs, t) > RELATED_NODE_LIMIT) && (forall|r: int|
            0 <= r < t ==> #[trigger] fits_through(n0, sel, nbrs, r));
    match sel {
        Some(s) => {
            assert forall|k: int| 0 <= k < edges.len() implies (#[trigger] edges[k]).0 == s || edges[k].1 == s by {
                let x = edges[k];
                assert(edges.contains(x));
                assert(edges.to_set().contains(x));
                assert(e0.union(touched_edges(sel, nbrs, forward, t)).contains(x));
                if !e0.contains(x) {
                    assert(touched_edges(sel, nbrs, forward, t).contains(x));
                    let q = choose|q: int|
                        0 <= q < t && sel is Some && nbrs[q] is Some && x == oriented(
                            sel->0,
                            #[trigger] nbrs[q]->0,
                            forward,
                        );
                }
            }
        },
        None => {
            if edges.len() > 0 {
                assert(edges.to_set().contains(edges[0]));
                assert(touched_edges(sel, nbrs, forward, t).contains(edges[0]));
            }
        },
    }
}

/// Every edge has `s` as an end.
pub open spec fn edges_touch(s: usize, edges: Seq<(usize, usize)>) -> bool {
    forall|k: int| 0 <= k < edges.len() ==> (#[trigger] edges[k]).0 == s || edges[k].1 == s
}

} // verus!
