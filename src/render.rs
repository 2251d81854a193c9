use vstd::prelude::*;
use crate::graph::{metric_keys, SizeMetric, SystemGraph};
use crate::rank::{is_top_ranking, rank_candidates};
use crate::text::str_eq;

verus! {

/// Strictly increasing.
pub open spec fn increasing(v: Seq<usize>) -> bool {
    forall|a: int, b: int| 0 <= a < b < v.len() ==> v[a] < v[b]
}

/// Strictly increasing in lexicographic order.
pub open spec fn pairs_increasing(v: Seq<(usize, usize)>) -> bool {
    forall|a: int, b: int|
        0 <= a < b < v.len() ==> (v[a].0 < v[b].0 || (v[a].0 == v[b].0 && v[a].1 < v[b].1))
}

pub open spec fn pair_no_repeats(v: Seq<(usize, usize)>) -> bool {
    forall|a: int, b: int| 0 <= a < v.len() && 0 <= b < v.len() && a != b ==> v[a] != v[b]
}

pub open spec fn no_repeats(v: Seq<usize>) -> bool {
    forall|a: int, b: int| 0 <= a < v.len() && 0 <= b < v.len() && a != b ==> v[a] != v[b]
}

/// Inserts `x` into the strictly increasing `v` unless it is already there.
fn insert_sorted(v: &mut Vec<usize>, x: usize)
    requires
        increasing(old(v)@),
    ensures
        increasing(final(v)@),
        forall|y: usize| #[trigger] final(v)@.contains(y) <==> (old(v)@.contains(y) || y == x),
{
    let mut k: usize = 0;
    while k < v.len() && v[k] < x
        invariant
            k <= v@.len(),
            forall|a: int| 0 <= a < k ==> v@[a] < x,
        decreases v@.len() - k,
    {
        k = k + 1;
    }
    if k < v.len() && v[k] == x {
        return;
    }
    let ghost old_v = v@;
    v.insert(k, x);
    assert(v@ == old_v.insert(k as int, x));
    assert forall|a: int, b: int| 0 <= a < b < v@.len() implies v@[a] < v@[b] by {
        if b < k {
            assert(v@[a] == old_v[a] && v@[b] == old_v[b]);
        } else if b == k {
            assert(v@[a] == old_v[a]);
        } else if a < k {
            assert(v@[a] == old_v[a] && v@[b] == old_v[b - 1]);
        } else if a == k {
            assert(v@[b] == old_v[b - 1]);
            assert(old_v[k as int] > x);
            if b - 1 > k {
                assert(old_v[k as int] < old_v[b - 1]);
            }
        } else {
            assert(v@[a] == old_v[a - 1] && v@[b] == old_v[b - 1]);
        }
    }
    assert forall|y: usize| #[trigger] v@.contains(y) <==> (old_v.contains(y) || y == x) by {
        if v@.contains(y) {
            let t = choose|t: int| 0 <= t < v@.len() && v@[t] == y;
            if t < k {
                assert(old_v[t] == y);
            } else if t > k {
                assert(old_v[t - 1] == y);
            }
        }
        if old_v.contains(y) {
            let t = choose|t: int| 0 <= t < old_v.len() && old_v[t] == y;
            if t < k {
                assert(v@[t] == y);
            } else {
                assert(v@[t + 1] == y);
            }
        }
        if y == x {
            assert(v@[k as int] == x);
        }
    }
}

pub open spec fn opt_view(o: Option<&str>) -> Option<Seq<char>> {
    match o {
        Some(s) => Some(s@),
        None => None,
    }
}

/// Graph positions that every render graph includes first: the root, then
/// the selected record when it is another one.
pub open spec fn pinned(g: SystemGraph, selected: Option<Seq<char>>) -> Seq<usize> {
    let root = g.spec_index_of(g.root_id@);
    let sel = match selected {
        Some(s) => g.spec_index_of(s),
        None => None,
    };
    let first: Seq<usize> = match root {
        Some(r) => seq![r as usize],
        None => seq![],
    };
    match sel {
        Some(x) => if root == Some(x) {
            first
        } else {
            first.push(x as usize)
        },
        None => first,
    }
}

/// How many nodes a render graph may hold: `max_nodes` clamped to at least
/// two and at most the graph's size (or two).
pub open spec fn node_budget(max_nodes: usize, n: nat) -> nat {
    let hi: nat = if n > 2 {
        n
    } else {
        2
    };
    if max_nodes < 2 {
        2
    } else if max_nodes > hi {
        hi
    } else {
        max_nodes as nat
    }
}

/// Records whose metric reaches `threshold`, other than the pinned ones.
pub open spec fn over_threshold(
    g: SystemGraph,
    metric: SizeMetric,
    threshold: u64,
    pins: Seq<usize>,
) -> Seq<bool> {
    Seq::new(
        g.nodes@.len(),
        |i: int| metric_keys(g.nodes@, metric)[i] >= threshold && !pins.contains(i as usize),
    )
}

pub open spec fn zeros(n: nat) -> Seq<u64> {
    Seq::new(n, |i: int| 0u64)
}

/// The graph positions of the nodes a render graph shows: the pinned ones,
/// then the records whose metric reaches `threshold` in decreasing metric
/// order (ties by position) until the node budget is used.
pub fn filtered_node_ids(
    graph: &SystemGraph,
    metric: SizeMetric,
    threshold: u64,
    max_nodes: usize,
    selected: Option<&str>,
) -> (r: Vec<usize>)
    requires
        graph.wf(),
    ensures
        exists|rest: Seq<usize>|
            #[trigger] is_top_ranking(
                metric_keys(graph.nodes@, metric),
                zeros(graph.nodes@.len()),
                over_threshold(*graph, metric, threshold, pinned(*graph, opt_view(selected))),
                (node_budget(max_nodes, graph.nodes@.len()) - pinned(
                    *graph,
                    opt_view(selected),
                ).len()) as nat,
                rest,
            ) && r@ == pinned(*graph, opt_view(selected)) + rest,
{
    let ghost pins = pinned(*graph, opt_view(selected));
    let n = graph.nodes.len();
    let root = graph.index_of(graph.root_id.as_str());
    let mut prefix: Vec<usize> = Vec::new();
    match root {
        Some(x) => prefix.push(x),
        None => {},
    }
    match selected {
        Some(s) => match graph.index_of(s) {
            Some(x) => {
                let same = match root {
                    Some(y) => y == x,
                    None => false,
                };
                if !same {
                    prefix.push(x);
                }
            },
            None => {},
        },
        None => {},
    }
    assert(prefix@ == pins);
    let keys = graph_metric_keys(graph, metric);
    let mut zero_keys: Vec<u64> = Vec::new();
    let mut cand: Vec<bool> = Vec::new();
    let mut i: usize = 0;
    while i < n
        invariant
            n == graph.nodes@.len(),
            keys@ == metric_keys(graph.nodes@, metric),
            prefix@ == pins,
            prefix@.len() <= 2,
            i <= n,
            zero_keys@ == zeros(n as nat).take(i as int),
            cand@ == over_threshold(*graph, metric, threshold, pins).take(i as int),
        decreases n - i,
    {
        let pinned_here = (prefix.len() > 0 && prefix[0] == i) || (prefix.len() > 1 && prefix[1]
            == i);
        assert(pinned_here == prefix@.contains(i)) by {
            if prefix@.contains(i) {
                let t = choose|t: int| 0 <= t < prefix@.len() && prefix@[t] == i;
            }
        }
        cand.push(keys[i] >= threshold && !pinned_here);
        zero_keys.push(0);
        i = i + 1;
    }
    assert(cand@ == over_threshold(*graph, metric, threshold, pins));
    assert(zero_keys@ == zeros(n as nat));
    let lo: usize = 2;
    let hi: usize = if n > 2 {
        n
    } else {
        2
    };
    let budget: usize = if max_nodes < lo {
        lo
    } else if max_nodes > hi {
        hi
    } else {
        max_nodes
    };
    let prefix_len = prefix.len();
    let rest = rank_candidates(&keys, &zero_keys, &cand, budget - prefix_len);
    let mut out = prefix;
    let ghost pre = out@;
    let mut k: usize = 0;
    while k < rest.len()
        invariant
            k <= rest@.len(),
            out@ == pre + rest@.take(k as int),
        decreases rest@.len() - k,
    {
        out.push(rest[k]);
        k = k + 1;
    }
    assert(rest@.take(rest@.len() as int) == rest@);
    assert(budget as nat == node_budget(max_nodes, n as nat));
    assert(pins.len() == prefix_len);
    assert(is_top_ranking(
        metric_keys(graph.nodes@, metric),
        zeros(graph.nodes@.len()),
        over_threshold(*graph, metric, threshold, pins),
        (node_budget(max_nodes, graph.nodes@.len()) - pins.len()) as nat,
        rest@,
    ));
    out
}

/// Every record's key for `metric`.
fn graph_metric_keys(graph: &SystemGraph, metric: SizeMetric) -> (r: Vec<u64>)
    ensures
        r@ == metric_keys(graph.nodes@, metric),
{
    let mut r: Vec<u64> = Vec::new();
    let mut i: usize = 0;
    while i < graph.nodes.len()
        invariant
            i <= graph.nodes@.len(),
            r@ == metric_keys(graph.nodes@, metric).take(i as int),
        decreases graph.nodes@.len() - i,
    {
        r.push(graph.nodes[i].metric(metric));
        i = i + 1;
    }
    assert(metric_keys(graph.nodes@, metric).take(i as int) == metric_keys(graph.nodes@, metric));
    r
}

/// `sel` is what `filtered_node_ids` returns for these filters.
pub open spec fn is_filtered(
    graph: SystemGraph,
    metric: SizeMetric,
    threshold: u64,
    max_nodes: usize,
    selected: Option<Seq<char>>,
    sel: Seq<usize>,
) -> bool {
    exists|rest: Seq<usize>|
        #[trigger] is_top_ranking(
            metric_keys(graph.nodes@, metric),
            zeros(graph.nodes@.len()),
            over_threshold(graph, metric, threshold, pinned(graph, selected)),
            (node_budget(max_nodes, graph.nodes@.len()) - pinned(graph, selected).len()) as nat,
            rest,
        ) && sel == pinned(graph, selected) + rest
}

/// The filtered, indexed view of the graph that the layout simulation and
/// the renderer work on. Node `i` stands for record `graph_index[i]`; the
/// per-node simulation state lives beside it, indexed the same way.
#[derive(Clone, Debug)]
pub struct RenderGraph {
    pub ids: Vec<String>,
    pub graph_index: Vec<usize>,
    pub metric_values: Vec<u64>,
    pub edges: Vec<(usize, usize)>,
    pub outgoing: Vec<Vec<usize>>,
    pub incoming: Vec<Vec<usize>>,
    pub root_index: Option<usize>,
    pub min_metric: u64,
    pub max_metric: u64,
}

impl RenderGraph {
    /// Sizes agree, edges join distinct nodes, and the adjacency lists mirror
    /// the edge list with each edge once.
    pub open spec fn wf(&self) -> bool {
        let n = self.ids@.len();
        &&& self.graph_index@.len() == n
        &&& pair_no_repeats(self.edges@)
        &&& self.metric_values@.len() == n
        &&& self.outgoing@.len() == n
        &&& self.incoming@.len() == n
        &&& forall|e: int|
            0 <= e < self.edges@.len() ==> {
                &&& (#[trigger] self.edges@[e]).0 < n
                &&& self.edges@[e].1 < n
                &&& self.edges@[e].0 != self.edges@[e].1
            }
        &&& forall|a: int|
            0 <= a < n ==> no_repeats(#[trigger] self.outgoing@[a]@) && no_repeats(
                self.incoming@[a]@,
            )
        &&& forall|a: int, b: int|
            0 <= a < n && 0 <= b < n ==> (#[trigger] self.edges@.contains((a as usize, b as usize))
                <==> self.outgoing@[a]@.contains(b as usize))
        &&& forall|a: int, b: int|
            0 <= a < n && 0 <= b < n ==> (#[trigger] self.edges@.contains((a as usize, b as usize))
                <==> self.incoming@[b]@.contains(a as usize))
        &&& forall|a: int, k: int|
            0 <= a < n && 0 <= k < self.outgoing@[a]@.len() ==> (#[trigger] self.outgoing@[a]@[k]
                as int) < n
        &&& forall|a: int, k: int|
            0 <= a < n && 0 <= k < self.incoming@[a]@.len() ==> (#[trigger] self.incoming@[a]@[k]
                as int) < n
        &&& self.root_index matches Some(r) ==> r < n
        &&& forall|i: int, j: int|
            0 <= i < n && 0 <= j < n && i != j ==> #[trigger] self.ids@[i]@ != #[trigger] self.ids@[j]@
    }

    /// Render index of the node with id `id`, if it is shown.
    pub open spec fn spec_index_of(&self, id: Seq<char>) -> Option<int> {
        if exists|i: int| 0 <= i < self.ids@.len() && #[trigger] self.ids@[i]@ == id {
            Some(choose|i: int| 0 <= i < self.ids@.len() && #[trigger] self.ids@[i]@ == id)
        } else {
            None
        }
    }

    pub fn node_count(&self) -> (r: usize)
        ensures
            r == self.ids@.len(),
    {
        self.ids.len()
    }

    /// Render index of the node with id `id`, if it is shown.
    pub fn index_of(&self, id: &str) -> (r: Option<usize>)
        ensures
            r matches Some(i) ==> i < self.ids@.len() && self.ids@[i as int]@ == id@,
            r is None ==> forall|i: int| 0 <= i < self.ids@.len() ==> self.ids@[i]@ != id@,
            self.wf() ==> match r {
                Some(i) => self.spec_index_of(id@) == Some(i as int),
                None => self.spec_index_of(id@) is None,
            },
    {
        let mut i: usize = 0;
        while i < self.ids.len()
            invariant
                i <= self.ids@.len(),
                forall|j: int| 0 <= j < i ==> self.ids@[j]@ != id@,
            decreases self.ids@.len() - i,
        {
            if crate::text::str_eq(self.ids[i].as_str(), id) {
                proof {
                    if self.wf() {
                        let k = choose|k: int| 0 <= k < self.ids@.len() && #[trigger] self.ids@[k]@ == id@;
                        assert(self.ids@[k]@ == self.ids@[i as int]@);
                    }
                }
                return Some(i);
            }
            i = i + 1;
        }
        None
    }
}

/// For each node, where its state comes from in `previous`: the node there
/// with the same id, if any.
pub open spec fn carries_from(previous: Option<&RenderGraph>, ids: Seq<String>, carry: Seq<Option<usize>>) -> bool {
    &&& carry.len() == ids.len()
    &&& forall|i: int|
        0 <= i < ids.len() ==> match #[trigger] carry[i] {
            Some(j) => previous matches Some(p) && j < p.ids@.len() && p.ids@[j as int]@ == ids[i]@,
            None => previous matches Some(p) ==> forall|j: int|
                0 <= j < p.ids@.len() ==> p.ids@[j]@ != ids[i]@,
        }
}

fn carry_map(previous: Option<&RenderGraph>, ids: &Vec<String>) -> (carry: Vec<Option<usize>>)
    ensures
        carries_from(previous, ids@, carry@),
{
    let mut carry: Vec<Option<usize>> = Vec::new();
    let mut i: usize = 0;
    while i < ids.len()
        invariant
            i <= ids@.len(),
            carry@.len() == i,
            forall|a: int|
                0 <= a < i ==> match #[trigger] carry@[a] {
                    Some(j) => previous matches Some(p) && j < p.ids@.len() && p.ids@[j as int]@
                        == ids@[a]@,
                    None => previous matches Some(p) ==> forall|j: int|
                        0 <= j < p.ids@.len() ==> p.ids@[j]@ != ids@[a]@,
                },
        decreases ids@.len() - i,
    {
        let c = match previous {
            Some(p) => p.index_of(ids[i].as_str()),
            None => None,
        };
        carry.push(c);
        i = i + 1;
    }
    carry
}

/// Edges among the selected records (as render indices), sorted, without
/// repeats or self loops, and the outgoing lists.
#[verifier::loop_isolation(false)]
fn build_edges(graph: &SystemGraph, sel: &Vec<usize>, pos_of: &Vec<Option<usize>>) -> (r: (
    Vec<(usize, usize)>,
    Vec<Vec<usize>>,
))
    requires
        graph.wf(),
        pos_of@.len() == graph.nodes@.len(),
        forall|a: int| 0 <= a < sel@.len() ==> (#[trigger] sel@[a] as int) < graph.nodes@.len(),
        forall|j: int|
            0 <= j < pos_of@.len() ==> (#[trigger] pos_of@[j] matches Some(b) ==> b < sel@.len()
                && sel@[b as int] as int == j),
        forall|b: int| 0 <= b < sel@.len() ==> pos_of@[#[trigger] sel@[b] as int] == Some(b as usize),
    ensures
        pairs_increasing(r.0@),
        r.1@.len() == sel@.len(),
        forall|a: int| 0 <= a < sel@.len() ==> increasing(#[trigger] r.1@[a]@),
        forall|a: int, b: int|
            0 <= a < sel@.len() && 0 <= b < sel@.len() ==> (#[trigger] r.0@.contains(
                (a as usize, b as usize),
            ) <==> r.1@[a]@.contains(b as usize)),
        forall|a: int, b: int|
            0 <= a < sel@.len() && 0 <= b < sel@.len() ==> (#[trigger] r.1@[a]@.contains(b as usize)
                <==> (a != b && graph.reference_index@[sel@[a] as int]@.contains(sel@[b]))),
        forall|e: int|
            0 <= e < r.0@.len() ==> (#[trigger] r.0@[e]).0 < sel@.len() && r.0@[e].1 < sel@.len(),
        forall|a: int, k: int|
            0 <= a < sel@.len() && 0 <= k < r.1@[a]@.len() ==> (#[trigger] r.1@[a]@[k] as int)
                < sel@.len(),
{
    let m = sel.len();
    let mut edges: Vec<(usize, usize)> = Vec::new();
    let mut outgoing: Vec<Vec<usize>> = Vec::new();
    let mut a: usize = 0;
    while a < m
        invariant
            a <= m,
            outgoing@.len() == a,
            pairs_increasing(edges@),
            forall|e: int| 0 <= e < edges@.len() ==> (#[trigger] edges@[e]).0 < a && edges@[e].1 < m,
            forall|x: int| 0 <= x < a ==> increasing(#[trigger] outgoing@[x]@),
            forall|x: int, b: int|
                0 <= x < a && 0 <= b < m ==> (#[trigger] edges@.contains((x as usize, b as usize))
                    <==> outgoing@[x]@.contains(b as usize)),
            forall|x: int, b: int|
                0 <= x < a && 0 <= b < m ==> (#[trigger] outgoing@[x]@.contains(b as usize) <==> (x
                    != b && graph.reference_index@[sel@[x] as int]@.contains(sel@[b]))),
            forall|x: int, k: int|
                0 <= x < a && 0 <= k < outgoing@[x]@.len() ==> (#[trigger] outgoing@[x]@[k] as int)
                    < m,
        decreases m - a,
    {
        let src = sel[a];
        let refs = &graph.reference_index[src];
        assert(crate::graph::resolves(graph.nodes@, graph.nodes@[src as int].references@, refs@));
        let mut targets: Vec<usize> = Vec::new();
        let mut k: usize = 0;
        while k < refs.len()
            invariant
                k <= refs@.len(),
                increasing(targets@),
                forall|b: int| 0 <= b < m ==> (#[trigger] targets@.contains(b as usize) <==> (b != a
                    && refs@.take(k as int).contains(sel@[b]))),
                forall|t: int| 0 <= t < targets@.len() ==> (#[trigger] targets@[t] as int) < m,
            decreases refs@.len() - k,
        {
            let j = refs[k];
            let ghost before = targets@;
            assert(refs@.take(k + 1) == refs@.take(k as int).push(j));
            match pos_of[j] {
                Some(b) => {
                    if b != a {
                        insert_sorted(&mut targets, b);
                    }
                    assert forall|t: int| 0 <= t < targets@.len() implies (#[trigger] targets@[t]
                        as int) < m by {
                        assert(targets@.contains(targets@[t]));
                        if targets@[t] != b {
                            assert(before.contains(targets@[t]));
                        }
                    }
                    assert forall|c: int| 0 <= c < m implies (#[trigger] targets@.contains(c as usize) <==> (c != a
                        && refs@.take(k + 1).contains(sel@[c]))) by {
                        if refs@.take(k + 1).contains(sel@[c]) && !refs@.take(k as int).contains(sel@[c]) {
                            assert(sel@[c] == j);
                            assert(c == b as int);
                        }
                        if refs@.take(k as int).contains(sel@[c]) {
                            let t = choose|t: int| 0 <= t < k && refs@.take(k as int)[t] == sel@[c];
                            assert(refs@.take(k + 1)[t] == sel@[c]);
                        }
                        if c == b as int {
                            assert(refs@.take(k + 1)[k as int] == sel@[c]);
                        }
                    }
                },
                None => {
                    assert forall|c: int| 0 <= c < m implies (#[trigger] targets@.contains(c as usize) <==> (c != a
                        && refs@.take(k + 1).contains(sel@[c]))) by {
                        if refs@.take(k + 1).contains(sel@[c]) && !refs@.take(k as int).contains(sel@[c]) {
                            assert(sel@[c] == j);
                            assert(pos_of@[j as int] == Some(c as usize));
                        }
                        if refs@.take(k as int).contains(sel@[c]) {
                            let t = choose|t: int| 0 <= t < k && refs@.take(k as int)[t] == sel@[c];
                            assert(refs@.take(k + 1)[t] == sel@[c]);
                        }
                    }
                },
            }
            k = k + 1;
        }
        assert(refs@.take(refs@.len() as int) == refs@);
        let ghost before_edges = edges@;
        let mut t: usize = 0;
        while t < targets.len()
            invariant
                t <= targets@.len(),
                pairs_increasing(edges@),
                edges@ == before_edges + targets@.take(t as int).map_values(|b: usize| (a, b)),
                forall|e: int| 0 <= e < edges@.len() ==> (#[trigger] edges@[e]).0 <= a && edges@[e].1 < m,
                forall|e: int| 0 <= e < before_edges.len() ==> (#[trigger] before_edges[e]).0 < a,
                forall|e: int|
                    before_edges.len() <= e < edges@.len() && t > 0 ==> (#[trigger] edges@[e]).1
                        <= targets@[t - 1],
            decreases targets@.len() - t,
        {
            edges.push((a, targets[t]));
            assert(targets@.take(t + 1) == targets@.take(t as int).push(targets@[t as int]));
            t = t + 1;
        }
        assert(targets@.take(targets@.len() as int) == targets@);
        let ghost row = targets@;
        outgoing.push(targets);
        proof {
            assert forall|x: int, b: int|
                0 <= x < a + 1 && 0 <= b < m implies (#[trigger] edges@.contains((x as usize, b as usize))
                    <==> outgoing@[x]@.contains(b as usize)) by {
                if x < a {
                    if edges@.contains((x as usize, b as usize)) {
                        let e = choose|e: int| 0 <= e < edges@.len() && edges@[e] == (x as usize, b as usize);
                        if e >= before_edges.len() {
                            assert(edges@[e].0 == a);
                        }
                        assert(before_edges[e] == (x as usize, b as usize));
                    }
                    if before_edges.contains((x as usize, b as usize)) {
                        let e = choose|e: int| 0 <= e < before_edges.len() && before_edges[e] == (x as usize, b as usize);
                        assert(edges@[e] == (x as usize, b as usize));
                    }
                } else {
                    if edges@.contains((x as usize, b as usize)) {
                        let e = choose|e: int| 0 <= e < edges@.len() && edges@[e] == (x as usize, b as usize);
                        if e < before_edges.len() {
                            assert(before_edges[e].0 < a);
                        }
                        assert(row[e - before_edges.len()] == b as usize);
                    }
                    if row.contains(b as usize) {
                        let t2 = choose|t2: int| 0 <= t2 < row.len() && row[t2] == b as usize;
                        assert(edges@[before_edges.len() + t2] == (x as usize, b as usize));
                    }
                }
            }
        }
        a = a + 1;
    }
    (edges, outgoing)
}

/// The metric value a render node carries: its record's, at least 1.
pub open spec fn shown_metric(graph: SystemGraph, metric: SizeMetric, i: int) -> u64 {
    let v = metric_keys(graph.nodes@, metric)[i];
    if v < 1 {
        1
    } else {
        v
    }
}

proof fn lemma_filtered_distinct(
    graph: SystemGraph,
    metric: SizeMetric,
    threshold: u64,
    max_nodes: usize,
    selected: Option<Seq<char>>,
    sel: Seq<usize>,
)
    requires
        is_filtered(graph, metric, threshold, max_nodes, selected, sel),
        graph.nodes@.len() <= usize::MAX,
    ensures
        no_repeats(sel),
        forall|a: int| 0 <= a < sel.len() ==> (#[trigger] sel[a] as int) < graph.nodes@.len(),
{
    let pins = pinned(graph, selected);
    let rest = choose|rest: Seq<usize>|
        #[trigger] is_top_ranking(
            metric_keys(graph.nodes@, metric),
            zeros(graph.nodes@.len()),
            over_threshold(graph, metric, threshold, pins),
            (node_budget(max_nodes, graph.nodes@.len()) - pins.len()) as nat,
            rest,
        ) && sel == pins + rest;
    let root = graph.spec_index_of(graph.root_id@);
    if let Some(r) = root {
        assert(0 <= r < graph.nodes@.len());
    }
    match selected {
        Some(s) => {
            if let Some(x) = graph.spec_index_of(s) {
                assert(0 <= x < graph.nodes@.len());
            }
        },
        None => {},
    }
    assert forall|a: int| 0 <= a < sel.len() implies (#[trigger] sel[a] as int) < graph.nodes@.len() by {
        if a >= pins.len() {
            assert(sel[a] == rest[a - pins.len()]);
        }
    }
    assert forall|a: int, b: int| 0 <= a < sel.len() && 0 <= b < sel.len() && a != b implies sel[a]
        != sel[b] by {
        if a < pins.len() && b < pins.len() {
            assert(pins.len() == 2);
            assert(root is Some);
            let x = graph.spec_index_of(selected->0)->0;
            assert(root != Some(x));
            assert(sel[0] == pins[0] && sel[1] == pins[1]);
            assert(pins[0] as int == root->0);
            assert(pins[1] as int == x);
        } else if a < pins.len() {
            let o = over_threshold(graph, metric, threshold, pins);
            assert(sel[b] == rest[b - pins.len()]);
            assert(o[sel[b] as int]);
            assert(pins.contains(sel[a]));
        } else if b < pins.len() {
            let o = over_threshold(graph, metric, threshold, pins);
            assert(sel[a] == rest[a - pins.len()]);
            assert(o[sel[a] as int]);
            assert(pins.contains(sel[b]));
        } else {
            assert(sel[a] == rest[a - pins.len()]);
            assert(sel[b] == rest[b - pins.len()]);
            let p = metric_keys(graph.nodes@, metric);
            let z = zeros(graph.nodes@.len());
            if a < b {
                assert(crate::rank::precedes(p, z, rest[a - pins.len()] as int, rest[b - pins.len()] as int));
            } else {
                assert(crate::rank::precedes(p, z, rest[b - pins.len()] as int, rest[a - pins.len()] as int));
            }
        }
    }
}

/// For each node, the sources of the edges that end there, in increasing order.
fn incoming_lists(edges: &Vec<(usize, usize)>, m: usize) -> (incoming: Vec<Vec<usize>>)
    requires
        pairs_increasing(edges@),
        forall|e: int| 0 <= e < edges@.len() ==> (#[trigger] edges@[e]).0 < m && edges@[e].1 < m,
    ensures
        incoming@.len() == m,
        forall|q: int| 0 <= q < m ==> increasing(#[trigger] incoming@[q]@),
        forall|q: int, x: int|
            0 <= q < m && 0 <= x < m ==> (#[trigger] incoming@[q]@.contains(x as usize) <==> edges@.contains(
                (x as usize, q as usize),
            )),
        forall|q: int, k: int|
            0 <= q < m && 0 <= k < incoming@[q]@.len() ==> (#[trigger] incoming@[q]@[k] as int) < m,
{
    let mut incoming: Vec<Vec<usize>> = Vec::new();
    let mut b: usize = 0;
    while b < m
        invariant
            b <= m,
            incoming@.len() == b,
            forall|q: int| 0 <= q < b ==> (#[trigger] incoming@[q])@.len() == 0,
        decreases m - b,
    {
        incoming.push(Vec::new());
        b = b + 1;
    }
    let mut t: usize = 0;
    while t < edges.len()
        invariant
            pairs_increasing(edges@),
            forall|e: int| 0 <= e < edges@.len() ==> (#[trigger] edges@[e]).0 < m && edges@[e].1 < m,
            t <= edges@.len(),
            incoming@.len() == m,
            forall|q: int| 0 <= q < m ==> increasing(#[trigger] incoming@[q]@),
            forall|q: int, k: int|
                0 <= q < m && 0 <= k < incoming@[q]@.len() ==> exists|e: int|
                    0 <= e < t && edges@[e] == (#[trigger] incoming@[q]@[k], q as usize),
            forall|q: int, x: int|
                0 <= q < m && 0 <= x < m ==> (#[trigger] incoming@[q]@.contains(x as usize) <==> edges@.take(
                    t as int,
                ).contains((x as usize, q as usize))),
        decreases edges@.len() - t,
    {
        let (x, q) = edges[t];
        let ghost old_in = incoming@;
        let mut tmp: Vec<usize> = Vec::new();
        incoming.set_and_swap(q, &mut tmp);
        tmp.push(x);
        incoming.set_and_swap(q, &mut tmp);
        proof {
            assert(edges@.take(t + 1) == edges@.take(t as int).push((x, q)));
            assert(incoming@[q as int]@ == old_in[q as int]@.push(x));
            assert forall|k: int| 0 <= k < old_in[q as int]@.len() implies old_in[q as int]@[k] < x by {
                let e = choose|e: int| 0 <= e < t && edges@[e] == (#[trigger] old_in[q as int]@[k], q);
            }
            assert forall|q2: int| 0 <= q2 < m implies increasing(#[trigger] incoming@[q2]@) by {
                if q2 != q as int {
                    assert(incoming@[q2] == old_in[q2]);
                }
            }
            assert forall|q2: int, k: int|
                0 <= q2 < m && 0 <= k < incoming@[q2]@.len() implies exists|e: int|
                    0 <= e < t + 1 && edges@[e] == (#[trigger] incoming@[q2]@[k], q2 as usize) by {
                if q2 != q as int {
                    assert(incoming@[q2] == old_in[q2]);
                    let e = choose|e: int| 0 <= e < t && edges@[e] == (#[trigger] old_in[q2]@[k], q2 as usize);
                } else if k < old_in[q2]@.len() {
                    assert(incoming@[q2]@[k] == old_in[q2]@[k]);
                    let e = choose|e: int| 0 <= e < t && edges@[e] == (#[trigger] old_in[q2]@[k], q2 as usize);
                } else {
                    assert(edges@[t as int] == (incoming@[q2]@[k], q2 as usize));
                }
            }
            assert forall|q2: int, x2: int|
                0 <= q2 < m && 0 <= x2 < m implies (#[trigger] incoming@[q2]@.contains(x2 as usize)
                <==> edges@.take(t + 1).contains((x2 as usize, q2 as usize))) by {
                if q2 != q as int {
                    assert(incoming@[q2] == old_in[q2]);
                    if edges@.take(t + 1).contains((x2 as usize, q2 as usize)) {
                        let e = choose|e: int| 0 <= e < t + 1&& #[trigger] edges@.take(t + 1)[e] == (x2 as usize, q2 as usize);
                        assert(edges@.take(t as int)[e] == (x2 as usize, q2 as usize));
                    }
                    if edges@.take(t as int).contains((x2 as usize, q2 as usize)) {
                        let e = choose|e: int| 0 <= e < t&& #[trigger] edges@.take(t as int)[e] == (x2 as usize, q2 as usize);
                        assert(edges@.take(t + 1)[e] == (x2 as usize, q2 as usize));
                    }
                } else {
                    if incoming@[q2]@.contains(x2 as usize) {
                        let k = choose|k: int| 0 <= k < incoming@[q2]@.len()&& #[trigger] incoming@[q2]@[k] == x2 as usize;
                        if k < old_in[q2]@.len() {
                            assert(old_in[q2]@[k] == x2 as usize);
                            assert(old_in[q2]@.contains(x2 as usize));
                            let e = choose|e: int| 0 <= e < t&& #[trigger] edges@.take(t as int)[e] == (x2 as usize, q2 as usize);
                            assert(edges@.take(t + 1)[e] == (x2 as usize, q2 as usize));
                        } else {
                            assert(edges@.take(t + 1)[t as int] == (x2 as usize, q2 as usize));
                        }
                    }
                    if edges@.take(t + 1).contains((x2 as usize, q2 as usize)) {
                        let e = choose|e: int| 0 <= e < t + 1&& #[trigger] edges@.take(t + 1)[e] == (x2 as usize, q2 as usize);
                        if e < t {
                            assert(edges@.take(t as int)[e] == (x2 as usize, q2 as usize));
                            assert(old_in[q2]@.contains(x2 as usize));
                            let k = choose|k: int| 0 <= k < old_in[q2]@.len()&& #[trigger] old_in[q2]@[k] == x2 as usize;
                            assert(incoming@[q2]@[k] == x2 as usize);
                        } else {
                            assert(incoming@[q2]@[incoming@[q2]@.len() - 1] == x);
                        }
                    }
                }
            }
        }
        t = t + 1;
    }
    assert(edges@.take(edges@.len() as int) == edges@);
    assert forall|q: int, k: int|
        0 <= q < m && 0 <= k < incoming@[q]@.len() implies (#[trigger] incoming@[q]@[k] as int) < m by {
        let e = choose|e: int| 0 <= e < edges@.len() && edges@[e] == (#[trigger] incoming@[q]@[k], q as usize);
    }
    incoming
}

spec fn value_entry(
    graph: SystemGraph,
    metric: SizeMetric,
    sel: Seq<usize>,
    ids: Seq<String>,
    vals: Seq<u64>,
    lo: u64,
    hi: u64,
    a: int,
) -> bool {
    &&& ids[a]@ == graph.nodes@[sel[a] as int].id@
    &&& vals[a] == shown_metric(graph, metric, sel[a] as int)
    &&& lo <= vals[a] <= hi
}

/// Ids and metric values (at least 1) of the records at `sel`, with their
/// least and greatest metric value.
fn node_values(graph: &SystemGraph, sel: &Vec<usize>, metric: SizeMetric) -> (r: (
    Vec<String>,
    Vec<u64>,
    u64,
    u64,
))
    requires
        sel@.len() > 0,
        forall|a: int| 0 <= a < sel@.len() ==> (#[trigger] sel@[a] as int) < graph.nodes@.len(),
    ensures
        r.0@.len() == sel@.len(),
        r.1@.len() == sel@.len(),
        forall|a: int|
            0 <= a < sel@.len() ==> {
                &&& (#[trigger] r.0@[a])@ == graph.nodes@[sel@[a] as int].id@
                &&& r.1@[a] == shown_metric(*graph, metric, sel@[a] as int)
                &&& r.2 <= r.1@[a] <= r.3
            },
        exists|a: int| 0 <= a < sel@.len() && r.1@[a] == r.2,
        exists|a: int| 0 <= a < sel@.len() && r.1@[a] == r.3,
{
    let m = sel.len();
    let mut ids: Vec<String> = Vec::new();
    let mut metric_values: Vec<u64> = Vec::new();
    let mut min_metric: u64 = u64::MAX;
    let mut max_metric: u64 = 0;
    let mut i: usize = 0;
    while i < m
        invariant
            m == sel@.len(),
            forall|a: int| 0 <= a < sel@.len() ==> (#[trigger] sel@[a] as int) < graph.nodes@.len(),
            i <= m,
            ids@.len() == i,
            metric_values@.len() == i,
            forall|a: int|
                0 <= a < i ==> #[trigger] value_entry(*graph, metric, sel@, ids@, metric_values@, min_metric, max_metric, a),
            i == 0 ==> min_metric == u64::MAX && max_metric == 0,
            i > 0 ==> exists|a: int| 0 <= a < i && metric_values@[a] == min_metric,
            i > 0 ==> exists|a: int| 0 <= a < i && metric_values@[a] == max_metric,
        decreases m - i,
    {
        let ghost old_ids = ids@;
        let ghost old_values = metric_values@;
        let ghost old_min = min_metric;
        let ghost old_max = max_metric;
        let node = &graph.nodes[sel[i]];
        ids.push(node.id.clone());
        let raw = node.metric(metric);
        let v = if raw < 1 {
            1
        } else {
            raw
        };
        assert(metric_keys(graph.nodes@, metric)[sel@[i as int] as int] == raw);
        metric_values.push(v);
        if v < min_metric {
            min_metric = v;
        }
        if v > max_metric {
            max_metric = v;
        }
        proof {
            assert(metric_values@[i as int] == v);
            assert(ids@[i as int]@ == graph.nodes@[sel@[i as int] as int].id@);
            assert(exists|a: int| 0 <= a < i + 1 && metric_values@[a] == min_metric) by {
                if min_metric == v {
                    assert(metric_values@[i as int] == min_metric);
                } else {
                    let a0 = choose|a: int| 0 <= a < i && old_values[a] == old_min;
                    assert(metric_values@[a0] == old_values[a0]);
                }
            }
            assert(exists|a: int| 0 <= a < i + 1 && metric_values@[a] == max_metric) by {
                if max_metric == v {
                    assert(metric_values@[i as int] == max_metric);
                } else {
                    let a1 = choose|a: int| 0 <= a < i && old_values[a] == old_max;
                    assert(metric_values@[a1] == old_values[a1]);
                }
            }
            assert forall|a: int| 0 <= a < i + 1 implies #[trigger] value_entry(*graph, metric, sel@, ids@, metric_values@, min_metric, max_metric, a) by {
                if a < i {
                    assert(value_entry(*graph, metric, sel@, old_ids, old_values, old_min, old_max, a));
                    assert(ids@[a] == old_ids[a]);
                    assert(metric_values@[a] == old_values[a]);
                }
            }
        }
        i = i + 1;
    }
    assert forall|a: int| 0 <= a < sel@.len() implies {
        &&& (#[trigger] ids@[a])@ == graph.nodes@[sel@[a] as int].id@
        &&& metric_values@[a] == shown_metric(*graph, metric, sel@[a] as int)
        &&& min_metric <= metric_values@[a] <= max_metric
    } by {
        assert(value_entry(*graph, metric, sel@, ids@, metric_values@, min_metric, max_metric, a));
    }
    (ids, metric_values, min_metric, max_metric)
}

/// Rebuilds the render graph for the given filters. `None` when no record
/// passes them. Beside the graph comes, for each node, the node of
/// `previous` with the same id, whose simulation state it keeps; the other
/// nodes start afresh.
#[verifier::loop_isolation(false)]
pub fn rebuild_render_graph(
    graph: &SystemGraph,
    metric: SizeMetric,
    threshold: u64,
    max_nodes: usize,
    selected: Option<&str>,
    previous: Option<&RenderGraph>,
) -> (r: Option<(RenderGraph, Vec<Option<usize>>)>)
    requires
        graph.wf(),
    ensures
        r is None ==> is_filtered(*graph, metric, threshold, max_nodes, opt_view(selected), seq![]),
        r matches Some((rg, carry)) ==> {
            let n = rg.ids@.len();
            &&& rg.wf()
            &&& n > 0
            &&& is_filtered(*graph, metric, threshold, max_nodes, opt_view(selected), rg.graph_index@)
            &&& forall|i: int|
                0 <= i < n ==> {
                    &&& (#[trigger] rg.ids@[i])@ == graph.nodes@[rg.graph_index@[i] as int].id@
                    &&& rg.metric_values@[i] == shown_metric(*graph, metric, rg.graph_index@[i] as int)
                    &&& rg.min_metric <= rg.metric_values@[i] <= rg.max_metric
                }
            &&& exists|i: int| 0 <= i < n && rg.metric_values@[i] == rg.min_metric
            &&& exists|i: int| 0 <= i < n && rg.metric_values@[i] == rg.max_metric
            &&& pairs_increasing(rg.edges@)
            &&& forall|a: int, b: int|
                0 <= a < n && 0 <= b < n ==> (#[trigger] rg.edges@.contains((a as usize, b as usize))
                    <==> (a != b && graph.reference_index@[rg.graph_index@[a] as int]@.contains(
                    rg.graph_index@[b],
                )))
            &&& rg.root_index is Some <==> graph.spec_index_of(graph.root_id@) is Some
            &&& rg.root_index matches Some(x) ==> graph.spec_index_of(graph.root_id@) == Some(
                rg.graph_index@[x as int] as int,
            )
            &&& carries_from(previous, rg.ids@, carry@)
        },
{
    let sel = filtered_node_ids(graph, metric, threshold, max_nodes, selected);
    let n = graph.nodes.len();
    proof {
        lemma_filtered_distinct(*graph, metric, threshold, max_nodes, opt_view(selected), sel@);
    }
    if sel.len() == 0 {
        return None;
    }
    let m = sel.len();
    let mut pos_of: Vec<Option<usize>> = Vec::new();
    let mut j: usize = 0;
    while j < n
        invariant
            j <= n,
            pos_of@.len() == j,
            forall|q: int| 0 <= q < j ==> pos_of@[q] is None,
        decreases n - j,
    {
        pos_of.push(None);
        j = j + 1;
    }
    let mut b: usize = 0;
    while b < m
        invariant
            b <= m,
            pos_of@.len() == n,
            forall|q: int|
                0 <= q < n ==> (#[trigger] pos_of@[q] matches Some(c) ==> c < b && sel@[c as int] as int
                    == q),
            forall|c: int| 0 <= c < b ==> pos_of@[#[trigger] sel@[c] as int] == Some(c as usize),
        decreases m - b,
    {
        let ghost before = pos_of@;
        pos_of.set(sel[b], Some(b));
        assert forall|c: int| 0 <= c < b + 1 implies pos_of@[#[trigger] sel@[c] as int] == Some(c as usize) by {
            if c < b {
                assert(sel@[c] != sel@[b as int]);
            }
        }
        b = b + 1;
    }
    let (edges, outgoing) = build_edges(graph, &sel, &pos_of);
    let incoming = incoming_lists(&edges, m);
    let (ids, metric_values, min_metric, max_metric) = node_values(graph, &sel, metric);
    let ghost ids_view = ids@;
    let ghost values_view = metric_values@;
    assert(forall|i: int|
        0 <= i < m ==> {
            &&& (#[trigger] ids_view[i])@ == graph.nodes@[sel@[i] as int].id@
            &&& values_view[i] == shown_metric(*graph, metric, sel@[i] as int)
            &&& min_metric <= values_view[i] <= max_metric
        });
    let root_index = match graph.index_of(graph.root_id.as_str()) {
        Some(_) => Some(0),
        None => None,
    };
    let carry = carry_map(previous, &ids);
    let rg = RenderGraph {
        ids,
        graph_index: sel,
        metric_values,
        edges,
        outgoing,
        incoming,
        root_index,
        min_metric,
        max_metric,
    };
    proof {
        assert forall|a: int| 0 <= a < m implies no_repeats(#[trigger] rg.outgoing@[a]@) && no_repeats(
            rg.incoming@[a]@,
        ) by {
            assert(increasing(rg.outgoing@[a]@));
            assert(increasing(rg.incoming@[a]@));
        }
        assert forall|e: int| 0 <= e < rg.edges@.len() implies (#[trigger] rg.edges@[e]).0 != rg.edges@[e].1 by {
            let (x, y) = edges@[e];
            assert(x < m && y < m);
            assert(edges@.contains(((x as int) as usize, (y as int) as usize)));
            assert(outgoing@[x as int]@.contains((y as int) as usize));
        }
        assert forall|i: int, j: int|
            0 <= i < m && 0 <= j < m && i != j implies #[trigger] rg.ids@[i]@ != #[trigger] rg.ids@[j]@ by {
            assert(rg.ids@[i]@ == graph.nodes@[sel@[i] as int].id@);
            assert(rg.ids@[j]@ == graph.nodes@[sel@[j] as int].id@);
            assert(sel@[i] != sel@[j]);
        }
        assert(pair_no_repeats(rg.edges@)) by {
            assert forall|a: int, b: int| 0 <= a < rg.edges@.len() && 0 <= b < rg.edges@.len() && a != b
                implies rg.edges@[a] != rg.edges@[b] by {
                if a < b {
                    assert(pairs_increasing(edges@));
                } else {
                    assert(pairs_increasing(edges@));
                }
            }
        }
        assert(rg.wf());
        assert(is_filtered(*graph, metric, threshold, max_nodes, opt_view(selected), rg.graph_index@));
        assert(pairs_increasing(rg.edges@));
        assert(carries_from(previous, rg.ids@, carry@));
        assert(forall|a: int, b: int|
            0 <= a < m && 0 <= b < m ==> (#[trigger] rg.edges@.contains((a as usize, b as usize))
                <==> (a != b && graph.reference_index@[rg.graph_index@[a] as int]@.contains(
                rg.graph_index@[b],
            ))));
        assert(exists|i: int| 0 <= i < m && rg.metric_values@[i] == rg.min_metric);
        assert(exists|i: int| 0 <= i < m && rg.metric_values@[i] == rg.max_metric);
        assert(rg.ids@ == ids_view && rg.metric_values@ == values_view && rg.graph_index@ == sel@);
        assert forall|i: int| 0 <= i < m implies {
            &&& (#[trigger] rg.ids@[i])@ == graph.nodes@[rg.graph_index@[i] as int].id@
            &&& rg.metric_values@[i] == shown_metric(*graph, metric, rg.graph_index@[i] as int)
            &&& rg.min_metric <= rg.metric_values@[i] <= rg.max_metric
        } by {
            assert(rg.ids@[i] == ids_view[i]);
            assert(rg.metric_values@[i] == values_view[i]);
            assert(rg.graph_index@[i] == sel@[i]);
        }
        assert(forall|i: int|
                0 <= i < m ==> {
                    &&& (#[trigger] rg.ids@[i])@ == graph.nodes@[rg.graph_index@[i] as int].id@
                    &&& rg.metric_values@[i] == shown_metric(*graph, metric, rg.graph_index@[i] as int)
                    &&& rg.min_metric <= rg.metric_values@[i] <= rg.max_metric
                });
        if root_index is Some {
            let pins = pinned(*graph, opt_view(selected));
            let rest = choose|rest: Seq<usize>|
                #[trigger] is_top_ranking(
                    metric_keys(graph.nodes@, metric),
                    zeros(graph.nodes@.len()),
                    over_threshold(*graph, metric, threshold, pins),
                    (node_budget(max_nodes, graph.nodes@.len()) - pins.len()) as nat,
                    rest,
                ) && sel@ == pins + rest;
            assert(sel@[0] == pins[0]);
        }
    }
    Some((rg, carry))
}

fn list_contains(v: &Vec<usize>, x: usize) -> (r: bool)
    ensures
        r == v@.contains(x),
{
    let mut k: usize = 0;
    while k < v.len()
        invariant
            k <= v@.len(),
            forall|j: int| 0 <= j < k ==> v@[j] != x,
        decreases v@.len() - k,
    {
        if v[k] == x {
            return true;
        }
        k = k + 1;
    }
    false
}

/// Every shown node stands for the graph record of the same id.
pub open spec fn shows(graph: SystemGraph, cache: RenderGraph) -> bool {
    forall|i: int|
        0 <= i < cache.ids@.len() ==> (#[trigger] cache.graph_index@[i] as int) < graph.nodes@.len()
            && cache.ids@[i]@ == graph.nodes@[cache.graph_index@[i] as int].id@
}

impl RenderGraph {
    /// Adds the edge `source -> target` unless it is a self loop or already
    /// present.
    pub fn add_edge(&mut self, source: usize, target: usize)
        requires
            old(self).wf(),
            source < old(self).ids@.len(),
            target < old(self).ids@.len(),
        ensures
            final(self).wf(),
            final(self).ids@ == old(self).ids@,
            final(self).graph_index@ == old(self).graph_index@,
            final(self).metric_values@ == old(self).metric_values@,
            final(self).root_index == old(self).root_index,
            final(self).min_metric == old(self).min_metric,
            final(self).max_metric == old(self).max_metric,
            final(self).edges@ == old(self).edges@ || final(self).edges@ == old(self).edges@.push(
                (source, target),
            ),
            forall|a: int, b: int|
                0 <= a < final(self).ids@.len() && 0 <= b < final(self).ids@.len() ==> (
                #[trigger] final(self).edges@.contains((a as usize, b as usize)) <==> (old(
                    self,
                ).edges@.contains((a as usize, b as usize)) || (a == source && b == target && a
                    != b))),
    {
        if source == target {
            return;
        }
        let present = list_contains(&self.outgoing[source], target);
        if present {
            return;
        }
        let ghost old_self = *self;
        let n = self.ids.len();
        self.edges.push((source, target));
        let mut row: Vec<usize> = Vec::new();
        self.outgoing.set_and_swap(source, &mut row);
        row.push(target);
        self.outgoing.set_and_swap(source, &mut row);
        let mut col: Vec<usize> = Vec::new();
        self.incoming.set_and_swap(target, &mut col);
        col.push(source);
        self.incoming.set_and_swap(target, &mut col);
        proof {
            let o = old_self;
            assert(o.wf());
            assert(!o.edges@.contains(((source as int) as usize, (target as int) as usize)));
            assert(!o.incoming@[target as int]@.contains(source));
            assert forall|a: int, b: int|
                0 <= a < n && 0 <= b < n implies (#[trigger] self.edges@.contains((a as usize, b as usize))
                <==> (o.edges@.contains((a as usize, b as usize)) || (a == source && b == target))) by {
                if self.edges@.contains((a as usize, b as usize)) {
                    let e = choose|e: int| 0 <= e < self.edges@.len() && self.edges@[e] == (a as usize, b as usize);
                    if e < o.edges@.len() {
                        assert(o.edges@[e] == (a as usize, b as usize));
                    }
                }
                if o.edges@.contains((a as usize, b as usize)) {
                    let e = choose|e: int| 0 <= e < o.edges@.len() && o.edges@[e] == (a as usize, b as usize);
                    assert(self.edges@[e] == (a as usize, b as usize));
                }
                if a == source && b == target {
                    assert(self.edges@[self.edges@.len() - 1] == (source, target));
                }
            }
            assert forall|a: int| 0 <= a < n implies no_repeats(#[trigger] self.outgoing@[a]@) && no_repeats(
                self.incoming@[a]@,
            ) by {
                assert(0 <= a < o.ids@.len());
                assert(no_repeats(o.outgoing@[a]@));
                assert(no_repeats(o.incoming@[a]@));
                if a == source as int {
                    assert(self.outgoing@[a]@ == o.outgoing@[a]@.push(target));
                }
                if a == target as int {
                    assert(self.incoming@[a]@ == o.incoming@[a]@.push(source));
                }
                if a != source as int {
                    assert(self.outgoing@[a] == o.outgoing@[a]);
                }
                if a != target as int {
                    assert(self.incoming@[a] == o.incoming@[a]);
                }
            }
            assert forall|a: int, b: int|
                0 <= a < n && 0 <= b < n implies (#[trigger] self.edges@.contains((a as usize, b as usize))
                <==> self.outgoing@[a]@.contains(b as usize)) by {
                assert(o.edges@.contains((a as usize, b as usize)) <==> o.outgoing@[a]@.contains(b as usize));
                if a == source as int {
                    assert(self.outgoing@[a]@ == o.outgoing@[a]@.push(target));
                    if self.outgoing@[a]@.contains(b as usize) && b != target as int {
                        let t = choose|t: int| 0 <= t < self.outgoing@[a]@.len() && self.outgoing@[a]@[t] == b as usize;
                        assert(o.outgoing@[a]@[t] == b as usize);
                    }
                    if o.outgoing@[a]@.contains(b as usize) {
                        let t = choose|t: int| 0 <= t < o.outgoing@[a]@.len() && o.outgoing@[a]@[t] == b as usize;
                        assert(self.outgoing@[a]@[t] == b as usize);
                    }
                    if b == target as int {
                        assert(self.outgoing@[a]@[self.outgoing@[a]@.len() - 1] == target);
                    }
                } else {
                    assert(self.outgoing@[a] == o.outgoing@[a]);
                }
            }
            assert forall|a: int, b: int|
                0 <= a < n && 0 <= b < n implies (#[trigger] self.edges@.contains((a as usize, b as usize))
                <==> self.incoming@[b]@.contains(a as usize)) by {
                assert(o.edges@.contains((a as usize, b as usize)) <==> o.incoming@[b]@.contains(a as usize));
                if b == target as int {
                    assert(self.incoming@[b]@ == o.incoming@[b]@.push(source));
                    if self.incoming@[b]@.contains(a as usize) && a != source as int {
                        let t = choose|t: int| 0 <= t < self.incoming@[b]@.len() && self.incoming@[b]@[t] == a as usize;
                        assert(o.incoming@[b]@[t] == a as usize);
                    }
                    if o.incoming@[b]@.contains(a as usize) {
                        let t = choose|t: int| 0 <= t < o.incoming@[b]@.len() && o.incoming@[b]@[t] == a as usize;
                        assert(self.incoming@[b]@[t] == a as usize);
                    }
                    if a == source as int {
                        assert(self.incoming@[b]@[self.incoming@[b]@.len() - 1] == source);
                    }
                } else {
                    assert(self.incoming@[b] == o.incoming@[b]);
                }
            }
            assert forall|a: int, k: int|
                0 <= a < n && 0 <= k < self.outgoing@[a]@.len() implies (#[trigger] self.outgoing@[a]@[k] as int) < n by {
                if a == source as int {
                    assert(self.outgoing@[a]@ == o.outgoing@[a]@.push(target));
                    if k < o.outgoing@[a]@.len() {
                        assert(self.outgoing@[a]@[k] == o.outgoing@[a]@[k]);
                    }
                } else {
                    assert(self.outgoing@[a] == o.outgoing@[a]);
                }
            }
            assert forall|a: int, k: int|
                0 <= a < n && 0 <= k < self.incoming@[a]@.len() implies (#[trigger] self.incoming@[a]@[k] as int) < n by {
                if a == target as int {
                    assert(self.incoming@[a]@ == o.incoming@[a]@.push(source));
                    if k < o.incoming@[a]@.len() {
                        assert(self.incoming@[a]@[k] == o.incoming@[a]@[k]);
                    }
                } else {
                    assert(self.incoming@[a] == o.incoming@[a]);
                }
            }
            assert(pair_no_repeats(self.edges@)) by {
                assert forall|a: int, b: int| 0 <= a < self.edges@.len() && 0 <= b < self.edges@.len() && a != b
                    implies self.edges@[a] != self.edges@[b] by {
                    if a < o.edges@.len() && b < o.edges@.len() {
                        assert(self.edges@[a] == o.edges@[a] && self.edges@[b] == o.edges@[b]);
                    } else if a < o.edges@.len() {
                        assert(self.edges@[a] == o.edges@[a]);
                        assert(o.edges@.contains(o.edges@[a]));
                    } else {
                        assert(self.edges@[b] == o.edges@[b]);
                        assert(o.edges@.contains(o.edges@[b]));
                    }
                }
            }
            assert forall|e: int| 0 <= e < self.edges@.len() implies {
                &&& (#[trigger] self.edges@[e]).0 < n
                &&& self.edges@[e].1 < n
                &&& self.edges@[e].0 != self.edges@[e].1
            } by {
                if e < o.edges@.len() {
                    assert(self.edges@[e] == o.edges@[e]);
                }
            }
        }
    }
}

/// Render index of record `g`, if it is shown.
fn position_of(cache: &RenderGraph, g: usize) -> (r: Option<usize>)
    ensures
        r matches Some(i) ==> i < cache.graph_index@.len() && cache.graph_index@[i as int] == g,
        r is None ==> !cache.graph_index@.contains(g),
{
    let mut i: usize = 0;
    while i < cache.graph_index.len()
        invariant
            i <= cache.graph_index@.len(),
            forall|j: int| 0 <= j < i ==> cache.graph_index@[j] != g,
        decreases cache.graph_index@.len() - i,
    {
        if cache.graph_index[i] == g {
            return Some(i);
        }
        i = i + 1;
    }
    None
}

/// Adds the record `node_id` to the shown graph without a rebuild, with the
/// edges between it and the shown nodes in both directions. Returns its new
/// render index; `None`, with nothing changed, when no record has that id or
/// it is already shown.
#[verifier::loop_isolation(false)]
pub fn include_node_in_current_graph(
    cache: &mut RenderGraph,
    graph: &SystemGraph,
    metric: SizeMetric,
    node_id: &str,
) -> (r: Option<usize>)
    requires
        old(cache).wf(),
        graph.wf(),
        shows(*graph, *old(cache)),
    ensures
        final(cache).wf(),
        shows(*graph, *final(cache)),
        r is None <==> (graph.spec_index_of(node_id@) is None || old(cache).spec_index_of(node_id@) is Some),
        r is None ==> *final(cache) == *old(cache),
        final(cache).min_metric == old(cache).min_metric,
        final(cache).max_metric == old(cache).max_metric,
        final(cache).edges@.len() >= old(cache).edges@.len(),
        final(cache).edges@.take(old(cache).edges@.len() as int) == old(cache).edges@,
        pair_no_repeats(final(cache).edges@),
        r matches Some(x) ==> {
            let g = graph.spec_index_of(node_id@)->0;
            let n = old(cache).ids@.len();
            &&& x == n
            &&& final(cache).ids@.len() == n + 1
            &&& final(cache).ids@.take(n as int) == old(cache).ids@
            &&& final(cache).ids@[n as int]@ == node_id@
            &&& final(cache).graph_index@ == old(cache).graph_index@.push(g as usize)
            &&& final(cache).metric_values@ == old(cache).metric_values@.push(shown_metric(*graph, metric, g))
            &&& final(cache).root_index == if graph.root_id@ == node_id@ {
                Some(x)
            } else {
                old(cache).root_index
            }
            &&& forall|a: int, b: int|
                0 <= a <= n && 0 <= b <= n ==> (#[trigger] final(cache).edges@.contains(
                    (a as usize, b as usize),
                ) <==> {
                    ||| (a < n && b < n && old(cache).edges@.contains((a as usize, b as usize)))
                    ||| (a == n && b < n && graph.reference_index@[g]@.contains(final(cache).graph_index@[b]))
                    ||| (b == n && a < n && graph.reference_index@[final(cache).graph_index@[a] as int]@.contains(
                        g as usize,
                    ))
                })
        },
{
    let g = match graph.index_of(node_id) {
        Some(g) => g,
        None => return None,
    };
    if cache.index_of(node_id).is_some() {
        return None;
    }
    let ghost c0 = *cache;
    let n = cache.ids.len();
    proof {
        assert(!cache.graph_index@.contains(g)) by {
            if cache.graph_index@.contains(g) {
                let i = choose|i: int| 0 <= i < cache.graph_index@.len() && cache.graph_index@[i] == g;
                assert(cache.ids@[i]@ == graph.nodes@[g as int].id@);
            }
        }
    }
    let raw = graph.nodes[g].metric(metric);
    let v = if raw < 1 {
        1
    } else {
        raw
    };
    assert(metric_keys(graph.nodes@, metric)[g as int] == raw);
    cache.ids.push(graph.nodes[g].id.clone());
    cache.graph_index.push(g);
    cache.metric_values.push(v);
    cache.outgoing.push(Vec::new());
    cache.incoming.push(Vec::new());
    if str_eq(graph.root_id.as_str(), node_id) {
        cache.root_index = Some(n);
    }
    proof {
        let c = *cache;
        assert forall|e: int| 0 <= e < c.edges@.len() implies {
            &&& (#[trigger] c.edges@[e]).0 < c.ids@.len()
            &&& c.edges@[e].1 < c.ids@.len()
            &&& c.edges@[e].0 != c.edges@[e].1
        } by {
            assert(c.edges@[e] == c0.edges@[e]);
        }
        assert forall|a: int| 0 <= a < n + 1 implies no_repeats(#[trigger] c.outgoing@[a]@) && no_repeats(c.incoming@[a]@) by {
            if a < n {
                assert(c.outgoing@[a] == c0.outgoing@[a]);
                assert(c.incoming@[a] == c0.incoming@[a]);
                assert(no_repeats(c0.outgoing@[a]@));
                assert(no_repeats(c0.incoming@[a]@));
            }
        }
        assert forall|a: int, b: int| 0 <= a < n + 1 && 0 <= b < n + 1 implies (#[trigger] c.edges@.contains((a as usize, b as usize))
            <==> c.outgoing@[a]@.contains(b as usize)) by {
            if a < n && b < n {
                assert(c.outgoing@[a] == c0.outgoing@[a]);
                assert(c0.edges@.contains((a as usize, b as usize)) <==> c0.outgoing@[a]@.contains(b as usize));
            } else {
                if c.edges@.contains((a as usize, b as usize)) {
                    let e = choose|e: int| 0 <= e < c.edges@.len() && c.edges@[e] == (a as usize, b as usize);
                    assert(c0.edges@[e].0 < n && c0.edges@[e].1 < n);
                }
                if a < n {
                    assert(c.outgoing@[a] == c0.outgoing@[a]);
                    if c.outgoing@[a]@.contains(b as usize) {
                        let k = choose|k: int| 0 <= k < c0.outgoing@[a]@.len() && c0.outgoing@[a]@[k] == b as usize;
                        assert(c0.outgoing@[a]@[k] < n);
                    }
                }
            }
        }
        assert forall|a: int, b: int| 0 <= a < n + 1 && 0 <= b < n + 1 implies (#[trigger] c.edges@.contains((a as usize, b as usize))
            <==> c.incoming@[b]@.contains(a as usize)) by {
            if a < n && b < n {
                assert(c.incoming@[b] == c0.incoming@[b]);
                assert(c0.edges@.contains((a as usize, b as usize)) <==> c0.incoming@[b]@.contains(a as usize));
            } else {
                if c.edges@.contains((a as usize, b as usize)) {
                    let e = choose|e: int| 0 <= e < c.edges@.len() && c.edges@[e] == (a as usize, b as usize);
                    assert(c0.edges@[e].0 < n && c0.edges@[e].1 < n);
                }
                if b < n {
                    assert(c.incoming@[b] == c0.incoming@[b]);
                    if c.incoming@[b]@.contains(a as usize) {
                        let k = choose|k: int| 0 <= k < c0.incoming@[b]@.len() && c0.incoming@[b]@[k] == a as usize;
                        assert(c0.incoming@[b]@[k] < n);
                    }
                }
            }
        }
        assert forall|a: int, k: int| 0 <= a < n + 1 && 0 <= k < c.outgoing@[a]@.len() implies (#[trigger] c.outgoing@[a]@[k] as int) < n + 1 by {
            if a < n {
                assert(c.outgoing@[a] == c0.outgoing@[a]);
                assert(c0.outgoing@[a]@[k] < n);
            }
        }
        assert forall|a: int, k: int| 0 <= a < n + 1 && 0 <= k < c.incoming@[a]@.len() implies (#[trigger] c.incoming@[a]@[k] as int) < n + 1 by {
            if a < n {
                assert(c.incoming@[a] == c0.incoming@[a]);
                assert(c0.incoming@[a]@[k] < n);
            }
        }
        assert forall|i: int, j: int| 0 <= i < n + 1 && 0 <= j < n + 1 && i != j implies #[trigger] c.ids@[i]@ != #[trigger] c.ids@[j]@ by {
            if i < n && j < n {
                assert(c.ids@[i] == c0.ids@[i] && c.ids@[j] == c0.ids@[j]);
            } else if i < n {
                assert(c.ids@[i] == c0.ids@[i]);
            } else {
                assert(c.ids@[j] == c0.ids@[j]);
            }
        }
        assert(c.wf());
        assert forall|i: int| 0 <= i < n + 1 implies (#[trigger] c.graph_index@[i] as int) < graph.nodes@.len()
            && c.ids@[i]@ == graph.nodes@[c.graph_index@[i] as int].id@ by {
            if i < n {
                assert(c.graph_index@[i] == c0.graph_index@[i] && c.ids@[i] == c0.ids@[i]);
            }
        }
    }
    let ghost c1 = *cache;
    assert(c1.edges@ == c0.edges@);
    assert(c0.edges@.take(c0.edges@.len() as int) == c0.edges@);
    // forward references of the new node
    let refs = &graph.reference_index[g];
    let mut k: usize = 0;
    while k < refs.len()
        invariant
            k <= refs@.len(),
            cache.wf(),
            cache.ids@ == c1.ids@,
            cache.graph_index@ == c1.graph_index@,
            cache.metric_values@ == c1.metric_values@,
            cache.root_index == c1.root_index,
            cache.min_metric == c1.min_metric,
            cache.max_metric == c1.max_metric,
            cache.edges@.len() >= c0.edges@.len(),
            cache.edges@.take(c0.edges@.len() as int) == c0.edges@,
            forall|a: int, b: int|
                0 <= a <= n && 0 <= b <= n ==> (#[trigger] cache.edges@.contains((a as usize, b as usize)) <==> {
                    ||| (a < n && b < n && c0.edges@.contains((a as usize, b as usize)))
                    ||| (a == n && b < n && refs@.take(k as int).contains(c1.graph_index@[b]))
                }),
        decreases refs@.len() - k,
    {
        let t = refs[k];
        assert(refs@.take(k + 1) == refs@.take(k as int).push(t));
        match position_of(cache, t) {
            Some(b) => {
                {
                    let ghost before = cache.edges@;
                    cache.add_edge(n, b);
                    proof {
                        if cache.edges@ != before {
                            assert(cache.edges@.take(c0.edges@.len() as int) == before.take(c0.edges@.len() as int));
                        }
                    }
                }
            },
            None => {},
        }
        proof {
            assert forall|a: int, b: int|
                0 <= a <= n && 0 <= b <= n implies (#[trigger] cache.edges@.contains((a as usize, b as usize)) <==> {
                    ||| (a < n && b < n && c0.edges@.contains((a as usize, b as usize)))
                    ||| (a == n && b < n && refs@.take(k + 1).contains(c1.graph_index@[b]))
                }) by {
                if a == n && b < n {
                    if refs@.take(k + 1).contains(c1.graph_index@[b]) && !refs@.take(k as int).contains(c1.graph_index@[b]) {
                        assert(c1.graph_index@[b] == t);
                    }
                    if refs@.take(k as int).contains(c1.graph_index@[b]) {
                        let q = choose|q: int| 0 <= q < k && refs@.take(k as int)[q] == c1.graph_index@[b];
                        assert(refs@.take(k + 1)[q] == c1.graph_index@[b]);
                    }
                    if b < n && c1.graph_index@[b] == t {
                        assert(refs@.take(k + 1)[k as int] == t);
                    }
                }
            }
        }
        k = k + 1;
    }
    assert(refs@.take(refs@.len() as int) == refs@);
    // records that reference the new node
    let m = graph.nodes.len();
    let mut j: usize = 0;
    while j < m
        invariant
            j <= m,
            cache.wf(),
            cache.ids@ == c1.ids@,
            cache.graph_index@ == c1.graph_index@,
            cache.metric_values@ == c1.metric_values@,
            cache.root_index == c1.root_index,
            cache.min_metric == c1.min_metric,
            cache.max_metric == c1.max_metric,
            cache.edges@.len() >= c0.edges@.len(),
            cache.edges@.take(c0.edges@.len() as int) == c0.edges@,
            forall|a: int, b: int|
                0 <= a <= n && 0 <= b <= n ==> (#[trigger] cache.edges@.contains((a as usize, b as usize)) <==> {
                    ||| (a < n && b < n && c0.edges@.contains((a as usize, b as usize)))
                    ||| (a == n && b < n && refs@.contains(c1.graph_index@[b]))
                    ||| (b == n && a < n && c1.graph_index@[a] < j
                        && graph.reference_index@[c1.graph_index@[a] as int]@.contains(g))
                }),
        decreases m - j,
    {
        if j != g {
            match position_of(cache, j) {
                Some(a) => {
                    if list_contains(&graph.reference_index[j], g) {
                        {
                    let ghost before = cache.edges@;
                    cache.add_edge(a, n);
                    proof {
                        if cache.edges@ != before {
                            assert(cache.edges@.take(c0.edges@.len() as int) == before.take(c0.edges@.len() as int));
                        }
                    }
                }
                    }
                },
                None => {},
            }
        }
        proof {
            assert forall|a: int, b: int|
                0 <= a <= n && 0 <= b <= n implies (#[trigger] cache.edges@.contains((a as usize, b as usize)) <==> {
                    ||| (a < n && b < n && c0.edges@.contains((a as usize, b as usize)))
                    ||| (a == n && b < n && refs@.contains(c1.graph_index@[b]))
                    ||| (b == n && a < n && c1.graph_index@[a] < j + 1
                        && graph.reference_index@[c1.graph_index@[a] as int]@.contains(g))
                }) by {
                if b == n && a < n && c1.graph_index@[a] == j {
                    assert(j != g) by {
                        if j == g {
                            assert(c1.graph_index@[n as int] == g);
                        }
                    }
                }
            }
        }
        j = j + 1;
    }
    proof {
        assert(shows(*graph, *cache)) by {
            assert forall|i: int| 0 <= i < cache.ids@.len() implies (#[trigger] cache.graph_index@[i] as int) < graph.nodes@.len()
                && cache.ids@[i]@ == graph.nodes@[cache.graph_index@[i] as int].id@ by {
                assert(c1.ids@[i] == cache.ids@[i]);
            }
        }
        assert(cache.ids@.take(n as int) =~= c0.ids@);
        assert(graph.spec_index_of(node_id@) == Some(g as int));
        assert forall|a: int| 0 <= a < n implies (#[trigger] c1.graph_index@[a] as int) < m by {
            assert(c1.graph_index@[a] == c0.graph_index@[a]);
        }
    }
    Some(n)
}

/// Every edge of a well-formed render graph joins two distinct nodes, and is
/// listed in its source's outgoing list and its target's incoming list.
pub proof fn lemma_edge_invariant(rg: RenderGraph, e: int)
    requires
        rg.wf(),
        0 <= e < rg.edges@.len(),
    ensures
        rg.edges@[e].0 != rg.edges@[e].1,
        rg.outgoing@[rg.edges@[e].0 as int]@.contains(rg.edges@[e].1),
        rg.incoming@[rg.edges@[e].1 as int]@.contains(rg.edges@[e].0),
{
    let (a, b) = rg.edges@[e];
    assert(rg.edges@.contains(((a as int) as usize, (b as int) as usize)));
}

/// A node that the previous render graph showed keeps the state of that
/// node across a rebuild; only nodes new to the graph start afresh.
pub proof fn lemma_continuity(
    previous: RenderGraph,
    ids: Seq<String>,
    carry: Seq<Option<usize>>,
    i: int,
)
    requires
        previous.wf(),
        carries_from(Some(&previous), ids, carry),
        0 <= i < ids.len(),
    ensures
        forall|j: int|
            0 <= j < previous.ids@.len() && previous.ids@[j]@ == ids[i]@ ==> carry[i] == Some(j as usize),
        carry[i] is None ==> forall|j: int| 0 <= j < previous.ids@.len() ==> previous.ids@[j]@ != ids[i]@,
{
    assert forall|j: int|
        0 <= j < previous.ids@.len() && previous.ids@[j]@ == ids[i]@ implies carry[i] == Some(j as usize) by {
        match carry[i] {
            Some(k) => {
                assert(previous.ids@[k as int]@ == previous.ids@[j]@);
            },
            None => {},
        }
    }
}

/// A well-formed render graph with a single node has no edges and empty
/// adjacency lists.
pub proof fn lemma_single_node(rg: RenderGraph)
    requires
        rg.wf(),
        rg.ids@.len() == 1,
    ensures
        rg.edges@.len() == 0,
        rg.outgoing@[0]@.len() == 0,
        rg.incoming@[0]@.len() == 0,
{
    if rg.edges@.len() > 0 {
        assert(rg.edges@[0].0 < 1 && rg.edges@[0].1 < 1);
    }
    if rg.outgoing@[0]@.len() > 0 {
        let b = rg.outgoing@[0]@[0];
        assert(b < 1);
        assert(rg.outgoing@[0]@.contains((b as int) as usize));
        assert(rg.edges@.contains(((0int) as usize, (b as int) as usize)));
    }
    if rg.incoming@[0]@.len() > 0 {
        let a = rg.incoming@[0]@[0];
        assert(a < 1);
        assert(rg.incoming@[0]@.contains((a as int) as usize));
        assert(rg.edges@.contains(((a as int) as usize, (0int) as usize)));
    }
}

/// Total length of the first `a` lists.
pub open spec fn row_total(lists: Seq<Vec<usize>>, a: int) -> int
    decreases a,
{
    if a <= 0 {
        0
    } else {
        row_total(lists, a - 1) + lists[a - 1]@.len()
    }
}

/// Edges whose source (`by_source`) or target is below `a`.
pub open spec fn edges_below(edges: Seq<(usize, usize)>, a: int, by_source: bool) -> Set<(usize, usize)> {
    edges.to_set().filter(|e: (usize, usize)| ((if by_source { e.0 } else { e.1 }) as int) < a)
}

proof fn lemma_rows_count(rg: RenderGraph, a: int, by_source: bool)
    requires
        rg.wf(),
        0 <= a <= rg.ids@.len(),
        rg.ids@.len() <= usize::MAX,
    ensures
        edges_below(rg.edges@, a, by_source).finite(),
        edges_below(rg.edges@, a, by_source).len() == row_total(
            if by_source { rg.outgoing@ } else { rg.incoming@ },
            a,
        ),
    decreases a,
{
    broadcast use vstd::seq_lib::seq_to_set_is_finite;

    let n = rg.ids@.len();
    let lists = if by_source { rg.outgoing@ } else { rg.incoming@ };
    rg.edges@.to_set().lemma_len_filter(|e: (usize, usize)| ((if by_source { e.0 } else { e.1 }) as int) < a);
    if a == 0 {
        assert(edges_below(rg.edges@, a, by_source) =~= Set::empty());
    } else {
        lemma_rows_count(rg, a - 1, by_source);
        let x = (a - 1) as usize;
        let row = lists[a - 1]@.to_set();
        let f = |b: usize| if by_source { (x, b) } else { (b, x) };
        let mapped = row.map(f);
        assert(vstd::relations::injective_on(f, row)) by {
            assert forall|b1: usize, b2: usize| row.contains(b1) && row.contains(b2) && #[trigger] f(b1) == #[trigger] f(b2) implies b1 == b2 by {}
        }
        vstd::set_lib::lemma_map_size(row, mapped, f);
        assert(no_repeats(rg.outgoing@[a - 1]@) && no_repeats(rg.incoming@[a - 1]@));
        lists[a - 1]@.unique_seq_to_set();
        let lower = edges_below(rg.edges@, a - 1, by_source);
        assert(edges_below(rg.edges@, a, by_source) =~= lower + mapped) by {
            assert forall|e: (usize, usize)| edges_below(rg.edges@, a, by_source).contains(e) <==> (lower + mapped).contains(e) by {
                if rg.edges@.contains(e) {
                    let k = choose|k: int| 0 <= k < rg.edges@.len() && rg.edges@[k] == e;
                    assert(e.0 < n && e.1 < n);
                    assert(rg.edges@.contains(((e.0 as int) as usize, (e.1 as int) as usize)));
                    if by_source && e.0 as int == a - 1 {
                        assert(lists[a - 1]@.contains(e.1));
                        assert(row.contains(e.1) && f(e.1) == e);
                    }
                    if !by_source && e.1 as int == a - 1 {
                        assert(lists[a - 1]@.contains(e.0));
                        assert(row.contains(e.0) && f(e.0) == e);
                    }
                }
                if mapped.contains(e) {
                    let b = choose|b: usize| row.contains(b) && f(b) == e;
                    let t = choose|t: int| 0 <= t < lists[a - 1]@.len() && #[trigger] lists[a - 1]@[t] == b;
                    assert((lists[a - 1]@[t] as int) < n);
                    if by_source {
                        assert(rg.outgoing@[a - 1]@.contains((b as int) as usize));
                        assert(rg.edges@.contains((((a - 1) as int) as usize, (b as int) as usize)));
                    } else {
                        assert(rg.incoming@[a - 1]@.contains((b as int) as usize));
                        assert(rg.edges@.contains(((b as int) as usize, ((a - 1) as int) as usize)));
                    }
                    assert(rg.edges@.to_set().contains(e));
                }
            }
        }
        assert(lower.disjoint(mapped)) by {
            assert forall|e: (usize, usize)| lower.contains(e) implies !mapped.contains(e) by {
                if mapped.contains(e) {
                    let b = choose|b: usize| row.contains(b) && f(b) == e;
                }
            }
        }
        vstd::set_lib::lemma_set_disjoint_lens(lower, mapped);
    }
}

/// The adjacency lists hold each edge once: their lengths add up to the
/// number of edges, both ways.
pub proof fn lemma_adjacency_sizes(rg: RenderGraph)
    requires
        rg.wf(),
        rg.ids@.len() <= usize::MAX,
    ensures
        row_total(rg.outgoing@, rg.ids@.len() as int) == rg.edges@.len(),
        row_total(rg.incoming@, rg.ids@.len() as int) == rg.edges@.len(),
{
    let n = rg.ids@.len() as int;
    lemma_rows_count(rg, n, true);
    lemma_rows_count(rg, n, false);
    assert(rg.edges@.no_duplicates());
    rg.edges@.unique_seq_to_set();
    assert forall|by_source: bool| #[trigger] edges_below(rg.edges@, n, by_source) == rg.edges@.to_set() by {
        assert forall|e: (usize, usize)| rg.edges@.to_set().contains(e) implies edges_below(rg.edges@, n, by_source).contains(e) by {
            let k = choose|k: int| 0 <= k < rg.edges@.len() && rg.edges@[k] == e;
        }
        assert(edges_below(rg.edges@, n, by_source) =~= rg.edges@.to_set());
    }
    assert(edges_below(rg.edges@, n, true) == rg.edges@.to_set());
    assert(edges_below(rg.edges@, n, false) == rg.edges@.to_set());
}

/// Raising the node cap by one keeps every record that was selected before
/// (with `lemma_continuity`, their simulation state carries over).
pub proof fn lemma_relaxed_filter_keeps_nodes(
    graph: SystemGraph,
    metric: SizeMetric,
    threshold: u64,
    max_nodes: usize,
    selected: Option<Seq<char>>,
    sel1: Seq<usize>,
    sel2: Seq<usize>,
)
    requires
        max_nodes < usize::MAX,
        is_filtered(graph, metric, threshold, max_nodes, selected, sel1),
        is_filtered(graph, metric, threshold, (max_nodes + 1) as usize, selected, sel2),
    ensures
        forall|a: int| 0 <= a < sel1.len() ==> sel2.contains(#[trigger] sel1[a]),
{
    let pins = pinned(graph, selected);
    let p = metric_keys(graph.nodes@, metric);
    let z = zeros(graph.nodes@.len());
    let c = over_threshold(graph, metric, threshold, pins);
    let l1 = (node_budget(max_nodes, graph.nodes@.len()) - pins.len()) as nat;
    let l2 = (node_budget((max_nodes + 1) as usize, graph.nodes@.len()) - pins.len()) as nat;
    let rest1 = choose|rest: Seq<usize>| #[trigger] is_top_ranking(p, z, c, l1, rest) && sel1 == pins + rest;
    let rest2 = choose|rest: Seq<usize>| #[trigger] is_top_ranking(p, z, c, l2, rest) && sel2 == pins + rest;
    crate::rank::lemma_top_ranking_grows(p, z, c, l1, l2, rest1, rest2);
    assert forall|a: int| 0 <= a < sel1.len() implies sel2.contains(#[trigger] sel1[a]) by {
        if a < pins.len() {
            assert(sel2[a] == pins[a]);
        } else {
            assert(sel1[a] == rest1[a - pins.len()]);
            assert(rest2.contains(rest1[a - pins.len()]));
            let t = choose|t: int| 0 <= t < rest2.len() && rest2[t] == rest1[a - pins.len()];
            assert(sel2[pins.len() + t] == rest2[t]);
        }
    }
}

/// The same graph and filters always select the same records in the same
/// order, so a rebuild's node order, edges and root index are reproducible.
pub proof fn lemma_filtered_unique(
    graph: SystemGraph,
    metric: SizeMetric,
    threshold: u64,
    max_nodes: usize,
    selected: Option<Seq<char>>,
    sel1: Seq<usize>,
    sel2: Seq<usize>,
)
    requires
        is_filtered(graph, metric, threshold, max_nodes, selected, sel1),
        is_filtered(graph, metric, threshold, max_nodes, selected, sel2),
    ensures
        sel1 == sel2,
{
    let pins = pinned(graph, selected);
    let p = metric_keys(graph.nodes@, metric);
    let z = zeros(graph.nodes@.len());
    let c = over_threshold(graph, metric, threshold, pins);
    let l = (node_budget(max_nodes, graph.nodes@.len()) - pins.len()) as nat;
    let rest1 = choose|rest: Seq<usize>| #[trigger] is_top_ranking(p, z, c, l, rest) && sel1 == pins + rest;
    let rest2 = choose|rest: Seq<usize>| #[trigger] is_top_ranking(p, z, c, l, rest) && sel2 == pins + rest;
    crate::rank::lemma_top_ranking_unique(p, z, c, l, rest1, rest2);
}

} // verus!
