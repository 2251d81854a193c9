use vstd::prelude::*;
use crate::paths::{bfs_path, is_walk, reaches};
use crate::rank::{is_top_ranking, rank_candidates};
use crate::text::str_eq;

verus! {

/// Which `u64`-valued quantity of a node drives sizing, ranking and colouring.
#[derive(Clone, Copy, Debug, PartialEq, Eq, Structural)]
pub enum SizeMetric {
    NarSize,
    ClosureSize,
    Dependencies,
    ReverseDependencies,
}

impl SizeMetric {
    /// Whether the metric counts bytes (as opposed to a number of edges).
    pub fn is_byte_metric(self) -> (r: bool)
        ensures
            r == (self == SizeMetric::NarSize || self == SizeMetric::ClosureSize),
    {
        match self {
            SizeMetric::NarSize | SizeMetric::ClosureSize => true,
            _ => false,
        }
    }

    /// Short machine-readable name of the metric.
    pub fn label(self) -> (r: &'static str)
        ensures
            self == SizeMetric::NarSize ==> r@ == "narSize"@,
            self == SizeMetric::ClosureSize ==> r@ == "closureSize"@,
            self == SizeMetric::Dependencies ==> r@ == "dependencies"@,
            self == SizeMetric::ReverseDependencies ==> r@ == "reverseDependencies"@,
    {
        match self {
            SizeMetric::NarSize => "narSize",
            SizeMetric::ClosureSize => "closureSize",
            SizeMetric::Dependencies => "dependencies",
            SizeMetric::ReverseDependencies => "reverseDependencies",
        }
    }
}

/// One store path of the closure.
#[derive(Clone, Debug)]
pub struct NodeRecord {
    pub id: String,
    pub full_path: String,
    pub nar_size: u64,
    pub closure_size: u64,
    /// Forward dependencies (ids).
    pub references: Vec<String>,
    /// Reverse dependencies (ids).
    pub referrers: Vec<String>,
    pub deriver: Option<String>,
}

/// The value of `metric` on a node.
pub open spec fn metric_of(n: NodeRecord, metric: SizeMetric) -> int {
    match metric {
        SizeMetric::NarSize => n.nar_size as int,
        SizeMetric::ClosureSize => n.closure_size as int,
        SizeMetric::Dependencies => n.references@.len() as int,
        SizeMetric::ReverseDependencies => n.referrers@.len() as int,
    }
}

impl NodeRecord {
    pub fn metric(&self, metric: SizeMetric) -> (r: u64)
        ensures
            r == sat(metric_of(*self, metric)),
    {
        match metric {
            SizeMetric::NarSize => self.nar_size,
            SizeMetric::ClosureSize => self.closure_size,
            SizeMetric::Dependencies => clamp_len(self.references.len()),
            SizeMetric::ReverseDependencies => clamp_len(self.referrers.len()),
        }
    }
}

/// `x` as a `u64`, saturating at `u64::MAX`.
pub open spec fn sat(x: int) -> u64 {
    if x > u64::MAX {
        u64::MAX
    } else if x < 0 {
        0
    } else {
        x as u64
    }
}

/// A length as `u64`, saturating (a no-op on every supported target).
fn clamp_len(n: usize) -> (r: u64)
    ensures
        r == sat(n as int),
{
    if n as u128 > u64::MAX as u128 {
        u64::MAX
    } else {
        n as u64
    }
}

/// No two records share an id.
pub open spec fn ids_distinct(nodes: Seq<NodeRecord>) -> bool {
    forall|i: int, j: int|
        0 <= i < nodes.len() && 0 <= j < nodes.len() && i != j ==> #[trigger] nodes[i].id@
            != #[trigger] nodes[j].id@
}

/// `idx[k]` is the position in `nodes` of the record named `names[k]`.
pub open spec fn resolves(nodes: Seq<NodeRecord>, names: Seq<String>, idx: Seq<usize>) -> bool {
    &&& idx.len() == names.len()
    &&& forall|k: int|
        0 <= k < idx.len() ==> (#[trigger] idx[k] as int) < nodes.len() && nodes[idx[k] as int].id@
            == names[k]@
}

/// The ids of the records at positions `r`.
pub open spec fn ids_at(nodes: Seq<NodeRecord>, r: Seq<usize>) -> Seq<Seq<char>> {
    r.map_values(|i: usize| nodes[i as int].id@)
}

/// The characters of each string.
pub open spec fn views(v: Seq<String>) -> Seq<Seq<char>> {
    v.map_values(|s: String| s@)
}

/// Per-node ranking keys: `metric`, number of references, number of
/// referrers, NAR size.
pub open spec fn metric_keys(nodes: Seq<NodeRecord>, metric: SizeMetric) -> Seq<u64> {
    Seq::new(nodes.len(), |i: int| sat(metric_of(nodes[i], metric)))
}

/// `r` is the best `limit` positions of all records, in ranking order.
pub open spec fn top_all(p: Seq<u64>, s: Seq<u64>, limit: nat, r: Seq<usize>) -> bool {
    is_top_ranking(p, s, Seq::new(p.len(), |j: int| true), limit, r)
}

/// The dependency closure of a system: records keyed by id, with each
/// record's references and referrers also resolved to record positions.
#[derive(Clone, Debug)]
pub struct SystemGraph {
    pub store_dir: String,
    pub root_id: String,
    pub nodes: Vec<NodeRecord>,
    pub edge_count: usize,
    /// `reference_index[i][k]` is the position of `nodes[i].references[k]`.
    pub reference_index: Vec<Vec<usize>>,
    /// `referrer_index[i][k]` is the position of `nodes[i].referrers[k]`.
    pub referrer_index: Vec<Vec<usize>>,
}

impl SystemGraph {
    pub open spec fn wf(&self) -> bool {
        &&& ids_distinct(self.nodes@)
        &&& self.reference_index@.len() == self.nodes@.len()
        &&& self.referrer_index@.len() == self.nodes@.len()
        &&& forall|i: int|
            0 <= i < self.nodes@.len() ==> resolves(
                self.nodes@,
                #[trigger] self.nodes@[i].references@,
                self.reference_index@[i]@,
            )
        &&& forall|i: int|
            0 <= i < self.nodes@.len() ==> resolves(
                self.nodes@,
                #[trigger] self.nodes@[i].referrers@,
                self.referrer_index@[i]@,
            )
    }

    /// Position of the record with id `id`, if any.
    pub open spec fn spec_index_of(&self, id: Seq<char>) -> Option<int> {
        if exists|i: int| 0 <= i < self.nodes@.len() && #[trigger] self.nodes@[i].id@ == id {
            Some(choose|i: int| 0 <= i < self.nodes@.len() && #[trigger] self.nodes@[i].id@ == id)
        } else {
            None
        }
    }

    pub fn node_count(&self) -> (r: usize)
        ensures
            r == self.nodes@.len(),
    {
        self.nodes.len()
    }

    /// Position of the record with id `id`, if any.
    pub fn index_of(&self, id: &str) -> (r: Option<usize>)
        requires
            self.wf(),
        ensures
            r matches Some(i) ==> self.spec_index_of(id@) == Some(i as int),
            r is None ==> self.spec_index_of(id@) is None,
    {
        let mut i: usize = 0;
        while i < self.nodes.len()
            invariant
                self.wf(),
                i <= self.nodes@.len(),
                forall|j: int| 0 <= j < i ==> #[trigger] self.nodes@[j].id@ != id@,
            decreases self.nodes@.len() - i,
        {
            if str_eq(self.nodes[i].id.as_str(), id) {
                let ghost k = choose|k: int|
                    0 <= k < self.nodes@.len() && #[trigger] self.nodes@[k].id@ == id@;
                assert(self.nodes@[k].id@ == self.nodes@[i as int].id@);
                assert(k == i);
                assert(self.spec_index_of(id@) == Some(k));
                return Some(i);
            }
            i = i + 1;
        }
        None
    }

    /// Every record's key for `metric`.
    fn metric_key_vec(&self, metric: SizeMetric) -> (r: Vec<u64>)
        ensures
            r@ == metric_keys(self.nodes@, metric),
    {
        let mut r: Vec<u64> = Vec::new();
        let mut i: usize = 0;
        while i < self.nodes.len()
            invariant
                i <= self.nodes@.len(),
                r@ =~= metric_keys(self.nodes@, metric).take(i as int),
            decreases self.nodes@.len() - i,
        {
            r.push(self.nodes[i].metric(metric));
            i = i + 1;
        }
        r
    }

    fn ids_for(&self, r: &Vec<usize>) -> (ids: Vec<String>)
        requires
            forall|a: int| 0 <= a < r@.len() ==> (#[trigger] r@[a] as int) < self.nodes@.len(),
        ensures
            views(ids@) == ids_at(self.nodes@, r@),
    {
        let mut ids: Vec<String> = Vec::new();
        let mut a: usize = 0;
        while a < r.len()
            invariant
                a <= r@.len(),
                forall|b: int| 0 <= b < r@.len() ==> (#[trigger] r@[b] as int) < self.nodes@.len(),
                views(ids@) =~= ids_at(self.nodes@, r@).take(a as int),
            decreases r@.len() - a,
        {
            let id = self.nodes[r[a]].id.clone();
            let ghost before = ids@;
            ids.push(id);
            assert(views(ids@) =~= views(before).push(id@));
            a = a + 1;
        }
        assert(ids_at(self.nodes@, r@).take(r@.len() as int) =~= ids_at(self.nodes@, r@));
        ids
    }

    /// Ids ordered by `metric` descending, then by number of references
    /// descending, then by record position; at most `limit` of them.
    pub fn ranked_by_metric(&self, metric: SizeMetric, limit: usize) -> (ids: Vec<String>)
        ensures
            exists|r: Seq<usize>|
                #[trigger] top_all(
                    metric_keys(self.nodes@, metric),
                    metric_keys(self.nodes@, SizeMetric::Dependencies),
                    limit as nat,
                    r,
                ) && views(ids@) == ids_at(self.nodes@, r),
    {
        self.ranked_by_keys(metric, SizeMetric::Dependencies, limit)
    }

    /// Ids ordered by number of referrers descending, then by NAR size
    /// descending, then by record position; at most `limit` of them.
    pub fn ranked_by_referrers(&self, limit: usize) -> (ids: Vec<String>)
        ensures
            exists|r: Seq<usize>|
                #[trigger] top_all(
                    metric_keys(self.nodes@, SizeMetric::ReverseDependencies),
                    metric_keys(self.nodes@, SizeMetric::NarSize),
                    limit as nat,
                    r,
                ) && views(ids@) == ids_at(self.nodes@, r),
    {
        self.ranked_by_keys(SizeMetric::ReverseDependencies, SizeMetric::NarSize, limit)
    }

    /// Ids ordered by number of references descending, then by NAR size
    /// descending, then by record position; at most `limit` of them.
    pub fn ranked_by_dependencies(&self, limit: usize) -> (ids: Vec<String>)
        ensures
            exists|r: Seq<usize>|
                #[trigger] top_all(
                    metric_keys(self.nodes@, SizeMetric::Dependencies),
                    metric_keys(self.nodes@, SizeMetric::NarSize),
                    limit as nat,
                    r,
                ) && views(ids@) == ids_at(self.nodes@, r),
    {
        self.ranked_by_keys(SizeMetric::Dependencies, SizeMetric::NarSize, limit)
    }

    /// Same as `ranked_by_metric`.
    pub fn top_by_metric(&self, metric: SizeMetric, limit: usize) -> (ids: Vec<String>)
        ensures
            exists|r: Seq<usize>|
                #[trigger] top_all(
                    metric_keys(self.nodes@, metric),
                    metric_keys(self.nodes@, SizeMetric::Dependencies),
                    limit as nat,
                    r,
                ) && views(ids@) == ids_at(self.nodes@, r),
    {
        self.ranked_by_metric(metric, limit)
    }

    /// Same as `ranked_by_referrers`.
    pub fn top_by_referrers(&self, limit: usize) -> (ids: Vec<String>)
        ensures
            exists|r: Seq<usize>|
                #[trigger] top_all(
                    metric_keys(self.nodes@, SizeMetric::ReverseDependencies),
                    metric_keys(self.nodes@, SizeMetric::NarSize),
                    limit as nat,
                    r,
                ) && views(ids@) == ids_at(self.nodes@, r),
    {
        self.ranked_by_referrers(limit)
    }

    fn ranked_by_keys(&self, first: SizeMetric, second: SizeMetric, limit: usize) -> (ids: Vec<
        String,
    >)
        ensures
            exists|r: Seq<usize>|
                #[trigger] top_all(
                    metric_keys(self.nodes@, first),
                    metric_keys(self.nodes@, second),
                    limit as nat,
                    r,
                ) && views(ids@) == ids_at(self.nodes@, r),
    {
        let p = self.metric_key_vec(first);
        let s = self.metric_key_vec(second);
        let mut cand: Vec<bool> = Vec::new();
        let mut i: usize = 0;
        while i < self.nodes.len()
            invariant
                i <= self.nodes@.len(),
                cand@.len() == i,
                forall|j: int| 0 <= j < i ==> cand@[j],
            decreases self.nodes@.len() - i,
        {
            cand.push(true);
            i = i + 1;
        }
        let r = rank_candidates(&p, &s, &cand, limit);
        assert(forall|a: int| 0 <= a < r@.len() ==> (#[trigger] r@[a] as int) < self.nodes@.len());
        let ids = self.ids_for(&r);
        assert(cand@ =~= Seq::new(p@.len(), |j: int| true));
        assert(top_all(p@, s@, limit as nat, r@));
        ids
    }

    /// Shortest path (by number of edges) from the root to `target` along
    /// references, as ids, when `target` is a record reachable from the root.
    pub fn shortest_path_from_root(&self, target: &str) -> (r: Option<Vec<String>>)
        requires
            self.wf(),
        ensures
            r is Some <==> {
                &&& self.spec_index_of(target@) is Some
                &&& self.spec_index_of(self.root_id@) is Some
                &&& reaches(
                    self.reference_index@,
                    self.spec_index_of(self.root_id@)->0,
                    self.spec_index_of(target@)->0,
                )
            },
            r matches Some(path) ==> exists|w: Seq<usize>|
                {
                    &&& #[trigger] is_walk(self.reference_index@, w)
                    &&& w[0] == self.spec_index_of(self.root_id@)->0
                    &&& w[w.len() - 1] == self.spec_index_of(target@)->0
                    &&& views(path@) == ids_at(self.nodes@, w)
                    &&& forall|u: Seq<usize>|
                        #[trigger] is_walk(self.reference_index@, u) && u[0] == w[0] && u[u.len() - 1]
                            == w[w.len() - 1] ==> w.len() <= u.len()
                },
    {
        let t = match self.index_of(target) {
            Some(t) => t,
            None => return None,
        };
        let root = match self.index_of(self.root_id.as_str()) {
            Some(x) => x,
            None => return None,
        };
        proof {
            assert forall|i: int, k: int|
                0 <= i < self.reference_index@.len() && 0 <= k < self.reference_index@[i]@.len()
                    implies (#[trigger] self.reference_index@[i]@[k] as int)
                < self.reference_index@.len() by {
                assert(resolves(self.nodes@, self.nodes@[i].references@, self.reference_index@[i]@));
            }
        }
        match bfs_path(&self.reference_index, root, t) {
            Some(w) => {
                let ids = self.ids_for(&w);
                Some(ids)
            },
            None => None,
        }
    }
}

} // verus!
