use vstd::prelude::*;

verus! {

/// A cell holds at most this many points before it is split.
pub const QUADTREE_LEAF_CAPACITY: usize = 12;

/// Cells at this depth are never split.
pub const QUADTREE_MAX_DEPTH: usize = 10;

/// Quadrant (0..4) of a point at `depth`, read from its quadrant code: two
/// bits per level, lowest level first.
pub open spec fn quadrant_at(code: u32, depth: usize) -> u32 {
    (code >> ((2 * depth) as u32)) & 3u32
}

pub fn quadrant(code: u32, depth: usize) -> (r: usize)
    requires
        depth < 16,
    ensures
        r == quadrant_at(code, depth) as usize,
        r < 4,
{
    let q = (code >> ((2 * depth) as u32)) & 3u32;
    assert(q < 4) by (bit_vector)
        requires
            q == (code >> ((2 * depth) as u32)) & 3u32,
    ;
    q as usize
}

/// One cell of the tree. `path` lists the quadrant taken at each level from
/// the root (so `depth == path.len()`, and `quadrant` is its last entry). A
/// leaf lists its points; an inner cell lists its children, built before it.
/// `mass` is the number of points below the cell.
#[derive(Clone, Debug)]
pub struct QuadCell {
    pub depth: usize,
    pub quadrant: usize,
    pub path: Vec<usize>,
    pub mass: usize,
    pub indices: Vec<usize>,
    pub children: Vec<usize>,
}

/// Sum of the masses of the cells `ch`.
pub open spec fn children_mass(cells: Seq<QuadCell>, ch: Seq<usize>) -> int
    decreases ch.len(),
{
    if ch.len() == 0 {
        0
    } else {
        children_mass(cells, ch.drop_last()) + cells[ch.last() as int].mass
    }
}

/// The point with quadrant code `code` lies in the cell reached by `path`.
pub open spec fn on_path(code: u32, path: Seq<usize>) -> bool {
    forall|l: int| 0 <= l < path.len() ==> #[trigger] path[l] == quadrant_at(code, l as usize) as usize
}

pub open spec fn distinct_indices(v: Seq<usize>) -> bool {
    forall|a: int, b: int| 0 <= a < v.len() && 0 <= b < v.len() && a != b ==> v[a] != v[b]
}

/// Why a cell with these points was not split: few enough points, the
/// deepest level, or all points in one quadrant of the cell.
pub open spec fn stays_leaf(codes: Seq<u32>, indices: Seq<usize>, depth: usize) -> bool {
    ||| indices.len() <= QUADTREE_LEAF_CAPACITY
    ||| depth >= QUADTREE_MAX_DEPTH
    ||| forall|k: int|
        0 <= k < indices.len() ==> quadrant_at(codes[#[trigger] indices[k] as int], depth) == quadrant_at(
            codes[indices[0] as int],
            depth,
        )
}

/// Cell `c` is either a leaf holding distinct points that lie on its path
/// and that it may not split, or an inner cell with no points of its own and
/// at least two earlier children, one level deeper, one per quadrant in
/// increasing order, whose masses add up to its own.
pub open spec fn cell_wf(codes: Seq<u32>, cells: Seq<QuadCell>, c: int) -> bool {
    let x = cells[c];
    &&& x.depth == x.path@.len()
    &&& x.depth <= QUADTREE_MAX_DEPTH
    &&& if x.children@.len() > 0 {
        &&& x.indices@.len() == 0
        &&& x.children@.len() >= 2
        &&& forall|k: int|
            0 <= k < x.children@.len() ==> {
                &&& (#[trigger] x.children@[k] as int) < c
                &&& cells[x.children@[k] as int].depth == x.depth + 1
                &&& cells[x.children@[k] as int].path@ == x.path@.push(cells[x.children@[k] as int].quadrant)
            }
        &&& forall|k1: int, k2: int|
            0 <= k1 < k2 < x.children@.len() ==> cells[#[trigger] x.children@[k1] as int].quadrant
                < cells[#[trigger] x.children@[k2] as int].quadrant
        &&& x.mass == children_mass(cells, x.children@)
    } else {
        &&& x.mass == x.indices@.len()
        &&& x.indices@.len() > 0
        &&& distinct_indices(x.indices@)
        &&& forall|k: int|
            0 <= k < x.indices@.len() ==> (#[trigger] x.indices@[k] as int) < codes.len() && on_path(
                codes[x.indices@[k] as int],
                x.path@,
            )
        &&& stays_leaf(codes, x.indices@, x.depth)
    }
}

pub open spec fn cells_wf(codes: Seq<u32>, cells: Seq<QuadCell>) -> bool {
    forall|c: int| 0 <= c < cells.len() ==> #[trigger] cell_wf(codes, cells, c)
}

pub open spec fn is_leaf_cell(cells: Seq<QuadCell>, c: int) -> bool {
    cells[c].children@.len() == 0
}

/// Leaves `c1` and `c2` share no point.
pub open spec fn leaves_disjoint(cells: Seq<QuadCell>, c1: int, c2: int) -> bool {
    forall|k: int| 0 <= k < cells[c1].indices@.len() ==> !cells[c2].indices@.contains(#[trigger] cells[c1].indices@[k])
}

/// Some leaf at position `lo` or later holds point `i`.
pub open spec fn in_some_leaf(cells: Seq<QuadCell>, lo: int, i: usize) -> bool {
    exists|c: int| lo <= c < cells.len() && is_leaf_cell(cells, c) && #[trigger] cells[c].indices@.contains(i)
}

/// Some cell after `c`, up to `top`, lists `c` as a child.
pub open spec fn has_parent(cells: Seq<QuadCell>, c: int, top: int) -> bool {
    exists|p: int| c < p <= top && #[trigger] cells[p].children@.contains(c as usize)
}

/// Cells `p1` and `p2` share no child.
pub open spec fn children_disjoint(cells: Seq<QuadCell>, p1: int, p2: int) -> bool {
    forall|k: int| 0 <= k < cells[p1].children@.len() ==> !cells[p2].children@.contains(#[trigger] cells[p1].children@[k])
}

/// Region quadtree over points given by their quadrant codes; cells are
/// stored children first, the root last.
#[derive(Clone, Debug)]
pub struct QuadTree {
    pub cells: Vec<QuadCell>,
    pub root: usize,
}

impl QuadTree {
    /// Every cell is well formed; the root is the last cell, at depth 0;
    /// every other cell is the child of exactly one later cell; and each of
    /// the points `0..n` lies in exactly one leaf.
    pub open spec fn wf(&self, codes: Seq<u32>) -> bool {
        let cells = self.cells@;
        &&& cells_wf(codes, cells)
        &&& self.root as int == cells.len() - 1
        &&& cells[self.root as int].depth == 0
        &&& forall|c: int| 0 <= c < self.root ==> #[trigger] has_parent(cells, c, self.root as int)
        &&& forall|p1: int, p2: int|
            0 <= p1 < cells.len() && 0 <= p2 < cells.len() && p1 != p2 ==> #[trigger] children_disjoint(cells, p1, p2)
        &&& forall|i: int| 0 <= i < codes.len() ==> #[trigger] in_some_leaf(cells, 0, i as usize)
        &&& forall|c1: int, c2: int|
            0 <= c1 < cells.len() && 0 <= c2 < cells.len() && c1 != c2 && is_leaf_cell(cells, c1)
                && is_leaf_cell(cells, c2) ==> #[trigger] leaves_disjoint(cells, c1, c2)
    }

    /// Whether cell `c` has no children.
    pub fn is_leaf(&self, c: usize) -> (r: bool)
        requires
            c < self.cells@.len(),
        ensures
            r == (self.cells@[c as int].children@.len() == 0),
    {
        self.cells[c].children.len() == 0
    }
}

proof fn lemma_children_mass_prefix(cells: Seq<QuadCell>, more: Seq<QuadCell>, ch: Seq<usize>)
    requires
        cells.len() <= more.len(),
        forall|c: int| 0 <= c < cells.len() ==> more[c] == cells[c],
        forall|k: int| 0 <= k < ch.len() ==> (#[trigger] ch[k] as int) < cells.len(),
    ensures
        children_mass(more, ch) == children_mass(cells, ch),
    decreases ch.len(),
{
    if ch.len() > 0 {
        lemma_children_mass_prefix(cells, more, ch.drop_last());
    }
}

/// Appending cells leaves the earlier ones well formed.
proof fn lemma_extend_wf(codes: Seq<u32>, cells: Seq<QuadCell>, more: Seq<QuadCell>)
    requires
        cells_wf(codes, cells),
        cells.len() <= more.len(),
        forall|c: int| 0 <= c < cells.len() ==> more[c] == cells[c],
    ensures
        forall|c: int| 0 <= c < cells.len() ==> #[trigger] cell_wf(codes, more, c),
{
    assert forall|c: int| 0 <= c < cells.len() implies #[trigger] cell_wf(codes, more, c) by {
        assert(cell_wf(codes, cells, c));
        let x = cells[c];
        if x.children@.len() > 0 {
            lemma_children_mass_prefix(cells, more, x.children@);
            assert forall|k: int| 0 <= k < x.children@.len() implies {
                &&& (#[trigger] x.children@[k] as int) < c
                &&& more[x.children@[k] as int].depth == x.depth + 1
                &&& more[x.children@[k] as int].path@ == x.path@.push(more[x.children@[k] as int].quadrant)
            } by {
                assert(more[x.children@[k] as int] == cells[x.children@[k] as int]);
            }
            assert forall|k1: int, k2: int|
                0 <= k1 < k2 < x.children@.len() implies more[#[trigger] x.children@[k1] as int].quadrant
                    < more[#[trigger] x.children@[k2] as int].quadrant by {
                assert(more[x.children@[k1] as int] == cells[x.children@[k1] as int]);
                assert(more[x.children@[k2] as int] == cells[x.children@[k2] as int]);
            }
        }
    }
}

/// `b` holds, without repeats, the points among the first `i` of `idx`
/// whose quadrant at `depth` is `q`.
pub open spec fn bucket_of(codes: Seq<u32>, idx: Seq<usize>, i: int, depth: usize, q: int, b: Seq<usize>) -> bool {
    &&& distinct_indices(b)
    &&& forall|k: int|
        0 <= k < b.len() ==> (exists|j: int| 0 <= j < i && idx[j] == #[trigger] b[k]) && quadrant_at(
            codes[b[k] as int],
            depth,
        ) as int == q
    &&& forall|k: int|
        0 <= k < i && quadrant_at(codes[#[trigger] idx[k] as int], depth) as int == q ==> b.contains(idx[k])
}

proof fn lemma_bucket_push(codes: Seq<u32>, idx: Seq<usize>, i: int, depth: usize, q: int, b: Seq<usize>, pushed: bool)
    requires
        0 <= i < idx.len(),
        distinct_indices(idx),
        bucket_of(codes, idx, i, depth, q, b),
        pushed <==> quadrant_at(codes[idx[i] as int], depth) as int == q,
    ensures
        bucket_of(codes, idx, i + 1, depth, q, if pushed { b.push(idx[i]) } else { b }),
{
    let nb = if pushed { b.push(idx[i]) } else { b };
    assert forall|x: int, y: int| 0 <= x < nb.len() && 0 <= y < nb.len() && x != y implies nb[x] != nb[y] by {
        if x < b.len() && y < b.len() {
            assert(nb[x] == b[x] && nb[y] == b[y]);
        } else if x < b.len() {
            let j = choose|j: int| 0 <= j < i && idx[j] == #[trigger] b[x];
            assert(nb[x] == b[x]);
        } else {
            let j = choose|j: int| 0 <= j < i && idx[j] == #[trigger] b[y];
            assert(nb[y] == b[y]);
        }
    }
    assert forall|k: int|
        0 <= k < nb.len() implies (exists|j: int| 0 <= j < i + 1 && idx[j] == #[trigger] nb[k]) && quadrant_at(
            codes[nb[k] as int],
            depth,
        ) as int == q by {
        if k < b.len() {
            assert(nb[k] == b[k]);
            let j = choose|j: int| 0 <= j < i && idx[j] == #[trigger] b[k];
            assert(idx[j] == nb[k]);
        } else {
            assert(idx[i] == nb[k]);
        }
    }
    assert forall|k: int|
        0 <= k < i + 1 && quadrant_at(codes[#[trigger] idx[k] as int], depth) as int == q implies nb.contains(idx[k]) by {
        if k < i {
            let t = choose|t: int| 0 <= t < b.len() && b[t] == idx[k];
            assert(nb[t] == idx[k]);
        } else {
            assert(nb[nb.len() - 1] == idx[k]);
        }
    }
}

/// The points of `idx` split by their quadrant at `depth`, each bucket in
/// the order of `idx`.
fn split_quadrants(codes: &Vec<u32>, idx: &Vec<usize>, depth: usize) -> (r: (Vec<usize>, Vec<usize>, Vec<usize>, Vec<usize>))
    requires
        depth < QUADTREE_MAX_DEPTH,
        distinct_indices(idx@),
        forall|k: int| 0 <= k < idx@.len() ==> (#[trigger] idx@[k] as int) < codes@.len(),
    ensures
        bucket_of(codes@, idx@, idx@.len() as int, depth, 0, r.0@),
        bucket_of(codes@, idx@, idx@.len() as int, depth, 1, r.1@),
        bucket_of(codes@, idx@, idx@.len() as int, depth, 2, r.2@),
        bucket_of(codes@, idx@, idx@.len() as int, depth, 3, r.3@),
        r.0@.len() + r.1@.len() + r.2@.len() + r.3@.len() == idx@.len(),
{
    let mut b0: Vec<usize> = Vec::new();
    let mut b1: Vec<usize> = Vec::new();
    let mut b2: Vec<usize> = Vec::new();
    let mut b3: Vec<usize> = Vec::new();
    let mut i: usize = 0;
    while i < idx.len()
        invariant
            depth < QUADTREE_MAX_DEPTH,
            i <= idx@.len(),
            distinct_indices(idx@),
            forall|k: int| 0 <= k < idx@.len() ==> (#[trigger] idx@[k] as int) < codes@.len(),
            bucket_of(codes@, idx@, i as int, depth, 0, b0@),
            bucket_of(codes@, idx@, i as int, depth, 1, b1@),
            bucket_of(codes@, idx@, i as int, depth, 2, b2@),
            bucket_of(codes@, idx@, i as int, depth, 3, b3@),
            b0@.len() + b1@.len() + b2@.len() + b3@.len() == i,
        decreases idx@.len() - i,
    {
        let p = idx[i];
        let q = quadrant(codes[p], depth);
        proof {
            lemma_bucket_push(codes@, idx@, i as int, depth, 0, b0@, q == 0);
            lemma_bucket_push(codes@, idx@, i as int, depth, 1, b1@, q == 1);
            lemma_bucket_push(codes@, idx@, i as int, depth, 2, b2@, q == 2);
            lemma_bucket_push(codes@, idx@, i as int, depth, 3, b3@, q == 3);
        }
        if q == 0 {
            b0.push(p);
        } else if q == 1 {
            b1.push(p);
        } else if q == 2 {
            b2.push(p);
        } else {
            b3.push(p);
        }
        i = i + 1;
    }
    (b0, b1, b2, b3)
}

fn copy_path(path: &Vec<usize>) -> (r: Vec<usize>)
    ensures
        r@ == path@,
{
    let mut r: Vec<usize> = Vec::new();
    let mut i: usize = 0;
    while i < path.len()
        invariant
            i <= path@.len(),
            r@ == path@.take(i as int),
        decreases path@.len() - i,
    {
        r.push(path[i]);
        i = i + 1;
    }
    assert(path@.take(path@.len() as int) == path@);
    r
}

fn push_leaf(
    codes: &Vec<u32>,
    cells: &mut Vec<QuadCell>,
    idx: Vec<usize>,
    path: Vec<usize>,
    quadrant_here: usize,
) -> (r: usize)
    requires
        cells_wf(codes@, old(cells)@),
        idx@.len() > 0,
        distinct_indices(idx@),
        path@.len() <= QUADTREE_MAX_DEPTH,
        forall|k: int| 0 <= k < idx@.len() ==> (#[trigger] idx@[k] as int) < codes@.len() && on_path(codes@[idx@[k] as int], path@),
        stays_leaf(codes@, idx@, path@.len() as usize),
    ensures
        cells_wf(codes@, final(cells)@),
        r == old(cells)@.len(),
        final(cells)@.len() == old(cells)@.len() + 1,
        final(cells)@[r as int].mass == idx@.len(),
        final(cells)@[r as int].path@ == path@,
        final(cells)@[r as int].depth == path@.len(),
        final(cells)@[r as int].quadrant == quadrant_here,
        final(cells)@[r as int].indices@ == idx@,
        final(cells)@[r as int].children@.len() == 0,
        forall|c: int| 0 <= c < old(cells)@.len() ==> final(cells)@[c] == old(cells)@[c],
{
    let mass = idx.len();
    let depth = path.len();
    let leaf = QuadCell { depth, quadrant: quadrant_here, path, mass, indices: idx, children: Vec::new() };
    let ghost before = cells@;
    cells.push(leaf);
    proof {
        lemma_extend_wf(codes@, before, cells@);
        assert(cell_wf(codes@, cells@, before.len() as int));
    }
    cells.len() - 1
}

/// What `build_cell` promises about the cells it adds, `lo..` of `cells`,
/// for the points `idx`, with `r` the new cell.
pub open spec fn built_range(cells: Seq<QuadCell>, lo: int, r: int, idx: Seq<usize>) -> bool {
    &&& forall|c: int, k: int|
        lo <= c < cells.len() && is_leaf_cell(cells, c) && 0 <= k < cells[c].indices@.len() ==> idx.contains(
            #[trigger] cells[c].indices@[k],
        )
    &&& forall|i: usize| #[trigger] idx.contains(i) ==> in_some_leaf(cells, lo, i)
    &&& forall|c1: int, c2: int|
        lo <= c1 < cells.len() && lo <= c2 < cells.len() && c1 != c2 && is_leaf_cell(cells, c1)
            && is_leaf_cell(cells, c2) ==> #[trigger] leaves_disjoint(cells, c1, c2)
    &&& forall|c: int, k: int|
        lo <= c < cells.len() && 0 <= k < cells[c].children@.len() ==> lo <= #[trigger] cells[c].children@[k]
    &&& forall|c: int| 0 <= c < cells.len() ==> !(#[trigger] cells[c].children@).contains(r as usize)
    &&& forall|c: int| lo <= c < r ==> #[trigger] has_parent(cells, c, r)
    &&& forall|p1: int, p2: int|
        lo <= p1 < cells.len() && lo <= p2 < cells.len() && p1 != p2 ==> #[trigger] children_disjoint(cells, p1, p2)
}

proof fn lemma_quadrant_small(code: u32, depth: usize)
    ensures
        quadrant_at(code, depth) < 4,
{
    assert(forall|c: u32, sh: u32| #[trigger] ((c >> sh) & 3u32) < 4u32) by (bit_vector);
}

/// A single new leaf `r` holding `idx` satisfies what `build_cell` promises.
proof fn lemma_leaf_range(old_cells: Seq<QuadCell>, cells: Seq<QuadCell>, r: int, idx: Seq<usize>)
    requires
        cells.len() == old_cells.len() + 1,
        r == old_cells.len(),
        r <= usize::MAX,
        forall|c: int| 0 <= c < old_cells.len() ==> cells[c] == old_cells[c],
        forall|c: int, k: int|
            0 <= c < old_cells.len() && 0 <= k < old_cells[c].children@.len() ==> (#[trigger] old_cells[c].children@[k] as int) < c,
        cells[r].indices@ == idx,
        cells[r].children@.len() == 0,
    ensures
        built_range(cells, r, r, idx),
{
    assert forall|i: usize| #[trigger] idx.contains(i) implies in_some_leaf(cells, r, i) by {
        assert(cells[r].indices@.contains(i));
    }
    assert forall|c: int| 0 <= c < cells.len() implies !(#[trigger] cells[c].children@).contains(r as usize) by {
        if c < r {
            assert(cells[c] == old_cells[c]);
            if cells[c].children@.contains(r as usize) {
                let k = choose|k: int| 0 <= k < cells[c].children@.len() && cells[c].children@[k] == r as usize;
                assert(old_cells[c].children@[k] < c);
            }
        }
    }
}

/// Builds the cell for the points `idx` on quadrant path `path` (and the
/// cells below it), returning its position: a leaf when `stays_leaf` allows,
/// else one child per non-empty quadrant.
#[verifier::rlimit(100)]
#[verifier::loop_isolation(false)]
fn build_cell(
    codes: &Vec<u32>,
    idx: Vec<usize>,
    path: Vec<usize>,
    quadrant_here: usize,
    cells: &mut Vec<QuadCell>,
) -> (r: usize)
    requires
        cells_wf(codes@, old(cells)@),
        forall|c: int, k: int|
            0 <= c < old(cells)@.len() && 0 <= k < old(cells)@[c].children@.len() ==> (#[trigger] old(cells)@[c].children@[k] as int) < c,
        idx@.len() > 0,
        distinct_indices(idx@),
        path@.len() <= QUADTREE_MAX_DEPTH,
        forall|k: int| 0 <= k < idx@.len() ==> (#[trigger] idx@[k] as int) < codes@.len() && on_path(codes@[idx@[k] as int], path@),
    ensures
        cells_wf(codes@, final(cells)@),
        old(cells)@.len() <= r,
        r as int == final(cells)@.len() - 1,
        final(cells)@[r as int].mass == idx@.len(),
        final(cells)@[r as int].path@ == path@,
        final(cells)@[r as int].depth == path@.len(),
        final(cells)@[r as int].quadrant == quadrant_here,
        idx@.len() <= QUADTREE_LEAF_CAPACITY ==> final(cells)@[r as int].children@.len() == 0
            && final(cells)@[r as int].indices@ == idx@ && final(cells)@.len() == old(cells)@.len() + 1,
        forall|c: int| 0 <= c < old(cells)@.len() ==> final(cells)@[c] == old(cells)@[c],
        built_range(final(cells)@, old(cells)@.len() as int, r as int, idx@),
    decreases QUADTREE_MAX_DEPTH - path@.len(),
{
    let ghost lo = cells@.len() as int;
    let ghost start = cells@;
    let depth = path.len();
    if idx.len() <= QUADTREE_LEAF_CAPACITY || depth >= QUADTREE_MAX_DEPTH {
        let ghost iv = idx@;
        let r = push_leaf(codes, cells, idx, path, quadrant_here);
        proof {
            lemma_leaf_range(start, cells@, r as int, iv);
        }
        return r;
    }
    let (b0, b1, b2, b3) = split_quadrants(codes, &idx, depth);
    let non_empty = (if b0.len() > 0 { 1usize } else { 0usize }) + (if b1.len() > 0 { 1usize } else { 0usize })
        + (if b2.len() > 0 { 1usize } else { 0usize }) + (if b3.len() > 0 { 1usize } else { 0usize });
    let ghost bv = seq![b0@, b1@, b2@, b3@];
    assert(forall|j: int| 0 <= j < 4 ==> #[trigger] bucket_of(codes@, idx@, idx@.len() as int, depth, j, bv[j]));
    // every point lies in the bucket of its quadrant
    assert forall|k: int| 0 <= k < idx@.len() implies #[trigger] bv[quadrant_at(codes@[idx@[k] as int], depth) as int].contains(idx@[k]) by {
        let qk = quadrant_at(codes@[idx@[k] as int], depth);
        lemma_quadrant_small(codes@[idx@[k] as int], depth);
        assert(bucket_of(codes@, idx@, idx@.len() as int, depth, qk as int, bv[qk as int]));
    }
    if non_empty <= 1 {
        let ghost iv = idx@;
        proof {
            let q0 = quadrant_at(codes@[idx@[0] as int], depth) as int;
            assert(bv[q0].contains(idx@[0]));
            assert forall|k: int| 0 <= k < idx@.len() implies quadrant_at(codes@[#[trigger] idx@[k] as int], depth) == quadrant_at(
                codes@[idx@[0] as int],
                depth,
            ) by {
                let qk = quadrant_at(codes@[idx@[k] as int], depth) as int;
                lemma_quadrant_small(codes@[idx@[k] as int], depth);
                lemma_quadrant_small(codes@[idx@[0] as int], depth);
                assert(bv[qk].contains(idx@[k]));
                assert(bv[qk].len() > 0 && bv[q0].len() > 0);
                assert(qk == 0 || qk == 1 || qk == 2 || qk == 3);
                assert(q0 == 0 || q0 == 1 || q0 == 2 || q0 == 3);
            }
        }
        let r = push_leaf(codes, cells, idx, path, quadrant_here);
        proof {
            lemma_leaf_range(start, cells@, r as int, iv);
        }
        return r;
    }
    let mut buckets: Vec<Vec<usize>> = Vec::new();
    buckets.push(b0);
    buckets.push(b1);
    buckets.push(b2);
    buckets.push(b3);
    let mut children: Vec<usize> = Vec::new();
    let ghost mut nonempty_seen: int = 0;
    let mut q: usize = 0;
    while q < 4
        invariant
            q <= 4,
            depth < QUADTREE_MAX_DEPTH,
            depth == path@.len(),
            buckets@.len() == 4,
            forall|j: int| q <= j < 4 ==> (#[trigger] buckets@[j])@ == bv[j],
            cells_wf(codes@, cells@),
            lo <= cells@.len(),
            forall|c: int| 0 <= c < lo ==> cells@[c] == start[c],
            forall|c: int, k: int|
                0 <= c < cells@.len() && 0 <= k < cells@[c].children@.len() ==> (#[trigger] cells@[c].children@[k] as int) < c,
            forall|k: int|
                0 <= k < children@.len() ==> {
                    &&& lo <= #[trigger] children@[k] < cells@.len()
                    &&& cells@[children@[k] as int].depth == depth + 1
                    &&& cells@[children@[k] as int].path@ == path@.push(cells@[children@[k] as int].quadrant)
                    &&& cells@[children@[k] as int].quadrant < q
                },
            forall|k1: int, k2: int|
                0 <= k1 < k2 < children@.len() ==> cells@[#[trigger] children@[k1] as int].quadrant
                    < cells@[#[trigger] children@[k2] as int].quadrant,
            nonempty_seen == children@.len(),
            nonempty_seen == (if q > 0 && bv[0].len() > 0 { 1int } else { 0 }) + (if q > 1 && bv[1].len() > 0 { 1int } else { 0 })
                + (if q > 2 && bv[2].len() > 0 { 1int } else { 0 }) + (if q > 3 && bv[3].len() > 0 { 1int } else { 0 }),
            children_mass(cells@, children@) == (if q > 0 { bv[0].len() as int } else { 0 }) + (if q > 1 { bv[1].len() as int } else { 0 })
                + (if q > 2 { bv[2].len() as int } else { 0 }) + (if q > 3 { bv[3].len() as int } else { 0 }),
            forall|c: int, k: int|
                lo <= c < cells@.len() && is_leaf_cell(cells@, c) && 0 <= k < cells@[c].indices@.len() ==> idx@.contains(
                    #[trigger] cells@[c].indices@[k],
                ) && (quadrant_at(codes@[cells@[c].indices@[k] as int], depth) as int) < q,
            forall|j: int, i: usize| 0 <= j < q && #[trigger] bv[j].contains(i) ==> in_some_leaf(cells@, lo, i),
            forall|c1: int, c2: int|
                lo <= c1 < cells@.len() && lo <= c2 < cells@.len() && c1 != c2 && is_leaf_cell(cells@, c1)
                    && is_leaf_cell(cells@, c2) ==> #[trigger] leaves_disjoint(cells@, c1, c2),
            forall|c: int, k: int|
                lo <= c < cells@.len() && 0 <= k < cells@[c].children@.len() ==> lo <= #[trigger] cells@[c].children@[k],
            forall|c: int, k: int|
                0 <= c < cells@.len() && 0 <= k < children@.len() ==> !(#[trigger] cells@[c].children@.contains(children@[k])),
            forall|c: int|
                lo <= c < cells@.len() ==> children@.contains(c as usize) || #[trigger] has_parent(cells@, c, cells@.len() - 1),
            forall|p1: int, p2: int|
                lo <= p1 < cells@.len() && lo <= p2 < cells@.len() && p1 != p2 ==> #[trigger] children_disjoint(cells@, p1, p2),
        decreases 4 - q,
    {
        let mut bucket: Vec<usize> = Vec::new();
        buckets.set_and_swap(q, &mut bucket);
        assert(bucket@ == bv[q as int]);
        assert(bucket_of(codes@, idx@, idx@.len() as int, depth, q as int, bv[q as int]));
        if bucket.len() > 0 {
            let ghost s = cells@.len() as int;
            let ghost mid = cells@;
            let ghost old_children = children@;
            let mut child_path = copy_path(&path);
            child_path.push(q);
            proof {
                assert forall|k: int| 0 <= k < bucket@.len() implies (#[trigger] bucket@[k] as int) < codes@.len()
                    && on_path(codes@[bucket@[k] as int], child_path@) by {
                    let j = choose|j: int| 0 <= j < idx@.len() && idx@[j] == #[trigger] bv[q as int][k];
                    assert(idx@[j] < codes@.len() && on_path(codes@[idx@[j] as int], path@));
                    assert forall|l: int| 0 <= l < child_path@.len() implies #[trigger] child_path@[l]
                        == quadrant_at(codes@[bucket@[k] as int], l as usize) as usize by {
                        if l < path@.len() {
                            assert(child_path@[l] == path@[l]);
                        }
                    }
                }
            }
            let c = build_cell(codes, bucket, child_path, q, cells);
            children.push(c);
            proof {
                nonempty_seen = nonempty_seen + 1;
                lemma_children_mass_prefix(mid, cells@, old_children);
                assert forall|c1: int, k: int|
                    0 <= c1 < cells@.len() && 0 <= k < cells@[c1].children@.len() implies (#[trigger] cells@[c1].children@[k] as int) < c1 by {
                    assert(cell_wf(codes@, cells@, c1));
                }
                assert(children@.drop_last() == old_children);
                let cv = cells@;
                assert forall|c1: int, k: int|
                    lo <= c1 < cv.len() && is_leaf_cell(cv, c1) && 0 <= k < cv[c1].indices@.len() implies idx@.contains(
                        #[trigger] cv[c1].indices@[k],
                    ) && (quadrant_at(codes@[cv[c1].indices@[k] as int], depth) as int) < q + 1 by {
                    if c1 >= s {
                        let x = cv[c1].indices@[k];
                        assert(bv[q as int].contains(x));
                        let t = choose|t: int| 0 <= t < bv[q as int].len() && bv[q as int][t] == x;
                        let j = choose|j: int| 0 <= j < idx@.len() && idx@[j] == #[trigger] bv[q as int][t];
                    } else {
                        assert(cv[c1] == mid[c1]);
                    }
                }
                assert forall|j: int, i: usize| 0 <= j < q + 1 && #[trigger] bv[j].contains(i) implies in_some_leaf(cv, lo, i) by {
                    if j == q as int {
                        assert(bucket@.contains(i) || bv[q as int].contains(i));
                        assert(in_some_leaf(cv, s, i));
                        let c2 = choose|c2: int| s <= c2 < cv.len() && is_leaf_cell(cv, c2) && #[trigger] cv[c2].indices@.contains(i);
                    } else {
                        assert(in_some_leaf(mid, lo, i));
                        let c2 = choose|c2: int| lo <= c2 < mid.len() && is_leaf_cell(mid, c2) && #[trigger] mid[c2].indices@.contains(i);
                        assert(cv[c2] == mid[c2]);
                    }
                }
                assert forall|c1: int, c2: int|
                    lo <= c1 < cv.len() && lo <= c2 < cv.len() && c1 != c2 && is_leaf_cell(cv, c1)
                        && is_leaf_cell(cv, c2) implies #[trigger] leaves_disjoint(cv, c1, c2) by {
                    if c1 < s && c2 < s {
                        assert(cv[c1] == mid[c1] && cv[c2] == mid[c2]);
                        assert(leaves_disjoint(mid, c1, c2));
                    } else if c1 >= s && c2 >= s {
                    } else {
                        assert forall|k: int| 0 <= k < cv[c1].indices@.len() implies !cv[c2].indices@.contains(#[trigger] cv[c1].indices@[k]) by {
                            let x = cv[c1].indices@[k];
                            if cv[c2].indices@.contains(x) {
                                let t = choose|t: int| 0 <= t < cv[c2].indices@.len() && cv[c2].indices@[t] == x;
                                if c1 >= s {
                                    assert(bv[q as int].contains(x));
                                    let u = choose|u: int| 0 <= u < bv[q as int].len() && bv[q as int][u] == x;
                                    assert(cv[c2] == mid[c2]);
                                    assert((quadrant_at(codes@[mid[c2].indices@[t] as int], depth) as int) < q);
                                } else {
                                    assert(bv[q as int].contains(cv[c2].indices@[t]));
                                    let u = choose|u: int| 0 <= u < bv[q as int].len() && bv[q as int][u] == x;
                                    assert(cv[c1] == mid[c1]);
                                    assert((quadrant_at(codes@[mid[c1].indices@[k] as int], depth) as int) < q);
                                }
                            }
                        }
                    }
                }
                assert forall|c1: int, k: int|
                    lo <= c1 < cv.len() && 0 <= k < cv[c1].children@.len() implies lo <= #[trigger] cv[c1].children@[k] by {
                    if c1 < s {
                        assert(cv[c1] == mid[c1]);
                    }
                }
                assert forall|c1: int, k: int|
                    0 <= c1 < cv.len() && 0 <= k < children@.len() implies !(#[trigger] cv[c1].children@.contains(children@[k])) by {
                    if k < old_children.len() {
                        assert(children@[k] == old_children[k]);
                        if c1 < s {
                            assert(cv[c1] == mid[c1]);
                        } else {
                            if cv[c1].children@.contains(children@[k]) {
                                let t = choose|t: int| 0 <= t < cv[c1].children@.len() && cv[c1].children@[t] == children@[k];
                                assert(s <= cv[c1].children@[t]);
                            }
                        }
                    }
                }
                assert forall|c1: int|
                    lo <= c1 < cv.len() implies children@.contains(c1 as usize) || #[trigger] has_parent(cv, c1, cv.len() - 1) by {
                    if c1 < s {
                        assert(cv[c1] == mid[c1]);
                        if old_children.contains(c1 as usize) {
                            let t = choose|t: int| 0 <= t < old_children.len() && old_children[t] == c1 as usize;
                            assert(children@[t] == c1 as usize);
                        } else {
                            assert(has_parent(mid, c1, mid.len() - 1));
                            let p = choose|p: int| c1 < p <= mid.len() - 1 && #[trigger] mid[p].children@.contains(c1 as usize);
                            assert(cv[p] == mid[p]);
                        }
                    } else if c1 == c as int {
                        assert(children@[children@.len() - 1] == c);
                    } else {
                        assert(has_parent(cv, c1, c as int));
                    }
                }
                assert forall|p1: int, p2: int|
                    lo <= p1 < cv.len() && lo <= p2 < cv.len() && p1 != p2 implies #[trigger] children_disjoint(cv, p1, p2) by {
                    if p1 < s && p2 < s {
                        assert(cv[p1] == mid[p1] && cv[p2] == mid[p2]);
                        assert(children_disjoint(mid, p1, p2));
                    } else if p1 >= s && p2 >= s {
                    } else {
                        assert forall|k: int| 0 <= k < cv[p1].children@.len() implies !cv[p2].children@.contains(#[trigger] cv[p1].children@[k]) by {
                            let x = cv[p1].children@[k];
                            if cv[p2].children@.contains(x) {
                                let t = choose|t: int| 0 <= t < cv[p2].children@.len() && cv[p2].children@[t] == x;
                                if p1 < s {
                                    assert(cv[p1] == mid[p1]);
                                    assert(s <= cv[p2].children@[t]);
                                } else {
                                    assert(cv[p2] == mid[p2]);
                                    assert(s <= cv[p1].children@[k]);
                                }
                            }
                        }
                    }
                }
                assert forall|k: int|
                    0 <= k < children@.len() implies {
                        &&& lo <= #[trigger] children@[k] < cv.len()
                        &&& cv[children@[k] as int].depth == depth + 1
                        &&& cv[children@[k] as int].path@ == path@.push(cv[children@[k] as int].quadrant)
                        &&& cv[children@[k] as int].quadrant < q + 1
                    } by {
                    if k < old_children.len() {
                        assert(children@[k] == old_children[k]);
                        assert(cv[old_children[k] as int] == mid[old_children[k] as int]);
                    }
                }
                assert forall|k1: int, k2: int|
                    0 <= k1 < k2 < children@.len() implies cv[#[trigger] children@[k1] as int].quadrant
                        < cv[#[trigger] children@[k2] as int].quadrant by {
                    assert(cv[old_children[k1] as int] == mid[old_children[k1] as int]);
                    if k2 < old_children.len() {
                        assert(cv[old_children[k2] as int] == mid[old_children[k2] as int]);
                    }
                }
            }
        } else {
            proof {
                assert forall|j: int, i: usize| 0 <= j < q + 1 && #[trigger] bv[j].contains(i) implies in_some_leaf(cells@, lo, i) by {
                    if j == q as int {
                        assert(bv[q as int].len() == 0);
                    }
                }
            }
        }
        q = q + 1;
    }
    let mass = idx.len();
    let ghost before = cells@;
    let ghost kids = children@;
    let parent = QuadCell { depth, quadrant: quadrant_here, path, mass, indices: Vec::new(), children };
    cells.push(parent);
    let r = cells.len() - 1;
    proof {
        let cv = cells@;
        lemma_extend_wf(codes@, before, cv);
        lemma_children_mass_prefix(before, cv, kids);
        assert(cv[r as int].children@ == kids);
        assert forall|k: int| 0 <= k < kids.len() implies {
            &&& (#[trigger] kids[k] as int) < r
            &&& cv[kids[k] as int].depth == depth + 1
            &&& cv[kids[k] as int].path@ == cv[r as int].path@.push(cv[kids[k] as int].quadrant)
        } by {
            assert(cv[kids[k] as int] == before[kids[k] as int]);
        }
        assert forall|k1: int, k2: int|
            0 <= k1 < k2 < kids.len() implies cv[#[trigger] kids[k1] as int].quadrant < cv[#[trigger] kids[k2] as int].quadrant by {
            assert(cv[kids[k1] as int] == before[kids[k1] as int]);
            assert(cv[kids[k2] as int] == before[kids[k2] as int]);
        }
        assert(cell_wf(codes@, cv, r as int));
        assert(cells_wf(codes@, cv));
        // what the new cells promise
        assert forall|c1: int, k: int|
            lo <= c1 < cv.len() && is_leaf_cell(cv, c1) && 0 <= k < cv[c1].indices@.len() implies idx@.contains(
                #[trigger] cv[c1].indices@[k],
            ) by {
            assert(cv[c1] == before[c1]);
        }
        assert forall|i: usize| #[trigger] idx@.contains(i) implies in_some_leaf(cv, lo, i) by {
            let k = choose|k: int| 0 <= k < idx@.len() && idx@[k] == i;
            let qk = quadrant_at(codes@[idx@[k] as int], depth) as int;
            lemma_quadrant_small(codes@[idx@[k] as int], depth);
            assert(bv[qk].contains(idx@[k]));
            assert(in_some_leaf(before, lo, i));
            let c2 = choose|c2: int| lo <= c2 < before.len() && is_leaf_cell(before, c2) && #[trigger] before[c2].indices@.contains(i);
            assert(cv[c2] == before[c2]);
        }
        assert forall|c1: int, c2: int|
            lo <= c1 < cv.len() && lo <= c2 < cv.len() && c1 != c2 && is_leaf_cell(cv, c1)
                && is_leaf_cell(cv, c2) implies #[trigger] leaves_disjoint(cv, c1, c2) by {
            assert(cv[c1] == before[c1] && cv[c2] == before[c2]);
            assert(leaves_disjoint(before, c1, c2));
        }
        assert forall|c1: int, k: int|
            lo <= c1 < cv.len() && 0 <= k < cv[c1].children@.len() implies lo <= #[trigger] cv[c1].children@[k] by {
            if c1 < r {
                assert(cv[c1] == before[c1]);
            }
        }
        assert forall|c1: int| 0 <= c1 < cv.len() implies !(#[trigger] cv[c1].children@).contains(r as usize) by {
            if cv[c1].children@.contains(r as usize) {
                let t = choose|t: int| 0 <= t < cv[c1].children@.len() && cv[c1].children@[t] == r as usize;
                if c1 < r {
                    assert(cv[c1] == before[c1]);
                    assert((before[c1].children@[t] as int) < c1);
                }
            }
        }
        assert forall|c1: int| lo <= c1 < r implies #[trigger] has_parent(cv, c1, r as int) by {
            if kids.contains(c1 as usize) {
                assert(cv[r as int].children@.contains(c1 as usize));
            } else {
                assert(has_parent(before, c1, before.len() - 1));
                let p = choose|p: int| c1 < p <= before.len() - 1 && #[trigger] before[p].children@.contains(c1 as usize);
                assert(cv[p] == before[p]);
            }
        }
        assert forall|p1: int, p2: int|
            lo <= p1 < cv.len() && lo <= p2 < cv.len() && p1 != p2 implies #[trigger] children_disjoint(cv, p1, p2) by {
            if p1 < r && p2 < r {
                assert(cv[p1] == before[p1] && cv[p2] == before[p2]);
                assert(children_disjoint(before, p1, p2));
            } else if p1 == r {
                assert(cv[p2] == before[p2]);
                assert forall|k: int| 0 <= k < cv[p1].children@.len() implies !cv[p2].children@.contains(#[trigger] cv[p1].children@[k]) by {
                    assert(cv[p1].children@[k] == kids[k]);
                    assert(!before[p2].children@.contains(kids[k]));
                }
            } else {
                assert(cv[p1] == before[p1]);
                assert forall|k: int| 0 <= k < cv[p1].children@.len() implies !cv[p2].children@.contains(#[trigger] cv[p1].children@[k]) by {
                    let x = cv[p1].children@[k];
                    if kids.contains(x) {
                        let t = choose|t: int| 0 <= t < kids.len() && kids[t] == x;
                        assert(!before[p1].children@.contains(kids[t]));
                    }
                }
            }
        }
    }
    r
}

/// Builds the tree over points `0..codes.len()`; `None` when there are no
/// points.
pub fn build_quadtree(codes: &Vec<u32>) -> (r: Option<QuadTree>)
    ensures
        r is None <==> codes@.len() == 0,
        r matches Some(t) ==> {
            &&& t.wf(codes@)
            &&& t.cells@[t.root as int].mass == codes@.len()
            &&& codes@.len() <= QUADTREE_LEAF_CAPACITY ==> t.cells@.len() == 1
                && t.cells@[t.root as int].children@.len() == 0
                && t.cells@[t.root as int].indices@ == Seq::new(codes@.len(), |i: int| i as usize)
        },
{
    if codes.len() == 0 {
        return None;
    }
    let mut idx: Vec<usize> = Vec::new();
    let mut i: usize = 0;
    while i < codes.len()
        invariant
            i <= codes@.len(),
            idx@ == Seq::new(i as nat, |k: int| k as usize),
        decreases codes@.len() - i,
    {
        idx.push(i);
        i = i + 1;
    }
    let mut cells: Vec<QuadCell> = Vec::new();
    let ghost iv = idx@;
    let root = build_cell(codes, idx, Vec::new(), 0, &mut cells);
    let t = QuadTree { cells, root };
    proof {
        let cv = t.cells@;
        assert forall|c: int| 0 <= c < root implies #[trigger] has_parent(cv, c, root as int) by {
            assert(has_parent(cv, c, root as int));
        }
        assert forall|k: int| 0 <= k < codes@.len() implies #[trigger] in_some_leaf(cv, 0, k as usize) by {
            assert(iv[k] == k as usize);
            assert(iv.contains(k as usize));
        }
        assert forall|p1: int, p2: int|
            0 <= p1 < cv.len() && 0 <= p2 < cv.len() && p1 != p2 implies #[trigger] children_disjoint(cv, p1, p2) by {}
        assert forall|c1: int, c2: int|
            0 <= c1 < cv.len() && 0 <= c2 < cv.len() && c1 != c2 && is_leaf_cell(cv, c1)
                && is_leaf_cell(cv, c2) implies #[trigger] leaves_disjoint(cv, c1, c2) by {}
    }
    Some(t)
}

/// Every inner cell's mass is the sum of its children's masses, and every
/// leaf's mass is its point count.
pub proof fn lemma_mass_conservation(codes: Seq<u32>, t: QuadTree, c: int)
    requires
        t.wf(codes),
        0 <= c < t.cells@.len(),
    ensures
        t.cells@[c].children@.len() > 0 ==> t.cells@[c].mass == children_mass(
            t.cells@,
            t.cells@[c].children@,
        ),
        t.cells@[c].children@.len() == 0 ==> t.cells@[c].mass == t.cells@[c].indices@.len(),
{
    assert(cell_wf(codes, t.cells@, c));
}

} // verus!

