use vstd::prelude::*;
use crate::rank::{precedes, rank_candidates};

verus! {

/// Skip stride that the number of edges in a screen cell calls for: every
/// edge below 41, every second up to 70, every third up to 110, then every
/// fourth.
pub open spec fn density_stride_spec(density: usize) -> usize {
    if density > 110 {
        4
    } else if density > 70 {
        3
    } else if density > 40 {
        2
    } else {
        1
    }
}

pub fn density_stride(density: usize) -> (r: usize)
    ensures
        r == density_stride_spec(density),
{
    if density > 110 {
        4
    } else if density > 70 {
        3
    } else if density > 40 {
        2
    } else {
        1
    }
}

/// The stride for an edge: the density stride, at most `detail_cap` (set by
/// how detailed the view is), and at least the zoom's `zoom_stride`.
pub open spec fn edge_stride_spec(density: usize, detail_cap: usize, zoom_stride: usize) -> usize {
    let d = density_stride_spec(density);
    let capped = if d > detail_cap {
        detail_cap
    } else {
        d
    };
    if capped > zoom_stride {
        capped
    } else {
        zoom_stride
    }
}

pub fn edge_stride(density: usize, detail_cap: usize, zoom_stride: usize) -> (r: usize)
    ensures
        r == edge_stride_spec(density, detail_cap, zoom_stride),
{
    let d = density_stride(density);
    let capped = if d > detail_cap {
        detail_cap
    } else {
        d
    };
    if capped > zoom_stride {
        capped
    } else {
        zoom_stride
    }
}

/// Deterministic hash of an edge's endpoints.
pub open spec fn edge_hash(src: usize, dst: usize) -> usize {
    vstd::wrapping::usize_specs::wrapping_mul(src, 31) ^ vstd::wrapping::usize_specs::wrapping_mul(dst, 131)
}

/// Whether level of detail leaves the edge out: with a stride above one,
/// all but the edges whose hash the stride divides.
pub fn skip_edge(src: usize, dst: usize, stride: usize) -> (r: bool)
    ensures
        r == (stride > 1 && edge_hash(src, dst) % stride != 0),
{
    if stride <= 1 {
        return false;
    }
    let h = src.wrapping_mul(31) ^ dst.wrapping_mul(131);
    h % stride != 0
}

/// A denser cell never gets a smaller stride.
pub proof fn lemma_stride_monotone(d1: usize, d2: usize, detail_cap: usize, zoom_stride: usize)
    requires
        d1 <= d2,
    ensures
        density_stride_spec(d1) <= density_stride_spec(d2),
        edge_stride_spec(d1, detail_cap, zoom_stride) <= edge_stride_spec(d2, detail_cap, zoom_stride),
{
}

/// Keys that rank small metric values first.
pub open spec fn ascending_keys(values: Seq<u64>) -> Seq<u64> {
    Seq::new(values.len(), |i: int| (u64::MAX - values[i]) as u64)
}

/// Node indices in drawing order: ascending metric value, ties by index, so
/// that larger nodes paint over smaller ones.
pub fn draw_order(metric_values: &Vec<u64>) -> (r: Vec<usize>)
    ensures
        r@.len() == metric_values@.len(),
        forall|a: int| 0 <= a < r@.len() ==> (#[trigger] r@[a] as int) < metric_values@.len(),
        forall|a: int, b: int|
            0 <= a < b < r@.len() ==> metric_values@[r@[a] as int] < metric_values@[r@[b] as int] || (
            metric_values@[r@[a] as int] == metric_values@[r@[b] as int] && r@[a] < r@[b]),
{
    let n = metric_values.len();
    let mut keys: Vec<u64> = Vec::new();
    let mut zero: Vec<u64> = Vec::new();
    let mut all: Vec<bool> = Vec::new();
    let mut i: usize = 0;
    while i < n
        invariant
            n == metric_values@.len(),
            i <= n,
            keys@ == ascending_keys(metric_values@).take(i as int),
            zero@.len() == i,
            forall|k: int| 0 <= k < i ==> zero@[k] == 0,
            all@.len() == i,
            forall|k: int| 0 <= k < i ==> all@[k],
        decreases n - i,
    {
        keys.push(u64::MAX - metric_values[i]);
        zero.push(0);
        all.push(true);
        i = i + 1;
    }
    assert(keys@ == ascending_keys(metric_values@));
    let r = rank_candidates(&keys, &zero, &all, n);
    proof {
        assert forall|a: int, b: int|
            0 <= a < b < r@.len() implies metric_values@[r@[a] as int] < metric_values@[r@[b] as int] || (
            metric_values@[r@[a] as int] == metric_values@[r@[b] as int] && r@[a] < r@[b]) by {
            assert(precedes(keys@, zero@, r@[a] as int, r@[b] as int));
        }
        assert(r@.no_duplicates()) by {
            assert forall|a: int, b: int| 0 <= a < r@.len() && 0 <= b < r@.len() && a != b implies r@[a] != r@[b] by {
                if a < b {
                    assert(precedes(keys@, zero@, r@[a] as int, r@[b] as int));
                } else {
                    assert(precedes(keys@, zero@, r@[b] as int, r@[a] as int));
                }
            }
        }
        if r@.len() < n {
            assert forall|j: int| 0 <= j < n implies #[trigger] r@.contains(j as usize) by {
                assert(all@[j]);
            }
            lemma_covers_all(r@, n as int);
        }
    }
    r
}

/// A sequence of distinct values below `n` that contains each of them has
/// length `n`.
proof fn lemma_covers_all(r: Seq<usize>, n: int)
    requires
        0 <= n <= usize::MAX,
        r.no_duplicates(),
        forall|a: int| 0 <= a < r.len() ==> (#[trigger] r[a] as int) < n,
        forall|j: int| 0 <= j < n ==> #[trigger] r.contains(j as usize),
    ensures
        r.len() == n,
    decreases n,
{
    if n == 0 {
        if r.len() > 0 {
            assert(r[0] < 0);
        }
    } else {
        assert(r.contains((n - 1) as usize));
        let p = choose|p: int| 0 <= p < r.len() && r[p] == (n - 1) as usize;
        let rest = r.remove(p);
        assert forall|a: int| 0 <= a < rest.len() implies (#[trigger] rest[a] as int) < n - 1 by {
            if a < p {
                assert(rest[a] == r[a]);
                assert(r[a] != r[p]);
            } else {
                assert(rest[a] == r[a + 1]);
                assert(r[a + 1] != r[p]);
            }
        }
        assert forall|j: int| 0 <= j < n - 1 implies #[trigger] rest.contains(j as usize) by {
            assert(r.contains(j as usize));
            let t = choose|t: int| 0 <= t < r.len() && r[t] == j as usize;
            if t < p {
                assert(rest[t] == j as usize);
            } else {
                assert(t != p);
                assert(rest[t - 1] == j as usize);
            }
        }
        assert(rest.no_duplicates()) by {
            assert forall|a: int, b: int| 0 <= a < rest.len() && 0 <= b < rest.len() && a != b implies rest[a] != rest[b] by {
                let a2 = if a < p { a } else { a + 1 };
                let b2 = if b < p { b } else { b + 1 };
                assert(rest[a] == r[a2] && rest[b] == r[b2]);
            }
        }
        lemma_covers_all(rest, n - 1);
    }
}

} // verus!
