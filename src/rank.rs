use vstd::prelude::*;

verus! {

/// Ranking order on item indices: larger primary key first, then larger
/// secondary key, then smaller index.
pub open spec fn precedes(p: Seq<u64>, s: Seq<u64>, i: int, j: int) -> bool {
    ||| p[i] > p[j]
    ||| (p[i] == p[j] && s[i] > s[j])
    ||| (p[i] == p[j] && s[i] == s[j] && i < j)
}

pub open spec fn sorted_by_rank(p: Seq<u64>, s: Seq<u64>, r: Seq<usize>) -> bool {
    forall|a: int, b: int| 0 <= a < b < r.len() ==> precedes(p, s, r[a] as int, r[b] as int)
}

/// `r` lists, in ranking order, the best `limit` indices among those that
/// satisfy `cand` (all of them when there are fewer).
pub open spec fn is_top_ranking(
    p: Seq<u64>,
    s: Seq<u64>,
    cand: Seq<bool>,
    limit: nat,
    r: Seq<usize>,
) -> bool {
    &&& sorted_by_rank(p, s, r)
    &&& r.len() <= limit
    &&& forall|a: int| 0 <= a < r.len() ==> (r[a] as int) < p.len() && cand[r[a] as int]
    &&& forall|j: int|
        0 <= j < p.len() && #[trigger] cand[j] && !r.contains(j as usize) ==> {
            &&& r.len() == limit
            &&& forall|a: int| 0 <= a < r.len() ==> precedes(p, s, r[a] as int, j)
        }
}

/// The indices `i` with `cand[i]`, best first, cut to `limit` entries.
pub fn rank_candidates(p: &Vec<u64>, s: &Vec<u64>, cand: &Vec<bool>, limit: usize) -> (r: Vec<
    usize,
>)
    requires
        p@.len() == s@.len(),
        p@.len() == cand@.len(),
    ensures
        is_top_ranking(p@, s@, cand@, limit as nat, r@),
{
    let mut r: Vec<usize> = Vec::new();
    let n = p.len();
    let mut i: usize = 0;
    while i < n
        invariant
            n == p@.len(),
            p@.len() == s@.len(),
            p@.len() == cand@.len(),
            i <= n,
            sorted_by_rank(p@, s@, r@),
            r@.len() <= limit,
            forall|a: int| 0 <= a < r@.len() ==> (r@[a] as int) < i && cand@[r@[a] as int],
            forall|j: int|
                0 <= j < i && #[trigger] cand@[j] && !r@.contains(j as usize) ==> {
                    &&& r@.len() == limit
                    &&& forall|a: int| 0 <= a < r@.len() ==> precedes(p@, s@, r@[a] as int, j)
                },
        decreases n - i,
    {
        if cand[i] {
            // first position whose entry ranks after `i`
            let mut k: usize = 0;
            while k < r.len() && !(p[i] > p[r[k]] || (p[i] == p[r[k]] && s[i] > s[r[k]]))
                invariant
                    k <= r@.len(),
                    n == p@.len(),
                    p@.len() == s@.len(),
                    i < n,
                    forall|a: int| 0 <= a < r@.len() ==> (r@[a] as int) < i,
                    forall|a: int| 0 <= a < k ==> precedes(p@, s@, r@[a] as int, i as int),
                decreases r@.len() - k,
            {
                k = k + 1;
            }
            if k < limit {
                let ghost old_r = r@;
                assert(k < r@.len() ==> precedes(p@, s@, i as int, r@[k as int] as int));
                r.insert(k, i);
                assert(r@ == old_r.insert(k as int, i));
                assert forall|a: int, b: int| 0 <= a < b < r@.len() implies precedes(
                    p@,
                    s@,
                    r@[a] as int,
                    r@[b] as int,
                ) by {
                    if b < k {
                        assert(r@[a] == old_r[a] && r@[b] == old_r[b]);
                    } else if b == k {
                        assert(r@[a] == old_r[a] && r@[b] == i);
                    } else if a < k {
                        assert(r@[a] == old_r[a] && r@[b] == old_r[b - 1]);
                    } else if a == k {
                        assert(precedes(p@, s@, i as int, old_r[k as int] as int));
                        assert(r@[a] == i && r@[b] == old_r[b - 1]);
                        if b - 1 > k {
                            assert(precedes(p@, s@, old_r[k as int] as int, old_r[b - 1] as int));
                        }
                    } else {
                        assert(r@[a] == old_r[a - 1] && r@[b] == old_r[b - 1]);
                    }
                }
                if r.len() > limit {
                    let ghost before_pop = r@;
                    let dropped = r.pop().unwrap();
                    assert(r@ == before_pop.drop_last());
                    assert forall|j: int|
                        0 <= j <= i && #[trigger] cand@[j] && !r@.contains(j as usize) implies {
                        &&& r@.len() == limit
                        &&& forall|a: int|
                            0 <= a < r@.len() ==> precedes(p@, s@, r@[a] as int, j)
                    } by {
                        if j == dropped as int {
                            assert forall|a: int| 0 <= a < r@.len() implies precedes(
                                p@,
                                s@,
                                r@[a] as int,
                                j,
                            ) by {
                                assert(r@[a] == before_pop[a]);
                                assert(before_pop[before_pop.len() - 1] == dropped);
                            }
                        } else {
                            assert(!before_pop.contains(j as usize)) by {
                                if before_pop.contains(j as usize) {
                                    let t = choose|t: int|
                                        0 <= t < before_pop.len() && before_pop[t] == j as usize;
                                    if t < before_pop.len() - 1 {
                                        assert(r@[t] == before_pop[t]);
                                    }
                                }
                            }
                            assert(r@[k as int] == before_pop[k as int]);
                            assert(j != i);
                            assert(!old_r.contains(j as usize)) by {
                                if old_r.contains(j as usize) {
                                    let t = choose|t: int|
                                        0 <= t < old_r.len() && old_r[t] == j as usize;
                                    if t < k {
                                        assert(before_pop[t] == old_r[t]);
                                    } else {
                                        assert(before_pop[t + 1] == old_r[t]);
                                    }
                                }
                            }
                            assert forall|a: int| 0 <= a < r@.len() implies precedes(
                                p@,
                                s@,
                                r@[a] as int,
                                j,
                            ) by {
                                if a < k {
                                    assert(r@[a] == old_r[a]);
                                } else if a == k {
                                    assert(precedes(p@, s@, old_r[k as int] as int, j));
                                } else {
                                    assert(r@[a] == old_r[a - 1]);
                                }
                            }
                        }
                    }
                } else {
                    assert forall|j: int|
                        0 <= j <= i && #[trigger] cand@[j] && !r@.contains(j as usize) implies {
                        &&& r@.len() == limit
                        &&& forall|a: int|
                            0 <= a < r@.len() ==> precedes(p@, s@, r@[a] as int, j)
                    } by {
                        assert(r@[k as int] == i);
                        assert(!old_r.contains(j as usize)) by {
                            if old_r.contains(j as usize) {
                                let t = choose|t: int| 0 <= t < old_r.len() && old_r[t] == j as usize;
                                if t < k {
                                    assert(r@[t] == old_r[t]);
                                } else {
                                    assert(r@[t + 1] == old_r[t]);
                                }
                            }
                        }
                    }
                }
                assert forall|a: int| 0 <= a < r@.len() implies ((r@[a] as int) < i + 1 && cand@[(r@[a] as int)]) by {
                    if a < k {
                    } else if a > k {
                        assert(r@[a] == old_r[a - 1]);
                    }
                }
            } else {
                assert forall|j: int|
                    0 <= j <= i && #[trigger] cand@[j] && !r@.contains(j as usize) implies {
                    &&& r@.len() == limit
                    &&& forall|a: int| 0 <= a < r@.len() ==> precedes(p@, s@, r@[a] as int, j)
                } by {
                    if j == i {
                        assert(k >= r@.len());
                    }
                }
            }
        }
        i = i + 1;
    }
    r
}

/// A ranking cut at a larger limit keeps every index of one cut at a
/// smaller limit.
pub proof fn lemma_top_ranking_grows(
    p: Seq<u64>,
    s: Seq<u64>,
    cand: Seq<bool>,
    l1: nat,
    l2: nat,
    r1: Seq<usize>,
    r2: Seq<usize>,
)
    requires
        l1 <= l2,
        is_top_ranking(p, s, cand, l1, r1),
        is_top_ranking(p, s, cand, l2, r2),
    ensures
        forall|a: int| 0 <= a < r1.len() ==> r2.contains(#[trigger] r1[a]),
{
    assert(r1.no_duplicates()) by {
        assert forall|a: int, b: int| 0 <= a < r1.len() && 0 <= b < r1.len() && a != b implies r1[a] != r1[b] by {
            if a < b {
                assert(precedes(p, s, r1[a] as int, r1[b] as int));
            } else {
                assert(precedes(p, s, r1[b] as int, r1[a] as int));
            }
        }
    }
    assert(r2.no_duplicates()) by {
        assert forall|a: int, b: int| 0 <= a < r2.len() && 0 <= b < r2.len() && a != b implies r2[a] != r2[b] by {
            if a < b {
                assert(precedes(p, s, r2[a] as int, r2[b] as int));
            } else {
                assert(precedes(p, s, r2[b] as int, r2[a] as int));
            }
        }
    }
    assert forall|a: int| 0 <= a < r1.len() implies r2.contains(#[trigger] r1[a]) by {
        let x = r1[a];
        if !r2.contains(x) {
            assert(cand[x as int]);
            assert(r2.len() == l2);
            // every member of r2 ranks before x, so it is in r1 too
            assert forall|y: usize| r2.to_set().contains(y) implies r1.to_set().contains(y) by {
                let k = choose|k: int| 0 <= k < r2.len() && r2[k] == y;
                assert(precedes(p, s, y as int, x as int));
                if !r1.contains(y) {
                    assert(cand[r2[k] as int]);
                    assert(precedes(p, s, r1[a] as int, y as int));
                }
            }
            r1.unique_seq_to_set();
            r2.unique_seq_to_set();
            vstd::set_lib::lemma_len_subset(r2.to_set(), r1.to_set());
            assert(!r2.to_set().contains(x));
            assert(r1.to_set().contains(x));
            assert(r2.to_set().subset_of(r1.to_set().remove(x)));
            vstd::set_lib::lemma_len_subset(r2.to_set(), r1.to_set().remove(x));
        }
    }
}

/// Two cuts of the same ranking at the same limit agree up to `a`.
proof fn lemma_top_ranking_agree(
    p: Seq<u64>,
    s: Seq<u64>,
    cand: Seq<bool>,
    l: nat,
    r1: Seq<usize>,
    r2: Seq<usize>,
    a: int,
)
    requires
        is_top_ranking(p, s, cand, l, r1),
        is_top_ranking(p, s, cand, l, r2),
        r1.len() == r2.len(),
        forall|i: int| 0 <= i < r1.len() ==> r2.contains(#[trigger] r1[i]),
        forall|i: int| 0 <= i < r2.len() ==> r1.contains(#[trigger] r2[i]),
        0 <= a < r1.len(),
    ensures
        forall|i: int| 0 <= i <= a ==> r1[i] == r2[i],
    decreases a,
{
    if a > 0 {
        lemma_top_ranking_agree(p, s, cand, l, r1, r2, a - 1);
    }
    let x = r1[a];
    let y = r2[a];
    if x != y {
        let b = choose|b: int| 0 <= b < r2.len() && r2[b] == x;
        let c = choose|c: int| 0 <= c < r1.len() && r1[c] == y;
        if b < a {
            assert(r1[b] == r2[b]);
            assert(r1[b] == r1[a]);
            assert(precedes(p, s, r1[b] as int, r1[a] as int));
        } else if c < a {
            assert(r1[c] == r2[c]);
            assert(r2[c] == r2[a]);
            assert(precedes(p, s, r2[c] as int, r2[a] as int));
        } else {
            // x sits after y in r2 and y after x in r1
            assert(b > a && c > a);
            assert(precedes(p, s, r2[a] as int, r2[b] as int));
            assert(precedes(p, s, r1[a] as int, r1[c] as int));
        }
    }
}

/// The cut of a ranking at a given limit is unique.
pub proof fn lemma_top_ranking_unique(p: Seq<u64>, s: Seq<u64>, cand: Seq<bool>, l: nat, r1: Seq<usize>, r2: Seq<usize>)
    requires
        is_top_ranking(p, s, cand, l, r1),
        is_top_ranking(p, s, cand, l, r2),
    ensures
        r1 == r2,
{
    lemma_top_ranking_grows(p, s, cand, l, l, r1, r2);
    lemma_top_ranking_grows(p, s, cand, l, l, r2, r1);
    assert(r1.no_duplicates()) by {
        assert forall|a: int, b: int| 0 <= a < r1.len() && 0 <= b < r1.len() && a != b implies r1[a] != r1[b] by {
            if a < b {
                assert(precedes(p, s, r1[a] as int, r1[b] as int));
            } else {
                assert(precedes(p, s, r1[b] as int, r1[a] as int));
            }
        }
    }
    assert(r2.no_duplicates()) by {
        assert forall|a: int, b: int| 0 <= a < r2.len() && 0 <= b < r2.len() && a != b implies r2[a] != r2[b] by {
            if a < b {
                assert(precedes(p, s, r2[a] as int, r2[b] as int));
            } else {
                assert(precedes(p, s, r2[b] as int, r2[a] as int));
            }
        }
    }
    r1.unique_seq_to_set();
    r2.unique_seq_to_set();
    assert(r1.to_set() =~= r2.to_set()) by {
        assert forall|x: usize| r1.to_set().contains(x) implies r2.to_set().contains(x) by {
            let i = choose|i: int| 0 <= i < r1.len() && r1[i] == x;
        }
        assert forall|x: usize| r2.to_set().contains(x) implies r1.to_set().contains(x) by {
            let i = choose|i: int| 0 <= i < r2.len() && r2[i] == x;
        }
    }
    if r1.len() > 0 {
        lemma_top_ranking_agree(p, s, cand, l, r1, r2, r1.len() - 1);
    }
    assert(r1 =~= r2);
}

} // verus!
