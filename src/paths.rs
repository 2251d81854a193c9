use vstd::prelude::*;

verus! {

/// Every adjacency entry names a node of the graph.
pub open spec fn adj_wf(adj: Seq<Vec<usize>>) -> bool {
    forall|i: int, k: int|
        0 <= i < adj.len() && 0 <= k < adj[i]@.len() ==> (#[trigger] adj[i]@[k] as int) < adj.len()
}

/// `w` is a non-empty walk along adjacency lists.
pub open spec fn is_walk(adj: Seq<Vec<usize>>, w: Seq<usize>) -> bool {
    &&& w.len() >= 1
    &&& forall|k: int| 0 <= k < w.len() ==> (#[trigger] w[k] as int) < adj.len()
    &&& forall|k: int|
        0 <= k < w.len() - 1 ==> #[trigger] adj[w[k] as int]@.contains(w[k + 1])
}

/// Some walk leads from `from` to `to`.
pub open spec fn reaches(adj: Seq<Vec<usize>>, from: int, to: int) -> bool {
    exists|w: Seq<usize>|
        #[trigger] is_walk(adj, w) && w[0] as int == from && w[w.len() - 1] as int == to
}

pub open spec fn count_false(s: Seq<bool>) -> nat
    decreases s.len(),
{
    if s.len() == 0 {
        0
    } else {
        count_false(s.drop_last()) + if s.last() {
            0nat
        } else {
            1nat
        }
    }
}

proof fn lemma_count_false_bound(s: Seq<bool>)
    ensures
        count_false(s) <= s.len(),
    decreases s.len(),
{
    if s.len() > 0 {
        lemma_count_false_bound(s.drop_last());
    }
}

proof fn lemma_count_false_all(s: Seq<bool>)
    requires
        forall|i: int| 0 <= i < s.len() ==> !s[i],
    ensures
        count_false(s) == s.len(),
    decreases s.len(),
{
    if s.len() > 0 {
        lemma_count_false_all(s.drop_last());
    }
}

proof fn lemma_count_false_set(s: Seq<bool>, i: int)
    requires
        0 <= i < s.len(),
        !s[i],
    ensures
        count_false(s.update(i, true)) + 1 == count_false(s),
    decreases s.len(),
{
    if i < s.len() - 1 {
        assert(s.update(i, true).drop_last() == s.drop_last().update(i, true));
        lemma_count_false_set(s.drop_last(), i);
    } else {
        assert(s.update(i, true).drop_last() == s.drop_last());
    }
}

/// Every successor of a marked node is marked, so a walk that starts on a
/// marked node ends on one.
proof fn lemma_closed_walk(adj: Seq<Vec<usize>>, marked: Seq<bool>, w: Seq<usize>)
    requires
        is_walk(adj, w),
        marked.len() == adj.len(),
        marked[w[0] as int],
        forall|v: int, k: int|
            0 <= v < adj.len() && marked[v] && 0 <= k < adj[v]@.len() ==> marked[#[trigger] adj[
                v
            ]@[k] as int],
    ensures
        marked[w[w.len() - 1] as int],
    decreases w.len(),
{
    if w.len() > 1 {
        let shorter = w.drop_last();
        assert(is_walk(adj, shorter)) by {
            assert forall|k: int| 0 <= k < shorter.len() - 1 implies #[trigger] adj[shorter[k] as int]@.contains(
                shorter[k + 1],
            ) by {
                assert(adj[w[k] as int]@.contains(w[k + 1]));
            }
            assert forall|k: int| 0 <= k < shorter.len() implies (#[trigger] shorter[k] as int)
                < adj.len() by {
                assert(w[k] < adj.len());
            }
        }
        lemma_closed_walk(adj, marked, shorter);
        let last = w.len() - 2;
        let prev = w[last];
        assert(adj[w[last] as int]@.contains(w[last + 1]));
        let t = choose|t: int|
            0 <= t < adj[prev as int]@.len() && adj[prev as int]@[t] == w[w.len() - 1];
        assert(marked[adj[prev as int]@[t] as int]);
    }
}

proof fn lemma_walk_prefix(adj: Seq<Vec<usize>>, w: Seq<usize>)
    requires
        is_walk(adj, w),
        w.len() > 1,
    ensures
        is_walk(adj, w.drop_last()),
{
    let shorter = w.drop_last();
    assert forall|k: int| 0 <= k < shorter.len() - 1 implies #[trigger] adj[shorter[k] as int]@.contains(
        shorter[k + 1],
    ) by {
        assert(adj[w[k] as int]@.contains(w[k + 1]));
    }
    assert forall|k: int| 0 <= k < shorter.len() implies (#[trigger] shorter[k] as int) < adj.len() by {
        assert(w[k] < adj.len());
    }
}

/// A walk from the root either ends on a node already expanded (one of the
/// first `h` queue entries) or is at least as long as the distance label of
/// the next node to expand.
proof fn lemma_frontier(
    adj: Seq<Vec<usize>>,
    queue: Seq<usize>,
    h: int,
    visited: Seq<bool>,
    dist: Seq<int>,
    root: usize,
    w: Seq<usize>,
)
    requires
        adj_wf(adj),
        visited.len() == adj.len(),
        dist.len() == adj.len(),
        0 <= h < queue.len(),
        queue[0] == root,
        dist[root as int] == 0,
        is_walk(adj, w),
        w[0] == root,
        forall|q: int| 0 <= q < queue.len() ==> (#[trigger] queue[q] as int) < adj.len() && visited[queue[q] as int],
        forall|v: int| 0 <= v < adj.len() && #[trigger] visited[v] ==> queue.contains(v as usize),
        forall|q: int, k: int|
            0 <= q < h && 0 <= k < adj[queue[q] as int]@.len() ==> visited[#[trigger] adj[queue[q] as int]@[k] as int],
        forall|q1: int, q2: int|
            0 <= q1 <= q2 < queue.len() ==> dist[#[trigger] queue[q1] as int] <= dist[#[trigger] queue[q2] as int],
        forall|u: Seq<usize>|
            #[trigger] is_walk(adj, u) && u[0] == root && visited[u[u.len() - 1] as int] ==> u.len() - 1
                >= dist[u[u.len() - 1] as int],
    ensures
        queue.take(h).contains(w[w.len() - 1]) || w.len() - 1 >= dist[queue[h] as int],
    decreases w.len(),
{
    if w.len() == 1 {
        if h > 0 {
            assert(queue.take(h)[0] == root);
        }
    } else {
        let shorter = w.drop_last();
        assert(is_walk(adj, shorter)) by {
            assert forall|k: int| 0 <= k < shorter.len() - 1 implies #[trigger] adj[shorter[k] as int]@.contains(
                shorter[k + 1],
            ) by {
                assert(adj[w[k] as int]@.contains(w[k + 1]));
            }
            assert forall|k: int| 0 <= k < shorter.len() implies (#[trigger] shorter[k] as int)
                < adj.len() by {
                assert(w[k] < adj.len());
            }
        }
        lemma_frontier(adj, queue, h, visited, dist, root, shorter);
        let y = shorter[shorter.len() - 1];
        let x = w[w.len() - 1];
        if queue.take(h).contains(y) {
            let q = choose|q: int| 0 <= q < h && queue.take(h)[q] == y;
            assert(queue[q] == y);
            let last = w.len() - 2;
            assert(adj[w[last] as int]@.contains(w[last + 1]));
            let t = choose|t: int| 0 <= t < adj[y as int]@.len() && adj[y as int]@[t] == x;
            assert(visited[adj[queue[q] as int]@[t] as int]);
            assert(visited[x as int]);
            assert(queue.contains(x));
            let p = choose|p: int| 0 <= p < queue.len() && queue[p] == x;
            if p < h {
                assert(queue.take(h)[p] == x);
            } else {
                assert(dist[queue[h] as int] <= dist[queue[p] as int]);
            }
        }
    }
}

/// What breadth-first search keeps true of its state: `queue` holds every
/// visited node once; each visited node but the root has a visited parent
/// one step closer; distance labels never decrease along the queue, and no
/// walk from the root to a visited node is shorter than its label.
pub open spec fn bfs_inv(
    adj: Seq<Vec<usize>>,
    root: usize,
    visited: Seq<bool>,
    parent: Seq<usize>,
    queue: Seq<usize>,
    dist: Seq<int>,
) -> bool {
    let n = adj.len();
    &&& adj_wf(adj)
    &&& root < n
    &&& visited.len() == n
    &&& parent.len() == n
    &&& dist.len() == n
    &&& queue.len() + count_false(visited) == n
    &&& queue.len() >= 1
    &&& queue[0] == root
    &&& forall|q: int| 0 <= q < queue.len() ==> (#[trigger] queue[q] as int) < n && visited[queue[q] as int]
    &&& forall|v: int| 0 <= v < n && #[trigger] visited[v] ==> queue.contains(v as usize)
    &&& visited[root as int]
    &&& dist[root as int] == 0
    &&& forall|v: int|
        0 <= v < n && #[trigger] visited[v] && v != root ==> {
            &&& (parent[v] as int) < n
            &&& visited[parent[v] as int]
            &&& adj[parent[v] as int]@.contains(v as usize)
            &&& dist[v] == dist[parent[v] as int] + 1
        }
    &&& forall|v: int| 0 <= v < n && #[trigger] visited[v] ==> dist[v] >= 0
    &&& forall|q1: int, q2: int|
        0 <= q1 <= q2 < queue.len() ==> dist[#[trigger] queue[q1] as int] <= dist[#[trigger] queue[q2] as int]
    &&& forall|u: Seq<usize>|
        #[trigger] is_walk(adj, u) && u[0] == root && visited[u[u.len() - 1] as int] ==> u.len() - 1
            >= dist[u[u.len() - 1] as int]
}

/// The first `h` queue entries have all their successors visited.
pub open spec fn expanded(adj: Seq<Vec<usize>>, visited: Seq<bool>, queue: Seq<usize>, h: int) -> bool {
    forall|q: int, k: int|
        0 <= q < h && 0 <= k < adj[queue[q] as int]@.len() ==> visited[#[trigger] adj[queue[q] as int]@[k] as int]
}

/// Labels from position `h` on are within one of the label at `h`.
pub open spec fn frontier(queue: Seq<usize>, dist: Seq<int>, h: int) -> bool {
    forall|q: int| h <= q < queue.len() ==> dist[#[trigger] queue[q] as int] <= dist[queue[h] as int] + 1
}

/// Visits the unvisited successors of `queue[head]`, appending them to the
/// queue with `queue[head]` as parent.
#[verifier::rlimit(100)]
fn visit_neighbors(
    adj: &Vec<Vec<usize>>,
    root: usize,
    head: usize,
    visited: &mut Vec<bool>,
    parent: &mut Vec<usize>,
    queue: &mut Vec<usize>,
    dist: Ghost<Seq<int>>,
) -> (new_dist: Ghost<Seq<int>>)
    requires
        bfs_inv(adj@, root, old(visited)@, old(parent)@, old(queue)@, dist@),
        head < old(queue)@.len(),
        expanded(adj@, old(visited)@, old(queue)@, head as int),
        frontier(old(queue)@, dist@, head as int),
    ensures
        bfs_inv(adj@, root, final(visited)@, final(parent)@, final(queue)@, new_dist@),
        head < final(queue)@.len(),
        final(queue)@[head as int] == old(queue)@[head as int],
        new_dist@[old(queue)@[head as int] as int] == dist@[old(queue)@[head as int] as int],
        expanded(adj@, final(visited)@, final(queue)@, head + 1),
        frontier(final(queue)@, new_dist@, head as int),
{
    let n = adj.len();
    let cur = queue[head];
    let ghost mut d = dist@;
    let ghost q0 = queue@;
    let nbrs = &adj[cur];
    let mut k: usize = 0;
    while k < nbrs.len()
        invariant
            n == adj@.len(),
            cur < n,
            *nbrs == adj@[cur as int],
            k <= nbrs@.len(),
            bfs_inv(adj@, root, visited@, parent@, queue@, d),
            head < queue@.len(),
            queue@[head as int] == cur,
            d[cur as int] == dist@[cur as int],
            queue@.len() >= q0.len(),
            forall|q: int| 0 <= q < q0.len() ==> #[trigger] queue@[q] == q0[q],
            expanded(adj@, visited@, queue@, head as int),
            frontier(queue@, d, head as int),
            forall|j: int| 0 <= j < k ==> visited@[#[trigger] nbrs@[j] as int],
        decreases nbrs@.len() - k,
    {
        let next = nbrs[k];
        assert(adj@[cur as int]@[k as int] < n);
        if !visited[next] {
            let ghost old_visited = visited@;
            let ghost old_parent = parent@;
            let ghost old_dist = d;
            let ghost old_queue = queue@;
            proof {
                lemma_count_false_set(visited@, next as int);
                d = d.update(next as int, d[cur as int] + 1);
                assert forall|q: int| 0 <= q < old_queue.len() implies #[trigger] old_queue[q] != next by {
                    assert(old_visited[old_queue[q] as int]);
                }
            }
            visited.set(next, true);
            parent.set(next, cur);
            queue.push(next);
            proof {
                assert(nbrs@.contains(next)) by {
                    assert(nbrs@[k as int] == next);
                }
                assert forall|v: int| 0 <= v < n && #[trigger] visited@[v] implies queue@.contains(v as usize) by {
                    if v == next as int {
                        assert(queue@[queue@.len() - 1] == next);
                    } else {
                        assert(old_queue.contains(v as usize));
                        let t = choose|t: int| 0 <= t < old_queue.len() && old_queue[t] == v as usize;
                        assert(queue@[t] == v as usize);
                    }
                }
                assert forall|u: Seq<usize>|
                    #[trigger] is_walk(adj@, u) && u[0] == root && visited@[u[u.len() - 1] as int] implies u.len() - 1
                        >= d[u[u.len() - 1] as int] by {
                    let x = u[u.len() - 1];
                    if x != next {
                        assert(old_visited[x as int]);
                    } else {
                        assert(u.len() > 1) by {
                            if u.len() == 1 {
                                assert(old_visited[root as int]);
                            }
                        }
                        let shorter = u.drop_last();
                        lemma_walk_prefix(adj@, u);
                        lemma_frontier(adj@, old_queue, head as int, old_visited, old_dist, root, shorter);
                        let y = shorter[shorter.len() - 1];
                        if old_queue.take(head as int).contains(y) {
                            let q = choose|q: int| 0 <= q < head && old_queue.take(head as int)[q] == y;
                            assert(old_queue[q] == y);
                            let last = u.len() - 2;
                            assert(adj@[u[last] as int]@.contains(u[last + 1]));
                            let t = choose|t: int| 0 <= t < adj@[y as int]@.len() && adj@[y as int]@[t] == next;
                            assert(old_visited[adj@[old_queue[q] as int]@[t] as int]);
                        }
                    }
                }
                assert forall|q1: int, q2: int|
                    0 <= q1 <= q2 < queue@.len() implies d[#[trigger] queue@[q1] as int] <= d[#[trigger] queue@[q2] as int] by {
                    if q2 == queue@.len() - 1 {
                        if q1 < queue@.len() - 1 {
                            assert(old_queue[q1] == queue@[q1]);
                            if q1 < head {
                                assert(old_dist[old_queue[q1] as int] <= old_dist[old_queue[head as int] as int]);
                            } else {
                                assert(old_dist[old_queue[q1] as int] <= old_dist[old_queue[head as int] as int] + 1);
                            }
                        }
                    } else {
                        assert(old_queue[q1] == queue@[q1] && old_queue[q2] == queue@[q2]);
                    }
                }
                assert forall|q: int| head <= q < queue@.len() implies d[#[trigger] queue@[q] as int] <= d[queue@[head as int] as int] + 1 by {
                    if q < queue@.len() - 1 {
                        assert(old_queue[q] == queue@[q]);
                    }
                }
                assert forall|v: int|
                    0 <= v < n && #[trigger] visited@[v] && v != root implies {
                        &&& (parent@[v] as int) < n
                        &&& visited@[parent@[v] as int]
                        &&& adj@[parent@[v] as int]@.contains(v as usize)
                        &&& d[v] == d[parent@[v] as int] + 1
                    } by {
                    if v != next as int {
                        assert(old_visited[v]);
                        assert(old_parent[v] == parent@[v]);
                        assert(old_parent[v] != next) by {
                            assert(old_visited[old_parent[v] as int]);
                        }
                    }
                }
                assert(expanded(adj@, visited@, queue@, head as int)) by {
                    assert forall|q: int, j: int|
                        0 <= q < head && 0 <= j < adj@[queue@[q] as int]@.len() implies visited@[#[trigger] adj@[queue@[q] as int]@[j] as int] by {
                        assert(queue@[q] == old_queue[q]);
                        assert(old_visited[adj@[old_queue[q] as int]@[j] as int]);
                    }
                }
            }
        }
        k = k + 1;
    }
    proof {
        assert forall|q: int, j: int|
            0 <= q < head + 1 && 0 <= j < adj@[queue@[q] as int]@.len() implies visited@[#[trigger] adj@[queue@[q] as int]@[j] as int] by {
            if q == head as int {
                assert(visited@[nbrs@[j] as int]);
            }
        }
    }
    Ghost(d)
}

/// Breadth-first search from `root` along `adj`; the walk to `target` that
/// follows the first-discovered parent of each node, if `target` is
/// reachable. It is a shortest one.
pub fn bfs_path(adj: &Vec<Vec<usize>>, root: usize, target: usize) -> (r: Option<Vec<usize>>)
    requires
        adj_wf(adj@),
        root < adj@.len(),
        target < adj@.len(),
    ensures
        r.is_some() <==> reaches(adj@, root as int, target as int),
        r matches Some(w) ==> {
            &&& is_walk(adj@, w@)
            &&& w@[0] == root
            &&& w@[w@.len() - 1] == target
            &&& forall|u: Seq<usize>|
                #[trigger] is_walk(adj@, u) && u[0] == root && u[u.len() - 1] == target ==> w@.len()
                    <= u.len()
        },
{
    let n = adj.len();
    let mut visited: Vec<bool> = Vec::new();
    let mut parent: Vec<usize> = Vec::new();
    let mut i: usize = 0;
    while i < n
        invariant
            i <= n,
            visited@.len() == i,
            parent@.len() == i,
            forall|j: int| 0 <= j < i ==> !visited@[j],
        decreases n - i,
    {
        visited.push(false);
        parent.push(0);
        i = i + 1;
    }
    proof {
        lemma_count_false_all(visited@);
        lemma_count_false_set(visited@, root as int);
    }
    visited.set(root, true);
    let ghost mut dist: Seq<int> = Seq::new(n as nat, |v: int| 0int);
    let mut queue: Vec<usize> = Vec::new();
    queue.push(root);
    let mut head: usize = 0;
    let mut found = false;
    proof {
        assert(queue@[0] == root);
        assert forall|v: int| 0 <= v < n && #[trigger] visited@[v] implies v == root as int by {}
        assert forall|u: Seq<usize>|
            #[trigger] is_walk(adj@, u) && u[0] == root && visited@[u[u.len() - 1] as int] implies u.len() - 1
                >= dist[u[u.len() - 1] as int] by {}
        assert(bfs_inv(adj@, root, visited@, parent@, queue@, dist));
    }
    while head < queue.len() && !found
        invariant
            n == adj@.len(),
            target < n,
            bfs_inv(adj@, root, visited@, parent@, queue@, dist),
            head <= queue@.len(),
            expanded(adj@, visited@, queue@, head as int),
            head < queue@.len() ==> frontier(queue@, dist, head as int),
            found ==> head < queue@.len() && queue@[head as int] == target,
        decreases n - head, if found { 0int } else { 1int },
    {
        proof {
            lemma_count_false_bound(visited@);
        }
        let cur = queue[head];
        if cur == target {
            found = true;
        } else {
            let Ghost(d) = visit_neighbors(adj, root, head, &mut visited, &mut parent, &mut queue, Ghost(dist));
            proof {
                dist = d;
                if head + 1 < queue@.len() {
                    assert(dist[queue@[head as int] as int] <= dist[queue@[head + 1] as int]);
                    assert forall|q: int| head + 1 <= q < queue@.len() implies dist[#[trigger] queue@[q] as int]
                        <= dist[queue@[head + 1] as int] + 1 by {
                        assert(dist[queue@[q] as int] <= dist[queue@[head as int] as int] + 1);
                    }
                }
            }
            head = head + 1;
        }
    }
    if !visited[target] {
        proof {
            assert forall|v: int, k: int|
                0 <= v < n && visited@[v] && 0 <= k < adj@[v]@.len() implies visited@[#[trigger] adj@[
                v
            ]@[k] as int] by {
                let q = choose|q: int| 0 <= q < queue@.len() && queue@[q] == v as usize;
                assert(visited@[adj@[queue@[q] as int]@[k] as int]);
            }
            if reaches(adj@, root as int, target as int) {
                let w = choose|w: Seq<usize>|
                    #[trigger] is_walk(adj@, w) && w[0] as int == root as int && w[w.len() - 1] as int
                        == target as int;
                lemma_closed_walk(adj@, visited@, w);
            }
        }
        return None;
    }
    let ghost shortest = dist[target as int];
    assert(forall|u: Seq<usize>|
        #[trigger] is_walk(adj@, u) && u[0] == root && u[u.len() - 1] == target ==> u.len() - 1
            >= shortest);
    // walk back along parents: `back` lists the path from `target` to `cursor`
    let mut back: Vec<usize> = Vec::new();
    back.push(target);
    let mut cursor = target;
    while cursor != root
        invariant
            n == adj@.len(),
            bfs_inv(adj@, root, visited@, parent@, queue@, dist),
            cursor < n,
            visited@[cursor as int],
            back@.len() >= 1,
            back@[0] == target,
            back@[back@.len() - 1] == cursor,
            forall|j: int| 0 <= j < back@.len() ==> (#[trigger] back@[j] as int) < n,
            forall|j: int|
                0 <= j < back@.len() - 1 ==> #[trigger] adj@[back@[j + 1] as int]@.contains(back@[j]),
            back@.len() - 1 + dist[cursor as int] == shortest,
        decreases dist[cursor as int],
    {
        let prev = parent[cursor];
        back.push(prev);
        cursor = prev;
    }
    let mut w: Vec<usize> = Vec::new();
    let len = back.len();
    let mut j: usize = len;
    while j > 0
        invariant
            j <= len,
            len == back@.len(),
            w@.len() == len - j,
            forall|t: int| 0 <= t < w@.len() ==> #[trigger] w@[t] == back@[len - 1 - t],
        decreases j,
    {
        j = j - 1;
        w.push(back[j]);
    }
    assert(is_walk(adj@, w@)) by {
        assert forall|t: int| 0 <= t < w@.len() - 1 implies #[trigger] adj@[w@[t] as int]@.contains(
            w@[t + 1],
        ) by {
            assert(w@[t] == back@[len - 1 - t]);
            assert(w@[t + 1] == back@[(len - 1 - t) - 1]);
            assert(adj@[back@[(len - 1 - t - 1) + 1] as int]@.contains(back@[len - 1 - t - 1]));
        }
        assert forall|t: int| 0 <= t < w@.len() implies (#[trigger] w@[t] as int) < adj@.len() by {
            assert(w@[t] == back@[len - 1 - t]);
        }
    }
    assert(w@[w@.len() - 1] == back@[0]);
    assert(w@.len() == shortest + 1);
    Some(w)
}

} // verus!
