use vstd::prelude::*;
use crate::graph::{ids_distinct, resolves, NodeRecord, SystemGraph};
use crate::text::{after_last, normalize_store_key, str_eq};

verus! {

broadcast use vstd::seq_lib::group_to_multiset_ensures;

/// One entry of the store's path-info listing, as parsed from its output.
#[derive(Clone, Debug)]
pub struct RawPathInfo {
    pub nar_size: u64,
    pub closure_size: u64,
    pub references: Vec<String>,
    pub deriver: Option<String>,
}

/// Why a closure listing could not be turned into a graph.
#[derive(Clone, Copy, Debug, PartialEq, Eq, Structural)]
pub enum CollectError {
    /// The listing for the system path itself named no path.
    EmptyRootInfo,
    /// No entry of the closure listing named a store id.
    NoClosureNodes,
}

/// The store id named by a listing key or reference.
pub open spec fn key_id(k: Seq<char>) -> Seq<char> {
    after_last(k, '/')
}

/// Closure size as recorded: the NAR size stands in for a missing (zero) one.
pub open spec fn recorded_closure_size(e: RawPathInfo) -> u64 {
    if e.closure_size == 0 {
        e.nar_size
    } else {
        e.closure_size
    }
}

/// Whether `s` is the id of one of `nodes`.
pub open spec fn has_id(nodes: Seq<NodeRecord>, s: Seq<char>) -> bool {
    exists|j: int| 0 <= j < nodes.len() && #[trigger] nodes[j].id@ == s
}

/// Whether `s` is the store id of one of the references of `e` other than
/// `id` itself.
pub open spec fn names_reference(e: RawPathInfo, id: Seq<char>, s: Seq<char>) -> bool {
    &&& s.len() > 0
    &&& s != id
    &&& exists|k: int| 0 <= k < e.references@.len() && key_id(#[trigger] e.references@[k]@) == s
}

pub open spec fn distinct_views(v: Seq<String>) -> bool {
    forall|a: int, b: int|
        0 <= a < v.len() && 0 <= b < v.len() && a != b ==> #[trigger] v[a]@ != #[trigger] v[b]@
}

pub open spec fn contains_view(v: Seq<String>, s: Seq<char>) -> bool {
    exists|k: int| 0 <= k < v.len() && #[trigger] v[k]@ == s
}

/// Lexicographic order on characters by code point (for UTF-8 strings the
/// same as byte-wise order).
pub open spec fn chars_le(a: Seq<char>, b: Seq<char>) -> bool
    decreases a.len(),
{
    if a.len() == 0 {
        true
    } else if b.len() == 0 {
        false
    } else if a[0] != b[0] {
        (a[0] as u32) < (b[0] as u32)
    } else {
        chars_le(a.drop_first(), b.drop_first())
    }
}

/// Each string is at most every later one.
pub open spec fn sorted_views(v: Seq<String>) -> bool {
    forall|a: int, b: int| 0 <= a < b < v.len() ==> chars_le(#[trigger] v[a]@, #[trigger] v[b]@)
}

/// Relies on `slice::sort` for `String`: a permutation of the input in
/// ascending `Ord` order, which for `String` is byte-wise lexicographic.
#[verifier::external_body]
fn sort_strings(v: &mut Vec<String>)
    ensures
        final(v)@.to_multiset() == old(v)@.to_multiset(),
        sorted_views(final(v)@),
{
    v.sort();
}

/// Relies on `str::starts_with` with a `char` pattern.
#[verifier::external_body]
fn starts_with_char(s: &str, c: char) -> (r: bool)
    ensures
        r == (s@.len() > 0 && s@[0] == c),
{
    s.starts_with(c)
}

/// Relies on `format!`: the directory, a `/`, then the id.
#[verifier::external_body]
fn join_store_path(dir: &str, id: &str) -> (r: String)
    ensures
        r@ == dir@ + seq!['/'] + id@,
{
    format!("{dir}/{id}")
}

proof fn lemma_sorted_same_views(a: Seq<String>, b: Seq<String>, s: Seq<char>)
    requires
        a.to_multiset() == b.to_multiset(),
    ensures
        contains_view(a, s) <==> contains_view(b, s),
{
    if contains_view(a, s) {
        let k = choose|k: int| 0 <= k < a.len() && #[trigger] a[k]@ == s;
        assert(a.contains(a[k]));
        assert(a.to_multiset().count(a[k]) > 0);
        assert(b.to_multiset().count(a[k]) > 0);
        assert(b.contains(a[k]));
        let t = choose|t: int| 0 <= t < b.len() && b[t] == a[k];
        assert(b[t]@ == s);
    }
    if contains_view(b, s) {
        let k = choose|k: int| 0 <= k < b.len() && #[trigger] b[k]@ == s;
        assert(b.contains(b[k]));
        assert(b.to_multiset().count(b[k]) > 0);
        assert(a.to_multiset().count(b[k]) > 0);
        assert(a.contains(b[k]));
        let t = choose|t: int| 0 <= t < a.len() && a[t] == b[k];
        assert(a[t]@ == s);
    }
}

/// Position of the record with id `id` among `nodes`.
fn find_id(nodes: &Vec<NodeRecord>, id: &str) -> (r: Option<usize>)
    ensures
        r matches Some(i) ==> i < nodes@.len() && nodes@[i as int].id@ == id@,
        r is None ==> !has_id(nodes@, id@),
{
    let mut i: usize = 0;
    while i < nodes.len()
        invariant
            i <= nodes@.len(),
            forall|j: int| 0 <= j < i ==> #[trigger] nodes@[j].id@ != id@,
        decreases nodes@.len() - i,
    {
        if str_eq(nodes[i].id.as_str(), id) {
            return Some(i);
        }
        i = i + 1;
    }
    None
}

/// The store ids that the references of `entry` name, other than `id` and
/// the empty one, with repeats.
fn entry_references(entry: &RawPathInfo, id: &String) -> (r: Vec<String>)
    ensures
        forall|s: Seq<char>| #[trigger] contains_view(r@, s) <==> names_reference(*entry, id@, s),
{
    let mut r: Vec<String> = Vec::new();
    let mut k: usize = 0;
    while k < entry.references.len()
        invariant
            k <= entry.references@.len(),
            forall|s: Seq<char>|
                #[trigger] contains_view(r@, s) <==> {
                    &&& s.len() > 0
                    &&& s != id@
                    &&& exists|t: int| 0 <= t < k && key_id(#[trigger] entry.references@[t]@) == s
                },
        decreases entry.references@.len() - k,
    {
        let rid = normalize_store_key(entry.references[k].as_str());
        let ghost before = r@;
        if !rid.as_str().is_empty() && !str_eq(rid.as_str(), id.as_str()) {
            r.push(rid);
            assert forall|s: Seq<char>| #[trigger] contains_view(r@, s) <==> {
                &&& s.len() > 0
                &&& s != id@
                &&& exists|t: int|
                    0 <= t < k + 1 && key_id(#[trigger] entry.references@[t]@) == s
            } by {
                if contains_view(r@, s) {
                    let q = choose|q: int| 0 <= q < r@.len() && #[trigger] r@[q]@ == s;
                    if q < before.len() {
                        assert(before[q]@ == s);
                        assert(contains_view(before, s));
                    }
                }
                if s.len() > 0 && s != id@ && exists|t: int|
                    0 <= t < k + 1 && key_id(#[trigger] entry.references@[t]@) == s {
                    let t = choose|t: int|
                        0 <= t < k + 1 && key_id(#[trigger] entry.references@[t]@) == s;
                    if t == k {
                        assert(r@[r@.len() - 1]@ == s);
                    } else {
                        assert(contains_view(before, s));
                        let q = choose|q: int| 0 <= q < before.len() && #[trigger] before[q]@ == s;
                        assert(r@[q]@ == s);
                    }
                }
            }
        } else {
            assert forall|s: Seq<char>| #[trigger] contains_view(r@, s) <==> {
                &&& s.len() > 0
                &&& s != id@
                &&& exists|t: int|
                    0 <= t < k + 1 && key_id(#[trigger] entry.references@[t]@) == s
            } by {
                if s.len() > 0 && s != id@ && exists|t: int|
                    0 <= t < k + 1 && key_id(#[trigger] entry.references@[t]@) == s {
                    let t = choose|t: int|
                        0 <= t < k + 1 && key_id(#[trigger] entry.references@[t]@) == s;
                    assert(t != k);
                }
            }
        }
        k = k + 1;
    }
    r
}

/// The record that the listing entry `(key, e)` describes, before references
/// to paths outside the closure are dropped.
pub open spec fn describes(n: NodeRecord, key: Seq<char>, e: RawPathInfo, store_dir: Seq<char>) -> bool {
    &&& n.id@ == key_id(key)
    &&& n.full_path@ == if key.len() > 0 && key[0] == '/' {
        key
    } else {
        store_dir + seq!['/'] + key_id(key)
    }
    &&& n.nar_size == e.nar_size
    &&& n.closure_size == recorded_closure_size(e)
    &&& n.deriver matches Some(d) ==> e.deriver matches Some(ed) && d@ == key_id(ed@) && d@.len() > 0
    &&& n.deriver is None ==> match e.deriver {
        Some(ed) => key_id(ed@).len() == 0,
        None => true,
    }
}

/// Entry `e` is the last one of the listing that names store id `id`.
pub open spec fn last_entry_for(closure: Seq<(String, RawPathInfo)>, e: int, id: Seq<char>) -> bool {
    &&& 0 <= e < closure.len()
    &&& key_id(closure[e].0@) == id
    &&& forall|f: int| e < f < closure.len() ==> key_id(#[trigger] closure[f].0@) != id
}

/// `n` is described by the last listing entry naming its id, references
/// included.
pub open spec fn from_listing(closure: Seq<(String, RawPathInfo)>, store_dir: Seq<char>, n: NodeRecord) -> bool {
    exists|e: int|
        {
            &&& #[trigger] last_entry_for(closure, e, n.id@)
            &&& describes(n, closure[e].0@, closure[e].1, store_dir)
            &&& forall|s: Seq<char>|
                #[trigger] contains_view(n.references@, s) <==> names_reference(closure[e].1, n.id@, s)
        }
}

fn describe_entry(store_dir: &String, key: &String, entry: &RawPathInfo, id: String) -> (n: NodeRecord)
    requires
        id@ == key_id(key@),
    ensures
        describes(n, key@, *entry, store_dir@),
        forall|s: Seq<char>| #[trigger] contains_view(n.references@, s) <==> names_reference(*entry, id@, s),
        n.referrers@.len() == 0,
{
    let full_path = if starts_with_char(key.as_str(), '/') {
        key.clone()
    } else {
        join_store_path(store_dir.as_str(), id.as_str())
    };
    let references = entry_references(entry, &id);
    let closure_size = if entry.closure_size == 0 {
        entry.nar_size
    } else {
        entry.closure_size
    };
    let deriver = match &entry.deriver {
        Some(d) => {
            let dn = normalize_store_key(d.as_str());
            if dn.as_str().is_empty() {
                None
            } else {
                Some(dn)
            }
        },
        None => None,
    };
    NodeRecord {
        id,
        full_path,
        nar_size: entry.nar_size,
        closure_size,
        references,
        referrers: Vec::new(),
        deriver,
    }
}

spec fn entry_source(
    closure: Seq<(String, RawPathInfo)>,
    store_dir: Seq<char>,
    e: int,
    f: int,
    n: NodeRecord,
) -> bool {
    &&& 0 <= f < e
    &&& key_id(closure[f].0@) == n.id@
    &&& forall|g: int| f < g < e ==> key_id(#[trigger] closure[g].0@) != n.id@
    &&& describes(n, closure[f].0@, closure[f].1, store_dir)
    &&& forall|s: Seq<char>|
        #[trigger] contains_view(n.references@, s) <==> names_reference(closure[f].1, n.id@, s)
    &&& n.referrers@.len() == 0
}

/// One record per store id that the listing names, each described by the
/// last entry naming that id.
fn records_from_listing(store_dir: &String, closure: &Vec<(String, RawPathInfo)>) -> (nodes: Vec<NodeRecord>)
    ensures
        ids_distinct(nodes@),
        forall|s: Seq<char>|
            #[trigger] has_id(nodes@, s) <==> (s.len() > 0 && exists|e: int|
                0 <= e < closure@.len() && key_id(#[trigger] closure@[e].0@) == s),
        forall|i: int|
            0 <= i < nodes@.len() ==> #[trigger] from_listing(closure@, store_dir@, nodes@[i]),
        forall|i: int| 0 <= i < nodes@.len() ==> (#[trigger] nodes@[i]).referrers@.len() == 0,
{
    let mut nodes: Vec<NodeRecord> = Vec::new();
    let ghost mut src: Seq<int> = seq![];
    let mut e: usize = 0;
    while e < closure.len()
        invariant
            e <= closure@.len(),
            src.len() == nodes@.len(),
            ids_distinct(nodes@),
            forall|s: Seq<char>|
                #[trigger] has_id(nodes@, s) <==> (s.len() > 0 && exists|f: int|
                    0 <= f < e && key_id(#[trigger] closure@[f].0@) == s),
            forall|i: int|
                0 <= i < nodes@.len() ==> entry_source(closure@, store_dir@, e as int, #[trigger] src[i], nodes@[i]),
        decreases closure@.len() - e,
    {
        let key = &closure[e].0;
        let id = normalize_store_key(key.as_str());
        if !id.as_str().is_empty() {
            let n = describe_entry(store_dir, key, &closure[e].1, id);
            let ghost old_nodes = nodes@;
            let ghost old_src = src;
            match find_id(&nodes, n.id.as_str()) {
                Some(i) => {
                    nodes.set(i, n);
                    proof {
                        src = src.update(i as int, e as int);
                    }
                    assert(ids_distinct(nodes@)) by {
                        assert forall|a: int, b: int|
                            0 <= a < nodes@.len() && 0 <= b < nodes@.len() && a != b implies #[trigger] nodes@[a].id@
                            != #[trigger] nodes@[b].id@ by {
                            assert(old_nodes[a].id@ != old_nodes[b].id@);
                        }
                    }
                    assert forall|s: Seq<char>|
                        #[trigger] has_id(nodes@, s) <==> (s.len() > 0 && exists|f: int|
                            0 <= f < e + 1 && key_id(#[trigger] closure@[f].0@) == s) by {
                        if has_id(nodes@, s) {
                            let j = choose|j: int| 0 <= j < nodes@.len() && #[trigger] nodes@[j].id@ == s;
                            assert(old_nodes[j].id@ == s);
                            assert(has_id(old_nodes, s));
                        }
                        if s.len() > 0 && exists|f: int|
                            0 <= f < e + 1 && key_id(#[trigger] closure@[f].0@) == s {
                            let f = choose|f: int| 0 <= f < e + 1 && key_id(#[trigger] closure@[f].0@) == s;
                            if f < e {
                                assert(has_id(old_nodes, s));
                                let j = choose|j: int| 0 <= j < old_nodes.len() && #[trigger] old_nodes[j].id@ == s;
                                assert(nodes@[j].id@ == s);
                            } else {
                                assert(nodes@[i as int].id@ == s);
                            }
                        }
                    }
                },
                None => {
                    nodes.push(n);
                    proof {
                        src = src.push(e as int);
                    }
                    assert(ids_distinct(nodes@)) by {
                        assert forall|a: int, b: int|
                            0 <= a < nodes@.len() && 0 <= b < nodes@.len() && a != b implies #[trigger] nodes@[a].id@
                            != #[trigger] nodes@[b].id@ by {
                            if a < old_nodes.len() && b < old_nodes.len() {
                                assert(old_nodes[a].id@ != old_nodes[b].id@);
                            } else if a < old_nodes.len() {
                                assert(old_nodes[a].id@ == nodes@[a].id@);
                            } else {
                                assert(old_nodes[b].id@ == nodes@[b].id@);
                            }
                        }
                    }
                    assert forall|s: Seq<char>|
                        #[trigger] has_id(nodes@, s) <==> (s.len() > 0 && exists|f: int|
                            0 <= f < e + 1 && key_id(#[trigger] closure@[f].0@) == s) by {
                        if has_id(nodes@, s) {
                            let j = choose|j: int| 0 <= j < nodes@.len() && #[trigger] nodes@[j].id@ == s;
                            if j < old_nodes.len() {
                                assert(old_nodes[j].id@ == s);
                                assert(has_id(old_nodes, s));
                            }
                        }
                        if s.len() > 0 && exists|f: int|
                            0 <= f < e + 1 && key_id(#[trigger] closure@[f].0@) == s {
                            let f = choose|f: int| 0 <= f < e + 1 && key_id(#[trigger] closure@[f].0@) == s;
                            if f < e {
                                assert(has_id(old_nodes, s));
                                let j = choose|j: int| 0 <= j < old_nodes.len() && #[trigger] old_nodes[j].id@ == s;
                                assert(nodes@[j].id@ == s);
                            } else {
                                assert(nodes@[nodes@.len() - 1].id@ == s);
                            }
                        }
                    }
                },
            }
            assert forall|i: int| 0 <= i < nodes@.len() implies entry_source(
                closure@,
                store_dir@,
                e + 1,
                #[trigger] src[i],
                nodes@[i],
            ) by {
                if src[i] != e as int {
                    assert(i < old_nodes.len() && nodes@[i] == old_nodes[i] && src[i] == old_src[i]);
                    assert(entry_source(closure@, store_dir@, e as int, old_src[i], old_nodes[i]));
                    assert(old_nodes[i].id@ != n.id@) by {
                        if old_nodes[i].id@ == n.id@ {
                            assert(has_id(old_nodes, n.id@));
                        }
                    }
                }
            }
        } else {
            assert forall|i: int| 0 <= i < nodes@.len() implies entry_source(
                closure@,
                store_dir@,
                e + 1,
                #[trigger] src[i],
                nodes@[i],
            ) by {
                assert(entry_source(closure@, store_dir@, e as int, src[i], nodes@[i]));
                assert(has_id(nodes@, nodes@[i].id@));
            }
        }
        e = e + 1;
    }
    proof {
        assert forall|i: int|
            0 <= i < nodes@.len() implies #[trigger] from_listing(closure@, store_dir@, nodes@[i]) by {
            assert(entry_source(closure@, store_dir@, e as int, src[i], nodes@[i]));
            assert(last_entry_for(closure@, src[i], nodes@[i].id@));
        }
        assert forall|i: int| 0 <= i < nodes@.len() implies (#[trigger] nodes@[i]).referrers@.len() == 0 by {
            assert(entry_source(closure@, store_dir@, e as int, src[i], nodes@[i]));
        }
    }
    nodes
}

/// A copy of `names` in sorted order.
fn sorted_copy(names: &Vec<String>) -> (r: Vec<String>)
    ensures
        forall|x: Seq<char>| #[trigger] contains_view(r@, x) <==> contains_view(names@, x),
        sorted_views(r@),
{
    let mut r: Vec<String> = Vec::new();
    let mut k: usize = 0;
    while k < names.len()
        invariant
            k <= names@.len(),
            r@ == names@.take(k as int),
        decreases names@.len() - k,
    {
        r.push(names[k].clone());
        k = k + 1;
    }
    assert(names@.take(names@.len() as int) == names@);
    let ghost before = r@;
    sort_strings(&mut r);
    proof {
        assert forall|x: Seq<char>| #[trigger] contains_view(r@, x) <==> contains_view(names@, x) by {
            lemma_sorted_same_views(r@, before, x);
        }
    }
    r
}

/// The names that are record ids, each once, in their first order, with
/// their record positions.
fn resolve_names(nodes: &Vec<NodeRecord>, names: &Vec<String>) -> (r: (Vec<String>, Vec<usize>))
    requires
        ids_distinct(nodes@),
    ensures
        distinct_views(r.0@),
        sorted_views(names@) ==> sorted_views(r.0@),
        resolves(nodes@, r.0@, r.1@),
        forall|x: Seq<char>|
            #[trigger] contains_view(r.0@, x) <==> (contains_view(names@, x) && has_id(nodes@, x)),
{
    let mut out: Vec<String> = Vec::new();
    let mut idx: Vec<usize> = Vec::new();
    let mut k: usize = 0;
    while k < names.len()
        invariant
            ids_distinct(nodes@),
            k <= names@.len(),
            distinct_views(out@),
            sorted_views(names@) ==> sorted_views(out@),
            resolves(nodes@, out@, idx@),
            forall|x: Seq<char>|
                #[trigger] contains_view(out@, x) <==> (contains_view(names@.take(k as int), x)
                    && has_id(nodes@, x)),
        decreases names@.len() - k,
    {
        let ghost old_out = out@;
        let ghost old_idx = idx@;
        assert(names@.take(k + 1) == names@.take(k as int).push(names@[k as int]));
        match find_id(nodes, names[k].as_str()) {
            Some(j) => {
                let mut seen = false;
                let mut t: usize = 0;
                while t < idx.len()
                    invariant
                        t <= idx@.len(),
                        seen ==> exists|u: int| 0 <= u < idx@.len() && idx@[u] == j,
                        !seen ==> forall|u: int| 0 <= u < t ==> idx@[u] != j,
                    decreases idx@.len() - t,
                {
                    if idx[t] == j {
                        seen = true;
                    }
                    t = t + 1;
                }
                if !seen {
                    out.push(names[k].clone());
                    idx.push(j);
                    proof {
                        if sorted_views(names@) {
                            assert forall|a: int, b: int| 0 <= a < b < out@.len() implies chars_le(#[trigger] out@[a]@, #[trigger] out@[b]@) by {
                                if b < old_out.len() {
                                    assert(out@[a] == old_out[a] && out@[b] == old_out[b]);
                                } else {
                                    assert(out@[a] == old_out[a]);
                                    assert(contains_view(old_out, old_out[a]@));
                                    let w = choose|w: int| 0 <= w < k && #[trigger] names@.take(k as int)[w]@ == old_out[a]@;
                                    assert(names@[w]@ == old_out[a]@);
                                    assert(chars_le(names@[w]@, names@[k as int]@));
                                }
                            }
                        }
                    }
                    assert(distinct_views(out@)) by {
                        assert forall|a: int, b: int|
                            0 <= a < out@.len() && 0 <= b < out@.len() && a != b implies #[trigger] out@[a]@
                            != #[trigger] out@[b]@ by {
                            if a < old_out.len() && b < old_out.len() {
                                assert(old_out[a]@ != old_out[b]@);
                            } else if a < old_out.len() {
                                assert(nodes@[old_idx[a] as int].id@ == old_out[a]@);
                                assert(old_idx[a] != j);
                            } else {
                                assert(nodes@[old_idx[b] as int].id@ == old_out[b]@);
                                assert(old_idx[b] != j);
                            }
                        }
                    }
                    assert forall|x: Seq<char>|
                        #[trigger] contains_view(out@, x) <==> (contains_view(names@.take(k + 1), x)
                            && has_id(nodes@, x)) by {
                        if contains_view(out@, x) {
                            let q = choose|q: int| 0 <= q < out@.len() && #[trigger] out@[q]@ == x;
                            if q < old_out.len() {
                                assert(old_out[q]@ == x);
                                assert(contains_view(old_out, x));
                                let w = choose|w: int| 0 <= w < k && #[trigger] names@.take(k as int)[w]@ == x;
                                assert(names@.take(k + 1)[w]@ == x);
                            } else {
                                assert(names@.take(k + 1)[k as int]@ == x);
                                assert(nodes@[j as int].id@ == x);
                            }
                        }
                        if contains_view(names@.take(k + 1), x) && has_id(nodes@, x) {
                            let w = choose|w: int| 0 <= w < k + 1 && #[trigger] names@.take(k + 1)[w]@ == x;
                            if w < k {
                                assert(names@.take(k as int)[w]@ == x);
                                assert(contains_view(old_out, x));
                                let q = choose|q: int| 0 <= q < old_out.len() && #[trigger] old_out[q]@ == x;
                                assert(out@[q]@ == x);
                            } else {
                                assert(out@[out@.len() - 1]@ == x);
                            }
                        }
                    }
                } else {
                    assert forall|x: Seq<char>|
                        #[trigger] contains_view(out@, x) <==> (contains_view(names@.take(k + 1), x)
                            && has_id(nodes@, x)) by {
                        if contains_view(out@, x) {
                            let w = choose|w: int| 0 <= w < k && #[trigger] names@.take(k as int)[w]@ == x;
                            assert(names@.take(k + 1)[w]@ == x);
                        }
                        if contains_view(names@.take(k + 1), x) && has_id(nodes@, x) {
                            let w = choose|w: int| 0 <= w < k + 1 && #[trigger] names@.take(k + 1)[w]@ == x;
                            if w < k {
                                assert(names@.take(k as int)[w]@ == x);
                            } else {
                                let u = choose|u: int| 0 <= u < idx@.len() && idx@[u] == j;
                                assert(out@[u]@ == nodes@[j as int].id@);
                            }
                        }
                    }
                }
            },
            None => {
                assert forall|x: Seq<char>|
                    #[trigger] contains_view(out@, x) <==> (contains_view(names@.take(k + 1), x)
                        && has_id(nodes@, x)) by {
                    if contains_view(out@, x) {
                        let w = choose|w: int| 0 <= w < k && #[trigger] names@.take(k as int)[w]@ == x;
                        assert(names@.take(k + 1)[w]@ == x);
                    }
                    if contains_view(names@.take(k + 1), x) && has_id(nodes@, x) {
                        let w = choose|w: int| 0 <= w < k + 1 && #[trigger] names@.take(k + 1)[w]@ == x;
                        if w < k {
                            assert(names@.take(k as int)[w]@ == x);
                        }
                    }
                }
            },
        }
        k = k + 1;
    }
    assert(names@.take(names@.len() as int) == names@);
    (out, idx)
}

/// `n` is described by the last listing entry naming its id; its references
/// are the store ids that entry names which are ids of `nodes`.
pub open spec fn linked_from_listing(
    closure: Seq<(String, RawPathInfo)>,
    store_dir: Seq<char>,
    nodes: Seq<NodeRecord>,
    n: NodeRecord,
) -> bool {
    exists|e: int|
        {
            &&& #[trigger] last_entry_for(closure, e, n.id@)
            &&& describes(n, closure[e].0@, closure[e].1, store_dir)
            &&& forall|s: Seq<char>|
                #[trigger] contains_view(n.references@, s) <==> (names_reference(closure[e].1, n.id@, s)
                    && has_id(nodes, s))
        }
}

/// The referrers of `nodes[k]` are the ids of the records that reference it.
pub open spec fn referrers_mirror(nodes: Seq<NodeRecord>, k: int) -> bool {
    forall|s: Seq<char>|
        #[trigger] contains_view(nodes[k].referrers@, s) <==> exists|j: int|
            0 <= j < nodes.len() && #[trigger] nodes[j].id@ == s && contains_view(
                nodes[j].references@,
                nodes[k].id@,
            )
}

pub open spec fn total_references(nodes: Seq<NodeRecord>) -> int
    decreases nodes.len(),
{
    if nodes.len() == 0 {
        0
    } else {
        total_references(nodes.drop_last()) + nodes.last().references@.len()
    }
}

/// Assembles the graph from the store's listings: `root_keys` are the keys of
/// the listing for the system path itself, `closure` the entries of the
/// recursive listing. Store ids are the last `/`-separated segment of keys and
/// references; self references, empty ids and references leaving the closure
/// are dropped, repeats merged (the last entry for an id wins).
#[verifier::loop_isolation(false)]
pub fn collect_system_graph(
    root_keys: &Vec<String>,
    store_dir: String,
    closure: &Vec<(String, RawPathInfo)>,
) -> (r: Result<SystemGraph, CollectError>)
    ensures
        r matches Err(CollectError::EmptyRootInfo) <==> root_keys@.len() == 0,
        r matches Err(CollectError::NoClosureNodes) <==> (root_keys@.len() > 0 && forall|e: int|
            0 <= e < closure@.len() ==> key_id(#[trigger] closure@[e].0@).len() == 0),
        r matches Ok(g) ==> {
            &&& g.wf()
            &&& g.store_dir@ == store_dir@
            &&& g.nodes@.len() > 0
            &&& forall|s: Seq<char>|
                #[trigger] has_id(g.nodes@, s) <==> (s.len() > 0 && exists|e: int|
                    0 <= e < closure@.len() && key_id(#[trigger] closure@[e].0@) == s)
            &&& g.root_id@ == if has_id(g.nodes@, key_id(root_keys@[0]@)) {
                key_id(root_keys@[0]@)
            } else {
                g.nodes@[0].id@
            }
            &&& forall|i: int|
                0 <= i < g.nodes@.len() ==> #[trigger] linked_from_listing(
                    closure@,
                    store_dir@,
                    g.nodes@,
                    g.nodes@[i],
                )
            &&& forall|i: int| 0 <= i < g.nodes@.len() ==> #[trigger] referrers_mirror(g.nodes@, i)
            &&& forall|i: int|
                0 <= i < g.nodes@.len() ==> distinct_views(#[trigger] g.nodes@[i].references@)
                    && distinct_views(g.nodes@[i].referrers@)
            &&& forall|i: int|
                0 <= i < g.nodes@.len() ==> sorted_views(#[trigger] g.nodes@[i].references@)
                    && sorted_views(g.nodes@[i].referrers@)
            &&& g.edge_count as int == if total_references(g.nodes@) > usize::MAX {
                usize::MAX as int
            } else {
                total_references(g.nodes@)
            }
        },
{
    if root_keys.len() == 0 {
        return Err(CollectError::EmptyRootInfo);
    }
    let root_key_id = normalize_store_key(root_keys[0].as_str());
    let records = records_from_listing(&store_dir, closure);
    if records.len() == 0 {
        proof {
            assert forall|e: int| 0 <= e < closure@.len() implies key_id(
                #[trigger] closure@[e].0@,
            ).len() == 0 by {
                if key_id(closure@[e].0@).len() > 0 {
                    assert(has_id(records@, key_id(closure@[e].0@)));
                }
            }
        }
        return Err(CollectError::NoClosureNodes);
    }
    let n = records.len();
    // references: sorted, restricted to the closure, without repeats
    let mut ref_names: Vec<Vec<String>> = Vec::new();
    let mut ref_idx: Vec<Vec<usize>> = Vec::new();
    let mut i: usize = 0;
    while i < n
        invariant
            n == records@.len(),
            ids_distinct(records@),
            i <= n,
            ref_names@.len() == i,
            ref_idx@.len() == i,
            forall|a: int|
                0 <= a < i ==> {
                    &&& distinct_views(#[trigger] ref_names@[a]@)
                    &&& sorted_views(ref_names@[a]@)
                    &&& resolves(records@, ref_names@[a]@, ref_idx@[a]@)
                    &&& forall|x: Seq<char>|
                        #[trigger] contains_view(ref_names@[a]@, x) <==> (contains_view(
                            records@[a].references@,
                            x,
                        ) && has_id(records@, x))
                },
        decreases n - i,
    {
        let sorted = sorted_copy(&records[i].references);
        let (names, idx) = resolve_names(&records, &sorted);
        ref_names.push(names);
        ref_idx.push(idx);
        proof {
            assert(ref_names@[i as int]@ == names@);
            assert forall|x: Seq<char>|
                #[trigger] contains_view(ref_names@[i as int]@, x) <==> (contains_view(
                    records@[i as int].references@,
                    x,
                ) && has_id(records@, x)) by {
                assert(contains_view(sorted@, x) <==> contains_view(records@[i as int].references@, x));
            }
        }
        i = i + 1;
    }
    // reverse adjacency
    let mut rev: Vec<Vec<usize>> = Vec::new();
    let mut k: usize = 0;
    while k < n
        invariant
            k <= n,
            rev@.len() == k,
            forall|a: int| 0 <= a < k ==> (#[trigger] rev@[a])@.len() == 0,
        decreases n - k,
    {
        rev.push(Vec::new());
        k = k + 1;
    }
    let mut i: usize = 0;
    while i < n
        invariant
            n == records@.len(),
            i <= n,
            rev@.len() == n,
            ref_idx@.len() == n,
            forall|a: int|
                0 <= a < n ==> resolves(records@, #[trigger] ref_names@[a]@, ref_idx@[a]@),
            forall|kk: int, j: int|
                0 <= kk < n && 0 <= j < n ==> (#[trigger] rev@[kk]@.contains(j as usize) <==> (j < i
                    && ref_idx@[j]@.contains(kk as usize))),
            forall|kk: int, u: int|
                0 <= kk < n && 0 <= u < rev@[kk]@.len() ==> (#[trigger] rev@[kk]@[u] as int) < n,
        decreases n - i,
    {
        let row = &ref_idx[i];
        let mut t: usize = 0;
        assert(resolves(records@, ref_names@[i as int]@, ref_idx@[i as int]@));
        while t < row.len()
            invariant
                n == records@.len(),
                i < n,
                t <= row@.len(),
                *row == ref_idx@[i as int],
                rev@.len() == n,
                ref_idx@.len() == n,
                forall|u: int| 0 <= u < row@.len() ==> (#[trigger] row@[u] as int) < n,
                forall|kk: int, j: int|
                    0 <= kk < n && 0 <= j < n ==> (#[trigger] rev@[kk]@.contains(j as usize) <==> ((j
                        < i && ref_idx@[j]@.contains(kk as usize)) || (j == i && row@.take(
                        t as int,
                    ).contains(kk as usize)))),
                forall|k2: int, u: int|
                    0 <= k2 < n && 0 <= u < rev@[k2]@.len() ==> (#[trigger] rev@[k2]@[u] as int) < n,
            decreases row@.len() - t,
        {
            let kk = row[t];
            let ghost old_rev = rev@;
            let mut tmp: Vec<usize> = Vec::new();
            rev.set_and_swap(kk, &mut tmp);
            tmp.push(i);
            rev.set_and_swap(kk, &mut tmp);
            proof {
                assert forall|k2: int, u: int|
                    0 <= k2 < n && 0 <= u < rev@[k2]@.len() implies (#[trigger] rev@[k2]@[u] as int) < n by {
                    if k2 == kk as int && u < old_rev[k2]@.len() {
                        assert(rev@[k2]@[u] == old_rev[k2]@[u]);
                    }
                }
                assert(row@.take(t + 1) == row@.take(t as int).push(kk));
                assert forall|k2: int, j: int| 0 <= k2 < n && 0 <= j < n implies (#[trigger] rev@[
                    k2
                ]@.contains(j as usize) <==> ((j < i && ref_idx@[j]@.contains(k2 as usize)) || (j
                    == i && row@.take(t + 1).contains(k2 as usize)))) by {
                    if k2 == kk as int {
                        assert(rev@[k2]@ == old_rev[k2]@.push(i));
                        if j == i as int {
                            assert(rev@[k2]@[rev@[k2]@.len() - 1] == i);
                            assert(row@.take(t + 1)[t as int] == kk);
                        }
                        if rev@[k2]@.contains(j as usize) && j != i as int {
                            let q = choose|q: int| 0 <= q < rev@[k2]@.len() && rev@[k2]@[q] == j as usize;
                            assert(old_rev[k2]@[q] == j as usize);
                        }
                        if old_rev[k2]@.contains(j as usize) {
                            let q = choose|q: int| 0 <= q < old_rev[k2]@.len() && old_rev[k2]@[q] == j as usize;
                            assert(rev@[k2]@[q] == j as usize);
                        }
                    } else {
                        assert(rev@[k2] == old_rev[k2]);
                        if j == i as int && row@.take(t + 1).contains(k2 as usize) {
                            let q = choose|q: int| 0 <= q < t + 1 && #[trigger] row@.take(t + 1)[q] == k2 as usize;
                            assert(row@.take(t as int)[q] == k2 as usize);
                        }
                    }
                }
            }
            t = t + 1;
        }
        proof {
            assert(row@.take(row@.len() as int) == row@);
        }
        i = i + 1;
    }
    // referrers: sorted ids of the referencing records
    let mut back_names: Vec<Vec<String>> = Vec::new();
    let mut back_idx: Vec<Vec<usize>> = Vec::new();
    let mut k: usize = 0;
    while k < n
        invariant
            n == records@.len(),
            ids_distinct(records@),
            k <= n,
            rev@.len() == n,
            back_names@.len() == k,
            back_idx@.len() == k,
            forall|kk: int, j: int|
                0 <= kk < n && 0 <= j < n ==> (#[trigger] rev@[kk]@.contains(j as usize) <==> ref_idx@[
                    j
                ]@.contains(kk as usize)),
            forall|kk: int, u: int|
                0 <= kk < n && 0 <= u < rev@[kk]@.len() ==> (#[trigger] rev@[kk]@[u] as int) < n,
            forall|a: int|
                0 <= a < k ==> {
                    &&& distinct_views(#[trigger] back_names@[a]@)
                    &&& sorted_views(back_names@[a]@)
                    &&& resolves(records@, back_names@[a]@, back_idx@[a]@)
                    &&& forall|x: Seq<char>|
                        #[trigger] contains_view(back_names@[a]@, x) <==> exists|j: int|
                            0 <= j < n && #[trigger] records@[j].id@ == x && rev@[a]@.contains(
                                j as usize,
                            )
                },
        decreases n - k,
    {
        let row = &rev[k];
        let mut ids: Vec<String> = Vec::new();
        let mut u: usize = 0;
        while u < row.len()
            invariant
                n == records@.len(),
                k < n,
                *row == rev@[k as int],
                u <= row@.len(),
                ids@.len() == u,
                forall|q: int| 0 <= q < row@.len() ==> (#[trigger] row@[q] as int) < n,
                forall|q: int| 0 <= q < u ==> (#[trigger] ids@[q])@ == records@[row@[q] as int].id@,
            decreases row@.len() - u,
        {
            ids.push(records[row[u]].id.clone());
            u = u + 1;
        }
        let sorted = sorted_copy(&ids);
        let (names, idx) = resolve_names(&records, &sorted);
        proof {
            assert forall|x: Seq<char>| #[trigger] contains_view(names@, x) <==> exists|j: int|
                0 <= j < n && #[trigger] records@[j].id@ == x && rev@[k as int]@.contains(j as usize) by {
                if contains_view(names@, x) {
                    assert(contains_view(ids@, x));
                    let q = choose|q: int| 0 <= q < ids@.len() && #[trigger] ids@[q]@ == x;
                    let j = row@[q] as int;
                    assert(records@[j].id@ == x && rev@[k as int]@.contains(j as usize));
                }
                if exists|j: int|
                    0 <= j < n && #[trigger] records@[j].id@ == x && rev@[k as int]@.contains(j as usize) {
                    let j = choose|j: int|
                        0 <= j < n && #[trigger] records@[j].id@ == x && rev@[k as int]@.contains(j as usize);
                    let q = choose|q: int| 0 <= q < row@.len() && row@[q] == j as usize;
                    assert(ids@[q]@ == x);
                    assert(contains_view(ids@, x));
                    assert(has_id(records@, x));
                }
            }
        }
        back_names.push(names);
        back_idx.push(idx);
        proof {
            assert(back_names@[k as int]@ == names@);
        }
        k = k + 1;
    }
    // final records
    let ghost names_view = ref_names@;
    let ghost back_view = back_names@;
    let mut nodes: Vec<NodeRecord> = Vec::new();
    let mut edge_count: usize = 0;
    let mut i: usize = 0;
    while i < n
        invariant
            n == records@.len(),
            i <= n,
            ref_names@.len() == n,
            back_names@.len() == n,
            nodes@.len() == i,
            forall|a: int| i <= a < n ==> #[trigger] ref_names@[a] == names_view[a],
            forall|a: int| i <= a < n ==> #[trigger] back_names@[a] == back_view[a],
            forall|a: int|
                0 <= a < i ==> {
                    &&& (#[trigger] nodes@[a]).id@ == records@[a].id@
                    &&& nodes@[a].full_path@ == records@[a].full_path@
                    &&& nodes@[a].nar_size == records@[a].nar_size
                    &&& nodes@[a].closure_size == records@[a].closure_size
                    &&& nodes@[a].deriver.is_some() == records@[a].deriver.is_some()
                    &&& (nodes@[a].deriver matches Some(d) ==> d@ == records@[a].deriver->0@)
                    &&& nodes@[a].references@ == names_view[a]@
                    &&& nodes@[a].referrers@ == back_view[a]@
                },
            edge_count as int == if total_references(nodes@) > usize::MAX {
                usize::MAX as int
            } else {
                total_references(nodes@)
            },
        decreases n - i,
    {
        let mut refs: Vec<String> = Vec::new();
        ref_names.set_and_swap(i, &mut refs);
        let mut backs: Vec<String> = Vec::new();
        back_names.set_and_swap(i, &mut backs);
        let deriver = match &records[i].deriver {
            Some(d) => Some(d.clone()),
            None => None,
        };
        let count = refs.len();
        let node = NodeRecord {
            id: records[i].id.clone(),
            full_path: records[i].full_path.clone(),
            nar_size: records[i].nar_size,
            closure_size: records[i].closure_size,
            references: refs,
            referrers: backs,
            deriver,
        };
        let ghost before = nodes@;
        nodes.push(node);
        assert(nodes@.drop_last() == before);
        edge_count = if edge_count <= usize::MAX - count {
            edge_count + count
        } else {
            usize::MAX
        };
        i = i + 1;
    }
    let root_id = match find_id(&records, root_key_id.as_str()) {
        Some(_) => root_key_id,
        None => records[0].id.clone(),
    };
    let g = SystemGraph {
        store_dir,
        root_id,
        nodes,
        edge_count,
        reference_index: ref_idx,
        referrer_index: back_idx,
    };
    proof {
        let nv = g.nodes@;
        assert forall|s: Seq<char>| #[trigger] has_id(nv, s) <==> has_id(records@, s) by {
            if has_id(nv, s) {
                let j = choose|j: int| 0 <= j < nv.len() && #[trigger] nv[j].id@ == s;
                assert(records@[j].id@ == s);
            }
            if has_id(records@, s) {
                let j = choose|j: int| 0 <= j < records@.len() && #[trigger] records@[j].id@ == s;
                assert(nv[j].id@ == s);
            }
        }
        assert(ids_distinct(nv)) by {
            assert forall|a: int, b: int|
                0 <= a < nv.len() && 0 <= b < nv.len() && a != b implies #[trigger] nv[a].id@
                != #[trigger] nv[b].id@ by {
                assert(records@[a].id@ != records@[b].id@);
            }
        }
        assert forall|a: int| 0 <= a < nv.len() implies resolves(
            nv,
            #[trigger] nv[a].references@,
            g.reference_index@[a]@,
        ) by {
            let idx = ref_idx@[a]@;
            assert(resolves(records@, names_view[a]@, idx));
            assert forall|q: int| 0 <= q < idx.len() implies (#[trigger] idx[q] as int) < nv.len()
                && nv[idx[q] as int].id@ == nv[a].references@[q]@ by {
                assert(nv[idx[q] as int].id@ == records@[idx[q] as int].id@);
            }
        }
        assert forall|a: int| 0 <= a < nv.len() implies resolves(
            nv,
            #[trigger] nv[a].referrers@,
            g.referrer_index@[a]@,
        ) by {
            let idx = back_idx@[a]@;
            assert(resolves(records@, back_view[a]@, idx));
            assert forall|q: int| 0 <= q < idx.len() implies (#[trigger] idx[q] as int) < nv.len()
                && nv[idx[q] as int].id@ == nv[a].referrers@[q]@ by {
                assert(nv[idx[q] as int].id@ == records@[idx[q] as int].id@);
            }
        }
        assert(g.wf());
        assert forall|i: int| 0 <= i < nv.len() implies #[trigger] linked_from_listing(
            closure@,
            store_dir@,
            nv,
            nv[i],
        ) by {
            assert(from_listing(closure@, store_dir@, records@[i]));
            let e = choose|e: int|
                {
                    &&& #[trigger] last_entry_for(closure@, e, records@[i].id@)
                    &&& describes(records@[i], closure@[e].0@, closure@[e].1, store_dir@)
                    &&& forall|s: Seq<char>|
                        #[trigger] contains_view(records@[i].references@, s) <==> names_reference(
                            closure@[e].1,
                            records@[i].id@,
                            s,
                        )
                };
            assert(last_entry_for(closure@, e, nv[i].id@));
            assert(describes(nv[i], closure@[e].0@, closure@[e].1, store_dir@));
            assert forall|s: Seq<char>|
                #[trigger] contains_view(nv[i].references@, s) <==> (names_reference(
                    closure@[e].1,
                    nv[i].id@,
                    s,
                ) && has_id(nv, s)) by {
                assert(nv[i].references@ == names_view[i]@);
                assert(contains_view(names_view[i]@, s) <==> (contains_view(records@[i].references@, s)
                    && has_id(records@, s)));
            }
        }
        assert forall|kk: int| 0 <= kk < nv.len() implies #[trigger] referrers_mirror(nv, kk) by {
            assert forall|s: Seq<char>|
                #[trigger] contains_view(nv[kk].referrers@, s) <==> exists|j: int|
                    0 <= j < nv.len() && #[trigger] nv[j].id@ == s && contains_view(
                        nv[j].references@,
                        nv[kk].id@,
                    ) by {
                assert(nv[kk].referrers@ == back_view[kk]@);
                if contains_view(nv[kk].referrers@, s) {
                    let j = choose|j: int|
                        0 <= j < n && #[trigger] records@[j].id@ == s && rev@[kk]@.contains(j as usize);
                    assert(ref_idx@[j]@.contains(kk as usize));
                    let q = choose|q: int| 0 <= q < ref_idx@[j]@.len() && ref_idx@[j]@[q] == kk as usize;
                    assert(resolves(records@, names_view[j]@, ref_idx@[j]@));
                    assert(names_view[j]@[q]@ == records@[kk].id@);
                    assert(nv[j].references@[q]@ == nv[kk].id@);
                    assert(nv[j].id@ == s);
                }
                if exists|j: int|
                    0 <= j < nv.len() && #[trigger] nv[j].id@ == s && contains_view(
                        nv[j].references@,
                        nv[kk].id@,
                    ) {
                    let j = choose|j: int|
                        0 <= j < nv.len() && #[trigger] nv[j].id@ == s && contains_view(
                            nv[j].references@,
                            nv[kk].id@,
                        );
                    let q = choose|q: int|
                        0 <= q < nv[j].references@.len() && #[trigger] nv[j].references@[q]@
                            == nv[kk].id@;
                    assert(resolves(records@, names_view[j]@, ref_idx@[j]@));
                    let target = ref_idx@[j]@[q];
                    assert(records@[target as int].id@ == records@[kk].id@);
                    assert(target == kk as usize);
                    assert(ref_idx@[j]@.contains(kk as usize));
                    assert(rev@[kk]@.contains(j as usize));
                    assert(records@[j].id@ == s);
                }
            }
        }
        assert forall|i: int|
            0 <= i < nv.len() implies sorted_views(#[trigger] nv[i].references@) && sorted_views(
            nv[i].referrers@,
        ) by {
            assert(nv[i].references@ == names_view[i]@);
            assert(nv[i].referrers@ == back_view[i]@);
        }
        assert forall|i: int|
            0 <= i < nv.len() implies distinct_views(#[trigger] nv[i].references@) && distinct_views(
            nv[i].referrers@,
        ) by {
            assert(nv[i].references@ == names_view[i]@);
            assert(nv[i].referrers@ == back_view[i]@);
        }
        if has_id(nv, key_id(root_keys@[0]@)) {
            assert(has_id(records@, root_key_id@));
        }
        assert(has_id(records@, records@[0].id@));
        let e0 = choose|e: int| 0 <= e < closure@.len() && key_id(#[trigger] closure@[e].0@) == records@[0].id@;
        assert(key_id(closure@[e0].0@).len() > 0);
    }
    Ok(g)
}

} // verus!
