use vstd::prelude::*;
use fuzzy_matcher::FuzzyMatcher;
use crate::render::RenderGraph;
use crate::text::{after_first, short_name};

verus! {

/// The score that skim's fuzzy matcher (default settings) gives `pattern`
/// against `choice`, `None` when it does not match.
pub uninterp spec fn skim_score(choice: Seq<char>, pattern: Seq<char>) -> Option<i64>;

/// Relies on `fuzzy_matcher::skim::SkimMatcherV2::default().fuzzy_match`:
/// its result depends on the two strings alone, and an empty pattern scores 0.
#[verifier::external_body]
fn skim_match(choice: &str, pattern: &str) -> (r: Option<i64>)
    ensures
        r == skim_score(choice@, pattern@),
        pattern@.len() == 0 ==> r == Some(0i64),
{
    fuzzy_matcher::skim::SkimMatcherV2::default().fuzzy_match(choice, pattern)
}

/// ASCII letters lowered, other characters kept.
pub open spec fn ascii_lower(s: Seq<char>) -> Seq<char> {
    s.map_values(|c: char| if 'A' <= c && c <= 'Z' {
        ((c as u32) + 32) as char
    } else {
        c
    })
}

/// Relies on `str::to_ascii_lowercase`.
#[verifier::external_body]
fn to_ascii_lower(s: &str) -> (r: String)
    ensures
        r@ == ascii_lower(s@),
{
    s.to_ascii_lowercase()
}

/// Score of `query` against `text`: as given, else with both lowered.
pub open spec fn match_score(text: Seq<char>, query: Seq<char>) -> Option<i64> {
    match skim_score(text, query) {
        Some(s) => Some(s),
        None => skim_score(ascii_lower(text), ascii_lower(query)),
    }
}

pub fn fuzzy_match_score(text: &str, query: &str) -> (r: Option<i64>)
    ensures
        r == match_score(text@, query@),
{
    match skim_match(text, query) {
        Some(s) => Some(s),
        None => {
            let t = to_ascii_lower(text);
            let q = to_ascii_lower(query);
            skim_match(t.as_str(), q.as_str())
        },
    }
}

/// Positions whose score is present, in increasing order.
pub fn matched_indices(scores: &Vec<Option<i64>>) -> (r: Vec<usize>)
    ensures
        forall|a: int, b: int| 0 <= a < b < r@.len() ==> r@[a] < r@[b],
        forall|i: int| 0 <= i < scores@.len() ==> (#[trigger] scores@[i] is Some <==> r@.contains(i as usize)),
        forall|a: int| 0 <= a < r@.len() ==> (#[trigger] r@[a] as int) < scores@.len(),
{
    let mut r: Vec<usize> = Vec::new();
    let mut i: usize = 0;
    while i < scores.len()
        invariant
            i <= scores@.len(),
            forall|a: int, b: int| 0 <= a < b < r@.len() ==> r@[a] < r@[b],
            forall|a: int| 0 <= a < r@.len() ==> (#[trigger] r@[a] as int) < i,
            forall|j: int| 0 <= j < i ==> (#[trigger] scores@[j] is Some <==> r@.contains(j as usize)),
        decreases scores@.len() - i,
    {
        let ghost before = r@;
        if scores[i].is_some() {
            r.push(i);
        }
        assert forall|j: int| 0 <= j < i + 1 implies (#[trigger] scores@[j] is Some <==> r@.contains(j as usize)) by {
            if j < i && r@.contains(j as usize) && r@.len() > before.len() {
                let t = choose|t: int| 0 <= t < r@.len() && r@[t] == j as usize;
                if t == before.len() {
                    assert(r@[t] == i);
                } else {
                    assert(before[t] == j as usize);
                }
            }
            if j < i && before.contains(j as usize) {
                let t = choose|t: int| 0 <= t < before.len() && before[t] == j as usize;
                assert(r@[t] == j as usize);
            }
            if j == i && r@.contains(j as usize) && r@.len() == before.len() {
                let t = choose|t: int| 0 <= t < r@.len() && r@[t] == j as usize;
            }
            if j == i && scores@[j] is Some {
                assert(r@[r@.len() - 1] == i);
            }
        }
        i = i + 1;
    }
    r
}

/// Shown nodes whose display name matches `query`, in increasing order.
pub fn pseudo_matches(cache: &RenderGraph, query: &str) -> (r: Vec<usize>)
    ensures
        forall|a: int, b: int| 0 <= a < b < r@.len() ==> r@[a] < r@[b],
        forall|i: int|
            0 <= i < cache.ids@.len() ==> (match_score(after_first(#[trigger] cache.ids@[i]@, '-'), query@) is Some
                <==> r@.contains(i as usize)),
        forall|a: int| 0 <= a < r@.len() ==> (#[trigger] r@[a] as int) < cache.ids@.len(),
{
    let mut scores: Vec<Option<i64>> = Vec::new();
    let mut i: usize = 0;
    while i < cache.ids.len()
        invariant
            i <= cache.ids@.len(),
            scores@.len() == i,
            forall|j: int| 0 <= j < i ==> #[trigger] scores@[j] == match_score(after_first(cache.ids@[j]@, '-'), query@),
        decreases cache.ids@.len() - i,
    {
        let name = short_name(cache.ids[i].as_str());
        scores.push(fuzzy_match_score(name, query));
        i = i + 1;
    }
    let r = matched_indices(&scores);
    assert forall|i: int|
        0 <= i < cache.ids@.len() implies (match_score(after_first(#[trigger] cache.ids@[i]@, '-'), query@) is Some
            <==> r@.contains(i as usize)) by {
        assert(scores@[i] == match_score(after_first(cache.ids@[i]@, '-'), query@));
    }
    r
}

} // verus!
