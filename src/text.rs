use vstd::prelude::*;

verus! {

/// Relies on `<str as PartialEq>::eq`: equal exactly when the characters agree.
#[verifier::external_body]
pub(crate) fn str_eq(a: &str, b: &str) -> (r: bool)
    ensures
        r == (a@ == b@),
{
    a == b
}

/// Relies on `str::split_once` with a `char` pattern: splits around the first
/// occurrence of `c`.
#[verifier::external_body]
fn split_once_char(s: &str, c: char) -> (r: Option<(&str, &str)>)
    ensures
        r is None ==> !s@.contains(c),
        r matches Some((a, b)) ==> s@ == a@ + seq![c] + b@ && !a@.contains(c),
{
    s.split_once(c)
}

/// Relies on `str::rsplit_once` with a `char` pattern: splits around the last
/// occurrence of `c`.
#[verifier::external_body]
fn rsplit_once_char(s: &str, c: char) -> (r: Option<(&str, &str)>)
    ensures
        r is None ==> !s@.contains(c),
        r matches Some((a, b)) ==> s@ == a@ + seq![c] + b@ && !b@.contains(c),
{
    s.rsplit_once(c)
}

/// What follows the first `c` in `s`, or `s` itself when `c` does not occur.
pub open spec fn after_first(s: Seq<char>, c: char) -> Seq<char>
    decreases s.len(),
{
    if s.len() == 0 {
        s
    } else if s[0] == c {
        s.drop_first()
    } else if !s.drop_first().contains(c) {
        s
    } else {
        after_first(s.drop_first(), c)
    }
}

/// What follows the last `c` in `s`, or `s` itself when `c` does not occur.
pub open spec fn after_last(s: Seq<char>, c: char) -> Seq<char>
    decreases s.len(),
{
    if s.len() == 0 {
        s
    } else if s.last() == c {
        seq![]
    } else if !s.drop_last().contains(c) {
        s
    } else {
        after_last(s.drop_last(), c).push(s.last())
    }
}

proof fn lemma_after_first(a: Seq<char>, b: Seq<char>, c: char)
    requires
        !a.contains(c),
    ensures
        after_first(a + seq![c] + b, c) == b,
    decreases a.len(),
{
    let s = a + seq![c] + b;
    if a.len() == 0 {
        assert(s[0] == c);
        assert(s.drop_first() =~= b);
    } else {
        assert(s[0] == a[0]);
        assert(s.drop_first() =~= a.drop_first() + seq![c] + b);
        assert(s.drop_first()[a.len() - 1] == c);
        lemma_after_first(a.drop_first(), b, c);
    }
}

proof fn lemma_after_last(a: Seq<char>, b: Seq<char>, c: char)
    requires
        !b.contains(c),
    ensures
        after_last(a + seq![c] + b, c) == b,
    decreases b.len(),
{
    let s = a + seq![c] + b;
    if b.len() == 0 {
        assert(s.last() == c);
    } else {
        assert(s.last() == b.last());
        assert(s.drop_last() =~= a + seq![c] + b.drop_last());
        assert(s.drop_last()[a.len() as int] == c);
        lemma_after_last(a, b.drop_last(), c);
        assert(b.drop_last().push(b.last()) =~= b);
    }
}

/// The display name of a store id: what follows its first `-` (the hash
/// prefix removed), or the whole id.
pub fn short_name(id: &str) -> (r: &str)
    ensures
        r@ == after_first(id@, '-'),
{
    match split_once_char(id, '-') {
        Some((a, b)) => {
            proof {
                lemma_after_first(a@, b@, '-');
            }
            b
        },
        None => {
            assert(id@.len() == 0 || id@[0] != '-' || id@.contains('-'));
            proof {
                if id@.len() > 0 {
                    assert(id@[0] != '-') by {
                        if id@[0] == '-' {
                            assert(id@.contains('-'));
                        }
                    }
                    assert(!id@.drop_first().contains('-')) by {
                        if id@.drop_first().contains('-') {
                            let t = choose|t: int|
                                0 <= t < id@.drop_first().len() && id@.drop_first()[t] == '-';
                            assert(id@[t + 1] == '-');
                        }
                    }
                }
            }
            id
        },
    }
}

/// The last `/`-separated segment of a store path (the store id).
pub fn normalize_store_key(value: &str) -> (r: String)
    ensures
        r@ == after_last(value@, '/'),
{
    match rsplit_once_char(value, '/') {
        Some((a, b)) => {
            proof {
                lemma_after_last(a@, b@, '/');
            }
            b.to_owned()
        },
        None => {
            proof {
                if value@.len() > 0 {
                    assert(value@.last() != '/') by {
                        if value@.last() == '/' {
                            assert(value@.contains('/'));
                        }
                    }
                    assert(!value@.drop_last().contains('/')) by {
                        if value@.drop_last().contains('/') {
                            let t = choose|t: int|
                                0 <= t < value@.drop_last().len() && value@.drop_last()[t] == '/';
                            assert(value@[t] == '/');
                        }
                    }
                }
            }
            value.to_owned()
        },
    }
}

} // verus!
