//! Counting name tokens: posting lists of the inverted index, the hits
//! that a query scores on a name, and what the ranking of candidates means.
use vstd::prelude::*;

verus! {

/// How many times `t` occurs in the token list `ts`.
pub open spec fn count_of(ts: Seq<Seq<char>>, t: Seq<char>) -> nat
    decreases ts.len(),
{
    if ts.len() == 0 {
        0
    } else {
        count_of(ts.drop_last(), t) + if ts.last() == t {
            1nat
        } else {
            0nat
        }
    }
}

/// `c` copies of `x`.
pub open spec fn repeat(x: u32, c: nat) -> Seq<u32> {
    Seq::new(c, |k: int| x)
}

/// The posting list of token `t`: for each player in order, its index once
/// for every occurrence of `t` among that player's name tokens.
pub open spec fn postings(names: Seq<Seq<Seq<char>>>, t: Seq<char>) -> Seq<u32>
    decreases names.len(),
{
    if names.len() == 0 {
        Seq::empty()
    } else {
        postings(names.drop_last(), t) + repeat(
            (names.len() - 1) as u32,
            count_of(names.last(), t),
        )
    }
}

/// How many times `x` occurs in `s`.
pub open spec fn occurrences(s: Seq<u32>, x: u32) -> nat
    decreases s.len(),
{
    if s.len() == 0 {
        0
    } else {
        occurrences(s.drop_last(), x) + if s.last() == x {
            1nat
        } else {
            0nat
        }
    }
}

/// The posting list of `t` over `names`, followed by the entries that a
/// further player `idx` with name tokens `extra` adds.
pub open spec fn postings_with(
    names: Seq<Seq<Seq<char>>>,
    t: Seq<char>,
    idx: u32,
    extra: Seq<Seq<char>>,
) -> Seq<u32> {
    postings(names, t) + repeat(idx, count_of(extra, t))
}

/// The number of index hits that a query scores on a name: for each query
/// token, the number of times the name holds it.
pub open spec fn hits(query: Seq<Seq<char>>, name: Seq<Seq<char>>) -> nat
    decreases query.len(),
{
    if query.len() == 0 {
        0
    } else {
        hits(query.drop_last(), name) + count_of(name, query.last())
    }
}

/// Membership after a push.
pub(crate) proof fn lemma_contains_push(s: Seq<u32>, v: u32, x: u32)
    ensures
        s.push(v).contains(x) <==> (s.contains(x) || v == x),
{
    if s.contains(x) {
        let k = choose|k: int| 0 <= k < s.len() && s[k] == x;
        assert(s.push(v)[k] == x);
    }
    if v == x {
        assert(s.push(v)[s.len() as int] == x);
    }
    if s.push(v).contains(x) {
        let k = choose|k: int| 0 <= k < s.len() + 1 && s.push(v)[k] == x;
        if k < s.len() {
            assert(s[k] == x);
        }
    }
}

/// Occurrences add up over concatenation.
pub(crate) proof fn lemma_occurrences_concat(a: Seq<u32>, b: Seq<u32>, x: u32)
    ensures
        occurrences(a + b, x) == occurrences(a, x) + occurrences(b, x),
    decreases b.len(),
{
    if b.len() > 0 {
        assert((a + b).drop_last() =~= a + b.drop_last());
        lemma_occurrences_concat(a, b.drop_last(), x);
    } else {
        assert(a + b =~= a);
    }
}

/// Occurrences in a run of copies.
pub(crate) proof fn lemma_occurrences_repeat(y: u32, c: nat, x: u32)
    ensures
        occurrences(repeat(y, c), x) == if x == y {
            c
        } else {
            0
        },
    decreases c,
{
    if c > 0 {
        assert(repeat(y, c).drop_last() =~= repeat(y, (c - 1) as nat));
        lemma_occurrences_repeat(y, (c - 1) as nat, x);
    }
}

/// A value that no element equals does not occur.
pub(crate) proof fn lemma_occurrences_absent(s: Seq<u32>, x: u32)
    requires
        forall|k: int| 0 <= k < s.len() ==> s[k] != x,
    ensures
        occurrences(s, x) == 0,
    decreases s.len(),
{
    if s.len() > 0 {
        lemma_occurrences_absent(s.drop_last(), x);
    }
}

/// Occurrences in a prefix grow by one step at a time.
pub(crate) proof fn lemma_occurrences_take_step(s: Seq<u32>, k: int, x: u32)
    requires
        0 <= k < s.len(),
    ensures
        occurrences(s.take(k + 1), x) == occurrences(s.take(k), x) + if s[k] == x {
            1nat
        } else {
            0nat
        },
{
    assert(s.take(k + 1).drop_last() =~= s.take(k));
}

/// A prefix holds no more occurrences than the whole.
pub(crate) proof fn lemma_occurrences_take_le(s: Seq<u32>, k: int, x: u32)
    requires
        0 <= k <= s.len(),
    ensures
        occurrences(s.take(k), x) <= occurrences(s, x),
{
    assert(s =~= s.take(k) + s.skip(k));
    lemma_occurrences_concat(s.take(k), s.skip(k), x);
}

/// Every entry of a posting list names a player.
pub proof fn lemma_postings_in_range(names: Seq<Seq<Seq<char>>>, t: Seq<char>)
    requires
        names.len() <= u32::MAX,
    ensures
        forall|k: int| 0 <= k < postings(names, t).len() ==> #[trigger] postings(names, t)[k] < names.len(),
    decreases names.len(),
{
    if names.len() > 0 {
        lemma_postings_in_range(names.drop_last(), t);
        let p = postings(names.drop_last(), t);
        let r = repeat((names.len() - 1) as u32, count_of(names.last(), t));
        assert forall|k: int| 0 <= k < postings(names, t).len() implies #[trigger] postings(names, t)[k]
            < names.len() by {
            if k < p.len() {
                assert(postings(names, t)[k] == p[k]);
            } else {
                assert(postings(names, t)[k] == r[k - p.len()]);
            }
        }
    }
}

/// Law: the posting list of `t` names player `i` once per occurrence of `t` in
/// that player's name tokens.
pub proof fn law_postings_count_name_tokens(names: Seq<Seq<Seq<char>>>, t: Seq<char>, i: int)
    requires
        names.len() <= u32::MAX,
        0 <= i < names.len(),
    ensures
        occurrences(postings(names, t), i as u32) == count_of(names[i], t),
    decreases names.len(),
{
    let init = names.drop_last();
    let last = (names.len() - 1) as u32;
    lemma_occurrences_concat(postings(init, t), repeat(last, count_of(names.last(), t)), i as u32);
    lemma_occurrences_repeat(last, count_of(names.last(), t), i as u32);
    if i < names.len() - 1 {
        law_postings_count_name_tokens(init, t, i);
        assert(init[i] == names[i]);
    } else {
        lemma_postings_in_range(init, t);
        lemma_occurrences_absent(postings(init, t), i as u32);
    }
}

/// Hits over a query prefix grow by one query token at a time.
pub(crate) proof fn lemma_hits_take_step(query: Seq<Seq<char>>, k: int, name: Seq<Seq<char>>)
    requires
        0 <= k < query.len(),
    ensures
        hits(query.take(k + 1), name) == hits(query.take(k), name) + count_of(name, query[k]),
{
    assert(query.take(k + 1).drop_last() =~= query.take(k));
}

/// Hits over a query prefix are at most the hits of the whole query.
pub(crate) proof fn lemma_hits_take_le(query: Seq<Seq<char>>, k: int, name: Seq<Seq<char>>)
    requires
        0 <= k <= query.len(),
    ensures
        hits(query.take(k), name) <= hits(query, name),
    decreases query.len() - k,
{
    if k < query.len() {
        lemma_hits_take_step(query, k, name);
        lemma_hits_take_le(query, k + 1, name);
    } else {
        assert(query.take(k) =~= query);
    }
}

/// `r` ranks the players that share a token with `query`: each such player
/// once, no other, with non-increasing hits.
pub open spec fn ranked_by_hits(names: Seq<Seq<Seq<char>>>, query: Seq<Seq<char>>, r: Seq<u32>) -> bool {
    &&& forall|a: int, b: int| 0 <= a < b < r.len() ==> r[a] != r[b]
    &&& forall|x: u32| #[trigger]
        r.contains(x) <==> (x < names.len() && hits(query, names[x as int]) > 0)
    &&& forall|a: int, b: int|
        0 <= a < b < r.len() ==> hits(query, names[r[a] as int]) >= hits(query, names[r[b] as int])
}

/// A token is counted in a list exactly when the list holds it.
pub(crate) proof fn lemma_count_positive_iff_contains(ts: Seq<Seq<char>>, t: Seq<char>)
    ensures
        count_of(ts, t) > 0 <==> ts.contains(t),
        count_of(ts, t) <= ts.len(),
    decreases ts.len(),
{
    if ts.len() > 0 {
        let init = ts.drop_last();
        lemma_count_positive_iff_contains(init, t);
        if init.contains(t) {
            let k = choose|k: int| 0 <= k < init.len() && init[k] == t;
            assert(ts[k] == t);
        }
        if ts.last() == t {
            assert(ts[ts.len() - 1] == t);
        }
        if ts.contains(t) {
            let k = choose|k: int| 0 <= k < ts.len() && ts[k] == t;
            if k < ts.len() - 1 {
                assert(init[k] == t);
            }
        }
    }
}

/// Law: a query scores index hits on a name exactly when some query token
/// is one of the name's tokens.
pub proof fn law_hits_iff_shared_token(query: Seq<Seq<char>>, name: Seq<Seq<char>>)
    ensures
        hits(query, name) > 0 <==> exists|t: Seq<char>| query.contains(t) && name.contains(t),
    decreases query.len(),
{
    if query.len() > 0 {
        let init = query.drop_last();
        let t0 = query.last();
        law_hits_iff_shared_token(init, name);
        lemma_count_positive_iff_contains(name, t0);
        if exists|t: Seq<char>| init.contains(t) && name.contains(t) {
            let t = choose|t: Seq<char>| init.contains(t) && name.contains(t);
            let k = choose|k: int| 0 <= k < init.len() && init[k] == t;
            assert(query[k] == t);
        }
        if name.contains(t0) {
            assert(query[query.len() - 1] == t0);
        }
        if exists|t: Seq<char>| query.contains(t) && name.contains(t) {
            let t = choose|t: Seq<char>| query.contains(t) && name.contains(t);
            let k = choose|k: int| 0 <= k < query.len() && query[k] == t;
            if k < query.len() - 1 {
                assert(init[k] == t);
            }
        }
    }
}

/// Law: hits are bounded by the number of query tokens times the number
/// of name tokens.
pub proof fn law_hits_bounded(query: Seq<Seq<char>>, name: Seq<Seq<char>>)
    ensures
        hits(query, name) <= query.len() * name.len(),
    decreases query.len(),
{
    if query.len() > 0 {
        law_hits_bounded(query.drop_last(), name);
        lemma_count_positive_iff_contains(name, query.last());
        assert(query.len() * name.len() == (query.len() - 1) * name.len() + name.len()) by (nonlinear_arith);
    }
}

/// Law: the index lookup returns what a full scan would: the players that
/// share a token with the query.
pub proof fn law_lookup_is_shared_token_scan(
    names: Seq<Seq<Seq<char>>>,
    query: Seq<Seq<char>>,
    r: Seq<u32>,
    x: u32,
)
    requires
        ranked_by_hits(names, query, r),
    ensures
        r.contains(x) <==> (x < names.len() && exists|t: Seq<char>|
            query.contains(t) && names[x as int].contains(t)),
{
    if x < names.len() {
        law_hits_iff_shared_token(query, names[x as int]);
    }
}

} // verus!
