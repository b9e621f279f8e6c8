//! The search index over the player list: an exact map from member id to
//! player and an inverted index from lower-cased name token to players.
use vstd::prelude::*;
use vstd::hash_map::{HashMapWithView, StringHashMap};

use crate::hits::{
    count_of, hits, lemma_contains_push, lemma_hits_take_le, lemma_hits_take_step,
    lemma_occurrences_take_le, lemma_occurrences_take_step, lemma_postings_in_range,
    law_postings_count_name_tokens, occurrences, postings, postings_with, ranked_by_hits, repeat,
};
use crate::text::{has_prefix, lowercase, split_words, starts_with, string_views, to_lowercase, words};

verus! {

/// The name tokens of a player: the words of the lower-cased name.
pub open spec fn name_tokens_of(name: Seq<char>) -> Seq<Seq<char>> {
    words(lowercase(name))
}

/// `r` lists, in increasing order, the first `limit` players (or all of
/// them, if fewer) whose member id starts with `p`.
pub open spec fn first_prefix_matches(ids: Seq<Seq<char>>, p: Seq<char>, limit: nat, r: Seq<u32>) -> bool {
    &&& r.len() <= limit
    &&& forall|k: int| 0 <= k < r.len() ==> #[trigger] r[k] < ids.len() && has_prefix(ids[r[k] as int], p)
    &&& forall|a: int, b: int| 0 <= a < b < r.len() ==> r[a] < r[b]
    &&& forall|i: int|
        0 <= i < ids.len() && #[trigger] has_prefix(ids[i], p) && (r.len() < limit || (r.len() > 0
            && i <= r.last())) ==> r.contains(i as u32)
}

/// `i` is the last player whose member id is `k`.
pub open spec fn last_with_id(ids: Seq<Seq<char>>, k: Seq<char>, i: int) -> bool {
    &&& 0 <= i < ids.len()
    &&& ids[i] == k
    &&& forall|j: int| i < j < ids.len() ==> #[trigger] ids[j] != k
}

/// Some player has member id `k`.
pub open spec fn has_id(ids: Seq<Seq<char>>, k: Seq<char>) -> bool {
    exists|i: int| 0 <= i < ids.len() && #[trigger] ids[i] == k
}

/// `r` lists, in increasing order, the players below `n` that `cands`
/// does not hold.
pub open spec fn complement_of(n: nat, cands: Seq<u32>, r: Seq<u32>) -> bool {
    &&& forall|a: int, b: int| 0 <= a < b < r.len() ==> r[a] < r[b]
    &&& forall|x: u32| #[trigger] r.contains(x) <==> (x < n && !cands.contains(x))
}

/// The hits of player `x` counted after the first `qi` query tokens and the
/// first `k` entries of the current posting list.
pub open spec fn hits_so_far(
    query: Seq<Seq<char>>,
    names: Seq<Seq<Seq<char>>>,
    qi: int,
    list: Seq<u32>,
    k: int,
    x: u32,
) -> nat {
    hits(query.take(qi), names[x as int]) + occurrences(list.take(k), x)
}

/// `cands` pairs each player below `n` with a positive count `f`, once
/// each, and `pos` finds each listed player's entry.
pub open spec fn tally(
    cands: Seq<(u32, u32)>,
    pos: Map<u32, usize>,
    n: nat,
    f: spec_fn(u32) -> nat,
) -> bool {
    &&& forall|j: int|
        0 <= j < cands.len() ==> {
            &&& (#[trigger] cands[j]).0 < n
            &&& cands[j].1 == f(cands[j].0)
            &&& cands[j].1 > 0
        }
    &&& forall|a: int, b: int| 0 <= a < b < cands.len() ==> cands[a].0 != cands[b].0
    &&& forall|x: u32|
        #[trigger] pos.contains_key(x) ==> pos[x] < cands.len() && cands[pos[x] as int].0 == x
    &&& forall|x: u32| x < n && #[trigger] f(x) > 0 ==> pos.contains_key(x)
}

/// A tally depends on its counts only below `n`.
proof fn lemma_tally_congruent(
    cands: Seq<(u32, u32)>,
    pos: Map<u32, usize>,
    n: nat,
    f: spec_fn(u32) -> nat,
    g: spec_fn(u32) -> nat,
)
    requires
        tally(cands, pos, n, f),
        forall|x: u32| x < n ==> #[trigger] f(x) == g(x),
    ensures
        tally(cands, pos, n, g),
{
    assert forall|j: int| 0 <= j < cands.len() implies cands[j].1 == g(cands[j].0) by {
        assert(f(cands[j].0) == g(cands[j].0));
    }
    assert forall|x: u32| x < n && #[trigger] g(x) > 0 implies pos.contains_key(x) by {
        assert(f(x) == g(x));
    }
}

/// Law: the players that the index returns and those left for the full
/// scan are disjoint and together are all the players.
pub proof fn law_candidates_and_rest_partition(n: nat, cands: Seq<u32>, rest: Seq<u32>, x: u32)
    requires
        complement_of(n, cands, rest),
        forall|k: int| 0 <= k < cands.len() ==> #[trigger] cands[k] < n,
    ensures
        x < n ==> (cands.contains(x) != rest.contains(x)),
        !(cands.contains(x) && rest.contains(x)),
{
}

/// Law: the player just added under a member id is the one an exact id
/// lookup finds.
pub proof fn law_added_id_is_found(ids: Seq<Seq<char>>, id: Seq<char>)
    ensures
        has_id(ids.push(id), id),
        last_with_id(ids.push(id), id, ids.len() as int),
{
    assert(ids.push(id)[ids.len() as int] == id);
}

/// Two prefix-match lists agree on their first `k` entries.
proof fn lemma_prefix_matches_agree(
    ids: Seq<Seq<char>>,
    p: Seq<char>,
    l1: nat,
    r1: Seq<u32>,
    l2: nat,
    r2: Seq<u32>,
    k: int,
)
    requires
        first_prefix_matches(ids, p, l1, r1),
        first_prefix_matches(ids, p, l2, r2),
        0 <= k <= r1.len(),
        k <= r2.len(),
    ensures
        forall|j: int| 0 <= j < k ==> r1[j] == r2[j],
    decreases k,
{
    if k > 0 {
        lemma_prefix_matches_agree(ids, p, l1, r1, l2, r2, k - 1);
        let x = k - 1;
        if r1[x] < r2[x] {
            let i = r1[x] as int;
            assert(has_prefix(ids[i], p));
            assert(r2.contains(i as u32));
            let j = choose|j: int| 0 <= j < r2.len() && r2[j] == i as u32;
            if j < x {
                assert(r1[j] == r2[j]);
                assert(r1[j] < r1[x]);
            } else if j > x {
                assert(r2[x] < r2[j]);
            }
        } else if r2[x] < r1[x] {
            let i = r2[x] as int;
            assert(has_prefix(ids[i], p));
            assert(r1.contains(i as u32));
            let j = choose|j: int| 0 <= j < r1.len() && r1[j] == i as u32;
            if j < x {
                assert(r1[j] == r2[j]);
                assert(r2[j] < r2[x]);
            } else if j > x {
                assert(r1[x] < r1[j]);
            }
        }
    }
}

/// Law: a prefix search with a smaller limit gives the start of the same
/// search with a larger limit, and is cut short only by its limit; in
/// particular the result for a given limit is unique.
pub proof fn law_prefix_matches_extend(
    ids: Seq<Seq<char>>,
    p: Seq<char>,
    l1: nat,
    r1: Seq<u32>,
    l2: nat,
    r2: Seq<u32>,
)
    requires
        first_prefix_matches(ids, p, l1, r1),
        first_prefix_matches(ids, p, l2, r2),
        l1 <= l2,
    ensures
        r1.len() <= r2.len(),
        r1 == r2.take(r1.len() as int),
        r1.len() == l1 || r1 == r2,
{
    let m = if r1.len() <= r2.len() { r1.len() } else { r2.len() };
    lemma_prefix_matches_agree(ids, p, l1, r1, l2, r2, m as int);
    if r1.len() > r2.len() {
        let i = r1[r2.len() as int] as int;
        assert(has_prefix(ids[i], p));
        assert(r2.contains(i as u32));
        let j = choose|j: int| 0 <= j < r2.len() && r2[j] == i as u32;
        assert(r1[j] == r2[j]);
        assert(r1[j] < r1[r2.len() as int]);
    }
    assert(r1 =~= r2.take(r1.len() as int));
    if r1.len() < l1 && r1.len() < r2.len() {
        let i = r2[r1.len() as int] as int;
        assert(has_prefix(ids[i], p));
        assert(r1.contains(i as u32));
        let j = choose|j: int| 0 <= j < r1.len() && r1[j] == i as u32;
        assert(r1[j] == r2[j]);
        assert(r2[j] < r2[r1.len() as int]);
    }
    if r1.len() == r2.len() {
        assert(r1 =~= r2);
    }
}

/// `slots` sends exactly the tokens with a non-empty list `f(t)` to
/// distinct places in `lists`, where `f(t)` is kept.
spec fn slots_agree(
    slots: Map<Seq<char>, usize>,
    lists: Seq<Vec<u32>>,
    f: spec_fn(Seq<char>) -> Seq<u32>,
) -> bool {
    &&& forall|t: Seq<char>| #[trigger] slots.contains_key(t) <==> f(t).len() > 0
    &&& forall|t: Seq<char>|
        #[trigger] slots.contains_key(t) ==> slots[t] < lists.len() && lists[slots[t] as int]@
            == f(t)
    &&& forall|t1: Seq<char>, t2: Seq<char>|
        #[trigger] slots.contains_key(t1) && #[trigger] slots.contains_key(t2) && slots[t1]
            == slots[t2] ==> t1 == t2
}

/// The searchable part of the player list: each player's member id and
/// name tokens, with the two lookup structures built over them.
pub struct SearchIndex {
    member_ids: Vec<String>,
    name_tokens: Vec<Vec<String>>,
    id_map: StringHashMap<u32>,
    name_index: StringHashMap<usize>,
    posting_lists: Vec<Vec<u32>>,
    max_tokens: usize,
}

impl SearchIndex {
    /// The member ids, in player order.
    pub closed spec fn ids(&self) -> Seq<Seq<char>> {
        string_views(self.member_ids@)
    }

    /// The name tokens of each player, in player order.
    pub closed spec fn names(&self) -> Seq<Seq<Seq<char>>> {
        self.name_tokens@.map_values(|v: Vec<String>| string_views(v@))
    }

    /// The number of players.
    pub open spec fn size(&self) -> nat {
        self.ids().len()
    }

    /// The id map sends every member id to the last player that holds it.
    pub closed spec fn id_map_agrees(&self) -> bool {
        let n = self.size();
        &&& forall|k: Seq<char>|
            #[trigger] self.id_map@.contains_key(k) <==> exists|i: int|
                0 <= i < n && #[trigger] self.ids()[i] == k
        &&& forall|k: Seq<char>|
            #[trigger] self.id_map@.contains_key(k) ==> {
                let v = self.id_map@[k] as int;
                &&& 0 <= v < n
                &&& self.ids()[v] == k
                &&& forall|j: int| v < j < n ==> #[trigger] self.ids()[j] != k
            }
    }

    /// The name index holds exactly the tokens that occur in some name, each
    /// with its posting list.
    pub closed spec fn name_index_agrees(&self) -> bool {
        slots_agree(self.name_index@, self.posting_lists@, |t: Seq<char>| postings(self.names(), t))
    }

    /// The invariant of the index.
    pub closed spec fn wf(&self) -> bool {
        &&& self.member_ids@.len() == self.name_tokens@.len()
        &&& self.member_ids@.len() <= u32::MAX
        &&& self.id_map_agrees()
        &&& self.name_index_agrees()
        &&& forall|i: int| 0 <= i < self.size() ==> #[trigger] self.names()[i].len() <= self.max_tokens
        &&& (self.max_tokens == 0 || exists|i: int|
            0 <= i < self.size() && #[trigger] self.names()[i].len() == self.max_tokens)
    }

    /// An index over no players.
    pub fn new() -> (res: Self)
        ensures
            res.wf(),
            res.ids() == Seq::<Seq<char>>::empty(),
            res.names() == Seq::<Seq<Seq<char>>>::empty(),
    {
        let res = SearchIndex {
            member_ids: Vec::new(),
            name_tokens: Vec::new(),
            id_map: StringHashMap::new(),
            name_index: StringHashMap::new(),
            posting_lists: Vec::new(),
            max_tokens: 0,
        };
        assert(res.ids() =~= Seq::<Seq<char>>::empty());
        assert(res.names() =~= Seq::<Seq<Seq<char>>>::empty());
        res
    }

    /// The number of players.
    pub fn len(&self) -> (res: usize)
        ensures
            res == self.size(),
    {
        self.member_ids.len()
    }

    /// The largest number of tokens in any one name.
    pub fn max_name_tokens(&self) -> (res: usize)
        requires
            self.wf(),
        ensures
            forall|i: int| 0 <= i < self.size() ==> #[trigger] self.names()[i].len() <= res,
            res == 0 || exists|i: int| 0 <= i < self.size() && #[trigger] self.names()[i].len() == res,
    {
        self.max_tokens
    }

    /// Appends a player, given by member id and display name. The name is
    /// lower-cased and split into words; each word is entered in the name
    /// index and the id is mapped to the new player.
    pub fn add_player(&mut self, member_id: String, player_name: &str)
        requires
            old(self).wf(),
            old(self).size() < u32::MAX,
        ensures
            final(self).wf(),
            final(self).ids() == old(self).ids().push(member_id@),
            final(self).names() == old(self).names().push(name_tokens_of(player_name@)),
    {
        let ghost old_names = self.names();
        let ghost old_ids = self.ids();
        let ghost n = self.size();
        let idx = self.member_ids.len() as u32;
        let lower = to_lowercase(player_name);
        let tokens = split_words(lower.as_str());
        let ghost toks = string_views(tokens@);
        assert(toks == name_tokens_of(player_name@));

        assert(self.names() == old_names);

        assert forall|t: Seq<char>| #[trigger] postings_with(old_names, t, idx, toks.take(0)) == postings(old_names, t) by {
            assert(toks.take(0) =~= Seq::<Seq<char>>::empty());
            assert(postings_with(old_names, t, idx, toks.take(0)) =~= postings(old_names, t));
        }
        let ghost mids = self.member_ids@;
        let ghost idm = self.id_map@;
        let ghost nts = self.name_tokens@;
        let ghost mt = self.max_tokens;
        assert((|t: Seq<char>| postings(old_names, t)) =~= (|t: Seq<char>|
            postings_with(old_names, t, idx, toks.take(0))));
        for j in 0..tokens.len()
            invariant
                toks == string_views(tokens@),
                self.member_ids@ == mids,
                self.id_map@ == idm,
                self.name_tokens@ == nts,
                self.max_tokens == mt,
                slots_agree(
                    self.name_index@,
                    self.posting_lists@,
                    |t: Seq<char>| postings_with(old_names, t, idx, toks.take(j as int)),
                ),
        {
            let tok = &tokens[j];
            assert(tok@ == toks[j as int]);
            let ghost before = self.name_index@;
            let ghost lists = self.posting_lists@;
            let ghost f = |t: Seq<char>| postings_with(old_names, t, idx, toks.take(j as int));
            let ghost g = |t: Seq<char>| postings_with(old_names, t, idx, toks.take(j + 1));
            proof {
                assert forall|t: Seq<char>| #[trigger] g(t) == if t == tok@ {
                    f(t).push(idx)
                } else {
                    f(t)
                } by {
                    assert(toks.take(j + 1).drop_last() =~= toks.take(j as int));
                    assert(toks.take(j + 1).last() == toks[j as int]);
                    let a = toks.take(j as int);
                    let b = toks.take(j + 1);
                    assert(count_of(b, t) == count_of(a, t) + if toks[j as int] == t {
                        1nat
                    } else {
                        0nat
                    });
                    if t == tok@ {
                        assert(repeat(idx, count_of(b, t)) =~= repeat(idx, count_of(a, t)).push(idx));
                        assert(postings_with(old_names, t, idx, b) =~= postings_with(
                            old_names,
                            t,
                            idx,
                            a,
                        ).push(idx));
                    } else {
                        assert(postings_with(old_names, t, idx, b) =~= postings_with(
                            old_names,
                            t,
                            idx,
                            a,
                        ));
                    }
                }
            }
            match self.name_index.get(tok.as_str()) {
                Some(slot) => {
                    let slot = *slot;
                    self.posting_lists[slot].push(idx);
                    proof {
                        assert forall|t: Seq<char>| #[trigger] before.contains_key(t) implies before[t]
                            < self.posting_lists@.len() && self.posting_lists@[before[t] as int]@
                            == g(t) by {
                            if t != tok@ {
                                assert(before[t] != slot);
                            }
                        }
                        assert forall|t: Seq<char>| #[trigger] before.contains_key(t) <==> g(t).len()
                            > 0 by {
                            assert(before.contains_key(t) <==> f(t).len() > 0);
                        }
                    }
                },
                None => {
                    let slot = self.posting_lists.len();
                    let mut list: Vec<u32> = Vec::new();
                    list.push(idx);
                    self.posting_lists.push(list);
                    let key = tok.clone();
                    self.name_index.insert(key, slot);
                    proof {
                        assert(f(tok@).len() == 0);
                        assert(f(tok@).push(idx) =~= seq![idx]);
                        assert forall|t: Seq<char>| #[trigger] self.name_index@.contains_key(t) implies self.name_index@[t]
                            < self.posting_lists@.len() && self.posting_lists@[self.name_index@[t] as int]@
                            == g(t) by {
                            if t != tok@ {
                                assert(before.contains_key(t));
                                assert(self.posting_lists@[before[t] as int] == lists[before[t] as int]);
                            }
                        }
                        assert forall|t: Seq<char>| #[trigger] self.name_index@.contains_key(t) <==> g(t).len()
                            > 0 by {
                            assert(before.contains_key(t) <==> f(t).len() > 0);
                        }
                        assert forall|t1: Seq<char>, t2: Seq<char>|
                            #[trigger] self.name_index@.contains_key(t1) && #[trigger] self.name_index@.contains_key(t2) && self.name_index@[t1]
                                == self.name_index@[t2] implies t1 == t2 by {
                            if t1 != tok@ && t2 != tok@ {
                                assert(before.contains_key(t1) && before.contains_key(t2));
                            } else if t1 != tok@ {
                                assert(before.contains_key(t1));
                            } else if t2 != tok@ {
                                assert(before.contains_key(t2));
                            }
                        }
                    }
                },
            }
        }
        assert(toks.take(tokens.len() as int) =~= toks);
        let key = member_id.clone();
        self.id_map.insert(key, idx);
        self.member_ids.push(member_id);
        assert(self.ids() =~= old_ids.push(member_id@));
        let count = tokens.len();
        self.name_tokens.push(tokens);
        if count > self.max_tokens {
            self.max_tokens = count;
        }
        let ghost new_names = self.names();
        assert(new_names =~= old_names.push(toks));
        assert forall|t: Seq<char>| #[trigger] postings(new_names, t) == postings_with(old_names, t, idx, toks.take(toks.len() as int)) by {
            assert(new_names.drop_last() =~= old_names);
        }
        assert((|t: Seq<char>| postings(new_names, t)) =~= (|t: Seq<char>|
            postings_with(old_names, t, idx, toks.take(toks.len() as int))));
        assert forall|k: Seq<char>| #[trigger] self.id_map@.contains_key(k) implies exists|i: int|
            0 <= i < self.size() && #[trigger] self.ids()[i] == k by {
            if k == member_id@ {
                assert(self.ids()[n as int] == k);
            } else {
                let i = choose|i: int| 0 <= i < n && #[trigger] old_ids[i] == k;
                assert(self.ids()[i] == k);
            }
        }
        assert(self.id_map_agrees());
        proof {
            assert(new_names[n as int] == toks);
            if self.max_tokens != 0 && self.max_tokens != count {
                let i = choose|i: int| 0 <= i < n && #[trigger] old_names[i].len() == self.max_tokens;
                assert(new_names[i] == old_names[i]);
            }
        }
    }

    /// The name tokens of player `i`.
    pub fn tokens_of(&self, i: usize) -> (res: &Vec<String>)
        requires
            self.wf(),
            i < self.size(),
        ensures
            string_views(res@) == self.names()[i as int],
    {
        &self.name_tokens[i]
    }

    /// The exact member-id lookup: the last player added with this id.
    pub fn lookup_id(&self, member_id: &str) -> (res: Option<u32>)
        requires
            self.wf(),
        ensures
            res is Some <==> has_id(self.ids(), member_id@),
            res matches Some(i) ==> last_with_id(self.ids(), member_id@, i as int),
    {
        match self.id_map.get(member_id) {
            Some(i) => Some(*i),
            None => None,
        }
    }

    /// The first `limit` players, in order, whose member id starts with `prefix`.
    pub fn ids_with_prefix(&self, prefix: &str, limit: usize) -> (res: Vec<u32>)
        requires
            self.wf(),
        ensures
            first_prefix_matches(self.ids(), prefix@, limit as nat, res@),
    {
        let n = self.member_ids.len();
        let mut res: Vec<u32> = Vec::new();
        let mut i: usize = 0;
        while i < n && res.len() < limit
            invariant
                self.wf(),
                n == self.size(),
                i <= n,
                res.len() <= limit,
                forall|k: int| 0 <= k < res.len() ==> #[trigger] res@[k] < i && has_prefix(
                    self.ids()[res@[k] as int],
                    prefix@,
                ),
                forall|a: int, b: int| 0 <= a < b < res.len() ==> res@[a] < res@[b],
                forall|x: int|
                    0 <= x < i && #[trigger] has_prefix(self.ids()[x], prefix@) ==> res@.contains(
                        x as u32,
                    ),
            decreases n - i,
        {
            let m = starts_with(self.member_ids[i].as_str(), prefix);
            assert(self.member_ids@[i as int]@ == self.ids()[i as int]);
            let ghost old_res = res@;
            if m {
                res.push(i as u32);
            }
            assert forall|x: int|
                0 <= x < i + 1 && #[trigger] has_prefix(self.ids()[x], prefix@) implies res@.contains(
                    x as u32,
                ) by {
                if m {
                    lemma_contains_push(old_res, i as u32, x as u32);
                }
            }
            i = i + 1;
        }
        proof {
            assert forall|x: int|
                0 <= x < self.ids().len() && #[trigger] has_prefix(self.ids()[x], prefix@) && (res.len()
                    < limit || (res.len() > 0 && x <= res@.last())) implies res@.contains(x as u32) by {
                if x >= i {
                    if res.len() < limit {
                        assert(i == n);
                    } else {
                        assert(res@.last() < i);
                    }
                }
            }
        }
        res
    }

    /// The id search of the service: the player with exactly this member id
    /// if there is one, else the first three whose id starts with it.
    pub fn search_by_id(&self, query: &str) -> (res: Vec<u32>)
        requires
            self.wf(),
        ensures
            has_id(self.ids(), query@) ==> res@.len() == 1 && last_with_id(
                self.ids(),
                query@,
                res@[0] as int,
            ),
            !has_id(self.ids(), query@) ==> first_prefix_matches(self.ids(), query@, 3, res@),
    {
        match self.lookup_id(query) {
            Some(i) => {
                let mut r: Vec<u32> = Vec::new();
                r.push(i);
                r
            },
            None => self.ids_with_prefix(query, 3),
        }
    }

    /// The players that `candidates` does not name, in increasing order:
    /// those left for a full scan after the index lookup.
    pub fn non_candidates(&self, candidates: &[u32]) -> (res: Vec<u32>)
        requires
            self.wf(),
        ensures
            complement_of(self.size(), candidates@, res@),
    {
        let n = self.member_ids.len();
        let mut seen: Vec<bool> = vec![false; n];
        for k in 0..candidates.len()
            invariant
                seen.len() == n,
                n <= u32::MAX,
                forall|x: int| 0 <= x < n ==> #[trigger] seen@[x] == candidates@.take(k as int).contains(
                    x as u32,
                ),
        {
            let c = candidates[k];
            if (c as usize) < n {
                seen.set(c as usize, true);
            }
            assert forall|x: int| 0 <= x < n implies #[trigger] seen@[x] == candidates@.take(
                k + 1,
            ).contains(x as u32) by {
                assert(candidates@.take(k + 1) =~= candidates@.take(k as int).push(c));
                lemma_contains_push(candidates@.take(k as int), c, x as u32);
            }
        }
        assert(candidates@.take(candidates.len() as int) =~= candidates@);
        let mut res: Vec<u32> = Vec::new();
        for i in 0..n
            invariant
                seen.len() == n,
                n == self.size(),
                n <= u32::MAX,
                forall|x: int| 0 <= x < n ==> #[trigger] seen@[x] == candidates@.contains(x as u32),
                forall|a: int, b: int| 0 <= a < b < res.len() ==> res@[a] < res@[b],
                forall|k: int| 0 <= k < res.len() ==> #[trigger] res@[k] < i,
                forall|x: u32| #[trigger]
                    res@.contains(x) <==> (x < i && !candidates@.contains(x)),
        {
            let ghost old_res = res@;
            if !seen[i] {
                res.push(i as u32);
            }
            assert(seen@[i as int] == candidates@.contains(i as u32));
            assert forall|x: u32| #[trigger]
                res@.contains(x) <==> (x < i + 1 && !candidates@.contains(x)) by {
                if !seen@[i as int] {
                    lemma_contains_push(old_res, i as u32, x);
                }
            }
        }
        res
    }

    /// Counts, for every player that the name index reaches from the query
    /// tokens, its hits; each such player appears once, in first-seen order.
    fn tally_hits(&self, query: &[String]) -> (cands: Vec<(u32, u32)>)
        requires
            self.wf(),
            forall|x: int|
                0 <= x < self.size() ==> #[trigger] hits(string_views(query@), self.names()[x])
                    <= i32::MAX,
        ensures
            forall|j: int|
                0 <= j < cands@.len() ==> {
                    &&& (#[trigger] cands@[j]).0 < self.size()
                    &&& cands@[j].1 == hits(string_views(query@), self.names()[cands@[j].0 as int])
                    &&& cands@[j].1 > 0
                },
            forall|a: int, b: int| 0 <= a < b < cands@.len() ==> cands@[a].0 != cands@[b].0,
            forall|x: u32|
                x < self.size() && #[trigger] hits(string_views(query@), self.names()[x as int]) > 0
                    ==> exists|j: int| 0 <= j < cands@.len() && #[trigger] cands@[j].0 == x,
    {
        broadcast use vstd::std_specs::hash::group_hash_axioms;

        let ghost qv = string_views(query@);
        let ghost names = self.names();
        let ghost n = self.size();
        let mut cands: Vec<(u32, u32)> = Vec::new();
        let mut pos: HashMapWithView<u32, usize> = HashMapWithView::new();
        assert forall|x: u32| #[trigger] hits(qv.take(0), names[x as int]) == 0 by {
            assert(qv.take(0) =~= Seq::<Seq<char>>::empty());
        }
        for qi in 0..query.len()
            invariant
                self.wf(),
                qv == string_views(query@),
                names == self.names(),
                n == self.size(),
                names.len() == n,
                forall|x: int| 0 <= x < n ==> #[trigger] hits(qv, names[x]) <= i32::MAX,
                tally(cands@, pos@, n, |x: u32| hits(qv.take(qi as int), names[x as int])),
        {
            let ghost f0 = |x: u32| hits(qv.take(qi as int), names[x as int]);
            let tok = query[qi].as_str();
            assert(tok@ == qv[qi as int]);
            match self.name_index.get(tok) {
                Some(slot) => {
                    let list = &self.posting_lists[*slot];
                    let ghost ls = list@;
                    assert(ls == postings(names, qv[qi as int]));
                    proof {
                        lemma_postings_in_range(names, qv[qi as int]);
                        assert(ls.take(0) =~= Seq::<u32>::empty());
                        lemma_tally_congruent(
                            cands@,
                            pos@,
                            n,
                            |x: u32| hits(qv.take(qi as int), names[x as int]),
                            |x: u32| hits_so_far(qv, names, qi as int, ls, 0, x),
                        );
                    }
                    for k in 0..list.len()
                        invariant
                            list@ == ls,
                            ls == postings(names, qv[qi as int]),
                            forall|m: int| 0 <= m < ls.len() ==> #[trigger] ls[m] < n,
                            n == self.size(),
                            names == self.names(),
                            names.len() == n,
                            n <= u32::MAX,
                            0 <= qi < qv.len(),
                            forall|x: int| 0 <= x < n ==> #[trigger] hits(qv, names[x]) <= i32::MAX,
                            tally(
                                cands@,
                                pos@,
                                n,
                                |x: u32| hits_so_far(qv, names, qi as int, ls, k as int, x),
                            ),
                    {
                        let idx = list[k];
                        let ghost fk = |x: u32| hits_so_far(qv, names, qi as int, ls, k as int, x);
                        let ghost fk1 = |x: u32| hits_so_far(qv, names, qi as int, ls, k + 1, x);
                        proof {
                            assert forall|x: u32| #[trigger] fk1(x) == fk(x) + if ls[k as int] == x {
                                1nat
                            } else {
                                0nat
                            } by {
                                lemma_occurrences_take_step(ls, k as int, x);
                            }
                            lemma_occurrences_take_le(ls, k + 1, idx);
                            law_postings_count_name_tokens(names, qv[qi as int], idx as int);
                            lemma_hits_take_step(qv, qi as int, names[idx as int]);
                            lemma_hits_take_le(qv, qi + 1, names[idx as int]);
                            assert(fk1(idx) <= i32::MAX);
                        }
                        let ghost old_cands = cands@;
                        match pos.get(&idx) {
                            Some(p) => {
                                let p = *p;
                                let (who, c) = cands[p];
                                cands.set(p, (who, c + 1));
                                assert forall|a: int, b: int|
                                    0 <= a < b < cands@.len() implies cands@[a].0 != cands@[b].0 by {
                                    assert(old_cands[a].0 != old_cands[b].0);
                                }
                            },
                            None => {
                                let len = cands.len();
                                pos.insert(idx, len);
                                cands.push((idx, 1));
                                assert(fk(idx) == 0);
                                assert forall|a: int, b: int|
                                    0 <= a < b < cands@.len() implies cands@[a].0 != cands@[b].0 by {
                                    if b == len {
                                        if old_cands[a].0 == idx {
                                            assert(fk(idx) > 0);
                                        }
                                    } else {
                                        assert(old_cands[a].0 != old_cands[b].0);
                                    }
                                }
                            },
                        }
                        assert(tally(cands@, pos@, n, fk1));
                    }
                    proof {
                        assert(ls.take(ls.len() as int) =~= ls);
                        assert forall|x: u32| x < n implies #[trigger] hits(qv.take(qi + 1), names[x as int])
                            == hits_so_far(qv, names, qi as int, ls, ls.len() as int, x) by {
                            lemma_hits_take_step(qv, qi as int, names[x as int]);
                            law_postings_count_name_tokens(names, qv[qi as int], x as int);
                        }
                        lemma_tally_congruent(
                            cands@,
                            pos@,
                            n,
                            |x: u32| hits_so_far(qv, names, qi as int, ls, ls.len() as int, x),
                            |x: u32| hits(qv.take(qi + 1), names[x as int]),
                        );
                    }
                },
                None => {
                    proof {
                        assert forall|x: u32| x < n implies #[trigger] hits(qv.take(qi + 1), names[x as int])
                            == hits(qv.take(qi as int), names[x as int]) by {
                            lemma_hits_take_step(qv, qi as int, names[x as int]);
                            law_postings_count_name_tokens(names, qv[qi as int], x as int);
                        }
                        lemma_tally_congruent(
                            cands@,
                            pos@,
                            n,
                            |x: u32| hits(qv.take(qi as int), names[x as int]),
                            |x: u32| hits(qv.take(qi + 1), names[x as int]),
                        );
                    }
                },
            }
            assert(tally(cands@, pos@, n, |x: u32| hits(qv.take(qi + 1), names[x as int])));
        }
        assert(qv.take(query.len() as int) =~= qv);
        proof {
            lemma_tally_congruent(
                cands@,
                pos@,
                n,
                |x: u32| hits(qv.take(query.len() as int), names[x as int]),
                |x: u32| hits(qv, names[x as int]),
            );
            assert forall|x: u32|
                x < n && #[trigger] hits(qv, names[x as int]) > 0 implies exists|j: int|
                0 <= j < cands@.len() && #[trigger] cands@[j].0 == x by {
                let g = |y: u32| hits(qv, names[y as int]);
                assert(g(x) > 0);
                assert(pos@.contains_key(x));
                assert(cands@[pos@[x] as int].0 == x);
            }
        }
        cands
    }

    /// The inverted-index lookup for a tokenized name query: the players
    /// that hold at least one query token, most hits first.
    pub fn name_lookup(&self, query: &[String]) -> (res: Vec<u32>)
        requires
            self.wf(),
            forall|x: int|
                0 <= x < self.size() ==> #[trigger] hits(string_views(query@), self.names()[x])
                    <= i32::MAX,
        ensures
            ranked_by_hits(self.names(), string_views(query@), res@),
    {
        let cands = self.tally_hits(query);
        let ghost qv = string_views(query@);
        let ghost names = self.names();
        let ghost n = self.size();
        let mut res: Vec<u32> = Vec::new();
        let mut level: u32 = u32::MAX;
        loop
            invariant
                qv == string_views(query@),
                names == self.names(),
                n == self.size(),
                names.len() == n,
                forall|j: int|
                    0 <= j < cands@.len() ==> {
                        &&& (#[trigger] cands@[j]).0 < n
                        &&& cands@[j].1 == hits(qv, names[cands@[j].0 as int])
                        &&& cands@[j].1 > 0
                    },
                forall|a: int, b: int| 0 <= a < b < cands@.len() ==> cands@[a].0 != cands@[b].0,
                forall|x: u32|
                    x < n && #[trigger] hits(qv, names[x as int]) > 0 ==> exists|j: int|
                        0 <= j < cands@.len() && #[trigger] cands@[j].0 == x,
                level >= 1,
                forall|a: int, b: int| 0 <= a < b < res@.len() ==> res@[a] != res@[b],
                forall|x: u32|
                    #[trigger] res@.contains(x) <==> exists|j: int|
                        0 <= j < cands@.len() && #[trigger] cands@[j].0 == x && cands@[j].1 >= level,
                forall|k: int| 0 <= k < res@.len() ==> hits(qv, names[#[trigger] res@[k] as int]) >= level,
                forall|a: int, b: int|
                    0 <= a < b < res@.len() ==> hits(qv, names[res@[a] as int]) >= hits(
                        qv,
                        names[res@[b] as int],
                    ),
            ensures
                ranked_by_hits(names, qv, res@),
            decreases level,
        {
            let mut best: u32 = 0;
            for j in 0..cands.len()
                invariant
                    level >= 1,
                    best < level,
                    forall|j2: int| 0 <= j2 < j ==> #[trigger] cands@[j2].1 < level ==> cands@[j2].1 <= best,
            {
                let c = cands[j].1;
                if c < level && c > best {
                    best = c;
                }
            }
            if best == 0 {
                proof {
                    assert forall|x: u32| #[trigger]
                        res@.contains(x) <==> (x < names.len() && hits(qv, names[x as int]) > 0) by {
                        if x < names.len() && hits(qv, names[x as int]) > 0 {
                            let j = choose|j: int| 0 <= j < cands@.len() && #[trigger] cands@[j].0 == x;
                            assert(cands@[j].1 >= level);
                        }
                    }
                }
                break;
            }
            let ghost old_res = res@;
            for j in 0..cands.len()
                invariant
                    level >= 1,
                    0 < best < level,
                    forall|j2: int| 0 <= j2 < cands@.len() ==> #[trigger] cands@[j2].1 < level ==> cands@[j2].1 <= best,
                    forall|j2: int|
                        0 <= j2 < cands@.len() ==> {
                            &&& (#[trigger] cands@[j2]).0 < n
                            &&& cands@[j2].1 == hits(qv, names[cands@[j2].0 as int])
                            &&& cands@[j2].1 > 0
                        },
                    forall|a: int, b: int| 0 <= a < b < cands@.len() ==> cands@[a].0 != cands@[b].0,
                    forall|a: int, b: int| 0 <= a < b < res@.len() ==> res@[a] != res@[b],
                    forall|x: u32|
                        #[trigger] res@.contains(x) <==> (exists|j2: int|
                            0 <= j2 < cands@.len() && #[trigger] cands@[j2].0 == x && cands@[j2].1
                                >= level) || (exists|j2: int|
                            0 <= j2 < j && #[trigger] cands@[j2].0 == x && cands@[j2].1 == best),
                    forall|k: int| 0 <= k < res@.len() ==> hits(qv, names[#[trigger] res@[k] as int]) >= best,
                    forall|a: int, b: int|
                        0 <= a < b < res@.len() ==> hits(qv, names[res@[a] as int]) >= hits(
                            qv,
                            names[res@[b] as int],
                        ),
            {
                let (who, c) = cands[j];
                let ghost before = res@;
                if c == best {
                    proof {
                        if before.contains(who) {
                            if exists|j2: int|
                                0 <= j2 < cands@.len() && #[trigger] cands@[j2].0 == who && cands@[j2].1
                                    >= level {
                                let j2 = choose|j2: int|
                                    0 <= j2 < cands@.len() && #[trigger] cands@[j2].0 == who
                                        && cands@[j2].1 >= level;
                                assert(j2 != j);
                            } else {
                                let j2 = choose|j2: int|
                                    0 <= j2 < j && #[trigger] cands@[j2].0 == who && cands@[j2].1
                                        == best;
                                assert(j2 != j);
                            }
                        }
                    }
                    res.push(who);
                    proof {
                        assert forall|a: int, b: int| 0 <= a < b < res@.len() implies res@[a]
                            != res@[b] by {
                            if b == before.len() {
                                assert(before.contains(before[a]));
                            }
                        }
                        assert forall|x: u32| #[trigger] res@.contains(x) <==> (exists|j2: int|
                            0 <= j2 < cands@.len() && #[trigger] cands@[j2].0 == x && cands@[j2].1
                                >= level) || (exists|j2: int|
                            0 <= j2 < j + 1 && #[trigger] cands@[j2].0 == x && cands@[j2].1
                                == best) by {
                            lemma_contains_push(before, who, x);
                            if x == who {
                                assert(cands@[j as int].0 == x);
                            }
                        }
                    }
                }
            }
            proof {
                assert forall|x: u32| #[trigger] res@.contains(x) <==> exists|j: int|
                    0 <= j < cands@.len() && #[trigger] cands@[j].0 == x && cands@[j].1 >= best by {
                    if exists|j: int|
                        0 <= j < cands@.len() && #[trigger] cands@[j].0 == x && cands@[j].1 >= best {
                        let j = choose|j: int|
                            0 <= j < cands@.len() && #[trigger] cands@[j].0 == x && cands@[j].1 >= best;
                        if cands@[j].1 < level {
                            assert(cands@[j].1 <= best);
                        }
                    }
                }
            }
            level = best;
        }
        res
    }
}

} // verus!
