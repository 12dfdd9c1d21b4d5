//! The library's cross-cutting guarantees, stated and proved over the same
//! spec functions the search contracts use.

use vstd::prelude::*;
use vstd::set_lib::lemma_len_subset;
use vstd::set_lib::lemma_subset_equality;

use crate::index::Index;
use crate::index::Posting;
use crate::index::ids_as_ints;
use crate::index::matching_ids;
use crate::index::lemma_matching_ids_props;
use crate::search::fuzzy_from;
use crate::search::fuzzy_result;
use crate::search::passes_gates;
use crate::search::with_new_ids;
use crate::search::lemma_with_new_ids_elems;
use crate::search::lemma_with_new_ids_no_dup;
use crate::text::is_substring;
use crate::text::lemma_substring_refl;

verus! {

/// Whether the fuzzy scan treats `key` as a match for `word`: the key
/// passes the gates and contains the query.
pub open spec fn token_matches(key: Seq<char>, word: Seq<char>) -> bool {
    passes_gates(key, word) && is_substring(key, word)
}

/// Every position that any matching token's posting list mentions, scanning
/// the table from entry `j` on.
pub open spec fn match_set(postings: Seq<Posting>, word: Seq<char>, j: int) -> Set<i16>
    decreases postings.len() - j,
{
    if j < 0 || j >= postings.len() {
        Set::empty()
    } else {
        let rest = match_set(postings, word, j + 1);
        if token_matches(postings[j].token@, word) {
            postings[j].ids@.to_set().union(rest)
        } else {
            rest
        }
    }
}

proof fn lemma_match_set_finite(postings: Seq<Posting>, word: Seq<char>, j: int)
    ensures
        match_set(postings, word, j).finite(),
    decreases postings.len() - j,
{
    broadcast use vstd::seq_lib::seq_to_set_is_finite;

    if j < 0 || j >= postings.len() {
    } else {
        lemma_match_set_finite(postings, word, j + 1);
    }
}

/// A matching entry's whole posting list lies inside the match set scanned
/// from any earlier position.
proof fn lemma_match_set_covers(postings: Seq<Posting>, word: Seq<char>, j0: int, j: int)
    requires
        0 <= j0 <= j < postings.len(),
        token_matches(postings[j].token@, word),
    ensures
        forall|x: i16|
            #[trigger] postings[j].ids@.contains(x) ==> match_set(postings, word, j0).contains(x),
    decreases j - j0,
{
    if j0 == j {
        assert forall|x: i16| #[trigger] postings[j].ids@.contains(x) implies match_set(
            postings,
            word,
            j0,
        ).contains(x) by {
            assert(postings[j].ids@.to_set().contains(x));
        }
    } else {
        lemma_match_set_covers(postings, word, j0 + 1, j);
    }
}

/// The inductive heart of the completeness law: once some later entry
/// carries exactly the query with `target` in its posting list, the scan
/// returns `target` — the early exit can only fire after the accumulator
/// already holds every matching position.
proof fn lemma_fuzzy_from_complete(
    postings: Seq<Posting>,
    word: Seq<char>,
    limit: int,
    j: int,
    acc: Seq<i16>,
    target: i16,
    jstar: int,
)
    requires
        0 <= j <= jstar < postings.len(),
        postings[jstar].token@ == word,
        postings[jstar].ids@.contains(target),
        word.len() > 0,
        acc.no_duplicates(),
        forall|x: i16| #[trigger] acc.contains(x) ==> match_set(postings, word, 0).contains(x),
        limit >= match_set(postings, word, 0).len(),
        forall|j1: int, j2: int|
            0 <= j1 < j2 < postings.len() ==> (#[trigger] postings[j1].token@) != (
            #[trigger] postings[j2].token@),
    ensures
        fuzzy_from(postings, word, limit, j, acc).contains(target),
    decreases postings.len() - j,
{
    lemma_match_set_finite(postings, word, 0);
    assert(token_matches(postings[jstar].token@, word)) by {
        lemma_substring_refl(word);
    }
    lemma_match_set_covers(postings, word, 0, jstar);
    assert(match_set(postings, word, 0).contains(target));
    let full = match_set(postings, word, 0);
    if acc.len() >= limit {
        acc.unique_seq_to_set();
        assert(acc.to_set().subset_of(full));
        lemma_len_subset(acc.to_set(), full);
        assert(acc.to_set().len() == full.len());
        lemma_subset_equality(acc.to_set(), full);
        assert(acc.to_set().contains(target));
        assert(fuzzy_from(postings, word, limit, j, acc) == acc);
    } else {
        let key = postings[j].token@;
        let ids = postings[j].ids@;
        if j == jstar {
            assert(passes_gates(key, word));
            assert(fuzzy_from(postings, word, limit, j, acc) == ids);
        } else {
            assert(key != word);
            if !passes_gates(key, word) {
                lemma_fuzzy_from_complete(postings, word, limit, j + 1, acc, target, jstar);
            } else if !is_substring(key, word) {
                lemma_fuzzy_from_complete(postings, word, limit, j + 1, acc, target, jstar);
            } else {
                let acc2 = with_new_ids(acc, ids);
                lemma_with_new_ids_no_dup(acc, ids);
                lemma_with_new_ids_elems(acc, ids);
                lemma_match_set_covers(postings, word, 0, j);
                assert forall|x: i16| #[trigger] acc2.contains(x) implies full.contains(x) by {
                    assert(acc.contains(x) || ids.contains(x));
                }
                lemma_fuzzy_from_complete(postings, word, limit, j + 1, acc2, target, jstar);
            }
        }
    }
}

/// Completeness of the fuzzy scan: a token that occurs verbatim in some
/// record's fields finds that record, whenever the limit is at least the
/// number of positions all matching tokens together can contribute. The
/// empty token is the one exception: the scan's non-empty-query gate skips
/// every key, so an empty query finds nothing.
pub proof fn lemma_fuzzy_finds_indexed_token(index: Index, t: Seq<char>, i: int, limit: int)
    requires
        index.wf(),
        t.len() > 0,
        0 <= i < index.store().len(),
        index.store()[i].has_token(t),
        limit >= match_set(index.table(), t, 0).len(),
    ensures
        fuzzy_result(index, t, limit).contains(i as i16),
{
    let n = index.store().len() as int;
    let w = choose|w: int|
        0 <= w < index.store()[i].tokens().len() && index.store()[i].tokens()[w] == t;
    assert(index.has_entry(index.store()[i].tokens()[w]));
    let jstar = choose|j: int|
        0 <= j < index.table().len() && index.table()[j].token@ == t;
    assert(ids_as_ints(#[trigger] index.table()[jstar].ids@) == matching_ids(
        index.store(),
        t,
        n,
    ));
    lemma_matching_ids_props(index.store(), t, n);
    let ints = ids_as_ints(index.table()[jstar].ids@);
    assert(ints.contains(i));
    let k = choose|k: int| 0 <= k < ints.len() && ints[k] == i;
    assert(index.table()[jstar].ids@[k] as int == i);
    assert(index.table()[jstar].ids@.contains(i as i16)) by {
        assert(index.table()[jstar].ids@[k] == i as i16);
    }
    assert(Seq::<i16>::empty().no_duplicates());
    lemma_fuzzy_from_complete(index.table(), t, limit, 0, Seq::empty(), i as i16, jstar);
}

proof fn lemma_fuzzy_from_empty(index: Index, word: Seq<char>, limit: int, j: int, acc: Seq<i16>)
    requires
        index.wf(),
        limit >= 1,
        0 <= j,
        fuzzy_from(index.table(), word, limit, j, acc).len() == 0,
    ensures
        acc.len() == 0,
        forall|j2: int|
            j <= j2 < index.table().len() ==> !token_matches(
                #[trigger] index.table()[j2].token@,
                word,
            ),
    decreases index.table().len() - j,
{
    let postings = index.table();
    if j >= postings.len() {
    } else if acc.len() >= limit {
        assert(fuzzy_from(postings, word, limit, j, acc) == acc);
        assert(false);
    } else {
        let key = postings[j].token@;
        let ids = postings[j].ids@;
        if !passes_gates(key, word) {
            lemma_fuzzy_from_empty(index, word, limit, j + 1, acc);
        } else if key == word {
            assert(fuzzy_from(postings, word, limit, j, acc) == ids);
            assert(ids.len() > 0);
            assert(false);
        } else if !is_substring(key, word) {
            lemma_fuzzy_from_empty(index, word, limit, j + 1, acc);
        } else {
            let acc2 = with_new_ids(acc, ids);
            lemma_fuzzy_from_empty(index, word, limit, j + 1, acc2);
            lemma_with_new_ids_elems(acc, ids);
            assert(ids.len() > 0);
            assert(ids.contains(ids[0])) by {
                assert(ids[0] == ids[0]);
            }
            assert(acc2.contains(ids[0]));
            assert(acc2.len() > 0);
            assert(false);
        }
    }
}

/// The early exit never fires while the accumulator is empty: with a
/// positive limit, an empty fuzzy result is a genuine miss — no table token
/// passes the gates and the containment test at all.
pub proof fn lemma_fuzzy_empty_is_genuine(index: Index, word: Seq<char>, limit: int)
    requires
        index.wf(),
        limit >= 1,
        fuzzy_result(index, word, limit).len() == 0,
    ensures
        forall|j: int|
            0 <= j < index.table().len() ==> !token_matches(
                #[trigger] index.table()[j].token@,
                word,
            ),
{
    lemma_fuzzy_from_empty(index, word, limit, 0, Seq::empty());
}

/// The posting list recorded for token `t`, as record positions; empty when
/// the table has no entry for `t`.
pub open spec fn token_ids(index: Index, t: Seq<char>) -> Seq<int> {
    if exists|j: int| 0 <= j < index.table().len() && index.table()[j].token@ == t {
        let j = choose|j: int| 0 <= j < index.table().len() && index.table()[j].token@ == t;
        ids_as_ints(index.table()[j].ids@)
    } else {
        Seq::empty()
    }
}

/// Index construction is determined by the record store alone: any two
/// well-formed indexes over the same records carry the same posting list
/// for every token, so rebuilding from the same store reproduces every
/// posting list exactly.
pub proof fn lemma_index_determined(a: Index, b: Index, t: Seq<char>)
    requires
        a.wf(),
        b.wf(),
        a.store() == b.store(),
    ensures
        token_ids(a, t) == token_ids(b, t),
{
    let n = a.store().len() as int;
    lemma_matching_ids_props(a.store(), t, n);
    if exists|j: int| 0 <= j < a.table().len() && a.table()[j].token@ == t {
        let ja = choose|j: int| 0 <= j < a.table().len() && a.table()[j].token@ == t;
        assert(ids_as_ints(#[trigger] a.table()[ja].ids@) == matching_ids(a.store(), t, n));
        assert(a.table()[ja].ids@.len() > 0);
        assert(matching_ids(a.store(), t, n).len() > 0);
        let x = matching_ids(a.store(), t, n)[0];
        assert(matching_ids(a.store(), t, n).contains(x));
        assert(a.store()[x].has_token(t));
        let w = choose|w: int|
            0 <= w < b.store()[x].tokens().len() && b.store()[x].tokens()[w] == t;
        assert(b.has_entry(b.store()[x].tokens()[w]));
        let jb = choose|j: int| 0 <= j < b.table().len() && b.table()[j].token@ == t;
        assert(ids_as_ints(#[trigger] b.table()[jb].ids@) == matching_ids(b.store(), t, n));
    } else {
        if exists|j: int| 0 <= j < b.table().len() && b.table()[j].token@ == t {
            let jb = choose|j: int| 0 <= j < b.table().len() && b.table()[j].token@ == t;
            assert(ids_as_ints(#[trigger] b.table()[jb].ids@) == matching_ids(b.store(), t, n));
            assert(b.table()[jb].ids@.len() > 0);
            assert(matching_ids(b.store(), t, n).len() > 0);
            let x = matching_ids(b.store(), t, n)[0];
            assert(matching_ids(b.store(), t, n).contains(x));
            assert(b.store()[x].has_token(t));
            let w = choose|w: int|
                0 <= w < a.store()[x].tokens().len() && a.store()[x].tokens()[w] == t;
            assert(a.has_entry(a.store()[x].tokens()[w]));
            assert(false);
        }
    }
}

} // verus!

