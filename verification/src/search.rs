//! Heuristic ("fuzzy") lookup and the combined entry point.
//!
//! The fuzzy scan walks the token table in its stored (first-occurrence)
//! order. Before each token it stops early once the accumulator already
//! holds `limit` positions; a token is skipped unless both it and the query
//! are non-empty, they start with the same character, and the token is at
//! least as long; a token equal to the query short-circuits, returning its
//! whole posting list and discarding the accumulator; otherwise a token
//! containing the query contributes the not-yet-seen positions of its
//! posting list.

use vstd::prelude::*;

use crate::index::Index;
use crate::index::Posting;
use crate::index::Record;
use crate::index::ids_as_ints;
use crate::index::matching_ids;
use crate::index::lemma_matching_ids_props;
use crate::text::contains_substring;
use crate::text::is_substring;
use crate::text::str_eq;

verus! {

/// The gates of the fuzzy scan: both strings non-empty, equal first
/// characters, and the key at least as long as the query.
pub open spec fn passes_gates(key: Seq<char>, word: Seq<char>) -> bool {
    key.len() > 0 && word.len() > 0 && key[0] == word[0] && key.len() >= word.len()
}

/// One token's contribution: each posting id not yet accumulated is
/// appended, in posting-list order.
pub open spec fn with_new_ids(acc: Seq<i16>, ids: Seq<i16>) -> Seq<i16>
    decreases ids.len(),
{
    if ids.len() == 0 {
        acc
    } else {
        let acc2 = if acc.contains(ids[0]) {
            acc
        } else {
            acc.push(ids[0])
        };
        with_new_ids(acc2, ids.drop_first())
    }
}

/// The fuzzy scan from table position `j` onward with accumulator `acc`.
pub open spec fn fuzzy_from(
    postings: Seq<Posting>,
    word: Seq<char>,
    limit: int,
    j: int,
    acc: Seq<i16>,
) -> Seq<i16>
    decreases postings.len() - j,
{
    if j < 0 || j >= postings.len() || acc.len() >= limit {
        acc
    } else {
        let key = postings[j].token@;
        let ids = postings[j].ids@;
        if !passes_gates(key, word) {
            fuzzy_from(postings, word, limit, j + 1, acc)
        } else if key == word {
            ids
        } else if !is_substring(key, word) {
            fuzzy_from(postings, word, limit, j + 1, acc)
        } else {
            fuzzy_from(postings, word, limit, j + 1, with_new_ids(acc, ids))
        }
    }
}

/// The record positions the whole fuzzy scan returns.
pub open spec fn fuzzy_result(index: Index, word: Seq<char>, limit: int) -> Seq<i16> {
    fuzzy_from(index.table(), word, limit, 0, Seq::empty())
}

pub(crate) proof fn lemma_push_contains(s: Seq<i16>, x: i16, y: i16)
    ensures
        s.push(x).contains(y) <==> (s.contains(y) || x == y),
{
    if s.contains(y) {
        let k = choose|k: int| 0 <= k < s.len() && s[k] == y;
        assert(s.push(x)[k] == y);
    }
    if x == y {
        assert(s.push(x)[s.len() as int] == y);
    }
    if s.push(x).contains(y) {
        let k = choose|k: int| 0 <= k < s.push(x).len() && s.push(x)[k] == y;
        if k < s.len() {
            assert(s[k] == y);
        }
    }
}

proof fn lemma_drop_first_contains(s: Seq<i16>, x: i16)
    requires
        s.len() > 0,
    ensures
        s.drop_first().contains(x) ==> s.contains(x),
{
    if s.drop_first().contains(x) {
        let k = choose|k: int| 0 <= k < s.drop_first().len() && s.drop_first()[k] == x;
        assert(s[k + 1] == x);
    }
}

/// What `with_new_ids` holds: everything already accumulated, everything in
/// the processed posting list, and nothing else.
pub(crate) proof fn lemma_with_new_ids_elems(acc: Seq<i16>, ids: Seq<i16>)
    ensures
        forall|x: i16|
            #[trigger] with_new_ids(acc, ids).contains(x) <==> (acc.contains(x) || ids.contains(
                x,
            )),
    decreases ids.len(),
{
    if ids.len() == 0 {
    } else {
        let acc2 = if acc.contains(ids[0]) {
            acc
        } else {
            acc.push(ids[0])
        };
        lemma_with_new_ids_elems(acc2, ids.drop_first());
        assert(with_new_ids(acc, ids) == with_new_ids(acc2, ids.drop_first()));
        assert(ids.contains(ids[0])) by {
            assert(ids[0] == ids[0]);
        }
        assert forall|x: i16| #[trigger] with_new_ids(acc, ids).contains(x) implies (acc.contains(
            x,
        ) || ids.contains(x)) by {
            assert(with_new_ids(acc2, ids.drop_first()).contains(x));
            lemma_push_contains(acc, ids[0], x);
            lemma_drop_first_contains(ids, x);
        }
        assert forall|x: i16| (acc.contains(x) || ids.contains(x)) implies #[trigger] with_new_ids(
            acc,
            ids,
        ).contains(x) by {
            lemma_push_contains(acc, ids[0], x);
            if acc.contains(x) {
                assert(acc2.contains(x));
                assert(with_new_ids(acc2, ids.drop_first()).contains(x));
            } else {
                let k = choose|k: int| 0 <= k < ids.len() && ids[k] == x;
                if k == 0 {
                    assert(acc2.contains(x));
                } else {
                    assert(ids.drop_first()[k - 1] == x);
                    assert(ids.drop_first().contains(x));
                }
                assert(with_new_ids(acc2, ids.drop_first()).contains(x));
            }
        }
    }
}

/// `with_new_ids` never introduces a duplicate.
pub(crate) proof fn lemma_with_new_ids_no_dup(acc: Seq<i16>, ids: Seq<i16>)
    requires
        acc.no_duplicates(),
    ensures
        with_new_ids(acc, ids).no_duplicates(),
    decreases ids.len(),
{
    if ids.len() == 0 {
    } else {
        if acc.contains(ids[0]) {
            lemma_with_new_ids_no_dup(acc, ids.drop_first());
        } else {
            let acc2 = acc.push(ids[0]);
            assert(acc2.no_duplicates()) by {
                assert(forall|a: int|
                    0 <= a < acc.len() ==> acc.contains(#[trigger] acc[a]));
            }
            lemma_with_new_ids_no_dup(acc2, ids.drop_first());
        }
    }
}

/// What the index's shape gives each posting list: distinct positions, all
/// inside the store.
pub(crate) proof fn lemma_wf_postings(index: Index)
    requires
        index.wf(),
    ensures
        forall|j: int|
            0 <= j < index.table().len() ==> (#[trigger] index.table()[j].ids@).no_duplicates(),
        forall|j: int, k: int|
            0 <= j < index.table().len() && 0 <= k < index.table()[j].ids@.len() ==> 0 <= (
            #[trigger] index.table()[j].ids@[k]) < index.store().len(),
{
    let n = index.store().len() as int;
    assert forall|j: int| 0 <= j < index.table().len() implies (
    #[trigger] index.table()[j].ids@).no_duplicates() by {
        let ids = index.table()[j].ids@;
        let ints = ids_as_ints(ids);
        assert(ints == matching_ids(index.store(), index.table()[j].token@, n));
        lemma_matching_ids_props(index.store(), index.table()[j].token@, n);
        assert forall|a: int, b: int| 0 <= a < b < ids.len() implies ids[a] != ids[b] by {
            assert(ints[a] == ids[a] as int);
            assert(ints[b] == ids[b] as int);
            assert(ints[a] < ints[b]);
        }
        assert(ids.no_duplicates());
    }
    assert forall|j: int, k: int|
        0 <= j < index.table().len() && 0 <= k < index.table()[j].ids@.len() implies 0 <= (
    #[trigger] index.table()[j].ids@[k]) < index.store().len() by {
        let ids = index.table()[j].ids@;
        let ints = ids_as_ints(ids);
        assert(ints == matching_ids(index.store(), index.table()[j].token@, n));
        lemma_matching_ids_props(index.store(), index.table()[j].token@, n);
        assert(ints[k] == ids[k] as int);
        assert(ints.contains(ints[k]));
    }
}

/// The fuzzy scan returns distinct positions, all inside the store.
proof fn lemma_fuzzy_from_sound(
    index: Index,
    word: Seq<char>,
    limit: int,
    j: int,
    acc: Seq<i16>,
)
    requires
        index.wf(),
        acc.no_duplicates(),
        forall|x: i16| #[trigger] acc.contains(x) ==> 0 <= x < index.store().len(),
    ensures
        fuzzy_from(index.table(), word, limit, j, acc).no_duplicates(),
        forall|x: i16|
            #[trigger] fuzzy_from(index.table(), word, limit, j, acc).contains(x) ==> 0 <= x
                < index.store().len(),
    decreases index.table().len() - j,
{
    lemma_wf_postings(index);
    let postings = index.table();
    if j < 0 || j >= postings.len() || acc.len() >= limit {
    } else {
        let key = postings[j].token@;
        let ids = postings[j].ids@;
        if !passes_gates(key, word) {
            lemma_fuzzy_from_sound(index, word, limit, j + 1, acc);
        } else if key == word {
            assert forall|x: i16| #[trigger] ids.contains(x) implies 0 <= x
                < index.store().len() by {
                let k = choose|k: int| 0 <= k < ids.len() && ids[k] == x;
                assert(0 <= index.table()[j].ids@[k] < index.store().len());
            }
        } else if !is_substring(key, word) {
            lemma_fuzzy_from_sound(index, word, limit, j + 1, acc);
        } else {
            let acc2 = with_new_ids(acc, ids);
            lemma_with_new_ids_no_dup(acc, ids);
            lemma_with_new_ids_elems(acc, ids);
            assert forall|x: i16| #[trigger] acc2.contains(x) implies 0 <= x
                < index.store().len() by {
                if ids.contains(x) {
                    let k = choose|k: int| 0 <= k < ids.len() && ids[k] == x;
                    assert(0 <= index.table()[j].ids@[k] < index.store().len());
                }
            }
            lemma_fuzzy_from_sound(index, word, limit, j + 1, acc2);
        }
    }
}

/// Membership in an id list.
fn contains_id(v: &Vec<i16>, x: i16) -> (r: bool)
    ensures
        r == v@.contains(x),
{
    let mut k: usize = 0;
    while k < v.len()
        invariant
            k <= v@.len(),
            forall|k2: int| 0 <= k2 < k ==> v@[k2] != x,
        decreases v@.len() - k,
    {
        if v[k] == x {
            return true;
        }
        k = k + 1;
    }
    false
}

impl Index {
    /// The fuzzy scan itself, over record positions.
    fn fuzzy_ids(&self, word: &str, limit: i32) -> (r: Vec<i16>)
        ensures
            r@ == fuzzy_result(*self, word@, limit as int),
    {
        let mut acc: Vec<i16> = Vec::new();
        if limit <= 0 {
            proof {
                assert(fuzzy_result(*self, word@, limit as int) =~= acc@);
            }
            return acc;
        }
        let lim: usize = limit as usize;
        let n_postings = self.table_len();
        let wl = word.unicode_len();
        let mut j: usize = 0;
        while j < n_postings
            invariant
                n_postings == self.table().len(),
                j <= n_postings,
                lim == limit as int,
                wl == word@.len(),
                fuzzy_from(self.table(), word@, limit as int, j as int, acc@) == fuzzy_result(
                    *self,
                    word@,
                    limit as int,
                ),
            decreases n_postings - j,
        {
            if acc.len() >= lim {
                proof {
                    assert(fuzzy_from(self.table(), word@, limit as int, j as int, acc@) == acc@);
                }
                return acc;
            }
            let key = self.token_at(j);
            let kl = key.as_str().unicode_len();
            let gate = kl > 0 && wl > 0 && kl >= wl && key.as_str().get_char(0) == word.get_char(
                0,
            );
            proof {
                assert(gate == passes_gates(self.table()[j as int].token@, word@));
            }
            if gate {
                if str_eq(key.as_str(), word) {
                    let r = self.posting_ids_at(j);
                    proof {
                        assert(fuzzy_from(self.table(), word@, limit as int, j as int, acc@)
                            == r@);
                    }
                    return r;
                }
                if contains_substring(key.as_str(), word) {
                    let ghost acc0 = acc@;
                    let ids = self.posting_ids_at(j);
                    let mut m: usize = 0;
                    proof {
                        assert(ids@.skip(0) =~= ids@);
                    }
                    while m < ids.len()
                        invariant
                            m <= ids@.len(),
                            with_new_ids(acc@, ids@.skip(m as int)) == with_new_ids(acc0, ids@),
                        decreases ids@.len() - m,
                    {
                        proof {
                            assert(ids@.skip(m as int).drop_first() =~= ids@.skip(m as int + 1));
                            assert(ids@.skip(m as int)[0] == ids@[m as int]);
                        }
                        let id = ids[m];
                        if !contains_id(&acc, id) {
                            acc.push(id);
                        }
                        m = m + 1;
                    }
                    proof {
                        assert(ids@.skip(ids@.len() as int) =~= Seq::<i16>::empty());
                        assert(with_new_ids(acc@, Seq::<i16>::empty()) == acc@);
                        assert(fuzzy_from(self.table(), word@, limit as int, j as int, acc0)
                            == fuzzy_from(
                            self.table(),
                            word@,
                            limit as int,
                            j as int + 1,
                            acc@,
                        ));
                    }
                } else {
                    proof {
                        assert(fuzzy_from(self.table(), word@, limit as int, j as int, acc@)
                            == fuzzy_from(
                            self.table(),
                            word@,
                            limit as int,
                            j as int + 1,
                            acc@,
                        ));
                    }
                }
            } else {
                proof {
                    assert(fuzzy_from(self.table(), word@, limit as int, j as int, acc@)
                        == fuzzy_from(self.table(), word@, limit as int, j as int + 1, acc@));
                }
            }
            j = j + 1;
        }
        proof {
            assert(fuzzy_from(self.table(), word@, limit as int, n_postings as int, acc@)
                == acc@);
        }
        acc
    }

    /// Heuristic substring lookup: the fuzzy scan's positions translated to
    /// records. No record position ever appears twice in the result.
    pub fn search_fuzzy(&self, word: &str, limit: i32) -> (res: Vec<Record>)
        ensures
            res@.len() == fuzzy_result(*self, word@, limit as int).len(),
            forall|k: int|
                0 <= k < res@.len() ==> (#[trigger] res@[k]).fields@ == self.store()[fuzzy_result(
                    *self,
                    word@,
                    limit as int,
                )[k] as int].fields@,
            fuzzy_result(*self, word@, limit as int).no_duplicates(),
    {
        let ids = self.fuzzy_ids(word, limit);
        proof {
            use_type_invariant(self);
            assert(Seq::<i16>::empty().no_duplicates());
            lemma_fuzzy_from_sound(*self, word@, limit as int, 0, Seq::empty());
            assert forall|k: int| 0 <= k < ids@.len() implies 0 <= #[trigger] ids@[k]
                < self.store().len() by {
                assert(ids@.contains(ids@[k]));
            }
        }
        self.indices_to_data(&ids)
    }

    /// The combined entry point: a strict query is an exact, unlimited
    /// dictionary lookup; otherwise the limited fuzzy scan runs.
    pub fn search(&self, word: &str, limit: i32, strict: bool) -> (res: Vec<Record>)
        ensures
            strict ==> res@.len() == matching_ids(
                self.store(),
                word@,
                self.store().len() as int,
            ).len(),
            strict ==> (forall|k: int|
                0 <= k < res@.len() ==> (#[trigger] res@[k]).fields@ == self.store()[matching_ids(
                    self.store(),
                    word@,
                    self.store().len() as int,
                )[k]].fields@),
            strict ==> (forall|x: int|
                #[trigger] matching_ids(self.store(), word@, self.store().len() as int).contains(
                    x,
                ) <==> (0 <= x < self.store().len() && self.store()[x].has_token(word@))),
            !strict ==> res@.len() == fuzzy_result(*self, word@, limit as int).len(),
            !strict ==> (forall|k: int|
                0 <= k < res@.len() ==> (#[trigger] res@[k]).fields@ == self.store()[fuzzy_result(
                    *self,
                    word@,
                    limit as int,
                )[k] as int].fields@),
            !strict ==> fuzzy_result(*self, word@, limit as int).no_duplicates(),
    {
        if strict {
            self.search_strict(word)
        } else {
            self.search_fuzzy(word, limit)
        }
    }
}

} // verus!
