//! Records, the inverted index built from them, and exact ("strict") lookup.
//!
//! A record is a flat mapping from field name to field text; only the values
//! are tokenized. The index maps each distinct token to its posting list: the
//! positions of the records containing that token, in increasing order.

use vstd::prelude::*;

use crate::text::str_eq;
use crate::text::tokens_of_value;
use crate::text::value_tokens;
use crate::text::views_of;

verus! {

/// One indexed data item: a flat mapping from field name to field text.
/// Field order is kept but field names are never interpreted.
#[verifier::ext_equal]
pub struct Record {
    pub fields: Vec<(String, String)>,
}

/// The indexable tokens of a sequence of fields, in field order.
pub open spec fn tokens_of_fields(fields: Seq<(String, String)>) -> Seq<Seq<char>>
    decreases fields.len(),
{
    if fields.len() == 0 {
        Seq::empty()
    } else {
        value_tokens(fields[0].1@) + tokens_of_fields(fields.drop_first())
    }
}

impl Record {
    /// The tokens of every field value of this record, in field order.
    pub open spec fn tokens(self) -> Seq<Seq<char>> {
        tokens_of_fields(self.fields@)
    }

    /// Whether some field value of this record yields the token `t`.
    pub open spec fn has_token(self, t: Seq<char>) -> bool {
        self.tokens().contains(t)
    }
}

impl Clone for Record {
    /// A clone carries the same fields, so translated search results show
    /// the stored records' contents.
    fn clone(&self) -> (r: Self)
        ensures
            r.fields@ == self.fields@,
            r.tokens() == self.tokens(),
    {
        let mut fields: Vec<(String, String)> = Vec::new();
        let mut k: usize = 0;
        proof {
            assert(fields@ =~= self.fields@.take(0));
        }
        while k < self.fields.len()
            invariant
                k <= self.fields@.len(),
                fields@ == self.fields@.take(k as int),
            decreases self.fields@.len() - k,
        {
            let name = self.fields[k].0.clone();
            let value = self.fields[k].1.clone();
            fields.push((name, value));
            proof {
                assert((name, value) == self.fields@[k as int]);
                assert(fields@ =~= self.fields@.take(k as int + 1));
            }
            k = k + 1;
        }
        proof {
            assert(self.fields@.take(self.fields@.len() as int) =~= self.fields@);
        }
        Record { fields }
    }
}

/// Appending one more field extends the token list by that field's tokens.
pub proof fn lemma_tokens_of_fields_take(fields: Seq<(String, String)>, n: int)
    requires
        0 <= n < fields.len(),
    ensures
        tokens_of_fields(fields.take(n + 1)) == tokens_of_fields(fields.take(n)) + value_tokens(
            fields[n].1@,
        ),
    decreases n,
{
    if n == 0 {
        assert(fields.take(1) =~= seq![fields[0]]);
        assert(fields.take(1).drop_first() =~= Seq::<(String, String)>::empty());
        assert(fields.take(0) =~= Seq::<(String, String)>::empty());
        assert(tokens_of_fields(fields.take(1)) =~= tokens_of_fields(fields.take(0))
            + value_tokens(fields[0].1@));
    } else {
        lemma_tokens_of_fields_take(fields.drop_first(), n - 1);
        assert(fields.take(n + 1).drop_first() =~= fields.drop_first().take(n));
        assert(fields.take(n).drop_first() =~= fields.drop_first().take(n - 1));
        assert(fields.take(n + 1)[0] == fields[0]);
        assert(fields.take(n)[0] == fields[0]);
        assert(fields.drop_first()[n - 1] == fields[n]);
        assert(tokens_of_fields(fields.take(n + 1)) =~= tokens_of_fields(fields.take(n))
            + value_tokens(fields[n].1@));
    }
}

/// All the indexable tokens of a record, in field order.
pub fn record_tokens(rec: &Record) -> (result: Vec<String>)
    ensures
        views_of(result@) == rec.tokens(),
{
    let mut result: Vec<String> = Vec::new();
    let mut f: usize = 0;
    proof {
        assert(rec.fields@.take(0) =~= Seq::<(String, String)>::empty());
        assert(views_of(result@) =~= tokens_of_fields(rec.fields@.take(0)));
    }
    while f < rec.fields.len()
        invariant
            f <= rec.fields@.len(),
            views_of(result@) == tokens_of_fields(rec.fields@.take(f as int)),
        decreases rec.fields@.len() - f,
    {
        let mut toks = tokens_of_value(rec.fields[f].1.as_str());
        proof {
            lemma_tokens_of_fields_take(rec.fields@, f as int);
            assert(views_of(result@ + toks@) =~= views_of(result@) + views_of(toks@));
        }
        result.append(&mut toks);
        f = f + 1;
    }
    proof {
        assert(rec.fields@.take(rec.fields@.len() as int) =~= rec.fields@);
    }
    result
}

/// The positions below `n`, in increasing order, of the records in `recs`
/// that contain token `t`.
pub open spec fn matching_ids(recs: Seq<Record>, t: Seq<char>, n: int) -> Seq<int>
    decreases n,
{
    if n <= 0 {
        Seq::empty()
    } else if recs[n - 1].has_token(t) {
        matching_ids(recs, t, n - 1).push(n - 1)
    } else {
        matching_ids(recs, t, n - 1)
    }
}

/// What `matching_ids` holds: exactly the matching positions, increasing.
pub proof fn lemma_matching_ids_props(recs: Seq<Record>, t: Seq<char>, n: int)
    ensures
        forall|x: int|
            #[trigger] matching_ids(recs, t, n).contains(x) <==> (0 <= x < n
                && recs[x].has_token(t)),
        forall|a: int, b: int|
            0 <= a < b < matching_ids(recs, t, n).len() ==> #[trigger] matching_ids(recs, t, n)[a]
                < #[trigger] matching_ids(recs, t, n)[b],
    decreases n,
{
    if n <= 0 {
    } else {
        lemma_matching_ids_props(recs, t, n - 1);
        let prev = matching_ids(recs, t, n - 1);
        let cur = matching_ids(recs, t, n);
        assert(forall|a: int| 0 <= a < prev.len() ==> prev.contains(#[trigger] prev[a]));
        if recs[n - 1].has_token(t) {
            assert(cur == prev.push(n - 1));
            assert forall|x: int| prev.contains(x) implies #[trigger] cur.contains(x) by {
                let k = choose|k: int| 0 <= k < prev.len() && prev[k] == x;
                assert(cur[k] == x);
            }
            assert(cur.contains(n - 1)) by {
                assert(cur[cur.len() - 1] == n - 1);
            }
            assert forall|x: int| #[trigger] cur.contains(x) implies (prev.contains(x) || x == n
                - 1) by {
                let k = choose|k: int| 0 <= k < cur.len() && cur[k] == x;
                if k < prev.len() {
                    assert(prev[k] == x);
                }
            }
        }
    }
}

/// The posting list ids, as mathematical integers.
pub open spec fn ids_as_ints(ids: Seq<i16>) -> Seq<int> {
    ids.map_values(|id: i16| id as int)
}

/// One entry of the token table: a token and the positions of the records
/// containing it.
pub struct Posting {
    pub token: String,
    pub ids: Vec<i16>,
}

/// Whether some posting in the table carries token `t`.
pub open spec fn entry_exists(postings: Seq<Posting>, t: Seq<char>) -> bool {
    exists|j: int| 0 <= j < postings.len() && postings[j].token@ == t
}

/// The inverted index: the record store plus the token table, both built
/// once and read-only afterwards.
pub struct Index {
    records: Vec<Record>,
    postings: Vec<Posting>,
}

impl Index {
    /// The stored records, in load order.
    pub closed spec fn store(self) -> Seq<Record> {
        self.records@
    }

    /// The token table, in first-occurrence order.
    pub closed spec fn table(self) -> Seq<Posting> {
        self.postings@
    }

    /// Whether the table has an entry for token `t`.
    pub open spec fn has_entry(self, t: Seq<char>) -> bool {
        entry_exists(self.table(), t)
    }

    /// Well-formedness: every posting list is exactly the increasing
    /// sequence of matching record positions, posting lists are never empty,
    /// tokens are distinct, and every token of every record has an entry.
    pub open spec fn wf(self) -> bool {
        &&& self.store().len() <= 32767
        &&& forall|j: int|
            0 <= j < self.table().len() ==> ids_as_ints(#[trigger] self.table()[j].ids@)
                == matching_ids(self.store(), self.table()[j].token@, self.store().len() as int)
        &&& forall|j: int| 0 <= j < self.table().len() ==> (#[trigger] self.table()[j].ids@).len() > 0
        &&& forall|j1: int, j2: int|
            0 <= j1 < j2 < self.table().len() ==> (#[trigger] self.table()[j1].token@)
                != (#[trigger] self.table()[j2].token@)
        &&& forall|i: int, w: int|
            0 <= i < self.store().len() && 0 <= w < self.store()[i].tokens().len()
                ==> self.has_entry(#[trigger] self.store()[i].tokens()[w])
    }

    #[verifier::type_invariant]
    pub(crate) open spec fn type_inv(self) -> bool {
        self.wf()
    }
}

/// Finds the table entry carrying `token`, if any.
fn find_posting(postings: &Vec<Posting>, token: &str) -> (r: Option<usize>)
    ensures
        match r {
            Some(j) => j < postings@.len() && postings@[j as int].token@ == token@,
            None => forall|j: int| 0 <= j < postings@.len() ==> postings@[j].token@ != token@,
        },
{
    let mut j: usize = 0;
    while j < postings.len()
        invariant
            j <= postings@.len(),
            forall|j2: int| 0 <= j2 < j ==> postings@[j2].token@ != token@,
        decreases postings@.len() - j,
    {
        if str_eq(postings[j].token.as_str(), token) {
            return Some(j);
        }
        j = j + 1;
    }
    None
}

/// Copies a posting list.
fn copy_ids(v: &Vec<i16>) -> (r: Vec<i16>)
    ensures
        r@ == v@,
{
    let mut r: Vec<i16> = Vec::new();
    let mut k: usize = 0;
    while k < v.len()
        invariant
            k <= v@.len(),
            r@ == v@.take(k as int),
        decreases v@.len() - k,
    {
        r.push(v[k]);
        proof {
            assert(r@ =~= v@.take(k as int + 1));
        }
        k = k + 1;
    }
    proof {
        assert(v@.take(v@.len() as int) =~= v@);
    }
    r
}

/// Membership in a pushed sequence, for an element other than the new one.
proof fn lemma_contains_push_other(s: Seq<Seq<char>>, x: Seq<char>, y: Seq<char>)
    requires
        x != y,
    ensures
        s.push(x).contains(y) <==> s.contains(y),
{
    if s.contains(y) {
        let k = choose|k: int| 0 <= k < s.len() && s[k] == y;
        assert(s.push(x)[k] == y);
    }
    if s.push(x).contains(y) {
        let k = choose|k: int| 0 <= k < s.push(x).len() && s.push(x)[k] == y;
        assert(s[k] == y);
    }
}

/// Builds the inverted index from an already-loaded record store. The store
/// is rejected when its size exceeds the record-position ceiling of 32767,
/// the largest position the 16-bit id width can carry.
pub fn build_index(records: Vec<Record>) -> (r: Option<Index>)
    ensures
        r is Some <==> records@.len() <= 32767,
        r matches Some(index) ==> index.store() == records@ && index.wf(),
{
    if records.len() > 32767 {
        return None;
    }
    let n = records.len();
    let mut postings: Vec<Posting> = Vec::new();
    let mut i: usize = 0;
    while i < n
        invariant
            n == records@.len() <= 32767,
            i <= n,
            forall|j1: int, j2: int|
                0 <= j1 < j2 < postings@.len() ==> (#[trigger] postings@[j1].token@)
                    != (#[trigger] postings@[j2].token@),
            forall|j: int| 0 <= j < postings@.len() ==> (#[trigger] postings@[j].ids@).len() > 0,
            forall|j: int|
                0 <= j < postings@.len() ==> ids_as_ints(#[trigger] postings@[j].ids@)
                    == matching_ids(records@, postings@[j].token@, i as int),
            forall|i2: int, w: int|
                0 <= i2 < i && 0 <= w < records@[i2].tokens().len() ==> entry_exists(
                    postings@,
                    #[trigger] records@[i2].tokens()[w],
                ),
        decreases n - i,
    {
        let toks = record_tokens(&records[i]);
        let rid: i16 = i as i16;
        let ghost rtoks = records@[i as int].tokens();
        let mut w: usize = 0;
        proof {
            assert(rtoks.take(0) =~= Seq::<Seq<char>>::empty());
        }
        while w < toks.len()
            invariant
                n == records@.len() <= 32767,
                i < n,
                rid == i as i16,
                views_of(toks@) == rtoks,
                rtoks == records@[i as int].tokens(),
                w <= toks@.len(),
                forall|j1: int, j2: int|
                    0 <= j1 < j2 < postings@.len() ==> (#[trigger] postings@[j1].token@)
                        != (#[trigger] postings@[j2].token@),
                forall|j: int| 0 <= j < postings@.len() ==> (#[trigger] postings@[j].ids@).len() > 0,
                forall|j: int|
                    0 <= j < postings@.len() ==> ids_as_ints(#[trigger] postings@[j].ids@) == (
                    if rtoks.take(w as int).contains(postings@[j].token@) {
                        matching_ids(records@, postings@[j].token@, i as int).push(i as int)
                    } else {
                        matching_ids(records@, postings@[j].token@, i as int)
                    }),
                forall|i2: int, w2: int|
                    0 <= i2 < i && 0 <= w2 < records@[i2].tokens().len() ==> entry_exists(
                        postings@,
                        #[trigger] records@[i2].tokens()[w2],
                    ),
                forall|w2: int|
                    0 <= w2 < w ==> entry_exists(postings@, #[trigger] rtoks[w2]),
            decreases toks@.len() - w,
        {
            let ghost t = rtoks[w as int];
            proof {
                assert(toks@[w as int]@ == t);
                assert(rtoks.take(w as int + 1).last() == t);
                assert(rtoks.take(w as int + 1).drop_last() =~= rtoks.take(w as int));
            }
            match find_posting(&postings, toks[w].as_str()) {
                None => {
                    proof {
                        lemma_matching_ids_props(records@, t, i as int);
                        if matching_ids(records@, t, i as int).len() > 0 {
                            let x = matching_ids(records@, t, i as int)[0];
                            assert(matching_ids(records@, t, i as int).contains(x));
                            assert(records@[x].has_token(t));
                            let w2 = choose|w2: int|
                                0 <= w2 < records@[x].tokens().len() && records@[x].tokens()[w2]
                                    == t;
                            assert(entry_exists(postings@, records@[x].tokens()[w2]));
                        }
                        assert(matching_ids(records@, t, i as int) =~= Seq::<int>::empty());
                    }
                    let token = toks[w].clone();
                    let mut ids: Vec<i16> = Vec::new();
                    ids.push(rid);
                    let ghost old_postings = postings@;
                    postings.push(Posting { token, ids });
                    proof {
                        let jn = postings@.len() - 1;
                        assert(postings@[jn].token@ == t);
                        assert(ids_as_ints(postings@[jn].ids@) =~= Seq::<int>::empty().push(
                            i as int,
                        ));
                        assert(matching_ids(records@, t, i as int).push(i as int)
                            =~= Seq::<int>::empty().push(i as int));
                        assert(rtoks.take(w as int + 1).contains(t)) by {
                            assert(rtoks.take(w as int + 1)[w as int] == t);
                        }
                        assert forall|j: int| 0 <= j < jn implies ids_as_ints(
                            #[trigger] postings@[j].ids@,
                        ) == (if rtoks.take(w as int + 1).contains(postings@[j].token@) {
                            matching_ids(records@, postings@[j].token@, i as int).push(i as int)
                        } else {
                            matching_ids(records@, postings@[j].token@, i as int)
                        }) by {
                            assert(postings@[j] == old_postings[j]);
                            assert(postings@[j].token@ != t);
                            lemma_contains_push_other(
                                rtoks.take(w as int),
                                t,
                                postings@[j].token@,
                            );
                            assert(rtoks.take(w as int).push(t) =~= rtoks.take(w as int + 1));
                        }
                        assert forall|w2: int| 0 <= w2 < w + 1 implies entry_exists(
                            postings@,
                            #[trigger] rtoks[w2],
                        ) by {
                            if w2 < w {
                                assert(entry_exists(old_postings, rtoks[w2]));
                                let j2 = choose|j2: int|
                                    0 <= j2 < old_postings.len() && old_postings[j2].token@
                                        == rtoks[w2];
                                assert(postings@[j2].token@ == rtoks[w2]);
                            } else {
                                assert(postings@[jn].token@ == rtoks[w2]);
                            }
                        }
                        assert forall|i2: int, w2: int|
                            0 <= i2 < i && 0 <= w2 < records@[i2].tokens().len() implies
                            entry_exists(postings@, #[trigger] records@[i2].tokens()[w2]) by {
                            assert(entry_exists(old_postings, records@[i2].tokens()[w2]));
                            let j2 = choose|j2: int|
                                0 <= j2 < old_postings.len() && old_postings[j2].token@
                                    == records@[i2].tokens()[w2];
                            assert(postings@[j2].token@ == records@[i2].tokens()[w2]);
                        }
                    }
                },
                Some(j) => {
                    let ghost old_postings = postings@;
                    let id_count = postings[j].ids.len();
                    let last = postings[j].ids[id_count - 1];
                    proof {
                        lemma_matching_ids_props(records@, t, i as int);
                        let ids_ints = ids_as_ints(postings@[j as int].ids@);
                        assert(ids_ints[ids_ints.len() - 1] == postings@[j as int].ids@[id_count
                            - 1] as int);
                        if !rtoks.take(w as int).contains(t) {
                            assert(ids_ints == matching_ids(records@, t, i as int));
                            assert(ids_ints.contains(ids_ints[ids_ints.len() - 1]));
                            assert(last < i as i16);
                        } else {
                            assert(ids_ints == matching_ids(records@, t, i as int).push(i as int));
                            assert(last == rid);
                        }
                    }
                    if last == rid {
                        proof {
                            assert(rtoks.take(w as int).contains(t));
                            let k = choose|k: int|
                                0 <= k < w && rtoks.take(w as int)[k] == t;
                            assert(rtoks.take(w as int + 1)[k] == t);
                            assert(rtoks.take(w as int + 1).contains(t));
                            assert forall|j2: int| 0 <= j2 < postings@.len() implies ids_as_ints(
                                #[trigger] postings@[j2].ids@,
                            ) == (if rtoks.take(w as int + 1).contains(postings@[j2].token@) {
                                matching_ids(records@, postings@[j2].token@, i as int).push(
                                    i as int,
                                )
                            } else {
                                matching_ids(records@, postings@[j2].token@, i as int)
                            }) by {
                                if postings@[j2].token@ != t {
                                    lemma_contains_push_other(
                                        rtoks.take(w as int),
                                        t,
                                        postings@[j2].token@,
                                    );
                                    assert(rtoks.take(w as int).push(t) =~= rtoks.take(
                                        w as int + 1,
                                    ));
                                }
                            }
                            assert(entry_exists(postings@, rtoks[w as int])) by {
                                assert(postings@[j as int].token@ == t);
                            }
                        }
                    } else {
                        let token = postings[j].token.clone();
                        let mut ids = copy_ids(&postings[j].ids);
                        ids.push(rid);
                        postings[j] = Posting { token, ids };
                        proof {
                            assert(!rtoks.take(w as int).contains(t));
                            assert(postings@[j as int].token@ == t);
                            assert(ids_as_ints(postings@[j as int].ids@) =~= ids_as_ints(
                                old_postings[j as int].ids@,
                            ).push(i as int));
                            assert(rtoks.take(w as int + 1).contains(t)) by {
                                assert(rtoks.take(w as int + 1)[w as int] == t);
                            }
                            assert forall|j2: int| 0 <= j2 < postings@.len() implies ids_as_ints(
                                #[trigger] postings@[j2].ids@,
                            ) == (if rtoks.take(w as int + 1).contains(postings@[j2].token@) {
                                matching_ids(records@, postings@[j2].token@, i as int).push(
                                    i as int,
                                )
                            } else {
                                matching_ids(records@, postings@[j2].token@, i as int)
                            }) by {
                                if j2 != j as int {
                                    assert(postings@[j2] == old_postings[j2]);
                                    assert(postings@[j2].token@ != t);
                                    lemma_contains_push_other(
                                        rtoks.take(w as int),
                                        t,
                                        postings@[j2].token@,
                                    );
                                    assert(rtoks.take(w as int).push(t) =~= rtoks.take(
                                        w as int + 1,
                                    ));
                                }
                            }
                            assert forall|w2: int| 0 <= w2 < w + 1 implies entry_exists(
                                postings@,
                                #[trigger] rtoks[w2],
                            ) by {
                                if w2 < w {
                                    let j2 = choose|j2: int|
                                        0 <= j2 < old_postings.len() && old_postings[j2].token@
                                            == rtoks[w2];
                                    if j2 == j as int {
                                        assert(postings@[j as int].token@ == rtoks[w2]);
                                    } else {
                                        assert(postings@[j2].token@ == rtoks[w2]);
                                    }
                                } else {
                                    assert(postings@[j as int].token@ == rtoks[w2]);
                                }
                            }
                            assert forall|i2: int, w2: int|
                                0 <= i2 < i && 0 <= w2 < records@[i2].tokens().len() implies
                                entry_exists(postings@, #[trigger] records@[i2].tokens()[w2]) by {
                                let j2 = choose|j2: int|
                                    0 <= j2 < old_postings.len() && old_postings[j2].token@
                                        == records@[i2].tokens()[w2];
                                if j2 == j as int {
                                    assert(postings@[j as int].token@ == records@[i2].tokens()[
                                        w2]);
                                } else {
                                    assert(postings@[j2].token@ == records@[i2].tokens()[w2]);
                                }
                            }
                        }
                    }
                },
            }
            w = w + 1;
        }
        proof {
            assert(rtoks.take(w as int) =~= rtoks);
            assert forall|j: int| 0 <= j < postings@.len() implies ids_as_ints(
                #[trigger] postings@[j].ids@,
            ) == matching_ids(records@, postings@[j].token@, i as int + 1) by {
                assert(records@[i as int].has_token(postings@[j].token@) == rtoks.contains(
                    postings@[j].token@,
                ));
            }
            assert forall|i2: int, w2: int|
                0 <= i2 < i + 1 && 0 <= w2 < records@[i2].tokens().len() implies entry_exists(
                postings@,
                #[trigger] records@[i2].tokens()[w2],
            ) by {
                if i2 == i as int {
                    assert(entry_exists(postings@, rtoks[w2]));
                }
            }
        }
        i = i + 1;
    }
    let index = Index { records, postings };
    proof {
        assert(index.wf());
    }
    Some(index)
}

impl Index {
    /// The posting list for `word`: exactly the positions of the records
    /// containing the token `word`, in increasing order; empty when no
    /// record contains it.
    pub fn strict_ids(&self, word: &str) -> (r: Vec<i16>)
        ensures
            ids_as_ints(r@) == matching_ids(self.store(), word@, self.store().len() as int),
            forall|x: int|
                #[trigger] ids_as_ints(r@).contains(x) <==> (0 <= x < self.store().len()
                    && self.store()[x].has_token(word@)),
    {
        proof {
            use_type_invariant(self);
            lemma_matching_ids_props(self.store(), word@, self.store().len() as int);
        }
        match find_posting(&self.postings, word) {
            Some(j) => {
                let r = copy_ids(&self.postings[j].ids);
                proof {
                    assert(self.table()[j as int].token@ == word@);
                    assert(ids_as_ints(#[trigger] self.table()[j as int].ids@) == matching_ids(
                        self.store(),
                        self.table()[j as int].token@,
                        self.store().len() as int,
                    ));
                }
                r
            },
            None => {
                proof {
                    let n = self.store().len() as int;
                    if matching_ids(self.store(), word@, n).len() > 0 {
                        let x = matching_ids(self.store(), word@, n)[0];
                        assert(matching_ids(self.store(), word@, n).contains(x));
                        assert(self.store()[x].has_token(word@));
                        let w2 = choose|w2: int|
                            0 <= w2 < self.store()[x].tokens().len() && self.store()[x].tokens()[w2]
                                == word@;
                        assert(self.has_entry(self.store()[x].tokens()[w2]));
                    }
                    assert(matching_ids(self.store(), word@, n) =~= Seq::<int>::empty());
                }
                let r: Vec<i16> = Vec::new();
                proof {
                    assert(ids_as_ints(r@) =~= Seq::<int>::empty());
                }
                r
            },
        }
    }

    /// Translates record positions back to records, keeping the order of
    /// the input. Every position must lie inside the store; positions that
    /// come from this index always do.
    pub fn indices_to_data(&self, indices: &Vec<i16>) -> (res: Vec<Record>)
        requires
            forall|k: int|
                0 <= k < indices@.len() ==> 0 <= #[trigger] indices@[k] < self.store().len(),
        ensures
            res@.len() == indices@.len(),
            forall|k: int|
                0 <= k < indices@.len() ==> (#[trigger] res@[k]).fields@ == self.store()[indices@[k] as int].fields@,
    {
        let mut res: Vec<Record> = Vec::new();
        let mut k: usize = 0;
        while k < indices.len()
            invariant
                k <= indices@.len(),
                forall|k2: int|
                    0 <= k2 < indices@.len() ==> 0 <= #[trigger] indices@[k2] < self.store().len(),
                res@.len() == k,
                forall|k2: int|
                    0 <= k2 < k ==> (#[trigger] res@[k2]).fields@ == self.store()[indices@[k2] as int].fields@,
            decreases indices@.len() - k,
        {
            let id = indices[k];
            let rec = self.records[id as usize].clone();
            res.push(rec);
            k = k + 1;
        }
        res
    }

    /// The number of distinct tokens in the table.
    pub(crate) fn table_len(&self) -> (n: usize)
        ensures
            n == self.table().len(),
    {
        self.postings.len()
    }

    /// The token of table entry `j`.
    pub(crate) fn token_at(&self, j: usize) -> (t: &String)
        requires
            j < self.table().len(),
        ensures
            t@ == self.table()[j as int].token@,
    {
        &self.postings[j].token
    }

    /// A copy of the posting list of table entry `j`.
    pub(crate) fn posting_ids_at(&self, j: usize) -> (r: Vec<i16>)
        requires
            j < self.table().len(),
        ensures
            r@ == self.table()[j as int].ids@,
    {
        copy_ids(&self.postings[j].ids)
    }

    /// Exact dictionary lookup: returns the records whose token set holds
    /// exactly the token `word`, in increasing record order, with no limit
    /// applied.
    pub fn search_strict(&self, word: &str) -> (res: Vec<Record>)
        ensures
            res@.len() == matching_ids(self.store(), word@, self.store().len() as int).len(),
            forall|k: int|
                0 <= k < res@.len() ==> (#[trigger] res@[k]).fields@ == self.store()[matching_ids(
                    self.store(),
                    word@,
                    self.store().len() as int,
                )[k]].fields@,
            forall|x: int|
                #[trigger] matching_ids(self.store(), word@, self.store().len() as int).contains(x)
                    <==> (0 <= x < self.store().len() && self.store()[x].has_token(word@)),
    {
        let ids = self.strict_ids(word);
        proof {
            lemma_matching_ids_props(self.store(), word@, self.store().len() as int);
            assert forall|k: int| 0 <= k < ids@.len() implies 0 <= #[trigger] ids@[k]
                < self.store().len() by {
                let ints = ids_as_ints(ids@);
                assert(ints[k] == ids@[k] as int);
                assert(ints.contains(ints[k]));
            }
        }
        let res = self.indices_to_data(&ids);
        proof {
            assert forall|k: int| 0 <= k < res@.len() implies (#[trigger] res@[k]).fields@
                == self.store()[matching_ids(
                self.store(),
                word@,
                self.store().len() as int,
            )[k]].fields@ by {
                assert(ids_as_ints(ids@)[k] == ids@[k] as int);
            }
        }
        res
    }
}

} // verus!
