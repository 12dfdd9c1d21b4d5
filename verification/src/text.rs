//! Text normalization: collapsing runs of spaces, the model of the
//! space-collapse transform, and helpers shared by tokenization.

use vstd::prelude::*;

verus! {

/// The model of the space-collapse transform: the result of repeatedly
/// replacing two consecutive spaces by one until none remain. A character is
/// kept exactly when it is not a space immediately followed by another space.
pub open spec fn collapsed(s: Seq<char>) -> Seq<char>
    decreases s.len(),
{
    if s.len() == 0 {
        Seq::empty()
    } else if s.len() >= 2 && s[0] == ' ' && s[1] == ' ' {
        collapsed(s.drop_first())
    } else {
        seq![s[0]] + collapsed(s.drop_first())
    }
}

/// The collapsed form of a string never holds two consecutive spaces.
pub proof fn lemma_collapsed_no_double_space(s: Seq<char>)
    ensures
        forall|k: int|
            0 <= k && k + 1 < collapsed(s).len() ==> !(#[trigger] collapsed(s)[k] == ' '
                && collapsed(s)[k + 1] == ' '),
    decreases s.len(),
{
    if s.len() == 0 {
    } else if s.len() >= 2 && s[0] == ' ' && s[1] == ' ' {
        lemma_collapsed_no_double_space(s.drop_first());
        assert(collapsed(s) == collapsed(s.drop_first()));
        assert(forall|k: int|
            0 <= k && k + 1 < collapsed(s).len() ==> !(#[trigger] collapsed(s)[k] == ' '
                && collapsed(s)[k + 1] == ' '));
    } else {
        lemma_collapsed_no_double_space(s.drop_first());
        let c = collapsed(s);
        let rest = collapsed(s.drop_first());
        assert(c =~= seq![s[0]] + rest);
        assert forall|k: int| 0 <= k && k + 1 < c.len() implies !(#[trigger] c[k] == ' ' && c[k + 1]
            == ' ') by {
            if k == 0 {
                if s[0] == ' ' {
                    assert(s.len() >= 2) by {
                        if s.len() < 2 {
                            assert(s.drop_first().len() == 0);
                        }
                    }
                    assert(s[1] != ' ');
                    assert(s.drop_first()[0] == s[1]);
                    lemma_collapsed_head(s.drop_first());
                    assert(c[1] == rest[0]);
                }
            } else {
                assert(c[k] == rest[k - 1]);
                assert(c[k + 1] == rest[k]);
            }
        }
    }
}

/// The first character of a collapsed string is the first character of the
/// original that survives: for a non-empty string whose head is kept, it is
/// the head itself.
proof fn lemma_collapsed_head(s: Seq<char>)
    ensures
        collapsed(s).len() > 0 ==> (exists|k: int|
            0 <= k < s.len() && s[k] == collapsed(s)[0]),
        s.len() > 0 && s[0] != ' ' ==> collapsed(s).len() > 0 && collapsed(s)[0] == s[0],
    decreases s.len(),
{
    if s.len() == 0 {
    } else if s.len() >= 2 && s[0] == ' ' && s[1] == ' ' {
        lemma_collapsed_head(s.drop_first());
        if collapsed(s).len() > 0 {
            let k = choose|k: int| 0 <= k < s.drop_first().len() && s.drop_first()[k] == collapsed(
                s.drop_first(),
            )[0];
            assert(s[k + 1] == collapsed(s)[0]);
        }
    } else {
        assert(s[0] == collapsed(s)[0]);
    }
}

/// Collapses every run of two or more spaces to a single space, leaving all
/// other characters (tabs and newlines included) untouched, as the repeated
/// textual replacement of `"  "` by `" "` would.
pub fn remove_double_spaces(value: &str) -> (result: String)
    ensures
        result@ == collapsed(value@),
{
    let n = value.unicode_len();
    let mut result = String::new();
    let mut i: usize = 0;
    proof {
        assert(value@.skip(0) =~= value@);
        assert(result@ + collapsed(value@) =~= collapsed(value@));
    }
    while i < n
        invariant
            n == value@.len(),
            i <= n,
            result@ + collapsed(value@.skip(i as int)) == collapsed(value@),
        decreases n - i,
    {
        let c = value.get_char(i);
        let dropped = c == ' ' && i + 1 < n && value.get_char(i + 1) == ' ';
        proof {
            assert(value@.skip(i as int).drop_first() =~= value@.skip(i as int + 1));
            assert(value@.skip(i as int)[0] == value@[i as int]);
        }
        if !dropped {
            let piece = value.substring_char(i, i + 1);
            proof {
                assert(piece@ =~= seq![value@[i as int]]);
                assert(seq![value@[i as int]] + collapsed(value@.skip(i as int + 1)) == collapsed(
                    value@.skip(i as int),
                ));
            }
            result.append(piece);
            proof {
                assert(result@ + collapsed(value@.skip(i as int + 1)) == collapsed(value@));
            }
        }
        i = i + 1;
    }
    proof {
        assert(value@.skip(n as int) =~= Seq::<char>::empty());
        assert(result@ + collapsed(value@.skip(n as int)) =~= result@);
    }
    result
}

/// The views of a sequence of strings.
pub open spec fn views_of(v: Seq<String>) -> Seq<Seq<char>> {
    v.map_values(|t: String| t@)
}

/// Splitting on single spaces, as splitting a string at each `' '` does: the
/// empty string yields one empty piece, and every space ends the current
/// piece and starts the next, so consecutive or outer spaces yield empty
/// pieces.
pub open spec fn split_on_space(s: Seq<char>) -> Seq<Seq<char>>
    decreases s.len(),
{
    if s.len() == 0 {
        seq![Seq::<char>::empty()]
    } else if s[0] == ' ' {
        seq![Seq::<char>::empty()] + split_on_space(s.drop_first())
    } else {
        let rest = split_on_space(s.drop_first());
        seq![seq![s[0]] + rest[0]] + rest.drop_first()
    }
}

pub proof fn lemma_split_nonempty(s: Seq<char>)
    ensures
        split_on_space(s).len() >= 1,
    decreases s.len(),
{
    if s.len() == 0 {
    } else {
        lemma_split_nonempty(s.drop_first());
    }
}

/// Splits a string into its pieces between single spaces.
pub fn split_spaces(s: &str) -> (result: Vec<String>)
    ensures
        views_of(result@) == split_on_space(s@),
{
    let n = s.unicode_len();
    let mut result: Vec<String> = Vec::new();
    let mut cur = String::new();
    let mut i: usize = 0;
    proof {
        lemma_split_nonempty(s@);
        assert(s@.skip(0) =~= s@);
        assert(views_of(result@) =~= Seq::<Seq<char>>::empty());
        assert(cur@ + split_on_space(s@)[0] =~= split_on_space(s@)[0]);
        assert(views_of(result@) + seq![split_on_space(s@)[0]] + split_on_space(s@).drop_first()
            =~= split_on_space(s@));
    }
    while i < n
        invariant
            n == s@.len(),
            i <= n,
            views_of(result@) + seq![cur@ + split_on_space(s@.skip(i as int))[0]] + split_on_space(
                s@.skip(i as int),
            ).drop_first() == split_on_space(s@),
        decreases n - i,
    {
        let ghost rem = s@.skip(i as int);
        let ghost rem2 = s@.skip(i as int + 1);
        proof {
            assert(rem.drop_first() =~= rem2);
            assert(rem[0] == s@[i as int]);
            lemma_split_nonempty(rem2);
        }
        let c = s.get_char(i);
        if c == ' ' {
            proof {
                assert(split_on_space(rem) == seq![Seq::<char>::empty()] + split_on_space(rem2));
                assert(split_on_space(rem)[0] =~= Seq::<char>::empty());
                assert(split_on_space(rem).drop_first() =~= split_on_space(rem2));
                assert(cur@ + Seq::<char>::empty() =~= cur@);
                lemma_views_of_push(result@, cur);
                assert((views_of(result@) + seq![cur@]) + split_on_space(rem2) == split_on_space(
                    s@,
                ));
            }
            let finished = cur;
            cur = String::new();
            result.push(finished);
            proof {
                assert(seq![split_on_space(rem2)[0]] + split_on_space(rem2).drop_first()
                    =~= split_on_space(rem2));
                assert(cur@ + split_on_space(rem2)[0] =~= split_on_space(rem2)[0]);
                assert(views_of(result@) + seq![cur@ + split_on_space(rem2)[0]] + split_on_space(
                    rem2,
                ).drop_first() =~= split_on_space(s@));
            }
        } else {
            let piece = s.substring_char(i, i + 1);
            proof {
                assert(piece@ =~= seq![s@[i as int]]);
                let rest = split_on_space(rem2);
                assert(split_on_space(rem) == seq![seq![rem[0]] + rest[0]] + rest.drop_first());
                assert(split_on_space(rem)[0] =~= seq![s@[i as int]] + rest[0]);
                assert(split_on_space(rem).drop_first() =~= rest.drop_first());
                assert((cur@ + piece@) + rest[0] =~= cur@ + (seq![s@[i as int]] + rest[0]));
            }
            cur.append(piece);
            proof {
                assert(views_of(result@) + seq![cur@ + split_on_space(rem2)[0]] + split_on_space(
                    rem2,
                ).drop_first() =~= split_on_space(s@));
            }
        }
        i = i + 1;
    }
    proof {
        assert(s@.skip(n as int) =~= Seq::<char>::empty());
        assert(split_on_space(s@.skip(n as int)) == seq![Seq::<char>::empty()]);
        assert(cur@ + Seq::<char>::empty() =~= cur@);
        assert(split_on_space(Seq::<char>::empty()).drop_first() =~= Seq::<Seq<char>>::empty());
        lemma_views_of_push(result@, cur);
    }
    result.push(cur);
    proof {
        assert(views_of(result@) =~= split_on_space(s@));
    }
    result
}

pub proof fn lemma_views_of_push(v: Seq<String>, t: String)
    ensures
        views_of(v.push(t)) =~= views_of(v) + seq![t@],
{
}

/// Whether a character counts as a letter or digit. The executable test is
/// std's Unicode classification; the result depends on the character alone.
pub uninterp spec fn char_alphanumeric(c: char) -> bool;

/// Relies on `char::is_alphanumeric` of std: true exactly when the character
/// is a Unicode letter or digit, a property of the character alone.
#[verifier::external_body]
pub(crate) fn is_alphanumeric_char(c: char) -> (r: bool)
    ensures
        r == char_alphanumeric(c),
{
    c.is_alphanumeric()
}

/// Whether every character of the token is alphanumeric. The empty token
/// passes vacuously.
pub open spec fn all_alphanumeric(t: Seq<char>) -> bool {
    forall|k: int| 0 <= k < t.len() ==> char_alphanumeric(#[trigger] t[k])
}

pub(crate) fn check_all_alphanumeric(t: &str) -> (r: bool)
    ensures
        r == all_alphanumeric(t@),
{
    let n = t.unicode_len();
    let mut k: usize = 0;
    while k < n
        invariant
            n == t@.len(),
            k <= n,
            forall|j: int| 0 <= j < k ==> char_alphanumeric(#[trigger] t@[j]),
        decreases n - k,
    {
        let c = t.get_char(k);
        if !is_alphanumeric_char(c) {
            return false;
        }
        k = k + 1;
    }
    true
}

/// The indexed tokens of one field value: collapse runs of spaces, split on
/// single spaces, and keep only the all-alphanumeric pieces.
pub open spec fn value_tokens(v: Seq<char>) -> Seq<Seq<char>> {
    split_on_space(collapsed(v)).filter(|t: Seq<char>| all_alphanumeric(t))
}

/// Normalizes one field value and returns its indexable tokens in order.
pub fn tokens_of_value(value: &str) -> (result: Vec<String>)
    ensures
        views_of(result@) == value_tokens(value@),
{
    broadcast use vstd::seq_lib::group_filter_ensures;

    let normalized = remove_double_spaces(value);
    let parts = split_spaces(normalized.as_str());
    let ghost pred = |t: Seq<char>| all_alphanumeric(t);
    let mut result: Vec<String> = Vec::new();
    let mut w: usize = 0;
    proof {
        assert(views_of(parts@).take(0) =~= Seq::<Seq<char>>::empty());
        assert(views_of(result@) =~= Seq::<Seq<char>>::empty().filter(pred));
    }
    while w < parts.len()
        invariant
            w <= parts@.len(),
            views_of(parts@) == split_on_space(collapsed(value@)),
            pred == (|t: Seq<char>| all_alphanumeric(t)),
            views_of(result@) == views_of(parts@).take(w as int).filter(pred),
        decreases parts@.len() - w,
    {
        let keep = check_all_alphanumeric(parts[w].as_str());
        proof {
            let taken = views_of(parts@).take(w as int);
            let taken2 = views_of(parts@).take(w as int + 1);
            assert(taken2.drop_last() =~= taken);
            assert(taken2.last() == parts@[w as int]@);
            reveal(Seq::filter);
            assert(taken2.filter(pred) == if pred(parts@[w as int]@) {
                taken.filter(pred).push(parts@[w as int]@)
            } else {
                taken.filter(pred)
            });
        }
        if keep {
            let tok = parts[w].clone();
            proof {
                lemma_views_of_push(result@, tok);
            }
            result.push(tok);
        }
        w = w + 1;
        proof {
            assert(views_of(result@) =~= views_of(parts@).take(w as int).filter(pred));
        }
    }
    proof {
        assert(views_of(parts@).take(parts@.len() as int) =~= views_of(parts@));
    }
    result
}

/// Character-for-character equality of two strings.
pub fn str_eq(a: &str, b: &str) -> (r: bool)
    ensures
        r == (a@ == b@),
{
    let n = a.unicode_len();
    let m = b.unicode_len();
    if n != m {
        return false;
    }
    let mut k: usize = 0;
    while k < n
        invariant
            n == a@.len(),
            n == b@.len(),
            k <= n,
            forall|j: int| 0 <= j < k ==> a@[j] == b@[j],
        decreases n - k,
    {
        if a.get_char(k) != b.get_char(k) {
            return false;
        }
        k = k + 1;
    }
    proof {
        assert(a@ =~= b@);
    }
    true
}

/// `needle` occurs in `hay` as a contiguous run starting at position `k`.
pub open spec fn is_substring_at(hay: Seq<char>, needle: Seq<char>, k: int) -> bool {
    0 <= k && k + needle.len() <= hay.len() && hay.subrange(k, k + needle.len()) == needle
}

/// `needle` occurs somewhere in `hay` as a contiguous run.
pub open spec fn is_substring(hay: Seq<char>, needle: Seq<char>) -> bool {
    exists|k: int| is_substring_at(hay, needle, k)
}

/// Every string contains itself.
pub proof fn lemma_substring_refl(s: Seq<char>)
    ensures
        is_substring(s, s),
{
    assert(s.subrange(0, s.len() as int) =~= s);
    assert(is_substring_at(s, s, 0));
}

fn match_at(hay: &str, needle: &str, k: usize) -> (r: bool)
    requires
        k + needle@.len() <= hay@.len(),
    ensures
        r == is_substring_at(hay@, needle@, k as int),
{
    let n = hay.unicode_len();
    let m = needle.unicode_len();
    let mut j: usize = 0;
    while j < m
        invariant
            n == hay@.len(),
            m == needle@.len(),
            k + m <= hay@.len(),
            j <= m,
            forall|j2: int| 0 <= j2 < j ==> hay@[k + j2] == needle@[j2],
        decreases m - j,
    {
        if hay.get_char(k + j) != needle.get_char(j) {
            proof {
                assert(hay@.subrange(k as int, k + needle@.len())[j as int] != needle@[j as int]);
            }
            return false;
        }
        j = j + 1;
    }
    proof {
        assert(hay@.subrange(k as int, k + needle@.len()) =~= needle@);
    }
    true
}

/// Whether `hay` contains `needle` as a contiguous substring.
pub fn contains_substring(hay: &str, needle: &str) -> (r: bool)
    ensures
        r == is_substring(hay@, needle@),
{
    let n = hay.unicode_len();
    let m = needle.unicode_len();
    if m > n {
        proof {
            assert(forall|k: int| !is_substring_at(hay@, needle@, k));
        }
        return false;
    }
    if m == 0 {
        proof {
            assert(hay@.subrange(0, 0) =~= needle@);
            assert(is_substring_at(hay@, needle@, 0));
        }
        return true;
    }
    let mut k: usize = 0;
    while k <= n - m
        invariant
            n == hay@.len(),
            m == needle@.len(),
            1 <= m <= n,
            k <= n - m + 1,
            forall|k2: int| 0 <= k2 < k ==> !is_substring_at(hay@, needle@, k2),
        decreases n + 1 - m - k,
    {
        if match_at(hay, needle, k) {
            return true;
        }
        k = k + 1;
    }
    proof {
        assert(forall|k2: int| k2 > n - m ==> !is_substring_at(hay@, needle@, k2));
    }
    false
}

} // verus!
