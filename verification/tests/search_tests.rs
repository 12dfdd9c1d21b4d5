use record_search::index::Record;
use record_search::index::build_index;

fn rec(pairs: &[(&str, &str)]) -> Record {
    Record {
        fields: pairs.iter().map(|(k, v)| (k.to_string(), v.to_string())).collect(),
    }
}

fn titles() -> Vec<Record> {
    vec![
        rec(&[("title", "intro to computer science")]),
        rec(&[("title", "computer graphics")]),
        rec(&[("title", "biology basics")]),
    ]
}

#[test]
fn strict_finds_exact_token() {
    let index = build_index(titles()).unwrap();
    let res = index.search_strict("computer");
    assert_eq!(res.len(), 2);
    assert_eq!(res[0].fields, rec(&[("title", "intro to computer science")]).fields);
    assert_eq!(res[1].fields, rec(&[("title", "computer graphics")]).fields);
}

#[test]
fn strict_misses_partial_token() {
    let index = build_index(titles()).unwrap();
    assert!(index.search_strict("comp").is_empty());
    assert!(index.search_strict("compute").is_empty());
    assert!(index.search_strict("computers").is_empty());
}

#[test]
fn strict_empty_query_misses_when_no_empty_token() {
    let index = build_index(titles()).unwrap();
    assert!(index.search_strict("").is_empty());
}

#[test]
fn fuzzy_finds_substring_matches() {
    let index = build_index(titles()).unwrap();
    let res = index.search_fuzzy("comp", 10);
    assert_eq!(res.len(), 2);
    let mut got: Vec<String> = res.iter().map(|r| r.fields[0].1.clone()).collect();
    got.sort();
    assert_eq!(got, vec!["computer graphics".to_string(), "intro to computer science".to_string()]);
}

#[test]
fn fuzzy_misses_unrelated_query() {
    let index = build_index(titles()).unwrap();
    assert!(index.search_fuzzy("xyz", 10).is_empty());
}

#[test]
fn fuzzy_exact_token_returns_its_postings() {
    let index = build_index(titles()).unwrap();
    let res = index.search_fuzzy("computer", 10);
    assert_eq!(res.len(), 2);
}

#[test]
fn fuzzy_empty_query_matches_nothing() {
    let index = build_index(titles()).unwrap();
    assert!(index.search_fuzzy("", 10).is_empty());
}

#[test]
fn fuzzy_first_character_gate_skips() {
    // "omputer" is contained in "computer" but starts differently.
    let index = build_index(titles()).unwrap();
    assert!(index.search_fuzzy("omputer", 10).is_empty());
}

#[test]
fn fuzzy_length_gate_skips_longer_queries() {
    let index = build_index(titles()).unwrap();
    assert!(index.search_fuzzy("computers", 10).is_empty());
}

#[test]
fn fuzzy_never_repeats_a_record() {
    // Both tokens of record 0 contain "ab"; the record must come back once.
    let index = build_index(vec![rec(&[("t", "abc abd")])]).unwrap();
    let res = index.search_fuzzy("ab", 10);
    assert_eq!(res.len(), 1);
}

#[test]
fn fuzzy_can_overshoot_the_limit() {
    // One matching token with five postings: the pre-check passes once with
    // an empty accumulator, and the whole posting list lands in the result.
    let records: Vec<Record> = (0..5).map(|i| rec(&[("t", "alpha"), ("n", &i.to_string())])).collect();
    let index = build_index(records).unwrap();
    let res = index.search_fuzzy("al", 1);
    assert_eq!(res.len(), 5);
}

#[test]
fn fuzzy_early_exit_stops_later_tokens() {
    // "albedo" fills the limit; the scan stops before any further token.
    let mut records: Vec<Record> = (0..3).map(|_| rec(&[("t", "albedo")])).collect();
    records.push(rec(&[("t", "albatross")]));
    let index = build_index(records).unwrap();
    let res = index.search_fuzzy("alb", 2);
    assert_eq!(res.len(), 3);
}

#[test]
fn fuzzy_nonpositive_limit_returns_nothing() {
    let index = build_index(titles()).unwrap();
    assert!(index.search_fuzzy("computer", 0).is_empty());
    assert!(index.search_fuzzy("computer", -3).is_empty());
}

#[test]
fn search_dispatches_on_strictness() {
    let index = build_index(titles()).unwrap();
    // Strict mode ignores the limit entirely.
    assert_eq!(index.search("computer", 0, true).len(), 2);
    assert_eq!(index.search("computer", 1, true).len(), 2);
    // Fuzzy mode applies it as the pre-check bound.
    assert!(index.search("computer", 0, false).is_empty());
    assert_eq!(index.search("comp", 10, false).len(), 2);
}

#[test]
fn non_alphanumeric_tokens_are_not_indexed() {
    let index = build_index(vec![rec(&[("t", "c++ rust")])]).unwrap();
    assert!(index.search_strict("c++").is_empty());
    assert_eq!(index.search_strict("rust").len(), 1);
    assert!(index.search_fuzzy("c+", 10).is_empty());
}

#[test]
fn values_are_normalized_before_splitting() {
    let index = build_index(vec![rec(&[("t", "intro   to    biology")])]).unwrap();
    assert_eq!(index.search_strict("intro").len(), 1);
    assert_eq!(index.search_strict("to").len(), 1);
    assert_eq!(index.search_strict("biology").len(), 1);
}

#[test]
fn leading_space_indexes_an_empty_token() {
    // " a" collapses to " a" and splits into "" and "a"; the empty piece is
    // all-alphanumeric vacuously, so strict lookup of "" finds the record,
    // while the fuzzy gate still skips empty queries.
    let index = build_index(vec![rec(&[("t", " a")])]).unwrap();
    assert_eq!(index.search_strict("").len(), 1);
    assert!(index.search_fuzzy("", 10).is_empty());
}

#[test]
fn tokens_come_from_every_field() {
    let index = build_index(vec![rec(&[("a", "left"), ("b", "right")])]).unwrap();
    assert_eq!(index.search_strict("left").len(), 1);
    assert_eq!(index.search_strict("right").len(), 1);
}

#[test]
fn indices_to_data_preserves_input_order() {
    let index = build_index(titles()).unwrap();
    let res = index.indices_to_data(&vec![2, 0]);
    assert_eq!(res.len(), 2);
    assert_eq!(res[0].fields, rec(&[("title", "biology basics")]).fields);
    assert_eq!(res[1].fields, rec(&[("title", "intro to computer science")]).fields);
}

#[test]
fn rebuilding_from_the_same_store_is_idempotent() {
    let a = build_index(titles()).unwrap();
    let b = build_index(titles()).unwrap();
    for token in ["intro", "to", "computer", "science", "graphics", "biology", "basics", ""] {
        let ra: Vec<Vec<(String, String)>> =
            a.search_strict(token).into_iter().map(|r| r.fields).collect();
        let rb: Vec<Vec<(String, String)>> =
            b.search_strict(token).into_iter().map(|r| r.fields).collect();
        assert_eq!(ra, rb);
    }
}

#[test]
fn every_verbatim_token_is_fuzzy_findable() {
    let index = build_index(titles()).unwrap();
    for token in ["intro", "to", "computer", "science", "graphics", "biology", "basics"] {
        let res = index.search_fuzzy(token, 10);
        assert!(!res.is_empty(), "token {token} not found");
    }
}

#[test]
fn oversized_store_is_rejected() {
    let mut records: Vec<Record> = Vec::with_capacity(32768);
    for _ in 0..32768 {
        records.push(rec(&[]));
    }
    assert!(build_index(records).is_none());
}

#[test]
fn largest_allowed_store_is_accepted() {
    let mut records: Vec<Record> = Vec::with_capacity(32767);
    for _ in 0..32766 {
        records.push(rec(&[]));
    }
    records.push(rec(&[("t", "edge")]));
    let index = build_index(records).expect("32767 records must be accepted");
    assert_eq!(index.search_strict("edge").len(), 1);
}
