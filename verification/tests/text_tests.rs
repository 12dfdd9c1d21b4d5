use record_search::text::remove_double_spaces;

#[test]
fn collapses_pairs_of_spaces() {
    assert_eq!(remove_double_spaces("a  b"), "a b");
    assert_eq!(remove_double_spaces("a    b"), "a b");
    assert_eq!(remove_double_spaces("a b"), "a b");
}

#[test]
fn keeps_single_outer_spaces() {
    assert_eq!(remove_double_spaces("  a "), " a ");
    assert_eq!(remove_double_spaces("   "), " ");
}

#[test]
fn leaves_other_whitespace_alone() {
    assert_eq!(remove_double_spaces("a\t\tb"), "a\t\tb");
    assert_eq!(remove_double_spaces("a\n\nb"), "a\n\nb");
    assert_eq!(remove_double_spaces("a \t b"), "a \t b");
}

#[test]
fn empty_string_stays_empty() {
    assert_eq!(remove_double_spaces(""), "");
}

#[test]
fn handles_non_ascii_text() {
    assert_eq!(remove_double_spaces("héllo  wörld"), "héllo wörld");
}
