use i3state::label::{
    canonicalize, contains_substr, default_rules, derive_label, sort_dedup, str_eq, str_lex_lt,
    CanonRule,
};

fn strings(xs: &[&str]) -> Vec<String> {
    xs.iter().map(|s| s.to_string()).collect()
}

#[test]
fn substring_found_and_missed() {
    assert!(contains_substr("Mozilla Firefox Nightly", "Nightly"));
    assert!(contains_substr("Nightly", "Nightly"));
    assert!(contains_substr("abc", ""));
    assert!(!contains_substr("", "Nightly"));
    assert!(!contains_substr("nightly", "Nightly"));
    assert!(!contains_substr("Night", "Nightly"));
}

#[test]
fn canonicalize_folds_nightly_titles() {
    let rules = default_rules();
    let c = canonicalize(&rules, &"Mozilla Firefox Nightly".to_string());
    assert_eq!(c, "firefox");
    let c = canonicalize(&rules, &"Nightly build 42".to_string());
    assert_eq!(c, "firefox");
}

#[test]
fn canonicalize_leaves_other_titles_alone() {
    let rules = default_rules();
    let c = canonicalize(&rules, &"alacritty".to_string());
    assert_eq!(c, "alacritty");
    let c = canonicalize(&rules, &"".to_string());
    assert_eq!(c, "");
}

#[test]
fn canonicalize_is_idempotent() {
    let rules = default_rules();
    let once = canonicalize(&rules, &"Firefox Nightly".to_string());
    let twice = canonicalize(&rules, &once);
    assert_eq!(once, twice);
    // an already-canonical name comes back unchanged
    let canonical = "firefox".to_string();
    assert_eq!(canonicalize(&rules, &canonical), "firefox");
}

#[test]
fn canonicalize_honors_rule_order() {
    let rules = vec![
        CanonRule { pattern: "ab".to_string(), tag: "first".to_string() },
        CanonRule { pattern: "b".to_string(), tag: "second".to_string() },
    ];
    assert_eq!(canonicalize(&rules, &"xaby".to_string()), "first");
    assert_eq!(canonicalize(&rules, &"xby".to_string()), "second");
    assert_eq!(canonicalize(&rules, &"xy".to_string()), "xy");
}

#[test]
fn label_of_empty_set_is_empty() {
    let label = derive_label(&strings(&[]));
    assert_eq!(label, "empty");
}

#[test]
fn label_of_single_name_is_the_name() {
    let label = derive_label(&strings(&["firefox"]));
    assert_eq!(label, "firefox");
}

#[test]
fn label_of_two_names_is_mixed() {
    let label = derive_label(&strings(&["firefox", "term"]));
    assert_eq!(label, "mixed");
}

#[test]
fn label_is_order_invariant_through_sort_dedup() {
    let a = derive_label(&sort_dedup(&strings(&["term", "firefox"])));
    let b = derive_label(&sort_dedup(&strings(&["firefox", "term"])));
    assert_eq!(a, b);
    assert_eq!(a, "mixed");
    let a = derive_label(&sort_dedup(&strings(&["term", "term", "term"])));
    let b = derive_label(&sort_dedup(&strings(&["term"])));
    assert_eq!(a, b);
    assert_eq!(a, "term");
}

#[test]
fn sort_dedup_sorts_and_removes_duplicates() {
    let r = sort_dedup(&strings(&["b", "a", "c", "a", "b"]));
    assert_eq!(r, strings(&["a", "b", "c"]));
    let r = sort_dedup(&strings(&[]));
    assert_eq!(r, strings(&[]));
    let r = sort_dedup(&strings(&["z"]));
    assert_eq!(r, strings(&["z"]));
}

#[test]
fn lexicographic_order_on_strings() {
    assert!(str_lex_lt("a", "b"));
    assert!(str_lex_lt("a", "ab"));
    assert!(str_lex_lt("", "a"));
    assert!(!str_lex_lt("b", "a"));
    assert!(!str_lex_lt("a", "a"));
    assert!(str_lex_lt("abc", "abd"));
}

#[test]
fn string_equality_by_characters() {
    assert!(str_eq("", ""));
    assert!(str_eq("term", "term"));
    assert!(!str_eq("term", "terms"));
    assert!(!str_eq("Term", "term"));
}
