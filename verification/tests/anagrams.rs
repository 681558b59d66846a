use anagrams::index::{AnagramWordList, Anagrams};
use anagrams::key::CanonicalKey;
use anagrams::prep::Preprocess;
use anagrams::source::split_lines;

fn words(xs: &[&str]) -> Vec<String> {
    let mut v: Vec<String> = Vec::new();
    for x in xs {
        v.push(x.to_string());
    }
    v
}

fn got(r: Option<&Vec<String>>) -> Vec<String> {
    r.expect("a bucket was expected").clone()
}

#[test]
fn keys_of_anagrams_are_equal() {
    let a = CanonicalKey::build("listen");
    let b = CanonicalKey::build("silent");
    assert!(a.key_eq(&b));
}

#[test]
fn keys_track_counts_not_just_letters() {
    let a = CanonicalKey::build("aab");
    let b = CanonicalKey::build("abb");
    assert!(!a.key_eq(&b));
}

#[test]
fn single_occurrences_are_not_double_counted() {
    let a = CanonicalKey::build("ab");
    let b = CanonicalKey::build("aab");
    assert!(!a.key_eq(&b));
    assert!(a.key_eq(&CanonicalKey::build("ba")));
}

#[test]
fn empty_words_share_the_empty_key() {
    let a = CanonicalKey::build("");
    let b = CanonicalKey::build("");
    assert!(a.key_eq(&b));
    assert!(!a.key_eq(&CanonicalKey::build("a")));
}

#[test]
fn case_is_preserved_without_normalization() {
    let a = CanonicalKey::build("Listen");
    let b = CanonicalKey::build("silent");
    assert!(!a.key_eq(&b));
}

#[test]
fn build_then_query_round_trip() {
    let src = words(&["listen", "silent", "enlist", "banana"]);
    let idx = AnagramWordList::from_lines(&src, Preprocess::Trim);
    assert_eq!(got(idx.get_all("silent")), words(&["listen", "silent", "enlist"]));
    assert_eq!(got(idx.get_all("banana")), words(&["banana"]));
}

#[test]
fn absent_class_is_an_explicit_absence() {
    let src = words(&["listen", "silent", "enlist", "banana"]);
    let idx = AnagramWordList::from_lines(&src, Preprocess::Trim);
    assert!(idx.get_all("zzz").is_none());
}

#[test]
fn duplicate_entries_are_preserved_in_order() {
    let src = words(&["cat", "act", "cat"]);
    let idx = AnagramWordList::from_lines(&src, Preprocess::Trim);
    assert_eq!(got(idx.get_all("tac")), words(&["cat", "act", "cat"]));
}

#[test]
fn building_twice_answers_identically() {
    let src = words(&["listen", "silent", "", "cat", "act", "tac"]);
    let a = AnagramWordList::from_lines(&src, Preprocess::Keep);
    let b = AnagramWordList::from_lines(&src, Preprocess::Keep);
    for probe in ["listen", "cat", "", "zzz", "Listen"] {
        assert_eq!(a.get_all(probe), b.get_all(probe));
    }
}

#[test]
fn trim_policy_matches_trimmed_queries() {
    let src = words(&["  dog  "]);
    let idx = AnagramWordList::from_lines(&src, Preprocess::Trim);
    assert_eq!(got(idx.get_all("dog")), words(&["dog"]));
}

#[test]
fn keep_policy_stores_lines_untouched() {
    let src = words(&["  dog  "]);
    let idx = AnagramWordList::from_lines(&src, Preprocess::Keep);
    assert!(idx.get_all("dog").is_none());
    assert_eq!(got(idx.get_all("  dog  ")), words(&["  dog  "]));
}

#[test]
fn counts_matter_inside_the_index_too() {
    let src = words(&["aab"]);
    let idx = AnagramWordList::from_lines(&src, Preprocess::Keep);
    assert!(idx.get_all("abb").is_none());
    assert_eq!(got(idx.get_all("aba")), words(&["aab"]));
}

#[test]
fn blank_lines_become_entries() {
    let src = words(&["", "a"]);
    let idx = AnagramWordList::from_lines(&src, Preprocess::Keep);
    assert_eq!(got(idx.get_all("")), words(&[""]));
}

#[test]
fn apply_trims_surrounding_whitespace() {
    let w = Preprocess::Trim.apply("  dog  ");
    assert_eq!(w, "dog".to_string());
    assert_eq!(Preprocess::Trim.apply("\t a b \r\n"), "a b".to_string());
    assert_eq!(Preprocess::Trim.apply("   "), "".to_string());
}

#[test]
fn apply_keep_stores_the_raw_line() {
    let w = Preprocess::Keep.apply("  dog  ");
    assert_eq!(w, "  dog  ".to_string());
}

#[test]
fn split_lines_cuts_on_line_feeds() {
    assert_eq!(split_lines("listen\nsilent\nbanana"), words(&["listen", "silent", "banana"]));
    assert_eq!(split_lines("a\nb\n"), words(&["a", "b", ""]));
    assert_eq!(split_lines(""), words(&[""]));
    assert_eq!(split_lines("one"), words(&["one"]));
    assert_eq!(split_lines("\r\ncrlf"), words(&["\r", "crlf"]));
}
