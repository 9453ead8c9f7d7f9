use list_entities::collections::{every, intersection, range, some, take_while, union, uniq};
use list_entities::parser::{compute_exact_score, compute_fuzzy_score, compute_structural_score, take_until};
use list_entities::strings::{jaro_winkler_similarity, levenshtein_distance, levenshtein_similarity, Ratio};
use list_entities::tokens::{has_space, is_space, is_word, to_tokens};

fn strings(v: &[&str]) -> Vec<String> {
    v.iter().map(|s| s.to_string()).collect()
}

#[test]
fn distance_to_self_is_zero() {
    assert_eq!(levenshtein_distance("monday", "monday"), 0);
    assert_eq!(jaro_winkler_similarity("monday", "monday", Some(true)), Some(Ratio { num: 1, den: 1 }));
}

#[test]
fn levenshtein_distance_values() {
    assert_eq!(levenshtein_distance("kitten", "sitting"), 3);
    assert_eq!(levenshtein_distance("sitting", "kitten"), 3);
    assert_eq!(levenshtein_distance("flaw", "lawn"), 2);
    assert_eq!(levenshtein_distance("abc", "abc"), 0);
    assert_eq!(levenshtein_distance("a", "b"), 1);
}

#[test]
fn levenshtein_similarity_is_symmetric() {
    let ab = levenshtein_similarity("kitten", "sitting");
    let ba = levenshtein_similarity("sitting", "kitten");
    assert_eq!(ab, Ratio { num: 4, den: 7 });
    assert_eq!(ab, ba);
    assert!(ab.num <= ab.den);
}

#[test]
fn empty_inputs_short_circuit() {
    assert_eq!(jaro_winkler_similarity("", "x", Some(true)), Some(Ratio { num: 0, den: 1 }));
    assert_eq!(levenshtein_distance("", "x"), 0);
    assert_eq!(levenshtein_similarity("", "x"), Ratio { num: 0, den: 1 });
}

#[test]
fn jaro_winkler_classic_value() {
    let r = jaro_winkler_similarity("MARTHA", "MARHTA", Some(true)).unwrap();
    assert_eq!(r, Ratio { num: 6228, den: 6480 });
    let v = r.num as f64 / r.den as f64;
    assert!((v - 0.9611).abs() < 0.0001);
}

#[test]
fn jaro_winkler_without_boost() {
    // "abc" against "xyz": nothing matches.
    assert_eq!(jaro_winkler_similarity("abc", "xyz", Some(true)), Some(Ratio { num: 0, den: 1 }));
    // Single differing characters: window saturates at zero.
    assert_eq!(jaro_winkler_similarity("a", "b", None), Some(Ratio { num: 0, den: 1 }));
}

#[test]
fn jaro_winkler_case_folding() {
    assert_eq!(jaro_winkler_similarity("abc", "ABC", Some(false)), Some(Ratio { num: 1, den: 1 }));
    assert_ne!(jaro_winkler_similarity("abc", "ABC", Some(true)), Some(Ratio { num: 1, den: 1 }));
}

#[test]
fn jaro_winkler_too_long() {
    let long = "a".repeat(20000);
    assert_eq!(jaro_winkler_similarity(&long, "b", Some(true)), None);
}

#[test]
fn structural_score_symmetric_and_bounded() {
    let a = strings(&["new", " ", "york"]);
    let b = strings(&["NewYork"]);
    let ab = compute_structural_score(&a, &b);
    let ba = compute_structural_score(&b, &a);
    assert_eq!(ab, ba);
    assert!(ab.num <= ab.den);
    let same = compute_structural_score(&a, &a);
    assert_eq!(same.num, same.den);
}

#[test]
fn structural_score_value() {
    // {m,o,n,d,e,y} against {m,o,n,d,a,y}: 5 shared of 7, one token each, equal lengths.
    let r = compute_structural_score(&strings(&["mondey"]), &strings(&["monday"]));
    assert_eq!(r.num * 7, r.den * 5);
}

#[test]
fn exact_score_values() {
    let r = compute_exact_score(&strings(&["mon", "day"]), &strings(&["monday"]));
    assert_eq!(r.num, r.den);
    let r = compute_exact_score(&strings(&["mondey"]), &strings(&["monday"]));
    assert_eq!(r, Ratio { num: 5, den: 6 });
    let r = compute_exact_score(&strings(&["mon"]), &strings(&["monday"]));
    assert_eq!(r, Ratio { num: 3, den: 6 });
}

#[test]
fn fuzzy_score_value() {
    let r = compute_fuzzy_score(&strings(&["mondey"]), &strings(&["monday"])).unwrap();
    let v = r.num as f64 / r.den as f64;
    // (5/6 + 14/15) / 2
    assert!((v - (5.0 / 6.0 + 14.0 / 15.0) / 2.0).abs() < 1e-9);
}

#[test]
fn token_classification() {
    assert!(is_word("hello"));
    assert!(!is_word("a.b"));
    assert!(!is_word("a b"));
    assert!(!is_word("a\tb"));
    assert!(!is_word("caf\u{e6}"));
    assert!(has_space("a b"));
    assert!(!has_space("a\tb"));
    assert!(!has_space("ab"));
    assert!(is_space("   "));
    assert!(is_space(""));
    assert!(!is_space(" a "));
}

#[test]
fn token_offsets() {
    let toks = to_tokens(&strings(&["I", "'m", "free", " ", "monday"]));
    assert_eq!(toks.len(), 5);
    assert_eq!(toks[2].start_char, 3);
    assert_eq!(toks[2].end_char, 7);
    assert_eq!(toks[4].start_char, 8);
    assert_eq!(toks[4].end_char, 14);
    assert_eq!(toks[4].start_token, 4);
    assert_eq!(toks[4].end_token, 5);
    assert!(toks[3].is_space);
    assert!(!toks[1].is_word);
    assert!(toks[2].is_word);
}

#[test]
fn window_selection() {
    let toks = to_tokens(&strings(&["I", "'m", "free", " ", "monday"]));
    let w = take_until(&toks, 0, 6);
    assert_eq!(w.len(), 3);
    // "free" then " " is taken, and the trailing space is dropped.
    let w = take_until(&toks, 2, 6);
    assert_eq!(w.len(), 1);
    assert_eq!(w[0].value, "free");
    let w = take_until(&toks, 4, 6);
    assert_eq!(w.len(), 1);
}

#[test]
fn collection_helpers() {
    assert_eq!(range(3), vec![0, 1, 2]);
    assert_eq!(range(-2), Vec::<i32>::new());
    let v = [1, 2, 3];
    assert!(every(&v, |x: &i32| *x > 0));
    assert!(!every(&v, |x: &i32| *x > 1));
    assert!(some(&v, |x: &i32| *x == 2));
    assert!(!some(&v, |x: &i32| *x == 5));
    assert_eq!(take_while(&v, |x: &i32| *x < 3), vec![1, 2]);
    assert_eq!(intersection(&['a', 'b', 'a', 'c'], &['a', 'c']), vec!['a', 'a', 'c']);
    assert_eq!(union(&['a', 'b', 'a'], &['c', 'b']), vec!['a', 'b', 'c']);
    assert_eq!(uniq(&['x', 'y', 'x']), vec!['x', 'y']);
}

#[test]
fn window_never_ends_on_spaces() {
    let toks = to_tokens(&strings(&["a", " ", " "]));
    let w = take_until(&toks, 0, 3);
    assert_eq!(w.len(), 1);
    assert_eq!(w[0].value, "a");
}

#[test]
fn window_rule_applies_after_first_token() {
    // The empty first token joins; "abc" would move the total from 0 to 3, away from 1.
    let toks = to_tokens(&strings(&["x", "", "abc"]));
    let w = take_until(&toks, 1, 1);
    assert!(w.is_empty());
    // From "x" the target is already reached after the first token.
    let w = take_until(&toks, 0, 1);
    assert_eq!(w.len(), 1);
}

#[test]
fn jaro_winkler_folded_texts() {
    let r = list_entities::strings::jaro_winkler_chars(&"MONDEY".chars().collect(), &"MONDAY".chars().collect());
    // Weight 8/9, boosted by four common leading characters: 8/9 + 0.4 / 9.
    assert_eq!(r.num * 45, r.den * 42);
}
