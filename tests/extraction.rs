use list_entities::extract::{extract_for_list_model, ExtractError, ListEntityModel};
use list_entities::strings::Ratio;

fn strings(v: &[&str]) -> Vec<String> {
    v.iter().map(|s| s.to_string()).collect()
}

fn model(fuzzy: Ratio, groups: &[(&str, &[&[&str]])]) -> ListEntityModel {
    ListEntityModel {
        name: "day".to_string(),
        fuzzy,
        tokens: groups
            .iter()
            .map(|(c, occs)| (c.to_string(), occs.iter().map(|o| strings(o)).collect()))
            .collect(),
    }
}

fn confidence(num: u128, den: u128) -> f64 {
    (num as f64 / den as f64).sqrt()
}

#[test]
fn exact_match_found() {
    let m = model(Ratio { num: 1, den: 1 }, &[("Monday", &[&["monday"]])]);
    let r = extract_for_list_model(&strings(&["I", "'m", "free", " ", "monday"]), &m).unwrap();
    assert_eq!(r.len(), 1);
    assert_eq!(r[0].value, "Monday");
    assert_eq!(r[0].name, "day");
    assert_eq!(r[0].confidence.num, r[0].confidence.den);
    assert_eq!(r[0].source, "monday");
    assert_eq!(r[0].char_start, 8);
    assert_eq!(r[0].char_end, 14);
}

#[test]
fn fuzzy_match_found() {
    let m = model(Ratio { num: 4, den: 5 }, &[("Monday", &[&["monday"]])]);
    let r = extract_for_list_model(&strings(&["I", "'m", "free", " ", "mondey"]), &m).unwrap();
    assert_eq!(r.len(), 1);
    assert_eq!(r[0].value, "Monday");
    let c = confidence(r[0].confidence.num, r[0].confidence.den);
    assert!(c > 0.6 && c < 1.0);
    assert_eq!(r[0].source, "mondey");
}

#[test]
fn exact_only_rejects_typo() {
    let m = model(Ratio { num: 1, den: 1 }, &[("Monday", &[&["monday"]])]);
    let r = extract_for_list_model(&strings(&["I", "'m", "free", " ", "mondey"]), &m).unwrap();
    assert!(r.is_empty());
}

#[test]
fn fuzzy_match_lowercases_input() {
    let m = model(Ratio { num: 4, den: 5 }, &[("Monday", &[&["monday"]])]);
    let r = extract_for_list_model(&strings(&["MONDAY"]), &m).unwrap();
    assert_eq!(r.len(), 1);
    // Case-sensitive character sets share nothing, lower-cased ones everything.
    assert_eq!(r[0].confidence.num * 2, r[0].confidence.den);
}

#[test]
fn overlapping_same_value_keeps_first() {
    let m = model(Ratio { num: 1, den: 1 }, &[("New York", &[&["new", " ", "york"], &["york"]])]);
    let r = extract_for_list_model(&strings(&["new", " ", "york"]), &m).unwrap();
    assert_eq!(r.len(), 1);
    assert_eq!(r[0].source, "new york");
    assert_eq!(r[0].char_start, 0);
    assert_eq!(r[0].char_end, 8);
}

#[test]
fn different_values_are_not_compared() {
    let m = model(Ratio { num: 1, den: 1 }, &[("A", &[&["york"]]), ("B", &[&["york"]])]);
    let r = extract_for_list_model(&strings(&["york"]), &m).unwrap();
    assert_eq!(r.len(), 2);
    assert_eq!(r[0].value, "A");
    assert_eq!(r[1].value, "B");
}

#[test]
fn low_scores_never_returned() {
    let m = model(Ratio { num: 1, den: 100 }, &[("Monday", &[&["monday"]])]);
    let r = extract_for_list_model(&strings(&["xyzw"]), &m).unwrap();
    assert!(r.is_empty());
}

#[test]
fn extraction_is_deterministic() {
    let m = model(
        Ratio { num: 4, den: 5 },
        &[("Monday", &[&["monday"], &["mon"]]), ("Tuesday", &[&["tuesday"]])],
    );
    let toks = strings(&["mondey", " ", "or", " ", "tuesday"]);
    let a = extract_for_list_model(&toks, &m);
    let b = extract_for_list_model(&toks, &m);
    assert_eq!(format!("{:?}", a), format!("{:?}", b));
    // The window "or tuesday" is generated before "tuesday" and overlaps it, so only the
    // Monday match is left.
    let a = a.unwrap();
    assert_eq!(a.len(), 1);
    assert_eq!(a[0].value, "Monday");
}

#[test]
fn empty_inputs_give_nothing() {
    let m = model(Ratio { num: 1, den: 1 }, &[]);
    assert!(extract_for_list_model(&strings(&["monday"]), &m).unwrap().is_empty());
    let m = model(Ratio { num: 1, den: 1 }, &[("Monday", &[&["monday"]])]);
    assert!(extract_for_list_model(&[], &m).unwrap().is_empty());
}

#[test]
fn empty_occurrence_is_refused() {
    let m = model(Ratio { num: 1, den: 1 }, &[("Monday", &[&[]])]);
    let r = extract_for_list_model(&strings(&["monday"]), &m);
    assert_eq!(r.unwrap_err(), ExtractError::EmptyOccurrence);
}

#[test]
fn long_text_is_refused() {
    let m = model(Ratio { num: 1, den: 1 }, &[("Monday", &[&["monday"]])]);
    let long = "a".repeat(20000);
    let r = extract_for_list_model(&strings(&[&long]), &m);
    assert_eq!(r.unwrap_err(), ExtractError::TextTooLong);
}

#[test]
fn canonical_values_go_in_key_order() {
    let m1 = model(Ratio { num: 1, den: 1 }, &[("B", &[&["york"]]), ("A", &[&["york"]])]);
    let m2 = model(Ratio { num: 1, den: 1 }, &[("A", &[&["york"]]), ("B", &[&["york"]])]);
    let toks = strings(&["york"]);
    let r1 = extract_for_list_model(&toks, &m1).unwrap();
    let r2 = extract_for_list_model(&toks, &m2).unwrap();
    assert_eq!(format!("{:?}", r1), format!("{:?}", r2));
    assert_eq!(r1[0].value, "A");
    assert_eq!(r1[1].value, "B");
}

#[test]
fn duplicate_canonical_is_refused() {
    let m = model(Ratio { num: 1, den: 1 }, &[("A", &[&["york"]]), ("A", &[&["new"]])]);
    let r = extract_for_list_model(&strings(&["york"]), &m);
    assert_eq!(r.unwrap_err(), ExtractError::DuplicateCanonical);
}

#[test]
fn empty_model_accepts_long_utterance() {
    let m = model(Ratio { num: 1, den: 1 }, &[]);
    let long = "a".repeat(20000);
    assert!(extract_for_list_model(&strings(&[&long]), &m).unwrap().is_empty());
}

#[test]
fn long_utterance_is_scored() {
    let m = model(Ratio { num: 1, den: 1 }, &[("Monday", &[&["monday"]])]);
    let mut toks: Vec<String> = Vec::new();
    for _ in 0..300 {
        toks.push("word".to_string());
        toks.push(" ".to_string());
    }
    toks.push("monday".to_string());
    let r = extract_for_list_model(&toks, &m).unwrap();
    assert_eq!(r.len(), 1);
    assert_eq!(r[0].char_start, 1500);
}

#[test]
fn long_occurrence_without_tokens_gives_nothing() {
    let long = "a".repeat(20000);
    let occ: &[&str] = &[&long];
    let m = model(Ratio { num: 1, den: 1 }, &[("Long", &[occ])]);
    assert!(extract_for_list_model(&[], &m).unwrap().is_empty());
}
