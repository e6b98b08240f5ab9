use tagmerge::codec::decode;
use tagmerge::splice::{splice_segments, splice_tags};

fn sc(s: &str) -> Vec<char> {
    s.chars().collect()
}

fn spliced(jp: &str, port: &str) -> String {
    splice_tags(&sc(jp), &sc(port)).into_iter().collect()
}

#[test]
fn splice_neutral_input_unchanged() {
    // Identical encodings on both sides come back untouched.
    let s = "a#1Pb#2F";
    assert_eq!(spliced(s, s), s);
}

#[test]
fn voice_anchor_without_tags_unchanged() {
    // A voice tag alone, with no position or face tags anywhere, moves
    // nothing.
    assert_eq!(spliced("ab#2Vcd", "xyz"), "ab#2Vcd");
}

#[test]
fn position_substitution() {
    assert_eq!(spliced("a#1Pb", "x#9Pc"), "a#9Pb");
}

#[test]
fn position_insertion_at_default_anchor() {
    assert_eq!(spliced("hello", "#9P"), "#9Phello");
}

#[test]
fn position_insertion_after_voice() {
    assert_eq!(spliced("xx#2Vhi", "#9P"), "xx#2V#9Phi");
}

#[test]
fn position_deletion() {
    assert_eq!(spliced("a#1Pb", "x"), "ab");
}

#[test]
fn face_fallback_at_voice_anchor() {
    // The reference's voice tag ends at offset 5; the portrait's face tag
    // lands right there.
    assert_eq!(spliced("xx#2Vhi", "#3F"), "xx#2V#3Fhi");
}

#[test]
fn face_kept_when_reference_has_one() {
    assert_eq!(spliced("aa#1Fbb", "#3F"), "aa#1Fbb");
}

#[test]
fn digitless_tags_match() {
    assert_eq!(spliced("hello", "#P"), "#Phello");
}

#[test]
fn splice_segments_merges_and_flags() {
    let r = decode(&sc("こんにちは\n"));
    let p = decode(&sc("Hello#1P\n"));
    let (merged, anomaly) = splice_segments(&r, &p);
    assert_eq!(merged, decode(&sc("#1Pこんにちは\n")));
    assert!(anomaly);
}

#[test]
fn splice_segments_no_flag_when_unchanged() {
    let r = decode(&sc("plain\n"));
    let p = decode(&sc("other\n"));
    let (merged, anomaly) = splice_segments(&r, &p);
    assert_eq!(merged, decode(&sc("plain\n")));
    assert!(!anomaly);
}
