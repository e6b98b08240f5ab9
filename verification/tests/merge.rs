use tagmerge::codec::decode;
use tagmerge::fixup::{FixupError, Game};
use tagmerge::merge::{merge, MergeError, Script};
use tagmerge::script::Slot;

fn cv(s: &str) -> Vec<char> {
    s.chars().collect()
}

fn one_slot_script(text: &str) -> Script {
    Script {
        functions: vec![vec![vec![Slot::Seqs(vec![decode(&cv(text))])]]],
        npc_count: 0,
        label_count: 0,
    }
}

#[test]
fn end_to_end_single_function() {
    // Two matched single-function scripts: the merged slot carries the
    // reference text with the portrait's position tag at the anchor.
    let portrait = one_slot_script("Hello#1P\n");
    let reference = one_slot_script("こんにちは\n");
    let merged = merge(Game::Zero, "x0000", &portrait, &reference).unwrap();
    assert_eq!(
        merged.functions,
        vec![vec![vec![Slot::Seqs(vec![decode(&cv("#1Pこんにちは\n"))])]]]
    );
    assert_eq!(merged.npc_count, 0);
    assert_eq!(merged.label_count, 0);
}

#[test]
fn function_count_mismatch_is_fatal() {
    let portrait = Script { functions: vec![vec![]], npc_count: 0, label_count: 0 };
    let reference = Script { functions: vec![], npc_count: 0, label_count: 0 };
    let err = merge(Game::Zero, "x0000", &portrait, &reference).unwrap_err();
    assert_eq!(err, MergeError::FunctionCountMismatch);
}

#[test]
fn npc_count_mismatch_is_fatal() {
    let portrait = Script { functions: vec![], npc_count: 2, label_count: 0 };
    let reference = Script { functions: vec![], npc_count: 3, label_count: 0 };
    let err = merge(Game::Zero, "x0000", &portrait, &reference).unwrap_err();
    assert_eq!(err, MergeError::NpcCountMismatch);
}

#[test]
fn label_count_mismatch_is_fatal() {
    let portrait = Script { functions: vec![], npc_count: 1, label_count: 4 };
    let reference = Script { functions: vec![], npc_count: 1, label_count: 5 };
    let err = merge(Game::Zero, "x0000", &portrait, &reference).unwrap_err();
    assert_eq!(err, MergeError::LabelCountMismatch);
}

#[test]
fn merge_reports_misaligned_function() {
    // Shapes differ in the second function: the error names it.
    let portrait = Script {
        functions: vec![vec![], vec![vec![Slot::Short(cv("a")), Slot::Short(cv("b"))]]],
        npc_count: 0,
        label_count: 0,
    };
    let reference = Script {
        functions: vec![vec![], vec![vec![Slot::Short(cv("j"))]]],
        npc_count: 0,
        label_count: 0,
    };
    let err = merge(Game::Zero, "x0000", &portrait, &reference).unwrap_err();
    match err {
        MergeError::Align { function, .. } => assert_eq!(function, 1),
        other => panic!("expected alignment failure, got {:?}", other),
    }
}

#[test]
fn merge_applies_table_fixup() {
    // Zero / c0140 / function 8 inserts a speaker name at queue front, so
    // a portrait with one extra short slot lines up.
    let mut p_funcs: Vec<Vec<Vec<Slot>>> = (0..8).map(|_| vec![]).collect();
    let mut r_funcs = p_funcs.clone();
    p_funcs.push(vec![vec![Slot::Short(cv("Wendy")), Slot::Short(cv("text"))]]);
    r_funcs.push(vec![vec![Slot::Short(cv("テキスト"))]]);
    let portrait = Script { functions: p_funcs, npc_count: 0, label_count: 0 };
    let reference = Script { functions: r_funcs, npc_count: 0, label_count: 0 };
    let merged = merge(Game::Zero, "c0140", &portrait, &reference).unwrap();
    assert_eq!(
        merged.functions[8],
        vec![vec![Slot::Short(cv("ウェンディ")), Slot::Short(cv("テキスト"))]]
    );
}

#[test]
fn merge_reports_failed_fixup() {
    // Zero / c1400 / function 26 removes queue entry 41; a shorter queue
    // cannot satisfy it.
    let mut p_funcs: Vec<Vec<Vec<Slot>>> = (0..26).map(|_| vec![]).collect();
    let mut r_funcs = p_funcs.clone();
    p_funcs.push(vec![]);
    r_funcs.push(vec![vec![Slot::Short(cv("x"))]]);
    let portrait = Script { functions: p_funcs, npc_count: 0, label_count: 0 };
    let reference = Script { functions: r_funcs, npc_count: 0, label_count: 0 };
    let err = merge(Game::Zero, "c1400", &portrait, &reference).unwrap_err();
    assert_eq!(
        err,
        MergeError::Fixup { function: 26, error: FixupError::RemoveOutOfRange { pos: 41 } }
    );
}

#[test]
fn merge_skips_divergent_functions() {
    // Azure / m4210 / functions 5 to 9 are deliberately divergent: the
    // portrait text stays even though the reference differs entirely.
    let mut p_funcs: Vec<Vec<Vec<Slot>>> = (0..5).map(|_| vec![]).collect();
    let mut r_funcs = p_funcs.clone();
    p_funcs.push(vec![vec![Slot::Seqs(vec![decode(&cv("chest text"))])]]);
    r_funcs.push(vec![]);
    let portrait = Script { functions: p_funcs, npc_count: 0, label_count: 0 };
    let reference = Script { functions: r_funcs, npc_count: 0, label_count: 0 };
    let merged = merge(Game::Azure, "m4210", &portrait, &reference).unwrap();
    assert_eq!(merged.functions[5], portrait.functions[5]);
}

#[test]
fn merge_overwrites_short_strings_directly() {
    let portrait = Script {
        functions: vec![vec![vec![Slot::ShortList(vec![cv("EN1"), cv("EN2")])]]],
        npc_count: 1,
        label_count: 2,
    };
    let reference = Script {
        functions: vec![vec![vec![Slot::ShortList(vec![cv("JP1"), cv("JP2")])]]],
        npc_count: 1,
        label_count: 2,
    };
    let merged = merge(Game::Azure, "t0000", &portrait, &reference).unwrap();
    assert_eq!(
        merged.functions,
        vec![vec![vec![Slot::ShortList(vec![cv("JP1"), cv("JP2")])]]]
    );
    assert_eq!(merged.npc_count, 1);
    assert_eq!(merged.label_count, 2);
}
