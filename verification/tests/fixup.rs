use tagmerge::fixup::{apply_fixups, fixups_for, FixupAction, FixupError, FixupOp, Game};
use tagmerge::script::Extracted;

fn cv(s: &str) -> Vec<char> {
    s.chars().collect()
}

#[test]
fn fixup_insert_at_position() {
    let mut q = vec![Extracted::Short(cv("b"))];
    let ops = vec![FixupOp::Insert { pos: 0, value: cv("a") }];
    apply_fixups(&mut q, &ops).unwrap();
    assert_eq!(q, vec![Extracted::Short(cv("a")), Extracted::Short(cv("b"))]);
}

#[test]
fn fixup_remove_expected_literal() {
    let mut q = vec![Extracted::Short(cv("gone")), Extracted::Short(cv("kept"))];
    let ops = vec![FixupOp::Remove { pos: 0, expect: cv("gone") }];
    apply_fixups(&mut q, &ops).unwrap();
    assert_eq!(q, vec![Extracted::Short(cv("kept"))]);
}

#[test]
fn fixup_removal_mismatch_is_fatal() {
    // Removing an entry expected to equal "X" when the queue holds "Y"
    // must fail, identifying the position.
    let mut q = vec![Extracted::Short(cv("Y"))];
    let ops = vec![FixupOp::Remove { pos: 0, expect: cv("X") }];
    let err = apply_fixups(&mut q, &ops).unwrap_err();
    assert_eq!(err, FixupError::RemoveMismatch { pos: 0 });
}

#[test]
fn fixup_remove_free_entry_is_mismatch() {
    let mut q = vec![Extracted::Free(Vec::new())];
    let ops = vec![FixupOp::Remove { pos: 0, expect: cv("X") }];
    let err = apply_fixups(&mut q, &ops).unwrap_err();
    assert_eq!(err, FixupError::RemoveMismatch { pos: 0 });
}

#[test]
fn fixup_insert_out_of_range() {
    let mut q = vec![Extracted::Short(cv("a"))];
    let ops = vec![FixupOp::Insert { pos: 2, value: cv("b") }];
    let err = apply_fixups(&mut q, &ops).unwrap_err();
    assert_eq!(err, FixupError::InsertOutOfRange { pos: 2 });
}

#[test]
fn fixup_remove_out_of_range() {
    let mut q = vec![Extracted::Short(cv("a"))];
    let ops = vec![FixupOp::Remove { pos: 1, expect: cv("a") }];
    let err = apply_fixups(&mut q, &ops).unwrap_err();
    assert_eq!(err, FixupError::RemoveOutOfRange { pos: 1 });
}

#[test]
fn fixup_ops_apply_in_order() {
    let mut q = vec![Extracted::Short(cv("z"))];
    let ops = vec![
        FixupOp::Insert { pos: 0, value: cv("a") },
        FixupOp::Remove { pos: 1, expect: cv("z") },
    ];
    apply_fixups(&mut q, &ops).unwrap();
    assert_eq!(q, vec![Extracted::Short(cv("a"))]);
}

#[test]
fn table_zero_insert_entry() {
    let act = fixups_for(Game::Zero, "c0140", 8);
    assert_eq!(
        act,
        FixupAction::Edit(vec![FixupOp::Insert { pos: 0, value: cv("ウェンディ") }])
    );
}

#[test]
fn table_zero_remove_entry() {
    let act = fixups_for(Game::Zero, "c1400", 26);
    assert_eq!(
        act,
        FixupAction::Edit(vec![FixupOp::Remove { pos: 41, expect: cv("禿の大男") }])
    );
}

#[test]
fn table_azure_skip_entry() {
    assert_eq!(fixups_for(Game::Azure, "m4210", 6), FixupAction::Skip);
    assert_eq!(fixups_for(Game::Azure, "r1580", 8), FixupAction::Skip);
}

#[test]
fn table_default_is_no_edits() {
    assert_eq!(fixups_for(Game::Zero, "c9999", 0), FixupAction::Edit(Vec::new()));
    assert_eq!(fixups_for(Game::Azure, "m4210", 4), FixupAction::Edit(Vec::new()));
}
