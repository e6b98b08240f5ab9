//! Manual corrections applied to the extracted queue before re-injection.
//!
//! A fixup is keyed by game variant, script identifier and function index.
//! It either edits the queue with an ordered list of operations — insert a
//! literal short string at a queue position, or remove the entry at a
//! position and check it equals an expected literal — or skips the
//! function's text entirely (used for deliberately divergent content).

use vstd::prelude::*;

use crate::script::{Extracted, ExtractedView};
use crate::splice::chars_eq;

verus! {

/// One queue edit.
#[derive(Debug, Clone, PartialEq, Eq)]
pub enum FixupOp {
    /// Insert `value` as a short-string entry at queue position `pos`.
    Insert { pos: usize, value: Vec<char> },
    /// Remove the entry at queue position `pos`, which must equal the
    /// short-string literal `expect`.
    Remove { pos: usize, expect: Vec<char> },
}

/// The mathematical model of a [`FixupOp`].
#[verifier::ext_equal]
pub enum FixupOpView {
    Insert { pos: usize, value: Seq<char> },
    Remove { pos: usize, expect: Seq<char> },
}

impl DeepView for FixupOp {
    type V = FixupOpView;

    open spec fn deep_view(&self) -> FixupOpView {
        match self {
            FixupOp::Insert { pos, value } => FixupOpView::Insert {
                pos: *pos,
                value: value.deep_view(),
            },
            FixupOp::Remove { pos, expect } => FixupOpView::Remove {
                pos: *pos,
                expect: expect.deep_view(),
            },
        }
    }
}

/// The fixup decision for one function.
#[derive(Debug, Clone, PartialEq, Eq)]
pub enum FixupAction {
    /// Apply the listed queue edits (none, for most functions).
    Edit(Vec<FixupOp>),
    /// Leave the portrait function untouched: its text is deliberately
    /// divergent and excluded from re-injection.
    Skip,
}

/// The mathematical model of a [`FixupAction`].
#[verifier::ext_equal]
pub enum FixupActionView {
    Edit(Seq<FixupOpView>),
    Skip,
}

impl DeepView for FixupAction {
    type V = FixupActionView;

    open spec fn deep_view(&self) -> FixupActionView {
        match self {
            FixupAction::Edit(ops) => FixupActionView::Edit(ops.deep_view()),
            FixupAction::Skip => FixupActionView::Skip,
        }
    }
}

/// A failed fixup: the hand-curated table no longer matches the extracted
/// queue, meaning upstream content changed silently.
#[derive(Debug, Clone, Copy, PartialEq, Eq, Structural)]
pub enum FixupError {
    /// An insert position lies beyond the queue's end.
    InsertOutOfRange { pos: usize },
    /// A remove position lies beyond the queue's last entry.
    RemoveOutOfRange { pos: usize },
    /// The removed entry does not equal the expected literal.
    RemoveMismatch { pos: usize },
}

/// Applies one edit to the queue.
pub open spec fn apply_op_spec(q: Seq<ExtractedView>, op: FixupOpView) -> Result<
    Seq<ExtractedView>,
    FixupError,
> {
    match op {
        FixupOpView::Insert { pos, value } => if pos <= q.len() {
            Ok(q.insert(pos as int, ExtractedView::Short(value)))
        } else {
            Err(FixupError::InsertOutOfRange { pos })
        },
        FixupOpView::Remove { pos, expect } => if pos < q.len() {
            if q[pos as int] == ExtractedView::Short(expect) {
                Ok(q.remove(pos as int))
            } else {
                Err(FixupError::RemoveMismatch { pos })
            }
        } else {
            Err(FixupError::RemoveOutOfRange { pos })
        },
    }
}

/// Applies the edits from index `t` on, in order, stopping at the first
/// failure.
pub open spec fn apply_ops_spec(
    q: Seq<ExtractedView>,
    ops: Seq<FixupOpView>,
    t: int,
) -> Result<Seq<ExtractedView>, FixupError>
    decreases ops.len() - t,
{
    if t < 0 || t >= ops.len() {
        Ok(q)
    } else {
        match apply_op_spec(q, ops[t]) {
            Ok(q2) => apply_ops_spec(q2, ops, t + 1),
            Err(e) => Err(e),
        }
    }
}

/// Applies a fixup edit list to the extracted queue, in order. Fails with
/// the first operation whose position is out of range or whose removed
/// entry does not equal the expected literal; the queue is then left
/// partially edited and must be discarded.
pub fn apply_fixups(q: &mut Vec<Extracted>, ops: &Vec<FixupOp>) -> (res: Result<
    (),
    FixupError,
>)
    ensures
        match res {
            Ok(()) => apply_ops_spec(old(q).deep_view(), ops.deep_view(), 0) == Ok::<
                _,
                FixupError,
            >(final(q).deep_view()),
            Err(e) => apply_ops_spec(old(q).deep_view(), ops.deep_view(), 0) == Err::<
                Seq<ExtractedView>,
                _,
            >(e),
        },
{
    let ghost opsv = ops.deep_view();
    let mut t: usize = 0;
    while t < ops.len()
        invariant
            t <= ops.len(),
            opsv == ops.deep_view(),
            apply_ops_spec(old(q).deep_view(), opsv, 0) == apply_ops_spec(
                q.deep_view(),
                opsv,
                t as int,
            ),
        decreases ops.len() - t,
    {
        let ghost prev = q.deep_view();
        proof {
            assert(ops@[t as int].deep_view() == opsv[t as int]);
        }
        match &ops[t] {
            FixupOp::Insert { pos, value } => {
                if *pos <= q.len() {
                    let entry = Extracted::Short(crate::script::copy_chars(value));
                    q.insert(*pos, entry);
                    proof {
                        assert(q.deep_view() =~= prev.insert(
                            *pos as int,
                            ExtractedView::Short(value.deep_view()),
                        ));
                    }
                } else {
                    proof {
                        assert(apply_op_spec(prev, opsv[t as int]) == Err::<Seq<ExtractedView>,
                        FixupError>(FixupError::InsertOutOfRange { pos: *pos }));
                        assert(apply_ops_spec(prev, opsv, t as int) == Err::<Seq<ExtractedView>,
                        FixupError>(FixupError::InsertOutOfRange { pos: *pos }));
                    }
                    return Err(FixupError::InsertOutOfRange { pos: *pos });
                }
            },
            FixupOp::Remove { pos, expect } => {
                if *pos < q.len() {
                    let removed = q.remove(*pos);
                    proof {
                        assert(removed.deep_view() == prev[*pos as int]);
                        assert(q.deep_view() =~= prev.remove(*pos as int));
                    }
                    match &removed {
                        Extracted::Short(s) => {
                            if !chars_eq(s, expect) {
                                proof {
                                    assert(s.deep_view() =~= s@);
                                    assert(expect.deep_view() =~= expect@);
                                    assert(prev[*pos as int] != ExtractedView::Short(
                                        expect.deep_view(),
                                    ));
                                    assert(apply_ops_spec(prev, opsv, t as int) == Err::<
                                        Seq<ExtractedView>,
                                        FixupError,
                                    >(FixupError::RemoveMismatch { pos: *pos }));
                                }
                                return Err(FixupError::RemoveMismatch { pos: *pos });
                            }
                            proof {
                                assert(s.deep_view() =~= s@);
                                assert(expect.deep_view() =~= expect@);
                                assert(prev[*pos as int] == ExtractedView::Short(
                                    expect.deep_view(),
                                ));
                            }
                        },
                        Extracted::Free(_) => {
                            proof {
                                assert(prev[*pos as int] != ExtractedView::Short(
                                    expect.deep_view(),
                                ));
                                assert(apply_ops_spec(prev, opsv, t as int) == Err::<
                                    Seq<ExtractedView>,
                                    FixupError,
                                >(FixupError::RemoveMismatch { pos: *pos }));
                            }
                            return Err(FixupError::RemoveMismatch { pos: *pos });
                        },
                    }
                } else {
                    proof {
                        assert(apply_ops_spec(prev, opsv, t as int) == Err::<Seq<ExtractedView>,
                        FixupError>(FixupError::RemoveOutOfRange { pos: *pos }));
                    }
                    return Err(FixupError::RemoveOutOfRange { pos: *pos });
                }
            },
        }
        t += 1;
    }
    Ok(())
}

/// The characters of a string slice, in order.
pub fn str_chars(s: &str) -> (out: Vec<char>)
    ensures
        out@ == s@,
{
    let n = s.unicode_len();
    let mut out: Vec<char> = Vec::new();
    let mut i: usize = 0;
    while i < n
        invariant
            i <= n,
            n == s@.len(),
            out@ == s@.take(i as int),
        decreases n - i,
    {
        out.push(s.get_char(i));
        proof {
            assert(out@ =~= s@.take(i + 1));
        }
        i += 1;
    }
    proof {
        assert(s@.take(n as int) =~= s@);
    }
    out
}

/// The two supported game variants, each with its own fixup set.
#[derive(Debug, Clone, Copy, PartialEq, Eq, Structural)]
pub enum Game {
    Zero,
    Azure,
}

pub open spec fn op_insert(pos: usize, value: Seq<char>) -> FixupOpView {
    FixupOpView::Insert { pos, value }
}

pub open spec fn op_remove(pos: usize, expect: Seq<char>) -> FixupOpView {
    FixupOpView::Remove { pos, expect }
}

pub open spec fn edit1(a: FixupOpView) -> FixupActionView {
    FixupActionView::Edit(seq![a])
}

pub open spec fn edit2(a: FixupOpView, b: FixupOpView) -> FixupActionView {
    FixupActionView::Edit(seq![a, b])
}

pub open spec fn edit3(a: FixupOpView, b: FixupOpView, c: FixupOpView) -> FixupActionView {
    FixupActionView::Edit(seq![a, b, c])
}

/// The fixup set: known divergences between the portrait and reference
/// variants, keyed by game, script identifier and function index, as of the
/// data snapshot. Functions without an entry get an empty edit list.
pub open spec fn fixup_table_spec(game: Game, name: Seq<char>, i: int) -> FixupActionView {
    match game {
        Game::Zero => fixup_table_zero(name, i),
        Game::Azure => fixup_table_azure(name, i),
    }
}

pub open spec fn fixup_table_zero(name: Seq<char>, i: int) -> FixupActionView {
    if name == "c0140"@ && (i == 8 || i == 16 || i == 17) {
        edit1(op_insert(0, "ウェンディ"@))
    } else if name == "c0210"@ && (i == 7 || i == 29) {
        edit1(op_insert(0, "オスカー"@))
    } else if name == "c0210"@ && i == 26 {
        edit1(op_insert(1, "オスカー"@))
    } else if name == "c0210"@ && i == 31 {
        edit1(op_insert(0, "ベネット"@))
    } else if name == "c020c"@ && i == 34 {
        edit2(op_remove(10, "少年"@), op_remove(31, "少年"@))
    } else if name == "c0240"@ && i == 25 {
        edit3(op_remove(17, "少年"@), op_remove(37, "少年"@), op_remove(38, "少年"@))
    } else if name == "c0240"@ && i == 29 {
        FixupActionView::Edit(
            seq![
                op_remove(12, "少年"@),
                op_remove(16, "少年"@),
                op_remove(23, "少年"@),
                op_remove(24, "少年"@),
                op_remove(25, "少年"@),
                op_remove(30, "少年"@),
                op_remove(31, "少年"@),
                op_remove(32, "少年"@),
                op_remove(33, "少年"@),
            ],
        )
    } else if name == "c1010"@ && i == 19 {
        edit2(op_insert(0, "遊撃士スコット"@), op_insert(3, "遊撃士ヴェンツェル"@))
    } else if name == "c1010"@ && i == 20 {
        edit2(op_insert(0, "遊撃士リン"@), op_insert(2, "遊撃士エオリア"@))
    } else if name == "c1010"@ && i == 21 {
        edit1(op_insert(10, "受付ミシェル"@))
    } else if name == "c1010"@ && i == 22 {
        edit1(op_insert(2, "受付ミシェル"@))
    } else if name == "c1010"@ && i == 31 {
        edit1(op_insert(3, "受付ミシェル"@))
    } else if name == "c1150"@ && i == 29 {
        edit1(op_insert(0, "ピエール副局長"@))
    } else if name == "c1160"@ && i == 2 {
        edit1(op_insert(0, "ピエール副局長"@))
    } else if name == "c1160"@ && i == 4 {
        edit1(op_insert(2, "ピエール副局長"@))
    } else if name == "c1400"@ && i == 26 {
        edit1(op_remove(41, "禿の大男"@))
    } else if name == "c1410"@ && i == 51 {
        edit1(op_remove(95, "禿の大男"@))
    } else if name == "c1410"@ && i == 55 {
        edit1(op_insert(0, "アッバス"@))
    } else if name == "t2020"@ && i == 10 {
        edit1(op_insert(0, "ミレイユ准尉"@))
    } else {
        FixupActionView::Edit(Seq::empty())
    }
}

pub open spec fn fixup_table_azure(name: Seq<char>, i: int) -> FixupActionView {
    if name == "c0140"@ && i == 25 {
        edit1(op_insert(0, "ウェンディ"@))
    } else if name == "c1010"@ && i == 21 {
        edit2(op_insert(0, "遊撃士リン"@), op_insert(2, "遊撃士エオリア"@))
    } else if name == "c1010"@ && i == 22 {
        edit2(op_insert(0, "遊撃士スコット"@), op_insert(2, "遊撃士ヴェンツェル"@))
    } else if name == "m1060"@ && i == 4 {
        edit1(op_remove(5, "騎士装束の娘"@))
    } else if name == "m1140"@ && i == 7 {
        edit1(op_remove(5, "騎士装束の娘"@))
    } else if name == "t1650"@ && i == 4 {
        edit1(op_remove(5, "女医"@))
    } else if name == "m4210"@ && 5 <= i <= 9 {
        FixupActionView::Skip
    } else if name == "m4220"@ && 5 <= i <= 10 {
        FixupActionView::Skip
    } else if name == "r1010"@ && 7 <= i <= 10 {
        FixupActionView::Skip
    } else if name == "r1580"@ && 7 <= i <= 8 {
        FixupActionView::Skip
    } else {
        FixupActionView::Edit(Seq::empty())
    }
}

fn ins(pos: usize, value: &str) -> (r: FixupOp)
    ensures
        r.deep_view() == op_insert(pos, value@),
{
    let v = str_chars(value);
    proof {
        assert(v.deep_view() =~= v@);
    }
    FixupOp::Insert { pos, value: v }
}

fn rem(pos: usize, expect: &str) -> (r: FixupOp)
    ensures
        r.deep_view() == op_remove(pos, expect@),
{
    let v = str_chars(expect);
    proof {
        assert(v.deep_view() =~= v@);
    }
    FixupOp::Remove { pos, expect: v }
}

fn act1(a: FixupOp) -> (r: FixupAction)
    ensures
        r.deep_view() == edit1(a.deep_view()),
{
    let ghost av = a.deep_view();
    let mut v: Vec<FixupOp> = Vec::new();
    v.push(a);
    proof {
        assert(v.deep_view() =~= seq![av]);
    }
    FixupAction::Edit(v)
}

fn act2(a: FixupOp, b: FixupOp) -> (r: FixupAction)
    ensures
        r.deep_view() == edit2(a.deep_view(), b.deep_view()),
{
    let ghost av = a.deep_view();
    let ghost bv = b.deep_view();
    let mut v: Vec<FixupOp> = Vec::new();
    v.push(a);
    v.push(b);
    proof {
        assert(v.deep_view() =~= seq![av, bv]);
    }
    FixupAction::Edit(v)
}

fn act3(a: FixupOp, b: FixupOp, c: FixupOp) -> (r: FixupAction)
    ensures
        r.deep_view() == edit3(a.deep_view(), b.deep_view(), c.deep_view()),
{
    let ghost av = a.deep_view();
    let ghost bv = b.deep_view();
    let ghost cv = c.deep_view();
    let mut v: Vec<FixupOp> = Vec::new();
    v.push(a);
    v.push(b);
    v.push(c);
    proof {
        assert(v.deep_view() =~= seq![av, bv, cv]);
    }
    FixupAction::Edit(v)
}

/// Looks up the fixup action for one function of one script.
pub fn fixups_for(game: Game, name: &str, index: usize) -> (act: FixupAction)
    ensures
        act.deep_view() == fixup_table_spec(game, name@, index as int),
{
    match game {
        Game::Zero => {
            if str_eq(name, "c0140") && (index == 8 || index == 16 || index == 17) {
                act1(ins(0, "ウェンディ"))
            } else if str_eq(name, "c0210") && (index == 7 || index == 29) {
                act1(ins(0, "オスカー"))
            } else if str_eq(name, "c0210") && index == 26 {
                act1(ins(1, "オスカー"))
            } else if str_eq(name, "c0210") && index == 31 {
                act1(ins(0, "ベネット"))
            } else if str_eq(name, "c020c") && index == 34 {
                act2(rem(10, "少年"), rem(31, "少年"))
            } else if str_eq(name, "c0240") && index == 25 {
                act3(rem(17, "少年"), rem(37, "少年"), rem(38, "少年"))
            } else if str_eq(name, "c0240") && index == 29 {
                let mut v: Vec<FixupOp> = Vec::new();
                v.push(rem(12, "少年"));
                v.push(rem(16, "少年"));
                v.push(rem(23, "少年"));
                v.push(rem(24, "少年"));
                v.push(rem(25, "少年"));
                v.push(rem(30, "少年"));
                v.push(rem(31, "少年"));
                v.push(rem(32, "少年"));
                v.push(rem(33, "少年"));
                proof {
                    assert(v.deep_view() =~= seq![
                        op_remove(12, "少年"@),
                        op_remove(16, "少年"@),
                        op_remove(23, "少年"@),
                        op_remove(24, "少年"@),
                        op_remove(25, "少年"@),
                        op_remove(30, "少年"@),
                        op_remove(31, "少年"@),
                        op_remove(32, "少年"@),
                        op_remove(33, "少年"@),
                    ]);
                }
                FixupAction::Edit(v)
            } else if str_eq(name, "c1010") && index == 19 {
                act2(ins(0, "遊撃士スコット"), ins(3, "遊撃士ヴェンツェル"))
            } else if str_eq(name, "c1010") && index == 20 {
                act2(ins(0, "遊撃士リン"), ins(2, "遊撃士エオリア"))
            } else if str_eq(name, "c1010") && index == 21 {
                act1(ins(10, "受付ミシェル"))
            } else if str_eq(name, "c1010") && index == 22 {
                act1(ins(2, "受付ミシェル"))
            } else if str_eq(name, "c1010") && index == 31 {
                act1(ins(3, "受付ミシェル"))
            } else if str_eq(name, "c1150") && index == 29 {
                act1(ins(0, "ピエール副局長"))
            } else if str_eq(name, "c1160") && index == 2 {
                act1(ins(0, "ピエール副局長"))
            } else if str_eq(name, "c1160") && index == 4 {
                act1(ins(2, "ピエール副局長"))
            } else if str_eq(name, "c1400") && index == 26 {
                act1(rem(41, "禿の大男"))
            } else if str_eq(name, "c1410") && index == 51 {
                act1(rem(95, "禿の大男"))
            } else if str_eq(name, "c1410") && index == 55 {
                act1(ins(0, "アッバス"))
            } else if str_eq(name, "t2020") && index == 10 {
                act1(ins(0, "ミレイユ准尉"))
            } else {
                FixupAction::Edit(Vec::new())
            }
        },
        Game::Azure => {
            if str_eq(name, "c0140") && index == 25 {
                act1(ins(0, "ウェンディ"))
            } else if str_eq(name, "c1010") && index == 21 {
                act2(ins(0, "遊撃士リン"), ins(2, "遊撃士エオリア"))
            } else if str_eq(name, "c1010") && index == 22 {
                act2(ins(0, "遊撃士スコット"), ins(2, "遊撃士ヴェンツェル"))
            } else if str_eq(name, "m1060") && index == 4 {
                act1(rem(5, "騎士装束の娘"))
            } else if str_eq(name, "m1140") && index == 7 {
                act1(rem(5, "騎士装束の娘"))
            } else if str_eq(name, "t1650") && index == 4 {
                act1(rem(5, "女医"))
            } else if str_eq(name, "m4210") && 5 <= index && index <= 9 {
                FixupAction::Skip
            } else if str_eq(name, "m4220") && 5 <= index && index <= 10 {
                FixupAction::Skip
            } else if str_eq(name, "r1010") && 7 <= index && index <= 10 {
                FixupAction::Skip
            } else if str_eq(name, "r1580") && 7 <= index && index <= 8 {
                FixupAction::Skip
            } else {
                FixupAction::Edit(Vec::new())
            }
        },
    }
}

/// Character-for-character equality of two string slices.
pub fn str_eq(a: &str, b: &str) -> (r: bool)
    ensures
        r == (a@ == b@),
{
    let na = a.unicode_len();
    let nb = b.unicode_len();
    if na != nb {
        return false;
    }
    let mut i: usize = 0;
    while i < na
        invariant
            i <= na,
            na == a@.len(),
            na == b@.len(),
            forall|m: int| 0 <= m < i ==> a@[m] == b@[m],
        decreases na - i,
    {
        if a.get_char(i) != b.get_char(i) {
            return false;
        }
        i += 1;
    }
    proof {
        assert(a@ =~= b@);
    }
    true
}

} // verus!
