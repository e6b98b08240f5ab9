//! Merge driver: validates structural parity between the portrait and
//! reference scripts, then merges each function by extracting the
//! reference's text queue, applying that function's fixup action, and
//! re-injecting the queue into the portrait function.
//!
//! NPC and label records are opaque to the merge: they are copied wholesale
//! from the reference by the caller on success, and stand here as counts,
//! whose parity the driver checks.

use vstd::prelude::*;

use crate::fixup::{
    apply_ops_spec, fixup_table_spec, fixups_for, FixupAction, FixupActionView, FixupError, Game,
};
use crate::script::{
    copy_chars, copy_segments, extract, extract_spec, inject, inject_spec, AlignError, Func,
    Instr, Slot, SlotView,
};

verus! {

/// A script: its instruction streams, and the sizes of its NPC and label
/// tables, which the merge treats as opaque records.
#[derive(Debug, Clone, PartialEq, Eq)]
pub struct Script {
    pub functions: Vec<Func>,
    pub npc_count: usize,
    pub label_count: usize,
}

/// The mathematical model of a [`Script`].
#[verifier::ext_equal]
pub struct ScriptView {
    pub functions: Seq<Seq<Seq<SlotView>>>,
    pub npc_count: usize,
    pub label_count: usize,
}

impl DeepView for Script {
    type V = ScriptView;

    open spec fn deep_view(&self) -> ScriptView {
        ScriptView {
            functions: self.functions.deep_view(),
            npc_count: self.npc_count,
            label_count: self.label_count,
        }
    }
}

/// A fatal merge failure. The whole run stops on the first one.
#[derive(Debug, Clone, Copy, PartialEq, Eq, Structural)]
pub enum MergeError {
    /// The two scripts have different function counts.
    FunctionCountMismatch,
    /// The two scripts have different NPC counts.
    NpcCountMismatch,
    /// The two scripts have different total label counts.
    LabelCountMismatch,
    /// A fixup operation failed on the given function's queue.
    Fixup { function: usize, error: FixupError },
    /// Queue/slot alignment failed on the given function. The inner
    /// positions are diagnostic.
    Align { function: usize, error: AlignError },
}

/// Both scripts have equal function, NPC and total label counts.
pub open spec fn parity_ok(p: ScriptView, r: ScriptView) -> bool {
    &&& p.functions.len() == r.functions.len()
    &&& p.npc_count == r.npc_count
    &&& p.label_count == r.label_count
}

/// The fixed-up queue for function `i`: the reference function's extracted
/// queue after its fixup edits (unused for a skipped function).
pub open spec fn func_queue(game: Game, name: Seq<char>, rfi: Seq<Seq<SlotView>>, i: int) -> Result<
    Seq<crate::script::ExtractedView>,
    FixupError,
> {
    match fixup_table_spec(game, name, i) {
        FixupActionView::Skip => Ok(Seq::empty()),
        FixupActionView::Edit(ops) => apply_ops_spec(extract_spec(rfi), ops, 0),
    }
}

/// Function `i` merges cleanly: its fixups apply and re-injection succeeds
/// (a skipped function always does).
pub open spec fn func_merges(
    game: Game,
    name: Seq<char>,
    pfi: Seq<Seq<SlotView>>,
    rfi: Seq<Seq<SlotView>>,
    i: int,
) -> bool {
    match fixup_table_spec(game, name, i) {
        FixupActionView::Skip => true,
        FixupActionView::Edit(_) => match func_queue(game, name, rfi, i) {
            Ok(q) => inject_spec(pfi, q) is Some,
            Err(_) => false,
        },
    }
}

/// The merged form of function `i`: the portrait function unchanged when
/// skipped, else the re-injection of the fixed-up reference queue.
pub open spec fn merged_func(
    game: Game,
    name: Seq<char>,
    pfi: Seq<Seq<SlotView>>,
    rfi: Seq<Seq<SlotView>>,
    i: int,
) -> Seq<Seq<SlotView>> {
    match fixup_table_spec(game, name, i) {
        FixupActionView::Skip => pfi,
        FixupActionView::Edit(_) => inject_spec(pfi, func_queue(game, name, rfi, i)->Ok_0)->Some_0,
    }
}

/// Copies one slot.
fn copy_slot(sl: &Slot) -> (out: Slot)
    ensures
        out.deep_view() == sl.deep_view(),
{
    match sl {
        Slot::Seqs(ss) => {
            let mut v: Vec<Vec<crate::codec::Segment>> = Vec::new();
            let mut k: usize = 0;
            while k < ss.len()
                invariant
                    k <= ss.len(),
                    v.deep_view() == ss.deep_view().take(k as int),
                decreases ss.len() - k,
            {
                let ghost prev = v.deep_view();
                let c = copy_segments(&ss[k]);
                v.push(c);
                proof {
                    assert(v.deep_view() =~= prev.push(ss@[k as int].deep_view()));
                    assert(v.deep_view() =~= ss.deep_view().take(k + 1));
                }
                k += 1;
            }
            proof {
                assert(ss.deep_view().take(ss.deep_view().len() as int) =~= ss.deep_view());
            }
            Slot::Seqs(v)
        },
        Slot::Short(s) => Slot::Short(copy_chars(s)),
        Slot::ShortList(l) => {
            let mut v: Vec<Vec<char>> = Vec::new();
            let mut k: usize = 0;
            while k < l.len()
                invariant
                    k <= l.len(),
                    v.deep_view() == l.deep_view().take(k as int),
                decreases l.len() - k,
            {
                let ghost prev = v.deep_view();
                let c = copy_chars(&l[k]);
                v.push(c);
                proof {
                    assert(v.deep_view() =~= prev.push(l@[k as int].deep_view()));
                    assert(v.deep_view() =~= l.deep_view().take(k + 1));
                }
                k += 1;
            }
            proof {
                assert(l.deep_view().take(l.deep_view().len() as int) =~= l.deep_view());
            }
            Slot::ShortList(v)
        },
    }
}

/// Copies one function.
fn copy_func(f: &Func) -> (out: Func)
    ensures
        out.deep_view() == f.deep_view(),
{
    let mut out: Func = Vec::new();
    let mut i: usize = 0;
    while i < f.len()
        invariant
            i <= f.len(),
            out.deep_view() == f.deep_view().take(i as int),
        decreases f.len() - i,
    {
        let ghost prev = out.deep_view();
        let instr = &f[i];
        let mut slots: Instr = Vec::new();
        let mut k: usize = 0;
        while k < instr.len()
            invariant
                k <= instr.len(),
                instr == &f[i as int],
                slots.deep_view() == instr.deep_view().take(k as int),
            decreases instr.len() - k,
        {
            let ghost sprev = slots.deep_view();
            let c = copy_slot(&instr[k]);
            slots.push(c);
            proof {
                assert(slots.deep_view() =~= sprev.push(instr@[k as int].deep_view()));
                assert(slots.deep_view() =~= instr.deep_view().take(k + 1));
            }
            k += 1;
        }
        proof {
            assert(instr.deep_view().take(instr.deep_view().len() as int) =~= instr.deep_view());
        }
        out.push(slots);
        proof {
            assert(out.deep_view() =~= prev.push(f@[i as int].deep_view()));
            assert(out.deep_view() =~= f.deep_view().take(i + 1));
        }
        i += 1;
    }
    proof {
        assert(f.deep_view().take(f.deep_view().len() as int) =~= f.deep_view());
    }
    out
}

/// Merges the reference script's text into the portrait script.
///
/// On success, the result keeps the portrait's instruction structure with
/// every text slot rewritten: free-form slots spliced, short strings
/// overwritten, skipped functions untouched. Fails on any structural parity
/// violation, failed fixup, or queue/slot misalignment, identifying the
/// function; the run must then stop.
#[verifier::rlimit(100)]
pub fn merge(game: Game, name: &str, portrait: &Script, reference: &Script) -> (res: Result<
    Script,
    MergeError,
>)
    ensures
        match res {
            Ok(out) => {
                &&& parity_ok(portrait.deep_view(), reference.deep_view())
                &&& out.deep_view().functions.len() == portrait.deep_view().functions.len()
                &&& forall|i: int|
                    0 <= i < portrait.deep_view().functions.len() ==> func_merges(
                        game,
                        name@,
                        portrait.deep_view().functions[i],
                        reference.deep_view().functions[i],
                        i,
                    ) && out.deep_view().functions[i] == merged_func(
                        game,
                        name@,
                        portrait.deep_view().functions[i],
                        reference.deep_view().functions[i],
                        i,
                    )
                &&& out.deep_view().npc_count == reference.npc_count
                &&& out.deep_view().label_count == reference.label_count
            },
            Err(MergeError::FunctionCountMismatch) => portrait.functions.len()
                != reference.functions.len(),
            Err(MergeError::NpcCountMismatch) => portrait.functions.len()
                == reference.functions.len() && portrait.npc_count != reference.npc_count,
            Err(MergeError::LabelCountMismatch) => portrait.functions.len()
                == reference.functions.len() && portrait.npc_count == reference.npc_count
                && portrait.label_count != reference.label_count,
            Err(MergeError::Fixup { function, error }) => {
                &&& parity_ok(portrait.deep_view(), reference.deep_view())
                &&& function < portrait.functions.len()
                &&& func_queue(
                    game,
                    name@,
                    reference.deep_view().functions[function as int],
                    function as int,
                ) == Err::<Seq<crate::script::ExtractedView>, _>(error)
                &&& forall|k: int|
                    0 <= k < function ==> func_merges(
                        game,
                        name@,
                        portrait.deep_view().functions[k],
                        reference.deep_view().functions[k],
                        k,
                    )
            },
            Err(MergeError::Align { function, error }) => {
                &&& parity_ok(portrait.deep_view(), reference.deep_view())
                &&& function < portrait.functions.len()
                &&& func_queue(
                    game,
                    name@,
                    reference.deep_view().functions[function as int],
                    function as int,
                ) is Ok
                &&& inject_spec(
                    portrait.deep_view().functions[function as int],
                    func_queue(
                        game,
                        name@,
                        reference.deep_view().functions[function as int],
                        function as int,
                    )->Ok_0,
                ) is None
                &&& forall|k: int|
                    0 <= k < function ==> func_merges(
                        game,
                        name@,
                        portrait.deep_view().functions[k],
                        reference.deep_view().functions[k],
                        k,
                    )
            },
        },
{
    if portrait.functions.len() != reference.functions.len() {
        return Err(MergeError::FunctionCountMismatch);
    }
    if portrait.npc_count != reference.npc_count {
        return Err(MergeError::NpcCountMismatch);
    }
    if portrait.label_count != reference.label_count {
        return Err(MergeError::LabelCountMismatch);
    }
    let n = portrait.functions.len();
    let mut out_funcs: Vec<Func> = Vec::new();
    let mut i: usize = 0;
    while i < n
        invariant
            i <= n,
            n == portrait.functions.len(),
            parity_ok(portrait.deep_view(), reference.deep_view()),
            out_funcs.len() == i,
            forall|k: int|
                0 <= k < i ==> #[trigger] func_merges(
                    game,
                    name@,
                    portrait.deep_view().functions[k],
                    reference.deep_view().functions[k],
                    k,
                ),
            forall|k: int|
                0 <= k < i ==> out_funcs.deep_view()[k] == #[trigger] merged_func(
                    game,
                    name@,
                    portrait.deep_view().functions[k],
                    reference.deep_view().functions[k],
                    k,
                ),
        decreases n - i,
    {
        let ghost pfi = portrait.deep_view().functions[i as int];
        let ghost rfi = reference.deep_view().functions[i as int];
        let ghost prev_funcs = out_funcs.deep_view();
        proof {
            assert(portrait.functions@[i as int].deep_view() == pfi);
            assert(reference.functions@[i as int].deep_view() == rfi);
        }
        let action = fixups_for(game, name, i);
        match action {
            FixupAction::Skip => {
                let copied = copy_func(&portrait.functions[i]);
                out_funcs.push(copied);
                proof {
                    assert(out_funcs.deep_view()[i as int] == pfi);
                }
            },
            FixupAction::Edit(ops) => {
                let mut q = extract(&reference.functions[i]);
                proof {
                    assert(q.deep_view() == extract_spec(rfi));
                    assert(ops.deep_view() == fixup_table_spec(game, name@, i as int)->Edit_0);
                }
                match crate::fixup::apply_fixups(&mut q, &ops) {
                    Ok(()) => {},
                    Err(e) => {
                        proof {
                            assert(func_queue(game, name@, rfi, i as int) == Err::<
                                Seq<crate::script::ExtractedView>,
                                _,
                            >(e));
                        }
                        return Err(MergeError::Fixup { function: i, error: e });
                    },
                }
                proof {
                    assert(func_queue(game, name@, rfi, i as int) == Ok::<_, FixupError>(
                        q.deep_view(),
                    ));
                }
                // The splice diagnostics are informational; callers that
                // want them walk the functions through `inject` themselves.
                match inject(&portrait.functions[i], &q) {
                    Ok((g, _)) => {
                        out_funcs.push(g);
                        proof {
                            assert(out_funcs.deep_view()[i as int] == merged_func(
                                game,
                                name@,
                                pfi,
                                rfi,
                                i as int,
                            ));
                        }
                    },
                    Err(e) => {
                        proof {
                            assert(inject_spec(pfi, q.deep_view()) is None);
                            assert(func_queue(game, name@, rfi, i as int)->Ok_0 == q.deep_view());
                        }
                        return Err(MergeError::Align { function: i, error: e });
                    },
                }
            },
        }
        proof {
            assert(func_merges(game, name@, pfi, rfi, i as int));
            assert(out_funcs.deep_view()[i as int] == merged_func(game, name@, pfi, rfi, i as int));
            assert forall|k: int| 0 <= k < i implies out_funcs.deep_view()[k] == #[trigger] merged_func(
                game,
                name@,
                portrait.deep_view().functions[k],
                reference.deep_view().functions[k],
                k,
            ) by {
                assert(out_funcs@[k].deep_view() == out_funcs.deep_view()[k]);
                assert(out_funcs.deep_view()[k] == prev_funcs[k]);
            }
        }
        i += 1;
    }
    proof {
        assert(out_funcs.deep_view().len() == n);
    }
    let result = Script {
        functions: out_funcs,
        npc_count: reference.npc_count,
        label_count: reference.label_count,
    };
    proof {
        assert(result.deep_view().functions == result.functions.deep_view());
    }
    Ok(result)
}

} // verus!
