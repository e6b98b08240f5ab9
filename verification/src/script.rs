//! Text slots, extraction and re-injection.
//!
//! A function is an ordered instruction stream; each instruction exposes an
//! ordered list of text slots. Extraction walks a reference-side function
//! and queues every text-bearing value; re-injection walks the portrait-side
//! function in the same slot order, consuming the queue in lockstep: free
//! form values go through the tag splicer, short strings overwrite directly.

use vstd::prelude::*;

use crate::codec::{SegView, Segment};
use crate::splice::{splice_anomaly, splice_merge, splice_segments};

verus! {

/// One text slot of an instruction.
#[derive(Debug, Clone, PartialEq, Eq)]
pub enum Slot {
    /// A free-form text value: a list of segment sequences.
    Seqs(Vec<Vec<Segment>>),
    /// A single short string.
    Short(Vec<char>),
    /// An ordered list of short strings.
    ShortList(Vec<Vec<char>>),
}

/// The mathematical model of a [`Slot`].
#[verifier::ext_equal]
pub enum SlotView {
    Seqs(Seq<Seq<SegView>>),
    Short(Seq<char>),
    ShortList(Seq<Seq<char>>),
}

impl DeepView for Slot {
    type V = SlotView;

    open spec fn deep_view(&self) -> SlotView {
        match self {
            Slot::Seqs(ss) => SlotView::Seqs(ss.deep_view()),
            Slot::Short(s) => SlotView::Short(s.deep_view()),
            Slot::ShortList(l) => SlotView::ShortList(l.deep_view()),
        }
    }
}

/// One instruction, as the ordered text slots it exposes. Instructions
/// without text, and stream entries that are not instructions, carry an
/// empty slot list.
pub type Instr = Vec<Slot>;

/// One function: an ordered instruction stream.
pub type Func = Vec<Instr>;

/// One queued text-bearing value.
#[derive(Debug, Clone, PartialEq, Eq)]
pub enum Extracted {
    /// A captured free-form segment sequence.
    Free(Vec<Segment>),
    /// A captured short string.
    Short(Vec<char>),
}

/// The mathematical model of an [`Extracted`] value.
#[verifier::ext_equal]
pub enum ExtractedView {
    Free(Seq<SegView>),
    Short(Seq<char>),
}

impl DeepView for Extracted {
    type V = ExtractedView;

    open spec fn deep_view(&self) -> ExtractedView {
        match self {
            Extracted::Free(v) => ExtractedView::Free(v.deep_view()),
            Extracted::Short(s) => ExtractedView::Short(s.deep_view()),
        }
    }
}

/// The queue entries one slot contributes, in order.
pub open spec fn extract_slot(sl: SlotView) -> Seq<ExtractedView> {
    match sl {
        SlotView::Seqs(ss) => Seq::new(ss.len(), |k: int| ExtractedView::Free(ss[k])),
        SlotView::Short(s) => seq![ExtractedView::Short(s)],
        SlotView::ShortList(l) => Seq::new(l.len(), |k: int| ExtractedView::Short(l[k])),
    }
}

pub open spec fn extract_slots_from(slots: Seq<SlotView>, k: int) -> Seq<ExtractedView>
    decreases slots.len() - k,
{
    if k < 0 || k >= slots.len() {
        Seq::empty()
    } else {
        extract_slot(slots[k]) + extract_slots_from(slots, k + 1)
    }
}

pub open spec fn extract_instrs_from(f: Seq<Seq<SlotView>>, i: int) -> Seq<ExtractedView>
    decreases f.len() - i,
{
    if i < 0 || i >= f.len() {
        Seq::empty()
    } else {
        extract_slots_from(f[i], 0) + extract_instrs_from(f, i + 1)
    }
}

/// The whole queue extracted from one function: instruction order, then
/// slot order, then element order.
pub open spec fn extract_spec(f: Seq<Seq<SlotView>>) -> Seq<ExtractedView> {
    extract_instrs_from(f, 0)
}

/// Copies a character string.
pub fn copy_chars(v: &Vec<char>) -> (out: Vec<char>)
    ensures
        out@ == v@,
{
    let mut out: Vec<char> = Vec::new();
    let mut k: usize = 0;
    while k < v.len()
        invariant
            k <= v.len(),
            out@ == v@.take(k as int),
        decreases v.len() - k,
    {
        out.push(v[k]);
        proof {
            assert(out@ =~= v@.take(k + 1));
        }
        k += 1;
    }
    proof {
        assert(v@.take(v@.len() as int) =~= v@);
    }
    out
}

/// Copies a segment sequence.
pub fn copy_segments(v: &Vec<Segment>) -> (out: Vec<Segment>)
    ensures
        out.deep_view() == v.deep_view(),
{
    let mut out: Vec<Segment> = Vec::new();
    let mut k: usize = 0;
    while k < v.len()
        invariant
            k <= v.len(),
            out.deep_view() == v.deep_view().take(k as int),
        decreases v.len() - k,
    {
        let ghost prev = out.deep_view();
        let seg = match &v[k] {
            Segment::Text(t) => Segment::Text(copy_chars(t)),
            Segment::Line => Segment::Line,
            Segment::Wait => Segment::Wait,
            Segment::Color(n) => Segment::Color(*n),
            Segment::Item(n) => Segment::Item(*n),
            Segment::Byte(b) => Segment::Byte(*b),
        };
        assert(seg.deep_view() == v[k as int].deep_view());
        out.push(seg);
        proof {
            assert(out.deep_view() =~= prev.push(seg.deep_view()));
            assert(out.deep_view() =~= v.deep_view().take(k + 1));
        }
        k += 1;
    }
    proof {
        assert(v.deep_view().take(v.deep_view().len() as int) =~= v.deep_view());
    }
    out
}

/// Extracts the ordered queue of text-bearing values from one function.
pub fn extract(f: &Func) -> (q: Vec<Extracted>)
    ensures
        q.deep_view() == extract_spec(f.deep_view()),
{
    let ghost fv = f.deep_view();
    let mut q: Vec<Extracted> = Vec::new();
    let mut i: usize = 0;
    while i < f.len()
        invariant
            i <= f.len(),
            fv == f.deep_view(),
            extract_spec(fv) == q.deep_view() + extract_instrs_from(fv, i as int),
        decreases f.len() - i,
    {
        let slots = &f[i];
        let ghost qi = q.deep_view();
        let mut k: usize = 0;
        while k < slots.len()
            invariant
                k <= slots.len(),
                fv == f.deep_view(),
                i < f.len(),
                slots == &f[i as int],
                q.deep_view() == qi + extract_slots_from(fv[i as int], 0).take(
                    extract_slots_from(fv[i as int], 0).len() - extract_slots_from(
                        fv[i as int],
                        k as int,
                    ).len(),
                ),
                extract_slots_from(fv[i as int], 0) == q.deep_view().skip(qi.len() as int)
                    + extract_slots_from(fv[i as int], k as int),
            decreases slots.len() - k,
        {
            let ghost qk = q.deep_view();
            match &slots[k] {
                Slot::Seqs(ss) => {
                    let mut m: usize = 0;
                    while m < ss.len()
                        invariant
                            m <= ss.len(),
                            fv == f.deep_view(),
                            i < f.len(),
                            k < f@[i as int].len(),
                            slots == &f[i as int],
                            slots@[k as int] == Slot::Seqs(*ss),
                            q.deep_view() == qk + extract_slot(fv[i as int][k as int]).take(
                                m as int,
                            ),
                        decreases ss.len() - m,
                    {
                        let ghost prev = q.deep_view();
                        let entry = Extracted::Free(copy_segments(&ss[m]));
                        proof {
                            assert(fv[i as int][k as int] == slots@[k as int].deep_view());
                            assert(entry.deep_view() == extract_slot(fv[i as int][k as int])[
                                m as int
                            ]);
                        }
                        q.push(entry);
                        proof {
                            assert(q.deep_view() =~= prev.push(entry.deep_view()));
                            assert(q.deep_view() =~= qk + extract_slot(fv[i as int][k as int]).take(
                                m + 1,
                            ));
                        }
                        m += 1;
                    }
                },
                Slot::Short(s) => {
                    let entry = Extracted::Short(copy_chars(s));
                    proof {
                        assert(fv[i as int][k as int] == slots@[k as int].deep_view());
                    }
                    q.push(entry);
                    proof {
                        assert(q.deep_view() =~= qk.push(entry.deep_view()));
                    }
                },
                Slot::ShortList(l) => {
                    let mut m: usize = 0;
                    while m < l.len()
                        invariant
                            m <= l.len(),
                            fv == f.deep_view(),
                            i < f.len(),
                            k < f@[i as int].len(),
                            slots == &f[i as int],
                            slots@[k as int] == Slot::ShortList(*l),
                            q.deep_view() == qk + extract_slot(fv[i as int][k as int]).take(
                                m as int,
                            ),
                        decreases l.len() - m,
                    {
                        let ghost prev = q.deep_view();
                        let entry = Extracted::Short(copy_chars(&l[m]));
                        proof {
                            assert(fv[i as int][k as int] == slots@[k as int].deep_view());
                            assert(entry.deep_view() == extract_slot(fv[i as int][k as int])[
                                m as int
                            ]);
                        }
                        q.push(entry);
                        proof {
                            assert(q.deep_view() =~= prev.push(entry.deep_view()));
                            assert(q.deep_view() =~= qk + extract_slot(fv[i as int][k as int]).take(
                                m + 1,
                            ));
                        }
                        m += 1;
                    }
                },
            }
            proof {
                assert(q.deep_view() =~= qk + extract_slot(fv[i as int][k as int]));
                assert(extract_slots_from(fv[i as int], k as int) == extract_slot(
                    fv[i as int][k as int],
                ) + extract_slots_from(fv[i as int], k + 1));
                assert(q.deep_view() == qi + extract_slots_from(fv[i as int], 0).take(
                    extract_slots_from(fv[i as int], 0).len() - extract_slots_from(
                        fv[i as int],
                        k + 1,
                    ).len(),
                )) by {
                    assert(extract_slots_from(fv[i as int], 0) =~= q.deep_view().skip(
                        qi.len() as int,
                    ) + extract_slots_from(fv[i as int], k + 1));
                    assert(extract_slots_from(fv[i as int], 0).take(
                        extract_slots_from(fv[i as int], 0).len() - extract_slots_from(
                            fv[i as int],
                            k + 1,
                        ).len(),
                    ) =~= q.deep_view().skip(qi.len() as int));
                    assert(qi + q.deep_view().skip(qi.len() as int) =~= q.deep_view());
                }
                assert(extract_slots_from(fv[i as int], 0) =~= q.deep_view().skip(qi.len() as int)
                    + extract_slots_from(fv[i as int], k + 1));
            }
            k += 1;
        }
        proof {
            assert(extract_slots_from(fv[i as int], slots@.len() as int) =~= Seq::<
                ExtractedView,
            >::empty());
            assert(q.deep_view() =~= qi + extract_slots_from(fv[i as int], 0));
            assert(extract_instrs_from(fv, i as int) == extract_slots_from(fv[i as int], 0)
                + extract_instrs_from(fv, i + 1));
            assert(q.deep_view() + extract_instrs_from(fv, i + 1) =~= qi + extract_instrs_from(
                fv,
                i as int,
            ));
        }
        i += 1;
    }
    proof {
        assert(extract_instrs_from(fv, f.len() as int) =~= Seq::<ExtractedView>::empty());
        assert(q.deep_view() + extract_instrs_from(fv, f.len() as int) =~= q.deep_view());
    }
    q
}

/// A queue/slot alignment failure: the introspection ordering contract
/// between the two sides was violated. Positions are queue indices.
#[derive(Debug, Clone, Copy, PartialEq, Eq, Structural)]
pub enum AlignError {
    /// The slot walk needed an entry of the other kind, or the queue ran
    /// out. `queue_pos` is diagnostic: the index at which the walk stopped.
    KindMismatch { queue_pos: usize, expected_free: bool },
    /// The walk finished but entries remain from `queue_pos` on.
    Leftover { queue_pos: usize },
}

/// Re-injection of the queue into the inner sequences of one free-form
/// slot, from element `k` on: each element is spliced with one queued
/// free-form value.
pub open spec fn inject_seqs_from(
    ss: Seq<Seq<SegView>>,
    k: int,
    q: Seq<ExtractedView>,
    j: int,
) -> Option<(Seq<Seq<SegView>>, int)>
    decreases ss.len() - k,
{
    if k < 0 || k >= ss.len() {
        Some((Seq::empty(), j))
    } else if 0 <= j < q.len() && q[j] is Free {
        match inject_seqs_from(ss, k + 1, q, j + 1) {
            Some(p) => Some((seq![splice_merge(q[j]->Free_0, ss[k])] + p.0, p.1)),
            None => None,
        }
    } else {
        None
    }
}

/// Re-injection into a list of short strings: each element is overwritten
/// by one queued short string.
pub open spec fn inject_shorts_from(
    l: Seq<Seq<char>>,
    k: int,
    q: Seq<ExtractedView>,
    j: int,
) -> Option<(Seq<Seq<char>>, int)>
    decreases l.len() - k,
{
    if k < 0 || k >= l.len() {
        Some((Seq::empty(), j))
    } else if 0 <= j < q.len() && q[j] is Short {
        match inject_shorts_from(l, k + 1, q, j + 1) {
            Some(p) => Some((seq![q[j]->Short_0] + p.0, p.1)),
            None => None,
        }
    } else {
        None
    }
}

/// Re-injection into one slot: the transformed slot and the next queue
/// position, or `None` on a kind mismatch or exhausted queue.
pub open spec fn inject_slot(sl: SlotView, q: Seq<ExtractedView>, j: int) -> Option<
    (SlotView, int),
> {
    match sl {
        SlotView::Seqs(ss) => match inject_seqs_from(ss, 0, q, j) {
            Some(p) => Some((SlotView::Seqs(p.0), p.1)),
            None => None,
        },
        SlotView::Short(_) => if 0 <= j < q.len() && q[j] is Short {
            Some((SlotView::Short(q[j]->Short_0), j + 1))
        } else {
            None
        },
        SlotView::ShortList(l) => match inject_shorts_from(l, 0, q, j) {
            Some(p) => Some((SlotView::ShortList(p.0), p.1)),
            None => None,
        },
    }
}

pub open spec fn inject_slots_from(
    slots: Seq<SlotView>,
    k: int,
    q: Seq<ExtractedView>,
    j: int,
) -> Option<(Seq<SlotView>, int)>
    decreases slots.len() - k,
{
    if k < 0 || k >= slots.len() {
        Some((Seq::empty(), j))
    } else {
        match inject_slot(slots[k], q, j) {
            Some(p) => match inject_slots_from(slots, k + 1, q, p.1) {
                Some(p2) => Some((seq![p.0] + p2.0, p2.1)),
                None => None,
            },
            None => None,
        }
    }
}

pub open spec fn inject_instrs_from(
    f: Seq<Seq<SlotView>>,
    i: int,
    q: Seq<ExtractedView>,
    j: int,
) -> Option<(Seq<Seq<SlotView>>, int)>
    decreases f.len() - i,
{
    if i < 0 || i >= f.len() {
        Some((Seq::empty(), j))
    } else {
        match inject_slots_from(f[i], 0, q, j) {
            Some(p) => match inject_instrs_from(f, i + 1, q, p.1) {
                Some(p2) => Some((seq![p.0] + p2.0, p2.1)),
                None => None,
            },
            None => None,
        }
    }
}

/// The whole re-injection: the transformed portrait function, defined
/// exactly when the walk succeeds and consumes the queue with zero
/// remainder.
pub open spec fn inject_spec(f: Seq<Seq<SlotView>>, q: Seq<ExtractedView>) -> Option<
    Seq<Seq<SlotView>>,
> {
    match inject_instrs_from(f, 0, q, 0) {
        Some(p) => if p.1 == q.len() {
            Some(p.0)
        } else {
            None
        },
        None => None,
    }
}

/// The queue positions among one free-form slot's elements whose splice
/// changes the string, in order, along a successful walk.
pub open spec fn anoms_seqs(
    ss: Seq<Seq<SegView>>,
    q: Seq<ExtractedView>,
    k: int,
    j: int,
) -> Seq<usize>
    decreases ss.len() - k,
{
    if k < 0 || k >= ss.len() {
        Seq::empty()
    } else if 0 <= j < q.len() && q[j] is Free {
        (if splice_anomaly(q[j]->Free_0, ss[k]) {
            seq![j as usize]
        } else {
            Seq::empty()
        }) + anoms_seqs(ss, q, k + 1, j + 1)
    } else {
        Seq::empty()
    }
}

/// The flagged queue positions for one slot: only free-form slots splice.
pub open spec fn anoms_slot(sl: SlotView, q: Seq<ExtractedView>, j: int) -> Seq<usize> {
    match sl {
        SlotView::Seqs(ss) => anoms_seqs(ss, q, 0, j),
        _ => Seq::empty(),
    }
}

pub open spec fn anoms_slots(
    slots: Seq<SlotView>,
    q: Seq<ExtractedView>,
    k: int,
    j: int,
) -> Seq<usize>
    decreases slots.len() - k,
{
    if k < 0 || k >= slots.len() {
        Seq::empty()
    } else {
        anoms_slot(slots[k], q, j) + (match inject_slot(slots[k], q, j) {
            Some(p) => anoms_slots(slots, q, k + 1, p.1),
            None => Seq::empty(),
        })
    }
}

pub open spec fn anoms_instrs(
    f: Seq<Seq<SlotView>>,
    q: Seq<ExtractedView>,
    i: int,
    j: int,
) -> Seq<usize>
    decreases f.len() - i,
{
    if i < 0 || i >= f.len() {
        Seq::empty()
    } else {
        anoms_slots(f[i], q, 0, j) + (match inject_slots_from(f[i], 0, q, j) {
            Some(p) => anoms_instrs(f, q, i + 1, p.1),
            None => Seq::empty(),
        })
    }
}

/// The splice diagnostic of a whole re-injection: the queue positions whose
/// splice changed the string, in walk order. Informational only.
pub open spec fn splice_flags(f: Seq<Seq<SlotView>>, q: Seq<ExtractedView>) -> Seq<usize> {
    anoms_instrs(f, q, 0, 0)
}

/// Re-injects the queue into one slot, starting at queue position `j`,
/// appending the flagged queue positions to `diag`.
fn inject_slot_exec(sl: &Slot, q: &Vec<Extracted>, j: usize, diag: &mut Vec<usize>) -> (res: Result<
    (Slot, usize),
    AlignError,
>)
    requires
        j <= q.len(),
    ensures
        match res {
            Ok(p) => inject_slot(sl.deep_view(), q.deep_view(), j as int) == Some(
                (p.0.deep_view(), p.1 as int),
            ) && j <= p.1 <= q.len() && final(diag)@ == old(diag)@ + anoms_slot(
                sl.deep_view(),
                q.deep_view(),
                j as int,
            ),
            Err(e) => inject_slot(sl.deep_view(), q.deep_view(), j as int) is None
                && e is KindMismatch,
        },
{
    let ghost qv = q.deep_view();
    match sl {
        Slot::Short(_) => {
            proof {
                assert(old(diag)@ + Seq::<usize>::empty() =~= old(diag)@);
            }
            if j < q.len() {
                match &q[j] {
                    Extracted::Short(s) => Ok((Slot::Short(copy_chars(s)), j + 1)),
                    Extracted::Free(_) => Err(
                        AlignError::KindMismatch { queue_pos: j, expected_free: false },
                    ),
                }
            } else {
                Err(AlignError::KindMismatch { queue_pos: j, expected_free: false })
            }
        },
        Slot::Seqs(ss) => {
            let ghost ssv = ss.deep_view();
            let mut done: Vec<Vec<Segment>> = Vec::new();
            let mut jj: usize = j;
            let mut m: usize = 0;
            while m < ss.len()
                invariant
                    m <= ss.len(),
                    j <= jj <= q.len(),
                    ssv == ss.deep_view(),
                    sl.deep_view() == SlotView::Seqs(ssv),
                    qv == q.deep_view(),
                    done.len() == m,
                    old(diag)@.len() <= diag@.len(),
                    diag@.take(old(diag)@.len() as int) == old(diag)@,
                    anoms_seqs(ssv, qv, 0, j as int) == diag@.skip(old(diag)@.len() as int)
                        + anoms_seqs(ssv, qv, m as int, jj as int),
                    match inject_seqs_from(ssv, m as int, qv, jj as int) {
                        Some(p) => inject_seqs_from(ssv, 0, qv, j as int) == Some(
                            (done.deep_view() + p.0, p.1),
                        ),
                        None => inject_seqs_from(ssv, 0, qv, j as int) is None,
                    },
                decreases ss.len() - m,
            {
                proof {
                    assert(sl.deep_view() == SlotView::Seqs(ssv));
                }
                if jj >= q.len() {
                    assert(inject_seqs_from(ssv, m as int, qv, jj as int) is None);
                    return Err(AlignError::KindMismatch { queue_pos: jj, expected_free: true });
                }
                match &q[jj] {
                    Extracted::Free(g) => {
                        let ghost prev = done.deep_view();
                        let ghost dprev = diag@;
                        let (merged, flag) = splice_segments(g, &ss[m]);
                        proof {
                            assert(ss[m as int].deep_view() == ssv[m as int]);
                            assert(g.deep_view() == qv[jj as int]->Free_0);
                        }
                        if flag {
                            diag.push(jj);
                        }
                        proof {
                            assert(diag@ == dprev + (if splice_anomaly(
                                qv[jj as int]->Free_0,
                                ssv[m as int],
                            ) {
                                seq![jj]
                            } else {
                                Seq::<usize>::empty()
                            })) by {
                                if flag {
                                    assert(diag@ =~= dprev + seq![jj]);
                                } else {
                                    assert(diag@ =~= dprev + Seq::<usize>::empty());
                                }
                            }
                            assert(diag@.take(old(diag)@.len() as int) =~= old(diag)@);
                            assert(anoms_seqs(ssv, qv, 0, j as int) =~= diag@.skip(
                                old(diag)@.len() as int,
                            ) + anoms_seqs(ssv, qv, m + 1, jj + 1)) by {
                                assert(anoms_seqs(ssv, qv, m as int, jj as int) == (if
                                splice_anomaly(qv[jj as int]->Free_0, ssv[m as int]) {
                                    seq![jj]
                                } else {
                                    Seq::<usize>::empty()
                                }) + anoms_seqs(ssv, qv, m + 1, jj + 1));
                                assert(diag@.skip(old(diag)@.len() as int) =~= dprev.skip(
                                    old(diag)@.len() as int,
                                ) + (if splice_anomaly(qv[jj as int]->Free_0, ssv[m as int]) {
                                    seq![jj]
                                } else {
                                    Seq::<usize>::empty()
                                }));
                            }
                        }
                        done.push(merged);
                        proof {
                            assert(done.deep_view() =~= prev.push(
                                splice_merge(qv[jj as int]->Free_0, ssv[m as int]),
                            ));
                            if let Some(p) = inject_seqs_from(ssv, m + 1, qv, jj + 1) {
                                assert(done.deep_view() + p.0 =~= prev + (seq![
                                    splice_merge(qv[jj as int]->Free_0, ssv[m as int]),
                                ] + p.0));
                            }
                        }
                        jj = jj + 1;
                    },
                    Extracted::Short(_) => {
                        proof {
                            assert(qv[jj as int] is Short);
                            assert(inject_seqs_from(ssv, m as int, qv, jj as int) is None);
                        }
                        return Err(AlignError::KindMismatch { queue_pos: jj, expected_free: true });
                    },
                }
                m += 1;
            }
            proof {
                assert(inject_seqs_from(ssv, ssv.len() as int, qv, jj as int) == Some(
                    (Seq::<Seq<SegView>>::empty(), jj as int),
                ));
                assert(done.deep_view() + Seq::<Seq<SegView>>::empty() =~= done.deep_view());
                assert(anoms_seqs(ssv, qv, ssv.len() as int, jj as int) =~= Seq::<usize>::empty());
                assert(anoms_seqs(ssv, qv, 0, j as int) =~= diag@.skip(old(diag)@.len() as int));
                assert(diag@ =~= old(diag)@ + diag@.skip(old(diag)@.len() as int));
            }
            Ok((Slot::Seqs(done), jj))
        },
        Slot::ShortList(l) => {
            let ghost lv = l.deep_view();
            let mut done: Vec<Vec<char>> = Vec::new();
            let mut jj: usize = j;
            let mut m: usize = 0;
            while m < l.len()
                invariant
                    m <= l.len(),
                    j <= jj <= q.len(),
                    lv == l.deep_view(),
                    diag@ == old(diag)@,
                    sl.deep_view() == SlotView::ShortList(lv),
                    qv == q.deep_view(),
                    done.len() == m,
                    match inject_shorts_from(lv, m as int, qv, jj as int) {
                        Some(p) => inject_shorts_from(lv, 0, qv, j as int) == Some(
                            (done.deep_view() + p.0, p.1),
                        ),
                        None => inject_shorts_from(lv, 0, qv, j as int) is None,
                    },
                decreases l.len() - m,
            {
                proof {
                    assert(sl.deep_view() == SlotView::ShortList(lv));
                }
                if jj >= q.len() {
                    assert(inject_shorts_from(lv, m as int, qv, jj as int) is None);
                    return Err(AlignError::KindMismatch { queue_pos: jj, expected_free: false });
                }
                match &q[jj] {
                    Extracted::Short(s) => {
                        let ghost prev = done.deep_view();
                        let copied = copy_chars(s);
                        proof {
                            assert(copied@ == qv[jj as int]->Short_0);
                        }
                        done.push(copied);
                        proof {
                            assert(done.deep_view() =~= prev.push(qv[jj as int]->Short_0));
                            if let Some(p) = inject_shorts_from(lv, m + 1, qv, jj + 1) {
                                assert(done.deep_view() + p.0 =~= prev + (seq![
                                    qv[jj as int]->Short_0,
                                ] + p.0));
                            }
                        }
                        jj = jj + 1;
                    },
                    Extracted::Free(_) => {
                        proof {
                            assert(qv[jj as int] is Free);
                            assert(inject_shorts_from(lv, m as int, qv, jj as int) is None);
                        }
                        return Err(AlignError::KindMismatch { queue_pos: jj, expected_free: false });
                    },
                }
                m += 1;
            }
            proof {
                assert(inject_shorts_from(lv, lv.len() as int, qv, jj as int) == Some(
                    (Seq::<Seq<char>>::empty(), jj as int),
                ));
                assert(done.deep_view() + Seq::<Seq<char>>::empty() =~= done.deep_view());
                assert(old(diag)@ + Seq::<usize>::empty() =~= old(diag)@);
            }
            Ok((Slot::ShortList(done), jj))
        },
    }
}

/// Walks the portrait function's slots in extraction order, consuming the
/// queue in lockstep: free-form slots go through the tag splicer with the
/// queued value as the reference side, short-string slots are overwritten.
/// Succeeds exactly when every slot finds an entry of its kind and the
/// queue is consumed with zero remainder; the second result lists the
/// queue positions whose splice drew a diagnostic, for manual review.
pub fn inject(f: &Func, q: &Vec<Extracted>) -> (res: Result<(Func, Vec<usize>), AlignError>)
    ensures
        match res {
            Ok(p) => inject_spec(f.deep_view(), q.deep_view()) == Some(p.0.deep_view()) && p.1@
                == splice_flags(f.deep_view(), q.deep_view()),
            Err(e) => inject_spec(f.deep_view(), q.deep_view()) is None,
        },
{
    let ghost fv = f.deep_view();
    let ghost qv = q.deep_view();
    let mut out: Vec<Instr> = Vec::new();
    let mut diag: Vec<usize> = Vec::new();
    let mut j: usize = 0;
    let mut i: usize = 0;
    while i < f.len()
        invariant
            i <= f.len(),
            j <= q.len(),
            fv == f.deep_view(),
            qv == q.deep_view(),
            match inject_instrs_from(fv, i as int, qv, j as int) {
                Some(p) => inject_instrs_from(fv, 0, qv, 0) == Some((out.deep_view() + p.0, p.1)),
                None => inject_instrs_from(fv, 0, qv, 0) is None,
            },
            splice_flags(fv, qv) == diag@ + anoms_instrs(fv, qv, i as int, j as int),
        decreases f.len() - i,
    {
        let slots = &f[i];
        let ghost slotsv = fv[i as int];
        let ghost j_in = j as int;
        let ghost diag_i = diag@;
        let mut new_slots: Vec<Slot> = Vec::new();
        let mut k: usize = 0;
        while k < slots.len()
            invariant
                k <= slots.len(),
                j <= q.len(),
                i < f.len(),
                fv == f.deep_view(),
                qv == q.deep_view(),
                slots == &f[i as int],
                slotsv == fv[i as int],
                new_slots.len() == k,
                match inject_slots_from(slotsv, k as int, qv, j as int) {
                    Some(p) => inject_slots_from(slotsv, 0, qv, j_in) == Some(
                        (new_slots.deep_view() + p.0, p.1),
                    ),
                    None => inject_slots_from(slotsv, 0, qv, j_in) is None,
                },
                match inject_instrs_from(fv, i as int, qv, j_in) {
                    Some(p) => inject_instrs_from(fv, 0, qv, 0) == Some(
                        (out.deep_view() + p.0, p.1),
                    ),
                    None => inject_instrs_from(fv, 0, qv, 0) is None,
                },
                diag_i.len() <= diag@.len(),
                diag@.take(diag_i.len() as int) == diag_i,
                anoms_slots(slotsv, qv, 0, j_in) == diag@.skip(diag_i.len() as int) + anoms_slots(
                    slotsv,
                    qv,
                    k as int,
                    j as int,
                ),
                splice_flags(fv, qv) == diag_i + anoms_instrs(fv, qv, i as int, j_in),
            decreases slots.len() - k,
        {
            proof {
                assert(slots@[k as int].deep_view() == slotsv[k as int]);
            }
            let ghost dprev = diag@;
            let ghost j_old = j as int;
            match inject_slot_exec(&slots[k], q, j, &mut diag) {
                Ok((new_slot, j2)) => {
                    let ghost prev = new_slots.deep_view();
                    new_slots.push(new_slot);
                    proof {
                        assert(new_slots.deep_view() =~= prev.push(new_slot.deep_view()));
                        if let Some(p2) = inject_slots_from(slotsv, k + 1, qv, j2 as int) {
                            assert(new_slots.deep_view() + p2.0 =~= prev + (seq![
                                new_slot.deep_view(),
                            ] + p2.0));
                        }
                        assert(diag@ == dprev + anoms_slot(slotsv[k as int], qv, j_old));
                        assert(anoms_slots(slotsv, qv, k as int, j_old) == anoms_slot(
                            slotsv[k as int],
                            qv,
                            j_old,
                        ) + anoms_slots(slotsv, qv, k + 1, j2 as int));
                        assert(diag@.take(diag_i.len() as int) =~= diag_i);
                        assert(anoms_slots(slotsv, qv, 0, j_in) =~= diag@.skip(
                            diag_i.len() as int,
                        ) + anoms_slots(slotsv, qv, k + 1, j2 as int)) by {
                            assert(diag@.skip(diag_i.len() as int) =~= dprev.skip(
                                diag_i.len() as int,
                            ) + anoms_slot(slotsv[k as int], qv, j_old));
                        }
                    }
                    j = j2;
                },
                Err(e) => {
                    proof {
                        assert(inject_slots_from(slotsv, k as int, qv, j as int) is None);
                        assert(inject_slots_from(slotsv, 0, qv, j_in) is None);
                        assert(fv[i as int] == slotsv);
                        assert(inject_instrs_from(fv, i as int, qv, j_in) is None);
                    }
                    return Err(e);
                },
            }
            k += 1;
        }
        let ghost prev_out = out.deep_view();
        proof {
            assert(anoms_slots(slotsv, qv, slotsv.len() as int, j as int) =~= Seq::<
                usize,
            >::empty());
            assert(anoms_slots(slotsv, qv, 0, j_in) =~= diag@.skip(diag_i.len() as int));
            assert(inject_slots_from(slotsv, slotsv.len() as int, qv, j as int) == Some(
                (Seq::<SlotView>::empty(), j as int),
            ));
            assert(inject_slots_from(slotsv, 0, qv, j_in) == Some(
                (new_slots.deep_view() + Seq::<SlotView>::empty(), j as int),
            ));
            assert(new_slots.deep_view() + Seq::<SlotView>::empty() =~= new_slots.deep_view());
            assert(fv[i as int] == slotsv);
        }
        out.push(new_slots);
        proof {
            assert(out.deep_view() =~= prev_out.push(out@.last().deep_view()));
            assert(out@.last().deep_view() =~= inject_slots_from(slotsv, 0, qv, j_in)->Some_0.0);
            if let Some(p2) = inject_instrs_from(fv, i + 1, qv, j as int) {
                assert(inject_instrs_from(fv, i as int, qv, j_in) == Some(
                    (seq![inject_slots_from(slotsv, 0, qv, j_in)->Some_0.0] + p2.0, p2.1),
                ));
                assert(out.deep_view() + p2.0 =~= prev_out + (seq![
                    inject_slots_from(slotsv, 0, qv, j_in)->Some_0.0,
                ] + p2.0));
            } else {
                assert(inject_instrs_from(fv, i as int, qv, j_in) is None);
            }
            assert(anoms_instrs(fv, qv, i as int, j_in) == anoms_slots(slotsv, qv, 0, j_in)
                + anoms_instrs(fv, qv, i + 1, j as int));
            assert(splice_flags(fv, qv) =~= diag@ + anoms_instrs(fv, qv, i + 1, j as int)) by {
                assert(diag@ =~= diag_i + diag@.skip(diag_i.len() as int));
            }
        }
        i += 1;
    }
    if j != q.len() {
        proof {
            assert(inject_instrs_from(fv, f.len() as int, qv, j as int) == Some(
                (Seq::<Seq<SlotView>>::empty(), j as int),
            ));
        }
        return Err(AlignError::Leftover { queue_pos: j });
    }
    proof {
        assert(inject_instrs_from(fv, f.len() as int, qv, j as int) == Some(
            (Seq::<Seq<SlotView>>::empty(), j as int),
        ));
        assert(out.deep_view() + Seq::<Seq<SlotView>>::empty() =~= out.deep_view());
        assert(anoms_instrs(fv, qv, f.len() as int, j as int) =~= Seq::<usize>::empty());
        assert(diag@ =~= diag@ + anoms_instrs(fv, qv, f.len() as int, j as int));
    }
    Ok((out, diag))
}

/// The kind of one queued value or slot element.
pub enum TextKind {
    Free,
    Short,
}

pub open spec fn kind_of(e: ExtractedView) -> TextKind {
    match e {
        ExtractedView::Free(_) => TextKind::Free,
        ExtractedView::Short(_) => TextKind::Short,
    }
}

/// The kinds of all queue entries, in order.
pub open spec fn queue_kinds(q: Seq<ExtractedView>) -> Seq<TextKind> {
    Seq::new(q.len(), |i: int| kind_of(q[i]))
}

pub open spec fn uniform_kinds(n: int, t: TextKind) -> Seq<TextKind> {
    Seq::new(
        if n <= 0 {
            0
        } else {
            n
        } as nat,
        |i: int| t,
    )
}

/// The kinds one slot asks of the queue, in order.
pub open spec fn slot_kinds(sl: SlotView) -> Seq<TextKind> {
    match sl {
        SlotView::Seqs(ss) => uniform_kinds(ss.len() as int, TextKind::Free),
        SlotView::Short(_) => seq![TextKind::Short],
        SlotView::ShortList(l) => uniform_kinds(l.len() as int, TextKind::Short),
    }
}

pub open spec fn slots_kinds_from(slots: Seq<SlotView>, k: int) -> Seq<TextKind>
    decreases slots.len() - k,
{
    if k < 0 || k >= slots.len() {
        Seq::empty()
    } else {
        slot_kinds(slots[k]) + slots_kinds_from(slots, k + 1)
    }
}

pub open spec fn instrs_kinds_from(f: Seq<Seq<SlotView>>, i: int) -> Seq<TextKind>
    decreases f.len() - i,
{
    if i < 0 || i >= f.len() {
        Seq::empty()
    } else {
        slots_kinds_from(f[i], 0) + instrs_kinds_from(f, i + 1)
    }
}

/// The shape of one function: the kinds of all its slot elements in
/// extraction order.
pub open spec fn func_kinds(f: Seq<Seq<SlotView>>) -> Seq<TextKind> {
    instrs_kinds_from(f, 0)
}

/// The queue holds exactly the kinds `ks` starting at position `j`.
pub open spec fn kinds_at(q: Seq<ExtractedView>, j: int, ks: Seq<TextKind>) -> bool {
    &&& 0 <= j
    &&& j + ks.len() <= q.len()
    &&& forall|m: int| 0 <= m < ks.len() ==> kind_of(q[j + m]) == ks[m]
}

proof fn lemma_kinds_at_concat(q: Seq<ExtractedView>, j: int, a: Seq<TextKind>, b: Seq<TextKind>)
    ensures
        kinds_at(q, j, a + b) == (kinds_at(q, j, a) && kinds_at(q, j + a.len(), b)),
{
    if kinds_at(q, j, a + b) {
        assert forall|m: int| 0 <= m < a.len() implies kind_of(q[j + m]) == a[m] by {
            assert((a + b)[m] == a[m]);
        }
        assert forall|m: int| 0 <= m < b.len() implies kind_of(q[j + a.len() + m]) == b[m] by {
            assert((a + b)[a.len() + m] == b[m]);
        }
    }
    if kinds_at(q, j, a) && kinds_at(q, j + a.len(), b) {
        assert forall|m: int| 0 <= m < (a + b).len() implies kind_of(q[j + m]) == (a + b)[m] by {
            if m < a.len() {
                assert((a + b)[m] == a[m]);
            } else {
                assert((a + b)[m] == b[m - a.len()]);
                assert(kind_of(q[j + a.len() + (m - a.len())]) == b[m - a.len()]);
            }
        }
    }
}

proof fn lemma_kinds_at_single(q: Seq<ExtractedView>, j: int, t: TextKind)
    ensures
        kinds_at(q, j, seq![t]) == (0 <= j < q.len() && kind_of(q[j]) == t),
{
    assert(seq![t][0] == t);
    if 0 <= j < q.len() && kind_of(q[j]) == t {
        assert forall|m: int| 0 <= m < seq![t].len() implies kind_of(q[j + m]) == seq![t][m] by {
            assert(m == 0);
            assert(q[j + 0] == q[j]);
        }
    }
    if kinds_at(q, j, seq![t]) {
        assert(kind_of(q[j + 0]) == seq![t][0]);
    }
}

proof fn lemma_queue_kinds_concat(a: Seq<ExtractedView>, b: Seq<ExtractedView>)
    ensures
        queue_kinds(a + b) == queue_kinds(a) + queue_kinds(b),
{
    assert(queue_kinds(a + b) =~= queue_kinds(a) + queue_kinds(b));
}

proof fn lemma_extract_slot_kinds(sl: SlotView)
    ensures
        queue_kinds(extract_slot(sl)) == slot_kinds(sl),
{
    assert(queue_kinds(extract_slot(sl)) =~= slot_kinds(sl));
}

proof fn lemma_extract_slots_kinds(slots: Seq<SlotView>, k: int)
    ensures
        queue_kinds(extract_slots_from(slots, k)) == slots_kinds_from(slots, k),
    decreases slots.len() - k,
{
    if k < 0 || k >= slots.len() {
        assert(queue_kinds(extract_slots_from(slots, k)) =~= slots_kinds_from(slots, k));
    } else {
        lemma_extract_slots_kinds(slots, k + 1);
        lemma_queue_kinds_concat(extract_slot(slots[k]), extract_slots_from(slots, k + 1));
        lemma_extract_slot_kinds(slots[k]);
    }
}

proof fn lemma_extract_instrs_kinds(f: Seq<Seq<SlotView>>, i: int)
    ensures
        queue_kinds(extract_instrs_from(f, i)) == instrs_kinds_from(f, i),
    decreases f.len() - i,
{
    if i < 0 || i >= f.len() {
        assert(queue_kinds(extract_instrs_from(f, i)) =~= instrs_kinds_from(f, i));
    } else {
        lemma_extract_instrs_kinds(f, i + 1);
        lemma_queue_kinds_concat(extract_slots_from(f[i], 0), extract_instrs_from(f, i + 1));
        lemma_extract_slots_kinds(f[i], 0);
    }
}

/// Law: the extracted queue carries exactly the reference function's shape,
/// one entry per slot element, in instruction order then slot order.
pub proof fn lemma_extract_kinds(f: Seq<Seq<SlotView>>)
    ensures
        queue_kinds(extract_spec(f)) == func_kinds(f),
        extract_spec(f).len() == func_kinds(f).len(),
{
    lemma_extract_instrs_kinds(f, 0);
}

proof fn lemma_inject_seqs_iff(ss: Seq<Seq<SegView>>, k: int, q: Seq<ExtractedView>, j: int)
    requires
        0 <= k <= ss.len(),
        0 <= j <= q.len(),
    ensures
        match inject_seqs_from(ss, k, q, j) {
            Some(p) => p.1 == j + (ss.len() - k) && p.1 <= q.len() && kinds_at(
                q,
                j,
                uniform_kinds(ss.len() - k, TextKind::Free),
            ),
            None => !kinds_at(q, j, uniform_kinds(ss.len() - k, TextKind::Free)),
        },
    decreases ss.len() - k,
{
    let n = ss.len() - k;
    if k == ss.len() {
        assert(uniform_kinds(0, TextKind::Free) =~= Seq::<TextKind>::empty());
    } else {
        assert(uniform_kinds(n, TextKind::Free) =~= seq![TextKind::Free] + uniform_kinds(
            n - 1,
            TextKind::Free,
        ));
        lemma_kinds_at_concat(q, j, seq![TextKind::Free], uniform_kinds(n - 1, TextKind::Free));
        lemma_kinds_at_single(q, j, TextKind::Free);
        if 0 <= j < q.len() && q[j] is Free {
            lemma_inject_seqs_iff(ss, k + 1, q, j + 1);
        } else {
            assert(!kinds_at(q, j, seq![TextKind::Free]));
        }
    }
}

proof fn lemma_inject_shorts_iff(l: Seq<Seq<char>>, k: int, q: Seq<ExtractedView>, j: int)
    requires
        0 <= k <= l.len(),
        0 <= j <= q.len(),
    ensures
        match inject_shorts_from(l, k, q, j) {
            Some(p) => p.1 == j + (l.len() - k) && p.1 <= q.len() && kinds_at(
                q,
                j,
                uniform_kinds(l.len() - k, TextKind::Short),
            ),
            None => !kinds_at(q, j, uniform_kinds(l.len() - k, TextKind::Short)),
        },
    decreases l.len() - k,
{
    let n = l.len() - k;
    if k == l.len() {
        assert(uniform_kinds(0, TextKind::Short) =~= Seq::<TextKind>::empty());
    } else {
        assert(uniform_kinds(n, TextKind::Short) =~= seq![TextKind::Short] + uniform_kinds(
            n - 1,
            TextKind::Short,
        ));
        lemma_kinds_at_concat(q, j, seq![TextKind::Short], uniform_kinds(n - 1, TextKind::Short));
        lemma_kinds_at_single(q, j, TextKind::Short);
        if 0 <= j < q.len() && q[j] is Short {
            lemma_inject_shorts_iff(l, k + 1, q, j + 1);
        } else {
            assert(!kinds_at(q, j, seq![TextKind::Short]));
        }
    }
}

proof fn lemma_inject_slot_iff(sl: SlotView, q: Seq<ExtractedView>, j: int)
    requires
        0 <= j <= q.len(),
    ensures
        match inject_slot(sl, q, j) {
            Some(p) => p.1 == j + slot_kinds(sl).len() && p.1 <= q.len() && kinds_at(
                q,
                j,
                slot_kinds(sl),
            ),
            None => !kinds_at(q, j, slot_kinds(sl)),
        },
{
    match sl {
        SlotView::Seqs(ss) => {
            lemma_inject_seqs_iff(ss, 0, q, j);
        },
        SlotView::Short(_) => {
            lemma_kinds_at_single(q, j, TextKind::Short);
            if !(0 <= j < q.len() && q[j] is Short) {
                assert(!kinds_at(q, j, seq![TextKind::Short]));
            }
        },
        SlotView::ShortList(l) => {
            lemma_inject_shorts_iff(l, 0, q, j);
        },
    }
}

proof fn lemma_inject_slots_iff(slots: Seq<SlotView>, k: int, q: Seq<ExtractedView>, j: int)
    requires
        0 <= k <= slots.len(),
        0 <= j <= q.len(),
    ensures
        match inject_slots_from(slots, k, q, j) {
            Some(p) => p.1 == j + slots_kinds_from(slots, k).len() && p.1 <= q.len() && kinds_at(
                q,
                j,
                slots_kinds_from(slots, k),
            ),
            None => !kinds_at(q, j, slots_kinds_from(slots, k)),
        },
    decreases slots.len() - k,
{
    if k < slots.len() {
        lemma_inject_slot_iff(slots[k], q, j);
        lemma_kinds_at_concat(q, j, slot_kinds(slots[k]), slots_kinds_from(slots, k + 1));
        match inject_slot(slots[k], q, j) {
            Some(p) => {
                lemma_inject_slots_iff(slots, k + 1, q, p.1);
            },
            None => {},
        }
    } else {
        assert(kinds_at(q, j, Seq::<TextKind>::empty()));
    }
}

proof fn lemma_inject_instrs_iff(f: Seq<Seq<SlotView>>, i: int, q: Seq<ExtractedView>, j: int)
    requires
        0 <= i <= f.len(),
        0 <= j <= q.len(),
    ensures
        match inject_instrs_from(f, i, q, j) {
            Some(p) => p.1 == j + instrs_kinds_from(f, i).len() && p.1 <= q.len() && kinds_at(
                q,
                j,
                instrs_kinds_from(f, i),
            ),
            None => !kinds_at(q, j, instrs_kinds_from(f, i)),
        },
    decreases f.len() - i,
{
    if i < f.len() {
        lemma_inject_slots_iff(f[i], 0, q, j);
        lemma_kinds_at_concat(q, j, slots_kinds_from(f[i], 0), instrs_kinds_from(f, i + 1));
        match inject_slots_from(f[i], 0, q, j) {
            Some(p) => {
                lemma_inject_instrs_iff(f, i + 1, q, p.1);
            },
            None => {},
        }
    } else {
        assert(kinds_at(q, j, Seq::<TextKind>::empty()));
    }
}

/// Law: re-injection succeeds, consuming the queue with zero remainder,
/// exactly when the queue's kinds equal the portrait function's shape; any
/// truncation or kind drift is an alignment failure, never an under-fill.
pub proof fn lemma_inject_succeeds_iff(f: Seq<Seq<SlotView>>, q: Seq<ExtractedView>)
    ensures
        inject_spec(f, q) is Some <==> func_kinds(f) == queue_kinds(q),
{
    lemma_inject_instrs_iff(f, 0, q, 0);
    match inject_instrs_from(f, 0, q, 0) {
        Some(p) => {
            if p.1 == q.len() {
                assert(func_kinds(f) =~= queue_kinds(q));
            } else {
                assert(func_kinds(f).len() != q.len());
                assert(queue_kinds(q).len() == q.len());
            }
        },
        None => {
            if func_kinds(f) == queue_kinds(q) {
                assert(kinds_at(q, 0, func_kinds(f)));
                assert(false);
            }
        },
    }
}

/// Law: when the portrait and reference functions expose the same slot
/// shape, injecting the reference's extracted queue into the portrait
/// succeeds; when the shapes differ, it fails.
pub proof fn lemma_alignment(p_func: Seq<Seq<SlotView>>, r_func: Seq<Seq<SlotView>>)
    ensures
        inject_spec(p_func, extract_spec(r_func)) is Some <==> func_kinds(p_func) == func_kinds(
            r_func,
        ),
{
    lemma_extract_kinds(r_func);
    lemma_inject_succeeds_iff(p_func, extract_spec(r_func));
}

} // verus!
