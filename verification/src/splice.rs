//! Tag splicer: merges the reference side's textual content with the
//! portrait side's positional / voice / face display tags.
//!
//! Both sides are first encoded to display strings. A voice tag `#NV` in the
//! reference fixes the anchor (the offset right after it, or 0). A position
//! tag `#NP` from the portrait replaces the reference's own position tag,
//! or is inserted at the anchor when the reference has none; a reference
//! position tag without a portrait counterpart is deleted. A face tag `#NF`
//! from the portrait is inserted at the anchor when the spliced string has
//! none. Tag text is copied character for character from the portrait side.

use vstd::prelude::*;

use crate::codec::{
    decode, decode_spec, digit_run, encode, encode_spec, is_digit, lemma_digit_run_is, SegView,
    Segment,
};

verus! {

/// A `#<digits><letter>` tag starts at position `i` of `s`.
pub open spec fn tag_at(s: Seq<char>, i: int, letter: char) -> bool {
    &&& 0 <= i < s.len()
    &&& s[i] == '#'
    &&& i + 1 + digit_run(s, i + 1) < s.len()
    &&& s[i + 1 + digit_run(s, i + 1)] == letter
}

/// Offset just past the tag starting at `i`.
pub open spec fn tag_end(s: Seq<char>, i: int) -> int {
    i + 2 + digit_run(s, i + 1)
}

pub open spec fn find_tag_from(s: Seq<char>, i: int, letter: char) -> Option<int>
    decreases s.len() - i,
{
    if i < 0 || i >= s.len() {
        None
    } else if tag_at(s, i, letter) {
        Some(i)
    } else {
        find_tag_from(s, i + 1, letter)
    }
}

/// Position of the leftmost `#<digits><letter>` tag of `s`, if any.
pub open spec fn find_tag(s: Seq<char>, letter: char) -> Option<int> {
    find_tag_from(s, 0, letter)
}

pub proof fn lemma_find_tag_from(s: Seq<char>, i: int, letter: char)
    requires
        0 <= i <= s.len(),
    ensures
        match find_tag_from(s, i, letter) {
            Some(f) => i <= f < s.len() && tag_at(s, f, letter) && forall|k: int|
                i <= k < f ==> !tag_at(s, k, letter),
            None => forall|k: int| i <= k < s.len() ==> !tag_at(s, k, letter),
        },
    decreases s.len() - i,
{
    if i < s.len() && !tag_at(s, i, letter) {
        lemma_find_tag_from(s, i + 1, letter);
    }
}

pub proof fn lemma_tag_end_bounds(s: Seq<char>, i: int, letter: char)
    requires
        tag_at(s, i, letter),
    ensures
        i < tag_end(s, i) <= s.len(),
{
    crate::codec::lemma_digit_run_nonneg(s, i + 1);
}

/// The anchor: offset just past the reference's voice tag, or 0.
pub open spec fn voice_anchor(s: Seq<char>) -> int {
    match find_tag(s, 'V') {
        Some(i) => tag_end(s, i),
        None => 0,
    }
}

/// The spliced display string: reference content, portrait position and face
/// tags. Insertion positions are capped at the string's end, so the splice
/// is total.
pub open spec fn splice_spec(jp: Seq<char>, port: Seq<char>) -> Seq<char> {
    let anchor = voice_anchor(jp);
    let s1 = match (find_tag(jp, 'P'), find_tag(port, 'P')) {
        (Some(a), Some(b)) => jp.take(a) + port.subrange(b, tag_end(port, b)) + jp.skip(
            tag_end(jp, a),
        ),
        (None, Some(b)) => jp.take(anchor) + port.subrange(b, tag_end(port, b)) + jp.skip(anchor),
        (Some(a), None) => jp.take(a) + jp.skip(tag_end(jp, a)),
        (None, None) => jp,
    };
    let fp = if anchor <= s1.len() {
        anchor
    } else {
        s1.len() as int
    };
    match (find_tag(s1, 'F'), find_tag(port, 'F')) {
        (None, Some(b)) => s1.take(fp) + port.subrange(b, tag_end(port, b)) + s1.skip(fp),
        _ => s1,
    }
}

/// The merged segment sequence for one text slot: encode both sides, splice
/// the tags, decode the result.
pub open spec fn splice_merge(r: Seq<SegView>, p: Seq<SegView>) -> Seq<SegView> {
    decode_spec(splice_spec(encode_spec(r), encode_spec(p)))
}

/// The splice diagnostic for one text slot: the spliced string differs from
/// the reference's own encoding, flagging the slot for manual review.
pub open spec fn splice_anomaly(r: Seq<SegView>, p: Seq<SegView>) -> bool {
    splice_spec(encode_spec(r), encode_spec(p)) != encode_spec(r)
}

/// If the tag starting at `i` exists, returns its end offset.
fn tag_at_check(s: &Vec<char>, i: usize, letter: char) -> (res: Option<usize>)
    requires
        i < s.len(),
    ensures
        match res {
            Some(e) => tag_at(s@, i as int, letter) && e == tag_end(s@, i as int) && i < e
                <= s.len(),
            None => !tag_at(s@, i as int, letter),
        },
{
    let n = s.len();
    if s[i] != '#' {
        return None;
    }
    let mut e: usize = i + 1;
    while e < n && ('0' <= s[e] && s[e] <= '9')
        invariant
            i + 1 <= e <= n,
            n == s.len(),
            forall|m: int| i + 1 <= m < e ==> is_digit(s@[m]),
        decreases n - e,
    {
        e += 1;
    }
    proof {
        lemma_digit_run_is(s@, i + 1, e - (i + 1));
    }
    if e < n && s[e] == letter {
        Some(e + 1)
    } else {
        None
    }
}

/// Leftmost `#<digits><letter>` tag, as its start and end offsets.
pub fn find_tag_exec(s: &Vec<char>, letter: char) -> (res: Option<(usize, usize)>)
    ensures
        match res {
            Some(p) => find_tag(s@, letter) == Some(p.0 as int) && p.1 == tag_end(s@, p.0 as int)
                && p.0 < p.1 <= s.len(),
            None => find_tag(s@, letter) is None,
        },
{
    let n = s.len();
    let mut i: usize = 0;
    while i < n
        invariant
            i <= n,
            n == s.len(),
            forall|k: int| 0 <= k < i ==> !tag_at(s@, k, letter),
        decreases n - i,
    {
        match tag_at_check(s, i, letter) {
            Some(e) => {
                proof {
                    lemma_find_tag_from(s@, 0, letter);
                }
                return Some((i, e));
            },
            None => {},
        }
        i += 1;
    }
    proof {
        lemma_find_tag_from(s@, 0, letter);
    }
    None
}

/// Appends `s[from..to]` to `out`.
fn push_range(out: &mut Vec<char>, s: &Vec<char>, from: usize, to: usize)
    requires
        from <= to <= s.len(),
    ensures
        final(out)@ == old(out)@ + s@.subrange(from as int, to as int),
{
    let mut k: usize = from;
    while k < to
        invariant
            from <= k <= to <= s.len(),
            out@ == old(out)@ + s@.subrange(from as int, k as int),
        decreases to - k,
    {
        out.push(s[k]);
        proof {
            assert(out@ =~= old(out)@ + s@.subrange(from as int, k + 1));
        }
        k += 1;
    }
}

/// Splices the portrait string's display tags into the reference string.
pub fn splice_tags(jp: &Vec<char>, port: &Vec<char>) -> (out: Vec<char>)
    ensures
        out@ == splice_spec(jp@, port@),
{
    let anchor: usize = match find_tag_exec(jp, 'V') {
        Some((_, e)) => e,
        None => 0,
    };
    assert(anchor == voice_anchor(jp@));
    let mut s1: Vec<char> = Vec::new();
    match (find_tag_exec(jp, 'P'), find_tag_exec(port, 'P')) {
        (Some((a, ea)), Some((b, eb))) => {
            push_range(&mut s1, jp, 0, a);
            push_range(&mut s1, port, b, eb);
            push_range(&mut s1, jp, ea, jp.len());
            proof {
                assert(jp@.subrange(0, a as int) =~= jp@.take(a as int));
                assert(jp@.subrange(ea as int, jp@.len() as int) =~= jp@.skip(ea as int));
            }
        },
        (None, Some((b, eb))) => {
            proof {
                lemma_find_tag_from(jp@, 0, 'V');
                if find_tag(jp@, 'V') is Some {
                    lemma_tag_end_bounds(jp@, find_tag(jp@, 'V')->Some_0, 'V');
                }
            }
            assert(anchor <= jp.len());
            push_range(&mut s1, jp, 0, anchor);
            push_range(&mut s1, port, b, eb);
            push_range(&mut s1, jp, anchor, jp.len());
            proof {
                assert(jp@.subrange(0, anchor as int) =~= jp@.take(anchor as int));
                assert(jp@.subrange(anchor as int, jp@.len() as int) =~= jp@.skip(anchor as int));
            }
        },
        (Some((a, ea)), None) => {
            push_range(&mut s1, jp, 0, a);
            push_range(&mut s1, jp, ea, jp.len());
            proof {
                assert(jp@.subrange(0, a as int) =~= jp@.take(a as int));
                assert(jp@.subrange(ea as int, jp@.len() as int) =~= jp@.skip(ea as int));
            }
        },
        (None, None) => {
            push_range(&mut s1, jp, 0, jp.len());
            proof {
                assert(jp@.subrange(0, jp@.len() as int) =~= jp@);
            }
        },
    }
    let fp: usize = if anchor <= s1.len() {
        anchor
    } else {
        s1.len()
    };
    let face_in_s1 = find_tag_exec(&s1, 'F');
    if face_in_s1.is_none() {
        match find_tag_exec(port, 'F') {
            Some((b, eb)) => {
                let mut out: Vec<char> = Vec::new();
                push_range(&mut out, &s1, 0, fp);
                push_range(&mut out, port, b, eb);
                push_range(&mut out, &s1, fp, s1.len());
                proof {
                    assert(s1@.subrange(0, fp as int) =~= s1@.take(fp as int));
                    assert(s1@.subrange(fp as int, s1@.len() as int) =~= s1@.skip(fp as int));
                }
                return out;
            },
            None => {},
        }
    }
    s1
}

/// Character-for-character equality of two strings.
pub fn chars_eq(a: &Vec<char>, b: &Vec<char>) -> (r: bool)
    ensures
        r == (a@ == b@),
{
    if a.len() != b.len() {
        assert(a@.len() != b@.len());
        return false;
    }
    let mut k: usize = 0;
    while k < a.len()
        invariant
            k <= a.len(),
            a.len() == b.len(),
            forall|m: int| 0 <= m < k ==> a@[m] == b@[m],
        decreases a.len() - k,
    {
        if a[k] != b[k] {
            return false;
        }
        k += 1;
    }
    proof {
        assert(a@ =~= b@);
    }
    true
}

/// Merges one reference-side segment sequence `r` with one portrait-side
/// sequence `p`. The second result is the splice diagnostic: true when the
/// spliced string differs from the reference's own encoding, flagging the
/// slot for manual review.
pub fn splice_segments(r: &Vec<Segment>, p: &Vec<Segment>) -> (res: (Vec<Segment>, bool))
    ensures
        res.0.deep_view() == splice_merge(r.deep_view(), p.deep_view()),
        res.1 == splice_anomaly(r.deep_view(), p.deep_view()),
{
    let jp = encode(r);
    let port = encode(p);
    let merged = splice_tags(&jp, &port);
    let anomaly = !chars_eq(&merged, &jp);
    (decode(&merged), anomaly)
}

/// Law: splicing a string with itself changes nothing. In particular, when
/// the portrait and reference sides encode to identical strings, the splicer
/// returns that same string.
pub proof fn lemma_splice_identity(s: Seq<char>)
    ensures
        splice_spec(s, s) == s,
{
    lemma_find_tag_from(s, 0, 'P');
    lemma_find_tag_from(s, 0, 'F');
    match find_tag(s, 'P') {
        Some(a) => {
            lemma_tag_end_bounds(s, a, 'P');
            assert(s.take(a) + s.subrange(a, tag_end(s, a)) + s.skip(tag_end(s, a)) =~= s);
        },
        None => {},
    }
    match find_tag(s, 'F') {
        Some(_) => {},
        None => {},
    }
}

/// Law: when neither side carries a position tag and the portrait carries no
/// face tag, the splice leaves the reference string unchanged, whatever
/// voice tags it holds.
pub proof fn lemma_splice_no_tags(jp: Seq<char>, port: Seq<char>)
    requires
        find_tag(jp, 'P') is None,
        find_tag(port, 'P') is None,
        find_tag(port, 'F') is None,
    ensures
        splice_spec(jp, port) == jp,
{
}

} // verus!
