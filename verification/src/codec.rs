//! Segment codec: lossless conversion between a flat display string and an
//! ordered sequence of typed markup segments.
//!
//! The grammar, scanned left to right with one marker recognized per
//! position: `\n` and `\r` are line breaks, `{wait}` a wait cue, `{page}` a
//! raw control byte 0x03, `{color N}` a color span, `{item N}` an item
//! reference, `{#HH}` a raw control byte; everything else joins a literal
//! run. Encoding writes each segment's canonical form; `{page}` has no
//! reserved encode form, so byte 0x03 always encodes as `{#03}`.

use vstd::prelude::*;

verus! {

/// One atomic unit of a dialogue string's markup.
#[derive(Debug, Clone, PartialEq, Eq)]
pub enum Segment {
    /// A literal text run. The decoder never produces an empty run.
    Text(Vec<char>),
    /// A line break, decoded from `\n` or `\r`.
    Line,
    /// A wait cue, `{wait}`.
    Wait,
    /// A color span marker, `{color N}`.
    Color(u32),
    /// An item reference, `{item N}`, with a 16-bit id.
    Item(u16),
    /// A raw control byte, `{#HH}`.
    Byte(u8),
}

/// The mathematical model of a [`Segment`].
#[verifier::ext_equal]
pub enum SegView {
    Text(Seq<char>),
    Line,
    Wait,
    Color(u32),
    Item(u16),
    Byte(u8),
}

impl DeepView for Segment {
    type V = SegView;

    open spec fn deep_view(&self) -> SegView {
        match self {
            Segment::Text(t) => SegView::Text(t.deep_view()),
            Segment::Line => SegView::Line,
            Segment::Wait => SegView::Wait,
            Segment::Color(n) => SegView::Color(*n),
            Segment::Item(n) => SegView::Item(*n),
            Segment::Byte(b) => SegView::Byte(*b),
        }
    }
}

pub open spec fn is_digit(c: char) -> bool {
    '0' <= c && c <= '9'
}

pub open spec fn digit_val(c: char) -> int {
    c as int - '0' as int
}

pub open spec fn is_hex_digit(c: char) -> bool {
    is_digit(c) || ('a' <= c && c <= 'f') || ('A' <= c && c <= 'F')
}

pub open spec fn hex_val(c: char) -> int {
    if is_digit(c) {
        digit_val(c)
    } else if 'a' <= c && c <= 'f' {
        c as int - 'a' as int + 10
    } else {
        c as int - 'A' as int + 10
    }
}

/// Value of a string of decimal digits, most significant first.
pub open spec fn dec_val(s: Seq<char>) -> int
    decreases s.len(),
{
    if s.len() == 0 {
        0
    } else {
        dec_val(s.drop_last()) * 10 + digit_val(s.last())
    }
}

/// Length of the maximal run of decimal digits starting at position `i`.
pub open spec fn digit_run(s: Seq<char>, i: int) -> int
    decreases s.len() - i,
{
    if i < 0 || i >= s.len() || !is_digit(s[i]) {
        0
    } else {
        1 + digit_run(s, i + 1)
    }
}

pub open spec fn wait_prefix(s: Seq<char>) -> bool {
    s.len() >= 6 && s[0] == '{' && s[1] == 'w' && s[2] == 'a' && s[3] == 'i' && s[4] == 't'
        && s[5] == '}'
}

pub open spec fn page_prefix(s: Seq<char>) -> bool {
    s.len() >= 6 && s[0] == '{' && s[1] == 'p' && s[2] == 'a' && s[3] == 'g' && s[4] == 'e'
        && s[5] == '}'
}

pub open spec fn color_prefix(s: Seq<char>) -> bool {
    s.len() >= 7 && s[0] == '{' && s[1] == 'c' && s[2] == 'o' && s[3] == 'l' && s[4] == 'o'
        && s[5] == 'r' && s[6] == ' '
}

/// A complete `{color N}` marker at the start of `s`, with `N` in range.
pub open spec fn color_marker(s: Seq<char>) -> bool {
    let r = digit_run(s, 7);
    color_prefix(s) && r >= 1 && 7 + r < s.len() && s[7 + r] == '}' && dec_val(
        s.subrange(7, 7 + r),
    ) <= u32::MAX
}

pub open spec fn color_marker_len(s: Seq<char>) -> int {
    8 + digit_run(s, 7)
}

pub open spec fn color_marker_val(s: Seq<char>) -> int {
    dec_val(s.subrange(7, 7 + digit_run(s, 7)))
}

pub open spec fn item_prefix(s: Seq<char>) -> bool {
    s.len() >= 6 && s[0] == '{' && s[1] == 'i' && s[2] == 't' && s[3] == 'e' && s[4] == 'm'
        && s[5] == ' '
}

/// A complete `{item N}` marker at the start of `s`, with `N` in range.
pub open spec fn item_marker(s: Seq<char>) -> bool {
    let r = digit_run(s, 6);
    item_prefix(s) && r >= 1 && 6 + r < s.len() && s[6 + r] == '}' && dec_val(
        s.subrange(6, 6 + r),
    ) <= u16::MAX
}

pub open spec fn item_marker_len(s: Seq<char>) -> int {
    7 + digit_run(s, 6)
}

pub open spec fn item_marker_val(s: Seq<char>) -> int {
    dec_val(s.subrange(6, 6 + digit_run(s, 6)))
}

/// A complete `{#HH}` marker at the start of `s`.
pub open spec fn hex_marker(s: Seq<char>) -> bool {
    s.len() >= 5 && s[0] == '{' && s[1] == '#' && is_hex_digit(s[2]) && is_hex_digit(s[3])
        && s[4] == '}'
}

pub open spec fn hex_marker_val(s: Seq<char>) -> int {
    hex_val(s[2]) * 16 + hex_val(s[3])
}

/// The marker recognized at the start of `s`, with its length in characters,
/// or `None` when the first character belongs to a literal run.
pub open spec fn marker0(s: Seq<char>) -> Option<(SegView, int)> {
    if s.len() == 0 {
        None
    } else if s[0] == '\n' || s[0] == '\r' {
        Some((SegView::Line, 1))
    } else if wait_prefix(s) {
        Some((SegView::Wait, 6))
    } else if page_prefix(s) {
        Some((SegView::Byte(3), 6))
    } else if color_marker(s) {
        Some((SegView::Color(color_marker_val(s) as u32), color_marker_len(s)))
    } else if item_marker(s) {
        Some((SegView::Item(item_marker_val(s) as u16), item_marker_len(s)))
    } else if hex_marker(s) {
        Some((SegView::Byte(hex_marker_val(s) as u8), 5))
    } else {
        None
    }
}

pub proof fn lemma_marker0_len(s: Seq<char>)
    ensures
        match marker0(s) {
            Some(p) => 1 <= p.1 <= s.len(),
            None => true,
        },
{
    if s.len() > 0 {
        if color_marker(s) {
            assert(7 + digit_run(s, 7) < s.len());
        } else if item_marker(s) {
            assert(6 + digit_run(s, 6) < s.len());
        }
    }
}

/// The least `j >= i` at which a marker starts, or the string's length.
pub open spec fn run_end(s: Seq<char>, i: int) -> int
    decreases s.len() - i,
{
    if i < 0 || i >= s.len() {
        s.len() as int
    } else if marker0(s.skip(i)) is Some {
        i
    } else {
        run_end(s, i + 1)
    }
}

pub proof fn lemma_run_end(s: Seq<char>, i: int)
    requires
        0 <= i <= s.len(),
    ensures
        i <= run_end(s, i) <= s.len(),
        run_end(s, i) < s.len() ==> marker0(s.skip(run_end(s, i))) is Some,
        forall|k: int| i <= k < run_end(s, i) ==> marker0(s.skip(k)) is None,
    decreases s.len() - i,
{
    if i < s.len() && marker0(s.skip(i)) is None {
        lemma_run_end(s, i + 1);
    }
}

/// Decode of `s` from position `i` on: the segment sequence the scanner
/// produces, literal runs never empty.
pub open spec fn decode_from(s: Seq<char>, i: int) -> Seq<SegView>
    decreases s.len() - i,
        via decode_from_decreases
{
    if i < 0 || i >= s.len() {
        Seq::empty()
    } else {
        let j = run_end(s, i);
        let lit: Seq<SegView> = if j > i {
            seq![SegView::Text(s.subrange(i, j))]
        } else {
            Seq::empty()
        };
        if j >= s.len() {
            lit
        } else {
            let (g, l) = marker0(s.skip(j))->Some_0;
            lit + seq![g] + decode_from(s, j + l)
        }
    }
}

#[via_fn]
proof fn decode_from_decreases(s: Seq<char>, i: int) {
    if 0 <= i < s.len() {
        lemma_run_end(s, i);
        let j = run_end(s, i);
        if j < s.len() {
            lemma_marker0_len(s.skip(j));
        }
    }
}

/// The whole decode of a display string.
pub open spec fn decode_spec(s: Seq<char>) -> Seq<SegView> {
    decode_from(s, 0)
}

/// Decimal digits of `n`, most significant first, no leading zeros.
pub open spec fn dec_digits(n: int) -> Seq<char>
    decreases n,
{
    if n < 10 {
        seq![digit_char(n)]
    } else {
        dec_digits(n / 10) + seq![digit_char(n % 10)]
    }
}

pub open spec fn digit_char(d: int) -> char {
    if d == 0 {
        '0'
    } else if d == 1 {
        '1'
    } else if d == 2 {
        '2'
    } else if d == 3 {
        '3'
    } else if d == 4 {
        '4'
    } else if d == 5 {
        '5'
    } else if d == 6 {
        '6'
    } else if d == 7 {
        '7'
    } else if d == 8 {
        '8'
    } else {
        '9'
    }
}

/// Uppercase hexadecimal digit for `0 <= d < 16`.
pub open spec fn hex_char(d: int) -> char {
    if d < 10 {
        digit_char(d)
    } else if d == 10 {
        'A'
    } else if d == 11 {
        'B'
    } else if d == 12 {
        'C'
    } else if d == 13 {
        'D'
    } else if d == 14 {
        'E'
    } else {
        'F'
    }
}

/// Canonical textual form of one segment.
pub open spec fn encode_seg(g: SegView) -> Seq<char> {
    match g {
        SegView::Text(t) => t,
        SegView::Line => seq!['\n'],
        SegView::Wait => seq!['{', 'w', 'a', 'i', 't', '}'],
        SegView::Color(n) => seq!['{', 'c', 'o', 'l', 'o', 'r', ' '] + dec_digits(n as int)
            + seq!['}'],
        SegView::Item(n) => seq!['{', 'i', 't', 'e', 'm', ' '] + dec_digits(n as int) + seq!['}'],
        SegView::Byte(b) => seq!['{', '#', hex_char(b as int / 16), hex_char(b as int % 16), '}'],
    }
}

/// Concatenation of the canonical forms of all segments.
pub open spec fn encode_spec(v: Seq<SegView>) -> Seq<char>
    decreases v.len(),
{
    if v.len() == 0 {
        Seq::empty()
    } else {
        encode_seg(v[0]) + encode_spec(v.drop_first())
    }
}

pub proof fn lemma_digit_run_nonneg(s: Seq<char>, i: int)
    ensures
        0 <= digit_run(s, i),
        0 <= i <= s.len() ==> i + digit_run(s, i) <= s.len(),
    decreases s.len() - i,
{
    if !(i < 0 || i >= s.len() || !is_digit(s[i])) {
        lemma_digit_run_nonneg(s, i + 1);
    }
}

pub proof fn lemma_digit_run_is(s: Seq<char>, i: int, r: int)
    requires
        0 <= i,
        i + r <= s.len(),
        0 <= r,
        forall|m: int| i <= m < i + r ==> is_digit(s[m]),
        i + r == s.len() || !is_digit(s[i + r]),
    ensures
        digit_run(s, i) == r,
    decreases r,
{
    if r > 0 {
        lemma_digit_run_is(s, i + 1, r - 1);
    }
}

pub proof fn lemma_dec_val_step(s: Seq<char>, k: int)
    requires
        0 <= k < s.len(),
    ensures
        dec_val(s.take(k + 1)) == dec_val(s.take(k)) * 10 + digit_val(s[k]),
{
    assert(s.take(k + 1).drop_last() =~= s.take(k));
    assert(s.take(k + 1).last() == s[k]);
}

pub proof fn lemma_run_end_is(s: Seq<char>, i: int, j: int)
    requires
        0 <= i <= j <= s.len(),
        forall|k: int| i <= k < j ==> marker0(s.skip(k)) is None,
        j == s.len() || marker0(s.skip(j)) is Some,
    ensures
        run_end(s, i) == j,
    decreases j - i,
{
    if i < j {
        lemma_run_end_is(s, i + 1, j);
    }
}

fn char_is_digit(c: char) -> (b: bool)
    ensures
        b == is_digit(c),
{
    '0' <= c && c <= '9'
}

fn char_is_hex(c: char) -> (b: bool)
    ensures
        b == is_hex_digit(c),
{
    ('0' <= c && c <= '9') || ('a' <= c && c <= 'f') || ('A' <= c && c <= 'F')
}

fn digit_value(c: char) -> (v: u32)
    requires
        is_digit(c),
    ensures
        v == digit_val(c),
        v <= 9,
{
    c as u32 - '0' as u32
}

fn hex_value(c: char) -> (v: u32)
    requires
        is_hex_digit(c),
    ensures
        v == hex_val(c),
        v <= 15,
{
    if '0' <= c && c <= '9' {
        c as u32 - '0' as u32
    } else if 'a' <= c && c <= 'f' {
        c as u32 - 'a' as u32 + 10
    } else {
        c as u32 - 'A' as u32 + 10
    }
}

/// Parses the digit run `s[start..start + r]` as a decimal number, `None`
/// when the value exceeds `max`.
fn parse_digits(s: &Vec<char>, start: usize, r: usize, max: u32) -> (res: Option<u32>)
    requires
        start + r <= s.len(),
        forall|m: int| start <= m < start + r ==> is_digit(s@[m]),
    ensures
        match res {
            Some(v) => dec_val(s@.subrange(start as int, start + r)) == v && v <= max,
            None => dec_val(s@.subrange(start as int, start + r)) > max,
        },
{
    let ghost sub = s@.subrange(start as int, start + r);
    let mut val: u32 = 0;
    let mut ok: bool = true;
    let mut k: usize = 0;
    while k < r
        invariant
            k <= r,
            start + r <= s.len(),
            sub == s@.subrange(start as int, start + r),
            forall|m: int| start <= m < start + r ==> is_digit(s@[m]),
            ok ==> dec_val(sub.take(k as int)) == val && val <= max,
            !ok ==> dec_val(sub.take(k as int)) > max,
        decreases r - k,
    {
        let d = digit_value(s[start + k]);
        proof {
            lemma_dec_val_step(sub, k as int);
            assert(sub[k as int] == s@[start + k]);
        }
        if ok {
            let wide: u64 = val as u64 * 10 + d as u64;
            if wide > max as u64 {
                ok = false;
            } else {
                val = wide as u32;
            }
        }
        k += 1;
    }
    proof {
        assert(sub.take(r as int) =~= sub);
    }
    if ok {
        Some(val)
    } else {
        None
    }
}

/// The marker starting at position `i`, with its character length.
fn marker_at(s: &Vec<char>, i: usize) -> (res: Option<(Segment, usize)>)
    requires
        i <= s.len(),
    ensures
        match res {
            Some(p) => marker0(s@.skip(i as int)) == Some((p.0.deep_view(), p.1 as int)) && 1
                <= p.1 && i + p.1 <= s.len(),
            None => marker0(s@.skip(i as int)) is None,
        },
{
    let ghost t = s@.skip(i as int);
    proof {
        assert(forall|k: int| 0 <= k < t.len() ==> t[k] == s@[i + k]);
    }
    let n = s.len();
    if i >= n {
        return None;
    }
    let c0 = s[i];
    if c0 == '\n' || c0 == '\r' {
        return Some((Segment::Line, 1));
    }
    if c0 != '{' {
        return None;
    }
    // `{wait}` and `{page}`
    if n - i > 5 && s[i + 1] == 'w' {
        if s[i + 2] == 'a' && s[i + 3] == 'i' && s[i + 4] == 't' && s[i + 5] == '}' {
            assert(wait_prefix(t));
            return Some((Segment::Wait, 6));
        }
    }
    if n - i > 5 && s[i + 1] == 'p' {
        if s[i + 2] == 'a' && s[i + 3] == 'g' && s[i + 4] == 'e' && s[i + 5] == '}' {
            assert(page_prefix(t));
            return Some((Segment::Byte(3), 6));
        }
    }
    // `{color N}`
    if n - i > 6 && s[i + 1] == 'c' && s[i + 2] == 'o' && s[i + 3] == 'l' && s[i + 4] == 'o'
        && s[i + 5] == 'r' && s[i + 6] == ' ' {
        assert(color_prefix(t));
        let mut e: usize = i + 7;
        while e < n && char_is_digit(s[e])
            invariant
                i + 7 <= e <= n,
                n == s.len(),
                forall|m: int| i + 7 <= m < e ==> is_digit(s@[m]),
            decreases n - e,
        {
            e += 1;
        }
        let r = e - (i + 7);
        proof {
            lemma_digit_run_is(t, 7, r as int);
            assert(digit_run(t, 7) == r);
        }
        if r >= 1 && e < n && s[e] == '}' {
            proof {
                assert(t.subrange(7, 7 + r) =~= s@.subrange(i + 7, i + 7 + r));
            }
            match parse_digits(s, i + 7, r, u32::MAX) {
                Some(v) => {
                    assert(color_marker(t));
                    return Some((Segment::Color(v), r + 8));
                },
                None => {
                    assert(!color_marker(t));
                    assert(marker0(t) is None);
                    return None;
                },
            }
        } else {
            assert(!color_marker(t));
            return None;
        }
    }
    // `{item N}`
    if n - i > 5 && s[i + 1] == 'i' && s[i + 2] == 't' && s[i + 3] == 'e' && s[i + 4] == 'm' && s[i
        + 5] == ' ' {
        assert(item_prefix(t));
        let mut e: usize = i + 6;
        while e < n && char_is_digit(s[e])
            invariant
                i + 6 <= e <= n,
                n == s.len(),
                forall|m: int| i + 6 <= m < e ==> is_digit(s@[m]),
            decreases n - e,
        {
            e += 1;
        }
        let r = e - (i + 6);
        proof {
            lemma_digit_run_is(t, 6, r as int);
        }
        if r >= 1 && e < n && s[e] == '}' {
            proof {
                assert(t.subrange(6, 6 + r) =~= s@.subrange(i + 6, i + 6 + r));
            }
            match parse_digits(s, i + 6, r, u16::MAX as u32) {
                Some(v) => {
                    assert(item_marker(t));
                    return Some((Segment::Item(v as u16), r + 7));
                },
                None => {
                    assert(!item_marker(t));
                    return None;
                },
            }
        } else {
            assert(!item_marker(t));
            return None;
        }
    }
    // `{#HH}`
    if n - i > 4 && s[i + 1] == '#' {
        if char_is_hex(s[i + 2]) && char_is_hex(s[i + 3]) && s[i + 4] == '}' {
            let v = hex_value(s[i + 2]) * 16 + hex_value(s[i + 3]);
            assert(hex_marker(t));
            return Some((Segment::Byte(v as u8), 5));
        }
    }
    assert(!wait_prefix(t) && !page_prefix(t) && !color_marker(t) && !item_marker(t) && !hex_marker(
        t,
    ));
    None
}

/// Copies `s[from..to]` into a fresh vector.
fn copy_range(s: &Vec<char>, from: usize, to: usize) -> (out: Vec<char>)
    requires
        from <= to <= s.len(),
    ensures
        out@ == s@.subrange(from as int, to as int),
{
    let mut out: Vec<char> = Vec::new();
    let mut k: usize = from;
    while k < to
        invariant
            from <= k <= to <= s.len(),
            out@ == s@.subrange(from as int, k as int),
        decreases to - k,
    {
        out.push(s[k]);
        proof {
            assert(out@ =~= s@.subrange(from as int, k + 1));
        }
        k += 1;
    }
    out
}

/// Decodes a display string into its segment sequence.
pub fn decode(s: &Vec<char>) -> (out: Vec<Segment>)
    ensures
        out.deep_view() == decode_spec(s@),
{
    let ghost sv = s@;
    let n = s.len();
    let mut out: Vec<Segment> = Vec::new();
    let mut i: usize = 0;
    while i < n
        invariant
            i <= n,
            n == s@.len(),
            decode_spec(sv) == out.deep_view() + decode_from(sv, i as int),
            sv == s@,
        decreases n - i,
    {
        let ghost i0 = i as int;
        let mut j: usize = i;
        while j < n && marker_at(s, j).is_none()
            invariant
                i <= j <= n,
                n == s@.len(),
                sv == s@,
                forall|k: int| i <= k < j ==> marker0(sv.skip(k)) is None,
            decreases n - j,
        {
            j += 1;
        }
        proof {
            lemma_run_end_is(sv, i0, j as int);
        }
        let ghost prev = out.deep_view();
        if j > i {
            let lit = copy_range(s, i, j);
            proof {
                assert(lit.deep_view() =~= lit@);
            }
            out.push(Segment::Text(lit));
            proof {
                assert(out.deep_view() =~= prev.push(
                    SegView::Text(sv.subrange(i0, j as int)),
                ));
            }
        }
        let ghost mid = out.deep_view();
        if j < n {
            match marker_at(s, j) {
                Some((seg, l)) => {
                    out.push(seg);
                    proof {
                        assert(out.deep_view() =~= mid.push(seg.deep_view()));
                    }
                    i = j + l;
                },
                None => {
                    proof {
                        assert(false);
                    }
                },
            }
        } else {
            i = n;
        }
        proof {
            assert(out.deep_view() + decode_from(sv, i as int) =~= prev + decode_from(sv, i0));
        }
    }
    proof {
        assert(decode_from(sv, n as int) =~= Seq::<SegView>::empty());
        assert(out.deep_view() =~= out.deep_view() + decode_from(sv, n as int));
    }
    out
}

pub proof fn lemma_encode_snoc(v: Seq<SegView>, g: SegView)
    ensures
        encode_spec(v.push(g)) == encode_spec(v) + encode_seg(g),
    decreases v.len(),
{
    let w = v.push(g);
    assert(w[0] == if v.len() == 0 { g } else { v[0] });
    if v.len() == 0 {
        assert(w.drop_first() =~= Seq::<SegView>::empty());
        assert(encode_spec(Seq::<SegView>::empty()) == Seq::<char>::empty());
        assert(encode_spec(w) == encode_seg(g) + Seq::<char>::empty());
        assert(encode_seg(g) + Seq::<char>::empty() =~= encode_seg(g));
        assert(encode_spec(v) + encode_seg(g) =~= encode_seg(g));
    } else {
        assert(w.drop_first() =~= v.drop_first().push(g));
        lemma_encode_snoc(v.drop_first(), g);
        assert(encode_spec(w) == encode_seg(v[0]) + (encode_spec(v.drop_first()) + encode_seg(g)));
        assert(encode_seg(v[0]) + (encode_spec(v.drop_first()) + encode_seg(g)) =~= (encode_seg(
            v[0],
        ) + encode_spec(v.drop_first())) + encode_seg(g));
    }
}

fn digit_ch(d: u32) -> (c: char)
    requires
        d < 10,
    ensures
        c == digit_char(d as int),
{
    if d == 0 {
        '0'
    } else if d == 1 {
        '1'
    } else if d == 2 {
        '2'
    } else if d == 3 {
        '3'
    } else if d == 4 {
        '4'
    } else if d == 5 {
        '5'
    } else if d == 6 {
        '6'
    } else if d == 7 {
        '7'
    } else if d == 8 {
        '8'
    } else {
        '9'
    }
}

fn hex_ch(d: u32) -> (c: char)
    requires
        d < 16,
    ensures
        c == hex_char(d as int),
{
    if d < 10 {
        digit_ch(d)
    } else if d == 10 {
        'A'
    } else if d == 11 {
        'B'
    } else if d == 12 {
        'C'
    } else if d == 13 {
        'D'
    } else if d == 14 {
        'E'
    } else {
        'F'
    }
}

/// Appends the decimal digits of `n` to `out`.
fn push_dec(out: &mut Vec<char>, n: u32)
    ensures
        final(out)@ == old(out)@ + dec_digits(n as int),
    decreases n,
{
    if n < 10 {
        out.push(digit_ch(n));
        assert(out@ =~= old(out)@ + dec_digits(n as int));
    } else {
        push_dec(out, n / 10);
        out.push(digit_ch(n % 10));
        assert(out@ =~= old(out)@ + dec_digits(n as int));
    }
}

/// Appends the canonical form of one segment to `out`.
fn push_seg(out: &mut Vec<char>, seg: &Segment)
    ensures
        final(out)@ == old(out)@ + encode_seg(seg.deep_view()),
{
    match seg {
        Segment::Text(t) => {
            let mut k: usize = 0;
            while k < t.len()
                invariant
                    k <= t.len(),
                    out@ == old(out)@ + t@.take(k as int),
                decreases t.len() - k,
            {
                out.push(t[k]);
                proof {
                    assert(old(out)@ + t@.take(k + 1) =~= (old(out)@ + t@.take(k as int)).push(
                        t@[k as int],
                    ));
                }
                k += 1;
            }
            proof {
                assert(t@.take(t@.len() as int) =~= t@);
                assert(t.deep_view() =~= t@);
            }
        },
        Segment::Line => {
            out.push('\n');
            assert(out@ =~= old(out)@ + encode_seg(seg.deep_view()));
        },
        Segment::Wait => {
            out.push('{');
            out.push('w');
            out.push('a');
            out.push('i');
            out.push('t');
            out.push('}');
            assert(out@ =~= old(out)@ + encode_seg(seg.deep_view()));
        },
        Segment::Color(n) => {
            out.push('{');
            out.push('c');
            out.push('o');
            out.push('l');
            out.push('o');
            out.push('r');
            out.push(' ');
            push_dec(out, *n);
            out.push('}');
            assert(out@ =~= old(out)@ + encode_seg(seg.deep_view()));
        },
        Segment::Item(n) => {
            out.push('{');
            out.push('i');
            out.push('t');
            out.push('e');
            out.push('m');
            out.push(' ');
            push_dec(out, *n as u32);
            out.push('}');
            assert(out@ =~= old(out)@ + encode_seg(seg.deep_view()));
        },
        Segment::Byte(b) => {
            out.push('{');
            out.push('#');
            out.push(hex_ch(*b as u32 / 16));
            out.push(hex_ch(*b as u32 % 16));
            out.push('}');
            assert(out@ =~= old(out)@ + encode_seg(seg.deep_view()));
        },
    }
}

/// Encodes a segment sequence into its display string.
pub fn encode(v: &Vec<Segment>) -> (out: Vec<char>)
    ensures
        out@ == encode_spec(v.deep_view()),
{
    let mut out: Vec<char> = Vec::new();
    let mut k: usize = 0;
    while k < v.len()
        invariant
            k <= v.len(),
            out@ == encode_spec(v.deep_view().take(k as int)),
        decreases v.len() - k,
    {
        push_seg(&mut out, &v[k]);
        proof {
            assert(v.deep_view().take(k + 1) =~= v.deep_view().take(k as int).push(
                v.deep_view()[k as int],
            ));
            lemma_encode_snoc(v.deep_view().take(k as int), v.deep_view()[k as int]);
            assert(v[k as int].deep_view() == v.deep_view()[k as int]);
        }
        k += 1;
    }
    proof {
        assert(v.deep_view().take(v.deep_view().len() as int) =~= v.deep_view());
    }
    out
}

/// Every marker starts with a line break, a carriage return, or `{`.
proof fn lemma_marker0_first(s: Seq<char>)
    ensures
        marker0(s) is Some ==> s[0] == '\n' || s[0] == '\r' || s[0] == '{',
{
}

/// A recognized marker is never a literal run.
proof fn lemma_marker0_not_text(s: Seq<char>)
    ensures
        match marker0(s) {
            Some(p) => !(p.0 is Text),
            None => true,
        },
{
}

/// A digit run within `t` is unchanged by appending text that starts with
/// a non-digit.
proof fn lemma_digit_run_append(t: Seq<char>, u: Seq<char>, i: int)
    requires
        0 <= i <= t.len(),
        u.len() > 0,
        !is_digit(u[0]),
    ensures
        digit_run(t + u, i) == digit_run(t, i),
    decreases t.len() - i,
{
    if i < t.len() {
        assert((t + u)[i] == t[i]);
        if is_digit(t[i]) {
            lemma_digit_run_append(t, u, i + 1);
        }
    } else {
        assert((t + u)[i] == u[0]);
    }
}

/// Recognition at the start of a string is unchanged by appending text that
/// starts with `{`, a line break, or a carriage return: no marker can span
/// the boundary, because no marker holds such a character past its first.
proof fn lemma_marker0_append(t: Seq<char>, u: Seq<char>)
    requires
        t.len() >= 1,
        u.len() >= 1,
        u[0] == '{' || u[0] == '\n' || u[0] == '\r',
    ensures
        marker0(t + u) == marker0(t),
{
    let s = t + u;
    assert(forall|k: int| 0 <= k < t.len() ==> s[k] == t[k]);
    assert(s[t.len() as int] == u[0]);
    assert(!is_digit(u[0]));
    if t.len() > 7 {
        lemma_digit_run_append(t, u, 7);
        lemma_digit_run_nonneg(t, 7);
    }
    if t.len() > 6 {
        lemma_digit_run_append(t, u, 6);
        lemma_digit_run_nonneg(t, 6);
    }
    assert(wait_prefix(s) == wait_prefix(t));
    assert(page_prefix(s) == page_prefix(t));
    assert(color_marker(s) == color_marker(t)) by {
        if color_prefix(s) && t.len() > 7 {
            assert(digit_run(s, 7) == digit_run(t, 7));
            let r = digit_run(t, 7);
            if r >= 1 && 7 + r < s.len() && s[7 + r] == '}' {
                assert(7 + r < t.len());
                assert(s.subrange(7, 7 + r) =~= t.subrange(7, 7 + r));
            }
        }
    }
    if color_marker(t) {
        assert(color_marker_val(s) == color_marker_val(t) && color_marker_len(s)
            == color_marker_len(t)) by {
            assert(digit_run(s, 7) == digit_run(t, 7));
            assert(s.subrange(7, 7 + digit_run(t, 7)) =~= t.subrange(7, 7 + digit_run(t, 7)));
        }
    }
    assert(item_marker(s) == item_marker(t)) by {
        if item_prefix(s) && t.len() > 6 {
            assert(digit_run(s, 6) == digit_run(t, 6));
            let r = digit_run(t, 6);
            if r >= 1 && 6 + r < s.len() && s[6 + r] == '}' {
                assert(6 + r < t.len());
                assert(s.subrange(6, 6 + r) =~= t.subrange(6, 6 + r));
            }
        }
    }
    if item_marker(t) {
        assert(item_marker_val(s) == item_marker_val(t) && item_marker_len(s) == item_marker_len(
            t,
        )) by {
            assert(digit_run(s, 6) == digit_run(t, 6));
            assert(s.subrange(6, 6 + digit_run(t, 6)) =~= t.subrange(6, 6 + digit_run(t, 6)));
        }
    }
    assert(hex_marker(s) == hex_marker(t));
}

/// Shifting the scan start commutes with dropping a prefix.
proof fn lemma_run_end_shift(s: Seq<char>, d: int, i: int)
    requires
        0 <= d <= i <= s.len(),
    ensures
        run_end(s, i) == d + run_end(s.skip(d), i - d),
    decreases s.len() - i,
{
    assert(s.skip(i) =~= s.skip(d).skip(i - d));
    if i < s.len() && marker0(s.skip(i)) is None {
        lemma_run_end_shift(s, d, i + 1);
    }
}

/// Decoding from position `i` ignores everything before `i`.
proof fn lemma_decode_from_shift(s: Seq<char>, d: int, i: int)
    requires
        0 <= d <= i,
        d <= s.len(),
    ensures
        decode_from(s, i) == decode_from(s.skip(d), i - d),
    decreases s.len() - i,
{
    let s2 = s.skip(d);
    if i < s.len() {
        lemma_run_end_shift(s, d, i);
        lemma_run_end(s, i);
        let j = run_end(s, i);
        assert(s.subrange(i, j) =~= s2.subrange(i - d, j - d));
        if j < s.len() {
            assert(s.skip(j) =~= s2.skip(j - d));
            lemma_marker0_len(s.skip(j));
            let l = marker0(s.skip(j))->Some_0.1;
            lemma_decode_from_shift(s, d, j + l);
        }
    } else {
        assert(s2.len() == s.len() - d);
        assert(decode_from(s, i) =~= Seq::<SegView>::empty());
        assert(decode_from(s2, i - d) =~= Seq::<SegView>::empty());
    }
}

/// One scan step: the literal run up to `run_end`, then the rest.
proof fn lemma_decode_step(s: Seq<char>, i: int)
    requires
        0 <= i <= s.len(),
    ensures
        decode_from(s, i) == (if run_end(s, i) > i {
            seq![SegView::Text(s.subrange(i, run_end(s, i)))]
        } else {
            Seq::<SegView>::empty()
        }) + decode_from(s, run_end(s, i)),
{
    lemma_run_end(s, i);
    let j = run_end(s, i);
    if i < s.len() {
        if j < s.len() {
            assert(run_end(s, j) == j);
            let l = marker0(s.skip(j))->Some_0.1;
            let g = marker0(s.skip(j))->Some_0.0;
            assert(decode_from(s, j) =~= seq![g] + decode_from(s, j + l));
            assert(decode_from(s, i) =~= (if j > i {
                seq![SegView::Text(s.subrange(i, j))]
            } else {
                Seq::<SegView>::empty()
            }) + decode_from(s, j));
        } else {
            assert(decode_from(s, j) =~= Seq::<SegView>::empty());
            assert(decode_from(s, i) =~= (if j > i {
                seq![SegView::Text(s.subrange(i, j))]
            } else {
                Seq::<SegView>::empty()
            }) + decode_from(s, j));
        }
    } else {
        assert(decode_from(s, i) =~= (if j > i {
            seq![SegView::Text(s.subrange(i, j))]
        } else {
            Seq::<SegView>::empty()
        }) + decode_from(s, j));
    }
}

/// A literal run as the decoder produces it: non-empty, with no marker
/// starting anywhere inside it.
pub open spec fn lit_ok(t: Seq<char>) -> bool {
    t.len() > 0 && forall|k: int| 0 <= k < t.len() ==> marker0(t.skip(k)) is None
}

/// A segment sequence in the decoder's image: literal runs are non-empty,
/// marker-free, and never adjacent.
pub open spec fn wf(v: Seq<SegView>) -> bool {
    forall|k: int|
        0 <= k < v.len() ==> (#[trigger] v[k] is Text ==> lit_ok(v[k]->Text_0) && (k + 1 < v.len()
            ==> !(v[k + 1] is Text)))
}

/// What the decoder produces is well formed.
pub proof fn lemma_decode_wf(s: Seq<char>, i: int)
    requires
        0 <= i <= s.len(),
    ensures
        wf(decode_from(s, i)),
    decreases s.len() - i,
{
    if i < s.len() {
        lemma_run_end(s, i);
        let j = run_end(s, i);
        let dv = decode_from(s, i);
        if j > i {
            let lit = s.subrange(i, j);
            assert(lit_ok(lit)) by {
                assert forall|k: int| 0 <= k < lit.len() implies marker0(lit.skip(k)) is None by {
                    assert(marker0(s.skip(i + k)) is None);
                    if j < s.len() {
                        lemma_marker0_first(s.skip(j));
                        assert(s.skip(j)[0] == s[j]);
                        assert(lit.skip(k) + s.skip(j) =~= s.skip(i + k));
                        lemma_marker0_append(lit.skip(k), s.skip(j));
                    } else {
                        assert(lit.skip(k) =~= s.skip(i + k));
                    }
                }
            }
        }
        if j < s.len() {
            lemma_marker0_len(s.skip(j));
            lemma_marker0_not_text(s.skip(j));
            let g = marker0(s.skip(j))->Some_0.0;
            let l = marker0(s.skip(j))->Some_0.1;
            lemma_decode_wf(s, j + l);
            let rest = decode_from(s, j + l);
            let off: int = if j > i {
                2
            } else {
                1
            };
            assert forall|k: int|
                0 <= k < dv.len() && #[trigger] dv[k] is Text implies lit_ok(dv[k]->Text_0) && (k
                + 1 < dv.len() ==> !(dv[k + 1] is Text)) by {
                if j > i && k == 0 {
                    assert(dv[0] == SegView::Text(s.subrange(i, j)));
                    assert(dv[1] == g);
                } else {
                    assert(k >= off);
                    assert(dv[k] == rest[k - off]);
                    if k + 1 < dv.len() {
                        assert(dv[k + 1] == rest[k - off + 1]);
                    }
                    assert(rest[k - off] is Text ==> lit_ok(rest[k - off]->Text_0) && (k - off + 1
                        < rest.len() ==> !(rest[k - off + 1] is Text)));
                }
            }
        } else {
            assert forall|k: int|
                0 <= k < dv.len() && #[trigger] dv[k] is Text implies lit_ok(dv[k]->Text_0) && (k
                + 1 < dv.len() ==> !(dv[k + 1] is Text)) by {
                assert(k == 0 && dv[0] == SegView::Text(s.subrange(i, j)));
            }
        }
    }
}

/// Decimal digits of a non-negative number: at least one digit, and parsing
/// them back yields the number.
proof fn lemma_dec_digits(n: int)
    requires
        n >= 0,
    ensures
        dec_digits(n).len() >= 1,
        forall|k: int| 0 <= k < dec_digits(n).len() ==> is_digit(#[trigger] dec_digits(n)[k]),
        dec_val(dec_digits(n)) == n,
    decreases n,
{
    if n < 10 {
        assert(seq![digit_char(n)].drop_last() =~= Seq::<char>::empty());
        assert(dec_val(Seq::<char>::empty()) == 0);
        assert(seq![digit_char(n)].last() == digit_char(n));
        assert(dec_val(seq![digit_char(n)]) == digit_val(digit_char(n)));
    } else {
        lemma_dec_digits(n / 10);
        let w = dec_digits(n / 10) + seq![digit_char(n % 10)];
        assert(w.drop_last() =~= dec_digits(n / 10));
        assert(w.last() == digit_char(n % 10));
        assert(dec_val(w) == dec_val(dec_digits(n / 10)) * 10 + digit_val(digit_char(n % 10)));
        assert(digit_val(digit_char(n % 10)) == n % 10);
        assert((n / 10) * 10 + n % 10 == n);
    }
}

/// Uppercase hexadecimal digits round-trip.
proof fn lemma_hex_char(d: int)
    requires
        0 <= d < 16,
    ensures
        is_hex_digit(hex_char(d)),
        hex_val(hex_char(d)) == d,
{
}

/// The canonical form of a non-literal segment starts with `{` or a line
/// break.
proof fn lemma_token_first(g: SegView)
    requires
        !(g is Text),
    ensures
        encode_seg(g).len() >= 1,
        encode_seg(g)[0] == '{' || encode_seg(g)[0] == '\n',
{
    match g {
        SegView::Color(n) => {
            assert(encode_seg(g)[0] == '{');
        },
        SegView::Item(n) => {
            assert(encode_seg(g)[0] == '{');
        },
        _ => {},
    }
}

/// The canonical form of a non-literal segment is recognized back as
/// exactly that segment, whatever follows it.
proof fn lemma_token_marker(g: SegView, rest: Seq<char>)
    requires
        !(g is Text),
    ensures
        marker0(encode_seg(g) + rest) == Some((g, encode_seg(g).len() as int)),
{
    let tok = encode_seg(g);
    let s = tok + rest;
    assert(forall|k: int| 0 <= k < tok.len() ==> s[k] == tok[k]);
    match g {
        SegView::Line => {
            assert(s[0] == '\n');
        },
        SegView::Wait => {
            assert(wait_prefix(s));
        },
        SegView::Byte(b) => {
            lemma_hex_char(b as int / 16);
            lemma_hex_char(b as int % 16);
            assert(hex_marker(s));
            assert(hex_marker_val(s) == b as int) by {
                assert(s[2] == hex_char(b as int / 16));
                assert(s[3] == hex_char(b as int % 16));
            }
            assert(!wait_prefix(s) && !page_prefix(s));
            assert(!color_marker(s) && !item_marker(s));
        },
        SegView::Color(n) => {
            lemma_dec_digits(n as int);
            let dl = dec_digits(n as int).len() as int;
            assert forall|k: int| 7 <= k < 7 + dl implies is_digit(#[trigger] s[k]) by {
                assert(s[k] == dec_digits(n as int)[k - 7]);
            }
            assert(s[7 + dl] == '}');
            lemma_digit_run_is(s, 7, dl);
            assert(s.subrange(7, 7 + dl) =~= dec_digits(n as int));
            assert(color_marker(s));
            assert(color_marker_val(s) == n as int);
            assert(color_marker_len(s) == tok.len());
            assert(!wait_prefix(s) && !page_prefix(s));
        },
        SegView::Item(n) => {
            lemma_dec_digits(n as int);
            let dl = dec_digits(n as int).len() as int;
            assert forall|k: int| 6 <= k < 6 + dl implies is_digit(#[trigger] s[k]) by {
                assert(s[k] == dec_digits(n as int)[k - 6]);
            }
            assert(s[6 + dl] == '}');
            lemma_digit_run_is(s, 6, dl);
            assert(s.subrange(6, 6 + dl) =~= dec_digits(n as int));
            assert(item_marker(s));
            assert(item_marker_val(s) == n as int);
            assert(item_marker_len(s) == tok.len());
            assert(!wait_prefix(s) && !page_prefix(s) && !color_marker(s));
        },
        SegView::Text(_) => {},
    }
}

/// Law: decoding the encoding of a well-formed segment sequence gives it
/// back unchanged.
#[verifier::rlimit(100)]
pub proof fn lemma_encode_decode_wf(v: Seq<SegView>)
    requires
        wf(v),
    ensures
        decode_spec(encode_spec(v)) == v,
    decreases v.len(),
{
    let s = encode_spec(v);
    if v.len() == 0 {
        assert(decode_from(s, 0) =~= v);
    } else {
        let v1 = v.drop_first();
        assert(wf(v1)) by {
            assert forall|k: int|
                0 <= k < v1.len() && #[trigger] v1[k] is Text implies lit_ok(v1[k]->Text_0) && (k
                + 1 < v1.len() ==> !(v1[k + 1] is Text)) by {
                assert(v1[k] == v[k + 1]);
                if k + 1 < v1.len() {
                    assert(v1[k + 1] == v[k + 2]);
                }
                assert(v[k + 1] is Text ==> lit_ok(v[k + 1]->Text_0) && (k + 2 < v.len() ==> !(v[k
                    + 2] is Text)));
            }
        }
        let rest = encode_spec(v1);
        assert(s == encode_seg(v[0]) + rest);
        lemma_encode_decode_wf(v1);
        if v[0] is Text {
            let trig = v[0];
            let lt = v[0]->Text_0;
            assert(lit_ok(lt));
            let ln = lt.len() as int;
            assert(forall|k: int| 0 <= k < ln ==> s[k] == lt[k]);
            if v.len() > 1 {
                assert(!(v[1] is Text));
                lemma_token_first(v[1]);
                assert(rest == encode_seg(v1[0]) + encode_spec(v1.drop_first()));
                assert(rest.len() >= 1 && (rest[0] == '{' || rest[0] == '\n')) by {
                    assert(rest[0] == encode_seg(v1[0])[0]);
                }
                assert forall|k: int| 0 <= k < ln implies marker0(s.skip(k)) is None by {
                    assert(lt.skip(k) + rest =~= s.skip(k));
                    lemma_marker0_append(lt.skip(k), rest);
                    assert(marker0(lt.skip(k)) is None);
                }
                lemma_token_marker(v1[0], encode_spec(v1.drop_first()));
                assert(s.skip(ln) =~= rest);
                assert(marker0(s.skip(ln)) is Some);
                lemma_run_end_is(s, 0, ln);
            } else {
                assert(rest =~= Seq::<char>::empty());
                assert(s =~= lt);
                assert forall|k: int| 0 <= k < ln implies marker0(s.skip(k)) is None by {
                    assert(s.skip(k) =~= lt.skip(k));
                    assert(marker0(lt.skip(k)) is None);
                }
                lemma_run_end_is(s, 0, ln);
            }
            lemma_decode_step(s, 0);
            assert(s.subrange(0, ln) =~= lt);
            lemma_decode_from_shift(s, ln, ln);
            assert(s.skip(ln) =~= rest);
            assert(decode_from(s.skip(ln), 0) == v1);
            assert(decode_from(s, 0) =~= seq![SegView::Text(lt)] + v1);
            assert(seq![SegView::Text(lt)] + v1 =~= v);
        } else {
            lemma_token_first(v[0]);
            lemma_token_marker(v[0], rest);
            let tl = encode_seg(v[0]).len() as int;
            assert(s.skip(0) =~= s);
            assert(s.len() >= 1);
            assert(marker0(s.skip(0)) == Some((v[0], tl)));
            assert(run_end(s, 0) == 0);
            assert(decode_from(s, 0) =~= seq![v[0]] + decode_from(s, tl));
            lemma_decode_from_shift(s, tl, tl);
            assert(s.skip(tl) =~= rest);
            assert(decode_from(s, 0) =~= seq![v[0]] + v1);
            assert(seq![v[0]] + v1 =~= v);
        }
    }
}

/// Law: for any segment sequence the decoder produces, encoding it and
/// decoding the result gives the same sequence; equivalently,
/// `decode(encode(decode(s)))` equals `decode(s)` for every string `s`.
pub proof fn lemma_decode_encode_roundtrip(s: Seq<char>)
    ensures
        decode_spec(encode_spec(decode_spec(s))) == decode_spec(s),
{
    lemma_decode_wf(s, 0);
    lemma_encode_decode_wf(decode_spec(s));
}

} // verus!
