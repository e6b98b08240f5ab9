use tagmerge::codec::decode;
use tagmerge::script::{extract, inject, AlignError, Extracted, Slot};

fn cv(s: &str) -> Vec<char> {
    s.chars().collect()
}

#[test]
fn extract_queue_in_slot_order() {
    // One instruction with a two-sequence free-form slot and a short slot,
    // then one with a two-element short-string list: five entries, in
    // instruction order then slot order then element order.
    let f = vec![
        vec![
            Slot::Seqs(vec![decode(&cv("a\n")), decode(&cv("b"))]),
            Slot::Short(cv("name")),
        ],
        vec![Slot::ShortList(vec![cv("x"), cv("y")])],
    ];
    let q = extract(&f);
    assert_eq!(
        q,
        vec![
            Extracted::Free(decode(&cv("a\n"))),
            Extracted::Free(decode(&cv("b"))),
            Extracted::Short(cv("name")),
            Extracted::Short(cv("x")),
            Extracted::Short(cv("y")),
        ]
    );
}

#[test]
fn inject_consumes_whole_queue() {
    let reference = vec![
        vec![Slot::Seqs(vec![decode(&cv("こんにちは\n"))]), Slot::Short(cv("JP"))],
    ];
    let portrait = vec![
        vec![Slot::Seqs(vec![decode(&cv("Hello#1P\n"))]), Slot::Short(cv("EN"))],
    ];
    let q = extract(&reference);
    assert_eq!(q.len(), 2);
    let (merged, diag) = inject(&portrait, &q).expect("aligned shapes must merge");
    // The splice changed the string (a position tag came in), so queue
    // position 0 is flagged for review.
    assert_eq!(diag, vec![0]);
    assert_eq!(
        merged,
        vec![
            vec![
                Slot::Seqs(vec![decode(&cv("#1Pこんにちは\n"))]),
                Slot::Short(cv("JP")),
            ],
        ]
    );
}

#[test]
fn inject_truncated_queue_fails() {
    let portrait = vec![vec![Slot::Short(cv("a")), Slot::Short(cv("b"))]];
    let q = vec![Extracted::Short(cv("only"))];
    let err = inject(&portrait, &q).unwrap_err();
    assert_eq!(
        err,
        AlignError::KindMismatch { queue_pos: 1, expected_free: false }
    );
}

#[test]
fn inject_leftover_queue_fails() {
    let portrait = vec![vec![Slot::Short(cv("a"))]];
    let q = vec![Extracted::Short(cv("one")), Extracted::Short(cv("two"))];
    let err = inject(&portrait, &q).unwrap_err();
    assert_eq!(err, AlignError::Leftover { queue_pos: 1 });
}

#[test]
fn inject_kind_drift_fails() {
    let portrait = vec![vec![Slot::Seqs(vec![decode(&cv("x"))])]];
    let q = vec![Extracted::Short(cv("not free"))];
    let err = inject(&portrait, &q).unwrap_err();
    assert_eq!(
        err,
        AlignError::KindMismatch { queue_pos: 0, expected_free: true }
    );
}

#[test]
fn inject_overwrites_short_lists() {
    let portrait = vec![vec![Slot::ShortList(vec![cv("old1"), cv("old2")])]];
    let q = vec![Extracted::Short(cv("new1")), Extracted::Short(cv("new2"))];
    let (merged, diag) = inject(&portrait, &q).unwrap();
    assert_eq!(merged, vec![vec![Slot::ShortList(vec![cv("new1"), cv("new2")])]]);
    assert_eq!(diag, Vec::<usize>::new());
}

#[test]
fn inject_no_diagnostic_when_splice_neutral() {
    // Identical encodings on both sides splice to themselves: no warning.
    let reference = vec![vec![Slot::Seqs(vec![decode(&cv("same#1P"))])]];
    let portrait = vec![vec![Slot::Seqs(vec![decode(&cv("same#1P"))])]];
    let q = extract(&reference);
    let (merged, diag) = inject(&portrait, &q).unwrap();
    assert_eq!(merged, portrait);
    assert_eq!(diag, Vec::<usize>::new());
}

#[test]
fn extract_then_inject_round_trips_shapes() {
    // Portrait and reference with the same shape: re-injection succeeds
    // with zero remainder, whatever the texts are.
    let reference = vec![
        vec![Slot::Seqs(vec![decode(&cv("r1")), decode(&cv("r2"))])],
        vec![Slot::ShortList(vec![cv("r3")])],
        vec![],
    ];
    let portrait = vec![
        vec![Slot::Seqs(vec![decode(&cv("p1")), decode(&cv("p2#5F"))])],
        vec![Slot::ShortList(vec![cv("p3")])],
        vec![],
    ];
    let q = extract(&reference);
    assert!(inject(&portrait, &q).is_ok());
}
