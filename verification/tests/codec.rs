use tagmerge::codec::{decode, encode, Segment};

fn chars(s: &str) -> Vec<char> {
    s.chars().collect()
}

fn text(s: &str) -> Segment {
    Segment::Text(chars(s))
}

#[test]
fn decode_plain_literal() {
    assert_eq!(decode(&chars("ab")), vec![text("ab")]);
}

#[test]
fn decode_empty_string() {
    assert_eq!(decode(&chars("")), Vec::<Segment>::new());
}

#[test]
fn decode_all_markers() {
    let got = decode(&chars("a\nb{wait}{page}{color 12}{item 300}{#1F}"));
    assert_eq!(
        got,
        vec![
            text("a"),
            Segment::Line,
            text("b"),
            Segment::Wait,
            Segment::Byte(0x03),
            Segment::Color(12),
            Segment::Item(300),
            Segment::Byte(0x1F),
        ]
    );
}

#[test]
fn decode_carriage_return_is_line() {
    assert_eq!(decode(&chars("x\ry")), vec![text("x"), Segment::Line, text("y")]);
}

#[test]
fn decode_lowercase_hex() {
    assert_eq!(decode(&chars("{#ab}")), vec![Segment::Byte(0xAB)]);
}

#[test]
fn decode_unrecognized_stays_literal() {
    assert_eq!(decode(&chars("{colr 5}")), vec![text("{colr 5}")]);
    assert_eq!(decode(&chars("{color }")), vec![text("{color }")]);
    assert_eq!(decode(&chars("{#g1}")), vec![text("{#g1}")]);
    assert_eq!(decode(&chars("{#1}")), vec![text("{#1}")]);
}

#[test]
fn decode_color_out_of_range_stays_literal() {
    assert_eq!(
        decode(&chars("{color 99999999999}")),
        vec![text("{color 99999999999}")]
    );
}

#[test]
fn decode_item_out_of_range_stays_literal() {
    assert_eq!(decode(&chars("{item 70000}")), vec![text("{item 70000}")]);
}

#[test]
fn encode_canonical_forms() {
    let v = vec![
        text("hi"),
        Segment::Line,
        Segment::Wait,
        Segment::Color(7),
        Segment::Item(65535),
        Segment::Byte(0),
    ];
    assert_eq!(encode(&v), chars("hi\n{wait}{color 7}{item 65535}{#00}"));
}

#[test]
fn encode_page_byte_as_hex() {
    // `{page}` decodes to raw byte 0x03 and encodes back as `{#03}`.
    let segs = decode(&chars("{page}"));
    assert_eq!(segs, vec![Segment::Byte(0x03)]);
    assert_eq!(encode(&segs), chars("{#03}"));
}

#[test]
fn round_trip_decoded_sequences() {
    for s in [
        "こんにちは\n{color 5}x{#AB}{wait}",
        "{page}a{item 12}{#00}\r\n",
        "plain",
        "{#1x}{wait}{wait}",
        "a{color 0012}b",
    ] {
        let first = decode(&chars(s));
        let second = decode(&encode(&first));
        assert_eq!(second, first);
    }
}

#[test]
fn decode_leading_zero_digits() {
    assert_eq!(decode(&chars("{color 0012}")), vec![Segment::Color(12)]);
}

#[test]
fn partial_marker_before_real_marker() {
    // "{#0" is no marker; the page marker right after it is. Re-encoding
    // writes the page byte as "{#03}", which must not fuse with the
    // literal's trailing "{#0" into a spurious marker.
    let segs = decode(&chars("{#0{page}"));
    assert_eq!(segs, vec![text("{#0"), Segment::Byte(0x03)]);
    assert_eq!(encode(&segs), chars("{#0{#03}"));
    assert_eq!(decode(&encode(&segs)), segs);
}

#[test]
fn unterminated_marker_at_end() {
    let segs = decode(&chars("abc{wait"));
    assert_eq!(segs, vec![text("abc{wait")]);
    assert_eq!(decode(&encode(&segs)), segs);
}
