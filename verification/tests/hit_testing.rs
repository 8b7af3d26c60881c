//! Hit testing: point to offset and offset to point, on single lines.

use piet_text::Error;
use piet_text::GraphemeBounds;
use piet_text::HitTestPoint;
use piet_text::Point;
use piet_text::TableMeasure;
use piet_text::TextAlignment;
use piet_text::TextLayout;
use piet_text::TextLayoutBuilder;
use piet_text::get_grapheme_boundaries;
use piet_text::invalid_input;
use piet_text::not_supported;
use piet_text::point_x_in_grapheme;
use piet_text::sat_add;

/// An oracle with the given per-byte widths, ascent 10, line height 12.
fn oracle(pairs: &[(u8, i64)]) -> TableMeasure {
    let mut t = vec![0i64; 256];
    for (b, w) in pairs {
        t[*b as usize] = *w;
    }
    TableMeasure::new(t, 10, 12)
}

/// Widths used by most latin-text tests.
fn latin() -> TableMeasure {
    oracle(&[
        (b'p', 8),
        (b'i', 3),
        (b'e', 7),
        (b't', 5),
        (b'x', 7),
        (b'!', 5),
        (b' ', 4),
        (b'm', 9),
        (b'o', 7),
        (b's', 6),
        (b'b', 8),
    ])
}

fn layout(m: TableMeasure, text: &str, max_width: Option<i64>) -> TextLayout<TableMeasure> {
    TextLayoutBuilder::new(m, text.as_bytes().to_vec())
        .max_width(max_width)
        .build()
        .unwrap()
}

#[test]
fn hit_test_empty_string() {
    let layout = layout(latin(), "", None);
    let pt = layout.hit_test_point(Point::new(0, 0));
    assert_eq!(pt.idx, 0);
    assert!(!pt.is_inside);
    let pos = layout.hit_test_text_position(0);
    assert_eq!(pos.point.x, 0);
    assert_eq!(pos.point.y, 10);
    let line = layout.line_metric(0).unwrap();
    assert_eq!(line.height, 12);
    assert_eq!(layout.line_count(), 1);
}

#[test]
fn test_hit_test_text_position_basic() {
    // "piet" = 23, "pie" = 18, "pi" = 11, "p" = 8, whole = 56.
    let full_layout = layout(latin(), "piet text!", None);
    assert_eq!(full_layout.hit_test_text_position(4).point.x, 23);
    assert_eq!(full_layout.hit_test_text_position(3).point.x, 18);
    assert_eq!(full_layout.hit_test_text_position(2).point.x, 11);
    assert_eq!(full_layout.hit_test_text_position(1).point.x, 8);
    assert_eq!(full_layout.hit_test_text_position(0).point.x, 0);
    assert_eq!(full_layout.hit_test_text_position(10).point.x, 56);
    assert_eq!(full_layout.size().width, 56);
    // An offset past the end clamps to the end of the text.
    assert_eq!(full_layout.hit_test_text_position(11).point.x, 56);
}

#[test]
fn test_hit_test_point_basic_0() {
    // Boundary widths doubled: 0, 16, 22, 36, 46, 54, 64, ..., 112.
    let mut t = vec![0i64; 256];
    for (b, w) in [
        (b'p', 16),
        (b'i', 6),
        (b'e', 14),
        (b't', 10),
        (b'x', 14),
        (b'!', 10),
        (b' ', 8),
    ] {
        t[b as usize] = w;
    }
    let m = TableMeasure::new(t, 10, 12);
    let layout = layout(m, "piet text!", None);
    assert_eq!(layout.hit_test_text_position(4).point.x, 46);
    assert_eq!(layout.hit_test_text_position(5).point.x, 54);

    let pt = layout.hit_test_point(Point::new(45, 0));
    assert_eq!(pt.idx, 4);
    let pt = layout.hit_test_point(Point::new(46, 0));
    assert_eq!(pt.idx, 4);
    // Equidistant between offsets 4 and 5: the tie goes to the trailing edge.
    let pt = layout.hit_test_point(Point::new(50, 0));
    assert_eq!(pt.idx, 5);
    let pt = layout.hit_test_point(Point::new(52, 0));
    assert_eq!(pt.idx, 5);
    let pt = layout.hit_test_point(Point::new(54, 0));
    assert_eq!(pt.idx, 5);
    let pt = layout.hit_test_point(Point::new(56, 0));
    assert_eq!(pt.idx, 5);

    assert_eq!(layout.size().width, 112);
    let pt = layout.hit_test_point(Point::new(112, 0));
    assert_eq!(pt.idx, 10);
    assert_eq!(pt.is_inside, true);
    let pt = layout.hit_test_point(Point::new(113, 0));
    assert_eq!(pt.idx, 10);
    assert_eq!(pt.is_inside, false);
    let pt = layout.hit_test_point(Point::new(-1, 0));
    assert_eq!(pt.idx, 0);
    assert_eq!(pt.is_inside, false);
}

#[test]
fn test_hit_test_point_basic_1() {
    // One grapheme.
    let layout_t = layout(latin(), "t", None);
    assert_eq!(layout_t.hit_test_text_position(1).point.x, 5);
    let pt = layout_t.hit_test_point(Point::new(1, 0));
    assert_eq!(pt.idx, 0);

    // Two graphemes: checks that the search window moves.
    let layout_te = layout(latin(), "te", None);
    assert_eq!(layout_te.hit_test_text_position(1).point.x, 5);
    assert_eq!(layout_te.hit_test_text_position(2).point.x, 12);

    let pt = layout_te.hit_test_point(Point::new(1, 0));
    assert_eq!(pt.idx, 0);
    let pt = layout_te.hit_test_point(Point::new(4, 0));
    assert_eq!(pt.idx, 1);
    let pt = layout_te.hit_test_point(Point::new(6, 0));
    assert_eq!(pt.idx, 1);
    let pt = layout_te.hit_test_point(Point::new(11, 0));
    assert_eq!(pt.idx, 2);
}

#[test]
fn test_hit_test_text_position_complex_0() {
    let input = "\u{00E9}";
    assert_eq!(input.len(), 2);
    let m = oracle(&[(0xC3, 7)]);
    let layout_e = layout(m, input, None);
    assert_eq!(layout_e.hit_test_text_position(0).point.x, 0);
    assert_eq!(layout_e.hit_test_text_position(2).point.x, layout_e.size().width);

    // A keycap sequence: 3 code points, 7 UTF-8 bytes, one cluster.
    let input = "\u{0023}\u{FE0F}\u{20E3}";
    assert_eq!(input.len(), 7);
    assert_eq!(input.chars().count(), 3);
    let m = oracle(&[(0x23, 9)]);
    let layout_k = layout(m, input, None);
    assert_eq!(layout_k.hit_test_text_position(0).point.x, 0);
    assert_eq!(layout_k.hit_test_text_position(7).point.x, layout_k.size().width);
    assert_eq!(layout_k.size().width, 9);

    // A click inside the cluster resolves to whichever edge is closer:
    // offset 0 before it, offset 7 after it, never an offset inside it.
    let pt = layout_k.hit_test_point(Point::new(4, 0));
    assert_eq!(pt.idx, 0);
    let pt = layout_k.hit_test_point(Point::new(5, 0));
    assert_eq!(pt.idx, 7);
    let pt = layout_k.hit_test_point(Point::new(8, 0));
    assert_eq!(pt.idx, 7);
}

#[test]
fn test_hit_test_text_position_complex_1() {
    // 6 code points, 14 UTF-8 bytes, 4 graphemes; cluster widths
    // 7, 9, 5, 11, so the boundary x-positions are 0, 7, 16, 21, 32.
    let input = "\u{00E9}\u{0023}\u{FE0F}\u{20E3}1\u{1D407}";
    assert_eq!(input.len(), 14);
    // The weight on 0xB8 sits inside the keycap cluster: it must never
    // show up at a cluster-boundary position.
    let m = oracle(&[(0xC3, 7), (0x23, 9), (0x31, 5), (0xF0, 11), (0xB8, 100)]);
    let layout = layout(m, input, None);
    assert_eq!(layout.hit_test_text_position(0).point.x, 0);
    assert_eq!(layout.hit_test_text_position(2).point.x, 7);
    assert_eq!(layout.hit_test_text_position(9).point.x, 16 + 100);
    assert_eq!(layout.hit_test_text_position(10).point.x, 21 + 100);
    assert_eq!(layout.hit_test_text_position(14).point.x, 32 + 100);

    // Offsets strictly inside the keycap cluster snap to its leading
    // edge, whatever bytes they sit between.
    assert_eq!(layout.hit_test_text_position(3).point.x, 7);
    assert_eq!(layout.hit_test_text_position(5).point.x, 7);
    assert_eq!(layout.hit_test_text_position(6).point.x, 7);
}

#[test]
fn test_hit_test_point_complex_0() {
    // Boundary x-positions 0, 7, 16, 21, 32.
    let input = "\u{00E9}\u{0023}\u{FE0F}\u{20E3}1\u{1D407}";
    let m = oracle(&[(0xC3, 7), (0x23, 9), (0x31, 5), (0xF0, 11)]);
    let layout = layout(m, input, None);
    let cases: &[(i64, usize)] = &[
        (2, 0),
        (4, 2),
        (7, 2),
        (10, 2),
        (14, 9),
        (18, 9),
        (20, 10),
        (23, 10),
        (29, 14),
        (32, 14),
        (35, 14),
    ];
    for (x, idx) in cases {
        let pt = layout.hit_test_point(Point::new(*x, 0));
        assert_eq!(pt.idx, *idx, "click at x = {}", x);
    }
}

#[test]
fn test_hit_test_point_complex_1() {
    // Regression: equal-width neighbours must not stall the search.
    // Boundary x-positions 0, 5, 13, 21, 28, 36, 39; a click at 27 sits
    // in the 'y' cluster, nearer its trailing edge at 28.
    let input = "t\u{00DF}\u{00DF}ypi";
    let m = oracle(&[(b't', 5), (0xC3, 8), (b'y', 7), (b'p', 8), (b'i', 3)]);
    let layout = layout(m, input, None);
    assert_eq!(layout.hit_test_text_position(0).point.x, 0);
    assert_eq!(layout.hit_test_text_position(1).point.x, 5);
    assert_eq!(layout.hit_test_text_position(3).point.x, 13);
    assert_eq!(layout.hit_test_text_position(5).point.x, 21);
    assert_eq!(layout.hit_test_text_position(6).point.x, 28);
    assert_eq!(layout.hit_test_text_position(7).point.x, 36);
    assert_eq!(layout.hit_test_text_position(8).point.x, 39);

    let pt = layout.hit_test_point(Point::new(27, 0));
    assert_eq!(pt.idx, 6);
}

#[test]
fn round_trip_on_boundaries() {
    let layout = layout(latin(), "piet text!", None);
    for o in [0usize, 1, 2, 3, 4, 5, 6, 7, 8, 9, 10] {
        let pos = layout.hit_test_text_position(o);
        let pt = layout.hit_test_point(pos.point);
        assert_eq!(pt.idx, o, "round trip at offset {}", o);
    }
}

#[test]
fn positions_monotone_along_line() {
    let layout = layout(latin(), "piet text!", None);
    let mut last_x = 0i64;
    for o in 0..=10usize {
        let x = layout.hit_test_text_position(o).point.x;
        assert!(x >= last_x, "x must not decrease at offset {}", o);
        last_x = x;
    }
}

#[test]
fn grapheme_boundaries_basic() {
    let m = latin();
    let text = b"te";
    let gb = get_grapheme_boundaries(&m, text, 0, 2, 0).unwrap();
    assert_eq!(gb, GraphemeBounds { leading: 0, trailing: 5 });
    let gb = get_grapheme_boundaries(&m, text, 0, 2, 1).unwrap();
    assert_eq!(gb, GraphemeBounds { leading: 5, trailing: 12 });
    assert!(get_grapheme_boundaries(&m, text, 0, 2, 2).is_none());
    assert!(get_grapheme_boundaries(&m, text, 0, 0, 0).is_none());
}

#[test]
fn point_in_grapheme_tie_goes_trailing() {
    let gb = GraphemeBounds { leading: 10, trailing: 20 };
    assert_eq!(point_x_in_grapheme(14, 3, 4, &gb), Some(HitTestPoint { idx: 3, is_inside: true }));
    assert_eq!(point_x_in_grapheme(15, 3, 4, &gb), Some(HitTestPoint { idx: 4, is_inside: true }));
    assert_eq!(point_x_in_grapheme(16, 3, 4, &gb), Some(HitTestPoint { idx: 4, is_inside: true }));
    assert_eq!(point_x_in_grapheme(9, 3, 4, &gb), None);
    assert_eq!(point_x_in_grapheme(21, 3, 4, &gb), None);
}

#[test]
fn invalid_utf8_is_rejected() {
    let m = latin();
    let r = TextLayoutBuilder::new(m, vec![0x66, 0xFF, 0x67]).build();
    assert_eq!(r.err(), Some(Error::InvalidInput));
    assert_eq!(invalid_input(), Error::InvalidInput);
    assert_eq!(not_supported(), Error::NotSupported);
}

#[test]
fn char_table_oracle() {
    // Keys are whole characters, so two characters sharing a lead byte
    // still measure apart: 'é' (C3 A9) is 7 wide, 'è' (C3 A8) is 13.
    let keys: Vec<Vec<u8>> = vec![
        "\u{00E9}".as_bytes().to_vec(),
        "\u{00E8}".as_bytes().to_vec(),
        b"a".to_vec(),
    ];
    let widths: Vec<i64> = vec![7, 13, 5];
    let m = piet_text::CharTableMeasure::new(keys, widths, 10, 12);
    let layout = TextLayoutBuilder::new(m, "a\u{00E9}\u{00E8}".as_bytes().to_vec())
        .build()
        .unwrap();
    assert_eq!(layout.hit_test_text_position(0).point.x, 0);
    assert_eq!(layout.hit_test_text_position(1).point.x, 5);
    assert_eq!(layout.hit_test_text_position(3).point.x, 12);
    assert_eq!(layout.hit_test_text_position(5).point.x, 25);
    assert_eq!(layout.size().width, 25);
    let pt = layout.hit_test_point(Point::new(11, 0));
    assert_eq!(pt.idx, 3);
}

#[test]
fn alignment_and_defaults() {
    assert_eq!(TextAlignment::default(), TextAlignment::Start);
    assert_eq!(HitTestPoint::default(), HitTestPoint { idx: 0, is_inside: false });
    assert_eq!(sat_add(i64::MAX - 1, 5), i64::MAX);
    assert_eq!(sat_add(3, 4), 7);
}
