//! Line breaking, multi-line hit testing, and range rectangles.

use piet_text::Point;
use piet_text::Rect;
use piet_text::Size;
use piet_text::TableMeasure;
use piet_text::TextLayout;
use piet_text::TextLayoutBuilder;

/// An oracle with the given per-byte widths, ascent 10, line height 12.
fn widths(pairs: &[(u8, i64)]) -> TableMeasure {
    let mut t = vec![0i64; 256];
    for (b, w) in pairs {
        t[*b as usize] = *w;
    }
    TableMeasure::new(t, 10, 12)
}

fn latin_widths() -> TableMeasure {
    widths(&[
        (b'p', 8),
        (b'i', 3),
        (b'e', 7),
        (b't', 5),
        (b'x', 7),
        (b'!', 5),
        (b' ', 4),
        (b'm', 9),
        (b'o', 7),
        (b's', 6),
        (b'b', 8),
        (b'a', 6),
        (b'c', 6),
        (b'd', 6),
        (b'f', 6),
    ])
}

fn build(m: TableMeasure, text: &str, max_width: Option<i64>) -> TextLayout<TableMeasure> {
    TextLayoutBuilder::new(m, text.as_bytes().to_vec())
        .max_width(max_width)
        .build()
        .unwrap()
}

#[test]
fn test_multiline_hit_test_text_position_basic() {
    // "piet" is 23 wide, so it fits a 25-unit line; "text!" starts the
    // next line and both separating spaces fold into line 0's trailing
    // whitespace.
    let full_layout = build(latin_widths(), "piet  text!", Some(25));
    assert_eq!(full_layout.line_count(), 2);
    let lm0 = full_layout.line_metric(0).unwrap();
    assert_eq!(lm0.start_offset, 0);
    assert_eq!(lm0.end_offset, 6);
    assert_eq!(lm0.trailing_whitespace, 2);
    assert_eq!(lm0.y_offset, 0);
    let lm1 = full_layout.line_metric(1).unwrap();
    assert_eq!(lm1.start_offset, 6);
    assert_eq!(lm1.end_offset, 11);
    assert_eq!(lm1.trailing_whitespace, 0);
    assert_eq!(lm1.y_offset, 12);
    assert_eq!(lm0.range(), 0..6);
    assert_eq!(lm1.range(), 6..11);
    assert_eq!(full_layout.line_text(1).unwrap(), b"text!");
    assert!(full_layout.line_text(2).is_none());
    assert!(full_layout.line_metric(2).is_none());

    // x positions on the second line: "t" = 5, "te" = 12, "tex" = 19,
    // "text" = 24.
    assert_eq!(full_layout.hit_test_text_position(10).point.x, 24);
    assert_eq!(full_layout.hit_test_text_position(9).point.x, 19);
    assert_eq!(full_layout.hit_test_text_position(8).point.x, 12);
    assert_eq!(full_layout.hit_test_text_position(7).point.x, 5);
    // The start of the second line.
    assert_eq!(full_layout.hit_test_text_position(6).point.x, 0);
    assert_eq!(full_layout.hit_test_text_position(6).line, 1);

    assert_eq!(full_layout.hit_test_text_position(3).point.x, 18);
    // Trailing whitespace stays addressable: offset 5 sits one space past
    // the first word.
    assert_eq!(full_layout.hit_test_text_position(5).point.x, 27);
    assert_eq!(full_layout.hit_test_text_position(5).line, 0);

    // Baselines: line 0 at ascent 10, line 1 at 12 + 10.
    for o in [6usize, 7, 8, 9, 10] {
        assert_eq!(full_layout.hit_test_text_position(o).point.y, 22);
    }
    for o in [4usize, 5] {
        assert_eq!(full_layout.hit_test_text_position(o).point.y, 10);
    }
}

#[test]
fn test_multiline_hit_test_point_basic() {
    // Four lines: "piet ", "text ", "most ", "best"; each visible word
    // fits 30 units and each next word would overflow.
    let input = "piet text most best";
    let layout = build(latin_widths(), input, Some(30));
    assert_eq!(layout.line_count(), 4);
    assert_eq!(layout.line_text(0).unwrap(), b"piet ");
    assert_eq!(layout.line_text(3).unwrap(), b"best");

    let pt = layout.hit_test_point(Point::new(1, -1));
    assert_eq!(pt.idx, 0);
    assert_eq!(pt.is_inside, false);
    let pt = layout.hit_test_point(Point::new(1, 0));
    assert_eq!(pt.idx, 0);
    assert!(pt.is_inside);
    let pt = layout.hit_test_point(Point::new(1, 14));
    assert_eq!(pt.idx, 5);
    let pt = layout.hit_test_point(Point::new(1, 28));
    assert_eq!(pt.idx, 10);
    let pt = layout.hit_test_point(Point::new(1, 44));
    assert_eq!(pt.idx, 15);

    // Below every line: the x coordinate still picks a position on the
    // last line, "best", whose boundaries sit at 0, 8, 15, 21, 26.
    let pt = layout.hit_test_point(Point::new(1, 56));
    assert_eq!(pt.idx, 15);
    assert_eq!(pt.is_inside, false);
    let pt = layout.hit_test_point(Point::new(25, 56));
    assert_eq!(pt.idx, 19);
    assert_eq!(pt.is_inside, false);
    let pt = layout.hit_test_point(Point::new(27, 56));
    assert_eq!(pt.idx, 19);
    assert_eq!(pt.is_inside, false);

    // Above every line: the first line, visible text "piet", boundaries
    // at 0, 8, 11, 18, 23.
    let pt = layout.hit_test_point(Point::new(1, -14));
    assert_eq!(pt.idx, 0);
    assert_eq!(pt.is_inside, false);
    let pt = layout.hit_test_point(Point::new(22, -14));
    assert_eq!(pt.idx, 4);
    assert_eq!(pt.is_inside, false);
    // Right of the visible text: the visible end of the line.
    let pt = layout.hit_test_point(Point::new(26, -14));
    assert_eq!(pt.idx, 4);
    assert_eq!(pt.is_inside, false);
}

#[test]
fn hard_breaks_force_lines() {
    let layout = build(latin_widths(), "ab\ncd", None);
    assert_eq!(layout.line_count(), 2);
    let lm0 = layout.line_metric(0).unwrap();
    assert_eq!((lm0.start_offset, lm0.end_offset, lm0.trailing_whitespace), (0, 3, 1));
    let lm1 = layout.line_metric(1).unwrap();
    assert_eq!((lm1.start_offset, lm1.end_offset, lm1.trailing_whitespace), (3, 5, 0));
}

#[test]
fn trailing_hard_break_adds_empty_line() {
    let layout = build(latin_widths(), "ab\n", None);
    assert_eq!(layout.line_count(), 2);
    let lm1 = layout.line_metric(1).unwrap();
    assert_eq!((lm1.start_offset, lm1.end_offset, lm1.trailing_whitespace), (3, 3, 0));
    assert_eq!(lm1.y_offset, 12);
    // The caret after the break sits at the start of the empty line.
    let pos = layout.hit_test_text_position(3);
    assert_eq!(pos.line, 1);
    assert_eq!(pos.point.x, 0);
    assert_eq!(pos.point.y, 22);
    // A click right of line 0 lands before the break, not past it.
    let pt = layout.hit_test_point(Point::new(1000, 0));
    assert_eq!(pt.idx, 2);
}

#[test]
fn crlf_is_one_break() {
    let layout = build(latin_widths(), "a\r\nb", None);
    assert_eq!(layout.line_count(), 2);
    let lm0 = layout.line_metric(0).unwrap();
    assert_eq!((lm0.start_offset, lm0.end_offset, lm0.trailing_whitespace), (0, 3, 2));
    let lm1 = layout.line_metric(1).unwrap();
    assert_eq!((lm1.start_offset, lm1.end_offset, lm1.trailing_whitespace), (3, 4, 0));
}

#[test]
fn lone_carriage_return_is_text() {
    let layout = build(latin_widths(), "a\rb", None);
    assert_eq!(layout.line_count(), 1);
}

#[test]
fn oversized_word_gets_its_own_line() {
    // No word fits 3 units, but words are never broken in the middle.
    let layout = build(latin_widths(), "abc de", Some(3));
    assert_eq!(layout.line_count(), 2);
    assert_eq!(layout.line_text(0).unwrap(), b"abc ");
    assert_eq!(layout.line_text(1).unwrap(), b"de");
}

#[test]
fn whitespace_only_line() {
    let layout = build(latin_widths(), "   ", None);
    assert_eq!(layout.line_count(), 1);
    let lm = layout.line_metric(0).unwrap();
    assert_eq!((lm.start_offset, lm.end_offset, lm.trailing_whitespace), (0, 3, 3));
    let pt = layout.hit_test_point(Point::new(1, 0));
    assert_eq!(pt.idx, 0);
    assert_eq!(pt.is_inside, false);
}

#[test]
fn no_wrapping_without_constraint() {
    let layout = build(latin_widths(), "piet text most best", None);
    assert_eq!(layout.line_count(), 1);
}

#[test]
fn update_width_recomputes() {
    let mut layout = build(latin_widths(), "piet  text!", None);
    assert_eq!(layout.line_count(), 1);
    assert_eq!(layout.size(), Size { width: 60, height: 12 });
    assert!(layout.update_width(Some(25)).is_ok());
    assert_eq!(layout.line_count(), 2);
    // Line 0 measures "piet  " in full, 31 units; line 1 "text!", 29.
    assert_eq!(layout.size(), Size { width: 31, height: 24 });
    assert!(layout.update_width(None).is_ok());
    assert_eq!(layout.line_count(), 1);
    assert_eq!(layout.size(), Size { width: 60, height: 12 });
}

#[test]
fn image_bounds_covers_size() {
    let layout = build(latin_widths(), "te", None);
    assert_eq!(layout.image_bounds(), Rect { x0: 0, y0: 0, x1: 12, y1: 12 });
}

#[test]
fn rects_for_range_spans_lines() {
    let layout = build(latin_widths(), "piet  text!", Some(25));
    // Offsets 2..8: from "pi|et" on line 0 through "te|xt!" on line 1.
    let rects = layout.rects_for_range(2, 8);
    assert_eq!(rects.len(), 2);
    assert_eq!(rects[0], Rect { x0: 11, y0: 0, x1: 23, y1: 12 });
    assert_eq!(rects[1], Rect { x0: 0, y0: 12, x1: 12, y1: 24 });

    // A range within one line gives one rectangle.
    let rects = layout.rects_for_range(1, 3);
    assert_eq!(rects.len(), 1);
    assert_eq!(rects[0], Rect { x0: 8, y0: 0, x1: 18, y1: 12 });

    // The range clamps to the text; "text!" measures 29 in full.
    let rects = layout.rects_for_range(7, 1000);
    assert_eq!(rects.len(), 1);
    assert_eq!(rects[0], Rect { x0: 5, y0: 12, x1: 29, y1: 24 });
}

#[test]
fn text_accessor_returns_bytes() {
    let layout = build(latin_widths(), "te", None);
    assert_eq!(layout.text(), b"te");
}
