//! The text layout object: a text, its line records, and the queries
//! against them.
//!
//! A layout is built once from a text, a measurement oracle, and a width
//! constraint, and is immutable until `update_width` recomputes the line
//! records in place; every query then works over the same immutable line
//! records.

use vstd::prelude::*;
use vstd::slice::slice_subrange;

use crate::grapheme::gbounds;
use crate::hit::bound_width;
use crate::hit::hit_test_line_point;
use crate::hit::hit_test_line_position;
use crate::hit::line_point_post;
use crate::hit::line_position_x;
use crate::lines::LineMetric;
use crate::lines::calculate_line_metrics;
use crate::lines::lemma_lines_from_wf;
use crate::lines::lemma_spec_layout_lines_wf;
use crate::lines::line_wf;
use crate::lines::lines_from;
use crate::lines::lines_wf;
use crate::lines::spec_layout_lines;
use crate::lines::trailing_nlf;
use crate::lines::trailing_nlf_len;
use crate::measure::Measure;
use crate::num::sat_add;
use crate::num::spec_sat_add;
use crate::num::lemma_sat_add_bounds;
use crate::types::Error;
use crate::types::HitTestPoint;
use crate::types::HitTestPosition;
use crate::types::Point;
use crate::types::Rect;
use crate::types::Size;
use crate::types::TextAlignment;
use crate::utf8::is_char_boundary;
use crate::utf8::is_utf8;
use crate::utf8::lemma_subrange_utf8;
use crate::utf8::validate_utf8;

verus! {

/// The maximum, over the line records, of the measured width of each
/// line's full byte range (trailing whitespace included); 0 for no lines.
pub open spec fn spec_max_line_width<M: Measure>(m: M, s: Seq<u8>, lines: Seq<LineMetric>) -> i64
    decreases lines.len(),
{
    if lines.len() == 0 {
        0
    } else {
        let rest = spec_max_line_width(m, s, lines.drop_last());
        let lw = m.width_of(
            s.subrange(lines.last().start_offset as int, lines.last().end_offset as int),
        );
        if lw > rest {
            lw
        } else {
            rest
        }
    }
}

/// The line containing byte offset `pos`, scanning from line `i`: the
/// first line whose range has not ended at or before `pos`. An offset at
/// a boundary shared by two lines belongs to the later one; the last line
/// takes everything at or past its start.
pub open spec fn lfp_from(lines: Seq<LineMetric>, pos: int, i: int) -> int
    decreases lines.len() - i when 0 <= i
{
    if i >= lines.len() - 1 {
        lines.len() - 1
    } else if pos < lines[i].end_offset {
        i
    } else {
        lfp_from(lines, pos, i + 1)
    }
}

/// The line containing byte offset `pos`.
pub open spec fn spec_line_for_position(lines: Seq<LineMetric>, pos: int) -> int {
    lfp_from(lines, pos, 0)
}

/// The selected line's range contains `pos`; an offset at the shared
/// boundary of two lines lies at the start of the later one, except at
/// the very end of the text.
pub proof fn lemma_lfp_props<M: Measure>(m: M, s: Seq<u8>, lines: Seq<LineMetric>, pos: int, i: int)
    requires
        lines_wf(m, s, lines),
        0 <= i <= lines.len() - 1,
        lines[i].start_offset <= pos <= s.len(),
    ensures
        ({
            let li = lfp_from(lines, pos, i);
            &&& i <= li <= lines.len() - 1
            &&& lines[li].start_offset <= pos <= lines[li].end_offset
            &&& (li < lines.len() - 1 ==> pos < lines[li].end_offset)
        }),
    decreases lines.len() - i,
{
    if i >= lines.len() - 1 {
        assert(lines[i].end_offset == s.len());
    } else if pos < lines[i].end_offset {
    } else {
        assert(lines[i].end_offset == lines[i + 1].start_offset);
        lemma_lfp_props(m, s, lines, pos, i + 1);
    }
}

/// The line whose vertical extent contains `y`, scanning from line `i`:
/// the first line whose box has not ended at or above `y`; the last line
/// takes everything below it.
pub open spec fn lfy_from(lines: Seq<LineMetric>, y: int, i: int) -> int
    decreases lines.len() - i when 0 <= i
{
    if i >= lines.len() - 1 {
        lines.len() - 1
    } else if y < spec_sat_add(lines[i].y_offset, lines[i].height) {
        i
    } else {
        lfy_from(lines, y, i + 1)
    }
}

/// The line whose vertical extent contains `y`.
pub open spec fn spec_line_for_y(lines: Seq<LineMetric>, y: int) -> int {
    lfy_from(lines, y, 0)
}

/// The selected line's vertical extent contains `y`.
pub proof fn lemma_lfy_props<M: Measure>(m: M, s: Seq<u8>, lines: Seq<LineMetric>, y: int, i: int)
    requires
        lines_wf(m, s, lines),
        0 <= i <= lines.len() - 1,
        lines[i].y_offset <= y,
        y < spec_sat_add(lines[lines.len() - 1].y_offset, lines[lines.len() - 1].height),
    ensures
        ({
            let li = lfy_from(lines, y, i);
            &&& i <= li <= lines.len() - 1
            &&& lines[li].y_offset <= y < spec_sat_add(lines[li].y_offset, lines[li].height)
        }),
    decreases lines.len() - i,
{
    if i >= lines.len() - 1 {
    } else if y < spec_sat_add(lines[i].y_offset, lines[i].height) {
    } else {
        assert(lines[i].end_offset == lines[i + 1].start_offset);
        assert(lines[i + 1].y_offset == spec_sat_add(lines[i].y_offset, lines[i].height));
        lemma_lfy_props(m, s, lines, y, i + 1);
    }
}

/// Locate the line containing byte offset `pos`.
fn line_for_position(lines: &Vec<LineMetric>, pos: usize) -> (r: usize)
    requires
        lines@.len() >= 1,
    ensures
        r == spec_line_for_position(lines@, pos as int),
        r < lines@.len(),
{
    let n: usize = lines.len();
    let mut i: usize = 0;
    loop
        invariant
            0 <= i <= n - 1,
            n == lines@.len(),
            n >= 1,
            lfp_from(lines@, pos as int, i as int) == spec_line_for_position(lines@, pos as int),
        decreases n - 1 - i,
    {
        if i >= n - 1 {
            return i;
        }
        if pos < lines[i].end_offset {
            return i;
        }
        i = i + 1;
    }
}

/// Locate the line whose vertical extent contains `y`.
fn line_for_y(lines: &Vec<LineMetric>, y: i64) -> (r: usize)
    requires
        lines@.len() >= 1,
        forall|k: int| 0 <= k < lines@.len() ==> 0 <= (#[trigger] lines@[k]).y_offset && 0 <= lines@[k].height,
    ensures
        r == spec_line_for_y(lines@, y as int),
        r < lines@.len(),
{
    let n: usize = lines.len();
    let mut i: usize = 0;
    loop
        invariant
            0 <= i <= n - 1,
            n == lines@.len(),
            n >= 1,
            forall|k: int|
                0 <= k < lines@.len() ==> 0 <= (#[trigger] lines@[k]).y_offset && 0
                    <= lines@[k].height,
            lfy_from(lines@, y as int, i as int) == spec_line_for_y(lines@, y as int),
        decreases n - 1 - i,
    {
        if i >= n - 1 {
            return i;
        }
        let lm = lines[i];
        if y < sat_add(lm.y_offset, lm.height) {
            return i;
        }
        i = i + 1;
    }
}

/// What point hit testing returns against a whole layout: empty text
/// resolves to offset 0; otherwise the query's y-coordinate picks a line
/// (clamping above to the first and below to the last, which marks the
/// hit outside), and the x-coordinate resolves against that line's
/// visible text as [`line_point_post`] states; the hit is inside exactly
/// when both coordinates were.
pub open spec fn hit_test_point_post<M: Measure>(
    lay: TextLayout<M>,
    pt: Point,
    r: HitTestPoint,
) -> bool {
    let lines = lay.lines@;
    let s = lay.text@;
    let total = spec_sat_add(lines.last().y_offset, lines.last().height);
    if s.len() == 0 {
        r.idx == 0 && !r.is_inside
    } else {
        let y_in = 0 <= pt.y < total;
        let li = if pt.y < 0 {
            0int
        } else if pt.y >= total {
            lines.len() - 1
        } else {
            spec_line_for_y(lines, pt.y as int)
        };
        let lm = lines[li];
        let ls = lm.start_offset as int;
        let sub = s.subrange(ls, lm.end_offset - lm.trailing_whitespace);
        let h_in = sub.len() > 0 && 0 < pt.x <= bound_width(
            lay.oracle,
            sub,
            gbounds(sub).len() - 1,
        );
        &&& r.is_inside == (y_in && h_in)
        &&& ls <= r.idx <= lm.end_offset - lm.trailing_whitespace
        &&& line_point_post(
            lay.oracle,
            sub,
            pt.x as int,
            (HitTestPoint { idx: (r.idx - ls) as usize, is_inside: h_in }),
        )
    }
}

/// What position hit testing returns against a whole layout: the
/// (length-clamped) offset's line, the baseline y of that line, and the
/// line-local snapped x as [`line_position_x`] states.
pub open spec fn spec_hit_test_text_position<M: Measure>(
    lay: TextLayout<M>,
    idx: int,
) -> HitTestPosition {
    let lines = lay.lines@;
    let s = lay.text@;
    let p = if idx <= s.len() {
        idx
    } else {
        s.len() as int
    };
    let li = spec_line_for_position(lines, p);
    let lm = lines[li];
    HitTestPosition {
        point: Point {
            x: line_position_x(
                lay.oracle,
                s.subrange(lm.start_offset as int, lm.end_offset as int),
                p - lm.start_offset,
            ),
            y: spec_sat_add(lm.y_offset, lm.baseline),
        },
        line: li as usize,
    }
}

/// A text layout: an immutable UTF-8 text, the oracle that measures it,
/// and the line records computed for the current width constraint.
pub struct TextLayout<M: Measure> {
    /// The measurement oracle the layout was built with.
    pub oracle: M,
    /// A default foreground color, carried through for the rendering back
    /// end; the layout does not interpret it.
    pub fg_color: u32,
    /// The laid-out text, an immutable UTF-8 byte sequence.
    pub text: Vec<u8>,
    /// One record per visual line, in order of appearance.
    pub lines: Vec<LineMetric>,
    /// Bounding box over all lines.
    pub size: Size,
    /// The width constraint the lines were computed for; `None` disables
    /// wrapping.
    pub max_width: Option<i64>,
}

impl<M: Measure> TextLayout<M> {
    /// The layout's invariant: the text is well-formed UTF-8 and the line
    /// records and size are exactly what the line breaker computes for
    /// the stored width constraint.
    pub open spec fn wf(&self) -> bool {
        &&& is_utf8(self.text@)
        &&& 0 <= self.oracle.ascent_of()
        &&& 0 <= self.oracle.height_of()
        &&& self.lines@ == spec_layout_lines(self.oracle, self.text@, self.max_width)
        &&& lines_wf(self.oracle, self.text@, self.lines@)
        &&& self.size.width == spec_max_line_width(self.oracle, self.text@, self.lines@)
        &&& self.size.height == spec_sat_add(
            self.lines@.last().y_offset,
            self.lines@.last().height,
        )
    }

    /// Recompute the line records and size for a new width constraint
    /// (`None` disables wrapping). Always succeeds.
    #[verifier::rlimit(50)]
    pub fn update_width(&mut self, new_width: Option<i64>) -> (r: Result<(), Error>)
        requires
            is_utf8(old(self).text@),
        ensures
            r == Result::<(), Error>::Ok(()),
            final(self).wf(),
            final(self).text@ == old(self).text@,
            final(self).oracle == old(self).oracle,
            final(self).fg_color == old(self).fg_color,
            final(self).max_width == new_width,
            final(self).lines@ == spec_layout_lines(old(self).oracle, old(self).text@, new_width),
    {
        let ghost s = self.text@;
        let ghost m = self.oracle;
        proof {
            self.oracle.lemma_metrics_nonneg();
        }
        let asc = self.oracle.ascent();
        let h = self.oracle.height();
        let computed = calculate_line_metrics(&self.oracle, self.text.as_slice(), new_width);
        self.lines = computed;
        let n: usize = self.text.len();
        if n == 0 {
            let lm = LineMetric {
                start_offset: 0,
                end_offset: 0,
                trailing_whitespace: 0,
                baseline: asc,
                height: h,
                y_offset: 0,
            };
            self.lines.push(lm);
            proof {
                assert(lines_from(m, s, new_width, 0, 0) =~= Seq::<LineMetric>::empty());
                assert(self.lines@ =~= spec_layout_lines(m, s, new_width));
            }
        } else {
            let nlf = trailing_nlf_len(self.text.as_slice(), 0, n);
            proof {
                assert(s.subrange(0, n as int) =~= s);
            }
            if nlf > 0 {
                proof {
                    lemma_lines_from_wf(m, s, new_width, 0, 0);
                }
                let last = self.lines[self.lines.len() - 1];
                let lm = LineMetric {
                    start_offset: n,
                    end_offset: n,
                    trailing_whitespace: 0,
                    baseline: asc,
                    height: h,
                    y_offset: sat_add(last.y_offset, last.height),
                };
                self.lines.push(lm);
                proof {
                    assert(self.lines@ =~= spec_layout_lines(m, s, new_width));
                }
            }
        }
        proof {
            lemma_spec_layout_lines_wf(m, s, new_width);
        }

        let mut width: i64 = 0;
        let mut i: usize = 0;
        while i < self.lines.len()
            invariant
                0 <= i <= self.lines@.len(),
                self.text@ == s,
                self.oracle == m,
                self.fg_color == old(self).fg_color,
                self.lines@ == spec_layout_lines(m, s, new_width),
                lines_wf(m, s, self.lines@),
                width == spec_max_line_width(m, s, self.lines@.take(i as int)),
            decreases self.lines@.len() - i,
        {
            let lm = self.lines[i];
            let w = self.oracle.advance_width(self.text.as_slice(), lm.start_offset, lm.end_offset);
            proof {
                let pre = self.lines@.take(i as int);
                let post = self.lines@.take(i + 1);
                assert(post.drop_last() =~= pre);
                assert(post.last() == self.lines@[i as int]);
            }
            if w > width {
                width = w;
            }
            i = i + 1;
        }
        proof {
            assert(self.lines@.take(self.lines@.len() as int) =~= self.lines@);
        }
        let nl = self.lines.len();
        let last = self.lines[nl - 1];
        let total = sat_add(last.y_offset, last.height);
        self.size = Size { width, height: total };
        self.max_width = new_width;
        Result::Ok(())
    }

    /// The total size of this layout.
    pub fn size(&self) -> (r: Size)
        ensures
            r == self.size,
    {
        self.size
    }

    /// The bounding box of the layout's content, anchored at the origin.
    pub fn image_bounds(&self) -> (r: Rect)
        ensures
            r == (Rect { x0: 0, y0: 0, x1: self.size.width, y1: self.size.height }),
    {
        Rect::new(0, 0, self.size.width, self.size.height)
    }

    /// The text this layout was created with.
    pub fn text(&self) -> (r: &[u8])
        ensures
            r@ == self.text@,
    {
        self.text.as_slice()
    }

    /// The bytes of one line, trailing whitespace included, or `None`
    /// past the last line.
    pub fn line_text(&self, line_number: usize) -> (r: Option<&[u8]>)
        requires
            self.wf(),
        ensures
            line_number < self.lines@.len() ==> ({
                &&& r is Some
                &&& r.unwrap()@ == self.text@.subrange(
                    self.lines@[line_number as int].start_offset as int,
                    self.lines@[line_number as int].end_offset as int,
                )
            }),
            line_number >= self.lines@.len() ==> r is None,
    {
        if line_number < self.lines.len() {
            let lm = self.lines[line_number];
            Some(slice_subrange(self.text.as_slice(), lm.start_offset, lm.end_offset))
        } else {
            None
        }
    }

    /// The metric record of one line, or `None` past the last line.
    pub fn line_metric(&self, line_number: usize) -> (r: Option<LineMetric>)
        ensures
            line_number < self.lines@.len() ==> r == Some(self.lines@[line_number as int]),
            line_number >= self.lines@.len() ==> r is None,
    {
        if line_number < self.lines.len() {
            Some(self.lines[line_number])
        } else {
            None
        }
    }

    /// The number of lines in this layout.
    pub fn line_count(&self) -> (r: usize)
        ensures
            r == self.lines@.len(),
    {
        self.lines.len()
    }

    /// Map a point to the text position nearest it. Always returns some
    /// position: a point outside the layout resolves to the nearest
    /// position on the first or last line, marked not inside.
    pub fn hit_test_point(&self, point: Point) -> (r: HitTestPoint)
        requires
            self.wf(),
        ensures
            hit_test_point_post(*self, point, r),
    {
        let ghost s = self.text@;
        let ghost m = self.oracle;
        if self.text.len() == 0 {
            return HitTestPoint::new(0, false);
        }
        let nlines = self.lines.len();
        let last = self.lines[nlines - 1];
        proof {
            assert(lines_wf(m, s, self.lines@));
            assert(line_wf(m, s, self.lines@[nlines - 1]));
        }
        let total = sat_add(last.y_offset, last.height);
        let (y_inside, li): (bool, usize) = if point.y < 0 {
            (false, 0)
        } else if point.y >= total {
            (false, nlines - 1)
        } else {
            proof {
                assert forall|k: int|
                    0 <= k < self.lines@.len() implies 0 <= (#[trigger] self.lines@[k]).y_offset
                    && 0 <= self.lines@[k].height by {
                    assert(line_wf(m, s, self.lines@[k]));
                }
            }
            (true, line_for_y(&self.lines, point.y))
        };
        let lm = self.lines[li];
        proof {
            assert(line_wf(m, s, self.lines@[li as int]));
            if !(point.y < 0) && point.y < total {
                lemma_lfy_props(m, s, self.lines@, point.y as int, 0);
            }
        }
        let ve: usize = lm.end_offset - lm.trailing_whitespace;
        proof {
            lemma_subrange_utf8(s, lm.start_offset as int, ve as int);
        }
        let htp = hit_test_line_point(
            &self.oracle,
            self.text.as_slice(),
            lm.start_offset,
            ve,
            point.x,
        );
        let mut idx: usize = lm.start_offset + htp.idx;
        if idx == lm.end_offset {
            let nlf = trailing_nlf_len(self.text.as_slice(), lm.start_offset, lm.end_offset);
            proof {
                assert(lm.trailing_whitespace == 0);
                assert(nlf == 0);
            }
            idx = idx - nlf;
        }
        let r = HitTestPoint::new(idx, htp.is_inside && y_inside);
        proof {
            let sub = s.subrange(lm.start_offset as int, ve as int);
            let h_in = sub.len() > 0 && 0 < point.x <= bound_width(
                m,
                sub,
                gbounds(sub).len() - 1,
            );
            assert(htp == (HitTestPoint { idx: (r.idx - lm.start_offset) as usize, is_inside: h_in }));
        }
        r
    }

    /// Map a (length-clamped) byte offset to its position in the layout:
    /// the baseline point of the grapheme boundary at or before it, and
    /// its line number. The offset must lie on a character boundary.
    pub fn hit_test_text_position(&self, idx: usize) -> (r: HitTestPosition)
        requires
            self.wf(),
            is_char_boundary(
                self.text@,
                if idx <= self.text@.len() {
                    idx as int
                } else {
                    self.text@.len() as int
                },
            ),
        ensures
            r == spec_hit_test_text_position(*self, idx as int),
    {
        let ghost s = self.text@;
        let ghost m = self.oracle;
        let n = self.text.len();
        let p: usize = if idx < n {
            idx
        } else {
            n
        };
        if n == 0 {
            let asc = self.oracle.ascent();
            let r = HitTestPosition::new(Point::new(0, asc), 0);
            proof {
                let lm = self.lines@[0];
                let sub = s.subrange(lm.start_offset as int, lm.end_offset as int);
                assert(sub =~= Seq::<u8>::empty());
                crate::grapheme::lemma_gbounds_wf(sub);
                assert(gbounds(sub).last() == 0);
                assert(crate::grapheme::snap_bound(gbounds(sub), 0) == 0);
                assert(sub.subrange(0, 0) =~= Seq::<u8>::empty());
                m.lemma_width_empty();
            }
            return r;
        }
        let li = line_for_position(&self.lines, p);
        proof {
            assert(lines_wf(m, s, self.lines@));
            assert(self.lines@[0].start_offset == 0);
            lemma_lfp_props(m, s, self.lines@, p as int, 0);
            assert(line_wf(m, s, self.lines@[li as int]));
        }
        let lm = self.lines[li];
        let y = sat_add(lm.y_offset, lm.baseline);
        proof {
            lemma_subrange_utf8(s, lm.start_offset as int, lm.end_offset as int);
        }
        let x = hit_test_line_position(
            &self.oracle,
            self.text.as_slice(),
            lm.start_offset,
            lm.end_offset,
            p - lm.start_offset,
        );
        HitTestPosition::new(Point::new(x, y), li)
    }

    /// The rectangles covering the byte range `[start, end)`: one per
    /// line the range intersects, from the hit-tested x of the clamped
    /// range start to the hit-tested x of the clamped range end, over the
    /// line's full vertical extent. Both clamped endpoints must lie on
    /// character boundaries.
    #[verifier::rlimit(100)]
    pub fn rects_for_range(&self, start: usize, end: usize) -> (r: Vec<Rect>)
        requires
            self.wf(),
            is_char_boundary(
                self.text@,
                if start <= self.text@.len() {
                    start as int
                } else {
                    self.text@.len() as int
                },
            ),
            is_char_boundary(
                self.text@,
                if end <= self.text@.len() {
                    end as int
                } else {
                    self.text@.len() as int
                },
            ),
        ensures
            ({
                let s0 = if start <= self.text@.len() {
                    start as int
                } else {
                    self.text@.len() as int
                };
                let e0 = if end <= self.text@.len() {
                    end as int
                } else {
                    self.text@.len() as int
                };
                let l0 = spec_line_for_position(self.lines@, s0);
                let l1 = spec_line_for_position(self.lines@, e0);
                &&& r@.len() == if l0 <= l1 {
                    l1 - l0 + 1
                } else {
                    0
                }
                &&& forall|i: int|
                    0 <= i < r@.len() ==> r@[i] == spec_range_rect(*self, s0, e0, l0 + i)
            }),
    {
        let ghost s = self.text@;
        let ghost m = self.oracle;
        let n = self.text.len();
        let s0: usize = if start < n {
            start
        } else {
            n
        };
        let e0: usize = if end < n {
            end
        } else {
            n
        };
        let nl = self.lines.len();
        let first_line = self.hit_test_text_position(s0).line;
        let last_line = self.hit_test_text_position(e0).line;
        proof {
            assert(lines_wf(m, s, self.lines@));
            lemma_lfp_props(m, s, self.lines@, s0 as int, 0);
            lemma_lfp_props(m, s, self.lines@, e0 as int, 0);
            assert(first_line == spec_line_for_position(self.lines@, s0 as int));
            assert(last_line == spec_line_for_position(self.lines@, e0 as int));
        }
        let mut result: Vec<Rect> = Vec::new();
        let mut li: usize = first_line;
        while li <= last_line
            invariant
                self.wf(),
                s == self.text@,
                m == self.oracle,
                n == self.text@.len(),
                nl == self.lines@.len(),
                s0 == if start <= s.len() { start as int } else { s.len() as int },
                e0 == if end <= s.len() { end as int } else { s.len() as int },
                s0 <= n,
                e0 <= n,
                is_char_boundary(s, s0 as int),
                is_char_boundary(s, e0 as int),
                first_line == spec_line_for_position(self.lines@, s0 as int),
                last_line == spec_line_for_position(self.lines@, e0 as int),
                first_line <= li,
                last_line < self.lines@.len(),
                first_line <= last_line ==> li <= last_line + 1,
                first_line > last_line ==> li == first_line,
                result@.len() == li - first_line,
                forall|i: int|
                    0 <= i < result@.len() ==> result@[i] == spec_range_rect(
                        *self,
                        s0 as int,
                        e0 as int,
                        first_line + i,
                    ),
            decreases last_line + 1 - li,
        {
            let metrics = self.lines[li];
            proof {
                assert(line_wf(m, s, self.lines@[li as int]));
            }
            let y0 = metrics.y_offset;
            let y1 = sat_add(metrics.y_offset, metrics.height);
            let line_range_start: usize = if li == first_line {
                s0
            } else {
                metrics.start_offset
            };
            let line_range_end: usize = if li == last_line {
                e0
            } else {
                metrics.end_offset - metrics.trailing_whitespace
            };
            proof {
                assert(line_range_start <= n);
                assert(is_char_boundary(s, line_range_start as int));
                assert(line_range_end <= n);
                assert(is_char_boundary(s, line_range_end as int));
            }
            let start_point = self.hit_test_text_position(line_range_start);
            let end_point = self.hit_test_text_position(line_range_end);
            result.push(Rect::new(start_point.point.x, y0, end_point.point.x, y1));
            li = li + 1;
        }
        result
    }
}

/// One rectangle of [`TextLayout::rects_for_range`]: for line `li`
/// between the range's first line and its last, the span from the
/// hit-tested x of the range's entry into the line to the hit-tested x of
/// its exit, over the line's vertical extent.
pub open spec fn spec_range_rect<M: Measure>(lay: TextLayout<M>, s0: int, e0: int, li: int) -> Rect {
    let lines = lay.lines@;
    let l0 = spec_line_for_position(lines, s0);
    let l1 = spec_line_for_position(lines, e0);
    let lm = lines[li];
    let rs = if li == l0 {
        s0
    } else {
        lm.start_offset as int
    };
    let re = if li == l1 {
        e0
    } else {
        lm.end_offset - lm.trailing_whitespace
    };
    Rect {
        x0: spec_hit_test_text_position(lay, rs).point.x,
        y0: lm.y_offset,
        x1: spec_hit_test_text_position(lay, re).point.x,
        y1: spec_sat_add(lm.y_offset, lm.height),
    }
}

/// Builds a [`TextLayout`] from a text, an oracle, and options.
pub struct TextLayoutBuilder<M: Measure> {
    pub oracle: M,
    pub text: Vec<u8>,
    pub max_width: Option<i64>,
    pub alignment: TextAlignment,
    pub fg_color: u32,
}

impl<M: Measure> TextLayoutBuilder<M> {
    /// A builder for `text` with no width constraint, start alignment,
    /// and a black foreground.
    pub fn new(oracle: M, text: Vec<u8>) -> (r: TextLayoutBuilder<M>)
        ensures
            r.oracle == oracle,
            r.text == text,
            r.max_width is None,
            r.alignment == TextAlignment::Start,
            r.fg_color == 0,
    {
        TextLayoutBuilder { oracle, text, max_width: None, alignment: TextAlignment::Start, fg_color: 0 }
    }

    /// Set the width constraint used for word wrapping; `None` disables
    /// wrapping.
    pub fn max_width(self, width: Option<i64>) -> (r: TextLayoutBuilder<M>)
        ensures
            r == (TextLayoutBuilder { max_width: width, ..self }),
    {
        TextLayoutBuilder { max_width: width, ..self }
    }

    /// Set the text alignment. This engine lays out unaligned text, so
    /// the value is recorded and otherwise ignored.
    pub fn alignment(self, alignment: TextAlignment) -> (r: TextLayoutBuilder<M>)
        ensures
            r == (TextLayoutBuilder { alignment: alignment, ..self }),
    {
        TextLayoutBuilder { alignment, ..self }
    }

    /// Set the default foreground color carried on the layout.
    pub fn text_color(self, color: u32) -> (r: TextLayoutBuilder<M>)
        ensures
            r == (TextLayoutBuilder { fg_color: color, ..self }),
    {
        TextLayoutBuilder { fg_color: color, ..self }
    }

    /// Build the layout: lay the text out under the width constraint.
    /// Returns `InvalidInput` exactly when the text is not well-formed
    /// UTF-8.
    pub fn build(self) -> (r: Result<TextLayout<M>, Error>)
        ensures
            is_utf8(self.text@) ==> ({
                &&& r is Ok
                &&& r.unwrap().wf()
                &&& r.unwrap().text@ == self.text@
                &&& r.unwrap().oracle == self.oracle
                &&& r.unwrap().max_width == self.max_width
                &&& r.unwrap().fg_color == self.fg_color
            }),
            !is_utf8(self.text@) ==> r == Result::<TextLayout<M>, Error>::Err(Error::InvalidInput),
    {
        if !validate_utf8(self.text.as_slice()) {
            return Err(Error::InvalidInput);
        }
        proof {
            self.oracle.lemma_metrics_nonneg();
        }
        let mut layout = TextLayout {
            oracle: self.oracle,
            fg_color: self.fg_color,
            text: self.text,
            lines: Vec::new(),
            size: Size { width: 0, height: 0 },
            max_width: None,
        };
        let res = layout.update_width(self.max_width);
        proof {
            assert(res is Ok);
        }
        Ok(layout)
    }
}

} // verus!
