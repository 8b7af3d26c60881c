//! Laws of the layout engine: properties relating several queries,
//! stated over the same spec functions the queries' own contracts use.

use vstd::prelude::*;

use crate::grapheme::gbounds;
use crate::grapheme::lemma_gbounds_range;
use crate::grapheme::lemma_gbounds_wf;
use crate::grapheme::lemma_snap_member;
use crate::grapheme::lemma_snap_mono;
use crate::grapheme::lemma_snap_props;
use crate::grapheme::snap_bound;
use crate::hit::bound_width;
use crate::hit::line_point_post;
use crate::layout::TextLayout;
use crate::layout::hit_test_point_post;
use crate::layout::spec_hit_test_text_position;
use crate::layout::spec_line_for_position;
use crate::layout::spec_line_for_y;
use crate::layout::spec_max_line_width;
use crate::lines::LineMetric;
use crate::lines::line_wf;
use crate::lines::lines_wf;
use crate::measure::Measure;
use crate::num::lemma_sat_add_bounds;
use crate::num::spec_sat_add;
use crate::types::HitTestPoint;
use crate::types::Point;

verus! {

/// Vertical offsets never decrease along the lines.
proof fn lemma_y_mono<M: Measure>(m: M, s: Seq<u8>, lines: Seq<LineMetric>, i: int, k: int)
    requires
        lines_wf(m, s, lines),
        0 <= m.height_of(),
        0 <= i <= k < lines.len(),
    ensures
        lines[i].y_offset <= lines[k].y_offset,
    decreases k - i,
{
    if i < k {
        assert(lines[i].end_offset == lines[i + 1].start_offset);
        assert(line_wf(m, s, lines[i]));
        lemma_sat_add_bounds(lines[i].y_offset, lines[i].height);
        lemma_y_mono(m, s, lines, i + 1, k);
    }
}

/// On a single-line layout of non-empty text, offset 0 sits at x = 0 and
/// the offset at the end of the text sits at x equal to the layout's
/// width.
pub proof fn lemma_single_line_extremes<M: Measure>(lay: TextLayout<M>)
    requires
        lay.wf(),
        lay.text@.len() > 0,
        lay.lines@.len() == 1,
    ensures
        spec_hit_test_text_position(lay, 0).point.x == 0,
        spec_hit_test_text_position(lay, lay.text@.len() as int).point.x == lay.size.width,
{
    let m = lay.oracle;
    let s = lay.text@;
    let n = s.len() as int;
    let lm = lay.lines@[0];
    assert(line_wf(m, s, lm));
    assert(lm.start_offset == 0 && lm.end_offset == n);
    let sub = s.subrange(0, n);
    assert(sub =~= s);
    lemma_gbounds_wf(sub);
    lemma_gbounds_range(sub);
    let bs = gbounds(sub);

    assert(spec_line_for_position(lay.lines@, 0) == 0);
    assert(bs.contains(0)) by {
        assert(bs[0] == 0);
    }
    lemma_snap_member(bs, 0);
    assert(sub.subrange(0, 0) =~= Seq::<u8>::empty());
    m.lemma_width_empty();

    assert(spec_line_for_position(lay.lines@, n) == 0);
    assert(bs.last() == n);
    assert(snap_bound(bs, n) == n);
    assert(sub.subrange(0, n) =~= s.subrange(0, n));
    assert(lay.lines@.drop_last() =~= Seq::<LineMetric>::empty());
    m.lemma_width_prefix(s.subrange(0, n), s.subrange(0, n));
    assert(spec_max_line_width(m, s, Seq::<LineMetric>::empty()) == 0);
    assert(lay.size.width == spec_max_line_width(m, s, lay.lines@));
    assert(lay.size.width == m.width_of(s.subrange(0, n)));
}

/// The reported x-position is monotone in the offset along one line: for
/// offsets `o1 <= o2` on the same line, the position of `o1` is not to
/// the right of the position of `o2`.
pub proof fn lemma_position_monotone<M: Measure>(lay: TextLayout<M>, o1: int, o2: int)
    requires
        lay.wf(),
        0 <= o1 <= o2 <= lay.text@.len(),
        spec_line_for_position(lay.lines@, o1) == spec_line_for_position(lay.lines@, o2),
    ensures
        spec_hit_test_text_position(lay, o1).point.x <= spec_hit_test_text_position(
            lay,
            o2,
        ).point.x,
{
    let m = lay.oracle;
    let s = lay.text@;
    let lines = lay.lines@;
    let li = spec_line_for_position(lines, o1);
    crate::layout::lemma_lfp_props(m, s, lines, o1, 0);
    crate::layout::lemma_lfp_props(m, s, lines, o2, 0);
    let lm = lines[li];
    assert(line_wf(m, s, lm));
    let sub = s.subrange(lm.start_offset as int, lm.end_offset as int);
    lemma_gbounds_wf(sub);
    lemma_gbounds_range(sub);
    let bs = gbounds(sub);
    let p1 = o1 - lm.start_offset;
    let p2 = o2 - lm.start_offset;
    lemma_snap_mono(bs, p1, p2);
    lemma_snap_props(bs, p1);
    lemma_snap_props(bs, p2);
    let c1 = snap_bound(bs, p1);
    let c2 = snap_bound(bs, p2);
    let k1 = choose|k: int| 0 <= k < bs.len() && bs[k] == c1;
    let k2 = choose|k: int| 0 <= k < bs.len() && bs[k] == c2;
    assert(0 <= c1 <= sub.len());
    assert(0 <= c2 <= sub.len());
    let a = sub.subrange(0, c1);
    let b = sub.subrange(0, c2);
    assert(a =~= b.subrange(0, a.len() as int));
    m.lemma_width_prefix(a, b);
}

/// Round trip: hit testing the point reported for a visible grapheme
/// boundary resolves back to that boundary.
///
/// The hypotheses rule out the inputs on which the round trip genuinely
/// fails: boundary widths must increase strictly along the line (with a
/// zero-width cluster, two offsets share one point and the point cannot
/// name both), the offset must be a cluster boundary of the line and of
/// its visible part, the baseline must sit strictly inside the line box,
/// and the layout's total height must not be clamped.
pub proof fn lemma_round_trip<M: Measure>(lay: TextLayout<M>, o: int, r: HitTestPoint)
    requires
        lay.wf(),
        0 <= o <= lay.text@.len(),
        lay.oracle.ascent_of() < lay.oracle.height_of(),
        lay.lines@.last().y_offset + lay.lines@.last().height <= i64::MAX,
        ({
            let li = spec_line_for_position(lay.lines@, o);
            let lm = lay.lines@[li];
            let full = lay.text@.subrange(lm.start_offset as int, lm.end_offset as int);
            let sub = lay.text@.subrange(
                lm.start_offset as int,
                lm.end_offset - lm.trailing_whitespace,
            );
            &&& gbounds(full).contains(o - lm.start_offset)
            &&& gbounds(sub).contains(o - lm.start_offset)
            &&& (forall|i: int, k: int|
                #![trigger bound_width(lay.oracle, sub, i), bound_width(lay.oracle, sub, k)]
                0 <= i < k < gbounds(sub).len() ==> bound_width(lay.oracle, sub, i) < bound_width(
                    lay.oracle,
                    sub,
                    k,
                ))
        }),
        hit_test_point_post(lay, spec_hit_test_text_position(lay, o).point, r),
    ensures
        r.idx == o,
{
    let m = lay.oracle;
    let s = lay.text@;
    let lines = lay.lines@;
    let nl = lines.len();
    let pt = spec_hit_test_text_position(lay, o).point;
    if s.len() == 0 {
        return ;
    }
    let li = spec_line_for_position(lines, o);
    crate::layout::lemma_lfp_props(m, s, lines, o, 0);
    let lm = lines[li];
    assert(line_wf(m, s, lm));
    assert(line_wf(m, s, lines[nl - 1]));
    let ls = lm.start_offset as int;
    let full = s.subrange(ls, lm.end_offset as int);
    let sub = s.subrange(ls, lm.end_offset - lm.trailing_whitespace);
    let total = spec_sat_add(lines.last().y_offset, lines.last().height);

    // The reported y sits strictly inside line `li`'s box, so the
    // vertical bucketing finds that same line.
    assert(total == lines.last().y_offset + lines.last().height);
    assert(lm.y_offset + lm.height <= i64::MAX) by {
        if li < nl - 1 {
            assert(lines[li].end_offset == lines[li + 1].start_offset);
            lemma_y_mono(m, s, lines, li + 1, nl - 1);
            if lm.y_offset + lm.height > i64::MAX {
                assert(lines[li + 1].y_offset == i64::MAX);
                assert(false);
            }
        }
    }
    assert(pt.y == lm.y_offset + lm.baseline);
    assert(spec_sat_add(lm.y_offset, lm.height) <= total) by {
        if li < nl - 1 {
            assert(lines[li].end_offset == lines[li + 1].start_offset);
            lemma_y_mono(m, s, lines, li + 1, nl - 1);
            lemma_sat_add_bounds(lines.last().y_offset, lines.last().height);
        }
    }
    assert(0 <= pt.y < total);
    let lp = spec_line_for_y(lines, pt.y as int);
    crate::layout::lemma_lfy_props(m, s, lines, pt.y as int, 0);
    assert(lp == li) by {
        if lp < li {
            assert(lines[lp].end_offset == lines[lp + 1].start_offset);
            lemma_y_mono(m, s, lines, lp + 1, li);
            assert(pt.y < spec_sat_add(lines[lp].y_offset, lines[lp].height));
            assert(false);
        }
        if lp > li {
            assert(lines[li].end_offset == lines[li + 1].start_offset);
            lemma_y_mono(m, s, lines, li + 1, lp);
            assert(lines[lp].y_offset <= pt.y);
            assert(false);
        }
    }

    // The reported x is exactly the width at the offset's boundary, and
    // with strictly increasing widths the nearest boundary to it is the
    // offset itself.
    let o_rel = o - ls;
    lemma_gbounds_wf(full);
    lemma_gbounds_range(full);
    lemma_gbounds_wf(sub);
    lemma_gbounds_range(sub);
    let bs = gbounds(sub);
    let g = bs.len() - 1;
    lemma_snap_member(gbounds(full), o_rel);
    assert(pt.x == m.width_of(full.subrange(0, o_rel)));
    let k0 = choose|k: int| 0 <= k < bs.len() && bs[k] == o_rel;
    assert(o_rel <= sub.len());
    assert(full.subrange(0, o_rel) =~= sub.subrange(0, o_rel));
    assert(pt.x == bound_width(m, sub, k0));

    let rel = HitTestPoint { idx: (r.idx - ls) as usize, is_inside: (sub.len() > 0 && 0 < pt.x <= bound_width(m, sub, g)) };
    assert(line_point_post(m, sub, pt.x as int, rel));
    if sub.len() == 0 {
        assert(rel.idx == 0);
        assert(o_rel == 0);
        assert(r.idx == ls);
    } else {
        crate::hit::lemma_bound_width_zero(m, sub);
        if k0 == 0 {
            assert(pt.x == 0);
            assert(rel.idx == 0);
            assert(r.idx == ls + o_rel);
        } else {
            assert(pt.x > 0);
            assert(pt.x <= bound_width(m, sub, g)) by {
                if k0 < g {
                    assert(bound_width(m, sub, k0) < bound_width(m, sub, g));
                }
            }
            let k = choose|k: int|
                0 <= k <= g && rel.idx == bs[k] && #[trigger] crate::hit::nearest_boundary(
                    m,
                    sub,
                    k,
                    pt.x as int,
                );
            assert(vstd::math::abs(bound_width(m, sub, k0) - pt.x) >= vstd::math::abs(
                bound_width(m, sub, k) - pt.x,
            ));
            assert(bound_width(m, sub, k) == bound_width(m, sub, k0));
            assert(k == k0) by {
                if k < k0 {
                    assert(bound_width(m, sub, k) < bound_width(m, sub, k0));
                }
                if k > k0 {
                    assert(bound_width(m, sub, k0) < bound_width(m, sub, k));
                }
            }
            assert(rel.idx == o_rel);
            assert(r.idx == ls + o_rel);
        }
    }
}

/// A point outside the layout's vertical extent still resolves to an
/// offset within the visible text of the nearest line — the first line
/// above the layout, the last line below it — and is reported as not
/// inside.
pub proof fn lemma_vertical_clamp<M: Measure>(lay: TextLayout<M>, pt: Point, r: HitTestPoint)
    requires
        lay.wf(),
        lay.text@.len() > 0,
        hit_test_point_post(lay, pt, r),
        pt.y < 0 || pt.y >= spec_sat_add(lay.lines@.last().y_offset, lay.lines@.last().height),
    ensures
        !r.is_inside,
        ({
            let li = if pt.y < 0 {
                0int
            } else {
                lay.lines@.len() - 1
            };
            let lm = lay.lines@[li];
            lm.start_offset <= r.idx <= lm.end_offset - lm.trailing_whitespace
        }),
{
}

} // verus!
