//! Hit testing within one line.
//!
//! Both directions work on one line's byte range and speak of the same
//! quantities: the line's grapheme-cluster boundaries and the advance
//! width of the line-local prefix ending at each boundary.

use vstd::math::abs;
use vstd::prelude::*;

use crate::grapheme::bounds_as_ints;
use crate::grapheme::gbounds;
use crate::grapheme::get_grapheme_boundaries;
use crate::grapheme::grapheme_bounds_vec;
use crate::grapheme::lemma_gbounds_range;
use crate::grapheme::lemma_gbounds_wf;
use crate::grapheme::lemma_snap_props;
use crate::grapheme::point_x_in_grapheme;
use crate::grapheme::snap_bound;
use crate::grapheme::spec_point_x_in_grapheme;
use crate::measure::Measure;
use crate::types::HitTestPoint;
use crate::utf8::is_utf8;

verus! {

/// The advance width of the line-local prefix of `sub` ending at its
/// `k`-th grapheme boundary.
pub open spec fn bound_width<M: Measure>(m: M, sub: Seq<u8>, k: int) -> i64 {
    m.width_of(sub.subrange(0, gbounds(sub)[k]))
}

/// Boundary widths are non-negative and sorted along the line.
pub proof fn lemma_bound_width_sorted<M: Measure>(m: M, sub: Seq<u8>, i: int, k: int)
    requires
        0 <= i <= k < gbounds(sub).len(),
    ensures
        0 <= bound_width(m, sub, i) <= bound_width(m, sub, k),
{
    lemma_gbounds_wf(sub);
    lemma_gbounds_range(sub);
    let bs = gbounds(sub);
    let a = sub.subrange(0, bs[i]);
    let b = sub.subrange(0, bs[k]);
    assert(a =~= b.subrange(0, a.len() as int));
    assert(a.is_prefix_of(b));
    m.lemma_width_prefix(a, b);
}

/// The width of the prefix ending at boundary 0 is zero.
pub proof fn lemma_bound_width_zero<M: Measure>(m: M, sub: Seq<u8>)
    ensures
        bound_width(m, sub, 0) == 0,
{
    lemma_gbounds_wf(sub);
    assert(sub.subrange(0, 0) =~= Seq::<u8>::empty());
    m.lemma_width_empty();
}

/// What point-to-offset resolution returns for one line.
///
/// `sub` is the line's visible text and `x` the query's line-local
/// x-coordinate. The result is always a grapheme boundary of `sub`; it is
/// a boundary whose width is nearest to `x` (ties between two equally
/// near boundaries go to the trailing one); a query at or left of the
/// line's start resolves to offset 0, one right of the line's full width
/// to the line's visible end; and the horizontal in-bounds flag is exact.
/// Boundary `k` of `sub` is one whose width is nearest to `x` among all
/// of the line's grapheme boundaries.
pub open spec fn nearest_boundary<M: Measure>(m: M, sub: Seq<u8>, k: int, x: int) -> bool {
    forall|i: int|
        0 <= i < gbounds(sub).len() ==> abs(#[trigger] bound_width(m, sub, i) - x) >= abs(
            bound_width(m, sub, k) - x,
        )
}

pub open spec fn line_point_post<M: Measure>(m: M, sub: Seq<u8>, x: int, r: HitTestPoint) -> bool {
    let bs = gbounds(sub);
    let g = bs.len() - 1;
    &&& r.idx <= sub.len()
    &&& (sub.len() == 0 ==> r.idx == 0 && !r.is_inside)
    &&& (sub.len() > 0 ==> {
        &&& r.is_inside == (0 < x <= bound_width(m, sub, g))
        &&& (exists|k: int| 0 <= k <= g && r.idx == bs[k] && #[trigger] nearest_boundary(m, sub, k, x))
        &&& (x <= 0 ==> r.idx == 0)
        &&& (x > bound_width(m, sub, g) ==> r.idx == sub.len())
    })
}

/// Resolve a line-local x-coordinate to the nearest grapheme boundary of
/// the visible line `s[from..to]`, by binary search over its clusters.
///
/// The returned offset is local to `from`. The search window shrinks
/// strictly every iteration, so the search terminates on every input.
pub fn hit_test_line_point<M: Measure>(m: &M, s: &[u8], from: usize, to: usize, x: i64) -> (r:
    HitTestPoint)
    requires
        from <= to <= s@.len(),
        is_utf8(s@.subrange(from as int, to as int)),
    ensures
        line_point_post(*m, s@.subrange(from as int, to as int), x as int, r),
{
    let ghost sub = s@.subrange(from as int, to as int);
    proof {
        lemma_gbounds_wf(sub);
        lemma_gbounds_range(sub);
    }
    if from == to {
        return HitTestPoint::new(0, false);
    }
    let bs = grapheme_bounds_vec(s, from, to);
    let ghost bsg = gbounds(sub);
    proof {
        assert(bsg[0] == 0 && bsg[bsg.len() - 1] == sub.len());
        if bs.len() < 2 {
            assert(bsg[0] == bsg[bsg.len() - 1]);
            assert(false);
        }
    }
    let g: usize = bs.len() - 1;
    let end: usize = g - 1;

    let end_bounds = match get_grapheme_boundaries(m, s, from, to, end) {
        Option::Some(b) => b,
        Option::None => {
            return HitTestPoint::new(0, false);
        },
    };
    proof {
        assert(end_bounds.leading == bound_width(*m, sub, end as int));
        assert(end_bounds.trailing == bound_width(*m, sub, g as int));
    }
    if x > end_bounds.trailing {
        let r = HitTestPoint::new(bs[g], false);
        proof {
            lemma_bound_width_sorted(*m, sub, 0, g as int);
            assert forall|i: int|
                0 <= i < gbounds(sub).len() implies abs(#[trigger] bound_width(*m, sub, i) - x)
                >= abs(bound_width(*m, sub, g as int) - x) by {
                lemma_bound_width_sorted(*m, sub, i, g as int);
            }
            assert(nearest_boundary(*m, sub, g as int, x as int));
            assert(bounds_as_ints(bs@)[g as int] == bs@[g as int] as int);
            assert(r.idx == bsg[g as int]);
            assert(bsg[g as int] == sub.len());
        }
        return r;
    }

    let start_bounds = match get_grapheme_boundaries(m, s, from, to, 0) {
        Option::Some(b) => b,
        Option::None => {
            return HitTestPoint::new(0, false);
        },
    };
    proof {
        lemma_bound_width_zero(*m, sub);
        assert(start_bounds.leading == bound_width(*m, sub, 0));
    }
    if x <= start_bounds.leading {
        let r = HitTestPoint::new(0, false);
        proof {
            assert forall|i: int|
                0 <= i < gbounds(sub).len() implies abs(#[trigger] bound_width(*m, sub, i) - x)
                >= abs(bound_width(*m, sub, 0) - x) by {
                lemma_bound_width_sorted(*m, sub, 0, i);
            }
            assert(nearest_boundary(*m, sub, 0, x as int));
            assert(r.idx == bsg[0]);
        }
        return r;
    }

    proof {
        lemma_bound_width_sorted(*m, sub, 0, 1);
        assert(bounds_as_ints(bs@)[0] == bs@[0] as int);
        assert(bounds_as_ints(bs@)[1] == bs@[1] as int);
    }
    if let Option::Some(hit) = point_x_in_grapheme(x, bs[0], bs[1], &start_bounds) {
        proof {
            assert(bs@[0] == bsg[0] as usize);
            assert(bs@[1] == bsg[1] as usize);
            lemma_nearest(*m, sub, 0, x, hit);
        }
        return hit;
    }
    proof {
        lemma_bound_width_sorted(*m, sub, end as int, g as int);
        assert(bounds_as_ints(bs@)[end as int] == bs@[end as int] as int);
        assert(bounds_as_ints(bs@)[g as int] == bs@[g as int] as int);
    }
    if let Option::Some(hit) = point_x_in_grapheme(x, bs[end], bs[g], &end_bounds) {
        proof {
            assert(bs@[end as int] == bsg[end as int] as usize);
            assert(bs@[g as int] == bsg[g as int] as usize);
            lemma_nearest(*m, sub, end as int, x, hit);
        }
        return hit;
    }

    let mut left: usize = 0;
    let mut right: usize = end;
    loop
        invariant
            0 <= left <= right <= end,
            end == g - 1,
            g + 1 == bs@.len(),
            bounds_as_ints(bs@) == gbounds(sub),
            sub == s@.subrange(from as int, to as int),
            sub.len() > 0,
            from <= to <= s@.len(),
            is_utf8(sub),
            bound_width(*m, sub, left as int) <= x,
            x <= bound_width(*m, sub, right + 1),
            0 < x <= bound_width(*m, sub, g as int),
        decreases right - left,
    {
        let middle: usize = left + (right - left) / 2;
        let grapheme_bounds = match get_grapheme_boundaries(m, s, from, to, middle) {
            Option::Some(b) => b,
            Option::None => {
                return HitTestPoint::new(0, false);
            },
        };
        proof {
            lemma_bound_width_sorted(*m, sub, middle as int, middle + 1);
            assert(bounds_as_ints(bs@)[middle as int] == bs@[middle as int] as int);
            assert(bounds_as_ints(bs@)[middle + 1] == bs@[middle + 1] as int);
        }
        if let Option::Some(hit) = point_x_in_grapheme(x, bs[middle], bs[middle + 1], &grapheme_bounds) {
            proof {
                assert(bs@[middle as int] == gbounds(sub)[middle as int] as usize);
                assert(bs@[middle + 1] == gbounds(sub)[middle + 1] as usize);
                lemma_nearest(*m, sub, middle as int, x, hit);
            }
            return hit;
        }
        if left == right {
            proof {
                assert(bound_width(*m, sub, middle as int) <= x <= bound_width(
                    *m,
                    sub,
                    middle + 1,
                ));
                assert(false);
            }
        }
        if x < grapheme_bounds.leading {
            right = middle;
        } else {
            proof {
                if !(x > grapheme_bounds.trailing) {
                    assert(false);
                }
            }
            left = middle + 1;
        }
    }
}

/// In the window `[W(k), W(k+1)]`, the boundary that
/// `point_x_in_grapheme` picked is nearest among all of the line's
/// boundaries.
proof fn lemma_nearest<M: Measure>(m: M, sub: Seq<u8>, k: int, x: i64, hit: HitTestPoint)
    requires
        sub.len() <= usize::MAX,
        0 <= k < gbounds(sub).len() - 1,
        Some(hit) == spec_point_x_in_grapheme(
            x,
            (gbounds(sub)[k] as usize),
            (gbounds(sub)[k + 1] as usize),
            (crate::grapheme::GraphemeBounds {
                leading: bound_width(m, sub, k),
                trailing: bound_width(m, sub, k + 1),
            }),
        ),
    ensures
        exists|j: int|
            0 <= j <= gbounds(sub).len() - 1 && hit.idx == gbounds(sub)[j]
                && #[trigger] nearest_boundary(m, sub, j, x as int),
        hit.idx <= sub.len(),
        hit.is_inside,
{
    lemma_gbounds_wf(sub);
    lemma_gbounds_range(sub);
    let g = gbounds(sub).len() - 1;
    let wl = bound_width(m, sub, k);
    let wr = bound_width(m, sub, k + 1);
    let j: int = if x - wl < wr - x {
        k
    } else {
        k + 1
    };
    assert(hit.idx == gbounds(sub)[j] as usize);
    assert(hit.idx == gbounds(sub)[j]);
    assert forall|i: int| 0 <= i < gbounds(sub).len() implies abs(
        #[trigger] bound_width(m, sub, i) - x,
    ) >= abs(bound_width(m, sub, j) - x) by {
        if i <= k {
            lemma_bound_width_sorted(m, sub, i, k);
            lemma_bound_width_sorted(m, sub, k, k + 1);
        } else {
            lemma_bound_width_sorted(m, sub, k, k + 1);
            lemma_bound_width_sorted(m, sub, k + 1, i);
        }
    }
    assert(nearest_boundary(m, sub, j, x as int));
}

/// The x-coordinate reported for a byte offset on one line: the advance
/// width of the line-local prefix ending at the grapheme boundary at or
/// before the (length-clamped) offset.
pub open spec fn line_position_x<M: Measure>(m: M, sub: Seq<u8>, pos: int) -> i64 {
    m.width_of(
        sub.subrange(
            0,
            snap_bound(
                gbounds(sub),
                if pos <= sub.len() {
                    pos
                } else {
                    sub.len() as int
                },
            ),
        ),
    )
}

/// Measure the line-local x-position of byte offset `pos` within the
/// line `s[from..to]`: offsets inside a grapheme cluster snap to the
/// cluster's leading edge.
pub fn hit_test_line_position<M: Measure>(m: &M, s: &[u8], from: usize, to: usize, pos: usize) -> (x:
    i64)
    requires
        from <= to <= s@.len(),
        is_utf8(s@.subrange(from as int, to as int)),
        pos <= to - from,
    ensures
        x == line_position_x(*m, s@.subrange(from as int, to as int), pos as int),
        x >= 0,
{
    let ghost sub = s@.subrange(from as int, to as int);
    proof {
        lemma_gbounds_wf(sub);
        lemma_gbounds_range(sub);
        lemma_snap_props(gbounds(sub), pos as int);
    }
    let bs = grapheme_bounds_vec(s, from, to);
    let mut j: usize = 0;
    while j + 1 < bs.len() && bs[j + 1] <= pos
        invariant
            0 <= j < bs.len(),
            bounds_as_ints(bs@) == gbounds(sub),
            bs@[j as int] <= pos,
            forall|i: int| 0 <= i <= j ==> gbounds(sub)[i] <= pos,
        decreases bs.len() - j,
    {
        j = j + 1;
    }
    proof {
        let bsg = gbounds(sub);
        let snap = snap_bound(bsg, pos as int);
        assert(bsg.contains(snap));
        let sk = choose|sk: int| 0 <= sk < bsg.len() && bsg[sk] == snap;
        if sk > j {
            assert(bsg[j as int] < bsg[j + 1] <= bsg[sk]) by {
                lemma_gbounds_wf(sub);
                if j + 2 <= sk {
                    assert(bsg[j + 1] <= bsg[sk]);
                }
            }
            assert(bsg[j + 1] <= pos);
            assert(false);
        }
        assert(bsg[j as int] <= snap);
        assert(snap <= pos);
        assert(bsg[j as int] == snap);
    }
    let b0: usize = bs[j];
    let x = m.advance_width(s, from, from + b0);
    proof {
        assert(s@.subrange(from as int, from + b0) =~= sub.subrange(0, b0 as int));
        let a = sub.subrange(0, b0 as int);
        assert(a =~= sub.subrange(0, snap_bound(gbounds(sub), pos as int)));
        m.lemma_width_prefix(a, a);
    }
    x
}

} // verus!
