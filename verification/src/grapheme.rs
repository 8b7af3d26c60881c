//! Grapheme-cluster boundaries and per-cluster screen extents.
//!
//! Segmentation into extended grapheme clusters (UAX #29) is delegated to
//! the `unicode-segmentation` crate; the engine names its result
//! [`raw_grapheme_bounds`] and builds everything else on the structural
//! facts that segmentation guarantees: boundaries are strictly increasing
//! byte offsets, starting at 0 and ending at the string's length, each on
//! a character boundary.

use vstd::prelude::*;

use crate::measure::Measure;
use crate::types::HitTestPoint;
use crate::utf8::is_char_boundary;
use crate::utf8::is_utf8;
use crate::utf8::lemma_char_start_not_cont;

verus! {

/// The grapheme-cluster boundaries of a byte string, as computed by the
/// segmenter: offset 0, each cluster start, and the string's length. For
/// the empty string this is the single offset 0.
pub uninterp spec fn raw_grapheme_bounds(s: Seq<u8>) -> Seq<int>;

/// Strictly increasing.
pub open spec fn strictly_sorted(bs: Seq<int>) -> bool {
    forall|i: int, j: int| 0 <= i < j < bs.len() ==> bs[i] < bs[j]
}

/// The structural facts that hold of a boundary list over `s`.
pub open spec fn bounds_wf(s: Seq<u8>, bs: Seq<int>) -> bool {
    &&& bs.len() >= 1
    &&& bs[0] == 0
    &&& bs[bs.len() - 1] == s.len()
    &&& strictly_sorted(bs)
    &&& (is_utf8(s) ==> forall|i: int|
        0 <= i < bs.len() ==> is_char_boundary(s, #[trigger] bs[i]))
}

/// The grapheme-cluster boundaries of `s`, guarded so that the structural
/// facts hold of every byte string: where the named segmentation result
/// would not satisfy them, the whole string counts as one cluster.
pub open spec fn gbounds(s: Seq<u8>) -> Seq<int> {
    if bounds_wf(s, raw_grapheme_bounds(s)) {
        raw_grapheme_bounds(s)
    } else if s.len() == 0 {
        seq![0]
    } else {
        seq![0, s.len() as int]
    }
}

/// The structural facts hold of `gbounds` unconditionally.
pub proof fn lemma_gbounds_wf(s: Seq<u8>)
    ensures
        bounds_wf(s, gbounds(s)),
{
    if !bounds_wf(s, raw_grapheme_bounds(s)) && s.len() > 0 {
        let bs = seq![0int, s.len() as int];
        assert(bs[0] == 0);
        assert(bs[bs.len() - 1] == s.len());
        if is_utf8(s) {
            lemma_char_start_not_cont(s, 0);
            assert(forall|i: int| 0 <= i < bs.len() ==> is_char_boundary(s, #[trigger] bs[i]));
        }
    }
}

/// Every boundary lies within the string.
pub proof fn lemma_gbounds_range(s: Seq<u8>)
    ensures
        forall|i: int| 0 <= i < gbounds(s).len() ==> 0 <= #[trigger] gbounds(s)[i] <= s.len(),
{
    lemma_gbounds_wf(s);
    let bs = gbounds(s);
    assert forall|i: int| 0 <= i < bs.len() implies 0 <= #[trigger] bs[i] <= s.len() by {
        if i > 0 {
            assert(bs[0] < bs[i]);
        }
        if i < bs.len() - 1 {
            assert(bs[i] < bs[bs.len() - 1]);
        }
    }
}

/// A boundary list as byte offsets.
pub open spec fn bounds_as_ints(r: Seq<usize>) -> Seq<int> {
    r.map_values(|b: usize| b as int)
}

/// Relies on `unicode_segmentation::UnicodeSegmentation::grapheme_indices`
/// (extended clusters): it yields the strictly increasing byte offsets of
/// the cluster starts of a `&str`, the first at 0, every one on a `char`
/// boundary, and the clusters tile the whole string, so appending the
/// length closes the boundary list.
#[verifier::external_body]
fn grapheme_splits(s: &[u8], from: usize, to: usize) -> (r: Vec<usize>)
    requires
        from <= to <= s@.len(),
        is_utf8(s@.subrange(from as int, to as int)),
    ensures
        bounds_as_ints(r@) == raw_grapheme_bounds(s@.subrange(from as int, to as int)),
        bounds_wf(s@.subrange(from as int, to as int), bounds_as_ints(r@)),
{
    let part = core::str::from_utf8(&s[from..to]).unwrap();
    let mut r: Vec<usize> = unicode_segmentation::UnicodeSegmentation::grapheme_indices(part, true)
        .map(|(i, _g)| i)
        .collect();
    r.push(part.len());
    r
}

/// The grapheme-cluster boundaries of `s[from..to]`, as byte offsets
/// local to that subrange.
pub fn grapheme_bounds_vec(s: &[u8], from: usize, to: usize) -> (r: Vec<usize>)
    requires
        from <= to <= s@.len(),
        is_utf8(s@.subrange(from as int, to as int)),
    ensures
        bounds_as_ints(r@) == gbounds(s@.subrange(from as int, to as int)),
        r@.len() >= 1,
{
    let r = grapheme_splits(s, from, to);
    proof {
        let sub = s@.subrange(from as int, to as int);
        assert(gbounds(sub) == bounds_as_ints(r@));
        assert(bounds_as_ints(r@).len() == r@.len());
    }
    r
}

/// The leading/trailing x-extents of one grapheme cluster, in line-local
/// layout units: the advance width of the text before the cluster, and of
/// the text up to and including it.
#[derive(Clone, Copy, Debug, PartialEq, Eq, Structural)]
pub struct GraphemeBounds {
    pub leading: i64,
    pub trailing: i64,
}

/// What `get_grapheme_boundaries` returns: the widths of the line-local
/// prefixes ending at the cluster's two boundaries, or `None` when the
/// cluster index is out of range.
pub open spec fn spec_grapheme_boundaries<M: Measure>(
    m: M,
    s: Seq<u8>,
    grapheme_index: int,
) -> Option<GraphemeBounds> {
    let bs = gbounds(s);
    if 0 <= grapheme_index < bs.len() - 1 {
        Some(
            GraphemeBounds {
                leading: m.width_of(s.subrange(0, bs[grapheme_index])),
                trailing: m.width_of(s.subrange(0, bs[grapheme_index + 1])),
            },
        )
    } else {
        None
    }
}

/// The x-extents of the `grapheme_index`-th cluster of the line
/// `s[from..to]`, measured from the line's start. Segments the line and
/// queries the oracle twice, once per extent; caches nothing.
pub fn get_grapheme_boundaries<M: Measure>(
    m: &M,
    s: &[u8],
    from: usize,
    to: usize,
    grapheme_index: usize,
) -> (r: Option<GraphemeBounds>)
    requires
        from <= to <= s@.len(),
        is_utf8(s@.subrange(from as int, to as int)),
    ensures
        r == spec_grapheme_boundaries(*m, s@.subrange(from as int, to as int), grapheme_index as int),
{
    let ghost sub = s@.subrange(from as int, to as int);
    let bs = grapheme_bounds_vec(s, from, to);
    if grapheme_index >= bs.len() - 1 {
        return None;
    }
    proof {
        lemma_gbounds_range(sub);
        assert(bounds_as_ints(bs@)[grapheme_index as int] == bs@[grapheme_index as int] as int);
        assert(bounds_as_ints(bs@)[grapheme_index + 1] == bs@[grapheme_index + 1] as int);
    }
    let b0: usize = bs[grapheme_index];
    let b1: usize = bs[grapheme_index + 1];
    let leading = m.advance_width(s, from, from + b0);
    let trailing = m.advance_width(s, from, from + b1);
    proof {
        assert(s@.subrange(from as int, from + b0) =~= sub.subrange(
            0,
            gbounds(sub)[grapheme_index as int],
        ));
        assert(s@.subrange(from as int, from + b1) =~= sub.subrange(
            0,
            gbounds(sub)[grapheme_index + 1],
        ));
    }
    Some(GraphemeBounds { leading, trailing })
}

/// What `point_x_in_grapheme` returns: where `point_x` falls within the
/// cluster's extents, the nearer boundary, byte offset and all; ties
/// resolve to the trailing edge.
pub open spec fn spec_point_x_in_grapheme(
    point_x: i64,
    curr_idx: usize,
    next_idx: usize,
    gb: GraphemeBounds,
) -> Option<HitTestPoint> {
    if gb.leading <= point_x <= gb.trailing {
        if point_x - gb.leading < gb.trailing - point_x {
            Some(HitTestPoint { idx: curr_idx, is_inside: true })
        } else {
            Some(HitTestPoint { idx: next_idx, is_inside: true })
        }
    } else {
        None
    }
}

/// Resolve `point_x` against one cluster: a hit on the boundary before
/// the cluster (`curr_idx`) or after it (`next_idx`), whichever edge is
/// nearer (ties toward the trailing edge), or `None` when `point_x` lies
/// outside the cluster's extents.
pub fn point_x_in_grapheme(
    point_x: i64,
    curr_idx: usize,
    next_idx: usize,
    gb: &GraphemeBounds,
) -> (r: Option<HitTestPoint>)
    requires
        0 <= gb.leading <= gb.trailing,
    ensures
        r == spec_point_x_in_grapheme(point_x, curr_idx, next_idx, *gb),
{
    if gb.leading <= point_x && point_x <= gb.trailing {
        if point_x - gb.leading < gb.trailing - point_x {
            Some(HitTestPoint::new(curr_idx, true))
        } else {
            Some(HitTestPoint::new(next_idx, true))
        }
    } else {
        None
    }
}

/// The largest boundary in `bs` at or before `o` (0 when none is).
pub open spec fn snap_bound(bs: Seq<int>, o: int) -> int
    decreases bs.len(),
{
    if bs.len() == 0 {
        0
    } else if bs.last() <= o {
        bs.last()
    } else {
        snap_bound(bs.drop_last(), o)
    }
}

/// For a well-formed boundary list and a non-negative offset, the snapped
/// boundary is a member, lies in `[0, o]`, and dominates every member at
/// or before `o`.
pub proof fn lemma_snap_props(bs: Seq<int>, o: int)
    requires
        bs.len() >= 1,
        bs[0] == 0,
        strictly_sorted(bs),
        o >= 0,
    ensures
        bs.contains(snap_bound(bs, o)),
        0 <= snap_bound(bs, o) <= o,
        forall|j: int| 0 <= j < bs.len() && bs[j] <= o ==> bs[j] <= snap_bound(bs, o),
    decreases bs.len(),
{
    if bs.last() <= o {
        assert(bs[bs.len() - 1] == bs.last());
        assert(forall|j: int| 0 <= j < bs.len() - 1 ==> #[trigger] bs[j] < bs[bs.len() - 1]);
    } else {
        let pre = bs.drop_last();
        if bs.len() == 1 {
            assert(bs.last() == 0);
            assert(false);
        }
        assert(pre[0] == bs[0]);
        lemma_snap_props(pre, o);
        assert(pre.contains(snap_bound(pre, o)));
        let k = choose|k: int| 0 <= k < pre.len() && pre[k] == snap_bound(pre, o);
        assert(bs[k] == pre[k]);
        assert forall|j: int| 0 <= j < bs.len() && bs[j] <= o implies bs[j] <= snap_bound(
            bs,
            o,
        ) by {
            if j < bs.len() - 1 {
                assert(pre[j] == bs[j]);
            }
        }
    }
}

/// Snapping is monotone in the offset.
pub proof fn lemma_snap_mono(bs: Seq<int>, o1: int, o2: int)
    requires
        bs.len() >= 1,
        bs[0] == 0,
        strictly_sorted(bs),
        0 <= o1 <= o2,
    ensures
        snap_bound(bs, o1) <= snap_bound(bs, o2),
    decreases bs.len(),
{
    lemma_snap_props(bs, o1);
    lemma_snap_props(bs, o2);
    if bs.last() <= o1 {
    } else if bs.last() <= o2 {
        assert(snap_bound(bs, o1) <= o1);
    } else {
        let pre = bs.drop_last();
        if bs.len() == 1 {
            assert(false);
        }
        assert(pre[0] == bs[0]);
        lemma_snap_mono(pre, o1, o2);
    }
}

/// A boundary snaps to itself.
pub proof fn lemma_snap_member(bs: Seq<int>, o: int)
    requires
        bs.len() >= 1,
        bs[0] == 0,
        strictly_sorted(bs),
        o >= 0,
        bs.contains(o),
    ensures
        snap_bound(bs, o) == o,
{
    lemma_snap_props(bs, o);
    let j = choose|j: int| 0 <= j < bs.len() && bs[j] == o;
    assert(bs[j] <= snap_bound(bs, o));
}

} // verus!
