//! Greedy, whitespace-delimited line breaking.
//!
//! Text is partitioned into visual lines: words (and the whitespace
//! separating them) accumulate onto the current line while the measured
//! width of the accumulated content, excluding trailing whitespace, stays
//! within the width constraint; a word that would overflow starts the
//! next line, and the whitespace before it folds into the previous line's
//! range as trailing whitespace. A hard break (`\n` or `\r\n`) always
//! ends a line. A single word wider than the constraint still gets a line
//! of its own: words are never broken in the middle.

use vstd::prelude::*;

use crate::measure::Measure;
use crate::num::sat_add;
use crate::num::spec_sat_add;
use crate::utf8::is_char_boundary;
use crate::utf8::is_utf8;
use crate::utf8::lemma_ascii_next_boundary;

verus! {

/// Metadata about one visual line of a layout.
#[derive(Clone, Copy, Debug, PartialEq, Eq, Structural)]
pub struct LineMetric {
    /// Byte offset of the start of this line in the layout's text.
    pub start_offset: usize,
    /// Byte offset one past the end of this line, trailing whitespace
    /// included.
    pub end_offset: usize,
    /// Byte length of the trailing whitespace at the end of this line,
    /// hard-break bytes included. Trailing whitespace is excluded from
    /// the line's measured width but remains addressable text.
    pub trailing_whitespace: usize,
    /// Distance from the top of the line to its baseline.
    pub baseline: i64,
    /// Height of the line box.
    pub height: i64,
    /// Distance from the top of the layout to the top of this line.
    pub y_offset: i64,
}

impl LineMetric {
    /// The byte range of this line in the layout's text.
    pub fn range(&self) -> (r: core::ops::Range<usize>)
        ensures
            r.start == self.start_offset,
            r.end == self.end_offset,
    {
        self.start_offset..self.end_offset
    }
}

/// Soft, line-breakable whitespace: space or tab.
pub open spec fn is_soft_ws(b: u8) -> bool {
    b == 0x20 || b == 0x09
}

/// A position where a word ends: soft whitespace or a hard break. A lone
/// carriage return is an ordinary word byte; only `\n` and `\r\n` break.
pub open spec fn stops_word(s: Seq<u8>, i: int) -> bool {
    is_soft_ws(s[i]) || s[i] == 0x0A || (s[i] == 0x0D && i + 1 < s.len() && s[i + 1] == 0x0A)
}

/// End of the soft-whitespace run starting at `i`.
pub open spec fn ws_end(s: Seq<u8>, i: int) -> int
    decreases s.len() - i when 0 <= i <= s.len()
{
    if i < s.len() && is_soft_ws(s[i]) {
        ws_end(s, i + 1)
    } else {
        i
    }
}

/// End of the word starting at `i`: the first position at or after `i`
/// where a word stops.
pub open spec fn word_end(s: Seq<u8>, i: int) -> int
    decreases s.len() - i when 0 <= i <= s.len()
{
    if i < s.len() && !stops_word(s, i) {
        word_end(s, i + 1)
    } else {
        i
    }
}

pub proof fn lemma_ws_end_bounds(s: Seq<u8>, i: int)
    requires
        0 <= i <= s.len(),
    ensures
        i <= ws_end(s, i) <= s.len(),
        ws_end(s, i) < s.len() ==> !is_soft_ws(s[ws_end(s, i)]),
    decreases s.len() - i,
{
    if i < s.len() && is_soft_ws(s[i]) {
        lemma_ws_end_bounds(s, i + 1);
    }
}

pub proof fn lemma_word_end_bounds(s: Seq<u8>, i: int)
    requires
        0 <= i <= s.len(),
    ensures
        i <= word_end(s, i) <= s.len(),
        i < s.len() && !stops_word(s, i) ==> word_end(s, i) > i,
    decreases s.len() - i,
{
    if i < s.len() && !stops_word(s, i) {
        lemma_word_end_bounds(s, i + 1);
    }
}

/// No position strictly inside a word stops it.
pub proof fn lemma_word_end_interior(s: Seq<u8>, i: int)
    requires
        0 <= i <= s.len(),
    ensures
        forall|k: int| i <= k < word_end(s, i) ==> !stops_word(s, k),
    decreases s.len() - i,
{
    if i < s.len() && !stops_word(s, i) {
        lemma_word_end_interior(s, i + 1);
    }
}

/// Every byte of a soft-whitespace run is soft whitespace.
pub proof fn lemma_ws_end_interior(s: Seq<u8>, i: int)
    requires
        0 <= i <= s.len(),
    ensures
        forall|k: int| i <= k < ws_end(s, i) ==> is_soft_ws(s[k]),
    decreases s.len() - i,
{
    if i < s.len() && is_soft_ws(s[i]) {
        lemma_ws_end_interior(s, i + 1);
    }
}

/// Skipping soft whitespace lands on a character boundary.
pub proof fn lemma_ws_end_boundary(s: Seq<u8>, i: int)
    requires
        is_utf8(s),
        0 <= i <= s.len(),
        is_char_boundary(s, i),
    ensures
        is_char_boundary(s, ws_end(s, i)),
    decreases s.len() - i,
{
    if i < s.len() && is_soft_ws(s[i]) {
        lemma_ascii_next_boundary(s, i);
        lemma_ws_end_boundary(s, i + 1);
    }
}

/// A word ends on a character boundary: at the end of the text, or at an
/// ASCII byte that stopped the scan.
pub proof fn lemma_word_end_boundary(s: Seq<u8>, i: int)
    requires
        0 <= i <= s.len(),
    ensures
        is_char_boundary(s, word_end(s, i)),
    decreases s.len() - i,
{
    if i < s.len() && !stops_word(s, i) {
        lemma_word_end_boundary(s, i + 1);
    }
}

/// Whether the visible content `s[ls..we]` fits the width constraint;
/// `None` means no constraint.
pub open spec fn fits<M: Measure>(m: M, s: Seq<u8>, max_width: Option<i64>, ls: int, we: int) -> bool {
    match max_width {
        Option::None => true,
        Option::Some(w) => m.width_of(s.subrange(ls, we)) <= w,
    }
}

/// One line's extent on the line that starts at `ls`, scanning from `j`,
/// the end of the content accepted so far: the pair of the line's visible
/// end and its range end (trailing whitespace and any hard-break bytes
/// included). The first word of a line is accepted whatever its width.
pub open spec fn line_scan<M: Measure>(
    m: M,
    s: Seq<u8>,
    max_width: Option<i64>,
    ls: int,
    j: int,
) -> (int, int)
    decreases s.len() - j when 0 <= ls <= j <= s.len()
    via line_scan_dec::<M>
{
    let se = ws_end(s, j);
    if se >= s.len() {
        (j, s.len() as int)
    } else if s[se] == 0x0A {
        (j, se + 1)
    } else if s[se] == 0x0D && se + 1 < s.len() && s[se + 1] == 0x0A {
        (j, se + 2)
    } else {
        let we = word_end(s, se);
        if j == ls || fits(m, s, max_width, ls, we) {
            line_scan(m, s, max_width, ls, we)
        } else {
            (j, se)
        }
    }
}

#[via_fn]
proof fn line_scan_dec<M: Measure>(m: M, s: Seq<u8>, max_width: Option<i64>, ls: int, j: int) {
    lemma_ws_end_bounds(s, j);
    let se = ws_end(s, j);
    if se < s.len() {
        lemma_word_end_bounds(s, se);
    }
}

/// The scan's result brackets its input, and the scan of a whole line
/// makes progress whenever any text is left.
pub proof fn lemma_line_scan_bounds<M: Measure>(
    m: M,
    s: Seq<u8>,
    max_width: Option<i64>,
    ls: int,
    j: int,
)
    requires
        0 <= ls <= j <= s.len(),
    ensures
        ({
            let r = line_scan(m, s, max_width, ls, j);
            &&& ls <= j <= r.0 <= r.1 <= s.len()
            &&& (j == ls && ls < s.len() ==> ls < r.1)
        }),
    decreases s.len() - j,
{
    lemma_ws_end_bounds(s, j);
    let se = ws_end(s, j);
    if se < s.len() {
        lemma_word_end_bounds(s, se);
        let we = word_end(s, se);
        if s[se] == 0x0A {
        } else if s[se] == 0x0D && se + 1 < s.len() && s[se + 1] == 0x0A {
        } else if j == ls || fits(m, s, max_width, ls, we) {
            lemma_line_scan_bounds(m, s, max_width, ls, we);
        }
    }
}

/// In well-formed text the scan's results lie on character boundaries.
pub proof fn lemma_line_scan_boundaries<M: Measure>(
    m: M,
    s: Seq<u8>,
    max_width: Option<i64>,
    ls: int,
    j: int,
)
    requires
        is_utf8(s),
        0 <= ls <= j <= s.len(),
        is_char_boundary(s, j),
    ensures
        ({
            let r = line_scan(m, s, max_width, ls, j);
            is_char_boundary(s, r.0) && is_char_boundary(s, r.1)
        }),
    decreases s.len() - j,
{
    lemma_ws_end_bounds(s, j);
    lemma_ws_end_boundary(s, j);
    let se = ws_end(s, j);
    if se >= s.len() {
    } else if s[se] == 0x0A {
        lemma_ascii_next_boundary(s, se);
    } else if s[se] == 0x0D && se + 1 < s.len() && s[se + 1] == 0x0A {
        lemma_ascii_next_boundary(s, se);
        lemma_ascii_next_boundary(s, se + 1);
    } else {
        lemma_word_end_bounds(s, se);
        lemma_word_end_boundary(s, se);
        let we = word_end(s, se);
        if j == ls || fits(m, s, max_width, ls, we) {
            lemma_line_scan_boundaries(m, s, max_width, ls, we);
        }
    }
}

/// The line's trailing whitespace covers any hard-break bytes at its
/// end: the scan only ever leaves a hard break inside the range it also
/// counts as trailing.
pub proof fn lemma_line_scan_nlf<M: Measure>(
    m: M,
    s: Seq<u8>,
    max_width: Option<i64>,
    ls: int,
    j: int,
)
    requires
        0 <= ls <= j <= s.len(),
        ls < s.len(),
        j == ls || (j > ls && !stops_word(s, j - 1)),
    ensures
        ({
            let r = line_scan(m, s, max_width, ls, j);
            trailing_nlf(s.subrange(ls, r.1)) <= r.1 - r.0
        }),
    decreases s.len() - j,
{
    lemma_ws_end_bounds(s, j);
    lemma_ws_end_interior(s, j);
    let se = ws_end(s, j);
    let r = line_scan(m, s, max_width, ls, j);
    if se >= s.len() {
        let sub = s.subrange(ls, s.len() as int);
        if j < s.len() {
            assert(is_soft_ws(s[s.len() - 1]));
            assert(trailing_nlf(sub) == 0);
        } else {
            assert(!stops_word(s, j - 1));
            assert(s[s.len() - 1] != 0x0A);
            assert(trailing_nlf(sub) == 0);
        }
    } else if s[se] == 0x0A {
        let sub = s.subrange(ls, se + 1);
        assert(sub[sub.len() - 1] == s[se]);
        if trailing_nlf(sub) == 2 {
            assert(sub.len() >= 2 && sub[sub.len() - 2] == 0x0D);
            assert(s[se - 1] == 0x0D);
            if se > j {
                assert(is_soft_ws(s[se - 1]));
                assert(false);
            } else {
                assert(se == j);
                if j == ls {
                    assert(sub.len() == 1);
                    assert(false);
                } else {
                    assert(stops_word(s, j - 1));
                    assert(false);
                }
            }
        }
        assert(r.1 - r.0 == se + 1 - j >= 1);
    } else if s[se] == 0x0D && se + 1 < s.len() && s[se + 1] == 0x0A {
        assert(trailing_nlf(s.subrange(ls, se + 2)) <= 2);
        assert(r.1 - r.0 == se + 2 - j >= 2);
    } else {
        lemma_word_end_bounds(s, se);
        lemma_word_end_interior(s, se);
        let we = word_end(s, se);
        if j == ls || fits(m, s, max_width, ls, we) {
            assert(!stops_word(s, we - 1));
            lemma_line_scan_nlf(m, s, max_width, ls, we);
        } else {
            let sub = s.subrange(ls, se);
            if se > ls {
                if se > j {
                    assert(is_soft_ws(s[se - 1]));
                    assert(trailing_nlf(sub) == 0);
                } else {
                    assert(se == j && j > ls);
                    assert(!stops_word(s, j - 1));
                    assert(s[se - 1] != 0x0A);
                    assert(trailing_nlf(sub) == 0);
                }
            }
        }
    }
}

/// The lines of `s` from offset `ls` on, stacked from vertical offset
/// `y`: each line's extent comes from the greedy scan, its vertical
/// metrics from the oracle.
pub open spec fn lines_from<M: Measure>(
    m: M,
    s: Seq<u8>,
    max_width: Option<i64>,
    ls: int,
    y: i64,
) -> Seq<LineMetric>
    decreases s.len() - ls when 0 <= ls <= s.len()
    via lines_from_dec::<M>
{
    if ls >= s.len() {
        Seq::empty()
    } else {
        let sc = line_scan(m, s, max_width, ls, ls);
        let lm = LineMetric {
            start_offset: ls as usize,
            end_offset: sc.1 as usize,
            trailing_whitespace: (sc.1 - sc.0) as usize,
            baseline: m.ascent_of(),
            height: m.height_of(),
            y_offset: y,
        };
        seq![lm] + lines_from(m, s, max_width, sc.1, spec_sat_add(y, m.height_of()))
    }
}

#[via_fn]
proof fn lines_from_dec<M: Measure>(m: M, s: Seq<u8>, max_width: Option<i64>, ls: int, y: i64) {
    if ls < s.len() {
        lemma_line_scan_bounds(m, s, max_width, ls, ls);
    }
}

/// The full partition of `s` into line records: the greedy lines, plus
/// the synthetic lines a layout owes its callers — one zero-width line
/// for empty text, and one empty trailing line after a hard break at the
/// end of the text, the caret position after that break.
pub open spec fn spec_layout_lines<M: Measure>(
    m: M,
    s: Seq<u8>,
    max_width: Option<i64>,
) -> Seq<LineMetric> {
    let base = lines_from(m, s, max_width, 0, 0);
    if s.len() == 0 {
        seq![
            LineMetric {
                start_offset: 0,
                end_offset: 0,
                trailing_whitespace: 0,
                baseline: m.ascent_of(),
                height: m.height_of(),
                y_offset: 0,
            },
        ]
    } else if trailing_nlf(s) > 0 {
        base + seq![
            LineMetric {
                start_offset: s.len() as usize,
                end_offset: s.len() as usize,
                trailing_whitespace: 0,
                baseline: m.ascent_of(),
                height: m.height_of(),
                y_offset: spec_sat_add(base.last().y_offset, base.last().height),
            },
        ]
    } else {
        base
    }
}

/// What holds of every line record of a layout over `s`.
pub open spec fn line_wf<M: Measure>(m: M, s: Seq<u8>, lm: LineMetric) -> bool {
    &&& lm.start_offset <= lm.end_offset <= s.len()
    &&& lm.trailing_whitespace <= lm.end_offset - lm.start_offset
    &&& lm.baseline == m.ascent_of()
    &&& lm.height == m.height_of()
    &&& 0 <= lm.y_offset
    &&& trailing_nlf(s.subrange(lm.start_offset as int, lm.end_offset as int))
        <= lm.trailing_whitespace
    &&& (is_utf8(s) ==> is_char_boundary(s, lm.start_offset as int) && is_char_boundary(
        s,
        lm.end_offset as int,
    ) && is_char_boundary(s, lm.end_offset - lm.trailing_whitespace))
}

/// What holds of the line records of a layout over `s` as a whole: at
/// least one line; ranges contiguous from offset 0 to the end of the
/// text; vertical offsets stacked by line height from 0.
pub open spec fn lines_wf<M: Measure>(m: M, s: Seq<u8>, lines: Seq<LineMetric>) -> bool {
    &&& lines.len() >= 1
    &&& lines[0].start_offset == 0
    &&& lines[0].y_offset == 0
    &&& lines[lines.len() - 1].end_offset == s.len()
    &&& forall|i: int| 0 <= i < lines.len() ==> line_wf(m, s, #[trigger] lines[i])
    &&& forall|i: int|
        0 <= i < lines.len() - 1 ==> (#[trigger] lines[i].end_offset) == lines[i + 1].start_offset
            && lines[i + 1].y_offset == spec_sat_add(lines[i].y_offset, lines[i].height)
}

pub proof fn lemma_lines_from_wf<M: Measure>(m: M, s: Seq<u8>, max_width: Option<i64>, ls: int, y: i64)
    requires
        0 <= ls < s.len() <= usize::MAX,
        0 <= y,
        0 <= m.ascent_of(),
        0 <= m.height_of(),
        is_utf8(s) ==> is_char_boundary(s, ls),
    ensures
        ({
            let lns = lines_from(m, s, max_width, ls, y);
            &&& lns.len() >= 1
            &&& lns[0].start_offset == ls
            &&& lns[0].y_offset == y
            &&& lns[lns.len() - 1].end_offset == s.len()
            &&& forall|i: int| 0 <= i < lns.len() ==> line_wf(m, s, #[trigger] lns[i])
            &&& forall|i: int|
                0 <= i < lns.len() - 1 ==> (#[trigger] lns[i].end_offset) == lns[i
                    + 1].start_offset && lns[i + 1].y_offset == spec_sat_add(
                    lns[i].y_offset,
                    lns[i].height,
                )
        }),
    decreases s.len() - ls,
{
    let lns = lines_from(m, s, max_width, ls, y);
    let sc = line_scan(m, s, max_width, ls, ls);
    lemma_line_scan_bounds(m, s, max_width, ls, ls);
    lemma_line_scan_nlf(m, s, max_width, ls, ls);
    if is_utf8(s) {
        lemma_line_scan_boundaries(m, s, max_width, ls, ls);
    }
    let lm = lns[0];
    assert(lm.end_offset - lm.trailing_whitespace == sc.0);
    assert(line_wf(m, s, lm));
    let y2 = spec_sat_add(y, m.height_of());
    crate::num::lemma_sat_add_bounds(y, m.height_of());
    let rest = lines_from(m, s, max_width, sc.1, y2);
    if sc.1 == s.len() {
        assert(rest =~= Seq::<LineMetric>::empty());
        assert(lns =~= seq![lm]);
    } else {
        lemma_lines_from_wf(m, s, max_width, sc.1, y2);
        assert(lns == seq![lm] + rest);
        assert(lns[lns.len() - 1] == rest[rest.len() - 1]);
        assert forall|i: int| 0 <= i < lns.len() implies line_wf(m, s, #[trigger] lns[i]) by {
            if i >= 1 {
                assert(lns[i] == rest[i - 1]);
            }
        }
        assert forall|i: int| 0 <= i < lns.len() - 1 implies (#[trigger] lns[i].end_offset)
            == lns[i + 1].start_offset && lns[i + 1].y_offset == spec_sat_add(
            lns[i].y_offset,
            lns[i].height,
        ) by {
            if i == 0 {
                assert(lns[1] == rest[0]);
            } else {
                assert(lns[i] == rest[i - 1]);
                assert(lns[i + 1] == rest[i]);
            }
        }
    }
}

/// The full partition is well formed for any text and any constraint.
pub proof fn lemma_spec_layout_lines_wf<M: Measure>(m: M, s: Seq<u8>, max_width: Option<i64>)
    requires
        s.len() <= usize::MAX,
        0 <= m.ascent_of(),
        0 <= m.height_of(),
    ensures
        lines_wf(m, s, spec_layout_lines(m, s, max_width)),
{
    let lns = spec_layout_lines(m, s, max_width);
    if s.len() == 0 {
        assert(trailing_nlf(s.subrange(0, 0)) == 0);
        assert(lines_wf(m, s, lns));
    } else {
        let base = lines_from(m, s, max_width, 0, 0);
        lemma_lines_from_wf(m, s, max_width, 0, 0);
        if trailing_nlf(s) > 0 {
            let tail = lns[lns.len() - 1];
            crate::num::lemma_sat_add_bounds(base.last().y_offset, base.last().height);
            assert(trailing_nlf(s.subrange(s.len() as int, s.len() as int)) == 0);
            assert(line_wf(m, s, tail));
            assert forall|i: int| 0 <= i < lns.len() implies line_wf(m, s, #[trigger] lns[i]) by {
                if i < lns.len() - 1 {
                    assert(lns[i] == base[i]);
                }
            }
            assert forall|i: int| 0 <= i < lns.len() - 1 implies (#[trigger] lns[i].end_offset)
                == lns[i + 1].start_offset && lns[i + 1].y_offset == spec_sat_add(
                lns[i].y_offset,
                lns[i].height,
            ) by {
                assert(lns[i] == base[i]);
                if i < lns.len() - 2 {
                    assert(lns[i + 1] == base[i + 1]);
                } else {
                    assert(lns[i + 1] == tail);
                    assert(lns[i] == base[base.len() - 1]);
                }
            }
        }
    }
}

/// Byte length of the hard-break sequence that ends `s`: 2 for `\r\n`,
/// 1 for a bare `\n`, otherwise 0.
pub open spec fn trailing_nlf(s: Seq<u8>) -> int {
    if s.len() >= 2 && s[s.len() - 2] == 0x0D && s[s.len() - 1] == 0x0A {
        2
    } else if s.len() >= 1 && s[s.len() - 1] == 0x0A {
        1
    } else {
        0
    }
}

/// Length of the hard-break sequence ending `s[from..to]`.
pub fn trailing_nlf_len(s: &[u8], from: usize, to: usize) -> (r: usize)
    requires
        from <= to <= s@.len(),
    ensures
        r == trailing_nlf(s@.subrange(from as int, to as int)),
{
    let n: usize = to - from;
    if n >= 2 && s[to - 2] == 0x0D && s[to - 1] == 0x0A {
        2
    } else if n >= 1 && s[to - 1] == 0x0A {
        1
    } else {
        0
    }
}

/// Skip the soft-whitespace run starting at `j`.
fn scan_ws(s: &[u8], j: usize) -> (r: usize)
    requires
        j <= s@.len(),
    ensures
        r == ws_end(s@, j as int),
        j <= r <= s@.len(),
{
    let n: usize = s.len();
    let mut k: usize = j;
    while k < n && (s[k] == 0x20 || s[k] == 0x09)
        invariant
            j <= k <= n,
            n == s@.len(),
            ws_end(s@, k as int) == ws_end(s@, j as int),
        decreases n - k,
    {
        k = k + 1;
    }
    k
}

/// Scan to the end of the word starting at `j`.
fn scan_word(s: &[u8], j: usize) -> (r: usize)
    requires
        j <= s@.len(),
    ensures
        r == word_end(s@, j as int),
        j <= r <= s@.len(),
{
    let n: usize = s.len();
    let mut k: usize = j;
    loop
        invariant
            j <= k <= n,
            n == s@.len(),
            word_end(s@, k as int) == word_end(s@, j as int),
        ensures
            k == word_end(s@, j as int),
        decreases n - k,
    {
        if k >= n {
            break;
        }
        let b: u8 = s[k];
        if b == 0x20 || b == 0x09 || b == 0x0A {
            break;
        }
        if b == 0x0D && k + 1 < n && s[k + 1] == 0x0A {
            break;
        }
        assert(!stops_word(s@, k as int));
        k = k + 1;
    }
    k
}

/// One line's extent from `ls`: the visible end and the range end.
fn line_scan_exec<M: Measure>(m: &M, s: &[u8], max_width: Option<i64>, ls: usize) -> (r: (
    usize,
    usize,
))
    requires
        ls <= s@.len(),
    ensures
        (r.0 as int, r.1 as int) == line_scan(*m, s@, max_width, ls as int, ls as int),
        ls <= r.0 <= r.1 <= s@.len(),
{
    let n: usize = s.len();
    let mut j: usize = ls;
    loop
        invariant
            ls <= j <= n,
            n == s@.len(),
            line_scan(*m, s@, max_width, ls as int, j as int) == line_scan(
                *m,
                s@,
                max_width,
                ls as int,
                ls as int,
            ),
        decreases n - j,
    {
        let se = scan_ws(s, j);
        proof {
            lemma_ws_end_bounds(s@, j as int);
        }
        if se >= n {
            return (j, n);
        }
        let b: u8 = s[se];
        if b == 0x0A {
            return (j, se + 1);
        }
        if b == 0x0D && se + 1 < n && s[se + 1] == 0x0A {
            return (j, se + 2);
        }
        assert(!stops_word(s@, se as int));
        let we = scan_word(s, se);
        proof {
            lemma_word_end_bounds(s@, se as int);
        }
        let take = j == ls || match max_width {
            Option::Some(w) => m.advance_width(s, ls, we) <= w,
            Option::None => true,
        };
        if take {
            assert(j as int == ls as int || fits(*m, s@, max_width, ls as int, we as int));
            j = we;
        } else {
            return (j, se);
        }
    }
}

/// Partition `text` into greedy line records under `max_width` (`None`
/// disables wrapping). Empty text yields no records here; the layout adds
/// its synthetic lines on top of this partition.
pub fn calculate_line_metrics<M: Measure>(m: &M, text: &[u8], max_width: Option<i64>) -> (r: Vec<
    LineMetric,
>)
    ensures
        r@ == lines_from(*m, text@, max_width, 0, 0),
{
    let n: usize = text.len();
    let asc = m.ascent();
    let h = m.height();
    proof {
        m.lemma_metrics_nonneg();
    }
    let mut out: Vec<LineMetric> = Vec::new();
    let mut ls: usize = 0;
    let mut y: i64 = 0;
    while ls < n
        invariant
            ls <= n,
            n == text@.len(),
            0 <= y,
            asc == m.ascent_of(),
            h == m.height_of(),
            0 <= m.height_of(),
            out@ + lines_from(*m, text@, max_width, ls as int, y) == lines_from(
                *m,
                text@,
                max_width,
                0,
                0,
            ),
        decreases n - ls,
    {
        let (vis, re) = line_scan_exec(m, text, max_width, ls);
        proof {
            lemma_line_scan_bounds(*m, text@, max_width, ls as int, ls as int);
        }
        let lm = LineMetric {
            start_offset: ls,
            end_offset: re,
            trailing_whitespace: re - vis,
            baseline: asc,
            height: h,
            y_offset: y,
        };
        let ghost rest = lines_from(*m, text@, max_width, re as int, spec_sat_add(y, m.height_of()));
        proof {
            assert(lines_from(*m, text@, max_width, ls as int, y) == seq![lm] + rest);
            assert((out@ + seq![lm]) + rest =~= out@ + (seq![lm] + rest));
        }
        out.push(lm);
        y = sat_add(y, h);
        ls = re;
    }
    proof {
        assert(lines_from(*m, text@, max_width, ls as int, y) =~= Seq::<LineMetric>::empty());
        assert(out@ + Seq::<LineMetric>::empty() =~= out@);
    }
    out
}

} // verus!
