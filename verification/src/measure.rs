//! The text measurement oracle.
//!
//! The engine does no glyph shaping of its own: advance widths and font
//! vertical metrics come from a [`Measure`] implementation owned by the
//! surrounding rendering back end. The engine only relies on the laws
//! stated here: the empty string has width zero, and extending a string
//! never shrinks its width.

use vstd::prelude::*;

use crate::num::lemma_sat_add_assoc;
use crate::num::spec_sat_add;
use crate::num::sat_add;
use crate::utf8::char_len;
use crate::utf8::check_char_at;
use crate::utf8::is_cont;
use crate::utf8::valid_char_at;

verus! {

/// A source of advance widths and font vertical metrics, in integer
/// layout units.
pub trait Measure: Sized {
    /// The advance width of a byte string.
    spec fn width_of(&self, s: Seq<u8>) -> i64;

    /// Distance from the top of a line box to the baseline.
    spec fn ascent_of(&self) -> i64;

    /// Height of a line box.
    spec fn height_of(&self) -> i64;

    /// An empty string occupies no width.
    proof fn lemma_width_empty(&self)
        ensures
            self.width_of(Seq::<u8>::empty()) == 0,
    ;

    /// Widths are non-negative and never shrink when the string grows on
    /// the right.
    proof fn lemma_width_prefix(&self, s: Seq<u8>, t: Seq<u8>)
        requires
            s.is_prefix_of(t),
        ensures
            0 <= self.width_of(s) <= self.width_of(t),
    ;

    /// Vertical metrics are non-negative.
    proof fn lemma_metrics_nonneg(&self)
        ensures
            0 <= self.ascent_of(),
            0 <= self.height_of(),
    ;

    /// The advance width of `s[from..to]`.
    fn advance_width(&self, s: &[u8], from: usize, to: usize) -> (w: i64)
        requires
            from <= to <= s@.len(),
        ensures
            w == self.width_of(s@.subrange(from as int, to as int)),
    ;

    /// See [`Measure::ascent_of`].
    fn ascent(&self) -> (r: i64)
        ensures
            r == self.ascent_of(),
    ;

    /// See [`Measure::height_of`].
    fn height(&self) -> (r: i64)
        ensures
            r == self.height_of(),
    ;
}

/// The width a table assigns to one byte: table entries below zero and
/// bytes beyond the table count as zero.
pub open spec fn byte_width(t: Seq<i64>, b: u8) -> i64 {
    if b < t.len() && t[b as int] > 0 {
        t[b as int]
    } else {
        0
    }
}

/// The width of a byte string under a table: the clamped sum of its
/// bytes' widths.
pub open spec fn table_width(t: Seq<i64>, s: Seq<u8>) -> i64
    decreases s.len(),
{
    if s.len() == 0 {
        0
    } else {
        spec_sat_add(table_width(t, s.drop_last()), byte_width(t, s.last()))
    }
}

proof fn lemma_table_width_nonneg(t: Seq<i64>, s: Seq<u8>)
    ensures
        0 <= table_width(t, s),
    decreases s.len(),
{
    if s.len() > 0 {
        lemma_table_width_nonneg(t, s.drop_last());
    }
}

proof fn lemma_table_width_prefix(t: Seq<i64>, s: Seq<u8>, u: Seq<u8>)
    requires
        s.is_prefix_of(u),
    ensures
        0 <= table_width(t, s) <= table_width(t, u),
    decreases u.len(),
{
    lemma_table_width_nonneg(t, s);
    if s.len() < u.len() {
        let v = u.drop_last();
        assert(s.is_prefix_of(v));
        lemma_table_width_prefix(t, s, v);
        lemma_table_width_nonneg(t, v);
    } else {
        assert(s =~= u);
    }
}

/// A per-byte width table: a deterministic oracle assigning each byte
/// value a fixed width. Continuation bytes are normally given width zero,
/// so a character's width is carried by its lead byte.
pub struct TableMeasure {
    pub widths: Vec<i64>,
    pub ascent: i64,
    pub height: i64,
}

impl TableMeasure {
    pub fn new(widths: Vec<i64>, ascent: i64, height: i64) -> (r: TableMeasure)
        ensures
            r.widths == widths,
            r.ascent == ascent,
            r.height == height,
    {
        TableMeasure { widths, ascent, height }
    }
}

impl Measure for TableMeasure {
    open spec fn width_of(&self, s: Seq<u8>) -> i64 {
        table_width(self.widths@, s)
    }

    open spec fn ascent_of(&self) -> i64 {
        if self.ascent > 0 {
            self.ascent
        } else {
            0
        }
    }

    open spec fn height_of(&self) -> i64 {
        if self.height > 0 {
            self.height
        } else {
            0
        }
    }

    proof fn lemma_width_empty(&self) {
    }

    proof fn lemma_width_prefix(&self, s: Seq<u8>, t: Seq<u8>) {
        lemma_table_width_prefix(self.widths@, s, t);
    }

    proof fn lemma_metrics_nonneg(&self) {
    }

    fn advance_width(&self, s: &[u8], from: usize, to: usize) -> (w: i64) {
        let mut acc: i64 = 0;
        let mut j: usize = from;
        while j < to
            invariant
                from <= j <= to <= s@.len(),
                0 <= acc,
                acc == table_width(self.widths@, s@.subrange(from as int, j as int)),
            decreases to - j,
        {
            let b: u8 = s[j];
            let bw: i64 = if (b as usize) < self.widths.len() {
                let v: i64 = self.widths[b as usize];
                if v > 0 {
                    v
                } else {
                    0
                }
            } else {
                0
            };
            assert(bw == byte_width(self.widths@, s@[j as int]));
            let next: i64 = sat_add(acc, bw);
            proof {
                let pre = s@.subrange(from as int, j as int);
                let post = s@.subrange(from as int, j + 1 as int);
                assert(post.drop_last() =~= pre);
                assert(post.last() == s@[j as int]);
            }
            acc = next;
            j = j + 1;
        }
        proof {
            assert(s@.subrange(from as int, to as int) =~= s@.subrange(
                from as int,
                j as int,
            ));
        }
        acc
    }

    fn ascent(&self) -> (r: i64) {
        if self.ascent > 0 {
            self.ascent
        } else {
            0
        }
    }

    fn height(&self) -> (r: i64) {
        if self.height > 0 {
            self.height
        } else {
            0
        }
    }
}

/// A list of keys as byte sequences.
pub open spec fn keys_view(ks: Seq<Vec<u8>>) -> Seq<Seq<u8>> {
    ks.map_values(|v: Vec<u8>| v@)
}

/// The width a keyed table assigns to one character's bytes: the first
/// matching key's width; entries below zero and characters without an
/// entry count as zero.
pub open spec fn key_width_from(keys: Seq<Seq<u8>>, ws: Seq<i64>, k: Seq<u8>, j: int) -> i64
    decreases keys.len() - j when 0 <= j
{
    if j >= keys.len() {
        0
    } else if keys[j] == k {
        if j < ws.len() && ws[j] > 0 {
            ws[j]
        } else {
            0
        }
    } else {
        key_width_from(keys, ws, k, j + 1)
    }
}

proof fn lemma_key_width_nonneg(keys: Seq<Seq<u8>>, ws: Seq<i64>, k: Seq<u8>, j: int)
    requires
        0 <= j,
    ensures
        0 <= key_width_from(keys, ws, k, j),
    decreases keys.len() - j,
{
    if j < keys.len() && !(keys[j] == k) {
        lemma_key_width_nonneg(keys, ws, k, j + 1);
    }
}

/// The width of a byte string under a keyed table: decode it character
/// by character, summing each well-formed character's keyed width;
/// malformed bytes occupy no width.
pub open spec fn char_table_width(keys: Seq<Seq<u8>>, ws: Seq<i64>, s: Seq<u8>, i: int) -> i64
    decreases s.len() - i when 0 <= i
{
    if i >= s.len() {
        0
    } else if valid_char_at(s, i) {
        spec_sat_add(
            key_width_from(keys, ws, s.subrange(i, i + char_len(s[i])), 0),
            char_table_width(keys, ws, s, i + char_len(s[i])),
        )
    } else {
        char_table_width(keys, ws, s, i + 1)
    }
}

proof fn lemma_ctw_nonneg(keys: Seq<Seq<u8>>, ws: Seq<i64>, s: Seq<u8>, i: int)
    requires
        0 <= i,
    ensures
        0 <= char_table_width(keys, ws, s, i),
    decreases s.len() - i,
{
    if i < s.len() {
        if valid_char_at(s, i) {
            lemma_key_width_nonneg(keys, ws, s.subrange(i, i + char_len(s[i])), 0);
            lemma_ctw_nonneg(keys, ws, s, i + char_len(s[i]));
        } else {
            lemma_ctw_nonneg(keys, ws, s, i + 1);
        }
    }
}

proof fn lemma_ctw_all_cont_zero(keys: Seq<Seq<u8>>, ws: Seq<i64>, p: Seq<u8>, j: int)
    requires
        0 <= j <= p.len(),
        forall|k: int| j <= k < p.len() ==> is_cont(#[trigger] p[k]),
    ensures
        char_table_width(keys, ws, p, j) == 0,
    decreases p.len() - j,
{
    if j < p.len() {
        assert(is_cont(p[j]));
        assert(char_len(p[j]) == 0);
        lemma_ctw_all_cont_zero(keys, ws, p, j + 1);
    }
}

/// A keyed width never shrinks when the string grows on the right: a
/// character truncated by the cut contributes nothing on the short side.
proof fn lemma_ctw_prefix(keys: Seq<Seq<u8>>, ws: Seq<i64>, p: Seq<u8>, s: Seq<u8>, i: int)
    requires
        p.is_prefix_of(s),
        0 <= i <= p.len(),
    ensures
        char_table_width(keys, ws, p, i) <= char_table_width(keys, ws, s, i),
    decreases s.len() - i,
{
    lemma_ctw_nonneg(keys, ws, s, i);
    if i >= p.len() {
        lemma_ctw_nonneg(keys, ws, p, i);
    } else if valid_char_at(p, i) {
        let l = char_len(p[i]);
        assert(p[i] == s[i]);
        assert(valid_char_at(s, i)) by {
            assert(l >= 2 ==> p[i + 1] == s[i + 1]);
            assert(l >= 3 ==> p[i + 2] == s[i + 2]);
            assert(l == 4 ==> p[i + 3] == s[i + 3]);
        }
        assert(p.subrange(i, i + l) =~= s.subrange(i, i + l));
        lemma_ctw_prefix(keys, ws, p, s, i + l);
        lemma_key_width_nonneg(keys, ws, s.subrange(i, i + l), 0);
    } else {
        assert(p[i] == s[i]);
        if valid_char_at(s, i) {
            let l = char_len(s[i]);
            assert(p.len() < i + l) by {
                if i + l <= p.len() {
                    assert(l >= 2 ==> p[i + 1] == s[i + 1]);
                    assert(l >= 3 ==> p[i + 2] == s[i + 2]);
                    assert(l == 4 ==> p[i + 3] == s[i + 3]);
                    assert(valid_char_at(p, i));
                    assert(false);
                }
            }
            assert forall|k: int| i + 1 <= k < p.len() implies is_cont(#[trigger] p[k]) by {
                assert(p[k] == s[k]);
                if k == i + 1 {
                    assert(crate::utf8::second_ok(s[i], s[i + 1]));
                    assert(is_cont(s[i + 1]));
                }
            }
            lemma_ctw_all_cont_zero(keys, ws, p, i + 1);
            lemma_key_width_nonneg(keys, ws, s.subrange(i, i + l), 0);
            lemma_ctw_nonneg(keys, ws, s, i + l);
        } else {
            lemma_ctw_prefix(keys, ws, p, s, i + 1);
        }
    }
}

/// A per-character width table: each key is one character's UTF-8 bytes,
/// carrying the advance width a back end measured for that character.
/// Characters without an entry are zero-width.
pub struct CharTableMeasure {
    pub keys: Vec<Vec<u8>>,
    pub widths: Vec<i64>,
    pub ascent: i64,
    pub height: i64,
}

impl CharTableMeasure {
    pub fn new(keys: Vec<Vec<u8>>, widths: Vec<i64>, ascent: i64, height: i64) -> (r:
        CharTableMeasure)
        ensures
            r.keys == keys,
            r.widths == widths,
            r.ascent == ascent,
            r.height == height,
    {
        CharTableMeasure { keys, widths, ascent, height }
    }
}

/// Whether `key` holds exactly the bytes `s[i..i + l]`.
fn bytes_match(key: &Vec<u8>, s: &[u8], i: usize, l: usize) -> (r: bool)
    requires
        i + l <= s@.len(),
    ensures
        r == (key@ == s@.subrange(i as int, i + l)),
{
    let ghost target = s@.subrange(i as int, i + l);
    if key.len() != l {
        proof {
            assert(key@.len() != target.len());
        }
        return false;
    }
    let n: usize = s.len();
    let mut j: usize = 0;
    while j < l
        invariant
            0 <= j <= l,
            key@.len() == l,
            i + l <= n,
            n == s@.len(),
            target == s@.subrange(i as int, i + l),
            forall|k: int| 0 <= k < j ==> key@[k] == s@[i + k],
        decreases l - j,
    {
        if key[j] != s[i + j] {
            proof {
                assert(key@[j as int] != target[j as int]);
            }
            return false;
        }
        j = j + 1;
    }
    proof {
        assert(key@ =~= target);
    }
    true
}

/// Look up the width keyed by the bytes `s[i..i + l]`.
fn key_lookup(keys: &Vec<Vec<u8>>, widths: &Vec<i64>, s: &[u8], i: usize, l: usize) -> (w: i64)
    requires
        i + l <= s@.len(),
    ensures
        w == key_width_from(keys_view(keys@), widths@, s@.subrange(i as int, i + l), 0),
        0 <= w,
{
    let ghost kv = keys_view(keys@);
    let ghost target = s@.subrange(i as int, i + l);
    let n: usize = keys.len();
    let mut j: usize = 0;
    loop
        invariant
            0 <= j <= n,
            n == keys@.len(),
            kv == keys_view(keys@),
            target == s@.subrange(i as int, i + l),
            i + l <= s@.len(),
            key_width_from(kv, widths@, target, j as int) == key_width_from(kv, widths@, target, 0),
        decreases n - j,
    {
        proof {
            lemma_key_width_nonneg(kv, widths@, target, j as int);
        }
        if j >= n {
            return 0;
        }
        proof {
            assert(kv[j as int] == keys@[j as int]@);
        }
        if bytes_match(&keys[j], s, i, l) {
            if j < widths.len() {
                let v: i64 = widths[j];
                if v > 0 {
                    return v;
                } else {
                    return 0;
                }
            } else {
                return 0;
            }
        }
        j = j + 1;
    }
}

impl Measure for CharTableMeasure {
    open spec fn width_of(&self, s: Seq<u8>) -> i64 {
        char_table_width(keys_view(self.keys@), self.widths@, s, 0)
    }

    open spec fn ascent_of(&self) -> i64 {
        if self.ascent > 0 {
            self.ascent
        } else {
            0
        }
    }

    open spec fn height_of(&self) -> i64 {
        if self.height > 0 {
            self.height
        } else {
            0
        }
    }

    proof fn lemma_width_empty(&self) {
    }

    proof fn lemma_width_prefix(&self, s: Seq<u8>, t: Seq<u8>) {
        lemma_ctw_prefix(keys_view(self.keys@), self.widths@, s, t, 0);
        lemma_ctw_nonneg(keys_view(self.keys@), self.widths@, s, 0);
    }

    proof fn lemma_metrics_nonneg(&self) {
    }

    fn advance_width(&self, s: &[u8], from: usize, to: usize) -> (w: i64) {
        let ghost kv = keys_view(self.keys@);
        let ghost ws = self.widths@;
        let ghost sub = s@.subrange(from as int, to as int);
        let mut acc: i64 = 0;
        let mut i: usize = from;
        while i < to
            invariant
                from <= i <= to <= s@.len(),
                0 <= acc,
                kv == keys_view(self.keys@),
                ws == self.widths@,
                sub == s@.subrange(from as int, to as int),
                char_table_width(kv, ws, sub, 0) == spec_sat_add(
                    acc,
                    char_table_width(kv, ws, sub, i - from),
                ),
            decreases to - i,
        {
            let ghost k = i - from;
            let l = check_char_at(s, from, to, i);
            if l == 0 {
                proof {
                    assert(char_table_width(kv, ws, sub, k) == char_table_width(kv, ws, sub, k + 1));
                }
                i = i + 1;
            } else {
                let kw = key_lookup(&self.keys, &self.widths, s, i, l);
                proof {
                    assert(valid_char_at(sub, k));
                    assert(char_len(sub[k]) == l);
                    assert(sub.subrange(k, k + l) =~= s@.subrange(i as int, i + l));
                    assert(char_table_width(kv, ws, sub, k) == spec_sat_add(
                        kw,
                        char_table_width(kv, ws, sub, k + l),
                    ));
                    lemma_ctw_nonneg(kv, ws, sub, k + l);
                    lemma_sat_add_assoc(acc, kw, char_table_width(kv, ws, sub, k + l));
                }
                acc = sat_add(acc, kw);
                i = i + l;
            }
        }
        proof {
            assert(char_table_width(kv, ws, sub, i - from) == 0);
        }
        acc
    }

    fn ascent(&self) -> (r: i64) {
        if self.ascent > 0 {
            self.ascent
        } else {
            0
        }
    }

    fn height(&self) -> (r: i64) {
        if self.height > 0 {
            self.height
        } else {
            0
        }
    }
}

} // verus!
