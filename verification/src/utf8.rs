//! UTF-8 structure over raw bytes.
//!
//! Text is held as a byte sequence, and every offset into it is a byte
//! offset, so the engine needs a byte-level account of UTF-8: which byte
//! sequences are well formed, and which offsets fall on character
//! boundaries. Validity follows RFC 3629: one- to four-byte sequences,
//! no overlong forms, no surrogates, nothing above U+10FFFF.

use vstd::prelude::*;

verus! {

/// A continuation byte (`10xxxxxx`).
pub open spec fn is_cont(b: u8) -> bool {
    0x80 <= b < 0xC0
}

/// Number of bytes in the character that `b` leads; 0 when `b` cannot
/// lead a character (a continuation byte, an overlong lead, or a lead
/// beyond U+10FFFF).
pub open spec fn char_len(b: u8) -> int {
    if b < 0x80 {
        1
    } else if 0xC2 <= b < 0xE0 {
        2
    } else if 0xE0 <= b < 0xF0 {
        3
    } else if 0xF0 <= b < 0xF5 {
        4
    } else {
        0
    }
}

/// Admissible range of the second byte, given the lead. Four leads
/// restrict it beyond a plain continuation byte: `E0` and `F0` to rule
/// out overlong forms, `ED` to rule out surrogates, `F4` to stay at or
/// below U+10FFFF.
pub open spec fn second_ok(lead: u8, b: u8) -> bool {
    if lead == 0xE0 {
        0xA0 <= b < 0xC0
    } else if lead == 0xED {
        0x80 <= b < 0xA0
    } else if lead == 0xF0 {
        0x90 <= b < 0xC0
    } else if lead == 0xF4 {
        0x80 <= b < 0x90
    } else {
        is_cont(b)
    }
}

/// A well-formed character starts at offset `i` of `s`.
pub open spec fn valid_char_at(s: Seq<u8>, i: int) -> bool {
    let l = char_len(s[i]);
    &&& 0 <= i < s.len()
    &&& l >= 1
    &&& i + l <= s.len()
    &&& (l >= 2 ==> second_ok(s[i], s[i + 1]))
    &&& (l >= 3 ==> is_cont(s[i + 2]))
    &&& (l == 4 ==> is_cont(s[i + 3]))
}

/// The bytes of `s` from offset `i` to the end are a well-formed sequence
/// of characters.
pub open spec fn is_utf8_from(s: Seq<u8>, i: int) -> bool
    decreases s.len() - i when 0 <= i <= s.len()
{
    if i >= s.len() {
        true
    } else {
        let l = char_len(s[i]);
        if l < 1 {
            false
        } else {
            valid_char_at(s, i) && is_utf8_from(s, i + l)
        }
    }
}

/// `s` is well-formed UTF-8.
pub open spec fn is_utf8(s: Seq<u8>) -> bool {
    is_utf8_from(s, 0)
}

/// Offset `i` of `s` is a character boundary: the end of the text, or a
/// byte that is not a continuation byte.
pub open spec fn is_char_boundary(s: Seq<u8>, i: int) -> bool {
    i == s.len() || (0 <= i < s.len() && !is_cont(s[i]))
}

/// In well-formed text, the byte at a character start is never a
/// continuation byte, so every character start is a boundary.
pub proof fn lemma_char_start_not_cont(s: Seq<u8>, i: int)
    requires
        is_utf8_from(s, i),
        0 <= i <= s.len(),
    ensures
        is_char_boundary(s, i),
{
    if i < s.len() {
        assert(char_len(s[i]) >= 1);
        assert(!is_cont(s[i]));
    }
}

/// Stepping character by character from a well-formed suffix reaches
/// every character boundary at or beyond its start.
pub proof fn lemma_boundary_reachable(s: Seq<u8>, i: int, j: int)
    requires
        is_utf8_from(s, i),
        0 <= i <= j <= s.len(),
        is_char_boundary(s, j),
    ensures
        is_utf8_from(s, j),
    decreases j - i,
{
    if i < j {
        let l = char_len(s[i]);
        assert(valid_char_at(s, i));
        if j < i + l {
            assert(is_cont(s[j]));
            assert(false);
        }
        lemma_boundary_reachable(s, i + l, j);
    }
}

/// A subrange of well-formed text between two character boundaries is
/// itself well-formed.
pub proof fn lemma_subrange_utf8(s: Seq<u8>, a: int, b: int)
    requires
        is_utf8(s),
        0 <= a <= b <= s.len(),
        is_char_boundary(s, a),
        is_char_boundary(s, b),
    ensures
        is_utf8(s.subrange(a, b)),
{
    lemma_boundary_reachable(s, 0, a);
    lemma_subrange_utf8_from(s, a, b, a);
}

proof fn lemma_subrange_utf8_from(s: Seq<u8>, a: int, b: int, i: int)
    requires
        0 <= a <= i <= b <= s.len(),
        is_utf8_from(s, i),
        is_char_boundary(s, b),
    ensures
        is_utf8_from(s.subrange(a, b), i - a),
    decreases b - i,
{
    let sub = s.subrange(a, b);
    if i == b {
        assert(i - a == sub.len());
    } else {
        let l = char_len(s[i]);
        assert(valid_char_at(s, i));
        if b < i + l {
            assert(is_cont(s[b]));
            assert(false);
        }
        assert(i + l <= b);
        assert(valid_char_at(sub, i - a)) by {
            assert(sub[i - a] == s[i]);
            assert(l >= 2 ==> sub[i - a + 1] == s[i + 1]);
            assert(l >= 3 ==> sub[i - a + 2] == s[i + 2]);
            assert(l == 4 ==> sub[i - a + 3] == s[i + 3]);
        }
        lemma_subrange_utf8_from(s, a, b, i + l);
    }
}

/// In well-formed text, the offset after an ASCII byte that sits on a
/// boundary is again a boundary.
pub proof fn lemma_ascii_next_boundary(s: Seq<u8>, i: int)
    requires
        is_utf8(s),
        0 <= i < s.len(),
        is_char_boundary(s, i),
        s[i] < 0x80,
    ensures
        is_char_boundary(s, i + 1),
{
    lemma_boundary_reachable(s, 0, i);
    assert(char_len(s[i]) == 1);
    lemma_char_start_not_cont(s, i + 1);
}

/// Check the character starting at absolute offset `i` of the window
/// `s[from..to]`: its byte length when well formed within that window,
/// 0 otherwise.
pub fn check_char_at(s: &[u8], from: usize, to: usize, i: usize) -> (l: usize)
    requires
        from <= i < to <= s@.len(),
    ensures
        ({
            let sub = s@.subrange(from as int, to as int);
            let k = i - from;
            &&& (l >= 1 ==> valid_char_at(sub, k as int) && l == char_len(sub[k as int]))
            &&& (l == 0 ==> !valid_char_at(sub, k as int))
            &&& l <= to - i
        }),
{
    let ghost sub = s@.subrange(from as int, to as int);
    let b: u8 = s[i];
    let l: usize = if b < 0x80 {
        1
    } else if 0xC2 <= b && b < 0xE0 {
        2
    } else if 0xE0 <= b && b < 0xF0 {
        3
    } else if 0xF0 <= b && b < 0xF5 {
        4
    } else {
        0
    };
    proof {
        assert(sub[i - from] == s@[i as int]);
    }
    if l == 0 || to - i < l {
        return 0;
    }
    if l >= 2 {
        let lead: u8 = b;
        let b2: u8 = s[i + 1];
        let ok2 = if lead == 0xE0 {
            0xA0 <= b2 && b2 < 0xC0
        } else if lead == 0xED {
            0x80 <= b2 && b2 < 0xA0
        } else if lead == 0xF0 {
            0x90 <= b2 && b2 < 0xC0
        } else if lead == 0xF4 {
            0x80 <= b2 && b2 < 0x90
        } else {
            0x80 <= b2 && b2 < 0xC0
        };
        if !ok2 {
            proof {
                assert(sub[i - from + 1] == s@[i + 1]);
            }
            return 0;
        }
    }
    if l >= 3 && !(0x80 <= s[i + 2] && s[i + 2] < 0xC0) {
        proof {
            assert(sub[i - from + 2] == s@[i + 2]);
        }
        return 0;
    }
    if l == 4 && !(0x80 <= s[i + 3] && s[i + 3] < 0xC0) {
        proof {
            assert(sub[i - from + 3] == s@[i + 3]);
        }
        return 0;
    }
    proof {
        let k = i - from;
        assert(sub[k as int] == s@[i as int]);
        assert(l >= 2 ==> sub[k + 1] == s@[i + 1]);
        assert(l >= 3 ==> sub[k + 2] == s@[i + 2]);
        assert(l == 4 ==> sub[k + 3] == s@[i + 3]);
        assert(valid_char_at(sub, k as int));
    }
    l
}

/// Check whether `s` is well-formed UTF-8.
pub fn validate_utf8(s: &[u8]) -> (r: bool)
    ensures
        r == is_utf8(s@),
{
    let n: usize = s.len();
    proof {
        assert(s@.subrange(0, n as int) =~= s@);
    }
    let mut i: usize = 0;
    loop
        invariant
            0 <= i <= n,
            n == s@.len(),
            s@.subrange(0, n as int) == s@,
            is_utf8(s@) <==> is_utf8_from(s@, i as int),
        ensures
            i == n,
            is_utf8(s@) <==> is_utf8_from(s@, i as int),
        decreases n - i,
    {
        if i >= n {
            break;
        }
        let l = check_char_at(s, 0, n, i);
        if l == 0 {
            return false;
        }
        i = i + l;
    }
    true
}

} // verus!
