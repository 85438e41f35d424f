use vstd::prelude::*;
use vstd::string::StringSliceAdditionalSpecFns;
use crate::text::{lossy_text, utf8_lossy};

verus! {

/// Whether glob pattern `p` from index `i` matches text `t` from index `j`:
/// `*` matches any run of bytes, `?` any single byte, every other byte itself.
pub open spec fn glob_from(p: Seq<u8>, t: Seq<u8>, i: int, j: int) -> bool
    decreases p.len() - i, t.len() - j,
{
    if i < 0 || j < 0 || i >= p.len() {
        i >= p.len() && j == t.len()
    } else if p[i] == 0x2au8 {
        glob_from(p, t, i + 1, j) || (j < t.len() && glob_from(p, t, i, j + 1))
    } else if j >= t.len() {
        false
    } else if p[i] == 0x3fu8 || p[i] == t[j] {
        glob_from(p, t, i + 1, j + 1)
    } else {
        false
    }
}

/// Whether glob pattern `p` matches all of text `t`.
pub open spec fn glob_matches(p: Seq<u8>, t: Seq<u8>) -> bool {
    glob_from(p, t, 0, 0)
}

/// `p[a..a+n]` holds no `*` and matches `t[b..b+n]` byte for byte.
pub open spec fn segment_matches(p: Seq<u8>, t: Seq<u8>, a: int, b: int, n: int) -> bool {
    &&& 0 <= a && a + n <= p.len()
    &&& 0 <= b && b + n <= t.len()
    &&& forall|d: int|
        0 <= d < n ==> #[trigger] p[a + d] != 0x2au8 && (p[a + d] == 0x3fu8 || p[a + d] == t[b + d])
}

/// A star at `i` matches from `j` exactly when the rest matches from some `k >= j`.
proof fn lemma_star_unfold(p: Seq<u8>, t: Seq<u8>, i: int, j: int)
    requires
        0 <= i < p.len(),
        p[i] == 0x2au8,
        0 <= j <= t.len(),
    ensures
        glob_from(p, t, i, j) <==> exists|k: int| j <= k <= t.len() && #[trigger] glob_from(p, t, i + 1, k),
    decreases t.len() - j,
{
    if j < t.len() {
        lemma_star_unfold(p, t, i, j + 1);
    }
    if glob_from(p, t, i + 1, j) {
        assert(j <= j <= t.len());
    }
}

/// A star at `i` that matches from `k` also matches from any earlier `j`.
proof fn lemma_star_earlier(p: Seq<u8>, t: Seq<u8>, i: int, j: int, k: int)
    requires
        0 <= i < p.len(),
        p[i] == 0x2au8,
        0 <= j <= k <= t.len(),
        glob_from(p, t, i, k),
    ensures
        glob_from(p, t, i, j),
{
    lemma_star_unfold(p, t, i, j);
    lemma_star_unfold(p, t, i, k);
    let m = choose|m: int| k <= m <= t.len() && #[trigger] glob_from(p, t, i + 1, m);
    assert(j <= m <= t.len() && glob_from(p, t, i + 1, m));
}

/// Walking a byte-for-byte matching segment does not change the outcome.
proof fn lemma_segment(p: Seq<u8>, t: Seq<u8>, a: int, b: int, n: int)
    requires
        0 <= n,
        segment_matches(p, t, a, b, n),
    ensures
        glob_from(p, t, a, b) == glob_from(p, t, a + n, b + n),
    decreases n,
{
    if n > 0 {
        assert(p[a + 0] != 0x2au8);
        assert(segment_matches(p, t, a + 1, b + 1, n - 1)) by {
            assert forall|d: int| 0 <= d < n - 1 implies #[trigger] p[a + 1 + d] != 0x2au8 && (p[a + 1
                + d] == 0x3fu8 || p[a + 1 + d] == t[b + 1 + d]) by {
                assert(p[a + (d + 1)] != 0x2au8);
            }
        }
        lemma_segment(p, t, a + 1, b + 1, n - 1);
    }
}

/// A star-free segment of length `n` consumes exactly `n` bytes of text.
proof fn lemma_segment_consumes(p: Seq<u8>, t: Seq<u8>, a: int, b: int, n: int)
    requires
        0 <= n,
        0 <= a,
        a + n <= p.len(),
        0 <= b <= t.len(),
        forall|d: int| 0 <= d < n ==> #[trigger] p[a + d] != 0x2au8,
        glob_from(p, t, a, b),
    ensures
        b + n <= t.len(),
        glob_from(p, t, a + n, b + n),
    decreases n,
{
    if n > 0 {
        assert(p[a + 0] != 0x2au8);
        assert forall|d: int| 0 <= d < n - 1 implies #[trigger] p[a + 1 + d] != 0x2au8 by {
            assert(p[a + (d + 1)] != 0x2au8);
        }
        lemma_segment_consumes(p, t, a + 1, b + 1, n - 1);
    }
}

/// Simple glob pattern matching (`*` and `?` support), over the bytes of both
/// strings.
pub fn glob_match(pattern: &str, text: &str) -> (r: bool)
    ensures
        r == glob_matches(pattern.spec_bytes(), text.spec_bytes()),
{
    let pattern_bytes = pattern.as_bytes();
    let text_bytes = text.as_bytes();
    let ghost p = pattern_bytes@;
    let ghost t = text_bytes@;
    let mut p_idx: usize = 0;
    let mut t_idx: usize = 0;
    let mut star_idx: Option<usize> = None;
    let mut star_match: usize = 0;
    while t_idx < text_bytes.len()
        invariant
            p == pattern_bytes@,
            t == text_bytes@,
            p == pattern.spec_bytes(),
            t == text.spec_bytes(),
            p_idx <= p.len(),
            t_idx <= t.len(),
            match star_idx {
                None => glob_matches(p, t) == glob_from(p, t, p_idx as int, t_idx as int),
                Some(s) => {
                    &&& s < p_idx
                    &&& p[s as int] == 0x2au8
                    &&& star_match <= t_idx
                    &&& t_idx - star_match == p_idx - s - 1
                    &&& segment_matches(p, t, s + 1, star_match as int, p_idx - s - 1)
                    &&& glob_matches(p, t) == glob_from(p, t, s as int, star_match as int)
                },
            },
        decreases
            if star_idx is None { t.len() + 1int } else { t.len() - star_match },
            t.len() - t_idx,
            p.len() - p_idx,
    {
        let advance = p_idx < pattern_bytes.len() && pattern_bytes[p_idx] != 0x2au8 && (
        pattern_bytes[p_idx] == 0x3fu8 || pattern_bytes[p_idx] == text_bytes[t_idx]);
        if p_idx < pattern_bytes.len() && pattern_bytes[p_idx] == 0x2au8 {
            proof {
                if let Some(s) = star_idx {
                    let n = p_idx - s - 1;
                    lemma_star_unfold(p, t, s as int, star_match as int);
                    lemma_segment(p, t, s + 1, star_match as int, n);
                    if glob_from(p, t, s as int, star_match as int) {
                        let k = choose|k: int| star_match <= k <= t.len() && #[trigger] glob_from(p, t, s + 1, k);
                        lemma_segment_consumes(p, t, s + 1, k, n);
                        lemma_star_earlier(p, t, p_idx as int, t_idx as int, k + n);
                    }
                    if glob_from(p, t, p_idx as int, t_idx as int) {
                        assert(glob_from(p, t, s + 1, star_match as int));
                    }
                }
            }
            star_idx = Some(p_idx);
            star_match = t_idx;
            p_idx += 1;
        } else if advance {
            proof {
                if let Some(s) = star_idx {
                    assert(segment_matches(p, t, s + 1, star_match as int, p_idx - s)) by {
                        assert forall|d: int| 0 <= d < p_idx - s implies #[trigger] p[s + 1 + d] != 0x2au8
                            && (p[s + 1 + d] == 0x3fu8 || p[s + 1 + d] == t[star_match + d]) by {
                            if d == p_idx - s - 1 {
                                assert(s + 1 + d == p_idx);
                            }
                        }
                    }
                }
            }
            p_idx += 1;
            t_idx += 1;
        } else {
            match star_idx {
                Some(star) => {
                    proof {
                        let n = p_idx - star - 1;
                        lemma_segment(p, t, star + 1, star_match as int, n);
                        assert(!glob_from(p, t, p_idx as int, t_idx as int));
                    }
                    p_idx = star + 1;
                    star_match = star_match + 1;
                    t_idx = star_match;
                },
                None => {
                    assert(!glob_from(p, t, p_idx as int, t_idx as int));
                    return false;
                },
            }
        }
    }
    proof {
        if let Some(s) = star_idx {
            let n = p_idx - s - 1;
            lemma_star_unfold(p, t, s as int, star_match as int);
            lemma_segment(p, t, s + 1, star_match as int, n);
            if glob_from(p, t, s as int, star_match as int) {
                let k = choose|k: int| star_match <= k <= t.len() && #[trigger] glob_from(p, t, s + 1, k);
                assert forall|d: int| 0 <= d < n implies #[trigger] p[s + 1 + d] != 0x2au8 by {}
                lemma_segment_consumes(p, t, s + 1, k, n);
            }
            if glob_from(p, t, p_idx as int, t_idx as int) {
                assert(glob_from(p, t, s + 1, star_match as int));
            }
        }
    }
    while p_idx < pattern_bytes.len() && pattern_bytes[p_idx] == 0x2au8
        invariant
            p == pattern_bytes@,
            t == text_bytes@,
            t_idx == t.len(),
            p_idx <= p.len(),
            glob_matches(p, t) == glob_from(p, t, p_idx as int, t_idx as int),
        decreases p.len() - p_idx,
    {
        p_idx += 1;
    }
    p_idx == pattern_bytes.len()
}


/// Match a key against a glob pattern; the key is read as UTF-8 text, invalid
/// sequences replaced.
pub fn match_pattern(key: &[u8], pattern: &str) -> (r: bool)
    ensures
        r == glob_matches(pattern.spec_bytes(), vstd::utf8::encode_utf8(lossy_text(key@))),
{
    let key_str = utf8_lossy(key);
    glob_match(pattern, key_str.as_str())
}

/// Whether byte `b` starts a wildcard: `*`, `?` or `[`.
pub open spec fn is_wildcard_byte(b: u8) -> bool {
    b == 0x2au8 || b == 0x3fu8 || b == 0x5bu8
}

/// The index of the first wildcard byte of `p` at or after `i`, or `p.len()`.
pub open spec fn prefix_end(p: Seq<u8>, i: int) -> int
    decreases p.len() - i,
{
    if i < 0 || i >= p.len() {
        p.len() as int
    } else if is_wildcard_byte(p[i]) {
        i
    } else {
        prefix_end(p, i + 1)
    }
}

proof fn lemma_matched_literal(p: Seq<u8>, t: Seq<u8>, i: int, j: int)
    requires
        0 <= i <= j < prefix_end(p, i),
        glob_from(p, t, i, i),
    ensures
        j < t.len(),
        t[j] == p[j],
    decreases j - i,
{
    lemma_prefix_end_bounds(p, i);
    if i < p.len() && !is_wildcard_byte(p[i]) {
        assert(p[i] != 0x2au8 && p[i] != 0x3fu8);
        assert(i < t.len() && p[i] == t[i] && glob_from(p, t, i + 1, i + 1));
        assert(prefix_end(p, i) == prefix_end(p, i + 1));
        if j > i {
            lemma_matched_literal(p, t, i + 1, j);
        }
    }
}

/// A text a glob pattern matches starts with the pattern's literal prefix,
/// the bytes before its first wildcard.
pub proof fn law_match_starts_with_prefix(p: Seq<u8>, t: Seq<u8>)
    requires
        glob_matches(p, t),
    ensures
        p.take(prefix_end(p, 0)).is_prefix_of(t),
{
    lemma_prefix_end_bounds(p, 0);
    let pe = prefix_end(p, 0);
    if pe > 0 {
        lemma_matched_literal(p, t, 0, pe - 1);
    }
    assert forall|j: int| 0 <= j < pe implies t[j] == p[j] by {
        lemma_matched_literal(p, t, 0, j);
    }
    assert(p.take(prefix_end(p, 0)) =~= t.subrange(0, prefix_end(p, 0)));
}

pub(crate) proof fn lemma_prefix_end_bounds(p: Seq<u8>, i: int)
    requires
        0 <= i,
    ensures
        i <= prefix_end(p, i) <= p.len() || (i > p.len() && prefix_end(p, i) == p.len()),
    decreases p.len() - i,
{
    if i < p.len() && !is_wildcard_byte(p[i]) {
        lemma_prefix_end_bounds(p, i + 1);
    }
}

/// Extract prefix from a pattern (everything before the first wildcard).
pub fn extract_prefix(pattern: &str) -> (r: &str)
    ensures
        r.spec_bytes() == pattern.spec_bytes().take(prefix_end(pattern.spec_bytes(), 0)),
{
    let bytes = pattern.as_bytes();
    let ghost b = bytes@;
    let mut i: usize = 0;
    while i < bytes.len() && !(bytes[i] == 0x2au8 || bytes[i] == 0x3fu8 || bytes[i] == 0x5bu8)
        invariant
            b == bytes@,
            i <= b.len(),
            prefix_end(b, 0) == prefix_end(b, i as int),
        decreases b.len() - i,
    {
        i += 1;
    }
    proof {
        vstd::utf8::encode_utf8_valid_utf8(pattern@);
        if i < b.len() {
            vstd::utf8::is_char_boundary_iff_not_is_continuation_byte(b, i as int);
        } else {
            vstd::utf8::is_char_boundary_start_end_of_seq(b);
        }
    }
    let (prefix, _rest) = pattern.split_at(i);
    proof {
        assert(b.subrange(0, i as int) =~= b.take(i as int));
    }
    prefix
}

} // verus!
