//! Bracket matching over the program text.
//!
//! A conditional jump resolves its target by scanning the program for the
//! partner of the bracket at the jump's own index.  The scan is specified
//! here through the net nesting depth of a range of the program.

use vstd::prelude::*;

verus! {

/// +1 for `[`, -1 for `]`, 0 for every other character.
pub open spec fn bracket_weight(c: char) -> int {
    if c == '[' {
        1
    } else if c == ']' {
        -1
    } else {
        0
    }
}

/// Net bracket nesting depth of `code[a..b)`.
pub open spec fn depth(code: Seq<char>, a: int, b: int) -> int
    decreases b - a,
{
    if b <= a {
        0
    } else {
        depth(code, a, b - 1) + bracket_weight(code[b - 1])
    }
}

/// `j` would end a forward search that starts at `s`: it holds a `]` past `s`,
/// and the brackets strictly between `s` and `j` cancel out.
pub open spec fn is_forward_match(code: Seq<char>, s: int, j: int) -> bool {
    &&& s < j < code.len()
    &&& code[j] == ']'
    &&& depth(code, s + 1, j) == 0
}

/// `i` would end a backward search that starts at `s`: it holds a `[` before `s`,
/// and the brackets strictly between `i` and `s` cancel out.
pub open spec fn is_backward_match(code: Seq<char>, s: int, i: int) -> bool {
    &&& 0 <= i < s
    &&& code[i] == '['
    &&& depth(code, i + 1, s) == 0
}

/// `j` is the nearest forward match of `s`: the one the scan stops at.
pub open spec fn forward_match_at(code: Seq<char>, s: int, j: int) -> bool {
    &&& is_forward_match(code, s, j)
    &&& forall|k: int| s < k < j ==> !is_forward_match(code, s, k)
}

/// `i` is the nearest backward match of `s`: the one the scan stops at.
pub open spec fn backward_match_at(code: Seq<char>, s: int, i: int) -> bool {
    &&& is_backward_match(code, s, i)
    &&& forall|k: int| i < k < s ==> !is_backward_match(code, s, k)
}

/// Depth adds over adjacent ranges.
pub proof fn lemma_depth_split(code: Seq<char>, a: int, b: int, c: int)
    requires
        a <= b <= c,
    ensures
        depth(code, a, c) == depth(code, a, b) + depth(code, b, c),
    decreases c - b,
{
    if b < c {
        lemma_depth_split(code, a, b, c - 1);
    }
}

/// There is at most one nearest forward match.
pub proof fn lemma_forward_match_unique(code: Seq<char>, s: int, j1: int, j2: int)
    requires
        forward_match_at(code, s, j1),
        forward_match_at(code, s, j2),
    ensures
        j1 == j2,
{
    if j1 < j2 {
        assert(!is_forward_match(code, s, j1));
    } else if j2 < j1 {
        assert(!is_forward_match(code, s, j2));
    }
}

/// There is at most one nearest backward match.
pub proof fn lemma_backward_match_unique(code: Seq<char>, s: int, i1: int, i2: int)
    requires
        backward_match_at(code, s, i1),
        backward_match_at(code, s, i2),
    ensures
        i1 == i2,
{
    if i1 < i2 {
        assert(!is_backward_match(code, s, i2));
    } else if i2 < i1 {
        assert(!is_backward_match(code, s, i1));
    }
}

/// As long as no forward match has appeared, the depth of the scanned range
/// never goes negative.
pub proof fn lemma_depth_nonneg(code: Seq<char>, s: int, m: int)
    requires
        0 <= s,
        s + 1 <= m <= code.len(),
        forall|k: int| s < k < m ==> !is_forward_match(code, s, k),
    ensures
        depth(code, s + 1, m) >= 0,
    decreases m,
{
    if m > s + 1 {
        lemma_depth_nonneg(code, s, m - 1);
        if code[m - 1] == ']' {
            assert(!is_forward_match(code, s, m - 1));
        }
    }
}

/// Bracket pairing is symmetric: when the forward scan from a `[` at `i`
/// stops at the `]` at `j`, the backward scan from `j` stops exactly at `i`.
pub proof fn lemma_bracket_pairing(code: Seq<char>, i: int, j: int)
    requires
        0 <= i,
        code[i] == '[',
        forward_match_at(code, i, j),
    ensures
        backward_match_at(code, j, i),
{
    assert forall|k: int| i < k < j implies !is_backward_match(code, j, k) by {
        if code[k] == '[' {
            lemma_depth_nonneg(code, i, k);
            lemma_depth_split(code, i + 1, k, j);
            lemma_depth_split(code, k, k + 1, j);
            assert(depth(code, k, k + 1) == depth(code, k, k) + bracket_weight(code[k]));
            assert(depth(code, k + 1, j) < 0);
        }
    }
}

} // verus!
