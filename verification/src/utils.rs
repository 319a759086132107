//! Bracket matching.

use vstd::prelude::*;

verus! {

/// The bracket that closes `open`; only the four bracket pairs have one.
pub open spec fn closing_bracket(open: char) -> char {
    if open == '(' {
        ')'
    } else if open == '[' {
        ']'
    } else if open == '{' {
        '}'
    } else {
        '>'
    }
}

pub open spec fn is_open_bracket(c: char) -> bool {
    c == '(' || c == '[' || c == '{' || c == '<'
}

/// Nesting depth after the first `n` characters of `s`: each `open` counts
/// up and each `close` counts down.
pub open spec fn nesting_depth(s: Seq<char>, open: char, close: char, n: int) -> int
    decreases n,
{
    if n <= 0 {
        0
    } else {
        let prev = nesting_depth(s, open, close, n - 1);
        if s[n - 1] == open {
            prev + 1
        } else if s[n - 1] == close {
            prev - 1
        } else {
            prev
        }
    }
}

/// Position `k` holds a closing bracket that brings the depth back to zero.
pub open spec fn closes_at(s: Seq<char>, open: char, k: int) -> bool {
    &&& 0 <= k < s.len()
    &&& s[k] == closing_bracket(open)
    &&& nesting_depth(s, open, closing_bracket(open), k + 1) == 0
}

/// The nesting depth stays within `i32` at every character read before
/// the closing bracket is found.
pub open spec fn depth_fits(s: Seq<char>, open: char) -> bool {
    forall|n: int|
        0 <= n <= s.len() && (forall|k: int| 0 <= k < n - 1 ==> !closes_at(s, open, k)) ==> i32::MIN
            <= #[trigger] nesting_depth(s, open, closing_bracket(open), n) <= i32::MAX
}

/// Index of the bracket that closes the first `parrent` of `str`, counting
/// nested pairs of the same kind; `0` when no such bracket exists.
pub fn find_closing_parrent(parrent: char, str: String) -> (res: usize)
    requires
        is_open_bracket(parrent),
        str@.len() <= usize::MAX,
        depth_fits(str@, parrent),
    ensures
        (exists|k: int| closes_at(str@, parrent, k)) ==> {
            &&& closes_at(str@, parrent, res as int)
            &&& forall|k: int| 0 <= k < res ==> !closes_at(str@, parrent, k)
        },
        (forall|k: int| !closes_at(str@, parrent, k)) ==> res == 0,
{
    let opposite_parrent = if parrent == '(' {
        ')'
    } else if parrent == '[' {
        ']'
    } else if parrent == '{' {
        '}'
    } else {
        '>'
    };
    let ghost s = str@;
    let mut i: i32 = 0;
    let mut ind: usize = 0;
    for c in it: str.as_str().chars()
        invariant
            s == str@,
            depth_fits(s, parrent),
            s.len() <= usize::MAX,
            it.seq() == s,
            ind == it.index(),
            is_open_bracket(parrent),
            opposite_parrent == closing_bracket(parrent),
            i == nesting_depth(s, parrent, opposite_parrent, ind as int),
            forall|k: int| 0 <= k < ind ==> !closes_at(s, parrent, k),
    {
        proof {
            assert(c == s[ind as int]);
            assert(i32::MIN <= nesting_depth(s, parrent, opposite_parrent, ind as int + 1) <= i32::MAX);
        }
        if c == parrent {
            i += 1;
        } else if c == opposite_parrent {
            i -= 1;
            if i == 0 {
                assert(closes_at(s, parrent, ind as int));
                return ind;
            }
        }
        assert(i == nesting_depth(s, parrent, opposite_parrent, ind as int + 1));
        assert(!closes_at(s, parrent, ind as int));
        ind += 1;
    }
    0
}

} // verus!
