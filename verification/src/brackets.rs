//! Loop boundaries: which `]` closes a `[`, and which `[` opens a `]`.

use crate::error::BFError;
use vstd::prelude::*;
use vstd::string::*;

verus! {

/// What an instruction adds to the nesting depth.
pub open spec fn bracket_weight(c: char) -> int {
    if c == '[' {
        1
    } else if c == ']' {
        -1
    } else {
        0
    }
}

/// The net nesting depth of the instructions at positions `lo` to `hi`, both
/// included: loop starts minus loop ends.
pub open spec fn depth_over(p: Seq<char>, lo: int, hi: int) -> int
    decreases hi - lo + 1,
{
    if hi < lo {
        0
    } else {
        depth_over(p, lo, hi - 1) + bracket_weight(p[hi])
    }
}

/// `j` is the first position at or after `start` where the depth counted
/// from `start` is back at zero.
pub open spec fn closes_forward(p: Seq<char>, start: int, j: int) -> bool {
    &&& 0 <= start <= j < p.len()
    &&& depth_over(p, start, j) == 0
    &&& forall|k: int| start <= k < j ==> #[trigger] depth_over(p, start, k) != 0
}

/// `j` is the last position at or before `start` where the depth counted
/// backwards from `start` is back at zero.
pub open spec fn closes_backward(p: Seq<char>, start: int, j: int) -> bool {
    &&& 0 <= j <= start < p.len()
    &&& depth_over(p, j, start) == 0
    &&& forall|k: int| j < k <= start ==> #[trigger] depth_over(p, k, start) != 0
}

/// Where a scan from `index` stops: forwards for direction 1, backwards
/// otherwise. `None` when the scan leaves the program first.
pub open spec fn bracket_match(p: Seq<char>, index: int, direction: int) -> Option<int> {
    if direction == 1 {
        if exists|j: int| closes_forward(p, index, j) {
            Some(choose|j: int| closes_forward(p, index, j))
        } else {
            None
        }
    } else {
        if exists|j: int| closes_backward(p, index, j) {
            Some(choose|j: int| closes_backward(p, index, j))
        } else {
            None
        }
    }
}

/// The depth over a range is the first instruction's weight plus the depth
/// over the rest.
pub proof fn lemma_depth_split_first(p: Seq<char>, lo: int, hi: int)
    requires
        lo <= hi,
    ensures
        depth_over(p, lo, hi) == bracket_weight(p[lo]) + depth_over(p, lo + 1, hi),
    decreases hi - lo,
{
    if lo < hi {
        lemma_depth_split_first(p, lo, hi - 1);
    } else {
        assert(depth_over(p, lo, lo - 1) == 0);
        assert(depth_over(p, lo + 1, lo) == 0);
    }
}

/// At most one position closes a forward scan.
pub proof fn lemma_forward_unique(p: Seq<char>, start: int, j: int)
    requires
        closes_forward(p, start, j),
    ensures
        bracket_match(p, start, 1) == Some(j),
{
    let c = choose|c: int| closes_forward(p, start, c);
    if c < j {
        assert(depth_over(p, start, c) != 0);
    } else if j < c {
        assert(depth_over(p, start, j) != 0);
    }
}

/// At most one position closes a backward scan.
pub proof fn lemma_backward_unique(p: Seq<char>, start: int, j: int)
    requires
        closes_backward(p, start, j),
    ensures
        bracket_match(p, start, -1) == Some(j),
{
    let c = choose|c: int| closes_backward(p, start, c);
    if c < j {
        assert(depth_over(p, j, start) != 0);
    } else if j < c {
        assert(depth_over(p, c, start) != 0);
    }
}

/// Scans from `index` in the given direction, counting a loop start as one
/// level up and a loop end as one level down, the instruction at `index`
/// included, and stops where the count is back at zero.
pub fn equalize_brackets(string: &str, index: usize, direction: isize) -> (r: Result<
    usize,
    BFError,
>)
    requires
        direction == 1 || direction == -1,
    ensures
        match r {
            Ok(j) => bracket_match(string@, index as int, direction as int) == Some(j as int),
            Err(e) => e == BFError::UnbalancedBrackets && bracket_match(
                string@,
                index as int,
                direction as int,
            ) is None,
        },
        match r {
            Ok(j) => if direction == 1 {
                closes_forward(string@, index as int, j as int)
            } else {
                closes_backward(string@, index as int, j as int)
            },
            Err(_) => if direction == 1 {
                forall|j: int| !closes_forward(string@, index as int, j)
            } else {
                forall|j: int| !closes_backward(string@, index as int, j)
            },
        },
{
    let len: usize = string.unicode_len();
    if index >= len {
        assert(forall|j: int| !closes_forward(string@, index as int, j));
        assert(forall|j: int| !closes_backward(string@, index as int, j));
        return Err(BFError::UnbalancedBrackets);
    }
    let mut depth: i128 = 0;
    let mut i: usize = index;
    if direction == 1 {
        loop
            invariant
                len == string@.len(),
                direction == 1,
                index <= i < len,
                depth == depth_over(string@, index as int, i - 1),
                -(i - index) <= depth <= i - index,
                forall|k: int|
                    index <= k < i ==> #[trigger] depth_over(string@, index as int, k) != 0,
            decreases len - i,
        {
            let c = string.get_char(i);
            if c == '[' {
                depth = depth + 1;
            } else if c == ']' {
                depth = depth - 1;
            }
            assert(depth == depth_over(string@, index as int, i as int));
            if depth == 0 {
                proof {
                    lemma_forward_unique(string@, index as int, i as int);
                }
                return Ok(i);
            }
            if i + 1 == len {
                assert forall|j: int| !closes_forward(string@, index as int, j) by {
                    if index <= j < len {
                        assert(depth_over(string@, index as int, j) != 0);
                    }
                }
                return Err(BFError::UnbalancedBrackets);
            }
            i = i + 1;
        }
    } else {
        loop
            invariant
                len == string@.len(),
                direction == -1,
                0 <= i <= index < len,
                depth == depth_over(string@, i + 1, index as int),
                -(index - i) <= depth <= index - i,
                forall|k: int|
                    i < k <= index ==> #[trigger] depth_over(string@, k, index as int) != 0,
            decreases i,
        {
            let c = string.get_char(i);
            proof {
                lemma_depth_split_first(string@, i as int, index as int);
            }
            if c == '[' {
                depth = depth + 1;
            } else if c == ']' {
                depth = depth - 1;
            }
            assert(depth == depth_over(string@, i as int, index as int));
            if depth == 0 {
                proof {
                    lemma_backward_unique(string@, index as int, i as int);
                }
                return Ok(i);
            }
            if i == 0 {
                assert forall|j: int| !closes_backward(string@, index as int, j) by {
                    if 0 <= j <= index {
                        assert(depth_over(string@, j, index as int) != 0);
                    }
                }
                return Err(BFError::UnbalancedBrackets);
            }
            i = i - 1;
        }
    }
}

/// A well-bracketed program: no prefix closes more loops than it has
/// opened, and the whole program closes as many as it opens.
pub open spec fn balanced(p: Seq<char>) -> bool {
    &&& depth_over(p, 0, p.len() - 1) == 0
    &&& forall|k: int| 0 <= k < p.len() ==> #[trigger] depth_over(p, 0, k) >= 0
}

/// The depth over a range is the sum of the depths over its two parts.
pub proof fn lemma_depth_additive(p: Seq<char>, lo: int, mid: int, hi: int)
    requires
        lo - 1 <= mid <= hi,
    ensures
        depth_over(p, lo, hi) == depth_over(p, lo, mid) + depth_over(p, mid + 1, hi),
    decreases hi - mid,
{
    if mid < hi {
        lemma_depth_additive(p, lo, mid, hi - 1);
    }
}

/// A depth that starts at or above zero and ends at or below zero is zero
/// somewhere on the way, since one instruction changes it by one at most.
proof fn lemma_crossing_forward(p: Seq<char>, start: int, hi: int)
    requires
        start <= hi,
        depth_over(p, start, start) >= 0,
        depth_over(p, start, hi) <= 0,
    ensures
        exists|k: int| start <= k <= hi && #[trigger] depth_over(p, start, k) == 0,
    decreases hi - start,
{
    if depth_over(p, start, hi) != 0 {
        lemma_crossing_forward(p, start, hi - 1);
    }
}

/// Where the depth counted from `start` is zero at `hi`, a forward scan
/// from `start` stops, at `hi` or before.
proof fn lemma_first_zero_forward(p: Seq<char>, start: int, hi: int)
    requires
        0 <= start <= hi < p.len(),
        depth_over(p, start, hi) == 0,
    ensures
        exists|j: int| closes_forward(p, start, j),
    decreases hi - start,
{
    if exists|k: int| start <= k < hi && #[trigger] depth_over(p, start, k) == 0 {
        let k = choose|k: int| start <= k < hi && #[trigger] depth_over(p, start, k) == 0;
        lemma_first_zero_forward(p, start, k);
    } else {
        assert(closes_forward(p, start, hi));
    }
}

/// The mirror image of `lemma_crossing_forward`, for a range that grows to
/// the left.
proof fn lemma_crossing_backward(p: Seq<char>, lo: int, start: int)
    requires
        lo <= start,
        depth_over(p, start, start) <= 0,
        depth_over(p, lo, start) >= 0,
    ensures
        exists|k: int| lo <= k <= start && #[trigger] depth_over(p, k, start) == 0,
    decreases start - lo,
{
    if depth_over(p, lo, start) != 0 {
        lemma_depth_split_first(p, lo, start);
        lemma_crossing_backward(p, lo + 1, start);
    }
}

/// Where the depth counted backwards from `start` is zero at `lo`, a
/// backward scan from `start` stops, at `lo` or after.
proof fn lemma_first_zero_backward(p: Seq<char>, lo: int, start: int)
    requires
        0 <= lo <= start < p.len(),
        depth_over(p, lo, start) == 0,
    ensures
        exists|j: int| closes_backward(p, start, j),
    decreases start - lo,
{
    if exists|k: int| lo < k <= start && #[trigger] depth_over(p, k, start) == 0 {
        let k = choose|k: int| lo < k <= start && #[trigger] depth_over(p, k, start) == 0;
        lemma_first_zero_backward(p, k, start);
    } else {
        assert(closes_backward(p, start, lo));
    }
}

/// In a well-bracketed program every scan that an instruction can ask for
/// stops inside the program: forwards from anything but a loop end, and
/// backwards from anything but a loop start.
pub proof fn lemma_balanced_scans_stop(p: Seq<char>, i: int)
    requires
        balanced(p),
        0 <= i < p.len(),
    ensures
        p[i] != ']' ==> bracket_match(p, i, 1) is Some,
        p[i] != '[' ==> bracket_match(p, i, -1) is Some,
{
    assert(depth_over(p, i, i - 1) == 0);
    assert(depth_over(p, i, i) == bracket_weight(p[i]));
    if p[i] != ']' {
        lemma_depth_additive(p, 0, i - 1, p.len() - 1);
        if i > 0 {
            assert(depth_over(p, 0, i - 1) >= 0);
        }
        lemma_crossing_forward(p, i, p.len() - 1);
        let k = choose|k: int| i <= k <= p.len() - 1 && #[trigger] depth_over(p, i, k) == 0;
        lemma_first_zero_forward(p, i, k);
    }
    if p[i] != '[' {
        assert(depth_over(p, 0, i) >= 0);
        lemma_crossing_backward(p, 0, i);
        let k = choose|k: int| 0 <= k <= i && #[trigger] depth_over(p, k, i) == 0;
        lemma_first_zero_backward(p, k, i);
    }
}

/// A bracket whose scan leaves the program: a loop start that nothing
/// closes, or a loop end that nothing opens.
pub open spec fn unmatched(p: Seq<char>, i: int) -> bool {
    ||| p[i] == '[' && bracket_match(p, i, 1) is None
    ||| p[i] == ']' && bracket_match(p, i, -1) is None
}

/// Where some prefix closes more loops than it has opened, a shortest
/// such prefix exists.
proof fn lemma_least_negative(p: Seq<char>, hi: int)
    requires
        0 <= hi < p.len(),
        depth_over(p, 0, hi) < 0,
    ensures
        exists|k: int|
            0 <= k <= hi && #[trigger] depth_over(p, 0, k) < 0 && forall|j: int|
                0 <= j < k ==> #[trigger] depth_over(p, 0, j) >= 0,
    decreases hi,
{
    if exists|j: int| 0 <= j < hi && #[trigger] depth_over(p, 0, j) < 0 {
        let j = choose|j: int| 0 <= j < hi && #[trigger] depth_over(p, 0, j) < 0;
        lemma_least_negative(p, j);
    }
}

/// Where the program ends `level` loops deep and no prefix from `i` on is
/// shallower, some loop start at or before `i` is never closed.
proof fn lemma_open_unmatched(p: Seq<char>, level: int, i: int)
    requires
        0 <= i < p.len(),
        level > 0,
        forall|k: int| i <= k < p.len() ==> #[trigger] depth_over(p, 0, k) >= level,
    ensures
        exists|j: int| 0 <= j < p.len() && unmatched(p, j),
    decreases i,
{
    if depth_over(p, 0, i - 1) < level {
        assert(depth_over(p, 0, i) >= level);
        assert(p[i] == '[');
        assert forall|j: int| !closes_forward(p, i, j) by {
            if i <= j < p.len() {
                lemma_depth_additive(p, 0, i - 1, j);
                assert(depth_over(p, 0, j) >= level);
            }
        }
        assert(unmatched(p, i));
    } else {
        assert(i > 0) by {
            assert(depth_over(p, 0, -1) == 0);
        }
        lemma_open_unmatched(p, level, i - 1);
    }
}

/// A program that is not well-bracketed has a bracket without a partner.
/// With `lemma_balanced_scans_stop`: a program is well-bracketed exactly
/// when every bracket of it has one.
pub proof fn lemma_unbalanced_has_unmatched(p: Seq<char>)
    requires
        !balanced(p),
    ensures
        exists|i: int| 0 <= i < p.len() && unmatched(p, i),
{
    if exists|k: int| 0 <= k < p.len() && #[trigger] depth_over(p, 0, k) < 0 {
        let hi = choose|k: int| 0 <= k < p.len() && #[trigger] depth_over(p, 0, k) < 0;
        lemma_least_negative(p, hi);
        let k = choose|k: int|
            0 <= k <= hi && #[trigger] depth_over(p, 0, k) < 0 && forall|j: int|
                0 <= j < k ==> #[trigger] depth_over(p, 0, j) >= 0;
        assert(depth_over(p, 0, -1) == 0);
        if k > 0 {
            assert(depth_over(p, 0, k - 1) >= 0);
        }
        assert(p[k] == ']');
        assert forall|j: int| !closes_backward(p, k, j) by {
            if 0 <= j <= k {
                lemma_depth_additive(p, 0, j - 1, k);
                if j > 0 {
                    assert(depth_over(p, 0, j - 1) >= 0);
                }
            }
        }
        assert(unmatched(p, k));
    } else {
        let last = p.len() - 1;
        assert(depth_over(p, 0, -1) == 0);
        assert(last >= 0);
        assert(depth_over(p, 0, last) >= 0);
        lemma_open_unmatched(p, depth_over(p, 0, last), last);
    }
}

} // verus!
