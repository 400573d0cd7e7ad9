//! The scoring policy and the mathematical model of the score recurrence.

use vstd::prelude::*;
use crate::models::Arrow;

verus! {

/// Score for aligning symbol `a` against symbol `b`: +1 for a match,
/// -1 for a mismatch.
pub open spec fn match_score(a: char, b: char) -> int {
    if a == b {
        1
    } else {
        -1
    }
}

/// The largest of three values.
pub open spec fn max3(a: int, b: int, c: int) -> int {
    if a >= b && a >= c {
        a
    } else if b >= c {
        b
    } else {
        c
    }
}

/// The Needleman-Wunsch score of cell `(i, j)`: the best score of a
/// global alignment of the first `i` symbols of `top` against the first
/// `j` symbols of `side`, with match +1, mismatch -1, and a fixed gap
/// penalty of -1 per horizontal or vertical move.
pub open spec fn nw_score(top: Seq<char>, side: Seq<char>, i: nat, j: nat) -> int
    decreases i + j,
{
    if i == 0 {
        -(j as int)
    } else if j == 0 {
        -(i as int)
    } else {
        max3(
            nw_score(top, side, (i - 1) as nat, (j - 1) as nat) + match_score(
                top[i - 1],
                side[j - 1],
            ),
            nw_score(top, side, i, (j - 1) as nat) - 1,
            nw_score(top, side, (i - 1) as nat, j) - 1,
        )
    }
}

/// The traceback directions recorded at an interior cell whose three
/// predecessors hold the given final scores (`diag` upper-left, `left`
/// left, `up` upper): every direction whose raw neighbour score equals
/// the largest of the three, in the fixed order Diagonal, Horizontal,
/// Vertical.
pub open spec fn arrow_list(diag: int, left: int, up: int) -> Seq<Arrow> {
    let best = max3(diag, left, up);
    (if diag == best {
        seq![Arrow::Diagonal]
    } else {
        Seq::<Arrow>::empty()
    }) + (if left == best {
        seq![Arrow::Horizontal]
    } else {
        Seq::<Arrow>::empty()
    }) + (if up == best {
        seq![Arrow::Vertical]
    } else {
        Seq::<Arrow>::empty()
    })
}

/// Every cell's score lies between `-(i + j)` (all gaps) and
/// `min(i, j)` (no alignment can beat a full run of matches).
pub proof fn lemma_score_bounds(top: Seq<char>, side: Seq<char>, i: nat, j: nat)
    ensures
        -(i + j) <= nw_score(top, side, i, j),
        nw_score(top, side, i, j) <= if i <= j {
            i as int
        } else {
            j as int
        },
    decreases i + j,
{
    if i == 0 || j == 0 {
    } else {
        lemma_score_bounds(top, side, (i - 1) as nat, (j - 1) as nat);
        lemma_score_bounds(top, side, i, (j - 1) as nat);
        lemma_score_bounds(top, side, (i - 1) as nat, j);
    }
}

} // verus!
