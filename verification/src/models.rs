//! The data the alignment engine works on: traceback directions, grid
//! cells, and pairs of sequences.

use vstd::prelude::*;

verus! {

/// A traceback move from a grid cell to one of its predecessors:
/// `Diagonal` to the upper-left neighbour, `Horizontal` to the left
/// neighbour, `Vertical` to the upper neighbour.
#[derive(Clone, Copy, Debug, PartialEq, Eq, Structural)]
pub enum Arrow {
    Diagonal,
    Horizontal,
    Vertical,
}

/// One cell of the dynamic-programming grid: an alignment score and the
/// directions whose predecessor achieves the best raw neighbour score,
/// kept in the fixed order Diagonal, Horizontal, Vertical.
#[derive(Clone, Debug)]
pub struct Cell {
    pub score: i32,
    pub arrow: Vec<Arrow>,
}

impl Cell {
    /// A fresh cell: score zero, no directions.
    pub fn new() -> (c: Cell)
        ensures
            c.score == 0,
            c.arrow@ == Seq::<Arrow>::empty(),
    {
        Cell { score: 0, arrow: Vec::new() }
    }
}

/// An element-for-element copy of a character vector.
pub fn copy_chars(v: &Vec<char>) -> (r: Vec<char>)
    ensures
        r@ == v@,
{
    let mut r: Vec<char> = Vec::new();
    let mut i: usize = 0;
    while i < v.len()
        invariant
            i <= v@.len(),
            r@ == v@.take(i as int),
        decreases v@.len() - i,
    {
        r.push(v[i]);
        proof {
            assert(r@ =~= v@.take(i + 1));
        }
        i = i + 1;
    }
    proof {
        assert(r@ =~= v@);
    }
    r
}

/// A pair of sequences over an unrestricted alphabet: the one laid out
/// along the grid's rows (`top_sequence`) and the one along its columns
/// (`side_sequence`). The same type carries a finished alignment, where
/// `-` marks a gap.
#[derive(Clone, Debug)]
pub struct SequenceAlignment {
    pub top_sequence: Vec<char>,
    pub side_sequence: Vec<char>,
}

impl SequenceAlignment {
    /// Pairs the two sequences up, unchanged.
    pub fn new(top_sequence: Vec<char>, side_sequence: Vec<char>) -> (a: SequenceAlignment)
        ensures
            a.top_sequence@ == top_sequence@,
            a.side_sequence@ == side_sequence@,
    {
        SequenceAlignment { top_sequence, side_sequence }
    }
}

} // verus!
