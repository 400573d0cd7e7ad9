//! Reconstruction of an aligned sequence pair from one backtracking path.

use vstd::prelude::*;
use crate::models::{Arrow, SequenceAlignment};

verus! {

/// Whether this move consumes a symbol of the top (row) sequence.
pub open spec fn consumes_top(a: Arrow) -> bool {
    a == Arrow::Diagonal || a == Arrow::Vertical
}

/// Whether this move consumes a symbol of the side (column) sequence.
pub open spec fn consumes_side(a: Arrow) -> bool {
    a == Arrow::Diagonal || a == Arrow::Horizontal
}

/// How many symbols of the top sequence the path consumes; equally, the
/// number of grid rows it walks up.
pub open spec fn count_top(path: Seq<Arrow>) -> nat
    decreases path.len(),
{
    if path.len() == 0 {
        0
    } else {
        (if consumes_top(path[0]) {
            1nat
        } else {
            0nat
        }) + count_top(path.drop_first())
    }
}

/// How many symbols of the side sequence the path consumes; equally, the
/// number of grid columns it walks left.
pub open spec fn count_side(path: Seq<Arrow>) -> nat
    decreases path.len(),
{
    if path.len() == 0 {
        0
    } else {
        (if consumes_side(path[0]) {
            1nat
        } else {
            0nat
        }) + count_side(path.drop_first())
    }
}

/// The top row of the alignment that `path` describes. A path is stored
/// from the bottom-right cell back to the origin, so its first move is
/// the alignment's last column: each move appends, after the columns of
/// the remaining path, the next unconsumed symbol of `top` if it
/// consumes one, and the gap symbol `-` otherwise.
pub open spec fn aligned_top(top: Seq<char>, path: Seq<Arrow>) -> Seq<char>
    decreases path.len(),
{
    if path.len() == 0 {
        Seq::<char>::empty()
    } else {
        let rest = path.drop_first();
        aligned_top(top, rest) + (if consumes_top(path[0]) {
            seq![top[count_top(rest) as int]]
        } else {
            seq!['-']
        })
    }
}

/// The side row of the alignment that `path` describes; the mirror of
/// [`aligned_top`].
pub open spec fn aligned_side(side: Seq<char>, path: Seq<Arrow>) -> Seq<char>
    decreases path.len(),
{
    if path.len() == 0 {
        Seq::<char>::empty()
    } else {
        let rest = path.drop_first();
        aligned_side(side, rest) + (if consumes_side(path[0]) {
            seq![side[count_side(rest) as int]]
        } else {
            seq!['-']
        })
    }
}

/// The sequence with every gap symbol `-` removed.
pub open spec fn strip_gaps(s: Seq<char>) -> Seq<char>
    decreases s.len(),
{
    if s.len() == 0 {
        Seq::<char>::empty()
    } else {
        let rest = strip_gaps(s.drop_last());
        if s.last() == '-' {
            rest
        } else {
            rest.push(s.last())
        }
    }
}

/// One more move at the end of a path consumes one more symbol of each
/// sequence it consumes from.
pub proof fn lemma_count_push(path: Seq<Arrow>, a: Arrow)
    ensures
        count_top(path.push(a)) == count_top(path) + (if consumes_top(a) {
            1nat
        } else {
            0nat
        }),
        count_side(path.push(a)) == count_side(path) + (if consumes_side(a) {
            1nat
        } else {
            0nat
        }),
    decreases path.len(),
{
    if path.len() == 0 {
        assert(path.push(a)[0] == a);
        assert(path.push(a).drop_first() =~= path);
    } else {
        assert(path.push(a)[0] == path[0]);
        assert(path.push(a).drop_first() =~= path.drop_first().push(a));
        lemma_count_push(path.drop_first(), a);
    }
}

/// Dropping the move at position `i` from the suffix starting there
/// accounts for exactly that move's consumption.
proof fn lemma_count_skip_step(path: Seq<Arrow>, i: int)
    requires
        0 <= i < path.len(),
    ensures
        count_top(path.skip(i)) == (if consumes_top(path[i]) {
            1nat
        } else {
            0nat
        }) + count_top(path.skip(i + 1)),
        count_side(path.skip(i)) == (if consumes_side(path[i]) {
            1nat
        } else {
            0nat
        }) + count_side(path.skip(i + 1)),
{
    assert(path.skip(i)[0] == path[i]);
    assert(path.skip(i).drop_first() =~= path.skip(i + 1));
}

/// A suffix of a path never consumes more than the whole path.
proof fn lemma_count_skip_le(path: Seq<Arrow>, i: int)
    requires
        0 <= i <= path.len(),
    ensures
        count_top(path.skip(i)) <= count_top(path),
        count_side(path.skip(i)) <= count_side(path),
    decreases i,
{
    if i == 0 {
        assert(path.skip(0) =~= path);
    } else {
        lemma_count_skip_le(path, i - 1);
        lemma_count_skip_step(path, i - 1);
    }
}

/// Replays one backtracking path over the two original sequences and
/// builds the aligned pair it describes: the path is consumed from its
/// last move (the one nearest the origin) to its first, a Diagonal
/// move emitting the next symbol of both sequences, a Vertical move a
/// top symbol against a gap, a Horizontal move a gap against a side
/// symbol. The path must consume each sequence exactly.
#[verifier::loop_isolation(false)]
pub fn build_alignment_from_path(
    top_sequence: &Vec<char>,
    side_sequence: &Vec<char>,
    path: &Vec<Arrow>,
) -> (alignment: SequenceAlignment)
    requires
        count_top(path@) == top_sequence@.len(),
        count_side(path@) == side_sequence@.len(),
    ensures
        alignment.top_sequence@ == aligned_top(top_sequence@, path@),
        alignment.side_sequence@ == aligned_side(side_sequence@, path@),
{
    let top_len = top_sequence.len();
    let side_len = side_sequence.len();
    let mut top_out: Vec<char> = Vec::new();
    let mut side_out: Vec<char> = Vec::new();
    let mut top_index: usize = 0;
    let mut side_index: usize = 0;
    let mut k: usize = path.len();
    proof {
        assert(path@.skip(k as int) =~= Seq::<Arrow>::empty());
    }
    while k > 0
        invariant
            k <= path@.len(),
            top_index <= top_len,
            side_index <= side_len,
            top_index == count_top(path@.skip(k as int)),
            side_index == count_side(path@.skip(k as int)),
            top_out@ == aligned_top(top_sequence@, path@.skip(k as int)),
            side_out@ == aligned_side(side_sequence@, path@.skip(k as int)),
        decreases k,
    {
        k = k - 1;
        let a = path[k];
        proof {
            lemma_count_skip_step(path@, k as int);
            lemma_count_skip_le(path@, k as int);
            assert(path@.skip(k as int)[0] == path@[k as int]);
            assert(path@.skip(k as int).drop_first() =~= path@.skip(k as int + 1));
        }
        match a {
            Arrow::Diagonal => {
                top_out.push(top_sequence[top_index]);
                side_out.push(side_sequence[side_index]);
                top_index = top_index + 1;
                side_index = side_index + 1;
            },
            Arrow::Horizontal => {
                top_out.push('-');
                side_out.push(side_sequence[side_index]);
                side_index = side_index + 1;
            },
            Arrow::Vertical => {
                top_out.push(top_sequence[top_index]);
                side_out.push('-');
                top_index = top_index + 1;
            },
        }
        proof {
            assert(top_out@ =~= aligned_top(top_sequence@, path@.skip(k as int)));
            assert(side_out@ =~= aligned_side(side_sequence@, path@.skip(k as int)));
        }
    }
    proof {
        assert(path@.skip(0) =~= path@);
    }
    SequenceAlignment { top_sequence: top_out, side_sequence: side_out }
}

/// Stripping the gaps out of the reconstructed top row returns the
/// consumed prefix of the top sequence, as long as the sequence itself
/// contains no gap symbol.
proof fn lemma_aligned_top_strips(top: Seq<char>, path: Seq<Arrow>)
    requires
        count_top(path) <= top.len(),
        !top.contains('-'),
    ensures
        aligned_top(top, path).len() == path.len(),
        strip_gaps(aligned_top(top, path)) == top.take(count_top(path) as int),
    decreases path.len(),
{
    if path.len() == 0 {
        assert(strip_gaps(aligned_top(top, path)) =~= top.take(0));
    } else {
        let rest = path.drop_first();
        lemma_aligned_top_strips(top, rest);
        let whole = aligned_top(top, path);
        let prefix = aligned_top(top, rest);
        assert(whole.drop_last() =~= prefix);
        if consumes_top(path[0]) {
            let x = top[count_top(rest) as int];
            assert(whole.last() == x);
            assert(x != '-') by {
                if x == '-' {
                    assert(top.contains('-'));
                }
            }
            assert(strip_gaps(whole) == strip_gaps(prefix).push(x));
            assert(strip_gaps(whole) =~= top.take(count_top(path) as int));
        } else {
            assert(whole.last() == '-');
            assert(strip_gaps(whole) =~= top.take(count_top(path) as int));
        }
    }
}

/// The mirror of [`lemma_aligned_top_strips`] for the side row.
proof fn lemma_aligned_side_strips(side: Seq<char>, path: Seq<Arrow>)
    requires
        count_side(path) <= side.len(),
        !side.contains('-'),
    ensures
        aligned_side(side, path).len() == path.len(),
        strip_gaps(aligned_side(side, path)) == side.take(count_side(path) as int),
    decreases path.len(),
{
    if path.len() == 0 {
        assert(strip_gaps(aligned_side(side, path)) =~= side.take(0));
    } else {
        let rest = path.drop_first();
        lemma_aligned_side_strips(side, rest);
        let whole = aligned_side(side, path);
        let prefix = aligned_side(side, rest);
        assert(whole.drop_last() =~= prefix);
        if consumes_side(path[0]) {
            let x = side[count_side(rest) as int];
            assert(whole.last() == x);
            assert(x != '-') by {
                if x == '-' {
                    assert(side.contains('-'));
                }
            }
            assert(strip_gaps(whole) == strip_gaps(prefix).push(x));
            assert(strip_gaps(whole) =~= side.take(count_side(path) as int));
        } else {
            assert(whole.last() == '-');
            assert(strip_gaps(whole) =~= side.take(count_side(path) as int));
        }
    }
}

/// The two rows reconstructed from any path that consumes each
/// sequence exactly have the same length as the path — so the same
/// length as each other — and stripping the gap symbols out of them
/// returns exactly the original sequences, provided neither sequence
/// itself contains the gap symbol.
pub proof fn lemma_alignment_restores_sequences(top: Seq<char>, side: Seq<char>, path: Seq<Arrow>)
    requires
        count_top(path) == top.len(),
        count_side(path) == side.len(),
        !top.contains('-'),
        !side.contains('-'),
    ensures
        aligned_top(top, path).len() == path.len(),
        aligned_side(side, path).len() == path.len(),
        strip_gaps(aligned_top(top, path)) == top,
        strip_gaps(aligned_side(side, path)) == side,
{
    lemma_aligned_top_strips(top, path);
    lemma_aligned_side_strips(side, path);
    assert(top.take(top.len() as int) =~= top);
    assert(side.take(side.len() as int) =~= side);
}

} // verus!
