//! The dynamic-programming grid: construction, the score pass, the
//! direction pass, and exhaustive enumeration of the optimal
//! backtracking paths.

use vstd::prelude::*;
use crate::helpers::{
    aligned_side, aligned_top, build_alignment_from_path, count_side, count_top,
};
use crate::models::{copy_chars, Arrow, Cell, SequenceAlignment};
use crate::score::{arrow_list, lemma_score_bounds, match_score, max3, nw_score};

verus! {

/// Whether direction `a`, taken from cell `(row, col)`, stays inside
/// the table.
pub open spec fn arrow_ok(row: nat, col: nat, a: Arrow) -> bool {
    match a {
        Arrow::Diagonal => row > 0 && col > 0,
        Arrow::Horizontal => col > 0,
        Arrow::Vertical => row > 0,
    }
}

/// The row reached by taking direction `a` from row `row`.
pub open spec fn next_row(row: nat, a: Arrow) -> nat {
    match a {
        Arrow::Diagonal => (row - 1) as nat,
        Arrow::Horizontal => row,
        Arrow::Vertical => (row - 1) as nat,
    }
}

/// The column reached by taking direction `a` from column `col`.
pub open spec fn next_col(col: nat, a: Arrow) -> nat {
    match a {
        Arrow::Diagonal => (col - 1) as nat,
        Arrow::Horizontal => (col - 1) as nat,
        Arrow::Vertical => col,
    }
}

/// The views of a list of recorded paths.
pub open spec fn paths_seq(ps: Seq<Vec<Arrow>>) -> Seq<Seq<Arrow>> {
    ps.map(|k: int, p: Vec<Arrow>| p@)
}

/// The cell at row `r`, column `c` of a table of rows.
pub open spec fn cell_at(rows: Seq<Vec<Cell>>, r: int, c: int) -> Cell {
    rows[r]@[c]
}

/// The (m+1) x (n+1) dynamic-programming table for a pair of sequences,
/// together with that pair. Row and column 0 stand for alignment
/// against an empty prefix.
#[derive(Debug)]
pub struct Grid {
    pub grid: Vec<Vec<Cell>>,
    pub alignment: SequenceAlignment,
}

impl Grid {
    /// The sequence laid out along the rows.
    pub open spec fn top(self) -> Seq<char> {
        self.alignment.top_sequence@
    }

    /// The sequence laid out along the columns.
    pub open spec fn side(self) -> Seq<char> {
        self.alignment.side_sequence@
    }

    /// Number of rows: one more than the top sequence's length.
    pub open spec fn rows(self) -> int {
        self.top().len() + 1int
    }

    /// Number of columns: one more than the side sequence's length.
    pub open spec fn cols(self) -> int {
        self.side().len() + 1int
    }

    /// The score held at cell `(i, j)`.
    pub open spec fn score_at(self, i: int, j: int) -> int {
        cell_at(self.grid@, i, j).score as int
    }

    /// The directions held at cell `(i, j)`.
    pub open spec fn arrows_at(self, i: int, j: int) -> Seq<Arrow> {
        cell_at(self.grid@, i, j).arrow@
    }

    /// Shape of the table matches the sequences, and the sequences are
    /// short enough for every score to fit an `i32`.
    pub open spec fn wf(self) -> bool {
        &&& self.grid@.len() == self.rows()
        &&& forall|i: int| 0 <= i < self.rows() ==> (#[trigger] self.grid@[i])@.len() == self.cols()
        &&& self.top().len() + self.side().len() <= i32::MAX
    }

    /// Row 0 and column 0 as construction leaves them: the origin at
    /// score 0 with no direction, `-i` with a single Vertical direction
    /// down column 0, `-j` with a single Horizontal direction along
    /// row 0.
    pub open spec fn boundary_init(self) -> bool {
        &&& cell_at(self.grid@, 0, 0).score == 0
        &&& cell_at(self.grid@, 0, 0).arrow@ == Seq::<Arrow>::empty()
        &&& forall|i: int|
            1 <= i < self.rows() ==> (#[trigger] cell_at(self.grid@, i, 0)).score == -i
                && cell_at(self.grid@, i, 0).arrow@ == seq![Arrow::Vertical]
        &&& forall|j: int|
            1 <= j < self.cols() ==> (#[trigger] cell_at(self.grid@, 0, j)).score == -j
                && cell_at(self.grid@, 0, j).arrow@ == seq![Arrow::Horizontal]
    }

    /// Every cell holds the Needleman-Wunsch score of its position.
    pub open spec fn scores_computed(self) -> bool {
        forall|i: int, j: int|
            0 <= i < self.rows() && 0 <= j < self.cols() ==> (#[trigger] cell_at(
                self.grid@,
                i,
                j,
            )).score == nw_score(self.top(), self.side(), i as nat, j as nat)
    }

    /// Every interior cell holds exactly the directions whose
    /// predecessor achieves the best of the three raw neighbour scores.
    pub open spec fn arrows_computed(self) -> bool {
        forall|i: int, j: int|
            1 <= i < self.rows() && 1 <= j < self.cols() ==> (#[trigger] cell_at(
                self.grid@,
                i,
                j,
            )).arrow@ == arrow_list(
                nw_score(self.top(), self.side(), (i - 1) as nat, (j - 1) as nat),
                nw_score(self.top(), self.side(), i as nat, (j - 1) as nat),
                nw_score(self.top(), self.side(), (i - 1) as nat, j as nat),
            )
    }

    /// Builds the table for the pair: all cells defaulted, then row 0
    /// and column 0 initialized to the boundary ramp.
    #[verifier::loop_isolation(false)]
    pub fn new(alignment: &SequenceAlignment) -> (g: Grid)
        requires
            alignment.top_sequence@.len() + alignment.side_sequence@.len() <= i32::MAX,
        ensures
            g.wf(),
            g.boundary_init(),
            g.top() == alignment.top_sequence@,
            g.side() == alignment.side_sequence@,
            forall|i: int, j: int|
                1 <= i < g.rows() && 1 <= j < g.cols() ==> #[trigger] g.score_at(i, j) == 0
                    && g.arrows_at(i, j) == Seq::<Arrow>::empty(),
    {
        let m = alignment.top_sequence.len();
        let n = alignment.side_sequence.len();
        let mut grid: Vec<Vec<Cell>> = Vec::new();
        let mut i: usize = 0;
        while i <= m
            invariant
                i <= m + 1,
                grid@.len() == i,
                forall|r: int| 0 <= r < i ==> (#[trigger] grid@[r])@.len() == n + 1,
                forall|r: int, c: int|
                    0 <= r < i && 0 <= c <= n ==> #[trigger] cell_at(grid@, r, c).score == 0,
                forall|r: int, c: int|
                    0 <= r < i && 0 <= c <= n ==> #[trigger] cell_at(grid@, r, c).arrow@
                        == Seq::<Arrow>::empty(),
            decreases m + 1 - i,
        {
            let mut row: Vec<Cell> = Vec::new();
            let mut j: usize = 0;
            while j <= n
                invariant
                    j <= n + 1,
                    row@.len() == j,
                    forall|c: int| 0 <= c < j ==> #[trigger] row@[c].score == 0,
                    forall|c: int| 0 <= c < j ==> #[trigger] row@[c].arrow@ == Seq::<Arrow>::empty(),
                decreases n + 1 - j,
            {
                row.push(Cell::new());
                j = j + 1;
            }
            let ghost pre = grid@;
            grid.push(row);
            proof {
                assert forall|r: int, c: int| 0 <= r < i + 1 && 0 <= c <= n implies #[trigger] cell_at(
                    grid@,
                    r,
                    c,
                ).score == 0 by {
                    if r < i {
                        assert(cell_at(grid@, r, c) == cell_at(pre, r, c));
                        assert(cell_at(pre, r, c).score == 0);
                    }
                }
                assert forall|r: int, c: int| 0 <= r < i + 1 && 0 <= c <= n implies #[trigger] cell_at(
                    grid@,
                    r,
                    c,
                ).arrow@ == Seq::<Arrow>::empty() by {
                    if r < i {
                        assert(cell_at(grid@, r, c) == cell_at(pre, r, c));
                        assert(cell_at(pre, r, c).arrow@ == Seq::<Arrow>::empty());
                    }
                }
            }
            i = i + 1;
        }
        let mut i: usize = 1;
        while i <= m
            invariant
                1 <= i <= m + 1,
                grid@.len() == m + 1,
                forall|r: int| 0 <= r < grid@.len() ==> (#[trigger] grid@[r])@.len() == n + 1,
                forall|r: int, c: int|
                    0 <= r <= m && 0 <= c <= n && !(1 <= r && r < i && c == 0)
                        ==> #[trigger] cell_at(grid@, r, c).score == 0,
                forall|r: int, c: int|
                    0 <= r <= m && 0 <= c <= n && !(1 <= r && r < i && c == 0)
                        ==> #[trigger] cell_at(grid@, r, c).arrow@ == Seq::<Arrow>::empty(),
                forall|r: int| 1 <= r < i ==> #[trigger] cell_at(grid@, r, 0).score == -r,
                forall|r: int|
                    1 <= r < i ==> #[trigger] cell_at(grid@, r, 0).arrow@ == seq![Arrow::Vertical],
            decreases m + 1 - i,
        {
            let ghost pre = grid@;
            grid[i][0].score = 0 - (i as i32);
            let ghost mid = grid@;
            grid[i][0].arrow.push(Arrow::Vertical);
            proof {
                assert(cell_at(pre, i as int, 0).arrow@ == Seq::<Arrow>::empty());
                assert(cell_at(mid, i as int, 0).arrow@ == cell_at(pre, i as int, 0).arrow@);
                assert(cell_at(grid@, i as int, 0).score == -(i as int));
                assert(cell_at(grid@, i as int, 0).arrow@ =~= seq![Arrow::Vertical]);
                assert forall|r: int, c: int|
                    0 <= r <= m && 0 <= c <= n && !(r == i as int && c == 0) implies #[trigger] cell_at(
                    grid@,
                    r,
                    c,
                ) == cell_at(pre, r, c) by {
                    if r != i as int {
                        assert(grid@[r] == pre[r]);
                    } else {
                        assert(cell_at(grid@, r, c) == cell_at(mid, r, c));
                        assert(cell_at(mid, r, c) == cell_at(pre, r, c));
                    }
                }
            }
            i = i + 1;
        }
        let mut j: usize = 1;
        while j <= n
            invariant
                1 <= j <= n + 1,
                grid@.len() == m + 1,
                forall|r: int| 0 <= r < grid@.len() ==> (#[trigger] grid@[r])@.len() == n + 1,
                forall|r: int, c: int|
                    0 <= r <= m && 0 <= c <= n && !(1 <= r && c == 0) && !(r == 0 && 1 <= c && c < j)
                        ==> #[trigger] cell_at(grid@, r, c).score == 0,
                forall|r: int, c: int|
                    0 <= r <= m && 0 <= c <= n && !(1 <= r && c == 0) && !(r == 0 && 1 <= c && c < j)
                        ==> #[trigger] cell_at(grid@, r, c).arrow@ == Seq::<Arrow>::empty(),
                forall|r: int| 1 <= r <= m ==> #[trigger] cell_at(grid@, r, 0).score == -r,
                forall|r: int|
                    1 <= r <= m ==> #[trigger] cell_at(grid@, r, 0).arrow@ == seq![Arrow::Vertical],
                forall|c: int| 1 <= c < j ==> #[trigger] cell_at(grid@, 0, c).score == -c,
                forall|c: int|
                    1 <= c < j ==> #[trigger] cell_at(grid@, 0, c).arrow@ == seq![Arrow::Horizontal],
            decreases n + 1 - j,
        {
            let ghost pre = grid@;
            grid[0][j].score = 0 - (j as i32);
            let ghost mid = grid@;
            grid[0][j].arrow.push(Arrow::Horizontal);
            proof {
                assert(cell_at(pre, 0, j as int).arrow@ == Seq::<Arrow>::empty());
                assert(cell_at(mid, 0, j as int).arrow@ == cell_at(pre, 0, j as int).arrow@);
                assert(cell_at(grid@, 0, j as int).score == -(j as int));
                assert(cell_at(grid@, 0, j as int).arrow@ =~= seq![Arrow::Horizontal]);
                assert forall|r: int, c: int|
                    0 <= r <= m && 0 <= c <= n && !(r == 0 && c == j as int) implies #[trigger] cell_at(
                    grid@,
                    r,
                    c,
                ) == cell_at(pre, r, c) by {
                    if r != 0 {
                        assert(grid@[r] == pre[r]);
                    } else {
                        assert(cell_at(grid@, r, c) == cell_at(mid, r, c));
                        assert(cell_at(mid, r, c) == cell_at(pre, r, c));
                    }
                }
            }
            j = j + 1;
        }
        let alignment = SequenceAlignment {
            top_sequence: copy_chars(&alignment.top_sequence),
            side_sequence: copy_chars(&alignment.side_sequence),
        };
        Grid { grid, alignment }
    }

    /// Fills every interior cell's score by the recurrence: the best of
    /// the diagonal score plus the match score and the left and upper
    /// scores each less the gap penalty. Directions are untouched.
    #[verifier::loop_isolation(false)]
    pub fn compute_scores(&mut self)
        requires
            old(self).wf(),
            old(self).boundary_init(),
        ensures
            final(self).wf(),
            final(self).alignment == old(self).alignment,
            final(self).boundary_init(),
            final(self).scores_computed(),
            forall|r: int, c: int|
                0 <= r < final(self).rows() && 0 <= c < final(self).cols()
                    ==> #[trigger] final(self).arrows_at(r, c) == old(self).arrows_at(r, c),
    {
        let m = self.alignment.top_sequence.len();
        let n = self.alignment.side_sequence.len();
        let ghost gt = self.top();
        let ghost gs = self.side();
        let mut i: usize = 1;
        while i <= m
            invariant
                1 <= i <= m + 1,
                self.wf(),
                self.alignment == old(self).alignment,
                self.boundary_init(),
                forall|r: int, c: int|
                    0 <= r <= m && 0 <= c <= n ==> #[trigger] cell_at(self.grid@, r, c).arrow@
                        == cell_at(old(self).grid@, r, c).arrow@,
                forall|r: int, c: int|
                    1 <= r < i && 1 <= c <= n ==> #[trigger] cell_at(self.grid@, r, c).score
                        == nw_score(gt, gs, r as nat, c as nat),
            decreases m + 1 - i,
        {
            let mut j: usize = 1;
            while j <= n
                invariant
                    1 <= i <= m,
                    1 <= j <= n + 1,
                    self.wf(),
                    self.alignment == old(self).alignment,
                    self.boundary_init(),
                    forall|r: int, c: int|
                        0 <= r <= m && 0 <= c <= n ==> #[trigger] cell_at(self.grid@, r, c).arrow@
                            == cell_at(old(self).grid@, r, c).arrow@,
                    forall|r: int, c: int|
                        1 <= r < i && 1 <= c <= n ==> #[trigger] cell_at(self.grid@, r, c).score
                            == nw_score(gt, gs, r as nat, c as nat),
                    forall|c: int|
                        1 <= c < j ==> #[trigger] cell_at(self.grid@, i as int, c).score
                            == nw_score(gt, gs, i as nat, c as nat),
                decreases n + 1 - j,
            {
                let tc = self.alignment.top_sequence[i - 1];
                let sc = self.alignment.side_sequence[j - 1];
                let match_s: i32 = if tc == sc {
                    1
                } else {
                    -1
                };
                let diag = self.grid[i - 1][j - 1].score;
                let left = self.grid[i][j - 1].score;
                let up = self.grid[i - 1][j].score;
                proof {
                    let ii = i as int;
                    let jj = j as int;
                    lemma_score_bounds(gt, gs, (ii - 1) as nat, (jj - 1) as nat);
                    lemma_score_bounds(gt, gs, ii as nat, (jj - 1) as nat);
                    lemma_score_bounds(gt, gs, (ii - 1) as nat, jj as nat);
                    assert(diag == nw_score(gt, gs, (ii - 1) as nat, (jj - 1) as nat)) by {
                        if ii == 1 && jj == 1 {
                            assert(self.score_at(0, 0) == 0);
                        } else if ii == 1 {
                            assert(self.score_at(0, jj - 1) == -(jj - 1));
                        } else if jj == 1 {
                            assert(self.score_at(ii - 1, 0) == -(ii - 1));
                        } else {
                            assert(cell_at(self.grid@, ii - 1, jj - 1).score == nw_score(
                                gt,
                                gs,
                                (ii - 1) as nat,
                                (jj - 1) as nat,
                            ));
                        }
                    }
                    assert(left == nw_score(gt, gs, ii as nat, (jj - 1) as nat)) by {
                        if jj == 1 {
                            assert(self.score_at(ii, 0) == -ii);
                        } else {
                            assert(cell_at(self.grid@, ii, jj - 1).score == nw_score(
                                gt,
                                gs,
                                ii as nat,
                                (jj - 1) as nat,
                            ));
                        }
                    }
                    assert(up == nw_score(gt, gs, (ii - 1) as nat, jj as nat)) by {
                        if ii == 1 {
                            assert(self.score_at(0, jj) == -jj);
                        } else {
                            assert(cell_at(self.grid@, ii - 1, jj).score == nw_score(
                                gt,
                                gs,
                                (ii - 1) as nat,
                                jj as nat,
                            ));
                        }
                    }
                }
                let cand_d = diag + match_s;
                let cand_l = left - 1;
                let cand_u = up - 1;
                let mut best = cand_d;
                if cand_l > best {
                    best = cand_l;
                }
                if cand_u > best {
                    best = cand_u;
                }
                proof {
                    assert(match_s == match_score(gt[i - 1], gs[j - 1]));
                    assert(best == nw_score(gt, gs, i as nat, j as nat));
                }
                let ghost pre = self.grid@;
                self.grid[i][j].score = best;
                proof {
                    assert forall|r: int, c: int|
                        0 <= r <= m && 0 <= c <= n && !(r == i as int && c == j as int) implies #[trigger] cell_at(
                        self.grid@,
                        r,
                        c,
                    ) == cell_at(pre, r, c) by {
                        if r != i as int {
                            assert(self.grid@[r] == pre[r]);
                        }
                    }
                    assert forall|r: int, c: int| 0 <= r <= m && 0 <= c <= n implies #[trigger] cell_at(
                        self.grid@,
                        r,
                        c,
                    ).arrow@ == cell_at(old(self).grid@, r, c).arrow@ by {
                        if r == i as int && c == j as int {
                            assert(cell_at(self.grid@, r, c).arrow@ == cell_at(pre, r, c).arrow@);
                        }
                        assert(cell_at(pre, r, c).arrow@ == cell_at(old(self).grid@, r, c).arrow@);
                    }
                }
                j = j + 1;
            }
            i = i + 1;
        }
        proof {
            assert forall|r: int, c: int| 0 <= r < self.rows() && 0 <= c < self.cols() implies (#[trigger] cell_at(
                self.grid@,
                r,
                c,
            )).score == nw_score(gt, gs, r as nat, c as nat) by {
                if r == 0 {
                    assert(nw_score(gt, gs, 0, c as nat) == -c);
                } else if c == 0 {
                    assert(nw_score(gt, gs, r as nat, 0) == -r);
                }
            }
        }
    }

    /// Recomputes, per interior cell, which of the three raw neighbour
    /// scores (upper-left, left, upper, untouched by this pass) equal
    /// their maximum, and stores those directions in the fixed order
    /// Diagonal, Horizontal, Vertical; every tie is retained. Scores
    /// and boundary directions are untouched.
    #[verifier::loop_isolation(false)]
    pub fn compute_arrows(&mut self)
        requires
            old(self).wf(),
        ensures
            final(self).wf(),
            final(self).alignment == old(self).alignment,
            forall|r: int, c: int|
                0 <= r < final(self).rows() && 0 <= c < final(self).cols() ==> (#[trigger] cell_at(
                    final(self).grid@,
                    r,
                    c,
                )).score == cell_at(old(self).grid@, r, c).score,
            forall|r: int|
                0 <= r < final(self).rows() ==> (#[trigger] cell_at(final(self).grid@, r, 0)).arrow@
                    == cell_at(old(self).grid@, r, 0).arrow@,
            forall|c: int|
                0 <= c < final(self).cols() ==> (#[trigger] cell_at(final(self).grid@, 0, c)).arrow@
                    == cell_at(old(self).grid@, 0, c).arrow@,
            forall|r: int, c: int|
                1 <= r < final(self).rows() && 1 <= c < final(self).cols() ==> (#[trigger] cell_at(
                    final(self).grid@,
                    r,
                    c,
                )).arrow@ == arrow_list(
                    cell_at(old(self).grid@, r - 1, c - 1).score as int,
                    cell_at(old(self).grid@, r, c - 1).score as int,
                    cell_at(old(self).grid@, r - 1, c).score as int,
                ),
            old(self).boundary_init() ==> final(self).boundary_init(),
            old(self).scores_computed() ==> final(self).scores_computed()
                && final(self).arrows_computed(),
    {
        let m = self.alignment.top_sequence.len();
        let n = self.alignment.side_sequence.len();
        let mut i: usize = 1;
        while i <= m
            invariant
                1 <= i <= m + 1,
                self.wf(),
                self.alignment == old(self).alignment,
                forall|r: int, c: int|
                    0 <= r <= m && 0 <= c <= n ==> (#[trigger] cell_at(self.grid@, r, c)).score
                        == cell_at(old(self).grid@, r, c).score,
                forall|r: int, c: int|
                    0 <= r <= m && 0 <= c <= n && !(1 <= r && r < i && 1 <= c)
                        ==> (#[trigger] cell_at(self.grid@, r, c)).arrow@ == cell_at(
                        old(self).grid@,
                        r,
                        c,
                    ).arrow@,
                forall|r: int, c: int|
                    1 <= r < i && 1 <= c <= n ==> (#[trigger] cell_at(self.grid@, r, c)).arrow@
                        == arrow_list(
                        cell_at(old(self).grid@, r - 1, c - 1).score as int,
                        cell_at(old(self).grid@, r, c - 1).score as int,
                        cell_at(old(self).grid@, r - 1, c).score as int,
                    ),
            decreases m + 1 - i,
        {
            let mut j: usize = 1;
            while j <= n
                invariant
                    1 <= i <= m,
                    1 <= j <= n + 1,
                    self.wf(),
                    self.alignment == old(self).alignment,
                    forall|r: int, c: int|
                        0 <= r <= m && 0 <= c <= n ==> (#[trigger] cell_at(self.grid@, r, c)).score
                            == cell_at(old(self).grid@, r, c).score,
                    forall|r: int, c: int|
                        0 <= r <= m && 0 <= c <= n && !(1 <= r && r < i && 1 <= c) && !(r == i as int
                            && 1 <= c && c < j) ==> (#[trigger] cell_at(self.grid@, r, c)).arrow@
                            == cell_at(old(self).grid@, r, c).arrow@,
                    forall|r: int, c: int|
                        1 <= r < i && 1 <= c <= n ==> (#[trigger] cell_at(self.grid@, r, c)).arrow@
                            == arrow_list(
                            cell_at(old(self).grid@, r - 1, c - 1).score as int,
                            cell_at(old(self).grid@, r, c - 1).score as int,
                            cell_at(old(self).grid@, r - 1, c).score as int,
                        ),
                    forall|c: int|
                        1 <= c < j ==> (#[trigger] cell_at(self.grid@, i as int, c)).arrow@
                            == arrow_list(
                            cell_at(old(self).grid@, i - 1, c - 1).score as int,
                            cell_at(old(self).grid@, i as int, c - 1).score as int,
                            cell_at(old(self).grid@, i - 1, c).score as int,
                        ),
                decreases n + 1 - j,
            {
                let diag = self.grid[i - 1][j - 1].score;
                let left = self.grid[i][j - 1].score;
                let up = self.grid[i - 1][j].score;
                let mut best = diag;
                if left > best {
                    best = left;
                }
                if up > best {
                    best = up;
                }
                let mut arrows: Vec<Arrow> = Vec::new();
                if diag == best {
                    arrows.push(Arrow::Diagonal);
                }
                if left == best {
                    arrows.push(Arrow::Horizontal);
                }
                if up == best {
                    arrows.push(Arrow::Vertical);
                }
                proof {
                    assert(best == max3(diag as int, left as int, up as int));
                    assert(arrows@ =~= arrow_list(diag as int, left as int, up as int));
                }
                let ghost pre = self.grid@;
                proof {
                    assert(diag == cell_at(pre, i - 1, j - 1).score);
                    assert(left == cell_at(pre, i as int, j - 1).score);
                    assert(up == cell_at(pre, i - 1, j as int).score);
                    assert(diag == cell_at(old(self).grid@, i - 1, j - 1).score);
                    assert(left == cell_at(old(self).grid@, i as int, j - 1).score);
                    assert(up == cell_at(old(self).grid@, i - 1, j as int).score);
                }
                self.grid[i][j].arrow = arrows;
                proof {
                    assert forall|r: int, c: int|
                        0 <= r <= m && 0 <= c <= n && !(r == i as int && c == j as int) implies #[trigger] cell_at(
                        self.grid@,
                        r,
                        c,
                    ) == cell_at(pre, r, c) by {
                        if r != i as int {
                            assert(self.grid@[r] == pre[r]);
                        }
                    }
                    assert(cell_at(self.grid@, i as int, j as int).score == cell_at(
                        pre,
                        i as int,
                        j as int,
                    ).score);
                    assert(cell_at(self.grid@, i as int, j as int).arrow@ == arrow_list(
                        cell_at(old(self).grid@, i - 1, j - 1).score as int,
                        cell_at(old(self).grid@, i as int, j - 1).score as int,
                        cell_at(old(self).grid@, i - 1, j as int).score as int,
                    ));
                }
                j = j + 1;
            }
            i = i + 1;
        }
        proof {
            if old(self).boundary_init() {
                assert(self.boundary_init());
            }
            if old(self).scores_computed() {
                assert(self.scores_computed());
                assert forall|r: int, c: int|
                    1 <= r < self.rows() && 1 <= c < self.cols() implies (#[trigger] cell_at(
                    self.grid@,
                    r,
                    c,
                )).arrow@ == arrow_list(
                    nw_score(self.top(), self.side(), (r - 1) as nat, (c - 1) as nat),
                    nw_score(self.top(), self.side(), r as nat, (c - 1) as nat),
                    nw_score(self.top(), self.side(), (r - 1) as nat, c as nat),
                ) by {
                    assert(cell_at(old(self).grid@, r - 1, c - 1).score == nw_score(
                        old(self).top(),
                        old(self).side(),
                        (r - 1) as nat,
                        (c - 1) as nat,
                    ));
                    assert(cell_at(old(self).grid@, r, c - 1).score == nw_score(
                        old(self).top(),
                        old(self).side(),
                        r as nat,
                        (c - 1) as nat,
                    ));
                    assert(cell_at(old(self).grid@, r - 1, c).score == nw_score(
                        old(self).top(),
                        old(self).side(),
                        (r - 1) as nat,
                        c as nat,
                    ));
                }
            }
        }
    }

    /// Every direction stored in the table keeps a walk inside it: no
    /// Diagonal or Vertical in row 0, no Diagonal or Horizontal in
    /// column 0. Directions at interior cells always stay inside.
    pub open spec fn arrows_valid(self) -> bool {
        forall|r: int, c: int, k: int|
            0 <= r < self.rows() && 0 <= c < self.cols() && 0 <= k < cell_at(
                self.grid@,
                r,
                c,
            ).arrow@.len() ==> arrow_ok(r as nat, c as nat, #[trigger] cell_at(self.grid@, r, c).arrow@[k])
    }

    /// Enumerates every optimal backtracking path by exhaustive
    /// depth-first search from the bottom-right cell: at each visited
    /// cell every stored direction is followed, in order, until the
    /// origin is reached; each complete walk is recorded once.
    pub fn find_paths(&self) -> (paths: Vec<Vec<Arrow>>)
        requires
            self.wf(),
            self.arrows_valid(),
        ensures
            paths_seq(paths@) == all_paths(*self),
    {
        let mut paths: Vec<Vec<Arrow>> = Vec::new();
        let mut current_path: Vec<Arrow> = Vec::new();
        let last_row = self.grid.len() - 1;
        let last_col = self.grid[0].len() - 1;
        proof {
            assert(paths_seq(paths@) =~= Seq::<Seq<Arrow>>::empty());
        }
        backtrack(self, last_row, last_col, &mut current_path, &mut paths);
        proof {
            assert(paths_seq(paths@) =~= all_paths(*self));
        }
        paths
    }
}

/// All complete backtracking paths from cell `(row, col)`: the walk so
/// far, `acc`, extended by every continuation that follows, at each
/// visited cell, each of its stored directions in order until the
/// origin. A direction that would leave the table contributes nothing;
/// in a table whose directions are all in range none is discarded.
pub open spec fn paths_from(g: Grid, row: nat, col: nat, acc: Seq<Arrow>) -> Seq<Seq<Arrow>>
    decreases row + col, cell_at(g.grid@, row as int, col as int).arrow@.len() + 1,
{
    if row == 0 && col == 0 {
        seq![acc]
    } else {
        paths_via(g, row, col, cell_at(g.grid@, row as int, col as int).arrow@, acc)
    }
}

/// The paths contributed by the directions `arrows`, a suffix of the
/// directions of cell `(row, col)`, each followed from `acc`.
pub open spec fn paths_via(
    g: Grid,
    row: nat,
    col: nat,
    arrows: Seq<Arrow>,
    acc: Seq<Arrow>,
) -> Seq<Seq<Arrow>>
    decreases row + col, arrows.len(),
{
    if arrows.len() == 0 {
        Seq::<Seq<Arrow>>::empty()
    } else {
        let a = arrows[0];
        (if arrow_ok(row, col, a) {
            paths_from(g, next_row(row, a), next_col(col, a), acc.push(a))
        } else {
            Seq::<Seq<Arrow>>::empty()
        }) + paths_via(g, row, col, arrows.drop_first(), acc)
    }
}

/// Every optimal backtracking path of the grid, from the bottom-right
/// cell back to the origin, in depth-first discovery order.
pub open spec fn all_paths(g: Grid) -> Seq<Seq<Arrow>> {
    paths_from(g, g.top().len(), g.side().len(), Seq::<Arrow>::empty())
}

/// Appending one more direction to a cell's list adds exactly that
/// direction's contribution after the paths of the earlier directions.
proof fn lemma_paths_via_snoc(
    g: Grid,
    row: nat,
    col: nat,
    arrows: Seq<Arrow>,
    a: Arrow,
    acc: Seq<Arrow>,
)
    ensures
        paths_via(g, row, col, arrows.push(a), acc) == paths_via(g, row, col, arrows, acc) + (
        if arrow_ok(row, col, a) {
            paths_from(g, next_row(row, a), next_col(col, a), acc.push(a))
        } else {
            Seq::<Seq<Arrow>>::empty()
        }),
    decreases arrows.len(),
{
    let tail = (if arrow_ok(row, col, a) {
        paths_from(g, next_row(row, a), next_col(col, a), acc.push(a))
    } else {
        Seq::<Seq<Arrow>>::empty()
    });
    if arrows.len() == 0 {
        assert(arrows.push(a)[0] == a);
        assert(arrows.push(a).drop_first() =~= arrows);
        assert(paths_via(g, row, col, arrows.push(a), acc) =~= paths_via(g, row, col, arrows, acc)
            + tail);
    } else {
        assert(arrows.push(a)[0] == arrows[0]);
        assert(arrows.push(a).drop_first() =~= arrows.drop_first().push(a));
        lemma_paths_via_snoc(g, row, col, arrows.drop_first(), a, acc);
        assert(paths_via(g, row, col, arrows.push(a), acc) =~= paths_via(g, row, col, arrows, acc)
            + tail);
    }
}

/// The recursive worker of [`Grid::find_paths`]: records, after the
/// paths already in `paths`, every completion of `current_path` from
/// cell `(row, col)`, and leaves `current_path` as it found it.
#[verifier::loop_isolation(false)]
fn backtrack(
    g: &Grid,
    row: usize,
    col: usize,
    current_path: &mut Vec<Arrow>,
    paths: &mut Vec<Vec<Arrow>>,
)
    requires
        g.wf(),
        g.arrows_valid(),
        row < g.rows(),
        col < g.cols(),
    ensures
        final(current_path)@ == old(current_path)@,
        paths_seq(final(paths)@) == paths_seq(old(paths)@) + paths_from(
            *g,
            row as nat,
            col as nat,
            old(current_path)@,
        ),
    decreases row + col,
{
    if row == 0 && col == 0 {
        let ghost pre = paths@;
        let snapshot = current_path.clone();
        proof {
            assert(snapshot@ =~= current_path@);
        }
        paths.push(snapshot);
        proof {
            assert(paths_seq(paths@) =~= paths_seq(pre) + paths_from(
                *g,
                row as nat,
                col as nat,
                old(current_path)@,
            ));
        }
        return ;
    }
    let ghost arrows_seq = cell_at(g.grid@, row as int, col as int).arrow@;
    let arrow_count = g.grid[row][col].arrow.len();
    let mut k: usize = 0;
    while k < arrow_count
        invariant
            k <= arrows_seq.len(),
            current_path@ == old(current_path)@,
            paths_seq(paths@) == paths_seq(old(paths)@) + paths_via(
                *g,
                row as nat,
                col as nat,
                arrows_seq.take(k as int),
                old(current_path)@,
            ),
        decreases arrows_seq.len() - k,
    {
        let a = g.grid[row][col].arrow[k];
        proof {
            assert(a == arrows_seq[k as int]);
            assert(arrow_ok(row as nat, col as nat, a));
        }
        let ghost paths_pre = paths@;
        current_path.push(a);
        match a {
            Arrow::Diagonal => backtrack(g, row - 1, col - 1, current_path, paths),
            Arrow::Vertical => backtrack(g, row - 1, col, current_path, paths),
            Arrow::Horizontal => backtrack(g, row, col - 1, current_path, paths),
        }
        current_path.pop();
        proof {
            assert(current_path@ =~= old(current_path)@);
            lemma_paths_via_snoc(
                *g,
                row as nat,
                col as nat,
                arrows_seq.take(k as int),
                a,
                old(current_path)@,
            );
            assert(arrows_seq.take(k as int).push(a) =~= arrows_seq.take(k + 1));
            assert(paths_seq(paths@) =~= paths_seq(old(paths)@) + paths_via(
                *g,
                row as nat,
                col as nat,
                arrows_seq.take(k + 1),
                old(current_path)@,
            ));
        }
        k = k + 1;
    }
    proof {
        assert(arrows_seq.take(arrows_seq.len() as int) =~= arrows_seq);
    }
}

/// Every enumerated path is consistent with the direction deltas: a
/// path recorded from cell `(row, col)` walks, beyond what `acc`
/// already walked, exactly `row` rows up and `col` columns left — so a
/// walk from the bottom-right cell ends exactly at the origin.
pub proof fn lemma_paths_from_counts(g: Grid, row: nat, col: nat, acc: Seq<Arrow>)
    ensures
        forall|k: int|
            0 <= k < paths_from(g, row, col, acc).len() ==> count_top(
                #[trigger] paths_from(g, row, col, acc)[k],
            ) == count_top(acc) + row && count_side(paths_from(g, row, col, acc)[k]) == count_side(
                acc,
            ) + col,
    decreases row + col, cell_at(g.grid@, row as int, col as int).arrow@.len() + 1,
{
    if row == 0 && col == 0 {
    } else {
        let arrows = cell_at(g.grid@, row as int, col as int).arrow@;
        lemma_paths_via_counts(g, row, col, arrows, acc);
        assert forall|k: int| 0 <= k < paths_from(g, row, col, acc).len() implies count_top(
            #[trigger] paths_from(g, row, col, acc)[k],
        ) == count_top(acc) + row && count_side(paths_from(g, row, col, acc)[k]) == count_side(acc)
            + col by {
            assert(paths_from(g, row, col, acc)[k] == paths_via(g, row, col, arrows, acc)[k]);
        }
    }
}

/// The helper of [`lemma_paths_from_counts`] over a suffix of one
/// cell's direction list.
proof fn lemma_paths_via_counts(g: Grid, row: nat, col: nat, arrows: Seq<Arrow>, acc: Seq<Arrow>)
    requires
        !(row == 0 && col == 0),
    ensures
        forall|k: int|
            0 <= k < paths_via(g, row, col, arrows, acc).len() ==> count_top(
                #[trigger] paths_via(g, row, col, arrows, acc)[k],
            ) == count_top(acc) + row && count_side(paths_via(g, row, col, arrows, acc)[k])
                == count_side(acc) + col,
    decreases row + col, arrows.len(),
{
    if arrows.len() == 0 {
    } else {
        let a = arrows[0];
        let head = (if arrow_ok(row, col, a) {
            paths_from(g, next_row(row, a), next_col(col, a), acc.push(a))
        } else {
            Seq::<Seq<Arrow>>::empty()
        });
        let tail = paths_via(g, row, col, arrows.drop_first(), acc);
        if arrow_ok(row, col, a) {
            lemma_paths_from_counts(g, next_row(row, a), next_col(col, a), acc.push(a));
            crate::helpers::lemma_count_push(acc, a);
        }
        lemma_paths_via_counts(g, row, col, arrows.drop_first(), acc);
        assert forall|k: int|
            0 <= k < paths_via(g, row, col, arrows, acc).len() implies count_top(
            #[trigger] paths_via(g, row, col, arrows, acc)[k],
        ) == count_top(acc) + row && count_side(paths_via(g, row, col, arrows, acc)[k])
            == count_side(acc) + col by {
            if k < head.len() {
                assert(paths_via(g, row, col, arrows, acc)[k] == head[k]);
            } else {
                assert(paths_via(g, row, col, arrows, acc)[k] == tail[k - head.len()]);
            }
        }
    }
}

/// Every cell of a grid holding computed scores stays inside the
/// envelope of [`lemma_score_bounds`]: at least `-(i + j)` (all gaps)
/// and at most `min(i, j)` (a full run of matches).
pub proof fn lemma_grid_score_bounds(g: Grid, i: int, j: int)
    requires
        g.wf(),
        g.scores_computed(),
        0 <= i < g.rows(),
        0 <= j < g.cols(),
    ensures
        -(i + j) <= cell_at(g.grid@, i, j).score,
        cell_at(g.grid@, i, j).score <= if i <= j {
            i
        } else {
            j
        },
{
    lemma_score_bounds(g.top(), g.side(), i as nat, j as nat);
}

/// Filling scores and then directions is a pure function of the pair
/// of sequences: two well-formed grids over the same pair that both
/// carry the boundary ramp, computed scores and computed directions
/// agree cell by cell — so running the two passes a second time
/// reproduces the identical grid.
pub proof fn lemma_grid_fill_deterministic(a: Grid, b: Grid)
    requires
        a.wf(),
        b.wf(),
        a.top() == b.top(),
        a.side() == b.side(),
        a.boundary_init(),
        b.boundary_init(),
        a.scores_computed(),
        b.scores_computed(),
        a.arrows_computed(),
        b.arrows_computed(),
    ensures
        forall|i: int, j: int|
            0 <= i < a.rows() && 0 <= j < a.cols() ==> (#[trigger] cell_at(a.grid@, i, j)).score
                == cell_at(b.grid@, i, j).score && cell_at(a.grid@, i, j).arrow@ == cell_at(
                b.grid@,
                i,
                j,
            ).arrow@,
{
    assert forall|i: int, j: int|
        0 <= i < a.rows() && 0 <= j < a.cols() implies (#[trigger] cell_at(a.grid@, i, j)).score
        == cell_at(b.grid@, i, j).score && cell_at(a.grid@, i, j).arrow@ == cell_at(
        b.grid@,
        i,
        j,
    ).arrow@ by {
        assert(cell_at(a.grid@, i, j).score == nw_score(a.top(), a.side(), i as nat, j as nat));
        assert(cell_at(b.grid@, i, j).score == nw_score(b.top(), b.side(), i as nat, j as nat));
        if i == 0 || j == 0 {
        } else {
            assert(cell_at(a.grid@, i, j).arrow@ == arrow_list(
                nw_score(a.top(), a.side(), (i - 1) as nat, (j - 1) as nat),
                nw_score(a.top(), a.side(), i as nat, (j - 1) as nat),
                nw_score(a.top(), a.side(), (i - 1) as nat, j as nat),
            ));
            assert(cell_at(b.grid@, i, j).arrow@ == arrow_list(
                nw_score(b.top(), b.side(), (i - 1) as nat, (j - 1) as nat),
                nw_score(b.top(), b.side(), i as nat, (j - 1) as nat),
                nw_score(b.top(), b.side(), (i - 1) as nat, j as nat),
            ));
        }
    }
}

/// Runs the whole engine for one pair of sequences: builds the grid,
/// fills scores and then directions, enumerates every optimal
/// backtracking path, and reconstructs the aligned pair that each path
/// describes, in path order.
#[verifier::loop_isolation(false)]
pub fn align_sequences(top: &Vec<char>, side: &Vec<char>) -> (r: (Grid, Vec<SequenceAlignment>))
    requires
        top@.len() + side@.len() <= i32::MAX,
    ensures
        r.0.wf(),
        r.0.top() == top@,
        r.0.side() == side@,
        r.0.boundary_init(),
        r.0.scores_computed(),
        r.0.arrows_computed(),
        r.1@.len() == all_paths(r.0).len(),
        forall|k: int|
            0 <= k < r.1@.len() ==> (#[trigger] r.1@[k]).top_sequence@ == aligned_top(
                top@,
                all_paths(r.0)[k],
            ) && r.1@[k].side_sequence@ == aligned_side(side@, all_paths(r.0)[k]),
{
    let alignment = SequenceAlignment::new(copy_chars(top), copy_chars(side));
    let mut grid = Grid::new(&alignment);
    grid.compute_scores();
    grid.compute_arrows();
    proof {
        lemma_boundary_arrows_valid(grid);
    }
    let paths = grid.find_paths();
    proof {
        lemma_paths_from_counts(grid, top@.len(), side@.len(), Seq::<Arrow>::empty());
    }
    let mut alignments: Vec<SequenceAlignment> = Vec::new();
    let mut idx: usize = 0;
    while idx < paths.len()
        invariant
            idx <= paths@.len(),
            alignments@.len() == idx,
            forall|k: int|
                0 <= k < idx ==> (#[trigger] alignments@[k]).top_sequence@ == aligned_top(
                    top@,
                    all_paths(grid)[k],
                ) && alignments@[k].side_sequence@ == aligned_side(side@, all_paths(grid)[k]),
        decreases paths@.len() - idx,
    {
        let p = &paths[idx];
        proof {
            assert(p@ == all_paths(grid)[idx as int]);
            assert(count_top(p@) == top@.len());
            assert(count_side(p@) == side@.len());
        }
        let reconstructed = build_alignment_from_path(top, side, p);
        alignments.push(reconstructed);
        idx = idx + 1;
    }
    (grid, alignments)
}

/// In a well-formed grid with the boundary ramp in place, every stored
/// direction keeps a walk inside the table.
pub proof fn lemma_boundary_arrows_valid(g: Grid)
    requires
        g.wf(),
        g.boundary_init(),
    ensures
        g.arrows_valid(),
{
    assert forall|r: int, c: int, k: int|
        0 <= r < g.rows() && 0 <= c < g.cols() && 0 <= k < cell_at(g.grid@, r, c).arrow@.len() implies arrow_ok(
        r as nat,
        c as nat,
        #[trigger] cell_at(g.grid@, r, c).arrow@[k],
    ) by {
        if r == 0 && c == 0 {
            assert(cell_at(g.grid@, 0, 0).arrow@.len() == 0);
        } else if r == 0 {
            assert(cell_at(g.grid@, r, c).arrow@ == seq![Arrow::Horizontal]);
            assert(cell_at(g.grid@, r, c).arrow@[k] == Arrow::Horizontal);
        } else if c == 0 {
            assert(cell_at(g.grid@, r, c).arrow@ == seq![Arrow::Vertical]);
            assert(cell_at(g.grid@, r, c).arrow@[k] == Arrow::Vertical);
        }
    }
}

} // verus!
