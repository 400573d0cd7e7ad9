use needleman::grid::Grid;
use needleman::helpers::build_alignment_from_path;
use needleman::models::{Arrow, Cell, SequenceAlignment};

fn chars(s: &str) -> Vec<char> {
    s.chars().collect()
}

fn string_of(v: &[char]) -> String {
    v.iter().collect()
}

fn filled_grid(top: &str, side: &str) -> Grid {
    let alignment = SequenceAlignment::new(chars(top), chars(side));
    let mut grid = Grid::new(&alignment);
    grid.compute_scores();
    grid.compute_arrows();
    grid
}

#[test]
fn cell_new_defaults() {
    let c = Cell::new();
    assert_eq!(c.score, 0);
    assert!(c.arrow.is_empty());
}

#[test]
fn sequence_alignment_new_keeps_sequences() {
    let a = SequenceAlignment::new(chars("GCAT"), chars("GA"));
    assert_eq!(string_of(&a.top_sequence), "GCAT");
    assert_eq!(string_of(&a.side_sequence), "GA");
}

#[test]
fn origin_cell_has_score_zero_and_no_directions() {
    for (top, side) in [("GCATGCG", "GATTACA"), ("", "AC"), ("A", ""), ("", "")] {
        let grid = filled_grid(top, side);
        assert_eq!(grid.grid[0][0].score, 0);
        assert!(grid.grid[0][0].arrow.is_empty());
    }
}

#[test]
fn boundary_ramp_in_both_directions() {
    let grid = filled_grid("GATT", "CA");
    for i in 1..=4usize {
        assert_eq!(grid.grid[i][0].score, -(i as i32));
        assert_eq!(grid.grid[i][0].arrow, vec![Arrow::Vertical]);
    }
    for j in 1..=2usize {
        assert_eq!(grid.grid[0][j].score, -(j as i32));
        assert_eq!(grid.grid[0][j].arrow, vec![Arrow::Horizontal]);
    }
}

#[test]
fn scores_stay_inside_envelope() {
    let grid = filled_grid("GCATGCG", "GATTACA");
    for (i, row) in grid.grid.iter().enumerate() {
        for (j, cell) in row.iter().enumerate() {
            let lo = -((i + j) as i32);
            let hi = i.min(j) as i32;
            assert!(cell.score >= lo, "cell ({i},{j}) below -(i+j)");
            assert!(cell.score <= hi, "cell ({i},{j}) above min(i,j)");
        }
    }
}

#[test]
fn paths_walk_exactly_to_the_origin() {
    for (top, side) in [("GCATGCG", "GATTACA"), ("AC", "CA"), ("", "AC"), ("ACGT", "ACGT")] {
        let grid = filled_grid(top, side);
        let paths = grid.find_paths();
        assert!(!paths.is_empty());
        for path in &paths {
            let rows_up = path
                .iter()
                .filter(|a| matches!(a, Arrow::Diagonal | Arrow::Vertical))
                .count();
            let cols_left = path
                .iter()
                .filter(|a| matches!(a, Arrow::Diagonal | Arrow::Horizontal))
                .count();
            assert_eq!(rows_up, top.len(), "path does not climb all rows");
            assert_eq!(cols_left, side.len(), "path does not cross all columns");
        }
    }
}

#[test]
fn stripping_gaps_restores_both_inputs() {
    let top = "GCATGCG";
    let side = "GATTACA";
    let grid = filled_grid(top, side);
    for path in &grid.find_paths() {
        let alignment = build_alignment_from_path(&chars(top), &chars(side), path);
        assert_eq!(alignment.top_sequence.len(), alignment.side_sequence.len());
        assert_eq!(alignment.top_sequence.len(), path.len());
        let stripped_top: String = alignment
            .top_sequence
            .iter()
            .filter(|c| **c != '-')
            .collect();
        let stripped_side: String = alignment
            .side_sequence
            .iter()
            .filter(|c| **c != '-')
            .collect();
        assert_eq!(stripped_top, top);
        assert_eq!(stripped_side, side);
    }
}

#[test]
fn filling_twice_produces_identical_grids() {
    let alignment = SequenceAlignment::new(chars("GCATGCG"), chars("GATTACA"));
    let mut once = Grid::new(&alignment);
    once.compute_scores();
    once.compute_arrows();
    let mut twice = Grid::new(&alignment);
    twice.compute_scores();
    twice.compute_arrows();
    twice.compute_scores();
    twice.compute_arrows();
    assert_eq!(once.grid.len(), twice.grid.len());
    for (row_a, row_b) in once.grid.iter().zip(twice.grid.iter()) {
        assert_eq!(row_a.len(), row_b.len());
        for (a, b) in row_a.iter().zip(row_b.iter()) {
            assert_eq!(a.score, b.score);
            assert_eq!(a.arrow, b.arrow);
        }
    }
}
