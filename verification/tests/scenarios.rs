use needleman::grid::{align_sequences, Grid};
use needleman::helpers::build_alignment_from_path;
use needleman::models::{Arrow, SequenceAlignment};

fn chars(s: &str) -> Vec<char> {
    s.chars().collect()
}

fn string_of(v: &[char]) -> String {
    v.iter().collect()
}

fn filled_grid(top: &str, side: &str) -> Grid {
    let alignment = SequenceAlignment::new(chars(top), chars(side));
    let mut grid = Grid::new(&alignment);
    grid.compute_scores();
    grid.compute_arrows();
    grid
}

fn resummed_score(top_row: &[char], side_row: &[char]) -> i32 {
    assert_eq!(top_row.len(), side_row.len());
    let mut total = 0;
    for (a, b) in top_row.iter().zip(side_row.iter()) {
        if *a == '-' || *b == '-' {
            total -= 1;
        } else if a == b {
            total += 1;
        } else {
            total -= 1;
        }
    }
    total
}

#[test]
fn known_pair_reaches_score_zero() {
    let top = "GCATGCG";
    let side = "GATTACA";
    let grid = filled_grid(top, side);
    assert_eq!(grid.grid[7][7].score, 0);
    let paths = grid.find_paths();
    assert_eq!(paths.len(), 6);
    // The first path in discovery order reconstructs a canonical
    // alignment whose re-summed score equals the grid's optimum.
    let alignment = build_alignment_from_path(&chars(top), &chars(side), &paths[0]);
    assert_eq!(string_of(&alignment.top_sequence), "GCAT-GCG");
    assert_eq!(string_of(&alignment.side_sequence), "G-ATTACA");
    assert_eq!(
        resummed_score(&alignment.top_sequence, &alignment.side_sequence),
        0
    );
}

#[test]
fn empty_top_sequence_degenerates_to_one_row() {
    let top = "";
    let side = "AC";
    let grid = filled_grid(top, side);
    assert_eq!(grid.grid.len(), 1);
    assert_eq!(grid.grid[0].len(), 3);
    assert_eq!(grid.grid[0][2].score, -2);
    let paths = grid.find_paths();
    assert_eq!(paths.len(), 1);
    assert_eq!(paths[0], vec![Arrow::Horizontal, Arrow::Horizontal]);
    let alignment = build_alignment_from_path(&chars(top), &chars(side), &paths[0]);
    assert_eq!(string_of(&alignment.top_sequence), "--");
    assert_eq!(string_of(&alignment.side_sequence), "AC");
}

#[test]
fn identical_sequences_align_without_gaps() {
    let top = "ACGT";
    let grid = filled_grid(top, top);
    assert_eq!(grid.grid[4][4].score, 4);
    let paths = grid.find_paths();
    assert_eq!(paths.len(), 1);
    assert_eq!(paths[0], vec![Arrow::Diagonal; 4]);
    let alignment = build_alignment_from_path(&chars(top), &chars(top), &paths[0]);
    assert_eq!(string_of(&alignment.top_sequence), "ACGT");
    assert_eq!(string_of(&alignment.side_sequence), "ACGT");
    assert_eq!(
        resummed_score(&alignment.top_sequence, &alignment.side_sequence),
        4
    );
}

#[test]
fn tied_cells_yield_every_branch() {
    let top = "AC";
    let side = "CA";
    let grid = filled_grid(top, side);
    assert_eq!(grid.grid[2][2].score, -1);
    // The cell (2,2) ties its left and upper raw neighbours, so both
    // branches are recorded, in the fixed Diagonal-Horizontal-Vertical
    // order, and more than one path comes back.
    assert_eq!(grid.grid[2][2].arrow, vec![Arrow::Horizontal, Arrow::Vertical]);
    let paths = grid.find_paths();
    assert!(paths.len() > 1);
    let expected: Vec<Vec<Arrow>> = vec![
        vec![Arrow::Horizontal, Arrow::Diagonal, Arrow::Vertical],
        vec![Arrow::Horizontal, Arrow::Vertical, Arrow::Diagonal],
        vec![Arrow::Vertical, Arrow::Diagonal, Arrow::Horizontal],
        vec![Arrow::Vertical, Arrow::Horizontal, Arrow::Diagonal],
    ];
    assert_eq!(paths, expected);
    // The depth-first order pairs each walk with its reconstruction;
    // the walks that follow the recurrence (first and third) re-sum to
    // the grid's final score.
    let reconstructions: Vec<(String, String)> = paths
        .iter()
        .map(|p| {
            let a = build_alignment_from_path(&chars(top), &chars(side), p);
            (string_of(&a.top_sequence), string_of(&a.side_sequence))
        })
        .collect();
    assert_eq!(reconstructions[0], ("AC-".to_string(), "-CA".to_string()));
    assert_eq!(reconstructions[2], ("-AC".to_string(), "CA-".to_string()));
    for pair in [&reconstructions[0], &reconstructions[2]] {
        let top_row: Vec<char> = pair.0.chars().collect();
        let side_row: Vec<char> = pair.1.chars().collect();
        assert_eq!(resummed_score(&top_row, &side_row), -1);
    }
}

#[test]
fn pipeline_matches_manual_stages() {
    let top = chars("GCATGCG");
    let side = chars("GATTACA");
    let (grid, alignments) = align_sequences(&top, &side);
    let manual = filled_grid("GCATGCG", "GATTACA");
    assert_eq!(grid.grid.len(), manual.grid.len());
    for (row_a, row_b) in grid.grid.iter().zip(manual.grid.iter()) {
        for (a, b) in row_a.iter().zip(row_b.iter()) {
            assert_eq!(a.score, b.score);
            assert_eq!(a.arrow, b.arrow);
        }
    }
    let paths = manual.find_paths();
    assert_eq!(alignments.len(), paths.len());
    for (alignment, path) in alignments.iter().zip(paths.iter()) {
        let expected = build_alignment_from_path(&top, &side, path);
        assert_eq!(alignment.top_sequence, expected.top_sequence);
        assert_eq!(alignment.side_sequence, expected.side_sequence);
    }
}

#[test]
fn both_sequences_empty_gives_single_empty_path() {
    let grid = filled_grid("", "");
    assert_eq!(grid.grid.len(), 1);
    assert_eq!(grid.grid[0].len(), 1);
    assert_eq!(grid.grid[0][0].score, 0);
    let paths = grid.find_paths();
    assert_eq!(paths.len(), 1);
    assert!(paths[0].is_empty());
    let alignment = build_alignment_from_path(&chars(""), &chars(""), &paths[0]);
    assert!(alignment.top_sequence.is_empty());
    assert!(alignment.side_sequence.is_empty());
}
