use grid_bfs::engine::{traverse, AdmissionRule, TerminationPolicy};
use grid_bfs::grid::{Coord, Grid};
use grid_bfs::puzzles::{
    flood_fill_area, flood_fill_dual, flood_fill_single, knight_marker_count, knight_moves,
    orthogonal_moves, KNIGHT_LAYER_CAP,
};

fn c(row: i64, col: i64) -> Coord {
    Coord { row, col }
}

fn uniform_grid(rows: usize, cols: usize, elev: u8) -> Grid {
    Grid { cells: vec![vec![elev; cols]; rows] }
}

fn digit_grid(rows: &[&str]) -> Grid {
    let lines: Vec<String> = rows.iter().map(|r| r.to_string()).collect();
    Grid::from_digit_lines(&lines)
}

fn contains(v: &Vec<Coord>, x: Coord) -> bool {
    v.iter().any(|&y| y == x)
}

#[test]
fn result_stays_in_bounds() {
    let grid = uniform_grid(3, 3, 0);
    let starts = vec![c(0, 0), c(2, 2), c(-4, 1), c(1, 9)];
    let moves = knight_moves();
    let visited = traverse(
        &grid,
        &starts,
        &moves,
        TerminationPolicy::Unbounded,
        AdmissionRule::Unrestricted,
    );
    for v in &visited {
        assert!(0 <= v.row && v.row < 3);
        assert!(0 <= v.col && v.col < 3);
    }
}

#[test]
fn zero_layers_returns_deduplicated_starts() {
    let grid = uniform_grid(3, 3, 0);
    let starts = vec![c(1, 1), c(1, 1), c(0, 2), c(5, 5)];
    let moves = orthogonal_moves();
    let visited = traverse(
        &grid,
        &starts,
        &moves,
        TerminationPolicy::MaxLayers(0),
        AdmissionRule::Unrestricted,
    );
    assert_eq!(visited.len(), 2);
    assert!(contains(&visited, c(1, 1)));
    assert!(contains(&visited, c(0, 2)));
    assert!(!contains(&visited, c(5, 5)));
}

#[test]
fn traversal_is_deterministic() {
    let grid = digit_grid(&["3210", "2221", "1112"]);
    let starts = vec![c(0, 0), c(2, 3)];
    let moves = orthogonal_moves();
    let first = traverse(
        &grid,
        &starts,
        &moves,
        TerminationPolicy::Unbounded,
        AdmissionRule::NonIncreasing,
    );
    let second = traverse(
        &grid,
        &starts,
        &moves,
        TerminationPolicy::Unbounded,
        AdmissionRule::NonIncreasing,
    );
    assert_eq!(first, second);
    assert_eq!(first.len(), second.len());
    for v in &first {
        assert!(contains(&second, *v));
    }
}

#[test]
fn knight_reach_on_five_by_five() {
    let grid = uniform_grid(5, 5, 0);
    let starts = vec![c(2, 2)];
    let moves = knight_moves();
    assert_eq!(KNIGHT_LAYER_CAP, 5);
    let visited = traverse(
        &grid,
        &starts,
        &moves,
        TerminationPolicy::MaxLayers(KNIGHT_LAYER_CAP),
        AdmissionRule::Unrestricted,
    );
    // Every cell of a 5x5 board lies within four knight moves of the centre,
    // so five layers reach all of them; the corner is reached in layer four.
    assert_eq!(visited.len(), 25);
    assert!(contains(&visited, c(0, 0)));
    // Two layers reach exactly the centre, its knight circle, and the circle's
    // own knight neighbours.
    let two = traverse(
        &grid,
        &starts,
        &moves,
        TerminationPolicy::MaxLayers(2),
        AdmissionRule::Unrestricted,
    );
    assert_eq!(two.len(), 17);
    assert!(!contains(&two, c(0, 0)));
}

#[test]
fn knight_markers_are_counted() {
    let lines: Vec<String> =
        vec!["S....", ".....", "..S..", ".....", "....S"].iter().map(|r| r.to_string()).collect();
    let grid = Grid::from_digit_lines(&lines);
    let markers = grid_bfs::grid::marker_cells(&lines, 'S');
    assert_eq!(markers.len(), 3);
    assert_eq!(knight_marker_count(&grid, &markers), 3);
}

#[test]
fn flood_fill_single_source() {
    let grid = digit_grid(&["12", "11"]);
    // From (0,0), elevation 1: (0,1) has elevation 2 and is refused; (1,0)
    // and then (1,1) are admitted.
    assert_eq!(flood_fill_single(&grid), 3);
    let moves = orthogonal_moves();
    let visited = traverse(
        &grid,
        &vec![c(0, 0)],
        &moves,
        TerminationPolicy::Unbounded,
        AdmissionRule::NonIncreasing,
    );
    assert_eq!(visited.len(), 3);
    assert!(contains(&visited, c(0, 0)));
    assert!(contains(&visited, c(1, 0)));
    assert!(contains(&visited, c(1, 1)));
    assert!(!contains(&visited, c(0, 1)));
}

#[test]
fn flood_fill_dual_source_is_union() {
    let grid = digit_grid(&["12", "11"]);
    let single = flood_fill_single(&grid);
    let dual = flood_fill_dual(&grid);
    assert_eq!(dual, 3);
    assert!(dual >= single);
    // A second grid where the far corner opens cells the origin cannot reach.
    let grid2 = digit_grid(&["120", "099"]);
    let single2 = flood_fill_single(&grid2);
    let dual2 = flood_fill_dual(&grid2);
    assert_eq!(single2, 2);
    assert_eq!(dual2, 6);
    assert!(dual2 >= single2);
}

#[test]
fn empty_starts_yield_empty_result() {
    let grid = uniform_grid(4, 4, 7);
    let moves = orthogonal_moves();
    let visited = traverse(
        &grid,
        &Vec::new(),
        &moves,
        TerminationPolicy::Unbounded,
        AdmissionRule::NonIncreasing,
    );
    assert!(visited.is_empty());
    assert_eq!(flood_fill_area(&grid, &Vec::new()), 0);
}

#[test]
fn uniform_grid_floods_completely() {
    let grid = uniform_grid(3, 3, 5);
    assert_eq!(flood_fill_single(&grid), 9);
    assert_eq!(flood_fill_dual(&grid), 9);
}

#[test]
fn out_of_bounds_start_is_rejected() {
    let grid = uniform_grid(2, 2, 0);
    let moves = orthogonal_moves();
    let visited = traverse(
        &grid,
        &vec![c(10, 10)],
        &moves,
        TerminationPolicy::MaxLayers(0),
        AdmissionRule::Unrestricted,
    );
    assert_eq!(visited.len(), 0);
    let area = flood_fill_area(&grid, &vec![c(-1, 0)]);
    assert_eq!(area, 0);
}
