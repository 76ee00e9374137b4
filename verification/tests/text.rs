use grid_bfs::grid::{marker_cells, Coord, Grid};
use grid_bfs::util::{read_lines, split_str, wrap_index};
use grid_bfs::wheel::{parse_command, solve, Command};

fn strings(rows: &[&str]) -> Vec<String> {
    rows.iter().map(|r| r.to_string()).collect()
}

#[test]
fn wrap_index_wraps_both_directions() {
    assert_eq!(wrap_index(0, 5), 0);
    assert_eq!(wrap_index(7, 5), 2);
    assert_eq!(wrap_index(-1, 5), 4);
    assert_eq!(wrap_index(-10, 5), 0);
    assert_eq!(wrap_index(4, 4), 0);
}

#[test]
fn read_lines_handles_endings() {
    assert_eq!(read_lines("a\nb"), strings(&["a", "b"]));
    assert_eq!(read_lines("a\r\nb\n"), strings(&["a", "b"]));
    assert_eq!(read_lines(""), Vec::<String>::new());
    assert_eq!(read_lines("\n"), strings(&[""]));
    assert_eq!(read_lines("a\n\nb"), strings(&["a", "", "b"]));
    assert_eq!(read_lines("a\r"), strings(&["a\r"]));
}

#[test]
fn split_str_keeps_empty_fields() {
    assert_eq!(split_str("a,b,,c", ','), strings(&["a", "b", "", "c"]));
    assert_eq!(split_str("", ','), strings(&[""]));
    assert_eq!(split_str("x:y", ':'), strings(&["x", "y"]));
}

#[test]
fn digit_grid_maps_non_digits_to_zero() {
    let grid = Grid::from_digit_lines(&strings(&["12", "3x"]));
    assert_eq!(grid.cells, vec![vec![1u8, 2], vec![3, 0]]);
}

#[test]
fn marker_cells_finds_every_marker() {
    let cells = marker_cells(&strings(&["S.", ".S"]), 'S');
    assert_eq!(cells, vec![Coord { row: 0, col: 0 }, Coord { row: 1, col: 1 }]);
}

#[test]
fn commands_parse_or_are_refused() {
    assert_eq!(parse_command("R12"), Some(Command { right: true, amount: 12 }));
    assert_eq!(parse_command("L0"), Some(Command { right: false, amount: 0 }));
    assert_eq!(parse_command("R2147483647"), Some(Command { right: true, amount: 2147483647 }));
    assert_eq!(parse_command("R2147483648"), None);
    assert_eq!(parse_command("R"), None);
    assert_eq!(parse_command(""), None);
    assert_eq!(parse_command("X3"), None);
    assert_eq!(parse_command("R3a"), None);
}

#[test]
fn solve_clamps_wraps_and_swaps() {
    let lines = strings(&["alfa,bravo,charlie,delta", "", "R2,L5,R1"]);
    assert_eq!(solve(1, &lines), Some("bravo".to_string()));
    assert_eq!(solve(2, &lines), Some("charlie".to_string()));
    let swap_lines = strings(&["alfa,bravo,charlie,delta", "", "R1,L2"]);
    assert_eq!(solve(3, &swap_lines), Some("charlie".to_string()));
}

#[test]
fn solve_refuses_bad_inputs() {
    let lines = strings(&["alfa,bravo", "", "R1"]);
    assert_eq!(solve(4, &lines), None);
    assert_eq!(solve(0, &lines), None);
    assert_eq!(solve(1, &strings(&["alfa,bravo"])), None);
    assert_eq!(solve(1, &strings(&["alfa,bravo", "", "Rx"])), None);
    assert_eq!(solve(2, &strings(&["alfa,bravo", "", "R1,"])), None);
}
