use tiles2048::spawn::{spawn_bound, spawn_count, tile_for_roll};
use tiles2048::{Cell, Direction, State, Turn};

const E: Cell = Cell::Empty;

fn v(n: u16) -> Cell {
    Cell::Value(n)
}

fn grid(rows: Vec<Vec<Cell>>) -> State {
    let height = rows.len() as u32;
    let width = rows[0].len() as u32;
    let empty = rows.iter().flatten().filter(|c| **c == Cell::Empty).count() as u32;
    State { width, height, field: rows, is_run: true, empty_count: empty }
}

fn scan_empty(s: &State) -> u32 {
    s.field.iter().flatten().filter(|c| **c == Cell::Empty).count() as u32
}

fn row_grid(row: Vec<Cell>) -> State {
    grid(vec![row, vec![E, E, E, E], vec![E, E, E, E], vec![E, E, E, E]])
}

#[test]
fn merge_pair_left() {
    let mut s = row_grid(vec![v(2), v(2), E, E]);
    assert!(s.move_to(Direction::Left));
    assert_eq!(s.field[0], vec![v(4), E, E, E]);
    assert_eq!(s.empty_count, 15);
}

#[test]
fn no_double_merge_left() {
    let mut s = row_grid(vec![v(2), v(2), v(4), v(4)]);
    assert!(s.move_to(Direction::Left));
    assert_eq!(s.field[0], vec![v(4), v(8), E, E]);
    assert_eq!(s.empty_count, 14);
}

#[test]
fn three_equal_left() {
    let mut s = row_grid(vec![v(2), v(2), v(2), E]);
    assert!(s.move_to(Direction::Left));
    assert_eq!(s.field[0], vec![v(4), v(2), E, E]);
}

#[test]
fn four_equal_left() {
    let mut s = row_grid(vec![v(2), v(2), v(2), v(2)]);
    assert!(s.move_to(Direction::Left));
    assert_eq!(s.field[0], vec![v(4), v(4), E, E]);
}

#[test]
fn three_equal_after_gap_left() {
    let mut s = row_grid(vec![E, v(2), v(2), v(2)]);
    assert!(s.move_to(Direction::Left));
    assert_eq!(s.field[0], vec![v(4), v(2), E, E]);
}

#[test]
fn slide_right() {
    let mut s = row_grid(vec![v(2), E, v(4), E]);
    assert!(s.move_to(Direction::Right));
    assert_eq!(s.field[0], vec![E, E, v(2), v(4)]);
}

#[test]
fn merge_right_keeps_far_edge_first() {
    let mut s = row_grid(vec![v(2), v(2), v(2), E]);
    assert!(s.move_to(Direction::Right));
    assert_eq!(s.field[0], vec![E, E, v(2), v(4)]);
}

#[test]
fn merge_up_and_down() {
    let col = |a: Cell, b: Cell, c: Cell, d: Cell| {
        grid(vec![vec![a, E], vec![b, E], vec![c, E], vec![d, E]])
    };
    let mut s = col(v(2), E, v(2), v(8));
    assert!(s.move_to(Direction::Up));
    let up: Vec<Cell> = s.field.iter().map(|r| r[0]).collect();
    assert_eq!(up, vec![v(4), v(8), E, E]);
    assert_eq!(s.empty_count, 6);

    let mut s = col(v(2), E, v(2), v(8));
    assert!(s.move_to(Direction::Down));
    let down: Vec<Cell> = s.field.iter().map(|r| r[0]).collect();
    assert_eq!(down, vec![E, E, v(4), v(8)]);
}

#[test]
fn repeated_move_reports_false() {
    let mut s = row_grid(vec![v(2), v(2), v(4), E]);
    assert!(s.move_to(Direction::Left));
    assert_eq!(s.field[0], vec![v(4), v(4), E, E]);
    assert!(s.move_to(Direction::Left));
    assert_eq!(s.field[0], vec![v(8), E, E, E]);
    assert!(!s.move_to(Direction::Left));
    assert_eq!(s.field[0], vec![v(8), E, E, E]);
}

#[test]
fn compacted_line_is_unmoved() {
    let mut s = row_grid(vec![v(2), v(4), v(8), E]);
    let before = s.field.clone();
    assert!(!s.move_to(Direction::Left));
    assert_eq!(s.field, before);
}

#[test]
fn empty_count_tracks_grid() {
    let mut s = State::new(4, 4);
    s.randomize();
    assert_eq!(s.empty_count, scan_empty(&s));
    let dirs = [Direction::Left, Direction::Up, Direction::Right, Direction::Down];
    for i in 0..40 {
        let d = dirs[i % 4];
        let moved = s.move_to(d);
        assert_eq!(s.empty_count, scan_empty(&s));
        if moved && s.empty_count > 0 {
            s.randomize();
            assert_eq!(s.empty_count, scan_empty(&s));
        }
    }
}

fn checkerboard() -> State {
    grid(vec![
        vec![v(2), v(4), v(2), v(4)],
        vec![v(4), v(2), v(4), v(2)],
        vec![v(2), v(4), v(2), v(4)],
        vec![v(4), v(2), v(4), v(2)],
    ])
}

#[test]
fn checkerboard_is_lost() {
    let s = checkerboard();
    assert_eq!(s.empty_count, 0);
    assert!(s.check_lose());
}

#[test]
fn equal_pair_is_not_lost() {
    let mut s = checkerboard();
    s.field[2][3] = v(2);
    assert!(!s.check_lose());
    let mut s = checkerboard();
    s.field[1][0] = v(2);
    assert!(!s.check_lose());
}

#[test]
fn empty_cell_is_not_lost() {
    let mut s = checkerboard();
    s.field[3][3] = E;
    s.empty_count = 1;
    assert!(!s.check_lose());
}

#[test]
fn new_grid_is_not_lost_or_won() {
    let s = State::new(4, 4);
    assert!(!s.check_lose());
    assert!(!s.check_win());
    assert_eq!(s.empty_count, 16);
    assert!(s.is_run);
}

#[test]
fn cell_2048_wins() {
    let mut s = checkerboard();
    s.field[3][1] = v(2048);
    assert!(s.check_win());
}

#[test]
fn max_1024_does_not_win() {
    let mut s = checkerboard();
    s.field[0][0] = v(1024);
    s.field[2][2] = v(1024);
    assert!(!s.check_win());
}

#[test]
fn spawn_on_new_grid() {
    for _ in 0..50 {
        let mut s = State::new(4, 4);
        s.randomize();
        let spawned = 16 - s.empty_count;
        assert!(spawned >= 1 && spawned <= 2);
        assert_eq!(s.empty_count, scan_empty(&s));
        for c in s.field.iter().flatten() {
            assert!(*c == E || *c == v(2) || *c == v(4));
        }
    }
}

#[test]
fn spawn_keeps_tiles_and_fills_at_most_empty() {
    for _ in 0..50 {
        let mut s = checkerboard();
        s.field[1][1] = E;
        s.empty_count = 1;
        let before = s.field.clone();
        s.randomize();
        assert_eq!(s.empty_count, 0);
        assert!(s.field[1][1] == v(2) || s.field[1][1] == v(4));
        for r in 0..4 {
            for c in 0..4 {
                if (r, c) != (1, 1) {
                    assert_eq!(s.field[r][c], before[r][c]);
                }
            }
        }
    }
}

#[test]
fn spawn_on_full_grid_places_nothing() {
    let mut s = checkerboard();
    let before = s.field.clone();
    s.randomize();
    assert_eq!(s.field, before);
    assert_eq!(s.empty_count, 0);
}

#[test]
fn spawn_picks_varied_cells() {
    let mut first_cell_only = true;
    for _ in 0..60 {
        let mut s = State::new(4, 4);
        s.randomize();
        if s.field[0][0] == E {
            first_cell_only = false;
        }
    }
    assert!(!first_cell_only);
}

#[test]
fn spawn_bound_values() {
    assert_eq!(spawn_bound(16), 2);
    assert_eq!(spawn_bound(8), 1);
    assert_eq!(spawn_bound(15), 1);
    assert_eq!(spawn_bound(64), 4);
    assert_eq!(spawn_bound(4), 0);
}

#[test]
fn spawn_count_values() {
    assert_eq!(spawn_count(2, 0, 16), 1);
    assert_eq!(spawn_count(2, 7, 16), 2);
    assert_eq!(spawn_count(4, 7, 2), 2);
    assert_eq!(spawn_count(4, 7, 0), 0);
}

#[test]
fn tile_for_roll_values() {
    assert_eq!(tile_for_roll(73), v(2));
    assert_eq!(tile_for_roll(74), v(4));
    assert_eq!(tile_for_roll(99), v(4));
    assert_eq!(tile_for_roll(100), v(2));
}

#[test]
fn icons() {
    assert_eq!(E.get_icon(), '#');
    assert_eq!(v(2).get_icon(), '2');
    assert_eq!(v(16).get_icon(), 'A');
    assert_eq!(v(1024).get_icon(), 'G');
    assert_eq!(v(2048).get_icon(), '*');
}

#[test]
fn default_is_four_by_four() {
    let s = State::default();
    assert_eq!((s.width, s.height, s.empty_count), (4, 4, 16));
    assert_eq!(s.field.len(), 4);
}

#[test]
fn turn_unmoved_keeps_grid() {
    let mut s = row_grid(vec![v(2), v(4), v(8), E]);
    let before = s.field.clone();
    assert_eq!(s.play_turn(Direction::Left), Turn::Unmoved);
    assert_eq!(s.field, before);
    assert!(s.is_run);
}

#[test]
fn turn_won_stops() {
    let mut s = row_grid(vec![v(1024), v(1024), E, E]);
    assert_eq!(s.play_turn(Direction::Left), Turn::Won);
    assert_eq!(s.field[0], vec![v(2048), E, E, E]);
    assert_eq!(s.empty_count, 15);
    assert!(!s.is_run);
}

#[test]
fn turn_lost_stops() {
    for _ in 0..20 {
        let mut s = grid(vec![
            vec![v(2), v(2), v(8), v(16)],
            vec![v(32), v(64), v(32), v(8)],
            vec![v(64), v(32), v(64), v(32)],
            vec![v(32), v(64), v(32), v(64)],
        ]);
        assert_eq!(s.play_turn(Direction::Left), Turn::Lost);
        assert_eq!(s.field[0][..3], [v(4), v(8), v(16)]);
        assert!(s.field[0][3] == v(2) || s.field[0][3] == v(4));
        assert_eq!(s.empty_count, 0);
        assert!(!s.is_run);
    }
}

#[test]
fn turn_going_spawns() {
    let mut s = row_grid(vec![v(2), E, E, E]);
    assert_eq!(s.play_turn(Direction::Right), Turn::Going);
    assert_eq!(s.field[0][3], v(2));
    let spawned = 15 - s.empty_count;
    assert!(spawned >= 1 && spawned <= 2);
    assert_eq!(s.empty_count, scan_empty(&s));
    assert!(s.is_run);
}
