use tetris::board::GameState;
use tetris::cell::{Cell, CellWithRelativePosition};
use tetris::piece::Piece;

/// A piece made of the given pivot-relative positions, pivot at the origin.
fn make_piece(positions: &[(i32, i32)], hue: u32) -> Piece {
    let mut cells = Vec::new();
    for &(x, y) in positions {
        cells.push(CellWithRelativePosition { cell: Cell::new(hue), x, y });
    }
    Piece { cells, center_of_mass_x: 0, center_of_mass_y: 0 }
}

/// Writes the piece's cells at `anchor` straight into the grid.
fn plant(gs: &mut GameState, positions: &[(i32, i32)], anchor: (i32, i32), hue: u32) {
    gs.current_piece = Some(make_piece(positions, hue));
    gs.current_piece_mass_xy = anchor;
    gs.commit_current_piece();
}

/// An empty, live board without an active piece. On a tiny board the very
/// first spawn may already fail; the grid is still empty then, so reviving
/// the state keeps it valid.
fn empty_board(height: usize, width: usize) -> GameState {
    let mut gs = GameState::new(height, width);
    gs.current_piece = None;
    gs.is_alive = true;
    gs
}

fn grid_hues(gs: &GameState) -> Vec<Vec<Option<u32>>> {
    gs.cell_matrix
        .iter()
        .map(|row| row.cells.iter().map(|c| c.as_ref().map(|cell| cell.hue)).collect())
        .collect()
}

fn piece_positions(p: &Piece) -> Vec<(i32, i32)> {
    p.cells.iter().map(|c| (c.x, c.y)).collect()
}

#[test]
fn can_place_accepts_free_in_bounds_cells() {
    let gs = empty_board(5, 5);
    let p = make_piece(&[(0, 0), (1, 0), (0, 1)], 7);
    assert!(gs.can_place(&p, (1, 1)));
    assert!(gs.can_place(&p, (0, 0)));
    assert!(gs.can_place(&p, (3, 3)));
}

#[test]
fn can_place_rejects_out_of_bounds_in_all_four_directions() {
    let gs = empty_board(5, 5);
    let p = make_piece(&[(0, 0)], 7);
    assert!(!gs.can_place(&p, (-1, 2)));
    assert!(!gs.can_place(&p, (5, 2)));
    assert!(!gs.can_place(&p, (2, -1)));
    assert!(!gs.can_place(&p, (2, 5)));
    assert!(gs.can_place(&p, (0, 0)));
    assert!(gs.can_place(&p, (4, 4)));
}

#[test]
fn can_place_rejects_collision_with_planted_cell() {
    let mut gs = empty_board(5, 5);
    plant(&mut gs, &[(0, 0)], (2, 2), 9);
    let p = make_piece(&[(0, 0), (0, 1)], 7);
    // lower cell would land on the planted one
    assert!(!gs.can_place(&p, (2, 1)));
    // one column over is fine
    assert!(gs.can_place(&p, (3, 1)));
}

#[test]
fn commit_writes_projected_cells_and_retires_piece() {
    let mut gs = empty_board(4, 4);
    plant(&mut gs, &[(0, 0), (1, 0)], (1, 3), 42);
    assert!(gs.current_piece.is_none());
    let hues = grid_hues(&gs);
    assert_eq!(hues[3][1], Some(42));
    assert_eq!(hues[3][2], Some(42));
    let planted: usize =
        hues.iter().map(|r| r.iter().filter(|c| c.is_some()).count()).sum();
    assert_eq!(planted, 2);
}

#[test]
fn clear_after_commit_is_idempotent_without_full_rows() {
    let mut gs = empty_board(5, 4);
    plant(&mut gs, &[(0, 0), (1, 0)], (0, 4), 3);
    plant(&mut gs, &[(0, 0)], (3, 3), 5);
    let before = grid_hues(&gs);
    let cleared_before = gs.rows_cleared;
    gs.clear_finished_rows();
    assert_eq!(grid_hues(&gs), before);
    assert_eq!(gs.rows_cleared, cleared_before);
}

#[test]
fn full_bottom_row_clears_with_nothing_above() {
    // board width 4, height 3; fill all of row 2 (the bottom) and clear
    let mut gs = empty_board(3, 4);
    plant(&mut gs, &[(0, 0), (1, 0), (2, 0), (3, 0)], (0, 2), 11);
    gs.clear_finished_rows();
    assert_eq!(gs.rows_cleared, 1);
    let hues = grid_hues(&gs);
    for y in 0..3 {
        for x in 0..4 {
            assert_eq!(hues[y][x], None);
        }
    }
}

#[test]
fn cleared_row_shifts_everything_above_down_by_one() {
    let mut gs = empty_board(4, 4);
    // bottom row full, one cell in each of the two rows above
    plant(&mut gs, &[(0, 0), (1, 0), (2, 0), (3, 0)], (0, 3), 1);
    plant(&mut gs, &[(0, 0)], (0, 2), 2);
    plant(&mut gs, &[(0, 0)], (1, 1), 3);
    let before = gs.rows_cleared;
    gs.clear_finished_rows();
    assert_eq!(gs.rows_cleared, before + 1);
    let hues = grid_hues(&gs);
    // rows slide down one: the old rows 1 and 2 are now rows 2 and 3
    assert_eq!(hues[3][0], Some(2));
    assert_eq!(hues[2][1], Some(3));
    // everything else is empty
    let planted: usize =
        hues.iter().map(|r| r.iter().filter(|c| c.is_some()).count()).sum();
    assert_eq!(planted, 2);
}

#[test]
fn rows_below_a_cleared_row_are_unaffected() {
    let mut gs = empty_board(4, 4);
    // a full row at height 2 with a lone cell on the bottom row below it
    plant(&mut gs, &[(0, 0), (1, 0), (2, 0), (3, 0)], (0, 2), 6);
    plant(&mut gs, &[(0, 0)], (0, 3), 7);
    gs.clear_finished_rows();
    assert_eq!(gs.rows_cleared, 1);
    let hues = grid_hues(&gs);
    assert_eq!(hues[3][0], Some(7));
    let planted: usize =
        hues.iter().map(|r| r.iter().filter(|c| c.is_some()).count()).sum();
    assert_eq!(planted, 1);
}

#[test]
fn collapse_stops_at_the_first_empty_row_above() {
    // a floating cell on the top row, an empty row, an occupied row, and a
    // full bottom row: the emptied row bubbles past the occupied row only
    // and parks below the gap, leaving the floating cell in place
    let mut gs = empty_board(4, 4);
    plant(&mut gs, &[(0, 0)], (0, 0), 5);
    plant(&mut gs, &[(0, 0)], (1, 2), 6);
    plant(&mut gs, &[(0, 0), (1, 0), (2, 0), (3, 0)], (0, 3), 7);
    gs.clear_finished_rows();
    assert_eq!(gs.rows_cleared, 1);
    let hues = grid_hues(&gs);
    assert_eq!(hues[0][0], Some(5));
    assert_eq!(hues[3][1], Some(6));
    let planted: usize =
        hues.iter().map(|r| r.iter().filter(|c| c.is_some()).count()).sum();
    assert_eq!(planted, 2);
}

#[test]
fn two_stacked_full_rows_clear_in_one_call() {
    let mut gs = empty_board(3, 4);
    plant(&mut gs, &[(0, 0), (1, 0), (2, 0), (3, 0)], (0, 2), 1);
    plant(&mut gs, &[(0, 0), (1, 0), (2, 0), (3, 0)], (0, 1), 2);
    gs.clear_finished_rows();
    assert_eq!(gs.rows_cleared, 2);
    let planted: usize =
        grid_hues(&gs).iter().map(|r| r.iter().filter(|c| c.is_some()).count()).sum();
    assert_eq!(planted, 0);
}

#[test]
fn failed_rotation_leaves_state_identical() {
    let mut gs = empty_board(5, 5);
    // a vertical bar against the left wall: rotating would leave the board
    gs.current_piece = Some(make_piece(&[(0, -1), (0, 0), (0, 1)], 4));
    gs.current_piece_mass_xy = (0, 2);
    let grid = grid_hues(&gs);
    let anchor = gs.current_piece_mass_xy;
    let positions = piece_positions(gs.current_piece.as_ref().unwrap());
    let cleared = gs.rows_cleared;
    assert!(!gs.try_rotate_current_piece(true));
    assert_eq!(grid_hues(&gs), grid);
    assert_eq!(gs.current_piece_mass_xy, anchor);
    assert_eq!(piece_positions(gs.current_piece.as_ref().unwrap()), positions);
    assert_eq!(gs.rows_cleared, cleared);
    assert!(gs.is_alive);
}

#[test]
fn failed_shift_leaves_state_identical() {
    let mut gs = empty_board(5, 5);
    gs.current_piece = Some(make_piece(&[(0, 0)], 4));
    gs.current_piece_mass_xy = (0, 2);
    let grid = grid_hues(&gs);
    assert!(!gs.try_leftright_current_piece(true));
    assert_eq!(grid_hues(&gs), grid);
    assert_eq!(gs.current_piece_mass_xy, (0, 2));
    assert!(gs.current_piece.is_some());
}

#[test]
fn successful_rotation_turns_offsets_quarter_turn() {
    let mut gs = empty_board(5, 5);
    gs.current_piece = Some(make_piece(&[(0, 0), (1, 0)], 4));
    gs.current_piece_mass_xy = (2, 2);
    assert!(gs.try_rotate_current_piece(true));
    // clockwise: (x, y) -> (y, -x)
    assert_eq!(piece_positions(gs.current_piece.as_ref().unwrap()), vec![(0, 0), (0, -1)]);
    assert_eq!(gs.current_piece_mass_xy, (2, 2));
}

#[test]
fn successful_shift_moves_anchor_one_column() {
    let mut gs = empty_board(5, 5);
    gs.current_piece = Some(make_piece(&[(0, 0)], 4));
    gs.current_piece_mass_xy = (2, 2);
    assert!(gs.try_leftright_current_piece(false));
    assert_eq!(gs.current_piece_mass_xy, (3, 2));
    assert!(gs.try_leftright_current_piece(true));
    assert_eq!(gs.current_piece_mass_xy, (2, 2));
}

#[test]
fn drop_advances_anchor_one_row() {
    let mut gs = empty_board(5, 5);
    gs.current_piece = Some(make_piece(&[(0, 0)], 4));
    gs.current_piece_mass_xy = (2, 0);
    assert!(gs.try_drop_current_piece());
    assert_eq!(gs.current_piece_mass_xy, (2, 1));
}

#[test]
fn blocked_drop_commits_piece_and_reports_false() {
    let mut gs = empty_board(3, 3);
    gs.current_piece = Some(make_piece(&[(0, 0)], 8));
    gs.current_piece_mass_xy = (1, 2);
    assert!(!gs.try_drop_current_piece());
    assert!(gs.current_piece.is_none());
    assert_eq!(grid_hues(&gs)[2][1], Some(8));
    assert!(gs.is_alive);
}

#[test]
fn landing_that_fills_a_row_clears_it() {
    let mut gs = empty_board(3, 2);
    plant(&mut gs, &[(0, 0)], (0, 2), 1);
    gs.current_piece = Some(make_piece(&[(0, 0)], 2));
    gs.current_piece_mass_xy = (1, 2);
    assert!(!gs.try_drop_current_piece());
    assert_eq!(gs.rows_cleared, 1);
    let planted: usize =
        grid_hues(&gs).iter().map(|r| r.iter().filter(|c| c.is_some()).count()).sum();
    assert_eq!(planted, 0);
}

#[test]
fn spawn_on_open_board_keeps_game_alive() {
    let gs = GameState::new(24, 10);
    assert!(gs.is_alive);
    assert!(gs.current_piece.is_some());
    // the spawn column is the middle of the board
    assert_eq!(gs.current_piece_mass_xy.0, 5);
}

#[test]
fn drop_without_piece_spawns_one() {
    let mut gs = empty_board(24, 10);
    assert!(!gs.try_drop_current_piece());
    assert!(gs.is_alive);
    assert!(gs.current_piece.is_some());
}

#[test]
fn spawn_into_blocked_rows_ends_the_game() {
    // top two rows pre-filled except the spawn column: no 3-to-5-cell
    // connected piece fits into a single free column of height two
    let mut gs = empty_board(2, 9);
    for y in 0..2 {
        plant(&mut gs, &[(0, 0), (1, 0), (2, 0), (3, 0)], (0, y), 1);
        plant(&mut gs, &[(0, 0), (1, 0), (2, 0), (3, 0)], (5, y), 1);
    }
    let grid = grid_hues(&gs);
    assert!(!gs.try_drop_current_piece());
    assert!(!gs.is_alive);
    assert!(gs.current_piece.is_none());
    assert_eq!(grid_hues(&gs), grid);
}

#[test]
fn dead_board_ignores_all_mutators() {
    let mut gs = empty_board(2, 9);
    for y in 0..2 {
        plant(&mut gs, &[(0, 0), (1, 0), (2, 0), (3, 0)], (0, y), 1);
        plant(&mut gs, &[(0, 0), (1, 0), (2, 0), (3, 0)], (5, y), 1);
    }
    gs.try_drop_current_piece();
    assert!(!gs.is_alive);
    let grid = grid_hues(&gs);
    let cleared = gs.rows_cleared;
    assert!(!gs.try_rotate_current_piece(true));
    assert!(!gs.try_leftright_current_piece(false));
    assert!(!gs.try_drop_current_piece());
    assert!(!gs.is_alive);
    assert!(gs.current_piece.is_none());
    assert_eq!(grid_hues(&gs), grid);
    assert_eq!(gs.rows_cleared, cleared);
}

#[test]
fn reset_restores_a_fresh_board() {
    let mut gs = empty_board(4, 4);
    plant(&mut gs, &[(0, 0), (1, 0), (2, 0), (3, 0)], (0, 3), 1);
    plant(&mut gs, &[(0, 0)], (0, 2), 2);
    gs.clear_finished_rows();
    assert!(gs.rows_cleared > 0);
    gs.reset();
    assert_eq!(gs.rows_cleared, 0);
    assert!(gs.is_alive);
    assert!(gs.current_piece.is_none());
    let planted: usize =
        grid_hues(&gs).iter().map(|r| r.iter().filter(|c| c.is_some()).count()).sum();
    assert_eq!(planted, 0);
}

#[test]
fn rows_cleared_never_decreases_over_a_long_game() {
    let mut gs = GameState::new(12, 9);
    let mut last = gs.rows_cleared;
    for step in 0..400 {
        if !gs.is_alive {
            break;
        }
        if step % 3 == 0 {
            gs.try_leftright_current_piece(step % 2 == 0);
        }
        if step % 5 == 0 {
            gs.try_rotate_current_piece(true);
        }
        gs.try_drop_current_piece();
        assert!(gs.rows_cleared >= last);
        last = gs.rows_cleared;
    }
}
