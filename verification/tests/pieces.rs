use tetris::cell::{Cell, CellWithRelativePosition, HUE_STEPS};
use tetris::piece::Piece;
use tetris::rng::RandomNumberGenerator;

fn make_piece(positions: &[(i32, i32)], com: (i32, i32), hue: u32) -> Piece {
    let mut cells = Vec::new();
    for &(x, y) in positions {
        cells.push(CellWithRelativePosition { cell: Cell::new(hue), x, y });
    }
    Piece { cells, center_of_mass_x: com.0, center_of_mass_y: com.1 }
}

fn positions(p: &Piece) -> Vec<(i32, i32)> {
    p.cells.iter().map(|c| (c.x, c.y)).collect()
}

#[test]
fn rotation_quarter_turn_exact_values() {
    let p = make_piece(&[(1, 2), (2, 2), (1, 3)], (1, 2), 0);
    // clockwise about (1, 2): offset (x, y) -> (y, -x)
    let q = p.rotated(true);
    assert_eq!(positions(&q), vec![(1, 2), (1, 1), (2, 2)]);
    assert_eq!((q.center_of_mass_x, q.center_of_mass_y), (1, 2));
    // counter-clockwise about (1, 2): offset (x, y) -> (-y, x)
    let r = p.rotated(false);
    assert_eq!(positions(&r), vec![(1, 2), (1, 3), (0, 2)]);
}

#[test]
fn rotation_does_not_mutate_the_input() {
    let p = make_piece(&[(0, 0), (1, 0), (1, 1)], (0, 0), 5);
    let before = positions(&p);
    let _ = p.rotated(true);
    assert_eq!(positions(&p), before);
}

#[test]
fn four_quarter_turns_restore_every_cell() {
    let p = make_piece(&[(0, 0), (1, 0), (1, 1), (2, 1)], (1, 1), 3);
    let original = positions(&p);
    for clockwise in [true, false] {
        let turned = p.rotated(clockwise).rotated(clockwise).rotated(clockwise).rotated(clockwise);
        assert_eq!(positions(&turned), original);
        assert_eq!(
            (turned.center_of_mass_x, turned.center_of_mass_y),
            (p.center_of_mass_x, p.center_of_mass_y),
        );
    }
}

#[test]
fn opposite_turns_cancel_pairwise() {
    let p = make_piece(&[(0, 0), (0, 1), (1, 1)], (0, 1), 3);
    let original = positions(&p);
    let back = p.rotated(true).rotated(true).rotated(false).rotated(false);
    assert_eq!(positions(&back), original);
}

#[test]
fn projection_yields_each_cell_once_at_global_coordinates() {
    let p = make_piece(&[(1, 2), (2, 2)], (1, 2), 9);
    let mut it = p.iter_global_space((10, 20));
    assert_eq!(it.next().map(|(c, x, y)| (c.hue, x, y)), Some((9, 10, 20)));
    assert_eq!(it.next().map(|(c, x, y)| (c.hue, x, y)), Some((9, 11, 20)));
    assert!(it.next().is_none());
    assert!(it.next().is_none());
}

#[test]
fn projection_is_restartable() {
    let p = make_piece(&[(0, 0), (0, 1)], (0, 0), 1);
    let mut first = p.iter_global_space((3, 4));
    while first.next().is_some() {}
    let mut second = p.iter_global_space((3, 4));
    assert_eq!(second.next().map(|(_, x, y)| (x, y)), Some((3, 4)));
    assert_eq!(second.next().map(|(_, x, y)| (x, y)), Some((3, 5)));
    assert!(second.next().is_none());
}

#[test]
fn uniform_stays_in_half_open_range() {
    let mut rng = RandomNumberGenerator {};
    for _ in 0..2000 {
        let v = rng.uniform(3, 6);
        assert!((3..6).contains(&v));
    }
    for _ in 0..100 {
        assert_eq!(rng.uniform(7, 8), 7);
    }
}

#[test]
fn uniform_draws_vary_across_calls() {
    let mut rng = RandomNumberGenerator {};
    let mut distinct: Vec<usize> = Vec::new();
    for _ in 0..500 {
        let v = rng.uniform(0, 1000);
        if !distinct.contains(&v) {
            distinct.push(v);
        }
    }
    assert!(distinct.len() > 10);
}

#[test]
fn generated_pieces_vary_in_shape() {
    let mut rng = RandomNumberGenerator {};
    let mut sizes: Vec<usize> = Vec::new();
    for _ in 0..100 {
        let p = Piece::generate_new(&mut rng);
        if !sizes.contains(&p.cells.len()) {
            sizes.push(p.cells.len());
        }
    }
    assert!(sizes.len() > 1);
}

#[test]
fn generated_pieces_have_three_to_five_connected_distinct_cells() {
    let mut rng = RandomNumberGenerator {};
    for _ in 0..200 {
        let p = Piece::generate_new(&mut rng);
        let pos = positions(&p);
        assert!((3..=5).contains(&pos.len()));
        assert_eq!(pos[0], (0, 0));
        // one shared hue, in range
        let hue = p.cells[0].cell.hue;
        assert!(hue < HUE_STEPS);
        for c in &p.cells {
            assert_eq!(c.cell.hue, hue);
        }
        // no two cells share a position
        for i in 0..pos.len() {
            for j in (i + 1)..pos.len() {
                assert_ne!(pos[i], pos[j]);
            }
        }
        // every cell is reachable from the origin via unit steps
        let mut reached = vec![false; pos.len()];
        reached[0] = true;
        let mut frontier = vec![0usize];
        while let Some(i) = frontier.pop() {
            for j in 0..pos.len() {
                if !reached[j] {
                    let dx = (pos[i].0 - pos[j].0).abs();
                    let dy = (pos[i].1 - pos[j].1).abs();
                    if dx + dy == 1 {
                        reached[j] = true;
                        frontier.push(j);
                    }
                }
            }
        }
        assert!(reached.iter().all(|&r| r));
        // the pivot is the rounded average of the cell positions
        let n = pos.len() as f64;
        let avg_x: f64 = pos.iter().map(|&(x, _)| x as f64).sum::<f64>() / n;
        let avg_y: f64 = pos.iter().map(|&(_, y)| y as f64).sum::<f64>() / n;
        assert_eq!(p.center_of_mass_x, avg_x.round() as i32);
        assert_eq!(p.center_of_mass_y, avg_y.round() as i32);
    }
}

#[test]
fn hue_steps_bound_is_respected_by_cell_new() {
    let c = Cell::new(HUE_STEPS - 1);
    assert_eq!(c.hue, HUE_STEPS - 1);
}
