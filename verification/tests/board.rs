use battlesnake::bitboard::Bb;
use battlesnake::fill::{flood_fill, space_after};
use battlesnake::grid::{
    cell, cx, cy, in_bounds, manhattan, reverse_step, Cell, Dir, CELLS, DIRS, H, W,
};

#[test]
fn test_flood_fill_open_board() {
    // Empty board: all 121 cells
    let obs = Bb::default();
    assert_eq!(flood_fill(cell(5, 5), obs), 121);
}

#[test]
fn test_flood_fill_blocked_start() {
    let mut obs = Bb::default();
    obs.set(cell(5, 5));
    assert_eq!(flood_fill(cell(5, 5), obs), 0);
}

#[test]
fn test_flood_fill_walled_off() {
    // A wall at x=5 leaves two halves of 5*11 = 55 cells
    let mut obs = Bb::default();
    for y in 0..H {
        obs.set(cell(5, y));
    }
    assert_eq!(flood_fill(cell(0, 0), obs), 55);
    assert_eq!(flood_fill(cell(10, 0), obs), 55);
}

#[test]
fn test_cell_encoding() {
    // No two distinct coordinates share a cell
    let mut seen = std::collections::HashSet::new();
    for x in 0..W {
        for y in 0..H {
            let c = cell(x, y);
            assert!(seen.insert(c), "collision at ({},{})", x, y);
            assert_eq!(cx(c), x);
            assert_eq!(cy(c), y);
        }
    }
}

#[test]
fn test_avoid_dead_end() {
    let mut obs = Bb::default();
    // Left, right and down are blocked, only up is open
    obs.set(cell(4, 5)); // neck
    obs.set(cell(6, 5)); // right
    obs.set(cell(5, 4)); // down
    let space_up = space_after(cell(5, 5), cell(5, 6), obs);
    let space_down = space_after(cell(5, 5), cell(5, 4), obs);
    assert!(space_up > space_down, "Up should have more space than blocked down");
}

#[test]
fn test_bitboard_all_cells() {
    let mut bb = Bb::default();
    for x in 0..W {
        for y in 0..H {
            bb.set(cell(x, y));
        }
    }
    assert_eq!(bb.count(), 121);
    for x in 0..W {
        for y in 0..H {
            assert!(bb.get(cell(x, y)));
        }
    }
}

#[test]
fn test_bitboard_iter() {
    let mut bb = Bb::default();
    let cells = [cell(0, 0), cell(5, 5), cell(10, 10), cell(3, 7)];
    for &c in &cells {
        bb.set(c);
    }
    let mut collected: Vec<Cell> = bb.iter().collect();
    collected.sort();
    let mut expected = cells.to_vec();
    expected.sort();
    assert_eq!(collected, expected);
}

#[test]
fn cells_count_row_by_row() {
    assert_eq!(cell(0, 0), 0);
    assert_eq!(cell(10, 0), 10);
    assert_eq!(cell(0, 1), 11);
    assert_eq!(cell(5, 5), 60);
    assert_eq!(cell(10, 10), 120);
    // Off the board the code wraps around
    assert_eq!(cell(-1, 0), 255);
    assert_eq!(cell(0, -1), 245);
}

#[test]
fn bounds_of_the_board() {
    assert!(in_bounds(0, 0));
    assert!(in_bounds(10, 10));
    assert!(!in_bounds(-1, 0));
    assert!(!in_bounds(0, 11));
    assert!(!in_bounds(11, 10));
    assert!(!in_bounds(i8::MIN, i8::MAX));
}

#[test]
fn manhattan_distances() {
    assert_eq!(manhattan(cell(0, 0), cell(10, 10)), 20);
    assert_eq!(manhattan(cell(3, 7), cell(3, 7)), 0);
    assert_eq!(manhattan(cell(2, 9), cell(6, 1)), 12);
    assert_eq!(manhattan(cell(6, 1), cell(2, 9)), 12);
}

#[test]
fn steps_in_all_directions() {
    assert_eq!(Dir::Up.step(cell(5, 5)), Some(cell(5, 6)));
    assert_eq!(Dir::Down.step(cell(5, 5)), Some(cell(5, 4)));
    assert_eq!(Dir::Left.step(cell(5, 5)), Some(cell(4, 5)));
    assert_eq!(Dir::Right.step(cell(5, 5)), Some(cell(6, 5)));
    assert_eq!(Dir::Up.step(cell(0, 10)), None);
    assert_eq!(Dir::Down.step(cell(0, 0)), None);
    assert_eq!(Dir::Left.step(cell(0, 0)), None);
    assert_eq!(Dir::Right.step(cell(10, 3)), None);
    assert_eq!(Dir::Left.delta(), (-1, 0));
    assert_eq!(Dir::Up.delta(), (0, 1));
    let names: Vec<&str> = DIRS.iter().map(|d| d.as_str()).collect();
    assert_eq!(names, vec!["up", "down", "left", "right"]);
}

#[test]
fn steps_lead_to_adjacent_cells_and_back() {
    for c in 0..CELLS as Cell {
        for d in DIRS {
            if let Some(n) = d.step(c) {
                assert_eq!(manhattan(c, n), 1);
                assert_eq!(reverse_step(d, n), c);
            }
        }
    }
}

#[test]
fn sets_add_remove_and_unite() {
    let mut a = Bb::default();
    a.set(0);
    a.set(63);
    a.set(64);
    a.set(120);
    a.set(120);
    assert_eq!(a.count(), 4);
    a.unset(63);
    a.unset(7);
    assert!(!a.get(63));
    assert_eq!(a.count(), 3);
    let mut b = Bb::default();
    b.set(64);
    b.set(65);
    let u = a.or(b);
    assert_eq!(u.iter().collect(), vec![0, 64, 65, 120]);
    assert_eq!(Bb::default().count(), 0);
    assert_eq!(Bb::default().iter().collect(), Vec::<Cell>::new());
}

#[test]
fn sets_are_walked_in_ascending_order() {
    let mut bb = Bb::default();
    for c in [70, 3, 127, 64, 63] {
        bb.set(c);
    }
    let mut it = bb.iter();
    assert_eq!(it.next(), Some(3));
    assert_eq!(it.next(), Some(63));
    assert_eq!(it.next(), Some(64));
    assert_eq!(it.next(), Some(70));
    assert_eq!(it.next(), Some(127));
    assert_eq!(it.next(), None);
    assert_eq!(it.next(), None);
}

#[test]
fn every_cell_reaches_the_whole_open_board() {
    for c in 0..CELLS as Cell {
        assert_eq!(flood_fill(c, Bb::default()), 121);
    }
}

#[test]
fn regions_are_shared_and_shrink_with_obstacles() {
    let mut obs = Bb::default();
    for y in 0..H {
        obs.set(cell(3, y));
    }
    assert_eq!(flood_fill(cell(0, 0), obs), 33);
    assert_eq!(flood_fill(cell(2, 9), obs), 33);
    assert_eq!(flood_fill(cell(4, 4), obs), 77);
    obs.set(cell(1, 1));
    assert_eq!(flood_fill(cell(0, 0), obs), 32);
}

#[test]
fn space_after_a_move_blocks_the_cell_left() {
    let obs = Bb::default();
    assert_eq!(space_after(cell(5, 5), cell(5, 6), obs), 120);
    // Leaving the corner cell of a corridor of two cells
    let mut tight = Bb::default();
    tight.set(cell(2, 0));
    tight.set(cell(0, 1));
    tight.set(cell(1, 1));
    assert_eq!(space_after(cell(0, 0), cell(1, 0), tight), 1);
    assert_eq!(space_after(cell(0, 0), cell(0, 1), tight), 0);
}
