use battlesnake::bitboard::Bb;
use battlesnake::grid::{cell, manhattan, Cell, Dir, CELLS, H};
use battlesnake::path::{astar, nearest_food};
use battlesnake::snake::{Snake, MAX_BODY};
use battlesnake::state::State;
use battlesnake::voronoi::voronoi;

fn make_state(player: &[Cell], enemies: &[&[Cell]], food_cells: &[Cell]) -> State {
    let dead = Snake { health: 0, alive: false, body: [0u8; MAX_BODY], head_idx: 0, length: 1 };
    let mut snakes = [dead.clone(), dead.clone(), dead.clone(), dead];
    snakes[0] = Snake::new(player);
    let mut n = 1;
    for (i, e) in enemies.iter().enumerate() {
        if i + 1 < 4 {
            snakes[i + 1] = Snake::new(e);
            n = i + 2;
        }
    }
    let mut food = Bb::default();
    for &f in food_cells {
        food.set(f);
    }
    State { snakes, n_snakes: n, food, turn: 0 }
}

fn cells(list: &[Cell]) -> Bb {
    let mut bb = Bb::default();
    for &c in list {
        bb.set(c);
    }
    bb
}

#[test]
fn test_astar_finds_path() {
    let obs = Bb::default();
    let result = astar(cell(0, 0), cell(10, 10), obs);
    assert!(result.is_some());
    let (dist, _) = result.unwrap();
    assert_eq!(dist, 20); // the Manhattan distance
}

#[test]
fn test_astar_blocked() {
    // A wall cuts the board in two
    let mut obs = Bb::default();
    for y in 0..H {
        obs.set(cell(5, y));
    }
    assert!(astar(cell(0, 0), cell(10, 0), obs).is_none());
}

#[test]
fn test_astar_blocked_start() {
    let mut obs = Bb::default();
    obs.set(cell(0, 0));
    assert!(astar(cell(0, 0), cell(5, 5), obs).is_none());
}

#[test]
fn test_voronoi_even_split() {
    // Heads on opposite edges split the board roughly in half
    let p_body = [cell(0, 5), cell(0, 4), cell(0, 3)];
    let e_body = [cell(10, 5), cell(10, 4), cell(10, 3)];
    let state = make_state(&p_body, &[&e_body], &[]);
    let obs = state.obs();
    let terr = voronoi(&state, obs);
    assert!(terr[0] > 30, "Player should own significant territory");
    assert!(terr[1] > 30, "Enemy should own significant territory");
    assert!((terr[0] as i32 - terr[1] as i32).abs() < 20, "Should be roughly even");
}

#[test]
fn astar_goes_around_a_wall() {
    let mut obs = Bb::default();
    for y in 0..10 {
        obs.set(cell(5, y));
    }
    assert_eq!(astar(cell(0, 0), cell(10, 0), obs), Some((30, Dir::Right)));
    assert_eq!(astar(cell(4, 0), cell(6, 0), obs), Some((22, Dir::Up)));
}

#[test]
fn astar_prefers_the_lowest_cell_among_equals() {
    let obs = Bb::default();
    assert_eq!(astar(cell(0, 0), cell(10, 10), obs), Some((20, Dir::Right)));
    assert_eq!(astar(cell(10, 10), cell(0, 0), obs), Some((20, Dir::Down)));
}

#[test]
fn astar_at_the_goal_already() {
    assert_eq!(astar(cell(3, 3), cell(3, 3), Bb::default()), Some((0, Dir::Up)));
    assert_eq!(astar(cell(3, 3), cell(3, 3), cells(&[cell(3, 3)])), None);
}

#[test]
fn astar_blocked_goal() {
    assert_eq!(astar(cell(3, 3), cell(7, 7), cells(&[cell(7, 7)])), None);
}

#[test]
fn distances_on_the_open_board_are_manhattan_distances() {
    for goal in 0..CELLS as Cell {
        let (d, dir) = astar(cell(5, 5), goal, Bb::default()).unwrap();
        assert_eq!(d as i32, manhattan(cell(5, 5), goal));
        if d > 0 {
            let next = dir.step(cell(5, 5)).unwrap();
            assert_eq!(manhattan(next, goal), d as i32 - 1);
        }
    }
}

#[test]
fn the_nearest_food_is_nearest() {
    let food = cells(&[cell(5, 9), cell(1, 5), cell(9, 5)]);
    // All three are four moves away: the lowest cell is taken
    assert_eq!(nearest_food(cell(5, 5), food, Bb::default()), Some((4, Dir::Left)));
    let food = cells(&[cell(5, 9), cell(1, 5), cell(8, 5)]);
    assert_eq!(nearest_food(cell(5, 5), food, Bb::default()), Some((3, Dir::Right)));
}

#[test]
fn nearest_by_the_way_not_by_the_gap() {
    let mut obs = Bb::default();
    for y in 0..10 {
        obs.set(cell(5, y));
    }
    // (6, 0) is two cells away, but behind the wall
    let food = cells(&[cell(6, 0), cell(0, 3)]);
    assert_eq!(nearest_food(cell(4, 0), food, obs), Some((7, Dir::Left)));
}

#[test]
fn no_food_within_reach() {
    let mut obs = Bb::default();
    for y in 0..H {
        obs.set(cell(5, y));
    }
    assert_eq!(nearest_food(cell(0, 0), cells(&[cell(6, 0)]), obs), None);
    assert_eq!(nearest_food(cell(0, 0), Bb::default(), Bb::default()), None);
}

#[test]
fn food_under_the_head() {
    let food = cells(&[cell(4, 4)]);
    assert_eq!(nearest_food(cell(4, 4), food, Bb::default()), Some((0, Dir::Up)));
}

#[test]
fn territory_ties_go_to_the_lower_slot() {
    let p_body = [cell(0, 5), cell(0, 4), cell(0, 3)];
    let e_body = [cell(10, 5), cell(10, 4), cell(10, 3)];
    let state = make_state(&p_body, &[&e_body], &[]);
    // 119 free cells; the 11 cells of the middle column are ties
    assert_eq!(voronoi(&state, state.obs()), [65, 54, 0, 0]);
}

#[test]
fn territories_share_out_the_reached_cells() {
    let state = make_state(
        &[cell(5, 5), cell(4, 5), cell(3, 5)],
        &[
            &[cell(1, 9), cell(2, 9), cell(3, 9)],
            &[cell(9, 1), cell(9, 2), cell(9, 3)],
            &[cell(1, 1), cell(1, 2), cell(1, 3)],
        ],
        &[],
    );
    let t = voronoi(&state, state.obs());
    assert_eq!(t, [64, 19, 17, 17]);
    assert_eq!(t[0] + t[1] + t[2] + t[3], 121 - state.obs().count());
}

#[test]
fn the_dead_own_nothing() {
    let mut state = make_state(
        &[cell(5, 5), cell(4, 5), cell(3, 5)],
        &[&[cell(1, 9), cell(2, 9), cell(3, 9)]],
        &[],
    );
    state.snakes[1].alive = false;
    assert_eq!(voronoi(&state, state.obs()), [120, 0, 0, 0]);
    // A head on an obstacle starts nowhere
    assert_eq!(voronoi(&state, cells(&[cell(5, 5)])), [0, 0, 0, 0]);
}

#[test]
fn stacked_snakes_own_ground() {
    let state = make_state(
        &[cell(5, 5), cell(5, 5), cell(5, 5)],
        &[&[cell(1, 1), cell(1, 1), cell(1, 1)]],
        &[],
    );
    assert_eq!(voronoi(&state, state.obs()), [102, 19, 0, 0]);
}
