use battlesnake::bitboard::Bb;
use battlesnake::grid::{cell, Cell, Dir};
use battlesnake::sim::sim_turn;
use battlesnake::snake::{Snake, FOOD_RESTORE, HP_DECAY, MAX_BODY, MAX_HP};
use battlesnake::state::State;

fn make_state(player: &[Cell], enemies: &[&[Cell]], food_cells: &[Cell]) -> State {
    let dead = Snake { health: 0, alive: false, body: [0u8; MAX_BODY], head_idx: 0, length: 1 };
    let mut snakes = [dead.clone(), dead.clone(), dead.clone(), dead];
    snakes[0] = Snake::new(player);
    let mut n = 1;
    for (i, e) in enemies.iter().enumerate() {
        if i + 1 < 4 {
            snakes[i + 1] = Snake::new(e);
            n = i + 2;
        }
    }
    let mut food = Bb::default();
    for &f in food_cells {
        food.set(f);
    }
    State { snakes, n_snakes: n, food, turn: 0 }
}

fn body(s: &Snake) -> Vec<Cell> {
    (0..s.length).map(|i| s.seg(i)).collect()
}

#[test]
fn test_obs_excludes_head() {
    let body = [cell(5, 5), cell(4, 5), cell(3, 5)];
    let state = make_state(&body, &[], &[]);
    let obs = state.obs();
    assert!(!obs.get(cell(5, 5)), "Head should not be in obstacle map");
    assert!(obs.get(cell(4, 5)), "Neck should be blocked");
    assert!(!obs.get(cell(3, 5)), "Tail should be free");
}

#[test]
fn test_simulate_food_restores_full_health() {
    let body = [cell(4, 5), cell(3, 5), cell(2, 5)];
    let food = [cell(5, 5)];
    let mut state = make_state(&body, &[], &food);
    state.snakes[0].health = 50;
    let dirs = [Some(Dir::Right), None, None, None];
    let next = sim_turn(&state, &dirs);
    assert_eq!(next.snakes[0].health, FOOD_RESTORE, "Food should restore full health");
    assert_eq!(next.snakes[0].length, 4, "Length should increase after eating");
}

#[test]
fn test_simulate_starvation() {
    let body = [cell(5, 5), cell(4, 5), cell(3, 5)];
    let mut state = make_state(&body, &[], &[]);
    state.snakes[0].health = 1;
    let dirs = [Some(Dir::Up), None, None, None];
    let next = sim_turn(&state, &dirs);
    assert!(!next.snakes[0].alive, "Should die from starvation");
}

#[test]
fn test_simulate_head_on_larger_wins() {
    // Snakes of equal length collide head-on
    let p_body = [cell(5, 5), cell(4, 5), cell(3, 5)];
    let e_body = [cell(5, 7), cell(5, 8), cell(5, 9)];
    let state = make_state(&p_body, &[&e_body], &[]);
    let dirs = [Some(Dir::Up), Some(Dir::Down), None, None];
    let next = sim_turn(&state, &dirs);
    assert!(!next.snakes[0].alive || !next.snakes[1].alive);
}

#[test]
fn test_simulate_smaller_dies_head_on() {
    let p_body = [cell(5, 5), cell(4, 5)]; // length 2
    let e_body = [cell(5, 7), cell(5, 8), cell(5, 9)]; // length 3
    let state = make_state(&p_body, &[&e_body], &[]);
    let dirs = [Some(Dir::Up), Some(Dir::Down), None, None];
    let next = sim_turn(&state, &dirs);
    let dirs2 = [Some(Dir::Up), Some(Dir::Down), None, None];
    let next2 = sim_turn(&next, &dirs2);
    assert!(!next2.snakes[0].alive, "Smaller snake should die on head-on");
}

#[test]
fn new_snakes_are_healthy() {
    let s = Snake::new(&[cell(5, 5), cell(4, 5), cell(3, 5)]);
    assert_eq!(s.health, MAX_HP);
    assert!(s.alive);
    assert_eq!(s.head(), cell(5, 5));
    assert_eq!(s.seg(1), cell(4, 5));
    assert_eq!(s.tail(), cell(3, 5));
    assert_eq!(s.length, 3);
}

#[test]
fn a_body_follows_its_head() {
    let mut s = Snake::new(&[cell(5, 5), cell(4, 5), cell(3, 5)]);
    let mut food = Bb::default();
    food.set(cell(6, 6));
    assert!(!s.advance(cell(5, 6), &mut food));
    assert_eq!(body(&s), vec![cell(5, 6), cell(5, 5), cell(4, 5)]);
    assert_eq!(s.health, MAX_HP - HP_DECAY);
    assert!(s.advance(cell(6, 6), &mut food));
    assert_eq!(body(&s), vec![cell(6, 6), cell(5, 6), cell(5, 5), cell(4, 5)]);
    assert_eq!(s.health, FOOD_RESTORE);
    assert_eq!(food.count(), 0);
}

#[test]
fn a_body_longer_than_the_ring_repeats_its_cells() {
    let cells: Vec<Cell> = (0..121).collect();
    let mut s = Snake::new(&cells);
    let mut food = Bb::default();
    food.set(7);
    assert!(s.advance(7, &mut food));
    assert_eq!(s.length, 122);
    assert_eq!(s.seg(0), 7);
    assert_eq!(s.seg(120), 119);
    assert_eq!(s.seg(121), 7);
    assert_eq!(s.tail(), 7);
}

#[test]
fn a_tail_leaves_unless_the_last_segments_share_a_cell() {
    assert!(Snake::new(&[cell(1, 1)]).tail_is_safe());
    assert!(Snake::new(&[cell(1, 1), cell(1, 2)]).tail_is_safe());
    assert!(!Snake::new(&[cell(1, 1), cell(1, 2), cell(1, 2)]).tail_is_safe());
    let mut obs = Bb::default();
    obs.set(cell(9, 9));
    Snake::new(&[cell(1, 1), cell(1, 2), cell(1, 3), cell(1, 3)]).add_obs(&mut obs);
    assert_eq!(obs.iter().collect(), vec![cell(1, 2), cell(1, 3), cell(9, 9)]);
}

#[test]
fn obstacles_and_bodies_of_living_snakes() {
    let mut state = make_state(
        &[cell(5, 5), cell(4, 5), cell(3, 5)],
        &[&[cell(1, 1), cell(1, 2), cell(1, 3)], &[cell(9, 9), cell(9, 8), cell(9, 7)]],
        &[],
    );
    assert_eq!(state.obs().iter().collect(), vec![cell(1, 2), cell(4, 5), cell(9, 8)]);
    assert_eq!(state.all_bodies().count(), 9);
    assert_eq!(state.alive_count(), 3);
    assert_eq!(state.enemy_alive(), 2);
    state.snakes[2].alive = false;
    assert_eq!(state.obs().iter().collect(), vec![cell(1, 2), cell(4, 5)]);
    assert_eq!(state.all_bodies().count(), 6);
    assert_eq!(state.alive_count(), 2);
    assert_eq!(state.enemy_alive(), 1);
    assert_eq!(state.player().head(), cell(5, 5));
}

#[test]
fn a_head_is_never_an_obstacle() {
    // Segments stacked on the head do not block it
    let state = make_state(&[cell(5, 5), cell(5, 5), cell(5, 5)], &[], &[]);
    assert_eq!(state.obs().count(), 0);
    // Nor does a head that is on a body count as an obstacle
    let state = make_state(
        &[cell(5, 5), cell(5, 4), cell(5, 3), cell(5, 2)],
        &[&[cell(5, 4), cell(6, 4), cell(7, 4)]],
        &[],
    );
    assert_eq!(state.obs().iter().collect(), vec![cell(5, 3), cell(6, 4)]);
    // The head of a dead snake frees nothing
    let mut state = state;
    state.snakes[1].alive = false;
    assert_eq!(state.obs().iter().collect(), vec![cell(5, 3), cell(5, 4)]);
    for c in state.obs().iter().collect() {
        assert!(state.all_bodies().get(c));
    }
}

#[test]
fn slots_without_a_living_snake_are_left_alone() {
    let mut state = make_state(
        &[cell(5, 5), cell(4, 5), cell(3, 5)],
        &[&[cell(5, 7), cell(5, 8), cell(5, 9)]],
        &[cell(2, 2)],
    );
    state.snakes[1].alive = false;
    state.snakes[1].body[100] = 77;
    state.snakes[1].head_idx = 1;
    state.snakes[2].alive = true;
    state.snakes[2].health = 5;
    let next = sim_turn(&state, &[Some(Dir::Up), Some(Dir::Up), Some(Dir::Up), Some(Dir::Up)]);
    for i in 1..4 {
        let (a, b) = (&state.snakes[i], &next.snakes[i]);
        assert_eq!((a.health, a.alive), (b.health, b.alive));
        assert_eq!((a.head_idx, a.length), (b.head_idx, b.length));
        assert_eq!(a.body, b.body);
    }
    assert_eq!(next.n_snakes, 2);
    assert_eq!(next.alive_count(), 1);
}

#[test]
fn no_survivor_is_longer_than_the_board() {
    // A body of 121 segments that eats would have its head twice
    let cells: Vec<Cell> = (0..121).collect();
    let mut state = make_state(&cells, &[], &[]);
    state.food.set(cell(0, 1));
    let next = sim_turn(&state, &[Some(Dir::Up), None, None, None]);
    assert_eq!(next.snakes[0].length, 122);
    assert!(!next.snakes[0].alive);
}

#[test]
fn a_turn_moves_everyone_at_once() {
    let state = make_state(
        &[cell(5, 5), cell(4, 5), cell(3, 5)],
        &[&[cell(1, 1), cell(1, 2), cell(1, 3)]],
        &[cell(0, 1), cell(9, 9)],
    );
    let next = sim_turn(&state, &[Some(Dir::Right), Some(Dir::Left), None, None]);
    assert_eq!(next.turn, 1);
    assert_eq!(body(&next.snakes[0]), vec![cell(6, 5), cell(5, 5), cell(4, 5)]);
    assert_eq!(next.snakes[0].health, 99);
    assert_eq!(body(&next.snakes[1]), vec![cell(0, 1), cell(1, 1), cell(1, 2), cell(1, 3)]);
    assert_eq!(next.snakes[1].health, 100);
    assert_eq!(next.food.iter().collect(), vec![cell(9, 9)]);
}

#[test]
fn a_snake_without_direction_stays() {
    let state = make_state(&[cell(5, 5), cell(4, 5), cell(3, 5)], &[], &[]);
    let next = sim_turn(&state, &[None, Some(Dir::Up), None, None]);
    assert_eq!(body(&next.snakes[0]), body(&state.snakes[0]));
    assert_eq!(next.snakes[0].health, 100);
    assert!(next.snakes[0].alive);
    assert_eq!(next.turn, 1);
}

#[test]
fn two_snakes_on_one_piece_of_food() {
    // The earlier slot eats and is longer, so it wins
    let state = make_state(
        &[cell(4, 5), cell(3, 5), cell(2, 5)],
        &[&[cell(6, 5), cell(7, 5), cell(8, 5)]],
        &[cell(5, 5)],
    );
    let next = sim_turn(&state, &[Some(Dir::Right), Some(Dir::Left), None, None]);
    assert!(next.snakes[0].alive);
    assert!(!next.snakes[1].alive);
    assert_eq!(next.snakes[0].length, 4);
    assert_eq!(next.snakes[1].length, 3);
    assert_eq!(next.food.count(), 0);
}

#[test]
fn the_wall_kills() {
    let state = make_state(&[cell(0, 5), cell(1, 5), cell(2, 5)], &[], &[]);
    let next = sim_turn(&state, &[Some(Dir::Left), None, None, None]);
    assert!(!next.snakes[0].alive);
    assert_eq!(next.snakes[0].head(), cell(0, 5));
}

#[test]
fn bodies_kill_but_tails_make_way() {
    let square = [cell(5, 5), cell(5, 6), cell(6, 6), cell(6, 5)];
    let state = make_state(&square, &[], &[]);
    let next = sim_turn(&state, &[Some(Dir::Right), None, None, None]);
    assert!(next.snakes[0].alive);
    let next = sim_turn(&state, &[Some(Dir::Up), None, None, None]);
    assert!(!next.snakes[0].alive);
}

#[test]
fn a_meal_on_the_last_point_of_health_saves() {
    let mut state = make_state(&[cell(4, 5), cell(3, 5)], &[], &[cell(5, 5)]);
    state.snakes[0].health = 1;
    let next = sim_turn(&state, &[Some(Dir::Right), None, None, None]);
    assert!(next.snakes[0].alive);
    assert_eq!(next.snakes[0].health, 100);
}

#[test]
fn head_on_the_longer_survives() {
    let state = make_state(
        &[cell(4, 5), cell(3, 5), cell(2, 5), cell(1, 5)],
        &[&[cell(6, 5), cell(7, 5), cell(8, 5)], &[cell(5, 6), cell(5, 7), cell(5, 8)]],
        &[],
    );
    let next = sim_turn(&state, &[Some(Dir::Right), Some(Dir::Left), Some(Dir::Down), None]);
    assert!(next.snakes[0].alive);
    assert!(!next.snakes[1].alive);
    assert!(!next.snakes[2].alive);
    assert!(!next.obs().get(next.snakes[0].head()));
}

#[test]
fn head_on_equals_both_die() {
    let state = make_state(
        &[cell(5, 5), cell(4, 5), cell(3, 5)],
        &[&[cell(5, 7), cell(5, 8), cell(5, 9)]],
        &[],
    );
    let next = sim_turn(&state, &[Some(Dir::Up), Some(Dir::Down), None, None]);
    assert!(!next.snakes[0].alive);
    assert!(!next.snakes[1].alive);
}

#[test]
fn the_dead_stay_where_they_are() {
    let mut state = make_state(
        &[cell(5, 5), cell(4, 5), cell(3, 5)],
        &[&[cell(5, 7), cell(5, 8), cell(5, 9)]],
        &[],
    );
    state.snakes[1].alive = false;
    let next = sim_turn(&state, &[Some(Dir::Up), Some(Dir::Down), None, None]);
    assert!(next.snakes[0].alive);
    assert!(!next.snakes[1].alive);
    assert_eq!(next.snakes[1].head(), cell(5, 7));
    assert_eq!(next.snakes[1].health, 100);
}
