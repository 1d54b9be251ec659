use battlesnake::bitboard::Bb;
use battlesnake::enemy::{enemy_move, HP_CRITICAL};
use battlesnake::eval::evaluate;
use battlesnake::grid::{cell, Cell, Dir};
use battlesnake::minimax::{minimax, MM_BUDGET};
use battlesnake::player::choose_move;
use battlesnake::snake::{Snake, MAX_BODY};
use battlesnake::state::State;
use battlesnake::tactics::{classify, coil_dir};

fn make_state(player: &[Cell], enemies: &[&[Cell]], food_cells: &[Cell]) -> State {
    let dead = Snake { health: 0, alive: false, body: [0u8; MAX_BODY], head_idx: 0, length: 1 };
    let mut snakes = [dead.clone(), dead.clone(), dead.clone(), dead];
    snakes[0] = Snake::new(player);
    let mut n = 1;
    for (i, e) in enemies.iter().enumerate() {
        if i + 1 < 4 {
            snakes[i + 1] = Snake::new(e);
            n = i + 2;
        }
    }
    let mut food = Bb::default();
    for &f in food_cells {
        food.set(f);
    }
    State { snakes, n_snakes: n, food, turn: 0 }
}

fn decide(state: &State) -> (Dir, &'static str) {
    let r = choose_move(state);
    (r.dir, r.mode)
}

/// The player against one opponent of three segments, with food on both sides.
fn duel(health: i32) -> State {
    let mut state = make_state(
        &[cell(5, 5), cell(4, 5), cell(3, 5)],
        &[&[cell(9, 9), cell(9, 10), cell(10, 10)]],
        &[cell(2, 2), cell(8, 5)],
    );
    state.snakes[0].health = health;
    state
}

/// The player against one opponent, with food in a far corner.
fn far_food() -> State {
    make_state(
        &[cell(5, 5), cell(5, 4), cell(5, 3)],
        &[&[cell(9, 9), cell(9, 8), cell(9, 7)]],
        &[cell(0, 10)],
    )
}

#[test]
fn test_dont_move_into_wall() {
    // At the left edge, left is no option
    let body = [cell(0, 5), cell(1, 5), cell(2, 5)];
    let state = make_state(&body, &[], &[cell(5, 5)]);
    let result = choose_move(&state);
    assert_ne!(result.dir, Dir::Left, "Should not move into wall");
}

#[test]
fn test_dont_reverse_into_neck() {
    // Heading right, the neck is on the left
    let body = [cell(5, 5), cell(4, 5), cell(3, 5)];
    let state = make_state(&body, &[], &[cell(9, 5)]);
    let result = choose_move(&state);
    assert_ne!(result.dir, Dir::Left, "Should not reverse into neck");
}

#[test]
fn test_critical_hp_goes_for_food() {
    let body = [cell(5, 5), cell(4, 5), cell(3, 5)];
    let food = [cell(5, 9)]; // directly above
    let mut state = make_state(&body, &[], &food);
    state.snakes[0].health = HP_CRITICAL - 1;
    let result = choose_move(&state);
    assert_ne!(result.dir, Dir::Down, "Critical HP — should not move away from only food");
}

#[test]
fn critical_health_takes_the_way_to_food() {
    let mut state = make_state(&[cell(5, 5), cell(4, 5), cell(3, 5)], &[], &[cell(5, 9)]);
    state.snakes[0].health = 19;
    assert_eq!(decide(&state), (Dir::Up, "CRIT-FEED"));
    state.food = Bb::default();
    assert_eq!(decide(&state), (Dir::Up, "CRIT-FEED"));
}

#[test]
fn moods_of_a_lone_player() {
    let mut state = make_state(&[cell(5, 5), cell(4, 5), cell(3, 5)], &[], &[]);
    state.snakes[0].health = 20;
    assert_eq!(decide(&state).1, "CRIT-FEED");
    state.snakes[0].health = 45;
    assert_eq!(decide(&state), (Dir::Up, "FEED"));
    state.snakes[0].health = 46;
    assert_eq!(decide(&state), (Dir::Up, "CONTROL"));
}

#[test]
fn moods_of_a_duel() {
    assert_eq!(decide(&duel(100)), (Dir::Up, "1v1"));
    assert_eq!(decide(&duel(70)), (Dir::Up, "1v1"));
    assert_eq!(decide(&duel(45)), (Dir::Down, "FEED"));
    assert_eq!(decide(&duel(20)), (Dir::Right, "CRIT-FEED"));
}

#[test]
fn evades_an_equal_that_is_near() {
    let state = make_state(
        &[cell(5, 5), cell(5, 4), cell(5, 3)],
        &[&[cell(7, 6), cell(8, 6), cell(9, 6)], &[cell(1, 1), cell(1, 2), cell(1, 3)]],
        &[cell(0, 10)],
    );
    assert_eq!(decide(&state), (Dir::Up, "EVADE"));
    assert_eq!(evaluate(&state), 1015);
    assert_eq!(enemy_move(&state, 1), Dir::Up);
    assert_eq!(enemy_move(&state, 2), Dir::Left);
}

#[test]
fn last_resort_stays_on_the_board() {
    // Both neighbours of the corner are body that does not leave
    let state =
        make_state(&[cell(0, 0), cell(0, 1), cell(1, 1), cell(1, 0), cell(1, 0)], &[], &[]);
    assert_eq!(decide(&state), (Dir::Up, "LAST-RESORT"));
    assert_eq!(enemy_move(&state, 0), Dir::Up);
    let state =
        make_state(&[cell(0, 10), cell(0, 9), cell(1, 9), cell(1, 10), cell(1, 10)], &[], &[]);
    assert_eq!(decide(&state), (Dir::Down, "LAST-RESORT"));
    assert_eq!(enemy_move(&state, 0), Dir::Down);
}

#[test]
fn a_tail_two_segments_long_may_be_followed() {
    let mut state = make_state(&[cell(5, 5), cell(4, 5)], &[], &[cell(3, 5)]);
    state.snakes[0].health = 10;
    assert_eq!(decide(&state), (Dir::Left, "CRIT-FEED"));
}

#[test]
fn coils_towards_its_tail_when_trapped() {
    let body = [cell(0, 0), cell(1, 0), cell(1, 1), cell(1, 2), cell(0, 2), cell(0, 2)];
    let state = make_state(&body, &[], &[]);
    assert_eq!(coil_dir(state.player(), state.obs()), Some(Dir::Up));
    assert_eq!(decide(&state), (Dir::Up, "COIL"));
    // A tail that leaves opens the way out
    let free = make_state(&[cell(0, 0), cell(1, 0), cell(1, 1), cell(0, 1)], &[], &[]);
    assert_eq!(coil_dir(free.player(), free.obs()), None);
    assert_eq!(decide(&free), (Dir::Up, "CONTROL"));
}

#[test]
fn coils_nowhere_without_an_open_move() {
    let state =
        make_state(&[cell(0, 0), cell(0, 1), cell(1, 1), cell(1, 0), cell(1, 0)], &[], &[]);
    assert_eq!(coil_dir(state.player(), state.obs()), None);
}

#[test]
fn a_stacked_start_has_the_whole_board() {
    let state = make_state(&[cell(5, 5), cell(5, 5), cell(5, 5)], &[], &[cell(2, 2)]);
    assert_eq!(decide(&state), (Dir::Up, "CONTROL"));
    assert_eq!(coil_dir(state.player(), state.obs()), None);
    let state = make_state(
        &[cell(5, 5), cell(5, 5), cell(5, 5)],
        &[&[cell(1, 1), cell(1, 1), cell(1, 1)]],
        &[cell(2, 2), cell(6, 6)],
    );
    assert_eq!(decide(&state), (Dir::Up, "1v1"));
    assert_eq!(evaluate(&state), 2214);
    assert_eq!(enemy_move(&state, 1), Dir::Up);
}

#[test]
fn contested_positions_lie_between() {
    for health in [1, 3, 20, 45, 70, 100] {
        let v = evaluate(&duel(health));
        assert!(-100_000 < v && v < 20_000);
    }
}

#[test]
fn moves_next_to_an_equal_head_are_risky() {
    let e_body = [cell(7, 5), cell(8, 5), cell(9, 5)];
    let state = make_state(&[cell(5, 5), cell(5, 4), cell(5, 3)], &[&e_body], &[]);
    let (safe, safe_n, risky, risky_n) = classify(&state, state.obs());
    assert_eq!(safe, [Some(Dir::Up), Some(Dir::Left), None, None]);
    assert_eq!(safe_n, 2);
    assert_eq!(risky, [Some(Dir::Right), None, None, None]);
    assert_eq!(risky_n, 1);
    // A longer player has nothing to fear
    let state = make_state(&[cell(5, 5), cell(5, 4), cell(5, 3), cell(5, 2)], &[&e_body], &[]);
    let (safe, safe_n, risky, risky_n) = classify(&state, state.obs());
    assert_eq!(safe, [Some(Dir::Up), Some(Dir::Left), Some(Dir::Right), None]);
    assert_eq!(safe_n, 3);
    assert_eq!(risky, [None; 4]);
    assert_eq!(risky_n, 0);
    assert_eq!(evaluate(&state), -58397);
    assert_eq!(decide(&state), (Dir::Up, "1v1"));
}

#[test]
fn risky_moves_are_better_than_none() {
    let state = make_state(
        &[cell(0, 0), cell(0, 1), cell(0, 2)],
        &[&[cell(1, 1), cell(2, 1), cell(3, 1)]],
        &[cell(10, 10)],
    );
    let (_, safe_n, risky, risky_n) = classify(&state, state.obs());
    assert_eq!(safe_n, 0);
    assert_eq!(risky, [Some(Dir::Right), None, None, None]);
    assert_eq!(risky_n, 1);
    assert_eq!(decide(&state), (Dir::Right, "1v1"));
}

#[test]
fn values_of_positions() {
    let mut lone = make_state(&[cell(5, 5), cell(4, 5), cell(3, 5)], &[], &[cell(9, 5)]);
    // Won: 10_000_000 + 100 * 100 + 3 * 50
    assert_eq!(evaluate(&lone), 10_010_150);
    lone.snakes[0].alive = false;
    assert_eq!(evaluate(&lone), -100_000_000);
    assert_eq!(evaluate(&duel(100)), 2169);
    assert_eq!(evaluate(&duel(70)), 2379);
    assert_eq!(evaluate(&duel(45)), 3191);
    assert_eq!(evaluate(&duel(20)), 5804);
    // Three moves to the food with three points of health
    assert_eq!(evaluate(&duel(3)), -77655);
}

#[test]
fn values_of_a_longer_opponent() {
    let mut state = make_state(
        &[cell(5, 5), cell(4, 5), cell(3, 5)],
        &[&[cell(9, 9), cell(9, 10), cell(10, 10), cell(10, 9)]],
        &[cell(2, 2), cell(8, 5)],
    );
    assert_eq!(evaluate(&state), 2159);
    assert_eq!(decide(&state), (Dir::Right, "1v1"));
    state.snakes[0].health = 20;
    assert_eq!(evaluate(&state), 5794);
}

#[test]
fn values_of_a_trap() {
    // Two cells of space for seven segments, and no food within reach
    let body = [
        cell(0, 0),
        cell(1, 0),
        cell(1, 1),
        cell(1, 2),
        cell(0, 2),
        cell(0, 3),
        cell(1, 3),
    ];
    let mut state =
        make_state(&body, &[&[cell(9, 9), cell(9, 8), cell(9, 7)]], &[cell(10, 0)]);
    assert_eq!(evaluate(&state), -60966);
    assert_eq!(decide(&state), (Dir::Up, "COIL"));
    // Half the health is rounded towards zero
    state.snakes[0].health = -7;
    assert_eq!(evaluate(&state), -61019);
}

#[test]
fn four_snakes_in_balance() {
    let state = make_state(
        &[cell(5, 5), cell(4, 5), cell(3, 5)],
        &[
            &[cell(1, 9), cell(2, 9), cell(3, 9)],
            &[cell(9, 1), cell(9, 2), cell(9, 3)],
            &[cell(1, 1), cell(1, 2), cell(1, 3)],
        ],
        &[cell(5, 3), cell(3, 7), cell(7, 7), cell(5, 9), cell(9, 5)],
    );
    assert_eq!(evaluate(&state), 1172);
    assert_eq!(enemy_move(&state, 1), Dir::Up);
    assert_eq!(enemy_move(&state, 2), Dir::Left);
    assert_eq!(enemy_move(&state, 3), Dir::Right);
    assert_eq!(decide(&state), (Dir::Up, "CONTROL"));
}

#[test]
fn opponents_have_personalities() {
    let mut state = make_state(
        &[cell(5, 5), cell(5, 4), cell(5, 3)],
        &[
            &[cell(7, 6), cell(8, 6), cell(9, 6), cell(10, 6)],
            &[cell(1, 1), cell(1, 2), cell(1, 3)],
            &[cell(9, 1), cell(9, 2), cell(9, 3)],
        ],
        &[cell(0, 10), cell(8, 1), cell(5, 9)],
    );
    assert_eq!(enemy_move(&state, 1), Dir::Left);
    assert_eq!(enemy_move(&state, 2), Dir::Right);
    assert_eq!(enemy_move(&state, 3), Dir::Left);
    // A dead snake answers Up
    state.snakes[1].alive = false;
    assert_eq!(enemy_move(&state, 1), Dir::Up);
}

#[test]
fn pruning_saves_positions() {
    let state = far_food();
    let mut count: u32 = 0;
    assert_eq!(minimax(&state, 4, i32::MIN, i32::MAX, true, &mut count), 2320);
    assert_eq!(count, 25);
    // The value is above beta after the first line
    count = 0;
    assert_eq!(minimax(&state, 4, 0, 100, true, &mut count), 2186);
    assert_eq!(count, 5);
    count = 0;
    assert_eq!(minimax(&state, 4, 5000, 6000, true, &mut count), 2320);
    assert_eq!(count, 25);
}

#[test]
fn beyond_the_budget_positions_are_only_evaluated() {
    let state = far_food();
    let mut count: u32 = MM_BUDGET + 1;
    assert_eq!(minimax(&state, 4, i32::MIN, i32::MAX, true, &mut count), 2141);
    assert_eq!(count, MM_BUDGET + 2);
    assert_eq!(evaluate(&state), 2141);
    count = MM_BUDGET - 1;
    assert_eq!(minimax(&state, 4, i32::MIN, i32::MAX, true, &mut count), 2243);
    assert_eq!(count, MM_BUDGET + 4);
    count = u32::MAX;
    assert_eq!(minimax(&state, 4, i32::MIN, i32::MAX, true, &mut count), 2141);
    assert_eq!(count, 0);
}

#[test]
fn an_early_death_is_worse() {
    let mut state = far_food();
    state.snakes[0].alive = false;
    let mut count: u32 = 0;
    assert_eq!(minimax(&state, 3, -9, 9, true, &mut count), -100_000_600);
    assert_eq!(minimax(&state, 0, -9, 9, true, &mut count), -100_000_000);
    assert_eq!(count, 2);
}

#[test]
fn full_searches_match_a_search_without_pruning() {
    let state = far_food();
    let mut count: u32 = 0;
    let whole = minimax(&state, 3, i32::MIN, i32::MAX, false, &mut count);
    count = 0;
    // A level that is not the player's only passes the value on
    assert_eq!(whole, minimax(&state, 2, i32::MIN, i32::MAX, true, &mut count));
}
