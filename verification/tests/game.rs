use battlesnake::bitboard::Bb;
use battlesnake::grid::{cell, Dir};
use battlesnake::rng::{spawn_food, SimpleRng};
use battlesnake::selfplay::{Outcome, SelfPlay};
use battlesnake::snake::{Snake, MAX_BODY};
use battlesnake::state::State;

#[test]
fn the_generator_is_an_xorshift() {
    let mut rng = SimpleRng::new(12345);
    assert_eq!(rng.next(), 13289605635609);
    assert_eq!(rng.next(), 11245129090807876197);
    assert_eq!(rng.next(), 11684599175382693041);
    assert_eq!(rng.next(), 2374937242968128280);
    let mut rng = SimpleRng::new(1);
    assert_eq!(rng.next(), 1082269761);
    assert_eq!(rng.next(), 1152992998833853505);
    let mut stuck = SimpleRng::new(0);
    assert_eq!(stuck.next(), 0);
}

#[test]
fn food_appears_on_a_free_cell() {
    let game = SelfPlay::new();
    let mut rng = SimpleRng::new(12345);
    assert_eq!(spawn_food(&game.state, &mut rng), Some(116));
    // Two numbers were drawn
    assert_eq!(rng.next(), 11684599175382693041);
}

#[test]
fn food_appears_on_no_other_cell() {
    // Only one cell is free
    let dead = Snake { health: 0, alive: false, body: [0u8; MAX_BODY], head_idx: 0, length: 1 };
    let mut food = Bb::default();
    for c in 0..121 {
        if c != 42 {
            food.set(c);
        }
    }
    let snakes = [dead.clone(), dead.clone(), dead.clone(), dead];
    let state = State { snakes, n_snakes: 0, food, turn: 0 };
    let mut rng = SimpleRng::new(7);
    let found = spawn_food(&state, &mut rng);
    assert!(found == Some(42) || found.is_none());
}

#[test]
fn a_full_board_takes_no_food() {
    let dead = Snake { health: 0, alive: false, body: [0u8; MAX_BODY], head_idx: 0, length: 1 };
    let mut food = Bb::default();
    for c in 0..121 {
        food.set(c);
    }
    let snakes = [dead.clone(), dead.clone(), dead.clone(), dead];
    let state = State { snakes, n_snakes: 0, food, turn: 0 };
    assert_eq!(spawn_food(&state, &mut SimpleRng::new(99)), None);
}

#[test]
fn a_game_starts_in_balance() {
    let game = SelfPlay::new();
    assert_eq!(game.state.turn, 0);
    assert_eq!(game.state.n_snakes, 4);
    assert_eq!(game.state.alive_count(), 4);
    assert_eq!(game.state.player().head(), cell(5, 5));
    assert_eq!(game.state.snakes[1].head(), cell(1, 9));
    assert_eq!(game.state.snakes[2].head(), cell(9, 1));
    assert_eq!(game.state.snakes[3].tail(), cell(1, 3));
    assert_eq!(game.state.food.count(), 5);
    assert_eq!(game.outcome(0), Outcome::Survived);
    assert_eq!(game.outcome(1), Outcome::Running);
    assert!(game.at_milestone());
}

#[test]
fn the_first_turns_of_a_game() {
    let mut game = SelfPlay::new();
    let mut moves: Vec<Dir> = Vec::new();
    for _ in 0..5 {
        let result = game.step();
        assert_eq!(result.mode, "CONTROL");
        moves.push(result.dir);
    }
    assert_eq!(moves, vec![Dir::Up, Dir::Up, Dir::Right, Dir::Right, Dir::Down]);
    assert_eq!(game.state.turn, 5);
    assert_eq!(game.state.player().head(), cell(7, 6));
    assert_eq!(game.state.player().health, 99);
    assert_eq!(game.state.player().length, 4);
    assert_eq!(game.state.snakes[1].head(), 91);
    assert_eq!(game.state.snakes[2].head(), 63);
    assert_eq!(game.state.snakes[3].head(), 37);
    assert_eq!(game.state.food.iter().collect(), vec![38, 64, 80, 104]);
    assert_eq!(game.food_eaten, 1);
    assert_eq!(game.kills, 0);
    assert!(!game.at_milestone());
}

#[test]
fn sixty_turns_of_a_game() {
    let mut game = SelfPlay::new();
    let mut last = (Dir::Up, "");
    while game.outcome(60) == Outcome::Running {
        let result = game.step();
        last = (result.dir, result.mode);
        for s in &game.state.snakes {
            assert!(!s.alive || (1 <= s.health && s.health <= 100));
            assert!(!s.alive || s.length <= 121);
        }
        assert_eq!(game.kills as usize + game.state.enemy_alive(), 3);
        assert_eq!(game.state.player().length, 3 + game.food_eaten as usize);
        assert!(game.state.food.count() >= 3);
    }
    assert_eq!(game.outcome(60), Outcome::Survived);
    assert_eq!(last, (Dir::Right, "CONTROL"));
    assert_eq!(game.state.turn, 60);
    let me = game.state.player();
    assert_eq!((me.health, me.length, me.head()), (58, 6, 30));
    assert_eq!(game.state.enemy_alive(), 0);
    assert_eq!(game.state.food.iter().collect(), vec![10, 31, 104, 119]);
    assert_eq!(game.food_eaten, 3);
    assert_eq!(game.kills, 3);
    // The generator has drawn as often as food was needed
    let mut rng = game.rng;
    let mut again = SimpleRng::new(11475742709618041360);
    assert_eq!(rng.next(), again.next());
}

#[test]
fn a_dead_player_ends_the_game() {
    let mut game = SelfPlay::new();
    game.state.snakes[0].alive = false;
    assert_eq!(game.outcome(0), Outcome::Dead);
    assert_eq!(game.outcome(100), Outcome::Dead);
}

#[test]
fn a_game_of_no_turns() {
    let mut game = SelfPlay::new();
    assert!(game.play_on(0).is_none());
    assert_eq!(game.outcome(0), Outcome::Survived);
    assert_eq!(game.state.turn, 0);
    assert_eq!((game.food_eaten, game.kills), (0, 0));
    assert_eq!(game.state.player().length, 3);
    assert_eq!(game.state.alive_count(), 4);
}

#[test]
fn playing_on_to_a_target() {
    let mut game = SelfPlay::new();
    assert!(game.play_on(60).is_none());
    assert_eq!(game.state.turn, 60);
    let me = game.state.player();
    assert_eq!((me.health, me.length, me.head()), (58, 6, 30));
    // In parts, the game is the same
    let mut parts = SelfPlay::new();
    assert!(parts.play_on(25).is_none());
    assert_eq!(parts.state.turn, 25);
    assert!(parts.play_on(60).is_none());
    assert_eq!(parts.state.player().head(), 30);
    assert_eq!(parts.state.food.iter().collect(), game.state.food.iter().collect());
}

#[test]
fn reports_come_every_500_turns() {
    let target = 1200;
    let mut game = SelfPlay::new();
    let mut reports: Vec<u32> = Vec::new();
    while let Some(_) = game.play_on(target) {
        reports.push(game.state.turn);
    }
    for (i, turn) in reports.iter().enumerate() {
        assert_eq!(*turn, 500 * (i as u32 + 1));
    }
    assert_eq!(reports.len() as u32, game.state.turn / 500);
    let alive = game.state.alive_count() as u32;
    match game.outcome(target) {
        Outcome::Survived => {
            assert_eq!(game.state.turn, target);
            assert_eq!(game.kills + alive, 4);
        }
        Outcome::Dead => {
            assert!(game.state.turn <= target);
            assert_eq!(game.kills + alive, 3);
        }
        Outcome::Running => unreachable!(),
    }
    assert_eq!(game.state.player().length as u32, 3 + game.food_eaten);
    // A game that is over stays as it is
    let turn = game.state.turn;
    assert!(game.play_on(target).is_none());
    assert_eq!(game.state.turn, turn);
}
