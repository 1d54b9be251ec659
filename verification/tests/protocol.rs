use battlesnake::api::{
    api_to_state, can_decide, info, move_response, request_fits, ApiSnake, Board, Coord,
    GameRequest,
};
use battlesnake::grid::{cell, Dir};
use battlesnake::player::{choose_move, MoveResult};
use battlesnake::selfplay::SelfPlay;
use battlesnake::text::{push_decimal, push_signed};

fn coords(list: &[(i8, i8)]) -> Vec<Coord> {
    list.iter().map(|&(x, y)| Coord { x, y }).collect()
}

fn snake(id: &str, health: i32, body: &[(i8, i8)]) -> ApiSnake {
    let head = match body.first() {
        Some(&(x, y)) => Coord { x, y },
        None => Coord { x: 0, y: 0 },
    };
    ApiSnake { id: id.to_string(), health, body: coords(body), head, length: body.len() as u32 }
}

fn request(you: ApiSnake, snakes: Vec<ApiSnake>, food: &[(i8, i8)]) -> GameRequest {
    GameRequest { turn: 17, board: Board { height: 11, width: 11, food: coords(food), snakes }, you }
}

#[test]
fn the_player_comes_first() {
    let me: [(i8, i8); 3] = [(5, 5), (4, 5), (3, 5)];
    let req = request(
        snake("me", 73, &me),
        vec![
            snake("a", 90, &[(1, 1), (1, 2)]),
            snake("me", 73, &me),
            snake("b", 8, &[(9, 9), (9, 8), (9, 7)]),
        ],
        &[(0, 0), (11, 3), (10, 10), (-1, 4)],
    );
    assert!(request_fits(&req));
    let state = api_to_state(&req);
    assert_eq!(state.turn, 17);
    assert_eq!(state.n_snakes, 3);
    assert_eq!(state.player().health, 73);
    assert_eq!(state.player().head(), cell(5, 5));
    assert_eq!(state.snakes[1].head(), cell(1, 1));
    assert_eq!(state.snakes[1].health, 90);
    assert_eq!(state.snakes[1].length, 2);
    assert_eq!(state.snakes[2].tail(), cell(9, 7));
    assert!(state.snakes[2].alive);
    assert!(!state.snakes[3].alive);
    // Food off the board is left out
    assert_eq!(state.food.iter().collect(), vec![cell(0, 0), cell(10, 10)]);
}

#[test]
fn segments_off_the_board_are_left_out() {
    let req = request(
        snake("me", 50, &[(11, 5), (10, 5), (9, 5)]),
        vec![snake("ghost", 60, &[(-1, -1), (20, 3)]), snake("empty", 60, &[])],
        &[],
    );
    let state = api_to_state(&req);
    assert_eq!(state.n_snakes, 3);
    assert_eq!(state.player().head(), cell(10, 5));
    assert_eq!(state.player().length, 2);
    assert!(!state.snakes[1].alive);
    assert_eq!(state.snakes[1].health, 0);
    assert!(!state.snakes[2].alive);
    assert_eq!(state.alive_count(), 1);
}

#[test]
fn three_opponents_at_most() {
    let req = request(
        snake("me", 50, &[(5, 5)]),
        vec![
            snake("a", 1, &[(1, 1)]),
            snake("b", 2, &[(2, 2)]),
            snake("c", 3, &[(3, 3)]),
            snake("d", 4, &[(4, 4)]),
        ],
        &[],
    );
    let state = api_to_state(&req);
    assert_eq!(state.n_snakes, 4);
    assert_eq!(state.snakes[3].health, 3);
}

#[test]
fn a_body_has_to_fit() {
    let long: Vec<(i8, i8)> = (0..122).map(|_| (3, 3)).collect();
    assert!(!request_fits(&request(snake("me", 50, &long), vec![], &[])));
    let fits: Vec<(i8, i8)> = (0..121).map(|_| (3, 3)).collect();
    let req = request(snake("me", 50, &fits), vec![], &[]);
    assert!(request_fits(&req));
    assert_eq!(api_to_state(&req).player().length, 121);
    // Segments off the board do not count
    let off: Vec<(i8, i8)> = (0..200).map(|_| (11, 3)).collect();
    assert!(request_fits(&request(snake("me", 50, &off), vec![], &[])));
    // An opponent has to fit too, a fifth snake does not
    let one: [(i8, i8); 1] = [(1, 1)];
    let you = snake("me", 50, &one);
    assert!(!request_fits(&request(you, vec![snake("a", 9, &long)], &[])));
    let board =
        vec![snake("a", 9, &one), snake("b", 9, &one), snake("c", 9, &one), snake("d", 9, &long)];
    assert!(request_fits(&request(snake("me", 50, &one), board, &[])));
}

#[test]
fn an_answer_names_the_move_and_the_mood() {
    let req = request(
        snake("me", 19, &[(5, 5), (4, 5), (3, 5)]),
        vec![],
        &[(5, 9)],
    );
    let state = api_to_state(&req);
    assert!(can_decide(&state));
    let result = choose_move(&state);
    let answer = move_response(&state, &result);
    assert_eq!(answer.direction, "up");
    assert_eq!(answer.shout, "T17 | CRIT-FEED | HP:19 | len:3");
}

#[test]
fn answers_with_large_and_negative_numbers() {
    let mut state = SelfPlay::new().state;
    state.turn = u32::MAX;
    state.snakes[0].health = -2147483648;
    let answer = move_response(&state, &MoveResult { dir: Dir::Left, mode: "COIL" });
    assert_eq!(answer.direction, "left");
    assert_eq!(answer.shout, "T4294967295 | COIL | HP:-2147483648 | len:3");
}

#[test]
fn positions_out_of_range_are_not_decided() {
    let mut state = SelfPlay::new().state;
    assert!(can_decide(&state));
    state.turn = u32::MAX - 3;
    assert!(can_decide(&state));
    state.turn = u32::MAX - 2;
    assert!(!can_decide(&state));
    state.turn = 0;
    state.snakes[0].health = 21_374_800;
    assert!(can_decide(&state));
    state.snakes[0].health = 21_374_836;
    assert!(!can_decide(&state));
    state.snakes[0].health = -21_474_833;
    assert!(can_decide(&state));
    state.snakes[0].health = -21_474_834;
    assert!(!can_decide(&state));
    state.snakes[0].alive = false;
    assert!(can_decide(&state));
    state.snakes[1].health = i32::MIN;
    assert!(!can_decide(&state));
}

#[test]
fn what_the_server_says_about_its_snake() {
    let i = info();
    assert_eq!(i.apiversion, "1");
    assert_eq!(i.author, "APEX");
    assert_eq!(i.color, "#39ff14");
    assert_eq!(i.head, "default");
    assert_eq!(i.tail, "default");
}

#[test]
fn numbers_as_text() {
    let mut out = String::from("n=");
    push_decimal(&mut out, 0);
    push_decimal(&mut out, 1234567890);
    assert_eq!(out, "n=01234567890");
    let mut out = String::new();
    push_decimal(&mut out, u64::MAX);
    assert_eq!(out, "18446744073709551615");
    let mut out = String::new();
    push_signed(&mut out, -70);
    push_signed(&mut out, 305);
    assert_eq!(out, "-70305");
}
