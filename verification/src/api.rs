//! Requests and answers of the game protocol.
use vstd::prelude::*;
use vstd::string::StringExecFns;

use crate::bitboard::Bb;
use crate::eval::LENGTH_LIMIT;
use crate::grid::{cell, code, in_bounds, is_cell, on_board, Cell};
use crate::minimax::turns_ahead;
use crate::player::{decidable, search_depth, MoveResult};
use crate::snake::{Snake, SnakeModel, MAX_BODY};
use crate::state::{State, StateModel};
use crate::text::{decimal, push_decimal, push_signed, signed_decimal};

verus! {

/// A position on the board of a request.
#[derive(Debug)]
pub struct Coord {
    pub x: i8,
    pub y: i8,
}

/// A snake in a request.
#[derive(Debug)]
pub struct ApiSnake {
    pub id: String,
    pub health: i32,
    pub body: Vec<Coord>,
    pub head: Coord,
    pub length: u32,
}

/// The board in a request.
#[derive(Debug)]
pub struct Board {
    pub height: i8,
    pub width: i8,
    pub food: Vec<Coord>,
    pub snakes: Vec<ApiSnake>,
}

/// A request for a move.
#[derive(Debug)]
pub struct GameRequest {
    pub turn: u32,
    pub board: Board,
    pub you: ApiSnake,
}

/// The answer to a request for a move.
#[derive(Debug)]
pub struct MoveResponse {
    pub direction: String,
    pub shout: String,
}

/// What the server says about its snake.
#[derive(Debug)]
pub struct InfoResponse {
    pub apiversion: &'static str,
    pub author: &'static str,
    pub color: &'static str,
    pub head: &'static str,
    pub tail: &'static str,
}

/// The test for coordinates on the board.
pub open spec fn coord_on_board() -> spec_fn(Coord) -> bool {
    |c: Coord| on_board(c.x as int, c.y as int)
}

/// The cell of coordinates on the board.
pub open spec fn coord_cell() -> spec_fn(Coord) -> Cell {
    |c: Coord| code(c.x as int, c.y as int) as Cell
}

/// The cells of those coordinates that are on the board, in order.
pub open spec fn cells_on_board(coords: Seq<Coord>) -> Seq<Cell> {
    coords.filter(coord_on_board()).map_values(coord_cell())
}

/// The test for snakes other than the player's.
pub open spec fn is_other(you: ApiSnake) -> spec_fn(ApiSnake) -> bool {
    |s: ApiSnake| s.id@ != you.id@
}

/// The snakes of a request, the player first.
pub open spec fn entrants(req: GameRequest) -> Seq<ApiSnake> {
    seq![req.you] + req.board.snakes@.filter(is_other(req.you))
}

/// What stands in a slot without a snake on the board.
pub open spec fn placeholder() -> SnakeModel {
    SnakeModel { health: 0, alive: false, body: seq![0u8] }
}

/// A snake of a request: the segments on the board, alive if there are any.
pub open spec fn entrant_model(s: ApiSnake) -> SnakeModel {
    if cells_on_board(s.body@).len() == 0 {
        placeholder()
    } else {
        SnakeModel { health: s.health as int, alive: true, body: cells_on_board(s.body@) }
    }
}

/// The number of snakes of a request that fit a position.
pub open spec fn entrant_count(req: GameRequest) -> nat {
    if entrants(req).len() < 4 {
        entrants(req).len()
    } else {
        4
    }
}

/// The position that a request describes: the player and the first three other
/// snakes, and the food on the board.
pub open spec fn described(req: GameRequest) -> StateModel {
    StateModel {
        snakes: Seq::new(
            4,
            |i: int|
                if i < entrant_count(req) {
                    entrant_model(entrants(req)[i])
                } else {
                    placeholder()
                },
        ),
        n: entrant_count(req),
        food: Set::new(|c: Cell| cells_on_board(req.board.food@).contains(c)),
        turn: req.turn as nat,
    }
}

/// The segments on the board of every snake that counts fit a snake.
pub open spec fn bodies_fit(req: GameRequest) -> bool {
    forall|i: int|
        0 <= i < entrant_count(req) ==> cells_on_board((#[trigger] entrants(req)[i]).body@).len()
            <= MAX_BODY
}

proof fn lemma_cells_step(coords: Seq<Coord>, k: int)
    requires
        0 <= k < coords.len(),
    ensures
        cells_on_board(coords.take(k + 1)) == if on_board(coords[k].x as int, coords[k].y as int) {
            cells_on_board(coords.take(k)).push(code(coords[k].x as int, coords[k].y as int) as Cell)
        } else {
            cells_on_board(coords.take(k))
        },
{
    reveal(Seq::filter);
    assert(coords.take(k + 1).drop_last() =~= coords.take(k));
    assert(coords.take(k + 1).last() == coords[k]);
    assert(cells_on_board(coords.take(k + 1)) =~= if on_board(
        coords[k].x as int,
        coords[k].y as int,
    ) {
        cells_on_board(coords.take(k)).push(code(coords[k].x as int, coords[k].y as int) as Cell)
    } else {
        cells_on_board(coords.take(k))
    });
}

proof fn lemma_cells_none(coords: Seq<Coord>)
    ensures
        cells_on_board(coords.take(0)) == Seq::<Cell>::empty(),
{
    reveal(Seq::filter);
    assert(cells_on_board(coords.take(0)) =~= Seq::<Cell>::empty());
}

/// The cells of those coordinates that are on the board.
fn board_cells(coords: &Vec<Coord>) -> (cells: Vec<Cell>)
    ensures
        cells@ == cells_on_board(coords@),
        forall|i: int| 0 <= i < cells@.len() ==> is_cell(#[trigger] cells@[i]),
{
    let mut cells: Vec<Cell> = Vec::new();
    let mut k: usize = 0;
    proof {
        lemma_cells_none(coords@);
    }
    while k < coords.len()
        invariant
            k <= coords@.len(),
            cells@ == cells_on_board(coords@.take(k as int)),
            forall|i: int| 0 <= i < cells@.len() ==> is_cell(#[trigger] cells@[i]),
        decreases coords@.len() - k,
    {
        let c = &coords[k];
        proof {
            lemma_cells_step(coords@, k as int);
        }
        if in_bounds(c.x, c.y) {
            cells.push(cell(c.x, c.y));
        }
        k += 1;
    }
    assert(coords@.take(k as int) =~= coords@);
    cells
}

/// A slot without a snake on the board.
fn dead_snake() -> (s: Snake)
    ensures
        s.wf(),
        s@ == placeholder(),
{
    let s = Snake { health: 0, alive: false, body: [0u8;MAX_BODY], head_idx: 0, length: 1 };
    assert(s@.body =~= placeholder().body);
    s
}

/// A snake of a request.
fn read_snake(api: &ApiSnake) -> (s: Snake)
    requires
        cells_on_board(api.body@).len() <= MAX_BODY,
    ensures
        s.wf(),
        s@ == entrant_model(*api),
{
    let segments = board_cells(&api.body);
    if segments.len() == 0 {
        return dead_snake();
    }
    let mut s = Snake::new(&segments);
    s.health = api.health;
    s.alive = true;
    assert(s@.body =~= segments@);
    s
}

/// The food of a request.
fn read_food(coords: &Vec<Coord>) -> (food: Bb)
    ensures
        food@ == Set::new(|c: Cell| cells_on_board(coords@).contains(c)),
{
    let cells = board_cells(coords);
    let mut food = Bb::default();
    let mut k: usize = 0;
    while k < cells.len()
        invariant
            k <= cells@.len(),
            forall|i: int| 0 <= i < cells@.len() ==> is_cell(#[trigger] cells@[i]),
            forall|c: Cell| #[trigger] food@.contains(c) <==> cells@.take(k as int).contains(c),
        decreases cells@.len() - k,
    {
        let ghost prev = food@;
        food.set(cells[k]);
        proof {
            let now = cells@.take(k as int);
            let next = cells@.take(k + 1);
            assert(next =~= now.push(cells@[k as int]));
            assert forall|c: Cell| #[trigger] food@.contains(c) <==> next.contains(c) by {
                if now.contains(c) {
                    let i = choose|i: int| 0 <= i < now.len() && now[i] == c;
                    assert(next[i] == c);
                }
                if c == cells@[k as int] {
                    assert(next[k as int] == c);
                }
                if next.contains(c) {
                    let i = choose|i: int| 0 <= i < next.len() && next[i] == c;
                    if i < k {
                        assert(now[i] == c);
                    }
                }
            }
        }
        k += 1;
    }
    assert(cells@.take(k as int) =~= cells@);
    assert(food@ =~= Set::new(|c: Cell| cells_on_board(coords@).contains(c)));
    food
}

proof fn lemma_others_step(snakes: Seq<ApiSnake>, p: spec_fn(ApiSnake) -> bool, k: int)
    requires
        0 <= k < snakes.len(),
    ensures
        snakes.take(k + 1).filter(p) == if p(snakes[k]) {
            snakes.take(k).filter(p).push(snakes[k])
        } else {
            snakes.take(k).filter(p)
        },
        snakes.take(0).filter(p) == Seq::<ApiSnake>::empty(),
{
    reveal(Seq::filter);
    assert(snakes.take(k + 1).drop_last() =~= snakes.take(k));
    assert(snakes.take(k + 1).last() == snakes[k]);
}

/// A filtered prefix is a prefix of the filtered list.
proof fn lemma_others_prefix(snakes: Seq<ApiSnake>, p: spec_fn(ApiSnake) -> bool, k: int)
    requires
        0 <= k <= snakes.len(),
    ensures
        snakes.take(k).filter(p).len() <= snakes.filter(p).len(),
        forall|i: int|
            0 <= i < snakes.take(k).filter(p).len() ==> #[trigger] snakes.take(k).filter(p)[i]
                == snakes.filter(p)[i],
    decreases snakes.len() - k,
{
    if k == snakes.len() {
        assert(snakes.take(k) =~= snakes);
    } else {
        lemma_others_step(snakes, p, k);
        lemma_others_prefix(snakes, p, k + 1);
        let a = snakes.take(k).filter(p);
        let b = snakes.take(k + 1).filter(p);
        assert forall|i: int| 0 <= i < a.len() implies #[trigger] a[i] == snakes.filter(p)[i] by {
            assert(b[i] == a[i]);
        }
    }
}

/// The position that a request describes.
pub fn api_to_state(req: &GameRequest) -> (state: State)
    requires
        bodies_fit(*req),
    ensures
        state.wf(),
        state@ == described(*req),
        state.turn == req.turn,
{
    let ghost p = is_other(req.you);
    let ghost others = req.board.snakes@;
    let ghost all = entrants(*req);
    let mut snakes: [Snake; 4] = [dead_snake(), dead_snake(), dead_snake(), dead_snake()];
    proof {
        assert(all[0] == req.you);
        reveal(Seq::filter);
        assert(others.take(0).filter(p) =~= Seq::empty());
    }
    snakes[0] = read_snake(&req.you);
    let mut n: usize = 1;
    let mut k: usize = 0;
    while k < req.board.snakes.len() && n < 4
        invariant
            k <= others.len(),
            others == req.board.snakes@,
            p == is_other(req.you),
            all == entrants(*req),
            bodies_fit(*req),
            1 <= n <= 4,
            n == 1 + others.take(k as int).filter(p).len(),
            forall|i: int| 0 <= i < 4 ==> (#[trigger] snakes@[i]).wf(),
            forall|i: int| 0 <= i < n ==> (#[trigger] snakes@[i])@ == entrant_model(all[i]),
            forall|i: int| n <= i < 4 ==> (#[trigger] snakes@[i])@ == placeholder(),
        decreases others.len() - k,
    {
        let s = &req.board.snakes[k];
        proof {
            lemma_others_step(others, p, k as int);
            lemma_others_prefix(others, p, k + 1);
        }
        if !(s.id == req.you.id) {
            proof {
                let a = others.take(k + 1).filter(p);
                assert(p(others[k as int]));
                assert(a[n - 1] == others[k as int]);
                assert(all[n as int] == others.filter(p)[n - 1]);
                assert(n < entrant_count(*req));
            }
            snakes[n] = read_snake(s);
            n += 1;
        }
        k += 1;
    }
    let food = read_food(&req.board.food);
    let state = State { snakes, n_snakes: n, food, turn: req.turn };
    proof {
        lemma_others_prefix(others, p, k as int);
        if n < 4 {
            assert(others.take(k as int) =~= others);
        }
        assert(n == entrant_count(*req));
        assert(state@.snakes =~= described(*req).snakes);
        assert(state@.food =~= described(*req).food);
    }
    state
}

proof fn lemma_cells_are_cells(coords: Seq<Coord>)
    ensures
        forall|i: int|
            0 <= i < cells_on_board(coords).len() ==> is_cell(#[trigger] cells_on_board(coords)[i]),
{
    let p = coord_on_board();
    assert forall|i: int| 0 <= i < cells_on_board(coords).len() implies is_cell(
        #[trigger] cells_on_board(coords)[i],
    ) by {
        coords.lemma_filter_pred(p, i);
    }
}

/// A request describes a valid position of one to four snakes: the player in slot
/// 0, the other snakes in the order of the board, and nobody in the slots that
/// are left.
pub proof fn requests_describe_valid_positions(req: GameRequest)
    requires
        bodies_fit(req),
    ensures
        described(req).valid(),
        1 <= described(req).n <= 4,
        described(req).me() == entrant_model(req.you),
        forall|i: int|
            1 <= i < described(req).n ==> #[trigger] described(req).snakes[i] == entrant_model(
                req.board.snakes@.filter(is_other(req.you))[i - 1],
            ),
        forall|i: int| described(req).n <= i < 4 ==> !(#[trigger] described(req).snakes[i]).alive,
{
    let s = described(req);
    assert forall|i: int| 0 <= i < 4 implies (#[trigger] s.snakes[i]).valid() by {
        if i < s.n {
            let e = entrants(req)[i];
            lemma_cells_are_cells(e.body@);
            assert(cells_on_board(e.body@).len() <= MAX_BODY);
        }
    }
    lemma_cells_are_cells(req.board.food@);
    assert(entrants(req)[0] == req.you);
}

/// Do the segments on the board of every snake that counts fit a snake?
pub fn request_fits(req: &GameRequest) -> (b: bool)
    ensures
        b == bodies_fit(*req),
{
    let ghost p = is_other(req.you);
    let ghost others = req.board.snakes@;
    let ghost all = entrants(*req);
    proof {
        assert(all[0] == req.you);
        reveal(Seq::filter);
        assert(others.take(0).filter(p) =~= Seq::empty());
    }
    if board_cells(&req.you.body).len() > MAX_BODY {
        return false;
    }
    let mut n: usize = 1;
    let mut k: usize = 0;
    while k < req.board.snakes.len() && n < 4
        invariant
            k <= others.len(),
            others == req.board.snakes@,
            p == is_other(req.you),
            all == entrants(*req),
            1 <= n <= 4,
            n == 1 + others.take(k as int).filter(p).len(),
            forall|i: int|
                0 <= i < n ==> cells_on_board((#[trigger] all[i]).body@).len() <= MAX_BODY,
        decreases others.len() - k,
    {
        let s = &req.board.snakes[k];
        proof {
            lemma_others_step(others, p, k as int);
            lemma_others_prefix(others, p, k + 1);
        }
        if !(s.id == req.you.id) {
            proof {
                let a = others.take(k + 1).filter(p);
                assert(p(others[k as int]));
                assert(a[n - 1] == others[k as int]);
                assert(all[n as int] == others.filter(p)[n - 1]);
                assert(n < entrant_count(*req));
            }
            if board_cells(&s.body).len() > MAX_BODY {
                return false;
            }
            n += 1;
        }
        k += 1;
    }
    proof {
        lemma_others_prefix(others, p, k as int);
        if n < 4 {
            assert(others.take(k as int) =~= others);
        }
        assert(n == entrant_count(*req));
    }
    true
}

/// Is a position in the range that the player can decide in?
pub fn can_decide(state: &State) -> (b: bool)
    requires
        state.wf(),
    ensures
        b == decidable(state@),
{
    let ghost s = state@;
    let living = state.alive_count();
    let turns: usize = if living <= 2 {
        5
    } else if living <= 3 {
        4
    } else {
        3
    };
    assert(turns == 1 + turns_ahead(search_depth(s), false));
    if state.turn > u32::MAX - turns as u32 {
        return false;
    }
    let mut i: usize = 0;
    while i < 4
        invariant
            i <= 4,
            s == state@,
            1 <= turns <= 5,
            turns == 1 + turns_ahead(search_depth(s), false),
            forall|j: int|
                0 <= j < i && (#[trigger] s.snakes[j]).alive ==> s.snakes[j].health - turns
                    >= i32::MIN && s.snakes[j].body.len() + turns <= LENGTH_LIMIT,
        decreases 4 - i,
    {
        let b = &state.snakes[i];
        assert(s.snakes[i as int] == b@);
        if b.alive && (b.health < i32::MIN + turns as i32 || b.length > LENGTH_LIMIT - turns) {
            return false;
        }
        i += 1;
    }
    let me = state.player();
    if !me.alive {
        return true;
    }
    assert(s.snakes[0] == me@);
    let health: i64 = me.health as i64;
    let length: i64 = me.length as i64;
    let worst: i64 = (health - turns as i64) * 100;
    let best: i64 = 10_000_000 + health * 100 + (length + turns as i64) * 50;
    worst >= i32::MIN as i64 && best < i32::MAX as i64
}

/// The message that goes with a move: the turn, the mood, and the health and
/// length of the player.
pub open spec fn shout_text(s: StateModel, mode: Seq<char>) -> Seq<char> {
    "T"@ + decimal(s.turn) + " | "@ + mode + " | HP:"@ + signed_decimal(s.me().health)
        + " | len:"@ + decimal(s.me().body.len())
}

/// The answer to a request, for the decision that was made.
pub fn move_response(state: &State, result: &MoveResult) -> (r: MoveResponse)
    ensures
        r.direction@ == result.dir.name(),
        r.shout@ == shout_text(state@, result.mode@),
{
    let me = state.player();
    let mut shout = String::new();
    shout.append("T");
    push_decimal(&mut shout, state.turn as u64);
    shout.append(" | ");
    shout.append(result.mode);
    shout.append(" | HP:");
    push_signed(&mut shout, me.health);
    shout.append(" | len:");
    push_decimal(&mut shout, me.length as u64);
    assert(shout@ =~= shout_text(state@, result.mode@));
    let mut direction = String::new();
    direction.append(result.dir.as_str());
    assert(direction@ =~= result.dir.name());
    MoveResponse { direction, shout }
}

/// What the server says about its snake.
pub fn info() -> (r: InfoResponse)
    ensures
        r.apiversion@ == "1"@,
        r.author@ == "APEX"@,
        r.color@ == "#39ff14"@,
        r.head@ == "default"@,
        r.tail@ == "default"@,
{
    InfoResponse {
        apiversion: "1",
        author: "APEX",
        color: "#39ff14",
        head: "default",
        tail: "default",
    }
}

/// The cells of a list of coordinates are taken one by one, in order: coordinates on
/// the board give their cell, others nothing.
pub proof fn coordinates_are_read_in_order(list: Seq<Coord>, c: Coord)
    ensures
        cells_on_board(Seq::<Coord>::empty()).len() == 0,
        0 <= c.x < 11 && 0 <= c.y < 11 ==> cells_on_board(list.push(c)) == cells_on_board(list).push(
            (11 * c.y + c.x) as Cell,
        ),
        !(0 <= c.x < 11 && 0 <= c.y < 11) ==> cells_on_board(list.push(c)) == cells_on_board(list),
{
    let all = list.push(c);
    lemma_cells_step(all, list.len() as int);
    lemma_cells_none(all);
    assert(all.take(list.len() as int) =~= list);
    assert(all.take(list.len() + 1int) =~= all);
    assert(all.take(0) =~= Seq::<Coord>::empty());
}

/// The snakes other than the player's are taken one by one, in order: those with
/// another name than the player's.
pub proof fn opponents_are_read_in_order(list: Seq<ApiSnake>, you: ApiSnake, s: ApiSnake)
    ensures
        Seq::<ApiSnake>::empty().filter(is_other(you)).len() == 0,
        s.id@ != you.id@ ==> list.push(s).filter(is_other(you)) == list.filter(
            is_other(you),
        ).push(s),
        s.id@ == you.id@ ==> list.push(s).filter(is_other(you)) == list.filter(is_other(you)),
{
    let all = list.push(s);
    lemma_others_step(all, is_other(you), list.len() as int);
    assert(all.take(list.len() as int) =~= list);
    assert(all.take(list.len() + 1int) =~= all);
    assert(all.take(0) =~= Seq::<ApiSnake>::empty());
}

/// A snake of a request with segments on the board lives, with the health given
/// and those segments; one without is nobody.
pub proof fn snakes_are_read_as_given(s: ApiSnake)
    ensures
        entrant_model(s).alive <==> exists|k: int|
            0 <= k < s.body@.len() && 0 <= (#[trigger] s.body@[k]).x < 11 && 0 <= s.body@[k].y < 11,
        entrant_model(s).alive ==> entrant_model(s).health == s.health && entrant_model(s).body
            == cells_on_board(s.body@),
        !entrant_model(s).alive ==> entrant_model(s).health == 0 && entrant_model(s).body
            == seq![0u8],
{
    lemma_any_on_board(s.body@);
}

proof fn lemma_any_on_board(list: Seq<Coord>)
    ensures
        cells_on_board(list).len() > 0 <==> exists|k: int|
            0 <= k < list.len() && 0 <= (#[trigger] list[k]).x < 11 && 0 <= list[k].y < 11,
    decreases list.len(),
{
    if list.len() == 0 {
        lemma_cells_none(list);
        assert(list.take(0) =~= list);
    } else {
        let c = list.last();
        let rest = list.drop_last();
        lemma_any_on_board(rest);
        coordinates_are_read_in_order(rest, c);
        assert(rest.push(c) =~= list);
        if 0 <= c.x < 11 && 0 <= c.y < 11 {
            assert(list[list.len() - 1] == c);
        }
        if cells_on_board(rest).len() > 0 {
            let k = choose|k: int|
                0 <= k < rest.len() && 0 <= (#[trigger] rest[k]).x < 11 && 0 <= rest[k].y < 11;
            assert(list[k] == rest[k]);
        }
        if exists|k: int|
            0 <= k < list.len() && 0 <= (#[trigger] list[k]).x < 11 && 0 <= list[k].y < 11 {
            let k = choose|k: int|
                0 <= k < list.len() && 0 <= (#[trigger] list[k]).x < 11 && 0 <= list[k].y < 11;
            if k < rest.len() {
                assert(rest[k] == list[k]);
            }
        }
    }
}

proof fn lemma_cell_on_board(list: Seq<Coord>, c: Cell)
    ensures
        cells_on_board(list).contains(c) <==> exists|k: int|
            0 <= k < list.len() && 0 <= (#[trigger] list[k]).x < 11 && 0 <= list[k].y < 11 && c == 11
                * list[k].y + list[k].x,
    decreases list.len(),
{
    if list.len() == 0 {
        lemma_cells_none(list);
        assert(list.take(0) =~= list);
    } else {
        let last = list.last();
        let rest = list.drop_last();
        lemma_cell_on_board(rest, c);
        coordinates_are_read_in_order(rest, last);
        assert(rest.push(last) =~= list);
        let cells = cells_on_board(rest);
        let here = 0 <= last.x < 11 && 0 <= last.y < 11;
        if here {
            let x = (11 * last.y + last.x) as Cell;
            assert(cells.push(x).contains(c) <==> cells.contains(c) || x == c) by {
                if cells.contains(c) {
                    let i = choose|i: int| 0 <= i < cells.len() && cells[i] == c;
                    assert(cells.push(x)[i] == c);
                }
                if x == c {
                    assert(cells.push(x)[cells.len() as int] == c);
                }
            }
            if x == c {
                assert(list[list.len() - 1] == last);
            }
        }
        if cells.contains(c) {
            let k = choose|k: int|
                0 <= k < rest.len() && 0 <= (#[trigger] rest[k]).x < 11 && 0 <= rest[k].y < 11 && c
                    == 11 * rest[k].y + rest[k].x;
            assert(list[k] == rest[k]);
        }
        if exists|k: int|
            0 <= k < list.len() && 0 <= (#[trigger] list[k]).x < 11 && 0 <= list[k].y < 11 && c == 11
                * list[k].y + list[k].x {
            let k = choose|k: int|
                0 <= k < list.len() && 0 <= (#[trigger] list[k]).x < 11 && 0 <= list[k].y < 11 && c
                    == 11 * list[k].y + list[k].x;
            if k < rest.len() {
                assert(rest[k] == list[k]);
            }
        }
    }
}

/// The food of a request lies on the cells of its coordinates on the board.
pub proof fn food_is_read_as_given(req: GameRequest, c: Cell)
    ensures
        described(req).food.contains(c) <==> exists|k: int|
            0 <= k < req.board.food@.len() && 0 <= (#[trigger] req.board.food@[k]).x < 11 && 0
                <= req.board.food@[k].y < 11 && c == 11 * req.board.food@[k].y
                + req.board.food@[k].x,
        described(req).turn == req.turn,
{
    lemma_cell_on_board(req.board.food@, c);
}

/// As many snakes take part as the request has, the player and up to three others.
pub proof fn up_to_four_snakes_take_part(req: GameRequest)
    ensures
        ({
            let others = req.board.snakes@.filter(is_other(req.you)).len();
            &&& others <= 3 ==> described(req).n == 1 + others
            &&& others > 3 ==> described(req).n == 4
            &&& described(req).snakes.len() == 4
        }),
{
}

} // verus!
