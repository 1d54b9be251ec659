//! A game that the player plays against the built-in opponents.
use vstd::prelude::*;

use crate::bitboard::{lemma_cells_of, Bb};
use crate::grid::{cell, code, Cell, Dir};
use crate::minimax::{play, played, replies};
use crate::player::{choose_move, decidable, decision, MoveResult};
use crate::rng::{food_appears_on_free_cells, spawn_food, spawned, SimpleRng};
use crate::sim::{
    moved_snake, survivors_fit_the_board, survivors_lived_before, turned, turns_keep_positions_valid,
};
use crate::snake::{Snake, SnakeModel, MAX_HP};
use crate::state::{State, StateModel};

verus! {

/// What a game is: a position, the state of the generator, and the tallies.
#[verifier::ext_equal]
pub struct GameModel {
    pub state: StateModel,
    pub rng: u64,
    pub food_eaten: nat,
    pub kills: nat,
}

/// The code of a position as a cell.
pub open spec fn at(x: int, y: int) -> Cell {
    code(x, y) as Cell
}

/// A living snake with full health.
pub open spec fn fresh(body: Seq<Cell>) -> SnakeModel {
    SnakeModel { health: MAX_HP as int, alive: true, body }
}

/// The position at the start: the player in the centre, the opponents in three
/// corners, and five pieces of food.
pub open spec fn opening() -> StateModel {
    StateModel {
        snakes: seq![
            fresh(seq![at(5, 5), at(4, 5), at(3, 5)]),
            fresh(seq![at(1, 9), at(2, 9), at(3, 9)]),
            fresh(seq![at(9, 1), at(9, 2), at(9, 3)]),
            fresh(seq![at(1, 1), at(1, 2), at(1, 3)]),
        ],
        n: 4,
        food: set![at(5, 3), at(3, 7), at(7, 7), at(5, 9), at(9, 5)],
        turn: 0,
    }
}

/// A game before its first turn.
pub open spec fn new_game() -> GameModel {
    GameModel { state: opening(), rng: 12345, food_eaten: 0, kills: 0 }
}

/// A position with one more piece of food.
pub open spec fn with_food(s: StateModel, c: Cell) -> StateModel {
    StateModel { food: s.food.insert(c), ..s }
}

/// One piece of food is added, if a free cell is found.
pub open spec fn fed(s: StateModel, x: u64) -> (StateModel, u64) {
    match spawned(s, x) {
        (Some(c), y) => (with_food(s, c), y),
        (None, y) => (s, y),
    }
}

/// Food is added until there are three pieces, or no free cell is found; at most
/// `n` pieces are added.
pub open spec fn stocked(s: StateModel, x: u64, n: nat) -> (StateModel, u64)
    decreases n,
{
    if n == 0 || s.food.len() >= 3 {
        (s, x)
    } else if spawned(s, x).0 is None {
        fed(s, x)
    } else {
        stocked(fed(s, x).0, fed(s, x).1, (n - 1) as nat)
    }
}

/// The food supply after a turn: at least three pieces, and one more every 25
/// turns.
pub open spec fn supplied(s: StateModel, x: u64) -> (StateModel, u64) {
    let (t, y) = stocked(s, x, 3);
    if t.turn % 25 == 0 {
        fed(t, y)
    } else {
        (t, y)
    }
}

/// The number of opponents in the slots below `n` that were alive in `s` and are
/// dead in `t`.
pub open spec fn losses(s: StateModel, t: StateModel, n: int) -> nat
    decreases n,
{
    if n <= 1 {
        0
    } else {
        losses(s, t, n - 1) + if s.snakes[n - 1].alive && !t.snakes[n - 1].alive {
            1nat
        } else {
            0
        }
    }
}

/// The game after one turn in which the player goes in direction `d`.
pub open spec fn stepped(g: GameModel, d: Dir) -> GameModel {
    let s = g.state;
    let t = played(s, d);
    let to = d.target(s.me().head());
    let (u, y) = supplied(t, g.rng);
    GameModel {
        state: u,
        rng: y,
        food_eaten: g.food_eaten + if to is Some && s.food.contains(to->0) {
            1nat
        } else {
            0
        },
        kills: g.kills + losses(s, t, t.n as int),
    }
}

/// The game after `n` turns in which the player decides, or after the turn in
/// which the player died.
pub open spec fn game_after(g: GameModel, n: nat) -> GameModel
    decreases n,
{
    if n == 0 || !g.state.me().alive {
        g
    } else {
        game_after(stepped(g, decision(g.state).0), (n - 1) as nat)
    }
}

/// The number of turns from `turn` to the next one at which progress is reported,
/// or to `target` where that comes first.
pub open spec fn turns_to_report(turn: nat, target: nat) -> nat {
    if turn >= target {
        0
    } else if target - turn < 500 - turn % 500 {
        (target - turn) as nat
    } else {
        (500 - turn % 500) as nat
    }
}

/// What holds of every game from its start on: living snakes have a health from 1
/// to 100 and fit the board, the player has three segments and one for each piece
/// of food eaten, which is at most one a turn, and the kills are the opponents
/// that are dead.
pub open spec fn steady(g: GameModel) -> bool {
    &&& g.state.valid()
    &&& g.state.n == 4
    &&& forall|i: int|
        0 <= i < 4 && (#[trigger] g.state.snakes[i]).alive ==> 1 <= g.state.snakes[i].health <= 100
            && g.state.snakes[i].body.len() <= 121
    &&& g.state.me().body.len() == 3 + g.food_eaten
    &&& g.food_eaten <= g.state.turn
    &&& g.kills + g.state.opponents() == 3
}

/// How a game stands.
#[derive(Clone, Copy, PartialEq, Eq, Debug, Structural)]
pub enum Outcome {
    /// The player is dead.
    Dead,
    /// The player has survived the turns that it was to survive.
    Survived,
    /// The game goes on.
    Running,
}

/// A game against the built-in opponents.
pub struct SelfPlay {
    pub state: State,
    pub rng: SimpleRng,
    /// Pieces of food that the player has moved onto.
    pub food_eaten: u32,
    /// Opponents that have died.
    pub kills: u32,
}

impl View for SelfPlay {
    type V = GameModel;

    open spec fn view(&self) -> GameModel {
        GameModel {
            state: self.state@,
            rng: self.rng@,
            food_eaten: self.food_eaten as nat,
            kills: self.kills as nat,
        }
    }
}

/// Adds a piece of food where a free cell is found. Says whether one was.
fn add_food(state: &mut State, rng: &mut SimpleRng) -> (found: bool)
    requires
        old(state).wf(),
    ensures
        final(state).wf(),
        (final(state)@, final(rng)@) == fed(old(state)@, old(rng)@),
        found == (spawned(old(state)@, old(rng)@).0 is Some),
        found ==> final(state)@.food.len() == old(state)@.food.len() + 1,
        final(state).turn == old(state).turn,
{
    let ghost s = state@;
    proof {
        state.food.lemma_view();
    }
    match spawn_food(state, rng) {
        Some(f) => {
            state.food.set(f);
            assert(state@ =~= with_food(s, f));
            true
        },
        None => false,
    }
}

/// Keeps up the food supply after a turn.
fn supply_food(state: &mut State, rng: &mut SimpleRng)
    requires
        old(state).wf(),
    ensures
        final(state).wf(),
        (final(state)@, final(rng)@) == supplied(old(state)@, old(rng)@),
        final(state).turn == old(state).turn,
{
    let ghost whole = stocked(state@, rng@, 3);
    let ghost mut n: nat = 3;
    let mut more = true;
    while more && state.food.count() < 3
        invariant
            state.wf(),
            state.turn == old(state).turn,
            more ==> state@.food.len() + n >= 3,
            more ==> whole == stocked(state@, rng@, n),
            !more ==> whole == (state@, rng@),
        decreases (if more {
            n + 1
        } else {
            0
        }),
    {
        let ghost s = state@;
        let ghost x = rng@;
        more = add_food(state, rng);
        proof {
            if more {
                assert(stocked(s, x, n) == stocked(fed(s, x).0, fed(s, x).1, (n - 1) as nat));
                n = (n - 1) as nat;
            }
        }
    }
    assert(whole == (state@, rng@));
    if state.turn % 25 == 0 {
        add_food(state, rng);
    }
}

/// Counts the opponents that were alive in `before` and are dead in `after`.
fn count_losses(before: &State, after: &State) -> (n: u32)
    requires
        before.wf(),
        after.wf(),
    ensures
        n == losses(before@, after@, after@.n as int),
        n <= 3,
{
    let ghost s = before@;
    let ghost t = after@;
    let mut n: u32 = 0;
    let mut i: usize = 1;
    while i < after.n_snakes
        invariant
            1 <= i,
            i <= after.n_snakes || i == 1,
            after.n_snakes <= 4,
            s == before@,
            t == after@,
            n == losses(s, t, i as int),
            n <= i - 1,
        decreases after.n_snakes - i,
    {
        if before.snakes[i].alive && !after.snakes[i].alive {
            n += 1;
        }
        i += 1;
    }
    n
}

impl SelfPlay {
    /// A new game.
    pub fn new() -> (g: SelfPlay)
        ensures
            g.state.wf(),
            g@ == new_game(),
    {
        let player = [cell(5, 5), cell(4, 5), cell(3, 5)];
        let e1 = [cell(1, 9), cell(2, 9), cell(3, 9)];
        let e2 = [cell(9, 1), cell(9, 2), cell(9, 3)];
        let e3 = [cell(1, 1), cell(1, 2), cell(1, 3)];
        let mut food = Bb::default();
        food.set(cell(5, 3));
        food.set(cell(3, 7));
        food.set(cell(7, 7));
        food.set(cell(5, 9));
        food.set(cell(9, 5));
        let state = State {
            snakes: [Snake::new(&player), Snake::new(&e1), Snake::new(&e2), Snake::new(&e3)],
            n_snakes: 4,
            food,
            turn: 0,
        };
        proof {
            assert(state.snakes@[0]@ =~= opening().snakes[0]);
            assert(state.snakes@[1]@ =~= opening().snakes[1]);
            assert(state.snakes@[2]@ =~= opening().snakes[2]);
            assert(state.snakes@[3]@ =~= opening().snakes[3]);
            assert(state@.snakes =~= opening().snakes);
            assert(state@.food =~= opening().food);
        }
        SelfPlay { state, rng: SimpleRng::new(12345), food_eaten: 0, kills: 0 }
    }

    /// How the game stands when `target` turns are to be survived.
    pub fn outcome(&self, target: u32) -> (o: Outcome)
        ensures
            o == (if !self@.state.me().alive {
                Outcome::Dead
            } else if self@.state.turn >= target {
                Outcome::Survived
            } else {
                Outcome::Running
            }),
    {
        if !self.state.player().alive {
            Outcome::Dead
        } else if self.state.turn >= target {
            Outcome::Survived
        } else {
            Outcome::Running
        }
    }

    /// Is the turn one at which progress is reported?
    pub fn at_milestone(&self) -> (b: bool)
        ensures
            b == (self@.state.turn % 500 == 0),
    {
        self.state.turn % 500 == 0
    }

    /// Plays a turn: the player decides, the opponents move, and the food supply
    /// is kept up. Gives the player's decision.
    pub fn step(&mut self) -> (r: MoveResult)
        requires
            old(self).state.wf(),
            decidable(old(self)@.state),
            old(self).food_eaten < u32::MAX,
            old(self).kills <= u32::MAX - 3,
        ensures
            final(self).state.wf(),
            (r.dir, r.mode@) == decision(old(self)@.state),
            final(self)@ == stepped(old(self)@, r.dir),
    {
        let ghost g = self@;
        let result = choose_move(&self.state);
        assert(self.state.snakes@[0].wf());
        if let Some(nc) = result.dir.step(self.state.player().head()) {
            if self.state.food.get(nc) {
                self.food_eaten = self.food_eaten + 1;
            }
        }
        let mut next = play(&self.state, result.dir);
        self.kills = self.kills + count_losses(&self.state, &next);
        supply_food(&mut next, &mut self.rng);
        self.state = next;
        assert(self@ =~= stepped(g, result.dir));
        result
    }

    /// Plays on until progress is to be reported, or until the game to `target`
    /// turns is over. Gives the player's last decision for a report, and `None`
    /// for a game that is over without one.
    pub fn play_on(&mut self, target: u32) -> (r: Option<MoveResult>)
        requires
            old(self).state.wf(),
            steady(old(self)@),
            target <= u32::MAX - 4,
        ensures
            final(self).state.wf(),
            steady(final(self)@),
            ({
                let g = old(self)@;
                let n = turns_to_report(g.state.turn, target as nat);
                let last = game_after(g, (n - 1) as nat).state;
                &&& final(self)@ == game_after(g, n)
                &&& r is Some <==> n > 0 && (g.state.turn + n) % 500 == 0 && last.me().alive
                &&& r is Some ==> ((r->0).dir, (r->0).mode@) == decision(last)
            }),
            r is None ==> !final(self)@.state.me().alive || final(self)@.state.turn >= target,
    {
        let ghost g = self@;
        let ghost n = turns_to_report(g.state.turn, target as nat);
        let ghost mut k: nat = 0;
        while self.outcome(target) == Outcome::Running
            invariant
                self.state.wf(),
                steady(g),
                steady(self@),
                g == old(self)@,
                target <= u32::MAX - 4,
                n == turns_to_report(g.state.turn, target as nat),
                k <= n,
                self@ == game_after(g, k),
                k == 0 || (g.state.turn + k) % 500 != 0,
            decreases n - k,
        {
            proof {
                lemma_one_more_turn(g, target as nat, k);
            }
            let result = self.step();
            proof {
                k = k + 1;
            }
            if self.at_milestone() {
                return Some(result);
            }
        }
        proof {
            lemma_game_is_over(g, target as nat, k);
        }
        None
    }
}

/// The next report comes at a multiple of 500 turns or at the target, and at no
/// multiple before.
proof fn lemma_report(turn: nat, target: nat, k: nat)
    requires
        1 <= k <= turns_to_report(turn, target),
    ensures
        (turn + k) % 500 == 0 ==> k == turns_to_report(turn, target),
        k == turns_to_report(turn, target) ==> (turn + k) % 500 == 0 || turn + k == target,
{
    let r = turn % 500;
    let q = turn / 500;
    assert(turn == 500 * q + r);
    if r + k < 500 {
        assert((turn + k) % 500 == r + k);
    } else {
        assert(turn + k == 500 * (q + 1));
    }
}

/// A game that is still running `k` turns after the last report can be played on
/// for one more.
proof fn lemma_one_more_turn(g: GameModel, target: nat, k: nat)
    requires
        steady(g),
        target <= u32::MAX - 4,
        k <= turns_to_report(g.state.turn, target),
        k == 0 || (g.state.turn + k) % 500 != 0,
        game_after(g, k).state.me().alive,
        game_after(g, k).state.turn < target,
    ensures
        k < turns_to_report(g.state.turn, target),
        decidable(game_after(g, k).state),
        game_after(g, k).food_eaten < u32::MAX,
        game_after(g, k).kills <= u32::MAX - 3,
        game_after(g, k + 1) == stepped(game_after(g, k), decision(game_after(g, k).state).0),
        game_after(g, k + 1).state.turn == g.state.turn + k + 1,
        steady(game_after(g, k + 1)),
        (g.state.turn + k + 1) % 500 == 0 ==> k + 1 == turns_to_report(g.state.turn, target),
{
    let h = game_after(g, k);
    games_stay_steady(g, k);
    steady_games_can_go_on(h);
    if k > 0 {
        lemma_report(g.state.turn, target, k);
    }
    lemma_report(g.state.turn, target, k + 1);
    games_can_be_played_in_parts(g, k, 1);
    reveal_with_fuel(game_after, 2);
    turns_keep_games_steady(h, decision(h.state).0);
}

/// A game that is over `k` turns after the last report stays as it is up to the
/// next one, for which it leaves no decision.
proof fn lemma_game_is_over(g: GameModel, target: nat, k: nat)
    requires
        steady(g),
        k <= turns_to_report(g.state.turn, target),
        k == 0 || (g.state.turn + k) % 500 != 0,
        !game_after(g, k).state.me().alive || game_after(g, k).state.turn >= target,
    ensures
        ({
            let n = turns_to_report(g.state.turn, target);
            &&& game_after(g, k) == game_after(g, n)
            &&& !(n > 0 && (g.state.turn + n) % 500 == 0 && game_after(
                g,
                (n - 1) as nat,
            ).state.me().alive)
        }),
{
    let n = turns_to_report(g.state.turn, target);
    games_stay_steady(g, k);
    if k < n {
        games_can_be_played_in_parts(g, k, (n - k) as nat);
        games_can_be_played_in_parts(g, k, (n - 1 - k) as nat);
    }
}

/// Restocking leaves at least three pieces of food, unless the last search for a
/// free cell found none.
pub proof fn food_is_restocked(s: StateModel, x: u64, n: nat)
    requires
        s.food.finite(),
        s.food.len() + n >= 3,
    ensures
        stocked(s, x, n).0.food.len() >= 3 || exists|y: u64|
            (#[trigger] spawned(stocked(s, x, n).0, y)).0 is None,
        s.food.subset_of(stocked(s, x, n).0.food),
    decreases n,
{
    if n > 0 && s.food.len() < 3 {
        if spawned(s, x).0 is Some {
            food_appears_on_free_cells(s, x);
            food_is_restocked(fed(s, x).0, fed(s, x).1, (n - 1) as nat);
        } else {
            assert(spawned(stocked(s, x, n).0, x).0 is None);
        }
    }
}

proof fn lemma_fed(s: StateModel, x: u64)
    requires
        s.valid(),
    ensures
        fed(s, x).0.valid(),
        fed(s, x).0.snakes == s.snakes,
        fed(s, x).0.n == s.n,
        fed(s, x).0.turn == s.turn,
{
    food_appears_on_free_cells(s, x);
}

proof fn lemma_stocked(s: StateModel, x: u64, n: nat)
    requires
        s.valid(),
    ensures
        stocked(s, x, n).0.valid(),
        stocked(s, x, n).0.snakes == s.snakes,
        stocked(s, x, n).0.n == s.n,
        stocked(s, x, n).0.turn == s.turn,
    decreases n,
{
    lemma_fed(s, x);
    if n > 0 {
        lemma_stocked(fed(s, x).0, fed(s, x).1, (n - 1) as nat);
    }
}

proof fn lemma_same_living(s: StateModel, t: StateModel, lo: int, hi: int)
    requires
        s.snakes == t.snakes,
    ensures
        s.living(lo, hi) == t.living(lo, hi),
    decreases hi - lo,
{
    if lo < hi {
        lemma_same_living(s, t, lo, hi - 1);
    }
}

/// Those that are no longer alive are the losses.
proof fn lemma_losses(s: StateModel, t: StateModel, n: int)
    requires
        forall|i: int| 1 <= i < n && (#[trigger] t.snakes[i]).alive ==> s.snakes[i].alive,
    ensures
        losses(s, t, n) + t.living(1, n) == s.living(1, n),
    decreases n,
{
    if n > 1 {
        lemma_losses(s, t, n - 1);
        assert(t.snakes[n - 1].alive ==> s.snakes[n - 1].alive);
    }
}

/// A game starts steady.
pub proof fn games_start_steady()
    ensures
        steady(new_game()),
{
    reveal_with_fuel(StateModel::living, 4);
    let s = opening();
    assert(s.snakes[0].valid() && s.snakes[1].valid() && s.snakes[2].valid()
        && s.snakes[3].valid());
}

/// A turn keeps a game steady, whichever way the living player goes.
pub proof fn turns_keep_games_steady(g: GameModel, d: Dir)
    requires
        steady(g),
        g.state.me().alive,
    ensures
        steady(stepped(g, d)),
        stepped(g, d).state.turn == g.state.turn + 1,
{
    let s = g.state;
    let dirs = replies(s, d);
    let t = played(s, d);
    turns_keep_positions_valid(s, dirs);
    assert forall|i: int| 0 <= i < 4 && (#[trigger] t.snakes[i]).alive implies s.snakes[i].alive
        && 1 <= t.snakes[i].health <= 100 && t.snakes[i].body.len() <= 121 by {
        assert(t.lives(i));
        survivors_lived_before(s, dirs, i);
        survivors_fit_the_board(s, dirs, i);
        assert(s.snakes[i].alive);
    }
    assert(t.me().body == moved_snake(s, dirs, 0).body);
    assert(s.lives(0) && dirs[0] == Some(d));
    lemma_losses(s, t, 4);
    lemma_stocked(t, g.rng, 3);
    let (u, y) = stocked(t, g.rng, 3);
    lemma_fed(u, y);
    let v = supplied(t, g.rng).0;
    assert(v.snakes == t.snakes);
    lemma_same_living(v, t, 1, 4);
    assert forall|i: int| 0 <= i < 4 && (#[trigger] v.snakes[i]).alive implies 1
        <= v.snakes[i].health <= 100 && v.snakes[i].body.len() <= 121 by {
        assert(t.snakes[i].alive);
    }
}

/// A steady game with a living player can be played on up to the limit of the
/// turn counter: everything that a turn asks for is given.
pub proof fn steady_games_can_go_on(g: GameModel)
    requires
        steady(g),
        g.state.me().alive,
        g.state.turn <= u32::MAX - 5,
    ensures
        decidable(g.state),
        g.food_eaten < u32::MAX,
        g.kills <= u32::MAX - 3,
{
    assert(g.state.snakes[0].alive);
}

/// A game can be played in parts.
pub proof fn games_can_be_played_in_parts(g: GameModel, m: nat, n: nat)
    ensures
        game_after(g, m + n) == game_after(game_after(g, m), n),
    decreases m,
{
    if m > 0 && g.state.me().alive {
        games_can_be_played_in_parts(stepped(g, decision(g.state).0), (m - 1) as nat, n);
    }
}

/// A steady game stays steady. While the player lives, the turn counter counts
/// the turns.
pub proof fn games_stay_steady(g: GameModel, n: nat)
    requires
        steady(g),
    ensures
        steady(game_after(g, n)),
        g.state.turn <= game_after(g, n).state.turn <= g.state.turn + n,
        game_after(g, n).state.me().alive ==> game_after(g, n).state.turn == g.state.turn + n,
    decreases n,
{
    if n > 0 && g.state.me().alive {
        let d = decision(g.state).0;
        turns_keep_games_steady(g, d);
        games_stay_steady(stepped(g, d), (n - 1) as nat);
    }
}

/// The figures at the end of a game to `target` turns add up. It has ended by
/// then, with the player dead, or with the target reached exactly. Every snake is
/// alive or one of the kills, but for a dead player. The player is as long as the
/// food that it ate has made it.
pub proof fn final_figures_add_up(target: nat)
    ensures
        ({
            let g = game_after(new_game(), target);
            &&& g.state.turn <= target
            &&& g.state.me().alive ==> g.state.turn == target && g.kills + g.state.living(0, 4) == 4
            &&& !g.state.me().alive ==> g.kills + g.state.living(0, 4) == 3
            &&& g.state.me().body.len() == 3 + g.food_eaten
        }),
        game_after(new_game(), 0) == new_game(),
{
    games_start_steady();
    games_stay_steady(new_game(), target);
    reveal_with_fuel(StateModel::living, 5);
}

proof fn lemma_stocked_size(s: StateModel, x: u64, n: nat)
    requires
        s.food.finite(),
    ensures
        stocked(s, x, n).0.food.finite(),
        s.food.len() <= stocked(s, x, n).0.food.len(),
        s.food.len() >= 3 ==> stocked(s, x, n) == (s, x),
        s.food.len() < 3 ==> stocked(s, x, n).0.food.len() <= 3,
    decreases n,
{
    if n > 0 && s.food.len() < 3 && spawned(s, x).0 is Some {
        food_appears_on_free_cells(s, x);
        lemma_stocked_size(fed(s, x).0, fed(s, x).1, (n - 1) as nat);
    }
}

/// The food supply after a turn: it is brought up to three pieces and no further,
/// as far as free cells are found, and one more piece is added every 25 turns. No
/// food is taken away, and nothing else changes.
pub proof fn food_is_supplied_as_needed(s: StateModel, x: u64)
    requires
        s.valid(),
        s.food.finite(),
    ensures
        ({
            let (t, y) = supplied(s, x);
            &&& t.snakes == s.snakes && t.n == s.n && t.turn == s.turn
            &&& s.food.subset_of(t.food)
            &&& s.food.len() >= 3 && s.turn % 25 != 0 ==> (t, y) == (s, x)
            &&& s.food.len() >= 3 && s.turn % 25 == 0 ==> y == spawned(s, x).1
            &&& s.food.len() >= 3 && s.turn % 25 == 0 && spawned(s, x).0 is Some ==> t.food
                == s.food.insert(spawned(s, x).0->0)
            &&& s.food.len() >= 3 && s.turn % 25 == 0 && spawned(s, x).0 is None ==> t == s
            &&& s.food.len() < 3 && s.turn % 25 != 0 ==> t.food.len() <= 3
            &&& s.food.len() < 3 && s.turn % 25 == 0 ==> t.food.len() <= 4
            &&& s.turn % 25 != 0 ==> t.food.len() >= 3 || exists|z: u64|
                (#[trigger] spawned(t, z)).0 is None
        }),
{
    lemma_stocked(s, x, 3);
    lemma_stocked_size(s, x, 3);
    food_is_restocked(s, x, 3);
    let (t, y) = stocked(s, x, 3);
    lemma_fed(t, y);
    food_appears_on_free_cells(t, y);
}

/// A turn of a game moves everyone as they choose, counts a meal where the player
/// steps on food, and counts the opponents that it leaves dead.
pub proof fn games_keep_count(g: GameModel, d: Dir)
    requires
        g.state.valid(),
        g.state.food.finite(),
    ensures
        ({
            let s = g.state;
            let h = stepped(g, d);
            let to = d.target(s.snakes[0].body[0]);
            &&& h.state.snakes == turned(s, replies(s, d)).snakes
            &&& h.state.turn == s.turn + 1
            &&& h.state.n == s.n
            &&& turned(s, replies(s, d)).food.subset_of(h.state.food)
            &&& to is Some && s.food.contains(to->0) ==> h.food_eaten == g.food_eaten + 1
            &&& !(to is Some && s.food.contains(to->0)) ==> h.food_eaten == g.food_eaten
            &&& h.kills + h.state.opponents() == g.kills + s.opponents()
        }),
{
    let s = g.state;
    let t = played(s, d);
    turns_keep_positions_valid(s, replies(s, d));
    lemma_cells_of(t.food);
    food_is_supplied_as_needed(t, g.rng);
    assert forall|i: int| 1 <= i < s.n && (#[trigger] t.snakes[i]).alive implies s.snakes[i].alive by {
        assert(t.lives(i));
        survivors_lived_before(s, replies(s, d), i);
    }
    lemma_losses(s, t, s.n as int);
    lemma_same_living(supplied(t, g.rng).0, t, 1, s.n as int);
}

/// Progress is reported at the multiples of 500 turns: the next report comes at the
/// first of them, or the game reaches its target before.
pub proof fn reports_come_every_500_turns(turn: nat, target: nat, k: nat)
    requires
        turn < target,
    ensures
        ({
            let n = turns_to_report(turn, target);
            &&& n >= 1
            &&& turn + n <= target
            &&& (turn + n) % 500 == 0 || turn + n == target
            &&& 1 <= k < n ==> (turn + k) % 500 != 0
        }),
        turns_to_report(target, turn) == 0,
{
    let n = turns_to_report(turn, target);
    lemma_report(turn, target, n);
    if 1 <= k < n {
        lemma_report(turn, target, k);
    }
}

} // verus!
