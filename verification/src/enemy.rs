//! The opponents: each has a personality and moves greedily.
use vstd::prelude::*;

use crate::bitboard::{cells_below, cells_of, lemma_cells_of, Bb};
use crate::fill::{space_after, space_from};
use crate::grid::{abs, col, cx, cy, gap, is_cell, magnitude, manhattan, row, Cell, Dir, DIRS};
use crate::state::{State, StateModel};
use crate::tactics::{
    filtered_directions_keep_their_order, first_best, first_best_is_best, is_open,
    lemma_filter_ends, lemma_filter_step, open_move, open_moves, place,
};
use crate::voronoi::{territories_are_disjoint, territory, voronoi};
use crate::walk::region;

verus! {

/// Health at or below which food comes first.
pub const HP_CRITICAL: i32 = 20;

/// Health at or below which food is wanted.
pub const HP_LOW: i32 = 45;

/// What an opponent is after.
#[derive(Clone, Copy, PartialEq, Eq, Structural)]
pub enum EnemyAi {
    /// Hunts a shorter player and keeps away from a longer one.
    Hunter,
    /// Holds ground, the centre, and the food that it is closer to.
    Territory,
    /// Shrinks the player's ground and waits on the player's way to food.
    Ambush,
}

/// The personalities of the opponents in slots 1, 2 and 3.
pub const ENEMY_AIS: [EnemyAi; 3] = [EnemyAi::Hunter, EnemyAi::Territory, EnemyAi::Ambush];

/// The sum of `f` over a list of cells.
pub open spec fn sum_over(cells: Seq<Cell>, f: spec_fn(Cell) -> int) -> int
    decreases cells.len(),
{
    if cells.len() == 0 {
        0
    } else {
        sum_over(cells.drop_last(), f) + f(cells.last())
    }
}

/// The personality of the snake in slot `si`.
pub open spec fn personality(si: int) -> EnemyAi {
    if si <= 1 {
        EnemyAi::Hunter
    } else if si == 2 {
        EnemyAi::Territory
    } else {
        EnemyAi::Ambush
    }
}

/// How strongly food draws a snake of the given health.
pub open spec fn hunger(health: int) -> int {
    if health <= HP_CRITICAL {
        300
    } else if health <= HP_LOW {
        100
    } else {
        20
    }
}

/// The draw of food at `f` on a snake at `c`.
pub open spec fn pull_of(c: Cell, urgency: int) -> spec_fn(Cell) -> int {
    |f: Cell| urgency / (gap(c, f) + 1)
}

/// The bonus for food that `c` is closer to than the player's head `h`.
pub open spec fn race_of(c: Cell, h: Cell) -> spec_fn(Cell) -> int {
    |f: Cell|
        if gap(c, f) < gap(h, f) {
            15int
        } else {
            0
        }
}

/// The cost of being off the point half way between `h` and food.
pub open spec fn ambush_of(c: Cell, h: Cell) -> spec_fn(Cell) -> int {
    |f: Cell|
        2 * (magnitude(col(c) - (col(h) + col(f)) / 2) + magnitude(
            row(c) - (row(h) + row(f)) / 2,
        ))
}

/// What a personality adds to the score of a move to `c`.
pub open spec fn character_score(s: StateModel, si: int, c: Cell) -> int {
    let me = s.me();
    let food = cells_of(s.food);
    let obs = s.obstacles();
    match personality(si) {
        EnemyAi::Hunter => if !me.alive {
            0
        } else if s.snakes[si].body.len() > me.body.len() {
            -6 * gap(c, me.head())
        } else {
            2 * gap(c, me.head())
        },
        EnemyAi::Territory => 4 * territory(s, obs, si).len() + (if me.alive {
            sum_over(food, race_of(c, me.head()))
        } else {
            0
        }) - (magnitude(col(c) - 5) + magnitude(row(c) - 5)),
        EnemyAi::Ambush => 3 * territory(s, obs, si).len() - 4 * territory(s, obs, 0).len() - (
        if me.alive {
            sum_over(food, ambush_of(c, me.head()))
        } else {
            0
        }),
    }
}

/// The score of each move of snake `si`: space, food and personality.
pub open spec fn enemy_score(s: StateModel, si: int) -> spec_fn(Dir) -> int {
    |d: Dir|
        {
            let head = s.snakes[si].head();
            let c = d.target(head)->0;
            4 * space_from(s.obstacles(), head, c) + sum_over(
                cells_of(s.food),
                pull_of(c, hunger(s.snakes[si].health)),
            ) + character_score(s, si, c)
        }
}

/// The test for moves that stay on the board.
pub open spec fn stays_inside(c: Cell) -> spec_fn(Dir) -> bool {
    |d: Dir| d.target(c) is Some
}

/// The first direction that stays on the board.
pub open spec fn first_inside(c: Cell) -> Dir {
    DIRS@.filter(stays_inside(c))[0]
}

/// The move of the snake in slot `si`: the open move with the highest score, the
/// earliest one among equals. Without an open move, the first that stays on the
/// board. A dead snake answers `Up`.
pub open spec fn enemy_choice(s: StateModel, si: int) -> Dir {
    let head = s.snakes[si].head();
    if !s.snakes[si].alive {
        Dir::Up
    } else {
        match first_best(open_moves(s.obstacles(), head), enemy_score(s, si)) {
            Some(d) => d,
            None => first_inside(head),
        }
    }
}

/// A sum over a list that is one cell longer.
proof fn lemma_sum_step(cells: Seq<Cell>, f: spec_fn(Cell) -> int, n: int)
    requires
        0 <= n < cells.len(),
    ensures
        sum_over(cells.take(n + 1), f) == sum_over(cells.take(n), f) + f(cells[n]),
{
    assert(cells.take(n + 1).drop_last() =~= cells.take(n));
}

/// The draw of all food on a snake at `c`.
fn food_pull(c: Cell, food: Bb, urgency: i32) -> (r: i32)
    requires
        is_cell(c),
        0 <= urgency <= 300,
    ensures
        r == sum_over(cells_of(food@), pull_of(c, urgency as int)),
        0 <= r <= 38_400,
{
    let ghost f = pull_of(c, urgency as int);
    let mut it = food.iter();
    let ghost all = it@;
    let mut sum: i32 = 0;
    let ghost mut done: int = 0;
    proof {
        food.lemma_view();
        lemma_cells_of(food@);
    }
    loop
        invariant
            is_cell(c),
            0 <= urgency <= 300,
            f == pull_of(c, urgency as int),
            0 <= done <= all.len() <= 128,
            it@ == all.skip(done),
            sum == sum_over(all.take(done), f),
            0 <= sum <= 300 * done,
        ensures
            done == all.len(),
        decreases all.len() - done,
    {
        match it.next() {
            Some(x) => {
                proof {
                    assert(x == all[done]);
                    assert(it@ =~= all.skip(done + 1));
                    lemma_sum_step(all, f, done);
                    done = done + 1;
                }
                let m = manhattan(c, x) + 1;
                let part = urgency / m;
                assert(part == urgency as int / m as int);
                assert(0 <= part <= urgency) by (nonlinear_arith)
                    requires
                        part == urgency as int / m as int,
                        m >= 1,
                        urgency >= 0,
                ;
                sum += part;
            },
            None => {
                break;
            },
        }
    }
    assert(all.take(done) =~= all);
    sum
}

/// The bonus for all food that `c` is closer to than `h`.
fn food_race(c: Cell, h: Cell, food: Bb) -> (r: i32)
    requires
        is_cell(c),
        is_cell(h),
    ensures
        r == sum_over(cells_of(food@), race_of(c, h)),
        0 <= r <= 1_920,
{
    let ghost f = race_of(c, h);
    let mut it = food.iter();
    let ghost all = it@;
    let mut sum: i32 = 0;
    let ghost mut done: int = 0;
    proof {
        food.lemma_view();
        lemma_cells_of(food@);
    }
    loop
        invariant
            is_cell(c),
            is_cell(h),
            f == race_of(c, h),
            0 <= done <= all.len() <= 128,
            it@ == all.skip(done),
            sum == sum_over(all.take(done), f),
            0 <= sum <= 15 * done,
        ensures
            done == all.len(),
        decreases all.len() - done,
    {
        match it.next() {
            Some(x) => {
                proof {
                    assert(x == all[done]);
                    assert(it@ =~= all.skip(done + 1));
                    lemma_sum_step(all, f, done);
                    done = done + 1;
                }
                if manhattan(c, x) < manhattan(h, x) {
                    sum += 15;
                }
            },
            None => {
                break;
            },
        }
    }
    assert(all.take(done) =~= all);
    sum
}

/// The cost of being off the points half way between `h` and all food.
fn ambush_cost(c: Cell, h: Cell, food: Bb) -> (r: i32)
    requires
        is_cell(c),
        is_cell(h),
    ensures
        r == sum_over(cells_of(food@), ambush_of(c, h)),
        0 <= r <= 12_800,
{
    let ghost f = ambush_of(c, h);
    let mut it = food.iter();
    let ghost all = it@;
    let mut sum: i32 = 0;
    let ghost mut done: int = 0;
    let ncx: i32 = cx(c) as i32;
    let ncy: i32 = cy(c) as i32;
    proof {
        food.lemma_view();
        lemma_cells_of(food@);
    }
    loop
        invariant
            is_cell(c),
            is_cell(h),
            ncx == col(c),
            ncy == row(c),
            f == ambush_of(c, h),
            0 <= done <= all.len() <= 128,
            it@ == all.skip(done),
            sum == sum_over(all.take(done), f),
            0 <= sum <= 100 * done,
        ensures
            done == all.len(),
        decreases all.len() - done,
    {
        match it.next() {
            Some(x) => {
                proof {
                    assert(x == all[done]);
                    assert(it@ =~= all.skip(done + 1));
                    lemma_sum_step(all, f, done);
                    done = done + 1;
                }
                let mx: i32 = (cx(h) as i32 + cx(x) as i32) / 2;
                let my: i32 = (cy(h) as i32 + cy(x) as i32) / 2;
                sum += (abs(ncx - mx) + abs(ncy - my)) * 2;
            },
            None => {
                break;
            },
        }
    }
    assert(all.take(done) =~= all);
    sum
}

/// What the personality of snake `si` adds to the score of a move to `nc`.
fn character(state: &State, si: usize, nc: Cell, obs: Bb) -> (score: i32)
    requires
        state.wf(),
        si < 4,
        is_cell(nc),
        obs@ == state@.obstacles(),
    ensures
        score == character_score(state@, si as int, nc),
        -20_000 <= score <= 20_000,
{
    let p = state.player();
    assert(state.snakes@[0].wf() && state.snakes@[si as int].wf());
    let slot: usize = if si <= 1 {
        0
    } else if si == 2 {
        1
    } else {
        2
    };
    proof {
        territories_are_disjoint(state@, obs@, si as int, 0);
        territories_are_disjoint(state@, obs@, 0, 0);
    }
    match ENEMY_AIS[slot] {
        EnemyAi::Hunter => {
            if !p.alive {
                0
            } else {
                let dp = manhattan(nc, p.head());
                if state.snakes[si].length > p.length {
                    -dp * 6
                } else {
                    dp * 2
                }
            }
        },
        EnemyAi::Territory => {
            let t = voronoi(state, obs);
            let mut score: i32 = t[si] as i32 * 4;
            if p.alive {
                score += food_race(nc, p.head(), state.food);
            }
            score - (abs(cx(nc) as i32 - 5) + abs(cy(nc) as i32 - 5))
        },
        EnemyAi::Ambush => {
            let t = voronoi(state, obs);
            let mut score: i32 = t[si] as i32 * 3 - t[0] as i32 * 4;
            if p.alive {
                score -= ambush_cost(nc, p.head(), state.food);
            }
            score
        },
    }
}

/// The first direction that stays on the board.
pub fn first_inside_dir(c: Cell) -> (d: Dir)
    requires
        is_cell(c),
    ensures
        d == first_inside(c),
        d.target(c) is Some,
{
    let ghost p = stays_inside(c);
    proof {
        lemma_filter_ends(p);
        lemma_filter_step(p, 0);
        lemma_filter_step(p, 1);
        lemma_filter_step(p, 2);
        lemma_filter_step(p, 3);
        assert(DIRS@[0] == Dir::Up && DIRS@[1] == Dir::Down);
    }
    if Dir::Up.step(c).is_some() {
        Dir::Up
    } else {
        Dir::Down
    }
}

/// The move of the snake in slot `si`.
pub fn enemy_move(state: &State, si: usize) -> (r: Dir)
    requires
        state.wf(),
        si < 4,
    ensures
        r == enemy_choice(state@, si as int),
        state@.snakes[si as int].alive ==> r.target(state@.snakes[si as int].head()) is Some,
{
    let ghost s = state@;
    assert(state.snakes@[si as int].wf());
    if !state.snakes[si].alive {
        return Dir::Up;
    }
    let head = state.snakes[si].head();
    let health = state.snakes[si].health;
    let obs = state.obs();
    let ghost p = is_open(obs@, head);
    let ghost scores = enemy_score(s, si as int);
    let mut best_dir = Dir::Up;
    let mut best_score: i32 = i32::MIN;
    let mut any_valid = false;
    let urg: i32 = if health <= HP_CRITICAL {
        300
    } else if health <= HP_LOW {
        100
    } else {
        20
    };
    proof {
        lemma_filter_ends(p);
    }
    let mut k: usize = 0;
    while k < 4
        invariant
            k <= 4,
            state.wf(),
            si < 4,
            s == state@,
            obs@ == s.obstacles(),
            head == s.snakes[si as int].head(),
            is_cell(head),
            urg == hunger(s.snakes[si as int].health),
            p == is_open(obs@, head),
            scores == enemy_score(s, si as int),
            any_valid <==> DIRS@.take(k as int).filter(p).len() > 0,
            any_valid ==> first_best(DIRS@.take(k as int).filter(p), scores) == Some(best_dir)
                && best_score == scores(best_dir) && best_dir.target(head) is Some,
        decreases 4 - k,
    {
        let d = DIRS[k];
        let ghost list = DIRS@.take(k as int).filter(p);
        proof {
            lemma_filter_step(p, k as int);
        }
        if let Some(nc) = d.step(head) {
            if !obs.get(nc) {
                let score = space_after(head, nc, obs) as i32 * 4 + food_pull(nc, state.food, urg)
                    + character(state, si, nc, obs);
                proof {
                    assert(p(d));
                    assert(score == scores(d));
                    assert(list.push(d).drop_last() =~= list);
                }
                if !any_valid || score > best_score {
                    best_score = score;
                    best_dir = d;
                }
                any_valid = true;
            }
        }
        k += 1;
    }
    proof {
        lemma_filter_ends(p);
    }
    if !any_valid {
        return first_inside_dir(head);
    }
    best_dir
}

/// A living opponent never leaves the board. It takes an open move whenever there
/// is one, and none that is open has a higher score.
pub proof fn opponents_take_their_best_open_move(s: StateModel, si: int, d: Dir)
    requires
        s.valid(),
        0 <= si < 4,
        s.snakes[si].alive,
    ensures
        enemy_choice(s, si).target(s.snakes[si].head()) is Some,
        open_move(s.obstacles(), s.snakes[si].head(), d) ==> open_move(
            s.obstacles(),
            s.snakes[si].head(),
            enemy_choice(s, si),
        ) && enemy_score(s, si)(d) <= enemy_score(s, si)(enemy_choice(s, si)),
{
    let head = s.snakes[si].head();
    let p = is_open(s.obstacles(), head);
    let moves = open_moves(s.obstacles(), head);
    assert(s.snakes[si].valid());
    lemma_filter_ends(p);
    if moves.len() > 0 {
        let k = first_best_is_best(moves, enemy_score(s, si));
        assert(p(DIRS@.filter(p)[k]));
        if open_move(s.obstacles(), head, d) {
            assert(p(d) && moves.contains(d));
        }
    } else {
        let q = stays_inside(head);
        lemma_filter_ends(q);
        if open_move(s.obstacles(), head, d) {
            assert(p(d) && moves.contains(d));
        }
        if Dir::Up.target(head) is Some {
            assert(q(Dir::Up) && DIRS@.filter(q).contains(Dir::Up));
        } else {
            assert(q(Dir::Down) && DIRS@.filter(q).contains(Dir::Down));
        }
        assert(q(DIRS@.filter(q)[0]));
    }
}

proof fn lemma_sum_below(s: Set<Cell>, c: Cell, f: spec_fn(Cell) -> int, n: nat)
    requires
        n <= 128,
        !s.contains(c),
    ensures
        sum_over(cells_below(s.insert(c), n), f) == sum_over(cells_below(s, n), f) + if c < n {
            f(c)
        } else {
            0
        },
    decreases n,
{
    if n > 0 {
        let m = (n - 1) as nat;
        lemma_sum_below(s, c, f, m);
        assert forall|l: Seq<Cell>, x: Cell| #[trigger] sum_over(l.push(x), f) == sum_over(l, f) + f(
            x,
        ) by {
            assert(l.push(x).drop_last() =~= l);
        }
    }
}

/// A sum over food takes every piece once.
pub proof fn sums_take_every_piece_once(food: Set<Cell>, c: Cell, f: spec_fn(Cell) -> int)
    requires
        c < 128,
        !food.contains(c),
    ensures
        sum_over(cells_of(food.insert(c)), f) == sum_over(cells_of(food), f) + f(c),
        sum_over(cells_of(Set::<Cell>::empty()), f) == 0,
{
    lemma_sum_below(food, c, f, 128);
    lemma_cells_of(Set::<Cell>::empty());
}

/// Food draws a snake all the more the hungrier it is: the draw never falls as
/// health falls, and is never nothing. A starving snake is drawn three times as
/// strongly as a hungry one, and that one five times as strongly as one that is
/// well fed.
pub proof fn hungry_snakes_are_drawn_to_food(a: int, b: int)
    requires
        a <= b,
    ensures
        hunger(a) >= hunger(b) > 0,
        20 <= hunger(b),
        hunger(a) <= 300,
        a <= 20 < b <= 45 ==> hunger(a) == 3 * hunger(b),
        a <= 20 && 45 < b ==> hunger(a) == 15 * hunger(b),
        20 < a <= 45 < b ==> hunger(a) == 5 * hunger(b),
        b <= 20 || (20 < a && b <= 45) || 45 < a ==> hunger(a) == hunger(b),
{
}

/// The draw of a piece of food is the urgency shared out over the moves to it, the
/// last one included: full on the spot, half next to it, and never more from
/// farther away.
pub proof fn near_food_draws_more(c: Cell, e: Cell, f: Cell, urgency: int)
    requires
        urgency >= 0,
        gap(c, f) <= gap(e, f),
    ensures
        pull_of(c, urgency)(f) >= pull_of(e, urgency)(f) >= 0,
        pull_of(f, urgency)(f) == urgency,
        pull_of(c, urgency)(f) * (gap(c, f) + 1) <= urgency,
        urgency < (pull_of(c, urgency)(f) + 1) * (gap(c, f) + 1),
{
    let g = gap(c, f) + 1;
    let h = gap(e, f) + 1;
    assert(gap(f, f) + 1 == 1);
    assert(urgency / 1 == urgency);
    assert(urgency / h <= urgency / g && 0 <= urgency / h) by (nonlinear_arith)
        requires
            0 < g <= h,
            urgency >= 0,
    ;
    assert((urgency / g) * g <= urgency && urgency < (urgency / g + 1) * g) by (nonlinear_arith)
        requires
            g > 0,
            urgency >= 0,
    ;
}

/// Of two moves of an opponent, the scores differ by four for each cell of space,
/// by what food draws it more strongly, and by what its personality prefers.
pub proof fn scores_differ_by_space_food_and_character(s: StateModel, si: int, d: Dir, e: Dir)
    ensures
        ({
            let head = s.snakes[si].body[0];
            let (c, x) = (d.target(head)->0, e.target(head)->0);
            let walls = s.obstacles().insert(head);
            let u = hunger(s.snakes[si].health);
            enemy_score(s, si)(d) - enemy_score(s, si)(e) == 4 * (region(walls, c).len() - region(
                walls,
                x,
            ).len()) + (sum_over(cells_of(s.food), pull_of(c, u)) - sum_over(
                cells_of(s.food),
                pull_of(x, u),
            )) + (character_score(s, si, c) - character_score(s, si, x))
        }),
{
}

/// A starving opponent goes for the only food: of two moves that leave the same
/// space and suit its personality equally, the one that is nearer to the food and
/// at most next to it has the higher score.
pub proof fn starving_opponents_go_for_food(s: StateModel, si: int, f: Cell, d: Dir, e: Dir)
    requires
        s.snakes[si].health <= 20,
        f < 128,
        s.food == Set::<Cell>::empty().insert(f),
        ({
            let head = s.snakes[si].body[0];
            let (c, x) = (d.target(head)->0, e.target(head)->0);
            let walls = s.obstacles().insert(head);
            &&& region(walls, c).len() == region(walls, x).len()
            &&& character_score(s, si, c) == character_score(s, si, x)
            &&& gap(c, f) < gap(x, f)
            &&& gap(c, f) <= 1
        }),
    ensures
        enemy_score(s, si)(d) > enemy_score(s, si)(e),
{
    let head = s.snakes[si].body[0];
    let (c, x) = (d.target(head)->0, e.target(head)->0);
    let u = hunger(s.snakes[si].health);
    scores_differ_by_space_food_and_character(s, si, d, e);
    sums_take_every_piece_once(Set::empty(), f, pull_of(c, u));
    sums_take_every_piece_once(Set::empty(), f, pull_of(x, u));
    hungry_snakes_are_drawn_to_food(s.snakes[si].health, 20);
    hungry_snakes_are_drawn_to_food(s.snakes[si].health, 46);
    assert(u == 300);
    let g = gap(x, f) + 1;
    assert(pull_of(c, u)(f) == 300int / (gap(c, f) + 1));
    assert(pull_of(x, u)(f) == 300int / g);
    if gap(c, f) == 0 {
        assert(300int / (gap(c, f) + 1) == 300int / 1);
        assert(300int / g <= 150) by (nonlinear_arith)
            requires
                g >= 2,
        ;
    } else {
        assert(300int / (gap(c, f) + 1) == 300int / 2);
        assert(300int / g <= 100) by (nonlinear_arith)
            requires
                g >= 3,
        ;
    }
}

/// The snakes in the first two slots hunt: each move that brings one closer to a
/// shorter player is worth six points to it, and each move away from a player that
/// is no shorter two points. A dead player is of no interest.
pub proof fn hunters_chase_the_shorter_and_flee_the_rest(s: StateModel, si: int, c: Cell, x: Cell)
    requires
        0 <= si <= 1,
    ensures
        ({
            let h = s.snakes[0].body[0];
            let more = character_score(s, si, c) - character_score(s, si, x);
            &&& !s.snakes[0].alive ==> more == 0
            &&& s.snakes[0].alive && s.snakes[si].body.len() > s.snakes[0].body.len() ==> more == 6
                * (gap(x, h) - gap(c, h))
            &&& s.snakes[0].alive && s.snakes[si].body.len() <= s.snakes[0].body.len() ==> more == 2
                * (gap(c, h) - gap(x, h))
            &&& character_score(s, si, h) == 0
        }),
{
}

/// The snake in slot 2 holds ground: it values a cell by how near it is to the
/// centre, and by the food to which it is closer than the living player, at 15
/// points for each piece.
pub proof fn settlers_hold_the_centre_and_win_races(s: StateModel, c: Cell, x: Cell)
    requires
        is_cell(c),
        is_cell(x),
    ensures
        ({
            let h = s.snakes[0].body[0];
            let more = character_score(s, 2, c) - character_score(s, 2, x);
            let nearer = gap(x, 60) - gap(c, 60);
            &&& !s.snakes[0].alive ==> more == nearer
            &&& s.snakes[0].alive ==> more == nearer + sum_over(cells_of(s.food), race_of(c, h))
                - sum_over(cells_of(s.food), race_of(x, h))
            &&& character_score(s, 2, 60) == 4 * territory(s, s.obstacles(), 2).len()
                + if s.snakes[0].alive {
                sum_over(cells_of(s.food), race_of(60, h))
            } else {
                0
            }
        }),
        forall|h: Cell, f: Cell|
            #![trigger race_of(c, h)(f)]
            (gap(c, f) < gap(h, f) ==> race_of(c, h)(f) == 15) && (gap(c, f) >= gap(h, f)
                ==> race_of(c, h)(f) == 0),
{
}

/// The snake in slot 3 lies in ambush: it values a cell by how near it is to the
/// points half way between the living player and each piece of food, at two points
/// for each move.
pub proof fn ambushers_wait_half_way(s: StateModel, c: Cell, x: Cell, h: Cell, f: Cell, m: Cell)
    requires
        is_cell(c),
        is_cell(m),
        2 * col(m) <= col(h) + col(f) <= 2 * col(m) + 1,
        2 * row(m) <= row(h) + row(f) <= 2 * row(m) + 1,
    ensures
        ambush_of(c, h)(f) == 2 * gap(c, m),
        ({
            let head = s.snakes[0].body[0];
            let more = character_score(s, 3, c) - character_score(s, 3, x);
            let ground = territory(s, s.obstacles(), 3).len() as int;
            let lost = territory(s, s.obstacles(), 0).len() as int;
            &&& character_score(s, 3, c) == 3 * ground - 4 * lost - if s.snakes[0].alive {
                sum_over(cells_of(s.food), ambush_of(c, head))
            } else {
                0
            }
            &&& !s.snakes[0].alive ==> more == 0
            &&& s.snakes[0].alive ==> more == sum_over(cells_of(s.food), ambush_of(x, head))
                - sum_over(cells_of(s.food), ambush_of(c, head))
        }),
{
}

/// An opponent without an open move takes the first direction that stays on the
/// board. Of open moves with the same score it takes the earliest. A dead one
/// answers up.
pub proof fn opponents_break_ties_in_order(s: StateModel, si: int, e: Dir)
    requires
        s.valid(),
        0 <= si < 4,
    ensures
        ({
            let head = s.snakes[si].body[0];
            let d = enemy_choice(s, si);
            let open = |a: Dir| a.target(head) is Some && !s.obstacles().contains(a.target(head)->0);
            &&& !s.snakes[si].alive ==> d == Dir::Up
            &&& s.snakes[si].alive && open(e) ==> enemy_score(s, si)(e) < enemy_score(s, si)(d) || (
            enemy_score(s, si)(e) == enemy_score(s, si)(d) && place(d) <= place(e))
            &&& s.snakes[si].alive && (forall|a: Dir| !#[trigger] open(a)) && e.target(head) is Some
                ==> place(d) <= place(e)
        }),
        e.target(s.snakes[si].body[0]) is Some ==> place(first_inside(s.snakes[si].body[0]))
            <= place(e),
{
    let head = s.snakes[si].body[0];
    let open = |a: Dir| a.target(head) is Some && !s.obstacles().contains(a.target(head)->0);
    let p = is_open(s.obstacles(), head);
    let q = stays_inside(head);
    let moves = open_moves(s.obstacles(), head);
    lemma_filter_ends(p);
    lemma_filter_ends(q);
    if e.target(head) is Some {
        let inside = DIRS@.filter(q);
        assert(q(e) && inside.contains(e));
        let i = choose|i: int| 0 <= i < inside.len() && inside[i] == e;
        if i > 0 {
            filtered_directions_keep_their_order(q, 0, i);
        }
    }
    if moves.len() > 0 {
        let k = first_best_is_best(moves, enemy_score(s, si));
        assert(p(DIRS@.filter(p)[k]));
        assert(open(moves[k]));
        if open(e) {
            assert(p(e) && moves.contains(e));
            let i = choose|i: int| 0 <= i < moves.len() && moves[i] == e;
            assert(enemy_score(s, si)(moves[i]) <= enemy_score(s, si)(moves[k]));
            if k < i {
                filtered_directions_keep_their_order(p, k, i);
            }
        }
    } else if open(e) {
        assert(p(e) && moves.contains(e));
    }
}

} // verus!
