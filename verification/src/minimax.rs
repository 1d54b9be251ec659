//! Looking ahead: the player's best line against opponents that move as they
//! are known to.
use vstd::prelude::*;

use crate::enemy::{enemy_choice, enemy_move};
use crate::eval::{evaluate, evaluation, evaluations_are_bounded, scorable, LENGTH_LIMIT};
use crate::grid::{Cell, Dir};
use crate::sim::{
    eats, landing, moved_snake, sim_turn, survivors_lived_before, turned,
    turns_keep_positions_valid,
};
use crate::state::{State, StateModel};
use crate::tactics::{classify, is_risky, is_safe, lemma_filter_ends, lists, move_pool};

verus! {

/// Number of positions after which a search only evaluates.
pub const MM_BUDGET: u32 = 25_000;

/// The moves of a turn in which the player goes in direction `d`.
pub open spec fn replies(s: StateModel, d: Dir) -> Seq<Option<Dir>> {
    Seq::new(
        4,
        |j: int|
            if j == 0 {
                Some(d)
            } else if s.opponent(j) {
                Some(enemy_choice(s, j))
            } else {
                None
            },
    )
}

/// The position after a turn in which the player goes in direction `d`.
pub open spec fn played(s: StateModel, d: Dir) -> StateModel {
    turned(s, replies(s, d))
}

/// How many turns a search of the given depth plays out at most: every second
/// level is the player's.
pub open spec fn turns_ahead(depth: nat, is_max: bool) -> nat {
    if is_max {
        (depth + 1) / 2
    } else {
        depth / 2
    }
}

/// The larger of two numbers.
pub open spec fn larger(a: int, b: int) -> int {
    if a < b {
        b
    } else {
        a
    }
}

/// The next value of a counter that wraps around.
pub open spec fn bump(count: u32) -> u32 {
    if count == u32::MAX {
        0
    } else {
        (count + 1) as u32
    }
}

/// The value of a position in which the player is dead, `depth` levels before
/// the end of the search.
pub open spec fn lost(depth: nat) -> int {
    -100_000_000 - depth * 200
}

/// The value of the best line that is `depth` levels long: the player picks the
/// best of the moves worth considering on every second level.
pub open spec fn lookahead(s: StateModel, depth: nat, is_max: bool) -> int
    decreases depth, 1nat, 0nat,
{
    let moves = move_pool(s, s.obstacles());
    if depth == 0 {
        evaluation(s)
    } else if !s.me().alive {
        lost(depth)
    } else if !is_max {
        lookahead(s, (depth - 1) as nat, true)
    } else if moves.len() == 0 {
        evaluation(s)
    } else {
        best_of(s, moves, moves.len(), depth)
    }
}

/// The value of the best of the first `n` moves.
pub open spec fn best_of(s: StateModel, moves: Seq<Dir>, n: nat, depth: nat) -> int
    decreases depth, 0nat, n,
{
    if n == 0 || depth == 0 {
        i32::MIN as int
    } else {
        larger(
            best_of(s, moves, (n - 1) as nat, depth),
            lookahead(played(s, moves[n - 1]), (depth - 1) as nat, false),
        )
    }
}

/// A search with pruning and a budget of positions: its value, and the counter
/// of positions after it.
pub open spec fn search(
    s: StateModel,
    depth: nat,
    alpha: int,
    beta: int,
    is_max: bool,
    count: u32,
) -> (int, u32)
    decreases depth, 1nat, 0nat,
{
    let moves = move_pool(s, s.obstacles());
    if count > MM_BUDGET || depth == 0 {
        (evaluation(s), bump(count))
    } else if !s.me().alive {
        (lost(depth), bump(count))
    } else if !is_max {
        search(s, (depth - 1) as nat, alpha, beta, true, bump(count))
    } else if moves.len() == 0 {
        (evaluation(s), bump(count))
    } else {
        search_moves(s, moves, 0, depth, alpha, beta, i32::MIN as int, bump(count))
    }
}

/// Searches the moves from the `i`th on, until one reaches `beta`.
pub open spec fn search_moves(
    s: StateModel,
    moves: Seq<Dir>,
    i: nat,
    depth: nat,
    alpha: int,
    beta: int,
    best: int,
    count: u32,
) -> (int, u32)
    decreases depth, 0nat, moves.len() - i,
{
    if i >= moves.len() || depth == 0 {
        (best, count)
    } else {
        let (score, after) = search(
            played(s, moves[i as int]),
            (depth - 1) as nat,
            alpha,
            beta,
            false,
            count,
        );
        if beta <= larger(alpha, score) {
            (larger(best, score), after)
        } else {
            search_moves(
                s,
                moves,
                i + 1,
                depth,
                larger(alpha, score),
                beta,
                larger(best, score),
                after,
            )
        }
    }
}

/// A turn keeps a position in the range of scores, with one turn less to go.
pub proof fn turns_keep_positions_scorable(s: StateModel, dirs: Seq<Option<Dir>>, turns: nat)
    requires
        s.valid(),
        scorable(s, turns),
        turns >= 1,
    ensures
        turned(s, dirs).valid(),
        scorable(turned(s, dirs), (turns - 1) as nat),
{
    turns_keep_positions_valid(s, dirs);
    let t = turned(s, dirs);
    assert forall|i: int| 0 <= i < 4 && (#[trigger] t.snakes[i]).alive implies
        t.snakes[i].health - (turns - 1) >= i32::MIN && t.snakes[i].body.len() + (turns - 1)
        <= LENGTH_LIMIT by {
        if i < s.n {
            assert(t.lives(i));
            survivors_lived_before(s, dirs, i);
            assert(s.snakes[i].alive);
        } else {
            assert(t.snakes[i] == moved_snake(s, dirs, i));
            assert(s.snakes[i].alive);
        }
    }
}

/// The moves of a turn in which the player goes in direction `dir`.
pub fn replies_to(state: &State, dir: Dir) -> (dirs: [Option<Dir>; 4])
    requires
        state.wf(),
    ensures
        dirs@ == replies(state@, dir),
{
    let ghost s = state@;
    let mut dirs: [Option<Dir>; 4] = [Some(dir), None, None, None];
    let mut j: usize = 1;
    while j < state.n_snakes
        invariant
            1 <= j,
            j <= state.n_snakes || j == 1,
            state.wf(),
            s == state@,
            dirs@[0] == Some(dir),
            forall|k: int|
                1 <= k < j ==> #[trigger] dirs@[k] == (if s.opponent(k) {
                    Some(enemy_choice(s, k))
                } else {
                    None
                }),
            forall|k: int| j <= k < 4 ==> #[trigger] dirs@[k] == None::<Dir>,
        decreases state.n_snakes - j,
    {
        if state.snakes[j].alive {
            dirs[j] = Some(enemy_move(state, j));
        }
        j += 1;
    }
    assert(dirs@ =~= replies(s, dir));
    dirs
}

/// The position after a turn in which the player goes in direction `dir`.
pub fn play(state: &State, dir: Dir) -> (next: State)
    requires
        state.wf(),
        state.turn < u32::MAX,
        scorable(state@, 1),
    ensures
        next.wf(),
        next@ == played(state@, dir),
{
    let dirs = replies_to(state, dir);
    proof {
        let s = state@;
        assert forall|i: int| (#[trigger] landing(s, dirs@, i)) is Some implies s.snakes[i].health
            > i32::MIN by {
            assert(s.snakes[i].alive);
        }
        assert forall|i: int| #[trigger] eats(s, dirs@, i) implies s.snakes[i].body.len()
            < usize::MAX - 121 by {
            assert(s.snakes[i].alive);
        }
    }
    sim_turn(state, &dirs)
}

/// Searches `depth` levels ahead, with alpha-beta pruning. On the player's
/// levels it takes the best of the safe moves, or else of the risky ones; the
/// opponents move as they are known to. `count` counts the positions visited,
/// wrapping around; beyond the budget, positions are only evaluated.
pub fn minimax(
    state: &State,
    depth: u8,
    alpha: i32,
    beta: i32,
    is_max: bool,
    count: &mut u32,
) -> (r: i32)
    requires
        state.wf(),
        state.turn + turns_ahead(depth as nat, is_max) <= u32::MAX,
        scorable(state@, turns_ahead(depth as nat, is_max)),
    ensures
        (r as int, *final(count)) == search(
            state@,
            depth as nat,
            alpha as int,
            beta as int,
            is_max,
            *old(count),
        ),
    decreases depth,
{
    let ghost s = state@;
    let n = *count;
    *count = count.wrapping_add(1);
    assert(*count == bump(n));
    if n > MM_BUDGET || depth == 0 {
        return evaluate(state);
    }
    if !state.player().alive {
        return -100_000_000 - depth as i32 * 200;
    }
    if is_max {
        let obs = state.obs();
        let (safe, safe_n, risky, risky_n) = classify(state, obs);
        let (moves, n_moves) = if safe_n > 0 {
            (safe, safe_n)
        } else {
            (risky, risky_n)
        };
        let ghost pool = move_pool(s, s.obstacles());
        assert(lists(moves@, n_moves as int, pool));
        if n_moves == 0 {
            return evaluate(state);
        }
        let mut best: i32 = i32::MIN;
        let ghost whole = search(s, depth as nat, alpha as int, beta as int, true, n);
        let mut lower = alpha;
        let mut i: usize = 0;
        while i < n_moves
            invariant
                i <= n_moves,
                depth > 0,
                state.wf(),
                s == state@,
                state.turn + turns_ahead(depth as nat, true) <= u32::MAX,
                scorable(s, turns_ahead(depth as nat, true)),
                lists(moves@, n_moves as int, pool),
                n == *old(count),
                is_max,
                whole == search(s, depth as nat, alpha as int, beta as int, true, n),
                whole == search_moves(
                    s,
                    pool,
                    i as nat,
                    depth as nat,
                    lower as int,
                    beta as int,
                    best as int,
                    *count,
                ),
            decreases n_moves - i,
        {
            assert(moves@[i as int] == Some(pool[i as int]));
            let dir = match moves[i] {
                Some(d) => d,
                None => Dir::Up,
            };
            let next = play(state, dir);
            proof {
                state.lemma_valid();
                turns_keep_positions_scorable(
                    s,
                    replies(s, dir),
                    turns_ahead(depth as nat, true),
                );
                assert(turns_ahead((depth - 1) as nat, false) == turns_ahead(depth as nat, true)
                    - 1);
            }
            let score = minimax(&next, depth - 1, lower, beta, false, count);
            if score > best {
                best = score;
            }
            if score > lower {
                lower = score;
            }
            if beta <= lower {
                return best;
            }
            i += 1;
        }
        best
    } else {
        assert(turns_ahead((depth - 1) as nat, true) == turns_ahead(depth as nat, false));
        minimax(state, depth - 1, alpha, beta, true, count)
    }
}

/// The number of positions that a search of the given depth visits at most: the
/// player has at most four moves.
pub open spec fn positions(depth: nat, is_max: bool) -> nat
    decreases depth,
{
    if depth == 0 {
        1
    } else if is_max {
        1 + 4 * positions((depth - 1) as nat, false)
    } else {
        1 + positions((depth - 1) as nat, true)
    }
}

proof fn lemma_pool_size(s: StateModel, obs: Set<Cell>)
    ensures
        move_pool(s, obs).len() <= 4,
{
    lemma_filter_ends(is_safe(s, obs));
    lemma_filter_ends(is_risky(s, obs));
}

proof fn lemma_best_of_grows(s: StateModel, moves: Seq<Dir>, i: nat, n: nat, depth: nat)
    requires
        i <= n,
    ensures
        best_of(s, moves, i, depth) <= best_of(s, moves, n, depth),
    decreases n,
{
    if i < n {
        lemma_best_of_grows(s, moves, i, (n - 1) as nat, depth);
    }
}

/// A search counts every position that it visits, and visits at most as many as
/// there are lines of its depth.
pub proof fn searches_count_their_positions(
    s: StateModel,
    depth: nat,
    alpha: int,
    beta: int,
    is_max: bool,
    count: u32,
)
    requires
        count + positions(depth, is_max) <= u32::MAX,
    ensures
        count < search(s, depth, alpha, beta, is_max, count).1 <= count + positions(depth, is_max),
    decreases depth, 1nat, 0nat,
{
    let moves = move_pool(s, s.obstacles());
    if depth > 0 {
        if !is_max {
            searches_count_their_positions(s, (depth - 1) as nat, alpha, beta, true, bump(count));
        } else {
            lemma_pool_size(s, s.obstacles());
            let p = positions((depth - 1) as nat, false);
            assert(moves.len() * p <= 4 * p) by (nonlinear_arith)
                requires
                    moves.len() <= 4,
            ;
            lemma_counted_moves(s, moves, 0, depth, alpha, beta, i32::MIN as int, bump(count));
        }
    }
}

proof fn lemma_counted_moves(
    s: StateModel,
    moves: Seq<Dir>,
    i: nat,
    depth: nat,
    alpha: int,
    beta: int,
    best: int,
    count: u32,
)
    requires
        depth > 0,
        i <= moves.len(),
        count + (moves.len() - i) * positions((depth - 1) as nat, false) <= u32::MAX,
    ensures
        count <= search_moves(s, moves, i, depth, alpha, beta, best, count).1 <= count + (
        moves.len() - i) * positions((depth - 1) as nat, false),
    decreases depth, 0nat, moves.len() - i,
{
    let p = positions((depth - 1) as nat, false);
    if i < moves.len() {
        let rest = moves.len() - i;
        assert(rest * p == p + (rest - 1) * p && 0 <= (rest - 1) * p) by (nonlinear_arith)
            requires
                rest >= 1,
                p >= 0,
        ;
        let child = played(s, moves[i as int]);
        searches_count_their_positions(child, (depth - 1) as nat, alpha, beta, false, count);
        let (score, after) = search(child, (depth - 1) as nat, alpha, beta, false, count);
        if beta > larger(alpha, score) {
            lemma_counted_moves(
                s,
                moves,
                i + 1,
                depth,
                larger(alpha, score),
                beta,
                larger(best, score),
                after,
            );
        }
    }
}

/// How far beyond the budget a search can still count, so that its counter does
/// not wrap around.
proof fn lemma_search_stops(
    s: StateModel,
    depth: nat,
    alpha: int,
    beta: int,
    is_max: bool,
    count: u32,
)
    requires
        depth <= u8::MAX,
        count <= 100_000,
    ensures
        count < search(s, depth, alpha, beta, is_max, count).1,
        count > MM_BUDGET ==> search(s, depth, alpha, beta, is_max, count).1 == count + 1,
        count <= MM_BUDGET ==> search(s, depth, alpha, beta, is_max, count).1 <= MM_BUDGET + 1 + 4
            * depth,
    decreases depth, 1nat, 0nat,
{
    let moves = move_pool(s, s.obstacles());
    if count <= MM_BUDGET && depth > 0 {
        if !is_max {
            lemma_search_stops(s, (depth - 1) as nat, alpha, beta, true, bump(count));
        } else {
            lemma_pool_size(s, s.obstacles());
            lemma_moves_stop(s, moves, 0, depth, alpha, beta, i32::MIN as int, bump(count));
        }
    }
}

proof fn lemma_moves_stop(
    s: StateModel,
    moves: Seq<Dir>,
    i: nat,
    depth: nat,
    alpha: int,
    beta: int,
    best: int,
    count: u32,
)
    requires
        0 < depth <= u8::MAX,
        i <= moves.len() <= 4,
        count + (moves.len() - i) <= 100_000,
    ensures
        count <= search_moves(s, moves, i, depth, alpha, beta, best, count).1,
        search_moves(s, moves, i, depth, alpha, beta, best, count).1 <= larger(
            count as int,
            MM_BUDGET + 1 + 4 * (depth - 1),
        ) + (moves.len() - i),
    decreases depth, 0nat, moves.len() - i,
{
    if i < moves.len() {
        let child = played(s, moves[i as int]);
        lemma_search_stops(child, (depth - 1) as nat, alpha, beta, false, count);
        let (score, after) = search(child, (depth - 1) as nat, alpha, beta, false, count);
        if beta > larger(alpha, score) {
            lemma_moves_stop(
                s,
                moves,
                i + 1,
                depth,
                larger(alpha, score),
                beta,
                larger(best, score),
                after,
            );
        }
    }
}

/// Pruning does not change the value of a search that stays within its budget,
/// as the counter after it shows: a value below `beta` is the value of the best
/// line, and one that reaches `beta` is no higher than that.
pub proof fn pruning_keeps_the_value(
    s: StateModel,
    depth: nat,
    alpha: int,
    beta: int,
    is_max: bool,
    count: u32,
)
    requires
        alpha < beta,
        depth <= u8::MAX,
        count < u32::MAX,
        search(s, depth, alpha, beta, is_max, count).1 <= MM_BUDGET + 1,
    ensures
        search(s, depth, alpha, beta, is_max, count).0 <= lookahead(s, depth, is_max),
        search(s, depth, alpha, beta, is_max, count).0 < beta ==> search(
            s,
            depth,
            alpha,
            beta,
            is_max,
            count,
        ).0 == lookahead(s, depth, is_max),
    decreases depth, 1nat, 0nat,
{
    let moves = move_pool(s, s.obstacles());
    if depth > 0 && s.me().alive {
        assert(count <= MM_BUDGET);
        if !is_max {
            pruning_keeps_the_value(s, (depth - 1) as nat, alpha, beta, true, bump(count));
        } else if moves.len() > 0 {
            lemma_pool_size(s, s.obstacles());
            lemma_pruned_moves(
                s,
                moves,
                0,
                depth,
                alpha,
                beta,
                i32::MIN as int,
                bump(count),
            );
        }
    }
}

proof fn lemma_pruned_moves(
    s: StateModel,
    moves: Seq<Dir>,
    i: nat,
    depth: nat,
    alpha: int,
    beta: int,
    best: int,
    count: u32,
)
    requires
        0 < depth <= u8::MAX,
        i <= moves.len() <= 4,
        alpha < beta,
        count + (moves.len() - i) <= 100_000,
        best == best_of(s, moves, i, depth),
        search_moves(s, moves, i, depth, alpha, beta, best, count).1 <= MM_BUDGET + 1,
    ensures
        search_moves(s, moves, i, depth, alpha, beta, best, count).0 <= best_of(
            s,
            moves,
            moves.len(),
            depth,
        ),
        search_moves(s, moves, i, depth, alpha, beta, best, count).0 < beta ==> search_moves(
            s,
            moves,
            i,
            depth,
            alpha,
            beta,
            best,
            count,
        ).0 == best_of(s, moves, moves.len(), depth),
    decreases depth, 0nat, moves.len() - i,
{
    if i < moves.len() {
        let child = played(s, moves[i as int]);
        let (score, after) = search(child, (depth - 1) as nat, alpha, beta, false, count);
        lemma_search_stops(child, (depth - 1) as nat, alpha, beta, false, count);
        if beta > larger(alpha, score) {
            lemma_moves_stop(
                s,
                moves,
                i + 1,
                depth,
                larger(alpha, score),
                beta,
                larger(best, score),
                after,
            );
        }
        assert(after <= MM_BUDGET + 1);
        pruning_keeps_the_value(child, (depth - 1) as nat, alpha, beta, false, count);
        assert(best_of(s, moves, i + 1, depth) == larger(
            best,
            lookahead(child, (depth - 1) as nat, false),
        ));
        lemma_best_of_grows(s, moves, i + 1, moves.len(), depth);
        if beta > larger(alpha, score) {
            lemma_pruned_moves(
                s,
                moves,
                i + 1,
                depth,
                larger(alpha, score),
                beta,
                larger(best, score),
                after,
            );
        }
    }
}

/// The searches that the player makes stay within the budget.
pub proof fn searches_fit_the_budget(depth: nat)
    requires
        depth <= 8,
    ensures
        positions(depth, false) <= MM_BUDGET,
{
    reveal_with_fuel(positions, 9);
}

/// The value of a line fits an `i32`, with room on both sides.
pub proof fn lookaheads_are_bounded(s: StateModel, depth: nat, is_max: bool)
    requires
        s.valid(),
        scorable(s, turns_ahead(depth, is_max)),
        depth <= u8::MAX,
    ensures
        i32::MIN < lookahead(s, depth, is_max) < i32::MAX,
    decreases depth, 1nat, 0nat,
{
    let moves = move_pool(s, s.obstacles());
    evaluations_are_bounded(s);
    if depth > 0 && s.me().alive {
        if !is_max {
            lookaheads_are_bounded(s, (depth - 1) as nat, true);
        } else if moves.len() > 0 {
            lemma_best_of_is_bounded(s, moves, moves.len(), depth);
        }
    }
}

proof fn lemma_best_of_is_bounded(s: StateModel, moves: Seq<Dir>, n: nat, depth: nat)
    requires
        s.valid(),
        depth > 0,
        scorable(s, turns_ahead(depth, true)),
        depth <= u8::MAX,
    ensures
        i32::MIN <= best_of(s, moves, n, depth) < i32::MAX,
        n > 0 ==> i32::MIN < best_of(s, moves, n, depth),
    decreases depth, 0nat, n,
{
    if n > 0 {
        lemma_best_of_is_bounded(s, moves, (n - 1) as nat, depth);
        let d = moves[n - 1];
        turns_keep_positions_scorable(s, replies(s, d), turns_ahead(depth, true));
        lookaheads_are_bounded(played(s, d), (depth - 1) as nat, false);
    }
}

/// A search over the full range of scores, from a fresh counter, finds the value
/// of the best line.
pub proof fn full_searches_are_exact(s: StateModel, depth: nat)
    requires
        s.valid(),
        scorable(s, turns_ahead(depth, false)),
        depth <= 8,
    ensures
        search(s, depth, i32::MIN as int, i32::MAX as int, false, 0).0 == lookahead(
            s,
            depth,
            false,
        ),
{
    searches_fit_the_budget(depth);
    lookaheads_are_bounded(s, depth, false);
    searches_count_their_positions(s, depth, i32::MIN as int, i32::MAX as int, false, 0);
    pruning_keeps_the_value(s, depth, i32::MIN as int, i32::MAX as int, false, 0);
}

/// A turn is played by everyone: the player goes in its direction, every living
/// opponent as it chooses, and nobody else moves.
pub proof fn everyone_plays_a_turn(s: StateModel, d: Dir, j: int)
    requires
        1 <= j < 4,
    ensures
        replies(s, d).len() == 4,
        replies(s, d)[0] == Some(d),
        j < s.n && s.snakes[j].alive ==> replies(s, d)[j] == Some(enemy_choice(s, j)),
        !(j < s.n && s.snakes[j].alive) ==> replies(s, d)[j] is None,
        played(s, d) == turned(s, replies(s, d)),
{
}

proof fn lemma_best_of_is_best(s: StateModel, moves: Seq<Dir>, n: nat, depth: nat, i: int)
    requires
        depth > 0,
        n <= moves.len(),
        0 <= i < n,
    ensures
        lookahead(played(s, moves[i]), (depth - 1) as nat, false) <= best_of(s, moves, n, depth),
        best_of(s, moves, n, depth) == i32::MIN || exists|k: int|
            0 <= k < n && best_of(s, moves, n, depth) == lookahead(
                played(s, #[trigger] moves[k]),
                (depth - 1) as nat,
                false,
            ),
    decreases n,
{
    let last = lookahead(played(s, moves[n - 1]), (depth - 1) as nat, false);
    if n == 1 {
        assert(best_of(s, moves, 0, depth) == i32::MIN);
        assert(moves[0] == moves[n - 1]);
    } else {
        let j = if i < n - 1 {
            i
        } else {
            0
        };
        lemma_best_of_is_best(s, moves, (n - 1) as nat, depth, j);
        assert(moves[n - 1] == moves[n - 1]);
    }
}

/// Looking ahead, the player takes the best line: no move worth considering leads
/// to a better one, and some move leads to it. The levels in between pass the value
/// on. Without a move, and at the end, the position counts as it is.
pub proof fn the_best_line_is_best(s: StateModel, depth: nat, m: Dir)
    requires
        depth > 0,
        s.snakes[0].alive,
    ensures
        lookahead(s, 0, true) == lookahead(s, 0, false) == evaluation(s),
        lookahead(s, depth, false) == lookahead(s, (depth - 1) as nat, true),
        move_pool(s, s.obstacles()).contains(m) ==> lookahead(
            turned(s, replies(s, m)),
            (depth - 1) as nat,
            false,
        ) <= lookahead(s, depth, true),
        move_pool(s, s.obstacles()).len() > 0 ==> lookahead(s, depth, true) == i32::MIN || exists|
            k: int,
        |
            0 <= k < move_pool(s, s.obstacles()).len() && lookahead(s, depth, true) == lookahead(
                turned(s, replies(s, #[trigger] move_pool(s, s.obstacles())[k])),
                (depth - 1) as nat,
                false,
            ),
        move_pool(s, s.obstacles()).len() == 0 ==> lookahead(s, depth, true) == evaluation(s),
{
    let moves = move_pool(s, s.obstacles());
    if moves.len() > 0 {
        lemma_best_of_is_best(s, moves, moves.len(), depth, 0);
        if lookahead(s, depth, true) != i32::MIN {
            let k = choose|k: int|
                0 <= k < moves.len() && best_of(s, moves, moves.len(), depth) == lookahead(
                    played(s, #[trigger] moves[k]),
                    (depth - 1) as nat,
                    false,
                );
            assert(moves[k] == move_pool(s, s.obstacles())[k]);
        }
    }
    if moves.contains(m) {
        let i = choose|i: int| 0 <= i < moves.len() && moves[i] == m;
        lemma_best_of_is_best(s, moves, moves.len(), depth, i);
    }
}

/// An early death is worse than a late one: each level more that was left costs two
/// hundred points, and the last one counts as a lost position.
pub proof fn early_deaths_are_worse(s: StateModel, depth: nat, is_max: bool)
    requires
        !s.snakes[0].alive,
    ensures
        lookahead(s, depth + 1, is_max) == lookahead(s, depth, is_max) - 200,
        lookahead(s, 0, is_max) == -100_000_000,
{
}

/// A search that has counted more than 25,000 positions only evaluates; before
/// that it goes on, and the levels in between only count.
pub proof fn searches_stop_after_25_000_positions(
    s: StateModel,
    depth: nat,
    alpha: int,
    beta: int,
    is_max: bool,
    count: u32,
)
    requires
        depth > 0,
        s.snakes[0].alive,
    ensures
        count > 25_000 && count < u32::MAX ==> search(s, depth, alpha, beta, is_max, count) == (
            evaluation(s),
            (count + 1) as u32,
        ),
        count == u32::MAX ==> search(s, depth, alpha, beta, is_max, count) == (evaluation(s), 0u32),
        count <= 25_000 ==> search(s, depth, alpha, beta, false, count) == search(
            s,
            (depth - 1) as nat,
            alpha,
            beta,
            true,
            (count + 1) as u32,
        ),
        count < u32::MAX ==> search(s, 0, alpha, beta, is_max, count) == (
            evaluation(s),
            (count + 1) as u32,
        ),
{
}

/// The moves are searched in order, and the search stops at the first that reaches
/// `beta`: its value is then the value of the search, and no other move is counted.
pub proof fn searches_stop_at_beta(s: StateModel, depth: nat, alpha: int, beta: int, count: u32)
    requires
        depth > 0,
        s.snakes[0].alive,
        count <= 25_000,
        move_pool(s, s.obstacles()).len() > 0,
    ensures
        ({
            let first = turned(s, replies(s, move_pool(s, s.obstacles())[0]));
            let (v, after) = search(
                first,
                (depth - 1) as nat,
                alpha,
                beta,
                false,
                (count + 1) as u32,
            );
            let whole = search(s, depth, alpha, beta, true, count);
            &&& i32::MIN <= v && (beta <= v || beta <= alpha || move_pool(s, s.obstacles()).len() == 1)
                ==> whole == (v, after)
            &&& i32::MIN <= v && v < beta && alpha < beta && move_pool(s, s.obstacles()).len() == 2
                ==> {
                let second = turned(s, replies(s, move_pool(s, s.obstacles())[1]));
                let raised = if v > alpha {
                    v
                } else {
                    alpha
                };
                let (w, last) = search(second, (depth - 1) as nat, raised, beta, false, after);
                whole == (if w > v {
                    w
                } else {
                    v
                }, last)
            }
        }),
{
    let moves = move_pool(s, s.obstacles());
    let low = i32::MIN as int;
    let start = bump(count);
    let first = played(s, moves[0]);
    let (v, after) = search(first, (depth - 1) as nat, alpha, beta, false, start);
    assert(search(s, depth, alpha, beta, true, count) == search_moves(
        s,
        moves,
        0,
        depth,
        alpha,
        beta,
        low,
        start,
    ));
    let raised = larger(alpha, v);
    let best = larger(low, v);
    assert(search_moves(s, moves, 0, depth, alpha, beta, low, start) == if beta <= raised {
        (best, after)
    } else {
        search_moves(s, moves, 1, depth, raised, beta, best, after)
    });
    if beta > raised && moves.len() == 1 {
        assert(search_moves(s, moves, 1, depth, raised, beta, best, after) == (best, after));
    }
    if beta > raised && moves.len() == 2 {
        let (w, last) = search(
            played(s, moves[1]),
            (depth - 1) as nat,
            raised,
            beta,
            false,
            after,
        );
        let more = larger(raised, w);
        let top = larger(best, w);
        assert(search_moves(s, moves, 1, depth, raised, beta, best, after) == if beta <= more {
            (top, last)
        } else {
            search_moves(s, moves, 2, depth, more, beta, top, last)
        });
        assert(search_moves(s, moves, 2, depth, more, beta, top, last) == (top, last));
    }
}

} // verus!
