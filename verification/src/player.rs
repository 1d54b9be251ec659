//! The player's decision.
use vstd::prelude::*;

use crate::bitboard::Bb;
use crate::enemy::{
    first_inside, first_inside_dir, opponents_break_ties_in_order, stays_inside, HP_CRITICAL, HP_LOW,
};
use crate::eval::scorable;
use crate::fill::{flood_fill, space_after};
use crate::grid::{gap, is_cell, manhattan, Cell, Dir, DIRS};
use crate::minimax::{
    full_searches_are_exact, lookahead, lookaheads_are_bounded, minimax, play, played, positions,
    replies, searches_fit_the_budget, turns_ahead, turns_keep_positions_scorable, MM_BUDGET,
};
use crate::path::{
    food_within_reach_is_found, nearest, nearest_food, nearest_is_nearest,
    the_lowest_of_the_nearest_is_taken, the_way_to_food_leads_to_food,
};
use crate::sim::turned;
use crate::state::{necks_are_obstacles, State, StateModel};
use crate::tactics::{
    classify, coil, coil_dir, filtered_directions_keep_their_order, first_best, first_best_is_best,
    is_open, is_risky, is_safe, is_trapped, lemma_filter_ends, lists, move_pool,
    moves_are_safe_risky_or_lethal, moves_beside_strong_heads_are_risky, open_move, open_moves,
    place, safe_moves, snakes_coil_when_space_is_short, space_of, tail_move, trapped,
};
use crate::walk::{distance_is, lemma_walk_start, reachable, region, walk};

verus! {

/// What the player does, and in which mood.
#[derive(Debug)]
pub struct MoveResult {
    pub dir: Dir,
    pub mode: &'static str,
}

/// A living opponent that is at least as long has its head within three moves.
pub open spec fn threatened(s: StateModel) -> bool {
    exists|i: int| #[trigger]
        s.opponent(i) && s.snakes[i].body.len() >= s.me().body.len() && gap(
            s.me().head(),
            s.snakes[i].head(),
        ) <= 3
}

/// The mood of the player when there is a move worth considering.
pub open spec fn mood(s: StateModel) -> Seq<char> {
    if s.me().health <= HP_CRITICAL {
        "CRIT-FEED"@
    } else if trapped(s.me(), s.obstacles()) {
        "COIL"@
    } else if s.me().health <= HP_LOW {
        "FEED"@
    } else if s.opponents() == 1 {
        "1v1"@
    } else if threatened(s) {
        "EVADE"@
    } else {
        "CONTROL"@
    }
}

/// How many levels the player looks ahead: the fewer snakes, the more.
pub open spec fn search_depth(s: StateModel) -> nat {
    let living = s.living(0, s.n as int);
    if living <= 2 {
        8
    } else if living <= 3 {
        6
    } else {
        5
    }
}

/// The turns that the player looks ahead can be counted and scored.
pub open spec fn decidable(s: StateModel) -> bool {
    let turns = 1 + turns_ahead(search_depth(s), false);
    s.turn + turns <= u32::MAX && scorable(s, turns)
}

/// A move put into a list that is ordered by falling score, behind those with
/// the same score.
pub open spec fn insert_ranked(list: Seq<Dir>, d: Dir, score: spec_fn(Dir) -> int) -> Seq<Dir>
    decreases list.len(),
{
    if list.len() == 0 || score(list.last()) >= score(d) {
        list.push(d)
    } else {
        insert_ranked(list.drop_last(), d, score).push(list.last())
    }
}

/// Moves ordered by falling score; those with the same score keep their order.
pub open spec fn ranked(moves: Seq<Dir>, score: spec_fn(Dir) -> int) -> Seq<Dir>
    decreases moves.len(),
{
    if moves.len() == 0 {
        Seq::empty()
    } else {
        insert_ranked(ranked(moves.drop_last(), score), moves.last(), score)
    }
}

/// The test for moves that leave space for the whole body.
pub open spec fn has_room(s: StateModel) -> spec_fn(Dir) -> bool {
    |d: Dir| space_of(s.obstacles(), s.me().head())(d) >= s.me().body.len()
}

/// The moves worth considering, by falling space.
pub open spec fn by_space(s: StateModel) -> Seq<Dir> {
    ranked(move_pool(s, s.obstacles()), space_of(s.obstacles(), s.me().head()))
}

/// The moves to look ahead from: those that leave space for the whole body, or
/// all of them where none does.
pub open spec fn candidates(s: StateModel) -> Seq<Dir> {
    if by_space(s).filter(has_room(s)).len() > 0 {
        by_space(s).filter(has_room(s))
    } else {
        by_space(s)
    }
}

/// What each move leads to, as far as the player looks ahead.
pub open spec fn prospect(s: StateModel) -> spec_fn(Dir) -> int {
    |d: Dir| lookahead(played(s, d), search_depth(s), false)
}

/// The first move of the way to the nearest food, if that move is open.
pub open spec fn food_move(s: StateModel) -> Option<Dir> {
    match nearest(s.me().head(), s.food, s.obstacles()) {
        Some((_, d)) if open_move(s.obstacles(), s.me().head(), d) => Some(d),
        _ => None,
    }
}

/// The player's decision. Without an open move: the first that stays on the
/// board. At critical health: the way to the nearest food. When trapped: coil
/// up. Otherwise the candidate with the best prospect.
pub open spec fn decision(s: StateModel) -> (Dir, Seq<char>) {
    let obs = s.obstacles();
    if move_pool(s, obs).len() == 0 {
        (first_inside(s.me().head()), "LAST-RESORT"@)
    } else if s.me().health <= HP_CRITICAL && food_move(s) is Some {
        (food_move(s)->0, mood(s))
    } else if coil(s.me(), obs) is Some {
        (coil(s.me(), obs)->0, mood(s))
    } else {
        (first_best(candidates(s), prospect(s))->0, mood(s))
    }
}

/// Is a living opponent that is at least as long within three moves?
fn is_threatened(state: &State) -> (b: bool)
    requires
        state.wf(),
    ensures
        b == threatened(state@),
{
    let ghost s = state@;
    assert(state.snakes@[0].wf());
    let me = state.player();
    let head = me.head();
    let mut i: usize = 1;
    while i < state.n_snakes
        invariant
            1 <= i,
            state.wf(),
            s == state@,
            me@ == s.me(),
            me.length == s.me().body.len(),
            head == s.me().head(),
            is_cell(head),
            forall|j: int| #[trigger]
                s.opponent(j) && j < i ==> !(s.snakes[j].body.len() >= s.me().body.len() && gap(
                    s.me().head(),
                    s.snakes[j].head(),
                ) <= 3),
        decreases state.n_snakes - i,
    {
        assert(state.snakes@[i as int].wf());
        let e = &state.snakes[i];
        assert(s.snakes[i as int] == e@);
        if e.alive && e.length >= me.length && manhattan(head, e.head()) <= 3 {
            assert(s.opponent(i as int));
            return true;
        }
        i += 1;
    }
    false
}

/// The mood of the player.
fn mode_name(state: &State, trapped: bool) -> (m: &'static str)
    requires
        state.wf(),
        trapped == crate::tactics::trapped(state@.me(), state@.obstacles()),
    ensures
        m@ == mood(state@),
{
    let me = state.player();
    if me.health <= HP_CRITICAL {
        "CRIT-FEED"
    } else if trapped {
        "COIL"
    } else if me.health <= HP_LOW {
        "FEED"
    } else if state.enemy_alive() == 1 {
        "1v1"
    } else if is_threatened(state) {
        "EVADE"
    } else {
        "CONTROL"
    }
}

/// The first `n` entries list the moves with their scores.
spec fn scored_as(
    entries: Seq<(Dir, u32)>,
    n: int,
    moves: Seq<Dir>,
    score: spec_fn(Dir) -> int,
) -> bool {
    &&& entries.len() == 4
    &&& n == moves.len()
    &&& n <= 4
    &&& forall|i: int|
        0 <= i < n ==> (#[trigger] entries[i]).0 == moves[i] && entries[i].1 == score(moves[i])
}

proof fn lemma_ranked_len(moves: Seq<Dir>, score: spec_fn(Dir) -> int)
    ensures
        ranked(moves, score).len() == moves.len(),
    decreases moves.len(),
{
    if moves.len() > 0 {
        lemma_ranked_len(moves.drop_last(), score);
        lemma_insert_len(ranked(moves.drop_last(), score), moves.last(), score);
    }
}

proof fn lemma_insert_len(list: Seq<Dir>, d: Dir, score: spec_fn(Dir) -> int)
    ensures
        insert_ranked(list, d, score).len() == list.len() + 1,
    decreases list.len(),
{
    if !(list.len() == 0 || score(list.last()) >= score(d)) {
        lemma_insert_len(list.drop_last(), d, score);
    }
}

/// Puts a move with its score into a list that is ordered by falling score.
fn insert_scored(
    entries: &mut [(Dir, u32); 4],
    n: usize,
    d: Dir,
    spc: u32,
    Ghost(list): Ghost<Seq<Dir>>,
    Ghost(score): Ghost<spec_fn(Dir) -> int>,
)
    requires
        n < 4,
        scored_as(old(entries)@, n as int, list, score),
        spc == score(d),
    ensures
        scored_as(final(entries)@, n + 1, insert_ranked(list, d, score), score),
{
    let mut p: usize = n;
    let ghost full = insert_ranked(list, d, score);
    proof {
        assert(list.take(n as int) =~= list);
        assert(full =~= insert_ranked(list.take(n as int), d, score) + list.skip(n as int));
        lemma_insert_len(list, d, score);
    }
    while p > 0 && entries[p - 1].1 < spc
        invariant
            p <= n < 4,
            n == list.len(),
            spc == score(d),
            full == insert_ranked(list.take(p as int), d, score) + list.skip(p as int),
            forall|i: int|
                0 <= i < p ==> (#[trigger] entries@[i]).0 == list[i] && entries@[i].1 == score(
                    list[i],
                ),
            forall|i: int|
                p < i <= n ==> (#[trigger] entries@[i]).0 == list[i - 1] && entries@[i].1 == score(
                    list[i - 1],
                ),
        decreases p,
    {
        proof {
            let t = list.take(p as int);
            assert(entries@[p - 1].1 == score(list[p - 1]));
            assert(t.last() == list[p - 1]);
            assert(t.drop_last() =~= list.take(p - 1));
            assert(insert_ranked(t, d, score) == insert_ranked(list.take(p - 1), d, score).push(
                list[p - 1],
            ));
            assert(insert_ranked(t, d, score) + list.skip(p as int) =~= insert_ranked(
                list.take(p - 1),
                d,
                score,
            ) + list.skip(p - 1));
        }
        entries[p] = entries[p - 1];
        p -= 1;
    }
    entries[p] = (d, spc);
    proof {
        let t = list.take(p as int);
        if p > 0 {
            assert(entries@[p - 1].1 == score(list[p - 1]));
            assert(t.last() == list[p - 1]);
        }
        assert(insert_ranked(t, d, score) == t.push(d));
        assert(full =~= list.take(p as int).push(d) + list.skip(p as int));
        assert forall|i: int| 0 <= i < n + 1 implies (#[trigger] entries@[i]).0 == full[i]
            && entries@[i].1 == score(full[i]) by {
            if i < p {
                assert(full[i] == list[i]);
            } else if i == p {
                assert(full[i] == d);
            } else {
                assert(full[i] == list[i - 1]);
            }
        }
    }
}

/// The moves worth considering with the space that they leave, most space first.
fn rank_by_space(state: &State, obs: Bb, pool: &[Option<Dir>; 4], pool_n: usize) -> (r: (
    [(Dir, u32); 4],
    usize,
))
    requires
        state.wf(),
        obs@ == state@.obstacles(),
        lists(pool@, pool_n as int, move_pool(state@, obs@)),
    ensures
        scored_as(
            r.0@,
            r.1 as int,
            by_space(state@),
            space_of(obs@, state@.me().head()),
        ),
{
    let ghost s = state@;
    let ghost moves = move_pool(s, obs@);
    assert(state.snakes@[0].wf());
    let head = state.player().head();
    let ghost score = space_of(obs@, head);
    let mut scored: [(Dir, u32); 4] = [(Dir::Up, 0), (Dir::Up, 0), (Dir::Up, 0), (Dir::Up, 0)];
    let mut i: usize = 0;
    while i < pool_n
        invariant
            i <= pool_n <= 4,
            moves == move_pool(s, obs@),
            lists(pool@, pool_n as int, moves),
            is_cell(head),
            head == s.me().head(),
            score == space_of(obs@, head),
            scored_as(scored@, i as int, ranked(moves.take(i as int), score), score),
        decreases pool_n - i,
    {
        assert(pool@[i as int] == Some(moves[i as int]));
        let d = match pool[i] {
            Some(d) => d,
            None => Dir::Up,
        };
        proof {
            assert(moves.contains(moves[i as int]));
            moves_are_safe_risky_or_lethal(s, obs@, d);
            assert(moves.take(i + 1).drop_last() =~= moves.take(i as int));
            assert(moves.take(i + 1).last() == d);
            lemma_ranked_len(moves.take(i as int), score);
        }
        if let Some(nc) = d.step(head) {
            let spc = space_after(head, nc, obs);
            insert_scored(
                &mut scored,
                i,
                d,
                spc,
                Ghost(ranked(moves.take(i as int), score)),
                Ghost(score),
            );
        }
        i += 1;
    }
    assert(moves.take(i as int) =~= moves);
    (scored, i)
}

/// The moves to look ahead from.
fn pick_candidates(state: &State, scored: &[(Dir, u32); 4], n_scored: usize) -> (r: (
    [Dir; 4],
    usize,
))
    requires
        state.wf(),
        scored_as(
            scored@,
            n_scored as int,
            by_space(state@),
            space_of(state@.obstacles(), state@.me().head()),
        ),
    ensures
        r.1 == candidates(state@).len(),
        r.1 <= 4,
        forall|i: int| 0 <= i < r.1 ==> #[trigger] r.0@[i] == candidates(state@)[i],
{
    let ghost s = state@;
    let ghost list = by_space(s);
    let ghost p = has_room(s);
    let min_spc = state.player().length;
    let mut cands: [Dir; 4] = [Dir::Up, Dir::Up, Dir::Up, Dir::Up];
    let mut n_cands: usize = 0;
    let mut i: usize = 0;
    proof {
        reveal(Seq::filter);
        assert(list.take(0).filter(p) =~= Seq::empty());
    }
    while i < n_scored
        invariant
            i <= n_scored <= 4,
            n_cands <= i,
            list == by_space(s),
            p == has_room(s),
            min_spc == s.me().body.len(),
            scored_as(
                scored@,
                n_scored as int,
                list,
                space_of(s.obstacles(), s.me().head()),
            ),
            n_cands == list.take(i as int).filter(p).len(),
            forall|j: int|
                0 <= j < n_cands ==> #[trigger] cands@[j] == list.take(i as int).filter(p)[j],
        decreases n_scored - i,
    {
        proof {
            reveal(Seq::filter);
            assert(list.take(i + 1).drop_last() =~= list.take(i as int));
            assert(list.take(i + 1).last() == list[i as int]);
            assert(scored@[i as int].0 == list[i as int]);
        }
        if scored[i].1 as usize >= min_spc {
            cands[n_cands] = scored[i].0;
            n_cands += 1;
        }
        i += 1;
    }
    assert(list.take(i as int) =~= list);
    if n_cands == 0 {
        let mut i: usize = 0;
        while i < n_scored
            invariant
                i <= n_scored <= 4,
                scored_as(
                    scored@,
                    n_scored as int,
                    list,
                    space_of(s.obstacles(), s.me().head()),
                ),
                forall|j: int| 0 <= j < i ==> #[trigger] cands@[j] == list[j],
            decreases n_scored - i,
        {
            assert(scored@[i as int].0 == list[i as int]);
            cands[i] = scored[i].0;
            i += 1;
        }
        return (cands, n_scored);
    }
    (cands, n_cands)
}

/// The candidate with the best prospect, the earliest one among equals.
fn best_candidate(state: &State, cands: &[Dir; 4], n_cands: usize) -> (d: Dir)
    requires
        state.wf(),
        1 <= n_cands <= 4,
        n_cands == candidates(state@).len(),
        forall|i: int| 0 <= i < n_cands ==> #[trigger] cands@[i] == candidates(state@)[i],
        decidable(state@),
    ensures
        Some(d) == first_best(candidates(state@), prospect(state@)),
{
    let ghost s = state@;
    let ghost moves = candidates(s);
    let ghost score = prospect(s);
    if n_cands == 1 {
        assert(cands@[0] == moves[0]);
        assert(first_best(moves.drop_last(), score) is None);
        return cands[0];
    }
    let living = state.alive_count();
    let depth: u8 = if living <= 2 {
        8
    } else if living <= 3 {
        6
    } else {
        5
    };
    let mut best_score: i32 = i32::MIN;
    let mut best_dir = cands[0];
    let mut i: usize = 0;
    while i < n_cands
        invariant
            i <= n_cands <= 4,
            state.wf(),
            s == state@,
            moves == candidates(s),
            score == prospect(s),
            n_cands == moves.len(),
            forall|i: int| 0 <= i < n_cands ==> #[trigger] cands@[i] == moves[i],
            depth == search_depth(s),
            depth <= 8,
            state.turn + 1 + turns_ahead(depth as nat, false) <= u32::MAX,
            scorable(s, 1 + turns_ahead(depth as nat, false)),
            i > 0 ==> Some(best_dir) == first_best(moves.take(i as int), score) && best_score
                == score(best_dir),
            i == 0 ==> best_score == i32::MIN,
        decreases n_cands - i,
    {
        let dir = cands[i];
        assert(dir == moves[i as int]);
        proof {
            state.lemma_valid();
            turns_keep_positions_scorable(
                s,
                replies(s, dir),
                1 + turns_ahead(depth as nat, false),
            );
            full_searches_are_exact(played(s, dir), depth as nat);
            lookaheads_are_bounded(played(s, dir), depth as nat, false);
            assert(moves.take(i + 1).drop_last() =~= moves.take(i as int));
            assert(moves.take(i + 1).last() == dir);
        }
        let next = play(state, dir);
        let mut count: u32 = 0;
        let value = minimax(&next, depth, i32::MIN, i32::MAX, false, &mut count);
        assert(value == score(dir));
        if value > best_score {
            best_score = value;
            best_dir = dir;
        }
        i += 1;
    }
    assert(moves.take(i as int) =~= moves);
    best_dir
}

proof fn lemma_candidates_exist(s: StateModel)
    requires
        move_pool(s, s.obstacles()).len() > 0,
    ensures
        candidates(s).len() > 0,
{
    lemma_ranked_len(
        move_pool(s, s.obstacles()),
        space_of(s.obstacles(), s.me().head()),
    );
}

/// The player's decision.
pub fn choose_move(state: &State) -> (r: MoveResult)
    requires
        state.wf(),
        decidable(state@),
    ensures
        (r.dir, r.mode@) == decision(state@),
{
    let ghost s = state@;
    assert(state.snakes@[0].wf());
    let me = state.player();
    let head = me.head();
    let obs = state.obs();
    let (safe, safe_n, risky, risky_n) = classify(state, obs);
    let (pool, pool_n) = if safe_n > 0 {
        (safe, safe_n)
    } else {
        (risky, risky_n)
    };
    assert(lists(pool@, pool_n as int, move_pool(s, obs@)));
    if pool_n == 0 {
        return MoveResult { dir: first_inside_dir(head), mode: "LAST-RESORT" };
    }
    let my_space = flood_fill(head, obs);
    let trapped = is_trapped(my_space, me.length);
    let critical = me.health <= HP_CRITICAL;
    let mode = mode_name(state, trapped);
    if critical {
        if let Some((_, dir)) = nearest_food(head, state.food, obs) {
            if let Some(nc) = dir.step(head) {
                if !obs.get(nc) {
                    return MoveResult { dir, mode };
                }
            }
        }
    }
    if trapped {
        if let Some(d) = coil_dir(me, obs) {
            return MoveResult { dir: d, mode };
        }
    }
    let (scored, n_scored) = rank_by_space(state, obs, &pool, pool_n);
    let (cands, n_cands) = pick_candidates(state, &scored, n_scored);
    proof {
        lemma_candidates_exist(s);
    }
    let dir = best_candidate(state, &cands, n_cands);
    MoveResult { dir, mode }
}

proof fn lemma_insert_members(list: Seq<Dir>, d: Dir, score: spec_fn(Dir) -> int)
    ensures
        insert_ranked(list, d, score).to_multiset() == list.push(d).to_multiset(),
    decreases list.len(),
{
    broadcast use vstd::seq_lib::group_to_multiset_ensures;

    if !(list.len() == 0 || score(list.last()) >= score(d)) {
        let prev = list.drop_last();
        lemma_insert_members(prev, d, score);
        assert(prev.push(list.last()) =~= list);
        assert(insert_ranked(list, d, score).to_multiset() =~= list.push(d).to_multiset());
    }
}

proof fn lemma_insert_sorted(list: Seq<Dir>, d: Dir, score: spec_fn(Dir) -> int)
    requires
        forall|i: int, j: int|
            0 <= i < j < list.len() ==> score(#[trigger] list[i]) >= score(#[trigger] list[j]),
    ensures
        forall|i: int, j: int|
            0 <= i < j < insert_ranked(list, d, score).len() ==> score(
                #[trigger] insert_ranked(list, d, score)[i],
            ) >= score(#[trigger] insert_ranked(list, d, score)[j]),
        forall|i: int|
            0 <= i < insert_ranked(list, d, score).len() && list.len() > 0 && score(list.last())
                < score(d) ==> score(list.last()) <= score(
                #[trigger] insert_ranked(list, d, score)[i],
            ),
    decreases list.len(),
{
    let r = insert_ranked(list, d, score);
    if list.len() == 0 || score(list.last()) >= score(d) {
        assert forall|i: int, j: int| 0 <= i < j < r.len() implies score(#[trigger] r[i]) >= score(
            #[trigger] r[j],
        ) by {
            if j == list.len() {
                if i < list.len() - 1 {
                    assert(score(list[i]) >= score(list[list.len() - 1]));
                }
            } else {
                assert(score(list[i]) >= score(list[j]));
            }
        }
    } else {
        let prev = list.drop_last();
        let q = insert_ranked(prev, d, score);
        assert forall|i: int, j: int| 0 <= i < j < prev.len() implies score(#[trigger] prev[i])
            >= score(#[trigger] prev[j]) by {
            assert(score(list[i]) >= score(list[j]));
        }
        lemma_insert_sorted(prev, d, score);
        lemma_insert_len(prev, d, score);
        assert forall|i: int| 0 <= i < q.len() implies score(#[trigger] q[i]) >= score(
            list.last(),
        ) by {
            lemma_insert_members(prev, d, score);
            broadcast use vstd::seq_lib::group_to_multiset_ensures;

            assert(q.contains(q[i]));
            assert(q.to_multiset().count(q[i]) > 0);
            assert(prev.push(d).to_multiset().count(q[i]) > 0);
            assert(prev.push(d).contains(q[i]));
            let k = choose|k: int| 0 <= k < prev.push(d).len() && prev.push(d)[k] == q[i];
            if k < prev.len() {
                assert(score(list[k]) >= score(list[list.len() - 1]));
            }
        }
        assert forall|i: int, j: int| 0 <= i < j < r.len() implies score(#[trigger] r[i]) >= score(
            #[trigger] r[j],
        ) by {
            if j < q.len() {
                assert(score(q[i]) >= score(q[j]));
            } else {
                assert(r[i] == q[i]);
            }
        }
    }
}

/// Ranking reorders the moves, by falling score.
pub proof fn ranking_sorts(moves: Seq<Dir>, score: spec_fn(Dir) -> int)
    ensures
        ranked(moves, score).to_multiset() == moves.to_multiset(),
        forall|d: Dir| #[trigger] ranked(moves, score).contains(d) <==> moves.contains(d),
        forall|i: int, j: int|
            0 <= i < j < ranked(moves, score).len() ==> score(#[trigger] ranked(moves, score)[i])
                >= score(#[trigger] ranked(moves, score)[j]),
    decreases moves.len(),
{
    broadcast use vstd::seq_lib::group_to_multiset_ensures;

    if moves.len() > 0 {
        let prev = moves.drop_last();
        let list = ranked(prev, score);
        ranking_sorts(prev, score);
        lemma_insert_members(list, moves.last(), score);
        lemma_insert_sorted(list, moves.last(), score);
        assert(prev.push(moves.last()) =~= moves);
        assert(ranked(moves, score).to_multiset() =~= moves.to_multiset());
    } else {
        assert(moves =~= Seq::empty());
    }
    assert forall|d: Dir| #[trigger] ranked(moves, score).contains(d) <==> moves.contains(d) by {
        assert(ranked(moves, score).to_multiset().count(d) == moves.to_multiset().count(d));
    }
}

/// Every candidate is one of the moves worth considering. If any of those leaves
/// space for the whole body, every candidate does.
pub proof fn candidates_come_from_the_pool(s: StateModel, d: Dir)
    requires
        candidates(s).contains(d),
    ensures
        move_pool(s, s.obstacles()).contains(d),
        (exists|e: Dir| #[trigger]
            move_pool(s, s.obstacles()).contains(e) && has_room(s)(e)) ==> has_room(s)(d),
{
    let pool = move_pool(s, s.obstacles());
    let list = by_space(s);
    let p = has_room(s);
    ranking_sorts(pool, space_of(s.obstacles(), s.me().head()));
    if exists|e: Dir| #[trigger] pool.contains(e) && p(e) {
        let e = choose|e: Dir| #[trigger] pool.contains(e) && p(e);
        assert(list.contains(e));
        let i = choose|i: int| 0 <= i < list.len() && list[i] == e;
        list.lemma_filter_contains(p, i);
        assert(list.filter(p).contains(e));
    }
    if list.filter(p).len() > 0 {
        let i = choose|i: int| 0 <= i < list.filter(p).len() && list.filter(p)[i] == d;
        list.lemma_filter_pred(p, i);
        list.lemma_filter_contains_rev(p, d);
    }
    assert(list.contains(d));
}

/// The decision by looking ahead applies.
pub open spec fn looks_ahead(s: StateModel) -> bool {
    &&& move_pool(s, s.obstacles()).len() > 0
    &&& !trapped(s.me(), s.obstacles())
    &&& s.me().health > HP_CRITICAL || food_move(s) is None
}

/// A decision made by looking ahead has the best prospect of all candidates.
/// Among candidates with the same prospect it leaves the most space.
pub proof fn decisions_have_the_best_prospect(s: StateModel, e: Dir)
    requires
        looks_ahead(s),
        candidates(s).contains(e),
    ensures
        candidates(s).contains(decision(s).0),
        prospect(s)(e) <= prospect(s)(decision(s).0),
        prospect(s)(e) == prospect(s)(decision(s).0) ==> space_of(s.obstacles(), s.me().head())(e)
            <= space_of(s.obstacles(), s.me().head())(decision(s).0),
{
    let moves = candidates(s);
    let score = space_of(s.obstacles(), s.me().head());
    let list = by_space(s);
    let p = has_room(s);
    let k = first_best_is_best(moves, prospect(s));
    let i = choose|i: int| 0 <= i < moves.len() && moves[i] == e;
    assert(prospect(s)(moves[i]) <= prospect(s)(moves[k]));
    ranking_sorts(move_pool(s, s.obstacles()), score);
    lemma_filter_keeps_order(list, p, score);
    if prospect(s)(e) == prospect(s)(moves[k]) && i != k {
        assert(k < i);
        assert(score(moves[k]) >= score(moves[i]));
    }
}

/// Filtering keeps a list ordered.
proof fn lemma_filter_keeps_order(
    list: Seq<Dir>,
    p: spec_fn(Dir) -> bool,
    score: spec_fn(Dir) -> int,
)
    requires
        forall|i: int, j: int|
            0 <= i < j < list.len() ==> score(#[trigger] list[i]) >= score(#[trigger] list[j]),
    ensures
        forall|i: int, j: int|
            0 <= i < j < list.filter(p).len() ==> score(#[trigger] list.filter(p)[i]) >= score(
                #[trigger] list.filter(p)[j],
            ),
    decreases list.len(),
{
    reveal(Seq::filter);
    if list.len() > 0 {
        let prev = list.drop_last();
        let last = list.last();
        assert forall|i: int, j: int| 0 <= i < j < prev.len() implies score(#[trigger] prev[i])
            >= score(#[trigger] prev[j]) by {
            assert(score(list[i]) >= score(list[j]));
        }
        lemma_filter_keeps_order(prev, p, score);
        let f = prev.filter(p);
        assert forall|i: int| 0 <= i < f.len() implies score(#[trigger] f[i]) >= score(last) by {
            prev.lemma_filter_contains_rev(p, f[i]);
            let k = choose|k: int| 0 <= k < prev.len() && prev[k] == f[i];
            assert(score(list[k]) >= score(list[list.len() - 1]));
        }
        if p(last) {
            let g = f.push(last);
            assert forall|i: int, j: int| 0 <= i < j < g.len() implies score(#[trigger] g[i])
                >= score(#[trigger] g[j]) by {
                if j < f.len() {
                    assert(score(f[i]) >= score(f[j]));
                } else {
                    assert(g[i] == f[i]);
                }
            }
        }
    }
}

/// The coiling move of a snake is open.
proof fn lemma_coil_is_open(s: StateModel)
    requires
        coil(s.me(), s.obstacles()) is Some,
    ensures
        open_move(s.obstacles(), s.me().head(), coil(s.me(), s.obstacles())->0),
{
    let obs = s.obstacles();
    let head = s.me().head();
    if tail_move(s.me(), obs) is None {
        let moves = open_moves(obs, head);
        let p = is_open(obs, head);
        lemma_filter_ends(p);
        if moves.len() > 0 {
            let k = first_best_is_best(moves, space_of(obs, head));
            assert(p(DIRS@.filter(p)[k]));
        }
    }
}

/// The player takes an open move whenever there is one, and never leaves the
/// board.
pub proof fn decisions_are_open_moves(s: StateModel)
    requires
        s.valid(),
    ensures
        decision(s).0.target(s.me().head()) is Some,
        open_moves(s.obstacles(), s.me().head()).len() > 0 ==> open_move(
            s.obstacles(),
            s.me().head(),
            decision(s).0,
        ),
{
    let obs = s.obstacles();
    let head = s.me().head();
    assert(s.snakes[0].valid());
    moves_are_safe_risky_or_lethal(s, obs, Dir::Up);
    if move_pool(s, obs).len() == 0 {
        let p = stays_inside(head);
        lemma_filter_ends(p);
        if Dir::Up.target(head) is Some {
            assert(DIRS@.filter(p).contains(Dir::Up));
        } else {
            assert(p(Dir::Down));
            assert(DIRS@.filter(p).contains(Dir::Down));
        }
        assert(p(DIRS@.filter(p)[0]));
    } else if s.me().health <= HP_CRITICAL && food_move(s) is Some {
    } else if coil(s.me(), obs) is Some {
        lemma_coil_is_open(s);
    } else {
        lemma_candidates_exist(s);
        let k = first_best_is_best(candidates(s), prospect(s));
        assert(candidates(s).contains(candidates(s)[k]));
        candidates_come_from_the_pool(s, candidates(s)[k]);
        moves_are_safe_risky_or_lethal(s, obs, candidates(s)[k]);
    }
}

/// A living player with three segments or more never turns back into its own
/// neck while there is an open move, unless an opponent's head is there.
pub proof fn decisions_never_reverse(s: StateModel)
    requires
        s.valid(),
        s.lives(0),
        s.me().body.len() >= 3,
        !s.heads().contains(s.me().body[1]) || s.me().body[1] == s.me().head(),
        open_moves(s.obstacles(), s.me().head()).len() > 0,
    ensures
        decision(s).0.target(s.me().head()) != Some(s.me().body[1]),
{
    decisions_are_open_moves(s);
    assert(s.snakes[0].valid());
    if s.me().body[1] != s.me().head() {
        necks_are_obstacles(s, 0);
    }
}

/// At critical health, with food within reach, the player takes a step on a
/// shortest way to the nearest food: the cell that it moves to is one move
/// closer.
pub proof fn critical_health_goes_for_food(s: StateModel) -> (f: Cell)
    requires
        s.valid(),
        s.me().health <= HP_CRITICAL,
        nearest(s.me().head(), s.food, s.obstacles()) is Some,
        (nearest(s.me().head(), s.food, s.obstacles())->0).0 >= 1,
    ensures
        s.food.contains(f),
        ({
            let d = (nearest(s.me().head(), s.food, s.obstacles())->0).0;
            let to = decision(s).0.target(s.me().head());
            &&& distance_is(s.obstacles(), s.me().head(), f, d)
            &&& to is Some
            &&& distance_is(s.obstacles(), to->0, f, (d - 1) as nat)
        }),
        decision(s).1 == "CRIT-FEED"@,
{
    let obs = s.obstacles();
    let head = s.me().head();
    assert(s.snakes[0].valid());
    let f = the_way_to_food_leads_to_food(head, s.food, obs);
    let (d, dir) = nearest(head, s.food, obs)->0;
    if head == f {
        assert(walk(obs, head, f, d));
        lemma_walk_start(obs, head, f, d);
        assert(walk(obs, head, f, 0));
    }
    assert(open_move(obs, head, dir));
    moves_are_safe_risky_or_lethal(s, obs, dir);
    lemma_filter_ends(is_open(obs, head));
    assert(is_open(obs, head)(dir));
    assert(open_moves(obs, head).contains(dir));
    assert(move_pool(s, obs).len() > 0);
    f
}

/// The player looks five to eight levels ahead, the deeper the fewer snakes are
/// left, and the search stays within its budget.
pub proof fn searches_are_five_to_eight_levels_deep(s: StateModel)
    ensures
        5 <= search_depth(s) <= 8,
        s.living(0, s.n as int) <= 2 ==> search_depth(s) == 8,
        positions(search_depth(s), false) <= MM_BUDGET,
{
    searches_fit_the_budget(search_depth(s));
}

/// A decision made by looking ahead avoids dead ends: it leaves space for the
/// whole body, if any move worth considering does. It is a safe move, if there
/// is one.
pub proof fn decisions_avoid_dead_ends(s: StateModel)
    requires
        looks_ahead(s),
    ensures
        (exists|e: Dir| #[trigger]
            move_pool(s, s.obstacles()).contains(e) && has_room(s)(e)) ==> has_room(s)(
            decision(s).0,
        ),
        safe_moves(s, s.obstacles()).len() > 0 ==> safe_moves(s, s.obstacles()).contains(
            decision(s).0,
        ),
{
    lemma_candidates_exist(s);
    let e = candidates(s)[0];
    assert(candidates(s).contains(e));
    decisions_have_the_best_prospect(s, e);
    candidates_come_from_the_pool(s, decision(s).0);
}

/// The move leads onto the board and meets no obstacle.
pub open spec fn is_free(s: StateModel, d: Dir) -> bool {
    d.target(s.snakes[0].body[0]) is Some && !s.obstacles().contains(
        d.target(s.snakes[0].body[0])->0,
    )
}

/// The number of cells within reach after the player's move, with the cell that
/// its head leaves taken.
pub open spec fn room(s: StateModel, d: Dir) -> nat {
    region(
        s.obstacles().insert(s.snakes[0].body[0]),
        d.target(s.snakes[0].body[0])->0,
    ).len()
}

/// The player looks ahead: it has a free move, is not trapped, and is not on its
/// way to food at critical health.
pub open spec fn weighs_its_moves(s: StateModel) -> bool {
    &&& exists|d: Dir| #[trigger] is_free(s, d)
    &&& 2 * region(s.obstacles(), s.snakes[0].body[0]).len() + 2 > 3 * s.snakes[0].body.len()
    &&& s.snakes[0].health > 20 || forall|f: Cell| #[trigger]
        s.food.contains(f) ==> !reachable(s.obstacles(), s.snakes[0].body[0], f)
}

proof fn lemma_weighing(s: StateModel)
    requires
        s.valid(),
        weighs_its_moves(s),
    ensures
        looks_ahead(s),
        candidates(s).len() > 0,
        coil(s.me(), s.obstacles()) is None,
        decision(s).0 == first_best(candidates(s), prospect(s))->0,
{
    let obs = s.obstacles();
    let head = s.me().head();
    assert(s.snakes[0].valid());
    let d = choose|d: Dir| #[trigger] is_free(s, d);
    moves_beside_strong_heads_are_risky(s, obs, d);
    moves_are_safe_risky_or_lethal(s, obs, d);
    assert(open_moves(obs, head).contains(d));
    if s.me().health <= 20 && nearest(head, s.food, obs) is Some {
        let f = the_way_to_food_leads_to_food(head, s.food, obs);
        assert(walk(obs, head, f, (nearest(head, s.food, obs)->0).0));
        assert(reachable(obs, head, f));
    }
    lemma_candidates_exist(s);
}

/// The candidates, by the space that they leave: those moves of the pool that leave
/// the body room, or all of them where none does.
proof fn lemma_candidate(s: StateModel, e: Dir)
    ensures
        candidates(s).contains(e) <==> move_pool(s, s.obstacles()).contains(e) && ((exists|a: Dir|
            #[trigger]
            move_pool(s, s.obstacles()).contains(a) && room(s, a) >= s.snakes[0].body.len())
            ==> room(s, e) >= s.snakes[0].body.len()),
{
    let pool = move_pool(s, s.obstacles());
    let list = by_space(s);
    let p = has_room(s);
    ranking_sorts(pool, space_of(s.obstacles(), s.me().head()));
    assert forall|a: Dir| #[trigger] p(a) <==> room(s, a) >= s.snakes[0].body.len() by {}
    if candidates(s).contains(e) {
        candidates_come_from_the_pool(s, e);
        if exists|a: Dir| #[trigger] pool.contains(a) && room(s, a) >= s.snakes[0].body.len() {
            let a = choose|a: Dir| #[trigger]
                pool.contains(a) && room(s, a) >= s.snakes[0].body.len();
            assert(p(a));
            assert(pool.contains(a) && has_room(s)(a));
            assert(p(e));
        }
    }
    if pool.contains(e) {
        assert(list.contains(e));
        let i = choose|i: int| 0 <= i < list.len() && list[i] == e;
        if p(e) {
            list.lemma_filter_contains(p, i);
        } else if list.filter(p).len() > 0 {
            let a = list.filter(p)[0];
            list.lemma_filter_pred(p, 0);
            assert(list.filter(p).contains(a));
            list.lemma_filter_contains_rev(p, a);
            assert(pool.contains(a) && room(s, a) >= s.snakes[0].body.len()) by {
                assert(p(a));
            }
        }
    }
}

/// The player does not walk into a dead end: where it weighs its moves and one of
/// those worth considering leaves at least as many cells within reach as the body
/// has segments, so does its decision.
pub proof fn decisions_leave_room_for_the_body(s: StateModel, e: Dir)
    requires
        s.valid(),
        weighs_its_moves(s),
        move_pool(s, s.obstacles()).contains(e),
        region(
            s.obstacles().insert(s.snakes[0].body[0]),
            e.target(s.snakes[0].body[0])->0,
        ).len() >= s.snakes[0].body.len(),
    ensures
        decision(s).0.target(s.snakes[0].body[0]) is Some,
        region(
            s.obstacles().insert(s.snakes[0].body[0]),
            decision(s).0.target(s.snakes[0].body[0])->0,
        ).len() >= s.snakes[0].body.len(),
{
    lemma_weighing(s);
    decisions_are_open_moves(s);
    let k = first_best_is_best(candidates(s), prospect(s));
    assert(candidates(s).contains(decision(s).0));
    lemma_candidate(s, decision(s).0);
    assert(move_pool(s, s.obstacles()).contains(e) && room(s, e) >= s.snakes[0].body.len());
}

/// Where the player weighs its moves, it goes for the best line: no other move that
/// leaves the body room, or no other move at all where none does, promises a better
/// one after a turn in which everyone moves. Of equals it takes the one that leaves
/// more space. It weighs the safe moves, or else the risky ones.
pub proof fn decisions_go_for_the_best_line(s: StateModel, e: Dir)
    requires
        s.valid(),
        weighs_its_moves(s),
        move_pool(s, s.obstacles()).contains(e),
        room(s, e) >= s.snakes[0].body.len() || forall|a: Dir| #[trigger]
            move_pool(s, s.obstacles()).contains(a) ==> room(s, a) < s.snakes[0].body.len(),
    ensures
        ({
            let d = decision(s).0;
            let alive = s.living(0, s.n as int);
            let depth: nat = if alive <= 2 {
                8
            } else if alive == 3 {
                6
            } else {
                5
            };
            let mine = lookahead(turned(s, replies(s, d)), depth, false);
            let other = lookahead(turned(s, replies(s, e)), depth, false);
            &&& move_pool(s, s.obstacles()).contains(d)
            &&& other <= mine
            &&& other == mine ==> room(s, e) <= room(s, d)
        }),
{
    lemma_weighing(s);
    lemma_candidate(s, e);
    if exists|a: Dir| #[trigger]
        move_pool(s, s.obstacles()).contains(a) && room(s, a) >= s.snakes[0].body.len() {
        let a = choose|a: Dir| #[trigger]
            move_pool(s, s.obstacles()).contains(a) && room(s, a) >= s.snakes[0].body.len();
        assert(room(s, e) >= s.snakes[0].body.len());
    }
    assert(candidates(s).contains(e));
    decisions_have_the_best_prospect(s, e);
    lemma_candidate(s, decision(s).0);
}

/// The mood tells what drives the player, in this order: critical health, lack of
/// space, low health, a duel, a threat, or control of the board. Without a free
/// move it is the last resort.
pub proof fn moods_tell_what_drives_the_player(s: StateModel)
    requires
        s.valid(),
    ensures
        ({
            let me = s.snakes[0];
            let free = exists|d: Dir| #[trigger] is_free(s, d);
            let short = 2 * region(s.obstacles(), me.body[0]).len() + 2 <= 3 * me.body.len();
            let duel = s.opponents() == 1;
            let threat = exists|i: int|
                1 <= i < s.n && (#[trigger] s.snakes[i]).alive && s.snakes[i].body.len()
                    >= me.body.len() && gap(me.body[0], s.snakes[i].body[0]) <= 3;
            let mode = decision(s).1;
            &&& !free ==> mode == "LAST-RESORT"@
            &&& free && me.health <= 20 ==> mode == "CRIT-FEED"@
            &&& free && me.health > 20 && short ==> mode == "COIL"@
            &&& free && 20 < me.health <= 45 && !short ==> mode == "FEED"@
            &&& free && me.health > 45 && !short && duel ==> mode == "1v1"@
            &&& free && me.health > 45 && !short && !duel && threat ==> mode == "EVADE"@
            &&& free && me.health > 45 && !short && !duel && !threat ==> mode == "CONTROL"@
        }),
{
    let me = s.snakes[0];
    let obs = s.obstacles();
    lemma_pool_and_free_moves(s);
    assert(trapped(s.me(), obs) <==> 2 * region(obs, me.body[0]).len() + 2 <= 3 * me.body.len());
    if threatened(s) {
        let i = choose|i: int| #[trigger]
            s.opponent(i) && s.snakes[i].body.len() >= s.me().body.len() && gap(
                s.me().head(),
                s.snakes[i].head(),
            ) <= 3;
        assert(s.snakes[i].alive);
    }
    if exists|i: int|
        1 <= i < s.n && (#[trigger] s.snakes[i]).alive && s.snakes[i].body.len() >= me.body.len()
            && gap(me.body[0], s.snakes[i].body[0]) <= 3 {
        let i = choose|i: int|
            1 <= i < s.n && (#[trigger] s.snakes[i]).alive && s.snakes[i].body.len()
                >= me.body.len() && gap(me.body[0], s.snakes[i].body[0]) <= 3;
        assert(s.opponent(i));
    }
}

proof fn lemma_pool_and_free_moves(s: StateModel)
    requires
        s.valid(),
    ensures
        move_pool(s, s.obstacles()).len() > 0 <==> exists|d: Dir| #[trigger] is_free(s, d),
{
    let obs = s.obstacles();
    let pool = move_pool(s, obs);
    if pool.len() > 0 {
        let d = pool[0];
        assert(pool.contains(d));
        moves_beside_strong_heads_are_risky(s, obs, d);
        assert(is_free(s, d));
    }
    if exists|d: Dir| #[trigger] is_free(s, d) {
        let d = choose|d: Dir| #[trigger] is_free(s, d);
        moves_beside_strong_heads_are_risky(s, obs, d);
        moves_are_safe_risky_or_lethal(s, obs, d);
    }
}

/// Without a free move the player takes the first direction that stays on the
/// board.
pub proof fn the_last_resort_stays_on_the_board(s: StateModel, e: Dir)
    requires
        s.valid(),
        forall|d: Dir| !#[trigger] is_free(s, d),
        e.target(s.snakes[0].body[0]) is Some,
    ensures
        decision(s).0.target(s.snakes[0].body[0]) is Some,
        place(decision(s).0) <= place(e),
{
    lemma_pool_and_free_moves(s);
    decisions_are_open_moves(s);
    opponents_break_ties_in_order(s, 0, e);
}

/// At critical health the player heads for food that some way leads to: its move
/// leads one move closer to a piece that no other piece is nearer than, however
/// short of space it is.
pub proof fn starving_players_head_for_food(s: StateModel, g: Cell, k: nat) -> (r: (Cell, nat))
    requires
        s.valid(),
        s.snakes[0].health <= 20,
        s.food.contains(g),
        walk(s.obstacles(), s.snakes[0].body[0], g, k),
        !s.food.contains(s.snakes[0].body[0]),
    ensures
        s.food.contains(r.0),
        1 <= r.1 <= k,
        distance_is(s.obstacles(), s.snakes[0].body[0], r.0, r.1),
        forall|f: Cell, m: nat|
            s.food.contains(f) && #[trigger] walk(s.obstacles(), s.snakes[0].body[0], f, m) ==> r.1
                <= m,
        decision(s).0.target(s.snakes[0].body[0]) is Some,
        distance_is(
            s.obstacles(),
            decision(s).0.target(s.snakes[0].body[0])->0,
            r.0,
            (r.1 - 1) as nat,
        ),
{
    let obs = s.obstacles();
    let head = s.snakes[0].body[0];
    assert(s.snakes[0].valid());
    food_within_reach_is_found(head, s.food, obs, g, k);
    let f = the_way_to_food_leads_to_food(head, s.food, obs);
    let (d, dir) = nearest(head, s.food, obs)->0;
    let f2 = critical_health_goes_for_food(s);
    assert forall|x: Cell, m: nat|
        s.food.contains(x) && #[trigger] walk(obs, head, x, m) implies d <= m by {
        nearest_is_nearest(head, s.food, obs, x, m);
    }
    nearest_is_nearest(head, s.food, obs, g, k);
    (f2, d)
}

/// A trapped player that is not on its way to food at critical health coils up.
pub proof fn trapped_players_coil(s: StateModel)
    requires
        s.valid(),
        exists|d: Dir| #[trigger] is_free(s, d),
        2 * region(s.obstacles(), s.snakes[0].body[0]).len() + 2 <= 3 * s.snakes[0].body.len(),
        s.snakes[0].health > 20 || forall|f: Cell| #[trigger]
            s.food.contains(f) ==> !reachable(s.obstacles(), s.snakes[0].body[0], f),
    ensures
        coil(s.snakes[0], s.obstacles()) == Some(decision(s).0),
{
    let obs = s.obstacles();
    let head = s.snakes[0].body[0];
    assert(s.snakes[0].valid());
    lemma_pool_and_free_moves(s);
    snakes_coil_when_space_is_short(s.snakes[0], obs);
    let d = choose|d: Dir| #[trigger] is_free(s, d);
    assert(d.target(head) is Some);
    if s.me().health <= 20 && nearest(head, s.food, obs) is Some {
        let f = the_way_to_food_leads_to_food(head, s.food, obs);
        assert(walk(obs, head, f, (nearest(head, s.food, obs)->0).0));
        assert(reachable(obs, head, f));
    }
}

/// At critical health on a cell with food the player goes up, if that is free.
pub proof fn starving_players_on_food_go_up(s: StateModel)
    requires
        s.valid(),
        s.snakes[0].health <= 20,
        s.food.contains(s.snakes[0].body[0]),
        !s.obstacles().contains(s.snakes[0].body[0]),
        is_free(s, Dir::Up),
    ensures
        decision(s).0 == Dir::Up,
{
    let obs = s.obstacles();
    let head = s.snakes[0].body[0];
    assert(s.snakes[0].valid());
    assert(walk(obs, head, head, 0));
    assert forall|g: Cell, m: nat|
        s.food.contains(g) && #[trigger] walk(obs, head, g, m) implies 0 < m || (0 == m && head
        <= g) by {}
    assert(distance_is(obs, head, head, 0));
    the_lowest_of_the_nearest_is_taken(head, s.food, obs, head, 0);
    lemma_pool_and_free_moves(s);
    assert(is_free(s, Dir::Up));
}

/// A score that also counts the place of a move, so that no two are the same.
spec fn with_place(score: spec_fn(Dir) -> int) -> spec_fn(Dir) -> int {
    |d: Dir| 4 * score(d) - place(d)
}

proof fn lemma_insert_by_place(list: Seq<Dir>, d: Dir, score: spec_fn(Dir) -> int)
    requires
        forall|i: int| 0 <= i < list.len() ==> place(#[trigger] list[i]) < place(d),
    ensures
        insert_ranked(list, d, score) == insert_ranked(list, d, with_place(score)),
    decreases list.len(),
{
    if list.len() > 0 {
        assert(place(list[list.len() - 1]) < place(d));
        let prev = list.drop_last();
        assert forall|i: int| 0 <= i < prev.len() implies place(#[trigger] prev[i]) < place(d) by {
            assert(prev[i] == list[i]);
        }
        lemma_insert_by_place(prev, d, score);
    }
}

proof fn lemma_ranked_by_place(moves: Seq<Dir>, score: spec_fn(Dir) -> int)
    requires
        forall|i: int, j: int|
            0 <= i < j < moves.len() ==> place(#[trigger] moves[i]) < place(#[trigger] moves[j]),
    ensures
        ranked(moves, score) == ranked(moves, with_place(score)),
    decreases moves.len(),
{
    if moves.len() > 0 {
        let prev = moves.drop_last();
        let list = ranked(prev, score);
        assert forall|i: int, j: int| 0 <= i < j < prev.len() implies place(#[trigger] prev[i])
            < place(#[trigger] prev[j]) by {
            assert(place(moves[i]) < place(moves[j]));
        }
        lemma_ranked_by_place(prev, score);
        ranking_sorts(prev, score);
        assert forall|i: int| 0 <= i < list.len() implies place(#[trigger] list[i]) < place(
            moves.last(),
        ) by {
            assert(list.contains(list[i]));
            let k = choose|k: int| 0 <= k < prev.len() && prev[k] == list[i];
            assert(place(moves[k]) < place(moves[moves.len() - 1]));
        }
        lemma_insert_by_place(list, moves.last(), score);
    }
}

/// Where the player weighs its moves, and two promise the same line and leave the
/// same space, it takes the earlier one.
pub proof fn decisions_break_ties_in_order(s: StateModel, e: Dir)
    requires
        s.valid(),
        weighs_its_moves(s),
        move_pool(s, s.obstacles()).contains(e),
        room(s, e) >= s.snakes[0].body.len() || forall|a: Dir| #[trigger]
            move_pool(s, s.obstacles()).contains(a) ==> room(s, a) < s.snakes[0].body.len(),
        prospect(s)(e) == prospect(s)(decision(s).0),
        room(s, e) == room(s, decision(s).0),
    ensures
        place(decision(s).0) <= place(e),
{
    let pool = move_pool(s, s.obstacles());
    let moves = candidates(s);
    let score = space_of(s.obstacles(), s.me().head());
    lemma_weighing(s);
    lemma_candidate(s, e);
    if exists|a: Dir| #[trigger] pool.contains(a) && room(s, a) >= s.snakes[0].body.len() {
        let a = choose|a: Dir| #[trigger]
            pool.contains(a) && room(s, a) >= s.snakes[0].body.len();
        assert(room(s, e) >= s.snakes[0].body.len());
    }
    let k = first_best_is_best(moves, prospect(s));
    let i = choose|i: int| 0 <= i < moves.len() && moves[i] == e;
    assert forall|x: int, y: int| 0 <= x < y < pool.len() implies place(#[trigger] pool[x]) < place(
        #[trigger] pool[y],
    ) by {
        let p = if safe_moves(s, s.obstacles()).len() > 0 {
            is_safe(s, s.obstacles())
        } else {
            is_risky(s, s.obstacles())
        };
        filtered_directions_keep_their_order(p, x, y);
    }
    lemma_ranked_by_place(pool, score);
    ranking_sorts(pool, with_place(score));
    lemma_filter_keeps_order(by_space(s), has_room(s), with_place(score));
    if k < i {
        assert(with_place(score)(moves[k]) >= with_place(score)(moves[i]));
    }
}

} // verus!
