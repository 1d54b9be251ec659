//! Short-sighted decisions: which moves are safe, and how to coil up.
use vstd::prelude::*;

use crate::bitboard::Bb;
use crate::fill::{flood_fill, space_after, space_from};
use crate::grid::{adjacent, gap, is_cell, moves_are_adjacency, Cell, Dir, CELLS, DIRS};
use crate::path::{astar, route, routes_are_shortest};
use crate::snake::{Snake, SnakeModel};
use crate::state::{State, StateModel};
use crate::walk::{distance_is, lemma_region, lemma_walk_start, reachable, region, walk};

verus! {

/// A move onto the board that meets no obstacle.
pub open spec fn open_move(obs: Set<Cell>, head: Cell, d: Dir) -> bool {
    d.target(head) is Some && !obs.contains(d.target(head)->0)
}

/// The open moves, in the order of `DIRS`.
pub open spec fn open_moves(obs: Set<Cell>, head: Cell) -> Seq<Dir> {
    DIRS@.filter(is_open(obs, head))
}

/// The test for open moves.
pub open spec fn is_open(obs: Set<Cell>, head: Cell) -> spec_fn(Dir) -> bool {
    |d: Dir| open_move(obs, head, d)
}

/// The move with the highest score, the earliest one among equals.
pub open spec fn first_best(moves: Seq<Dir>, score: spec_fn(Dir) -> int) -> Option<Dir>
    decreases moves.len(),
{
    if moves.len() == 0 {
        None
    } else {
        match first_best(moves.drop_last(), score) {
            Some(d) if score(moves.last()) <= score(d) => Some(d),
            _ => Some(moves.last()),
        }
    }
}

/// The first best move is one of the moves, none has a higher score, and those
/// before it have lower ones.
pub proof fn first_best_is_best(moves: Seq<Dir>, score: spec_fn(Dir) -> int) -> (k: int)
    requires
        moves.len() > 0,
    ensures
        0 <= k < moves.len(),
        first_best(moves, score) == Some(moves[k]),
        forall|j: int| 0 <= j < moves.len() ==> score(#[trigger] moves[j]) <= score(moves[k]),
        forall|j: int| 0 <= j < k ==> score(#[trigger] moves[j]) < score(moves[k]),
    decreases moves.len(),
{
    let prev = moves.drop_last();
    let last = moves.len() - 1;
    if prev.len() == 0 {
        last
    } else {
        let i = first_best_is_best(prev, score);
        assert(prev[i] == moves[i]);
        if score(moves[last]) <= score(moves[i]) {
            assert forall|j: int| 0 <= j < moves.len() implies score(#[trigger] moves[j]) <= score(
                moves[i],
            ) by {
                if j < last {
                    assert(prev[j] == moves[j]);
                }
            }
            assert forall|j: int| 0 <= j < i implies score(#[trigger] moves[j]) < score(
                moves[i],
            ) by {
                assert(prev[j] == moves[j]);
            }
            i
        } else {
            assert forall|j: int| 0 <= j < last implies score(#[trigger] moves[j]) < score(
                moves[last],
            ) by {
                assert(prev[j] == moves[j]);
            }
            last
        }
    }
}

/// The filtered directions after one more direction.
pub proof fn lemma_filter_step(p: spec_fn(Dir) -> bool, k: int)
    requires
        0 <= k < 4,
    ensures
        DIRS@.take(k + 1).filter(p) == if p(DIRS@[k]) {
            DIRS@.take(k).filter(p).push(DIRS@[k])
        } else {
            DIRS@.take(k).filter(p)
        },
        DIRS@.take(k).filter(p).len() <= k,
{
    let t = DIRS@.take(k + 1);
    assert(t.drop_last() =~= DIRS@.take(k));
    assert(t.last() == DIRS@[k]);
    DIRS@.take(k).lemma_filter_len(p);
    reveal(Seq::filter);
}

/// Filtering all directions, and none.
pub proof fn lemma_filter_ends(p: spec_fn(Dir) -> bool)
    ensures
        DIRS@.take(4).filter(p) == DIRS@.filter(p),
        DIRS@.take(0).filter(p) == Seq::<Dir>::empty(),
        DIRS@.filter(p).len() <= 4,
        forall|i: int| 0 <= i < DIRS@.filter(p).len() ==> p(#[trigger] DIRS@.filter(p)[i]),
        forall|d: Dir| p(d) ==> #[trigger] DIRS@.filter(p).contains(d),
{
    assert(DIRS@.take(4) =~= DIRS@);
    reveal(Seq::filter);
    DIRS@.lemma_filter_len(p);
    assert forall|i: int| 0 <= i < DIRS@.filter(p).len() implies p(
        #[trigger] DIRS@.filter(p)[i],
    ) by {
        DIRS@.lemma_filter_pred(p, i);
    }
    assert forall|d: Dir| p(d) implies #[trigger] DIRS@.filter(p).contains(d) by {
        let i = match d {
            Dir::Up => 0int,
            Dir::Down => 1,
            Dir::Left => 2,
            Dir::Right => 3,
        };
        assert(DIRS@[i] == d);
        DIRS@.lemma_filter_contains(p, i);
    }
}

/// Is there less space than one and a half times the length of the snake?
pub fn is_trapped(space: u32, length: usize) -> (b: bool)
    requires
        space <= CELLS,
    ensures
        b == (space < length * 3 / 2),
{
    length > CELLS || (space as usize) < length + length / 2
}

/// Trapped: the head has access to less space than one and a half times the
/// length of the snake.
pub open spec fn trapped(b: SnakeModel, obs: Set<Cell>) -> bool {
    region(obs, b.head()).len() < b.body.len() * 3 / 2
}

/// The space that each move leaves.
pub open spec fn space_of(obs: Set<Cell>, head: Cell) -> spec_fn(Dir) -> int {
    |d: Dir| space_from(obs, head, d.target(head)->0) as int
}

/// The first move of the way to the own tail, whose cell counts as free, if that
/// move is open.
pub open spec fn tail_move(b: SnakeModel, obs: Set<Cell>) -> Option<Dir> {
    match route(b.head(), b.body.last(), obs.remove(b.body.last())) {
        Some((_, d)) if open_move(obs, b.head(), d) => Some(d),
        _ => None,
    }
}

/// How a trapped snake coils up: it follows its tail, and where it cannot, it
/// takes the open move that leaves the most space.
pub open spec fn coil(b: SnakeModel, obs: Set<Cell>) -> Option<Dir> {
    if !trapped(b, obs) {
        None
    } else if tail_move(b, obs) is Some {
        tail_move(b, obs)
    } else {
        first_best(open_moves(obs, b.head()), space_of(obs, b.head()))
    }
}

/// The open move that leaves the most space, the earliest one among equals.
fn roomiest_move(head: Cell, obs: Bb) -> (best_dir: Option<Dir>)
    requires
        is_cell(head),
    ensures
        best_dir == first_best(open_moves(obs@, head), space_of(obs@, head)),
{
    let ghost p = is_open(obs@, head);
    let ghost score = space_of(obs@, head);
    let mut best_dir: Option<Dir> = None;
    let mut best_spc: u32 = 0;
    let mut k: usize = 0;
    proof {
        lemma_filter_ends(p);
    }
    while k < 4
        invariant
            k <= 4,
            is_cell(head),
            p == is_open(obs@, head),
            score == space_of(obs@, head),
            best_dir == first_best(DIRS@.take(k as int).filter(p), score),
            best_dir is Some ==> best_spc == score(best_dir->0),
            best_dir is None ==> best_spc == 0 && DIRS@.take(k as int).filter(p).len() == 0,
        decreases 4 - k,
    {
        let d = DIRS[k];
        let ghost list = DIRS@.take(k as int).filter(p);
        proof {
            lemma_filter_step(p, k as int);
        }
        if let Some(nc) = d.step(head) {
            if !obs.get(nc) {
                let spc = space_after(head, nc, obs);
                proof {
                    moves_are_adjacency(head, nc);
                    assert(DIRS@[k as int].target(head) == Some(nc));
                    assert(adjacent(head, nc));
                    lemma_region(obs@.insert(head), nc);
                    assert(region(obs@.insert(head), nc).len() >= 1) by {
                        assert(region(obs@.insert(head), nc).contains(nc));
                        assert(region(obs@.insert(head), nc).remove(nc).len() + 1 == region(
                            obs@.insert(head),
                            nc,
                        ).len());
                    }
                    assert(p(d));
                    assert(list.push(d).drop_last() =~= list);
                }
                if spc > best_spc {
                    best_spc = spc;
                    best_dir = Some(d);
                }
            }
        }
        k += 1;
    }
    proof {
        lemma_filter_ends(p);
    }
    best_dir
}

/// Where a trapped snake turns to coil up. `None` for one that is not trapped,
/// or has no open move.
pub fn coil_dir(snake: &Snake, obs: Bb) -> (r: Option<Dir>)
    requires
        snake.wf(),
    ensures
        r == coil(snake@, obs@),
{
    let head = snake.head();
    let space = flood_fill(head, obs);
    if !is_trapped(space, snake.length) {
        return None;
    }
    let tail = snake.tail();
    let mut path_obs = obs;
    path_obs.unset(tail);
    if let Some((_, dir)) = astar(head, tail, path_obs) {
        if let Some(nc) = dir.step(head) {
            if !obs.get(nc) {
                return Some(dir);
            }
        }
    }
    roomiest_move(head, obs)
}

/// A trapped snake whose way to its tail is open follows it: with the tail's cell
/// counted as free, the move leads one move closer to the tail.
pub proof fn coiling_follows_the_tail(b: SnakeModel, obs: Set<Cell>) -> (d: nat)
    requires
        b.valid(),
        trapped(b, obs),
        tail_move(b, obs) is Some,
        b.head() != b.body.last(),
    ensures
        d >= 1,
        distance_is(obs.remove(b.body.last()), b.head(), b.body.last(), d),
        coil(b, obs) is Some,
        open_move(obs, b.head(), coil(b, obs)->0),
        distance_is(
            obs.remove(b.body.last()),
            (coil(b, obs)->0).target(b.head())->0,
            b.body.last(),
            (d - 1) as nat,
        ),
{
    let free = obs.remove(b.body.last());
    routes_are_shortest(b.head(), b.body.last(), free);
    (route(b.head(), b.body.last(), free)->0).0
}

/// The cells next to the head of a living opponent that is at least as long as
/// the player.
pub open spec fn danger(s: StateModel) -> Set<Cell> {
    Set::new(
        |c: Cell|
            exists|i: int| #[trigger]
                s.opponent(i) && s.snakes[i].body.len() >= s.me().body.len() && adjacent(
                    s.snakes[i].head(),
                    c,
                ),
    )
}

/// The test for safe moves of the player: open, and not in danger.
pub open spec fn is_safe(s: StateModel, obs: Set<Cell>) -> spec_fn(Dir) -> bool {
    |d: Dir|
        open_move(obs, s.me().head(), d) && !danger(s).contains(d.target(s.me().head())->0)
}

/// The test for risky moves of the player: open, but in danger.
pub open spec fn is_risky(s: StateModel, obs: Set<Cell>) -> spec_fn(Dir) -> bool {
    |d: Dir|
        open_move(obs, s.me().head(), d) && danger(s).contains(d.target(s.me().head())->0)
}

/// The safe moves of the player, in the order of `DIRS`.
pub open spec fn safe_moves(s: StateModel, obs: Set<Cell>) -> Seq<Dir> {
    DIRS@.filter(is_safe(s, obs))
}

/// The risky moves of the player, in the order of `DIRS`.
pub open spec fn risky_moves(s: StateModel, obs: Set<Cell>) -> Seq<Dir> {
    DIRS@.filter(is_risky(s, obs))
}

/// The moves worth considering: the safe ones, or else the risky ones.
pub open spec fn move_pool(s: StateModel, obs: Set<Cell>) -> Seq<Dir> {
    if safe_moves(s, obs).len() > 0 {
        safe_moves(s, obs)
    } else {
        risky_moves(s, obs)
    }
}

/// The first `n` slots of `slots` list the moves; the others are empty.
pub open spec fn lists(slots: Seq<Option<Dir>>, n: int, moves: Seq<Dir>) -> bool {
    &&& slots.len() == 4
    &&& n == moves.len()
    &&& n <= 4
    &&& forall|i: int| 0 <= i < n ==> #[trigger] slots[i] == Some(moves[i])
    &&& forall|i: int| n <= i < 4 ==> (#[trigger] slots[i]) is None
}

/// The cells in danger.
fn danger_cells(state: &State) -> (bb: Bb)
    requires
        state.wf(),
    ensures
        bb@ == danger(state@),
{
    let mut bb = Bb::default();
    let ghost s = state@;
    let n = state.player().length;
    let mut i: usize = 1;
    while i < state.n_snakes
        invariant
            1 <= i,
            state.n_snakes <= 4,
            i <= state.n_snakes || i == 1,
            state.wf(),
            s == state@,
            n == s.me().body.len(),
            forall|c: Cell| #[trigger]
                bb@.contains(c) <==> exists|j: int| #[trigger]
                    s.opponent(j) && j < i && s.snakes[j].body.len() >= n && adjacent(
                        s.snakes[j].head(),
                        c,
                    ),
        decreases state.n_snakes - i,
    {
        let ghost prev = bb@;
        let ghost mut added = false;
        assert(state.snakes@[i as int].wf());
        if state.snakes[i].alive && state.snakes[i].length >= n {
            let eh = state.snakes[i].head();
            add_neighbours(eh, &mut bb);
            proof {
                added = true;
            }
        }
        i += 1;
        proof {
            assert forall|c: Cell| #[trigger] bb@.contains(c) <==> exists|j: int| #[trigger]
                s.opponent(j) && j < i && s.snakes[j].body.len() >= n && adjacent(
                    s.snakes[j].head(),
                    c,
                ) by {
                if prev.contains(c) {
                    let j = choose|j: int| #[trigger]
                        s.opponent(j) && j < i - 1 && s.snakes[j].body.len() >= n && adjacent(
                            s.snakes[j].head(),
                            c,
                        );
                    assert(s.opponent(j));
                }
                if bb@.contains(c) && !prev.contains(c) {
                    assert(s.opponent(i - 1));
                }
                if exists|j: int| #[trigger]
                    s.opponent(j) && j < i && s.snakes[j].body.len() >= n && adjacent(
                        s.snakes[j].head(),
                        c,
                    ) {
                    let j = choose|j: int| #[trigger]
                        s.opponent(j) && j < i && s.snakes[j].body.len() >= n && adjacent(
                            s.snakes[j].head(),
                            c,
                        );
                    if j < i - 1 {
                        assert(prev.contains(c));
                    } else {
                        assert(added);
                    }
                }
            }
        }
    }
    assert(bb@ =~= danger(s));
    bb
}

/// Adds the neighbours of a cell to a set.
fn add_neighbours(c: Cell, bb: &mut Bb)
    requires
        is_cell(c),
    ensures
        forall|b: Cell|
            #![trigger final(bb)@.contains(b)]
            final(bb)@.contains(b) <==> old(bb)@.contains(b) || adjacent(c, b),
{
    let ghost before = bb@;
    let mut k: usize = 0;
    while k < 4
        invariant
            k <= 4,
            is_cell(c),
            forall|b: Cell| #[trigger]
                bb@.contains(b) <==> before.contains(b) || exists|j: int|
                    0 <= j < k && #[trigger] DIRS@[j].target(c) == Some(b),
        decreases 4 - k,
    {
        let ghost prev = bb@;
        let d = DIRS[k];
        let step = d.step(c);
        if let Some(nc) = step {
            bb.set(nc);
        }
        k += 1;
        proof {
            assert forall|b: Cell| #[trigger] bb@.contains(b) <==> before.contains(b)
                || exists|j: int| 0 <= j < k && #[trigger] DIRS@[j].target(c) == Some(b) by {
                if prev.contains(b) && !before.contains(b) {
                    let j = choose|j: int|
                        0 <= j < k - 1 && #[trigger] DIRS@[j].target(c) == Some(b);
                    assert(DIRS@[j].target(c) == Some(b));
                }
                if bb@.contains(b) && !prev.contains(b) {
                    assert(DIRS@[k - 1].target(c) == Some(b));
                }
            }
        }
    }
    proof {
        assert forall|b: Cell|
            #![trigger bb@.contains(b)]
            bb@.contains(b) <==> before.contains(b) || adjacent(c, b) by {
            moves_are_adjacency(c, b);
        }
    }
}

/// Sorts the open moves of the player into safe and risky ones. A move is risky
/// next to the head of a living opponent that is at least as long.
pub fn classify(state: &State, obs: Bb) -> (r: (
    [Option<Dir>; 4],
    usize,
    [Option<Dir>; 4],
    usize,
))
    requires
        state.wf(),
    ensures
        lists(r.0@, r.1 as int, safe_moves(state@, obs@)),
        lists(r.2@, r.3 as int, risky_moves(state@, obs@)),
{
    let head = state.player().head();
    let danger = danger_cells(state);
    let ghost s = state@;
    let ghost p = is_safe(s, obs@);
    let ghost q = is_risky(s, obs@);
    let mut safe: [Option<Dir>; 4] = [None, None, None, None];
    let mut safe_n: usize = 0;
    let mut risky: [Option<Dir>; 4] = [None, None, None, None];
    let mut risky_n: usize = 0;
    let mut k: usize = 0;
    proof {
        lemma_filter_ends(p);
        lemma_filter_ends(q);
    }
    while k < 4
        invariant
            k <= 4,
            is_cell(head),
            head == s.me().head(),
            danger@ == self::danger(s),
            p == is_safe(s, obs@),
            q == is_risky(s, obs@),
            lists(safe@, safe_n as int, DIRS@.take(k as int).filter(p)),
            lists(risky@, risky_n as int, DIRS@.take(k as int).filter(q)),
        decreases 4 - k,
    {
        let d = DIRS[k];
        proof {
            lemma_filter_step(p, k as int);
            lemma_filter_step(q, k as int);
        }
        if let Some(nc) = d.step(head) {
            if !obs.get(nc) {
                if danger.get(nc) {
                    assert(q(d) && !p(d));
                    risky[risky_n] = Some(d);
                    risky_n += 1;
                } else {
                    assert(p(d) && !q(d));
                    safe[safe_n] = Some(d);
                    safe_n += 1;
                }
            }
        }
        k += 1;
    }
    proof {
        lemma_filter_ends(p);
        lemma_filter_ends(q);
    }
    (safe, safe_n, risky, risky_n)
}

/// Every open move of the player is either safe or risky, none is both, and a
/// move that is not open is neither.
pub proof fn moves_are_safe_risky_or_lethal(s: StateModel, obs: Set<Cell>, d: Dir)
    ensures
        safe_moves(s, obs).contains(d) || risky_moves(s, obs).contains(d) <==> open_move(
            obs,
            s.me().head(),
            d,
        ),
        !(safe_moves(s, obs).contains(d) && risky_moves(s, obs).contains(d)),
        move_pool(s, obs).len() == 0 <==> open_moves(obs, s.me().head()).len() == 0,
        move_pool(s, obs).contains(d) ==> open_move(obs, s.me().head(), d),
{
    let p = is_safe(s, obs);
    let q = is_risky(s, obs);
    let o = is_open(obs, s.me().head());
    lemma_filter_ends(p);
    lemma_filter_ends(q);
    lemma_filter_ends(o);
    if safe_moves(s, obs).contains(d) {
        let i = choose|i: int| 0 <= i < safe_moves(s, obs).len() && safe_moves(s, obs)[i] == d;
        assert(p(DIRS@.filter(p)[i]));
    }
    if risky_moves(s, obs).contains(d) {
        let i = choose|i: int| 0 <= i < risky_moves(s, obs).len() && risky_moves(s, obs)[i] == d;
        assert(q(DIRS@.filter(q)[i]));
    }
    if open_move(obs, s.me().head(), d) {
        assert(p(d) || q(d));
    }
    if open_moves(obs, s.me().head()).len() > 0 {
        let e = open_moves(obs, s.me().head())[0];
        assert(o(DIRS@.filter(o)[0]));
        assert(p(e) || q(e));
        assert(DIRS@.filter(p).contains(e) || DIRS@.filter(q).contains(e));
    }
    if safe_moves(s, obs).len() > 0 {
        let e = safe_moves(s, obs)[0];
        assert(p(DIRS@.filter(p)[0]));
        assert(o(e));
        assert(DIRS@.filter(o).contains(e));
    }
    if risky_moves(s, obs).len() > 0 {
        let e = risky_moves(s, obs)[0];
        assert(q(DIRS@.filter(q)[0]));
        assert(o(e));
        assert(DIRS@.filter(o).contains(e));
    }
}

/// The place of a direction in the order of the searches.
pub open spec fn place(d: Dir) -> int {
    match d {
        Dir::Up => 0,
        Dir::Down => 1,
        Dir::Left => 2,
        Dir::Right => 3,
    }
}

/// Filtered directions are in the order of the searches, each at most once.
pub proof fn filtered_directions_keep_their_order(p: spec_fn(Dir) -> bool, i: int, j: int)
    requires
        0 <= i < j < DIRS@.filter(p).len(),
    ensures
        place(DIRS@.filter(p)[i]) < place(DIRS@.filter(p)[j]),
{
    lemma_filter_ends(p);
    lemma_filter_step(p, 0);
    lemma_filter_step(p, 1);
    lemma_filter_step(p, 2);
    lemma_filter_step(p, 3);
    assert(DIRS@[0] == Dir::Up && DIRS@[1] == Dir::Down && DIRS@[2] == Dir::Left && DIRS@[3]
        == Dir::Right);
}

/// A cell next to the head of a living opponent that is no shorter than the player.
pub open spec fn beside_a_strong_head(s: StateModel, c: Cell) -> bool {
    exists|i: int|
        1 <= i < s.n && (#[trigger] s.snakes[i]).alive && s.snakes[i].body.len()
            >= s.snakes[0].body.len() && gap(s.snakes[i].body[0], c) == 1
}

/// The player's moves, by what they lead to: a move onto a free cell of the board
/// is risky beside the head of an opponent that is no shorter, and safe elsewhere.
/// The safe moves are considered, or else the risky ones.
pub proof fn moves_beside_strong_heads_are_risky(s: StateModel, obs: Set<Cell>, d: Dir)
    requires
        s.valid(),
    ensures
        ({
            let to = d.target(s.snakes[0].body[0]);
            let open = to is Some && !obs.contains(to->0);
            let refuge = exists|e: Dir|
                (#[trigger] e.target(s.snakes[0].body[0])) is Some && !obs.contains(
                    e.target(s.snakes[0].body[0])->0,
                ) && !beside_a_strong_head(s, e.target(s.snakes[0].body[0])->0);
            &&& risky_moves(s, obs).contains(d) <==> open && beside_a_strong_head(s, to->0)
            &&& safe_moves(s, obs).contains(d) <==> open && !beside_a_strong_head(s, to->0)
            &&& move_pool(s, obs).contains(d) <==> open && (refuge ==> !beside_a_strong_head(
                s,
                to->0,
            ))
            &&& open_moves(obs, s.snakes[0].body[0]).contains(d) <==> open
        }),
        forall|i: int|
            1 <= i < s.n && (#[trigger] s.snakes[i]).alive && s.snakes[i].body.len()
                >= s.snakes[0].body.len() && d.target(s.snakes[0].body[0]) is Some && gap(
                s.snakes[i].body[0],
                d.target(s.snakes[0].body[0])->0,
            ) == 1 ==> !safe_moves(s, obs).contains(d),
{
    let head = s.snakes[0].body[0];
    let p = is_safe(s, obs);
    let q = is_risky(s, obs);
    lemma_filter_ends(p);
    lemma_filter_ends(q);
    lemma_filter_ends(is_open(obs, head));
    assert(s.snakes[0].valid());
    assert forall|c: Cell| is_cell(c) implies #[trigger] danger(s).contains(c)
        == beside_a_strong_head(s, c) by {
        lemma_danger(s, c);
    }
    assert forall|e: Dir| (#[trigger] e.target(head)) is Some implies is_cell(e.target(head)->0) by {}
    assert forall|e: Dir| #[trigger] safe_moves(s, obs).contains(e) == p(e) by {
        lemma_filtered(p, e);
    }
    assert forall|e: Dir| #[trigger] risky_moves(s, obs).contains(e) == q(e) by {
        lemma_filtered(q, e);
    }
    lemma_filtered(is_open(obs, head), d);
    if safe_moves(s, obs).len() > 0 {
        let e = safe_moves(s, obs)[0];
        assert(safe_moves(s, obs).contains(e));
        assert(p(e));
        assert(e.target(head) is Some);
    }
    if exists|e: Dir|
        (#[trigger] e.target(head)) is Some && !obs.contains(e.target(head)->0)
            && !beside_a_strong_head(s, e.target(head)->0) {
        let e = choose|e: Dir|
            (#[trigger] e.target(head)) is Some && !obs.contains(e.target(head)->0)
                && !beside_a_strong_head(s, e.target(head)->0);
        assert(p(e));
        assert(safe_moves(s, obs).contains(e));
    }
}

proof fn lemma_filtered(p: spec_fn(Dir) -> bool, d: Dir)
    ensures
        DIRS@.filter(p).contains(d) <==> p(d),
{
    lemma_filter_ends(p);
    if DIRS@.filter(p).contains(d) {
        let i = choose|i: int| 0 <= i < DIRS@.filter(p).len() && DIRS@.filter(p)[i] == d;
        assert(p(DIRS@.filter(p)[i]));
    }
}

proof fn lemma_danger(s: StateModel, c: Cell)
    requires
        s.valid(),
        is_cell(c),
    ensures
        danger(s).contains(c) == beside_a_strong_head(s, c),
{
    if danger(s).contains(c) {
        let i = choose|i: int| #[trigger]
            s.opponent(i) && s.snakes[i].body.len() >= s.me().body.len() && adjacent(
                s.snakes[i].head(),
                c,
            );
        assert(s.snakes[i].alive);
    }
    if beside_a_strong_head(s, c) {
        let i = choose|i: int|
            1 <= i < s.n && (#[trigger] s.snakes[i]).alive && s.snakes[i].body.len()
                >= s.snakes[0].body.len() && gap(s.snakes[i].body[0], c) == 1;
        assert(s.snakes[i].valid());
        assert(s.opponent(i));
    }
}

/// A snake coils up exactly where one and a half times its length, rounded down,
/// exceeds the space that its head has access to, and there is an open move. It
/// then takes an open move.
pub proof fn snakes_coil_when_space_is_short(b: SnakeModel, obs: Set<Cell>)
    requires
        b.valid(),
    ensures
        coil(b, obs) is Some <==> 2 * region(obs, b.body[0]).len() + 2 <= 3 * b.body.len() && exists|
            d: Dir,
        |
            (#[trigger] d.target(b.body[0])) is Some && !obs.contains(d.target(b.body[0])->0),
        coil(b, obs) is Some ==> (coil(b, obs)->0).target(b.body[0]) is Some && !obs.contains(
            (coil(b, obs)->0).target(b.body[0])->0,
        ),
{
    let head = b.body[0];
    let p = is_open(obs, head);
    let moves = open_moves(obs, head);
    lemma_filter_ends(p);
    assert(trapped(b, obs) <==> 2 * region(obs, head).len() + 2 <= 3 * b.body.len());
    if moves.len() > 0 {
        let k = first_best_is_best(moves, space_of(obs, head));
        assert(p(DIRS@.filter(p)[k]));
        assert(moves[k].target(head) is Some);
    }
    if exists|d: Dir| (#[trigger] d.target(head)) is Some && !obs.contains(d.target(head)->0) {
        let d = choose|d: Dir|
            (#[trigger] d.target(head)) is Some && !obs.contains(d.target(head)->0);
        assert(p(d));
        assert(moves.contains(d));
    }
}

/// A trapped snake with a way to its tail, whose cell counts as free, goes that
/// way: its move leads one move closer. The tail's own cell has to be free for a
/// tail that is next to the head. A snake with its tail on its head goes up.
pub proof fn trapped_snakes_follow_their_tail(b: SnakeModel, obs: Set<Cell>, d: nat)
    requires
        b.valid(),
        2 * region(obs, b.body[0]).len() + 2 <= 3 * b.body.len(),
        distance_is(obs.remove(b.body.last()), b.body[0], b.body.last(), d),
        d != 1 || !obs.contains(b.body.last()),
        d == 0 ==> Dir::Up.target(b.body[0]) is Some && !obs.contains(
            Dir::Up.target(b.body[0])->0,
        ),
    ensures
        coil(b, obs) is Some,
        d == 0 ==> coil(b, obs) == Some(Dir::Up),
        d >= 1 ==> distance_is(
            obs.remove(b.body.last()),
            (coil(b, obs)->0).target(b.body[0])->0,
            b.body.last(),
            (d - 1) as nat,
        ),
{
    let head = b.body[0];
    let tail = b.body.last();
    let free = obs.remove(tail);
    routes_are_shortest(head, tail, free);
    assert(walk(free, head, tail, d));
    assert(trapped(b, obs));
    let (k, dir) = route(head, tail, free)->0;
    assert(k == d);
    if d == 0 {
        assert(head == tail);
    } else {
        if head == tail {
            lemma_walk_start(free, head, tail, d);
            assert(walk(free, head, tail, 0));
        }
        let p = dir.target(head)->0;
        if p == tail {
            lemma_walk_start(free, p, tail, (d - 1) as nat);
            assert(walk(free, p, tail, 0));
        }
        assert(open_move(obs, head, dir));
    }
}

/// A trapped snake without a way to its tail takes the open move that leaves the
/// most space, the earliest one among equals.
pub proof fn trapped_snakes_else_take_the_most_space(b: SnakeModel, obs: Set<Cell>, e: Dir)
    requires
        b.valid(),
        2 * region(obs, b.body[0]).len() + 2 <= 3 * b.body.len(),
        !reachable(obs.remove(b.body.last()), b.body[0], b.body.last()) || (distance_is(
            obs.remove(b.body.last()),
            b.body[0],
            b.body.last(),
            1,
        ) && obs.contains(b.body.last())),
        e.target(b.body[0]) is Some,
        !obs.contains(e.target(b.body[0])->0),
    ensures
        coil(b, obs) is Some,
        ({
            let to = (coil(b, obs)->0).target(b.body[0])->0;
            let best = region(obs.insert(b.body[0]), to).len();
            let other = region(obs.insert(b.body[0]), e.target(b.body[0])->0).len();
            &&& other <= best
            &&& other == best ==> place(coil(b, obs)->0) <= place(e)
        }),
{
    let head = b.body[0];
    let tail = b.body.last();
    let free = obs.remove(tail);
    let p = is_open(obs, head);
    let moves = open_moves(obs, head);
    let score = space_of(obs, head);
    assert(trapped(b, obs));
    routes_are_shortest(head, tail, free);
    if reachable(free, head, tail) {
        let (k, dir) = route(head, tail, free)->0;
        assert(walk(free, head, tail, 1) && walk(free, head, tail, k));
        if head == tail {
            lemma_walk_start(free, head, tail, 1);
            assert(walk(free, head, tail, 0));
        }
        assert(dir.target(head)->0 == tail);
    }
    assert(tail_move(b, obs) is None);
    lemma_filter_ends(p);
    assert(p(e) && moves.contains(e));
    let i = choose|i: int| 0 <= i < moves.len() && moves[i] == e;
    let k = first_best_is_best(moves, score);
    assert(score(moves[i]) <= score(moves[k]));
    if k < i {
        filtered_directions_keep_their_order(p, k, i);
    }
}

} // verus!
