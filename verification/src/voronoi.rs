//! Territory: which snake is first at each cell.
use vstd::prelude::*;

use crate::bitboard::{lemma_board_set_is_small, Bb};
use crate::grid::{adjacent, is_cell, moves_are_adjacency, Cell, CELLS, DIRS};
use crate::state::{State, StateModel};
use crate::walk::{distance_is, lemma_walk_append, open_cell, walk};

verus! {

/// Arriving after `a` moves as snake `i` is no later than after `b` moves as
/// snake `j`: the shorter way comes first, and the lower slot among equals.
pub open spec fn no_later(a: nat, i: int, b: nat, j: int) -> bool {
    a < b || (a == b && i <= j)
}

/// Snake `i` can be at `c` after `k` moves.
pub open spec fn arrives(s: StateModel, obs: Set<Cell>, i: int, c: Cell, k: nat) -> bool {
    s.lives(i) && walk(obs, s.snakes[i].head(), c, k)
}

/// Snake `i`, after `k` moves, is the first at `c`.
pub open spec fn first_at(s: StateModel, obs: Set<Cell>, i: int, c: Cell, k: nat) -> bool {
    arrives(s, obs, i, c, k) && forall|j: int, m: nat| #[trigger]
        arrives(s, obs, j, c, m) ==> no_later(k, i, m, j)
}

/// The cells at which snake `i` is the first to arrive.
pub open spec fn territory(s: StateModel, obs: Set<Cell>, i: int) -> Set<Cell> {
    Set::new(|c: Cell| exists|k: nat| first_at(s, obs, i, c, k))
}

/// Territories are made of open cells, and no two snakes own the same cell.
pub proof fn territories_are_disjoint(s: StateModel, obs: Set<Cell>, i: int, j: int)
    ensures
        territory(s, obs, i).finite(),
        territory(s, obs, i).len() <= CELLS,
        forall|c: Cell| territory(s, obs, i).contains(c) ==> open_cell(obs, c),
        i != j ==> territory(s, obs, i).disjoint(territory(s, obs, j)),
        !s.lives(i) ==> territory(s, obs, i) == Set::<Cell>::empty(),
{
    assert forall|c: Cell| territory(s, obs, i).contains(c) implies open_cell(obs, c) && s.lives(
        i,
    ) by {
        let k = choose|k: nat| first_at(s, obs, i, c, k);
        assert(walk(obs, s.snakes[i].head(), c, k));
    }
    lemma_board_set_is_small(territory(s, obs, i), 121);
    if i != j {
        assert forall|c: Cell|
            !(territory(s, obs, i).contains(c) && territory(s, obs, j).contains(c)) by {
            if territory(s, obs, i).contains(c) && territory(s, obs, j).contains(c) {
                let k = choose|k: nat| first_at(s, obs, i, c, k);
                let m = choose|m: nat| first_at(s, obs, j, c, m);
                assert(arrives(s, obs, i, c, k) && arrives(s, obs, j, c, m));
            }
        }
    }
    if !s.lives(i) {
        assert(territory(s, obs, i) =~= Set::empty());
    }
}

/// The cells that have an owner: every cell that some living snake can reach.
pub proof fn reached_cells_have_an_owner(s: StateModel, obs: Set<Cell>, i: int, c: Cell, k: nat)
    requires
        arrives(s, obs, i, c, k),
    ensures
        exists|j: int| #[trigger] territory(s, obs, j).contains(c),
    decreases k, i,
{
    if first_at(s, obs, i, c, k) {
        assert(territory(s, obs, i).contains(c));
    } else {
        let (j, m) = choose|j: int, m: nat| #[trigger]
            arrives(s, obs, j, c, m) && !no_later(k, i, m, j);
        reached_cells_have_an_owner(s, obs, j, c, m);
    }
}

/// The cells that some living snake can reach.
pub open spec fn reached(s: StateModel, obs: Set<Cell>) -> Set<Cell> {
    Set::new(|c: Cell| exists|i: int, k: nat| arrives(s, obs, i, c, k))
}

/// The territories share out the cells that can be reached: their sizes add up to
/// the number of those cells, which fits the board.
pub proof fn territories_share_out_the_board(s: StateModel, obs: Set<Cell>)
    requires
        s.n <= 4,
    ensures
        territory(s, obs, 0).len() + territory(s, obs, 1).len() + territory(s, obs, 2).len()
            + territory(s, obs, 3).len() == reached(s, obs).len(),
        reached(s, obs).len() <= CELLS,
{
    let (a, b, c, d) = (
        territory(s, obs, 0),
        territory(s, obs, 1),
        territory(s, obs, 2),
        territory(s, obs, 3),
    );
    territories_are_disjoint(s, obs, 0, 1);
    territories_are_disjoint(s, obs, 1, 2);
    territories_are_disjoint(s, obs, 2, 3);
    territories_are_disjoint(s, obs, 3, 0);
    territories_are_disjoint(s, obs, 0, 2);
    territories_are_disjoint(s, obs, 1, 3);
    let all = a.union(b).union(c).union(d);
    vstd::set_lib::lemma_set_disjoint_lens(a, b);
    vstd::set_lib::lemma_set_disjoint_lens(a.union(b), c);
    vstd::set_lib::lemma_set_disjoint_lens(a.union(b).union(c), d);
    assert forall|x: Cell| reached(s, obs).contains(x) <==> all.contains(x) by {
        if reached(s, obs).contains(x) {
            let (i, k) = choose|i: int, k: nat| arrives(s, obs, i, x, k);
            reached_cells_have_an_owner(s, obs, i, x, k);
            let j = choose|j: int| #[trigger] territory(s, obs, j).contains(x);
            territories_are_disjoint(s, obs, j, j);
            assert(s.lives(j));
        }
        if all.contains(x) {
            let i = if a.contains(x) {
                0int
            } else if b.contains(x) {
                1
            } else if c.contains(x) {
                2
            } else {
                3
            };
            let k = choose|k: nat| first_at(s, obs, i, x, k);
            assert(arrives(s, obs, i, x, k));
        }
    }
    assert(reached(s, obs) =~= all);
    lemma_board_set_is_small(all, 121);
}

/// A breadth-first flood from all heads: the queue, with the number of moves to
/// each entry.
spec fn flood(
    s: StateModel,
    obs: Set<Cell>,
    owner: Seq<u8>,
    queue: Seq<(Cell, u8)>,
    steps: Seq<nat>,
    qtail: int,
) -> bool {
    &&& owner.len() == CELLS
    &&& steps.len() == qtail
    &&& 0 <= qtail <= queue.len()
    &&& forall|i: int|
        0 <= i < qtail ==> is_cell((#[trigger] queue[i]).0) && owner[queue[i].0 as int]
            == queue[i].1 && queue[i].1 < 4 && arrives(
            s,
            obs,
            queue[i].1 as int,
            queue[i].0,
            steps[i],
        )
    &&& forall|i: int, j: int|
        0 <= i < j < qtail ==> (#[trigger] queue[i]).0 != (#[trigger] queue[j]).0 && no_later(
            steps[i],
            queue[i].1 as int,
            steps[j],
            queue[j].1 as int,
        )
    &&& forall|c: Cell|
        is_cell(c) && #[trigger] owner[c as int] != u8::MAX ==> exists|i: int|
            0 <= i < qtail && (#[trigger] queue[i]).0 == c
}

/// No entry is later than `k` moves by snake `o`.
spec fn all_by(queue: Seq<(Cell, u8)>, steps: Seq<nat>, qtail: int, k: nat, o: int) -> bool {
    forall|i: int|
        0 <= i < qtail ==> no_later(steps[i], (#[trigger] queue[i]).1 as int, k, o)
}

/// The queue holds `c`, no later than `k` moves by snake `o`.
spec fn queued_by(
    queue: Seq<(Cell, u8)>,
    steps: Seq<nat>,
    qtail: int,
    c: Cell,
    k: nat,
    o: int,
) -> bool {
    exists|i: int|
        0 <= i < qtail && (#[trigger] queue[i]).0 == c && no_later(
            steps[i],
            queue[i].1 as int,
            k,
            o,
        )
}

/// Every open neighbour of entry `i` is queued no later than one move after it.
spec fn passed_on(
    obs: Set<Cell>,
    queue: Seq<(Cell, u8)>,
    steps: Seq<nat>,
    qtail: int,
    i: int,
) -> bool {
    forall|b: Cell| #[trigger]
        adjacent(queue[i].0, b) && open_cell(obs, b) ==> queued_by(
            queue,
            steps,
            qtail,
            b,
            steps[i] + 1,
            queue[i].1 as int,
        )
}

/// The head of every living snake is queued, if it is open.
spec fn heads_queued(
    s: StateModel,
    obs: Set<Cell>,
    queue: Seq<(Cell, u8)>,
    steps: Seq<nat>,
    qtail: int,
    n: int,
) -> bool {
    forall|j: int| #[trigger]
        s.lives(j) && j < n && open_cell(obs, s.snakes[j].head()) ==> queued_by(
            queue,
            steps,
            qtail,
            s.snakes[j].head(),
            0,
            j,
        )
}

/// An entry appended to the queue keeps the flood in order.
proof fn lemma_push(
    s: StateModel,
    obs: Set<Cell>,
    owner: Seq<u8>,
    queue: Seq<(Cell, u8)>,
    steps: Seq<nat>,
    qtail: int,
    c: Cell,
    o: u8,
    k: nat,
)
    requires
        flood(s, obs, owner, queue, steps, qtail),
        qtail < queue.len(),
        is_cell(c),
        owner[c as int] == u8::MAX,
        o < 4,
        arrives(s, obs, o as int, c, k),
        all_by(queue, steps, qtail, k, o as int),
    ensures
        flood(
            s,
            obs,
            owner.update(c as int, o),
            queue.update(qtail, (c, o)),
            steps.push(k),
            qtail + 1,
        ),
        all_by(queue.update(qtail, (c, o)), steps.push(k), qtail + 1, k, o as int),
        queued_by(queue.update(qtail, (c, o)), steps.push(k), qtail + 1, c, k, o as int),
        forall|b: Cell, m: nat, j: int| #[trigger]
            queued_by(queue, steps, qtail, b, m, j) ==> queued_by(
                queue.update(qtail, (c, o)),
                steps.push(k),
                qtail + 1,
                b,
                m,
                j,
            ),
{
    let queue2 = queue.update(qtail, (c, o));
    let steps2 = steps.push(k);
    let owner2 = owner.update(c as int, o);
    assert(queue2[qtail] == (c, o));
    assert forall|i: int| 0 <= i < qtail implies #[trigger] queue2[i] == queue[i] && steps2[i]
        == steps[i] && queue[i].0 != c by {
        assert(owner[queue[i].0 as int] == queue[i].1);
    }
    assert forall|i: int| 0 <= i < qtail + 1 implies is_cell((#[trigger] queue2[i]).0)
        && owner2[queue2[i].0 as int] == queue2[i].1 && queue2[i].1 < 4 && arrives(
        s,
        obs,
        queue2[i].1 as int,
        queue2[i].0,
        steps2[i],
    ) by {
        if i < qtail {
            assert(queue2[i] == queue[i]);
        }
    }
    assert forall|i: int, j: int| 0 <= i < j < qtail + 1 implies (#[trigger] queue2[i]).0 != (
    #[trigger] queue2[j]).0 && no_later(
        steps2[i],
        queue2[i].1 as int,
        steps2[j],
        queue2[j].1 as int,
    ) by {
        assert(queue2[i] == queue[i]);
        if j < qtail {
            assert(queue2[j] == queue[j]);
        }
    }
    assert forall|x: Cell|
        is_cell(x) && #[trigger] owner2[x as int] != u8::MAX implies exists|i: int|
        0 <= i < qtail + 1 && (#[trigger] queue2[i]).0 == x by {
        if x != c {
            assert(owner[x as int] != u8::MAX);
            let i = choose|i: int| 0 <= i < qtail && (#[trigger] queue[i]).0 == x;
            assert(queue2[i] == queue[i]);
        }
    }
    assert forall|b: Cell, m: nat, j: int| #[trigger]
        queued_by(queue, steps, qtail, b, m, j) implies queued_by(
        queue2,
        steps2,
        qtail + 1,
        b,
        m,
        j,
    ) by {
        let i = choose|i: int|
            0 <= i < qtail && (#[trigger] queue[i]).0 == b && no_later(
                steps[i],
                queue[i].1 as int,
                m,
                j,
            );
        assert(queue2[i] == queue[i]);
    }
    assert forall|i: int| 0 <= i < qtail + 1 implies no_later(
        steps2[i],
        (#[trigger] queue2[i]).1 as int,
        k,
        o as int,
    ) by {
        if i < qtail {
            assert(queue2[i] == queue[i]);
        }
    }
}

/// The queue has room for every cell of the board.
proof fn lemma_queue_fits(queue: Seq<(Cell, u8)>, qtail: int, c: Cell)
    requires
        0 <= qtail <= queue.len(),
        forall|i: int| 0 <= i < qtail ==> is_cell((#[trigger] queue[i]).0),
        forall|i: int, j: int|
            0 <= i < j < qtail ==> (#[trigger] queue[i]).0 != (#[trigger] queue[j]).0,
        is_cell(c),
        forall|i: int| 0 <= i < qtail ==> (#[trigger] queue[i]).0 != c,
    ensures
        qtail < CELLS,
{
    let seen = lemma_cells_queued(queue, qtail);
    lemma_board_set_is_small(seen.insert(c), 121);
}

proof fn lemma_cells_queued(queue: Seq<(Cell, u8)>, n: int) -> (seen: Set<Cell>)
    requires
        0 <= n <= queue.len(),
        forall|i: int| 0 <= i < n ==> is_cell((#[trigger] queue[i]).0),
        forall|i: int, j: int|
            0 <= i < j < n ==> (#[trigger] queue[i]).0 != (#[trigger] queue[j]).0,
    ensures
        seen.finite(),
        seen.len() == n,
        forall|c: Cell| #[trigger]
            seen.contains(c) ==> is_cell(c) && exists|i: int|
                0 <= i < n && (#[trigger] queue[i]).0 == c,
    decreases n,
{
    if n == 0 {
        Set::empty()
    } else {
        let prev = lemma_cells_queued(queue, n - 1);
        let last = queue[n - 1].0;
        if prev.contains(last) {
            let i = choose|i: int| 0 <= i < n - 1 && (#[trigger] queue[i]).0 == last;
            assert(queue[i].0 != queue[n - 1].0);
        }
        let seen = prev.insert(last);
        assert forall|c: Cell| #[trigger] seen.contains(c) implies is_cell(c) && exists|i: int|
            0 <= i < n && (#[trigger] queue[i]).0 == c by {
            if c == last {
                assert(queue[n - 1].0 == c);
            } else {
                assert(prev.contains(c));
                let i = choose|i: int| 0 <= i < n - 1 && (#[trigger] queue[i]).0 == c;
                assert(queue[i].0 == c);
            }
        }
        seen
    }
}

/// Once every entry has been passed on, any arrival is matched by the queue.
proof fn lemma_flood_is_complete(
    s: StateModel,
    obs: Set<Cell>,
    owner: Seq<u8>,
    queue: Seq<(Cell, u8)>,
    steps: Seq<nat>,
    qtail: int,
    j: int,
    c: Cell,
    m: nat,
)
    requires
        flood(s, obs, owner, queue, steps, qtail),
        heads_queued(s, obs, queue, steps, qtail, s.n as int),
        forall|i: int|
            0 <= i < qtail ==> #[trigger] passed_on(obs, queue, steps, qtail, i),
        arrives(s, obs, j, c, m),
    ensures
        queued_by(queue, steps, qtail, c, m, j),
    decreases m,
{
    let h = s.snakes[j].head();
    if m == 0 {
        assert(s.lives(j));
    } else {
        let p = choose|p: Cell| #[trigger] adjacent(p, c) && walk(obs, h, p, (m - 1) as nat);
        assert(arrives(s, obs, j, p, (m - 1) as nat));
        lemma_flood_is_complete(s, obs, owner, queue, steps, qtail, j, p, (m - 1) as nat);
        let i = choose|i: int|
            0 <= i < qtail && (#[trigger] queue[i]).0 == p && no_later(
                steps[i],
                queue[i].1 as int,
                (m - 1) as nat,
                j,
            );
        assert(passed_on(obs, queue, steps, qtail, i));
        assert(adjacent(queue[i].0, c));
        assert(queued_by(queue, steps, qtail, c, steps[i] + 1, queue[i].1 as int));
        let q = choose|q: int|
            0 <= q < qtail && (#[trigger] queue[q]).0 == c && no_later(
                steps[q],
                queue[q].1 as int,
                steps[i] + 1,
                queue[i].1 as int,
            );
        assert(queue[q].0 == c);
    }
}

/// In a completed flood the owner of a cell is the snake that is first there.
proof fn lemma_owner_is_first(
    s: StateModel,
    obs: Set<Cell>,
    owner: Seq<u8>,
    queue: Seq<(Cell, u8)>,
    steps: Seq<nat>,
    qtail: int,
    i: int,
    c: Cell,
)
    requires
        flood(s, obs, owner, queue, steps, qtail),
        heads_queued(s, obs, queue, steps, qtail, s.n as int),
        forall|i: int|
            0 <= i < qtail ==> #[trigger] passed_on(obs, queue, steps, qtail, i),
        0 <= i < 4,
    ensures
        territory(s, obs, i).contains(c) <==> is_cell(c) && owner[c as int] == i,
{
    if is_cell(c) && owner[c as int] == i {
        let q = choose|q: int| 0 <= q < qtail && (#[trigger] queue[q]).0 == c;
        let k = steps[q];
        assert(owner[queue[q].0 as int] == queue[q].1);
        assert forall|j: int, m: nat| #[trigger] arrives(s, obs, j, c, m) implies no_later(
            k,
            i,
            m,
            j,
        ) by {
            lemma_flood_is_complete(s, obs, owner, queue, steps, qtail, j, c, m);
            let r = choose|r: int|
                0 <= r < qtail && (#[trigger] queue[r]).0 == c && no_later(
                    steps[r],
                    queue[r].1 as int,
                    m,
                    j,
                );
            assert(r == q) by {
                if r < q {
                    assert(queue[r].0 != queue[q].0);
                } else if q < r {
                    assert(queue[q].0 != queue[r].0);
                }
            }
        }
        assert(first_at(s, obs, i, c, k));
    }
    if territory(s, obs, i).contains(c) {
        let k = choose|k: nat| first_at(s, obs, i, c, k);
        lemma_flood_is_complete(s, obs, owner, queue, steps, qtail, i, c, k);
        let q = choose|q: int|
            0 <= q < qtail && (#[trigger] queue[q]).0 == c && no_later(
                steps[q],
                queue[q].1 as int,
                k,
                i,
            );
        assert(owner[queue[q].0 as int] == queue[q].1);
        assert(arrives(s, obs, queue[q].1 as int, c, steps[q]));
        assert(no_later(k, i, steps[q], queue[q].1 as int));
    }
}

/// The cells below `n` that `owner` gives to `i`.
spec fn owned_below(owner: Seq<u8>, i: int, n: int) -> Set<Cell> {
    Set::new(|c: Cell| c < n && owner[c as int] == i)
}

proof fn lemma_owned_below(owner: Seq<u8>, i: int, n: int)
    requires
        0 <= n < 121,
    ensures
        owned_below(owner, i, n + 1) == if owner[n] == i {
            owned_below(owner, i, n).insert(n as Cell)
        } else {
            owned_below(owner, i, n)
        },
        owned_below(owner, i, n).finite(),
        owned_below(owner, i, n + 1).len() == owned_below(owner, i, n).len() + if owner[n] == i {
            1nat
        } else {
            0
        },
        owned_below(owner, i, n).len() <= n,
{
    lemma_board_set_is_small(owned_below(owner, i, n), n as nat);
    if owner[n] == i {
        assert(owned_below(owner, i, n + 1) =~= owned_below(owner, i, n).insert(n as Cell));
    } else {
        assert(owned_below(owner, i, n + 1) =~= owned_below(owner, i, n));
    }
}

/// Puts the open heads of the living snakes into the queue, in slot order.
fn queue_heads(
    state: &State,
    obs: Bb,
    owner: &mut [u8; CELLS],
    queue: &mut [(Cell, u8); CELLS],
) -> (r: (usize, Ghost<Seq<nat>>))
    requires
        state.wf(),
        forall|c: int| 0 <= c < CELLS ==> #[trigger] old(owner)@[c] == u8::MAX,
    ensures
        flood(state@, obs@, final(owner)@, final(queue)@, r.1@, r.0 as int),
        heads_queued(state@, obs@, final(queue)@, r.1@, r.0 as int, state@.n as int),
        forall|i: int| 0 <= i < r.0 ==> #[trigger] r.1@[i] == 0,
{
    let ghost s = state@;
    let ghost mut steps: Seq<nat> = Seq::empty();
    let mut qtail: usize = 0;
    let mut i: usize = 0;
    while i < state.n_snakes
        invariant
            i <= state.n_snakes <= 4,
            state.wf(),
            s == state@,
            flood(s, obs@, owner@, queue@, steps, qtail as int),
            heads_queued(s, obs@, queue@, steps, qtail as int, i as int),
            forall|j: int| 0 <= j < qtail ==> #[trigger] steps[j] == 0,
            forall|j: int| 0 <= j < qtail ==> (#[trigger] queue@[j]).1 < i,
        decreases state.n_snakes - i,
    {
        assert(state.snakes@[i as int].wf());
        let ghost queue_before = queue@;
        let ghost steps_before = steps;
        let ghost tail_before = qtail as int;
        if state.snakes[i].alive {
            let h = state.snakes[i].head();
            assert(s.snakes[i as int].head() == h);
            if !obs.get(h) {
                if owner[h as usize] == u8::MAX {
                    proof {
                        assert(walk(obs@, h, h, 0));
                        assert(arrives(s, obs@, i as int, h, 0));
                        assert forall|j: int| 0 <= j < qtail implies (#[trigger] queue@[j]).0
                            != h by {
                            assert(owner@[queue@[j].0 as int] == queue@[j].1);
                        }
                        lemma_queue_fits(queue@, qtail as int, h);
                        lemma_push(
                            s,
                            obs@,
                            owner@,
                            queue@,
                            steps,
                            qtail as int,
                            h,
                            i as u8,
                            0,
                        );
                        steps = steps.push(0);
                    }
                    owner[h as usize] = i as u8;
                    queue[qtail] = (h, i as u8);
                    qtail += 1;
                } else {
                    proof {
                        let q = choose|q: int| 0 <= q < qtail && (#[trigger] queue@[q]).0 == h;
                        assert(queued_by(queue@, steps, qtail as int, h, 0, i as int));
                    }
                }
            }
        }
        proof {
            assert forall|j: int| #[trigger]
                s.lives(j) && j < i + 1 && open_cell(
                    obs@,
                    s.snakes[j].head(),
                ) implies queued_by(queue@, steps, qtail as int, s.snakes[j].head(), 0, j) by {
                if j < i {
                    assert(queued_by(
                        queue_before,
                        steps_before,
                        tail_before,
                        s.snakes[j].head(),
                        0,
                        j,
                    ));
                }
            }
        }
        i += 1;
    }
    (qtail, Ghost(steps))
}

/// The number of cells at which each snake is the first to arrive. Ways lead
/// over free cells, and a tie goes to the lower slot.
pub fn voronoi(state: &State, obs: Bb) -> (counts: [u32; 4])
    requires
        state.wf(),
    ensures
        forall|i: int| 0 <= i < 4 ==> #[trigger] counts@[i] == territory(state@, obs@, i).len(),
        forall|i: int| 0 <= i < 4 ==> #[trigger] counts@[i] <= CELLS,
{
    let mut owner = [u8::MAX;CELLS];
    let mut queue = [(0u8, 0u8);CELLS];
    let ghost s = state@;
    let (tail, Ghost(start_steps)) = queue_heads(state, obs, &mut owner, &mut queue);
    let mut qtail: usize = tail;
    let mut qhead: usize = 0;
    let ghost mut steps = start_steps;
    proof {
        if qhead < qtail {
            assert(all_by(queue@, steps, qtail as int, steps[0] + 1, queue@[0].1 as int));
        }
    }
    while qhead < qtail
        invariant
            qhead <= qtail <= CELLS,
            flood(s, obs@, owner@, queue@, steps, qtail as int),
            heads_queued(s, obs@, queue@, steps, qtail as int, s.n as int),
            forall|i: int|
                0 <= i < qhead ==> #[trigger] passed_on(obs@, queue@, steps, qtail as int, i),
            qhead < qtail ==> all_by(
                queue@,
                steps,
                qtail as int,
                steps[qhead as int] + 1,
                queue@[qhead as int].1 as int,
            ),
        decreases CELLS - qhead,
    {
        let ghost at = qhead as int;
        let (c, si) = queue[qhead];
        qhead += 1;
        let ghost now = steps[at];
        proof {
            assert(queue@[at] == (c, si));
        }
        let mut k: usize = 0;
        while k < 4
            invariant
                k <= 4,
                at == qhead - 1,
                at < qtail <= CELLS,
                0 <= at,
                is_cell(c),
                si < 4,
                queue@[at] == (c, si),
                steps[at] == now,
                flood(s, obs@, owner@, queue@, steps, qtail as int),
                heads_queued(s, obs@, queue@, steps, qtail as int, s.n as int),
                forall|i: int|
                    0 <= i < at ==> #[trigger] passed_on(obs@, queue@, steps, qtail as int, i),
                all_by(queue@, steps, qtail as int, now + 1, si as int),
                forall|j: int|
                    0 <= j < k && (#[trigger] DIRS@[j].target(c)) is Some && open_cell(
                        obs@,
                        DIRS@[j].target(c)->0,
                    ) ==> queued_by(
                        queue@,
                        steps,
                        qtail as int,
                        DIRS@[j].target(c)->0,
                        now + 1,
                        si as int,
                    ),
            decreases 4 - k,
        {
            let d = DIRS[k];
            if let Some(nc) = d.step(c) {
                let ni: usize = nc as usize;
                if !obs.get(nc) {
                    if owner[ni] == u8::MAX {
                        let ghost queue_before = queue@;
                        let ghost steps_before = steps;
                        let ghost tail_before = qtail as int;
                        proof {
                            assert(DIRS@[k as int].target(c) == Some(nc));
                            moves_are_adjacency(c, nc);
                            assert(arrives(s, obs@, si as int, c, now));
                            lemma_walk_append(obs@, s.snakes[si as int].head(), c, nc, now);
                            assert forall|j: int| 0 <= j < qtail implies (#[trigger] queue@[j]).0
                                != nc by {
                                assert(owner@[queue@[j].0 as int] == queue@[j].1);
                            }
                            lemma_queue_fits(queue@, qtail as int, nc);
                            lemma_push(
                                s,
                                obs@,
                                owner@,
                                queue@,
                                steps,
                                qtail as int,
                                nc,
                                si,
                                now + 1,
                            );
                            steps = steps.push(now + 1);
                        }
                        owner[ni] = si;
                        queue[qtail] = (nc, si);
                        qtail += 1;
                        proof {
                            assert forall|i: int| 0 <= i < at implies #[trigger] passed_on(
                                obs@,
                                queue@,
                                steps,
                                qtail as int,
                                i,
                            ) by {
                                assert(passed_on(
                                    obs@,
                                    queue_before,
                                    steps_before,
                                    tail_before,
                                    i,
                                ));
                                assert(queue@[i] == queue_before[i]);
                                assert(steps[i] == steps_before[i]);
                            }
                            assert forall|j: int| #[trigger]
                                s.lives(j) && j < s.n && open_cell(
                                    obs@,
                                    s.snakes[j].head(),
                                ) implies queued_by(
                                queue@,
                                steps,
                                qtail as int,
                                s.snakes[j].head(),
                                0,
                                j,
                            ) by {
                                assert(queued_by(
                                    queue_before,
                                    steps_before,
                                    tail_before,
                                    s.snakes[j].head(),
                                    0,
                                    j,
                                ));
                            }
                        }
                    } else {
                        proof {
                            let q = choose|q: int| 0 <= q < qtail && (#[trigger] queue@[q]).0 == nc;
                            assert(queued_by(queue@, steps, qtail as int, nc, now + 1, si as int));
                        }
                    }
                }
            }
            k += 1;
        }
        proof {
            assert(passed_on(obs@, queue@, steps, qtail as int, at)) by {
                assert forall|b: Cell| #[trigger]
                    adjacent(queue@[at].0, b) && open_cell(obs@, b) implies queued_by(
                    queue@,
                    steps,
                    qtail as int,
                    b,
                    steps[at] + 1,
                    queue@[at].1 as int,
                ) by {
                    moves_are_adjacency(c, b);
                }
            }
            if qhead < qtail {
                assert(queue@[at].0 != queue@[at + 1].0);
            }
        }
    }
    proof {
        assert forall|i: int| 0 <= i < 4 implies owned_below(owner@, i, 121)
            == #[trigger] territory(s, obs@, i) by {
            assert forall|c: Cell|
                owned_below(owner@, i, 121).contains(c) <==> territory(s, obs@, i).contains(c) by {
                lemma_owner_is_first(s, obs@, owner@, queue@, steps, qtail as int, i, c);
            }
            assert(owned_below(owner@, i, 121) =~= territory(s, obs@, i));
        }
        assert forall|c: int| 0 <= c < 121 implies (#[trigger] owner@[c] < 4 || owner@[c]
            == u8::MAX) by {
            let x = c as Cell;
            if owner@[x as int] != u8::MAX {
                let q = choose|q: int| 0 <= q < qtail && (#[trigger] queue@[q]).0 == x;
                assert(owner@[queue@[q].0 as int] == queue@[q].1);
            }
        }
        assert forall|i: int| 0 <= i < 4 implies #[trigger] owned_below(owner@, i, 0).len() == 0 by {
            assert(owned_below(owner@, i, 0) =~= Set::empty());
        }
    }
    let mut counts = [0u32;4];
    let mut n: usize = 0;
    while n < CELLS
        invariant
            n <= CELLS,
            owner@.len() == CELLS,
            forall|c: int| 0 <= c < 121 ==> (#[trigger] owner@[c] < 4 || owner@[c] == u8::MAX),
            forall|i: int|
                0 <= i < 4 ==> #[trigger] counts@[i] == owned_below(owner@, i, n as int).len()
                    && counts@[i] <= n,
        decreases CELLS - n,
    {
        let o = owner[n];
        proof {
            lemma_owned_below(owner@, 0, n as int);
            lemma_owned_below(owner@, 1, n as int);
            lemma_owned_below(owner@, 2, n as int);
            lemma_owned_below(owner@, 3, n as int);
            assert(counts@[0] <= n && counts@[1] <= n && counts@[2] <= n && counts@[3] <= n);
        }
        if o != u8::MAX {
            counts[o as usize] = counts[o as usize] + 1;
        }
        n += 1;
    }
    proof {
        assert forall|i: int| 0 <= i < 4 implies #[trigger] counts@[i] == territory(
            s,
            obs@,
            i,
        ).len() by {
            assert(owned_below(owner@, i, 121) == territory(s, obs@, i));
        }
    }
    counts
}

/// Whose a cell is: that of the living snake with the shortest way from its head,
/// and of the lowest slot where several have a way of that length.
pub proof fn cells_go_to_the_nearest_head(s: StateModel, obs: Set<Cell>, i: int, c: Cell)
    ensures
        territory(s, obs, i).contains(c) <==> 0 <= i < s.n && s.snakes[i].alive && exists|k: nat|
            #[trigger]
            distance_is(obs, s.snakes[i].body[0], c, k) && (forall|j: int, m: nat|
                0 <= j < s.n && s.snakes[j].alive && #[trigger] walk(
                    obs,
                    s.snakes[j].body[0],
                    c,
                    m,
                ) ==> k < m || (k == m && i <= j)),
{
    if territory(s, obs, i).contains(c) {
        let k = choose|k: nat| first_at(s, obs, i, c, k);
        assert(arrives(s, obs, i, c, k));
        assert forall|j: int, m: nat|
            0 <= j < s.n && s.snakes[j].alive && #[trigger] walk(
                obs,
                s.snakes[j].body[0],
                c,
                m,
            ) implies k < m || (k == m && i <= j) by {
            assert(arrives(s, obs, j, c, m));
        }
        assert(distance_is(obs, s.snakes[i].body[0], c, k));
    }
    if 0 <= i < s.n && s.snakes[i].alive && exists|k: nat| #[trigger]
        distance_is(obs, s.snakes[i].body[0], c, k) && (forall|j: int, m: nat|
            0 <= j < s.n && s.snakes[j].alive && #[trigger] walk(obs, s.snakes[j].body[0], c, m)
                ==> k < m || (k == m && i <= j)) {
        let k = choose|k: nat| #[trigger]
            distance_is(obs, s.snakes[i].body[0], c, k) && (forall|j: int, m: nat|
                0 <= j < s.n && s.snakes[j].alive && #[trigger] walk(
                    obs,
                    s.snakes[j].body[0],
                    c,
                    m,
                ) ==> k < m || (k == m && i <= j));
        assert forall|j: int, m: nat| #[trigger] arrives(s, obs, j, c, m) implies no_later(
            k,
            i,
            m,
            j,
        ) by {
            assert(walk(obs, s.snakes[j].body[0], c, m));
        }
        assert(first_at(s, obs, i, c, k));
    }
}

} // verus!
