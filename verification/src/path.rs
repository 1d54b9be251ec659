//! A* search: shortest walks, and the way to the nearest food.
use vstd::prelude::*;

use crate::bitboard::{cells_of, fits_board, lemma_board_set_is_small, lemma_cells_of, Bb};
use crate::grid::{
    adjacent, code, col, gap, is_cell, manhattan, moves_are_adjacency, reverse_step, row, Cell, Dir,
    CELLS, DIRS,
};
use crate::walk::{
    distance_is, lemma_walk_append, lemma_walk_prepend, lemma_walk_start, open_cell, reachable, walk,
};

verus! {

/// The state of a search. `cost` gives, for each cell found so far, the length
/// of the best walk to it, and `via` the direction in which that walk enters
/// it. A `closed` cell has been expanded; the others found are the frontier.
#[verifier::ext_equal]
pub struct Search {
    pub cost: Map<Cell, nat>,
    pub via: Map<Cell, Dir>,
    pub closed: Set<Cell>,
}

/// The direction that leads from a cell to an adjacent one.
pub open spec fn heading(a: Cell, b: Cell) -> Dir {
    if row(b) > row(a) {
        Dir::Up
    } else if row(b) < row(a) {
        Dir::Down
    } else if col(b) < col(a) {
        Dir::Left
    } else {
        Dir::Right
    }
}

/// The cell from which a move in direction `d` leads to `c`.
pub open spec fn before(d: Dir, c: Cell) -> Cell {
    code(col(c) - d.dx(), row(c) - d.dy()) as Cell
}

impl Search {
    /// A search that has found only its start.
    pub open spec fn from_start(start: Cell) -> Search {
        Search {
            cost: Map::empty().insert(start, 0),
            via: Map::empty(),
            closed: Set::empty(),
        }
    }

    /// The cells found but not yet expanded.
    pub open spec fn frontier(self) -> Set<Cell> {
        self.cost.dom().difference(self.closed)
    }

    /// The estimated length of a walk to the goal through `c`.
    pub open spec fn estimate(self, goal: Cell, c: Cell) -> int {
        self.cost[c] + gap(c, goal)
    }

    /// `c` is the frontier cell with the least estimate, and the lowest of them.
    pub open spec fn is_pick(self, goal: Cell, c: Cell) -> bool {
        self.frontier().contains(c) && forall|o: Cell| #[trigger]
            self.frontier().contains(o) ==> self.estimate(goal, c) < self.estimate(goal, o) || (
            self.estimate(goal, c) == self.estimate(goal, o) && c <= o)
    }

    /// Expanding `cur` finds a first or a shorter walk to `c`.
    pub open spec fn improves(self, obs: Set<Cell>, cur: Cell, c: Cell) -> bool {
        &&& adjacent(cur, c)
        &&& open_cell(obs, c)
        &&& !self.closed.contains(c)
        &&& self.cost.dom().contains(c) ==> self.cost[cur] + 1 < self.cost[c]
    }

    /// The search after `cur` has been expanded.
    pub open spec fn expanded(self, obs: Set<Cell>, cur: Cell) -> Search {
        let closed = Search { closed: self.closed.insert(cur), ..self };
        Search {
            cost: Map::new(
                |c: Cell| self.cost.dom().contains(c) || closed.improves(obs, cur, c),
                |c: Cell|
                    if closed.improves(obs, cur, c) {
                        self.cost[cur] + 1
                    } else {
                        self.cost[c]
                    },
            ),
            via: Map::new(
                |c: Cell| self.via.dom().contains(c) || closed.improves(obs, cur, c),
                |c: Cell|
                    if closed.improves(obs, cur, c) {
                        heading(cur, c)
                    } else {
                        self.via[c]
                    },
            ),
            closed: closed.closed,
        }
    }

    /// Expands cell after cell, at most `fuel` of them, until the goal is the
    /// next to be expanded. `None` where the frontier runs out first.
    pub open spec fn run(self, obs: Set<Cell>, goal: Cell, fuel: nat) -> Option<Search>
        decreases fuel,
    {
        if fuel == 0 || !exists|c: Cell| self.is_pick(goal, c) {
            None
        } else {
            let cur = choose|c: Cell| self.is_pick(goal, c);
            if cur == goal {
                Some(self)
            } else {
                self.expanded(obs, cur).run(obs, goal, (fuel - 1) as nat)
            }
        }
    }

    /// The direction of the first move of the walk that the search has found to
    /// `c`, which is `steps` moves long.
    pub open spec fn first_move(self, start: Cell, c: Cell, steps: nat) -> Dir
        decreases steps,
    {
        let d = self.via[c];
        if steps == 0 || before(d, c) == start {
            d
        } else {
            self.first_move(start, before(d, c), (steps - 1) as nat)
        }
    }

    /// What holds of every search from `start`.
    #[verifier::opaque]
    pub open spec fn sound(self, obs: Set<Cell>, start: Cell) -> bool {
        &&& self.cost.dom().contains(start)
        &&& self.cost[start] == 0
        &&& self.closed.finite()
        &&& forall|c: Cell| #[trigger] self.closed.contains(c) ==> self.cost.dom().contains(c)
        &&& forall|c: Cell| #[trigger]
            self.cost.dom().contains(c) ==> walk(obs, start, c, self.cost[c]) && self.cost[c]
                <= self.closed.len()
        &&& forall|c: Cell, k: nat|
            self.closed.contains(c) && #[trigger] walk(obs, start, c, k) ==> self.cost[c] <= k
        &&& forall|c: Cell, b: Cell|
            self.closed.contains(c) && #[trigger] adjacent(c, b) && open_cell(obs, b)
                ==> self.cost.dom().contains(b) && (self.closed.contains(b) || self.cost[b]
                <= self.cost[c] + 1)
        &&& forall|c: Cell| #[trigger]
            self.cost.dom().contains(c) && c != start ==> self.via.dom().contains(c)
                && self.closed.contains(before(self.via[c], c)) && self.via[c].target(
                before(self.via[c], c),
            ) == Some(c) && self.cost[before(self.via[c], c)] + 1 == self.cost[c]
    }
}

/// What a search returns: nothing where the start is blocked or the goal cannot
/// be reached; else the length of a shortest walk, and its first move.
pub open spec fn route(start: Cell, goal: Cell, obs: Set<Cell>) -> Option<(nat, Dir)> {
    if obs.contains(start) {
        None
    } else if start == goal {
        Some((0, Dir::Up))
    } else {
        match Search::from_start(start).run(obs, goal, 122) {
            Some(s) => Some((s.cost[goal], s.first_move(start, goal, s.cost[goal]))),
            None => None,
        }
    }
}

/// The frontier holds a cell that promises at least as short a walk as any walk
/// to a cell that has not been expanded.
proof fn lemma_frontier_leads(s: Search, obs: Set<Cell>, start: Cell, goal: Cell, b: Cell, k: nat)
    requires
        s.sound(obs, start),
        walk(obs, start, b, k),
        !s.closed.contains(b),
    ensures
        exists|n: Cell| #[trigger]
            s.frontier().contains(n) && s.estimate(goal, n) <= k + gap(b, goal),
    decreases k,
{
    reveal(Search::sound);
    if k == 0 {
        assert(s.frontier().contains(start));
    } else {
        let p = choose|p: Cell| #[trigger] adjacent(p, b) && walk(obs, start, p, (k - 1) as nat);
        if s.closed.contains(p) {
            assert(s.cost[p] <= k - 1);
            assert(s.frontier().contains(b));
        } else {
            lemma_frontier_leads(s, obs, start, goal, p, (k - 1) as nat);
        }
    }
}

/// The walk to the picked cell is a shortest one.
proof fn lemma_pick_is_shortest(s: Search, obs: Set<Cell>, start: Cell, goal: Cell, cur: Cell)
    requires
        s.sound(obs, start),
        s.is_pick(goal, cur),
    ensures
        distance_is(obs, start, cur, s.cost[cur]),
        is_cell(cur),
{
    reveal(Search::sound);
    assert forall|k: nat| #[trigger] walk(obs, start, cur, k) implies s.cost[cur] <= k by {
        lemma_frontier_leads(s, obs, start, goal, cur, k);
        let n = choose|n: Cell| #[trigger]
            s.frontier().contains(n) && s.estimate(goal, n) <= k + gap(cur, goal);
        assert(s.estimate(goal, cur) <= s.estimate(goal, n));
    }
}

/// There is at most one pick.
proof fn lemma_pick_is_unique(s: Search, goal: Cell, a: Cell, b: Cell)
    requires
        s.is_pick(goal, a),
        s.is_pick(goal, b),
    ensures
        a == b,
{
    assert(s.frontier().contains(a) && s.frontier().contains(b));
}

/// The heading to an adjacent cell leads there.
proof fn lemma_heading(a: Cell, b: Cell)
    requires
        adjacent(a, b),
    ensures
        heading(a, b).target(a) == Some(b),
        before(heading(a, b), b) == a,
{
}

/// A direction that leads to a cell is the heading to it.
proof fn lemma_target_heading(a: Cell, d: Dir)
    requires
        is_cell(a),
        d.target(a) is Some,
    ensures
        adjacent(a, d.target(a)->0),
        heading(a, d.target(a)->0) == d,
{
}

/// Expanding the pick keeps a search sound.
proof fn lemma_expanded_is_sound(s: Search, obs: Set<Cell>, start: Cell, goal: Cell, cur: Cell)
    requires
        s.sound(obs, start),
        s.is_pick(goal, cur),
    ensures
        s.expanded(obs, cur).sound(obs, start),
{
    reveal(Search::sound);
    lemma_pick_is_shortest(s, obs, start, goal, cur);
    let t = s.expanded(obs, cur);
    let c0 = Search { closed: s.closed.insert(cur), ..s };
    assert(t.closed.len() == s.closed.len() + 1);
    assert forall|c: Cell| #[trigger] t.cost.dom().contains(c) implies walk(
        obs,
        start,
        c,
        t.cost[c],
    ) && t.cost[c] <= t.closed.len() by {
        assert(s.cost.dom().contains(cur));
        if c0.improves(obs, cur, c) {
            lemma_walk_append(obs, start, cur, c, s.cost[cur]);
        } else {
            assert(s.cost.dom().contains(c));
        }
    }
    assert forall|c: Cell, b: Cell|
        t.closed.contains(c) && #[trigger] adjacent(c, b) && open_cell(
            obs,
            b,
        ) implies t.cost.dom().contains(b) && (t.closed.contains(b) || t.cost[b] <= t.cost[c]
        + 1) by {
        if c == cur {
            if !c0.closed.contains(b) && s.cost.dom().contains(b) && !(s.cost[cur] + 1
                < s.cost[b]) {
                assert(!c0.improves(obs, cur, b));
            }
        } else {
            assert(s.closed.contains(c));
        }
    }
    assert forall|c: Cell| #[trigger] t.cost.dom().contains(c) && c
        != start implies t.via.dom().contains(c) && t.closed.contains(before(t.via[c], c))
        && t.via[c].target(before(t.via[c], c)) == Some(c) && t.cost[before(t.via[c], c)] + 1
        == t.cost[c] by {
        if c0.improves(obs, cur, c) {
            lemma_heading(cur, c);
            assert(!c0.improves(obs, cur, cur));
        } else {
            assert(s.cost.dom().contains(c));
            let p = before(s.via[c], c);
            assert(s.closed.contains(p));
            assert(!c0.improves(obs, cur, p));
        }
    }
    assert forall|c: Cell, k: nat|
        t.closed.contains(c) && #[trigger] walk(obs, start, c, k) implies t.cost[c] <= k by {
        assert(!c0.improves(obs, cur, c));
    }
}

/// A search that has found only its start is sound.
proof fn lemma_start_is_sound(obs: Set<Cell>, start: Cell)
    requires
        open_cell(obs, start),
    ensures
        Search::from_start(start).sound(obs, start),
{
    reveal(Search::sound);
    assert(walk(obs, start, start, 0));
}

/// The picked cell is not yet closed, so that closing it leaves room on the board.
proof fn lemma_closing_makes_room(s: Search, obs: Set<Cell>, start: Cell, goal: Cell, cur: Cell)
    requires
        s.sound(obs, start),
        s.is_pick(goal, cur),
    ensures
        s.cost.dom().contains(cur),
        s.cost[cur] <= s.closed.len(),
        s.closed.len() < CELLS,
        s.expanded(obs, cur).closed.len() == s.closed.len() + 1,
{
    reveal(Search::sound);
    assert forall|c: Cell| #[trigger] s.closed.insert(cur).contains(c) implies c < 121 by {
        if c != cur {
            assert(s.closed.contains(c));
        }
        assert(s.cost.dom().contains(c));
    }
    lemma_board_set_is_small(s.closed.insert(cur), 121);
}

/// The frontier cell with the least estimate, the lowest one among equals.
fn cheapest(open: Bb, f_cost: &[u32; CELLS]) -> (r: Option<Cell>)
    requires
        forall|c: Cell| #[trigger] open@.contains(c) ==> is_cell(c) && f_cost@[c as int] < u32::MAX,
    ensures
        r is None <==> open@ == Set::<Cell>::empty(),
        r is Some ==> open@.contains(r->0) && forall|o: Cell| #[trigger]
            open@.contains(o) ==> f_cost@[r->0 as int] < f_cost@[o as int] || (f_cost@[r->0 as int]
                == f_cost@[o as int] && r->0 <= o),
{
    let mut it = open.iter();
    let ghost all = it@;
    proof {
        open.lemma_view();
        lemma_cells_of(open@);
    }
    let mut cur: u8 = u8::MAX;
    let mut best_f: u32 = u32::MAX;
    let ghost mut done: int = 0;
    loop
        invariant
            all == cells_of(open@),
            fits_board(open@),
            0 <= done <= all.len(),
            it@ == all.skip(done),
            forall|c: Cell|
                #[trigger] open@.contains(c) ==> is_cell(c) && f_cost@[c as int] < u32::MAX,
            cur == u8::MAX ==> done == 0 && best_f == u32::MAX,
            cur != u8::MAX ==> open@.contains(cur) && best_f == f_cost@[cur as int]
                && all.take(done).contains(cur) && forall|j: int|
                0 <= j < done ==> best_f < f_cost@[#[trigger] all[j] as int] || (best_f
                    == f_cost@[all[j] as int] && cur <= all[j]),
        ensures
            done == all.len(),
        decreases all.len() - done,
    {
        proof {
            lemma_cells_of(open@);
        }
        match it.next() {
            Some(c) => {
                proof {
                    assert(c == all[done]);
                    assert(open@.contains(c));
                    assert(it@ =~= all.skip(done + 1));
                }
                let f = f_cost[c as usize];
                let ghost prev = cur;
                if f < best_f {
                    best_f = f;
                    cur = c;
                }
                proof {
                    let more = all.take(done + 1);
                    if cur == c {
                        assert(more[done] == c);
                    } else {
                        let i = choose|i: int|
                            0 <= i < all.take(done).len() && all.take(done)[i] == prev;
                        assert(more[i] == prev);
                        assert(all[i] == prev);
                        assert(all[i] < all[done]);
                    }
                    done = done + 1;
                }
            },
            None => {
                break;
            },
        }
    }
    if cur == u8::MAX {
        proof {
            assert(open@ =~= Set::<Cell>::empty()) by {
                assert forall|c: Cell| !open@.contains(c) by {
                    if open@.contains(c) {
                        assert(all.contains(c));
                    }
                }
            }
        }
        None
    } else {
        proof {
            assert forall|o: Cell| #[trigger] open@.contains(o) implies f_cost@[cur as int]
                < f_cost@[o as int] || (f_cost@[cur as int] == f_cost@[o as int] && cur <= o) by {
                assert(all.contains(o));
                let j = choose|j: int| 0 <= j < all.len() && all[j] == o;
            }
        }
        Some(cur)
    }
}

/// The arrays of a search hold what the model says.
spec fn agrees(
    s: Search,
    goal: Cell,
    g_cost: Seq<u32>,
    f_cost: Seq<u32>,
    came: Seq<Dir>,
) -> bool {
    &&& g_cost.len() == CELLS
    &&& f_cost.len() == CELLS
    &&& came.len() == CELLS
    &&& forall|c: Cell| #[trigger] s.cost.dom().contains(c) ==> is_cell(c)
    &&& forall|c: Cell|
        is_cell(c) ==> #[trigger] g_cost[c as int] == (if s.cost.dom().contains(c) {
            s.cost[c] as u32
        } else {
            u32::MAX
        })
    &&& forall|c: Cell| #[trigger]
        s.cost.dom().contains(c) ==> s.cost[c] <= CELLS && f_cost[c as int] == s.estimate(goal, c)
    &&& forall|c: Cell| #[trigger]
        s.via.dom().contains(c) ==> is_cell(c) && came[c as int] == s.via[c]
}

/// The cheapest cell of the arrays is the pick of the model.
proof fn lemma_cheapest_is_pick(
    s: Search,
    goal: Cell,
    g_cost: Seq<u32>,
    f_cost: Seq<u32>,
    came: Seq<Dir>,
    cur: Cell,
)
    requires
        agrees(s, goal, g_cost, f_cost, came),
        s.frontier().contains(cur),
        forall|o: Cell| #[trigger]
            s.frontier().contains(o) ==> f_cost[cur as int] < f_cost[o as int] || (
            f_cost[cur as int] == f_cost[o as int] && cur <= o),
    ensures
        s.is_pick(goal, cur),
{
    assert(s.cost.dom().contains(cur));
    assert forall|o: Cell| #[trigger] s.frontier().contains(o) implies s.estimate(goal, cur)
        < s.estimate(goal, o) || (s.estimate(goal, cur) == s.estimate(goal, o) && cur <= o) by {
        assert(s.cost.dom().contains(o));
    }
}

/// Every frontier cell has a cost in the arrays.
proof fn lemma_frontier_has_costs(
    s: Search,
    goal: Cell,
    g_cost: Seq<u32>,
    f_cost: Seq<u32>,
    came: Seq<Dir>,
)
    requires
        agrees(s, goal, g_cost, f_cost, came),
        goal < 128,
    ensures
        forall|c: Cell| #[trigger]
            s.frontier().contains(c) ==> is_cell(c) && f_cost[c as int] < u32::MAX,
{
    assert forall|c: Cell| #[trigger] s.frontier().contains(c) implies is_cell(c)
        && f_cost[c as int] < u32::MAX by {
        assert(s.cost.dom().contains(c));
    }
}

/// Expanding `cur` improves `c`, which the first `k` directions lead to.
spec fn improved_by(s: Search, obs: Set<Cell>, cur: Cell, c: Cell, k: int) -> bool {
    s.improves(obs, cur, c) && exists|j: int|
        0 <= j < k && #[trigger] DIRS@[j].target(cur) == Some(c)
}

/// The search while the first `k` directions out of `cur` have been looked at.
spec fn partly_expanded(s: Search, obs: Set<Cell>, cur: Cell, k: int) -> Search {
    Search {
        cost: Map::new(
            |c: Cell| s.cost.dom().contains(c) || improved_by(s, obs, cur, c, k),
            |c: Cell|
                if improved_by(s, obs, cur, c, k) {
                    s.cost[cur] + 1
                } else {
                    s.cost[c]
                },
        ),
        via: Map::new(
            |c: Cell| s.via.dom().contains(c) || improved_by(s, obs, cur, c, k),
            |c: Cell|
                if improved_by(s, obs, cur, c, k) {
                    heading(cur, c)
                } else {
                    s.via[c]
                },
        ),
        closed: s.closed,
    }
}

proof fn lemma_partly_expanded(s: Search, obs: Set<Cell>, cur: Cell, k: int, c: Cell)
    requires
        is_cell(cur),
        0 <= k < 4,
    ensures
        improved_by(s, obs, cur, c, k + 1) <==> improved_by(s, obs, cur, c, k) || (s.improves(
            obs,
            cur,
            c,
        ) && DIRS@[k].target(cur) == Some(c)),
        DIRS@[k].target(cur) == Some(c) ==> !improved_by(s, obs, cur, c, k),
{
    if DIRS@[k].target(cur) == Some(c) {
        lemma_target_heading(cur, DIRS@[k]);
        if improved_by(s, obs, cur, c, k) {
            let j = choose|j: int| 0 <= j < k && #[trigger] DIRS@[j].target(cur) == Some(c);
            lemma_target_heading(cur, DIRS@[j]);
            assert(DIRS@[0] == Dir::Up && DIRS@[1] == Dir::Down && DIRS@[2] == Dir::Left
                && DIRS@[3] == Dir::Right);
        }
    }
    if improved_by(s, obs, cur, c, k) {
        let j = choose|j: int| 0 <= j < k && #[trigger] DIRS@[j].target(cur) == Some(c);
        assert(DIRS@[j].target(cur) == Some(c));
    }
    if improved_by(s, obs, cur, c, k + 1) {
        let j = choose|j: int| 0 <= j < k + 1 && #[trigger] DIRS@[j].target(cur) == Some(c);
        if j < k {
            assert(DIRS@[j].target(cur) == Some(c));
        }
    }
}

proof fn lemma_fully_expanded(s: Search, obs: Set<Cell>, cur: Cell)
    requires
        is_cell(cur),
    ensures
        partly_expanded(Search { closed: s.closed.insert(cur), ..s }, obs, cur, 4) == s.expanded(
            obs,
            cur,
        ),
        partly_expanded(Search { closed: s.closed.insert(cur), ..s }, obs, cur, 0) == (Search {
            closed: s.closed.insert(cur),
            ..s
        }),
{
    let c0 = Search { closed: s.closed.insert(cur), ..s };
    assert forall|c: Cell| improved_by(c0, obs, cur, c, 4) <==> c0.improves(obs, cur, c) by {
        if c0.improves(obs, cur, c) {
            moves_are_adjacency(cur, c);
        }
    }
    assert(partly_expanded(c0, obs, cur, 4) =~= s.expanded(obs, cur));
    assert(partly_expanded(c0, obs, cur, 0) =~= c0);
}

/// Writing the walk through `cur` into the arrays keeps them in step.
proof fn lemma_agrees_update(
    s: Search,
    goal: Cell,
    g_cost: Seq<u32>,
    f_cost: Seq<u32>,
    came: Seq<Dir>,
    c: Cell,
    g: u32,
    d: Dir,
)
    requires
        agrees(s, goal, g_cost, f_cost, came),
        is_cell(c),
        g <= CELLS,
        goal < 128,
    ensures
        agrees(
            Search { cost: s.cost.insert(c, g as nat), via: s.via.insert(c, d), closed: s.closed },
            goal,
            g_cost.update(c as int, g),
            f_cost.update(c as int, (g + gap(c, goal)) as u32),
            came.update(c as int, d),
        ),
{
    let t = Search { cost: s.cost.insert(c, g as nat), via: s.via.insert(c, d), closed: s.closed };
    assert forall|x: Cell| #[trigger] t.cost.dom().contains(x) implies is_cell(x) && t.cost[x]
        <= CELLS && f_cost.update(c as int, (g + gap(c, goal)) as u32)[x as int] == t.estimate(
        goal,
        x,
    ) by {
        if x != c {
            assert(s.cost.dom().contains(x));
        }
    }
    assert forall|x: Cell| #[trigger] t.via.dom().contains(x) implies is_cell(x) && came.update(
        c as int,
        d,
    )[x as int] == t.via[x] by {
        if x != c {
            assert(s.via.dom().contains(x));
        }
    }
}

/// Expands a frontier cell: closes it, and records the walks through it that are
/// a first or a shorter way to a neighbour.
fn expand(
    cur: Cell,
    goal: Cell,
    obs: Bb,
    g_cost: &mut [u32; CELLS],
    f_cost: &mut [u32; CELLS],
    came_from_dir: &mut [Dir; CELLS],
    in_open: &mut Bb,
    closed: &mut Bb,
    Ghost(s): Ghost<Search>,
)
    requires
        is_cell(cur),
        goal < 128,
        s.frontier().contains(cur),
        s.cost[cur] < CELLS,
        agrees(s, goal, old(g_cost)@, old(f_cost)@, old(came_from_dir)@),
        old(in_open)@ == s.frontier(),
        old(closed)@ == s.closed,
    ensures
        agrees(s.expanded(obs@, cur), goal, final(g_cost)@, final(f_cost)@, final(came_from_dir)@),
        final(in_open)@ == s.expanded(obs@, cur).frontier(),
        final(closed)@ == s.expanded(obs@, cur).closed,
{
    let ghost c0 = Search { closed: s.closed.insert(cur), ..s };
    in_open.unset(cur);
    closed.set(cur);
    let g_cur = g_cost[cur as usize];
    proof {
        lemma_fully_expanded(s, obs@, cur);
        assert(in_open@ =~= c0.frontier());
        assert(s.cost.dom().contains(cur));
    }
    let mut k: usize = 0;
    while k < 4
        invariant
            k <= 4,
            is_cell(cur),
            goal < 128,
            c0.closed.contains(cur),
            c0.cost.dom().contains(cur),
            g_cur == c0.cost[cur],
            g_cur < CELLS,
            closed@ == c0.closed,
            agrees(
                partly_expanded(c0, obs@, cur, k as int),
                goal,
                g_cost@,
                f_cost@,
                came_from_dir@,
            ),
            in_open@ == partly_expanded(c0, obs@, cur, k as int).frontier(),
        decreases 4 - k,
    {
        let d = DIRS[k];
        let ghost now = partly_expanded(c0, obs@, cur, k as int);
        let ghost then = partly_expanded(c0, obs@, cur, k + 1);
        proof {
            assert forall|c: Cell|
                #[trigger] improved_by(c0, obs@, cur, c, k + 1) <==> improved_by(
                    c0,
                    obs@,
                    cur,
                    c,
                    k as int,
                ) || (c0.improves(obs@, cur, c) && DIRS@[k as int].target(cur) == Some(c)) by {
                lemma_partly_expanded(c0, obs@, cur, k as int, c);
            }
        }
        let ghost mut changed = false;
        if let Some(nc) = d.step(cur) {
            proof {
                lemma_target_heading(cur, d);
                lemma_partly_expanded(c0, obs@, cur, k as int, nc);
                assert(g_cost@[nc as int] == (if now.cost.dom().contains(nc) {
                    now.cost[nc] as u32
                } else {
                    u32::MAX
                }));
                if c0.cost.dom().contains(nc) {
                    assert(now.cost.dom().contains(nc));
                }
            }
            if !obs.get(nc) && !closed.get(nc) {
                let ng = g_cur + 1;
                if ng < g_cost[nc as usize] {
                    proof {
                        assert(c0.improves(obs@, cur, nc));
                        lemma_agrees_update(
                            now,
                            goal,
                            g_cost@,
                            f_cost@,
                            came_from_dir@,
                            nc,
                            ng,
                            d,
                        );
                        changed = true;
                    }
                    g_cost[nc as usize] = ng;
                    f_cost[nc as usize] = ng + manhattan(nc, goal) as u32;
                    came_from_dir[nc as usize] = d;
                    in_open.set(nc);
                    proof {
                        assert(then.cost =~= now.cost.insert(nc, ng as nat));
                        assert(then.via =~= now.via.insert(nc, d));
                        assert(then == (Search {
                            cost: now.cost.insert(nc, ng as nat),
                            via: now.via.insert(nc, d),
                            closed: now.closed,
                        }));
                        assert(in_open@ =~= then.frontier());
                    }
                } else {
                    assert(!c0.improves(obs@, cur, nc));
                }
            }
        }
        proof {
            if !changed {
                assert forall|c: Cell|
                    improved_by(c0, obs@, cur, c, k + 1) == improved_by(c0, obs@, cur, c, k as int) by {
                    if DIRS@[k as int].target(cur) == Some(c) {
                        assert(!c0.improves(obs@, cur, c));
                    }
                }
                assert(then.cost =~= now.cost);
                assert(then.via =~= now.via);
                assert(then == now);
            }
        }
        k += 1;
    }
}

/// Finds a shortest walk from `start` to `goal` over free cells: its length and
/// the direction of its first move. Nothing where the start is blocked or no
/// walk exists. At the goal already, the distance is 0 and the direction `Up`.
pub fn astar(start: Cell, goal: Cell, obs: Bb) -> (r: Option<(u32, Dir)>)
    requires
        is_cell(start),
        goal < 128,
    ensures
        r is Some <==> reachable(obs@, start, goal),
        r is Some ==> distance_is(obs@, start, goal, (r->0).0 as nat),
        r is Some && start != goal ==> (r->0).0 >= 1 && (r->0).1.target(start) is Some && walk(
            obs@,
            (r->0).1.target(start)->0,
            goal,
            ((r->0).0 - 1) as nat,
        ),
        r is Some && start == goal ==> r->0 == (0u32, Dir::Up),
        r is Some ==> route(start, goal, obs@) == Some(((r->0).0 as nat, (r->0).1)),
        r is None ==> route(start, goal, obs@) is None,
        r is Some ==> (r->0).0 <= CELLS,
{
    if obs.get(start) {
        proof {
            if reachable(obs@, start, goal) {
                let k = choose|k: nat| walk(obs@, start, goal, k);
                lemma_walk_start(obs@, start, goal, k);
            }
        }
        return None;
    }
    if start == goal {
        assert(walk(obs@, start, goal, 0));
        return Some((0, Dir::Up));
    }
    let mut g_cost = [u32::MAX;CELLS];
    let mut came_from_dir = [Dir::Up;CELLS];
    let mut in_open = Bb::default();
    let mut closed = Bb::default();
    g_cost[start as usize] = 0;
    in_open.set(start);
    let mut f_cost = [u32::MAX;CELLS];
    f_cost[start as usize] = manhattan(start, goal) as u32;
    let ghost mut s = Search::from_start(start);
    let ghost mut fuel: nat = 122;
    proof {
        lemma_start_is_sound(obs@, start);
        assert(in_open@ =~= s.frontier());
    }
    loop
        invariant
            is_cell(start),
            goal < 128,
            start != goal,
            !obs@.contains(start),
            s.sound(obs@, start),
            agrees(s, goal, g_cost@, f_cost@, came_from_dir@),
            in_open@ == s.frontier(),
            closed@ == s.closed,
            !s.closed.contains(goal),
            fuel + s.closed.len() == 122,
            s.closed.len() <= 121,
            Search::from_start(start).run(obs@, goal, 122) == s.run(obs@, goal, fuel),
        decreases fuel,
    {
        proof {
            lemma_frontier_has_costs(s, goal, g_cost@, f_cost@, came_from_dir@);
        }
        let cur = match cheapest(in_open, &f_cost) {
            Some(c) => c,
            None => {
                proof {
                    if exists|c: Cell| s.is_pick(goal, c) {
                        let c = choose|c: Cell| s.is_pick(goal, c);
                        assert(s.frontier().contains(c));
                    }
                    if reachable(obs@, start, goal) {
                        let k = choose|k: nat| walk(obs@, start, goal, k);
                        lemma_frontier_leads(s, obs@, start, goal, goal, k);
                    }
                }
                return None;
            },
        };
        proof {
            lemma_cheapest_is_pick(s, goal, g_cost@, f_cost@, came_from_dir@, cur);
            lemma_pick_is_shortest(s, obs@, start, goal, cur);
            let p = choose|c: Cell| s.is_pick(goal, c);
            lemma_pick_is_unique(s, goal, cur, p);
            lemma_closing_makes_room(s, obs@, start, goal, cur);
        }
        if cur == goal {
            let first_dir = trace_back(start, goal, obs, &came_from_dir, Ghost(s));
            return Some((g_cost[goal as usize], first_dir));
        }
        expand(
            cur,
            goal,
            obs,
            &mut g_cost,
            &mut f_cost,
            &mut came_from_dir,
            &mut in_open,
            &mut closed,
            Ghost(s),
        );
        proof {
            lemma_expanded_is_sound(s, obs@, start, goal, cur);
            s = s.expanded(obs@, cur);
            fuel = (fuel - 1) as nat;
        }
    }
}

/// Follows the walk to the goal back to its first move.
fn trace_back(
    start: Cell,
    goal: Cell,
    obs: Bb,
    came: &[Dir; CELLS],
    Ghost(s): Ghost<Search>,
) -> (first: Dir)
    requires
        s.sound(obs@, start),
        s.cost.dom().contains(goal),
        goal != start,
        is_cell(start),
        forall|c: Cell| #[trigger] s.via.dom().contains(c) ==> came@[c as int] == s.via[c],
    ensures
        first == s.first_move(start, goal, s.cost[goal]),
        s.cost[goal] >= 1,
        first.target(start) is Some,
        walk(obs@, first.target(start)->0, goal, (s.cost[goal] - 1) as nat),
{
    let mut c = goal;
    proof {
        reveal(Search::sound);
        assert(walk(obs@, start, goal, s.cost[goal]));
        assert(walk(obs@, goal, goal, 0));
    }
    loop
        invariant
            s.sound(obs@, start),
            is_cell(start),
            s.cost.dom().contains(goal),
            s.cost.dom().contains(c),
            c != start,
            forall|c: Cell| #[trigger] s.via.dom().contains(c) ==> came@[c as int] == s.via[c],
            s.cost[c] <= s.cost[goal],
            walk(obs@, c, goal, (s.cost[goal] - s.cost[c]) as nat),
            s.first_move(start, goal, s.cost[goal]) == s.first_move(start, c, s.cost[c]),
        decreases s.cost[c],
    {
        proof {
            reveal(Search::sound);
            assert(walk(obs@, start, c, s.cost[c]));
            assert(open_cell(obs@, c));
        }
        let prev = came[c as usize];
        let ghost p = before(s.via[c], c);
        proof {
            assert(s.closed.contains(p));
            assert(s.cost.dom().contains(p));
            assert(walk(obs@, start, p, s.cost[p]));
            assert(is_cell(p));
        }
        let parent = reverse_step(prev, c);
        assert(prev.target(p) == Some(c));
        assert(parent == p);
        if parent == start {
            return prev;
        }
        proof {
            lemma_target_heading(p, prev);
            lemma_walk_prepend(obs@, p, c, goal, (s.cost[goal] - s.cost[c]) as nat);
        }
        c = parent;
    }
}

/// A frontier that is not empty has a pick.
proof fn lemma_pick_exists(s: Search, goal: Cell, n: Cell)
    requires
        s.frontier().contains(n),
    ensures
        exists|c: Cell| s.is_pick(goal, c),
    decreases s.estimate(goal, n) * 256 + n,
{
    if !s.is_pick(goal, n) {
        let o = choose|o: Cell| #[trigger]
            s.frontier().contains(o) && !(s.estimate(goal, n) < s.estimate(goal, o) || (s.estimate(
                goal,
                n,
            ) == s.estimate(goal, o) && n <= o));
        lemma_pick_exists(s, goal, o);
    }
}

/// A search ends with a sound search that is about to expand the goal, or the
/// goal cannot be reached.
proof fn lemma_run(s: Search, obs: Set<Cell>, start: Cell, goal: Cell, fuel: nat)
    requires
        s.sound(obs, start),
        !s.closed.contains(goal),
        fuel + s.closed.len() == 122,
        s.closed.len() <= 121,
    ensures
        match s.run(obs, goal, fuel) {
            Some(t) => t.sound(obs, start) && t.is_pick(goal, goal),
            None => !reachable(obs, start, goal),
        },
    decreases fuel,
{
    if exists|c: Cell| s.is_pick(goal, c) {
        let cur = choose|c: Cell| s.is_pick(goal, c);
        if cur != goal {
            lemma_closing_makes_room(s, obs, start, goal, cur);
            lemma_expanded_is_sound(s, obs, start, goal, cur);
            lemma_run(s.expanded(obs, cur), obs, start, goal, (fuel - 1) as nat);
        }
    } else if reachable(obs, start, goal) {
        let k = choose|k: nat| walk(obs, start, goal, k);
        lemma_frontier_leads(s, obs, start, goal, goal, k);
        let n = choose|n: Cell| #[trigger]
            s.frontier().contains(n) && s.estimate(goal, n) <= k + gap(goal, goal);
        lemma_pick_exists(s, goal, n);
    }
}

/// The first move of a walk that a search has found is the start of such a walk.
proof fn lemma_first_move(s: Search, obs: Set<Cell>, start: Cell, c: Cell)
    requires
        s.sound(obs, start),
        s.cost.dom().contains(c),
        c != start,
    ensures
        s.cost[c] >= 1,
        s.first_move(start, c, s.cost[c]).target(start) is Some,
        walk(
            obs,
            s.first_move(start, c, s.cost[c]).target(start)->0,
            c,
            (s.cost[c] - 1) as nat,
        ),
    decreases s.cost[c],
{
    reveal(Search::sound);
    let p = before(s.via[c], c);
    assert(s.closed.contains(p));
    assert(s.cost.dom().contains(p));
    assert(walk(obs, start, c, s.cost[c]));
    assert(walk(obs, start, p, s.cost[p]));
    if p == start {
        assert(walk(obs, c, c, 0));
    } else {
        lemma_first_move(s, obs, start, p);
        lemma_target_heading(p, s.via[c]);
        lemma_walk_append(
            obs,
            s.first_move(start, p, s.cost[p]).target(start)->0,
            p,
            c,
            (s.cost[p] - 1) as nat,
        );
    }
}

/// A route exists exactly where the goal can be reached. It has the length of a
/// shortest walk, which is less than the number of cells, and its first move leads
/// to an open cell that is one move closer to the goal.
pub proof fn routes_are_shortest(start: Cell, goal: Cell, obs: Set<Cell>)
    requires
        is_cell(start),
    ensures
        route(start, goal, obs) is Some <==> reachable(obs, start, goal),
        route(start, goal, obs) is Some ==> distance_is(
            obs,
            start,
            goal,
            (route(start, goal, obs)->0).0,
        ) && (route(start, goal, obs)->0).0 < CELLS,
        route(start, goal, obs) is Some && start != goal ==> {
            let (d, dir) = route(start, goal, obs)->0;
            d >= 1 && dir.target(start) is Some && open_cell(obs, dir.target(start)->0)
                && distance_is(obs, dir.target(start)->0, goal, (d - 1) as nat)
        },
{
    if obs.contains(start) {
        if reachable(obs, start, goal) {
            let k = choose|k: nat| walk(obs, start, goal, k);
            lemma_walk_start(obs, start, goal, k);
        }
    } else if start == goal {
        assert(walk(obs, start, goal, 0));
    } else {
        let s0 = Search::from_start(start);
        lemma_start_is_sound(obs, start);
        lemma_run(s0, obs, start, goal, 122);
        if let Some(s) = s0.run(obs, goal, 122) {
            lemma_pick_is_shortest(s, obs, start, goal, goal);
            assert(s.frontier().contains(goal));
            lemma_closing_makes_room(s, obs, start, goal, goal);
            lemma_first_move(s, obs, start, goal);
            let d = s.cost[goal];
            let dir = s.first_move(start, goal, d);
            let p = dir.target(start)->0;
            lemma_target_heading(start, dir);
            lemma_walk_start(obs, p, goal, (d - 1) as nat);
            assert forall|j: nat| #[trigger] walk(obs, p, goal, j) implies d - 1 <= j by {
                lemma_walk_prepend(obs, start, p, goal, j);
            }
        }
    }
}

/// `f` is the food with the shortest route, the lowest cell among equals.
pub open spec fn is_nearest(head: Cell, food: Set<Cell>, obs: Set<Cell>, f: Cell) -> bool {
    &&& food.contains(f)
    &&& route(head, f, obs) is Some
    &&& forall|g: Cell| #[trigger]
        food.contains(g) && route(head, g, obs) is Some ==> (route(head, f, obs)->0).0 < (route(
            head,
            g,
            obs,
        )->0).0 || ((route(head, f, obs)->0).0 == (route(head, g, obs)->0).0 && f <= g)
}

/// The route to the nearest food, if any food can be reached.
pub open spec fn nearest(head: Cell, food: Set<Cell>, obs: Set<Cell>) -> Option<(nat, Dir)> {
    if exists|f: Cell| is_nearest(head, food, obs, f) {
        route(head, choose|f: Cell| is_nearest(head, food, obs, f), obs)
    } else {
        None
    }
}

/// There is at most one nearest food.
proof fn lemma_nearest_is(head: Cell, food: Set<Cell>, obs: Set<Cell>, f: Cell)
    requires
        is_nearest(head, food, obs, f),
    ensures
        nearest(head, food, obs) == route(head, f, obs),
{
    let g = choose|f: Cell| is_nearest(head, food, obs, f);
    assert(is_nearest(head, food, obs, g));
    assert(food.contains(f) && food.contains(g));
    assert(f == g);
}

/// The distance to the nearest reachable food and the first move towards it.
pub fn nearest_food(head: Cell, food: Bb, obs: Bb) -> (best: Option<(u32, Dir)>)
    requires
        is_cell(head),
    ensures
        best is Some <==> exists|f: Cell| #[trigger]
            food@.contains(f) && reachable(obs@, head, f),
        best is Some ==> nearest(head, food@, obs@) == Some(((best->0).0 as nat, (best->0).1)),
        best is None ==> nearest(head, food@, obs@) is None,
        best is Some ==> (best->0).0 <= CELLS,
{
    let mut best: Option<(u32, Dir)> = None;
    let mut it = food.iter();
    let ghost all = it@;
    let ghost mut done: int = 0;
    let ghost mut at: int = 0;
    proof {
        food.lemma_view();
        lemma_cells_of(food@);
    }
    loop
        invariant
            is_cell(head),
            fits_board(food@),
            all == cells_of(food@),
            0 <= done <= all.len(),
            it@ == all.skip(done),
            best is None ==> forall|j: int|
                0 <= j < done ==> route(head, #[trigger] all[j], obs@) is None,
            best is Some ==> {
                &&& 0 <= at < done
                &&& route(head, all[at], obs@) == Some(((best->0).0 as nat, (best->0).1))
                &&& forall|j: int|
                    0 <= j < done && route(head, #[trigger] all[j], obs@) is Some ==> (best->0).0 < (
                    route(head, all[j], obs@)->0).0 || ((best->0).0 == (route(
                        head,
                        all[j],
                        obs@,
                    )->0).0 && at <= j)
                &&& (best->0).0 <= CELLS
            },
        ensures
            done == all.len(),
        decreases all.len() - done,
    {
        proof {
            lemma_cells_of(food@);
        }
        match it.next() {
            Some(f) => {
                proof {
                    assert(f == all[done]);
                    assert(it@ =~= all.skip(done + 1));
                }
                if let Some((dist, dir)) = astar(head, f, obs) {
                    let closer = match best {
                        None => true,
                        Some((d, _)) => dist < d,
                    };
                    if closer {
                        best = Some((dist, dir));
                        proof {
                            at = done;
                        }
                    }
                }
                proof {
                    done = done + 1;
                }
            },
            None => {
                break;
            },
        }
    }
    proof {
        if best is Some {
            let f = all[at];
            assert(food@.contains(f));
            assert forall|g: Cell| #[trigger]
                food@.contains(g) && route(head, g, obs@) is Some implies (route(
                head,
                f,
                obs@,
            )->0).0 < (route(head, g, obs@)->0).0 || ((route(head, f, obs@)->0).0 == (route(
                head,
                g,
                obs@,
            )->0).0 && f <= g) by {
                assert(all.contains(g));
                let j = choose|j: int| 0 <= j < all.len() && all[j] == g;
                if at < j {
                    assert(all[at] < all[j]);
                }
            }
            assert(is_nearest(head, food@, obs@, f));
            lemma_nearest_is(head, food@, obs@, f);
            routes_are_shortest(head, f, obs@);
        } else {
            assert forall|f: Cell| #[trigger] food@.contains(f) implies !reachable(
                obs@,
                head,
                f,
            ) && route(head, f, obs@) is None by {
                assert(all.contains(f));
                let j = choose|j: int| 0 <= j < all.len() && all[j] == f;
                assert(route(head, all[j], obs@) is None);
                routes_are_shortest(head, f, obs@);
            }
        }
    }
    best
}

/// The nearest food is at least as near as any other food, by any walk.
pub proof fn nearest_is_nearest(head: Cell, food: Set<Cell>, obs: Set<Cell>, f: Cell, k: nat)
    requires
        is_cell(head),
        nearest(head, food, obs) is Some,
        food.contains(f),
        walk(obs, head, f, k),
    ensures
        (nearest(head, food, obs)->0).0 <= k,
{
    assert(exists|f: Cell| is_nearest(head, food, obs, f));
    routes_are_shortest(head, f, obs);
    assert(food.contains(f));
}

/// The nearest food is food at the distance given, and the first move leads one
/// move closer to it.
pub proof fn the_way_to_food_leads_to_food(head: Cell, food: Set<Cell>, obs: Set<Cell>) -> (f: Cell)
    requires
        is_cell(head),
        nearest(head, food, obs) is Some,
    ensures
        food.contains(f),
        distance_is(obs, head, f, (nearest(head, food, obs)->0).0),
        (nearest(head, food, obs)->0).0 < CELLS,
        head != f ==> {
            let (d, dir) = nearest(head, food, obs)->0;
            d >= 1 && dir.target(head) is Some && open_cell(obs, dir.target(head)->0)
                && distance_is(obs, dir.target(head)->0, f, (d - 1) as nat)
        },
{
    let f = choose|f: Cell| is_nearest(head, food, obs, f);
    assert(exists|f: Cell| is_nearest(head, food, obs, f));
    routes_are_shortest(head, f, obs);
    f
}

/// Where a way leads to some food, a nearest one is found.
pub proof fn food_within_reach_is_found(
    head: Cell,
    food: Set<Cell>,
    obs: Set<Cell>,
    g: Cell,
    k: nat,
)
    requires
        is_cell(head),
        food.contains(g),
        walk(obs, head, g, k),
    ensures
        nearest(head, food, obs) is Some,
{
    routes_are_shortest(head, g, obs);
    assert(reachable(obs, head, g));
    lemma_some_food_is_nearest(head, food, obs, g);
}

proof fn lemma_some_food_is_nearest(head: Cell, food: Set<Cell>, obs: Set<Cell>, g: Cell)
    requires
        food.contains(g),
        route(head, g, obs) is Some,
    ensures
        exists|f: Cell| is_nearest(head, food, obs, f),
        nearest(head, food, obs) is Some,
    decreases (route(head, g, obs)->0).0 * 256 + g,
{
    if is_nearest(head, food, obs, g) {
        lemma_nearest_is(head, food, obs, g);
    } else {
        let o = choose|o: Cell| #[trigger]
            food.contains(o) && route(head, o, obs) is Some && !((route(head, g, obs)->0).0 < (
            route(head, o, obs)->0).0 || ((route(head, g, obs)->0).0 == (route(
                head,
                o,
                obs,
            )->0).0 && g <= o));
        lemma_some_food_is_nearest(head, food, obs, o);
    }
}

/// Of food at the same distance, the lowest cell is headed for.
pub proof fn the_lowest_of_the_nearest_is_taken(
    head: Cell,
    food: Set<Cell>,
    obs: Set<Cell>,
    f: Cell,
    k: nat,
)
    requires
        is_cell(head),
        food.contains(f),
        distance_is(obs, head, f, k),
        forall|g: Cell, m: nat|
            food.contains(g) && #[trigger] walk(obs, head, g, m) ==> k < m || (k == m && f <= g),
    ensures
        nearest(head, food, obs) == route(head, f, obs),
{
    routes_are_shortest(head, f, obs);
    assert(reachable(obs, head, f));
    assert forall|g: Cell| #[trigger]
        food.contains(g) && route(head, g, obs) is Some implies (route(head, f, obs)->0).0 < (route(
        head,
        g,
        obs,
    )->0).0 || ((route(head, f, obs)->0).0 == (route(head, g, obs)->0).0 && f <= g) by {
        routes_are_shortest(head, g, obs);
        assert(walk(obs, head, g, (route(head, g, obs)->0).0));
        assert(walk(obs, head, f, (route(head, f, obs)->0).0));
    }
    assert(is_nearest(head, food, obs, f));
    lemma_nearest_is(head, food, obs, f);
}

/// A search expands the cell that promises the shortest way, by the moves made and
/// the Manhattan distance left, and the lowest one among equals. It ends where that
/// is the goal, or where no cell is left.
pub proof fn searches_expand_the_most_promising_cell(
    s: Search,
    obs: Set<Cell>,
    goal: Cell,
    fuel: nat,
    c: Cell,
)
    requires
        fuel > 0,
        s.cost.dom().contains(c),
        !s.closed.contains(c),
        forall|o: Cell| #[trigger]
            s.cost.dom().contains(o) && !s.closed.contains(o) ==> s.cost[c] + gap(c, goal)
                < s.cost[o] + gap(o, goal) || (s.cost[c] + gap(c, goal) == s.cost[o] + gap(o, goal)
                && c <= o),
    ensures
        c == goal ==> s.run(obs, goal, fuel) == Some(s),
        c != goal ==> s.run(obs, goal, fuel) == s.expanded(obs, c).run(
            obs,
            goal,
            (fuel - 1) as nat,
        ),
{
    assert(s.is_pick(goal, c)) by {
        assert forall|o: Cell| #[trigger] s.frontier().contains(o) implies s.estimate(goal, c)
            < s.estimate(goal, o) || (s.estimate(goal, c) == s.estimate(goal, o) && c <= o) by {
            assert(s.cost.dom().contains(o));
        }
    }
    let cur = choose|x: Cell| s.is_pick(goal, x);
    lemma_pick_is_unique(s, goal, c, cur);
}

/// Expanding a cell closes it and looks at its open neighbours: one that was not
/// found before, or only by a longer way, is now reached through the cell, in the
/// direction that leads there. A way that is no shorter replaces nothing, and
/// nothing else changes.
pub proof fn expanding_records_first_and_shorter_ways(s: Search, obs: Set<Cell>, cur: Cell, c: Cell)
    ensures
        ({
            let t = s.expanded(obs, cur);
            let near = adjacent(cur, c) && !obs.contains(c) && !s.closed.contains(c) && c != cur;
            let better = !s.cost.dom().contains(c) || s.cost[cur] + 1 < s.cost[c];
            &&& t.closed == s.closed.insert(cur)
            &&& near && better ==> t.cost.dom().contains(c) && t.cost[c] == s.cost[cur] + 1
                && t.via.dom().contains(c) && t.via[c].target(cur) == Some(c)
            &&& !(near && better) ==> t.cost.dom().contains(c) == s.cost.dom().contains(c)
                && t.via.dom().contains(c) == s.via.dom().contains(c)
            &&& !(near && better) && s.cost.dom().contains(c) ==> t.cost[c] == s.cost[c]
            &&& !(near && better) && s.via.dom().contains(c) ==> t.via[c] == s.via[c]
        }),
{
    if adjacent(cur, c) {
        lemma_heading(cur, c);
    }
}

} // verus!
