//! Walks over the free cells of the board: reachability, distance, regions.
use vstd::prelude::*;

use crate::bitboard::lemma_board_set_is_small;
use crate::grid::{
    adjacent, cell_encoding_is_injective, code, col, coordinates_give_the_cell, gap, is_cell, row,
    Cell, CELLS,
};

verus! {

/// A board cell that is not an obstacle.
pub open spec fn open_cell(obs: Set<Cell>, c: Cell) -> bool {
    is_cell(c) && !obs.contains(c)
}

/// A walk of `k` moves leads from `a` to `b` over open cells, both ends included.
pub open spec fn walk(obs: Set<Cell>, a: Cell, b: Cell, k: nat) -> bool
    decreases k,
{
    &&& open_cell(obs, b)
    &&& if k == 0 {
        a == b
    } else {
        exists|p: Cell| #[trigger] adjacent(p, b) && walk(obs, a, p, (k - 1) as nat)
    }
}

/// Some walk leads from `a` to `b`.
pub open spec fn reachable(obs: Set<Cell>, a: Cell, b: Cell) -> bool {
    exists|k: nat| walk(obs, a, b, k)
}

/// The shortest walk from `a` to `b` has `k` moves.
pub open spec fn distance_is(obs: Set<Cell>, a: Cell, b: Cell, k: nat) -> bool {
    walk(obs, a, b, k) && forall|j: nat| #[trigger] walk(obs, a, b, j) ==> k <= j
}

/// The cells that can be reached from `a`.
pub open spec fn region(obs: Set<Cell>, a: Cell) -> Set<Cell> {
    Set::new(|c: Cell| reachable(obs, a, c))
}

/// A walk starts on an open cell.
pub proof fn lemma_walk_start(obs: Set<Cell>, a: Cell, b: Cell, k: nat)
    requires
        walk(obs, a, b, k),
    ensures
        open_cell(obs, a),
    decreases k,
{
    if k > 0 {
        let p = choose|p: Cell| #[trigger] adjacent(p, b) && walk(obs, a, p, (k - 1) as nat);
        lemma_walk_start(obs, a, p, (k - 1) as nat);
    }
}

/// A move appended to a walk.
pub proof fn lemma_walk_append(obs: Set<Cell>, a: Cell, b: Cell, c: Cell, k: nat)
    requires
        walk(obs, a, b, k),
        adjacent(b, c),
        open_cell(obs, c),
    ensures
        walk(obs, a, c, k + 1),
{
    assert(walk(obs, a, b, ((k + 1) - 1) as nat));
}

/// Two walks joined.
pub proof fn lemma_walk_join(obs: Set<Cell>, a: Cell, b: Cell, c: Cell, j: nat, k: nat)
    requires
        walk(obs, a, b, j),
        walk(obs, b, c, k),
    ensures
        walk(obs, a, c, j + k),
    decreases k,
{
    if k > 0 {
        let p = choose|p: Cell| #[trigger] adjacent(p, c) && walk(obs, b, p, (k - 1) as nat);
        lemma_walk_join(obs, a, b, p, j, (k - 1) as nat);
        lemma_walk_append(obs, a, p, c, (j + k - 1) as nat);
    }
}

/// A move put in front of a walk.
pub proof fn lemma_walk_prepend(obs: Set<Cell>, a: Cell, b: Cell, c: Cell, k: nat)
    requires
        open_cell(obs, a),
        adjacent(a, b),
        walk(obs, b, c, k),
    ensures
        walk(obs, a, c, k + 1),
{
    lemma_walk_start(obs, b, c, k);
    assert(walk(obs, a, a, 0));
    lemma_walk_append(obs, a, a, b, 0);
    lemma_walk_join(obs, a, b, c, 1, k);
}

/// A walk read backwards.
pub proof fn lemma_walk_reverse(obs: Set<Cell>, a: Cell, b: Cell, k: nat)
    requires
        walk(obs, a, b, k),
    ensures
        walk(obs, b, a, k),
    decreases k,
{
    if k > 0 {
        let p = choose|p: Cell| #[trigger] adjacent(p, b) && walk(obs, a, p, (k - 1) as nat);
        lemma_walk_reverse(obs, a, p, (k - 1) as nat);
        lemma_walk_prepend(obs, b, p, a, (k - 1) as nat);
    }
}

/// A region is a set of open board cells.
pub proof fn lemma_region(obs: Set<Cell>, a: Cell)
    ensures
        forall|c: Cell| region(obs, a).contains(c) ==> open_cell(obs, c),
        region(obs, a).finite(),
        region(obs, a).len() <= CELLS,
        !open_cell(obs, a) ==> region(obs, a) == Set::<Cell>::empty(),
        open_cell(obs, a) ==> region(obs, a).contains(a),
{
    assert forall|c: Cell| region(obs, a).contains(c) implies open_cell(obs, c) && open_cell(
        obs,
        a,
    ) by {
        let k = choose|k: nat| walk(obs, a, c, k);
        lemma_walk_start(obs, a, c, k);
    }
    lemma_board_set_is_small(region(obs, a), 121);
    if open_cell(obs, a) {
        assert(walk(obs, a, a, 0));
    } else {
        assert(region(obs, a) =~= Set::empty());
    }
}

/// No walk is shorter than the Manhattan distance of its ends.
pub proof fn walks_are_no_shorter_than_the_gap(obs: Set<Cell>, a: Cell, b: Cell, k: nat)
    requires
        walk(obs, a, b, k),
    ensures
        gap(a, b) <= k,
    decreases k,
{
    if k > 0 {
        let p = choose|p: Cell| #[trigger] adjacent(p, b) && walk(obs, a, p, (k - 1) as nat);
        walks_are_no_shorter_than_the_gap(obs, a, p, (k - 1) as nat);
    }
}

/// Next to every other cell there is one that is closer to `a`.
proof fn lemma_closer_neighbour(a: Cell, b: Cell) -> (p: Cell)
    requires
        is_cell(a),
        is_cell(b),
        a != b,
    ensures
        adjacent(p, b),
        gap(a, p) == gap(a, b) - 1,
{
    let x = if col(b) > col(a) {
        col(b) - 1
    } else if col(b) < col(a) {
        col(b) + 1
    } else {
        col(b)
    };
    let y = if x != col(b) {
        row(b)
    } else if row(b) > row(a) {
        row(b) - 1
    } else {
        row(b) + 1
    };
    coordinates_give_the_cell(a);
    coordinates_give_the_cell(b);
    cell_encoding_is_injective(x, y, x, y);
    code(x, y) as Cell
}

proof fn lemma_straight_walk(a: Cell, b: Cell)
    requires
        is_cell(a),
        is_cell(b),
    ensures
        walk(Set::empty(), a, b, gap(a, b) as nat),
    decreases gap(a, b),
{
    if a != b {
        let p = lemma_closer_neighbour(a, b);
        lemma_straight_walk(a, p);
        lemma_walk_append(Set::empty(), a, p, b, gap(a, p) as nat);
    }
}

/// Without obstacles, the distance of two cells is their Manhattan distance.
pub proof fn open_boards_have_straight_walks(a: Cell, b: Cell)
    requires
        is_cell(a),
        is_cell(b),
    ensures
        distance_is(Set::empty(), a, b, gap(a, b) as nat),
{
    lemma_straight_walk(a, b);
    assert forall|j: nat| #[trigger] walk(Set::empty(), a, b, j) implies gap(a, b) <= j by {
        walks_are_no_shorter_than_the_gap(Set::empty(), a, b, j);
    }
}

proof fn lemma_first_cells(n: nat)
    requires
        n <= 128,
    ensures
        Set::new(|c: Cell| c < n).len() == n,
        Set::new(|c: Cell| c < n).finite(),
    decreases n,
{
    if n == 0 {
        assert(Set::new(|c: Cell| c < n) =~= Set::empty());
    } else {
        lemma_first_cells((n - 1) as nat);
        assert(Set::new(|c: Cell| c < n) =~= Set::new(|c: Cell| c < n - 1).insert(
            (n - 1) as Cell,
        ));
    }
}

/// Without obstacles, every cell gives access to the whole board.
pub proof fn open_boards_are_one_region(a: Cell)
    requires
        is_cell(a),
    ensures
        region(Set::empty(), a).len() == CELLS,
{
    assert forall|c: Cell| region(Set::empty(), a).contains(c) <==> c < 121 by {
        if c < 121 {
            lemma_straight_walk(a, c);
        }
    }
    assert(region(Set::empty(), a) =~= Set::new(|c: Cell| c < 121));
    lemma_first_cells(121);
}

/// Every cell of a region has the same region: each of two cells reaches the
/// other, and both reach the same cells.
pub proof fn regions_are_shared(obs: Set<Cell>, a: Cell, b: Cell)
    requires
        region(obs, a).contains(b),
    ensures
        region(obs, b) == region(obs, a),
{
    let j = choose|j: nat| walk(obs, a, b, j);
    lemma_walk_reverse(obs, a, b, j);
    assert forall|c: Cell| region(obs, a).contains(c) <==> region(obs, b).contains(c) by {
        if reachable(obs, a, c) {
            let k = choose|k: nat| walk(obs, a, c, k);
            lemma_walk_join(obs, b, a, c, j, k);
        }
        if reachable(obs, b, c) {
            let k = choose|k: nat| walk(obs, b, c, k);
            lemma_walk_join(obs, a, b, c, j, k);
        }
    }
    assert(region(obs, b) =~= region(obs, a));
}

proof fn lemma_walk_fewer_obstacles(
    obs: Set<Cell>,
    more: Set<Cell>,
    a: Cell,
    b: Cell,
    k: nat,
)
    requires
        obs.subset_of(more),
        walk(more, a, b, k),
    ensures
        walk(obs, a, b, k),
    decreases k,
{
    if k > 0 {
        let p = choose|p: Cell| #[trigger] adjacent(p, b) && walk(more, a, p, (k - 1) as nat);
        lemma_walk_fewer_obstacles(obs, more, a, p, (k - 1) as nat);
    }
}

/// More obstacles never open up more space.
pub proof fn regions_shrink_with_obstacles(obs: Set<Cell>, more: Set<Cell>, a: Cell)
    requires
        obs.subset_of(more),
    ensures
        region(more, a).subset_of(region(obs, a)),
        region(more, a).len() <= region(obs, a).len(),
{
    assert forall|c: Cell| region(more, a).contains(c) implies region(obs, a).contains(c) by {
        let k = choose|k: nat| walk(more, a, c, k);
        lemma_walk_fewer_obstacles(obs, more, a, c, k);
    }
    lemma_region(obs, a);
    vstd::set_lib::lemma_len_subset(region(more, a), region(obs, a));
}

/// A region is the least set that holds its start and every open neighbour of its
/// cells.
pub proof fn regions_are_least_closed_sets(obs: Set<Cell>, a: Cell, all: Set<Cell>)
    requires
        is_cell(a),
        !obs.contains(a),
        all.contains(a),
        forall|p: Cell, c: Cell|
            all.contains(p) && #[trigger] adjacent(p, c) && !obs.contains(c) ==> all.contains(c),
    ensures
        region(obs, a).contains(a),
        forall|p: Cell, c: Cell|
            region(obs, a).contains(p) && #[trigger] adjacent(p, c) && !obs.contains(c) ==> region(
                obs,
                a,
            ).contains(c),
        region(obs, a).subset_of(all),
        region(obs, a).disjoint(obs),
{
    assert(walk(obs, a, a, 0));
    assert forall|p: Cell, c: Cell|
        region(obs, a).contains(p) && #[trigger] adjacent(p, c) && !obs.contains(c) implies region(
        obs,
        a,
    ).contains(c) by {
        let k = choose|k: nat| walk(obs, a, p, k);
        lemma_walk_append(obs, a, p, c, k);
    }
    assert forall|c: Cell| region(obs, a).contains(c) implies all.contains(c) && !obs.contains(
        c,
    ) by {
        let k = choose|k: nat| walk(obs, a, c, k);
        lemma_walk_stays_in(obs, a, c, k, all);
    }
}

proof fn lemma_walk_stays_in(obs: Set<Cell>, a: Cell, c: Cell, k: nat, all: Set<Cell>)
    requires
        all.contains(a),
        forall|p: Cell, c: Cell|
            all.contains(p) && #[trigger] adjacent(p, c) && !obs.contains(c) ==> all.contains(c),
        walk(obs, a, c, k),
    ensures
        all.contains(c),
    decreases k,
{
    if k > 0 {
        let p = choose|p: Cell| #[trigger] adjacent(p, c) && walk(obs, a, p, (k - 1) as nat);
        lemma_walk_stays_in(obs, a, p, (k - 1) as nat, all);
    }
}

} // verus!
