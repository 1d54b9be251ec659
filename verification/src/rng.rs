//! A small xorshift generator, and where it puts new food.
use vstd::prelude::*;

use crate::grid::{cell, code, is_cell, Cell, H, W};
use crate::state::{every_segment_is_covered, State, StateModel};

verus! {

/// The state of the generator after one more number, which is that number.
pub open spec fn xorshift(x: u64) -> u64 {
    let a = x ^ (x << 13);
    let b = a ^ (a >> 7);
    b ^ (b << 17)
}

/// A pseudo-random number generator.
pub struct SimpleRng(u64);

impl SimpleRng {
    /// The state of the generator.
    pub closed spec fn view(self) -> u64 {
        self.0
    }

    /// A generator that starts from `seed`.
    pub fn new(seed: u64) -> (r: Self)
        ensures
            r@ == seed,
    {
        SimpleRng(seed)
    }

    /// The next number.
    pub fn next(&mut self) -> (n: u64)
        ensures
            n == xorshift(old(self)@),
            final(self)@ == n,
    {
        self.0 = self.0 ^ (self.0 << 13);
        self.0 = self.0 ^ (self.0 >> 7);
        self.0 = self.0 ^ (self.0 << 17);
        self.0
    }
}

/// The generator never gets stuck at 0 unless it starts there, and different
/// states lead to different states.
pub proof fn xorshift_is_one_to_one(x: u64, y: u64)
    ensures
        x != 0 ==> xorshift(x) != 0,
        xorshift(x) == xorshift(y) ==> x == y,
{
    let a = x ^ (x << 13);
    let c = y ^ (y << 13);
    assert(a == c ==> x == y) by (bit_vector)
        requires
            a == x ^ (x << 13),
            c == y ^ (y << 13),
    ;
    let b = a ^ (a >> 7);
    let d = c ^ (c >> 7);
    assert(b == d ==> a == c) by (bit_vector)
        requires
            b == a ^ (a >> 7),
            d == c ^ (c >> 7),
    ;
    assert(b ^ (b << 17) == d ^ (d << 17) ==> b == d) by (bit_vector);
    assert(x != 0 ==> a != 0) by (bit_vector)
        requires
            a == x ^ (x << 13),
    ;
    assert(a != 0 ==> b != 0) by (bit_vector)
        requires
            b == a ^ (a >> 7),
    ;
    assert(b != 0 ==> b ^ (b << 17) != 0) by (bit_vector);
}

/// The cells on which no food can appear: those with a body or with food.
pub open spec fn taken(s: StateModel) -> Set<Cell> {
    s.covered().union(s.food)
}

/// The cell that two successive numbers point at: a column and a row.
pub open spec fn spot(x: u64, y: u64) -> Cell {
    code(x as int % 11, y as int % 11) as Cell
}

/// Up to `tries` random cells, until one is not taken: that cell, and the state
/// of the generator after it.
pub open spec fn first_free_spot(taken: Set<Cell>, x: u64, tries: nat) -> (Option<Cell>, u64)
    decreases tries,
{
    let a = xorshift(x);
    let b = xorshift(a);
    if tries == 0 {
        (None, x)
    } else if !taken.contains(spot(a, b)) {
        (Some(spot(a, b)), b)
    } else {
        first_free_spot(taken, b, (tries - 1) as nat)
    }
}

/// A random free cell for new food: at most 500 cells are tried.
pub open spec fn spawned(s: StateModel, x: u64) -> (Option<Cell>, u64) {
    first_free_spot(taken(s), x, 500)
}

/// A random free cell for new food, or `None` where 500 tries found only taken
/// cells.
pub fn spawn_food(state: &State, rng: &mut SimpleRng) -> (r: Option<Cell>)
    requires
        state.wf(),
    ensures
        (r, final(rng)@) == spawned(state@, old(rng)@),
        r is Some ==> is_cell(r->0) && !state@.covered().contains(r->0) && !state@.food.contains(
            r->0,
        ),
{
    let occupied = state.all_bodies().or(state.food);
    let ghost whole = spawned(state@, rng@);
    let mut tries: u32 = 500;
    while tries > 0
        invariant
            tries <= 500,
            occupied@ == taken(state@),
            whole == spawned(state@, old(rng)@),
            whole == first_free_spot(occupied@, rng@, tries as nat),
        decreases tries,
    {
        let x: i8 = (rng.next() % W as u64) as i8;
        let y: i8 = (rng.next() % H as u64) as i8;
        let c = cell(x, y);
        if !occupied.get(c) {
            return Some(c);
        }
        tries -= 1;
    }
    None
}

proof fn lemma_free_spot(taken: Set<Cell>, x: u64, tries: nat)
    ensures
        first_free_spot(taken, x, tries).0 is Some ==> is_cell(
            first_free_spot(taken, x, tries).0->0,
        ) && !taken.contains(first_free_spot(taken, x, tries).0->0),
    decreases tries,
{
    if tries > 0 {
        lemma_free_spot(taken, xorshift(xorshift(x)), (tries - 1) as nat);
    }
}

/// New food appears on the board, on no body and on no other food.
pub proof fn food_appears_on_free_cells(s: StateModel, x: u64)
    ensures
        spawned(s, x).0 is Some ==> is_cell(spawned(s, x).0->0) && !s.covered().contains(
            spawned(s, x).0->0,
        ) && !s.food.contains(spawned(s, x).0->0),
{
    lemma_free_spot(taken(s), x, 500);
}

/// The `n`th number after `x`.
pub open spec fn drawn(x: u64, n: nat) -> u64
    decreases n,
{
    if n == 0 {
        x
    } else {
        xorshift(drawn(x, (n - 1) as nat))
    }
}

/// The cell that the `m`th pair of numbers after `x` points at: the first number is
/// the column, the second the row.
pub open spec fn pointed_at(x: u64, m: nat) -> Cell {
    ((drawn(x, 2 * m + 2) % 11) * 11 + drawn(x, 2 * m + 1) % 11) as Cell
}

/// A cell with a segment of a living snake or with food.
pub open spec fn in_use(s: StateModel, c: Cell) -> bool {
    s.food.contains(c) || exists|i: int, k: int|
        0 <= i < s.n && s.snakes[i].alive && 0 <= k < s.snakes[i].body.len()
            && #[trigger] s.snakes[i].body[k] == c
}

proof fn lemma_drawn_later(x: u64, n: nat)
    ensures
        drawn(xorshift(xorshift(x)), n) == drawn(x, n + 2),
    decreases n,
{
    reveal_with_fuel(drawn, 3);
    if n > 0 {
        lemma_drawn_later(x, (n - 1) as nat);
    }
}

proof fn lemma_pointed_later(x: u64, m: nat)
    ensures
        pointed_at(xorshift(xorshift(x)), m) == pointed_at(x, m + 1),
        pointed_at(x, 0) == spot(xorshift(x), xorshift(xorshift(x))),
{
    lemma_drawn_later(x, 2 * m + 1);
    lemma_drawn_later(x, 2 * m + 2);
    reveal_with_fuel(drawn, 3);
}

proof fn lemma_first_free(taken: Set<Cell>, x: u64, tries: nat)
    ensures
        match first_free_spot(taken, x, tries) {
            (Some(c), y) => !taken.contains(c) && exists|m: nat|
                m < tries && #[trigger] pointed_at(x, m) == c && y == drawn(x, 2 * m + 2) && (
                forall|j: nat| j < m ==> taken.contains(#[trigger] pointed_at(x, j))),
            (None, y) => y == drawn(x, 2 * tries) && forall|j: nat|
                j < tries ==> taken.contains(#[trigger] pointed_at(x, j)),
        },
    decreases tries,
{
    let b = xorshift(xorshift(x));
    lemma_pointed_later(x, 0);
    reveal_with_fuel(drawn, 3);
    if tries > 0 {
        if taken.contains(spot(xorshift(x), b)) {
            let rest = (tries - 1) as nat;
            lemma_first_free(taken, b, rest);
            match first_free_spot(taken, b, rest) {
                (Some(c), y) => {
                    let m = choose|m: nat|
                        m < rest && #[trigger] pointed_at(b, m) == c && y == drawn(b, 2 * m + 2) && (
                        forall|j: nat| j < m ==> taken.contains(#[trigger] pointed_at(b, j)));
                    lemma_pointed_later(x, m);
                    lemma_drawn_later(x, 2 * m + 2);
                    assert(pointed_at(x, m + 1) == c);
                    assert forall|j: nat| j < m + 1 implies taken.contains(
                        #[trigger] pointed_at(x, j),
                    ) by {
                        if j > 0 {
                            lemma_pointed_later(x, (j - 1) as nat);
                            assert(taken.contains(pointed_at(b, (j - 1) as nat)));
                        }
                    }
                    assert(drawn(x, 2 * (m + 1) + 2) == y);
                },
                (None, y) => {
                    lemma_drawn_later(x, 2 * rest);
                    assert forall|j: nat| j < tries implies taken.contains(
                        #[trigger] pointed_at(x, j),
                    ) by {
                        if j > 0 {
                            lemma_pointed_later(x, (j - 1) as nat);
                            assert(taken.contains(pointed_at(b, (j - 1) as nat)));
                        }
                    }
                },
            }
        } else {
            assert(pointed_at(x, 0) == spot(xorshift(x), b));
        }
    }
}

/// New food appears on the first of 500 random cells that holds neither a segment
/// of a living snake nor food, and nowhere where all of them do. Each cell takes two
/// numbers, its column and its row.
pub proof fn food_appears_on_the_first_free_cell(s: StateModel, x: u64)
    ensures
        match spawned(s, x) {
            (Some(c), y) => !in_use(s, c) && exists|m: nat|
                m < 500 && #[trigger] pointed_at(x, m) == c && y == drawn(x, 2 * m + 2) && (forall|
                    j: nat,
                |
                    j < m ==> in_use(s, #[trigger] pointed_at(x, j))),
            (None, y) => y == drawn(x, 1000) && forall|j: nat|
                j < 500 ==> in_use(s, #[trigger] pointed_at(x, j)),
        },
{
    lemma_first_free(taken(s), x, 500);
    assert forall|c: Cell| #[trigger] in_use(s, c) == taken(s).contains(c) by {
        every_segment_is_covered(s, c);
    }
    match spawned(s, x) {
        (Some(c), y) => {
            let m = choose|m: nat|
                m < 500 && #[trigger] pointed_at(x, m) == c && y == drawn(x, 2 * m + 2) && (forall|
                    j: nat,
                |
                    j < m ==> taken(s).contains(#[trigger] pointed_at(x, j)));
            assert(pointed_at(x, m) == c);
            assert(!in_use(s, c));
            assert forall|j: nat| j < m implies in_use(s, #[trigger] pointed_at(x, j)) by {
                assert(taken(s).contains(pointed_at(x, j)));
            }
        },
        (None, y) => {
            assert forall|j: nat| j < 500 implies in_use(s, #[trigger] pointed_at(x, j)) by {
                assert(taken(s).contains(pointed_at(x, j)));
            }
        },
    }
}

} // verus!
