//! A game position: up to four snakes, food and a turn counter.
use vstd::prelude::*;

use crate::bitboard::{fits_board, Bb};
use crate::grid::{is_cell, Cell};
use crate::snake::{snakes_block_their_trunk, Snake, SnakeModel};

verus! {

/// What a position is. Snake 0 is the player; the first `n` of the four slots
/// are in use.
#[verifier::ext_equal]
pub struct StateModel {
    pub snakes: Seq<SnakeModel>,
    pub n: nat,
    pub food: Set<Cell>,
    pub turn: nat,
}

impl StateModel {
    /// Four slots with valid snakes, and food on cells.
    pub open spec fn valid(self) -> bool {
        &&& self.snakes.len() == 4
        &&& self.n <= 4
        &&& forall|i: int| 0 <= i < 4 ==> (#[trigger] self.snakes[i]).valid()
        &&& fits_board(self.food)
    }

    /// The player's snake.
    pub open spec fn me(self) -> SnakeModel {
        self.snakes[0]
    }

    /// Slot `i` is in use and its snake lives.
    pub open spec fn lives(self, i: int) -> bool {
        0 <= i < self.n && self.snakes[i].alive
    }

    /// Slot `i` holds a living opponent.
    pub open spec fn opponent(self, i: int) -> bool {
        i >= 1 && self.lives(i)
    }

    /// The cells of the heads of the living snakes.
    pub open spec fn heads(self) -> Set<Cell> {
        Set::new(|c: Cell| exists|i: int| #[trigger] self.lives(i) && self.snakes[i].head() == c)
    }

    /// The cells that some living snake blocks, whoever's head is there.
    pub open spec fn blocked(self) -> Set<Cell> {
        Set::new(
            |c: Cell|
                exists|i: int| #[trigger]
                    self.lives(i) && self.snakes[i].blocked().contains(c),
        )
    }

    /// The obstacles: the cells that the living snakes block, but never a head.
    pub open spec fn obstacles(self) -> Set<Cell> {
        self.blocked().difference(self.heads())
    }

    /// The cells that the living snakes cover, heads and tails included.
    pub open spec fn covered(self) -> Set<Cell> {
        Set::new(
            |c: Cell|
                exists|i: int| #[trigger] self.lives(i) && self.snakes[i].body.contains(c),
        )
    }

    /// The number of living snakes in the slots `lo..hi`.
    pub open spec fn living(self, lo: int, hi: int) -> nat
        decreases hi - lo,
    {
        if lo >= hi {
            0
        } else {
            self.living(lo, hi - 1) + if self.snakes[hi - 1].alive {
                1nat
            } else {
                0
            }
        }
    }

    /// The number of living opponents.
    pub open spec fn opponents(self) -> nat {
        self.living(1, self.n as int)
    }
}

/// A game position.
#[derive(Debug)]
pub struct State {
    /// Slot 0 is the player, slots 1 to 3 the opponents.
    pub snakes: [Snake; 4],
    /// How many slots are in use.
    pub n_snakes: usize,
    pub food: Bb,
    pub turn: u32,
}

impl Clone for State {
    fn clone(&self) -> (r: State)
        ensures
            r == *self,
    {
        let r = State {
            snakes: [
                self.snakes[0].clone(),
                self.snakes[1].clone(),
                self.snakes[2].clone(),
                self.snakes[3].clone(),
            ],
            n_snakes: self.n_snakes,
            food: self.food,
            turn: self.turn,
        };
        assert(r.snakes =~= self.snakes);
        r
    }
}

impl View for State {
    type V = StateModel;

    open spec fn view(&self) -> StateModel {
        StateModel {
            snakes: Seq::new(4, |i: int| self.snakes@[i]@),
            n: self.n_snakes as nat,
            food: self.food@,
            turn: self.turn as nat,
        }
    }
}

impl State {
    /// At most four slots are in use, and every slot holds a well-formed snake.
    pub open spec fn wf(&self) -> bool {
        &&& self.n_snakes <= 4
        &&& forall|i: int| 0 <= i < 4 ==> (#[trigger] self.snakes@[i]).wf()
    }

    /// The model of a well-formed position is valid.
    pub proof fn lemma_valid(&self)
        requires
            self.wf(),
        ensures
            self@.valid(),
            self@.snakes.len() == 4,
            forall|i: int| 0 <= i < 4 ==> self@.snakes[i] == #[trigger] self.snakes@[i]@,
    {
        assert forall|i: int| 0 <= i < 4 implies (#[trigger] self@.snakes[i]).valid() by {
            self.snakes@[i].lemma_valid();
        }
        self.food.lemma_view();
    }

    /// The obstacles: what the living snakes block. A head is never among them.
    pub fn obs(&self) -> (bb: Bb)
        requires
            self.wf(),
        ensures
            bb@ == self@.obstacles(),
    {
        let mut bb = Bb::default();
        let mut i: usize = 0;
        while i < self.n_snakes
            invariant
                i <= self.n_snakes,
                self.wf(),
                forall|c: Cell| #[trigger]
                    bb@.contains(c) <==> exists|j: int| #[trigger]
                        self@.lives(j) && j < i && self@.snakes[j].blocked().contains(c),
            decreases self.n_snakes - i,
        {
            let ghost prev = bb@;
            if self.snakes[i].alive {
                self.snakes[i].add_obs(&mut bb);
            }
            i += 1;
            proof {
                assert forall|c: Cell| #[trigger] bb@.contains(c) <==> exists|j: int| #[trigger]
                    self@.lives(j) && j < i && self@.snakes[j].blocked().contains(c) by {
                    if prev.contains(c) {
                        let j = choose|j: int| #[trigger]
                            self@.lives(j) && j < i - 1 && self@.snakes[j].blocked().contains(c);
                        assert(self@.lives(j) && j < i && self@.snakes[j].blocked().contains(c));
                    }
                    if bb@.contains(c) && !prev.contains(c) {
                        assert(self@.lives(i - 1) && self@.snakes[i - 1].blocked().contains(c));
                    }
                }
            }
        }
        assert(bb@ =~= self@.blocked());
        self.unset_heads(&mut bb);
        assert(bb@ =~= self@.obstacles());
        bb
    }

    /// Takes the heads of the living snakes out of a set of cells.
    fn unset_heads(&self, bb: &mut Bb)
        requires
            self.wf(),
        ensures
            final(bb)@ == old(bb)@.difference(self@.heads()),
    {
        let ghost before = bb@;
        let mut i: usize = 0;
        while i < self.n_snakes
            invariant
                i <= self.n_snakes,
                self.wf(),
                forall|c: Cell| #[trigger]
                    bb@.contains(c) <==> before.contains(c) && forall|j: int| #[trigger]
                        self@.lives(j) && j < i ==> self@.snakes[j].head() != c,
            decreases self.n_snakes - i,
        {
            let ghost prev = bb@;
            assert(self.snakes@[i as int].wf());
            if self.snakes[i].alive {
                bb.unset(self.snakes[i].head());
                assert(self@.lives(i as int));
            }
            i += 1;
            proof {
                assert forall|c: Cell| #[trigger] bb@.contains(c) <==> before.contains(c)
                    && forall|j: int| #[trigger]
                    self@.lives(j) && j < i ==> self@.snakes[j].head() != c by {
                    if before.contains(c) && forall|j: int| #[trigger]
                        self@.lives(j) && j < i ==> self@.snakes[j].head() != c {
                        assert(prev.contains(c));
                    }
                }
            }
        }
        assert(bb@ =~= before.difference(self@.heads()));
    }

    /// Every cell that a living snake covers.
    pub fn all_bodies(&self) -> (bb: Bb)
        requires
            self.wf(),
        ensures
            bb@ == self@.covered(),
    {
        let mut bb = Bb::default();
        let mut i: usize = 0;
        while i < self.n_snakes
            invariant
                i <= self.n_snakes,
                self.wf(),
                forall|c: Cell| #[trigger]
                    bb@.contains(c) <==> exists|j: int| #[trigger]
                        self@.lives(j) && j < i && self@.snakes[j].body.contains(c),
            decreases self.n_snakes - i,
        {
            let ghost prev = bb@;
            if self.snakes[i].alive {
                add_segments(&self.snakes[i], 0, &mut bb);
            }
            i += 1;
            proof {
                assert forall|c: Cell| #[trigger] bb@.contains(c) <==> exists|j: int| #[trigger]
                    self@.lives(j) && j < i && self@.snakes[j].body.contains(c) by {
                    if prev.contains(c) {
                        let j = choose|j: int| #[trigger]
                            self@.lives(j) && j < i - 1 && self@.snakes[j].body.contains(c);
                        assert(self@.lives(j) && j < i && self@.snakes[j].body.contains(c));
                    }
                    if bb@.contains(c) && !prev.contains(c) {
                        assert(self@.snakes[i - 1].body.skip(0) =~= self@.snakes[i - 1].body);
                        assert(self@.lives(i - 1) && self@.snakes[i - 1].body.contains(c));
                    }
                    if self@.lives(i - 1) && self@.snakes[i - 1].body.contains(c) {
                        assert(self@.snakes[i - 1].body.skip(0) =~= self@.snakes[i - 1].body);
                    }
                }
            }
        }
        assert(bb@ =~= self@.covered());
        bb
    }

    /// The player's snake.
    pub fn player(&self) -> (s: &Snake)
        ensures
            *s == self.snakes@[0],
            s@ == self@.me(),
    {
        &self.snakes[0]
    }

    /// The number of living snakes in the slots `lo..n_snakes`.
    fn count_living(&self, lo: usize) -> (n: usize)
        requires
            self.n_snakes <= 4,
        ensures
            n == self@.living(lo as int, self.n_snakes as int),
            n <= 4,
    {
        let mut n: usize = 0;
        let mut i: usize = lo;
        while i < self.n_snakes
            invariant
                lo <= i,
                i <= self.n_snakes || i == lo,
                self.n_snakes <= 4,
                n <= i - lo,
                n == self@.living(lo as int, i as int),
            decreases self.n_snakes - i,
        {
            if self.snakes[i].alive {
                n += 1;
            }
            i += 1;
        }
        n
    }

    /// The number of living snakes.
    pub fn alive_count(&self) -> (n: usize)
        requires
            self.n_snakes <= 4,
        ensures
            n == self@.living(0, self@.n as int),
            n <= 4,
    {
        self.count_living(0)
    }

    /// The number of living opponents.
    pub fn enemy_alive(&self) -> (n: usize)
        requires
            self.n_snakes <= 4,
        ensures
            n == self@.opponents(),
            n <= 4,
    {
        self.count_living(1)
    }
}

/// Adds the segments of a snake from segment `from` on to a set of cells.
pub fn add_segments(s: &Snake, from: usize, bb: &mut Bb)
    requires
        s.wf(),
        from <= s.length,
    ensures
        forall|c: Cell|
            #![trigger final(bb)@.contains(c)]
            final(bb)@.contains(c) <==> old(bb)@.contains(c) || s@.body.skip(
                from as int,
            ).contains(c),
{
    let ghost before = bb@;
    let ghost body = s@.body;
    let mut j: usize = from;
    while j < s.length
        invariant
            from <= j <= s.length,
            s.wf(),
            body == s@.body,
            forall|c: Cell| #[trigger]
                bb@.contains(c) <==> before.contains(c) || exists|k: int|
                    from <= k < j && #[trigger] body[k] == c,
        decreases s.length - j,
    {
        let ghost prev = bb@;
        let c = s.seg(j);
        assert(is_cell(s@.body[j as int]));
        bb.set(c);
        j += 1;
        proof {
            assert forall|x: Cell| #[trigger] bb@.contains(x) <==> before.contains(x)
                || exists|k: int| from <= k < j && #[trigger] body[k] == x by {
                if prev.contains(x) && !before.contains(x) {
                    let k = choose|k: int| from <= k < j - 1 && #[trigger] body[k] == x;
                    assert(body[k] == x);
                }
                if x == c {
                    assert(body[j - 1] == x);
                }
                if !before.contains(x) && exists|k: int| from <= k < j && #[trigger] body[k] == x {
                    let k = choose|k: int| from <= k < j && #[trigger] body[k] == x;
                    if k < j - 1 {
                        assert(prev.contains(x));
                    }
                }
            }
        }
    }
    proof {
        let rest = body.skip(from as int);
        assert forall|c: Cell| rest.contains(c) <==> exists|k: int|
            from <= k < j && #[trigger] body[k] == c by {
            if rest.contains(c) {
                let i = choose|i: int| 0 <= i < rest.len() && rest[i] == c;
                assert(body[i + from] == c);
            }
            if exists|k: int| from <= k < j && #[trigger] body[k] == c {
                let k = choose|k: int| from <= k < j && #[trigger] body[k] == c;
                assert(rest[k - from] == c);
            }
        }
    }
}

/// A head is never an obstacle.
pub proof fn heads_are_no_obstacles(s: StateModel, i: int)
    requires
        s.lives(i),
    ensures
        !s.obstacles().contains(s.snakes[i].head()),
{
    assert(s.heads().contains(s.snakes[i].head()));
}

/// Every obstacle is a cell that a living snake covers.
pub proof fn obstacles_are_covered(s: StateModel)
    ensures
        s.obstacles().subset_of(s.covered()),
        s.heads().disjoint(s.obstacles()),
{
    assert forall|c: Cell| s.obstacles().contains(c) implies s.covered().contains(c) by {
        let i = choose|i: int| #[trigger] s.lives(i) && s.snakes[i].blocked().contains(c);
        let k = choose|k: int| s.snakes[i].blocks_at(k) && #[trigger] s.snakes[i].body[k] == c;
        assert(s.snakes[i].body.contains(c));
    }
}

/// A living snake of three segments or more blocks its neck, unless a head is
/// there.
pub proof fn necks_are_obstacles(s: StateModel, i: int)
    requires
        s.valid(),
        s.lives(i),
        s.snakes[i].body.len() >= 3,
        !s.heads().contains(s.snakes[i].body[1]),
    ensures
        s.obstacles().contains(s.snakes[i].body[1]),
{
    assert(s.snakes[i].blocks_at(1));
    assert(s.snakes[i].blocked().contains(s.snakes[i].body[1]));
}

/// The obstacles, segment by segment: the cells of segments behind the head of a
/// living snake, without a tail that leaves, and without the cells of heads.
pub proof fn obstacles_are_trunks_without_heads(s: StateModel, c: Cell)
    requires
        s.valid(),
    ensures
        s.obstacles().contains(c) <==> (exists|i: int, k: int|
            0 <= i < s.n && s.snakes[i].alive && 1 <= k < s.snakes[i].body.len()
                && #[trigger] s.snakes[i].body[k] == c && (k < s.snakes[i].body.len() - 1
                || s.snakes[i].body[k - 1] == c)) && (forall|j: int|
            0 <= j < s.n && (#[trigger] s.snakes[j]).alive ==> s.snakes[j].body[0] != c),
{
    assert forall|j: int| 0 <= j < s.n && (#[trigger] s.snakes[j]).alive implies s.lives(j) by {}
    if s.blocked().contains(c) {
        let i = choose|i: int| #[trigger] s.lives(i) && s.snakes[i].blocked().contains(c);
        assert(s.snakes[i].valid());
        snakes_block_their_trunk(s.snakes[i], c);
        let k = choose|k: int|
            1 <= k < s.snakes[i].body.len() && #[trigger] s.snakes[i].body[k] == c && (k
                < s.snakes[i].body.len() - 1 || s.snakes[i].body[k - 1] == s.snakes[i].body[k]);
        assert(s.snakes[i].body[k] == c);
    }
    if exists|i: int, k: int|
        0 <= i < s.n && s.snakes[i].alive && 1 <= k < s.snakes[i].body.len()
            && #[trigger] s.snakes[i].body[k] == c && (k < s.snakes[i].body.len() - 1
            || s.snakes[i].body[k - 1] == c) {
        let (i, k) = choose|i: int, k: int|
            0 <= i < s.n && s.snakes[i].alive && 1 <= k < s.snakes[i].body.len()
                && #[trigger] s.snakes[i].body[k] == c && (k < s.snakes[i].body.len() - 1
                || s.snakes[i].body[k - 1] == c);
        assert(s.snakes[i].valid());
        snakes_block_their_trunk(s.snakes[i], c);
        assert(s.lives(i) && s.snakes[i].blocked().contains(c));
    }
    if s.heads().contains(c) {
        let j = choose|j: int| #[trigger] s.lives(j) && s.snakes[j].head() == c;
        assert(s.snakes[j].alive && s.snakes[j].body[0] == c);
    }
}

/// The cells that living snakes cover, segment by segment.
pub proof fn every_segment_is_covered(s: StateModel, c: Cell)
    ensures
        s.covered().contains(c) <==> exists|i: int, k: int|
            0 <= i < s.n && s.snakes[i].alive && 0 <= k < s.snakes[i].body.len()
                && #[trigger] s.snakes[i].body[k] == c,
{
    if s.covered().contains(c) {
        let i = choose|i: int| #[trigger] s.lives(i) && s.snakes[i].body.contains(c);
        let k = choose|k: int| 0 <= k < s.snakes[i].body.len() && s.snakes[i].body[k] == c;
        assert(s.snakes[i].body[k] == c);
    }
    if exists|i: int, k: int|
        0 <= i < s.n && s.snakes[i].alive && 0 <= k < s.snakes[i].body.len()
            && #[trigger] s.snakes[i].body[k] == c {
        let (i, k) = choose|i: int, k: int|
            0 <= i < s.n && s.snakes[i].alive && 0 <= k < s.snakes[i].body.len()
                && #[trigger] s.snakes[i].body[k] == c;
        assert(s.lives(i) && s.snakes[i].body.contains(c));
    }
}

/// The living snakes are counted one by one.
pub proof fn the_living_are_counted(s: StateModel, lo: int, hi: int)
    ensures
        s.living(lo, hi) == Set::new(|i: int| lo <= i < hi && s.snakes[i].alive).len(),
        Set::new(|i: int| lo <= i < hi && s.snakes[i].alive).finite(),
    decreases hi - lo,
{
    let all = Set::new(|i: int| lo <= i < hi && s.snakes[i].alive);
    if lo >= hi {
        assert(all =~= Set::empty());
    } else {
        the_living_are_counted(s, lo, hi - 1);
        let below = Set::new(|i: int| lo <= i < hi - 1 && s.snakes[i].alive);
        if s.snakes[hi - 1].alive {
            assert(all =~= below.insert(hi - 1));
        } else {
            assert(all =~= below);
        }
    }
}

/// The opponents are the living snakes from slot 1 on: there is none exactly where
/// none lives, and one exactly where a single one lives.
pub proof fn opponents_are_the_others(s: StateModel)
    ensures
        s.opponents() == Set::new(|i: int| 1 <= i < s.n && s.snakes[i].alive).len(),
        s.opponents() == 0 <==> forall|i: int| 1 <= i < s.n ==> !(#[trigger] s.snakes[i]).alive,
        s.opponents() == 1 <==> exists|e: int|
            1 <= e < s.n && (#[trigger] s.snakes[e]).alive && forall|i: int|
                1 <= i < s.n && i != e ==> !(#[trigger] s.snakes[i]).alive,
{
    the_living_are_counted(s, 1, s.n as int);
    let all = Set::new(|i: int| 1 <= i < s.n && s.snakes[i].alive);
    if s.opponents() == 0 {
        assert forall|i: int| 1 <= i < s.n implies !(#[trigger] s.snakes[i]).alive by {
            assert(!all.contains(i));
        }
    }
    if forall|i: int| 1 <= i < s.n ==> !(#[trigger] s.snakes[i]).alive {
        assert(all =~= Set::empty());
    }
    if s.opponents() == 1 {
        let e = all.choose();
        assert(all.contains(e));
        assert forall|i: int| 1 <= i < s.n && i != e implies !(#[trigger] s.snakes[i]).alive by {
            if s.snakes[i].alive {
                assert(all.remove(e).contains(i));
                assert(all.remove(e).len() == 0);
            }
        }
        assert(s.snakes[e].alive);
    }
    if exists|e: int|
        1 <= e < s.n && (#[trigger] s.snakes[e]).alive && forall|i: int|
            1 <= i < s.n && i != e ==> !(#[trigger] s.snakes[i]).alive {
        let e = choose|e: int|
            1 <= e < s.n && (#[trigger] s.snakes[e]).alive && forall|i: int|
                1 <= i < s.n && i != e ==> !(#[trigger] s.snakes[i]).alive;
        assert(all =~= Set::empty().insert(e));
    }
}

} // verus!
