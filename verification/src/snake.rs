//! A snake: health, life and a body held in a ring buffer.
use vstd::prelude::*;

use crate::bitboard::Bb;
use crate::grid::{is_cell, Cell};

verus! {

/// Health after a meal.
pub const FOOD_RESTORE: i32 = 100;

/// Health lost with every move.
pub const HP_DECAY: i32 = 1;

/// Health of a new snake.
pub const MAX_HP: i32 = 100;

/// Number of segments that a ring buffer holds: a snake can fill the board.
pub const MAX_BODY: usize = 121;

/// What a snake is: its body lists the cells from head to tail.
#[verifier::ext_equal]
pub struct SnakeModel {
    pub health: int,
    pub alive: bool,
    pub body: Seq<Cell>,
}

impl SnakeModel {
    /// A body has a head, and all its segments are board cells.
    pub open spec fn valid(self) -> bool {
        &&& self.body.len() >= 1
        &&& forall|i: int| 0 <= i < self.body.len() ==> is_cell(#[trigger] self.body[i])
        &&& forall|i: int|
            MAX_BODY <= i < self.body.len() ==> #[trigger] self.body[i] == self.body[i % 121]
    }

    /// The cell of the head.
    pub open spec fn head(self) -> Cell {
        self.body[0]
    }

    /// The tail leaves its cell with the next move unless the last two segments
    /// share a cell.
    pub open spec fn tail_leaves(self) -> bool {
        self.body.len() < 2 || self.body[self.body.len() - 1] != self.body[self.body.len() - 2]
    }

    /// Segment `i` is an obstacle: not the head, and not a tail that leaves.
    pub open spec fn blocks_at(self, i: int) -> bool {
        1 <= i < self.body.len() && (i < self.body.len() - 1 || !self.tail_leaves())
    }

    /// The cells that the snake blocks.
    pub open spec fn blocked(self) -> Set<Cell> {
        Set::new(|c: Cell| exists|i: int| self.blocks_at(i) && #[trigger] self.body[i] == c)
    }

    /// The snake after a move of its head to `to`, which `eats` or not. The body
    /// keeps its length, and grows by one segment with a meal. A body that
    /// outgrows the ring repeats its latest cells.
    pub open spec fn advanced(self, to: Cell, eats: bool) -> SnakeModel {
        SnakeModel {
            health: if eats {
                FOOD_RESTORE as int
            } else {
                self.health - HP_DECAY
            },
            alive: self.alive,
            body: Seq::new(
                if eats {
                    self.body.len() + 1
                } else {
                    self.body.len()
                },
                |i: int|
                    if i % 121 == 0 {
                        to
                    } else {
                        self.body[i % 121 - 1]
                    },
            ),
        }
    }
}

/// A snake. The body is a ring buffer with the head at `head_idx`.
#[derive(Debug)]
pub struct Snake {
    pub health: i32,
    pub alive: bool,
    pub body: [Cell; MAX_BODY],
    pub head_idx: usize,
    pub length: usize,
}

impl Clone for Snake {
    fn clone(&self) -> (r: Snake)
        ensures
            r == *self,
    {
        Snake {
            health: self.health,
            alive: self.alive,
            body: self.body,
            head_idx: self.head_idx,
            length: self.length,
        }
    }
}

impl View for Snake {
    type V = SnakeModel;

    open spec fn view(&self) -> SnakeModel {
        SnakeModel {
            health: self.health as int,
            alive: self.alive,
            body: Seq::new(
                self.length as nat,
                |i: int| self.body@[(self.head_idx + i) % 121],
            ),
        }
    }
}

impl Snake {
    /// The ring indices are in range, the snake has a head, and every segment
    /// lies on the board.
    pub open spec fn wf(&self) -> bool {
        &&& self.head_idx < MAX_BODY
        &&& 1 <= self.length <= usize::MAX - MAX_BODY
        &&& forall|i: int| 0 <= i < self.length ==> is_cell(#[trigger] self@.body[i])
    }

    /// The model of a well-formed snake is valid.
    pub proof fn lemma_valid(&self)
        requires
            self.wf(),
        ensures
            self@.valid(),
    {
        assert forall|i: int| MAX_BODY <= i < self@.body.len() implies #[trigger] self@.body[i]
            == self@.body[i % 121] by {
            assert((self.head_idx + i) % 121 == (self.head_idx + i % 121) % 121);
        }
    }

    /// A healthy snake with the given segments, head first.
    pub fn new(segments: &[Cell]) -> (s: Self)
        requires
            segments@.len() <= MAX_BODY,
        ensures
            s@ == (SnakeModel { health: MAX_HP as int, alive: true, body: segments@ }),
            s.head_idx == 0,
            s.length == segments@.len(),
            forall|i: int| segments@.len() <= i < MAX_BODY ==> #[trigger] s.body@[i] == 0,
            segments@.len() >= 1 && (forall|i: int|
                0 <= i < segments@.len() ==> is_cell(#[trigger] segments@[i])) ==> s.wf(),
    {
        let mut s = Snake {
            health: MAX_HP,
            alive: true,
            body: [0u8;MAX_BODY],
            head_idx: 0,
            length: segments.len(),
        };
        let mut i: usize = 0;
        while i < segments.len()
            invariant
                i <= segments@.len() <= MAX_BODY,
                s.health == MAX_HP,
                s.alive,
                s.head_idx == 0,
                s.length == segments@.len(),
                forall|j: int| 0 <= j < i ==> s.body@[j] == segments@[j],
                forall|j: int| i <= j < MAX_BODY ==> #[trigger] s.body@[j] == 0,
            decreases segments@.len() - i,
        {
            s.body[i] = segments[i];
            i += 1;
        }
        assert(s@.body =~= segments@);
        s
    }

    /// The cell of the head.
    pub fn head(&self) -> (c: Cell)
        requires
            self.wf(),
        ensures
            c == self@.head(),
            is_cell(c),
    {
        assert(self@.body[0] == self.body@[self.head_idx as int]);
        self.body[self.head_idx]
    }

    /// The cell of the last segment.
    pub fn tail(&self) -> (c: Cell)
        requires
            self.wf(),
        ensures
            c == self@.body.last(),
            is_cell(c),
    {
        assert(self@.body[self.length - 1] == self@.body.last());
        self.body[(self.head_idx + self.length - 1) % MAX_BODY]
    }

    /// The ring slot at offset `i` from the head: segment `i` of the body.
    pub fn seg(&self, i: usize) -> (c: Cell)
        requires
            self.head_idx < MAX_BODY,
            self.head_idx + i <= usize::MAX,
        ensures
            c == self.body@[(self.head_idx + i) % 121],
            i < self.length ==> c == self@.body[i as int],
    {
        self.body[(self.head_idx + i) % MAX_BODY]
    }

    /// Will the tail leave its cell with the next move?
    pub fn tail_is_safe(&self) -> (b: bool)
        requires
            self.wf(),
        ensures
            b == self@.tail_leaves(),
    {
        if self.length < 2 {
            return true;
        }
        let t = self.tail();
        let p = self.body[(self.head_idx + self.length - 2) % MAX_BODY];
        assert(self@.body[self.length - 2] == p);
        t != p
    }

    /// Adds the cells that this snake blocks to `obs`.
    pub fn add_obs(&self, obs: &mut Bb)
        requires
            self.wf(),
        ensures
            final(obs)@ == old(obs)@.union(self@.blocked()),
    {
        let n = self.length;
        let inner_end = if self.tail_is_safe() {
            n - 1
        } else {
            n
        };
        let ghost before = obs@;
        let ghost body = self@.body;
        let mut i: usize = 1;
        while i < inner_end
            invariant
                1 <= i,
                i <= inner_end || i == 1,
                inner_end <= n,
                n == self.length,
                self.wf(),
                body == self@.body,
                forall|c: Cell| #[trigger]
                    obs@.contains(c) <==> before.contains(c) || exists|j: int|
                        1 <= j < i && #[trigger] body[j] == c,
            decreases inner_end - i,
        {
            let ghost prev = obs@;
            let c = self.seg(i);
            assert(is_cell(self@.body[i as int]));
            obs.set(c);
            i += 1;
            proof {
                assert forall|x: Cell| #[trigger] obs@.contains(x) <==> before.contains(x)
                    || exists|j: int| 1 <= j < i && #[trigger] body[j] == x by {
                    if prev.contains(x) && !before.contains(x) {
                        let j = choose|j: int| 1 <= j < i - 1 && #[trigger] body[j] == x;
                        assert(body[j] == x);
                    }
                    if x == c {
                        assert(body[i - 1] == x);
                    }
                    if !before.contains(x) && exists|j: int| 1 <= j < i && #[trigger] body[j] == x {
                        let j = choose|j: int| 1 <= j < i && #[trigger] body[j] == x;
                        if j < i - 1 {
                            assert(prev.contains(x));
                        }
                    }
                }
            }
        }
        proof {
            assert forall|c: Cell| obs@.contains(c) <==> before.union(self@.blocked()).contains(
                c,
            ) by {
                if self@.blocked().contains(c) {
                    let j = choose|j: int| self@.blocks_at(j) && #[trigger] self@.body[j] == c;
                    assert(1 <= j < inner_end && body[j] == c);
                }
                if obs@.contains(c) && !before.contains(c) {
                    let j = choose|j: int| 1 <= j < i && #[trigger] body[j] == c;
                    assert(self@.blocks_at(j));
                }
            }
            assert(obs@ =~= before.union(self@.blocked()));
        }
    }

    /// Moves the head to `new_head`. Says whether there was food, which is then
    /// eaten: the meal restores full health and adds a segment.
    pub fn advance(&mut self, new_head: Cell, food: &mut Bb) -> (ate: bool)
        requires
            old(self).wf(),
            is_cell(new_head),
            old(self).health > i32::MIN,
            old(food)@.contains(new_head) ==> old(self).length < usize::MAX - MAX_BODY,
        ensures
            ate == old(food)@.contains(new_head),
            final(food)@ == old(food)@.remove(new_head),
            final(self)@ == old(self)@.advanced(new_head, ate),
            final(self).head_idx == (old(self).head_idx + 120) % 121,
            final(self).body@ == old(self).body@.update(final(self).head_idx as int, new_head),
            final(self).wf(),
    {
        let ghost before = *self;
        let ghost ring = self.body@;
        let ghost was = self.head_idx as int;
        self.head_idx = (self.head_idx + MAX_BODY - 1) % MAX_BODY;
        self.body[self.head_idx] = new_head;
        self.health = self.health - HP_DECAY;
        let ate = food.get(new_head);
        if ate {
            food.unset(new_head);
            self.health = FOOD_RESTORE;
            self.length = self.length + 1;
        } else {
            assert(food@ =~= food@.remove(new_head));
        }
        proof {
            let expected = before@.advanced(new_head, ate).body;
            let now = self.head_idx as int;
            assert(self@.body.len() == expected.len());
            assert forall|i: int| 0 <= i < expected.len() implies #[trigger] self@.body[i]
                == expected[i] && is_cell(expected[i]) by {
                let r = i % 121;
                assert((now + i) % 121 == (now + r) % 121);
                if r == 0 {
                    assert((now + i) % 121 == now);
                } else {
                    assert((now + r) % 121 == (was + r - 1) % 121);
                    assert((was + r - 1) % 121 != now);
                    assert(self@.body[i] == ring[(was + (r - 1)) % 121]);
                    assert(before@.body[r - 1] == ring[(was + (r - 1)) % 121]);
                    assert(is_cell(before@.body[r - 1]));
                }
            }
            assert(self@.body =~= expected);
        }
        ate
    }
}

/// Health depletes by one with a move, a meal restores it in full, and the body
/// follows the head: while it fits the ring, the new head is put in front, and
/// the tail goes unless the snake ate.
pub proof fn bodies_follow_the_head(s: SnakeModel, to: Cell, eats: bool)
    requires
        s.valid(),
        s.body.len() <= MAX_BODY,
        eats ==> s.body.len() < MAX_BODY,
    ensures
        s.advanced(to, eats).health == (if eats {
            FOOD_RESTORE as int
        } else {
            s.health - 1
        }),
        eats ==> s.advanced(to, eats).body == seq![to] + s.body,
        !eats ==> s.advanced(to, eats).body == seq![to] + s.body.drop_last(),
{
    if eats {
        assert(s.advanced(to, eats).body =~= seq![to] + s.body);
    } else {
        assert(s.advanced(to, eats).body =~= seq![to] + s.body.drop_last());
    }
}

/// A move keeps a snake valid.
pub proof fn moves_keep_snakes_valid(s: SnakeModel, to: Cell, eats: bool)
    requires
        s.valid(),
        is_cell(to),
    ensures
        s.advanced(to, eats).valid(),
        s.advanced(to, eats).head() == to,
{
    let t = s.advanced(to, eats);
    assert forall|i: int| 0 <= i < t.body.len() implies is_cell(#[trigger] t.body[i]) by {
        if i % 121 != 0 {
            assert(is_cell(s.body[i % 121 - 1]));
        }
    }
}

/// A snake blocks its neck as soon as it has three segments, and leaves the cell
/// of a leaving tail free, unless another of its blocking segments is there.
pub proof fn necks_block_and_leaving_tails_do_not(s: SnakeModel)
    requires
        s.valid(),
    ensures
        s.body.len() >= 3 ==> s.blocked().contains(s.body[1]),
        s.tail_leaves() && (forall|i: int|
            1 <= i < s.body.len() - 1 ==> #[trigger] s.body[i] != s.body.last())
            ==> !s.blocked().contains(s.body.last()),
{
    if s.body.len() >= 3 {
        assert(s.blocks_at(1) && s.body[1] == s.body[1]);
    }
}

/// The cells that a snake blocks, segment by segment: every segment between the
/// head and the tail, and the tail itself where it lies on the segment before it.
pub proof fn snakes_block_their_trunk(s: SnakeModel, c: Cell)
    requires
        s.valid(),
    ensures
        s.blocked().contains(c) <==> exists|k: int|
            1 <= k < s.body.len() && #[trigger] s.body[k] == c && (k < s.body.len() - 1
                || s.body[k - 1] == s.body[k]),
{
    let n = s.body.len() as int;
    if s.blocked().contains(c) {
        let k = choose|k: int| s.blocks_at(k) && #[trigger] s.body[k] == c;
        assert(s.body[k] == c);
    }
    if exists|k: int|
        1 <= k < n && #[trigger] s.body[k] == c && (k < n - 1 || s.body[k - 1] == s.body[k]) {
        let k = choose|k: int|
            1 <= k < n && #[trigger] s.body[k] == c && (k < n - 1 || s.body[k - 1] == s.body[k]);
        assert(s.blocks_at(k) && s.body[k] == c);
    }
}

/// A move shifts the body: the new head comes first, and every other segment
/// takes the place of the one before it.
pub proof fn moves_shift_the_body(s: SnakeModel, to: Cell, eats: bool, k: int)
    requires
        s.valid(),
        1 <= k < 121,
        k < s.advanced(to, eats).body.len(),
    ensures
        s.advanced(to, eats).body[0] == to,
        s.advanced(to, eats).body[k] == s.body[k - 1],
        s.advanced(to, eats).alive == s.alive,
        s.advanced(to, true).health == 100,
        s.advanced(to, false).health == s.health - 1,
        s.advanced(to, true).body.len() == s.body.len() + 1,
        s.advanced(to, false).body.len() == s.body.len(),
{
}

} // verus!
