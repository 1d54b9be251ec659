//! The rules of a turn: all snakes move at once, then the dead are removed.
use vstd::prelude::*;

use crate::bitboard::Bb;
use crate::grid::{is_cell, Cell, Dir};
use crate::snake::{moves_keep_snakes_valid, SnakeModel, FOOD_RESTORE, MAX_BODY};
use crate::state::{add_segments, State, StateModel};

verus! {

/// Where the head of snake `i` lands, if it moves and stays on the board.
pub open spec fn landing(s: StateModel, dirs: Seq<Option<Dir>>, i: int) -> Option<Cell> {
    if s.lives(i) && dirs[i] is Some {
        dirs[i]->0.target(s.snakes[i].head())
    } else {
        None
    }
}

/// Snake `i` eats: there is food where it lands, and no snake before it in order
/// lands on the same cell.
pub open spec fn eats(s: StateModel, dirs: Seq<Option<Dir>>, i: int) -> bool {
    match landing(s, dirs, i) {
        Some(c) => s.food.contains(c) && forall|j: int|
            0 <= j < i ==> #[trigger] landing(s, dirs, j) != Some(c),
        None => false,
    }
}

/// Snake `i` after its own move. One that leaves the board dies where it is; one
/// without a direction stays.
pub open spec fn moved_snake(s: StateModel, dirs: Seq<Option<Dir>>, i: int) -> SnakeModel {
    if !s.lives(i) || dirs[i] is None {
        s.snakes[i]
    } else {
        match landing(s, dirs, i) {
            Some(c) => s.snakes[i].advanced(c, eats(s, dirs, i)),
            None => SnakeModel { alive: false, ..s.snakes[i] },
        }
    }
}

/// The position after all moves: food where a snake landed is gone.
pub open spec fn moved(s: StateModel, dirs: Seq<Option<Dir>>) -> StateModel {
    StateModel {
        snakes: Seq::new(4, |i: int| moved_snake(s, dirs, i)),
        food: s.food.difference(
            Set::new(|c: Cell| exists|i: int| #[trigger] landing(s, dirs, i) == Some(c)),
        ),
        ..s
    }
}

/// The cells that living snakes cover with segments other than heads.
pub open spec fn trunks(s: StateModel) -> Set<Cell> {
    Set::new(
        |c: Cell|
            exists|i: int| #[trigger] s.lives(i) && s.snakes[i].body.skip(1).contains(c),
    )
}

/// The same position with other lives.
pub open spec fn with_lives(s: StateModel, alive: spec_fn(int) -> bool) -> StateModel {
    StateModel {
        snakes: Seq::new(
            4,
            |i: int|
                if 0 <= i < s.n {
                    SnakeModel { alive: alive(i), ..s.snakes[i] }
                } else {
                    s.snakes[i]
                },
        ),
        ..s
    }
}

/// Snake `i` neither starves nor has its head on a body.
pub open spec fn unharmed(s: StateModel, i: int) -> bool {
    s.lives(i) && s.snakes[i].health > 0 && !trunks(s).contains(s.snakes[i].head())
}

/// Snake `i` is longer than every living snake whose head is on the same cell.
pub open spec fn wins_head_on(s: StateModel, i: int) -> bool {
    s.lives(i) && forall|j: int| #[trigger]
        s.lives(j) && j != i && s.snakes[j].head() == s.snakes[i].head()
            ==> s.snakes[i].body.len() > s.snakes[j].body.len()
}

/// The position after starvation and collisions with bodies.
pub open spec fn after_crashes(s: StateModel) -> StateModel {
    with_lives(s, |i: int| unharmed(s, i))
}

/// The position after head-on collisions.
pub open spec fn after_head_ons(s: StateModel) -> StateModel {
    with_lives(s, |i: int| wins_head_on(s, i))
}

/// The position after one turn.
pub open spec fn turned(s: StateModel, dirs: Seq<Option<Dir>>) -> StateModel {
    StateModel { turn: s.turn + 1, ..after_head_ons(after_crashes(moved(s, dirs))) }
}

/// Moves every living snake that has a direction.
fn move_snakes(next: &mut State, dirs: &[Option<Dir>; 4])
    requires
        old(next).wf(),
        forall|i: int|
            (#[trigger] landing(old(next)@, dirs@, i)) is Some ==> old(next)@.snakes[i].health
                > i32::MIN,
        forall|i: int| #[trigger]
            eats(old(next)@, dirs@, i) ==> old(next)@.snakes[i].body.len() < usize::MAX - MAX_BODY,
    ensures
        final(next).wf(),
        final(next)@ == moved(old(next)@, dirs@),
        final(next).turn == old(next).turn,
        forall|i: int|
            0 <= i < 4 && !old(next)@.lives(i) ==> #[trigger] final(next).snakes@[i] == old(
                next,
            ).snakes@[i],
{
    let ghost s = next@;
    let ghost start = *next;
    let mut i: usize = 0;
    while i < next.n_snakes
        invariant
            i <= next.n_snakes <= 4,
            next.wf(),
            s == start@,
            start.wf(),
            next.n_snakes == start.n_snakes,
            next.turn == start.turn,
            forall|j: int|
                0 <= j < 4 && !s.lives(j) ==> #[trigger] next.snakes@[j] == start.snakes@[j],
            forall|j: int| 0 <= j < i ==> #[trigger] next@.snakes[j] == moved_snake(s, dirs@, j),
            forall|j: int| i <= j < 4 ==> #[trigger] next.snakes@[j] == start.snakes@[j],
            forall|c: Cell| #[trigger]
                next.food@.contains(c) <==> s.food.contains(c) && forall|j: int|
                    0 <= j < i ==> #[trigger] landing(s, dirs@, j) != Some(c),
            forall|i: int|
                (#[trigger] landing(s, dirs@, i)) is Some ==> s.snakes[i].health > i32::MIN,
            forall|i: int| #[trigger]
                eats(s, dirs@, i) ==> s.snakes[i].body.len() < usize::MAX - MAX_BODY,
        decreases next.n_snakes - i,
    {
        assert(next.snakes@[i as int] == start.snakes@[i as int]);
        let ghost here = *next;
        if next.snakes[i].alive {
            if let Some(d) = dirs[i] {
                match d.step(next.snakes[i].head()) {
                    Some(new_head) => {
                        proof {
                            assert(landing(s, dirs@, i as int) == Some(new_head));
                            assert(here.food@.contains(new_head) <==> eats(s, dirs@, i as int));
                        }
                        let mut food = next.food;
                        next.snakes[i].advance(new_head, &mut food);
                        next.food = food;
                    },
                    None => {
                        next.snakes[i].alive = false;
                        assert(next.snakes@[i as int]@.body =~= s.snakes[i as int].body);
                    },
                }
            }
        }
        proof {
            let k = i as int;
            assert(next@.snakes[k] =~= moved_snake(s, dirs@, k));
            assert forall|j: int| 0 <= j < 4 && j != k implies #[trigger] next.snakes@[j]
                == here.snakes@[j] by {}
            assert forall|j: int| 0 <= j < k implies #[trigger] next@.snakes[j] == moved_snake(
                s,
                dirs@,
                j,
            ) by {
                assert(next.snakes@[j] == here.snakes@[j]);
                assert(here@.snakes[j] == moved_snake(s, dirs@, j));
            }
            assert forall|c: Cell| #[trigger] next.food@.contains(c) <==> s.food.contains(c)
                && forall|j: int| 0 <= j < k + 1 ==> #[trigger] landing(s, dirs@, j) != Some(c) by {
                if landing(s, dirs@, k) is Some {
                    assert(next.food@ == here.food@.remove(landing(s, dirs@, k)->0));
                } else {
                    assert(next.food@ == here.food@);
                }
                if here.food@.contains(c) && landing(s, dirs@, k) != Some(c) {
                    assert forall|j: int| 0 <= j < k + 1 implies #[trigger] landing(s, dirs@, j)
                        != Some(c) by {}
                }
                if s.food.contains(c) && forall|j: int|
                    0 <= j < k + 1 ==> #[trigger] landing(s, dirs@, j) != Some(c) {
                    assert(landing(s, dirs@, k) != Some(c));
                    assert(here.food@.contains(c));
                }
            }
        }
        i += 1;
    }
    proof {
        let m = moved(s, dirs@);
        assert forall|j: int| 0 <= j < 4 implies #[trigger] next@.snakes[j] == m.snakes[j] by {
            if j >= i {
                assert(next.snakes@[j] == start.snakes@[j]);
            }
        }
        assert(next@.snakes =~= m.snakes);
        assert forall|c: Cell| next.food@.contains(c) <==> m.food.contains(c) by {
            if s.food.contains(c) {
                if exists|j: int| #[trigger] landing(s, dirs@, j) == Some(c) {
                    let j = choose|j: int| #[trigger] landing(s, dirs@, j) == Some(c);
                    assert(0 <= j < i);
                }
            }
        }
        assert(next@.food =~= m.food);
    }
}

/// The cells that living snakes cover with segments other than heads.
fn trunk_cells(s: &State) -> (bb: Bb)
    requires
        s.wf(),
    ensures
        bb@ == trunks(s@),
{
    let mut bodies = Bb::default();
    let mut i: usize = 0;
    while i < s.n_snakes
        invariant
            i <= s.n_snakes <= 4,
            s.wf(),
            forall|c: Cell| #[trigger]
                bodies@.contains(c) <==> exists|j: int| #[trigger]
                    s@.lives(j) && j < i && s@.snakes[j].body.skip(1).contains(c),
        decreases s.n_snakes - i,
    {
        let ghost prev = bodies@;
        assert(s.snakes@[i as int].wf());
        if s.snakes[i].alive {
            add_segments(&s.snakes[i], 1, &mut bodies);
        }
        i += 1;
        proof {
            assert forall|c: Cell| #[trigger] bodies@.contains(c) <==> exists|j: int| #[trigger]
                s@.lives(j) && j < i && s@.snakes[j].body.skip(1).contains(c) by {
                if prev.contains(c) {
                    let j = choose|j: int| #[trigger]
                        s@.lives(j) && j < i - 1 && s@.snakes[j].body.skip(1).contains(c);
                    assert(s@.lives(j) && j < i && s@.snakes[j].body.skip(1).contains(c));
                }
                if bodies@.contains(c) && !prev.contains(c) {
                    assert(s@.lives(i - 1) && s@.snakes[i - 1].body.skip(1).contains(c));
                }
            }
        }
    }
    assert(bodies@ =~= trunks(s@));
    bodies
}

/// Kills the snakes that starve or whose head is on a body.
fn kill_crashed(next: &mut State)
    requires
        old(next).wf(),
    ensures
        final(next).wf(),
        final(next)@ == after_crashes(old(next)@),
        final(next).turn == old(next).turn,
        forall|i: int|
            0 <= i < 4 && !old(next)@.lives(i) ==> #[trigger] final(next).snakes@[i] == old(
                next,
            ).snakes@[i],
{
    let ghost s = next@;
    let ghost start = *next;
    let bodies = trunk_cells(next);
    let mut i: usize = 0;
    while i < next.n_snakes
        invariant
            i <= next.n_snakes <= 4,
            next.wf(),
            s == start@,
            bodies@ == trunks(s),
            next.n_snakes == start.n_snakes,
            next.turn == start.turn,
            next.food == start.food,
            forall|j: int|
                0 <= j < 4 && !s.lives(j) ==> #[trigger] next.snakes@[j] == start.snakes@[j],
            forall|j: int| 0 <= j < i ==> #[trigger] next@.snakes[j] == after_crashes(s).snakes[j],
            forall|j: int| i <= j < 4 ==> #[trigger] next.snakes@[j] == start.snakes@[j],
        decreases next.n_snakes - i,
    {
        assert(next.snakes@[i as int] == start.snakes@[i as int]);
        let ghost here = *next;
        if next.snakes[i].alive {
            let h = next.snakes[i].head();
            if next.snakes[i].health <= 0 || bodies.get(h) {
                next.snakes[i].alive = false;
                assert(next.snakes@[i as int]@.body =~= s.snakes[i as int].body);
            }
        }
        proof {
            let k = i as int;
            assert(next@.snakes[k] =~= after_crashes(s).snakes[k]);
            assert forall|j: int| 0 <= j < k implies #[trigger] next@.snakes[j] == after_crashes(
                s,
            ).snakes[j] by {
                assert(next.snakes@[j] == here.snakes@[j]);
                assert(here@.snakes[j] == after_crashes(s).snakes[j]);
            }
        }
        i += 1;
    }
    proof {
        assert forall|j: int| 0 <= j < 4 implies #[trigger] next@.snakes[j] == after_crashes(
            s,
        ).snakes[j] by {
            if j >= i {
                assert(next.snakes@[j] == start.snakes@[j]);
            }
        }
        assert(next@.snakes =~= after_crashes(s).snakes);
    }
}

/// Snakes `i` and `j` meet head-on.
spec fn meet(s: StateModel, i: int, j: int) -> bool {
    s.lives(i) && s.lives(j) && i != j && s.snakes[i].head() == s.snakes[j].head()
}

/// Snake `k` meets an earlier snake below `bound` that is at least as long.
spec fn beaten_below(s: StateModel, k: int, bound: int) -> bool {
    exists|j: int|
        0 <= j < bound && #[trigger] meet(s, k, j) && s.snakes[k].body.len()
            <= s.snakes[j].body.len()
}

/// Kills the losers of head-on collisions.
fn kill_head_ons(next: &mut State)
    requires
        old(next).wf(),
    ensures
        final(next).wf(),
        final(next)@ == after_head_ons(old(next)@),
        final(next).turn == old(next).turn,
        forall|i: int|
            0 <= i < 4 && !old(next)@.lives(i) ==> #[trigger] final(next).snakes@[i] == old(
                next,
            ).snakes@[i],
{
    let ghost s = next@;
    let ghost start = *next;
    let mut i: usize = 0;
    while i < next.n_snakes
        invariant
            i <= next.n_snakes <= 4,
            next.wf(),
            s == start@,
            next.n_snakes == start.n_snakes,
            next.turn == start.turn,
            next.food == start.food,
            forall|j: int|
                0 <= j < 4 && !s.lives(j) ==> #[trigger] next.snakes@[j] == start.snakes@[j],
            forall|j: int|
                0 <= j < 4 ==> (#[trigger] next@.snakes[j]).body == s.snakes[j].body
                    && next@.snakes[j].health == s.snakes[j].health,
            forall|j: int|
                next.n_snakes <= j < 4 ==> (#[trigger] next@.snakes[j]) == s.snakes[j],
            forall|j: int|
                0 <= j < i ==> ((#[trigger] next@.snakes[j]).alive <==> wins_head_on(s, j)),
            forall|j: int|
                i <= j < next.n_snakes ==> ((#[trigger] next@.snakes[j]).alive <==> s.lives(j)
                    && !beaten_below(s, j, i as int)),
        decreases next.n_snakes - i,
    {
        let ghost me = i as int;
        if next.snakes[i].alive {
            let ghost here = next@;
            assert(here.snakes[me].alive);
            let mut j: usize = i + 1;
            while j < next.n_snakes
                invariant
                    i < j <= next.n_snakes <= 4,
                    me == i,
                    s.lives(me),
                    !beaten_below(s, me, me),
                    next.wf(),
                    s == start@,
                    next.n_snakes == start.n_snakes,
                    next.turn == start.turn,
                    next.food == start.food,
                    forall|j: int|
                        0 <= j < 4 && !s.lives(j) ==> #[trigger] next.snakes@[j]
                            == start.snakes@[j],
                    forall|k: int|
                        0 <= k < 4 ==> (#[trigger] next@.snakes[k]).body == s.snakes[k].body
                            && next@.snakes[k].health == s.snakes[k].health,
                    forall|k: int|
                        next.n_snakes <= k < 4 ==> (#[trigger] next@.snakes[k]) == s.snakes[k],
                    forall|k: int|
                        0 <= k < i ==> ((#[trigger] next@.snakes[k]).alive <==> wins_head_on(
                            s,
                            k,
                        )),
                    next@.snakes[me].alive <==> forall|k: int|
                        me < k < j && #[trigger] meet(s, me, k) && !beaten_below(s, k, me)
                            ==> s.snakes[me].body.len() > s.snakes[k].body.len(),
                    forall|k: int|
                        i < k < j ==> ((#[trigger] next@.snakes[k]).alive <==> s.lives(k)
                            && !beaten_below(s, k, me + 1)),
                    forall|k: int|
                        j <= k < next.n_snakes ==> ((#[trigger] next@.snakes[k]).alive <==> s.lives(
                            k,
                        ) && !beaten_below(s, k, me)),
                decreases next.n_snakes - j,
            {
                let ghost other = j as int;
                let ghost here = *next;
                assert(next@.snakes[other].body == s.snakes[other].body);
                assert(next@.snakes[me].body == s.snakes[me].body);
                assert(here.snakes@[me].wf() && here.snakes@[other].wf());
                if next.snakes[j].alive {
                    if next.snakes[i].head() == next.snakes[j].head() {
                        if next.snakes[i].length <= next.snakes[j].length {
                            next.snakes[i].alive = false;
                        }
                        if next.snakes[j].length <= next.snakes[i].length {
                            next.snakes[j].alive = false;
                        }
                    }
                }
                proof {
                    assert(next.snakes@[me]@.body =~= here.snakes@[me]@.body);
                    assert(next.snakes@[other]@.body =~= here.snakes@[other]@.body);
                    assert forall|k: int| 0 <= k < 4 && k != me && k
                        != other implies #[trigger] next@.snakes[k] == here@.snakes[k] by {
                        assert(next.snakes@[k] == here.snakes@[k]);
                    }
                    assert(s.snakes[me].body.len() == next.snakes@[me].length);
                    assert(s.snakes[other].body.len() == next.snakes@[other].length);
                    assert(here@.snakes[other].alive <==> s.lives(other) && !beaten_below(
                        s,
                        other,
                        me,
                    ));
                    assert(beaten_below(s, other, me + 1) <==> beaten_below(s, other, me) || (meet(
                        s,
                        other,
                        me,
                    ) && s.snakes[other].body.len() <= s.snakes[me].body.len())) by {
                        if beaten_below(s, other, me + 1) && !beaten_below(s, other, me) {
                            let w = choose|w: int|
                                0 <= w < me + 1 && #[trigger] meet(s, other, w)
                                    && s.snakes[other].body.len() <= s.snakes[w].body.len();
                            assert(w == me);
                        }
                        if beaten_below(s, other, me) {
                            let w = choose|w: int|
                                0 <= w < me && #[trigger] meet(s, other, w)
                                    && s.snakes[other].body.len() <= s.snakes[w].body.len();
                            assert(meet(s, other, w));
                        }
                    }
                    assert(meet(s, other, me) == meet(s, me, other));
                }
                j += 1;
            }
            proof {
                lemma_round(s, next@, me);
            }
        } else {
            proof {
                lemma_skipped_round(s, next@, me);
            }
        }
        i += 1;
    }
    proof {
        assert forall|j: int| 0 <= j < 4 implies #[trigger] next@.snakes[j] == after_head_ons(
            s,
        ).snakes[j] by {
            if j < i {
                assert(next@.snakes[j].alive <==> wins_head_on(s, j));
            }
        }
        assert(next@.snakes =~= after_head_ons(s).snakes);
    }
}

/// After the round of snake `me`, its fate is settled, and that of the later
/// snakes takes it into account.
proof fn lemma_round(s: StateModel, t: StateModel, me: int)
    requires
        s.lives(me),
        !beaten_below(s, me, me),
        t.snakes[me].alive <==> forall|k: int|
            me < k < s.n && #[trigger] meet(s, me, k) && !beaten_below(s, k, me)
                ==> s.snakes[me].body.len() > s.snakes[k].body.len(),
    ensures
        t.snakes[me].alive <==> wins_head_on(s, me),
{
    if wins_head_on(s, me) {
        assert forall|k: int| me < k < s.n && #[trigger] meet(s, me, k) && !beaten_below(
            s,
            k,
            me,
        ) implies s.snakes[me].body.len() > s.snakes[k].body.len() by {
            assert(s.lives(k));
        }
    }
    if t.snakes[me].alive {
        assert forall|j: int| #[trigger] s.lives(j) && j != me && s.snakes[j].head()
            == s.snakes[me].head() implies s.snakes[me].body.len() > s.snakes[j].body.len() by {
            assert(meet(s, me, j));
            if j > me && beaten_below(s, j, me) {
                let w = choose|w: int|
                    0 <= w < me && #[trigger] meet(s, j, w) && s.snakes[j].body.len()
                        <= s.snakes[w].body.len();
                assert(meet(s, me, w));
            }
        }
    }
}

/// A snake that is dead when its round comes has lost to an earlier one, which
/// then beats everyone that this snake would have beaten.
proof fn lemma_skipped_round(s: StateModel, t: StateModel, me: int)
    requires
        0 <= me < s.n,
        !t.snakes[me].alive,
        t.snakes[me].alive <==> s.lives(me) && !beaten_below(s, me, me),
    ensures
        !wins_head_on(s, me),
        forall|k: int| me < k < s.n ==> (#[trigger] beaten_below(s, k, me + 1) <==> beaten_below(
            s,
            k,
            me,
        )),
{
    if s.lives(me) {
        let w = choose|w: int|
            0 <= w < me && #[trigger] meet(s, me, w) && s.snakes[me].body.len()
                <= s.snakes[w].body.len();
        assert(s.lives(w));
        assert forall|k: int| me < k < s.n implies (#[trigger] beaten_below(s, k, me + 1)
            <==> beaten_below(s, k, me)) by {
            if beaten_below(s, k, me + 1) {
                let v = choose|v: int|
                    0 <= v < me + 1 && #[trigger] meet(s, k, v) && s.snakes[k].body.len()
                        <= s.snakes[v].body.len();
                if v == me {
                    assert(meet(s, k, w));
                } else {
                    assert(meet(s, k, v));
                }
            }
            if beaten_below(s, k, me) {
                let v = choose|v: int|
                    0 <= v < me && #[trigger] meet(s, k, v) && s.snakes[k].body.len()
                        <= s.snakes[v].body.len();
                assert(meet(s, k, v));
            }
        }
    } else {
        assert forall|k: int| me < k < s.n implies (#[trigger] beaten_below(s, k, me + 1)
            <==> beaten_below(s, k, me)) by {
            if beaten_below(s, k, me + 1) {
                let v = choose|v: int|
                    0 <= v < me + 1 && #[trigger] meet(s, k, v) && s.snakes[k].body.len()
                        <= s.snakes[v].body.len();
                assert(v != me);
                assert(meet(s, k, v));
            }
            if beaten_below(s, k, me) {
                let v = choose|v: int|
                    0 <= v < me && #[trigger] meet(s, k, v) && s.snakes[k].body.len()
                        <= s.snakes[v].body.len();
                assert(meet(s, k, v));
            }
        }
    }
}

/// Plays one turn: every living snake with a direction moves, then snakes die of
/// hunger, of bodies and of head-on collisions. Slots without a living snake are
/// left alone.
pub fn sim_turn(state: &State, dirs: &[Option<Dir>; 4]) -> (next: State)
    requires
        state.wf(),
        state.turn < u32::MAX,
        forall|i: int|
            (#[trigger] landing(state@, dirs@, i)) is Some ==> state@.snakes[i].health > i32::MIN,
        forall|i: int| #[trigger]
            eats(state@, dirs@, i) ==> state@.snakes[i].body.len() < usize::MAX - MAX_BODY,
    ensures
        next.wf(),
        next@ == turned(state@, dirs@),
        forall|i: int|
            0 <= i < 4 && !state@.lives(i) ==> #[trigger] next.snakes@[i] == state.snakes@[i],
{
    let mut next = state.clone();
    move_snakes(&mut next, dirs);
    assert forall|i: int| 0 <= i < 4 && !state@.lives(i) implies !next@.lives(i)
        && #[trigger] next.snakes@[i] == state.snakes@[i] by {}
    kill_crashed(&mut next);
    assert forall|i: int| 0 <= i < 4 && !state@.lives(i) implies !next@.lives(i)
        && #[trigger] next.snakes@[i] == state.snakes@[i] by {}
    kill_head_ons(&mut next);
    next.turn = next.turn + 1;
    assert(next@ =~= turned(state@, dirs@));
    next
}

/// A turn keeps a position valid.
pub proof fn turns_keep_positions_valid(s: StateModel, dirs: Seq<Option<Dir>>)
    requires
        s.valid(),
    ensures
        turned(s, dirs).valid(),
{
    let t = turned(s, dirs);
    assert forall|i: int| 0 <= i < 4 implies (#[trigger] t.snakes[i]).valid() by {
        assert(s.snakes[i].valid());
        if landing(s, dirs, i) is Some {
            let c = landing(s, dirs, i)->0;
            assert(is_cell(c));
            moves_keep_snakes_valid(s.snakes[i], c, eats(s, dirs, i));
        }
        assert(t.snakes[i].body == moved_snake(s, dirs, i).body);
        assert(moved_snake(s, dirs, i).valid());
    }
}

/// A snake that lives after a turn lived before it, has health left, and is the
/// snake that its move made of it. The dead stay dead, and no slot is added.
pub proof fn survivors_lived_before(s: StateModel, dirs: Seq<Option<Dir>>, i: int)
    requires
        s.valid(),
        turned(s, dirs).lives(i),
    ensures
        s.lives(i),
        turned(s, dirs).snakes[i].health > 0,
        turned(s, dirs).snakes[i] == moved_snake(s, dirs, i),
        turned(s, dirs).n == s.n,
{
    let m = moved(s, dirs);
    let c = after_crashes(m);
    assert(c.lives(i));
    assert(m.lives(i));
    assert(turned(s, dirs).snakes[i] =~= moved_snake(s, dirs, i));
}

/// No snake comes back: a turn leaves at most as many alive as before, in any
/// range of slots.
pub proof fn no_snake_comes_back(s: StateModel, dirs: Seq<Option<Dir>>, lo: int, hi: int)
    requires
        s.valid(),
        0 <= lo,
        hi <= s.n,
    ensures
        turned(s, dirs).living(lo, hi) <= s.living(lo, hi),
    decreases hi - lo,
{
    if lo < hi {
        no_snake_comes_back(s, dirs, lo, hi - 1);
        if turned(s, dirs).snakes[hi - 1].alive {
            assert(turned(s, dirs).lives(hi - 1));
            survivors_lived_before(s, dirs, hi - 1);
        }
    }
}

/// Food is only ever eaten during a turn: none appears.
pub proof fn turns_add_no_food(s: StateModel, dirs: Seq<Option<Dir>>)
    ensures
        turned(s, dirs).food.subset_of(s.food),
        turned(s, dirs).turn == s.turn + 1,
{
}

/// A snake that eats has full health and one more segment after the turn, and
/// the food is gone.
pub proof fn food_restores_full_health(s: StateModel, dirs: Seq<Option<Dir>>, i: int)
    requires
        s.valid(),
        eats(s, dirs, i),
    ensures
        turned(s, dirs).snakes[i].health == FOOD_RESTORE,
        turned(s, dirs).snakes[i].body.len() == s.snakes[i].body.len() + 1,
        turned(s, dirs).snakes[i].head() == landing(s, dirs, i)->0,
        !turned(s, dirs).food.contains(landing(s, dirs, i)->0),
{
    let c = landing(s, dirs, i)->0;
    assert(landing(s, dirs, i) == Some(c));
}

/// A move without a meal costs one point of health, and kills a snake that had
/// only one point left.
pub proof fn hunger_kills(s: StateModel, dirs: Seq<Option<Dir>>, i: int)
    requires
        s.valid(),
        landing(s, dirs, i) is Some,
        !eats(s, dirs, i),
    ensures
        turned(s, dirs).snakes[i].health == s.snakes[i].health - 1,
        turned(s, dirs).snakes[i].body.len() == s.snakes[i].body.len(),
        s.snakes[i].health <= 1 ==> !turned(s, dirs).lives(i),
{
    let m = moved(s, dirs);
    assert(m.snakes[i].health == s.snakes[i].health - 1);
    if s.snakes[i].health <= 1 {
        assert(!after_crashes(m).lives(i));
    }
}

/// A move off the board kills.
pub proof fn walls_kill(s: StateModel, dirs: Seq<Option<Dir>>, i: int)
    requires
        s.valid(),
        s.lives(i),
        dirs[i] is Some,
        dirs[i]->0.target(s.snakes[i].head()) is None,
    ensures
        !turned(s, dirs).lives(i),
{
    let m = moved(s, dirs);
    assert(!m.lives(i));
    assert(!after_crashes(m).lives(i));
}

/// A head on a body kills.
pub proof fn bodies_kill(s: StateModel, dirs: Seq<Option<Dir>>, i: int)
    requires
        s.valid(),
        trunks(moved(s, dirs)).contains(moved(s, dirs).snakes[i].head()),
    ensures
        !turned(s, dirs).lives(i),
{
    assert(!after_crashes(moved(s, dirs)).lives(i));
}

/// Two snakes that are alive when their heads meet do not both survive: the
/// shorter one dies, and of equals neither is left.
pub proof fn head_on_the_longer_wins(s: StateModel, dirs: Seq<Option<Dir>>, i: int, j: int)
    requires
        s.valid(),
        i != j,
        after_crashes(moved(s, dirs)).lives(i),
        after_crashes(moved(s, dirs)).lives(j),
        moved(s, dirs).snakes[i].head() == moved(s, dirs).snakes[j].head(),
        moved(s, dirs).snakes[i].body.len() <= moved(s, dirs).snakes[j].body.len(),
    ensures
        !turned(s, dirs).lives(i),
        moved(s, dirs).snakes[i].body.len() == moved(s, dirs).snakes[j].body.len() ==> !turned(
            s,
            dirs,
        ).lives(j),
{
    let c = after_crashes(moved(s, dirs));
    assert(c.snakes[i].head() == c.snakes[j].head());
    assert(!wins_head_on(c, i));
    if moved(s, dirs).snakes[i].body.len() == moved(s, dirs).snakes[j].body.len() {
        assert(!wins_head_on(c, j));
    }
}

/// The head of a snake that survives a turn is on no body, its own included.
pub proof fn survivors_are_on_no_body(s: StateModel, dirs: Seq<Option<Dir>>, i: int)
    requires
        s.valid(),
        turned(s, dirs).lives(i),
    ensures
        !trunks(turned(s, dirs)).contains(turned(s, dirs).snakes[i].head()),
{
    let m = moved(s, dirs);
    let t = turned(s, dirs);
    let h = t.snakes[i].head();
    survivors_lived_before(s, dirs, i);
    assert(unharmed(m, i)) by {
        assert(after_crashes(m).lives(i));
    }
    if trunks(t).contains(h) {
        let j = choose|j: int| #[trigger] t.lives(j) && t.snakes[j].body.skip(1).contains(h);
        survivors_lived_before(s, dirs, j);
        assert(after_crashes(m).lives(j));
        assert(m.lives(j) && m.snakes[j].body.skip(1).contains(h));
    }
}

/// A snake that survives a turn fits the board: a longer body would repeat the
/// cell of its head.
pub proof fn survivors_fit_the_board(s: StateModel, dirs: Seq<Option<Dir>>, i: int)
    requires
        s.valid(),
        turned(s, dirs).lives(i),
    ensures
        turned(s, dirs).snakes[i].body.len() <= MAX_BODY,
{
    let t = turned(s, dirs);
    turns_keep_positions_valid(s, dirs);
    survivors_are_on_no_body(s, dirs, i);
    assert(t.snakes[i].valid());
    let body = t.snakes[i].body;
    if body.len() > MAX_BODY {
        assert(body[121] == body[121int % 121]);
        assert(body.skip(1)[120] == body[0]);
        assert(body.skip(1).contains(body[0]));
    }
}

/// Where snake `i` is told to go, if it lives and stays on the board with that.
pub open spec fn step_of(s: StateModel, dirs: Seq<Option<Dir>>, i: int) -> Option<Cell> {
    if 0 <= i < s.n && s.snakes[i].alive && dirs[i] is Some {
        dirs[i]->0.target(s.snakes[i].body[0])
    } else {
        None
    }
}

/// What a turn makes of a snake. One that does not live or has no direction is as
/// before. One that leaves the board is dead. One that moves has its head on the
/// new cell and its body behind it; it is full and a segment longer if there was
/// food that no earlier snake took, and else it has lost one point of health.
pub proof fn what_a_turn_makes_of_a_snake(s: StateModel, dirs: Seq<Option<Dir>>, i: int)
    requires
        s.valid(),
        0 <= i < 4,
    ensures
        ({
            let b = s.snakes[i];
            let t = turned(s, dirs).snakes[i];
            let first = forall|j: int|
                0 <= j < i ==> #[trigger] step_of(s, dirs, j) != step_of(s, dirs, i);
            let meal = s.food.contains(step_of(s, dirs, i)->0) && first;
            &&& !(i < s.n && b.alive) || dirs[i] is None ==> t.health == b.health && t.body == b.body
            &&& i >= s.n ==> t == b
            &&& i < s.n && !b.alive ==> !t.alive
            &&& i < s.n && dirs[i] is Some && dirs[i]->0.target(b.body[0]) is None ==> !t.alive
            &&& step_of(s, dirs, i) is Some ==> t.body[0] == step_of(s, dirs, i)->0
            &&& step_of(s, dirs, i) is Some ==> forall|k: int|
                1 <= k < t.body.len() && k < 121 ==> #[trigger] t.body[k] == b.body[k - 1]
            &&& step_of(s, dirs, i) is Some && meal ==> t.health == 100 && t.body.len()
                == b.body.len() + 1
            &&& step_of(s, dirs, i) is Some && !meal ==> t.health == b.health - 1 && t.body.len()
                == b.body.len()
        }),
        turned(s, dirs).n == s.n,
        turned(s, dirs).turn == s.turn + 1,
{
    let t = turned(s, dirs);
    assert forall|j: int| #[trigger] step_of(s, dirs, j) == landing(s, dirs, j) by {}
    assert(s.snakes[i].valid());
    assert(t.snakes[i].body == moved_snake(s, dirs, i).body);
    assert(t.snakes[i].health == moved_snake(s, dirs, i).health);
    if step_of(s, dirs, i) is Some {
        let c = step_of(s, dirs, i)->0;
        assert(eats(s, dirs, i) <==> s.food.contains(c) && forall|j: int|
            0 <= j < i ==> #[trigger] step_of(s, dirs, j) != Some(c)) by {
            if forall|j: int| 0 <= j < i ==> #[trigger] step_of(s, dirs, j) != Some(c) {
                assert forall|j: int| 0 <= j < i implies #[trigger] landing(s, dirs, j) != Some(
                    c,
                ) by {
                    assert(step_of(s, dirs, j) != Some(c));
                }
            }
            if forall|j: int| 0 <= j < i ==> #[trigger] landing(s, dirs, j) != Some(c) {
                assert forall|j: int| 0 <= j < i implies #[trigger] step_of(s, dirs, j) != Some(
                    c,
                ) by {
                    assert(landing(s, dirs, j) != Some(c));
                }
            }
        }
    }
}

/// Food stays exactly where no snake went.
pub proof fn food_stays_where_nobody_went(s: StateModel, dirs: Seq<Option<Dir>>, c: Cell)
    requires
        s.valid(),
    ensures
        turned(s, dirs).food.contains(c) <==> s.food.contains(c) && forall|j: int|
            0 <= j < 4 ==> #[trigger] step_of(s, dirs, j) != Some(c),
{
    assert forall|j: int| #[trigger] step_of(s, dirs, j) == landing(s, dirs, j) by {}
    if forall|j: int| 0 <= j < 4 ==> #[trigger] step_of(s, dirs, j) != Some(c) {
        assert forall|j: int| #[trigger] landing(s, dirs, j) != Some(c) by {
            assert(step_of(s, dirs, j) == landing(s, dirs, j));
        }
    }
    if exists|j: int| 0 <= j < 4 && #[trigger] step_of(s, dirs, j) == Some(c) {
        let j = choose|j: int| 0 <= j < 4 && #[trigger] step_of(s, dirs, j) == Some(c);
        assert(landing(s, dirs, j) == Some(c));
    }
}

/// Snake `i` is alive once all snakes have moved, before anyone dies of the moves.
pub open spec fn stays_on_the_board(s: StateModel, dirs: Seq<Option<Dir>>, i: int) -> bool {
    0 <= i < s.n && s.snakes[i].alive && (dirs[i] is None || step_of(s, dirs, i) is Some)
}

/// Who survives a turn: those that stay on the board with health left, whose head
/// is on no segment behind the head of any snake on the board, and who are longer
/// than every other snake with health left whose head is on the same cell.
pub proof fn who_survives_a_turn(s: StateModel, dirs: Seq<Option<Dir>>, i: int)
    requires
        s.valid(),
        0 <= i < s.n,
    ensures
        ({
            let t = turned(s, dirs).snakes;
            t[i].alive <==> {
                &&& stays_on_the_board(s, dirs, i)
                &&& t[i].health > 0
                &&& forall|j: int, k: int|
                    stays_on_the_board(s, dirs, j) && 1 <= k < t[j].body.len()
                        ==> #[trigger] t[j].body[k] != t[i].body[0]
                &&& forall|j: int| #[trigger]
                    stays_on_the_board(s, dirs, j) && j != i && t[j].health > 0 && t[j].body[0]
                        == t[i].body[0] ==> t[i].body.len() > t[j].body.len()
            }
        }),
{
    let m = moved(s, dirs);
    let c = after_crashes(m);
    let t = turned(s, dirs).snakes;
    assert forall|j: int| 0 <= j < 4 implies (#[trigger] t[j]).body == m.snakes[j].body
        && t[j].health == m.snakes[j].health by {}
    assert forall|j: int| #[trigger] stays_on_the_board(s, dirs, j) == m.lives(j) by {
        if s.lives(j) {
            assert(step_of(s, dirs, j) == landing(s, dirs, j));
        }
    }
    let h = m.snakes[i].head();
    let clear = forall|j: int, k: int|
        stays_on_the_board(s, dirs, j) && 1 <= k < t[j].body.len() ==> #[trigger] t[j].body[k] != h;
    assert(clear <==> !trunks(m).contains(h)) by {
        if trunks(m).contains(h) {
            let j = choose|j: int| #[trigger]
                m.lives(j) && m.snakes[j].body.skip(1).contains(h);
            let k = choose|k: int|
                0 <= k < m.snakes[j].body.skip(1).len() && m.snakes[j].body.skip(1)[k] == h;
            assert(stays_on_the_board(s, dirs, j));
            assert(t[j].body[k + 1] == h);
        }
        if !clear {
            let (j, k) = choose|j: int, k: int|
                stays_on_the_board(s, dirs, j) && 1 <= k < t[j].body.len()
                    && #[trigger] t[j].body[k] == h;
            assert(m.lives(j));
            assert(m.snakes[j].body.skip(1)[k - 1] == h);
            assert(m.snakes[j].body.skip(1).contains(h));
        }
    }
    assert(c.lives(i) <==> unharmed(m, i));
    assert(t[i].alive <==> wins_head_on(c, i));
    if unharmed(m, i) {
        assert forall|j: int| #[trigger] stays_on_the_board(s, dirs, j) && t[j].health > 0
            && t[j].body[0] == h implies c.lives(j) by {
            assert(m.lives(j));
            assert(unharmed(m, j));
        }
        if wins_head_on(c, i) {
            assert forall|j: int| #[trigger]
                stays_on_the_board(s, dirs, j) && j != i && t[j].health > 0 && t[j].body[0]
                    == h implies t[i].body.len() > t[j].body.len() by {
                assert(c.lives(j) && c.snakes[j].head() == c.snakes[i].head());
            }
        }
        if forall|j: int| #[trigger]
            stays_on_the_board(s, dirs, j) && j != i && t[j].health > 0 && t[j].body[0] == h
                ==> t[i].body.len() > t[j].body.len() {
            assert forall|j: int| #[trigger]
                c.lives(j) && j != i && c.snakes[j].head()
                    == c.snakes[i].head() implies c.snakes[i].body.len()
                > c.snakes[j].body.len() by {
                assert(m.lives(j) && unharmed(m, j));
                assert(stays_on_the_board(s, dirs, j));
            }
        }
    }
}

} // verus!
