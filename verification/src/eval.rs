//! The value of a position for the player.
use vstd::prelude::*;

use crate::enemy::{HP_CRITICAL, HP_LOW};
use crate::fill::flood_fill;
use crate::grid::{gap, is_cell, manhattan, Cell, Dir, CELLS};
use crate::path::{nearest, nearest_food, the_way_to_food_leads_to_food};
use crate::state::{State, StateModel};
use crate::voronoi::{territories_are_disjoint, territory, voronoi};
use crate::walk::{lemma_region, region};

verus! {

/// Health at or below which food has some urgency.
pub const HP_MEDIUM: i32 = 70;

/// Length that scores can be computed with.
pub const LENGTH_LIMIT: usize = 20_000_000;

/// The value of a position that the player has won.
pub open spec fn won(health: int, len: nat) -> int {
    10_000_000 + health * 100 + len * 50
}

/// Scores are `i32`: they can be computed even after `turns` more turns, which
/// lower health or restore it, and lengthen bodies.
pub open spec fn scorable(s: StateModel, turns: nat) -> bool {
    &&& forall|i: int|
        0 <= i < 4 && (#[trigger] s.snakes[i]).alive ==> s.snakes[i].health - turns >= i32::MIN
            && s.snakes[i].body.len() + turns <= LENGTH_LIMIT
    &&& s.me().alive ==> {
        &&& i32::MIN <= (s.me().health - turns) * 100
        &&& won(s.me().health, s.me().body.len() + turns) < i32::MAX
    }
}

/// Space: counts more where it is a multiple of the length, and lack of it for
/// the body is a heavy loss.
pub open spec fn fill_score(fill: int, len: int) -> int {
    if fill >= 4 * len {
        fill * 6
    } else if fill >= 2 * len {
        fill * 5
    } else if fill >= len {
        fill * 3
    } else {
        fill - len * 20
    }
}

/// How urgent food is at a health.
pub open spec fn urgency(health: int) -> int {
    if health <= HP_CRITICAL {
        500
    } else if health <= HP_LOW {
        150
    } else if health <= HP_MEDIUM {
        40
    } else {
        10
    }
}

/// Food: near food counts by urgency; food that hunger does not leave time to
/// reach, and no food at all, are heavy losses.
pub open spec fn food_score(health: int, food: Option<(nat, Dir)>) -> int {
    match food {
        Some((dist, _)) => if dist >= health {
            -80_000 + dist * 100
        } else {
            urgency(health) * 30 / (dist + 1int)
        },
        None => -60_000,
    }
}

/// The length of the longest living opponent in the slots below `n`, or 0.
pub open spec fn longest_below(s: StateModel, n: int) -> nat
    decreases n,
{
    if n <= 1 {
        0
    } else if s.snakes[n - 1].alive && s.snakes[n - 1].body.len() > longest_below(s, n - 1) {
        s.snakes[n - 1].body.len()
    } else {
        longest_below(s, n - 1)
    }
}

/// Length: an advantage over the longest opponent.
pub open spec fn length_score(len: int, longest: int) -> int {
    if len > longest {
        30 + (len - longest) * 8
    } else {
        (len - longest) * 10
    }
}

/// What the head of one opponent counts: near a snake that is at least as long
/// there is danger, near a shorter one a chance.
pub open spec fn threat(s: StateModel, i: int) -> int {
    let d = gap(s.me().head(), s.snakes[i].head());
    if !s.snakes[i].alive {
        0
    } else if s.snakes[i].body.len() >= s.me().body.len() {
        if d <= 1 {
            -200
        } else if d <= 2 {
            -80
        } else if d <= 3 {
            -25
        } else {
            0
        }
    } else if d <= 2 {
        25
    } else {
        0
    }
}

/// The sum of the threats from the slots below `n`.
pub open spec fn threats_below(s: StateModel, n: int) -> int
    decreases n,
{
    if n <= 1 {
        0
    } else {
        threats_below(s, n - 1) + threat(s, n - 1)
    }
}

/// The lowest slot from `i` on that holds a living snake; slot 1 where there is
/// none.
pub open spec fn first_living(s: StateModel, i: int) -> int
    decreases s.n - i,
{
    if i >= s.n {
        1
    } else if s.snakes[i].alive {
        i
    } else {
        first_living(s, i + 1)
    }
}

/// Against a last opponent: the difference of territories, and distance, which
/// is to be short to a shorter opponent and long to the others.
pub open spec fn duel_score(s: StateModel) -> int {
    let obs = s.obstacles();
    let e = first_living(s, 1);
    let d = gap(s.me().head(), s.snakes[e].head());
    (territory(s, obs, 0).len() - territory(s, obs, e).len()) * 6 + if s.me().body.len()
        > s.snakes[e].body.len() {
        -5 * d
    } else {
        3 * d
    }
}

/// Half the health, rounded towards 0.
pub open spec fn half(health: int) -> int {
    if health >= 0 {
        health / 2
    } else {
        -((-health) / 2)
    }
}

/// The penalty for space that the body does not fit into, or only just fits.
pub open spec fn trap_penalty(fill: int, len: int) -> int {
    if fill < len {
        (len - fill) * 40
    } else if fill < len * 3 / 2 {
        (len * 3 / 2 - fill) * 10
    } else {
        0
    }
}

/// The value of a position: lost without the player, won without opponents, and
/// otherwise the sum of what space, food, territory, length, danger, the duel
/// and health count, less the trap penalty.
pub open spec fn evaluation(s: StateModel) -> int {
    let me = s.me();
    let obs = s.obstacles();
    let len = me.body.len() as int;
    let fill = region(obs, me.head()).len() as int;
    if !me.alive {
        -100_000_000
    } else if s.opponents() == 0 {
        won(me.health, me.body.len())
    } else {
        fill_score(fill, len) + food_score(me.health, nearest(me.head(), s.food, obs)) + territory(
            s,
            obs,
            0,
        ).len() * (if s.opponents() == 1 {
            8int
        } else {
            5
        }) + length_score(len, longest_below(s, s.n as int) as int) + threats_below(s, s.n as int)
            + (if s.opponents() == 1 {
            duel_score(s)
        } else {
            0
        }) + half(me.health) - trap_penalty(fill, len)
    }
}

fn fill_part(fill: i32, len: i32) -> (r: i32)
    requires
        0 <= fill <= CELLS,
        1 <= len <= LENGTH_LIMIT,
    ensures
        r == fill_score(fill as int, len as int),
        -400_000_000 <= r <= 726,
{
    if fill >= 4 * len {
        fill * 6
    } else if fill >= 2 * len {
        fill * 5
    } else if fill >= len {
        fill * 3
    } else {
        fill - len * 20
    }
}

fn food_part(health: i32, food: Option<(u32, Dir)>) -> (r: i32)
    requires
        food is Some ==> (food->0).0 <= CELLS,
    ensures
        r == food_score(
            health as int,
            match food {
                Some((d, dir)) => Some((d as nat, dir)),
                None => None,
            },
        ),
        -80_000 <= r <= 15_000,
{
    match food {
        Some((dist, _)) => {
            let dist: i32 = dist as i32;
            if dist >= health {
                -80_000 + dist * 100
            } else {
                let urgency: i32 = if health <= HP_CRITICAL {
                    500
                } else if health <= HP_LOW {
                    150
                } else if health <= HP_MEDIUM {
                    40
                } else {
                    10
                };
                let total = urgency * 30;
                let share = total / (dist + 1);
                assert(share == total as int / (dist + 1));
                assert(0 <= share <= total) by (nonlinear_arith)
                    requires
                        share == total as int / (dist + 1),
                        dist >= 0,
                        total >= 0,
                ;
                share
            }
        },
        None => -60_000,
    }
}

fn length_part(state: &State, len: i32) -> (r: i32)
    requires
        state.wf(),
        scorable(state@, 0),
        1 <= len <= LENGTH_LIMIT,
    ensures
        r == length_score(len as int, longest_below(state@, state@.n as int) as int),
        -200_000_000 <= r <= 160_000_030,
{
    let ghost s = state@;
    let mut longest: i32 = 0;
    let mut i: usize = 1;
    while i < state.n_snakes
        invariant
            1 <= i,
            i <= state.n_snakes || i == 1,
            state.wf(),
            s == state@,
            scorable(s, 0),
            longest == longest_below(s, i as int),
            0 <= longest <= LENGTH_LIMIT,
        decreases state.n_snakes - i,
    {
        assert(s.snakes[i as int] == state.snakes@[i as int]@);
        if state.snakes[i].alive {
            let n: i32 = state.snakes[i].length as i32;
            if n > longest {
                longest = n;
            }
        }
        i += 1;
    }
    proof {
        if s.n <= 1 {
            assert(longest_below(s, s.n as int) == 0);
        }
    }
    if len > longest {
        30 + (len - longest) * 8
    } else {
        (len - longest) * 10
    }
}

fn threat_part(state: &State) -> (r: i32)
    requires
        state.wf(),
    ensures
        r == threats_below(state@, state@.n as int),
        -600 <= r <= 75,
{
    let ghost s = state@;
    assert(state.snakes@[0].wf());
    let me = state.player();
    let head = me.head();
    let mut sum: i32 = 0;
    let mut i: usize = 1;
    while i < state.n_snakes
        invariant
            1 <= i,
            i <= state.n_snakes || i == 1,
            state.wf(),
            s == state@,
            me@ == s.me(),
            me.length == s.me().body.len(),
            head == s.me().head(),
            is_cell(head),
            sum == threats_below(s, i as int),
            -200 * (i - 1) <= sum <= 25 * (i - 1),
        decreases state.n_snakes - i,
    {
        assert(state.snakes@[i as int].wf());
        let e = &state.snakes[i];
        assert(s.snakes[i as int] == e@);
        if e.alive {
            let d = manhattan(head, e.head());
            if e.length >= me.length {
                sum += if d <= 1 {
                    -200
                } else if d <= 2 {
                    -80
                } else if d <= 3 {
                    -25
                } else {
                    0
                };
            } else if d <= 2 {
                sum += 25;
            }
        }
        i += 1;
    }
    sum
}

fn duel_part(state: &State, terr: &[u32; 4]) -> (r: i32)
    requires
        state.wf(),
        forall|i: int|
            0 <= i < 4 ==> #[trigger] terr@[i] == territory(
                state@,
                state@.obstacles(),
                i,
            ).len() && terr@[i] <= CELLS,
    ensures
        r == duel_score(state@),
        -1_000 <= r <= 1_000,
{
    let ghost s = state@;
    let mut ei: usize = 1;
    while ei < state.n_snakes && !state.snakes[ei].alive
        invariant
            1 <= ei,
            ei <= state.n_snakes || ei == 1,
            state.n_snakes <= 4,
            s == state@,
            first_living(s, 1) == first_living(s, ei as int),
        decreases state.n_snakes - ei,
    {
        ei += 1;
    }
    if ei >= state.n_snakes {
        ei = 1;
    }
    assert(ei == first_living(s, 1));
    assert(state.snakes@[0].wf() && state.snakes@[ei as int].wf());
    let me = state.player();
    let e = &state.snakes[ei];
    assert(s.snakes[ei as int] == e@);
    assert(terr@[0] <= CELLS && terr@[ei as int] <= CELLS);
    let my_t: i32 = terr[0] as i32;
    let et: i32 = terr[ei] as i32;
    let d = manhattan(me.head(), e.head());
    let chase_flee = if me.length > e.length {
        -d * 5
    } else {
        d * 3
    };
    (my_t - et) * 6 + chase_flee
}

fn penalty_part(fill: i32, len: i32) -> (r: i32)
    requires
        0 <= fill <= CELLS,
        1 <= len <= LENGTH_LIMIT,
    ensures
        r == trap_penalty(fill as int, len as int),
        0 <= r <= 800_000_000,
{
    if fill < len {
        (len - fill) * 40
    } else if fill < len * 3 / 2 {
        (len * 3 / 2 - fill) * 10
    } else {
        0
    }
}

/// The value of a position for the player.
pub fn evaluate(state: &State) -> (r: i32)
    requires
        state.wf(),
        scorable(state@, 0),
    ensures
        r == evaluation(state@),
        i32::MIN < r < i32::MAX,
{
    let ghost s = state@;
    assert(state.snakes@[0].wf());
    let me = state.player();
    assert(s.snakes[0] == me@);
    if !me.alive {
        return -100_000_000;
    }
    let n_enemies = state.enemy_alive();
    let body_len: i32 = me.length as i32;
    if n_enemies == 0 {
        return 10_000_000 + me.health * 100 + body_len * 50;
    }
    let obs = state.obs();
    let head = me.head();
    let my_fill: i32 = flood_fill(head, obs) as i32;
    let fill_score = fill_part(my_fill, body_len);
    let food_score = food_part(me.health, nearest_food(head, state.food, obs));
    let terr = voronoi(state, obs);
    assert(terr@[0] <= CELLS);
    let is_1v1 = n_enemies == 1;
    let voro_score = terr[0] as i32 * if is_1v1 {
        8
    } else {
        5
    };
    let len_score = length_part(state, body_len);
    let danger_score = threat_part(state);
    let endgame_score = if is_1v1 {
        duel_part(state, &terr)
    } else {
        0
    };
    let hp_score = me.health / 2;
    let trap_penalty = penalty_part(my_fill, body_len);
    fill_score + food_score + voro_score + len_score + danger_score + endgame_score + hp_score
        - trap_penalty
}

proof fn lemma_longest_below(s: StateModel, n: int)
    requires
        n <= 4,
        scorable(s, 0),
    ensures
        longest_below(s, n) <= LENGTH_LIMIT,
    decreases n,
{
    if n > 1 {
        lemma_longest_below(s, n - 1);
    }
}

proof fn lemma_first_living(s: StateModel, i: int)
    requires
        0 <= i,
        s.n <= 4,
    ensures
        0 <= first_living(s, i) < 4,
    decreases s.n - i,
{
    if i < s.n && !s.snakes[i].alive {
        lemma_first_living(s, i + 1);
    }
}

proof fn lemma_threats_below(s: StateModel, n: int)
    ensures
        n >= 1 ==> -200 * (n - 1) <= threats_below(s, n) <= 25 * (n - 1),
        n < 1 ==> threats_below(s, n) == 0,
    decreases n,
{
    if n > 1 {
        lemma_threats_below(s, n - 1);
    }
}

proof fn lemma_space_scores(fill: int, len: int)
    requires
        0 <= fill <= CELLS,
        1 <= len <= LENGTH_LIMIT,
    ensures
        -400_000_000 <= fill_score(fill, len) <= 726,
        0 <= trap_penalty(fill, len) <= 800_000_000,
{
}

proof fn lemma_food_score(health: int, head: Cell, food: Set<Cell>, obs: Set<Cell>)
    requires
        is_cell(head),
    ensures
        -80_000 <= food_score(health, nearest(head, food, obs)) <= 15_000,
{
    if let Some((d, dir)) = nearest(head, food, obs) {
        let f = the_way_to_food_leads_to_food(head, food, obs);
        let total = urgency(health) * 30;
        assert(0 <= total / (d + 1int) <= total) by (nonlinear_arith)
            requires
                total >= 0,
                d >= 0,
        ;
    }
}

proof fn lemma_gap(a: Cell, b: Cell)
    requires
        is_cell(a),
        is_cell(b),
    ensures
        0 <= gap(a, b) <= 20,
{
}

proof fn lemma_duel_score(s: StateModel)
    requires
        s.valid(),
    ensures
        -1_000 <= duel_score(s) <= 1_000,
{
    lemma_first_living(s, 1);
    let e = first_living(s, 1);
    let obs = s.obstacles();
    assert(s.snakes[0].valid() && s.snakes[e].valid());
    lemma_gap(s.me().head(), s.snakes[e].head());
    territories_are_disjoint(s, obs, 0, e);
    territories_are_disjoint(s, obs, e, 0);
}

/// The value of a position fits an `i32`, with room on both sides.
pub proof fn evaluations_are_bounded(s: StateModel)
    requires
        s.valid(),
        scorable(s, 0),
    ensures
        i32::MIN < evaluation(s) < i32::MAX,
{
    let me = s.me();
    let obs = s.obstacles();
    let len = me.body.len() as int;
    let fill = region(obs, me.head()).len() as int;
    assert(s.snakes[0].valid());
    lemma_region(obs, me.head());
    if me.alive {
        assert(s.snakes[0].alive);
        lemma_space_scores(fill, len);
        lemma_food_score(me.health, me.head(), s.food, obs);
        lemma_longest_below(s, s.n as int);
        let longest = longest_below(s, s.n as int) as int;
        assert(-200_000_000 <= length_score(len, longest) <= 160_000_030);
        lemma_threats_below(s, s.n as int);
        lemma_duel_score(s);
        territories_are_disjoint(s, obs, 0, 0);
    }
}

proof fn lemma_longest_fits(s: StateModel, n: int)
    requires
        n <= 4,
        forall|i: int| 0 <= i < 4 && (#[trigger] s.snakes[i]).alive ==> s.snakes[i].body.len() <= 121,
    ensures
        longest_below(s, n) <= 121,
    decreases n,
{
    if n > 1 {
        lemma_longest_fits(s, n - 1);
    }
}

/// With snakes that fit the board and a player in health, a contested position is
/// worth more than any lost one and less than any won one, by far.
pub proof fn contested_positions_lie_between_lost_and_won(s: StateModel)
    requires
        s.valid(),
        s.me().alive,
        s.opponents() > 0,
        1 <= s.me().health <= 100,
        forall|i: int| 0 <= i < 4 && (#[trigger] s.snakes[i]).alive ==> s.snakes[i].body.len() <= 121,
    ensures
        -100_000 < evaluation(s) < 20_000,
        forall|t: StateModel| !t.me().alive ==> #[trigger] evaluation(t) < evaluation(s),
        forall|t: StateModel|
            t.me().alive && t.opponents() == 0 && t.me().health >= 1 ==> evaluation(s)
                < #[trigger] evaluation(t),
{
    let me = s.me();
    let obs = s.obstacles();
    let len = me.body.len() as int;
    let fill = region(obs, me.head()).len() as int;
    assert(s.snakes[0].valid() && s.snakes[0].alive);
    lemma_region(obs, me.head());
    lemma_food_score(me.health, me.head(), s.food, obs);
    lemma_longest_fits(s, s.n as int);
    let longest = longest_below(s, s.n as int) as int;
    assert(-1_210 <= length_score(len, longest) <= 998);
    assert(-2_420 <= fill_score(fill, len) <= 726);
    assert(0 <= trap_penalty(fill, len) <= 4_840);
    lemma_threats_below(s, s.n as int);
    lemma_duel_score(s);
    territories_are_disjoint(s, obs, 0, 0);
    assert(0 <= half(me.health) <= 50);
}

/// More space never counts less, for a given length. It counts for something
/// wherever the body fits: three points a cell, five where the space is twice the
/// length and six where it is four times the length. A cell short of the length is
/// worth one point, and each segment then costs twenty.
pub proof fn more_space_counts_more(a: int, b: int, len: int)
    requires
        0 <= a <= b,
        len >= 1,
    ensures
        fill_score(a, len) <= fill_score(b, len),
        fill_score(b, len) - fill_score(a, len) >= b - a,
        a >= len ==> 0 < 3 * a <= fill_score(a, len) <= 6 * a,
        a < len ==> fill_score(a, len) < 0,
        4 * len <= a ==> fill_score(b, len) - fill_score(a, len) == 6 * (b - a) && fill_score(
            a,
            len,
        ) == 6 * a,
        2 * len <= a && b < 4 * len ==> fill_score(b, len) - fill_score(a, len) == 5 * (b - a)
            && fill_score(a, len) == 5 * a,
        len <= a && b < 2 * len ==> fill_score(b, len) - fill_score(a, len) == 3 * (b - a)
            && fill_score(a, len) == 3 * a,
        b < len ==> fill_score(b, len) - fill_score(a, len) == b - a && fill_score(a, len) == a - 20
            * len,
{
}

/// Food is the more urgent the lower health is, and always counts.
pub proof fn low_health_makes_food_urgent(a: int, b: int)
    requires
        a <= b,
    ensures
        urgency(a) >= urgency(b) > 0,
        a <= 20 < b ==> urgency(a) > 3 * urgency(b),
        a <= 45 < b ==> urgency(a) > 3 * urgency(b),
        a <= 70 < b ==> urgency(a) >= 4 * urgency(b),
        b <= 20 ==> urgency(a) == urgency(b) == 500,
        20 < a && b <= 45 ==> urgency(a) == urgency(b) == 150,
        45 < a && b <= 70 ==> urgency(a) == urgency(b) == 40,
        70 < a ==> urgency(a) == urgency(b) == 10,
{
}

/// Food in time is worth its urgency thirty times over, shared out over the moves
/// to it, so that nearer food is worth no less. No food at all is a heavy loss, and
/// food that hunger leaves no time for a heavier one.
pub proof fn near_food_is_worth_more(health: int, near: nat, far: nat, d: Dir, e: Dir)
    requires
        near <= far,
        far < 121,
    ensures
        ({
            let v = food_score(health, Some((near, d)));
            let w = food_score(health, Some((far, e)));
            let none = food_score(health, None);
            &&& far < health ==> v >= w >= 0
            &&& near < health ==> v * (near + 1) <= urgency(health) * 30 < (v + 1) * (near + 1)
            &&& near < health <= far ==> w < none < 0 <= v
            &&& health <= near ==> w - v == 100 * (far - near) && v < none
            &&& health <= 0 ==> food_score(health, Some((0, d))) == -80_000
            &&& none == -60_000
        }),
{
    let u = urgency(health) * 30;
    assert(u >= 0);
    let g = near + 1int;
    let h = far + 1int;
    assert(u / h <= u / g && 0 <= u / h) by (nonlinear_arith)
        requires
            0 < g <= h,
            u >= 0,
    ;
    assert((u / g) * g <= u && u < (u / g + 1) * g) by (nonlinear_arith)
        requires
            g > 0,
            u >= 0,
    ;
}

/// The longest opponent is a living one that no living opponent exceeds, and
/// counts 0 where there is none.
pub proof fn the_longest_opponent_is_longest(s: StateModel, n: int)
    ensures
        forall|i: int|
            1 <= i < n && (#[trigger] s.snakes[i]).alive ==> s.snakes[i].body.len()
                <= longest_below(s, n),
        longest_below(s, n) == 0 || exists|i: int|
            1 <= i < n && (#[trigger] s.snakes[i]).alive && s.snakes[i].body.len()
                == longest_below(s, n),
    decreases n,
{
    if n > 1 {
        the_longest_opponent_is_longest(s, n - 1);
        if s.snakes[n - 1].alive && s.snakes[n - 1].body.len() > longest_below(s, n - 1) {
            assert(s.snakes[n - 1].alive);
        } else if longest_below(s, n - 1) > 0 {
            let i = choose|i: int|
                1 <= i < n - 1 && (#[trigger] s.snakes[i]).alive && s.snakes[i].body.len()
                    == longest_below(s, n - 1);
            assert(s.snakes[i].alive);
        }
    }
}

/// Length counts by the difference to the longest opponent: a longer player gains,
/// eight points a segment and thirty at once, a shorter one loses ten a segment.
pub proof fn longer_players_gain(a: int, b: int, longest: int, other: int)
    requires
        a <= b,
    ensures
        a < b ==> length_score(a, longest) < length_score(b, longest),
        length_score(a + other, longest + other) == length_score(a, longest),
        length_score(longest, longest) == 0,
        longest < a ==> length_score(b, longest) - length_score(a, longest) == 8 * (b - a),
        b <= longest ==> length_score(b, longest) - length_score(a, longest) == 10 * (b - a),
        length_score(longest + 1, longest) == 38,
{
}

/// What the head of an opponent means by its distance. One that is no shorter is a
/// danger within three moves, and the nearer the worse; a shorter one within two
/// moves is a chance. The dead and the distant mean nothing.
pub proof fn strong_heads_are_dangers(s: StateModel, i: int, j: int)
    ensures
        ({
            let h = s.snakes[0].body[0];
            let n = s.snakes[0].body.len();
            let (a, b) = (s.snakes[i], s.snakes[j]);
            let (g, k) = (gap(h, a.body[0]), gap(h, b.body[0]));
            let strong = a.alive && a.body.len() >= n;
            &&& !a.alive ==> threat(s, i) == 0
            &&& strong && b.alive && b.body.len() >= n && g <= k ==> threat(s, i) <= threat(s, j)
                <= 0
            &&& strong && b.alive && b.body.len() < n ==> threat(s, i) <= 0 <= threat(s, j)
            &&& strong ==> (threat(s, i) < 0 <==> g <= 3)
            &&& strong && g <= 1 ==> threat(s, i) == -200
            &&& strong && g == 2 ==> threat(s, i) == -80
            &&& strong && g == 3 ==> threat(s, i) == -25
            &&& a.alive && a.body.len() < n && g <= 2 ==> threat(s, i) == 25
            &&& a.alive && a.body.len() < n && g > 2 ==> threat(s, i) == 0
        }),
{
}

/// Every opponent's head counts once.
pub proof fn every_threat_counts_once(s: StateModel)
    ensures
        threats_below(s, 0) == 0,
        threats_below(s, 1) == 0,
        threats_below(s, 2) == threat(s, 1),
        threats_below(s, 3) == threat(s, 1) + threat(s, 2),
        threats_below(s, 4) == threat(s, 1) + threat(s, 2) + threat(s, 3),
{
    reveal_with_fuel(threats_below, 5);
}

proof fn lemma_first_living_is(s: StateModel, i: int, e: int)
    requires
        i <= e < s.n,
        s.snakes[e].alive,
        forall|j: int| i <= j < e ==> !(#[trigger] s.snakes[j]).alive,
    ensures
        first_living(s, i) == e,
    decreases e - i,
{
    if i < e {
        assert(!s.snakes[i].alive);
        lemma_first_living_is(s, i + 1, e);
    }
}

/// A duel with the last opponent `e` is about ground and distance: six points for
/// every cell more than the opponent's, and five for every move closer to a shorter
/// opponent, or three for every move farther from one that is no shorter.
pub proof fn duels_are_about_ground_and_distance(s: StateModel, e: int)
    requires
        1 <= e < s.n,
        s.snakes[e].alive,
        forall|j: int| 1 <= j < s.n && j != e ==> !(#[trigger] s.snakes[j]).alive,
    ensures
        ({
            let obs = s.obstacles();
            let lead = territory(s, obs, 0).len() - territory(s, obs, e).len();
            let g = gap(s.snakes[0].body[0], s.snakes[e].body[0]);
            &&& s.snakes[0].body.len() > s.snakes[e].body.len() ==> duel_score(s) == 6 * lead - 5 * g
            &&& s.snakes[0].body.len() <= s.snakes[e].body.len() ==> duel_score(s) == 6 * lead + 3
                * g
        }),
{
    lemma_first_living_is(s, 1, e);
}

/// Health counts half, rounded towards 0: more health never counts less.
pub proof fn health_counts_half(a: int, b: int)
    requires
        a <= b,
    ensures
        half(a) <= half(b),
        half(-a) == -half(a),
        a >= 0 ==> 2 * half(a) <= a <= 2 * half(a) + 1,
        half(a + 2) == half(a) + 1 || a == -1,
{
}

/// Space is penalised exactly where the snake is trapped: forty points for each
/// cell that is missing for the body, or else ten for each cell that is missing for
/// one and a half times the body.
pub proof fn traps_are_penalised(fill: int, len: int)
    requires
        0 <= fill,
        len >= 1,
    ensures
        trap_penalty(fill, len) > 0 <==> 2 * fill + 2 <= 3 * len,
        trap_penalty(fill, len) >= 0,
        fill < len ==> trap_penalty(fill, len) == 40 * (len - fill),
        len <= fill && 2 * fill + 2 <= 3 * len ==> 5 * (3 * len - 2 * fill) - 5 <= trap_penalty(
            fill,
            len,
        ) <= 5 * (3 * len - 2 * fill) && trap_penalty(fill, len) % 10 == 0,
{
    assert(2 * (len * 3 / 2) <= 3 * len <= 2 * (len * 3 / 2) + 1);
    if len <= fill && 2 * fill + 2 <= 3 * len {
        assert((len * 3 / 2 - fill) * 10 % 10 == 0);
    }
}

/// Without opponents a position is won: it is worth ten million points, a hundred
/// for each point of health and fifty for each segment. Without the player it is
/// lost.
pub proof fn won_positions_count_health_and_length(s: StateModel, t: StateModel)
    ensures
        !s.snakes[0].alive ==> evaluation(s) == -100_000_000,
        s.snakes[0].alive && s.opponents() == 0 && t.snakes[0].alive && t.opponents() == 0
            ==> evaluation(t) - evaluation(s) == 100 * (t.snakes[0].health - s.snakes[0].health) + 50
            * (t.snakes[0].body.len() - s.snakes[0].body.len()),
        s.snakes[0].alive && s.opponents() == 0 && s.snakes[0].health == 0 ==> evaluation(s)
            == 10_000_000 + 50 * s.snakes[0].body.len(),
{
}

/// Of two contested positions, both with one opponent or both with several, the
/// values differ by what they differ in: space, food, ground (eight points a cell
/// against one opponent, five against several), length, threats, the duel, health
/// and traps.
pub proof fn contested_positions_differ_by_their_parts(s: StateModel, t: StateModel)
    requires
        s.snakes[0].alive,
        t.snakes[0].alive,
        s.opponents() > 0,
        t.opponents() > 0,
        s.opponents() == 1 <==> t.opponents() == 1,
    ensures
        ({
            let (a, b) = (s.snakes[0], t.snakes[0]);
            let (m, n) = (a.body.len() as int, b.body.len() as int);
            let (p, q) = (s.obstacles(), t.obstacles());
            let x = region(p, a.body[0]).len() as int;
            let y = region(q, b.body[0]).len() as int;
            let ground = territory(t, q, 0).len() - territory(s, p, 0).len();
            let common = (fill_score(y, n) - fill_score(x, m)) + (food_score(
                b.health,
                nearest(b.body[0], t.food, q),
            ) - food_score(a.health, nearest(a.body[0], s.food, p))) + (length_score(
                n,
                longest_below(t, t.n as int) as int,
            ) - length_score(m, longest_below(s, s.n as int) as int)) + (threats_below(
                t,
                t.n as int,
            ) - threats_below(s, s.n as int)) + (half(b.health) - half(a.health)) - (trap_penalty(
                y,
                n,
            ) - trap_penalty(x, m));
            &&& s.opponents() > 1 ==> evaluation(t) - evaluation(s) == common + 5 * ground
            &&& s.opponents() == 1 ==> evaluation(t) - evaluation(s) == common + 8 * ground + (
            duel_score(t) - duel_score(s))
        }),
{
}

/// With everything else equal, more ground makes a position better.
pub proof fn more_ground_is_better(s: StateModel, t: StateModel)
    requires
        s.valid(),
        t.valid(),
        s.snakes[0].alive,
        t.snakes[0] == s.snakes[0],
        s.opponents() > 1,
        t.opponents() > 1,
        s.n == t.n,
        forall|i: int|
            1 <= i < s.n ==> (#[trigger] s.snakes[i]).alive == t.snakes[i].alive
                && s.snakes[i].body.len() == t.snakes[i].body.len() && gap(
                s.snakes[0].body[0],
                s.snakes[i].body[0],
            ) == gap(t.snakes[0].body[0], t.snakes[i].body[0]),
        region(s.obstacles(), s.snakes[0].body[0]).len() == region(
            t.obstacles(),
            t.snakes[0].body[0],
        ).len(),
        nearest(s.snakes[0].body[0], s.food, s.obstacles()) == nearest(
            t.snakes[0].body[0],
            t.food,
            t.obstacles(),
        ),
        territory(s, s.obstacles(), 0).len() < territory(t, t.obstacles(), 0).len(),
    ensures
        evaluation(s) < evaluation(t),
{
    contested_positions_differ_by_their_parts(s, t);
    lemma_same_threats(s, t, s.n as int);
}

proof fn lemma_same_threats(s: StateModel, t: StateModel, n: int)
    requires
        t.snakes[0] == s.snakes[0],
        forall|i: int|
            1 <= i < n ==> (#[trigger] s.snakes[i]).alive == t.snakes[i].alive
                && s.snakes[i].body.len() == t.snakes[i].body.len() && gap(
                s.snakes[0].body[0],
                s.snakes[i].body[0],
            ) == gap(t.snakes[0].body[0], t.snakes[i].body[0]),
    ensures
        threats_below(s, n) == threats_below(t, n),
        longest_below(s, n) == longest_below(t, n),
    decreases n,
{
    if n > 1 {
        lemma_same_threats(s, t, n - 1);
        assert(s.snakes[n - 1].alive == t.snakes[n - 1].alive);
    }
}

/// With the penalty for traps, more space still always counts more.
pub proof fn more_space_is_better_even_in_a_trap(a: int, b: int, len: int)
    requires
        0 <= a < b,
        len >= 1,
    ensures
        fill_score(a, len) - trap_penalty(a, len) < fill_score(b, len) - trap_penalty(b, len),
{
}

} // verus!
