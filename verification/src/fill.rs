//! Flood fill: how much space a cell gives access to.
use vstd::prelude::*;

use crate::bitboard::{lemma_board_set_is_small, Bb};
use crate::grid::{adjacent, is_cell, moves_are_adjacency, Cell, CELLS, DIRS};
use crate::walk::{lemma_region, lemma_walk_append, open_cell, reachable, region, walk};

verus! {

/// Every open neighbour of `c` has been seen.
spec fn settled(obs: Set<Cell>, seen: Set<Cell>, c: Cell) -> bool {
    forall|b: Cell| #[trigger] adjacent(c, b) && open_cell(obs, b) ==> seen.contains(b)
}

/// A set that holds the start and is closed under moves holds the whole region.
proof fn lemma_closed_set_covers(obs: Set<Cell>, seen: Set<Cell>, a: Cell, b: Cell, k: nat)
    requires
        seen.contains(a),
        forall|c: Cell| seen.contains(c) ==> settled(obs, seen, c),
        walk(obs, a, b, k),
    ensures
        seen.contains(b),
    decreases k,
{
    if k > 0 {
        let p = choose|p: Cell| #[trigger] adjacent(p, b) && walk(obs, a, p, (k - 1) as nat);
        lemma_closed_set_covers(obs, seen, a, p, (k - 1) as nat);
        assert(settled(obs, seen, p));
    }
}

/// The number of cells that can be reached from `start` over free cells, `start`
/// included; 0 where `start` itself is blocked.
pub fn flood_fill(start: Cell, obs: Bb) -> (n: u32)
    requires
        is_cell(start),
    ensures
        n == region(obs@, start).len(),
        n <= CELLS,
        obs@.contains(start) ==> n == 0,
        !obs@.contains(start) ==> n >= 1,
{
    proof {
        lemma_region(obs@, start);
    }
    if obs.get(start) {
        return 0;
    }
    let mut visited = Bb::default();
    visited.set(start);
    let mut queue = [0u8;CELLS];
    let mut qhead: usize = 0;
    let mut qtail: usize = 0;
    queue[qtail] = start;
    qtail += 1;
    proof {
        assert(walk(obs@, start, start, 0));
        assert(queue@[0] == start);
    }
    while qhead < qtail
        invariant
            qhead <= qtail <= CELLS,
            visited@.finite(),
            visited@.len() == qtail,
            visited@.contains(start),
            forall|c: Cell|
                #[trigger] visited@.contains(c) ==> open_cell(obs@, c) && reachable(obs@, start, c),
            forall|i: int| 0 <= i < qtail ==> visited@.contains(#[trigger] queue@[i]),
            forall|c: Cell| #[trigger]
                visited@.contains(c) ==> exists|i: int| 0 <= i < qtail && queue@[i] == c,
            forall|i: int| 0 <= i < qhead ==> settled(obs@, visited@, #[trigger] queue@[i]),
        decreases CELLS - qhead,
    {
        let c = queue[qhead];
        qhead += 1;
        let mut k: usize = 0;
        while k < 4
            invariant
                k <= 4,
                1 <= qhead <= qtail <= CELLS,
                is_cell(c),
                c == queue@[qhead - 1],
                visited@.finite(),
                visited@.len() == qtail,
                visited@.contains(start),
                forall|c: Cell|
                    #[trigger] visited@.contains(c) ==> open_cell(obs@, c) && reachable(
                        obs@,
                        start,
                        c,
                    ),
                forall|i: int| 0 <= i < qtail ==> visited@.contains(#[trigger] queue@[i]),
                forall|c: Cell| #[trigger]
                    visited@.contains(c) ==> exists|i: int| 0 <= i < qtail && queue@[i] == c,
                forall|i: int|
                    0 <= i < qhead - 1 ==> settled(obs@, visited@, #[trigger] queue@[i]),
                forall|j: int|
                    0 <= j < k && (#[trigger] DIRS@[j].target(c)) is Some && open_cell(
                        obs@,
                        DIRS@[j].target(c)->0,
                    ) ==> visited@.contains(DIRS@[j].target(c)->0),
            decreases 4 - k,
        {
            let d = DIRS[k];
            if let Some(nc) = d.step(c) {
                if !visited.get(nc) && !obs.get(nc) {
                    let ghost seen = visited@;
                    let ghost queued = queue@;
                    proof {
                        moves_are_adjacency(c, nc);
                        assert(DIRS@[k as int].target(c) == Some(nc));
                        assert(visited@.contains(c));
                        let j = choose|j: nat| walk(obs@, start, c, j);
                        lemma_walk_append(obs@, start, c, nc, j);
                        lemma_board_set_is_small(seen.insert(nc), 121);
                    }
                    visited.set(nc);
                    queue[qtail] = nc;
                    qtail += 1;
                    proof {
                        assert(queue@[qtail - 1] == nc);
                        assert forall|c: Cell| #[trigger] visited@.contains(c) implies exists|i: int|
                            0 <= i < qtail && queue@[i] == c by {
                            if c != nc {
                                assert(seen.contains(c));
                                let i = choose|i: int| 0 <= i < qtail - 1 && queued[i] == c;
                                assert(queue@[i] == c);
                            }
                        }
                        assert forall|i: int| 0 <= i < qhead - 1 implies settled(
                            obs@,
                            visited@,
                            #[trigger] queue@[i],
                        ) by {
                            assert(settled(obs@, seen, queued[i]));
                        }
                    }
                }
            }
            k += 1;
        }
        proof {
            assert(settled(obs@, visited@, c)) by {
                assert forall|b: Cell| #[trigger] adjacent(c, b) && open_cell(
                    obs@,
                    b,
                ) implies visited@.contains(b) by {
                    moves_are_adjacency(c, b);
                }
            }
        }
    }
    proof {
        assert forall|c: Cell| visited@.contains(c) implies settled(obs@, visited@, c) by {
            let i = choose|i: int| 0 <= i < qtail && queue@[i] == c;
            assert(settled(obs@, visited@, queue@[i]));
        }
        assert forall|c: Cell| region(obs@, start).contains(c) implies visited@.contains(c) by {
            let k = choose|k: nat| walk(obs@, start, c, k);
            lemma_closed_set_covers(obs@, visited@, start, c, k);
        }
        assert(visited@ =~= region(obs@, start));
    }
    visited.count()
}

/// The space that is left after a move from `from` to `to`: the cell that the
/// head leaves is then body.
pub open spec fn space_from(obs: Set<Cell>, from: Cell, to: Cell) -> nat {
    region(obs.insert(from), to).len()
}

/// The number of cells that can be reached from `to` once `from` is occupied.
pub fn space_after(from: Cell, to: Cell, obs: Bb) -> (n: u32)
    requires
        from < 128,
        is_cell(to),
    ensures
        n == space_from(obs@, from, to),
        n <= CELLS,
{
    let mut o = obs;
    o.set(from);
    flood_fill(to, o)
}

} // verus!
