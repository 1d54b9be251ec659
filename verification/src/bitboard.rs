//! A set of cells, held in two machine words.
use vstd::prelude::*;

use crate::grid::Cell;

verus! {

/// Bit `i` of a word.
pub open spec fn bit(w: u64, i: u64) -> bool {
    (w >> i) & 1 == 1
}

/// The members of `s` below `n`, in ascending order.
pub open spec fn cells_below(s: Set<Cell>, n: nat) -> Seq<Cell>
    decreases n,
{
    if n == 0 {
        Seq::empty()
    } else if s.contains((n - 1) as Cell) {
        cells_below(s, (n - 1) as nat).push((n - 1) as Cell)
    } else {
        cells_below(s, (n - 1) as nat)
    }
}

/// The members of a board set in ascending order.
pub open spec fn cells_of(s: Set<Cell>) -> Seq<Cell> {
    cells_below(s, 128)
}

/// `s` holds only cells that a board set can hold.
pub open spec fn fits_board(s: Set<Cell>) -> bool {
    forall|c: Cell| s.contains(c) ==> c < 128
}

/// A set of cells: bit `c` of the 128 bits of `lo` and `hi` stands for cell `c`.
#[derive(Clone, Copy, Debug)]
pub struct Bb {
    lo: u64,
    hi: u64,
}

impl Bb {
    /// Is the bit of `c` set?
    pub closed spec fn has(self, c: Cell) -> bool {
        if c < 64 {
            bit(self.lo, c as u64)
        } else {
            c < 128 && bit(self.hi, (c - 64) as u64)
        }
    }

    /// The cells in the set.
    pub open spec fn view(self) -> Set<Cell> {
        Set::new(|c: Cell| self.has(c))
    }

    /// A board set holds at most the cells `0..128`.
    pub proof fn lemma_view(self)
        ensures
            fits_board(self@),
            self@.finite(),
            self@.len() <= 128,
    {
        lemma_board_set_is_small(self@, 128);
    }

    /// Puts a cell into the set.
    pub fn set(&mut self, c: Cell)
        requires
            c < 128,
        ensures
            final(self)@ == old(self)@.insert(c),
    {
        let ghost before = *self;
        if c < 64 {
            self.lo = self.lo | (1u64 << c);
            proof {
                lemma_set_bit(before.lo, c as u64);
            }
        } else {
            self.hi = self.hi | (1u64 << (c - 64));
            proof {
                lemma_set_bit(before.hi, (c - 64) as u64);
            }
        }
        assert(self@ =~= before@.insert(c));
    }

    /// Takes a cell out of the set.
    pub fn unset(&mut self, c: Cell)
        requires
            c < 128,
        ensures
            final(self)@ == old(self)@.remove(c),
    {
        let ghost before = *self;
        if c < 64 {
            self.lo = self.lo & !(1u64 << c);
            proof {
                lemma_clear_bit(before.lo, c as u64);
            }
        } else {
            self.hi = self.hi & !(1u64 << (c - 64));
            proof {
                lemma_clear_bit(before.hi, (c - 64) as u64);
            }
        }
        assert(self@ =~= before@.remove(c));
    }

    /// Is a cell in the set?
    pub fn get(self, c: Cell) -> (b: bool)
        requires
            c < 128,
        ensures
            b == self@.contains(c),
    {
        if c < 64 {
            (self.lo >> c) & 1 == 1
        } else {
            (self.hi >> (c - 64)) & 1 == 1
        }
    }

    /// The union of two sets.
    pub fn or(self, other: Bb) -> (r: Bb)
        ensures
            r@ == self@.union(other@),
    {
        let r = Bb { lo: self.lo | other.lo, hi: self.hi | other.hi };
        proof {
            lemma_or_bits(self.lo, other.lo);
            lemma_or_bits(self.hi, other.hi);
            assert(r@ =~= self@.union(other@));
        }
        r
    }

    /// The number of cells in the set.
    pub fn count(self) -> (n: u32)
        ensures
            n == self@.len(),
    {
        proof {
            self.lemma_view();
            lemma_cells_of(self@);
        }
        let mut it = self.iter();
        let mut n: u32 = 0;
        while it.lo != 0 || it.hi != 0
            invariant
                n + it@.len() == self@.len(),
                self@.len() <= 128,
            decreases it@.len(),
        {
            proof {
                it.lemma_exhausted();
            }
            let _ = it.next();
            n += 1;
        }
        proof {
            it.lemma_exhausted();
        }
        n
    }

    /// The cells of the set, lowest first.
    pub fn iter(self) -> (it: BbIter)
        ensures
            it@ == cells_of(self@),
    {
        BbIter { lo: self.lo, hi: self.hi }
    }
}

impl Default for Bb {
    /// The empty set.
    fn default() -> (b: Bb)
        ensures
            b@ == Set::<Cell>::empty(),
    {
        let b = Bb { lo: 0, hi: 0 };
        proof {
            assert forall|i: u64| !bit(0, i) by {
                assert((0u64 >> i) & 1 == 0) by (bit_vector);
            }
            assert(b@ =~= Set::<Cell>::empty());
        }
        b
    }
}

/// Walks the cells of a set in ascending order.
pub struct BbIter {
    lo: u64,
    hi: u64,
}

impl BbIter {
    /// The cells still to come, in order.
    pub closed spec fn view(self) -> Seq<Cell> {
        cells_of(Bb { lo: self.lo, hi: self.hi }@)
    }

    proof fn lemma_exhausted(self)
        ensures
            self@.len() == 0 <==> self.lo == 0 && self.hi == 0,
    {
        let s = Bb { lo: self.lo, hi: self.hi }@;
        lemma_cells_of(s);
        if self.lo != 0 {
            lemma_lowest_bit(self.lo);
            let t = self.lo.trailing_zeros();
            assert(s.contains(t as Cell));
        } else if self.hi != 0 {
            lemma_lowest_bit(self.hi);
            let t = self.hi.trailing_zeros();
            assert(s.contains((64 + t) as Cell));
        } else {
            assert forall|i: u64| !bit(0, i) by {
                assert((0u64 >> i) & 1 == 0) by (bit_vector);
            }
            if self@.len() != 0 {
                assert(s.contains(self@[0]));
            }
        }
    }

    /// Hands out the lowest cell that is left.
    pub fn next(&mut self) -> (r: Option<Cell>)
        ensures
            old(self)@.len() == 0 ==> r is None && final(self)@ == old(self)@,
            old(self)@.len() > 0 ==> r == Some(old(self)@[0]) && final(self)@
                == old(self)@.drop_first(),
            r is Some ==> r->0 < 128,
    {
        let ghost before = Bb { lo: self.lo, hi: self.hi };
        proof {
            self.lemma_exhausted();
        }
        if self.lo != 0 {
            proof {
                lemma_lowest_bit(self.lo);
            }
            let tz: u8 = self.lo.trailing_zeros() as u8;
            self.lo = self.lo & self.lo.wrapping_sub(1);
            proof {
                let after = Bb { lo: self.lo, hi: self.hi };
                assert(after@ =~= before@.remove(tz));
                lemma_lowest_first(before@, tz);
            }
            Some(tz)
        } else if self.hi != 0 {
            proof {
                lemma_lowest_bit(self.hi);
                assert forall|i: u64| !bit(0, i) by {
                    assert((0u64 >> i) & 1 == 0) by (bit_vector);
                }
            }
            let tz: u8 = self.hi.trailing_zeros() as u8;
            self.hi = self.hi & self.hi.wrapping_sub(1);
            proof {
                let after = Bb { lo: self.lo, hi: self.hi };
                assert(after@ =~= before@.remove((64 + tz) as Cell));
                lemma_lowest_first(before@, (64 + tz) as Cell);
            }
            Some(64 + tz)
        } else {
            None
        }
    }

    /// The cells that are left, as a vector.
    pub fn collect(self) -> (v: Vec<Cell>)
        ensures
            v@ == self@,
    {
        let mut it = self;
        let mut v: Vec<Cell> = Vec::new();
        let ghost total = self@;
        while it.lo != 0 || it.hi != 0
            invariant
                total == v@ + it@,
            decreases it@.len(),
        {
            proof {
                it.lemma_exhausted();
            }
            let ghost rest = it@;
            match it.next() {
                Some(c) => {
                    v.push(c);
                    assert(seq![rest[0]] + rest.drop_first() =~= rest);
                    assert(v@ + it@ =~= total);
                },
                None => {},
            }
        }
        proof {
            it.lemma_exhausted();
            assert(v@ =~= total);
        }
        v
    }
}

proof fn lemma_set_bit(w: u64, c: u64)
    requires
        c < 64,
    ensures
        forall|i: u64| i < 64 ==> (#[trigger] bit(w | (1u64 << c), i) <==> bit(w, i) || i == c),
{
    assert forall|i: u64| i < 64 implies (#[trigger] bit(w | (1u64 << c), i) <==> bit(w, i) || i
        == c) by {
        assert(i < 64 && c < 64 ==> ((((w | (1u64 << c)) >> i) & 1 == 1) <==> ((w >> i) & 1 == 1 || i
            == c))) by (bit_vector);
    }
}

proof fn lemma_clear_bit(w: u64, c: u64)
    requires
        c < 64,
    ensures
        forall|i: u64| i < 64 ==> (#[trigger] bit(w & !(1u64 << c), i) <==> bit(w, i) && i != c),
{
    assert forall|i: u64| i < 64 implies (#[trigger] bit(w & !(1u64 << c), i) <==> bit(w, i) && i
        != c) by {
        assert(i < 64 && c < 64 ==> ((((w & !(1u64 << c)) >> i) & 1 == 1) <==> ((w >> i) & 1 == 1
            && i != c))) by (bit_vector);
    }
}

proof fn lemma_or_bits(a: u64, b: u64)
    ensures
        forall|i: u64| i < 64 ==> (#[trigger] bit(a | b, i) <==> bit(a, i) || bit(b, i)),
{
    assert forall|i: u64| i < 64 implies (#[trigger] bit(a | b, i) <==> bit(a, i) || bit(b, i)) by {
        assert(i < 64 ==> ((((a | b) >> i) & 1 == 1) <==> ((a >> i) & 1 == 1 || (b >> i) & 1 == 1)))
            by (bit_vector);
    }
}

/// The lowest set bit of a word, and the word without it.
proof fn lemma_lowest_bit(w: u64)
    requires
        w != 0,
    ensures
        w.trailing_zeros() < 64,
        bit(w, w.trailing_zeros() as u64),
        forall|i: u64| i < w.trailing_zeros() ==> !bit(w, i),
        forall|i: u64|
            i < 64 ==> (#[trigger] bit(w & ((w - 1) as u64), i) <==> bit(w, i) && i
                != w.trailing_zeros()),
{
    vstd::std_specs::bits::axiom_u64_trailing_zeros(w);
    let t = w.trailing_zeros() as u64;
    assert forall|i: u64| i < t implies !bit(w, i) by {
        assert((w >> i) & 1u64 == 0u64);
    }
    let v = (w - 1) as u64;
    let s = (64 - t) as u64;
    assert forall|i: u64| i < 64 implies (#[trigger] bit(w & v, i) <==> bit(w, i) && i != t) by {
        assert((((w & v) >> i) & 1 == 1) <==> ((w >> i) & 1 == 1 && i != t)) by (bit_vector)
            requires
                i < 64,
                t < 64,
                w >= 1,
                v == w - 1,
                s == 64 - t,
                w << s == 0,
                (w >> t) & 1 == 1,
        ;
    }
}

/// Membership, order and length of the ascending list of a set.
pub proof fn lemma_cells_below(s: Set<Cell>, n: nat)
    requires
        n <= 128,
    ensures
        forall|c: Cell| #[trigger] cells_below(s, n).contains(c) <==> s.contains(c) && c < n,
        forall|i: int, j: int|
            0 <= i < j < cells_below(s, n).len() ==> #[trigger] cells_below(s, n)[i]
                < #[trigger] cells_below(s, n)[j],
        forall|i: int| 0 <= i < cells_below(s, n).len() ==> #[trigger] cells_below(s, n)[i] < n,
        s.filter(|c: Cell| c < n).finite(),
        cells_below(s, n).len() == s.filter(|c: Cell| c < n).len(),
    decreases n,
{
    let here = s.filter(|c: Cell| c < n);
    if n == 0 {
        assert(here =~= Set::empty());
    } else {
        let m = (n - 1) as nat;
        lemma_cells_below(s, m);
        let below = s.filter(|c: Cell| c < m);
        let prev = cells_below(s, m);
        let last = m as Cell;
        if s.contains(last) {
            assert(here =~= below.insert(last));
            let full = prev.push(last);
            assert forall|c: Cell| #[trigger] full.contains(c) <==> s.contains(c) && c < n by {
                if s.contains(c) && c < n {
                    if c < m {
                        assert(prev.contains(c));
                        let i = choose|i: int| 0 <= i < prev.len() && prev[i] == c;
                        assert(full[i] == c);
                    } else {
                        assert(full[prev.len() as int] == c);
                    }
                }
                if full.contains(c) {
                    let i = choose|i: int| 0 <= i < full.len() && full[i] == c;
                    if i < prev.len() {
                        assert(prev[i] == c);
                        assert(prev.contains(c));
                    }
                }
            }
        } else {
            assert(here =~= below);
        }
    }
}

/// Membership, order and length of the ascending list of a board set.
pub proof fn lemma_cells_of(s: Set<Cell>)
    requires
        fits_board(s),
    ensures
        forall|c: Cell| #[trigger] cells_of(s).contains(c) <==> s.contains(c),
        forall|i: int| 0 <= i < cells_of(s).len() ==> s.contains(#[trigger] cells_of(s)[i]),
        forall|i: int, j: int|
            0 <= i < j < cells_of(s).len() ==> #[trigger] cells_of(s)[i] < #[trigger] cells_of(
                s,
            )[j],
        s.finite(),
        cells_of(s).len() == s.len(),
        s.len() <= 128,
{
    lemma_cells_below(s, 128);
    assert(s.filter(|c: Cell| c < 128) =~= s);
    assert forall|i: int| 0 <= i < cells_of(s).len() implies s.contains(
        #[trigger] cells_of(s)[i],
    ) by {
        assert(cells_of(s).contains(cells_of(s)[i]));
    }
    lemma_board_set_is_small(s, 128);
}

/// A set of cells below `n` is finite and has at most `n` members.
pub proof fn lemma_board_set_is_small(s: Set<Cell>, n: nat)
    requires
        n <= 128,
        forall|c: Cell| s.contains(c) ==> c < n,
    ensures
        s.finite(),
        s.len() <= n,
    decreases n,
{
    if n == 0 {
        assert(s =~= Set::empty());
    } else {
        let last = (n - 1) as Cell;
        lemma_board_set_is_small(s.remove(last), (n - 1) as nat);
        if s.contains(last) {
            assert(s =~= s.remove(last).insert(last));
        } else {
            assert(s =~= s.remove(last));
        }
    }
}

proof fn lemma_lowest_below(s: Set<Cell>, m: Cell, n: nat)
    requires
        n <= 128,
        s.contains(m),
        forall|c: Cell| c < m ==> !s.contains(c),
    ensures
        n <= m ==> cells_below(s, n) =~= Seq::<Cell>::empty(),
        n > m ==> cells_below(s, n) =~= seq![m] + cells_below(s.remove(m), n),
        n <= m ==> cells_below(s.remove(m), n) =~= Seq::<Cell>::empty(),
    decreases n,
{
    if n > 0 {
        lemma_lowest_below(s, m, (n - 1) as nat);
    }
}

/// The list of a set starts with its least member; the rest is the list of the
/// set without it.
pub proof fn lemma_lowest_first(s: Set<Cell>, m: Cell)
    requires
        m < 128,
        s.contains(m),
        forall|c: Cell| c < m ==> !s.contains(c),
    ensures
        cells_of(s).len() > 0,
        cells_of(s)[0] == m,
        cells_of(s).drop_first() == cells_of(s.remove(m)),
{
    lemma_lowest_below(s, m, 128);
    assert(cells_of(s).drop_first() =~= cells_of(s.remove(m)));
}

/// A board set has one more cell in its list for each cell put into it, and the
/// list of the empty set is empty.
pub proof fn lists_hold_every_cell_once(s: Set<Cell>, c: Cell)
    requires
        fits_board(s),
        c < 128,
        !s.contains(c),
    ensures
        cells_of(Set::<Cell>::empty()).len() == 0,
        !cells_of(s).contains(c),
        cells_of(s.insert(c)).len() == cells_of(s).len() + 1,
        cells_of(s.insert(c)).contains(c),
        forall|i: int, j: int|
            0 <= i < j < cells_of(s).len() ==> #[trigger] cells_of(s)[i] < #[trigger] cells_of(
                s,
            )[j],
{
    lemma_cells_of(s);
    lemma_cells_of(s.insert(c));
    lemma_cells_of(Set::<Cell>::empty());
}

} // verus!
