//! A set of squares held as one 64-bit word: bit `i` stands for the square of
//! packed index `i`.

use vstd::prelude::*;
use vstd::std_specs::bits::axiom_u64_trailing_zeros;
use crate::vector::{Vector, square};

verus! {

#[derive(Copy, Clone, Debug)]
pub struct BitBoard(u64);

/// Bit `i` of the word `w`.
pub open spec fn bit(w: u64, i: u64) -> bool {
    (w >> i) & 1u64 == 1u64
}

/// All 64 squares.
pub open spec fn all_squares() -> Set<int> {
    Set::new(|i: int| 0 <= i < 64)
}

pub open spec fn sign(v: int) -> int {
    if v > 0 {
        1
    } else if v < 0 {
        -1
    } else {
        0
    }
}

pub open spec fn abs(v: int) -> int {
    if v < 0 {
        -v
    } else {
        v
    }
}

/// `a + k * s` for a step `s` of -1, 0 or 1.
pub open spec fn step(a: int, s: int, k: int) -> int {
    if s > 0 {
        a + k
    } else if s < 0 {
        a - k
    } else {
        a
    }
}

/// The two squares share a file, a rank or a diagonal.
pub open spec fn aligned(u: Vector, w: Vector) -> bool {
    u.x == w.x || u.y == w.y || abs(u.x - w.x) == abs(u.y - w.y)
}

/// Number of king steps from `u` to `w` along their common line.
pub open spec fn distance(u: Vector, w: Vector) -> int {
    let dx = abs(w.x - u.x);
    let dy = abs(w.y - u.y);
    if dx >= dy {
        dx
    } else {
        dy
    }
}

/// The square `k` steps from `u` towards `w`.
pub open spec fn toward(u: Vector, w: Vector, k: int) -> int {
    step(u.x as int, sign(w.x - u.x), k) + 8 * step(u.y as int, sign(w.y - u.y), k)
}

/// `u` and every square after it towards `w`, leaving `w` out.
pub open spec fn line_between(u: Vector, w: Vector) -> Set<int> {
    Set::new(|i: int| exists|k: int| 0 <= k < distance(u, w) && i == #[trigger] toward(u, w, k))
}

proof fn lemma_bit_zero()
    by (bit_vector)
    ensures
        forall|i: u64| i < 64 ==> !#[trigger] bit(0u64, i),
{
}

proof fn lemma_bit_full()
    by (bit_vector)
    ensures
        forall|i: u64| i < 64 ==> #[trigger] bit(0xffff_ffff_ffff_ffffu64, i),
{
}

proof fn lemma_bit_or(a: u64, b: u64)
    by (bit_vector)
    ensures
        forall|i: u64| i < 64 ==> #[trigger] bit(a | b, i) == (bit(a, i) || bit(b, i)),
{
}

proof fn lemma_bit_and(a: u64, b: u64)
    by (bit_vector)
    ensures
        forall|i: u64| i < 64 ==> #[trigger] bit(a & b, i) == (bit(a, i) && bit(b, i)),
{
}

proof fn lemma_bit_set(a: u64, n: u64)
    by (bit_vector)
    requires
        n < 64,
    ensures
        forall|i: u64| i < 64 ==> #[trigger] bit(a | (1u64 << n), i) == (bit(a, i) || i == n),
{
}

proof fn lemma_bit_clear(a: u64, n: u64)
    by (bit_vector)
    requires
        n < 64,
    ensures
        forall|i: u64| i < 64 ==> #[trigger] bit(a & !(1u64 << n), i) == (bit(a, i) && i != n),
{
}

proof fn lemma_bit_test(a: u64, n: u64)
    by (bit_vector)
    requires
        n < 64,
    ensures
        (a & (1u64 << n) != 0) == bit(a, n),
{
}

impl View for BitBoard {
    type V = Set<int>;

    closed spec fn view(&self) -> Set<int> {
        Set::new(|i: int| 0 <= i < 64 && bit(self.0, i as u64))
    }
}

impl BitBoard {
    /// Every bitboard holds squares of the board only.
    pub proof fn lemma_on_board(self)
        ensures
            self@.subset_of(all_squares()),
            self@.finite(),
    {
        assert(self@.subset_of(all_squares()));
        vstd::set_lib::lemma_int_range(0, 64);
        assert(vstd::set_lib::set_int_range(0, 64) =~= all_squares());
        vstd::set_lib::lemma_len_subset(self@, all_squares());
    }

    pub fn new_empty() -> (r: BitBoard)
        ensures
            r@ == Set::<int>::empty(),
    {
        let r = BitBoard(0);
        proof { lemma_bit_zero(); }
        assert(r@ =~= Set::<int>::empty());
        r
    }

    pub fn new_full() -> (r: BitBoard)
        ensures
            r@ == all_squares(),
    {
        let r = BitBoard(u64::MAX);
        proof { lemma_bit_full(); }
        assert(r@ =~= all_squares());
        r
    }

    pub fn set(&mut self, pos: Vector)
        requires
            pos.on_board(),
        ensures
            final(self)@ == old(self)@.insert(pos.idx()),
    {
        let n = pos.as_num();
        let a = self.0;
        self.0 = a | (1u64 << (n as u64));
        proof { lemma_bit_set(a, n as u64); }
        assert(final(self)@ =~= old(self)@.insert(pos.idx()));
    }

    pub fn unset(&mut self, pos: Vector)
        requires
            pos.on_board(),
        ensures
            final(self)@ == old(self)@.remove(pos.idx()),
    {
        let n = pos.as_num();
        let a = self.0;
        self.0 = a & !(1u64 << (n as u64));
        proof { lemma_bit_clear(a, n as u64); }
        assert(final(self)@ =~= old(self)@.remove(pos.idx()));
    }

    pub fn get(&self, pos: Vector) -> (r: bool)
        requires
            pos.on_board(),
        ensures
            r == self@.contains(pos.idx()),
    {
        let n = pos.as_num();
        proof {
            lemma_bit_test(self.0, n as u64);
        }
        self.0 & (1u64 << (n as u64)) != 0
    }

    pub fn union(&self, other: &BitBoard) -> (r: BitBoard)
        ensures
            r@ == self@.union(other@),
    {
        let r = BitBoard(self.0 | other.0);
        proof { lemma_bit_or(self.0, other.0); }
        assert(r@ =~= self@.union(other@));
        r
    }

    pub fn intersection(&self, other: &BitBoard) -> (r: BitBoard)
        ensures
            r@ == self@.intersect(other@),
    {
        let r = BitBoard(self.0 & other.0);
        proof { lemma_bit_and(self.0, other.0); }
        assert(r@ =~= self@.intersect(other@));
        r
    }

    /// Number of squares in the set.
    pub fn num_set(&self) -> (r: u32)
        ensures
            r == self@.len(),
    {
        let mut count: u32 = 0;
        let mut n: u64 = 0;
        let ghost mut seen: Set<int> = Set::empty();
        while n < 64
            invariant
                n <= 64,
                seen == self@.filter(|i: int| i < n),
                seen.finite(),
                count == seen.len(),
                count <= n,
            decreases 64 - n,
        {
            let ghost before = seen;
            if (self.0 >> n) & 1u64 == 1u64 {
                count = count + 1;
                proof {
                    seen = seen.insert(n as int);
                }
            }
            n = n + 1;
            assert(seen =~= self@.filter(|i: int| i < n));
        }
        assert(seen =~= self@);
        count
    }

    /// Index of the lowest square in the set, or 64 when the set is empty.
    pub fn lowest_set(&self) -> (r: usize)
        ensures
            r <= 64,
            r == 64 <==> self@ == Set::<int>::empty(),
            r < 64 ==> self@.contains(r as int),
            forall|j: int| 0 <= j < r ==> !self@.contains(j),
    {
        let t = self.0.trailing_zeros();
        proof {
            axiom_u64_trailing_zeros(self.0);
            if t == 64 {
                assert(self.0 == 0);
                lemma_bit_zero();
                assert(self@ =~= Set::<int>::empty());
            } else {
                assert(self@.contains(t as int));
            }
            assert forall|j: int| 0 <= j < t implies !self@.contains(j) by {
                assert((self.0 >> (j as u64)) & 1u64 == 0u64);
            }
        }
        t as usize
    }

    /// `u` and the squares after it on the way to `w`, without `w`.
    pub fn make_line(u: Vector, w: Vector) -> (r: BitBoard)
        requires
            u.on_board(),
            w.on_board(),
            aligned(u, w),
            u != w,
        ensures
            r@ == line_between(u, w),
    {
        let mut line = BitBoard::new_empty();
        line.set(u);
        let dx: i8 = if w.x > u.x { 1 } else if w.x < u.x { -1 } else { 0 };
        let dy: i8 = if w.y > u.y { 1 } else if w.y < u.y { -1 } else { 0 };
        let dir = Vector::from_int(dx, dy);
        let ghost d = distance(u, w);
        assert(toward(u, w, 0) == u.idx());
        assert(line@ =~= Set::new(|i: int| exists|k: int| 0 <= k < 1 && i == #[trigger] toward(u, w, k))) by {
            assert forall|i: int| line@.contains(i) implies exists|k: int| 0 <= k < 1 && i == #[trigger] toward(u, w, k) by {
                assert(i == toward(u, w, 0));
            }
        }
        let mut curr = u.plus(dir);
        let ghost mut k: int = 1;
        while curr != w
            invariant
                u.on_board(),
                w.on_board(),
                aligned(u, w),
                u != w,
                d == distance(u, w),
                dir.x == sign(w.x - u.x),
                dir.y == sign(w.y - u.y),
                1 <= k <= d,
                curr.x == step(u.x as int, dir.x as int, k),
                curr.y == step(u.y as int, dir.y as int, k),
                line@ == Set::new(|i: int| exists|j: int| 0 <= j < k && i == #[trigger] toward(u, w, j)),
            decreases d - k,
        {
            assert(k < d);
            assert(curr.on_board());
            assert(curr.idx() == toward(u, w, k));
            let ghost old_line = line@;
            line.set(curr);
            assert(line@ =~= Set::new(|i: int| exists|j: int| 0 <= j < k + 1 && i == #[trigger] toward(u, w, j))) by {
                assert forall|i: int| line@.contains(i) implies exists|j: int| 0 <= j < k + 1 && i == #[trigger] toward(u, w, j) by {
                    if i == curr.idx() {
                        assert(i == toward(u, w, k));
                    } else {
                        assert(old_line.contains(i));
                    }
                }
                assert forall|i: int| (exists|j: int| 0 <= j < k + 1 && i == #[trigger] toward(u, w, j)) implies line@.contains(i) by {
                    let j = choose|j: int| 0 <= j < k + 1 && i == #[trigger] toward(u, w, j);
                    if j < k {
                        assert(old_line.contains(i));
                    }
                }
            }
            curr = curr.plus(dir);
            proof {
                k = k + 1;
            }
        }
        assert(k == d);
        line
    }
}

} // verus!
