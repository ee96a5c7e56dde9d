//! A `Positions` is a set of 64 bits locating something on the board:
//! blue blobs, red blobs or holes.

use vstd::prelude::*;

verus! {

/// Coordinate of a board cell (between 0 and 64).
pub type Position = u8;

/// Truth of bit `i` of `x` (false outside 0..64).
pub open spec fn bit(x: u64, i: int) -> bool {
    0 <= i < 64 && (x >> (i as u64)) & 1u64 == 1u64
}

/// Number of set bits of `x` below bit `n`.
pub open spec fn count_bits(x: u64, n: int) -> int
    decreases n,
{
    if n <= 0 {
        0
    } else {
        count_bits(x, n - 1) + if bit(x, n - 1) {
            1int
        } else {
            0int
        }
    }
}

/// Number of set bits of `x`.
pub open spec fn popcount(x: u64) -> int {
    count_bits(x, 64)
}

/// The word whose bits below `n` are exactly the `i` with `f(i)`.
pub open spec fn mask_of(f: spec_fn(int) -> bool, n: int) -> u64
    decreases n,
{
    if n <= 0 {
        0u64
    } else {
        mask_of(f, n - 1) | if f(n - 1) {
            1u64 << ((n - 1) as u64)
        } else {
            0u64
        }
    }
}

/// Column of cell `p` (cells are row-major, 8 columns).
pub open spec fn col(p: int) -> int {
    p % 8
}

/// Row of cell `p`.
pub open spec fn row(p: int) -> int {
    p / 8
}

/// Distance between two integers.
pub open spec fn abs_diff(a: int, b: int) -> int {
    if a < b {
        b - a
    } else {
        a - b
    }
}

/// Chebyshev distance between two board cells.
pub open spec fn chebyshev(p: int, q: int) -> int {
    let dx = abs_diff(col(p), col(q));
    let dy = abs_diff(row(p), row(q));
    if dx < dy {
        dy
    } else {
        dx
    }
}

pub proof fn lemma_bit_or(x: u64, y: u64)
    ensures
        forall|i: int| #[trigger] bit(x | y, i) == (bit(x, i) || bit(y, i)),
{
    assert forall|i: int| #[trigger] bit(x | y, i) == (bit(x, i) || bit(y, i)) by {
        if 0 <= i < 64 {
            let j = i as u64;
            assert((((x | y) >> j) & 1u64 == 1u64) == (((x >> j) & 1u64 == 1u64) || ((y >> j)
                & 1u64 == 1u64))) by (bit_vector);
        }
    }
}

pub proof fn lemma_bit_and(x: u64, y: u64)
    ensures
        forall|i: int| #[trigger] bit(x & y, i) == (bit(x, i) && bit(y, i)),
{
    assert forall|i: int| #[trigger] bit(x & y, i) == (bit(x, i) && bit(y, i)) by {
        if 0 <= i < 64 {
            let j = i as u64;
            assert((((x & y) >> j) & 1u64 == 1u64) == (((x >> j) & 1u64 == 1u64) && ((y >> j)
                & 1u64 == 1u64))) by (bit_vector);
        }
    }
}

pub proof fn lemma_bit_xor(x: u64, y: u64)
    ensures
        forall|i: int| #[trigger] bit(x ^ y, i) == (bit(x, i) != bit(y, i)),
{
    assert forall|i: int| #[trigger] bit(x ^ y, i) == (bit(x, i) != bit(y, i)) by {
        if 0 <= i < 64 {
            let j = i as u64;
            assert((((x ^ y) >> j) & 1u64 == 1u64) == (((x >> j) & 1u64 == 1u64) != ((y >> j)
                & 1u64 == 1u64))) by (bit_vector);
        }
    }
}

pub proof fn lemma_bit_not(x: u64)
    ensures
        forall|i: int| 0 <= i < 64 ==> (#[trigger] bit(!x, i) == !bit(x, i)),
{
    assert forall|i: int| 0 <= i < 64 implies (#[trigger] bit(!x, i) == !bit(x, i)) by {
        let j = i as u64;
        assert(j < 64 ==> ((((!x) >> j) & 1u64 == 1u64) == !((x >> j) & 1u64 == 1u64)))
            by (bit_vector);
    }
}

pub proof fn lemma_bit_single(p: u64)
    requires
        p < 64,
    ensures
        forall|i: int| #[trigger] bit(1u64 << p, i) == (i == p as int),
{
    assert forall|i: int| #[trigger] bit(1u64 << p, i) == (i == p as int) by {
        if 0 <= i < 64 {
            let j = i as u64;
            assert(j < 64 && p < 64 ==> ((((1u64 << p) >> j) & 1u64 == 1u64) == (j == p)))
                by (bit_vector);
        } else {
            assert(!bit(1u64 << p, i));
        }
    }
}

pub proof fn lemma_bit_zero()
    ensures
        forall|i: int| !(#[trigger] bit(0u64, i)),
{
    assert forall|i: int| !(#[trigger] bit(0u64, i)) by {
        if 0 <= i < 64 {
            let j = i as u64;
            assert((0u64 >> j) & 1u64 != 1u64) by (bit_vector);
        }
    }
}

pub proof fn lemma_or_zero(x: u64)
    ensures
        x | 0u64 == x,
{
    assert(x | 0u64 == x) by (bit_vector);
}

/// A nonzero word has a set bit.
pub proof fn lemma_nonzero_has_bit(x: u64)
    requires
        x != 0,
    ensures
        exists|i: int| bit(x, i),
    decreases x,
{
    if x & 1u64 == 1u64 {
        assert((x >> 0u64) & 1u64 == 1u64) by (bit_vector)
            requires
                x & 1u64 == 1u64,
        ;
        assert(bit(x, 0));
    } else {
        let y = x >> 1u64;
        assert(y != 0 && y < x) by (bit_vector)
            requires
                x != 0 && x & 1u64 != 1u64 && y == x >> 1u64,
        ;
        lemma_nonzero_has_bit(y);
        let i = choose|i: int| bit(y, i);
        let j = i as u64;
        assert((j < 64 && ((x >> 1u64) >> j) & 1u64 == 1u64) ==> (j < 63 && (x >> (j + 1)) & 1u64
            == 1u64)) by (bit_vector);
        assert(bit(x, i + 1));
    }
}

/// Words with the same bits are equal.
pub proof fn lemma_eq_by_bits(x: u64, y: u64)
    requires
        forall|i: int| bit(x, i) == bit(y, i),
    ensures
        x == y,
{
    if x != y {
        let z = x ^ y;
        assert(z != 0) by (bit_vector)
            requires
                x != y && z == x ^ y,
        ;
        lemma_nonzero_has_bit(z);
        let i = choose|i: int| bit(z, i);
        lemma_bit_xor(x, y);
        assert(bit(x, i) != bit(y, i));
        assert(false);
    }
}

/// Two words share no bit exactly when their intersection is zero.
pub proof fn lemma_disjoint_iff(x: u64, y: u64)
    ensures
        (x & y == 0) <==> (forall|i: int| !(#[trigger] bit(x, i) && bit(y, i))),
{
    lemma_bit_and(x, y);
    if x & y == 0 {
        lemma_bit_zero();
        assert forall|i: int| !(#[trigger] bit(x, i) && bit(y, i)) by {
            assert(!bit(0u64, i));
        }
    } else {
        lemma_nonzero_has_bit(x & y);
    }
}

/// Set-bit counts never exceed the number of bits looked at.
pub proof fn lemma_count_bits_bound(x: u64, n: int)
    requires
        0 <= n <= 64,
    ensures
        0 <= count_bits(x, n) <= n,
    decreases n,
{
    if n > 0 {
        lemma_count_bits_bound(x, n - 1);
    }
}

/// Setting one clear bit raises the count of bits below `n` by one when
/// that bit lies below `n`.
pub proof fn lemma_count_or_single(x: u64, d: u64, n: int)
    requires
        d < 64,
        !bit(x, d as int),
        0 <= n <= 64,
    ensures
        count_bits(x | (1u64 << d), n) == count_bits(x, n) + (if (d as int) < n {
            1int
        } else {
            0int
        }),
    decreases n,
{
    lemma_bit_or(x, 1u64 << d);
    lemma_bit_single(d);
    if n > 0 {
        lemma_count_or_single(x, d, n - 1);
    }
}

/// Bits of `mask_of(f, n)` are exactly the `i < n` with `f(i)`.
pub proof fn lemma_mask_of_bits(f: spec_fn(int) -> bool, n: int)
    requires
        0 <= n <= 64,
    ensures
        forall|i: int| #[trigger] bit(mask_of(f, n), i) == (0 <= i < n && f(i)),
    decreases n,
{
    if n == 0 {
        lemma_bit_zero();
    } else {
        lemma_mask_of_bits(f, n - 1);
        if f(n - 1) {
            lemma_bit_or(mask_of(f, n - 1), 1u64 << ((n - 1) as u64));
            lemma_bit_single((n - 1) as u64);
        } else {
            lemma_bit_or(mask_of(f, n - 1), 0u64);
            lemma_bit_zero();
        }
    }
}

/// Trait of board coordinates.
pub trait BoardPosition: Sized {
    /// Convert 2D coordinates to board coordinates.
    fn from_2d(x: u8, y: u8) -> Self
        requires
            x < 8,
            y < 8,
    ;

    /// Convert board coordinates to 2D coordinates.
    fn to_2d(self) -> (u8, u8);

    /// Compute the Chebyshev distance between two board coordinates.
    fn distance_to(self, other: Self) -> u8;
}

impl BoardPosition for Position {
    fn from_2d(x: u8, y: u8) -> (r: Self)
        ensures
            r as int == y * 8 + x,
    {
        y * 8 + x
    }

    fn to_2d(self) -> (r: (u8, u8))
        ensures
            r.0 as int == col(self as int),
            r.1 as int == row(self as int),
    {
        (self % 8, self / 8)
    }

    fn distance_to(self, other: Self) -> (r: u8)
        ensures
            r as int == chebyshev(self as int, other as int),
    {
        let (x1, y1) = self.to_2d();
        let (x2, y2) = other.to_2d();
        let dx = if x1 < x2 {
            x2 - x1
        } else {
            x1 - x2
        };
        let dy = if y1 < y2 {
            y2 - y1
        } else {
            y1 - y2
        };
        if dx < dy {
            dy
        } else {
            dx
        }
    }
}

#[derive(Copy, Clone)]
/// Set of `Position` as a bitfield (position 0 is bit of lowest weight).
/// This stores any combination of board cells very compactly, and set
/// operations become bit-masking operations.
pub struct Positions(pub u64);

impl Positions {
    /// Invert all positions we contain.
    pub fn invert(&self) -> (r: Self)
        ensures
            r.0 == !self.0,
    {
        Positions(!self.0)
    }

    /// Walk our bits from lowest to highest; stops once the remaining bits
    /// are all zero.
    pub fn bits(&self) -> (r: BitIterator)
        ensures
            r.remaining == self.0,
    {
        BitIterator { remaining: self.0 }
    }

    /// All 64 bits, lowest first.
    pub fn full_bits(&self) -> (r: Vec<bool>)
        ensures
            r@.len() == 64,
            forall|i: int| 0 <= i < 64 ==> r@[i] == bit(self.0, i),
    {
        let mut r: Vec<bool> = Vec::new();
        let mut i: u8 = 0;
        while i < 64
            invariant
                i <= 64,
                r@.len() == i as int,
                forall|k: int| 0 <= k < i as int ==> r@[k] == bit(self.0, k),
            decreases 64 - i as int,
        {
            r.push((self.0 >> (i as u64)) & 1u64 == 1u64);
            i = i + 1;
        }
        r
    }

    /// Do we have something on the given `Position`?
    pub fn contains(&self, position: Position) -> (r: bool)
        requires
            position < 64,
        ensures
            r == bit(self.0, position as int),
    {
        (self.0 >> (position as u64)) & 1u64 == 1u64
    }

    /// All `Position`s inside us, in ascending order.
    pub fn positions(&self) -> (r: Vec<Position>)
        ensures
            forall|k: int| 0 <= k < r@.len() ==> (#[trigger] r@[k] < 64 && bit(self.0, r@[k] as int)),
            forall|p: int| 0 <= p < 64 && bit(self.0, p) ==> r@.contains(p as u8),
            forall|k1: int, k2: int| 0 <= k1 < k2 < r@.len() ==> r@[k1] < r@[k2],
    {
        let mut r: Vec<Position> = Vec::new();
        let mut i: u8 = 0;
        while i < 64
            invariant
                i <= 64,
                forall|k: int| 0 <= k < r@.len() ==> (#[trigger] r@[k] < i && bit(self.0, r@[k] as int)),
                forall|p: int| 0 <= p < i as int && bit(self.0, p) ==> r@.contains(p as u8),
                forall|k1: int, k2: int| 0 <= k1 < k2 < r@.len() ==> r@[k1] < r@[k2],
            decreases 64 - i as int,
        {
            if self.contains(i) {
                let ghost old_r = r@;
                r.push(i);
                proof {
                    assert forall|p: int| 0 <= p < i as int + 1 && bit(self.0, p) implies r@.contains(
                        p as u8,
                    ) by {
                        if p < i as int {
                            let k = choose|k: int| 0 <= k < old_r.len() && old_r[k] == p as u8;
                            assert(r@[k] == p as u8);
                        } else {
                            assert(r@[r@.len() - 1] == p as u8);
                        }
                    }
                }
            }
            i = i + 1;
        }
        r
    }

    /// Do we contain nothing?
    pub fn is_empty(&self) -> (r: bool)
        ensures
            r == (self.0 == 0),
    {
        self.0 == 0
    }

    /// How many bits are set?
    pub fn len(&self) -> (r: i8)
        ensures
            r as int == popcount(self.0),
            0 <= r <= 64,
    {
        proof {
            lemma_count_bits_bound(self.0, 64);
        }
        let mut count: i8 = 0;
        let mut i: u8 = 0;
        while i < 64
            invariant
                i <= 64,
                count as int == count_bits(self.0, i as int),
                0 <= count as int <= i as int,
            decreases 64 - i as int,
        {
            if (self.0 >> (i as u64)) & 1u64 == 1u64 {
                count = count + 1;
            }
            i = i + 1;
        }
        count
    }

    /// Positions obtained when intersecting with the given ones.
    pub fn intersection_with(&self, other: Positions) -> (r: Positions)
        ensures
            r.0 == self.0 & other.0,
    {
        Positions(self.0 & other.0)
    }

    /// Positions obtained when taking the union with the given ones.
    pub fn union_with(&self, other: Positions) -> (r: Positions)
        ensures
            r.0 == self.0 | other.0,
    {
        Positions(self.0 | other.0)
    }

    /// Remove the given `Positions` from us.
    pub fn remove(&mut self, to_remove: Positions)
        ensures
            final(self).0 == old(self).0 & !to_remove.0,
    {
        self.0 = self.0 & !to_remove.0;
    }

    /// Add the given `Positions` to us.
    pub fn add(&mut self, to_add: Positions)
        ensures
            final(self).0 == old(self).0 | to_add.0,
    {
        self.0 = self.0 | to_add.0;
    }

    /// `Positions` holding only the given `Position`.
    pub fn single(position: Position) -> (r: Self)
        requires
            position < 64,
        ensures
            r.0 == 1u64 << (position as u64),
    {
        Positions(1u64 << (position as u64))
    }

    /// Do we contain every possible `Position`?
    pub fn is_all(&self) -> (r: bool)
        ensures
            r == (self.0 == u64::MAX),
    {
        self.0 == u64::MAX
    }
}

impl Default for Positions {
    fn default() -> (r: Self)
        ensures
            r.0 == 0u64,
    {
        Positions(0)
    }
}

/// Walks the bits of a word from lowest to highest, ending as soon as the
/// remaining bits are all zero.
pub struct BitIterator {
    pub remaining: u64,
}

impl BitIterator {
    /// The next bit, or `None` once nothing remains.
    pub fn next(&mut self) -> (r: Option<bool>)
        ensures
            old(self).remaining == 0 ==> r is None && final(self).remaining == 0,
            old(self).remaining != 0 ==> r == Some(old(self).remaining & 1u64 == 1u64)
                && final(self).remaining == old(self).remaining >> 1u64,
    {
        if self.remaining == 0 {
            None
        } else {
            let b = self.remaining & 1u64;
            self.remaining = self.remaining >> 1u64;
            Some(b == 1)
        }
    }
}

} // verus!
