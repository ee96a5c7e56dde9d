//! Board-related features: the `Board` structure stores the holes and the
//! precomputed neighbour geometry derived from them.

use vstd::prelude::*;
use vstd::string::*;

use crate::positions::{bit, chebyshev, mask_of, BoardPosition, Position, Positions};
use crate::positions::{lemma_mask_of_bits, lemma_or_zero};

verus! {

/// The cells that count as distance-1 neighbours of cell `d`, holes left out.
pub open spec fn nb_pred(holes: u64, d: int) -> spec_fn(int) -> bool {
    |q: int| 0 <= q < 64 && chebyshev(d, q) == 1 && !bit(holes, q)
}

/// Bit mask of the non-hole distance-1 neighbours of cell `d`.
pub open spec fn nb_mask(holes: u64, d: int) -> u64 {
    mask_of(nb_pred(holes, d), 64)
}

/// The bits of `nb_mask` are exactly the non-hole cells at distance 1.
pub proof fn lemma_nb_mask_bit(holes: u64, d: int)
    ensures
        forall|q: int| #[trigger] bit(nb_mask(holes, d), q) <==> (0 <= q < 64 && chebyshev(d, q)
            == 1 && !bit(holes, q)),
{
    lemma_mask_of_bits(nb_pred(holes, d), 64);
}

/// Marks the cells whose serialized character (one past the leading player
/// character) is the hole glyph.
pub open spec fn hole_char_pred(s: Seq<char>) -> spec_fn(int) -> bool {
    |j: int| s[j + 1] == 'h'
}

/// Board representation.
pub struct Board {
    /// `Positions` of the holes.
    pub holes: Positions,
    /// For each cell, the non-hole cells at Chebyshev distance 1, ascending.
    pub neighbours_dist1: Vec<Vec<Position>>,
    /// For each cell, the non-hole cells at Chebyshev distance 2, ascending.
    pub neighbours_dist2: Vec<Vec<Position>>,
    /// For each cell, the `Positions` of all its distance-1 neighbours.
    pub neighbours: Vec<Positions>,
}

impl Board {
    /// The neighbour tables are exactly what the holes dictate.
    pub open spec fn wf(&self) -> bool {
        &&& self.neighbours_dist1@.len() == 64
        &&& self.neighbours_dist2@.len() == 64
        &&& self.neighbours@.len() == 64
        &&& forall|p: int, q: u8|
            0 <= p < 64 ==> (#[trigger] self.neighbours_dist1@[p]@.contains(q) <==> (q < 64
                && chebyshev(p, q as int) == 1 && !bit(self.holes.0, q as int)))
        &&& forall|p: int, q: u8|
            0 <= p < 64 ==> (#[trigger] self.neighbours_dist2@[p]@.contains(q) <==> (q < 64
                && chebyshev(p, q as int) == 2 && !bit(self.holes.0, q as int)))
        &&& forall|p: int| 0 <= p < 64 ==> (#[trigger] self.neighbours@[p].0) == nb_mask(
            self.holes.0,
            p,
        )
    }

    /// Compute a new `Board` structure from the given holes.
    pub fn new(holes: Positions) -> (r: Self)
        ensures
            r.wf(),
            r.holes == holes,
    {
        let mut d1: Vec<Vec<Position>> = Vec::new();
        let mut d2: Vec<Vec<Position>> = Vec::new();
        let mut p: u8 = 0;
        while p < 64
            invariant
                p <= 64,
                d1@.len() == p as int,
                d2@.len() == p as int,
                forall|pp: int, q: u8|
                    0 <= pp < p as int ==> (#[trigger] d1@[pp]@.contains(q) <==> (q < 64
                        && chebyshev(pp, q as int) == 1 && !bit(holes.0, q as int))),
                forall|pp: int, q: u8|
                    0 <= pp < p as int ==> (#[trigger] d2@[pp]@.contains(q) <==> (q < 64
                        && chebyshev(pp, q as int) == 2 && !bit(holes.0, q as int))),
            decreases 64 - p as int,
        {
            let mut l1: Vec<Position> = Vec::new();
            let mut l2: Vec<Position> = Vec::new();
            let mut q: u8 = 0;
            while q < 64
                invariant
                    q <= 64,
                    p < 64,
                    forall|qq: u8| #[trigger]
                        l1@.contains(qq) <==> (qq < q && chebyshev(p as int, qq as int) == 1 && !bit(
                            holes.0,
                            qq as int,
                        )),
                    forall|qq: u8| #[trigger]
                        l2@.contains(qq) <==> (qq < q && chebyshev(p as int, qq as int) == 2 && !bit(
                            holes.0,
                            qq as int,
                        )),
                decreases 64 - q as int,
            {
                if !holes.contains(q) {
                    let dist = p.distance_to(q);
                    if dist == 1 {
                        let ghost old_l1 = l1@;
                        l1.push(q);
                        proof {
                            assert forall|qq: u8| #[trigger]
                                l1@.contains(qq) <==> (qq < q + 1 && chebyshev(p as int, qq as int)
                                    == 1 && !bit(holes.0, qq as int)) by {
                                if old_l1.contains(qq) {
                                    let k = choose|k: int|
                                        0 <= k < old_l1.len() && old_l1[k] == qq;
                                    assert(l1@[k] == qq);
                                }
                                if qq == q {
                                    assert(l1@[l1@.len() - 1] == qq);
                                }
                                if l1@.contains(qq) {
                                    let k = choose|k: int| 0 <= k < l1@.len() && l1@[k] == qq;
                                    if k < l1@.len() - 1 {
                                        assert(old_l1.contains(qq));
                                    }
                                }
                            }
                        }
                    } else if dist == 2 {
                        let ghost old_l2 = l2@;
                        l2.push(q);
                        proof {
                            assert forall|qq: u8| #[trigger]
                                l2@.contains(qq) <==> (qq < q + 1 && chebyshev(p as int, qq as int)
                                    == 2 && !bit(holes.0, qq as int)) by {
                                if old_l2.contains(qq) {
                                    let k = choose|k: int|
                                        0 <= k < old_l2.len() && old_l2[k] == qq;
                                    assert(l2@[k] == qq);
                                }
                                if qq == q {
                                    assert(l2@[l2@.len() - 1] == qq);
                                }
                                if l2@.contains(qq) {
                                    let k = choose|k: int| 0 <= k < l2@.len() && l2@[k] == qq;
                                    if k < l2@.len() - 1 {
                                        assert(old_l2.contains(qq));
                                    }
                                }
                            }
                        }
                    }
                }
                q = q + 1;
            }
            d1.push(l1);
            d2.push(l2);
            p = p + 1;
        }
        let mut nbs: Vec<Positions> = Vec::new();
        let mut d: u8 = 0;
        while d < 64
            invariant
                d <= 64,
                nbs@.len() == d as int,
                forall|dd: int|
                    0 <= dd < d as int ==> (#[trigger] nbs@[dd].0) == nb_mask(holes.0, dd),
            decreases 64 - d as int,
        {
            let mut m: u64 = 0;
            let mut q: u8 = 0;
            while q < 64
                invariant
                    q <= 64,
                    d < 64,
                    m == mask_of(nb_pred(holes.0, d as int), q as int),
                decreases 64 - q as int,
            {
                if !holes.contains(q) && d.distance_to(q) == 1 {
                    m = m | (1u64 << (q as u64));
                } else {
                    proof {
                        lemma_or_zero(m);
                    }
                }
                q = q + 1;
            }
            nbs.push(Positions(m));
            d = d + 1;
        }
        Board { holes, neighbours_dist1: d1, neighbours_dist2: d2, neighbours: nbs }
    }

    /// Deserialize a serialized game state into a `Board` (only the hole
    /// glyphs matter; the leading character codes the player to move).
    pub fn deserialize(string: &str) -> (r: Self)
        requires
            string@.len() == 65,
            forall|i: int|
                1 <= i < 65 ==> (string@[i] == 'h' || string@[i] == 'r' || string@[i] == 'b'
                    || string@[i] == ' '),
        ensures
            r.wf(),
            forall|i: int| 0 <= i < 64 ==> (bit(r.holes.0, i) <==> string@[i + 1] == 'h'),
    {
        let mut holes: u64 = 0;
        let mut i: u8 = 0;
        while i < 64
            invariant
                i <= 64,
                string@.len() == 65,
                holes == mask_of(hole_char_pred(string@), i as int),
            decreases 64 - i as int,
        {
            let c = string.get_char((i as usize) + 1);
            if c == 'h' {
                holes = holes | (1u64 << (i as u64));
            } else {
                proof {
                    lemma_or_zero(holes);
                }
            }
            i = i + 1;
        }
        proof {
            lemma_mask_of_bits(hole_char_pred(string@), 64);
        }
        Board::new(Positions(holes))
    }
}

impl Default for Board {
    fn default() -> (r: Self)
        ensures
            r.wf(),
            r.holes.0 == 0u64,
    {
        Board::new(Positions(0))
    }
}

} // verus!
