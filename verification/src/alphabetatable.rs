//! The alpha-beta algorithm with a transposition table: child positions are
//! fingerprinted by a Zobrist hash of their occupancy and looked up before
//! being searched. The key ignores the remaining depth and the side to move
//! is only sign-adjusted, so a hit may reuse a value computed at another
//! depth: the result is deliberately allowed to differ from the plain
//! search, and the contract promises a legal move but not the game value.

use vstd::prelude::*;
use std::collections::HashMap;

use crate::configuration::{has_any_move, legal_move, Configuration, Movement};
use crate::positions::bit;
use crate::strategy::{BenchmarkUnitaire, Strategy};

verus! {

broadcast use vstd::std_specs::hash::group_hash_axioms;

/// Relies on rand::random: a fresh random value, of which nothing is
/// assumed.
#[verifier::external_body]
fn random_u64() -> u64 {
    rand::random::<u64>()
}

/// The running Zobrist fingerprint after the cells below `n`: the key of
/// each occupied cell is folded in with exclusive-or, player 0's keys in
/// the first 64 table entries and player 1's in the next 64.
pub open spec fn zobrist_fold(b0: u64, b1: u64, keys: Seq<u64>, n: int) -> u64
    decreases n,
{
    if n <= 0 {
        0u64
    } else {
        let prev = zobrist_fold(b0, b1, keys, n - 1);
        let with0 = if bit(b0, n - 1) {
            prev ^ keys[n - 1]
        } else {
            prev
        };
        if bit(b1, n - 1) {
            with0 ^ keys[64 + n - 1]
        } else {
            with0
        }
    }
}

/// A table of 128 random 64-bit keys, one per (player, cell) pair.
pub struct ZobristTable {
    /// The keys: entry `c` for player 0 on cell `c`, entry `64 + c` for
    /// player 1 on cell `c`.
    pub keys: Vec<u64>,
}

impl ZobristTable {
    /// One key per (player, cell) pair.
    pub open spec fn wf(&self) -> bool {
        self.keys@.len() == 128
    }

    /// Draw a fresh table of random keys.
    pub fn generate() -> (t: Self)
        ensures
            t.wf(),
    {
        let mut keys: Vec<u64> = Vec::new();
        let mut i: usize = 0;
        while i < 128
            invariant
                keys@.len() == i as int,
                i <= 128,
            decreases 128 - i,
        {
            keys.push(random_u64());
            i = i + 1;
        }
        ZobristTable { keys }
    }

    /// The fingerprint of a configuration's occupancy.
    pub fn zobrist_key(&self, state: &Configuration) -> (k: u64)
        requires
            self.wf(),
        ensures
            k == zobrist_fold(state@.b0, state@.b1, self.keys@, 64),
    {
        let mut k: u64 = 0;
        let mut i: u8 = 0;
        while i < 64
            invariant
                self.wf(),
                i <= 64,
                k == zobrist_fold(state@.b0, state@.b1, self.keys@, i as int),
            decreases 64 - i as int,
        {
            if state.has_blob(false, i) {
                k = k ^ self.keys[i as usize];
            }
            if state.has_blob(true, i) {
                k = k ^ self.keys[64 + i as usize];
            }
            i = i + 1;
        }
        k
    }
}

/// A map from occupancy fingerprints to values already computed for them,
/// scoped to one search invocation.
pub struct TranspositionTable {
    table: HashMap<u64, i8>,
}

impl View for TranspositionTable {
    type V = Map<u64, i8>;

    closed spec fn view(&self) -> Map<u64, i8> {
        self.table@
    }
}

impl TranspositionTable {
    /// Every stored value stays clear of the extreme so that its negation
    /// also fits.
    pub open spec fn wf(&self) -> bool {
        forall|key: u64| self@.contains_key(key) ==> -126 <= #[trigger] self@[key] <= 126
    }

    /// An empty table.
    pub fn new() -> (r: Self)
        ensures
            r@ == Map::<u64, i8>::empty(),
            r.wf(),
    {
        TranspositionTable { table: HashMap::new() }
    }

    /// The value stored for the given key, if any.
    pub fn get(&self, key: u64) -> (r: Option<i8>)
        ensures
            r == (if self@.contains_key(key) {
                Some(self@[key])
            } else {
                None::<i8>
            }),
    {
        match self.table.get(&key) {
            Some(value) => Some(*value),
            None => None,
        }
    }

    /// Store a value for the given key, displacing any earlier one.
    pub fn set(&mut self, key: u64, value: i8)
        requires
            old(self).wf(),
            -126 <= value <= 126,
        ensures
            final(self)@ == old(self)@.insert(key, value),
            final(self).wf(),
    {
        self.table.insert(key, value);
        proof {
            assert forall|k: u64| self@.contains_key(k) implies -126 <= #[trigger] self@[k]
                <= 126 by {
                if k != key {
                    assert(old(self)@.contains_key(k) && self@[k] == old(self)@[k]);
                }
            }
        }
    }
}

/// Alpha-beta with a transposition table and a given maximum number of
/// recursions.
pub struct AlphaBetaTable(pub u8);

impl AlphaBetaTable {
    /// Alpha-beta pruning over memoized child values. A table hit replaces
    /// the recursion with the stored value, sign-adjusted to the side to
    /// move; a miss stores what the recursion returned. Because the key
    /// ignores the remaining depth, the memoized search may value a
    /// position differently from the plain one: only legality and the
    /// pass/no-move behaviour are promised.
    pub fn alphabeta_transposition_table(
        &self,
        state: &Configuration,
        depth: u8,
        alpha: i8,
        beta: i8,
        transposition_table: &mut TranspositionTable,
        zobrist_table: &ZobristTable,
    ) -> (r: (Option<Movement>, i8))
        requires
            state.inv(),
            zobrist_table.wf(),
            old(transposition_table).wf(),
            -127 <= alpha < beta <= 127,
        ensures
            final(transposition_table).wf(),
            -126 <= r.1 <= 126,
            (r.0 is Some) <==> (depth >= 1 && has_any_move(state@)),
            r.0 matches Some(m) ==> legal_move(state@, m),
        decreases depth,
    {
        if depth == 0 {
            let v = state.value();
            return (None, v);
        }
        let moves = state.movements();
        if moves.len() == 0 {
            // forced pass: search the unchanged state one ply shallower
            let (_, v) = self.alphabeta_transposition_table(
                state,
                depth - 1,
                alpha,
                beta,
                transposition_table,
                zobrist_table,
            );
            return (None, v);
        }
        let mut best_g: i8 = -127;
        let mut best_movement: Option<Movement> = None;
        let mut a = alpha;
        let mut k: usize = 0;
        while k < moves.len()
            invariant
                state.inv(),
                zobrist_table.wf(),
                transposition_table.wf(),
                depth >= 1,
                -127 <= alpha < beta <= 127,
                k <= moves@.len(),
                moves@.len() > 0,
                forall|m: Movement| #[trigger] moves@.contains(m) <==> legal_move(state@, m),
                -127 <= a < beta,
                k == 0 ==> best_movement is None && best_g == -127,
                k > 0 ==> -126 <= best_g <= 126,
                k > 0 ==> best_movement is Some,
                best_movement matches Some(m) ==> legal_move(state@, m),
            decreases moves@.len() - k,
        {
            let m = moves[k];
            proof {
                assert(moves@.contains(moves@[k as int]));
            }
            let child = state.play(&m);
            let child_key = zobrist_table.zobrist_key(&child);
            let rv: i8 = match transposition_table.get(child_key) {
                Some(stored) => {
                    // sign-adjust the stored player-0 value to the child's mover
                    if child.current_player {
                        -stored
                    } else {
                        stored
                    }
                },
                None => {
                    let (_, searched) = self.alphabeta_transposition_table(
                        &child,
                        depth - 1,
                        -beta,
                        -a,
                        transposition_table,
                        zobrist_table,
                    );
                    let canonical = if child.current_player {
                        -searched
                    } else {
                        searched
                    };
                    transposition_table.set(child_key, canonical);
                    searched
                },
            };
            if rv > best_g {
                best_g = rv;
                best_movement = Some(m);
            }
            if best_g > a {
                a = best_g;
            }
            if a >= beta {
                // cutoff, as in the plain alpha-beta
                return (best_movement, -best_g);
            }
            k = k + 1;
        }
        (best_movement, -best_g)
    }
}

impl Strategy for AlphaBetaTable {
    fn compute_next_move(&mut self, state: &Configuration) -> (r: Option<Movement>)
        ensures
            r is Some <==> (old(self).0 >= 1 && has_any_move(state@)),
    {
        let depth = self.0;
        let zobrist_table = ZobristTable::generate();
        let mut transposition_table = TranspositionTable::new();
        let (movement, _) = self.alphabeta_transposition_table(
            state,
            depth,
            -127,
            127,
            &mut transposition_table,
            &zobrist_table,
        );
        movement
    }
}

impl BenchmarkUnitaire for AlphaBetaTable {
    fn new(depth: u8) -> Self {
        AlphaBetaTable(depth)
    }
}

} // verus!
