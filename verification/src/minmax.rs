//! Implementation of the min-max algorithm: a full-width negamax search
//! without pruning, the baseline the pruning variants are measured against.

use vstd::prelude::*;

use crate::configuration::{apply_move, has_any_move, legal_move, Configuration, Movement};
use crate::search::{
    game_value, lemma_game_value_bounds, lemma_seq_max_is_game_value, seq_max_gv,
};
use crate::strategy::Strategy;

verus! {

/// Min-max search with a given recursion depth.
pub struct MinMax(pub u8);

impl MinMax {
    /// Negamax without pruning: every legal movement is searched, the best
    /// child value is kept, and the layer returns its negation.
    pub fn min_max(&self, state: &Configuration, depth: u8) -> (r: (Option<Movement>, i8))
        requires
            state.inv(),
        ensures
            r.1 as int == game_value(state@, depth as nat),
            (r.0 is Some) <==> (depth >= 1 && has_any_move(state@)),
            r.0 matches Some(m) ==> legal_move(state@, m) && game_value(
                apply_move(state@, m),
                (depth - 1) as nat,
            ) == -game_value(state@, depth as nat),
        decreases depth,
    {
        if depth == 0 {
            return (None, state.value());
        }
        let moves = state.movements();
        if moves.len() == 0 {
            // no legal move: the ply evaluates statically, an implicit pass
            return (None, state.value());
        }
        let ghost dc = (depth - 1) as nat;
        let mut best_value: i8 = -127;
        let mut best_movement: Option<Movement> = None;
        let mut k: usize = 0;
        while k < moves.len()
            invariant
                state.inv(),
                depth >= 1,
                dc == (depth - 1) as nat,
                k <= moves@.len(),
                moves@.len() > 0,
                forall|m: Movement| #[trigger] moves@.contains(m) <==> legal_move(state@, m),
                best_value as int == seq_max_gv(state@, moves@.take(k as int), dc),
                k == 0 ==> best_movement is None,
                k > 0 ==> -64 <= best_value <= 64,
                k > 0 ==> (best_movement matches Some(m) && legal_move(state@, m) && game_value(
                    apply_move(state@, m),
                    dc,
                ) == best_value as int),
            decreases moves@.len() - k,
        {
            let m = moves[k];
            proof {
                assert(moves@.contains(moves@[k as int]));
            }
            let child = state.play(&m);
            let (_, v) = self.min_max(&child, depth - 1);
            proof {
                lemma_game_value_bounds(child@, dc);
                assert(moves@.take(k as int + 1).drop_last() =~= moves@.take(k as int));
                assert(moves@.take(k as int + 1).last() == moves@[k as int]);
            }
            if v > best_value {
                best_value = v;
                best_movement = Some(m);
            }
            k = k + 1;
        }
        proof {
            assert(moves@.take(moves@.len() as int) =~= moves@);
            assert(moves@.contains(moves@[0]));
            lemma_seq_max_is_game_value(state@, moves@, depth as nat);
        }
        (best_movement, -best_value)
    }
}

impl Strategy for MinMax {
    fn compute_next_move(&mut self, state: &Configuration) -> (r: Option<Movement>)
        ensures
            r is Some <==> (old(self).0 >= 1 && has_any_move(state@)),
            r matches Some(m) ==> legal_move(state@, m) && game_value(
                apply_move(state@, m),
                (old(self).0 - 1) as nat,
            ) == -game_value(state@, old(self).0 as nat),
    {
        let depth = self.0;
        let (movement, _) = self.min_max(state, depth);
        movement
    }
}

} // verus!
