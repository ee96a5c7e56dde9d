//! The alpha-beta algorithm: a negamax search that prunes siblings which
//! provably cannot change what the parent keeps. Its result is proved equal
//! to the unpruned game value through a fail-soft window contract.

use vstd::prelude::*;

use crate::configuration::{apply_move, has_any_move, legal_move, Configuration, Movement};
use crate::search::{
    game_value, lemma_game_value_bounds, lemma_seq_max_is_game_value, lemma_seq_max_prefix,
    seq_max_gv,
};
use crate::strategy::Strategy;

verus! {

/// The smaller of two values.
pub open spec fn imin(a: int, b: int) -> int {
    if a < b {
        a
    } else {
        b
    }
}

/// The greater of two values.
pub open spec fn imax(a: int, b: int) -> int {
    if a < b {
        b
    } else {
        a
    }
}

/// Pruning cannot change the value computed under the full window: the
/// fail-soft bounds collapse onto the game value itself, so the plain
/// min-max search and the alpha-beta search return identical values.
pub proof fn lemma_full_window_exact(v: int, value: int)
    requires
        imin(127, value) <= v,
        v <= imax(-127, value),
        -64 <= value <= 64,
    ensures
        v == value,
{
}

/// Alpha-beta search with a given maximum number of recursions.
pub struct AlphaBeta(pub u8);

impl AlphaBeta {
    /// Negamax with alpha-beta pruning, fail-soft. The window `(alpha,
    /// beta)` bounds the gain the mover is known to secure elsewhere and
    /// the gain the opponent concedes at most; the returned loss `r.1` is
    /// exact whenever it falls strictly inside the reflected window, and in
    /// particular a full-window call returns exactly the game value.
    pub fn alphabeta(&self, state: &Configuration, depth: u8, alpha: i8, beta: i8) -> (r: (
        Option<Movement>,
        i8,
    ))
        requires
            state.inv(),
            -127 <= alpha < beta <= 127,
        ensures
            -126 <= r.1 <= 126,
            imin(-alpha as int, game_value(state@, depth as nat)) <= r.1 as int,
            r.1 as int <= imax(-beta as int, game_value(state@, depth as nat)),
            (r.0 is Some) <==> (depth >= 1 && has_any_move(state@)),
            r.0 matches Some(m) ==> legal_move(state@, m),
            r.0 matches Some(m) ==> (((alpha as int) < -(r.1 as int) && -(r.1 as int) < (
            beta as int)) ==> game_value(apply_move(state@, m), (depth - 1) as nat) == -(
            r.1 as int)),
        decreases depth,
    {
        if depth == 0 {
            let v = state.value();
            return (None, v);
        }
        let moves = state.movements();
        if moves.len() == 0 {
            // forced pass: search the unchanged state one ply shallower,
            // which bottoms out at the static value
            let (_, v) = self.alphabeta(state, depth - 1, alpha, beta);
            return (None, v);
        }
        let ghost s = state@;
        let ghost d = depth as nat;
        let ghost dc = (depth - 1) as nat;
        let ghost gfull = seq_max_gv(s, moves@, dc);
        proof {
            assert(moves@.contains(moves@[0]));
            lemma_seq_max_is_game_value(s, moves@, d);
            lemma_game_value_bounds(s, d);
        }
        let mut best_g: i8 = -127;
        let mut best_movement: Option<Movement> = None;
        let mut a = alpha;
        let mut k: usize = 0;
        while k < moves.len()
            invariant
                state.inv(),
                s == state@,
                depth >= 1,
                d == depth as nat,
                dc == (depth - 1) as nat,
                -127 <= alpha < beta <= 127,
                k <= moves@.len(),
                moves@.len() > 0,
                forall|m: Movement| #[trigger] moves@.contains(m) <==> legal_move(s, m),
                gfull == seq_max_gv(s, moves@, dc),
                game_value(s, d) == -gfull,
                -64 <= gfull <= 64,
                a as int == imax(alpha as int, best_g as int),
                (a as int) < (beta as int),
                k == 0 ==> best_movement is None && best_g == -127,
                k > 0 ==> -126 <= best_g <= 126,
                k > 0 ==> best_movement is Some,
                best_movement matches Some(m) ==> legal_move(s, m) && (((alpha as int) < (
                best_g as int) && (best_g as int) < (beta as int)) ==> game_value(
                    apply_move(s, m),
                    dc,
                ) == best_g as int),
                best_g as int <= imax(alpha as int, seq_max_gv(s, moves@.take(k as int), dc)),
                imin(beta as int, seq_max_gv(s, moves@.take(k as int), dc)) <= best_g as int,
            decreases moves@.len() - k,
        {
            let m = moves[k];
            proof {
                assert(moves@.contains(moves@[k as int]));
            }
            let child = state.play(&m);
            let (_, rv) = self.alphabeta(&child, depth - 1, -beta, -a);
            proof {
                lemma_game_value_bounds(child@, dc);
                assert(moves@.take(k as int + 1).drop_last() =~= moves@.take(k as int));
                assert(moves@.take(k as int + 1).last() == moves@[k as int]);
            }
            if rv > best_g {
                best_g = rv;
                best_movement = Some(m);
            }
            if best_g > a {
                a = best_g;
            }
            if a >= beta {
                // cutoff: the parent already holds a line at least as good,
                // so the remaining siblings cannot change what it keeps
                proof {
                    lemma_seq_max_prefix(s, moves@, dc, k as int + 1);
                }
                return (best_movement, -best_g);
            }
            k = k + 1;
        }
        proof {
            assert(moves@.take(moves@.len() as int) =~= moves@);
        }
        (best_movement, -best_g)
    }
}

impl Strategy for AlphaBeta {
    fn compute_next_move(&mut self, state: &Configuration) -> (r: Option<Movement>)
        ensures
            r is Some <==> (old(self).0 >= 1 && has_any_move(state@)),
            r matches Some(m) ==> legal_move(state@, m) && game_value(
                apply_move(state@, m),
                (old(self).0 - 1) as nat,
            ) == -game_value(state@, old(self).0 as nat),
    {
        let depth = self.0;
        proof {
            lemma_game_value_bounds(state@, depth as nat);
        }
        let (movement, value) = self.alphabeta(state, depth, -127, 127);
        proof {
            lemma_full_window_exact(value as int, game_value(state@, depth as nat));
        }
        movement
    }
}

} // verus!
