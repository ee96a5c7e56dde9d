//! The alpha-beta algorithm with the pass heuristic: at the shallow ply
//! numbered 3 counting down from the root, a candidate that already looks
//! strongly favourable is accepted without exploring its remaining siblings
//! when "play it, then let the opponent pass" still scores at least as
//! well. The chosen move may therefore diverge from the plain alpha-beta
//! search, but only when that trigger can fire: for root depths below 3
//! the result is proved to be the exact game value.

use vstd::prelude::*;

use crate::alphabeta::{imax, imin};
use crate::configuration::{apply_move, has_any_move, legal_move, Configuration, Movement};
use crate::search::{
    game_value, lemma_game_value_bounds, lemma_seq_max_is_game_value, lemma_seq_max_prefix,
    seq_max_gv,
};
use crate::strategy::Strategy;

verus! {

/// Alpha-beta with the pass heuristic and a given maximum number of
/// recursions.
pub struct AlphaBetaPass(pub u8);

impl AlphaBetaPass {
    /// As the plain alpha-beta search, except that at remaining depth 3 a
    /// freshly improved candidate whose value is already at most -7 is
    /// returned at once when the opponent passing right after it does not
    /// spoil it. The fail-soft window contract is kept for depths at most
    /// 2, where the trigger can never fire; at depth 3 under the full
    /// window the result is the exact game value unless it carries the
    /// trigger's strongly favourable signature.
    pub fn alphabeta_pass(&self, state: &Configuration, depth: u8, alpha: i8, beta: i8) -> (r: (
        Option<Movement>,
        i8,
    ))
        requires
            state.inv(),
            -127 <= alpha < beta <= 127,
        ensures
            -126 <= r.1 <= 126,
            (r.0 is Some) <==> (depth >= 1 && has_any_move(state@)),
            r.0 matches Some(m) ==> legal_move(state@, m),
            depth <= 2 ==> imin(-alpha as int, game_value(state@, depth as nat)) <= r.1 as int,
            depth <= 2 ==> r.1 as int <= imax(-beta as int, game_value(state@, depth as nat)),
            depth <= 2 ==> (r.0 matches Some(m) ==> (((alpha as int) < -(r.1 as int) && -(
            r.1 as int) < (beta as int)) ==> game_value(apply_move(state@, m), (depth - 1) as nat)
                == -(r.1 as int))),
            (depth == 3 && alpha == -127 && beta == 127) ==> (r.1 as int == game_value(
                state@,
                depth as nat,
            ) || r.1 >= 7),
        decreases depth,
    {
        if depth == 0 {
            let v = state.value();
            return (None, v);
        }
        let moves = state.movements();
        if moves.len() == 0 {
            // forced pass: search the unchanged state one ply shallower
            let (_, v) = self.alphabeta_pass(state, depth - 1, alpha, beta);
            return (None, v);
        }
        let ghost s = state@;
        let ghost d = depth as nat;
        let ghost dc = (depth - 1) as nat;
        let ghost gfull = seq_max_gv(s, moves@, dc);
        proof {
            assert(moves@.contains(moves@[0]));
            lemma_seq_max_is_game_value(s, moves@, d);
            lemma_game_value_bounds(s, d);
        }
        let mut best_g: i8 = -127;
        let mut best_movement: Option<Movement> = None;
        let mut a = alpha;
        let mut k: usize = 0;
        while k < moves.len()
            invariant
                state.inv(),
                s == state@,
                depth >= 1,
                d == depth as nat,
                dc == (depth - 1) as nat,
                -127 <= alpha < beta <= 127,
                k <= moves@.len(),
                moves@.len() > 0,
                forall|m: Movement| #[trigger] moves@.contains(m) <==> legal_move(s, m),
                gfull == seq_max_gv(s, moves@, dc),
                game_value(s, d) == -gfull,
                -64 <= gfull <= 64,
                a as int == imax(alpha as int, best_g as int),
                (a as int) < (beta as int),
                k == 0 ==> best_movement is None && best_g == -127,
                k > 0 ==> -126 <= best_g <= 126,
                k > 0 ==> best_movement is Some,
                best_movement matches Some(m) ==> legal_move(s, m),
                depth <= 3 ==> (best_movement matches Some(m) ==> (((alpha as int) < (
                best_g as int) && (best_g as int) < (beta as int)) ==> game_value(
                    apply_move(s, m),
                    dc,
                ) == best_g as int)),
                depth <= 3 ==> best_g as int <= imax(
                    alpha as int,
                    seq_max_gv(s, moves@.take(k as int), dc),
                ),
                depth <= 3 ==> imin(beta as int, seq_max_gv(s, moves@.take(k as int), dc))
                    <= best_g as int,
            decreases moves@.len() - k,
        {
            let m = moves[k];
            proof {
                assert(moves@.contains(moves@[k as int]));
            }
            let child = state.play(&m);
            let (_, rv) = self.alphabeta_pass(&child, depth - 1, -beta, -a);
            proof {
                lemma_game_value_bounds(child@, dc);
                assert(moves@.take(k as int + 1).drop_last() =~= moves@.take(k as int));
                assert(moves@.take(k as int + 1).last() == moves@[k as int]);
            }
            if rv > best_g {
                best_g = rv;
                best_movement = Some(m);
                if depth == 3 && best_g <= -7 {
                    // the candidate is already strongly favourable: accept
                    // it at once when even conceding the opponent a pass
                    // scores at least as well
                    let passed = child.skip_play();
                    let (_, proxy) = self.alphabeta_pass(&passed, depth - 1, alpha, beta);
                    if proxy >= best_g {
                        return (best_movement, -best_g);
                    }
                }
            }
            if best_g > a {
                a = best_g;
            }
            if a >= beta {
                proof {
                    lemma_seq_max_prefix(s, moves@, dc, k as int + 1);
                }
                return (best_movement, -best_g);
            }
            k = k + 1;
        }
        proof {
            assert(moves@.take(moves@.len() as int) =~= moves@);
        }
        (best_movement, -best_g)
    }
}

impl Strategy for AlphaBetaPass {
    fn compute_next_move(&mut self, state: &Configuration) -> (r: Option<Movement>)
        ensures
            r is Some <==> (old(self).0 >= 1 && has_any_move(state@)),
            old(self).0 <= 2 ==> (r matches Some(m) ==> game_value(
                apply_move(state@, m),
                (old(self).0 - 1) as nat,
            ) == -game_value(state@, old(self).0 as nat)),
    {
        let depth = self.0;
        proof {
            lemma_game_value_bounds(state@, depth as nat);
        }
        let (movement, _) = self.alphabeta_pass(state, depth, -127, 127);
        movement
    }
}

} // verus!
