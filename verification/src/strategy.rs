//! The strategy capability shared by every player and engine, the greedy
//! baseline, and the data describing an iterative-deepening run.

use vstd::prelude::*;

use crate::configuration::{
    apply_move, has_any_move, legal_move, static_value, Configuration, Movement,
};

verus! {

/// To be a strategy you need to be able to compute the next move.
pub trait Strategy {
    /// Take the current `Configuration` and return what to do next; `None`
    /// if no move is possible.
    fn compute_next_move(&mut self, state: &Configuration) -> (r: Option<Movement>)
        requires
            state.inv(),
        ensures
            r matches Some(m) ==> legal_move(state@, m),
    ;
}

/// Create a new strategy in order to benchmark it.
pub trait BenchmarkUnitaire: Strategy + Sized {
    /// A fresh strategy searching the given depth.
    fn new(depth: u8) -> Self;
}

/// Dumb greedy algorithm: among all possible movements return one which
/// yields the configuration with the best immediate value.
pub struct Greedy();

impl Strategy for Greedy {
    fn compute_next_move(&mut self, state: &Configuration) -> (r: Option<Movement>)
        ensures
            r is Some <==> has_any_move(state@),
            r matches Some(m) ==> legal_move(state@, m) && (forall|m2: Movement|
                legal_move(state@, m2) ==> static_value(apply_move(state@, m2)) <= static_value(
                    apply_move(state@, m),
                )),
    {
        let moves = state.movements();
        let mut best: Option<Movement> = None;
        let mut best_value: i8 = -127;
        let mut k: usize = 0;
        while k < moves.len()
            invariant
                state.inv(),
                k <= moves@.len(),
                forall|m: Movement| #[trigger] moves@.contains(m) <==> legal_move(state@, m),
                k == 0 ==> best is None && best_value == -127,
                k > 0 ==> (best matches Some(m) && legal_move(state@, m) && static_value(
                    apply_move(state@, m),
                ) == best_value as int),
                forall|j: int|
                    0 <= j < k ==> static_value(apply_move(state@, #[trigger] moves@[j]))
                        <= best_value as int,
            decreases moves@.len() - k,
        {
            let m = moves[k];
            proof {
                assert(moves@.contains(moves@[k as int]));
            }
            let child = state.play(&m);
            let v = child.value();
            if v > best_value {
                best_value = v;
                best = Some(m);
            }
            k = k + 1;
        }
        proof {
            if moves@.len() > 0 {
                assert(moves@.contains(moves@[0]));
                assert(has_any_move(state@));
                assert forall|m2: Movement| legal_move(state@, m2) implies static_value(
                    apply_move(state@, m2),
                ) <= best_value as int by {
                    assert(moves@.contains(m2));
                    let j = choose|j: int| 0 <= j < moves@.len() && moves@[j] == m2;
                    assert(static_value(apply_move(state@, moves@[j])) <= best_value as int);
                }
            }
        }
        best
    }
}

#[derive(Copy, Clone, Debug)]
/// All possible strategies for iterative deepening.
pub enum IterativeStrategy {
    /// Plain min-max search.
    MinMax,
    /// Alpha-beta search.
    AlphaBeta,
}

/// Description of an anytime search run in another process: the algorithm
/// it iterates and the time budget it is given before being stopped.
pub struct IterativeDeepening {
    /// Which algorithm the anytime process runs.
    pub strategy: IterativeStrategy,
    /// Time budget in milliseconds.
    pub duration: u64,
}

impl IterativeDeepening {
    /// New iterative deepening strategy with the given algorithm and the
    /// default time budget.
    pub fn new(strategy: IterativeStrategy) -> (r: IterativeDeepening)
        ensures
            r.strategy == strategy,
            r.duration == 1000,
    {
        IterativeDeepening { strategy, duration: 1000 }
    }

    /// The same algorithm with the given time budget in milliseconds.
    pub fn duration(&self, duration: u64) -> (r: Self)
        ensures
            r.strategy == self.strategy,
            r.duration == duration,
    {
        IterativeDeepening { strategy: self.strategy, duration }
    }
}

} // verus!
