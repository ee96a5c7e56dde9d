//! The game-value model shared by every search strategy: the value of a
//! state at a given depth, in the negamax convention where each layer
//! returns the mover's best achievable loss.

use vstd::prelude::*;

use crate::configuration::{
    apply_move, has_any_move, legal_move, static_value, GameState, Movement,
};
use crate::positions::lemma_count_bits_bound;

verus! {

/// A canonical numbering of every candidate movement: first the 64
/// duplications by destination, then the 64 * 64 jumps by source and
/// destination.
pub open spec fn move_at(k: int) -> Movement {
    if k < 64 {
        Movement::Duplicate(k as u8)
    } else {
        Movement::Jump((((k - 64) / 64) as u8), (((k - 64) % 64) as u8))
    }
}

/// The number of the given movement in the canonical order.
pub open spec fn move_id(m: Movement) -> int {
    match m {
        Movement::Duplicate(dest) => dest as int,
        Movement::Jump(src, dest) => 64 + (src as int) * 64 + (dest as int),
    }
}

/// The value of a state searched `d` plies deep, from the mover's point of
/// view as a loss: the static evaluation at depth 0 or when the mover has
/// no move (an implicit pass), otherwise the least loss over all legal
/// movements, each child being worth the negation of its own value.
pub open spec fn game_value(s: GameState, d: nat) -> int
    decreases d, 1int, 0int,
{
    if d == 0 || !has_any_move(s) {
        static_value(s)
    } else {
        best_loss_from(s, (d - 1) as nat, 4160)
    }
}

/// The least loss achievable with the movements numbered below `k`, the
/// children searched `dc` plies deep; 127 when none of them is legal.
pub open spec fn best_loss_from(s: GameState, dc: nat, k: int) -> int
    decreases dc + 1, 0int, k,
{
    if k <= 0 {
        127
    } else {
        let rest = best_loss_from(s, dc, k - 1);
        let m = move_at(k - 1);
        if legal_move(s, m) {
            let v = -game_value(apply_move(s, m), dc);
            if v < rest {
                v
            } else {
                rest
            }
        } else {
            rest
        }
    }
}

/// The greatest child value over a sequence of movements, with -127 for
/// the empty sequence.
pub open spec fn seq_max_gv(s: GameState, ms: Seq<Movement>, dc: nat) -> int
    decreases ms.len(),
{
    if ms.len() == 0 {
        -127
    } else {
        let v = game_value(apply_move(s, ms.last()), dc);
        let rest = seq_max_gv(s, ms.drop_last(), dc);
        if v > rest {
            v
        } else {
            rest
        }
    }
}

/// The static evaluation is a difference of piece counts.
pub proof fn lemma_static_value_bounds(s: GameState)
    ensures
        -64 <= static_value(s) <= 64,
{
    lemma_count_bits_bound(s.b0, 64);
    lemma_count_bits_bound(s.b1, 64);
}

/// Game values are piece-count differences, so they stay within -64..64.
pub proof fn lemma_game_value_bounds(s: GameState, d: nat)
    ensures
        -64 <= game_value(s, d) <= 64,
    decreases d, 1int, 1int,
{
    lemma_static_value_bounds(s);
    if d != 0 && has_any_move(s) {
        lemma_any_move_has_id(s);
        lemma_best_loss_bounds(s, (d - 1) as nat, 4160);
    }
}

/// A partial best loss is either the idle 127 or a real value in range;
/// once a legal movement has been seen it is a real value.
pub proof fn lemma_best_loss_bounds(s: GameState, dc: nat, k: int)
    requires
        0 <= k <= 4160,
    ensures
        best_loss_from(s, dc, k) == 127 || -64 <= best_loss_from(s, dc, k) <= 64,
        (exists|j: int| 0 <= j < k && legal_move(s, #[trigger] move_at(j))) ==> -64
            <= best_loss_from(s, dc, k) <= 64,
    decreases dc + 1, 0int, k,
{
    if k > 0 {
        lemma_best_loss_bounds(s, dc, k - 1);
        let m = move_at(k - 1);
        if legal_move(s, m) {
            lemma_game_value_bounds(apply_move(s, m), dc);
        } else {
            if exists|j: int| 0 <= j < k && legal_move(s, #[trigger] move_at(j)) {
                let j = choose|j: int| 0 <= j < k && legal_move(s, #[trigger] move_at(j));
                assert(0 <= j < k - 1 && legal_move(s, move_at(j)));
            }
        }
    }
}

/// Every legal movement has cells below 64, so its number is its inverse
/// under the canonical order.
pub proof fn lemma_move_id_inverse(m: Movement)
    requires
        m is Duplicate ==> m->Duplicate_0 < 64,
        m is Jump ==> m->Jump_0 < 64 && m->Jump_1 < 64,
    ensures
        0 <= move_id(m) < 4160,
        move_at(move_id(m)) == m,
{
    match m {
        Movement::Duplicate(_) => {
        },
        Movement::Jump(src, dest) => {
            let id = 64 + (src as int) * 64 + (dest as int);
            assert(64 <= id < 4160) by (nonlinear_arith)
                requires
                    id == 64 + (src as int) * 64 + (dest as int),
                    src < 64,
                    dest < 64,
            ;
            assert((id - 64) / 64 == src as int && (id - 64) % 64 == dest as int)
                by (nonlinear_arith)
                requires
                    id == 64 + (src as int) * 64 + (dest as int),
                    src < 64,
                    dest < 64,
            ;
        },
    }
}

/// The mover has a legal movement exactly when some canonical number below
/// 4160 denotes one.
pub proof fn lemma_any_move_has_id(s: GameState)
    ensures
        has_any_move(s) <==> (exists|k: int| 0 <= k < 4160 && legal_move(s, #[trigger] move_at(k))),
{
    if has_any_move(s) {
        let m = choose|m: Movement| legal_move(s, m);
        lemma_move_id_inverse(m);
        assert(0 <= move_id(m) < 4160 && legal_move(s, move_at(move_id(m))));
    }
    if exists|k: int| 0 <= k < 4160 && legal_move(s, #[trigger] move_at(k)) {
        let k = choose|k: int| 0 <= k < 4160 && legal_move(s, #[trigger] move_at(k));
        assert(legal_move(s, move_at(k)));
    }
}

/// Each movement of a sequence bounds the sequence's greatest child value
/// from below.
pub proof fn lemma_seq_max_ge(s: GameState, ms: Seq<Movement>, dc: nat, j: int)
    requires
        0 <= j < ms.len(),
    ensures
        game_value(apply_move(s, ms[j]), dc) <= seq_max_gv(s, ms, dc),
    decreases ms.len(),
{
    if j < ms.len() - 1 {
        lemma_seq_max_ge(s, ms.drop_last(), dc, j);
    }
}

/// A nonempty sequence's greatest child value is attained by one of its
/// movements.
pub proof fn lemma_seq_max_achieved(s: GameState, ms: Seq<Movement>, dc: nat)
    requires
        ms.len() > 0,
    ensures
        exists|j: int|
            0 <= j < ms.len() && game_value(apply_move(s, #[trigger] ms[j]), dc) == seq_max_gv(
                s,
                ms,
                dc,
            ),
    decreases ms.len(),
{
    let v = game_value(apply_move(s, ms.last()), dc);
    lemma_game_value_bounds(apply_move(s, ms.last()), dc);
    if v == seq_max_gv(s, ms, dc) {
        assert(game_value(apply_move(s, ms[ms.len() - 1]), dc) == seq_max_gv(s, ms, dc));
    } else {
        assert(ms.len() > 1) by {
            reveal_with_fuel(seq_max_gv, 2);
        }
        lemma_seq_max_achieved(s, ms.drop_last(), dc);
        let j = choose|j: int|
            0 <= j < ms.drop_last().len() && game_value(
                apply_move(s, #[trigger] ms.drop_last()[j]),
                dc,
            ) == seq_max_gv(s, ms.drop_last(), dc);
        assert(game_value(apply_move(s, ms[j]), dc) == seq_max_gv(s, ms, dc));
    }
}

/// A prefix's greatest child value never exceeds the whole sequence's.
pub proof fn lemma_seq_max_prefix(s: GameState, ms: Seq<Movement>, dc: nat, j: int)
    requires
        0 <= j <= ms.len(),
    ensures
        seq_max_gv(s, ms.take(j), dc) <= seq_max_gv(s, ms, dc),
    decreases ms.len() - j,
{
    if j == ms.len() {
        assert(ms.take(j) =~= ms);
    } else {
        assert(ms.take(j + 1).drop_last() =~= ms.take(j));
        assert(ms.take(j + 1).last() == ms[j]);
        lemma_seq_max_prefix(s, ms, dc, j + 1);
    }
}

/// The best loss over the numbers below `k` is at most what any single
/// legal movement below `k` achieves.
pub proof fn lemma_best_loss_le(s: GameState, dc: nat, k: int, m: Movement)
    requires
        legal_move(s, m),
        0 <= move_id(m) < k <= 4160,
        move_at(move_id(m)) == m,
    ensures
        best_loss_from(s, dc, k) <= -game_value(apply_move(s, m), dc),
    decreases k,
{
    if move_id(m) < k - 1 {
        lemma_best_loss_le(s, dc, k - 1, m);
    }
}

/// With no legal movement numbered below `k`, the best loss is still idle.
pub proof fn lemma_best_loss_idle(s: GameState, dc: nat, k: int)
    requires
        0 <= k,
        !(exists|j: int| 0 <= j < k && legal_move(s, #[trigger] move_at(j))),
    ensures
        best_loss_from(s, dc, k) == 127,
    decreases k,
{
    if k > 0 {
        assert(!legal_move(s, move_at(k - 1)));
        lemma_best_loss_idle(s, dc, k - 1);
    }
}

/// Once a legal movement lies below `k`, the best loss is attained by some
/// legal movement.
pub proof fn lemma_best_loss_achieved(s: GameState, dc: nat, k: int)
    requires
        0 <= k <= 4160,
        exists|j: int| 0 <= j < k && legal_move(s, #[trigger] move_at(j)),
    ensures
        exists|m: Movement|
            legal_move(s, m) && best_loss_from(s, dc, k) == -game_value(
                #[trigger] apply_move(s, m),
                dc,
            ),
    decreases k,
{
    let last = move_at(k - 1);
    if legal_move(s, last) && best_loss_from(s, dc, k) == -game_value(apply_move(s, last), dc) {
        assert(legal_move(s, last) && best_loss_from(s, dc, k) == -game_value(
            apply_move(s, last),
            dc,
        ));
    } else {
        if !(exists|j: int| 0 <= j < k - 1 && legal_move(s, #[trigger] move_at(j))) {
            // then the movement numbered k - 1 is the only legal one below k
            let j = choose|j: int| 0 <= j < k && legal_move(s, #[trigger] move_at(j));
            assert(j == k - 1);
            lemma_best_loss_idle(s, dc, k - 1);
            assert(best_loss_from(s, dc, k - 1) == 127);
            lemma_game_value_bounds(apply_move(s, last), dc);
            assert(false);
        }
        lemma_best_loss_achieved(s, dc, k - 1);
        let m = choose|m: Movement|
            legal_move(s, m) && best_loss_from(s, dc, k - 1) == -game_value(
                #[trigger] apply_move(s, m),
                dc,
            );
        if legal_move(s, last) {
            lemma_game_value_bounds(apply_move(s, last), dc);
        }
        if best_loss_from(s, dc, k) == best_loss_from(s, dc, k - 1) {
            assert(legal_move(s, m) && best_loss_from(s, dc, k) == -game_value(apply_move(s, m), dc));
        }
    }
}

/// With a sequence holding exactly the legal movements, the game value is
/// the negation of the sequence's greatest child value.
pub proof fn lemma_seq_max_is_game_value(s: GameState, ms: Seq<Movement>, d: nat)
    requires
        d >= 1,
        has_any_move(s),
        forall|m: Movement| #[trigger] ms.contains(m) <==> legal_move(s, m),
    ensures
        game_value(s, d) == -seq_max_gv(s, ms, (d - 1) as nat),
{
    let dc = (d - 1) as nat;
    lemma_any_move_has_id(s);
    // the best loss is bounded by what the maximizing movement achieves
    assert(ms.len() > 0) by {
        let m0 = choose|m: Movement| legal_move(s, m);
        assert(ms.contains(m0));
    }
    lemma_seq_max_achieved(s, ms, dc);
    let j = choose|j: int|
        0 <= j < ms.len() && game_value(apply_move(s, #[trigger] ms[j]), dc) == seq_max_gv(
            s,
            ms,
            dc,
        );
    let mj = ms[j];
    assert(ms.contains(mj));
    lemma_move_id_inverse(mj);
    lemma_best_loss_le(s, dc, 4160, mj);
    // and it is attained by a legal movement, which the sequence holds
    lemma_best_loss_achieved(s, dc, 4160);
    let mstar = choose|m: Movement|
        legal_move(s, m) && best_loss_from(s, dc, 4160) == -game_value(
            #[trigger] apply_move(s, m),
            dc,
        );
    assert(ms.contains(mstar));
    let jstar = choose|i: int| 0 <= i < ms.len() && ms[i] == mstar;
    lemma_seq_max_ge(s, ms, dc, jstar);
}

} // verus!
