//! A `Configuration` stores the game state; a `Movement` stores a move to
//! play. The mathematical model of a state is a `GameState`: the two
//! players' bit sets, the holes, and whose turn it is.

use vstd::prelude::*;
use vstd::string::*;

use crate::board::{nb_mask, Board};
use crate::board::lemma_nb_mask_bit;
use crate::positions::{bit, chebyshev, mask_of, popcount, BoardPosition, Position, Positions};
use crate::positions::{
    lemma_bit_and, lemma_bit_not, lemma_bit_or, lemma_bit_single, lemma_bit_zero,
    lemma_disjoint_iff, lemma_eq_by_bits, lemma_mask_of_bits, lemma_or_zero,
};

verus! {

#[derive(Debug, Copy, Clone, PartialEq, Eq, Structural)]
/// Movements: clone some blob or jump.
pub enum Movement {
    /// For a copy we just need the destination.
    Duplicate(u8),
    /// For a jump we need a source and a destination.
    Jump(u8, u8),
}

/// Mathematical model of a game state: player 0's cells, player 1's cells,
/// the holes, and whose turn it is.
pub ghost struct GameState {
    pub b0: u64,
    pub b1: u64,
    pub holes: u64,
    pub player: bool,
}

impl GameState {
    /// The pieces of the player to move.
    pub open spec fn mine(self) -> u64 {
        if self.player {
            self.b1
        } else {
            self.b0
        }
    }

    /// The pieces of the player waiting.
    pub open spec fn his(self) -> u64 {
        if self.player {
            self.b0
        } else {
            self.b1
        }
    }

    /// The two piece sets and the holes are pairwise disjoint.
    pub open spec fn wf(self) -> bool {
        &&& self.b0 & self.b1 == 0
        &&& self.b0 & self.holes == 0
        &&& self.b1 & self.holes == 0
    }
}

/// Cell `q` is on the board, not a hole, and not occupied.
pub open spec fn empty_cell(s: GameState, q: int) -> bool {
    &&& 0 <= q < 64
    &&& !bit(s.b0, q)
    &&& !bit(s.b1, q)
    &&& !bit(s.holes, q)
}

/// The destination cell of a movement.
pub open spec fn movement_dest(m: Movement) -> int {
    match m {
        Movement::Duplicate(dest) => dest as int,
        Movement::Jump(_, dest) => dest as int,
    }
}

/// One of the mover's pieces stands at Chebyshev distance 1 of `dest`.
pub open spec fn adjacent_own(s: GameState, dest: int) -> bool {
    exists|p: int| 0 <= p < 64 && bit(s.mine(), p) && chebyshev(p, dest) == 1
}

/// Legality of a movement for the side to move: a duplication fills an
/// empty cell adjacent to an own piece; a jump relocates an own piece to an
/// empty cell at Chebyshev distance 2.
pub open spec fn legal_move(s: GameState, m: Movement) -> bool {
    match m {
        Movement::Duplicate(dest) => empty_cell(s, dest as int) && adjacent_own(s, dest as int),
        Movement::Jump(src, dest) => src < 64 && bit(s.mine(), src as int) && chebyshev(
            src as int,
            dest as int,
        ) == 2 && empty_cell(s, dest as int),
    }
}

/// Does the side to move have any legal movement?
pub open spec fn has_any_move(s: GameState) -> bool {
    exists|m: Movement| legal_move(s, m)
}

/// The state after playing `m`: the destination is filled (and for a jump
/// the source vacated), every enemy piece at distance 1 of the destination
/// changes sides, and the turn flips.
pub open spec fn apply_move(s: GameState, m: Movement) -> GameState {
    let dest = movement_dest(m);
    let mine0 = match m {
        Movement::Jump(src, _) => s.mine() & !(1u64 << (src as u64)),
        Movement::Duplicate(_) => s.mine(),
    };
    let cap = s.his() & nb_mask(s.holes, dest);
    let new_mine = mine0 | cap | (1u64 << (dest as u64));
    let new_his = s.his() & !cap;
    GameState {
        b0: if s.player {
            new_his
        } else {
            new_mine
        },
        b1: if s.player {
            new_mine
        } else {
            new_his
        },
        holes: s.holes,
        player: !s.player,
    }
}

/// The state after passing: only the turn flips.
pub open spec fn skip_move(s: GameState) -> GameState {
    GameState { b0: s.b0, b1: s.b1, holes: s.holes, player: !s.player }
}

/// Material evaluation: the waiting player's piece count minus the moving
/// player's, i.e. the mover's loss.
pub open spec fn static_value(s: GameState) -> int {
    popcount(s.his()) - popcount(s.mine())
}

/// The game is over when a side has no piece left or no empty cell remains.
pub open spec fn game_over_spec(s: GameState) -> bool {
    s.b0 == 0 || s.b1 == 0 || (s.b0 | s.b1 | s.holes) == u64::MAX
}

/// The serialized character of cell `i`.
pub open spec fn cell_char(s: GameState, i: int) -> char {
    if bit(s.holes, i) {
        'h'
    } else if bit(s.b0, i) {
        'r'
    } else if bit(s.b1, i) {
        'b'
    } else {
        ' '
    }
}

/// Marks the cells whose serialized character is the player-0 glyph.
pub open spec fn r_char_pred(s: Seq<char>) -> spec_fn(int) -> bool {
    |j: int| s[j + 1] == 'r'
}

/// Marks the cells whose serialized character is the player-1 glyph.
pub open spec fn b_char_pred(s: Seq<char>) -> spec_fn(int) -> bool {
    |j: int| s[j + 1] == 'b'
}

/// Chebyshev distance is symmetric.
pub proof fn lemma_chebyshev_sym(p: int, q: int)
    ensures
        chebyshev(p, q) == chebyshev(q, p),
{
}

/// The mover's pieces meet the neighbour mask of `dest` exactly when one of
/// them stands at distance 1 of `dest`.
proof fn lemma_dup_adjacent(s: GameState, dest: int)
    requires
        s.wf(),
        0 <= dest < 64,
    ensures
        (s.mine() & nb_mask(s.holes, dest) != 0) <==> adjacent_own(s, dest),
{
    let nbm = nb_mask(s.holes, dest);
    lemma_nb_mask_bit(s.holes, dest);
    lemma_bit_and(s.mine(), nbm);
    lemma_disjoint_iff(s.b0, s.holes);
    lemma_disjoint_iff(s.b1, s.holes);
    if s.mine() & nbm != 0 {
        crate::positions::lemma_nonzero_has_bit(s.mine() & nbm);
        let i = choose|i: int| bit(s.mine() & nbm, i);
        lemma_chebyshev_sym(i, dest);
        assert(0 <= i < 64 && bit(s.mine(), i) && chebyshev(i, dest) == 1);
    }
    if adjacent_own(s, dest) {
        let p = choose|p: int| 0 <= p < 64 && bit(s.mine(), p) && chebyshev(p, dest) == 1;
        lemma_chebyshev_sym(p, dest);
        assert(!bit(s.holes, p));
        assert(bit(nbm, p));
        assert(bit(s.mine() & nbm, p));
        if s.mine() & nbm == 0 {
            lemma_bit_zero();
            assert(false);
        }
        assert(s.mine() & nbm != 0);
    }
}

/// Playing any legal movement keeps the two piece sets and the holes
/// pairwise disjoint.
pub proof fn lemma_apply_preserves_wf(s: GameState, m: Movement)
    requires
        s.wf(),
        legal_move(s, m),
    ensures
        apply_move(s, m).wf(),
{
    let dest = movement_dest(m);
    let mine0 = match m {
        Movement::Jump(src, _) => s.mine() & !(1u64 << (src as u64)),
        Movement::Duplicate(_) => s.mine(),
    };
    let cap = s.his() & nb_mask(s.holes, dest);
    let new_mine = mine0 | cap | (1u64 << (dest as u64));
    let new_his = s.his() & !cap;
    lemma_nb_mask_bit(s.holes, dest);
    lemma_bit_and(s.his(), nb_mask(s.holes, dest));
    lemma_bit_not(cap);
    lemma_bit_and(s.his(), !cap);
    lemma_bit_or(mine0 | cap, 1u64 << (dest as u64));
    lemma_bit_or(mine0, cap);
    lemma_bit_single(dest as u64);
    if m is Jump {
        let src = m->Jump_0;
        lemma_bit_not(1u64 << (src as u64));
        lemma_bit_and(s.mine(), !(1u64 << (src as u64)));
    }
    lemma_disjoint_iff(s.b0, s.b1);
    lemma_disjoint_iff(s.b0, s.holes);
    lemma_disjoint_iff(s.b1, s.holes);
    assert(0 <= dest < 64);
    assert forall|i: int| !(#[trigger] bit(new_mine, i) && bit(new_his, i)) by {
        if bit(new_mine, i) {
            if bit(mine0, i) {
                assert(bit(s.mine(), i));
                assert(!bit(s.his(), i));
            } else if bit(cap, i) {
                assert(!bit(new_his, i));
            } else {
                assert(i == dest);
                assert(!bit(s.his(), i));
            }
        }
    }
    assert forall|i: int| !(#[trigger] bit(new_mine, i) && bit(s.holes, i)) by {
        if bit(new_mine, i) {
            if bit(mine0, i) {
                assert(bit(s.mine(), i));
            } else if bit(cap, i) {
                assert(bit(nb_mask(s.holes, dest), i));
            } else {
                assert(i == dest);
            }
        }
    }
    assert forall|i: int| !(#[trigger] bit(new_his, i) && bit(s.holes, i)) by {
        if bit(new_his, i) {
            assert(bit(s.his(), i));
        }
    }
    lemma_disjoint_iff(new_mine, new_his);
    lemma_disjoint_iff(new_his, new_mine);
    lemma_disjoint_iff(new_mine, s.holes);
    lemma_disjoint_iff(new_his, s.holes);
}

#[derive(Copy, Clone)]
/// Game state: who should play, what the board is, and where every blob is.
pub struct Configuration<'a> {
    /// Player 0's pieces.
    pub blobs0: Positions,
    /// Player 1's pieces.
    pub blobs1: Positions,
    /// The board played on.
    pub board: &'a Board,
    /// Who should play now.
    pub current_player: bool,
}

impl<'a> View for Configuration<'a> {
    type V = GameState;

    closed spec fn view(&self) -> GameState {
        GameState {
            b0: self.blobs0.0,
            b1: self.blobs1.0,
            holes: self.board.holes.0,
            player: self.current_player,
        }
    }
}

impl<'a> Configuration<'a> {
    /// The board tables are sound and the piece sets respect the holes.
    pub closed spec fn inv(&self) -> bool {
        self.board.wf() && self@.wf()
    }

    /// Create an initial game configuration out of the given `Board`: each
    /// side starts with two pieces at fixed opposite corners.
    pub fn new(board: &'a Board) -> (r: Self)
        requires
            board.wf(),
            !bit(board.holes.0, 0),
            !bit(board.holes.0, 7),
            !bit(board.holes.0, 56),
            !bit(board.holes.0, 63),
        ensures
            r.inv(),
            r@.wf(),
            r@.player == false,
            r@.holes == board.holes.0,
            r@.b0 == (1u64 << 0u64) | (1u64 << 63u64),
            r@.b1 == (1u64 << 7u64) | (1u64 << 56u64),
    {
        let blobs0 = Positions::single(0).union_with(Positions::single(63));
        let blobs1 = Positions::single(7).union_with(Positions::single(56));
        proof {
            let b0 = (1u64 << 0u64) | (1u64 << 63u64);
            let b1 = (1u64 << 7u64) | (1u64 << 56u64);
            assert(((1u64 << 0u64) | (1u64 << 63u64)) & ((1u64 << 7u64) | (1u64 << 56u64)) == 0)
                by (bit_vector);
            lemma_bit_or(1u64 << 0u64, 1u64 << 63u64);
            lemma_bit_or(1u64 << 7u64, 1u64 << 56u64);
            lemma_bit_single(0);
            lemma_bit_single(63);
            lemma_bit_single(7);
            lemma_bit_single(56);
            lemma_disjoint_iff(b0, board.holes.0);
            lemma_disjoint_iff(b1, board.holes.0);
        }
        Configuration { blobs0, blobs1, board, current_player: false }
    }

    /// Play the given movement on `self`, in place.
    pub fn apply_movement(&mut self, movement: &Movement)
        requires
            old(self).inv(),
            legal_move(old(self)@, *movement),
        ensures
            final(self)@ == apply_move(old(self)@, *movement),
            final(self).inv(),
            final(self)@.wf(),
    {
        let me_is_p1 = self.current_player;
        let destination: u8 = match *movement {
            Movement::Jump(source, destination) => {
                if me_is_p1 {
                    self.blobs1.remove(Positions::single(source));
                } else {
                    self.blobs0.remove(Positions::single(source));
                }
                destination
            },
            Movement::Duplicate(destination) => destination,
        };
        let adversary = if me_is_p1 {
            self.blobs0
        } else {
            self.blobs1
        };
        let neighbours = self.board.neighbours[destination as usize];
        let changing = adversary.intersection_with(neighbours);
        if me_is_p1 {
            self.blobs1.add(changing);
            self.blobs1.add(Positions::single(destination));
            self.blobs0.remove(changing);
        } else {
            self.blobs0.add(changing);
            self.blobs0.add(Positions::single(destination));
            self.blobs1.remove(changing);
        }
        self.current_player = !self.current_player;
        proof {
            assert(self@ == apply_move(old(self)@, *movement));
            lemma_apply_preserves_wf(old(self)@, *movement);
        }
    }

    /// Create a new `Configuration` by playing the given `Movement` on self;
    /// `self` is left untouched.
    pub fn play(&self, movement: &Movement) -> (r: Self)
        requires
            self.inv(),
            legal_move(self@, *movement),
        ensures
            r@ == apply_move(self@, *movement),
            r.inv(),
            r@.wf(),
    {
        let mut new_configuration = *self;
        new_configuration.apply_movement(movement);
        new_configuration
    }

    /// Create a new `Configuration` by skipping the turn on self.
    pub fn skip_play(&self) -> (r: Self)
        requires
            self.inv(),
        ensures
            r@ == skip_move(self@),
            r.inv(),
            r@.wf(),
    {
        let mut new_configuration = *self;
        new_configuration.current_player = !new_configuration.current_player;
        new_configuration
    }

    /// Does the given player have a blob at the given position?
    pub fn has_blob(&self, player: bool, position: Position) -> (r: bool)
        requires
            position < 64,
        ensures
            r == bit(
                if player {
                    self@.b1
                } else {
                    self@.b0
                },
                position as int,
            ),
    {
        if player {
            self.blobs1.contains(position)
        } else {
            self.blobs0.contains(position)
        }
    }

    /// Does no player have a blob at the given position?
    pub fn free_position_at(&self, position: Position) -> (r: bool)
        requires
            position < 64,
        ensures
            r == (!bit(self@.b0, position as int) && !bit(self@.b1, position as int)),
    {
        proof {
            lemma_bit_or(self.blobs0.0, self.blobs1.0);
        }
        !self.blobs0.union_with(self.blobs1).contains(position)
    }

    /// The `Position`s of all empty cells, ascending.
    pub fn empty_cells(&self) -> (r: Vec<Position>)
        ensures
            forall|k: int|
                0 <= k < r@.len() ==> (#[trigger] r@[k] < 64 && empty_cell(self@, r@[k] as int)),
            forall|q: int| empty_cell(self@, q) ==> r@.contains(q as u8),
            forall|k1: int, k2: int| 0 <= k1 < k2 < r@.len() ==> r@[k1] < r@[k2],
    {
        let occupied = self.blobs0.union_with(self.blobs1).union_with(self.board.holes);
        let free = occupied.invert();
        let r = free.positions();
        proof {
            lemma_bit_or(self.blobs0.0, self.blobs1.0);
            lemma_bit_or(self.blobs0.0 | self.blobs1.0, self.board.holes.0);
            lemma_bit_not(occupied.0);
            assert forall|q: int| empty_cell(self@, q) implies r@.contains(q as u8) by {
                assert(bit(free.0, q));
            }
        }
        r
    }

    /// The configuration value: the waiting player's piece count minus the
    /// moving player's (the mover's loss).
    pub fn value(&self) -> (r: i8)
        ensures
            r as int == static_value(self@),
            -64 <= r <= 64,
    {
        let l0 = self.blobs0.len();
        let l1 = self.blobs1.len();
        if self.current_player {
            l0 - l1
        } else {
            l1 - l0
        }
    }

    /// Is the given movement correct for the current configuration?
    pub fn check_move(&self, movement: &Movement) -> (r: bool)
        requires
            self.inv(),
        ensures
            r == legal_move(self@, *movement),
    {
        let destination: u8 = match *movement {
            Movement::Jump(source, destination) => {
                if source >= 64 {
                    return false;
                }
                let owned = if self.current_player {
                    self.blobs1.contains(source)
                } else {
                    self.blobs0.contains(source)
                };
                if !owned || source.distance_to(destination) != 2 {
                    return false;
                }
                destination
            },
            Movement::Duplicate(destination) => {
                if destination >= 64 {
                    return false;
                }
                let neighbours = self.board.neighbours[destination as usize];
                let mine = if self.current_player {
                    self.blobs1
                } else {
                    self.blobs0
                };
                proof {
                    lemma_dup_adjacent(self@, destination as int);
                }
                if mine.intersection_with(neighbours).is_empty() {
                    return false;
                }
                destination
            },
        };
        if destination >= 64 {
            return false;
        }
        !self.board.holes.contains(destination) && self.free_position_at(destination)
    }

    /// True when no empty space remains or someone died.
    pub fn game_over(&self) -> (r: bool)
        ensures
            r == game_over_spec(self@),
    {
        self.blobs0.is_empty() || self.blobs1.is_empty() || self.blobs0.union_with(
            self.blobs1,
        ).union_with(self.board.holes).is_all()
    }

    /// All possible duplications for the current player.
    fn duplicates(&self) -> (r: Vec<Movement>)
        requires
            self.inv(),
        ensures
            forall|m: Movement| #[trigger]
                r@.contains(m) <==> (m is Duplicate && legal_move(self@, m)),
    {
        let empties = self.empty_cells();
        let mine = if self.current_player {
            self.blobs1
        } else {
            self.blobs0
        };
        let mut r: Vec<Movement> = Vec::new();
        let mut k: usize = 0;
        while k < empties.len()
            invariant
                k <= empties@.len(),
                self.inv(),
                mine == (if self.current_player {
                    self.blobs1
                } else {
                    self.blobs0
                }),
                forall|kk: int|
                    0 <= kk < empties@.len() ==> (#[trigger] empties@[kk] < 64 && empty_cell(
                        self@,
                        empties@[kk] as int,
                    )),
                forall|q: int| empty_cell(self@, q) ==> empties@.contains(q as u8),
                forall|m: Movement| #[trigger]
                    r@.contains(m) <==> (m is Duplicate && legal_move(self@, m) && (exists|j: int|
                        0 <= j < k && empties@[j] == m->Duplicate_0)),
            decreases empties@.len() - k,
        {
            let dest = empties[k];
            let neighbours = self.board.neighbours[dest as usize];
            proof {
                assert(empty_cell(self@, empties@[k as int] as int));
                lemma_dup_adjacent(self@, dest as int);
            }
            if !mine.intersection_with(neighbours).is_empty() {
                let ghost old_r = r@;
                r.push(Movement::Duplicate(dest));
                proof {
                    assert forall|m: Movement| #[trigger]
                        r@.contains(m) <==> (m is Duplicate && legal_move(self@, m) && (exists|
                            j: int,
                        |
                            0 <= j < k + 1 && empties@[j] == m->Duplicate_0)) by {
                        if old_r.contains(m) {
                            let i = choose|i: int| 0 <= i < old_r.len() && old_r[i] == m;
                            assert(r@[i] == m);
                        }
                        if m == Movement::Duplicate(dest) {
                            assert(r@[r@.len() - 1] == m);
                        }
                        if r@.contains(m) {
                            let i = choose|i: int| 0 <= i < r@.len() && r@[i] == m;
                            if i < r@.len() - 1 {
                                assert(old_r.contains(m));
                            } else {
                                assert(empties@[k as int] == m->Duplicate_0);
                            }
                        }
                    }
                }
            } else {
                proof {
                    assert forall|m: Movement| #[trigger]
                        r@.contains(m) <==> (m is Duplicate && legal_move(self@, m) && (exists|
                            j: int,
                        |
                            0 <= j < k + 1 && empties@[j] == m->Duplicate_0)) by {
                        if m is Duplicate && legal_move(self@, m) && empties@[k as int]
                            == m->Duplicate_0 {
                            assert(false);
                        }
                    }
                }
            }
            k = k + 1;
        }
        proof {
            assert forall|m: Movement| #[trigger]
                r@.contains(m) <==> (m is Duplicate && legal_move(self@, m)) by {
                if m is Duplicate && legal_move(self@, m) {
                    let d = m->Duplicate_0;
                    assert(empties@.contains(d));
                    let j = choose|j: int| 0 <= j < empties@.len() && empties@[j] == d;
                    assert(0 <= j < empties@.len() && empties@[j] == m->Duplicate_0);
                }
            }
        }
        r
    }

    /// All possible jumps for the current player.
    fn jumps(&self) -> (r: Vec<Movement>)
        requires
            self.inv(),
        ensures
            forall|m: Movement| #[trigger] r@.contains(m) <==> (m is Jump && legal_move(self@, m)),
    {
        let mine = if self.current_player {
            self.blobs1
        } else {
            self.blobs0
        };
        let sources = mine.positions();
        let mut r: Vec<Movement> = Vec::new();
        let mut k: usize = 0;
        while k < sources.len()
            invariant
                k <= sources@.len(),
                self.inv(),
                mine == (if self.current_player {
                    self.blobs1
                } else {
                    self.blobs0
                }),
                forall|kk: int|
                    0 <= kk < sources@.len() ==> (#[trigger] sources@[kk] < 64 && bit(
                        mine.0,
                        sources@[kk] as int,
                    )),
                forall|p: int| 0 <= p < 64 && bit(mine.0, p) ==> sources@.contains(p as u8),
                forall|m: Movement| #[trigger]
                    r@.contains(m) <==> (m is Jump && legal_move(self@, m) && (exists|j: int|
                        0 <= j < k && sources@[j] == m->Jump_0)),
            decreases sources@.len() - k,
        {
            let src = sources[k];
            let list = &self.board.neighbours_dist2[src as usize];
            let mut t: usize = 0;
            while t < list.len()
                invariant
                    t <= list@.len(),
                    k < sources@.len(),
                    self.inv(),
                    mine == (if self.current_player {
                        self.blobs1
                    } else {
                        self.blobs0
                    }),
                    src == sources@[k as int],
                    src < 64,
                    bit(mine.0, src as int),
                    list == &self.board.neighbours_dist2@[src as int],
                    forall|q: u8| #[trigger]
                        self.board.neighbours_dist2@[src as int]@.contains(q) <==> (q < 64
                            && chebyshev(src as int, q as int) == 2 && !bit(
                            self@.holes,
                            q as int,
                        )),
                    forall|m: Movement| #[trigger]
                        r@.contains(m) <==> (m is Jump && legal_move(self@, m) && ((exists|j: int|
                            0 <= j < k && sources@[j] == m->Jump_0) || (m->Jump_0 == src && (exists|
                            u: int,
                        |
                            0 <= u < t && list@[u] == m->Jump_1)))),
                decreases list@.len() - t,
            {
                let dst = list[t];
                proof {
                    assert(list@.contains(list@[t as int]));
                }
                if self.free_position_at(dst) {
                    let ghost old_r = r@;
                    r.push(Movement::Jump(src, dst));
                    proof {
                        assert(legal_move(self@, Movement::Jump(src, dst)));
                        assert forall|m: Movement| #[trigger]
                            r@.contains(m) <==> (m is Jump && legal_move(self@, m) && ((exists|
                                j: int,
                            |
                                0 <= j < k && sources@[j] == m->Jump_0) || (m->Jump_0 == src && (
                            exists|u: int| 0 <= u < t + 1 && list@[u] == m->Jump_1)))) by {
                            if old_r.contains(m) {
                                let i = choose|i: int| 0 <= i < old_r.len() && old_r[i] == m;
                                assert(r@[i] == m);
                            }
                            if m == Movement::Jump(src, dst) {
                                assert(r@[r@.len() - 1] == m);
                            }
                            if r@.contains(m) {
                                let i = choose|i: int| 0 <= i < r@.len() && r@[i] == m;
                                if i < r@.len() - 1 {
                                    assert(old_r.contains(m));
                                } else {
                                    assert(list@[t as int] == m->Jump_1);
                                }
                            }
                        }
                    }
                } else {
                    proof {
                        assert forall|m: Movement| #[trigger]
                            r@.contains(m) <==> (m is Jump && legal_move(self@, m) && ((exists|
                                j: int,
                            |
                                0 <= j < k && sources@[j] == m->Jump_0) || (m->Jump_0 == src && (
                            exists|u: int| 0 <= u < t + 1 && list@[u] == m->Jump_1)))) by {
                            if m is Jump && legal_move(self@, m) && m->Jump_0 == src && list@[t as int]
                                == m->Jump_1 {
                                assert(false);
                            }
                        }
                    }
                }
                t = t + 1;
            }
            k = k + 1;
            proof {
                assert forall|m: Movement| #[trigger]
                    r@.contains(m) <==> (m is Jump && legal_move(self@, m) && (exists|j: int|
                        0 <= j < k && sources@[j] == m->Jump_0)) by {
                    if m is Jump && legal_move(self@, m) && m->Jump_0 == src {
                        let dst = m->Jump_1;
                        assert(empty_cell(self@, dst as int));
                        assert(self.board.neighbours_dist2@[src as int]@.contains(dst));
                        let u = choose|u: int|
                            0 <= u < self.board.neighbours_dist2@[src as int]@.len()
                                && self.board.neighbours_dist2@[src as int]@[u] == dst;
                        assert(0 <= u < list@.len() && list@[u] == m->Jump_1);
                        assert(sources@[k - 1] == m->Jump_0);
                    }
                }
            }
        }
        proof {
            assert forall|m: Movement| #[trigger]
                r@.contains(m) <==> (m is Jump && legal_move(self@, m)) by {
                if m is Jump && legal_move(self@, m) {
                    let src = m->Jump_0;
                    assert(bit(mine.0, src as int));
                    assert(sources@.contains(src));
                    let j = choose|j: int| 0 <= j < sources@.len() && sources@[j] == src;
                    assert(0 <= j < sources@.len() && sources@[j] == m->Jump_0);
                }
            }
        }
        r
    }

    /// All possible moves: first every duplication, then every jump.
    pub fn movements(&self) -> (r: Vec<Movement>)
        requires
            self.inv(),
        ensures
            forall|m: Movement| #[trigger] r@.contains(m) <==> legal_move(self@, m),
            r@.len() == 0 <==> !has_any_move(self@),
            forall|i: int, j: int|
                0 <= i < j < r@.len() && (#[trigger] r@[j]) is Duplicate ==> (#[trigger] r@[i])
                    is Duplicate,
    {
        let mut r = self.duplicates();
        let mut js = self.jumps();
        let ghost dups = r@;
        let ghost jmps = js@;
        r.append(&mut js);
        proof {
            assert forall|m: Movement| #[trigger] r@.contains(m) <==> legal_move(self@, m) by {
                if dups.contains(m) {
                    let i = choose|i: int| 0 <= i < dups.len() && dups[i] == m;
                    assert(r@[i] == m);
                }
                if jmps.contains(m) {
                    let i = choose|i: int| 0 <= i < jmps.len() && jmps[i] == m;
                    assert(r@[dups.len() + i] == m);
                }
                if r@.contains(m) {
                    let i = choose|i: int| 0 <= i < r@.len() && r@[i] == m;
                    if i < dups.len() {
                        assert(dups.contains(m));
                    } else {
                        assert(jmps[i - dups.len()] == m);
                        assert(jmps.contains(m));
                    }
                }
                if legal_move(self@, m) {
                    match m {
                        Movement::Duplicate(_) => {
                            assert(dups.contains(m));
                        },
                        Movement::Jump(_, _) => {
                            assert(jmps.contains(m));
                        },
                    }
                }
            }
            if r@.len() > 0 {
                assert(r@.contains(r@[0]));
            }
            if r@.len() == 0 && has_any_move(self@) {
                let m = choose|m: Movement| legal_move(self@, m);
                assert(r@.contains(m));
                assert(false);
            }
            // duplications come first: anything after a jump is a jump
            assert forall|i: int, j: int|
                0 <= i < j < r@.len() && (#[trigger] r@[j]) is Duplicate implies (#[trigger] r@[i])
                is Duplicate by {
                if i >= dups.len() {
                    assert(jmps.contains(jmps[i - dups.len()]));
                    assert(jmps.contains(jmps[j - dups.len()]));
                } else {
                    assert(dups.contains(dups[i]));
                }
            }
        }
        r
    }

    /// Serialize this `Configuration` into a `String`: the player to move,
    /// then one character per cell in row-major order.
    pub fn serialize(&self) -> (r: String)
        ensures
            r@.len() == 65,
            r@[0] == (if self@.player {
                '1'
            } else {
                '0'
            }),
            forall|i: int| 0 <= i < 64 ==> r@[i + 1] == cell_char(self@, i),
    {
        proof {
            reveal_strlit("0");
            reveal_strlit("1");
            reveal_strlit("h");
            reveal_strlit("r");
            reveal_strlit("b");
            reveal_strlit(" ");
        }
        let mut s = String::new();
        if self.current_player {
            s.append("1");
        } else {
            s.append("0");
        }
        let mut i: u8 = 0;
        while i < 64
            invariant
                i <= 64,
                s@.len() == 1 + i as int,
                s@[0] == (if self@.player {
                    '1'
                } else {
                    '0'
                }),
                forall|j: int| 0 <= j < i as int ==> s@[j + 1] == cell_char(self@, j),
            decreases 64 - i as int,
        {
            proof {
                reveal_strlit("h");
                reveal_strlit("r");
                reveal_strlit("b");
                reveal_strlit(" ");
            }
            if self.board.holes.contains(i) {
                s.append("h");
            } else if self.blobs0.contains(i) {
                s.append("r");
            } else if self.blobs1.contains(i) {
                s.append("b");
            } else {
                s.append(" ");
            }
            i = i + 1;
        }
        s
    }

    /// Deserialize the given `String` into a `Configuration`. The `Board`
    /// must have been rebuilt first from the same text.
    pub fn deserialize(string: &str, board: &'a Board) -> (r: Self)
        requires
            board.wf(),
            string@.len() == 65,
            string@[0] == '0' || string@[0] == '1',
            forall|i: int|
                1 <= i < 65 ==> (string@[i] == 'h' || string@[i] == 'r' || string@[i] == 'b'
                    || string@[i] == ' '),
            forall|i: int|
                0 <= i < 64 && (string@[i + 1] == 'r' || string@[i + 1] == 'b') ==> !bit(
                    board.holes.0,
                    i,
                ),
        ensures
            r.inv(),
            r@.wf(),
            r@.player == (string@[0] == '1'),
            r@.holes == board.holes.0,
            forall|i: int| 0 <= i < 64 ==> (bit(r@.b0, i) <==> string@[i + 1] == 'r'),
            forall|i: int| 0 <= i < 64 ==> (bit(r@.b1, i) <==> string@[i + 1] == 'b'),
    {
        let first = string.get_char(0);
        let current_player = first == '1';
        let mut b0: u64 = 0;
        let mut b1: u64 = 0;
        let mut i: u8 = 0;
        while i < 64
            invariant
                i <= 64,
                string@.len() == 65,
                b0 == mask_of(r_char_pred(string@), i as int),
                b1 == mask_of(b_char_pred(string@), i as int),
            decreases 64 - i as int,
        {
            let code = string.get_char((i as usize) + 1);
            if code == 'r' {
                b0 = b0 | (1u64 << (i as u64));
                proof {
                    lemma_or_zero(b1);
                }
            } else if code == 'b' {
                b1 = b1 | (1u64 << (i as u64));
                proof {
                    lemma_or_zero(b0);
                }
            } else {
                proof {
                    lemma_or_zero(b0);
                    lemma_or_zero(b1);
                }
            }
            i = i + 1;
        }
        proof {
            lemma_mask_of_bits(r_char_pred(string@), 64);
            lemma_mask_of_bits(b_char_pred(string@), 64);
            lemma_disjoint_iff(b0, b1);
            lemma_disjoint_iff(b0, board.holes.0);
            lemma_disjoint_iff(b1, board.holes.0);
        }
        Configuration { blobs0: Positions(b0), blobs1: Positions(b1), board, current_player }
    }
}

/// A dead side or a full board means the game is over.
pub proof fn lemma_game_over_when_side_dead(s: GameState)
    requires
        s.b0 == 0 || s.b1 == 0,
    ensures
        game_over_spec(s),
{
}

/// The initial occupancy on a hole-free board leaves empty cells, so the
/// game is not over.
pub proof fn lemma_initial_not_over(s: GameState)
    requires
        s.b0 == (1u64 << 0u64) | (1u64 << 63u64),
        s.b1 == (1u64 << 7u64) | (1u64 << 56u64),
        s.holes == 0u64,
    ensures
        !game_over_spec(s),
{
    assert(((1u64 << 0u64) | (1u64 << 63u64)) != 0u64 && ((1u64 << 7u64) | (1u64 << 56u64)) != 0u64
        && (((1u64 << 0u64) | (1u64 << 63u64)) | ((1u64 << 7u64) | (1u64 << 56u64)) | 0u64)
        != u64::MAX) by (bit_vector);
}

/// Serializing a well-formed state and reading the characters back
/// reproduces the occupancy and the holes exactly.
pub proof fn lemma_serialize_roundtrip(s: GameState)
    requires
        s.wf(),
    ensures
        forall|i: int| 0 <= i < 64 ==> ((#[trigger] cell_char(s, i) == 'h') <==> bit(s.holes, i)),
        forall|i: int| 0 <= i < 64 ==> ((#[trigger] cell_char(s, i) == 'r') <==> bit(s.b0, i)),
        forall|i: int| 0 <= i < 64 ==> ((#[trigger] cell_char(s, i) == 'b') <==> bit(s.b1, i)),
{
    lemma_disjoint_iff(s.b0, s.b1);
    lemma_disjoint_iff(s.b0, s.holes);
    lemma_disjoint_iff(s.b1, s.holes);
}

/// The side to move has a legal movement exactly when one of its pieces
/// stands within Chebyshev distance 2 of an empty cell.
pub proof fn lemma_has_move_iff_adjacency(s: GameState)
    requires
        s.wf(),
    ensures
        has_any_move(s) <==> (exists|p: int, q: int|
            bit(s.mine(), p) && empty_cell(s, q) && 1 <= chebyshev(p, q) <= 2),
{
    if has_any_move(s) {
        let m = choose|m: Movement| legal_move(s, m);
        match m {
            Movement::Duplicate(dest) => {
                let p = choose|p: int|
                    0 <= p < 64 && bit(s.mine(), p) && chebyshev(p, dest as int) == 1;
                assert(adjacent_own(s, dest as int));
                assert(bit(s.mine(), p) && empty_cell(s, dest as int) && 1 <= chebyshev(
                    p,
                    dest as int,
                ) <= 2);
            },
            Movement::Jump(src, dest) => {
                assert(bit(s.mine(), src as int) && empty_cell(s, dest as int) && 1 <= chebyshev(
                    src as int,
                    dest as int,
                ) <= 2);
            },
        }
    }
    if exists|p: int, q: int| bit(s.mine(), p) && empty_cell(s, q) && 1 <= chebyshev(p, q) <= 2 {
        let (p, q) = choose|p: int, q: int|
            bit(s.mine(), p) && empty_cell(s, q) && 1 <= chebyshev(p, q) <= 2;
        assert(0 <= p < 64 && 0 <= q < 64);
        if chebyshev(p, q) == 1 {
            let m = Movement::Duplicate(q as u8);
            assert(empty_cell(s, (q as u8) as int));
            assert(adjacent_own(s, (q as u8) as int)) by {
                assert(0 <= p < 64 && bit(s.mine(), p) && chebyshev(p, (q as u8) as int) == 1);
            }
            assert(legal_move(s, m));
        } else {
            let m = Movement::Jump(p as u8, q as u8);
            assert(bit(s.mine(), (p as u8) as int));
            assert(legal_move(s, m));
        }
    }
}

/// Capture correctness: playing `Duplicate(d)` next to an enemy piece `e`
/// moves `e` to the mover's side and grows the occupancy by exactly the
/// newly placed piece.
pub proof fn lemma_capture_correctness(s: GameState, d: u8, e: int)
    requires
        s.wf(),
        legal_move(s, Movement::Duplicate(d)),
        bit(s.his(), e),
        chebyshev(d as int, e) == 1,
    ensures
        bit(apply_move(s, Movement::Duplicate(d)).his(), e),
        !bit(apply_move(s, Movement::Duplicate(d)).mine(), e),
        popcount(apply_move(s, Movement::Duplicate(d)).b0 | apply_move(s, Movement::Duplicate(d)).b1)
            == popcount(s.b0 | s.b1) + 1,
{
    let s2 = apply_move(s, Movement::Duplicate(d));
    let cap = s.his() & nb_mask(s.holes, d as int);
    let new_mine = s.mine() | cap | (1u64 << (d as u64));
    let new_his = s.his() & !cap;
    lemma_nb_mask_bit(s.holes, d as int);
    lemma_bit_and(s.his(), nb_mask(s.holes, d as int));
    lemma_bit_not(cap);
    lemma_bit_and(s.his(), !cap);
    lemma_bit_or(s.mine(), cap);
    lemma_bit_or(s.mine() | cap, 1u64 << (d as u64));
    lemma_bit_single(d as u64);
    lemma_disjoint_iff(s.b0, s.b1);
    lemma_disjoint_iff(s.b0, s.holes);
    lemma_disjoint_iff(s.b1, s.holes);
    // e is not a hole, so it is captured
    assert(bit(cap, e));
    assert(bit(s2.his(), e) && !bit(s2.mine(), e));
    // the union of the two sides only gains the destination cell
    lemma_bit_or(s2.b0, s2.b1);
    lemma_bit_or(s.b0, s.b1);
    lemma_bit_or(s.b0 | s.b1, 1u64 << (d as u64));
    lemma_eq_by_bits(s2.b0 | s2.b1, (s.b0 | s.b1) | (1u64 << (d as u64)));
    crate::positions::lemma_count_or_single(s.b0 | s.b1, d as u64, 64);
}

} // verus!
