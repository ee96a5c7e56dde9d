//! Verified engine for the blobwar territory game, played on an 8x8 board
//! with holes: a move either duplicates a piece into an adjacent empty cell
//! or jumps a piece two cells away, and every enemy piece next to the
//! landing cell changes sides.
//!
//! The board cells live in 64-bit sets (`positions`), the precomputed
//! neighbour geometry derives from the holes alone (`board`), and a game
//! state is two piece sets plus the side to move (`configuration`), modelled
//! by the `GameState` ghost structure. The searches (`minmax`, `alphabeta`,
//! `alphabetapass`, `alphabetatable`) are all specified against one
//! mathematical game value (`search`): the plain and the pruning search are
//! proved to return exactly that value, so pruning cannot change it.

pub mod alphabeta;
pub mod alphabetapass;
pub mod alphabetatable;
pub mod board;
pub mod configuration;
pub mod minmax;
pub mod positions;
pub mod search;
pub mod strategy;

pub use positions::Positions;
