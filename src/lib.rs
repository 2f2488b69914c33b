//! A discrete, stochastic artificial chemistry on an unbounded integer grid:
//! catalysts produce bonded chains of links while substrate diffuses as holes.

mod chance;
pub mod ledger;
pub mod pos;
pub mod posset;
pub mod universe;

pub use ledger::Bond;
pub use pos::{pos, Pos};
pub use universe::{SetupError, Universe, DECAY_SCALE};
