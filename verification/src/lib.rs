//! A stable partition of a fixed population into teams of three, computed by
//! an iterative proposal/acceptance algorithm generalized from stable
//! matching on pairs to triads.
//!
//! Each player carries a total preference order over all other players and a
//! ranked queue of candidate partner pairs derived from it. The driver
//! repeatedly lets the lowest-numbered free player propose its best untried
//! pair; a proposal is committed only when both candidates accept, which
//! dissolves their previous teams and forms the new one.

pub mod driver;
pub mod player;
pub mod prefs;
pub mod registry;
mod rng;
pub mod team;
