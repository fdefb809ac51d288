//! Verified core of a Discord bot that keeps score of a daily "929" ritual:
//! who posts `929` in the bot channel during the trigger minute, their
//! streaks and points, and the leaderboard built from those profiles.
use vstd::prelude::*;

pub mod clock;
pub mod config;
pub mod leaderboard;
pub mod navigation;
pub mod participation;
pub mod text;

verus! {

} // verus!
