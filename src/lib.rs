//! A multi-window leaderboard over scored experience events.
//!
//! For each window (weekly, monthly, all time) the events within the window
//! are summed per address, the addresses are put in one total order (more
//! experience first, then the smaller address), and the snapshot reports the
//! first three entries, the number of participants and the rank of one
//! queried address.
use vstd::prelude::*;

pub mod order;
pub mod totals;
pub mod ranking;
pub mod window;
pub mod leaderboard;

verus! {

/// An NFT reward of a quest: its image and level.
#[derive(Debug)]
pub struct NFTItem {
    pub img: String,
    pub level: u32,
}

/// Query parameters of the leaderboard endpoint: the address whose rank is asked for.
#[derive(Debug)]
pub struct GetLeaderboardInfoQuery {
    pub addr: String,
}

} // verus!
