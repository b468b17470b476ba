//! A daily-reset competitive leaderboard: per-key standings of members and
//! integer scores, ranked by descending score, that clear themselves at the
//! first midnight after their last score change.

pub mod clock;
pub mod error;
pub mod expiry;
pub mod item;
pub mod laws;
pub mod standings;
pub mod store;

pub use error::StoreError;
pub use item::Item;
pub use store::RankingStore;
