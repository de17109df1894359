//! Reasoning-session traces, their summaries and provenance fingerprints,
//! and a leaderboard that ranks contributors by what they submitted.
//!
//! Scores are kept as exact fractions (`Ratio`); confidences are integers
//! in thousandths; timestamps are milliseconds since the Unix epoch.

pub mod ratio;
pub mod text;
pub mod meta_agent;
pub mod leaderboard;
pub mod laws;

pub use ratio::Ratio;
pub use text::truncate;
pub use meta_agent::{
    AgentEvent, AgentTransition, AgentType, ContributorProfile, LanguageHistogram, MemoryFold,
    MetaAgent, ProvenanceLog,
};
pub use leaderboard::{ContributorStats, Leaderboard, RankingCriteria};
