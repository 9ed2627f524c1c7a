//! Pairwise ranking of a fixed photo collection: matchup scheduling, expansion
//! of judged groups into pairwise facts, and the integer bookkeeping behind a
//! Bradley-Terry rating model.

pub mod matchup;
pub mod models;
pub mod progress;
pub mod s3;
pub mod config;
pub mod ranking;
