//! What holds of the library as a whole.
//!
//! Each law is a proof function, and says in plain figures what the operations that it is about give
//! for any input.

pub mod browsing;
pub mod safeguards;
pub mod scans;
pub mod lists;
pub mod changes;
pub mod caches;
pub mod groups;
pub mod paths;
pub mod trees;
pub mod snapshots;
pub mod deletions;
pub mod volumes;
pub mod sessions;
pub mod words;
pub mod durations;
pub mod choices;
pub mod flags;
pub mod tables;
pub mod reports;
pub mod charts;
pub mod screens;
pub mod panels;
