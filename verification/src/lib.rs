//! Core of a command-line matcher: a TF-IDF vectorizer over a shared
//! vocabulary, a catalog matcher that ranks entries by cosine similarity,
//! and a process-lifecycle manager for commands launched from a match.
//!
//! All weights are fixed-point numbers with `fixed::SCALE` standing for 1.0,
//! so every computation here is exact integer arithmetic.
pub mod errors;
pub mod fixed;
pub mod text;
pub mod vector;
pub mod vectorizer;
pub mod matcher;
pub mod process;
