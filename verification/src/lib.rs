//! Copying files to several destinations at once and verifying the copies by hash.
pub mod cli;
pub mod coordinator;
pub mod directio;
pub mod discover;
pub mod engine;
pub mod failure;
pub mod hashing;
pub mod messages;
pub mod order;
pub mod path;
pub mod repetition;
pub mod soundness;
pub mod stream;
pub mod text;
pub mod verdict;
pub mod verify;
