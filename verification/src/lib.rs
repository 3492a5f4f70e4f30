//! Jib packs a list of Solana instructions into transactions of the maximum size and number of
//! accounts, sends them to the current leader and confirms them.
//!
//! [`jib::Jib`] holds what is to be sent. It decides everything that can be decided without the
//! network: [`packing`] makes the transactions, and a [`submission::Submission`] says what is to be
//! asked of the network next and takes in what came of it.
pub mod error;
pub mod jib;
pub mod keypair;
pub mod keys;
pub mod model;
pub mod network;
pub mod outcome;
pub mod packing;
pub mod packing_laws;
pub mod packing_numbers;
pub mod pending;
pub mod progress;
pub mod sdk;
pub mod signing;
pub mod signing_laws;
pub mod status;
pub mod submission;
pub mod submission_exact;
pub mod submission_expiry;
pub mod submission_laws;
pub mod submission_model;
pub mod submission_once;
pub mod submission_retry;
pub mod submission_rules;
pub mod submission_runs;
pub mod text;
pub mod text_laws;
pub mod view_laws;
pub mod wire;
