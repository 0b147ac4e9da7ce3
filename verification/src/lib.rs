//! Core of a small single-choice election service: an authenticated
//! vote-token codec, a one-time invite-code issuer, a per-voter vote
//! ledger with capacity enforcement, and the poll lifecycle state machine.

pub mod config;
pub mod digits;
pub mod entropy;
pub mod hexstr;
pub mod ledger;
pub mod lifecycle;
pub mod poll;
pub mod poll_token;
pub mod roster;
pub mod token_service;
