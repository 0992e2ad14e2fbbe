//! Blackjack table rules and a log redactor, with their contracts proved by Verus.

pub mod game;
pub mod state;
pub mod api;
pub mod redact;
pub mod redact_plain;
