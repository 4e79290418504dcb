//! Othello rules, a depth-limited search opponent, and the request logic of
//! the service that exposes both.

pub mod board;
pub mod bot;
pub mod cors;
pub mod errors;
pub mod game;
pub mod json;
pub mod rules;
pub mod search;
pub mod service;
pub mod text;
