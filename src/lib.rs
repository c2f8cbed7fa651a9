//! A personal record keeper: timestamped entries kept in one line-oriented
//! file per day, with a lossless record codec and a resolver for short date
//! expressions.

pub mod codec;
pub mod commands;
pub mod config;
pub mod date;
pub mod migrations;
pub mod present;
pub mod resolve;
pub mod round_trip;
pub mod store;
pub mod text;
