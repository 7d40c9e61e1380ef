//! A personal digital-decluttering library: the verified core of a tool that
//! watches an "Inbox" directory, identifies stale items, and archives them
//! into a date-partitioned "Graveyard" tree with materialized copies,
//! symlinked views and optional free-text notes ("epitaphs").
//!
//! The library computes decisions and plans over plain values (strings,
//! epoch seconds, civil timestamps); the surrounding binary performs the
//! filesystem work that the plans describe.

pub mod archiver;
pub mod cli;
pub mod commands;
pub mod config;
pub mod digits;
pub mod epitaph;
pub mod graveyard;
pub mod paths;
pub mod relpath;
pub mod review;
pub mod scanner;
pub mod state;
pub mod transfer;
pub mod text;
pub mod timestamp;
