//! A verified temporal ledger: facts with validity intervals, of which a relation may allow a
//! holder only one at a time.
//!
//! [`ledger`] holds the tables, [`engine`] keeps the timelines in order, [`replay`] reconciles what
//! is already recorded, [`review`] lets a person decide, and [`candidates`] shows which relations
//! look unique.
//!
//! What each operation does to the tables, column by column, stands in [`tables`], [`rewriting`],
//! [`reading`], [`asking`], [`replaying`], [`reverting`], [`questions`], [`decisions`] and
//! [`counting`]. What holds of the library as a whole stands in [`laws`], [`arrival`], [`calls`],
//! [`pairing`], [`chain`], [`tally`], [`history`], [`audit`] and [`estimate`].

#![allow(unused_imports)]

pub mod arrival;
pub mod asking;
pub mod audit;
pub mod calendar;
pub mod calls;
pub mod candidates;
pub mod chain;
pub mod confidence;
pub mod counting;
pub mod decisions;
pub mod engine;
pub mod errors;
pub mod estimate;
pub mod handover;
pub mod history;
pub mod identity;
pub mod laws;
pub mod ledger;
pub mod lock;
pub mod order;
pub mod outside;
pub mod pairing;
pub mod placing;
pub mod questions;
pub mod reading;
pub mod replay;
pub mod replaying;
pub mod rest;
pub mod reverting;
pub mod review;
pub mod rewrite;
pub mod rewriting;
pub mod sure;
pub mod tables;
pub mod tally;
pub mod text;
pub mod timeline;
pub mod validity;
pub mod walk;
