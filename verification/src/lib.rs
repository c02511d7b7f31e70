//! Scans AI coding sessions for commands that could have run through the `rtk` filter.
//!
//! [`scan::discover`] is the whole of it. [`survey`] asks the rules about every command of every
//! session, with the hook's own log going before a guess ([`coverage`]). [`tally`] adds the answers
//! up, and [`report`] ranks what came of them. [`accounts`] proves what the totals count,
//! and [`laws`] what a report says of the commands that were scanned.

pub mod accounts;
pub mod calendar;
pub mod command;
pub mod counting;
pub mod coverage;
pub mod laws;
pub mod ranking;
pub mod report;
pub mod rules;
pub mod scan;
pub mod scope;
pub mod survey;
pub mod tally;
pub mod text;
