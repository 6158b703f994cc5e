//! Replay followers: which recordings are followed, and how a check goes.
//!
//! The rules on titles, dates and keys stand in `titles`, `calendar`, `published`, `baseline` and
//! `keys`. A check is a state machine (`poll`): it says what it wants done, is told what came of
//! it, and goes on as `course` describes; `follower` says when a check begins. What holds of every
//! check stands in `guarantees`, `offers`, `first_checks`, `watermark`, `span` and `ending`, what
//! it goes through in `coverage`, what becomes of what it finds in `settled`, and what it remembers
//! in `memory`; what titles tell stands in `naming` and `recordings`.

pub mod baseline;
pub mod calendar;
pub mod clock;
pub mod collect;
pub mod config;
pub mod course;
pub mod coverage;
pub mod downloads;
pub mod ending;
pub mod first_checks;
pub mod follower;
pub mod guarantees;
pub mod json;
pub mod keys;
pub mod media;
pub mod memory;
pub mod naming;
pub mod offers;
pub mod ordering;
pub mod poll;
pub mod published;
pub mod recordings;
pub mod search;
pub mod settled;
pub mod span;
pub mod state;
pub mod store;
pub mod text;
pub mod titles;
pub mod watermark;
