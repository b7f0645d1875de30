//! A calendar-aware meeting scheduler.
//!
//! Given the meetings that are asked for, the calendars of everyone whom they
//! concern and a few policies, the library generates the slots of each
//! meeting, keeps those that suit the attendees and have a free room, scores
//! them, finds which of them share time, and writes the choice among them as
//! a binary integer program; it reads the solver's answer back as an
//! assignment of candidates to meetings, and makes the events that book it.
//!
//! Every function states what it returns in a contract that Verus proves.
//! The rules of time zones and the parsing of dates are asked of `chrono` and
//! `chrono-tz`, the interval index is that of `bio`; what is believed of them
//! is written down in `time` and `tree`.
//!
//! - `text`, `strmap`: texts, their order, and a map keyed by text.
//! - `time`, `tree`: instants, wall clocks and zones; the interval index.
//! - `types`, `input`: the data of a run and the policies; what the user
//!   writes and the desired meetings that it stands for.
//! - `gen`, `candidate`, `conflict`, `solver`: slots, candidates, conflicts
//!   and the problem that they make up.
//! - `lp`, `solution`: the problem as text, and the solver's answer.
//! - `gcal`: the calendar provider's events.
//! - `laws`, `order`, `determined`: what holds of every problem.
//! - `fixtures`: sample documents and values.

pub mod candidate;
pub mod conflict;
pub mod determined;
pub mod fixtures;
pub mod gcal;
pub mod gen;
pub mod input;
pub mod laws;
pub mod lp;
pub mod order;
pub mod solution;
pub mod solver;
pub mod strmap;
pub mod text;
pub mod time;
pub mod tree;
pub mod types;
