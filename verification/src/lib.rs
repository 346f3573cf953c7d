//! A minimal line-oriented pattern matcher.
//!
//! A pattern string written in a small regex-like syntax is compiled into an
//! ordered sequence of match tokens, and that sequence is walked once, left to
//! right, over a line of text to decide whether the line matches.

pub mod check;
pub mod laws;
pub mod matches;
pub mod strings;
