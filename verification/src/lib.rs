//! A small engine that strips configured tracking parameters from URLs.
//!
//! The library owns all the logic: glob-style pattern matching,
//! the rule model of enabled filter categories, the query-rewriting
//! algorithm itself, and a bounded memoization cache around it.  Reading
//! the configuration file and talking to the clipboard are left to the
//! surrounding program.

pub mod cache;
pub mod glob;
pub mod rewrite;
pub mod rules;
pub mod split;
