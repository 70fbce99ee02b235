//! The one place the interpreter leaves the process: reading the wall clock.

use std::fmt::Write;
use vstd::prelude::*;

verus! {

/// Relies on `chrono::Local::now` and on chrono's `DateTime::format`
/// (strftime-style): renders the current local time per the pattern `fmt`.
/// The result depends on the clock, so nothing is promised of it; a pattern
/// that chrono's formatter rejects yields `None` rather than text.
#[verifier::external_body]
pub(crate) fn format_local_now(fmt: &Vec<char>) -> (r: Option<Vec<char>>) {
    let pattern: String = fmt.iter().collect();
    let now = chrono::Local::now();
    let mut text = String::new();
    match write!(&mut text, "{}", now.format(&pattern)) {
        Ok(()) => Some(text.chars().collect()),
        Err(_) => None,
    }
}

} // verus!
