//! Core of a page-watching scraper: each target names a page and a piece of
//! text to look for; fetched page bodies are reduced to their text fragments,
//! matched against the target's text, diffed against a persistent "last seen"
//! cache, and every fragment that was not seen on the previous run is reported
//! through a pluggable sender.

use vstd::prelude::*;

pub mod db;
pub mod metrics;
pub mod myscraper;
pub mod scoped_timer;
pub mod text;

verus! {

/// How matches are reported: through a telegram chat bot, or plainly printed
/// to stdout.
#[derive(PartialEq, Debug)]
pub enum Reporting {
    /// Report matches to a telegram chat; which chat is chosen by the caller.
    Telegram,
    /// Just print matches to stdout.
    Print,
}

} // verus!
