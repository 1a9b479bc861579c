//! Reformats a markdown document's vertical whitespace (blank-line gaps)
//! according to configurable rules, without altering any other content.
//!
//! The work happens in two stages: the sectionizer ([`parsing`]) scans the
//! raw document once and classifies it into an ordered sequence of typed
//! sections, and the gap formatter ([`formatting`]) walks that sequence and
//! re-emits it with the number of blank lines between sections dictated by
//! the configuration.

pub mod errors;
pub mod formatting;
pub mod laws;
pub mod options;
pub mod parsing;
pub mod stability;
pub mod tokens;
