//! The two failure kinds of the pipeline: a structural parse error from the
//! sectionizer and a configuration error from the gap formatter.

use vstd::prelude::*;

verus! {

/// A structural failure while sectionizing a document.
#[derive(Debug, Clone, Copy, PartialEq, Eq, Structural)]
pub enum ParseError {
    /// A fenced code block was opened but never closed by end of input.
    UnterminatedCodeBlock,
}

/// Names the gap setting whose value was read.
#[derive(Debug, Clone, Copy, PartialEq, Eq, Structural)]
pub enum GapField {
    AfterProperties,
    BeforeTopLevelHeadings,
    BeforeFirstSubHeading,
    BeforeSubHeadings,
    BeforeContents,
    BeforeContentsAfterCodeBlocks,
    BeforeCodeBlocks,
    BeforeCodeBlocksAfterHeadings,
}

/// A failure while resolving the gap configuration.
#[derive(Debug, Clone, Copy, PartialEq, Eq, Structural)]
pub enum ConfigError {
    /// The named gap setting was absent, or its text was not a non-negative
    /// integer that fits the machine's word.
    InvalidGapSetting(GapField),
}

} // verus!
