//! The preferences structure that the gap formatter consumes.
//!
//! Every gap setting arrives as an optional textual value, a carryover from
//! the loosely-typed configuration decode at the host boundary: each must
//! resolve to a non-negative integer by the time the formatter reads it, and
//! a missing or unparsable value is a configuration error identified per
//! field.

use vstd::prelude::*;

verus! {

/// Gap settings for the three heading ranks.
#[derive(Debug, Clone)]
pub struct HeadingGaps {
    /// Decides gaps before top level headings.
    pub before_top_level_headings: Option<String>,
    /// Decides child heading gaps right before parent headings.
    pub before_first_sub_heading: Option<String>,
    /// Decides gaps before headings that are not in the top level.
    pub before_sub_headings: Option<String>,
}

/// Gap settings for the remaining section boundaries.
#[derive(Debug, Clone)]
pub struct OtherGaps {
    /// Decides the gap after the property section.
    pub after_properties: Option<String>,
    /// Decides gaps before content sections.
    pub before_contents: Option<String>,
    /// Decides gaps before contents that are after code blocks.
    pub before_contents_after_code_blocks: Option<String>,
    /// Decides gaps before code blocks.
    pub before_code_blocks: Option<String>,
    /// Decides gaps before code blocks that are after headings.
    pub before_code_blocks_after_headings: Option<String>,
}

/// Output-shape options, handled entirely outside the core stages.
#[derive(Debug, Clone)]
pub struct FormatOptions {
    /// Inserts a newline at the end of a document.
    pub insert_newline: Option<bool>,
}

/// Host-side presentation options, consumed outside the core stages.
#[derive(Debug, Clone)]
pub struct OtherOptions {
    /// Displays a different message when no change is needed.
    pub notify_when_unchanged: Option<bool>,
    /// Displays additional information when parsing fails.
    pub show_more_detailed_error_messages: Option<bool>,
}

/// The full preferences object, decoded once per call by the host.
#[derive(Debug, Clone)]
pub struct PluginOptions {
    pub heading_gaps: HeadingGaps,
    pub other_gaps: OtherGaps,
    pub format_options: FormatOptions,
    pub other_options: OtherOptions,
}

} // verus!
