//! The section tokens that the sectionizer produces and the gap formatter
//! consumes: a classified, contiguous span of the source document.

use vstd::prelude::*;

verus! {

/// Mathematical image of a classified section: the variant names the section
/// kind (headings carry their level directly) and the payload is the raw text
/// of the span as a sequence of characters.
#[verifier::ext_equal]
pub enum SectionView {
    /// The front-matter property block, both delimiter lines included.
    Property(Seq<char>),
    /// A heading at the document's shallowest rank.
    TopHeading(Seq<char>),
    /// The first heading encountered at a new, deeper rank.
    FirstSubHeading(Seq<char>),
    /// A further heading at the rank of the heading before it.
    SubHeading(Seq<char>),
    /// One or more contiguous plain lines, trailing whitespace trimmed.
    Content(Seq<char>),
    /// A fenced code block, both fence lines included.
    Code(Seq<char>),
}

impl SectionView {
    /// The raw text of the section, whatever its kind.
    pub open spec fn text(self) -> Seq<char> {
        match self {
            SectionView::Property(t) => t,
            SectionView::TopHeading(t) => t,
            SectionView::FirstSubHeading(t) => t,
            SectionView::SubHeading(t) => t,
            SectionView::Content(t) => t,
            SectionView::Code(t) => t,
        }
    }

    /// True of the three heading variants.
    pub open spec fn is_heading(self) -> bool {
        self is TopHeading || self is FirstSubHeading || self is SubHeading
    }
}

/// The structural rank of a heading, together with the heading line itself.
#[derive(Debug, Clone)]
pub enum HeadingLevel {
    /// The document's shallowest heading rank.
    Top(String),
    /// A heading one or more ranks deeper than the heading immediately
    /// preceding it in document order.
    FirstSub(String),
    /// A heading at the same deeper rank as the heading immediately
    /// preceding it.
    Sub(String),
}

/// A classified span of the source document, in document order.
#[derive(Debug, Clone)]
pub enum MarkdownSection {
    /// The front-matter property block, delimiters included, verbatim.
    Property(String),
    /// A heading line, classified by rank.
    Heading(HeadingLevel),
    /// A run of plain lines, trailing blank lines trimmed.
    Content(String),
    /// A fenced code block, fence lines included, verbatim.
    Code(String),
}

impl View for HeadingLevel {
    type V = SectionView;

    open spec fn view(&self) -> SectionView {
        match self {
            HeadingLevel::Top(t) => SectionView::TopHeading(t@),
            HeadingLevel::FirstSub(t) => SectionView::FirstSubHeading(t@),
            HeadingLevel::Sub(t) => SectionView::SubHeading(t@),
        }
    }
}

impl DeepView for HeadingLevel {
    type V = SectionView;

    open spec fn deep_view(&self) -> SectionView {
        self.view()
    }
}

impl View for MarkdownSection {
    type V = SectionView;

    open spec fn view(&self) -> SectionView {
        match self {
            MarkdownSection::Property(t) => SectionView::Property(t@),
            MarkdownSection::Heading(h) => h.view(),
            MarkdownSection::Content(t) => SectionView::Content(t@),
            MarkdownSection::Code(t) => SectionView::Code(t@),
        }
    }
}

impl DeepView for MarkdownSection {
    type V = SectionView;

    open spec fn deep_view(&self) -> SectionView {
        self.view()
    }
}

impl PartialEq for HeadingLevel {
    fn eq(&self, other: &HeadingLevel) -> (r: bool) {
        match (self, other) {
            (HeadingLevel::Top(a), HeadingLevel::Top(b)) => *a == *b,
            (HeadingLevel::FirstSub(a), HeadingLevel::FirstSub(b)) => *a == *b,
            (HeadingLevel::Sub(a), HeadingLevel::Sub(b)) => *a == *b,
            _ => false,
        }
    }
}

impl vstd::std_specs::cmp::PartialEqSpecImpl for HeadingLevel {
    open spec fn obeys_eq_spec() -> bool {
        true
    }

    open spec fn eq_spec(&self, other: &HeadingLevel) -> bool {
        self@ == other@
    }
}

impl PartialEq for MarkdownSection {
    fn eq(&self, other: &MarkdownSection) -> (r: bool) {
        match (self, other) {
            (MarkdownSection::Property(a), MarkdownSection::Property(b)) => *a == *b,
            (MarkdownSection::Heading(a), MarkdownSection::Heading(b)) => *a == *b,
            (MarkdownSection::Content(a), MarkdownSection::Content(b)) => *a == *b,
            (MarkdownSection::Code(a), MarkdownSection::Code(b)) => *a == *b,
            _ => false,
        }
    }
}

impl vstd::std_specs::cmp::PartialEqSpecImpl for MarkdownSection {
    open spec fn obeys_eq_spec() -> bool {
        true
    }

    open spec fn eq_spec(&self, other: &MarkdownSection) -> bool {
        self@ == other@
    }
}

} // verus!
