//! The formatter's output is a stable fixed point: sectionizing the text
//! the gap formatter produced yields the very sections it was given, so
//! reformatting that text with the same configuration yields it again.
//!
//! The result holds of section sequences that conform to section boundaries
//! ([`wf_sections`]): each section's text is one the sectionizer itself
//! could have produced at its place.

use vstd::prelude::*;

use crate::formatting::nl_seq;
use crate::parsing::{
    append_line, is_delimiter, is_valid_heading, is_ws_char, leading_hashes, split_lines_spec,
    starts_with_fence, trim_end_spec, ScanMode, ScanState,
};
use crate::tokens::SectionView;

verus! {

// ---------------------------------------------------------------------------
// Joining lines back together
// ---------------------------------------------------------------------------

/// The lines of `ls` joined by single newlines.
spec fn join_lines(ls: Seq<Seq<char>>) -> Seq<char>
    decreases ls.len(),
{
    if ls.len() == 0 {
        Seq::empty()
    } else if ls.len() == 1 {
        ls[0]
    } else {
        ls[0] + seq!['\n'] + join_lines(ls.skip(1))
    }
}

/// Joining undoes splitting.
proof fn lemma_join_split(t: Seq<char>)
    ensures
        join_lines(split_lines_spec(t)) == t,
    decreases t.len(),
{
    crate::parsing::lemma_split_lines_nonempty(t);
    if t.len() == 0 {
        assert(join_lines(split_lines_spec(t)) =~= t);
    } else if t[0] == '\n' {
        let rest = split_lines_spec(t.skip(1));
        crate::parsing::lemma_split_lines_nonempty(t.skip(1));
        lemma_join_split(t.skip(1));
        let whole = seq![Seq::<char>::empty()] + rest;
        assert(whole.len() >= 2);
        assert(whole[0] == Seq::<char>::empty());
        assert(whole.skip(1) =~~= rest);
        assert(join_lines(whole) =~= t);
    } else {
        let rest = split_lines_spec(t.skip(1));
        crate::parsing::lemma_split_lines_nonempty(t.skip(1));
        lemma_join_split(t.skip(1));
        let whole = seq![seq![t[0]] + rest[0]] + rest.skip(1);
        assert(whole[0] == seq![t[0]] + rest[0]);
        if rest.len() == 1 {
            assert(whole.len() == 1);
            assert(join_lines(rest) == rest[0]);
            assert(join_lines(whole) =~= seq![t[0]] + rest[0]);
            assert(seq![t[0]] + rest[0] =~= t);
        } else {
            assert(whole.len() >= 2);
            assert(whole.skip(1) =~~= rest.skip(1));
            assert(join_lines(rest) == rest[0] + seq!['\n'] + join_lines(rest.skip(1)));
            assert(join_lines(whole) == whole[0] + seq!['\n'] + join_lines(whole.skip(1)));
            assert(join_lines(whole) =~= seq![t[0]] + join_lines(rest));
            assert(seq![t[0]] + join_lines(rest) =~= t);
        }
    }
}

/// Splitting distributes over a newline-separated concatenation.
proof fn lemma_split_concat_nl(a: Seq<char>, b: Seq<char>)
    ensures
        split_lines_spec(a + seq!['\n'] + b) =~~= split_lines_spec(a) + split_lines_spec(b),
    decreases a.len(),
{
    let w = a + seq!['\n'] + b;
    crate::parsing::lemma_split_lines_nonempty(b);
    if a.len() == 0 {
        assert(w[0] == '\n');
        assert(w.skip(1) =~= b);
        assert(split_lines_spec(a) =~~= seq![Seq::<char>::empty()]);
        assert(split_lines_spec(w) =~~= seq![Seq::<char>::empty()] + split_lines_spec(b));
    } else {
        lemma_split_concat_nl(a.skip(1), b);
        crate::parsing::lemma_split_lines_nonempty(a.skip(1));
        assert(w[0] == a[0]);
        assert(w.skip(1) =~= a.skip(1) + seq!['\n'] + b);
        if a[0] == '\n' {
            assert(split_lines_spec(w) =~~= seq![Seq::<char>::empty()] + split_lines_spec(
                w.skip(1),
            ));
            assert(split_lines_spec(a) =~~= seq![Seq::<char>::empty()] + split_lines_spec(
                a.skip(1),
            ));
            assert(split_lines_spec(w) =~~= split_lines_spec(a) + split_lines_spec(b));
        } else {
            let rest = split_lines_spec(w.skip(1));
            let resta = split_lines_spec(a.skip(1));
            assert(rest =~~= resta + split_lines_spec(b));
            assert(resta.len() >= 1);
            assert(rest[0] == resta[0]);
            assert(rest.skip(1) =~~= resta.skip(1) + split_lines_spec(b));
            assert(split_lines_spec(w) =~~= seq![seq![a[0]] + rest[0]] + rest.skip(1));
            assert(split_lines_spec(a) =~~= seq![seq![a[0]] + resta[0]] + resta.skip(1));
            assert(split_lines_spec(w) =~~= split_lines_spec(a) + split_lines_spec(b));
        }
    }
}

/// `g` blank lines.
spec fn blank_lines(g: int) -> Seq<Seq<char>> {
    Seq::new(g as nat, |i: int| Seq::<char>::empty())
}

/// Splitting text behind a gap of `g >= 1` newlines: the gap contributes
/// `g - 1` blank lines between the two parts.
proof fn lemma_split_gap(a: Seq<char>, b: Seq<char>, g: int)
    requires
        g >= 1,
    ensures
        split_lines_spec(a + nl_seq(g) + b) =~~= split_lines_spec(a) + blank_lines(g - 1)
            + split_lines_spec(b),
    decreases g,
{
    if g == 1 {
        assert(a + nl_seq(1) + b =~= a + seq!['\n'] + b);
        lemma_split_concat_nl(a, b);
        assert(blank_lines(0) =~~= Seq::<Seq<char>>::empty());
    } else {
        lemma_split_gap(a, b, g - 1);
        assert(a + nl_seq(g) + b =~= a + seq!['\n'] + (nl_seq(g - 1) + b));
        lemma_split_concat_nl(a, nl_seq(g - 1) + b);
        assert(nl_seq(g - 1) + b =~= Seq::<char>::empty() + nl_seq(g - 1) + b);
        lemma_split_gap(Seq::<char>::empty(), b, g - 1);
        assert(split_lines_spec(Seq::<char>::empty()) =~~= seq![Seq::<char>::empty()]);
        assert(seq![Seq::<char>::empty()] + blank_lines(g - 2) =~~= blank_lines(g - 1));
        assert(split_lines_spec(a) + (seq![Seq::<char>::empty()] + blank_lines(g - 2)
            + split_lines_spec(b)) =~~= split_lines_spec(a) + blank_lines(g - 1)
            + split_lines_spec(b));
    }
}

// ---------------------------------------------------------------------------
// Running the scanner over concatenated line blocks
// ---------------------------------------------------------------------------

proof fn lemma_scan_run_append(
    st: ScanState,
    a: Seq<Seq<char>>,
    b: Seq<Seq<char>>,
    top: int,
)
    ensures
        crate::parsing::scan_run(st, a + b, top) == crate::parsing::scan_run(
            crate::parsing::scan_run(st, a, top),
            b,
            top,
        ),
    decreases a.len(),
{
    if a.len() == 0 {
        assert(a + b =~~= b);
    } else {
        assert((a + b)[0] == a[0]);
        assert((a + b).skip(1) =~~= a.skip(1) + b);
        lemma_scan_run_append(crate::parsing::scan_step(st, a[0], top), a.skip(1), b, top);
    }
}

proof fn lemma_scan_run_single(st: ScanState, l: Seq<char>, top: int)
    ensures
        crate::parsing::scan_run(st, seq![l], top) == crate::parsing::scan_step(st, l, top),
{
    let one = seq![l];
    assert(one[0] == l);
    assert(one.skip(1) =~~= Seq::<Seq<char>>::empty());
    assert(crate::parsing::scan_run(st, one, top) == crate::parsing::scan_run(
        crate::parsing::scan_step(st, l, top),
        one.skip(1),
        top,
    ));
}

/// Blank lines leave a scanner in normal mode alone, except that an open
/// content run accumulates one newline per blank line.
proof fn lemma_scan_run_blanks(st: ScanState, g: int, top: int)
    requires
        g >= 0,
        st.mode is Normal,
    ensures
        crate::parsing::scan_run(st, blank_lines(g), top) == (if st.content.len() == 0 {
            st
        } else {
            ScanState { content: st.content + nl_seq(g), ..st }
        }),
    decreases g,
{
    if g == 0 {
        assert(blank_lines(0) =~~= Seq::<Seq<char>>::empty());
        if st.content.len() > 0 {
            assert(st.content + nl_seq(0) =~= st.content);
            assert((ScanState { content: st.content + nl_seq(0), ..st }) =~~= st);
        }
    } else {
        let l = blank_lines(g)[0];
        assert(l =~= Seq::<char>::empty());
        let st2 = crate::parsing::scan_step(st, l, top);
        assert(blank_lines(g).skip(1) =~~= blank_lines(g - 1));
        lemma_scan_run_blanks(st2, g - 1, top);
        if st.content.len() == 0 {
            assert(st2 == st);
        } else {
            assert(st2.content =~= st.content + seq!['\n']);
            assert(st2.content + nl_seq(g - 1) =~= st.content + nl_seq(g));
            assert(crate::parsing::scan_run(st, blank_lines(g), top) =~~= (ScanState {
                content: st.content + nl_seq(g),
                ..st
            }));
        }
    }
}

// ---------------------------------------------------------------------------
// Well-formed section texts
// ---------------------------------------------------------------------------

/// A heading section's text: one line that qualifies as a heading.
pub open spec fn wf_heading_text(t: Seq<char>) -> bool {
    &&& is_valid_heading(t)
    &&& forall|i: int| 0 <= i < t.len() ==> t[i] != '\n'
}

/// A property section's text: the delimiter, middle lines free of further
/// delimiters, the delimiter again.
pub open spec fn wf_property_text(t: Seq<char>) -> bool {
    let ls = split_lines_spec(t);
    &&& ls.len() >= 2
    &&& is_delimiter(ls[0])
    &&& is_delimiter(ls[ls.len() - 1])
    &&& forall|i: int| 1 <= i < ls.len() - 1 ==> !is_delimiter(#[trigger] ls[i])
}

/// A code section's text: a fence line, middle lines free of fence markers,
/// a fence line again.
pub open spec fn wf_code_text(t: Seq<char>) -> bool {
    let ls = split_lines_spec(t);
    &&& ls.len() >= 2
    &&& starts_with_fence(ls[0])
    &&& starts_with_fence(ls[ls.len() - 1])
    &&& forall|i: int| 1 <= i < ls.len() - 1 ==> !starts_with_fence(#[trigger] ls[i])
}

/// A content section's text: non-empty, already trimmed at its end, opening
/// with a non-blank line, and holding no line that would be read as a
/// heading or a fence.
pub open spec fn wf_content_text(t: Seq<char>) -> bool {
    let ls = split_lines_spec(t);
    &&& t.len() > 0
    &&& trim_end_spec(t) == t
    &&& ls[0].len() > 0
    &&& forall|i: int|
        0 <= i < ls.len() ==> !is_valid_heading(#[trigger] ls[i]) && !starts_with_fence(ls[i])
}

pub open spec fn wf_section(sec: SectionView) -> bool {
    match sec {
        SectionView::Property(t) => wf_property_text(t),
        SectionView::TopHeading(t) => wf_heading_text(t),
        SectionView::FirstSubHeading(t) => wf_heading_text(t),
        SectionView::SubHeading(t) => wf_heading_text(t),
        SectionView::Content(t) => wf_content_text(t),
        SectionView::Code(t) => wf_code_text(t),
    }
}

/// A section sequence that conforms to section boundaries: every section's
/// text is well formed, the property block stands only first, no two
/// content runs are adjacent, heading kinds agree with the rank discipline
/// at rank `top`, the final text carries no trailing whitespace, and a
/// leading content run could not be mistaken for a property opening.
pub open spec fn wf_sections(secs: Seq<SectionView>, top: int) -> bool {
    &&& forall|j: int| 0 <= j < secs.len() ==> wf_section(#[trigger] secs[j])
    &&& forall|j: int| 1 <= j < secs.len() ==> !(#[trigger] secs[j] is Property)
    &&& forall|j: int|
        1 <= j < secs.len() ==> !(#[trigger] secs[j] is Content && secs[j - 1] is Content)
    &&& crate::laws::heading_ranks_consistent(secs, top)
    &&& forall|j: int|
        0 <= j < secs.len() ==> ((#[trigger] secs[j] is FirstSubHeading || secs[j] is SubHeading)
            ==> leading_hashes(secs[j].text()) != top)
    &&& (secs.len() > 0 ==> trim_end_spec(secs.last().text()) == secs.last().text())
    &&& (secs.len() > 0 && secs[0] is Content ==> !is_delimiter(split_lines_spec(secs[0].text())[0])
        && !is_ws_char(secs[0].text()[0]))
}

// ---------------------------------------------------------------------------
// Small facts about lines and trimming
// ---------------------------------------------------------------------------

/// A text without newlines is its own single line.
pub proof fn lemma_split_single(t: Seq<char>)
    requires
        forall|i: int| 0 <= i < t.len() ==> t[i] != '\n',
    ensures
        split_lines_spec(t) =~~= seq![t],
{
    crate::parsing::lemma_split_lines_first(t, t.len() as int);
}

/// The head characters of a text and of its first line agree.
proof fn lemma_split_head(t: Seq<char>)
    requires
        t.len() > 0,
        t[0] != '\n',
    ensures
        split_lines_spec(t)[0].len() > 0,
        split_lines_spec(t)[0][0] == t[0],
{
    crate::parsing::lemma_split_lines_nonempty(t.skip(1));
}

proof fn lemma_trim_end_shorter(s: Seq<char>)
    ensures
        trim_end_spec(s).len() <= s.len(),
    decreases s.len(),
{
    if s.len() > 0 && is_ws_char(s[s.len() - 1]) {
        lemma_trim_end_shorter(s.take(s.len() - 1));
    }
}

/// A text equal to its own trim carries no trailing whitespace.
proof fn lemma_trim_end_id_last(t: Seq<char>)
    requires
        t.len() > 0,
        trim_end_spec(t) == t,
    ensures
        !is_ws_char(t[t.len() - 1]),
{
    if is_ws_char(t[t.len() - 1]) {
        lemma_trim_end_shorter(t.take(t.len() - 1));
    }
}

/// Appended newlines disappear under end trimming.
proof fn lemma_trim_end_nl_suffix(a: Seq<char>, k: int)
    requires
        k >= 0,
    ensures
        trim_end_spec(a + nl_seq(k)) == trim_end_spec(a),
    decreases k,
{
    if k == 0 {
        assert(a + nl_seq(0) =~= a);
    } else {
        let w = a + nl_seq(k);
        assert(is_ws_char(w[w.len() - 1]));
        assert(w.take(w.len() - 1) =~= a + nl_seq(k - 1));
        lemma_trim_end_nl_suffix(a, k - 1);
    }
}

/// Every well-formed section text is non-empty.
proof fn lemma_wf_text_nonempty(sec: SectionView)
    requires
        wf_section(sec),
    ensures
        sec.text().len() > 0,
{
    match sec {
        SectionView::Property(t) => {
            if t.len() == 0 {
                assert(split_lines_spec(t).len() == 1);
            }
        },
        SectionView::Code(t) => {
            if t.len() == 0 {
                assert(split_lines_spec(t).len() == 1);
            }
        },
        SectionView::TopHeading(t) => {
            crate::parsing::lemma_leading_hashes_bounds(t);
        },
        SectionView::FirstSubHeading(t) => {
            crate::parsing::lemma_leading_hashes_bounds(t);
        },
        SectionView::SubHeading(t) => {
            crate::parsing::lemma_leading_hashes_bounds(t);
        },
        SectionView::Content(_) => {},
    }
}

/// The first character of a well-formed section text, other than a content
/// run's, is the marker of its kind; in particular it is not whitespace.
proof fn lemma_wf_text_head(sec: SectionView)
    requires
        wf_section(sec),
        sec is Content ==> !is_ws_char(sec.text()[0]),
    ensures
        sec.text().len() > 0,
        !is_ws_char(sec.text()[0]),
{
    lemma_wf_text_nonempty(sec);
    let t = sec.text();
    match sec {
        SectionView::Property(_) => {
            let ls = split_lines_spec(t);
            if t[0] == '\n' {
                assert(ls[0].len() == 0);
                assert(false);
            }
            lemma_split_head(t);
            assert(t[0] == '-');
        },
        SectionView::Code(_) => {
            let ls = split_lines_spec(t);
            if t[0] == '\n' {
                assert(ls[0].len() == 0);
                assert(false);
            }
            lemma_split_head(t);
            assert(t[0] == '`');
        },
        SectionView::TopHeading(_) => {
            crate::parsing::lemma_leading_hashes_bounds(t);
            assert(t[0] == '#');
        },
        SectionView::FirstSubHeading(_) => {
            crate::parsing::lemma_leading_hashes_bounds(t);
            assert(t[0] == '#');
        },
        SectionView::SubHeading(_) => {
            crate::parsing::lemma_leading_hashes_bounds(t);
            assert(t[0] == '#');
        },
        SectionView::Content(_) => {},
    }
}

// ---------------------------------------------------------------------------
// The scanner over one section's lines
// ---------------------------------------------------------------------------

proof fn lemma_join_snoc(a: Seq<Seq<char>>, x: Seq<char>)
    ensures
        join_lines(a.push(x)) == (if a.len() == 0 {
            x
        } else {
            join_lines(a) + seq!['\n'] + x
        }),
    decreases a.len(),
{
    let p = a.push(x);
    if a.len() == 0 {
        assert(p.len() == 1);
        assert(p[0] == x);
    } else {
        assert(p.len() >= 2);
        assert(p[0] == a[0]);
        assert(p.skip(1) =~~= a.skip(1).push(x));
        lemma_join_snoc(a.skip(1), x);
        if a.len() == 1 {
            assert(join_lines(a) == a[0]);
            assert(join_lines(p) =~= a[0] + seq!['\n'] + x);
        } else {
            assert(join_lines(p) =~= join_lines(a) + seq!['\n'] + x);
        }
    }
}

/// Accumulating lines into an open property block.
proof fn lemma_scan_property_accum(st: ScanState, ls: Seq<Seq<char>>, top: int)
    requires
        st.mode is InProperty,
        st.props.len() > 0,
        forall|i: int| 0 <= i < ls.len() ==> !is_delimiter(#[trigger] ls[i]),
    ensures
        crate::parsing::scan_run(st, ls, top) == (if ls.len() == 0 {
            st
        } else {
            ScanState { props: st.props + seq!['\n'] + join_lines(ls), ..st }
        }),
    decreases ls.len(),
{
    if ls.len() > 0 {
        let l = ls[0];
        let st2 = crate::parsing::scan_step(st, l, top);
        assert(st2.props =~= st.props + seq!['\n'] + l);
        lemma_scan_property_accum(st2, ls.skip(1), top);
        if ls.len() == 1 {
            assert(join_lines(ls) == l);
            assert(crate::parsing::scan_run(st, ls, top) =~~= (ScanState {
                props: st.props + seq!['\n'] + join_lines(ls),
                ..st
            }));
        } else {
            assert(join_lines(ls) == l + seq!['\n'] + join_lines(ls.skip(1)));
            assert(st2.props + seq!['\n'] + join_lines(ls.skip(1)) =~= st.props + seq!['\n']
                + join_lines(ls));
            assert(crate::parsing::scan_run(st, ls, top) =~~= (ScanState {
                props: st.props + seq!['\n'] + join_lines(ls),
                ..st
            }));
        }
    }
}

/// Accumulating lines into an open code block.
proof fn lemma_scan_code_accum(st: ScanState, ls: Seq<Seq<char>>, top: int)
    requires
        st.mode is InCode,
        st.code.len() > 0,
        forall|i: int| 0 <= i < ls.len() ==> !starts_with_fence(#[trigger] ls[i]),
    ensures
        crate::parsing::scan_run(st, ls, top) == (if ls.len() == 0 {
            st
        } else {
            ScanState { code: st.code + seq!['\n'] + join_lines(ls), ..st }
        }),
    decreases ls.len(),
{
    if ls.len() > 0 {
        let l = ls[0];
        let st2 = crate::parsing::scan_step(st, l, top);
        assert(st2.code =~= st.code + seq!['\n'] + l);
        lemma_scan_code_accum(st2, ls.skip(1), top);
        if ls.len() == 1 {
            assert(join_lines(ls) == l);
            assert(crate::parsing::scan_run(st, ls, top) =~~= (ScanState {
                code: st.code + seq!['\n'] + join_lines(ls),
                ..st
            }));
        } else {
            assert(join_lines(ls) == l + seq!['\n'] + join_lines(ls.skip(1)));
            assert(st2.code + seq!['\n'] + join_lines(ls.skip(1)) =~= st.code + seq!['\n']
                + join_lines(ls));
            assert(crate::parsing::scan_run(st, ls, top) =~~= (ScanState {
                code: st.code + seq!['\n'] + join_lines(ls),
                ..st
            }));
        }
    }
}

/// Accumulating lines into an open content run.
proof fn lemma_scan_content_accum(st: ScanState, ls: Seq<Seq<char>>, top: int)
    requires
        st.mode is Normal,
        st.content.len() > 0,
        !st.at_start,
        forall|i: int|
            0 <= i < ls.len() ==> !is_valid_heading(#[trigger] ls[i]) && !starts_with_fence(ls[i]),
    ensures
        crate::parsing::scan_run(st, ls, top) == (if ls.len() == 0 {
            st
        } else {
            ScanState { content: st.content + seq!['\n'] + join_lines(ls), ..st }
        }),
    decreases ls.len(),
{
    if ls.len() > 0 {
        let l = ls[0];
        let st2 = crate::parsing::scan_step(st, l, top);
        assert(st2.content =~= st.content + seq!['\n'] + l);
        assert(st2.content.len() > 0);
        lemma_scan_content_accum(st2, ls.skip(1), top);
        if ls.len() == 1 {
            assert(join_lines(ls) == l);
            assert(crate::parsing::scan_run(st, ls, top) =~~= (ScanState {
                content: st.content + seq!['\n'] + join_lines(ls),
                ..st
            }));
        } else {
            assert(join_lines(ls) == l + seq!['\n'] + join_lines(ls.skip(1)));
            assert(st2.content + seq!['\n'] + join_lines(ls.skip(1)) =~= st.content + seq!['\n']
                + join_lines(ls));
            assert(crate::parsing::scan_run(st, ls, top) =~~= (ScanState {
                content: st.content + seq!['\n'] + join_lines(ls),
                ..st
            }));
        }
    }
}

/// The scanner consumes a whole well-formed property text from the start of
/// the document and emits exactly that `Property` section.
proof fn lemma_scan_chunk_property(st: ScanState, t: Seq<char>, top: int)
    requires
        st.mode is Normal,
        st.at_start,
        st.content.len() == 0,
        st.props.len() == 0,
        wf_property_text(t),
    ensures
        crate::parsing::scan_run(st, split_lines_spec(t), top) == (ScanState {
            secs: st.secs.push(SectionView::Property(t)),
            props: Seq::empty(),
            at_start: false,
            ..st
        }),
{
    let ls = split_lines_spec(t);
    let n = ls.len() as int;
    lemma_join_split(t);
    let l0 = ls[0];
    let last = ls[n - 1];
    let mids = ls.subrange(1, n - 1);
    assert(ls =~~= seq![l0] + mids + seq![last]);

    let st1 = crate::parsing::scan_step(st, l0, top);
    assert(st1.mode is InProperty);
    assert(st1.props == l0);
    assert(l0.len() == 3);

    lemma_scan_run_append(st, seq![l0], mids + seq![last], top);
    assert((seq![l0] + (mids + seq![last])) =~~= ls);
    lemma_scan_run_single(st, l0, top);

    lemma_scan_run_append(st1, mids, seq![last], top);
    assert(forall|i: int| 0 <= i < mids.len() ==> !is_delimiter(#[trigger] mids[i]));
    lemma_scan_property_accum(st1, mids, top);
    let st2 = crate::parsing::scan_run(st1, mids, top);
    assert(st2.mode is InProperty);
    assert(st2.props.len() > 0);

    let st3 = crate::parsing::scan_step(st2, last, top);
    lemma_scan_run_single(st2, last, top);

    // The accumulated property text is the joined lines, which is `t`.
    if mids.len() == 0 {
        assert(join_lines(ls) =~= l0 + seq!['\n'] + last) by {
            assert(ls =~~= seq![l0].push(last));
            lemma_join_snoc(seq![l0], last);
        }
        assert(append_line(st2.props, last) =~= t);
    } else {
        assert(st2.props =~= l0 + seq!['\n'] + join_lines(mids));
        assert(ls =~~= (seq![l0] + mids).push(last));
        lemma_join_snoc(seq![l0] + mids, last);
        assert(join_lines(seq![l0] + mids) =~= l0 + seq!['\n'] + join_lines(mids)) by {
            assert((seq![l0] + mids)[0] == l0);
            assert((seq![l0] + mids).skip(1) =~~= mids);
            assert((seq![l0] + mids).len() >= 2);
        }
        assert(append_line(st2.props, last) =~= t);
    }
    assert(crate::parsing::scan_run(st, ls, top) =~~= (ScanState {
        secs: st.secs.push(SectionView::Property(t)),
        props: Seq::empty(),
        at_start: false,
        ..st
    }));
}

/// The scanner consumes a whole well-formed code text, first flushing any
/// pending content, and emits exactly that `Code` section.
proof fn lemma_scan_chunk_code(st: ScanState, t: Seq<char>, top: int)
    requires
        st.mode is Normal,
        st.code.len() == 0,
        wf_code_text(t),
    ensures
        crate::parsing::scan_run(st, split_lines_spec(t), top) == (ScanState {
            secs: crate::parsing::flushed_secs(st.secs, st.content).push(SectionView::Code(t)),
            content: Seq::empty(),
            code: Seq::empty(),
            at_start: false,
            ..st
        }),
{
    let ls = split_lines_spec(t);
    let n = ls.len() as int;
    lemma_join_split(t);
    let l0 = ls[0];
    let last = ls[n - 1];
    let mids = ls.subrange(1, n - 1);
    assert(ls =~~= seq![l0] + mids + seq![last]);

    assert(l0.len() > 0);
    assert(!is_delimiter(l0));
    let st1 = crate::parsing::scan_step(st, l0, top);
    assert(st1.mode is InCode);
    assert(st1.code == l0);

    lemma_scan_run_append(st, seq![l0], mids + seq![last], top);
    assert((seq![l0] + (mids + seq![last])) =~~= ls);
    lemma_scan_run_single(st, l0, top);

    lemma_scan_run_append(st1, mids, seq![last], top);
    assert(forall|i: int| 0 <= i < mids.len() ==> !starts_with_fence(#[trigger] mids[i]));
    lemma_scan_code_accum(st1, mids, top);
    let st2 = crate::parsing::scan_run(st1, mids, top);
    assert(st2.mode is InCode);
    assert(st2.code.len() > 0);

    let st3 = crate::parsing::scan_step(st2, last, top);
    lemma_scan_run_single(st2, last, top);

    if mids.len() == 0 {
        assert(join_lines(ls) =~= l0 + seq!['\n'] + last) by {
            assert(ls =~~= seq![l0].push(last));
            lemma_join_snoc(seq![l0], last);
        }
        assert(append_line(st2.code, last) =~= t);
    } else {
        assert(st2.code =~= l0 + seq!['\n'] + join_lines(mids));
        assert(ls =~~= (seq![l0] + mids).push(last));
        lemma_join_snoc(seq![l0] + mids, last);
        assert(join_lines(seq![l0] + mids) =~= l0 + seq!['\n'] + join_lines(mids)) by {
            assert((seq![l0] + mids)[0] == l0);
            assert((seq![l0] + mids).skip(1) =~~= mids);
            assert((seq![l0] + mids).len() >= 2);
        }
        assert(append_line(st2.code, last) =~= t);
    }
    assert(crate::parsing::scan_run(st, ls, top) =~~= (ScanState {
        secs: crate::parsing::flushed_secs(st.secs, st.content).push(SectionView::Code(t)),
        content: Seq::empty(),
        code: Seq::empty(),
        at_start: false,
        ..st
    }));
}

/// The scanner consumes a whole well-formed content text into its content
/// buffer, without emitting anything.
proof fn lemma_scan_chunk_content(st: ScanState, t: Seq<char>, top: int)
    requires
        st.mode is Normal,
        st.content.len() == 0,
        wf_content_text(t),
        st.at_start ==> !is_delimiter(split_lines_spec(t)[0]),
    ensures
        crate::parsing::scan_run(st, split_lines_spec(t), top) == (ScanState {
            content: t,
            at_start: false,
            ..st
        }),
{
    let ls = split_lines_spec(t);
    lemma_join_split(t);
    let l0 = ls[0];
    let st1 = crate::parsing::scan_step(st, l0, top);
    assert(st1.content == l0);
    assert(!st1.at_start);

    lemma_scan_run_append(st, seq![l0], ls.skip(1), top);
    assert((seq![l0] + ls.skip(1)) =~~= ls);
    lemma_scan_run_single(st, l0, top);

    assert(forall|i: int|
        0 <= i < ls.skip(1).len() ==> !is_valid_heading(#[trigger] ls.skip(1)[i])
            && !starts_with_fence(ls.skip(1)[i]));
    lemma_scan_content_accum(st1, ls.skip(1), top);
    if ls.len() == 1 {
        assert(join_lines(ls) == l0);
        assert(crate::parsing::scan_run(st, ls, top) =~~= (ScanState {
            content: t,
            at_start: false,
            ..st
        }));
    } else {
        assert(join_lines(ls) == l0 + seq!['\n'] + join_lines(ls.skip(1)));
        assert(l0 + seq!['\n'] + join_lines(ls.skip(1)) =~= t);
        assert(crate::parsing::scan_run(st, ls, top) =~~= (ScanState {
            content: t,
            at_start: false,
            ..st
        }));
    }
}

// ---------------------------------------------------------------------------
// The scanner over the whole formatted output
// ---------------------------------------------------------------------------

/// The content run still open after the formatter's first `j` sections: the
/// text of section `j - 1` when it is a content run, else nothing.
spec fn pending_of(secs: Seq<SectionView>, j: int) -> Seq<char> {
    if j > 0 && secs[j - 1] is Content {
        secs[j - 1].text()
    } else {
        Seq::empty()
    }
}

/// The sections the scanner has emitted after reading the formatter's first
/// `j` sections: all of them but a still-open content run.
spec fn emitted_of(secs: Seq<SectionView>, j: int) -> Seq<SectionView> {
    if j > 0 && secs[j - 1] is Content {
        secs.take(j - 1)
    } else {
        secs.take(j)
    }
}

/// The scanner state expected after reading the formatted text of the first
/// `j` sections.
spec fn expected_state(secs: Seq<SectionView>, j: int) -> ScanState {
    ScanState {
        secs: emitted_of(secs, j),
        mode: ScanMode::Normal,
        props: Seq::empty(),
        code: Seq::empty(),
        content: pending_of(secs, j),
        rank: crate::laws::last_heading_rank(secs.take(j)),
        at_start: j == 0,
    }
}

/// The newline count the formatter puts before its very first section.
spec fn first_gap(secs: Seq<SectionView>, settings: crate::options::PluginOptions) -> int {
    if secs.len() == 0 {
        0
    } else {
        match crate::formatting::fmt_gap(
            crate::formatting::initial_fmt_state(),
            secs[0],
            settings,
        ) {
            Ok(g) => g,
            Err(_) => 0,
        }
    }
}

/// A successfully resolved gap setting stands for at least one newline.
proof fn lemma_req_gap_pos(o: Option<String>, f: crate::errors::GapField)
    requires
        crate::formatting::req_gap(o, f) is Ok,
    ensures
        crate::formatting::req_gap(o, f)->Ok_0 >= 1,
{
    match o {
        Option::Some(s) => {
            let digits = if s@.len() >= 1 && s@[0] == '+' {
                s@.skip(1)
            } else {
                s@
            };
            crate::formatting::lemma_digits_value_nonneg(digits);
        },
        Option::None => {},
    }
}

/// A successfully resolved section gap is zero only for the property block
/// or for a top heading that opens the output.
proof fn lemma_fmt_gap_cases(
    st: crate::formatting::FmtState,
    sec: SectionView,
    settings: crate::options::PluginOptions,
)
    requires
        crate::formatting::fmt_gap(st, sec, settings) is Ok,
    ensures
        crate::formatting::fmt_gap(st, sec, settings)->Ok_0 >= 1 || sec is Property || (sec
            is TopHeading && !st.after_props && st.out.len() == 0),
{
    let og = settings.other_gaps;
    let hg = settings.heading_gaps;
    match sec {
        SectionView::Property(_) => {},
        SectionView::TopHeading(_) => {
            if st.after_props {
                lemma_req_gap_pos(og.after_properties, crate::errors::GapField::AfterProperties);
            } else if st.out.len() > 0 {
                lemma_req_gap_pos(
                    hg.before_top_level_headings,
                    crate::errors::GapField::BeforeTopLevelHeadings,
                );
            }
        },
        SectionView::FirstSubHeading(_) => {
            if st.after_props {
                lemma_req_gap_pos(og.after_properties, crate::errors::GapField::AfterProperties);
            } else {
                lemma_req_gap_pos(
                    hg.before_first_sub_heading,
                    crate::errors::GapField::BeforeFirstSubHeading,
                );
            }
        },
        SectionView::SubHeading(_) => {
            if st.after_props {
                lemma_req_gap_pos(og.after_properties, crate::errors::GapField::AfterProperties);
            } else {
                lemma_req_gap_pos(hg.before_sub_headings, crate::errors::GapField::BeforeSubHeadings);
            }
        },
        SectionView::Content(_) => {
            if st.after_props {
                lemma_req_gap_pos(og.after_properties, crate::errors::GapField::AfterProperties);
            } else if st.after_code {
                lemma_req_gap_pos(
                    og.before_contents_after_code_blocks,
                    crate::errors::GapField::BeforeContentsAfterCodeBlocks,
                );
            } else {
                lemma_req_gap_pos(og.before_contents, crate::errors::GapField::BeforeContents);
            }
        },
        SectionView::Code(_) => {
            if st.after_props {
                lemma_req_gap_pos(og.after_properties, crate::errors::GapField::AfterProperties);
            } else if st.after_heading {
                lemma_req_gap_pos(
                    og.before_code_blocks_after_headings,
                    crate::errors::GapField::BeforeCodeBlocksAfterHeadings,
                );
            } else {
                lemma_req_gap_pos(og.before_code_blocks, crate::errors::GapField::BeforeCodeBlocks);
            }
        },
    }
}

/// The scanner consumes the lines of one well-formed section starting from
/// an expected mid-document state, arriving at the next expected state.
proof fn lemma_scan_one_section(secs: Seq<SectionView>, top: int, j: int, st: ScanState, b: int)
    requires
        wf_sections(secs, top),
        0 <= j < secs.len(),
        b >= 0,
        j == 0 ==> b == 0,
        st == (ScanState { content: pending_of(secs, j) + nl_seq(b), ..expected_state(secs, j) }),
        pending_of(secs, j).len() == 0 ==> st == expected_state(secs, j),
    ensures
        crate::parsing::scan_run(st, split_lines_spec(secs[j].text()), top) == expected_state(
            secs,
            j + 1,
        ),
{
    let sec = secs[j];
    let t = sec.text();
    let ls = split_lines_spec(t);
    let c = pending_of(secs, j);
    crate::laws::lemma_lhr_push(secs.take(j), sec);
    assert(secs.take(j).push(sec) =~~= secs.take(j + 1));
    assert(secs.take(j + 1).take(j) =~~= secs.take(j));
    if j > 0 {
        assert(secs.take(j).take(j - 1) =~~= secs.take(j - 1));
    }

    // What flushing the pending run yields.
    let flushed = crate::parsing::flushed_secs(st.secs, st.content);
    if c.len() == 0 {
        assert(st.content =~= Seq::<char>::empty());
        assert(flushed =~~= emitted_of(secs, j));
        assert(emitted_of(secs, j) =~~= secs.take(j));
    } else {
        assert(secs[j - 1] is Content);
        assert(wf_section(secs[j - 1]));
        assert(trim_end_spec(c) == c);
        lemma_trim_end_nl_suffix(c, b);
        assert(trim_end_spec(st.content) == c);
        assert(secs[j - 1] == SectionView::Content(c));
        assert(flushed =~~= secs.take(j - 1).push(secs[j - 1]));
        assert(flushed =~~= secs.take(j));
    }

    match sec {
        SectionView::Property(_) => {
            assert(j == 0);
            assert(st == expected_state(secs, 0));
            assert(st =~~= crate::parsing::initial_scan_state());
            lemma_scan_chunk_property(st, t, top);
            assert(crate::parsing::scan_run(st, ls, top) =~~= expected_state(secs, j + 1));
        },
        SectionView::Code(_) => {
            lemma_scan_chunk_code(st, t, top);
            assert(crate::parsing::scan_run(st, ls, top) =~~= expected_state(secs, j + 1));
        },
        SectionView::Content(_) => {
            assert(c.len() == 0);
            assert(st == expected_state(secs, j));
            assert(st.at_start ==> j == 0);
            lemma_scan_chunk_content(st, t, top);
            assert(emitted_of(secs, j + 1) =~~= emitted_of(secs, j));
            assert(crate::parsing::scan_run(st, ls, top) =~~= expected_state(secs, j + 1));
        },
        SectionView::TopHeading(_) => {
            assert(forall|i: int| 0 <= i < t.len() ==> t[i] != '\n');
            lemma_split_single(t);
            lemma_scan_run_single(st, t, top);
            crate::parsing::lemma_leading_hashes_bounds(t);
            assert(t.len() > 0 && t[0] == '#');
            assert(!is_delimiter(t));
            assert(!starts_with_fence(t));
            assert(leading_hashes(t) == top);
            assert(crate::parsing::scan_run(st, ls, top) =~~= expected_state(secs, j + 1));
        },
        SectionView::FirstSubHeading(_) => {
            assert(forall|i: int| 0 <= i < t.len() ==> t[i] != '\n');
            lemma_split_single(t);
            lemma_scan_run_single(st, t, top);
            crate::parsing::lemma_leading_hashes_bounds(t);
            assert(t.len() > 0 && t[0] == '#');
            assert(!is_delimiter(t));
            assert(!starts_with_fence(t));
            assert(leading_hashes(t) != top);
            assert(leading_hashes(t) > crate::laws::last_heading_rank(secs.take(j)));
            assert(crate::parsing::scan_run(st, ls, top) =~~= expected_state(secs, j + 1));
        },
        SectionView::SubHeading(_) => {
            assert(forall|i: int| 0 <= i < t.len() ==> t[i] != '\n');
            lemma_split_single(t);
            lemma_scan_run_single(st, t, top);
            crate::parsing::lemma_leading_hashes_bounds(t);
            assert(t.len() > 0 && t[0] == '#');
            assert(!is_delimiter(t));
            assert(!starts_with_fence(t));
            assert(leading_hashes(t) != top);
            assert(leading_hashes(t) <= crate::laws::last_heading_rank(secs.take(j)));
            if j == 0 {
                // A sub-heading cannot stand first: its rank would have to
                // be at most the initial rank 0.
                assert(secs.take(0) =~~= Seq::<SectionView>::empty());
                assert(crate::laws::last_heading_rank(secs.take(0)) == 0);
                assert(leading_hashes(t) >= 1);
                assert(false);
            }
            assert(crate::parsing::scan_run(st, ls, top) =~~= expected_state(secs, j + 1));
        },
    }
}

/// Scanning the formatter's output of the first `j` sections yields the
/// expected scanner state, and the output's shape is under control: it is
/// the first gap's newlines, then text that opens with the first section's
/// head character and closes with the last section's final character.
proof fn lemma_scan_of_output(
    secs: Seq<SectionView>,
    settings: crate::options::PluginOptions,
    top: int,
    j: int,
)
    requires
        wf_sections(secs, top),
        0 <= j <= secs.len(),
        crate::formatting::fmt_run(
            crate::formatting::initial_fmt_state(),
            secs.take(j),
            settings,
        ) is Ok,
    ensures
        ({
            let out = crate::formatting::fmt_run(
                crate::formatting::initial_fmt_state(),
                secs.take(j),
                settings,
            )->Ok_0.out;
            let g1 = first_gap(secs, settings);
            &&& crate::parsing::scan_run(
                crate::parsing::initial_scan_state(),
                split_lines_spec(out),
                top,
            ) == expected_state(secs, j)
            &&& (j == 0 ==> out.len() == 0)
            &&& (j >= 1 ==> {
                &&& secs[j - 1].text().len() > 0
                &&& out.len() > g1
                &&& g1 >= 0
                &&& out.take(g1) =~= nl_seq(g1)
                &&& out[g1] == secs[0].text()[0]
                &&& out[out.len() - 1] == secs[j - 1].text()[secs[j - 1].text().len() - 1]
            })
        }),
    decreases j,
{
    let init_f = crate::formatting::initial_fmt_state();
    let init_s = crate::parsing::initial_scan_state();
    if j == 0 {
        assert(secs.take(0) =~~= Seq::<SectionView>::empty());
        assert(crate::formatting::fmt_run(init_f, secs.take(0), settings) == Ok::<
            crate::formatting::FmtState,
            crate::errors::ConfigError,
        >(init_f));
        let out = init_f.out;
        assert(out.len() == 0);
        assert(split_lines_spec(out) =~~= seq![Seq::<char>::empty()]);
        lemma_scan_run_single(init_s, Seq::<char>::empty(), top);
        assert(crate::parsing::scan_step(init_s, Seq::<char>::empty(), top) == init_s);
        assert(expected_state(secs, 0) =~~= init_s);
    } else {
        let i = j - 1;
        let sec = secs[i];
        let t = sec.text();
        assert(wf_section(sec));
        lemma_wf_text_nonempty(sec);
        crate::formatting::lemma_fmt_run_snoc(init_f, secs, i, settings);
        let fprev_r = crate::formatting::fmt_run(init_f, secs.take(i), settings);
        assert(fprev_r is Ok);
        let fprev = fprev_r->Ok_0;
        lemma_scan_of_output(secs, settings, top, i);
        let g = crate::formatting::fmt_gap(fprev, sec, settings)->Ok_0;
        let out = fprev.out + nl_seq(g) + t;
        assert(crate::formatting::fmt_run(init_f, secs.take(j), settings)->Ok_0.out == out);
        lemma_fmt_gap_cases(fprev, sec, settings);
        let g1 = first_gap(secs, settings);

        if i == 0 {
            assert(fprev == init_f);
            assert(g == g1);
            if g == 0 {
                assert(out =~= t);
                assert(split_lines_spec(out) == split_lines_spec(t));
            } else {
                assert(out =~= nl_seq(g) + t);
                assert(fprev.out + nl_seq(g) + t =~= Seq::<char>::empty() + nl_seq(g) + t);
                lemma_split_gap(Seq::<char>::empty(), t, g);
                assert(split_lines_spec(Seq::<char>::empty()) =~~= seq![Seq::<char>::empty()]);
                assert(seq![Seq::<char>::empty()] + blank_lines(g - 1) =~~= blank_lines(g));
                assert(split_lines_spec(out) =~~= blank_lines(g) + split_lines_spec(t));
                lemma_scan_run_append(init_s, blank_lines(g), split_lines_spec(t), top);
                lemma_scan_run_blanks(init_s, g, top);
            }
            assert(expected_state(secs, 0) =~~= init_s);
            lemma_scan_one_section(secs, top, 0, init_s, 0);
            assert(crate::parsing::scan_run(init_s, split_lines_spec(out), top) == expected_state(
                secs,
                1,
            ));
            // Shape facts.
            lemma_wf_text_head_first(secs, top);
            assert(out.take(g1) =~= nl_seq(g1));
            assert(out[g1] == t[0]);
            assert(out[out.len() - 1] == t[t.len() - 1]);
        } else {
            assert(fprev.out.len() > 0);
            assert(!(sec is Property));
            assert(g >= 1);
            lemma_split_gap(fprev.out, t, g);
            assert(split_lines_spec(out) =~~= split_lines_spec(fprev.out) + blank_lines(g - 1)
                + split_lines_spec(t));
            lemma_scan_run_append(
                init_s,
                split_lines_spec(fprev.out) + blank_lines(g - 1),
                split_lines_spec(t),
                top,
            );
            assert((split_lines_spec(fprev.out) + blank_lines(g - 1)) + split_lines_spec(t)
                =~~= split_lines_spec(out));
            lemma_scan_run_append(init_s, split_lines_spec(fprev.out), blank_lines(g - 1), top);
            let s_prev = expected_state(secs, i);
            assert(crate::parsing::scan_run(init_s, split_lines_spec(fprev.out), top) == s_prev);
            lemma_scan_run_blanks(s_prev, g - 1, top);
            let s_mid = crate::parsing::scan_run(s_prev, blank_lines(g - 1), top);
            let c = pending_of(secs, i);
            if c.len() == 0 {
                assert(s_mid == s_prev);
                assert(s_mid == expected_state(secs, i));
                lemma_scan_one_section(secs, top, i, s_mid, 0);
            } else {
                assert(s_mid == (ScanState { content: c + nl_seq(g - 1), ..s_prev }));
                assert(s_mid == (ScanState {
                    content: pending_of(secs, i) + nl_seq(g - 1),
                    ..expected_state(secs, i)
                }));
                lemma_scan_one_section(secs, top, i, s_mid, g - 1);
            }
            assert(crate::parsing::scan_run(init_s, split_lines_spec(out), top) == expected_state(
                secs,
                j,
            ));
            // Shape facts.
            assert(g1 < fprev.out.len());
            assert(out.take(g1) =~= fprev.out.take(g1));
            assert(out[g1] == fprev.out[g1]);
            assert(out[out.len() - 1] == t[t.len() - 1]);
        }
    }
}

/// Sectionizing the gap formatter's output yields exactly the sections the
/// formatter was given: for a section sequence that conforms to section
/// boundaries, formatting and re-reading is the identity, provided the
/// re-read detects the same top heading rank.
pub proof fn lemma_format_round_trip(
    secs: Seq<SectionView>,
    settings: crate::options::PluginOptions,
    top: int,
)
    requires
        wf_sections(secs, top),
        crate::formatting::format_spec(secs, settings) is Ok,
        crate::parsing::top_heading_level_spec(
            split_lines_spec(
                crate::parsing::trim_spec(crate::formatting::format_spec(secs, settings)->Ok_0),
            ),
        ) == top,
    ensures
        crate::parsing::sectionize_spec(crate::formatting::format_spec(secs, settings)->Ok_0)
            == Ok::<Seq<SectionView>, crate::errors::ParseError>(secs),
{
    let init_f = crate::formatting::initial_fmt_state();
    let init_s = crate::parsing::initial_scan_state();
    let n = secs.len() as int;
    assert(secs.take(n) =~~= secs);
    let fin_r = crate::formatting::fmt_run(init_f, secs, settings);
    assert(fin_r is Ok);
    let out = fin_r->Ok_0.out;
    assert(crate::formatting::format_spec(secs, settings)->Ok_0 == out);
    lemma_scan_of_output(secs, settings, top, n);
    let fin = expected_state(secs, n);

    if n == 0 {
        assert(out.len() == 0);
        assert(crate::parsing::trim_spec(out) =~= out);
        assert(split_lines_spec(out) =~~= seq![Seq::<char>::empty()]);
        lemma_scan_run_single(init_s, Seq::<char>::empty(), top);
        assert(crate::parsing::scan_run(init_s, split_lines_spec(out), top) == init_s);
        assert(crate::parsing::flushed_secs(init_s.secs, init_s.content) =~~= secs);
    } else {
        let g1 = first_gap(secs, settings);
        let t_last = secs[n - 1].text();
        assert(t_last.len() > 0);
        assert(trim_end_spec(t_last) == t_last);
        lemma_trim_end_id_last(t_last);
        assert(!is_ws_char(out[out.len() - 1]));
        lemma_wf_text_head_first(secs, top);
        assert(!is_ws_char(out[g1]));

        // Trimming strips exactly the leading gap newlines.
        let rem = out.skip(g1);
        assert forall|i: int| 0 <= i < g1 implies is_ws_char(#[trigger] out[i]) by {
            assert(out.take(g1)[i] == out[i]);
            assert(nl_seq(g1)[i] == '\n');
        }
        crate::parsing::lemma_trim_start_skip(out, g1);
        assert(crate::parsing::trim_start_spec(out) =~= rem);
        assert(rem.len() > 0);
        assert(rem[rem.len() - 1] == out[out.len() - 1]);
        crate::parsing::lemma_trim_end_take(rem, rem.len() as int);
        assert(trim_end_spec(rem) =~= rem);
        assert(crate::parsing::trim_spec(out) == rem);

        // The leading newlines contribute only blank lines, which the
        // scanner skips from its initial state.
        if g1 == 0 {
            assert(rem =~= out);
        } else {
            assert(out =~= Seq::<char>::empty() + nl_seq(g1) + rem);
            lemma_split_gap(Seq::<char>::empty(), rem, g1);
            assert(split_lines_spec(Seq::<char>::empty()) =~~= seq![Seq::<char>::empty()]);
            assert(seq![Seq::<char>::empty()] + blank_lines(g1 - 1) =~~= blank_lines(g1));
            assert(split_lines_spec(out) =~~= blank_lines(g1) + split_lines_spec(rem));
            lemma_scan_run_append(init_s, blank_lines(g1), split_lines_spec(rem), top);
            lemma_scan_run_blanks(init_s, g1, top);
        }
        assert(crate::parsing::scan_run(init_s, split_lines_spec(rem), top) == fin);

        // The final flush emits a still-open content run unchanged.
        assert(!(fin.mode is InCode));
        if secs[n - 1] is Content {
            assert(trim_end_spec(pending_of(secs, n)) == pending_of(secs, n));
            assert(secs[n - 1] == SectionView::Content(pending_of(secs, n)));
            assert(crate::parsing::flushed_secs(fin.secs, fin.content) =~~= secs.take(
                n - 1,
            ).push(secs[n - 1]));
            assert(crate::parsing::flushed_secs(fin.secs, fin.content) =~~= secs);
        } else {
            assert(crate::parsing::flushed_secs(fin.secs, fin.content) =~~= secs);
        }
    }
}

/// Reformatting the formatter's own output with the same configuration
/// yields the same output: the formatted text is a stable fixed point.
pub proof fn lemma_reformat_stable(
    secs: Seq<SectionView>,
    settings: crate::options::PluginOptions,
    top: int,
)
    requires
        wf_sections(secs, top),
        crate::formatting::format_spec(secs, settings) is Ok,
        crate::parsing::top_heading_level_spec(
            split_lines_spec(
                crate::parsing::trim_spec(crate::formatting::format_spec(secs, settings)->Ok_0),
            ),
        ) == top,
    ensures
        ({
            let out = crate::formatting::format_spec(secs, settings)->Ok_0;
            &&& crate::parsing::sectionize_spec(out) is Ok
            &&& crate::formatting::format_spec(crate::parsing::sectionize_spec(out)->Ok_0, settings)
                == crate::formatting::format_spec(secs, settings)
        }),
{
    lemma_format_round_trip(secs, settings, top);
}

// ---------------------------------------------------------------------------
// The re-read detects the same top heading rank
// ---------------------------------------------------------------------------

/// A line that cannot pull the detected top rank below `top`.
pub open spec fn hash_floor_line(l: Seq<char>, top: int) -> bool {
    l.len() > 0 && l[0] == '#' ==> leading_hashes(l) >= top
}

/// A section whose text cannot disturb top-rank detection at rank `top`:
/// its `#`-prefixed lines are at rank `top` or deeper, and outside code
/// blocks no line of it carries a fence marker.
pub open spec fn rank_detection_section(sec: SectionView, top: int) -> bool {
    match sec {
        SectionView::Property(t) => {
            let ls = split_lines_spec(t);
            forall|i: int|
                0 <= i < ls.len() ==> hash_floor_line(#[trigger] ls[i], top) && !starts_with_fence(
                    ls[i],
                )
        },
        SectionView::TopHeading(_) => true,
        SectionView::FirstSubHeading(t) => leading_hashes(t) >= top,
        SectionView::SubHeading(t) => leading_hashes(t) >= top,
        SectionView::Content(t) => {
            let ls = split_lines_spec(t);
            forall|i: int| 0 <= i < ls.len() ==> hash_floor_line(#[trigger] ls[i], top)
        },
        SectionView::Code(_) => true,
    }
}

/// A section whose text holds no `#`-prefixed line outside a code block.
pub open spec fn no_hash_section(sec: SectionView) -> bool {
    match sec {
        SectionView::Property(t) => {
            let ls = split_lines_spec(t);
            forall|i: int| 0 <= i < ls.len() ==> !(#[trigger] ls[i].len() > 0 && ls[i][0] == '#')
        },
        SectionView::TopHeading(_) => false,
        SectionView::FirstSubHeading(_) => false,
        SectionView::SubHeading(_) => false,
        SectionView::Content(t) => {
            let ls = split_lines_spec(t);
            forall|i: int| 0 <= i < ls.len() ==> !(#[trigger] ls[i].len() > 0 && ls[i][0] == '#')
        },
        SectionView::Code(_) => true,
    }
}

pub open spec fn has_top_heading(secs: Seq<SectionView>) -> bool {
    exists|j: int| 0 <= j < secs.len() && secs[j] is TopHeading
}

/// The sections determine the top rank of their own formatted text: every
/// section leaves rank `top` undisturbed, and either some top heading
/// witnesses it, or no `#`-prefixed line exists at all and `top` is the
/// no-heading sentinel.
pub open spec fn wf_rank_detection(secs: Seq<SectionView>, top: int) -> bool {
    &&& 0 <= top <= usize::MAX as int
    &&& forall|j: int| 0 <= j < secs.len() ==> rank_detection_section(#[trigger] secs[j], top)
    &&& (has_top_heading(secs) || (top == usize::MAX as int && forall|j: int|
        0 <= j < secs.len() ==> no_hash_section(#[trigger] secs[j])))
}

proof fn lemma_top_run_single_line(l: Seq<char>, c: bool, b: int)
    ensures
        crate::parsing::fence_state(seq![l], c) == (if starts_with_fence(l) {
            !c
        } else {
            c
        }),
        crate::parsing::top_level_run(seq![l], c, b) == ({
            let c2 = if starts_with_fence(l) {
                !c
            } else {
                c
            };
            if !c2 && l.len() > 0 && l[0] == '#' && leading_hashes(l) < b {
                leading_hashes(l)
            } else {
                b
            }
        }),
{
    let one = seq![l];
    assert(one[0] == l);
    assert(one.skip(1) =~~= Seq::<Seq<char>>::empty());
    let c2 = if starts_with_fence(l) {
        !c
    } else {
        c
    };
    let b2 = if !c2 && l.len() > 0 && l[0] == '#' && leading_hashes(l) < b {
        leading_hashes(l)
    } else {
        b
    };
    assert(crate::parsing::top_level_run(one, c, b) == crate::parsing::top_level_run(
        one.skip(1),
        c2,
        b2,
    ));
    assert(crate::parsing::fence_state(one, c) == crate::parsing::fence_state(one.skip(1), c2));
}

/// Fence-free lines obeying the hash floor keep the best rank within
/// bounds; lines with no `#` head at all leave it untouched.
proof fn lemma_top_run_floor(ls: Seq<Seq<char>>, b: int, top: int)
    requires
        forall|i: int|
            0 <= i < ls.len() ==> !starts_with_fence(#[trigger] ls[i]) && hash_floor_line(
                ls[i],
                top,
            ),
    ensures
        crate::parsing::fence_state(ls, false) == false,
        top <= b ==> top <= crate::parsing::top_level_run(ls, false, b) <= b,
        (forall|i: int|
            0 <= i < ls.len() ==> !(#[trigger] ls[i].len() > 0 && ls[i][0] == '#'))
            ==> crate::parsing::top_level_run(ls, false, b) == b,
    decreases ls.len(),
{
    if ls.len() > 0 {
        let l = ls[0];
        let b2 = if l.len() > 0 && l[0] == '#' && leading_hashes(l) < b {
            leading_hashes(l)
        } else {
            b
        };
        lemma_top_run_floor(ls.skip(1), b2, top);
    }
}

/// A whole code block leaves the fence state and best rank untouched.
proof fn lemma_top_run_code_block(t: Seq<char>, b: int)
    requires
        wf_code_text(t),
    ensures
        crate::parsing::fence_state(split_lines_spec(t), false) == false,
        crate::parsing::top_level_run(split_lines_spec(t), false, b) == b,
{
    let ls = split_lines_spec(t);
    let n = ls.len() as int;
    let l0 = ls[0];
    let last = ls[n - 1];
    let mids = ls.subrange(1, n - 1);
    assert(ls =~~= seq![l0] + (mids + seq![last]));
    assert(ls[0] == l0);
    assert(ls.skip(1) =~~= mids + seq![last]);
    assert(forall|i: int| 0 <= i < mids.len() ==> !starts_with_fence(#[trigger] mids[i]));
    crate::laws::lemma_top_run_in_fence(mids, b);
    crate::laws::lemma_fence_state_append(mids, seq![last], true);
    crate::laws::lemma_top_run_append(mids, seq![last], true, b);
    crate::laws::lemma_top_run_closing_fence(last, b);
}

/// Blank lines never disturb the scan.
proof fn lemma_top_run_blanks(g: int, b: int, top: int)
    requires
        g >= 0,
    ensures
        crate::parsing::fence_state(blank_lines(g), false) == false,
        crate::parsing::top_level_run(blank_lines(g), false, b) == b,
{
    assert(forall|i: int|
        0 <= i < blank_lines(g).len() ==> !starts_with_fence(#[trigger] blank_lines(g)[i])
            && hash_floor_line(blank_lines(g)[i], top));
    assert(forall|i: int|
        0 <= i < blank_lines(g).len() ==> !(#[trigger] blank_lines(g)[i].len() > 0
            && blank_lines(g)[i][0] == '#'));
    lemma_top_run_floor(blank_lines(g), b, top);
}

/// One section's lines move the best rank only within its lawful bounds.
proof fn lemma_top_run_one_section(sec: SectionView, top: int, b: int)
    requires
        wf_section(sec),
        rank_detection_section(sec, top),
        sec is TopHeading ==> leading_hashes(sec.text()) == top,
        0 <= top,
        top <= b,
    ensures
        crate::parsing::fence_state(split_lines_spec(sec.text()), false) == false,
        top <= crate::parsing::top_level_run(split_lines_spec(sec.text()), false, b) <= b,
        sec is TopHeading ==> crate::parsing::top_level_run(split_lines_spec(sec.text()), false, b)
            == top,
        no_hash_section(sec) ==> crate::parsing::top_level_run(split_lines_spec(sec.text()), false, b)
            == b,
{
    let t = sec.text();
    let ls = split_lines_spec(t);
    match sec {
        SectionView::Code(_) => {
            lemma_top_run_code_block(t, b);
        },
        SectionView::Property(_) => {
            lemma_top_run_floor(ls, b, top);
        },
        SectionView::Content(_) => {
            assert(forall|i: int| 0 <= i < ls.len() ==> !starts_with_fence(#[trigger] ls[i]));
            lemma_top_run_floor(ls, b, top);
        },
        SectionView::TopHeading(_) => {
            assert(forall|i: int| 0 <= i < t.len() ==> t[i] != '\n');
            lemma_split_single(t);
            crate::parsing::lemma_leading_hashes_bounds(t);
            assert(t.len() > 0 && t[0] == '#');
            lemma_top_run_single_line(t, false, b);
        },
        SectionView::FirstSubHeading(_) => {
            assert(forall|i: int| 0 <= i < t.len() ==> t[i] != '\n');
            lemma_split_single(t);
            crate::parsing::lemma_leading_hashes_bounds(t);
            assert(t.len() > 0 && t[0] == '#');
            lemma_top_run_single_line(t, false, b);
        },
        SectionView::SubHeading(_) => {
            assert(forall|i: int| 0 <= i < t.len() ==> t[i] != '\n');
            lemma_split_single(t);
            crate::parsing::lemma_leading_hashes_bounds(t);
            assert(t.len() > 0 && t[0] == '#');
            lemma_top_run_single_line(t, false, b);
        },
    }
}

/// The top-rank scan over the formatted output of the first `j` sections.
proof fn lemma_top_of_output(
    secs: Seq<SectionView>,
    settings: crate::options::PluginOptions,
    top: int,
    j: int,
)
    requires
        wf_sections(secs, top),
        0 <= top <= usize::MAX as int,
        forall|j0: int| 0 <= j0 < secs.len() ==> rank_detection_section(#[trigger] secs[j0], top),
        0 <= j <= secs.len(),
        crate::formatting::fmt_run(
            crate::formatting::initial_fmt_state(),
            secs.take(j),
            settings,
        ) is Ok,
    ensures
        ({
            let out = crate::formatting::fmt_run(
                crate::formatting::initial_fmt_state(),
                secs.take(j),
                settings,
            )->Ok_0.out;
            let b = crate::parsing::top_level_run(
                split_lines_spec(out),
                false,
                usize::MAX as int,
            );
            &&& crate::parsing::fence_state(split_lines_spec(out), false) == false
            &&& top <= b <= usize::MAX as int
            &&& (has_top_heading(secs.take(j)) ==> b == top)
            &&& ((forall|j0: int|
                0 <= j0 < secs.len() ==> no_hash_section(#[trigger] secs[j0])) ==> b == usize::MAX
                as int)
        }),
    decreases j,
{
    let init_f = crate::formatting::initial_fmt_state();
    let m = usize::MAX as int;
    if j == 0 {
        assert(secs.take(0) =~~= Seq::<SectionView>::empty());
        assert(crate::formatting::fmt_run(init_f, secs.take(0), settings) == Ok::<
            crate::formatting::FmtState,
            crate::errors::ConfigError,
        >(init_f));
        let out = init_f.out;
        assert(out.len() == 0);
        assert(split_lines_spec(out) =~~= seq![Seq::<char>::empty()]);
        lemma_top_run_single_line(Seq::<char>::empty(), false, m);
        assert(!has_top_heading(secs.take(0)));
    } else {
        let i = j - 1;
        let sec = secs[i];
        let t = sec.text();
        assert(wf_section(sec));
        crate::formatting::lemma_fmt_run_snoc(init_f, secs, i, settings);
        let fprev_r = crate::formatting::fmt_run(init_f, secs.take(i), settings);
        assert(fprev_r is Ok);
        let fprev = fprev_r->Ok_0;
        lemma_top_of_output(secs, settings, top, i);
        lemma_scan_of_output(secs, settings, top, i);
        let g = crate::formatting::fmt_gap(fprev, sec, settings)->Ok_0;
        let out = fprev.out + nl_seq(g) + t;
        assert(crate::formatting::fmt_run(init_f, secs.take(j), settings)->Ok_0.out == out);
        lemma_fmt_gap_cases(fprev, sec, settings);
        let prev_lines = split_lines_spec(fprev.out);
        let bprev = crate::parsing::top_level_run(prev_lines, false, m);
        let sec_lines = split_lines_spec(t);
        assert(top <= bprev <= m);
        assert(sec is TopHeading ==> leading_hashes(t) == top) by {
            assert(crate::laws::heading_ranks_consistent(secs, top));
        }
        lemma_top_run_one_section(sec, top, bprev);
        let bsec = crate::parsing::top_level_run(sec_lines, false, bprev);

        // The new output's lines are the old ones, some blank glue, and the
        // section's own lines; the glue leaves the scan untouched.
        let out_lines = split_lines_spec(out);
        if i == 0 && g == 0 {
            assert(out =~= t);
            assert(crate::parsing::top_level_run(out_lines, false, m) == bsec) by {
                assert(fprev == init_f);
                assert(bprev == m) by {
                    assert(prev_lines =~~= seq![Seq::<char>::empty()]);
                    lemma_top_run_single_line(Seq::<char>::empty(), false, m);
                }
                assert(out_lines == sec_lines);
            }
            assert(crate::parsing::fence_state(out_lines, false) == false);
        } else {
            let glue_len: int = if i == 0 {
                g
            } else {
                g - 1
            };
            assert(g >= 1);
            if i == 0 {
                assert(fprev.out + nl_seq(g) + t =~= Seq::<char>::empty() + nl_seq(g) + t);
                lemma_split_gap(Seq::<char>::empty(), t, g);
                assert(split_lines_spec(Seq::<char>::empty()) =~~= seq![Seq::<char>::empty()]);
                assert(seq![Seq::<char>::empty()] + blank_lines(g - 1) =~~= blank_lines(g));
                assert(out_lines =~~= blank_lines(g) + sec_lines);
                lemma_top_run_blanks(g, m, top);
                crate::laws::lemma_top_run_append(blank_lines(g), sec_lines, false, m);
                crate::laws::lemma_fence_state_append(blank_lines(g), sec_lines, false);
                assert(bprev == m) by {
                    assert(prev_lines =~~= seq![Seq::<char>::empty()]);
                    lemma_top_run_single_line(Seq::<char>::empty(), false, m);
                }
                assert(crate::parsing::top_level_run(out_lines, false, m) == bsec);
                assert(crate::parsing::fence_state(out_lines, false) == false);
            } else {
                lemma_split_gap(fprev.out, t, g);
                assert(out_lines =~~= prev_lines + blank_lines(g - 1) + sec_lines);
                assert(out_lines =~~= prev_lines + (blank_lines(g - 1) + sec_lines));
                crate::laws::lemma_top_run_append(
                    prev_lines,
                    blank_lines(g - 1) + sec_lines,
                    false,
                    m,
                );
                crate::laws::lemma_fence_state_append(
                    prev_lines,
                    blank_lines(g - 1) + sec_lines,
                    false,
                );
                crate::laws::lemma_top_run_append(blank_lines(g - 1), sec_lines, false, bprev);
                crate::laws::lemma_fence_state_append(blank_lines(g - 1), sec_lines, false);
                lemma_top_run_blanks(g - 1, bprev, top);
                assert(crate::parsing::top_level_run(out_lines, false, m) == bsec);
                assert(crate::parsing::fence_state(out_lines, false) == false);
            }
        }

        // The bounds and witnesses carry over.
        let b = crate::parsing::top_level_run(out_lines, false, m);
        assert(b == bsec);
        assert(top <= b <= m);
        if has_top_heading(secs.take(j)) {
            let j0 = choose|j0: int| 0 <= j0 < secs.take(j).len() && secs.take(j)[j0] is TopHeading;
            assert(secs.take(j)[j0] == secs[j0]);
            if j0 < i {
                assert(secs.take(i)[j0] == secs[j0]);
                assert(has_top_heading(secs.take(i)));
                assert(bprev == top);
                assert(b == top);
            } else {
                assert(sec is TopHeading);
                assert(b == top);
            }
        }
        if forall|j0: int| 0 <= j0 < secs.len() ==> no_hash_section(#[trigger] secs[j0]) {
            assert(bprev == m);
            assert(no_hash_section(sec));
            assert(b == m);
        }
    }
}

/// The re-read of the formatted output detects the same top heading rank.
pub proof fn lemma_top_rank_redetected(
    secs: Seq<SectionView>,
    settings: crate::options::PluginOptions,
    top: int,
)
    requires
        wf_sections(secs, top),
        wf_rank_detection(secs, top),
        crate::formatting::format_spec(secs, settings) is Ok,
    ensures
        crate::parsing::top_heading_level_spec(
            split_lines_spec(
                crate::parsing::trim_spec(crate::formatting::format_spec(secs, settings)->Ok_0),
            ),
        ) == top,
{
    let init_f = crate::formatting::initial_fmt_state();
    let m = usize::MAX as int;
    let n = secs.len() as int;
    assert(secs.take(n) =~~= secs);
    let out = crate::formatting::format_spec(secs, settings)->Ok_0;
    assert(crate::formatting::fmt_run(init_f, secs, settings)->Ok_0.out == out);
    lemma_top_of_output(secs, settings, top, n);
    let b = crate::parsing::top_level_run(split_lines_spec(out), false, m);
    if has_top_heading(secs) {
        assert(b == top);
    } else {
        assert(top == m);
        assert(b == m);
    }

    if n == 0 {
        assert(out.len() == 0) by {
            lemma_scan_of_output(secs, settings, top, 0);
        }
        assert(crate::parsing::trim_spec(out) =~= out);
        assert(crate::parsing::top_heading_level_spec(split_lines_spec(out)) == top);
    } else {
        // Trimming strips exactly the leading gap newlines, which scan as
        // blank lines and change nothing.
        lemma_scan_of_output(secs, settings, top, n);
        let g1 = first_gap(secs, settings);
        let t_last = secs[n - 1].text();
        lemma_trim_end_id_last(t_last);
        lemma_wf_text_head_first(secs, top);
        let rem = out.skip(g1);
        assert forall|i: int| 0 <= i < g1 implies is_ws_char(#[trigger] out[i]) by {
            assert(out.take(g1)[i] == out[i]);
            assert(nl_seq(g1)[i] == '\n');
        }
        crate::parsing::lemma_trim_start_skip(out, g1);
        assert(crate::parsing::trim_start_spec(out) =~= rem);
        assert(rem.len() > 0);
        assert(rem[rem.len() - 1] == out[out.len() - 1]);
        assert(!is_ws_char(out[out.len() - 1]));
        crate::parsing::lemma_trim_end_take(rem, rem.len() as int);
        assert(trim_end_spec(rem) =~= rem);
        assert(crate::parsing::trim_spec(out) == rem);
        if g1 == 0 {
            assert(rem =~= out);
            assert(crate::parsing::top_heading_level_spec(split_lines_spec(rem)) == b);
        } else {
            assert(out =~= Seq::<char>::empty() + nl_seq(g1) + rem);
            lemma_split_gap(Seq::<char>::empty(), rem, g1);
            assert(split_lines_spec(Seq::<char>::empty()) =~~= seq![Seq::<char>::empty()]);
            assert(seq![Seq::<char>::empty()] + blank_lines(g1 - 1) =~~= blank_lines(g1));
            assert(split_lines_spec(out) =~~= blank_lines(g1) + split_lines_spec(rem));
            lemma_top_run_blanks(g1, m, top);
            crate::laws::lemma_top_run_append(blank_lines(g1), split_lines_spec(rem), false, m);
            crate::laws::lemma_fence_state_append(blank_lines(g1), split_lines_spec(rem), false);
            assert(crate::parsing::top_heading_level_spec(split_lines_spec(rem)) == b);
        }
    }
}

/// Reformatting the formatter's own output with the same configuration
/// yields the same output, with no hypotheses beyond the section sequence
/// conforming to section boundaries and determining its own top rank.
pub proof fn lemma_reformat_fixed_point(
    secs: Seq<SectionView>,
    settings: crate::options::PluginOptions,
    top: int,
)
    requires
        wf_sections(secs, top),
        wf_rank_detection(secs, top),
        crate::formatting::format_spec(secs, settings) is Ok,
    ensures
        ({
            let out = crate::formatting::format_spec(secs, settings)->Ok_0;
            &&& crate::parsing::sectionize_spec(out) == Ok::<
                Seq<SectionView>,
                crate::errors::ParseError,
            >(secs)
            &&& crate::formatting::format_spec(crate::parsing::sectionize_spec(out)->Ok_0, settings)
                == crate::formatting::format_spec(secs, settings)
        }),
{
    lemma_top_rank_redetected(secs, settings, top);
    lemma_format_round_trip(secs, settings, top);
}

/// The head character of the first section's text is not whitespace.
proof fn lemma_wf_text_head_first(secs: Seq<SectionView>, top: int)
    requires
        wf_sections(secs, top),
        secs.len() > 0,
    ensures
        secs[0].text().len() > 0,
        !is_ws_char(secs[0].text()[0]),
{
    let t = secs[0].text();
    assert(wf_section(secs[0]));
    lemma_wf_text_nonempty(secs[0]);
    if secs[0] is Content {
    } else {
        lemma_wf_text_head(secs[0]);
    }
}

} // verus!
