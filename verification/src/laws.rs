//! General properties of the sectionizer, stated and proved over its
//! mathematical model.

use vstd::prelude::*;

use crate::parsing::{
    append_line, fence_state, flush_content, flushed_secs, initial_scan_state, is_delimiter,
    is_valid_heading, leading_hashes, scan_run, scan_step, sectionize_spec, split_lines_spec,
    starts_with_fence, top_heading_level_spec, top_level_run, trim_spec, ScanMode, ScanState,
};
use crate::tokens::SectionView;

verus! {

// ---------------------------------------------------------------------------
// Documents without headings yield no heading sections
// ---------------------------------------------------------------------------

proof fn lemma_scan_run_no_heading(st: ScanState, lines: Seq<Seq<char>>, top: int)
    requires
        forall|i: int| 0 <= i < lines.len() ==> !is_valid_heading(#[trigger] lines[i]),
        forall|j: int| 0 <= j < st.secs.len() ==> !(#[trigger] st.secs[j]).is_heading(),
    ensures
        forall|j: int|
            0 <= j < scan_run(st, lines, top).secs.len() ==> !(#[trigger] scan_run(
                st,
                lines,
                top,
            ).secs[j]).is_heading(),
    decreases lines.len(),
{
    if lines.len() > 0 {
        let l = lines[0];
        let st2 = scan_step(st, l, top);
        assert(forall|j: int| 0 <= j < st2.secs.len() ==> !(#[trigger] st2.secs[j]).is_heading());
        assert(forall|i: int| 0 <= i < lines.skip(1).len() ==> !is_valid_heading(
            #[trigger] lines.skip(1)[i],
        ));
        lemma_scan_run_no_heading(st2, lines.skip(1), top);
    }
}

/// For all documents none of whose lines qualifies as a heading, the
/// sectionizer emits no heading section of any rank.
pub proof fn lemma_no_heading_lines_no_heading_sections(doc: Seq<char>)
    requires
        forall|i: int|
            0 <= i < split_lines_spec(trim_spec(doc)).len() ==> !is_valid_heading(
                #[trigger] split_lines_spec(trim_spec(doc))[i],
            ),
    ensures
        (match sectionize_spec(doc) {
            Ok(secs) => forall|j: int| 0 <= j < secs.len() ==> !(#[trigger] secs[j]).is_heading(),
            Err(_) => true,
        }),
{
    let lines = split_lines_spec(trim_spec(doc));
    let top = top_heading_level_spec(lines);
    lemma_scan_run_no_heading(initial_scan_state(), lines, top);
    let fin = scan_run(initial_scan_state(), lines, top);
    assert(forall|j: int|
        0 <= j < flushed_secs(fin.secs, fin.content).len() ==> !(#[trigger] flushed_secs(
            fin.secs,
            fin.content,
        )[j]).is_heading());
}

// ---------------------------------------------------------------------------
// Top-rank detection ignores fenced code blocks
// ---------------------------------------------------------------------------

pub proof fn lemma_fence_state_append(xs: Seq<Seq<char>>, ys: Seq<Seq<char>>, c: bool)
    ensures
        fence_state(xs + ys, c) == fence_state(ys, fence_state(xs, c)),
    decreases xs.len(),
{
    if xs.len() == 0 {
        assert(xs + ys =~~= ys);
    } else {
        let c2 = if starts_with_fence(xs[0]) {
            !c
        } else {
            c
        };
        assert((xs + ys)[0] == xs[0]);
        assert((xs + ys).skip(1) =~~= xs.skip(1) + ys);
        lemma_fence_state_append(xs.skip(1), ys, c2);
    }
}

pub proof fn lemma_top_run_append(xs: Seq<Seq<char>>, ys: Seq<Seq<char>>, c: bool, b: int)
    ensures
        top_level_run(xs + ys, c, b) == top_level_run(ys, fence_state(xs, c), top_level_run(
            xs,
            c,
            b,
        )),
    decreases xs.len(),
{
    if xs.len() == 0 {
        assert(xs + ys =~~= ys);
    } else {
        let l = xs[0];
        let c2 = if starts_with_fence(l) {
            !c
        } else {
            c
        };
        let b2 = if !c2 && l.len() > 0 && l[0] == '#' && leading_hashes(l) < b {
            leading_hashes(l)
        } else {
            b
        };
        assert((xs + ys)[0] == l);
        assert((xs + ys).skip(1) =~~= xs.skip(1) + ys);
        lemma_top_run_append(xs.skip(1), ys, c2, b2);
    }
}

pub proof fn lemma_top_run_closing_fence(l: Seq<char>, b: int)
    requires
        starts_with_fence(l),
    ensures
        top_level_run(seq![l], true, b) == b,
        fence_state(seq![l], true) == false,
{
    let one = seq![l];
    assert(one[0] == l);
    assert(one.skip(1) =~~= Seq::<Seq<char>>::empty());
    assert(l[0] == '`');
    assert(top_level_run(one, true, b) == top_level_run(one.skip(1), false, b));
    assert(fence_state(one, true) == fence_state(one.skip(1), false));
}

pub proof fn lemma_top_run_in_fence(body: Seq<Seq<char>>, b: int)
    requires
        forall|i: int| 0 <= i < body.len() ==> !starts_with_fence(#[trigger] body[i]),
    ensures
        top_level_run(body, true, b) == b,
        fence_state(body, true) == true,
    decreases body.len(),
{
    if body.len() > 0 {
        lemma_top_run_in_fence(body.skip(1), b);
    }
}

/// Top-rank determination ignores `#`-prefixed lines inside fenced code
/// blocks entirely: inserting a whole fenced block (its fence lines and a
/// body free of further fence markers) anywhere outside an open fence leaves
/// the detected top heading rank unchanged.
pub proof fn lemma_top_rank_ignores_fenced_block(
    xs: Seq<Seq<char>>,
    fence_open: Seq<char>,
    body: Seq<Seq<char>>,
    fence_close: Seq<char>,
    ys: Seq<Seq<char>>,
)
    requires
        starts_with_fence(fence_open),
        starts_with_fence(fence_close),
        forall|i: int| 0 <= i < body.len() ==> !starts_with_fence(#[trigger] body[i]),
        fence_state(xs, false) == false,
    ensures
        top_heading_level_spec(xs + seq![fence_open] + body + seq![fence_close] + ys)
            == top_heading_level_spec(xs + ys),
{
    let block = seq![fence_open] + body + seq![fence_close];
    let m = usize::MAX as int;

    // The block leaves both the fence state and the best rank untouched.
    assert forall|b: int| top_level_run(block, false, b) == b && fence_state(block, false)
        == false by {
        assert(block[0] == fence_open);
        assert(block.skip(1) =~~= body + seq![fence_close]);
        lemma_top_run_in_fence(body, b);
        lemma_fence_state_append(body, seq![fence_close], true);
        lemma_top_run_append(body, seq![fence_close], true, b);
        lemma_top_run_closing_fence(fence_close, b);
    }

    let whole = xs + seq![fence_open] + body + seq![fence_close] + ys;
    assert(whole =~~= xs + (block + ys));
    lemma_top_run_append(xs, block + ys, false, m);
    let bxs = top_level_run(xs, false, m);
    lemma_top_run_append(block, ys, false, bxs);
    lemma_fence_state_append(block, ys, false);
    lemma_top_run_append(xs, ys, false, m);
}

// ---------------------------------------------------------------------------
// FirstSub stands exactly at a strict rank increase
// ---------------------------------------------------------------------------

/// The rank of the most recent heading in `secs`, or 0 when no heading has
/// been emitted yet.
pub open spec fn last_heading_rank(secs: Seq<SectionView>) -> int
    decreases secs.len(),
{
    if secs.len() == 0 {
        0
    } else if secs.last().is_heading() {
        leading_hashes(secs.last().text())
    } else {
        last_heading_rank(secs.drop_last())
    }
}

/// Every first-sub-heading is strictly deeper than the heading most recently
/// emitted before it; every sub-heading is not; every top heading has rank
/// `top`.
pub open spec fn heading_ranks_consistent(secs: Seq<SectionView>, top: int) -> bool {
    forall|j: int|
        0 <= j < secs.len() ==> {
            &&& (#[trigger] secs[j] is FirstSubHeading ==> leading_hashes(secs[j].text())
                > last_heading_rank(secs.take(j)))
            &&& (secs[j] is SubHeading ==> leading_hashes(secs[j].text()) <= last_heading_rank(
                secs.take(j),
            ))
            &&& (secs[j] is TopHeading ==> leading_hashes(secs[j].text()) == top)
        }
}

pub proof fn lemma_lhr_push(secs: Seq<SectionView>, x: SectionView)
    ensures
        !x.is_heading() ==> last_heading_rank(secs.push(x)) == last_heading_rank(secs),
        x.is_heading() ==> last_heading_rank(secs.push(x)) == leading_hashes(x.text()),
{
    assert(secs.push(x).last() == x);
    assert(secs.push(x).drop_last() =~~= secs);
}

proof fn lemma_consistent_push(secs: Seq<SectionView>, x: SectionView, top: int)
    requires
        heading_ranks_consistent(secs, top),
        x is FirstSubHeading ==> leading_hashes(x.text()) > last_heading_rank(secs),
        x is SubHeading ==> leading_hashes(x.text()) <= last_heading_rank(secs),
        x is TopHeading ==> leading_hashes(x.text()) == top,
    ensures
        heading_ranks_consistent(secs.push(x), top),
{
    let p = secs.push(x);
    assert forall|j: int| 0 <= j < p.len() implies {
        &&& (#[trigger] p[j] is FirstSubHeading ==> leading_hashes(p[j].text())
            > last_heading_rank(p.take(j)))
        &&& (p[j] is SubHeading ==> leading_hashes(p[j].text()) <= last_heading_rank(p.take(j)))
        &&& (p[j] is TopHeading ==> leading_hashes(p[j].text()) == top)
    } by {
        assert(p.take(j) =~~= if j < secs.len() {
            secs.take(j)
        } else {
            secs
        });
        if j < secs.len() {
            assert(p[j] == secs[j]);
        } else {
            assert(p[j] == x);
            assert(secs.take(j) =~~= secs);
        }
    }
}

proof fn lemma_scan_run_ranks(st: ScanState, lines: Seq<Seq<char>>, top: int)
    requires
        st.rank == last_heading_rank(st.secs),
        heading_ranks_consistent(st.secs, top),
    ensures
        scan_run(st, lines, top).rank == last_heading_rank(scan_run(st, lines, top).secs),
        heading_ranks_consistent(scan_run(st, lines, top).secs, top),
    decreases lines.len(),
{
    if lines.len() > 0 {
        let l = lines[0];
        let st2 = scan_step(st, l, top);
        // Establish the invariant for the stepped state, branch by branch.
        match st.mode {
            ScanMode::InProperty => {
                if is_delimiter(l) {
                    lemma_lhr_push(st.secs, SectionView::Property(append_line(st.props, l)));
                    lemma_consistent_push(
                        st.secs,
                        SectionView::Property(append_line(st.props, l)),
                        top,
                    );
                }
            },
            ScanMode::InCode => {
                if starts_with_fence(l) {
                    lemma_lhr_push(st.secs, SectionView::Code(append_line(st.code, l)));
                    lemma_consistent_push(st.secs, SectionView::Code(append_line(st.code, l)), top);
                }
            },
            ScanMode::Normal => {
                let st1 = flush_content(st);
                if st.content.len() > 0 {
                    lemma_lhr_push(
                        st.secs,
                        SectionView::Content(crate::parsing::trim_end_spec(st.content)),
                    );
                    lemma_consistent_push(
                        st.secs,
                        SectionView::Content(crate::parsing::trim_end_spec(st.content)),
                        top,
                    );
                }
                assert(st1.rank == last_heading_rank(st1.secs));
                assert(heading_ranks_consistent(st1.secs, top));
                if l.len() == 0 {
                } else if st.at_start && is_delimiter(l) {
                } else if starts_with_fence(l) {
                } else if is_valid_heading(l) {
                    let d = leading_hashes(l);
                    if d == top {
                        lemma_lhr_push(st1.secs, SectionView::TopHeading(l));
                        lemma_consistent_push(st1.secs, SectionView::TopHeading(l), top);
                    } else if d > st.rank {
                        lemma_lhr_push(st1.secs, SectionView::FirstSubHeading(l));
                        lemma_consistent_push(st1.secs, SectionView::FirstSubHeading(l), top);
                    } else {
                        lemma_lhr_push(st1.secs, SectionView::SubHeading(l));
                        lemma_consistent_push(st1.secs, SectionView::SubHeading(l), top);
                    }
                }
            },
        }
        lemma_scan_run_ranks(st2, lines.skip(1), top);
    }
}

/// A `FirstSub` heading is emitted exactly at a strict rank increase over
/// the most recent heading of any rank; a heading at the same or a
/// shallower non-top rank is `Sub`; a heading at the top rank is `Top`.
pub proof fn lemma_first_sub_at_rank_increase(doc: Seq<char>)
    ensures
        (match sectionize_spec(doc) {
            Ok(secs) => heading_ranks_consistent(
                secs,
                top_heading_level_spec(split_lines_spec(trim_spec(doc))),
            ),
            Err(_) => true,
        }),
{
    let lines = split_lines_spec(trim_spec(doc));
    let top = top_heading_level_spec(lines);
    lemma_scan_run_ranks(initial_scan_state(), lines, top);
    let fin = scan_run(initial_scan_state(), lines, top);
    if fin.content.len() > 0 {
        lemma_consistent_push(
            fin.secs,
            SectionView::Content(crate::parsing::trim_end_spec(fin.content)),
            top,
        );
    }
}

// ---------------------------------------------------------------------------
// The property block stands only first
// ---------------------------------------------------------------------------

proof fn lemma_scan_run_property_first(st: ScanState, lines: Seq<Seq<char>>, top: int)
    requires
        st.mode is InProperty ==> st.secs.len() == 0,
        st.at_start ==> st.secs.len() == 0 && st.content.len() == 0 && st.mode is Normal,
        forall|j: int| 1 <= j < st.secs.len() ==> !(#[trigger] st.secs[j] is Property),
    ensures
        forall|j: int|
            1 <= j < scan_run(st, lines, top).secs.len() ==> !(#[trigger] scan_run(
                st,
                lines,
                top,
            ).secs[j] is Property),
        scan_run(st, lines, top).mode is InProperty ==> scan_run(st, lines, top).secs.len() == 0,
    decreases lines.len(),
{
    if lines.len() > 0 {
        let l = lines[0];
        let st2 = scan_step(st, l, top);
        assert(st2.mode is InProperty ==> st2.secs.len() == 0);
        assert(st2.at_start ==> st2.secs.len() == 0 && st2.content.len() == 0 && st2.mode
            is Normal);
        assert(forall|j: int| 1 <= j < st2.secs.len() ==> !(#[trigger] st2.secs[j] is Property));
        lemma_scan_run_property_first(st2, lines.skip(1), top);
    }
}

/// The property block only ever stands first: every section after the first
/// is not a `Property` section, whatever the document.
pub proof fn lemma_property_only_first(doc: Seq<char>)
    ensures
        (match sectionize_spec(doc) {
            Ok(secs) => forall|j: int| 1 <= j < secs.len() ==> !(#[trigger] secs[j] is Property),
            Err(_) => true,
        }),
{
    let lines = split_lines_spec(trim_spec(doc));
    let top = top_heading_level_spec(lines);
    lemma_scan_run_property_first(initial_scan_state(), lines, top);
    let fin = scan_run(initial_scan_state(), lines, top);
    assert(forall|j: int|
        1 <= j < flushed_secs(fin.secs, fin.content).len() ==> !(#[trigger] flushed_secs(
            fin.secs,
            fin.content,
        )[j] is Property));
}

proof fn lemma_scan_run_no_property(st: ScanState, lines: Seq<Seq<char>>, top: int)
    requires
        !st.at_start,
        !(st.mode is InProperty),
        forall|j: int| 0 <= j < st.secs.len() ==> !(#[trigger] st.secs[j] is Property),
    ensures
        forall|j: int|
            0 <= j < scan_run(st, lines, top).secs.len() ==> !(#[trigger] scan_run(
                st,
                lines,
                top,
            ).secs[j] is Property),
    decreases lines.len(),
{
    if lines.len() > 0 {
        let l = lines[0];
        let st2 = scan_step(st, l, top);
        assert(!st2.at_start);
        assert(!(st2.mode is InProperty));
        assert(forall|j: int| 0 <= j < st2.secs.len() ==> !(#[trigger] st2.secs[j] is Property));
        lemma_scan_run_no_property(st2, lines.skip(1), top);
    }
}

/// Property block recognition requires the delimiter as the literal first
/// content line: when the document's first line (after trimming) is not the
/// delimiter, no `Property` section appears at all; the delimiter appearing
/// later in the document is ordinary content.
pub proof fn lemma_no_property_without_leading_delimiter(doc: Seq<char>)
    requires
        !is_delimiter(split_lines_spec(trim_spec(doc))[0]),
    ensures
        (match sectionize_spec(doc) {
            Ok(secs) => forall|j: int| 0 <= j < secs.len() ==> !(#[trigger] secs[j] is Property),
            Err(_) => true,
        }),
{
    let lines = split_lines_spec(trim_spec(doc));
    let top = top_heading_level_spec(lines);
    crate::parsing::lemma_split_lines_nonempty(lines[0]);
    let st2 = scan_step(initial_scan_state(), lines[0], top);
    assert(scan_run(initial_scan_state(), lines, top) == scan_run(st2, lines.skip(1), top));
    if lines[0].len() == 0 {
        // Only possible for a fully blank document: the blank first line
        // leaves the initial state unchanged, and a trimmed document with a
        // blank first line has no further lines.
        assert(trim_spec(doc).len() == 0) by {
            lemma_trim_first_line_nonempty(doc);
        }
        assert(lines =~~= seq![Seq::<char>::empty()]);
        assert(lines.skip(1) =~~= Seq::<Seq<char>>::empty());
        assert(st2 == initial_scan_state());
    } else {
        assert(!st2.at_start);
        assert(!(st2.mode is InProperty));
        assert(forall|j: int| 0 <= j < st2.secs.len() ==> !(#[trigger] st2.secs[j] is Property));
        lemma_scan_run_no_property(st2, lines.skip(1), top);
    }
    let fin = scan_run(initial_scan_state(), lines, top);
    assert(forall|j: int|
        0 <= j < flushed_secs(fin.secs, fin.content).len() ==> !(#[trigger] flushed_secs(
            fin.secs,
            fin.content,
        )[j] is Property));
}

/// A trimmed document's first line is blank only when the document trims to
/// nothing at all.
proof fn lemma_trim_first_line_nonempty(doc: Seq<char>)
    requires
        split_lines_spec(trim_spec(doc))[0].len() == 0,
    ensures
        trim_spec(doc).len() == 0,
{
    let t = trim_spec(doc);
    if t.len() > 0 {
        assert(split_lines_spec(t)[0].len() > 0) by {
            lemma_trimmed_first_char(doc);
            lemma_split_first_line_head(t);
        }
    }
}

/// The first character of a non-empty trimmed document is not whitespace,
/// in particular not a newline.
proof fn lemma_trimmed_first_char(doc: Seq<char>)
    requires
        trim_spec(doc).len() > 0,
    ensures
        !crate::parsing::is_ws_char(trim_spec(doc)[0]),
{
    lemma_trim_start_head(doc);
    lemma_trim_end_keeps_head(crate::parsing::trim_start_spec(doc));
}

proof fn lemma_trim_start_head(s: Seq<char>)
    ensures
        crate::parsing::trim_start_spec(s).len() > 0 ==> !crate::parsing::is_ws_char(
            crate::parsing::trim_start_spec(s)[0],
        ),
    decreases s.len(),
{
    if s.len() > 0 && crate::parsing::is_ws_char(s[0]) {
        lemma_trim_start_head(s.skip(1));
    }
}

proof fn lemma_trim_end_keeps_head(s: Seq<char>)
    ensures
        crate::parsing::trim_end_spec(s).len() > 0 ==> crate::parsing::trim_end_spec(s)[0] == s[0],
    decreases s.len(),
{
    if s.len() > 0 && crate::parsing::is_ws_char(s[s.len() - 1]) {
        lemma_trim_end_keeps_head(s.take(s.len() - 1));
    }
}

/// A sequence whose head is not a newline splits into lines whose first
/// line holds at least that head character.
proof fn lemma_split_first_line_head(s: Seq<char>)
    requires
        s.len() > 0,
        s[0] != '\n',
    ensures
        split_lines_spec(s)[0].len() > 0,
        split_lines_spec(s)[0][0] == s[0],
{
    crate::parsing::lemma_split_lines_nonempty(s.skip(1));
}

} // verus!
