//! The sectionizer: scans the raw document once and classifies it into an
//! ordered sequence of typed sections.

use vstd::prelude::*;

use crate::errors::ParseError;
use crate::tokens::{HeadingLevel, MarkdownSection, SectionView};

verus! {

// ---------------------------------------------------------------------------
// Characters and lines
// ---------------------------------------------------------------------------

/// The characters that trimming removes: Unicode `White_Space`.
pub open spec fn is_ws_char(c: char) -> bool {
    let u = c as u32;
    ||| u == 0x20
    ||| (0x09 <= u && u <= 0x0d)
    ||| u == 0x85
    ||| u == 0xa0
    ||| u == 0x1680
    ||| (0x2000 <= u && u <= 0x200a)
    ||| u == 0x2028
    ||| u == 0x2029
    ||| u == 0x202f
    ||| u == 0x205f
    ||| u == 0x3000
}

/// Executable twin of [`is_ws_char`].
fn char_is_ws(c: char) -> (r: bool)
    ensures
        r == is_ws_char(c),
{
    let u = c as u32;
    u == 0x20 || (0x09 <= u && u <= 0x0d) || u == 0x85 || u == 0xa0 || u == 0x1680 || (0x2000 <= u
        && u <= 0x200a) || u == 0x2028 || u == 0x2029 || u == 0x202f || u == 0x205f || u == 0x3000
}

/// `s` with its leading whitespace removed.
pub open spec fn trim_start_spec(s: Seq<char>) -> Seq<char>
    decreases s.len(),
{
    if s.len() == 0 {
        s
    } else if is_ws_char(s[0]) {
        trim_start_spec(s.skip(1))
    } else {
        s
    }
}

/// `s` with its trailing whitespace removed.
pub open spec fn trim_end_spec(s: Seq<char>) -> Seq<char>
    decreases s.len(),
{
    if s.len() == 0 {
        s
    } else if is_ws_char(s[s.len() - 1]) {
        trim_end_spec(s.take(s.len() - 1))
    } else {
        s
    }
}

/// `s` with whitespace removed from both ends.
pub open spec fn trim_spec(s: Seq<char>) -> Seq<char> {
    trim_end_spec(trim_start_spec(s))
}

pub proof fn lemma_trim_start_skip(s: Seq<char>, k: int)
    requires
        0 <= k <= s.len(),
        forall|i: int| 0 <= i < k ==> is_ws_char(#[trigger] s[i]),
        k < s.len() ==> !is_ws_char(s[k]),
    ensures
        trim_start_spec(s) =~= s.skip(k),
    decreases k,
{
    if k == 0 {
        if s.len() > 0 {
            assert(!is_ws_char(s[0]));
        }
        assert(trim_start_spec(s) =~= s.skip(0));
    } else {
        assert(is_ws_char(s[0]));
        let t = s.skip(1);
        assert(forall|i: int| 0 <= i < k - 1 ==> is_ws_char(#[trigger] t[i]));
        lemma_trim_start_skip(t, k - 1);
        assert(t.skip(k - 1) =~= s.skip(k));
    }
}

pub proof fn lemma_trim_end_take(s: Seq<char>, k: int)
    requires
        0 <= k <= s.len(),
        forall|i: int| k <= i < s.len() ==> is_ws_char(#[trigger] s[i]),
        k > 0 ==> !is_ws_char(s[k - 1]),
    ensures
        trim_end_spec(s) =~= s.take(k),
    decreases s.len(),
{
    if k == s.len() {
        if s.len() > 0 {
            assert(!is_ws_char(s[s.len() - 1]));
        }
        assert(trim_end_spec(s) =~= s.take(k));
    } else {
        assert(is_ws_char(s[s.len() - 1]));
        let t = s.take(s.len() - 1);
        lemma_trim_end_take(t, k);
        assert(t.take(k) =~= s.take(k));
    }
}

/// Removes leading and trailing whitespace from a borrowed string slice.
fn trim_str(s: &str) -> (r: &str)
    ensures
        r@ == trim_spec(s@),
{
    let n: usize = s.unicode_len();
    let mut a: usize = 0;
    while a < n && char_is_ws(s.get_char(a))
        invariant
            0 <= a <= n,
            n == s@.len(),
            forall|i: int| 0 <= i < a ==> is_ws_char(#[trigger] s@[i]),
        decreases n - a,
    {
        a = a + 1;
    }
    proof {
        lemma_trim_start_skip(s@, a as int);
    }
    let mut b: usize = n;
    while b > a && char_is_ws(s.get_char(b - 1))
        invariant
            a <= b <= n,
            n == s@.len(),
            forall|i: int| 0 <= i < a ==> is_ws_char(#[trigger] s@[i]),
            forall|i: int| b <= i < n ==> is_ws_char(#[trigger] s@[i]),
        decreases b,
    {
        b = b - 1;
    }
    let r = s.substring_char(a, b);
    proof {
        let mid = s@.skip(a as int);
        assert(forall|i: int| b - a <= i < mid.len() ==> is_ws_char(#[trigger] mid[i]));
        if b > a {
            assert(!is_ws_char(mid[b - a - 1]));
        }
        lemma_trim_end_take(mid, b - a);
        assert(mid.take(b - a) =~= s@.subrange(a as int, b as int));
    }
    r
}

/// `s` split at every newline character; always at least one (possibly
/// empty) line.
pub open spec fn split_lines_spec(s: Seq<char>) -> Seq<Seq<char>>
    decreases s.len(),
{
    if s.len() == 0 {
        seq![Seq::<char>::empty()]
    } else if s[0] == '\n' {
        seq![Seq::<char>::empty()] + split_lines_spec(s.skip(1))
    } else {
        let rest = split_lines_spec(s.skip(1));
        seq![seq![s[0]] + rest[0]] + rest.skip(1)
    }
}

pub proof fn lemma_split_lines_nonempty(s: Seq<char>)
    ensures
        split_lines_spec(s).len() >= 1,
    decreases s.len(),
{
    if s.len() > 0 {
        lemma_split_lines_nonempty(s.skip(1));
    }
}

/// If the first newline of `s` stands at `i`, splitting takes the prefix as
/// the first line and splits the remainder; if there is none, `s` is the one
/// line.
pub proof fn lemma_split_lines_first(s: Seq<char>, i: int)
    requires
        0 <= i <= s.len(),
        forall|j: int| 0 <= j < i ==> s[j] != '\n',
    ensures
        i < s.len() && s[i] == '\n' ==> split_lines_spec(s) =~~= seq![s.take(i)]
            + split_lines_spec(s.skip(i + 1)),
        i == s.len() ==> split_lines_spec(s) =~~= seq![s],
    decreases i,
{
    lemma_split_lines_nonempty(s);
    if i == 0 {
        if 0 < s.len() && s[0] == '\n' {
            assert(s.take(0) =~= Seq::<char>::empty());
            assert(split_lines_spec(s) =~~= seq![s.take(0)] + split_lines_spec(s.skip(1)));
        } else if s.len() == 0 {
            assert(split_lines_spec(s) =~~= seq![s]);
        }
    } else {
        let t = s.skip(1);
        assert(forall|j: int| 0 <= j < i - 1 ==> t[j] != '\n');
        lemma_split_lines_first(t, i - 1);
        lemma_split_lines_nonempty(t);
        let rest = split_lines_spec(t);
        if i < s.len() && s[i] == '\n' {
            assert(t[i - 1] == '\n');
            assert(rest =~~= seq![t.take(i - 1)] + split_lines_spec(t.skip(i)));
            assert(seq![s[0]] + rest[0] =~= s.take(i));
            assert(rest.skip(1) =~~= split_lines_spec(t.skip(i)));
            assert(t.skip(i) =~= s.skip(i + 1));
            assert(split_lines_spec(s) =~~= seq![s.take(i)] + split_lines_spec(s.skip(i + 1)));
        } else if i == s.len() {
            assert(rest =~~= seq![t]);
            assert(seq![s[0]] + rest[0] =~= s);
            assert(rest.skip(1) =~~= Seq::<Seq<char>>::empty());
            assert(split_lines_spec(s) =~~= seq![s]);
        }
    }
}

/// Splits a document into its physical lines.
fn split_into_lines(s: &str) -> (r: Vec<&str>)
    ensures
        r.deep_view() == split_lines_spec(s@),
        r@.len() >= 1,
{
    let n: usize = s.unicode_len();
    let mut lines: Vec<&str> = Vec::new();
    let mut start: usize = 0;
    let mut i: usize = 0;
    proof {
        assert(s@.skip(0) =~= s@);
        assert(lines.deep_view() + split_lines_spec(s@.skip(0)) =~~= split_lines_spec(s@));
    }
    while i < n
        invariant
            0 <= start <= i <= n,
            n == s@.len(),
            forall|j: int| start <= j < i ==> s@[j] != '\n',
            split_lines_spec(s@) =~~= lines.deep_view() + split_lines_spec(
                s@.skip(start as int),
            ),
        decreases n - i,
    {
        let c = s.get_char(i);
        if c == '\n' {
            let line = s.substring_char(start, i);
            proof {
                let tail = s@.skip(start as int);
                assert(forall|j: int|
                    0 <= j < i - start ==> tail[j] == s@[j + start] && s@[j + start] != '\n');
                assert(tail[i - start] == '\n');
                lemma_split_lines_first(tail, i - start);
                assert(tail.take(i - start) =~= s@.subrange(start as int, i as int));
                assert(tail.skip(i - start + 1) =~= s@.skip(i + 1));
                assert(lines.deep_view().push(line@) =~= lines.deep_view() + seq![line@]);
            }
            let ghost old_lines = lines.deep_view();
            lines.push(line);
            proof {
                assert(lines.deep_view() =~= old_lines.push(line@));
            }
            start = i + 1;
        }
        i = i + 1;
    }
    let last = s.substring_char(start, n);
    proof {
        let tail = s@.skip(start as int);
        assert(forall|j: int|
            0 <= j < tail.len() ==> tail[j] == s@[j + start] && s@[j + start] != '\n');
        lemma_split_lines_first(tail, tail.len() as int);
        assert(tail =~= s@.subrange(start as int, n as int));
    }
    let ghost old_lines = lines.deep_view();
    lines.push(last);
    proof {
        assert(lines.deep_view() =~= old_lines.push(last@));
        assert(lines.deep_view() =~= old_lines + seq![last@]);
    }
    lines
}

// ---------------------------------------------------------------------------
// Line classification
// ---------------------------------------------------------------------------

/// The number of `#` characters the line begins with.
pub open spec fn leading_hashes(l: Seq<char>) -> int
    decreases l.len(),
{
    if l.len() == 0 || l[0] != '#' {
        0
    } else {
        1 + leading_hashes(l.skip(1))
    }
}

pub proof fn lemma_leading_hashes_bounds(l: Seq<char>)
    ensures
        0 <= leading_hashes(l) <= l.len(),
        forall|i: int| 0 <= i < leading_hashes(l) ==> #[trigger] l[i] == '#',
        leading_hashes(l) < l.len() ==> l[leading_hashes(l)] != '#',
    decreases l.len(),
{
    if l.len() > 0 && l[0] == '#' {
        let t = l.skip(1);
        lemma_leading_hashes_bounds(t);
        assert forall|i: int| 0 <= i < leading_hashes(l) implies #[trigger] l[i] == '#' by {
            if i > 0 {
                assert(t[i - 1] == '#');
            }
        }
    }
}

proof fn lemma_leading_hashes_count(l: Seq<char>, k: int)
    requires
        0 <= k <= l.len(),
        forall|i: int| 0 <= i < k ==> l[i] == '#',
        k < l.len() ==> l[k] != '#',
    ensures
        leading_hashes(l) == k,
    decreases k,
{
    if k == 0 {
    } else {
        let t = l.skip(1);
        assert(forall|i: int| 0 <= i < k - 1 ==> t[i] == '#');
        lemma_leading_hashes_count(t, k - 1);
    }
}

/// Executable count of the line's leading `#` characters.
fn count_leading_hashes(l: &str) -> (r: usize)
    ensures
        r as int == leading_hashes(l@),
{
    let n: usize = l.unicode_len();
    let mut i: usize = 0;
    while i < n && l.get_char(i) == '#'
        invariant
            0 <= i <= n,
            n == l@.len(),
            forall|j: int| 0 <= j < i ==> l@[j] == '#',
        decreases n - i,
    {
        i = i + 1;
    }
    proof {
        lemma_leading_hashes_count(l@, i as int);
    }
    i
}

/// A line that toggles code-reading mode: it begins with a triple-backtick
/// fence marker.
pub open spec fn starts_with_fence(l: Seq<char>) -> bool {
    l.len() >= 3 && l[0] == '`' && l[1] == '`' && l[2] == '`'
}

/// Executable twin of [`starts_with_fence`].
fn line_starts_with_fence(l: &str) -> (r: bool)
    ensures
        r == starts_with_fence(l@),
{
    let n: usize = l.unicode_len();
    n >= 3 && l.get_char(0) == '`' && l.get_char(1) == '`' && l.get_char(2) == '`'
}

/// The property-block delimiter: a line that is exactly three hyphens.
pub open spec fn is_delimiter(l: Seq<char>) -> bool {
    l.len() == 3 && l[0] == '-' && l[1] == '-' && l[2] == '-'
}

/// Executable twin of [`is_delimiter`].
fn line_is_delimiter(l: &str) -> (r: bool)
    ensures
        r == is_delimiter(l@),
{
    let n: usize = l.unicode_len();
    n == 3 && l.get_char(0) == '-' && l.get_char(1) == '-' && l.get_char(2) == '-'
}

/// A line that qualifies as a heading: a non-empty run of `#` characters
/// followed by a space or by nothing at all.
pub open spec fn is_valid_heading(l: Seq<char>) -> bool {
    leading_hashes(l) >= 1 && (l.len() == leading_hashes(l) || l[leading_hashes(l)] == ' ')
}

/// Executable heading qualification; also returns the heading's rank.
fn classify_heading_line(l: &str) -> (r: (bool, usize))
    ensures
        r.0 == is_valid_heading(l@),
        r.1 as int == leading_hashes(l@),
{
    let n: usize = l.unicode_len();
    let d = count_leading_hashes(l);
    proof {
        lemma_leading_hashes_bounds(l@);
    }
    let valid = d >= 1 && (d == n || l.get_char(d) == ' ');
    (valid, d)
}

// ---------------------------------------------------------------------------
// Pass 1: top heading rank detection
// ---------------------------------------------------------------------------

/// One pass over the remaining lines, carrying the fence toggle and the best
/// (smallest) heading rank seen so far; `usize::MAX` stands for "no heading
/// seen", so a document without headings establishes no top rank.
pub open spec fn top_level_run(lines: Seq<Seq<char>>, in_code: bool, best: int) -> int
    decreases lines.len(),
{
    if lines.len() == 0 {
        best
    } else {
        let l = lines[0];
        let in2 = if starts_with_fence(l) {
            !in_code
        } else {
            in_code
        };
        let best2 = if !in2 && l.len() > 0 && l[0] == '#' && leading_hashes(l) < best {
            leading_hashes(l)
        } else {
            best
        };
        top_level_run(lines.skip(1), in2, best2)
    }
}

/// The fence toggle after the top-rank scan has passed the given lines.
pub open spec fn fence_state(lines: Seq<Seq<char>>, in_code: bool) -> bool
    decreases lines.len(),
{
    if lines.len() == 0 {
        in_code
    } else {
        fence_state(
            lines.skip(1),
            if starts_with_fence(lines[0]) {
                !in_code
            } else {
                in_code
            },
        )
    }
}

/// The document's top heading rank: the minimum count of leading `#`
/// characters among `#`-prefixed lines outside fenced code blocks, or
/// `usize::MAX` if there is none.
pub open spec fn top_heading_level_spec(lines: Seq<Seq<char>>) -> int {
    top_level_run(lines, false, usize::MAX as int)
}

/// Scans all lines once, skipping any line inside a fenced code block, and
/// returns the minimum count of leading `#` characters among lines that
/// start with `#`; `usize::MAX` when no such line exists, so that no line
/// can later qualify as a top-rank heading.
pub fn get_top_heading_level(input_lines: &Vec<&str>) -> (r: usize)
    ensures
        r as int == top_heading_level_spec(input_lines.deep_view()),
{
    let mut top_heading_level: usize = usize::MAX;
    let mut is_reading_md_code_block = false;
    let mut i: usize = 0;
    let ghost lv: Seq<Seq<char>> = input_lines.deep_view();
    proof {
        assert(lv.skip(0) =~~= lv);
    }
    while i < input_lines.len()
        invariant
            0 <= i <= input_lines.len(),
            lv == input_lines.deep_view(),
            lv.len() == input_lines@.len(),
            forall|j: int| 0 <= j < lv.len() ==> lv[j] == #[trigger] input_lines@[j]@,
            top_heading_level_spec(lv) == top_level_run(
                lv.skip(i as int),
                is_reading_md_code_block,
                top_heading_level as int,
            ),
        decreases input_lines.len() - i,
    {
        let line = input_lines[i];
        let ghost pre = lv.skip(i as int);
        proof {
            assert(pre[0] == line@);
            assert(pre.skip(1) =~~= lv.skip(i + 1));
        }
        if line_starts_with_fence(line) {
            is_reading_md_code_block = !is_reading_md_code_block;
        }
        if !is_reading_md_code_block {
            let n: usize = line.unicode_len();
            if n > 0 && line.get_char(0) == '#' {
                let d = count_leading_hashes(line);
                if d < top_heading_level {
                    top_heading_level = d;
                }
            }
        }
        i = i + 1;
    }
    top_heading_level
}

// ---------------------------------------------------------------------------
// Pass 2: line-by-line classification
// ---------------------------------------------------------------------------

/// What the scanner is currently reading.
pub enum ScanMode {
    /// Ordinary lines: blank-line skipping, headings, content accumulation.
    Normal,
    /// Inside the front-matter property block.
    InProperty,
    /// Inside a fenced code block.
    InCode,
}

/// The whole scanner state between two lines: the sections emitted so far,
/// the reading mode, the three accumulation buffers, the rank of the most
/// recent heading, and whether the very first line is still to come (only it
/// may open a property block).
#[verifier::ext_equal]
pub struct ScanState {
    pub secs: Seq<SectionView>,
    pub mode: ScanMode,
    pub props: Seq<char>,
    pub code: Seq<char>,
    pub content: Seq<char>,
    pub rank: int,
    pub at_start: bool,
}

pub open spec fn initial_scan_state() -> ScanState {
    ScanState {
        secs: Seq::empty(),
        mode: ScanMode::Normal,
        props: Seq::empty(),
        code: Seq::empty(),
        content: Seq::empty(),
        rank: 0,
        at_start: true,
    }
}

/// A line appended to an accumulation buffer: separated by a newline unless
/// the buffer is still empty.
pub open spec fn append_line(buf: Seq<char>, l: Seq<char>) -> Seq<char> {
    if buf.len() == 0 {
        buf + l
    } else {
        buf + seq!['\n'] + l
    }
}

/// The sections after flushing a content buffer: a non-empty buffer is
/// emitted as one `Content` section with its trailing whitespace trimmed;
/// flushing an empty buffer changes nothing.
pub open spec fn flushed_secs(secs: Seq<SectionView>, content: Seq<char>) -> Seq<SectionView> {
    if content.len() == 0 {
        secs
    } else {
        secs.push(SectionView::Content(trim_end_spec(content)))
    }
}

pub open spec fn flush_content(st: ScanState) -> ScanState {
    ScanState { secs: flushed_secs(st.secs, st.content), content: Seq::empty(), ..st }
}

/// One line of the classification pass.
///
/// - Inside the property block every line accumulates until the delimiter
///   closes it; inside a code block every line accumulates until a fence
///   line closes it.
/// - Otherwise: blank lines are ignored unless a content run is open; the
///   delimiter opens the property block only on the document's first line; a
///   fence line opens a code block; a line qualifying as a heading is
///   emitted at rank `top` as a top heading, at a rank strictly deeper than
///   the current one as a first sub-heading, and otherwise as a
///   sub-heading; every other line accumulates as content.
pub open spec fn scan_step(st: ScanState, l: Seq<char>, top: int) -> ScanState {
    match st.mode {
        ScanMode::InProperty => {
            if is_delimiter(l) {
                ScanState {
                    secs: st.secs.push(SectionView::Property(append_line(st.props, l))),
                    props: Seq::empty(),
                    mode: ScanMode::Normal,
                    ..st
                }
            } else {
                ScanState { props: append_line(st.props, l), ..st }
            }
        },
        ScanMode::InCode => {
            if starts_with_fence(l) {
                ScanState {
                    secs: st.secs.push(SectionView::Code(append_line(st.code, l))),
                    code: Seq::empty(),
                    mode: ScanMode::Normal,
                    ..st
                }
            } else {
                ScanState { code: append_line(st.code, l), ..st }
            }
        },
        ScanMode::Normal => {
            if l.len() == 0 {
                if st.content.len() == 0 {
                    st
                } else {
                    ScanState { content: append_line(st.content, l), ..st }
                }
            } else if st.at_start && is_delimiter(l) {
                ScanState { mode: ScanMode::InProperty, props: l, at_start: false, ..st }
            } else if starts_with_fence(l) {
                let st1 = flush_content(st);
                ScanState { mode: ScanMode::InCode, code: l, at_start: false, ..st1 }
            } else if is_valid_heading(l) {
                let st1 = flush_content(st);
                let d = leading_hashes(l);
                if d == top {
                    ScanState {
                        secs: st1.secs.push(SectionView::TopHeading(l)),
                        rank: top,
                        at_start: false,
                        ..st1
                    }
                } else if d > st.rank {
                    ScanState {
                        secs: st1.secs.push(SectionView::FirstSubHeading(l)),
                        rank: d,
                        at_start: false,
                        ..st1
                    }
                } else {
                    ScanState {
                        secs: st1.secs.push(SectionView::SubHeading(l)),
                        rank: d,
                        at_start: false,
                        ..st1
                    }
                }
            } else {
                ScanState { content: append_line(st.content, l), at_start: false, ..st }
            }
        },
    }
}

/// The classification pass folded over a sequence of lines.
pub open spec fn scan_run(st: ScanState, lines: Seq<Seq<char>>, top: int) -> ScanState
    decreases lines.len(),
{
    if lines.len() == 0 {
        st
    } else {
        scan_run(scan_step(st, lines[0], top), lines.skip(1), top)
    }
}

pub proof fn lemma_scan_run_snoc(st: ScanState, lines: Seq<Seq<char>>, i: int, top: int)
    requires
        0 <= i < lines.len(),
    ensures
        scan_run(st, lines.take(i + 1), top) == scan_step(
            scan_run(st, lines.take(i), top),
            lines[i],
            top,
        ),
    decreases i,
{
    if i == 0 {
        assert(lines.take(0) =~~= Seq::<Seq<char>>::empty());
        assert(lines.take(1)[0] == lines[0]);
        assert(lines.take(1).skip(1) =~~= Seq::<Seq<char>>::empty());
        assert(scan_run(st, lines.take(1), top) == scan_run(
            scan_step(st, lines[0], top),
            lines.take(1).skip(1),
            top,
        ));
        assert(scan_run(st, lines.take(0), top) == st);
    } else {
        let t = lines.skip(1);
        let st2 = scan_step(st, lines[0], top);
        lemma_scan_run_snoc(st2, t, i - 1, top);
        assert(lines.take(i + 1)[0] == lines[0]);
        assert(lines.take(i + 1).skip(1) =~~= t.take(i));
        assert(scan_run(st, lines.take(i + 1), top) == scan_run(st2, t.take(i), top));
        assert(lines.take(i)[0] == lines[0]);
        assert(lines.take(i).skip(1) =~~= t.take(i - 1));
        assert(scan_run(st, lines.take(i), top) == scan_run(st2, t.take(i - 1), top));
        assert(t[i - 1] == lines[i]);
    }
}

/// The whole sectionizer: trim the document, split it into lines, detect the
/// top heading rank, run the classification pass, flush the last content
/// run.  The one structural error is a fenced code block left open at end of
/// input.
pub open spec fn sectionize_spec(doc: Seq<char>) -> Result<Seq<SectionView>, ParseError> {
    let lines = split_lines_spec(trim_spec(doc));
    let top = top_heading_level_spec(lines);
    let fin = scan_run(initial_scan_state(), lines, top);
    if fin.mode is InCode {
        Err(ParseError::UnterminatedCodeBlock)
    } else {
        Ok(flushed_secs(fin.secs, fin.content))
    }
}

// ---------------------------------------------------------------------------
// Executable sectionizer
// ---------------------------------------------------------------------------

/// Appends a line to an accumulation buffer, separated by a newline unless
/// the buffer is still empty.
pub fn append_string_with_line_breaks(string: &mut String, line: &str)
    ensures
        final(string)@ == append_line(old(string)@, line@),
{
    proof {
        reveal_strlit("\n");
    }
    if !string.as_str().is_empty() {
        string.append("\n");
    }
    string.append(line);
    proof {
        assert(final(string)@ =~= append_line(old(string)@, line@));
    }
}

/// Flushes the accumulated content buffer: a non-empty buffer is emitted as
/// one `Content` section with trailing whitespace trimmed, and cleared.
pub fn push_content_section(sections: &mut Vec<MarkdownSection>, content: &mut String)
    ensures
        final(sections).deep_view() == flushed_secs(old(sections).deep_view(), old(content)@),
        final(content)@.len() == 0,
{
    let n: usize = content.as_str().unicode_len();
    if n == 0 {
        return ;
    }
    let mut k: usize = n;
    while k > 0 && char_is_ws(content.as_str().get_char(k - 1))
        invariant
            0 <= k <= n,
            n == content@.len(),
            forall|i: int| k <= i < n ==> is_ws_char(#[trigger] content@[i]),
        decreases k,
    {
        k = k - 1;
    }
    proof {
        lemma_trim_end_take(content@, k as int);
    }
    let trimmed = content.as_str().substring_char(0, k);
    let ghost old_secs = sections.deep_view();
    sections.push(MarkdownSection::Content(trimmed.to_owned()));
    *content = String::new();
    proof {
        assert(sections.deep_view() =~~= old_secs.push(
            SectionView::Content(trim_end_spec(old(content)@)),
        ));
    }
}

/// Scans the document and classifies it into an ordered sequence of typed
/// sections: the front-matter property block, headings at three structural
/// ranks, fenced code blocks, and plain content runs.  Empty input yields an
/// empty sequence.  A fenced code block opened but never closed by end of
/// input is the one structural parse error.
pub fn get_sections(input: &str) -> (r: Result<Vec<MarkdownSection>, ParseError>)
    ensures
        r is Ok <==> sectionize_spec(input@) is Ok,
        r matches Ok(v) ==> v.deep_view() == sectionize_spec(input@)->Ok_0,
        r matches Err(e) ==> e == ParseError::UnterminatedCodeBlock,
{
    let trimmed = trim_str(input);
    let input_lines = split_into_lines(trimmed);
    let top = get_top_heading_level(&input_lines);

    let ghost lv: Seq<Seq<char>> = input_lines.deep_view();

    let mut sections: Vec<MarkdownSection> = Vec::new();
    let mut md_properties = String::new();
    let mut is_reading_md_properties = false;
    let mut md_code_block = String::new();
    let mut is_reading_md_code_block = false;
    let mut md_content = String::new();
    let mut current_heading_level: usize = 0;
    let mut at_start = true;

    let mut i: usize = 0;
    proof {
        assert(lv.take(0) =~~= Seq::<Seq<char>>::empty());
        assert((ScanState {
            secs: sections.deep_view(),
            mode: ScanMode::Normal,
            props: md_properties@,
            code: md_code_block@,
            content: md_content@,
            rank: 0,
            at_start: true,
        }) =~~= initial_scan_state());
    }
    while i < input_lines.len()
        invariant
            0 <= i <= input_lines.len(),
            lv == input_lines.deep_view(),
            lv.len() == input_lines@.len(),
            forall|j: int| 0 <= j < lv.len() ==> lv[j] == #[trigger] input_lines@[j]@,
            top as int == top_heading_level_spec(lv),
            !(is_reading_md_properties && is_reading_md_code_block),
            !is_reading_md_properties ==> md_properties@.len() == 0,
            !is_reading_md_code_block ==> md_code_block@.len() == 0,
            (ScanState {
                secs: sections.deep_view(),
                mode: if is_reading_md_properties {
                    ScanMode::InProperty
                } else if is_reading_md_code_block {
                    ScanMode::InCode
                } else {
                    ScanMode::Normal
                },
                props: md_properties@,
                code: md_code_block@,
                content: md_content@,
                rank: current_heading_level as int,
                at_start,
            }) == scan_run(initial_scan_state(), lv.take(i as int), top as int),
        decreases input_lines.len() - i,
    {
        let line = input_lines[i];
        let ghost st_pre = scan_run(initial_scan_state(), lv.take(i as int), top as int);
        let ghost st_post = scan_step(st_pre, line@, top as int);
        proof {
            lemma_scan_run_snoc(initial_scan_state(), lv, i as int, top as int);
        }

        if is_reading_md_properties {
            // Keep reading the property block until the closing delimiter.
            append_string_with_line_breaks(&mut md_properties, line);
            if line_is_delimiter(line) {
                let ghost old_secs = sections.deep_view();
                sections.push(MarkdownSection::Property(md_properties));
                md_properties = String::new();
                is_reading_md_properties = false;
                proof {
                    assert(sections.deep_view() =~~= old_secs.push(st_post.secs.last()));
                }
            }
        } else if is_reading_md_code_block {
            // Keep reading the code block until a closing fence line.
            append_string_with_line_breaks(&mut md_code_block, line);
            if line_starts_with_fence(line) {
                let ghost old_secs = sections.deep_view();
                sections.push(MarkdownSection::Code(md_code_block));
                md_code_block = String::new();
                is_reading_md_code_block = false;
                proof {
                    assert(sections.deep_view() =~~= old_secs.push(st_post.secs.last()));
                }
            }
        } else if line.is_empty() {
            // Blank lines are ignored until a content run is open.
            if !md_content.as_str().is_empty() {
                append_string_with_line_breaks(&mut md_content, line);
            }
        } else if at_start && line_is_delimiter(line) {
            // Only the document's very first line may open the property block.
            append_string_with_line_breaks(&mut md_properties, line);
            is_reading_md_properties = true;
            at_start = false;
        } else if line_starts_with_fence(line) {
            push_content_section(&mut sections, &mut md_content);
            append_string_with_line_breaks(&mut md_code_block, line);
            is_reading_md_code_block = true;
            at_start = false;
        } else {
            let n: usize = line.unicode_len();
            let d = count_leading_hashes(line);
            proof {
                lemma_leading_hashes_bounds(line@);
            }
            if d >= 1 && (d == n || line.get_char(d) == ' ') {
                // The line qualifies as a heading.
                push_content_section(&mut sections, &mut md_content);
                let ghost old_secs = sections.deep_view();
                if d == top {
                    sections.push(MarkdownSection::Heading(HeadingLevel::Top(line.to_owned())));
                    current_heading_level = top;
                } else if d > current_heading_level {
                    sections.push(
                        MarkdownSection::Heading(HeadingLevel::FirstSub(line.to_owned())),
                    );
                    current_heading_level = d;
                } else {
                    sections.push(MarkdownSection::Heading(HeadingLevel::Sub(line.to_owned())));
                    current_heading_level = d;
                }
                at_start = false;
                proof {
                    assert(sections.deep_view() =~~= old_secs.push(st_post.secs.last()));
                }
            } else {
                // Everything else accumulates as content.
                append_string_with_line_breaks(&mut md_content, line);
                at_start = false;
            }
        }

        proof {
            assert((ScanState {
                secs: sections.deep_view(),
                mode: if is_reading_md_properties {
                    ScanMode::InProperty
                } else if is_reading_md_code_block {
                    ScanMode::InCode
                } else {
                    ScanMode::Normal
                },
                props: md_properties@,
                code: md_code_block@,
                content: md_content@,
                rank: current_heading_level as int,
                at_start,
            }) =~~= st_post);
        }
        i = i + 1;
    }
    proof {
        assert(lv.take(input_lines@.len() as int) =~~= lv);
    }

    push_content_section(&mut sections, &mut md_content);
    if is_reading_md_code_block {
        return Err(ParseError::UnterminatedCodeBlock);
    }
    Ok(sections)
}

} // verus!
