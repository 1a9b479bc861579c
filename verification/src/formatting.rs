//! The gap formatter: walks the section sequence and re-emits it with the
//! configured number of blank lines before each section.
//!
//! Every configured count is resolved as one more newline than the
//! configured value: the value is the number of extra blank lines beyond the
//! single separating newline.  A missing or non-numeric value fails the
//! whole operation, identifying the offending setting; the first failure
//! aborts formatting with no partial output.

use vstd::prelude::*;

use crate::errors::{ConfigError, GapField};
use crate::options::PluginOptions;
use crate::tokens::{HeadingLevel, MarkdownSection, SectionView};

verus! {

// ---------------------------------------------------------------------------
// Reading a gap setting
// ---------------------------------------------------------------------------

/// An ASCII decimal digit.
pub open spec fn is_digit_char(c: char) -> bool {
    0x30 <= c as u32 <= 0x39
}

/// The number denoted by a sequence of decimal digits, most significant
/// first.
pub open spec fn digits_value(s: Seq<char>) -> int
    decreases s.len(),
{
    if s.len() == 0 {
        0
    } else {
        digits_value(s.drop_last()) * 10 + (s.last() as u32 - 0x30)
    }
}

pub open spec fn all_digit_chars(s: Seq<char>) -> bool {
    forall|i: int| 0 <= i < s.len() ==> is_digit_char(#[trigger] s[i])
}

/// The non-negative integer a gap setting's text denotes, if any: an
/// optional leading plus sign, then one or more decimal digits, denoting a
/// value that fits the machine's word.
pub open spec fn parse_usize_spec(s: Seq<char>) -> Option<int> {
    let digits = if s.len() >= 1 && s[0] == '+' {
        s.skip(1)
    } else {
        s
    };
    if digits.len() >= 1 && all_digit_chars(digits) && digits_value(digits) <= usize::MAX as int {
        Some(digits_value(digits))
    } else {
        None
    }
}

/// The resolved value of one optional textual gap setting.
pub open spec fn gap_value_spec(o: Option<String>) -> Option<int> {
    match o {
        Option::Some(s) => parse_usize_spec(s@),
        Option::None => None,
    }
}

pub proof fn lemma_digits_value_nonneg(s: Seq<char>)
    requires
        all_digit_chars(s),
    ensures
        digits_value(s) >= 0,
    decreases s.len(),
{
    if s.len() > 0 {
        let t = s.drop_last();
        assert(all_digit_chars(t));
        lemma_digits_value_nonneg(t);
    }
}

/// Extending a digit string never decreases its value.
proof fn lemma_digits_value_monotone(s: Seq<char>, k: int)
    requires
        all_digit_chars(s),
        0 <= k <= s.len(),
    ensures
        digits_value(s.take(k)) <= digits_value(s),
    decreases s.len(),
{
    if k < s.len() {
        let t = s.drop_last();
        assert(all_digit_chars(t));
        assert(t.take(k) =~= s.take(k));
        lemma_digits_value_monotone(t, k);
        lemma_digits_value_nonneg(t);
    } else {
        assert(s.take(k) =~= s);
    }
}

/// Parses a `usize` value from an optional textual setting; a missing or
/// unparsable value is reported as an invalid gap setting naming `field`.
pub fn parse_str_to_usize(input: &Option<String>, field: GapField) -> (r: Result<
    usize,
    ConfigError,
>)
    ensures
        r matches Ok(v) ==> gap_value_spec(*input) == Some(v as int),
        r is Err ==> gap_value_spec(*input) is None && r->Err_0 == ConfigError::InvalidGapSetting(
            field,
        ),
{
    match input {
        Option::Some(text) => {
            match parse_usize_text(text.as_str()) {
                Option::Some(v) => Ok(v),
                Option::None => Err(ConfigError::InvalidGapSetting(field)),
            }
        },
        Option::None => Err(ConfigError::InvalidGapSetting(field)),
    }
}

/// Executable mirror of [`parse_usize_spec`].
#[verifier::loop_isolation(false)]
fn parse_usize_text(s: &str) -> (r: Option<usize>)
    ensures
        r matches Some(v) ==> parse_usize_spec(s@) == Some(v as int),
        r is None ==> parse_usize_spec(s@) is None,
{
    let n: usize = s.unicode_len();
    let mut start: usize = 0;
    if n >= 1 && s.get_char(0) == '+' {
        start = 1;
    }
    let ghost digits: Seq<char> = if s@.len() >= 1 && s@[0] == '+' {
        s@.skip(1)
    } else {
        s@
    };
    proof {
        assert(digits =~= s@.subrange(start as int, n as int));
    }
    if start >= n {
        return None;
    }
    let mut acc: usize = 0;
    let mut i: usize = start;
    proof {
        assert(digits.take(0) =~= Seq::<char>::empty());
    }
    while i < n
        invariant
            start <= i <= n,
            n == s@.len(),
            start < n,
            digits =~= s@.subrange(start as int, n as int),
            forall|j: int| 0 <= j < i - start ==> is_digit_char(#[trigger] digits[j]),
            acc as int == digits_value(digits.take(i - start)),
        decreases n - i,
    {
        let c = s.get_char(i);
        let u = c as u32;
        if !(0x30 <= u && u <= 0x39) {
            assert(!is_digit_char(digits[i - start]));
            return None;
        }
        let d: usize = (u - 0x30) as usize;
        let wide: u128 = acc as u128 * 10 + d as u128;
        if wide > usize::MAX as u128 {
            proof {
                let k = i - start + 1;
                assert(digits.take(k).drop_last() =~= digits.take(k - 1));
                assert(digits.take(k).last() == digits[k - 1]);
                assert(digits_value(digits.take(k)) > usize::MAX as int);
                if all_digit_chars(digits) {
                    assert(forall|j: int| 0 <= j < k ==> is_digit_char(#[trigger] digits.take(k)[j]));
                    assert(all_digit_chars(digits.take(k)));
                    lemma_digits_value_monotone(digits, k);
                }
            }
            return None;
        }
        acc = wide as usize;
        i = i + 1;
        proof {
            let k = i - start;
            assert(digits.take(k).drop_last() =~= digits.take(k - 1));
            assert(digits.take(k).last() == digits[k - 1]);
        }
    }
    proof {
        assert(digits.take(n - start as int) =~= digits);
        assert(all_digit_chars(digits));
    }
    Some(acc)
}

// ---------------------------------------------------------------------------
// The formatting pass
// ---------------------------------------------------------------------------

/// The formatter's state between two sections: the output built so far and
/// which category of section was emitted last.
#[verifier::ext_equal]
pub struct FmtState {
    pub out: Seq<char>,
    pub after_props: bool,
    pub after_heading: bool,
    pub after_code: bool,
}

pub open spec fn initial_fmt_state() -> FmtState {
    FmtState { out: Seq::empty(), after_props: false, after_heading: false, after_code: false }
}

/// `n` newline characters.
pub open spec fn nl_seq(n: int) -> Seq<char> {
    Seq::new(n as nat, |i: int| '\n')
}

/// Resolves one required gap setting to its newline count (one more than the
/// configured value), or fails naming the setting.
pub open spec fn req_gap(o: Option<String>, f: GapField) -> Result<int, ConfigError> {
    match gap_value_spec(o) {
        Some(v) => Ok(v + 1),
        None => Err(ConfigError::InvalidGapSetting(f)),
    }
}

/// The number of newline characters inserted before a section's text,
/// depending on its kind and on what was emitted just before it:
/// - the property block gets no inserted gap;
/// - a top heading gets no gap when it opens the output, the
///   after-properties gap right after the property block, and the
///   before-top-heading gap otherwise;
/// - the other kinds get the after-properties gap right after the property
///   block, and otherwise their own setting, with content after a code
///   block and code after a heading each having a dedicated one.
pub open spec fn fmt_gap(st: FmtState, sec: SectionView, settings: PluginOptions) -> Result<
    int,
    ConfigError,
> {
    match sec {
        SectionView::Property(_) => Ok(0),
        SectionView::TopHeading(_) => if st.after_props {
            req_gap(settings.other_gaps.after_properties, GapField::AfterProperties)
        } else if st.out.len() == 0 {
            Ok(0)
        } else {
            req_gap(
                settings.heading_gaps.before_top_level_headings,
                GapField::BeforeTopLevelHeadings,
            )
        },
        SectionView::FirstSubHeading(_) => if st.after_props {
            req_gap(settings.other_gaps.after_properties, GapField::AfterProperties)
        } else {
            req_gap(settings.heading_gaps.before_first_sub_heading, GapField::BeforeFirstSubHeading)
        },
        SectionView::SubHeading(_) => if st.after_props {
            req_gap(settings.other_gaps.after_properties, GapField::AfterProperties)
        } else {
            req_gap(settings.heading_gaps.before_sub_headings, GapField::BeforeSubHeadings)
        },
        SectionView::Content(_) => if st.after_props {
            req_gap(settings.other_gaps.after_properties, GapField::AfterProperties)
        } else if st.after_code {
            req_gap(
                settings.other_gaps.before_contents_after_code_blocks,
                GapField::BeforeContentsAfterCodeBlocks,
            )
        } else {
            req_gap(settings.other_gaps.before_contents, GapField::BeforeContents)
        },
        SectionView::Code(_) => if st.after_props {
            req_gap(settings.other_gaps.after_properties, GapField::AfterProperties)
        } else if st.after_heading {
            req_gap(
                settings.other_gaps.before_code_blocks_after_headings,
                GapField::BeforeCodeBlocksAfterHeadings,
            )
        } else {
            req_gap(settings.other_gaps.before_code_blocks, GapField::BeforeCodeBlocks)
        },
    }
}

/// Emits one section: the resolved gap's newlines, then the section's raw
/// text; the category flags are reset so that exactly the emitted section's
/// flag is set.
pub open spec fn fmt_step(st: FmtState, sec: SectionView, settings: PluginOptions) -> Result<
    FmtState,
    ConfigError,
> {
    match fmt_gap(st, sec, settings) {
        Ok(g) => Ok(
            FmtState {
                out: st.out + nl_seq(g) + sec.text(),
                after_props: sec is Property,
                after_heading: sec.is_heading(),
                after_code: sec is Code,
            },
        ),
        Err(e) => Err(e),
    }
}

/// The formatting pass folded over the section sequence; the first failure
/// aborts the fold.
pub open spec fn fmt_run(st: FmtState, secs: Seq<SectionView>, settings: PluginOptions) -> Result<
    FmtState,
    ConfigError,
>
    decreases secs.len(),
{
    if secs.len() == 0 {
        Ok(st)
    } else {
        match fmt_step(st, secs[0], settings) {
            Ok(st2) => fmt_run(st2, secs.skip(1), settings),
            Err(e) => Err(e),
        }
    }
}

/// The whole gap formatter.  The after-properties setting is resolved up
/// front, before any section is emitted, so an invalid value fails the call
/// even when no section needs it; every other setting is resolved only when
/// a section's gap reads it.
pub open spec fn format_spec(secs: Seq<SectionView>, settings: PluginOptions) -> Result<
    Seq<char>,
    ConfigError,
> {
    if gap_value_spec(settings.other_gaps.after_properties) is None {
        Err(ConfigError::InvalidGapSetting(GapField::AfterProperties))
    } else {
        match fmt_run(initial_fmt_state(), secs, settings) {
            Ok(st) => Ok(st.out),
            Err(e) => Err(e),
        }
    }
}

pub proof fn lemma_fmt_run_snoc(
    st: FmtState,
    secs: Seq<SectionView>,
    i: int,
    settings: PluginOptions,
)
    requires
        0 <= i < secs.len(),
    ensures
        fmt_run(st, secs.take(i + 1), settings) == (match fmt_run(st, secs.take(i), settings) {
            Ok(m) => fmt_step(m, secs[i], settings),
            Err(e) => Err(e),
        }),
    decreases i,
{
    if i == 0 {
        assert(secs.take(0) =~~= Seq::<SectionView>::empty());
        assert(fmt_run(st, secs.take(0), settings) == Ok::<FmtState, ConfigError>(st));
        assert(secs.take(1)[0] == secs[0]);
        assert(secs.take(1).skip(1) =~~= Seq::<SectionView>::empty());
        match fmt_step(st, secs[0], settings) {
            Ok(st2) => {
                assert(fmt_run(st, secs.take(1), settings) == fmt_run(
                    st2,
                    secs.take(1).skip(1),
                    settings,
                ));
            },
            Err(e) => {
                assert(fmt_run(st, secs.take(1), settings) == Err::<FmtState, ConfigError>(e));
            },
        }
    } else {
        let t = secs.skip(1);
        assert(secs.take(i + 1)[0] == secs[0]);
        assert(secs.take(i)[0] == secs[0]);
        assert(secs.take(i + 1).skip(1) =~~= t.take(i));
        assert(secs.take(i).skip(1) =~~= t.take(i - 1));
        assert(t[i - 1] == secs[i]);
        match fmt_step(st, secs[0], settings) {
            Ok(st2) => {
                lemma_fmt_run_snoc(st2, t, i - 1, settings);
                assert(fmt_run(st, secs.take(i + 1), settings) == fmt_run(st2, t.take(i), settings));
                assert(fmt_run(st, secs.take(i), settings) == fmt_run(
                    st2,
                    t.take(i - 1),
                    settings,
                ));
            },
            Err(e) => {
                assert(fmt_run(st, secs.take(i + 1), settings) == Err::<FmtState, ConfigError>(e));
                assert(fmt_run(st, secs.take(i), settings) == Err::<FmtState, ConfigError>(e));
            },
        }
    }
}

/// A failure of a prefix of the fold is a failure of the whole fold, and an
/// accepted prefix continues from its state.
pub proof fn lemma_fmt_run_prefix(
    st: FmtState,
    secs: Seq<SectionView>,
    i: int,
    settings: PluginOptions,
)
    requires
        0 <= i <= secs.len(),
    ensures
        fmt_run(st, secs, settings) == (match fmt_run(st, secs.take(i), settings) {
            Ok(m) => fmt_run(m, secs.skip(i), settings),
            Err(e) => Err(e),
        }),
    decreases i,
{
    if i == 0 {
        assert(secs.take(0) =~~= Seq::<SectionView>::empty());
        assert(fmt_run(st, secs.take(0), settings) == Ok::<FmtState, ConfigError>(st));
        assert(secs.skip(0) =~~= secs);
    } else {
        let t = secs.skip(1);
        assert(secs.take(i)[0] == secs[0]);
        assert(secs.take(i).skip(1) =~~= t.take(i - 1));
        assert(secs.skip(i) =~~= t.skip(i - 1));
        match fmt_step(st, secs[0], settings) {
            Ok(st2) => {
                lemma_fmt_run_prefix(st2, t, i - 1, settings);
                assert(fmt_run(st, secs, settings) == fmt_run(st2, t, settings));
                assert(fmt_run(st, secs.take(i), settings) == fmt_run(
                    st2,
                    t.take(i - 1),
                    settings,
                ));
            },
            Err(e) => {
                assert(fmt_run(st, secs, settings) == Err::<FmtState, ConfigError>(e));
                assert(fmt_run(st, secs.take(i), settings) == Err::<FmtState, ConfigError>(e));
            },
        }
    }
}

// ---------------------------------------------------------------------------
// Executable formatter
// ---------------------------------------------------------------------------

/// Insert line breaks before and after an input.
#[verifier::loop_isolation(false)]
pub fn insert_line_breaks(input: &str, before: usize, after: usize) -> (r: String)
    ensures
        r@ == nl_seq(before as int) + input@ + nl_seq(after as int),
{
    proof {
        reveal_strlit("\n");
    }
    let mut r = String::new();
    let mut i: usize = 0;
    proof {
        assert(r@ =~= nl_seq(0));
    }
    while i < before
        invariant
            0 <= i <= before,
            r@ == nl_seq(i as int),
        decreases before - i,
    {
        r.append("\n");
        i = i + 1;
        proof {
            assert(r@ =~= nl_seq(i as int));
        }
    }
    r.append(input);
    let mut j: usize = 0;
    proof {
        assert(r@ =~= nl_seq(before as int) + input@ + nl_seq(0));
    }
    while j < after
        invariant
            0 <= j <= after,
            r@ == nl_seq(before as int) + input@ + nl_seq(j as int),
        decreases after - j,
    {
        r.append("\n");
        j = j + 1;
        proof {
            assert(r@ =~= nl_seq(before as int) + input@ + nl_seq(j as int));
        }
    }
    r
}

/// The newline count that an optional "configured value" stands for: nothing
/// means no separator at all, a value means one more newline than it says.
pub open spec fn gap_count(g: Option<usize>) -> int {
    match g {
        Some(v) => v + 1,
        None => 0,
    }
}

/// Appends `text` to the output behind its resolved gap.
fn push_with_gap(output: &mut String, text: &str, gap: Option<usize>)
    ensures
        final(output)@ == old(output)@ + nl_seq(gap_count(gap)) + text@,
{
    proof {
        reveal_strlit("\n");
    }
    match gap {
        Option::Some(v) => {
            output.append("\n");
            let chunk = insert_line_breaks(text, v, 0);
            output.append(chunk.as_str());
            proof {
                assert(final(output)@ =~= old(output)@ + nl_seq(v + 1) + text@);
            }
        },
        Option::None => {
            output.append(text);
            proof {
                assert(final(output)@ =~= old(output)@ + nl_seq(0) + text@);
            }
        },
    }
}

/// Walks the section sequence in order and returns the document rebuilt
/// with the configured number of blank lines inserted before each section.
/// A missing or non-numeric gap setting fails the whole call, identifying
/// the setting; no partial output is returned.
#[verifier::loop_isolation(false)]
pub fn get_formatted_string(sections: Vec<MarkdownSection>, settings: &PluginOptions) -> (r: Result<
    String,
    ConfigError,
>)
    ensures
        r is Ok <==> format_spec(sections.deep_view(), *settings) is Ok,
        r matches Ok(out) ==> out@ == format_spec(sections.deep_view(), *settings)->Ok_0,
        r matches Err(e) ==> format_spec(sections.deep_view(), *settings) == Err::<
            Seq<char>,
            ConfigError,
        >(e),
{
    let ghost sv: Seq<SectionView> = sections.deep_view();

    let after_properties_value = match parse_str_to_usize(
        &settings.other_gaps.after_properties,
        GapField::AfterProperties,
    ) {
        Ok(v) => v,
        Err(e) => {
            return Err(e);
        },
    };

    let mut output = String::new();
    let mut right_after_properties = false;
    let mut right_after_heading = false;
    let mut right_after_code_block = false;

    let mut i: usize = 0;
    proof {
        assert(sv.take(0) =~~= Seq::<SectionView>::empty());
        assert((FmtState {
            out: output@,
            after_props: false,
            after_heading: false,
            after_code: false,
        }) =~~= initial_fmt_state());
    }
    while i < sections.len()
        invariant
            0 <= i <= sections.len(),
            sv == sections.deep_view(),
            sv.len() == sections@.len(),
            forall|j: int| 0 <= j < sv.len() ==> sv[j] == #[trigger] sections@[j].deep_view(),
            gap_value_spec(settings.other_gaps.after_properties) == Some(
                after_properties_value as int,
            ),
            fmt_run(initial_fmt_state(), sv.take(i as int), *settings) == Ok::<
                FmtState,
                ConfigError,
            >(
                FmtState {
                    out: output@,
                    after_props: right_after_properties,
                    after_heading: right_after_heading,
                    after_code: right_after_code_block,
                },
            ),
        decreases sections.len() - i,
    {
        let ghost st_pre = FmtState {
            out: output@,
            after_props: right_after_properties,
            after_heading: right_after_heading,
            after_code: right_after_code_block,
        };
        proof {
            lemma_fmt_run_snoc(initial_fmt_state(), sv, i as int, *settings);
        }
        let section = &sections[i];
        match section {
            MarkdownSection::Property(content) => {
                push_with_gap(&mut output, content.as_str(), None);
                right_after_properties = true;
                right_after_heading = false;
                right_after_code_block = false;
            },
            MarkdownSection::Heading(heading_level) => {
                let gap: Option<usize> = if right_after_properties {
                    Some(after_properties_value)
                } else {
                    match heading_level {
                        HeadingLevel::Top(_) => {
                            if output.as_str().is_empty() {
                                None
                            } else {
                                match parse_str_to_usize(
                                    &settings.heading_gaps.before_top_level_headings,
                                    GapField::BeforeTopLevelHeadings,
                                ) {
                                    Ok(v) => Some(v),
                                    Err(e) => {
                                        proof {
                                            lemma_fmt_run_prefix(
                                                initial_fmt_state(),
                                                sv,
                                                i as int,
                                                *settings,
                                            );
                                        }
                                        return Err(e);
                                    },
                                }
                            }
                        },
                        HeadingLevel::FirstSub(_) => {
                            match parse_str_to_usize(
                                &settings.heading_gaps.before_first_sub_heading,
                                GapField::BeforeFirstSubHeading,
                            ) {
                                Ok(v) => Some(v),
                                Err(e) => {
                                    proof {
                                        lemma_fmt_run_prefix(
                                            initial_fmt_state(),
                                            sv,
                                            i as int,
                                            *settings,
                                        );
                                    }
                                    return Err(e);
                                },
                            }
                        },
                        HeadingLevel::Sub(_) => {
                            match parse_str_to_usize(
                                &settings.heading_gaps.before_sub_headings,
                                GapField::BeforeSubHeadings,
                            ) {
                                Ok(v) => Some(v),
                                Err(e) => {
                                    proof {
                                        lemma_fmt_run_prefix(
                                            initial_fmt_state(),
                                            sv,
                                            i as int,
                                            *settings,
                                        );
                                    }
                                    return Err(e);
                                },
                            }
                        },
                    }
                };
                match heading_level {
                    HeadingLevel::Top(content) => {
                        push_with_gap(&mut output, content.as_str(), gap);
                    },
                    HeadingLevel::FirstSub(content) => {
                        push_with_gap(&mut output, content.as_str(), gap);
                    },
                    HeadingLevel::Sub(content) => {
                        push_with_gap(&mut output, content.as_str(), gap);
                    },
                }
                right_after_properties = false;
                right_after_heading = true;
                right_after_code_block = false;
            },
            MarkdownSection::Content(content) => {
                let gap: Option<usize> = if right_after_properties {
                    Some(after_properties_value)
                } else if right_after_code_block {
                    match parse_str_to_usize(
                        &settings.other_gaps.before_contents_after_code_blocks,
                        GapField::BeforeContentsAfterCodeBlocks,
                    ) {
                        Ok(v) => Some(v),
                        Err(e) => {
                            proof {
                                lemma_fmt_run_prefix(initial_fmt_state(), sv, i as int, *settings);
                            }
                            return Err(e);
                        },
                    }
                } else {
                    match parse_str_to_usize(
                        &settings.other_gaps.before_contents,
                        GapField::BeforeContents,
                    ) {
                        Ok(v) => Some(v),
                        Err(e) => {
                            proof {
                                lemma_fmt_run_prefix(initial_fmt_state(), sv, i as int, *settings);
                            }
                            return Err(e);
                        },
                    }
                };
                push_with_gap(&mut output, content.as_str(), gap);
                right_after_properties = false;
                right_after_heading = false;
                right_after_code_block = false;
            },
            MarkdownSection::Code(content) => {
                let gap: Option<usize> = if right_after_properties {
                    Some(after_properties_value)
                } else if right_after_heading {
                    match parse_str_to_usize(
                        &settings.other_gaps.before_code_blocks_after_headings,
                        GapField::BeforeCodeBlocksAfterHeadings,
                    ) {
                        Ok(v) => Some(v),
                        Err(e) => {
                            proof {
                                lemma_fmt_run_prefix(initial_fmt_state(), sv, i as int, *settings);
                            }
                            return Err(e);
                        },
                    }
                } else {
                    match parse_str_to_usize(
                        &settings.other_gaps.before_code_blocks,
                        GapField::BeforeCodeBlocks,
                    ) {
                        Ok(v) => Some(v),
                        Err(e) => {
                            proof {
                                lemma_fmt_run_prefix(initial_fmt_state(), sv, i as int, *settings);
                            }
                            return Err(e);
                        },
                    }
                };
                push_with_gap(&mut output, content.as_str(), gap);
                right_after_properties = false;
                right_after_heading = false;
                right_after_code_block = true;
            },
        }
        proof {
            assert(fmt_step(st_pre, sv[i as int], *settings) == Ok::<FmtState, ConfigError>(
                FmtState {
                    out: output@,
                    after_props: right_after_properties,
                    after_heading: right_after_heading,
                    after_code: right_after_code_block,
                },
            ));
        }
        i = i + 1;
    }
    proof {
        assert(sv.take(sections@.len() as int) =~~= sv);
    }
    Ok(output)
}

} // verus!
