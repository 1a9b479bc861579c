use formatto::errors::{ConfigError, GapField, ParseError};
use formatto::formatting::{get_formatted_string, insert_line_breaks, parse_str_to_usize};
use formatto::options::{FormatOptions, HeadingGaps, OtherGaps, OtherOptions, PluginOptions};
use formatto::parsing::{get_sections, get_top_heading_level};
use formatto::tokens::{HeadingLevel, MarkdownSection};

fn sample_options() -> PluginOptions {
    PluginOptions {
        heading_gaps: HeadingGaps {
            before_top_level_headings: Some("3".to_string()),
            before_first_sub_heading: Some("1".to_string()),
            before_sub_headings: Some("1".to_string()),
        },
        other_gaps: OtherGaps {
            after_properties: Some("2".to_string()),
            before_contents: Some("0".to_string()),
            before_contents_after_code_blocks: Some("1".to_string()),
            before_code_blocks: Some("1".to_string()),
            before_code_blocks_after_headings: Some("0".to_string()),
        },
        format_options: FormatOptions { insert_newline: Some(false) },
        other_options: OtherOptions {
            notify_when_unchanged: Some(false),
            show_more_detailed_error_messages: Some(false),
        },
    }
}

fn with_field(field: GapField, value: Option<String>) -> PluginOptions {
    let mut options = sample_options();
    match field {
        GapField::AfterProperties => options.other_gaps.after_properties = value,
        GapField::BeforeTopLevelHeadings => {
            options.heading_gaps.before_top_level_headings = value
        }
        GapField::BeforeFirstSubHeading => options.heading_gaps.before_first_sub_heading = value,
        GapField::BeforeSubHeadings => options.heading_gaps.before_sub_headings = value,
        GapField::BeforeContents => options.other_gaps.before_contents = value,
        GapField::BeforeContentsAfterCodeBlocks => {
            options.other_gaps.before_contents_after_code_blocks = value
        }
        GapField::BeforeCodeBlocks => options.other_gaps.before_code_blocks = value,
        GapField::BeforeCodeBlocksAfterHeadings => {
            options.other_gaps.before_code_blocks_after_headings = value
        }
    }
    options
}

fn format(input: &str, options: &PluginOptions) -> String {
    let sections = get_sections(input).unwrap();
    get_formatted_string(sections, options).unwrap()
}

#[test]
fn empty_document_formats_to_empty_output() {
    let sections = get_sections("").unwrap();
    assert!(sections.is_empty());
    let output = get_formatted_string(sections, &sample_options()).unwrap();
    assert_eq!(output, "");
}

#[test]
fn gap_before_second_top_heading() {
    // Two top headings with a content run between them and no property
    // block: with the top-heading gap configured as "2", three newlines
    // (2 + 1) stand before the second top heading's text.
    let options = with_field(GapField::BeforeTopLevelHeadings, Some("2".to_string()));
    let output = format("## A\ncontent\n## B", &options);
    assert_eq!(output, "## A\ncontent\n\n\n## B");
}

#[test]
fn gap_after_properties() {
    let output = format("---\nalias: x\n---\n# Title", &sample_options());
    assert_eq!(output, "---\nalias: x\n---\n\n\n# Title");
}

#[test]
fn gaps_around_code_blocks() {
    // Code right after a heading uses its own setting (0 + 1 newline), and
    // content after a code block uses its setting (1 + 1 newlines).
    let output = format("## A\n```\ncode\n```\ntail", &sample_options());
    assert_eq!(output, "## A\n```\ncode\n```\n\ntail");
}

#[test]
fn sub_heading_gaps() {
    let output = format("## A\n### B\n### C", &sample_options());
    assert_eq!(output, "## A\n\n### B\n\n### C");
}

#[test]
fn reformat_is_stable() {
    // Reformatting the formatter's own output with the same configuration
    // yields the same output.
    let input = "---\nalias: x\n---\ncontent A\n\n## H2\ntext\n### H3\n```\ncode\n```\nmore";
    let options = sample_options();
    let once = format(input, &options);
    let twice = format(&once, &options);
    assert_eq!(once, twice);
}

#[test]
fn reformat_is_stable_without_headings() {
    // A heading-free document whose only sections are a content run (with a
    // stray delimiter inside it) and a code block.
    let input = "plain text\n\n---\n\nmore text\n```\n# code\n```";
    let options = sample_options();
    let once = format(input, &options);
    let twice = format(&once, &options);
    assert_eq!(once, twice);
}

#[test]
fn unterminated_code_block_fails() {
    let result = get_sections("```\ncode");
    assert_eq!(result.unwrap_err(), ParseError::UnterminatedCodeBlock);
}

#[test]
fn top_rank_ignores_hashes_inside_code_blocks() {
    let sections = get_sections("```\n# hidden\n```\n## real").unwrap();
    assert_eq!(
        sections,
        vec![
            MarkdownSection::Code("```\n# hidden\n```".to_string()),
            MarkdownSection::Heading(HeadingLevel::Top("## real".to_string())),
        ]
    );
}

#[test]
fn missing_gap_settings_fail_naming_the_field() {
    let fields = [
        GapField::BeforeTopLevelHeadings,
        GapField::BeforeFirstSubHeading,
        GapField::BeforeSubHeadings,
        GapField::BeforeContents,
        GapField::BeforeContentsAfterCodeBlocks,
        GapField::BeforeCodeBlocks,
        GapField::BeforeCodeBlocksAfterHeadings,
    ];
    let inputs = [
        "## A\ncontent\n## B",
        "## A\n### B",
        "## A\n### B\n### C",
        "## A\ncontent",
        "```\ncode\n```\ncontent",
        "content\n\n```\ncode\n```",
        "## A\n```\ncode\n```",
    ];
    for (field, input) in fields.iter().zip(inputs.iter()) {
        let sections = get_sections(input).unwrap();
        let result = get_formatted_string(sections, &with_field(*field, None));
        assert_eq!(result.unwrap_err(), ConfigError::InvalidGapSetting(*field));
    }
}

#[test]
fn non_numeric_gap_settings_fail_naming_the_field() {
    let sections = get_sections("## A\ncontent\n## B").unwrap();
    let options = with_field(GapField::BeforeTopLevelHeadings, Some("two".to_string()));
    let result = get_formatted_string(sections, &options);
    assert_eq!(
        result.unwrap_err(),
        ConfigError::InvalidGapSetting(GapField::BeforeTopLevelHeadings)
    );
}

#[test]
fn after_properties_is_checked_up_front() {
    // The after-properties setting is resolved before any section is
    // emitted, so it fails the call even for a document with no property
    // block at all.
    let sections = get_sections("plain content").unwrap();
    let options = with_field(GapField::AfterProperties, Some("-1".to_string()));
    let result = get_formatted_string(sections, &options);
    assert_eq!(
        result.unwrap_err(),
        ConfigError::InvalidGapSetting(GapField::AfterProperties)
    );
}

#[test]
fn parse_str_to_usize_accepts_digits() {
    assert_eq!(
        parse_str_to_usize(&Some("12".to_string()), GapField::BeforeContents),
        Ok(12)
    );
    assert_eq!(
        parse_str_to_usize(&Some("+3".to_string()), GapField::BeforeContents),
        Ok(3)
    );
    assert_eq!(
        parse_str_to_usize(&Some("0".to_string()), GapField::BeforeContents),
        Ok(0)
    );
}

#[test]
fn parse_str_to_usize_rejects_bad_text() {
    let bad = [
        "",
        "+",
        " 1",
        "1 ",
        "-1",
        "1.5",
        "two",
        "99999999999999999999999999999999",
    ];
    for text in bad.iter() {
        assert_eq!(
            parse_str_to_usize(&Some(text.to_string()), GapField::BeforeSubHeadings),
            Err(ConfigError::InvalidGapSetting(GapField::BeforeSubHeadings))
        );
    }
    assert_eq!(
        parse_str_to_usize(&None, GapField::BeforeSubHeadings),
        Err(ConfigError::InvalidGapSetting(GapField::BeforeSubHeadings))
    );
}

#[test]
fn insert_line_breaks_surrounds_input() {
    assert_eq!(insert_line_breaks("x", 2, 1), "\n\nx\n");
    assert_eq!(insert_line_breaks("", 0, 0), "");
}

#[test]
fn top_heading_level_of_lines() {
    assert_eq!(get_top_heading_level(&vec!["## a", "# b", "text"]), 1);
    assert_eq!(get_top_heading_level(&vec!["###x", "## y"]), 2);
    assert_eq!(get_top_heading_level(&vec!["text", "more"]), usize::MAX);
    assert_eq!(get_top_heading_level(&vec!["```", "# in code", "```"]), usize::MAX);
}

#[test]
fn documents_without_headings_have_no_heading_sections() {
    let sections = get_sections("just text\n\nmore text\n- a list").unwrap();
    for section in sections.iter() {
        assert!(!matches!(section, MarkdownSection::Heading(_)));
    }
}
