use simpler_notes::date::Date;
use simpler_notes::parser::{parse_content, ParseErrorKind};

#[test]
fn test_simple_link() {
    let result = parse_content("Hello [[Note Name]] world");
    assert_eq!(result.links.len(), 1);
    assert_eq!(result.links[0].file_name, "Note Name");
    assert_eq!(result.links[0].label, "Note Name");
    assert!(result.errors.is_empty());
}

#[test]
fn test_link_with_alias() {
    let result = parse_content("[[Note Name|Display Label]]");
    assert_eq!(result.links.len(), 1);
    assert_eq!(result.links[0].file_name, "Note Name");
    assert_eq!(result.links[0].label, "Display Label");
}

#[test]
fn test_empty_link_is_error() {
    let result = parse_content("[[]]");
    assert_eq!(result.errors.len(), 1);
    assert_eq!(result.errors[0].kind, ParseErrorKind::EmptyLink);
}

#[test]
fn test_tags() {
    let result = parse_content("@project @todo @project");
    assert_eq!(result.tags.len(), 3);
    assert_eq!(result.tags[0].name, "project");
    assert_eq!(result.tags[1].name, "todo");
}

#[test]
fn test_tags_not_at_email() {
    let result = parse_content("user@host.com");
    assert!(result.tags.is_empty());
}

#[test]
fn test_double_at_not_tag() {
    let result = parse_content("@@notag");
    assert!(result.tags.is_empty());
}

#[test]
fn test_valid_date() {
    let result = parse_content("Meeting !21.07.2003");
    assert_eq!(result.dates.len(), 1);
    assert_eq!(result.dates[0].raw, "!21.07.2003");
    assert_eq!(result.dates[0].date, Date { year: 2003, month: 7, day: 21 });
    assert!(result.errors.is_empty());
}

#[test]
fn test_invalid_date() {
    let result = parse_content("!32.13.2000");
    assert_eq!(result.errors.len(), 1);
    assert_eq!(result.errors[0].kind, ParseErrorKind::InvalidDate);
}

#[test]
fn test_empty_text() {
    let result = parse_content("");
    assert!(result.links.is_empty());
    assert!(result.tags.is_empty());
    assert!(result.dates.is_empty());
    assert!(result.errors.is_empty());
}

#[test]
fn test_no_tags_or_dates() {
    let result = parse_content("Just plain text");
    assert!(result.links.is_empty());
    assert!(result.tags.is_empty());
    assert!(result.dates.is_empty());
    assert!(result.errors.is_empty());
}

#[test]
fn test_multiline() {
    let text = "# Header\n\n@tag1\n\n[[Link]]\n\n!21.07.2003";
    let result = parse_content(text);
    assert_eq!(result.tags.len(), 1);
    assert_eq!(result.links.len(), 1);
    assert_eq!(result.dates.len(), 1);
}

#[test]
fn test_broken_link_diagnostics() {
    let result = parse_content("[[Valid]] and [[]]");
    assert_eq!(result.links.len(), 1);
    assert_eq!(result.errors.len(), 1);
    assert_eq!(result.errors[0].kind, ParseErrorKind::EmptyLink);
}

#[test]
fn test_table_driven_links() {
    struct Case {
        input: &'static str,
        expected_links: usize,
        expected_errors: usize,
        first_file_name: Option<&'static str>,
        first_label: Option<&'static str>,
    }

    let cases = vec![
        Case { input: "[[simple]]", expected_links: 1, expected_errors: 0, first_file_name: Some("simple"), first_label: Some("simple") },
        Case { input: "[[with spaces]]", expected_links: 1, expected_errors: 0, first_file_name: Some("with spaces"), first_label: Some("with spaces") },
        Case { input: "[[a|b]]", expected_links: 1, expected_errors: 0, first_file_name: Some("a"), first_label: Some("b") },
        Case { input: "[[|empty label]]", expected_links: 0, expected_errors: 1, first_file_name: None, first_label: None },
        Case { input: "[[multi|line|pipe]]", expected_links: 1, expected_errors: 0, first_file_name: Some("multi"), first_label: Some("line|pipe") },
        Case { input: "no brackets", expected_links: 0, expected_errors: 0, first_file_name: None, first_label: None },
        Case { input: "[[incomplete", expected_links: 0, expected_errors: 0, first_file_name: None, first_label: None },
        Case { input: "incomplete]]", expected_links: 0, expected_errors: 0, first_file_name: None, first_label: None },
        Case { input: "[[double]] [[links]]", expected_links: 2, expected_errors: 0, first_file_name: Some("double"), first_label: Some("double") },
    ];

    for (i, case) in cases.into_iter().enumerate() {
        let result = parse_content(case.input);
        assert_eq!(result.links.len(), case.expected_links, "case {}: links count mismatch", i);
        assert_eq!(result.errors.len(), case.expected_errors, "case {}: errors count mismatch", i);
        if let (Some(fname), Some(flabel)) = (case.first_file_name, case.first_label) {
            assert_eq!(result.links[0].file_name, fname, "case {}: file_name mismatch", i);
            assert_eq!(result.links[0].label, flabel, "case {}: label mismatch", i);
        }
    }
}

#[test]
fn test_table_driven_dates() {
    struct Case {
        input: &'static str,
        expected_dates: usize,
        expected_errors: usize,
    }

    let cases = vec![
        Case { input: "!01.01.2024", expected_dates: 1, expected_errors: 0 },
        Case { input: "!31.12.1999", expected_dates: 1, expected_errors: 0 },
        Case { input: "!29.02.2020", expected_dates: 1, expected_errors: 0 }, // leap year
        Case { input: "!29.02.2021", expected_dates: 0, expected_errors: 1 }, // not leap year
        Case { input: "!00.01.2024", expected_dates: 0, expected_errors: 1 }, // day 0
        Case { input: "!01.00.2024", expected_dates: 0, expected_errors: 1 }, // month 0
        Case { input: "text no date", expected_dates: 0, expected_errors: 0 },
        Case { input: "!!01.01.2024", expected_dates: 0, expected_errors: 0 },
    ];

    for (i, case) in cases.into_iter().enumerate() {
        let result = parse_content(case.input);
        assert_eq!(result.dates.len(), case.expected_dates, "case {}: dates count mismatch", i);
        assert_eq!(result.errors.len(), case.expected_errors, "case {}: errors count mismatch", i);
    }
}

#[test]
fn test_table_driven_tags() {
    struct Case {
        input: &'static str,
        expected_tags: Vec<&'static str>,
    }

    let cases = vec![
        Case { input: "@tag", expected_tags: vec!["tag"] },
        Case { input: "@tag1 @tag2", expected_tags: vec!["tag1", "tag2"] },
        Case { input: "@tag with spaces", expected_tags: vec!["tag"] },
        Case { input: "no tags here", expected_tags: vec![] },
        Case { input: "@TAG123", expected_tags: vec!["TAG123"] },
        Case { input: "@under_score", expected_tags: vec!["under_score"] },
    ];

    for (i, case) in cases.into_iter().enumerate() {
        let result = parse_content(case.input);
        let names: Vec<&str> = result.tags.iter().map(|t| t.name.as_str()).collect();
        assert_eq!(names, case.expected_tags, "case {}: tags mismatch", i);
    }
}

#[test]
fn test_tag_masked_in_wiki_link() {
    let result = parse_content("[[note @tag]]");
    assert!(result.tags.is_empty(), "tag inside [[...]] should be masked");
    assert_eq!(result.links.len(), 1);
}

#[test]
fn test_tag_masked_in_wiki_link_with_alias() {
    let result = parse_content("[[note @tag|label]]");
    assert!(result.tags.is_empty(), "tag in wiki-link target should be masked");
}

#[test]
fn test_tag_masked_in_wiki_link_alias_part() {
    let result = parse_content("[[note|label @tag]]");
    assert!(result.tags.is_empty(), "tag in wiki-link alias should be masked");
}

#[test]
fn test_date_masked_in_wiki_link() {
    let result = parse_content("[[note !01.01.2024]]");
    assert!(result.dates.is_empty(), "date inside [[...]] should be masked");
}

#[test]
fn test_tag_masked_in_md_link() {
    let result = parse_content("[link @tag](url)");
    assert!(result.tags.is_empty(), "tag inside [...] should be masked");
}

#[test]
fn test_date_masked_in_md_link() {
    let result = parse_content("[link !01.01.2024](url)");
    assert!(result.dates.is_empty(), "date inside [...] should be masked");
}

#[test]
fn test_tag_masked_in_image() {
    let result = parse_content("![alt @tag](image.png)");
    assert!(result.tags.is_empty(), "tag inside ![alt] should be masked");
}

#[test]
fn test_date_masked_in_image() {
    let result = parse_content("![alt !01.01.2024](image.png)");
    assert!(result.dates.is_empty(), "date inside ![alt] should be masked");
}

#[test]
fn test_tag_masked_in_inline_code() {
    let result = parse_content("`code @tag`");
    assert!(result.tags.is_empty(), "tag inside `code` should be masked");
}

#[test]
fn test_date_masked_in_inline_code() {
    let result = parse_content("`code !01.01.2024`");
    assert!(result.dates.is_empty(), "date inside `code` should be masked");
}

#[test]
fn test_tag_masked_in_fenced_code() {
    let result = parse_content("```\n@tag inside\n```");
    assert!(result.tags.is_empty(), "tag inside fenced code should be masked");
}

#[test]
fn test_date_masked_in_fenced_code() {
    let result = parse_content("```\n!01.01.2024 inside\n```");
    assert!(result.dates.is_empty(), "date inside fenced code should be masked");
}

#[test]
fn test_tag_masked_in_tilde_fenced_code() {
    let result = parse_content("~~~\n@tag inside\n~~~");
    assert!(result.tags.is_empty(), "tag inside ~~~ fenced code should be masked");
}

#[test]
fn test_tag_masked_in_html_comment() {
    let result = parse_content("<!-- @tag -->");
    assert!(result.tags.is_empty(), "tag inside <!-- --> should be masked");
}

#[test]
fn test_date_masked_in_html_comment() {
    let result = parse_content("<!-- !01.01.2024 -->");
    assert!(result.dates.is_empty(), "date inside <!-- --> should be masked");
}

#[test]
fn test_tag_in_plain_text_still_works() {
    let result = parse_content("plain @tag");
    assert_eq!(result.tags.len(), 1, "tag in plain text should still be extracted");
    assert_eq!(result.tags[0].name, "tag");
}

#[test]
fn test_date_in_plain_text_still_works() {
    let result = parse_content("plain !01.01.2024");
    assert_eq!(result.dates.len(), 1, "date in plain text should still be extracted");
    assert_eq!(result.dates[0].raw, "!01.01.2024");
}

#[test]
fn test_tags_outside_fenced_code_work() {
    let result = parse_content("```\n@tag inside\n```\n\n@outside");
    assert_eq!(result.tags.len(), 1, "only tag outside fenced code should be extracted");
    assert_eq!(result.tags[0].name, "outside");
}

#[test]
fn test_dates_outside_fenced_code_work() {
    let result = parse_content("```\n!01.01.2024\n```\n\n!02.02.2024");
    assert_eq!(result.dates.len(), 1, "only date outside fenced code should be extracted");
    assert_eq!(result.dates[0].raw, "!02.02.2024");
}

fn masked_of(text: &str) -> Vec<(usize, usize)> {
    let b = text.as_bytes();
    let (links, _) = simpler_notes::parser::parse_links(b);
    simpler_notes::parser::build_masked_ranges(b, &links)
}

#[test]
fn masked_ranges_are_sorted_and_merged() {
    assert_eq!(masked_of("``<!---->"), vec![(0, 9)]);
    assert_eq!(masked_of("[[a]] `x` [t](u)"), vec![(0, 5), (6, 9), (10, 16)]);
    assert_eq!(masked_of("`a``b`"), vec![(0, 6)]);
    assert_eq!(masked_of("`x` [[a]]"), vec![(0, 3), (4, 9)]);
    assert_eq!(masked_of("plain"), vec![]);
}

#[test]
fn date_word_boundary_follows_unicode_word_characters() {
    let dash = parse_content("due !01.01.2024\u{2014} done");
    assert_eq!(dash.dates.len(), 1);
    assert_eq!(dash.dates[0].raw, "!01.01.2024");
    let quote = parse_content("due !01.01.2024\u{bb}");
    assert_eq!(quote.dates.len(), 1);
    let letter = parse_content("due !01.01.2024\u{e9}");
    assert!(letter.dates.is_empty());
    let digit = parse_content("due !01.01.20245");
    assert!(digit.dates.is_empty());
    let underscore = parse_content("due !01.01.2024_x");
    assert!(underscore.dates.is_empty());
}

#[test]
fn spans_lie_within_the_text_and_links_come_in_order() {
    let text = "x [[a]] [[b|c]]\n@tag\t!01.01.2024 [[d]]";
    let r = parse_content(text);
    assert_eq!(r.links.len(), 3);
    for l in &r.links {
        assert!(l.span.offset + l.span.length <= text.len());
    }
    for w in r.links.windows(2) {
        assert!(w[0].span.offset + w[0].span.length <= w[1].span.offset);
    }
    assert_eq!(r.tags.len(), 1);
    assert!(r.tags[0].span.offset + r.tags[0].span.length <= text.len());
    assert_eq!(r.dates.len(), 1);
    assert!(r.dates[0].span.offset + r.dates[0].span.length <= text.len());
}
