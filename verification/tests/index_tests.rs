use simpler_notes::date::Date;
use simpler_notes::index::{ConcurrentIndex, FileIndexState};
use simpler_notes::links::LinkEntry;
use simpler_notes::model::ByteSpan;
use simpler_notes::names::FilenameIndex;

fn empty_index() -> FilenameIndex {
    FilenameIndex::new()
}

#[test]
fn test_clear_all() {
    let mut index = ConcurrentIndex::new();
    let path = "test.md";
    index.tags.add(path, "tag", ByteSpan { offset: 0, length: 4 });
    index.dates.add(path, Date { year: 2024, month: 1, day: 15 }, ByteSpan { offset: 0, length: 12 });
    let entry = LinkEntry {
        source: path.to_string(),
        target: "other.md".to_string(),
        label: "other".to_string(),
        span: ByteSpan { offset: 0, length: 10 },
    };
    index.links.add(path, entry);
    index.diagnostics.check_file(path, "[[]]", ".", &empty_index());
    index.file_states.insert(path.to_string(), FileIndexState { tags: vec!["tag".to_string()], dates: vec![] });
    index.clear();
    assert!(index.tags.all_tags().is_empty());
    assert!(index.dates.all_dates().is_empty());
    assert!(index.links.all_targets().is_empty());
    assert!(index.diagnostics.all().is_empty());
    assert!(index.file_states.is_empty());
}

#[test]
fn test_reindex_replaces_state() {
    let mut index = ConcurrentIndex::new();
    let path = "test.md";
    index.reindex_file(path, "@tag1 !15.01.2024", ".", &empty_index());
    assert!(index.tags.get("tag1").len() == 1);
    index.reindex_file(path, "@tag2", ".", &empty_index());
    assert!(index.tags.get("tag1").is_empty(), "old tag should be removed");
    assert!(index.tags.get("tag2").len() == 1, "new tag should be indexed");
}

#[test]
fn test_table_driven_reindex_file() {
    struct Case {
        name: &'static str,
        content: &'static str,
        check: fn(&ConcurrentIndex, &mut Vec<String>),
    }

    let cases: Vec<Case> = vec![
        Case {
            name: "file with multiple links indexes all of them",
            content: "[[alpha]] and [[beta]] and [[gamma]]",
            check: |idx, errors| {
                let targets = idx.links.all_targets();
                if targets.len() != 3 {
                    errors.push(format!("expected 3 link targets, got {}", targets.len()));
                }
            },
        },
        Case {
            name: "file with no links produces no link targets",
            content: "just plain text without any links",
            check: |idx, errors| {
                let targets = idx.links.all_targets();
                if targets.len() != 0 {
                    errors.push(format!("expected 0 link targets, got {}", targets.len()));
                }
            },
        },
        Case {
            name: "reindexing replaces old links with new ones",
            content: "[[replaced]]",
            check: |idx, errors| {
                let targets = idx.links.all_targets();
                if targets.len() != 1 || targets[0] != "replaced" {
                    errors.push(format!("expected [replaced], got {:?}", targets));
                }
            },
        },
        Case {
            name: "file with multiple tags indexes all",
            content: "@work @project @urgent",
            check: |idx, errors| {
                for tag in &["work", "project", "urgent"] {
                    if idx.tags.get(tag).is_empty() {
                        errors.push(format!("expected tag '{}' to be indexed", tag));
                    }
                }
            },
        },
        Case {
            name: "file with dates indexes dates",
            content: "start !01.06.2026 end !15.06.2026",
            check: |idx, errors| {
                let all = idx.dates.all_dates();
                if all.len() != 2 {
                    errors.push(format!("expected 2 dates, got {}", all.len()));
                }
            },
        },
        Case {
            name: "absolute path link is indexed by file_stem",
            content: "[[/tmp/abs-test]]",
            check: |idx, errors| {
                let targets = idx.links.all_targets();
                if targets.len() != 1 {
                    errors.push(format!("expected 1 target, got {}", targets.len()));
                } else if !targets[0].ends_with("abs-test") {
                    errors.push(format!("expected path ending with abs-test, got {:?}", targets[0]));
                }
            },
        },
    ];

    for (i, case) in cases.into_iter().enumerate() {
        let mut index = ConcurrentIndex::new();
        let path = format!("test_{}.md", i);
        index.reindex_file(&path, case.content, ".", &empty_index());
        let mut errors: Vec<String> = Vec::new();
        (case.check)(&index, &mut errors);
        assert!(errors.is_empty(), "case {} ({}): {}", i, case.name, errors.join("; "));
    }
}

#[test]
fn test_table_driven_reindex_replaces_old_links() {
    struct Case {
        name: &'static str,
        first_content: &'static str,
        second_content: &'static str,
        check: fn(&ConcurrentIndex, &mut Vec<String>),
    }

    let cases: Vec<Case> = vec![
        Case {
            name: "reindex removes old links and adds new ones",
            first_content: "[[old-link]]",
            second_content: "[[new-link]]",
            check: |idx, errors| {
                if idx.links.backlinks("old-link").len() != 0 {
                    errors.push("old link should be gone after reindex".into());
                }
                if idx.links.backlinks("new-link").len() != 1 {
                    errors.push("new link should exist after reindex".into());
                }
            },
        },
        Case {
            name: "reindex with empty content clears all links",
            first_content: "[[link-a]] [[link-b]]",
            second_content: "",
            check: |idx, errors| {
                if idx.links.all_targets().len() != 0 {
                    errors.push("reindexing to empty content should clear all links".into());
                }
            },
        },
        Case {
            name: "reindex with empty content clears all tags",
            first_content: "@tag1 @tag2",
            second_content: "",
            check: |idx, errors| {
                if !idx.tags.get("tag1").is_empty() {
                    errors.push("tag1 should be gone after reindex".into());
                }
                if !idx.tags.get("tag2").is_empty() {
                    errors.push("tag2 should be gone after reindex".into());
                }
            },
        },
    ];

    for (i, case) in cases.into_iter().enumerate() {
        let mut index = ConcurrentIndex::new();
        let path = "replace.md";
        index.reindex_file(path, case.first_content, ".", &empty_index());
        index.reindex_file(path, case.second_content, ".", &empty_index());
        let mut errors: Vec<String> = Vec::new();
        (case.check)(&index, &mut errors);
        assert!(errors.is_empty(), "case {} ({}): {}", i, case.name, errors.join("; "));
    }
}

#[test]
fn reindex_resolves_unique_stems_and_records_state() {
    let mut index = ConcurrentIndex::new();
    let mut names = FilenameIndex::new();
    names.add("beta".to_string(), "notes/sub/beta.md".to_string());
    index.reindex_file("notes/a.md", "[[beta]] [[../x/gamma.md]] @t !01.02.2003", ".", &names);
    let out: Vec<String> = index.links.outgoing("notes/a.md").into_iter().map(|e| e.target).collect();
    assert_eq!(out, vec!["notes/sub/beta.md".to_string(), "x/gamma.md".to_string()]);
    let state = index.file_states.get("notes/a.md").unwrap();
    assert_eq!(state.tags, vec!["t".to_string()]);
    assert_eq!(state.dates, vec![Date { year: 2003, month: 2, day: 1 }]);
    assert_eq!(index.diagnostics.get("notes/a.md").len(), 1);
}

fn notes_index() -> ConcurrentIndex {
    let mut index = ConcurrentIndex::new();
    let names = empty_index();
    index.reindex_file("/v/a.md", "@x [[b]] !01.02.2024", "/v", &names);
    index.reindex_file("/v/b.md", "@x @y [[a]]", "/v", &names);
    index
}

#[test]
fn reindexing_one_note_keeps_the_others() {
    let mut index = notes_index();
    let before_out = index.links.outgoing("/v/b.md").len();
    let before_x = index.tags.get("x").iter().filter(|e| e.path == "/v/b.md").count();
    index.reindex_file("/v/a.md", "nothing here", "/v", &empty_index());
    assert_eq!(index.links.outgoing("/v/b.md").len(), before_out);
    assert_eq!(index.tags.get("x").iter().filter(|e| e.path == "/v/b.md").count(), before_x);
    assert!(index.diagnostics.get("/v/b.md").len() == 1);
    assert!(index.tags.get("y").len() == 1);
}

#[test]
fn reindexing_twice_is_reindexing_once() {
    let mut once = notes_index();
    once.reindex_file("/v/a.md", "@x @z [[c]] !03.04.2025", "/v", &empty_index());
    let mut twice = notes_index();
    twice.reindex_file("/v/a.md", "@x @z [[c]] !03.04.2025", "/v", &empty_index());
    twice.reindex_file("/v/a.md", "@x @z [[c]] !03.04.2025", "/v", &empty_index());
    for tag in ["x", "y", "z"] {
        assert_eq!(once.tags.get(tag).len(), twice.tags.get(tag).len());
    }
    assert_eq!(once.links.outgoing("/v/a.md").len(), twice.links.outgoing("/v/a.md").len());
    assert_eq!(once.dates.all_dates().len(), twice.dates.all_dates().len());
    assert_eq!(twice.tags.get("z")[0].spans.len(), 1);
}
