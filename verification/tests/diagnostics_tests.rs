use simpler_notes::diagnostics::{Diagnostics, Severity};
use simpler_notes::names::FilenameIndex;
use std::path::Path;

fn empty_index() -> FilenameIndex {
    FilenameIndex::new()
}

#[test]
fn test_empty_link_diagnostic() {
    let mut diag = Diagnostics::new();
    diag.check_file("test.md", "[[]]", "vault", &empty_index());
    let result = diag.get("test.md");
    assert_eq!(result.len(), 1);
    assert_eq!(result[0].severity, Severity::Warning);
}

#[test]
fn test_invalid_date_diagnostic() {
    let mut diag = Diagnostics::new();
    diag.check_file("test.md", "!32.13.2000", "vault", &empty_index());
    let result = diag.get("test.md");
    assert_eq!(result.len(), 1);
}

#[test]
fn test_clean_file() {
    let mut diag = Diagnostics::new();
    diag.check_file("test.md", "Just text", "vault", &empty_index());
    assert!(diag.get("test.md").is_empty());
}

#[test]
fn diagnostics_test_remove_file() {
    let mut diag = Diagnostics::new();
    diag.check_file("test.md", "[[]]", "vault", &empty_index());
    diag.remove("test.md");
    assert!(diag.get("test.md").is_empty());
}

#[test]
fn test_all_diagnostics() {
    let mut diag = Diagnostics::new();
    diag.check_file("a.md", "[[]]", "vault", &empty_index());
    diag.check_file("b.md", "!32.13.2000", "vault", &empty_index());
    assert_eq!(diag.all().len(), 2);
}

#[test]
fn diagnostics_test_clear() {
    let mut diag = Diagnostics::new();
    diag.check_file("a.md", "[[]]", "vault", &empty_index());
    diag.clear();
    assert!(diag.all().is_empty());
}

#[test]
fn test_broken_link() {
    let mut diag = Diagnostics::new();
    diag.check_file("test.md", "[[NonExistent]]", "vault", &empty_index());
    let result = diag.get("test.md");
    assert_eq!(result.len(), 1);
    assert!(result[0].message.contains("Broken link"));
}

#[test]
fn test_ambiguous_link() {
    let mut diag = Diagnostics::new();
    let mut index = FilenameIndex::new();
    index.add("note".to_string(), "vault/note.md".to_string());
    index.add("note".to_string(), "vault/sub/note.md".to_string());
    diag.check_file("source.md", "[[note]]", "vault", &index);
    let result = diag.get("source.md");
    assert_eq!(result.len(), 1);
    assert!(result[0].message.contains("Ambiguous link"));
    assert_eq!(result[0].message, "Ambiguous link: note — multiple files: vault/note.md, vault/sub/note.md");
}

#[test]
fn test_valid_link_no_diagnostic() {
    let mut diag = Diagnostics::new();
    let mut index = FilenameIndex::new();
    index.add("note".to_string(), "vault/note.md".to_string());
    diag.check_file("source.md", "[[note]]", "vault", &index);
    let result = diag.get("source.md");
    assert!(result.is_empty());
}

fn make_filename_index(vault_path: &str, files: &[&str]) -> FilenameIndex {
    let mut index = FilenameIndex::new();
    for f in files {
        let full = Path::new(vault_path).join(f);
        if let Some(stem) = full.file_stem() {
            index.add(stem.to_string_lossy().to_string(), full.to_string_lossy().to_string());
        }
    }
    index
}

#[test]
fn test_table_driven_check_file() {
    struct Case {
        name: &'static str,
        content: &'static str,
        vault_files: &'static [&'static str],
        expected_count: usize,
        expected_messages_contain: &'static [&'static str],
    }

    let cases: Vec<Case> = vec![
        Case {
            name: "valid link resolves to single file — no diagnostic",
            content: "[[note]]",
            vault_files: &["note.md"],
            expected_count: 0,
            expected_messages_contain: &[],
        },
        Case {
            name: "broken link to non-existent file",
            content: "[[ghost]]",
            vault_files: &[],
            expected_count: 1,
            expected_messages_contain: &["Broken link"],
        },
        Case {
            name: "ambiguous link — two files with same stem",
            content: "[[note]]",
            vault_files: &["note.md", "sub/note.md"],
            expected_count: 1,
            expected_messages_contain: &["Ambiguous link"],
        },
        Case {
            name: "empty filename_index — all links broken",
            content: "[[a]] and [[b]]",
            vault_files: &[],
            expected_count: 2,
            expected_messages_contain: &["Broken link"],
        },
        Case {
            name: "multiple links with mixed validity",
            content: "[[valid]] and [[broken]] and [[also-broken]]",
            vault_files: &["valid.md"],
            expected_count: 2,
            expected_messages_contain: &["Broken link"],
        },
        Case {
            name: "no links in content — no diagnostics",
            content: "just plain text",
            vault_files: &[],
            expected_count: 0,
            expected_messages_contain: &[],
        },
        Case {
            name: "absolute path link hits is_absolute branch",
            content: "[[/tmp/some-abs-test-42]]",
            vault_files: &["existing.md"],
            expected_count: 1,
            expected_messages_contain: &["Broken link"],
        },
    ];

    for (i, case) in cases.into_iter().enumerate() {
        let index = make_filename_index("vault", case.vault_files);
        let mut diag = Diagnostics::new();
        let path = format!("source_{}.md", i);
        diag.check_file(&path, case.content, "vault", &index);
        let result = diag.get(&path);
        let mut errors: Vec<String> = Vec::new();
        if result.len() != case.expected_count {
            errors.push(format!("expected {} diagnostics, got {}", case.expected_count, result.len()));
        }
        for msg_needle in case.expected_messages_contain {
            let found = result.iter().any(|d| d.message.contains(msg_needle));
            if !found {
                errors.push(format!("expected diagnostic containing '{}', none found", msg_needle));
            }
        }
        assert!(errors.is_empty(), "case {} ({}): {}", i, case.name, errors.join("; "));
    }
}

#[test]
fn broken_link_message_is_exact() {
    let mut diag = Diagnostics::new();
    diag.check_file("n.md", "[[Missing Note]]", "vault", &empty_index());
    assert_eq!(diag.get("n.md")[0].message, "Broken link: Missing Note — file not found");
}

#[test]
fn check_file_replaces_the_list_of_that_note_only() {
    let mut diag = Diagnostics::new();
    diag.check_file("a.md", "[[]] !32.13.2000", "vault", &empty_index());
    diag.check_file("b.md", "[[]]", "vault", &empty_index());
    assert_eq!(diag.get("a.md").len(), 2);
    diag.check_file("a.md", "!31.13.2000", "elsewhere", &empty_index());
    let a = diag.get("a.md");
    assert_eq!(a.len(), 1);
    assert!(a[0].message.starts_with("Invalid date"));
    assert_eq!(diag.get("b.md").len(), 1);
    diag.check_file("a.md", "clean", "vault", &empty_index());
    assert!(diag.get("a.md").is_empty());
    assert_eq!(diag.get("b.md").len(), 1);
}
