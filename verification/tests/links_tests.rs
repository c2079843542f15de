use simpler_notes::links::{LinkEntry, LinkIndex};
use simpler_notes::model::ByteSpan;

fn make_entry(source: &str, target: &str, label: &str) -> LinkEntry {
    LinkEntry {
        source: source.to_string(),
        target: target.to_string(),
        label: label.to_string(),
        span: ByteSpan { offset: 0, length: 10 },
    }
}

#[test]
fn test_add_and_backlinks() {
    let mut index = LinkIndex::new();
    let entry = make_entry("a.md", "b.md", "B");
    index.add("a.md", entry);
    let backlinks = index.backlinks("b.md");
    assert_eq!(backlinks.len(), 1);
    assert_eq!(backlinks[0].source, "a.md");
}

#[test]
fn test_outgoing() {
    let mut index = LinkIndex::new();
    let entry = make_entry("a.md", "b.md", "B");
    index.add("a.md", entry);
    let outgoing = index.outgoing("a.md");
    assert_eq!(outgoing.len(), 1);
    assert_eq!(outgoing[0].target, "b.md");
}

#[test]
fn link_index_test_remove_file() {
    let mut index = LinkIndex::new();
    let entry = make_entry("a.md", "b.md", "B");
    index.add("a.md", entry);
    index.remove_file("a.md");
    assert!(index.backlinks("b.md").is_empty());
}

#[test]
fn test_all_targets() {
    let mut index = LinkIndex::new();
    index.add("x.md", make_entry("x.md", "t.md", "T"));
    index.add("y.md", make_entry("y.md", "t.md", "T"));
    let targets = index.all_targets();
    assert_eq!(targets.len(), 1);
    assert_eq!(targets[0], "t.md");
}

#[test]
fn link_index_test_clear() {
    let mut index = LinkIndex::new();
    index.add("a.md", make_entry("a.md", "b.md", "B"));
    index.clear();
    assert!(index.backlinks("b.md").is_empty());
}

#[test]
fn test_update_target() {
    let mut index = LinkIndex::new();
    index.add("a.md", make_entry("a.md", "old.md", "link"));
    assert_eq!(index.backlinks("old.md").len(), 1);
    assert!(index.backlinks("new.md").is_empty());
    index.update_target("old.md", "new.md");
    assert!(index.backlinks("old.md").is_empty());
    assert_eq!(index.backlinks("new.md").len(), 1);
    assert_eq!(index.backlinks("new.md")[0].target, "new.md");
}

#[test]
fn test_outgoing_is_o1() {
    let mut index = LinkIndex::new();
    index.add("a.md", make_entry("a.md", "b.md", "B"));
    index.add("a.md", make_entry("a.md", "c.md", "C"));
    let outgoing = index.outgoing("a.md");
    assert_eq!(outgoing.len(), 2);
    assert!(outgoing.iter().any(|e| e.target == "b.md"));
    assert!(outgoing.iter().any(|e| e.target == "c.md"));
    assert!(index.outgoing("orphan.md").is_empty());
}

#[test]
fn test_remove_file_cleans_both_maps() {
    let mut index = LinkIndex::new();
    index.add("a.md", make_entry("a.md", "b.md", "B"));
    index.add("a.md", make_entry("a.md", "c.md", "C"));
    index.remove_file("a.md");
    assert!(index.outgoing("a.md").is_empty());
    assert!(index.backlinks("b.md").is_empty());
    assert!(index.backlinks("c.md").is_empty());
}

#[test]
fn test_add_maintains_both_maps() {
    let mut index = LinkIndex::new();
    let entry = make_entry("a.md", "b.md", "B");
    index.add("a.md", entry);
    let outgoing = index.outgoing("a.md");
    assert_eq!(outgoing.len(), 1);
    assert_eq!(outgoing[0].target, "b.md");
    let backlinks = index.backlinks("b.md");
    assert_eq!(backlinks.len(), 1);
    assert_eq!(backlinks[0].source, "a.md");
}

#[test]
fn test_table_driven_link_index() {
    struct Case {
        name: &'static str,
        setup: fn(&mut LinkIndex),
        check: fn(&mut LinkIndex, &mut Vec<String>),
    }

    let cases: Vec<Case> = vec![
        Case {
            name: "no backlinks for unknown target",
            setup: |_| {},
            check: |idx, errors| {
                let bl = idx.backlinks("ghost.md");
                if bl.len() != 0 {
                    errors.push(format!("expected 0 backlinks, got {}", bl.len()));
                }
            },
        },
        Case {
            name: "multiple sources link to same target",
            setup: |idx| {
                idx.add("a.md", make_entry("a.md", "shared.md", "shared"));
                idx.add("b.md", make_entry("b.md", "shared.md", "shared"));
                idx.add("c.md", make_entry("c.md", "shared.md", "shared"));
            },
            check: |idx, errors| {
                let bl = idx.backlinks("shared.md");
                if bl.len() != 3 {
                    errors.push(format!("expected 3 backlinks, got {}", bl.len()));
                }
            },
        },
        Case {
            name: "circular link a->b->a",
            setup: |idx| {
                idx.add("a.md", make_entry("a.md", "b.md", "b"));
                idx.add("b.md", make_entry("b.md", "a.md", "a"));
            },
            check: |idx, errors| {
                let bl_a = idx.backlinks("a.md");
                let bl_b = idx.backlinks("b.md");
                if bl_a.len() != 1 {
                    errors.push(format!("expected 1 backlink to a, got {}", bl_a.len()));
                }
                if bl_b.len() != 1 {
                    errors.push(format!("expected 1 backlink to b, got {}", bl_b.len()));
                }
                if bl_a[0].source != "b.md" {
                    errors.push("a backlink source wrong".into());
                }
                if bl_b[0].source != "a.md" {
                    errors.push("b backlink source wrong".into());
                }
            },
        },
        Case {
            name: "outgoing is empty for file with no links",
            setup: |_| {},
            check: |idx, errors| {
                let og = idx.outgoing("orphan.md");
                if og.len() != 0 {
                    errors.push(format!("expected 0 outgoing, got {}", og.len()));
                }
            },
        },
        Case {
            name: "remove_file with no entries is a no-op",
            setup: |_| {},
            check: |idx, errors| {
                idx.remove_file("nonexistent.md");
                if idx.all_targets().len() != 0 {
                    errors.push("all_targets should be empty after no-op remove".into());
                }
            },
        },
        Case {
            name: "update replaces entries for a source",
            setup: |idx| {
                idx.add("a.md", make_entry("a.md", "old.md", "old"));
            },
            check: |idx, errors| {
                idx.remove_file("a.md");
                idx.add("a.md", make_entry("a.md", "new.md", "new"));
                let bl_old = idx.backlinks("old.md");
                let bl_new = idx.backlinks("new.md");
                if bl_old.len() != 0 {
                    errors.push("old backlink should be gone after update".into());
                }
                if bl_new.len() != 1 {
                    errors.push("new backlink should exist after update".into());
                }
            },
        },
    ];

    for (i, case) in cases.into_iter().enumerate() {
        let mut index = LinkIndex::new();
        (case.setup)(&mut index);
        let mut errors: Vec<String> = Vec::new();
        (case.check)(&mut index, &mut errors);
        assert!(errors.is_empty(), "case {} ({}): {}", i, case.name, errors.join("; "));
    }
}

#[test]
fn paths_compare_by_components() {
    let mut index = LinkIndex::new();
    index.add("a.md", make_entry("a.md", "dir//b.md", "B"));
    assert_eq!(index.backlinks("dir/b.md").len(), 1);
    assert_eq!(index.backlinks("dir/./b.md/").len(), 1);
    index.remove_file("./a.md");
    assert_eq!(index.outgoing("a.md").len(), 1);
    index.remove_file("a.md");
    assert!(index.backlinks("dir/b.md").is_empty());
}

#[test]
fn all_targets_in_component_order() {
    let mut index = LinkIndex::new();
    index.add("s.md", make_entry("s.md", "a-b", "x"));
    index.add("s.md", make_entry("s.md", "a/b", "y"));
    index.add("s.md", make_entry("s.md", "/z", "z"));
    assert_eq!(index.all_targets(), vec!["/z".to_string(), "a/b".to_string(), "a-b".to_string()]);
}

#[test]
fn update_target_retargets_source_copies() {
    let mut index = LinkIndex::new();
    index.add("a.md", make_entry("a.md", "old.md", "o"));
    index.add("a.md", make_entry("a.md", "keep.md", "k"));
    index.add("b.md", make_entry("b.md", "new.md", "n"));
    index.update_target("old.md", "new.md");
    let out: Vec<String> = index.outgoing("a.md").into_iter().map(|e| e.target).collect();
    assert_eq!(out, vec!["new.md".to_string(), "keep.md".to_string()]);
    let back: Vec<String> = index.backlinks("new.md").into_iter().map(|e| e.source).collect();
    assert_eq!(back, vec!["b.md".to_string(), "a.md".to_string()]);
    assert_eq!(index.iter().len(), 3);
}
