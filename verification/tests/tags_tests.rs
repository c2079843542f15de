use simpler_notes::model::ByteSpan;
use simpler_notes::tags::TagIndex;

#[test]
fn test_add_and_get() {
    let mut index = TagIndex::new();
    index.add("note.md", "project", ByteSpan { offset: 0, length: 8 });
    let entries = index.get("project");
    assert_eq!(entries.len(), 1);
    assert_eq!(entries[0].path, "note.md");
}

#[test]
fn test_add_multiple_spans() {
    let mut index = TagIndex::new();
    index.add("note.md", "project", ByteSpan { offset: 0, length: 8 });
    index.add("note.md", "project", ByteSpan { offset: 100, length: 8 });
    let entries = index.get("project");
    assert_eq!(entries.len(), 1);
    assert_eq!(entries[0].spans.len(), 2);
}

#[test]
fn test_remove() {
    let mut index = TagIndex::new();
    index.add("note.md", "project", ByteSpan { offset: 0, length: 8 });
    index.remove("note.md", "project");
    assert!(index.get("project").is_empty());
}

#[test]
fn test_remove_partial() {
    let mut index = TagIndex::new();
    index.add("a.md", "tag", ByteSpan { offset: 0, length: 4 });
    index.add("b.md", "tag", ByteSpan { offset: 0, length: 4 });
    index.remove("a.md", "tag");
    assert_eq!(index.get("tag").len(), 1);
    assert_eq!(index.get("tag")[0].path, "b.md");
}

#[test]
fn test_all_tags() {
    let mut index = TagIndex::new();
    index.add("note.md", "project", ByteSpan { offset: 0, length: 8 });
    index.add("note.md", "todo", ByteSpan { offset: 10, length: 5 });
    let mut tags = index.all_tags();
    tags.sort();
    assert_eq!(tags, vec!["project", "todo"]);
}

#[test]
fn test_autocomplete() {
    let mut index = TagIndex::new();
    index.add("note.md", "project", ByteSpan { offset: 0, length: 8 });
    index.add("note.md", "project-management", ByteSpan { offset: 0, length: 18 });
    index.add("note.md", "todo", ByteSpan { offset: 0, length: 5 });
    let results = index.autocomplete("pro");
    assert_eq!(results.len(), 2);
    assert!(results.iter().all(|c| c.name.starts_with("pro")));
}

#[test]
fn test_fuzzy_search() {
    let mut index = TagIndex::new();
    index.add("note.md", "project-alpha", ByteSpan { offset: 0, length: 14 });
    index.add("note.md", "todo", ByteSpan { offset: 0, length: 5 });
    let results = index.fuzzy_search("alpha", 10);
    assert_eq!(results.len(), 1);
    assert_eq!(results[0].name, "project-alpha");
}

#[test]
fn tag_index_test_clear() {
    let mut index = TagIndex::new();
    index.add("note.md", "tag", ByteSpan { offset: 0, length: 4 });
    index.clear();
    assert!(index.all_tags().is_empty());
}

#[test]
fn tag_index_test_remove_file() {
    let mut index = TagIndex::new();
    index.add("note.md", "project", ByteSpan { offset: 0, length: 8 });
    index.add("note.md", "todo", ByteSpan { offset: 10, length: 5 });
    index.add("other.md", "project", ByteSpan { offset: 0, length: 8 });
    index.remove_file("note.md");
    assert!(index.get("todo").is_empty());
    assert_eq!(index.get("project").len(), 1);
}

#[test]
fn test_iter() {
    let mut index = TagIndex::new();
    index.add("note.md", "tag", ByteSpan { offset: 0, length: 4 });
    let count: usize = index.iter().len();
    assert_eq!(count, 1);
}

#[test]
fn autocomplete_orders_by_count_then_name() {
    let mut index = TagIndex::new();
    let s = ByteSpan { offset: 0, length: 1 };
    index.add("a.md", "Proj", s);
    index.add("a.md", "prize", s);
    index.add("b.md", "prize", s);
    index.add("a.md", "pro", s);
    index.add("a.md", "other", s);
    let names: Vec<(String, usize)> = index.autocomplete("PR").into_iter().map(|c| (c.name, c.count)).collect();
    assert_eq!(names, vec![("prize".to_string(), 2), ("Proj".to_string(), 1), ("pro".to_string(), 1)]);
}

#[test]
fn fuzzy_search_puts_exact_first_and_truncates() {
    let mut index = TagIndex::new();
    let s = ByteSpan { offset: 0, length: 1 };
    index.add("a.md", "work", s);
    index.add("a.md", "homework", s);
    index.add("b.md", "homework", s);
    index.add("a.md", "wor", s);
    index.add("a.md", "unrelated", s);
    let all: Vec<String> = index.fuzzy_search("Work", 10).into_iter().map(|c| c.name).collect();
    assert_eq!(all, vec!["work".to_string(), "homework".to_string(), "wor".to_string()]);
    let two: Vec<String> = index.fuzzy_search("work", 2).into_iter().map(|c| c.name).collect();
    assert_eq!(two, vec!["work".to_string(), "homework".to_string()]);
    assert!(index.fuzzy_search("work", 0).is_empty());
}
