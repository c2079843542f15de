use simpler_notes::buffer::{Buffer, BufferEntry};

#[test]
fn test_open_and_get() {
    let mut buf = Buffer::new();
    buf.open("test.md", "hello".to_string());
    let entry = buf.get("test.md").unwrap();
    assert!(!entry.dirty);
    assert_eq!(entry.content, "hello");
}

#[test]
fn test_update_marks_dirty() {
    let mut buf = Buffer::new();
    buf.open("test.md", "hello".to_string());
    buf.update("test.md", "world".to_string());
    assert!(buf.is_dirty("test.md"));
}

#[test]
fn test_save_clears_dirty() {
    let mut buf = Buffer::new();
    buf.open("test.md", "hello".to_string());
    buf.update("test.md", "world".to_string());
    buf.save("test.md");
    assert!(!buf.is_dirty("test.md"));
}

#[test]
fn test_close() {
    let mut buf = Buffer::new();
    buf.open("test.md", "hello".to_string());
    buf.close("test.md");
    assert!(buf.is_empty());
}

#[test]
fn test_dirty_files() {
    let mut buf = Buffer::new();
    buf.open("a.md", "a".to_string());
    buf.open("b.md", "b".to_string());
    buf.update("a.md", "a2".to_string());
    let dirty = buf.dirty_files();
    assert_eq!(dirty.len(), 1);
    assert_eq!(dirty[0], "a.md");
}

#[test]
fn test_open_files() {
    let mut buf = Buffer::new();
    buf.open("a.md", "a".to_string());
    buf.open("b.md", "b".to_string());
    assert_eq!(buf.open_files().len(), 2);
}

#[test]
fn test_update_creates_if_not_open() {
    let mut buf = Buffer::new();
    buf.update("new.md", "fresh".to_string());
    assert_eq!(buf.len(), 1);
    assert!(buf.is_dirty("new.md"));
}

#[test]
fn test_get_nonexistent() {
    let buf = Buffer::new();
    assert!(buf.get("nope.md").is_none());
}

#[test]
fn test_save_returns_content() {
    let mut buf = Buffer::new();
    buf.open("test.md", "hello".to_string());
    buf.update("test.md", "world".to_string());
    let saved = buf.save("test.md");
    assert_eq!(saved, Some("world".to_string()));
}

#[test]
fn test_save_nonexistent() {
    let mut buf = Buffer::new();
    assert!(buf.save("nope.md").is_none());
}

#[test]
fn test_get_mut() {
    let mut buf = Buffer::new();
    buf.open("test.md", "hello".to_string());
    let entry = buf.get_mut("test.md").unwrap();
    entry.set_content("world".to_string());
    assert!(entry.dirty);
    assert_eq!(entry.content, "world");
}

#[test]
fn test_clear_buffer() {
    let mut buf = Buffer::new();
    buf.open("a.md", "a".to_string());
    buf.open("b.md", "b".to_string());
    assert!(!buf.is_empty());
    buf.clear();
    assert!(buf.is_empty());
    assert_eq!(buf.len(), 0);
}

#[test]
fn reopening_replaces_entry_and_keeps_one() {
    let mut buf = Buffer::new();
    buf.open("a.md", "one".to_string());
    buf.update("a.md", "two".to_string());
    buf.open("a.md", "three".to_string());
    assert_eq!(buf.len(), 1);
    let e = buf.get("a.md").unwrap();
    assert_eq!(e.content, "three");
    assert_eq!(e.saved_content, "three");
    assert!(!e.dirty);
}

#[test]
fn update_back_to_saved_text_is_clean() {
    let mut buf = Buffer::new();
    buf.open("a.md", "same".to_string());
    buf.update("a.md", "other".to_string());
    buf.update("a.md", "same".to_string());
    assert!(!buf.is_dirty("a.md"));
}

#[test]
fn entry_mark_saved_and_new() {
    let mut e = BufferEntry::new("x".to_string());
    assert!(!e.dirty);
    e.set_content("y".to_string());
    assert!(e.dirty);
    e.mark_saved();
    assert!(!e.dirty);
    assert_eq!(e.saved_content, "y");
}

#[test]
fn closing_unknown_path_changes_nothing() {
    let mut buf = Buffer::new();
    buf.open("a.md", "a".to_string());
    buf.close("b.md");
    assert_eq!(buf.len(), 1);
    assert!(!buf.is_dirty("b.md"));
}

#[test]
fn paths_that_compare_equal_share_one_entry() {
    let mut buf = Buffer::new();
    buf.open("notes/a.md", "one".to_string());
    buf.update("notes//./a.md", "two".to_string());
    assert_eq!(buf.len(), 1);
    assert_eq!(buf.get("notes/a.md").unwrap().content, "two");
    assert!(buf.is_dirty("notes/a.md"));
    buf.close("notes/a.md/");
    assert!(buf.is_empty());
}

#[test]
fn counts_follow_open_update_close() {
    let mut buf = Buffer::new();
    buf.open("a.md", "x".to_string());
    buf.open("a.md", "y".to_string());
    assert_eq!(buf.len(), 1);
    buf.update("b.md", String::new());
    assert_eq!(buf.len(), 2);
    assert!(buf.is_dirty("b.md"));
    buf.close("c.md");
    assert_eq!(buf.len(), 2);
    buf.close("a.md");
    assert_eq!(buf.len(), 1);
}
