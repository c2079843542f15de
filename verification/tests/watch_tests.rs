use simpler_notes::buffer::Buffer;
use simpler_notes::index::ConcurrentIndex;
use simpler_notes::watch::{forget_file, plan_event, refresh_file, ChangeKind, VaultEvent};

#[test]
fn only_notes_make_changes() {
    let paths = vec!["/v/a.md".to_string(), "/v/b.txt".to_string(), "/v/c.md".to_string()];
    let created = plan_event(ChangeKind::Create, &paths);
    assert_eq!(created.len(), 2);
    assert!(matches!(&created[0], VaultEvent::FileCreated(p) if p == "/v/a.md"));
    assert!(matches!(&created[1], VaultEvent::FileCreated(p) if p == "/v/c.md"));
    assert!(matches!(&plan_event(ChangeKind::Modify, &paths)[0], VaultEvent::FileModified(_)));
    assert!(matches!(&plan_event(ChangeKind::Remove, &paths)[1], VaultEvent::FileDeleted(p) if p == "/v/c.md"));
    assert!(plan_event(ChangeKind::Other, &paths).is_empty());
}

#[test]
fn written_note_is_indexed_and_buffer_follows() {
    let mut index = ConcurrentIndex::new();
    let mut buffer = Buffer::new();
    buffer.open("/v/a.md", "old".to_string());
    refresh_file(&mut index, &mut buffer, "/v", "/v/a.md", "@tag !15.01.2024 [[b]]".to_string());
    assert_eq!(index.tags.get("tag").len(), 1);
    assert_eq!(index.dates.all_dates().len(), 1);
    assert_eq!(buffer.get("/v/a.md").unwrap().content, "@tag !15.01.2024 [[b]]");
    assert!(buffer.is_dirty("/v/a.md"));
    refresh_file(&mut index, &mut buffer, "/v", "/v/other.md", "text".to_string());
    assert!(buffer.get("/v/other.md").is_none());
}

#[test]
fn removed_note_is_forgotten() {
    let mut index = ConcurrentIndex::new();
    let mut buffer = Buffer::new();
    refresh_file(&mut index, &mut buffer, "/v", "/v/a.md", "@tag [[b]]".to_string());
    buffer.open("/v/a.md", "x".to_string());
    forget_file(&mut index, &mut buffer, "/v/a.md");
    assert!(index.tags.get("tag").is_empty());
    assert!(index.links.outgoing("/v/a.md").is_empty());
    assert!(index.diagnostics.get("/v/a.md").is_empty());
    assert!(buffer.get("/v/a.md").is_none());
}
