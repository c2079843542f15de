use simpler_notes::date::Date;
use simpler_notes::model::{ByteSpan, DateRef, LinkRef, Note, NoteMetadata, TagRef};

#[test]
fn test_byte_span_creation() {
    let span = ByteSpan { offset: 10, length: 5 };
    assert_eq!(span.offset, 10);
    assert_eq!(span.length, 5);
}

#[test]
fn test_link_ref() {
    let link = LinkRef {
        file_name: "NoteName".to_string(),
        label: "Display Label".to_string(),
        span: ByteSpan { offset: 0, length: 20 },
    };
    assert_eq!(link.file_name, "NoteName");
    assert_eq!(link.label, "Display Label");
}

#[test]
fn test_tag_ref() {
    let tag = TagRef {
        name: "project".to_string(),
        span: ByteSpan { offset: 5, length: 8 },
    };
    assert_eq!(tag.name, "project");
}

#[test]
fn test_date_ref() {
    let date = DateRef {
        date: Date { year: 2003, month: 7, day: 21 },
        raw: "!21.07.2003".to_string(),
        span: ByteSpan { offset: 10, length: 12 },
    };
    assert_eq!(date.date, Date { year: 2003, month: 7, day: 21 });
    assert_eq!(date.raw, "!21.07.2003");
}

#[test]
fn test_note() {
    let note = Note {
        path: "test.md".to_string(),
        metadata: NoteMetadata {
            links: vec![],
            tags: vec![],
            dates: vec![],
        },
    };
    assert_eq!(note.path, "test.md");
    assert!(note.metadata.links.is_empty());
}
