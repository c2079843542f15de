use simpler_notes::date::Date;
use simpler_notes::index::ConcurrentIndex;
use simpler_notes::links::LinkEntry;
use simpler_notes::model::ByteSpan;
use simpler_notes::names::FilenameIndex;
use simpler_notes::persist::{check_index_version, INDEX_VERSION};

#[test]
fn test_save_and_load() {
    let mut index = ConcurrentIndex::new();
    let path = "test.md";
    index.tags.add(path, "project", ByteSpan { offset: 0, length: 8 });
    index.dates.add(path, Date { year: 2024, month: 1, day: 15 }, ByteSpan { offset: 0, length: 12 });
    let loaded = ConcurrentIndex::restore(&index.tags.iter(), &index.dates.all_dates(), &index.links.target_rows());
    assert!(!loaded.tags.all_tags().is_empty());
    assert!(!loaded.dates.all_dates().is_empty());
}

#[test]
fn restore_keeps_every_span_and_link() {
    let mut index = ConcurrentIndex::new();
    index.tags.add("a.md", "t", ByteSpan { offset: 0, length: 2 });
    index.tags.add("a.md", "t", ByteSpan { offset: 5, length: 2 });
    index.links.add(
        "a.md",
        LinkEntry { source: "a.md".to_string(), target: "b.md".to_string(), label: "b".to_string(), span: ByteSpan { offset: 1, length: 5 } },
    );
    let loaded = ConcurrentIndex::restore(&index.tags.iter(), &index.dates.all_dates(), &index.links.target_rows());
    let t = loaded.tags.get("t");
    assert_eq!(t.len(), 1);
    assert_eq!(t[0].spans.len(), 2);
    assert_eq!(loaded.links.backlinks("b.md").len(), 1);
    assert_eq!(loaded.links.outgoing("a.md").len(), 1);
    assert!(loaded.diagnostics.all().is_empty());
}

#[test]
fn index_version_checked() {
    assert!(check_index_version(INDEX_VERSION).is_ok());
    assert_eq!(check_index_version(7).err().unwrap(), "Unsupported index version: 7");
}

#[test]
fn restoring_a_listing_gives_the_same_index() {
    let mut index = ConcurrentIndex::new();
    let names = FilenameIndex::new();
    index.reindex_file("a.md", "@x @y !01.02.2024 [[b]] @x", ".", &names);
    index.reindex_file("b.md", "@y [[a]] [[c]] !01.02.2024", ".", &names);
    index.reindex_file("c.md", "@z", ".", &names);
    let loaded = ConcurrentIndex::restore(&index.tags.iter(), &index.dates.all_dates(), &index.links.target_rows());
    for tag in ["x", "y", "z"] {
        let before = index.tags.get(tag);
        let after = loaded.tags.get(tag);
        assert_eq!(before.len(), after.len());
        for (p, q) in before.iter().zip(after.iter()) {
            assert_eq!(p.path, q.path);
            assert_eq!(p.spans, q.spans);
        }
    }
    let d = Date { year: 2024, month: 2, day: 1 };
    let before = index.dates.get(d);
    let after = loaded.dates.get(d);
    assert_eq!(before.len(), after.len());
    for (p, q) in before.iter().zip(after.iter()) {
        assert_eq!(p.path, q.path);
        assert_eq!(p.spans, q.spans);
    }
    for note in ["a.md", "b.md", "c.md"] {
        assert_eq!(index.links.backlinks(note).len(), loaded.links.backlinks(note).len());
        let mut out_before: Vec<(String, usize)> =
            index.links.outgoing(note).into_iter().map(|e| (e.target, e.span.offset)).collect();
        let mut out_after: Vec<(String, usize)> =
            loaded.links.outgoing(note).into_iter().map(|e| (e.target, e.span.offset)).collect();
        out_before.sort();
        out_after.sort();
        assert_eq!(out_before, out_after);
    }
}
