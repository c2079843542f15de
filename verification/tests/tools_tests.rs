use simpler_notes::date::Date;
use simpler_notes::index::ConcurrentIndex;
use simpler_notes::json::Json;
use simpler_notes::links::LinkEntry;
use simpler_notes::model::ByteSpan;
use simpler_notes::names::FilenameIndex;
use simpler_notes::tools::{get_backlinks, get_dates, get_diagnostics, get_outgoing_links, get_tags, resolve_link};

fn span() -> ByteSpan {
    ByteSpan { offset: 0, length: 1 }
}

fn obj(members: Vec<(&str, Json)>) -> Json {
    Json::Object(members.into_iter().map(|(k, v)| (k.to_string(), v)).collect())
}

fn text(t: &str) -> Json {
    Json::Str(t.to_string())
}

fn str_of(j: Option<&Json>) -> Option<String> {
    j.and_then(|v| v.as_str()).map(|s| s.clone())
}

fn items(j: &Json) -> &Vec<Json> {
    match j {
        Json::Array(v) => v,
        _ => panic!("no array"),
    }
}

fn sample() -> ConcurrentIndex {
    let mut index = ConcurrentIndex::new();
    index.tags.add("/v/a.md", "tag1", span());
    index.tags.add("/v/b.md", "tag1", span());
    index.dates.add("/v/a.md", Date { year: 2024, month: 1, day: 1 }, span());
    index.dates.add("/v/b.md", Date { year: 2024, month: 6, day: 15 }, span());
    index.links.add(
        "/v/a.md",
        LinkEntry { source: "/v/a.md".to_string(), target: "gamma".to_string(), label: "gamma".to_string(), span: span() },
    );
    index
}

#[test]
fn tags_with_counts() {
    let r = get_tags(&sample(), None).unwrap();
    let v = items(&r);
    assert_eq!(v.len(), 1);
    assert_eq!(str_of(v[0].get("tag")), Some("tag1".to_string()));
    assert!(matches!(v[0].get("count"), Some(Json::Number(n)) if n == "2"));
}

#[test]
fn dates_all_and_in_range() {
    let index = sample();
    let all = get_dates(&index, None).unwrap();
    assert_eq!(items(&all).len(), 2);
    let range = obj(vec![("from", text("01.01.2024")), ("to", text("01.02.2024"))]);
    let some = get_dates(&index, Some(range)).unwrap();
    let v = items(&some);
    assert_eq!(v.len(), 1);
    assert_eq!(str_of(v[0].get("date")), Some("2024-01-01".to_string()));
    assert_eq!(str_of(items(v[0].get("notes").unwrap()).get(0)), Some("/v/a.md".to_string()));
    let only_from = get_dates(&index, Some(obj(vec![("from", text("01.01.2024"))]))).unwrap();
    assert_eq!(items(&only_from).len(), 2);
}

#[test]
fn dates_reject_bad_range() {
    let index = sample();
    let bad_from = get_dates(&index, Some(obj(vec![("from", text("invalid")), ("to", text("01.01.2024"))])));
    let (code, msg) = bad_from.err().unwrap();
    assert_eq!(code, -32602);
    assert!(msg.starts_with("Invalid date format for 'from'"));
    let bad_to = get_dates(&index, Some(obj(vec![("from", text("01.01.2024")), ("to", text("bad"))])));
    assert!(bad_to.err().unwrap().1.starts_with("Invalid date format for 'to'"));
}

#[test]
fn backlinks_and_outgoing() {
    let index = sample();
    let back = get_backlinks(&index, Some(obj(vec![("path", text("notes/gamma.md"))]))).unwrap();
    let v = items(&back);
    assert_eq!(v.len(), 1);
    assert_eq!(str_of(v[0].get("source")), Some("/v/a.md".to_string()));
    let out = get_outgoing_links(&index, "/v", Some(obj(vec![("path", text("a.md"))]))).unwrap();
    assert_eq!(str_of(items(&out)[0].get("target")), Some("gamma".to_string()));
    assert_eq!(get_backlinks(&index, None).err().unwrap(), (-32602, "Missing parameters".to_string()));
    assert_eq!(
        get_outgoing_links(&index, "/v", Some(obj(vec![]))).err().unwrap(),
        (-32602, "Missing required parameter: path".to_string())
    );
}

#[test]
fn diagnostics_by_note_and_all() {
    let mut index = ConcurrentIndex::new();
    index.diagnostics.check_file("a.md", "[[nowhere]]", "/v", &FilenameIndex::new());
    let one = get_diagnostics(&index, Some(obj(vec![("path", text("a.md"))]))).unwrap();
    let ds = items(one.get("diagnostics").unwrap());
    assert_eq!(ds.len(), 1);
    assert_eq!(str_of(ds[0].get("severity")), Some("Warning".to_string()));
    assert!(str_of(ds[0].get("message")).unwrap().starts_with("Broken link"));
    let all = get_diagnostics(&index, None).unwrap();
    let files = items(all.get("files").unwrap());
    assert_eq!(files.len(), 1);
    assert_eq!(str_of(files[0].get("path")), Some("a.md".to_string()));
}

fn e2e_vault() -> ConcurrentIndex {
    let notes = [
        ("alpha", "[[beta]] [[gamma]] @tag1\n\n!01.01.2024"),
        ("beta", "A beta note.\n\n[[gamma|Gamma Link]]\n\n@tag2"),
        ("gamma", "Gamma note.\n\n[[delta]]"),
    ];
    let mut names = FilenameIndex::new();
    for (stem, _) in notes.iter() {
        names.add(stem.to_string(), format!("/v/notes/{}.md", stem));
    }
    let mut index = ConcurrentIndex::new();
    for (stem, content) in notes.iter() {
        index.reindex_file(&format!("/v/notes/{}.md", stem), content, "/v", &names);
    }
    index
}

fn date_texts(r: &Json) -> Vec<String> {
    items(r).iter().filter_map(|v| str_of(v.get("date"))).collect()
}

#[test]
fn test_get_backlinks() {
    let index = e2e_vault();
    let r = get_backlinks(&index, Some(obj(vec![("path", text("notes/gamma.md"))]))).unwrap();
    let sources: Vec<String> = items(&r).iter().map(|v| str_of(v.get("source")).unwrap()).collect();
    for source in sources {
        let rel_source = source.rsplit('/').next().unwrap_or(&source).to_string();
        let name = rel_source.trim_end_matches(".md");
        assert!(["alpha", "beta"].contains(&name), "unexpected source: {}", source);
    }
}

#[test]
fn test_get_dates_with_range() {
    let index = e2e_vault();
    let r = get_dates(&index, Some(obj(vec![("from", text("01.01.2024")), ("to", text("01.02.2024"))]))).unwrap();
    assert!(date_texts(&r).contains(&"2024-01-01".to_string()));
}

#[test]
fn test_get_dates_invalid_from_format() {
    let index = e2e_vault();
    let r = get_dates(&index, Some(obj(vec![("from", text("invalid")), ("to", text("01.01.2024"))])));
    assert!(r.err().unwrap().1.contains("Invalid date format for 'from'"));
}

#[test]
fn test_get_dates_invalid_to_format() {
    let index = e2e_vault();
    let r = get_dates(&index, Some(obj(vec![("from", text("01.01.2024")), ("to", text("bad"))])));
    assert!(r.err().unwrap().1.contains("Invalid date format for 'to'"));
}

#[test]
fn test_get_dates_from_only_returns_all() {
    let index = e2e_vault();
    let r = get_dates(&index, Some(obj(vec![("from", text("01.01.2024"))]))).unwrap();
    assert_eq!(date_texts(&r), vec!["2024-01-01".to_string()]);
}

#[test]
fn test_get_diagnostics_with_path() {
    let index = e2e_vault();
    let r = get_diagnostics(&index, Some(obj(vec![("path", text("notes/alpha.md"))]))).unwrap();
    assert!(matches!(r.get("diagnostics"), Some(Json::Array(_))));
    let broken = get_diagnostics(&index, Some(obj(vec![("path", text("/v/notes/gamma.md"))]))).unwrap();
    let ds = items(broken.get("diagnostics").unwrap());
    assert_eq!(ds.len(), 1);
    assert!(str_of(ds[0].get("message")).unwrap().starts_with("Broken link: delta"));
}

fn e2e_names() -> FilenameIndex {
    let mut names = FilenameIndex::new();
    for stem in ["alpha", "beta", "gamma"] {
        names.add(stem.to_string(), format!("/v/notes/{}.md", stem));
    }
    names
}

#[test]
fn test_resolve_link_finds_beta() {
    let r = resolve_link(&e2e_names(), Some(obj(vec![("target", text("beta"))]))).unwrap();
    let path = str_of(r.get("path"));
    assert!(path.is_some(), "expected path in result");
    assert!(path.unwrap().contains("beta.md"));
}

#[test]
fn test_resolve_link_broken_returns_error() {
    let r = resolve_link(&e2e_names(), Some(obj(vec![("target", text("ghost"))])));
    let (code, message) = r.err().unwrap();
    assert_eq!(code, -32000);
    assert!(message.contains("Broken link"));
}

#[test]
fn test_resolve_link_ambiguous_returns_error() {
    let mut names = FilenameIndex::new();
    names.add("duplicate".to_string(), "/v/notes/duplicate.md".to_string());
    names.add("duplicate".to_string(), "/v/notes/sub/duplicate.md".to_string());
    let r = resolve_link(&names, Some(obj(vec![("target", text("duplicate"))])));
    let message = r.err().unwrap().1;
    assert!(message.contains("Ambiguous link"));
    assert_eq!(
        message,
        "Ambiguous link: duplicate — multiple files: /v/notes/duplicate.md, /v/notes/sub/duplicate.md"
    );
}

#[test]
fn resolve_link_needs_a_target() {
    assert_eq!(resolve_link(&e2e_names(), None).err().unwrap(), (-32602, "Missing parameters".to_string()));
    assert_eq!(
        resolve_link(&e2e_names(), Some(obj(vec![]))).err().unwrap(),
        (-32602, "Missing required parameter: target".to_string())
    );
}
