use simpler_notes::date::Date;
use simpler_notes::index::ConcurrentIndex;
use simpler_notes::links::LinkEntry;
use simpler_notes::model::ByteSpan;
use simpler_notes::search::{parse_rg_line, parse_rg_output, QueryExpr, SearchEngine};

fn span() -> ByteSpan {
    ByteSpan { offset: 0, length: 1 }
}

fn no_hits() -> Vec<(String, Vec<String>)> {
    vec![]
}

#[test]
fn test_parse_tag_query() {
    let expr = SearchEngine::parse_query("tag:project");
    assert_eq!(expr, QueryExpr::Tag("project".to_string()));
}

#[test]
fn test_parse_text_query() {
    let expr = SearchEngine::parse_query("hello");
    assert_eq!(expr, QueryExpr::Text("hello".to_string()));
}

#[test]
fn test_parse_and_query() {
    let expr = SearchEngine::parse_query("tag:project hello");
    let expected = QueryExpr::And(
        Box::new(QueryExpr::Tag("project".to_string())),
        Box::new(QueryExpr::Text("hello".to_string())),
    );
    assert_eq!(expr, expected);
}

#[test]
fn test_parse_link_query() {
    let expr = SearchEngine::parse_query("link:OtherNote");
    assert_eq!(expr, QueryExpr::Link("OtherNote".to_string()));
}

#[test]
fn test_parse_date_query() {
    let expr = SearchEngine::parse_query("date:2024-01");
    assert_eq!(expr, QueryExpr::Date("2024-01".to_string()));
}

#[test]
fn test_execute_tag_query_empty() {
    let index = ConcurrentIndex::new();
    let engine = SearchEngine::new(index);
    let results = engine.execute_query(&QueryExpr::Tag("nonexistent".to_string()), "/tmp/vault", &no_hits());
    assert!(results.is_empty());
}

#[test]
fn parse_query_edge_cases() {
    assert_eq!(SearchEngine::parse_query("   "), QueryExpr::Text(String::new()));
    assert_eq!(SearchEngine::parse_query("before:2024"), QueryExpr::Before("2024".to_string()));
    assert_eq!(SearchEngine::parse_query("after:2023"), QueryExpr::After("2023".to_string()));
    assert_eq!(SearchEngine::parse_query("content:x"), QueryExpr::Content("x".to_string()));
    let three = SearchEngine::parse_query("  a  b c ");
    let expected = QueryExpr::And(
        Box::new(QueryExpr::And(
            Box::new(QueryExpr::Text("a".to_string())),
            Box::new(QueryExpr::Text("b".to_string())),
        )),
        Box::new(QueryExpr::Text("c".to_string())),
    );
    assert_eq!(three, expected);
}

#[test]
fn rg_line_reads_fields() {
    let r = parse_rg_line("notes/a.md:12:5:some: text").unwrap();
    assert_eq!(r.path, "notes/a.md");
    assert_eq!(r.line, 12);
    assert_eq!(r.column, 5);
    assert_eq!(r.line_content, "some: text");
    assert!(parse_rg_line("a.md:12").is_none());
    assert!(parse_rg_line("a.md:x:5:t").is_none());
    assert!(parse_rg_line("a.md:99999999999:5:t").is_none());
}

#[test]
fn rg_output_reads_lines() {
    let out = "a.md:1:2:one\r\nnot a hit\nb.md:3:4:two\n";
    let hits = parse_rg_output(out);
    assert_eq!(hits.len(), 2);
    assert_eq!(hits[0].path, "a.md");
    assert_eq!(hits[0].line_content, "one");
    assert_eq!(hits[1].path, "b.md");
    assert_eq!(hits[1].line, 3);
    assert!(parse_rg_output("").is_empty());
}

fn sample_engine() -> SearchEngine {
    let mut index = ConcurrentIndex::new();
    index.tags.add("/v/b.md", "project", span());
    index.tags.add("/v/a.md", "project", span());
    index.tags.add("/v/c.md", "idea", span());
    index.dates.add("/v/a.md", Date { year: 2024, month: 1, day: 15 }, span());
    index.dates.add("/v/c.md", Date { year: 2023, month: 12, day: 1 }, span());
    index.dates.add("/v/b.md", Date { year: 2024, month: 2, day: 3 }, span());
    index.links.add(
        "/v/c.md",
        LinkEntry {
            source: "/v/c.md".to_string(),
            target: "/v/OtherNote.md".to_string(),
            label: "OtherNote".to_string(),
            span: span(),
        },
    );
    SearchEngine::new(index)
}

#[test]
fn execute_tag_link_and_date_queries() {
    let engine = sample_engine();
    let tags = engine.execute_query(&QueryExpr::Tag("project".to_string()), "/v", &no_hits());
    assert_eq!(tags, vec!["/v/b.md".to_string(), "/v/a.md".to_string()]);
    let links = engine.execute_query(&QueryExpr::Link("OtherNote".to_string()), "/v", &no_hits());
    assert_eq!(links, vec!["/v/c.md".to_string()]);
    let dates = engine.execute_query(&QueryExpr::Date("2024".to_string()), "/v", &no_hits());
    assert_eq!(dates, vec!["/v/a.md".to_string(), "/v/b.md".to_string()]);
    let all_dates = engine.execute_query(&QueryExpr::Date("-".to_string()), "/v", &no_hits());
    assert_eq!(all_dates, vec!["/v/c.md".to_string(), "/v/a.md".to_string(), "/v/b.md".to_string()]);
    let before = engine.execute_query(&QueryExpr::Before("2024".to_string()), "/v", &no_hits());
    assert!(before.is_empty());
}

#[test]
fn execute_combined_queries() {
    let engine = sample_engine();
    let and = engine.execute_query(&SearchEngine::parse_query("tag:project date:2024-01"), "/v", &no_hits());
    assert_eq!(and, vec!["/v/a.md".to_string()]);
    let or = QueryExpr::Or(
        Box::new(QueryExpr::Tag("idea".to_string())),
        Box::new(QueryExpr::Tag("project".to_string())),
    );
    let or_result = engine.execute_query(&or, "/v", &no_hits());
    assert_eq!(or_result, vec!["/v/a.md".to_string(), "/v/b.md".to_string(), "/v/c.md".to_string()]);
    let not = QueryExpr::Not(Box::new(QueryExpr::Tag("idea".to_string())));
    let not_result = engine.execute_query(&not, "/v", &no_hits());
    assert_eq!(not_result, vec!["/v/a.md".to_string(), "/v/b.md".to_string()]);
}

#[test]
fn execute_text_query_uses_hits_of_lowercased_word() {
    let engine = sample_engine();
    let hits = vec![("hello".to_string(), vec!["/v/a.md".to_string(), "/v/x.md".to_string()])];
    let expr = SearchEngine::parse_query("HeLLo");
    assert_eq!(SearchEngine::text_words(&expr), vec!["hello".to_string()]);
    let r = engine.execute_query(&expr, "/v", &hits);
    assert_eq!(r, vec!["/v/a.md".to_string(), "/v/x.md".to_string()]);
    let missing = engine.execute_query(&SearchEngine::parse_query("other"), "/v", &hits);
    assert!(missing.is_empty());
}
