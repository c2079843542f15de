use simpler_notes::preview::{split_special_tokens, split_at_tokens, Segment};

fn raw(s: &str) -> Segment {
    Segment::RawText(s.to_string())
}

#[test]
fn tokens_split_text_tag_and_date() {
    let parts = split_special_tokens("see #tag on 2024-01-15 ok");
    assert_eq!(
        parts,
        vec![
            raw("see "),
            Segment::Tag("#tag".to_string()),
            raw(" on "),
            Segment::Date("2024-01-15".to_string()),
            raw(" ok"),
        ]
    );
}

#[test]
fn tag_holding_a_date_gives_both() {
    let parts = split_special_tokens("#2024-01-01");
    assert_eq!(
        parts,
        vec![Segment::Tag("#2024-01-01".to_string()), Segment::Date("2024-01-01".to_string())]
    );
}

#[test]
fn empty_text_is_one_plain_piece() {
    assert_eq!(split_special_tokens(""), vec![raw("")]);
}

#[test]
fn text_without_tokens_is_kept_whole() {
    assert_eq!(split_special_tokens("just words"), vec![raw("just words")]);
}

#[test]
fn hyphenated_tag_at_the_end() {
    assert_eq!(
        split_special_tokens("todo #my-tag"),
        vec![raw("todo "), Segment::Tag("#my-tag".to_string())]
    );
}

#[test]
fn split_at_given_spans_orders_tags_first() {
    let tags = vec![(0usize, 2usize)];
    let dates = vec![(0usize, 2usize), (3usize, 4usize)];
    let parts = split_at_tokens("ab cd", &tags, &dates);
    assert_eq!(
        parts,
        vec![
            Segment::Tag("ab".to_string()),
            Segment::Date("ab".to_string()),
            raw(" "),
            Segment::Date("c".to_string()),
            raw("d"),
        ]
    );
}

fn piece_text(p: &Segment) -> &str {
    match p {
        Segment::RawText(t) | Segment::Tag(t) | Segment::Date(t) => t.as_str(),
    }
}

#[test]
fn pieces_rejoin_to_the_text() {
    let s = "a #tag, then 2024-01-15 and ünïcode #x-y";
    let joined: String = split_special_tokens(s).iter().map(piece_text).collect();
    assert_eq!(joined, s);
}
