use simpler_notes::wikilinks::{preprocess_wikilinks, process_wikilinks};

#[test]
fn note_addresses_are_encoded() {
    assert_eq!(process_wikilinks("see [[My Note]] now"), "see [My Note](note://My%20Note) now");
    assert_eq!(process_wikilinks("[[a-b_c.d~e]]"), "[a-b_c.d~e](note://a-b_c.d~e)");
    assert_eq!(process_wikilinks("[[ü]]"), "[ü](note://%C3%BC)");
}

#[test]
fn markdown_file_links() {
    assert_eq!(preprocess_wikilinks("[[alpha]] and [[beta]]"), "[alpha](alpha.md) and [beta](beta.md)");
}

#[test]
fn text_that_is_no_link_stays() {
    assert_eq!(preprocess_wikilinks("[[]] [x] [[open"), "[[]] [x] [[open");
    assert_eq!(preprocess_wikilinks("[[[a]]"), "[[a]([a.md)");
    assert_eq!(preprocess_wikilinks("[[a]b]]"), "[[a]b]]");
    assert_eq!(preprocess_wikilinks(""), "");
}

#[test]
fn text_without_double_brackets_is_unchanged() {
    let s = "no links [here] (x) ] [ ü";
    assert_eq!(preprocess_wikilinks(s), s);
    assert_eq!(process_wikilinks(s), s);
}
