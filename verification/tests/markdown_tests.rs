use simpler_notes::markdown::{convert_ast, preview_nodes, trim_md_suffix, MdAst, MdNode, MdValue};

fn node(value: MdValue, children: Vec<MdAst>) -> MdAst {
    MdAst { value, children }
}

fn text(s: &str) -> MdAst {
    node(MdValue::Text(s.to_string()), vec![])
}

fn raw(s: &str) -> MdNode {
    MdNode::RawText(s.to_string())
}

#[test]
fn paragraph_with_tag_and_link() {
    let doc = node(
        MdValue::Other,
        vec![node(
            MdValue::Paragraph,
            vec![
                text("hello #tag "),
                node(MdValue::Link("note.md".to_string()), vec![text("Note")]),
            ],
        )],
    );
    assert_eq!(
        convert_ast(&doc),
        vec![MdNode::Paragraph(vec![
            raw("hello "),
            MdNode::Tag("#tag".to_string()),
            raw(" "),
            MdNode::Link { text: "Note".to_string(), url: "note".to_string() },
        ])]
    );
}

#[test]
fn ordered_list_keeps_its_items() {
    let item = |s: &str| node(MdValue::Item, vec![node(MdValue::Paragraph, vec![text(s)])]);
    let doc = node(MdValue::Other, vec![node(MdValue::List(true), vec![item("a"), item("b")])]);
    assert_eq!(
        convert_ast(&doc),
        vec![MdNode::List(
            true,
            vec![vec![MdNode::Paragraph(vec![raw("a")])], vec![MdNode::Paragraph(vec![raw("b")])]]
        )]
    );
}

#[test]
fn block_kinds_and_flattened_nodes() {
    let doc = node(
        MdValue::Other,
        vec![
            node(MdValue::Heading(2), vec![text("Title on 2024-03-01")]),
            node(MdValue::ThematicBreak, vec![]),
            node(MdValue::CodeBlock("let x = 1;\n".to_string()), vec![]),
            node(
                MdValue::BlockQuote,
                vec![node(
                    MdValue::Paragraph,
                    vec![
                        node(MdValue::Strong, vec![text("bold")]),
                        node(MdValue::Emph, vec![text("it")]),
                        node(MdValue::Code("c".to_string()), vec![]),
                    ],
                )],
            ),
            node(MdValue::Item, vec![text("loose")]),
            node(MdValue::Other, vec![text("inner")]),
        ],
    );
    assert_eq!(
        convert_ast(&doc),
        vec![
            MdNode::Heading { level: 2, children: vec![raw("Title on "), MdNode::Date("2024-03-01".to_string())] },
            MdNode::ThematicBreak,
            MdNode::CodeBlock("let x = 1;\n".to_string()),
            MdNode::BlockQuote(vec![MdNode::Paragraph(vec![
                MdNode::Strong(vec![raw("bold")]),
                MdNode::Emph(vec![raw("it")]),
                MdNode::Code("c".to_string()),
            ])]),
            raw("loose"),
            raw("inner"),
        ]
    );
}

#[test]
fn link_text_skips_other_children() {
    let doc = node(
        MdValue::Other,
        vec![node(
            MdValue::Link("a.md".to_string()),
            vec![text("x"), node(MdValue::Emph, vec![text("hidden")]), text("y")],
        )],
    );
    assert_eq!(convert_ast(&doc), vec![MdNode::Link { text: "xy".to_string(), url: "a".to_string() }]);
}

#[test]
fn empty_document_has_no_nodes() {
    assert_eq!(convert_ast(&node(MdValue::Other, vec![])), vec![]);
}

#[test]
fn trailing_md_suffixes_are_all_removed() {
    assert_eq!(trim_md_suffix("a.md.md"), "a");
    assert_eq!(trim_md_suffix("readme"), "readme");
    assert_eq!(trim_md_suffix("x.mdx"), "x.mdx");
    assert_eq!(trim_md_suffix(".md"), "");
}

#[test]
fn preview_of_a_note() {
    assert!(preview_nodes("").is_none());
    let nodes = preview_nodes("# Hi #x\n\nsee [[beta]]").unwrap();
    assert_eq!(
        nodes,
        vec![
            MdNode::Heading { level: 1, children: vec![raw("Hi "), MdNode::Tag("#x".to_string())] },
            MdNode::Paragraph(vec![raw("see "), MdNode::Link { text: "beta".to_string(), url: "beta".to_string() }]),
        ]
    );
}

#[test]
fn parsed_ordered_list_is_previewed() {
    let nodes = preview_nodes("1. one\n2. two\n").unwrap();
    assert_eq!(
        nodes,
        vec![MdNode::List(
            true,
            vec![vec![MdNode::Paragraph(vec![raw("one")])], vec![MdNode::Paragraph(vec![raw("two")])]]
        )]
    );
}
