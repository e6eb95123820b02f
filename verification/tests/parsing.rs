use mdx_engine::{BlockKind, InlineKind, Node, Parser};

fn standard_parser() -> Parser {
    let mut p = Parser::new();
    p.add_element(BlockKind::CodeBlock);
    p.add_element(BlockKind::Heading);
    p.add_element(BlockKind::Paragraph);
    p.add_inline(InlineKind::Note);
    p
}

#[test]
fn empty_input_yields_empty_document() {
    let p = standard_parser();
    let doc = p.parse("");
    assert_eq!(doc.elements().len(), 0);
}

#[test]
fn fenced_block_is_kept_verbatim() {
    let p = standard_parser();
    let doc = p.parse("```let x = 1;\nlet y = 2;```");
    assert_eq!(doc.elements().len(), 1);
    match &doc.elements()[0] {
        Node::Code(c) => {
            assert_eq!(c.code(), "let x = 1;\nlet y = 2;");
            assert!(c.source().is_none());
        }
        other => panic!("expected a code block, got {:?}", other),
    }
}

#[test]
fn fenced_block_keeps_escaped_backticks_as_written() {
    let p = standard_parser();
    let doc = p.parse("```a\\`b```");
    assert_eq!(doc.elements().len(), 1);
    match &doc.elements()[0] {
        Node::Code(c) => assert_eq!(c.code(), "a\\`b"),
        other => panic!("expected a code block, got {:?}", other),
    }
}

#[test]
fn heading_line_yields_level_text_and_slug() {
    let p = standard_parser();
    let doc = p.parse("## Hello World");
    assert_eq!(doc.elements().len(), 1);
    match &doc.elements()[0] {
        Node::Heading(h) => {
            assert_eq!(h.level(), 2);
            assert_eq!(h.heading(), "Hello World");
            assert_eq!(h.id(), "Hello-World");
        }
        other => panic!("expected a heading, got {:?}", other),
    }
}

#[test]
fn identical_heading_texts_collide_on_the_same_slug() {
    let p = standard_parser();
    let doc = p.parse("# Dup\n\n# Dup");
    assert_eq!(doc.elements().len(), 2);
    let (first, second) = match (&doc.elements()[0], &doc.elements()[1]) {
        (Node::Heading(a), Node::Heading(b)) => (a, b),
        other => panic!("expected two headings, got {:?}", other),
    };
    assert_eq!(first.heading(), second.heading());
    assert_eq!(first.id(), second.id());
}

#[test]
fn slug_keeps_alphanumerics_hyphenates_whitespace_drops_the_rest() {
    let p = standard_parser();
    let doc = p.parse("## C++ & Rust!");
    match &doc.elements()[0] {
        Node::Heading(h) => {
            assert_eq!(h.heading(), "C++ & Rust!");
            assert_eq!(h.id(), "C--Rust");
        }
        other => panic!("expected a heading, got {:?}", other),
    }
}

#[test]
fn heading_whitespace_run_may_cross_line_breaks() {
    let p = standard_parser();
    let doc = p.parse("#\n\nTail");
    assert_eq!(doc.elements().len(), 1);
    match &doc.elements()[0] {
        Node::Heading(h) => {
            assert_eq!(h.level(), 1);
            assert_eq!(h.heading(), "Tail");
        }
        other => panic!("expected a heading, got {:?}", other),
    }
}

#[test]
fn empty_heading_has_empty_text_and_slug() {
    let p = standard_parser();
    let doc = p.parse("##");
    match &doc.elements()[0] {
        Node::Heading(h) => {
            assert_eq!(h.level(), 2);
            assert_eq!(h.heading(), "");
            assert_eq!(h.id(), "");
        }
        other => panic!("expected a heading, got {:?}", other),
    }
}

#[test]
fn paragraph_lines_are_joined_with_spaces() {
    let p = standard_parser();
    let doc = p.parse("first line\nsecond line\n\nnext para");
    assert_eq!(doc.elements().len(), 2);
    match (&doc.elements()[0], &doc.elements()[1]) {
        (Node::Paragraph(a), Node::Paragraph(b)) => {
            assert_eq!(a.text(), "first line second line");
            assert_eq!(b.text(), "next para");
        }
        other => panic!("expected two paragraphs, got {:?}", other),
    }
}

#[test]
fn crlf_line_endings_are_normalized() {
    let p = standard_parser();
    let doc = p.parse("one\r\ntwo");
    assert_eq!(doc.elements().len(), 1);
    match &doc.elements()[0] {
        Node::Paragraph(a) => assert_eq!(a.text(), "one two"),
        other => panic!("expected a paragraph, got {:?}", other),
    }
}

#[test]
fn unmatched_characters_are_skipped_without_aborting() {
    let p = standard_parser();
    let doc = p.parse("\n\nHello World");
    assert_eq!(doc.elements().len(), 1);
    match &doc.elements()[0] {
        Node::Paragraph(a) => assert_eq!(a.text(), "Hello World"),
        other => panic!("expected a paragraph, got {:?}", other),
    }
}

#[test]
fn skipped_input_is_lost_between_blocks() {
    let mut p = Parser::new();
    p.add_element(BlockKind::CodeBlock);
    let doc = p.parse("ab```c```");
    assert_eq!(doc.elements().len(), 1);
    match &doc.elements()[0] {
        Node::Code(c) => assert_eq!(c.code(), "c"),
        other => panic!("expected a code block, got {:?}", other),
    }
}

#[test]
fn code_block_closes_at_the_last_fence() {
    let p = standard_parser();
    let doc = p.parse("```a``` tail");
    assert_eq!(doc.elements().len(), 2);
    match (&doc.elements()[0], &doc.elements()[1]) {
        (Node::Code(c), Node::Paragraph(t)) => {
            assert_eq!(c.code(), "a");
            assert_eq!(t.text(), " tail");
        }
        other => panic!("expected code then paragraph, got {:?}", other),
    }
}

#[test]
fn registration_order_decides_between_rules() {
    let mut p = Parser::new();
    p.add_element(BlockKind::Paragraph);
    p.add_element(BlockKind::Heading);
    let doc = p.parse("# shadowed");
    assert_eq!(doc.elements().len(), 1);
    match &doc.elements()[0] {
        Node::Paragraph(a) => assert_eq!(a.text(), "# shadowed"),
        other => panic!("expected a paragraph, got {:?}", other),
    }
}

#[test]
fn mixed_document_keeps_source_order() {
    let p = standard_parser();
    let doc = p.parse("# Title\n\nbody text\n\n```code```");
    assert_eq!(doc.elements().len(), 3);
    assert!(matches!(doc.elements()[0], Node::Heading(_)));
    assert!(matches!(doc.elements()[1], Node::Paragraph(_)));
    assert!(matches!(doc.elements()[2], Node::Code(_)));
}
