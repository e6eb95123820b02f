use mdx_engine::{BlockKind, CodeBlock, InlineKind, Node, Note, Parser};

fn standard_parser() -> Parser {
    let mut p = Parser::new();
    p.add_element(BlockKind::CodeBlock);
    p.add_element(BlockKind::Heading);
    p.add_element(BlockKind::Paragraph);
    p.add_inline(InlineKind::Note);
    p
}

#[test]
fn note_substitution_replaces_the_span() {
    let p = standard_parser();
    let doc = p.parse("Hello `@noteworld` end");
    match &doc.elements()[0] {
        Node::Paragraph(a) => assert_eq!(
            a.text(),
            "Hello <span class=\"note\" id=\"note-0\">world</span> end"
        ),
        other => panic!("expected a paragraph, got {:?}", other),
    }
}

#[test]
fn note_numbers_increase_in_document_order() {
    let p = standard_parser();
    let doc = p.parse("one `@notea`\n\ntwo `@noteb` and `@notec`");
    match (&doc.elements()[0], &doc.elements()[1]) {
        (Node::Paragraph(a), Node::Paragraph(b)) => {
            assert_eq!(a.text(), "one <span class=\"note\" id=\"note-0\">a</span>");
            assert_eq!(
                b.text(),
                "two <span class=\"note\" id=\"note-1\">b</span> and <span class=\"note\" id=\"note-2\">c</span>"
            );
        }
        other => panic!("expected two paragraphs, got {:?}", other),
    }
}

#[test]
fn counter_starts_fresh_on_every_parse() {
    let p = standard_parser();
    let first = p.parse("x `@notea`");
    let second = p.parse("y `@noteb`");
    match (&first.elements()[0], &second.elements()[0]) {
        (Node::Paragraph(a), Node::Paragraph(b)) => {
            assert_eq!(a.text(), "x <span class=\"note\" id=\"note-0\">a</span>");
            assert_eq!(b.text(), "y <span class=\"note\" id=\"note-0\">b</span>");
        }
        other => panic!("expected paragraphs, got {:?}", other),
    }
}

#[test]
fn unterminated_note_is_copied_verbatim() {
    let p = standard_parser();
    let doc = p.parse("a `@noteb");
    match &doc.elements()[0] {
        Node::Paragraph(a) => assert_eq!(a.text(), "a `@noteb"),
        other => panic!("expected a paragraph, got {:?}", other),
    }
}

#[test]
fn note_body_may_hold_escaped_backticks() {
    let p = standard_parser();
    let doc = p.parse("see `@notea \\` b`");
    match &doc.elements()[0] {
        Node::Paragraph(a) => assert_eq!(
            a.text(),
            "see <span class=\"note\" id=\"note-0\">a \\` b</span>"
        ),
        other => panic!("expected a paragraph, got {:?}", other),
    }
}

#[test]
fn nested_note_resolves_before_the_scan_continues() {
    let p = standard_parser();
    let doc = p.parse("A `@note\\`@notex\\`` B");
    match &doc.elements()[0] {
        Node::Paragraph(a) => assert_eq!(
            a.text(),
            "A <span class=\"note\" id=\"note-0\">\\<span class=\"note\" id=\"note-1\">x\\</span></span> B"
        ),
        other => panic!("expected a paragraph, got {:?}", other),
    }
}

#[test]
fn inline_apply_advances_the_counter() {
    let mut p = Parser::new();
    p.add_inline(InlineKind::Note);
    let mut counter: usize = 0;
    let out = p.inline().apply("x `@notey` z", &mut counter);
    assert_eq!(out, "x <span class=\"note\" id=\"note-0\">y</span> z");
    assert_eq!(counter, 1);
    let again = p.inline().apply("`@notew`", &mut counter);
    assert_eq!(again, "<span class=\"note\" id=\"note-1\">w</span>");
    assert_eq!(counter, 2);
}

#[test]
fn inline_apply_without_rules_copies_text() {
    let p = Parser::new();
    let mut counter: usize = 0;
    let out = p.inline().apply("plain `@notex` text", &mut counter);
    assert_eq!(out, "plain `@notex` text");
    assert_eq!(counter, 0);
}

#[test]
fn heading_render_is_anchored() {
    let p = standard_parser();
    let doc = p.parse("## Hello World");
    assert_eq!(
        doc.elements()[0].render(),
        "<h2 id=\"Hello-World\">Hello World</h2>"
    );
}

#[test]
fn code_render_is_preformatted() {
    let c = CodeBlock::create("let x = 1;".to_string());
    assert_eq!(c.render(), "<pre><code>let x = 1;</code></pre>");
}

#[test]
fn note_render_carries_number_and_body() {
    let n = Note::create(7, "details".to_string());
    assert_eq!(n.number(), 7);
    assert_eq!(n.note(), "details");
    assert_eq!(n.render(), "<span class=\"note\" id=\"note-7\">details</span>");
}

#[test]
fn paragraph_render_wraps_text() {
    let p = standard_parser();
    let doc = p.parse("hi there");
    assert_eq!(doc.elements()[0].render(), "<p>hi there</p>");
}

#[test]
fn document_render_concatenates_nodes_in_order() {
    let p = standard_parser();
    let doc = p.parse("# T\n\nbody");
    assert_eq!(doc.render(), "<h1 id=\"T\">T</h1><p>body</p>");
}

#[test]
fn rendering_twice_is_byte_identical() {
    let p = standard_parser();
    let doc = p.parse("# T\n\nbody `@noten`\n\n```c```");
    let once = doc.render();
    let twice = doc.render();
    assert_eq!(once, twice);
    let reparsed = p.parse("# T\n\nbody `@noten`\n\n```c```");
    assert_eq!(reparsed.render(), once);
}

#[test]
fn multi_digit_numbers_render_in_decimal() {
    let n = Note::create(123, "x".to_string());
    assert_eq!(n.render(), "<span class=\"note\" id=\"note-123\">x</span>");
    let p = standard_parser();
    let doc = p.parse("############ deep");
    assert_eq!(
        doc.elements()[0].render(),
        "<h12 id=\"deep\">deep</h12>"
    );
}
