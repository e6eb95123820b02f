//! The typed content nodes a parse produces, their mathematical views,
//! and the fixed per-variant rendering transformations.

use vstd::prelude::*;
use crate::chars::push_char;

verus! {

/// Mathematical view of a code block: the raw code text and an optional
/// source-language tag (always absent in documents produced here).
pub struct SpecCodeBlock {
    pub source: Option<Seq<char>>,
    pub code: Seq<char>,
}

/// Mathematical view of a heading: marker count, derived slug id and the
/// raw heading text.
pub struct SpecHeading {
    pub level: int,
    pub id: Seq<char>,
    pub text: Seq<char>,
}

/// Mathematical view of a paragraph: its text after inline substitution.
pub struct SpecParagraph {
    pub text: Seq<char>,
}

/// Mathematical view of an inline note: its sequence number and its
/// body after recursive inline substitution.
pub struct SpecNote {
    pub number: int,
    pub note: Seq<char>,
}

/// Mathematical view of one block-level node.
pub enum SpecNode {
    Code(SpecCodeBlock),
    Heading(SpecHeading),
    Paragraph(SpecParagraph),
}

/// The decimal digit character for `d`.
pub open spec fn digit_char(d: int) -> char {
    if d == 0 {
        '0'
    } else if d == 1 {
        '1'
    } else if d == 2 {
        '2'
    } else if d == 3 {
        '3'
    } else if d == 4 {
        '4'
    } else if d == 5 {
        '5'
    } else if d == 6 {
        '6'
    } else if d == 7 {
        '7'
    } else if d == 8 {
        '8'
    } else {
        '9'
    }
}

/// The decimal digit string of `n`, most significant digit first.
pub open spec fn dec_str(n: nat) -> Seq<char>
    decreases n,
{
    if n < 10 {
        seq![digit_char(n as int)]
    } else {
        dec_str(n / 10).push(digit_char((n % 10) as int))
    }
}

fn digit_char_exec(d: usize) -> (c: char)
    requires
        d < 10,
    ensures
        c == digit_char(d as int),
{
    if d == 0 {
        '0'
    } else if d == 1 {
        '1'
    } else if d == 2 {
        '2'
    } else if d == 3 {
        '3'
    } else if d == 4 {
        '4'
    } else if d == 5 {
        '5'
    } else if d == 6 {
        '6'
    } else if d == 7 {
        '7'
    } else if d == 8 {
        '8'
    } else {
        '9'
    }
}

/// Writes the decimal digits of `n` at the end of `out`.
fn push_decimal(out: &mut String, n: usize)
    ensures
        final(out)@ == old(out)@ + dec_str(n as nat),
    decreases n,
{
    if n < 10 {
        push_char(out, digit_char_exec(n));
    } else {
        proof {
            assert(n / 10 < n) by (nonlinear_arith)
                requires
                    n >= 10,
            ;
        }
        push_decimal(out, n / 10);
        push_char(out, digit_char_exec(n % 10));
    }
}

/// What a code block renders to.
pub open spec fn spec_render_code(c: SpecCodeBlock) -> Seq<char> {
    "<pre><code>"@ + c.code + "</code></pre>"@
}

/// What a heading renders to.
pub open spec fn spec_render_heading(h: SpecHeading) -> Seq<char> {
    "<h"@ + dec_str(h.level as nat) + " id=\""@ + h.id + "\">"@ + h.text + "</h"@ + dec_str(
        h.level as nat,
    ) + ">"@
}

/// What a paragraph renders to.
pub open spec fn spec_render_paragraph(p: SpecParagraph) -> Seq<char> {
    "<p>"@ + p.text + "</p>"@
}

/// What an inline note renders to; this replacement string is spliced
/// into the surrounding text during inline substitution.
pub open spec fn spec_render_note(n: SpecNote) -> Seq<char> {
    "<span class=\"note\" id=\"note-"@ + dec_str(n.number as nat) + "\">"@ + n.note + "</span>"@
}

/// What one node renders to.
pub open spec fn spec_render_node(n: SpecNode) -> Seq<char> {
    match n {
        SpecNode::Code(c) => spec_render_code(c),
        SpecNode::Heading(h) => spec_render_heading(h),
        SpecNode::Paragraph(p) => spec_render_paragraph(p),
    }
}

/// What a whole document renders to: the concatenation of its nodes'
/// renderings in parse order.
pub open spec fn spec_render_doc(nodes: Seq<SpecNode>) -> Seq<char>
    decreases nodes.len(),
{
    if nodes.len() == 0 {
        Seq::empty()
    } else {
        spec_render_node(nodes[0]) + spec_render_doc(nodes.drop_first())
    }
}

/// Rendering reads nothing but the node's own fields, so rendering the
/// same node any number of times yields the same output string.
pub proof fn lemma_render_idempotent(n1: SpecNode, n2: SpecNode)
    requires
        n1 == n2,
    ensures
        spec_render_node(n1) == spec_render_node(n2),
{
}

/// A fenced block of code kept verbatim, with an optional
/// source-language tag.
#[derive(Debug)]
pub struct CodeBlock {
    source: Option<String>,
    code: String,
}

impl View for CodeBlock {
    type V = SpecCodeBlock;

    closed spec fn view(&self) -> SpecCodeBlock {
        SpecCodeBlock {
            source: match self.source {
                Some(s) => Some(s@),
                None => None,
            },
            code: self.code@,
        }
    }
}

impl CodeBlock {
    /// Wraps verbatim code text into a node; no source tag is attached.
    pub fn create(code: String) -> (r: CodeBlock)
        ensures
            r@.code == code@,
            r@.source is None,
    {
        CodeBlock { source: None, code }
    }

    /// The raw code text.
    pub fn code(&self) -> (r: &String)
        ensures
            r@ == self@.code,
    {
        &self.code
    }

    /// The source-language tag, absent in documents produced here.
    pub fn source(&self) -> (r: &Option<String>)
        ensures
            (match r {
                Some(s) => self@.source == Some(s@),
                None => self@.source is None,
            }),
    {
        &self.source
    }

    /// Renders the block as a preformatted code fragment.
    pub fn render(&self) -> (r: String)
        ensures
            r@ == spec_render_code(self@),
    {
        let mut r = String::new();
        r.append("<pre><code>");
        r.append(self.code.as_str());
        r.append("</code></pre>");
        r
    }
}

/// A section heading: the count of marker characters, the slug id
/// derived from the heading text, and the raw text itself.
#[derive(Debug)]
pub struct Heading {
    level: usize,
    id: String,
    heading: String,
}

impl View for Heading {
    type V = SpecHeading;

    closed spec fn view(&self) -> SpecHeading {
        SpecHeading { level: self.level as int, id: self.id@, text: self.heading@ }
    }
}

impl Heading {
    /// Assembles a heading node from already-derived parts.
    pub(crate) fn assemble(level: usize, id: String, heading: String) -> (r: Heading)
        ensures
            r@ == (SpecHeading { level: level as int, id: id@, text: heading@ }),
    {
        Heading { level, id, heading }
    }

    /// The count of marker characters that introduced the heading.
    pub fn level(&self) -> (r: usize)
        ensures
            r as int == self@.level,
    {
        self.level
    }

    /// The slug id derived from the heading text.
    pub fn id(&self) -> (r: &String)
        ensures
            r@ == self@.id,
    {
        &self.id
    }

    /// The raw heading text.
    pub fn heading(&self) -> (r: &String)
        ensures
            r@ == self@.text,
    {
        &self.heading
    }

    /// Renders the heading as an anchored heading fragment.
    pub fn render(&self) -> (r: String)
        ensures
            r@ == spec_render_heading(self@),
    {
        let mut r = String::new();
        r.append("<h");
        push_decimal(&mut r, self.level);
        r.append(" id=\"");
        r.append(self.id.as_str());
        r.append("\">");
        r.append(self.heading.as_str());
        r.append("</h");
        push_decimal(&mut r, self.level);
        r.append(">");
        r
    }
}

/// A paragraph whose text has already been inline-substituted.
#[derive(Debug)]
pub struct Paragraph {
    text: String,
}

impl View for Paragraph {
    type V = SpecParagraph;

    closed spec fn view(&self) -> SpecParagraph {
        SpecParagraph { text: self.text@ }
    }
}

impl Paragraph {
    /// Wraps already-substituted text into a paragraph node.
    pub(crate) fn assemble(text: String) -> (r: Paragraph)
        ensures
            r@.text == text@,
    {
        Paragraph { text }
    }

    /// The paragraph's text, already inline-substituted.
    pub fn text(&self) -> (r: &String)
        ensures
            r@ == self@.text,
    {
        &self.text
    }

    /// Renders the paragraph as a paragraph fragment.
    pub fn render(&self) -> (r: String)
        ensures
            r@ == spec_render_paragraph(self@),
    {
        let mut r = String::new();
        r.append("<p>");
        r.append(self.text.as_str());
        r.append("</p>");
        r
    }
}

/// An inline note: its document-scoped sequence number and its body
/// after recursive inline substitution.
#[derive(Debug)]
pub struct Note {
    number: usize,
    note: String,
}

impl View for Note {
    type V = SpecNote;

    closed spec fn view(&self) -> SpecNote {
        SpecNote { number: self.number as int, note: self.note@ }
    }
}

impl Note {
    /// Pairs a sequence number with an already-substituted note body.
    pub fn create(number: usize, note: String) -> (r: Note)
        ensures
            r@ == (SpecNote { number: number as int, note: note@ }),
    {
        Note { number, note }
    }

    /// The note's document-scoped sequence number.
    pub fn number(&self) -> (r: usize)
        ensures
            r as int == self@.number,
    {
        self.number
    }

    /// The note's body text.
    pub fn note(&self) -> (r: &String)
        ensures
            r@ == self@.note,
    {
        &self.note
    }

    /// Renders the note as the replacement fragment spliced into the
    /// surrounding text.
    pub fn render(&self) -> (r: String)
        ensures
            r@ == spec_render_note(self@),
    {
        let mut r = String::new();
        r.append("<span class=\"note\" id=\"note-");
        push_decimal(&mut r, self.number);
        r.append("\">");
        r.append(self.note.as_str());
        r.append("</span>");
        r
    }
}

/// One block-level node of a parsed document.
#[derive(Debug)]
pub enum Node {
    Code(CodeBlock),
    Heading(Heading),
    Paragraph(Paragraph),
}

impl View for Node {
    type V = SpecNode;

    open spec fn view(&self) -> SpecNode {
        match self {
            Node::Code(c) => SpecNode::Code(c@),
            Node::Heading(h) => SpecNode::Heading(h@),
            Node::Paragraph(p) => SpecNode::Paragraph(p@),
        }
    }
}

impl Node {
    /// Renders the node by its variant's fixed transformation.
    pub fn render(&self) -> (r: String)
        ensures
            r@ == spec_render_node(self@),
    {
        match self {
            Node::Code(c) => c.render(),
            Node::Heading(h) => h.render(),
            Node::Paragraph(p) => p.render(),
        }
    }
}

/// An ordered sequence of parsed nodes; order is source order.
#[derive(Debug)]
pub struct MDXFile {
    elements: Vec<Node>,
}

impl View for MDXFile {
    type V = Seq<SpecNode>;

    closed spec fn view(&self) -> Seq<SpecNode> {
        self.elements@.map_values(|n: Node| n@)
    }
}

impl MDXFile {
    /// Wraps a parse-ordered node list into a document.
    pub(crate) fn assemble(elements: Vec<Node>) -> (r: MDXFile)
        ensures
            r@ == elements@.map_values(|n: Node| n@),
    {
        MDXFile { elements }
    }

    /// The document's nodes in parse order.
    pub fn elements(&self) -> (r: &Vec<Node>)
        ensures
            r@.map_values(|n: Node| n@) == self@,
    {
        &self.elements
    }

    /// Renders the whole document: each node's rendering, concatenated
    /// in parse order.
    pub fn render(&self) -> (r: String)
        ensures
            r@ == spec_render_doc(self@),
    {
        let mut s = String::new();
        let mut i: usize = 0;
        proof {
            assert(self@.skip(0) =~= self@);
            assert(s@ + spec_render_doc(self@) =~= spec_render_doc(self@));
        }
        while i < self.elements.len()
            invariant
                i <= self.elements@.len(),
                self@.len() == self.elements@.len(),
                spec_render_doc(self@) == s@ + spec_render_doc(self@.skip(i as int)),
            decreases self.elements@.len() - i,
        {
            let piece = self.elements[i].render();
            s.append(piece.as_str());
            i = i + 1;
            proof {
                assert(self@[i - 1] == self.elements@[i - 1]@);
                assert(self@.skip(i - 1)[0] == self@[i - 1]);
                assert(self@.skip(i - 1).drop_first() =~= self@.skip(i as int));
                assert(spec_render_doc(self@.skip(i - 1)) == spec_render_node(self@[i - 1])
                    + spec_render_doc(self@.skip(i as int)));
                assert(spec_render_doc(self@) =~= s@ + spec_render_doc(self@.skip(i as int)));
            }
        }
        proof {
            assert(self@.skip(self.elements@.len() as int) =~= Seq::<SpecNode>::empty());
        }
        s
    }
}

} // verus!
