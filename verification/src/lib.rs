//! A small extensible markup parsing engine.
//!
//! Body text is scanned left to right against an ordered registry of
//! block rules; the first rule that matches at the current position
//! produces one typed node, and positions that no rule matches are
//! skipped one character at a time. Text inside paragraphs runs through
//! a second, inline pass that rewrites spans (such as notes) while
//! assigning document-scoped sequence numbers. Every node renders to a
//! string by a fixed, pure per-variant transformation.

pub mod chars;
pub mod nodes;
pub mod inline;
pub mod parser;
pub mod link;
pub mod index;

pub use chars::first_n;
pub use nodes::{CodeBlock, Heading, Paragraph, Note, Node, MDXFile};
pub use inline::{InlineKind, InlineParser};
pub use parser::{BlockKind, Parser};
pub use link::Link;
pub use index::Index;
