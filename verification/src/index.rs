//! The site's front page. Its content is assembled by the caller from
//! the articles it collects; here lives only what can be said of the
//! page itself.

use vstd::prelude::*;
use crate::link::Link;

verus! {

/// The front page listing every article of the site.
#[derive(Debug)]
pub struct Index;

impl Index {
    /// Where the page is written: the site root's index file.
    pub fn path(&self) -> (r: Link)
        ensures
            r@ == seq!["index.html"@],
    {
        let mut parts: Vec<String> = Vec::new();
        parts.push("index.html".to_owned());
        let r = Link::new(parts);
        proof {
            assert(r@ =~= seq!["index.html"@]);
        }
        r
    }
}

} // verus!
