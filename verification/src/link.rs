//! A site-relative location, stored as an ordered list of path
//! segments and rendered either as a URL or as a filesystem path.

use std::iter::FromIterator;
use vstd::prelude::*;
use crate::chars::push_char;

verus! {

/// Declares std's filesystem path buffer, which vstd gives no
/// specification; values of it are opaque here and are only carried
/// through to the caller.
#[verifier::external_type_specification]
#[verifier::external_body]
pub struct ExPathBuf(std::path::PathBuf);

/// The tail of a URL after its first segment: each further segment
/// preceded by a separator.
pub open spec fn spec_join_tail(parts: Seq<Seq<char>>) -> Seq<char>
    decreases parts.len(),
{
    if parts.len() == 0 {
        Seq::empty()
    } else {
        seq!['/'] + parts[0] + spec_join_tail(parts.drop_first())
    }
}

/// The segments joined into a URL, separated by slashes.
pub open spec fn spec_join(parts: Seq<Seq<char>>) -> Seq<char> {
    if parts.len() == 0 {
        Seq::empty()
    } else {
        parts[0] + spec_join_tail(parts.drop_first())
    }
}

/// A site-relative location as an ordered list of path segments.
#[derive(Debug, Clone)]
pub struct Link {
    parts: Vec<String>,
}

impl View for Link {
    type V = Seq<Seq<char>>;

    closed spec fn view(&self) -> Seq<Seq<char>> {
        self.parts@.map_values(|s: String| s@)
    }
}

impl Link {
    /// A link made of the given segments, kept in order.
    pub fn new(parts: Vec<String>) -> (r: Link)
        ensures
            r@ == parts@.map_values(|s: String| s@),
    {
        Link { parts }
    }

    /// Relies on PathBuf::from_iter: the segments joined, in order,
    /// into a filesystem path.
    #[verifier::external_body]
    pub fn as_path(&self) -> std::path::PathBuf {
        std::path::PathBuf::from_iter(self.parts.iter().cloned())
    }

    /// The segments joined into a URL, separated by slashes.
    pub fn to_url(&self) -> (r: String)
        ensures
            r@ == spec_join(self@),
    {
        let mut r = String::new();
        let mut i: usize = 0;
        while i < self.parts.len()
            invariant
                i <= self@.len(),
                self@.len() == self.parts@.len(),
                i == 0 ==> r@ == Seq::<char>::empty(),
                i > 0 ==> spec_join(self@) == r@ + spec_join_tail(self@.skip(i as int)),
            decreases self@.len() - i,
        {
            if i > 0 {
                push_char(&mut r, '/');
            }
            r.append(self.parts[i].as_str());
            i = i + 1;
            proof {
                assert(self@[i - 1] == self.parts@[i - 1]@);
                if i == 1 {
                    assert(self@.skip(0).drop_first() =~= self@.skip(1));
                    assert(self@.skip(0)[0] == self@[0]);
                    assert(spec_join(self@) =~= r@ + spec_join_tail(self@.skip(1)));
                } else {
                    assert(self@.skip(i - 1)[0] == self@[i - 1]);
                    assert(self@.skip(i - 1).drop_first() =~= self@.skip(i as int));
                    assert(spec_join(self@) =~= r@ + spec_join_tail(self@.skip(i as int)));
                }
            }
        }
        proof {
            if self@.len() == 0 {
                assert(r@ =~= spec_join(self@));
            } else {
                assert(self@.skip(self@.len() as int) =~= Seq::<Seq<char>>::empty());
            }
        }
        r
    }
}

} // verus!
