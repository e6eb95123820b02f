//! Character classification and string-building helpers shared by the
//! parsing engine and the renderer.

use vstd::prelude::*;

verus! {

/// Whether a character counts as alphanumeric when deriving heading slugs.
pub uninterp spec fn is_alphanumeric_char(c: char) -> bool;

/// Whether a character counts as whitespace, both for the run of
/// whitespace a heading marker may be followed by and for the characters
/// a slug replaces with hyphens.
pub uninterp spec fn is_whitespace_char(c: char) -> bool;

/// Relies on char::is_alphanumeric: whether the character's Unicode
/// general category is a letter or a number; a function of the character
/// alone.
pub assume_specification[ char::is_alphanumeric ](c: char) -> (r: bool)
    ensures
        r == is_alphanumeric_char(c),
;

/// Relies on char::is_whitespace: whether the character has the Unicode
/// White_Space property; a function of the character alone.
pub assume_specification[ char::is_whitespace ](c: char) -> (r: bool)
    ensures
        r == is_whitespace_char(c),
;

/// Relies on String::push: appends exactly one character at the end.
#[verifier::external_body]
pub(crate) fn push_char(s: &mut String, c: char)
    ensures
        final(s)@ == old(s)@.push(c),
{
    s.push(c)
}

/// Collects the characters of a string into a vector, preserving order.
pub(crate) fn str_to_chars(s: &str) -> (r: Vec<char>)
    ensures
        r@ == s@,
{
    let n = s.unicode_len();
    let mut r: Vec<char> = Vec::new();
    let mut i: usize = 0;
    while i < n
        invariant
            n == s@.len(),
            i <= n,
            r@ == s@.take(i as int),
        decreases n - i,
    {
        r.push(s.get_char(i));
        i = i + 1;
        proof {
            assert(r@ =~= s@.take(i as int));
        }
    }
    proof {
        assert(s@.take(n as int) =~= s@);
    }
    r
}

/// Builds a string out of a vector of characters, preserving order.
pub(crate) fn chars_to_string(v: &Vec<char>) -> (r: String)
    ensures
        r@ == v@,
{
    let mut r = String::new();
    let mut i: usize = 0;
    while i < v.len()
        invariant
            i <= v@.len(),
            r@ == v@.take(i as int),
        decreases v@.len() - i,
    {
        push_char(&mut r, v[i]);
        i = i + 1;
        proof {
            assert(r@ =~= v@.take(i as int));
        }
    }
    proof {
        assert(v@.take(v@.len() as int) =~= v@);
    }
    r
}

/// Copies the characters of `s` between `from` and `to` into a fresh
/// vector.
pub(crate) fn copy_range(s: &Vec<char>, from: usize, to: usize) -> (r: Vec<char>)
    requires
        from <= to <= s@.len(),
    ensures
        r@ == s@.subrange(from as int, to as int),
{
    let mut r: Vec<char> = Vec::new();
    let mut i: usize = from;
    while i < to
        invariant
            from <= i <= to <= s@.len(),
            r@ == s@.subrange(from as int, i as int),
        decreases to - i,
    {
        r.push(s[i]);
        i = i + 1;
        proof {
            assert(r@ =~= s@.subrange(from as int, i as int));
        }
    }
    r
}

/// The first `n` characters of `s`, or all of `s` when it has fewer.
pub fn first_n(s: &str, n: usize) -> (r: String)
    ensures
        r@ == s@.take(vstd::math::min(n as int, s@.len() as int)),
{
    let len = s.unicode_len();
    let end = if n < len {
        n
    } else {
        len
    };
    let sub = s.substring_char(0, end);
    let r = sub.to_owned();
    proof {
        assert(s@.subrange(0, end as int) =~= s@.take(
            vstd::math::min(n as int, s@.len() as int),
        ));
    }
    r
}

} // verus!
