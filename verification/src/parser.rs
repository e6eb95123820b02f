//! The block-level grammar, the rule registry and the parser driver.
//!
//! The driver scans the normalized body text left to right. At every
//! position the registered block rules are tried in registration order;
//! the first whose pattern matches at exactly the current position
//! produces one node and the cursor advances past the match. When no
//! rule matches, exactly one character is skipped and lost.

use vstd::prelude::*;
use crate::chars::{
    chars_to_string,
    copy_range,
    is_alphanumeric_char,
    is_whitespace_char,
    str_to_chars,
};
use crate::inline::{spec_apply, InlineKind, InlineParser};
use crate::nodes::{
    CodeBlock,
    Heading,
    MDXFile,
    Node,
    Paragraph,
    SpecCodeBlock,
    SpecHeading,
    SpecNode,
    SpecParagraph,
};

verus! {

/// The block rule kinds that can be registered; rules are tried in
/// registration order at each position of the remaining text.
#[derive(Clone, Copy, Debug)]
pub enum BlockKind {
    /// A fenced block: three backticks, verbatim inner text, and the
    /// last following triple of backticks as the closing fence.
    CodeBlock,
    /// One or more marker characters, a run of whitespace, then the
    /// rest of the line as the heading text.
    Heading,
    /// One or more nonempty lines, ending before an empty line.
    Paragraph,
}

/// How many leading characters of `t` satisfy `p`.
pub open spec fn run_len(t: Seq<char>, p: spec_fn(char) -> bool) -> int
    decreases t.len(),
{
    if t.len() == 0 || !p(t[0]) {
        0
    } else {
        1 + run_len(t.drop_first(), p)
    }
}

/// The run of leading characters satisfying `p` is exactly the longest
/// prefix all of whose characters satisfy it.
pub proof fn lemma_run_len(t: Seq<char>, p: spec_fn(char) -> bool)
    ensures
        0 <= run_len(t, p) <= t.len(),
        forall|k: int| 0 <= k < run_len(t, p) ==> p(t[k]),
        run_len(t, p) < t.len() ==> !p(t[run_len(t, p)]),
    decreases t.len(),
{
    if t.len() > 0 && p(t[0]) {
        lemma_run_len(t.drop_first(), p);
        assert forall|k: int| 0 <= k < run_len(t, p) implies p(t[k]) by {
            if k > 0 {
                assert(t.drop_first()[k - 1] == t[k]);
                assert(p(t.drop_first()[k - 1]));
            }
        }
    }
}

/// Any index bounding a prefix of characters satisfying `p`, followed
/// by a character that does not, is the run length.
pub proof fn lemma_run_len_is(t: Seq<char>, p: spec_fn(char) -> bool, r: int)
    requires
        0 <= r <= t.len(),
        forall|k: int| 0 <= k < r ==> p(t[k]),
        r < t.len() ==> !p(t[r]),
    ensures
        run_len(t, p) == r,
    decreases t.len(),
{
    if r == 0 {
    } else {
        assert(p(t[0]));
        assert(forall|k: int| 0 <= k < r - 1 ==> t.drop_first()[k] == t[k + 1] && p(
            t.drop_first()[k],
        ));
        assert(r - 1 < t.drop_first().len() ==> t.drop_first()[r - 1] == t[r]);
        lemma_run_len_is(t.drop_first(), p, r - 1);
    }
}

/// The count of leading marker characters.
pub open spec fn hash_run(t: Seq<char>) -> int {
    run_len(t, |c: char| c == '#')
}

/// The count of leading whitespace characters.
pub open spec fn ws_run(t: Seq<char>) -> int {
    run_len(t, |c: char| is_whitespace_char(c))
}

/// The count of leading characters before the end of the line.
pub open spec fn line_run(t: Seq<char>) -> int {
    run_len(t, |c: char| c != '\n')
}

/// Whether a fence of three backticks stands at position `i` of `t`.
pub open spec fn is_fence_at(t: Seq<char>, i: int) -> bool {
    &&& i + 3 <= t.len()
    &&& t[i] == '`'
    &&& t[i + 1] == '`'
    &&& t[i + 2] == '`'
}

/// The last fence at or before position `i` that could close a block
/// opened at the first position, if any.
pub open spec fn last_fence_from(t: Seq<char>, i: int) -> Option<int>
    decreases i + 1,
{
    if i < 3 {
        None
    } else if is_fence_at(t, i) {
        Some(i)
    } else {
        last_fence_from(t, i - 1)
    }
}

/// Where the closing fence of a code block starting at the first
/// position of `t` stands: the last fence in the text, so that the
/// inner text is as long as possible.
pub open spec fn code_close(t: Seq<char>) -> Option<int> {
    last_fence_from(t, t.len() - 3)
}

/// Whether a code block starts at the first position of `t`.
pub open spec fn code_match_at(t: Seq<char>) -> bool {
    is_fence_at(t, 0) && code_close(t) is Some
}

/// The verbatim inner text of a code block match.
pub open spec fn code_inner(t: Seq<char>) -> Seq<char> {
    t.subrange(3, code_close(t)->Some_0)
}

/// How many characters a code block match consumes.
pub open spec fn code_match_len(t: Seq<char>) -> int {
    code_close(t)->Some_0 + 3
}

proof fn lemma_last_fence_bounds(t: Seq<char>, i: int)
    requires
        i <= t.len() - 3,
    ensures
        match last_fence_from(t, i) {
            Some(j) => 3 <= j <= i && is_fence_at(t, j),
            None => true,
        },
    decreases i + 1,
{
    if i >= 3 && !is_fence_at(t, i) {
        lemma_last_fence_bounds(t, i - 1);
    }
}

/// Whether a heading starts at the first position of `t`.
pub open spec fn heading_match_at(t: Seq<char>) -> bool {
    t.len() > 0 && t[0] == '#'
}

/// The marker count of a heading match.
pub open spec fn heading_level(t: Seq<char>) -> int {
    hash_run(t)
}

/// The raw text of a heading match: what follows the markers and the
/// whitespace run, up to the end of the line.
pub open spec fn heading_text(t: Seq<char>) -> Seq<char> {
    let h = hash_run(t);
    let w = ws_run(t.skip(h));
    let l = line_run(t.skip(h + w));
    t.subrange(h + w, h + w + l)
}

/// How many characters a heading match consumes.
pub open spec fn heading_match_len(t: Seq<char>) -> int {
    let h = hash_run(t);
    let w = ws_run(t.skip(h));
    h + w + line_run(t.skip(h + w))
}

/// Whether a paragraph starts at the first position of `t`: any
/// character but an end of line.
pub open spec fn para_match_at(t: Seq<char>) -> bool {
    t.len() > 0 && t[0] != '\n'
}

/// How many characters a paragraph match consumes: whole lines as long
/// as each following line is nonempty.
pub open spec fn para_len(t: Seq<char>) -> int
    decreases t.len(),
    via para_len_decreases
{
    let l = line_run(t);
    if l + 1 < t.len() && t[l + 1] != '\n' {
        l + 1 + para_len(t.skip(l + 1))
    } else {
        l
    }
}

#[via_fn]
proof fn para_len_decreases(t: Seq<char>) {
    lemma_run_len(t, |c: char| c != '\n');
}

proof fn lemma_para_len_bounds(t: Seq<char>)
    ensures
        line_run(t) <= para_len(t) <= t.len(),
    decreases t.len(),
{
    lemma_run_len(t, |c: char| c != '\n');
    let l = line_run(t);
    if l + 1 < t.len() && t[l + 1] != '\n' {
        lemma_para_len_bounds(t.skip(l + 1));
        lemma_run_len(t.skip(l + 1), |c: char| c != '\n');
    }
}

/// Whether block rule `k` matches at the first position of `t`.
pub open spec fn block_kind_matches(k: BlockKind, t: Seq<char>) -> bool {
    match k {
        BlockKind::CodeBlock => code_match_at(t),
        BlockKind::Heading => heading_match_at(t),
        BlockKind::Paragraph => para_match_at(t),
    }
}

/// How many characters a match of block rule `k` consumes.
pub open spec fn block_kind_len(k: BlockKind, t: Seq<char>) -> int {
    match k {
        BlockKind::CodeBlock => code_match_len(t),
        BlockKind::Heading => heading_match_len(t),
        BlockKind::Paragraph => para_len(t),
    }
}

proof fn lemma_block_len_bounds(k: BlockKind, t: Seq<char>)
    requires
        block_kind_matches(k, t),
    ensures
        1 <= block_kind_len(k, t) <= t.len(),
{
    match k {
        BlockKind::CodeBlock => {
            lemma_last_fence_bounds(t, t.len() - 3);
        },
        BlockKind::Heading => {
            let h = hash_run(t);
            lemma_run_len(t, |c: char| c == '#');
            assert(h >= 1) by {
                assert((|c: char| c == '#')(t[0]));
                assert(run_len(t, |c: char| c == '#') != 0);
            }
            let w = ws_run(t.skip(h));
            lemma_run_len(t.skip(h), |c: char| is_whitespace_char(c));
            lemma_run_len(t.skip(h + w), |c: char| c != '\n');
        },
        BlockKind::Paragraph => {
            lemma_para_len_bounds(t);
            lemma_run_len(t, |c: char| c != '\n');
            assert((|c: char| c != '\n')(t[0]));
            assert(line_run(t) != 0);
        },
    }
}

/// The first registered rule in `ks` that matches at the first
/// position of `t`, in registration order.
pub open spec fn block_first_match(ks: Seq<BlockKind>, t: Seq<char>) -> Option<BlockKind>
    decreases ks.len(),
{
    if ks.len() == 0 {
        None
    } else if block_kind_matches(ks[0], t) {
        Some(ks[0])
    } else {
        block_first_match(ks.drop_first(), t)
    }
}

proof fn lemma_block_first_match(ks: Seq<BlockKind>, t: Seq<char>)
    ensures
        match block_first_match(ks, t) {
            Some(k) => block_kind_matches(k, t),
            None => true,
        },
    decreases ks.len(),
{
    if ks.len() > 0 && !block_kind_matches(ks[0], t) {
        lemma_block_first_match(ks.drop_first(), t);
    }
}

/// Line endings collapsed: every carriage return followed by a line
/// feed becomes a single line feed, scanning left to right.
pub open spec fn normalize(t: Seq<char>) -> Seq<char>
    decreases t.len(),
{
    if t.len() >= 2 && t[0] == '\r' && t[1] == '\n' {
        seq!['\n'] + normalize(t.skip(2))
    } else if t.len() >= 1 {
        seq![t[0]] + normalize(t.skip(1))
    } else {
        Seq::empty()
    }
}

/// Every line break replaced by a space, as paragraph text is joined
/// into one line before inline substitution.
pub open spec fn nl_to_space(t: Seq<char>) -> Seq<char> {
    t.map_values(|c: char| if c == '\n' { ' ' } else { c })
}

/// The slug id derived from heading text: alphanumeric characters are
/// kept, whitespace becomes a hyphen, everything else is dropped.
pub open spec fn spec_slug(t: Seq<char>) -> Seq<char>
    decreases t.len(),
{
    if t.len() == 0 {
        Seq::empty()
    } else {
        let head = if is_alphanumeric_char(t[0]) {
            seq![t[0]]
        } else if is_whitespace_char(t[0]) {
            seq!['-']
        } else {
            Seq::<char>::empty()
        };
        head + spec_slug(t.drop_first())
    }
}

/// The node produced by a match of rule `k` at the start of `t`, and
/// the counter left behind: code and heading text is stored raw, while
/// paragraph text is joined into one line and inline-substituted.
pub open spec fn spec_make_node(k: BlockKind, t: Seq<char>, inls: Seq<InlineKind>, c: nat) -> (
    SpecNode,
    nat,
) {
    match k {
        BlockKind::CodeBlock => (
            SpecNode::Code(SpecCodeBlock { source: None, code: code_inner(t) }),
            c,
        ),
        BlockKind::Heading => (
            SpecNode::Heading(
                SpecHeading {
                    level: heading_level(t),
                    id: spec_slug(heading_text(t)),
                    text: heading_text(t),
                },
            ),
            c,
        ),
        BlockKind::Paragraph => {
            let res = spec_apply(inls, nl_to_space(t.subrange(0, para_len(t))), c);
            (SpecNode::Paragraph(SpecParagraph { text: res.0 }), res.1)
        },
    }
}

/// The document produced by scanning `t` with the registered block
/// rules `ks` and inline rules `inls`, starting from counter value
/// `c`: at each position the first matching rule emits one node and
/// its match is consumed; a position no rule matches is skipped and
/// lost.
pub open spec fn spec_parse(ks: Seq<BlockKind>, inls: Seq<InlineKind>, t: Seq<char>, c: nat) -> (
    Seq<SpecNode>,
    nat,
)
    decreases t.len(),
    via spec_parse_decreases
{
    if t.len() == 0 {
        (Seq::empty(), c)
    } else {
        match block_first_match(ks, t) {
            Some(k) => {
                let node_res = spec_make_node(k, t, inls, c);
                let rest = spec_parse(ks, inls, t.skip(block_kind_len(k, t)), node_res.1);
                (seq![node_res.0] + rest.0, rest.1)
            },
            None => spec_parse(ks, inls, t.skip(1), c),
        }
    }
}

#[via_fn]
proof fn spec_parse_decreases(ks: Seq<BlockKind>, inls: Seq<InlineKind>, t: Seq<char>, c: nat) {
    if t.len() > 0 {
        lemma_block_first_match(ks, t);
        match block_first_match(ks, t) {
            Some(k) => {
                lemma_block_len_bounds(k, t);
            },
            None => {},
        }
    }
}

/// Scans the run of `#` characters from `pos` on.
fn scan_hash_run(s: &Vec<char>, pos: usize) -> (r: usize)
    requires
        pos <= s@.len(),
    ensures
        r as int == hash_run(s@.skip(pos as int)),
        pos + r <= s@.len(),
{
    let ghost t = s@.skip(pos as int);
    let len = s.len();
    let mut i: usize = pos;
    while i < len && s[i] == '#'
        invariant
            pos <= i <= len,
            len == s@.len(),
            forall|k: int| pos <= k < i ==> s@[k] == '#',
        decreases len - i,
    {
        i = i + 1;
    }
    proof {
        assert(forall|k: int| 0 <= k < t.len() ==> t[k] == s@[pos + k]);
        lemma_run_len_is(t, |c: char| c == '#', i - pos);
    }
    i - pos
}

/// Scans the run of whitespace characters from `pos` on.
fn scan_ws_run(s: &Vec<char>, pos: usize) -> (r: usize)
    requires
        pos <= s@.len(),
    ensures
        r as int == ws_run(s@.skip(pos as int)),
        pos + r <= s@.len(),
{
    let ghost t = s@.skip(pos as int);
    let len = s.len();
    let mut i: usize = pos;
    while i < len && s[i].is_whitespace()
        invariant
            pos <= i <= len,
            len == s@.len(),
            forall|k: int| pos <= k < i ==> is_whitespace_char(s@[k]),
        decreases len - i,
    {
        i = i + 1;
    }
    proof {
        assert(forall|k: int| 0 <= k < t.len() ==> t[k] == s@[pos + k]);
        lemma_run_len_is(t, |c: char| is_whitespace_char(c), i - pos);
    }
    i - pos
}

/// Scans up to the end of the current line from `pos` on.
fn scan_line_run(s: &Vec<char>, pos: usize) -> (r: usize)
    requires
        pos <= s@.len(),
    ensures
        r as int == line_run(s@.skip(pos as int)),
        pos + r <= s@.len(),
{
    let ghost t = s@.skip(pos as int);
    let len = s.len();
    let mut i: usize = pos;
    while i < len && s[i] != '\n'
        invariant
            pos <= i <= len,
            len == s@.len(),
            forall|k: int| pos <= k < i ==> s@[k] != '\n',
        decreases len - i,
    {
        i = i + 1;
    }
    proof {
        assert(forall|k: int| 0 <= k < t.len() ==> t[k] == s@[pos + k]);
        lemma_run_len_is(t, |c: char| c != '\n', i - pos);
    }
    i - pos
}

/// Finds the closing fence of a code block opened at `pos`: the last
/// fence in the text, mirroring `code_close` on the suffix.
fn find_code_close(s: &Vec<char>, pos: usize) -> (res: Option<usize>)
    requires
        pos <= s@.len(),
    ensures
        (match res {
            Some(j) => code_close(s@.skip(pos as int)) == Some(j as int),
            None => code_close(s@.skip(pos as int)) is None,
        }),
{
    let ghost t = s@.skip(pos as int);
    let len = s.len();
    if len - pos < 6 {
        proof {
            assert(t.len() - 3 < 3);
        }
        return None;
    }
    let mut k: usize = len - 2;
    proof {
        assert(k - pos - 1 == t.len() - 3);
    }
    while k > pos + 3
        invariant
            pos + 3 <= k <= len - 2,
            len == s@.len(),
            t == s@.skip(pos as int),
            last_fence_from(t, t.len() - 3) == last_fence_from(t, k - pos - 1),
        decreases k,
    {
        proof {
            assert(t[k - pos - 1] == s@[k - 1]);
            assert(t[k - pos] == s@[k as int]);
            assert(t[k - pos + 1] == s@[k + 1]);
        }
        if s[k - 1] == '`' && s[k] == '`' && s[k + 1] == '`' {
            proof {
                assert(is_fence_at(t, k - pos - 1));
            }
            return Some(k - 1 - pos);
        }
        proof {
            assert(!is_fence_at(t, k - pos - 1));
        }
        k = k - 1;
    }
    proof {
        assert(last_fence_from(t, k - pos - 1) is None);
    }
    None
}

/// Tests rule `k` at position `pos` of `s`; on a match, returns how
/// many characters the match consumes.
fn match_block_kind(k: BlockKind, s: &Vec<char>, pos: usize) -> (res: Option<usize>)
    requires
        pos <= s@.len(),
    ensures
        (match res {
            Some(l) => block_kind_matches(k, s@.skip(pos as int)) && l as int == block_kind_len(
                k,
                s@.skip(pos as int),
            ) && 1 <= l && pos + l <= s@.len(),
            None => !block_kind_matches(k, s@.skip(pos as int)),
        }),
{
    let ghost t = s@.skip(pos as int);
    let len = s.len();
    match k {
        BlockKind::CodeBlock => {
            if len - pos < 3 || !(s[pos] == '`' && s[pos + 1] == '`' && s[pos + 2] == '`') {
                proof {
                    assert(t.len() >= 3 ==> (t[0] == s@[pos as int] && t[1] == s@[pos + 1] && t[2]
                        == s@[pos + 2]));
                }
                return None;
            }
            proof {
                assert(t[0] == s@[pos as int] && t[1] == s@[pos + 1] && t[2] == s@[pos + 2]);
                assert(is_fence_at(t, 0));
            }
            match find_code_close(s, pos) {
                Some(j) => {
                    proof {
                        lemma_last_fence_bounds(t, t.len() - 3);
                    }
                    Some(j + 3)
                },
                None => None,
            }
        },
        BlockKind::Heading => {
            if pos < len && s[pos] == '#' {
                proof {
                    assert(t[0] == s@[pos as int]);
                }
                let h = scan_hash_run(s, pos);
                let w = scan_ws_run(s, pos + h);
                let l = scan_line_run(s, pos + h + w);
                proof {
                    assert(t.skip(h as int) =~= s@.skip(pos + h));
                    assert(t.skip(h + w) =~= s@.skip(pos + h + w));
                    lemma_run_len(t, |c: char| c == '#');
                    assert((|c: char| c == '#')(t[0]));
                    assert(hash_run(t) != 0);
                }
                Some(h + w + l)
            } else {
                proof {
                    assert(t.len() > 0 ==> t[0] == s@[pos as int]);
                }
                None
            }
        },
        BlockKind::Paragraph => {
            if pos < len && s[pos] != '\n' {
                proof {
                    assert(t[0] == s@[pos as int]);
                }
                let mut cur: usize = pos;
                let mut l = scan_line_run(s, cur);
                while len - (cur + l) > 1 && s[cur + l + 1] != '\n'
                    invariant
                        pos <= cur,
                        cur + l <= len,
                        len == s@.len(),
                        t == s@.skip(pos as int),
                        l as int == line_run(s@.skip(cur as int)),
                        para_len(t) == (cur - pos) + para_len(s@.skip(cur as int)),
                    decreases len - cur,
                {
                    let ghost tc = s@.skip(cur as int);
                    proof {
                        assert(tc[l + 1] == s@[cur + l + 1]);
                        assert(tc.skip(l + 1) =~= s@.skip(cur + l + 1));
                        lemma_para_len_bounds(s@.skip(cur + l + 1));
                    }
                    cur = cur + l + 1;
                    l = scan_line_run(s, cur);
                }
                proof {
                    let tc = s@.skip(cur as int);
                    assert(l + 1 < tc.len() ==> tc[l + 1] == s@[cur + l + 1]);
                    assert(para_len(tc) == l as int);
                    lemma_para_len_bounds(t);
                    lemma_run_len(t, |c: char| c != '\n');
                    assert((|c: char| c != '\n')(t[0]));
                    assert(line_run(t) != 0);
                }
                Some((cur - pos) + l)
            } else {
                proof {
                    assert(t.len() > 0 ==> t[0] == s@[pos as int]);
                }
                None
            }
        },
    }
}

/// Replaces every line break in `v` with a space.
fn nl_to_space_exec(v: &Vec<char>) -> (r: Vec<char>)
    ensures
        r@ == nl_to_space(v@),
{
    let mut r: Vec<char> = Vec::new();
    let mut i: usize = 0;
    while i < v.len()
        invariant
            i <= v@.len(),
            r@.len() == i,
            forall|k: int| 0 <= k < i ==> r@[k] == (if v@[k] == '\n' {
                ' '
            } else {
                v@[k]
            }),
        decreases v@.len() - i,
    {
        let c = v[i];
        if c == '\n' {
            r.push(' ');
        } else {
            r.push(c);
        }
        i = i + 1;
    }
    proof {
        assert(r@ =~= nl_to_space(v@));
    }
    r
}

/// Derives the slug id from heading text.
fn slug_chars(v: &Vec<char>) -> (r: Vec<char>)
    ensures
        r@ == spec_slug(v@),
{
    let mut r: Vec<char> = Vec::new();
    let mut i: usize = 0;
    proof {
        assert(v@.skip(0) =~= v@);
        assert(r@ + spec_slug(v@) =~= spec_slug(v@));
    }
    while i < v.len()
        invariant
            i <= v@.len(),
            spec_slug(v@) == r@ + spec_slug(v@.skip(i as int)),
        decreases v@.len() - i,
    {
        let c = v[i];
        if c.is_alphanumeric() {
            r.push(c);
        } else if c.is_whitespace() {
            r.push('-');
        }
        i = i + 1;
        proof {
            assert(v@.skip(i - 1)[0] == v@[i - 1]);
            assert(v@.skip(i - 1).drop_first() =~= v@.skip(i as int));
            assert(spec_slug(v@) =~= r@ + spec_slug(v@.skip(i as int)));
        }
    }
    proof {
        assert(v@.skip(v@.len() as int) =~= Seq::<char>::empty());
    }
    r
}

/// Collapses line endings: each carriage-return line-feed pair becomes
/// a single line feed.
fn normalize_chars(v: &Vec<char>) -> (r: Vec<char>)
    ensures
        r@ == normalize(v@),
        r@.len() <= v@.len(),
{
    let mut r: Vec<char> = Vec::new();
    let mut i: usize = 0;
    proof {
        assert(v@.skip(0) =~= v@);
        assert(r@ + normalize(v@) =~= normalize(v@));
    }
    while i < v.len()
        invariant
            i <= v@.len(),
            r@.len() <= i,
            normalize(v@) == r@ + normalize(v@.skip(i as int)),
        decreases v@.len() - i,
    {
        let ghost t = v@.skip(i as int);
        let c = v[i];
        if c == '\r' && v.len() - i >= 2 && v[i + 1] == '\n' {
            proof {
                assert(t[0] == v@[i as int] && t[1] == v@[i + 1]);
                assert(t.skip(2) =~= v@.skip(i + 2));
            }
            r.push('\n');
            i = i + 2;
        } else {
            proof {
                assert(t[0] == v@[i as int]);
                assert(t.len() >= 2 ==> t[1] == v@[i + 1]);
                assert(t.skip(1) =~= v@.skip(i + 1));
            }
            r.push(c);
            i = i + 1;
        }
        proof {
            assert(normalize(v@) =~= r@ + normalize(v@.skip(i as int)));
        }
    }
    proof {
        assert(v@.skip(v@.len() as int) =~= Seq::<char>::empty());
    }
    r
}

/// The counter can only grow during a parse, by at most the length of
/// the consumed text.
pub proof fn lemma_parse_counter(ks: Seq<BlockKind>, inls: Seq<InlineKind>, t: Seq<char>, c: nat)
    ensures
        c <= spec_parse(ks, inls, t, c).1 <= c + t.len(),
    decreases t.len(),
{
    if t.len() > 0 {
        lemma_block_first_match(ks, t);
        match block_first_match(ks, t) {
            Some(k) => {
                lemma_block_len_bounds(k, t);
                let node_res = spec_make_node(k, t, inls, c);
                match k {
                    BlockKind::Paragraph => {
                        crate::inline::lemma_apply_counter(
                            inls,
                            nl_to_space(t.subrange(0, para_len(t))),
                            c,
                        );
                        lemma_para_len_bounds(t);
                    },
                    _ => {},
                }
                lemma_parse_counter(ks, inls, t.skip(block_kind_len(k, t)), node_res.1);
            },
            None => {
                lemma_parse_counter(ks, inls, t.skip(1), c);
            },
        }
    }
}

/// The sequence numbers handed out over a whole scan, in resolution
/// order: only paragraph matches substitute inline text and consume
/// numbers; skipped characters and other nodes consume none.
pub open spec fn parse_note_numbers(
    ks: Seq<BlockKind>,
    inls: Seq<InlineKind>,
    t: Seq<char>,
    c: nat,
) -> Seq<nat>
    decreases t.len(),
    via parse_note_numbers_decreases
{
    if t.len() == 0 {
        Seq::empty()
    } else {
        match block_first_match(ks, t) {
            Some(k) => {
                let here = match k {
                    BlockKind::Paragraph => crate::inline::apply_note_numbers(
                        inls,
                        nl_to_space(t.subrange(0, para_len(t))),
                        c,
                    ),
                    _ => Seq::empty(),
                };
                here + parse_note_numbers(
                    ks,
                    inls,
                    t.skip(block_kind_len(k, t)),
                    spec_make_node(k, t, inls, c).1,
                )
            },
            None => parse_note_numbers(ks, inls, t.skip(1), c),
        }
    }
}

#[via_fn]
proof fn parse_note_numbers_decreases(
    ks: Seq<BlockKind>,
    inls: Seq<InlineKind>,
    t: Seq<char>,
    c: nat,
) {
    if t.len() > 0 {
        lemma_block_first_match(ks, t);
        match block_first_match(ks, t) {
            Some(k) => {
                lemma_block_len_bounds(k, t);
            },
            None => {},
        }
    }
}

/// Over any text span the sequence numbers assigned during a scan, in
/// resolution order, are exactly `c`, `c + 1`, `c + 2`, ... up to the
/// counter value the scan leaves behind.
pub proof fn lemma_parse_note_numbers_consecutive(
    ks: Seq<BlockKind>,
    inls: Seq<InlineKind>,
    t: Seq<char>,
    c: nat,
)
    ensures
        parse_note_numbers(ks, inls, t, c) == Seq::new(
            (spec_parse(ks, inls, t, c).1 - c) as nat,
            |i: int| (c + i) as nat,
        ),
    decreases t.len(),
{
    lemma_parse_counter(ks, inls, t, c);
    if t.len() == 0 {
        assert(parse_note_numbers(ks, inls, t, c) =~= Seq::new(
            (spec_parse(ks, inls, t, c).1 - c) as nat,
            |i: int| (c + i) as nat,
        ));
    } else {
        lemma_block_first_match(ks, t);
        match block_first_match(ks, t) {
            Some(k) => {
                lemma_block_len_bounds(k, t);
                let c1 = spec_make_node(k, t, inls, c).1;
                let rest = t.skip(block_kind_len(k, t));
                lemma_parse_note_numbers_consecutive(ks, inls, rest, c1);
                lemma_parse_counter(ks, inls, rest, c1);
                match k {
                    BlockKind::Paragraph => {
                        let joined = nl_to_space(t.subrange(0, para_len(t)));
                        crate::inline::lemma_note_numbers_consecutive(inls, joined, c);
                        crate::inline::lemma_apply_counter(inls, joined, c);
                    },
                    _ => {},
                }
                assert(parse_note_numbers(ks, inls, t, c) =~= Seq::new(
                    (spec_parse(ks, inls, t, c).1 - c) as nat,
                    |i: int| (c + i) as nat,
                ));
            },
            None => {
                lemma_parse_note_numbers_consecutive(ks, inls, t.skip(1), c);
            },
        }
    }
}

/// Across a whole document parse, which starts from a fresh counter,
/// inline note substitutions receive in resolution order the numbers
/// 0, 1, 2, ...: strictly increasing from zero, regardless of which
/// paragraph or nesting level each note sits in.
pub proof fn lemma_document_note_numbers(ks: Seq<BlockKind>, inls: Seq<InlineKind>, t: Seq<char>)
    ensures
        parse_note_numbers(ks, inls, t, 0) == Seq::new(
            spec_parse(ks, inls, t, 0).1,
            |i: int| i as nat,
        ),
{
    lemma_parse_note_numbers_consecutive(ks, inls, t, 0);
    assert(parse_note_numbers(ks, inls, t, 0) =~= Seq::new(
        spec_parse(ks, inls, t, 0).1,
        |i: int| i as nat,
    ));
}

/// Whether every heading in `nodes` carries the slug id derived from
/// its own text.
pub open spec fn heading_ids_derived(nodes: Seq<SpecNode>) -> bool {
    forall|i: int|
        #![trigger nodes[i]]
        0 <= i < nodes.len() ==> (nodes[i] is Heading ==> nodes[i]->Heading_0.id == spec_slug(
            nodes[i]->Heading_0.text,
        ))
}

/// Every heading node a parse produces carries the slug id derived
/// deterministically from its heading text.
pub proof fn lemma_heading_ids_derived(
    ks: Seq<BlockKind>,
    inls: Seq<InlineKind>,
    t: Seq<char>,
    c: nat,
)
    ensures
        heading_ids_derived(spec_parse(ks, inls, t, c).0),
    decreases t.len(),
{
    if t.len() > 0 {
        lemma_block_first_match(ks, t);
        match block_first_match(ks, t) {
            Some(k) => {
                lemma_block_len_bounds(k, t);
                let c1 = spec_make_node(k, t, inls, c).1;
                let rest = spec_parse(ks, inls, t.skip(block_kind_len(k, t)), c1).0;
                lemma_heading_ids_derived(ks, inls, t.skip(block_kind_len(k, t)), c1);
                let nodes = spec_parse(ks, inls, t, c).0;
                assert forall|i: int|
                    0 <= i < nodes.len() && nodes[i] is Heading implies nodes[i]->Heading_0.id
                    == spec_slug(nodes[i]->Heading_0.text) by {
                    if i > 0 {
                        assert(nodes[i] == rest[i - 1]);
                    }
                }
            },
            None => {
                lemma_heading_ids_derived(ks, inls, t.skip(1), c);
            },
        }
    }
}

/// Two headings with identical text in one document produce the same,
/// colliding slug id: collisions are not disambiguated.
pub proof fn lemma_heading_slug_collision(
    ks: Seq<BlockKind>,
    inls: Seq<InlineKind>,
    t: Seq<char>,
    c: nat,
    i: int,
    j: int,
)
    requires
        0 <= i < spec_parse(ks, inls, t, c).0.len(),
        0 <= j < spec_parse(ks, inls, t, c).0.len(),
        spec_parse(ks, inls, t, c).0[i] is Heading,
        spec_parse(ks, inls, t, c).0[j] is Heading,
        spec_parse(ks, inls, t, c).0[i]->Heading_0.text == spec_parse(
            ks,
            inls,
            t,
            c,
        ).0[j]->Heading_0.text,
    ensures
        spec_parse(ks, inls, t, c).0[i]->Heading_0.id == spec_parse(
            ks,
            inls,
            t,
            c,
        ).0[j]->Heading_0.id,
{
    lemma_heading_ids_derived(ks, inls, t, c);
}

/// A fenced block is kept verbatim: with the code rule registered
/// first, an opening fence, arbitrary inner text and a closing fence
/// parse to exactly one code block whose stored code is the inner
/// text, character for character, and no number is consumed.
pub proof fn lemma_code_block_verbatim(
    ks: Seq<BlockKind>,
    inls: Seq<InlineKind>,
    inner: Seq<char>,
    c: nat,
)
    requires
        ks.len() > 0,
        ks[0] == BlockKind::CodeBlock,
    ensures
        spec_parse(ks, inls, "```"@ + inner + "```"@, c).0 == seq![
            SpecNode::Code(SpecCodeBlock { source: None, code: inner }),
        ],
        spec_parse(ks, inls, "```"@ + inner + "```"@, c).1 == c,
{
    reveal_strlit("```");
    let t = "```"@ + inner + "```"@;
    let e = t.len() - 3;
    assert(t[0] == '`' && t[1] == '`' && t[2] == '`');
    assert(is_fence_at(t, 0));
    assert(t[e] == '`' && t[e + 1] == '`' && t[e + 2] == '`');
    assert(is_fence_at(t, e));
    assert(code_close(t) == Some(e));
    assert(code_match_at(t));
    assert(block_first_match(ks, t) == Some(BlockKind::CodeBlock));
    assert(code_inner(t) =~= inner);
    assert(code_match_len(t) == t.len());
    let node = SpecNode::Code(SpecCodeBlock { source: None, code: inner });
    assert(spec_make_node(BlockKind::CodeBlock, t, inls, c) == (node, c));
    let rest_t = t.skip(t.len() as int);
    assert(rest_t =~= Seq::<char>::empty());
    assert(rest_t.len() == 0);
    assert(spec_parse(ks, inls, rest_t, c) == (Seq::<SpecNode>::empty(), c));
    assert(spec_parse(ks, inls, t, c) == (
        seq![node] + Seq::<SpecNode>::empty(),
        spec_parse(ks, inls, rest_t, c).1,
    ));
    assert(seq![node] + Seq::<SpecNode>::empty() =~= seq![node]);
}

/// A position that no registered block rule matches is skipped
/// without aborting the scan: the character is dropped, no node is
/// emitted for it, and the remainder parses exactly as it would on
/// its own.
pub proof fn lemma_skip_recovery(ks: Seq<BlockKind>, inls: Seq<InlineKind>, t: Seq<char>, c: nat)
    requires
        t.len() > 0,
        block_first_match(ks, t) is None,
    ensures
        spec_parse(ks, inls, t, c) == spec_parse(ks, inls, t.skip(1), c),
{
}

/// The parser: the ordered registry of block rules and the inline
/// engine its constructors hand paragraph text to.
pub struct Parser {
    element_types: Vec<BlockKind>,
    inline: InlineParser,
}

impl Parser {
    /// The registered block rules, in registration order.
    pub closed spec fn blocks(&self) -> Seq<BlockKind> {
        self.element_types@
    }

    /// The registered inline rules, in registration order.
    pub closed spec fn inlines(&self) -> Seq<InlineKind> {
        self.inline@
    }

    /// A parser with no registered rules.
    pub fn new() -> (r: Parser)
        ensures
            r.blocks() == Seq::<BlockKind>::empty(),
            r.inlines() == Seq::<InlineKind>::empty(),
    {
        let r = Parser { element_types: Vec::new(), inline: InlineParser::empty() };
        proof {
            assert(r.blocks() =~= Seq::<BlockKind>::empty());
        }
        r
    }

    /// Appends a block rule; later rules only apply where every earlier
    /// one fails to match.
    pub fn add_element(&mut self, k: BlockKind)
        ensures
            final(self).blocks() == old(self).blocks().push(k),
            final(self).inlines() == old(self).inlines(),
    {
        self.element_types.push(k);
    }

    /// Appends an inline rule; later rules only apply where every
    /// earlier one fails to match.
    pub fn add_inline(&mut self, k: InlineKind)
        ensures
            final(self).blocks() == old(self).blocks(),
            final(self).inlines() == old(self).inlines().push(k),
    {
        self.inline.push_rule(k);
    }

    /// The inline engine holding the registered inline rules.
    pub fn inline(&self) -> (r: &InlineParser)
        ensures
            r@ == self.inlines(),
    {
        &self.inline
    }

    /// The first registered block rule matching at position `pos`, with
    /// its match length.
    fn first_block_match(&self, s: &Vec<char>, pos: usize) -> (res: Option<(BlockKind, usize)>)
        requires
            pos <= s@.len(),
        ensures
            (match res {
                Some(kl) => {
                    &&& block_first_match(self.blocks(), s@.skip(pos as int)) == Some(kl.0)
                    &&& kl.1 as int == block_kind_len(kl.0, s@.skip(pos as int))
                    &&& 1 <= kl.1
                    &&& pos + kl.1 <= s@.len()
                },
                None => block_first_match(self.blocks(), s@.skip(pos as int)) is None,
            }),
    {
        let ghost t = s@.skip(pos as int);
        let n = self.element_types.len();
        let mut i: usize = 0;
        proof {
            assert(self.blocks().skip(0) =~= self.blocks());
        }
        while i < n
            invariant
                i <= n,
                n == self.blocks().len(),
                pos <= s@.len(),
                t == s@.skip(pos as int),
                block_first_match(self.blocks(), t) == block_first_match(
                    self.blocks().skip(i as int),
                    t,
                ),
            decreases n - i,
        {
            proof {
                assert(self.blocks().skip(i as int)[0] == self.blocks()[i as int]);
                assert(self.blocks().skip(i as int).drop_first() =~= self.blocks().skip(i + 1));
            }
            let k = self.element_types[i];
            match match_block_kind(k, s, pos) {
                Some(l) => {
                    return Some((k, l));
                },
                None => {},
            }
            i = i + 1;
        }
        proof {
            assert(self.blocks().skip(n as int) =~= Seq::<BlockKind>::empty());
        }
        None
    }

    /// Builds the node for a match of rule `k` at position `pos`,
    /// advancing the counter when the rule substitutes inline text.
    #[verifier::rlimit(50)]
    fn make_node(&self, k: BlockKind, s: &Vec<char>, pos: usize, mlen: usize, counter: usize) -> (res: (
        Node,
        usize,
    ))
        requires
            pos <= s@.len(),
            block_kind_matches(k, s@.skip(pos as int)),
            mlen as int == block_kind_len(k, s@.skip(pos as int)),
            pos + mlen <= s@.len(),
            counter + (s@.len() - pos) <= usize::MAX,
        ensures
            res.0@ == spec_make_node(k, s@.skip(pos as int), self.inlines(), counter as nat).0,
            res.1 as nat == spec_make_node(k, s@.skip(pos as int), self.inlines(), counter as nat).1,
            counter <= res.1,
            res.1 <= counter + mlen,
    {
        let ghost t = s@.skip(pos as int);
        let slen = s.len();
        match k {
            BlockKind::CodeBlock => {
                proof {
                    lemma_last_fence_bounds(t, t.len() - 3);
                    assert(mlen >= 6);
                }
                let inner = copy_range(s, pos + 3, pos + mlen - 3);
                proof {
                    assert(inner@ =~= code_inner(t));
                }
                let code = chars_to_string(&inner);
                (Node::Code(CodeBlock::create(code)), counter)
            },
            BlockKind::Heading => {
                let h = scan_hash_run(s, pos);
                let w = scan_ws_run(s, pos + h);
                let l = scan_line_run(s, pos + h + w);
                proof {
                    assert(t.skip(h as int) =~= s@.skip(pos + h));
                    assert(t.skip(h + w) =~= s@.skip(pos + h + w));
                }
                let text = copy_range(s, pos + h + w, pos + h + w + l);
                proof {
                    assert(text@ =~= heading_text(t));
                }
                let id_chars = slug_chars(&text);
                let id = chars_to_string(&id_chars);
                let heading = chars_to_string(&text);
                (Node::Heading(Heading::assemble(h, id, heading)), counter)
            },
            BlockKind::Paragraph => {
                let captured = copy_range(s, pos, pos + mlen);
                proof {
                    assert(captured@ =~= t.subrange(0, para_len(t)));
                }
                let joined = nl_to_space_exec(&captured);
                let res = self.inline.apply_chars(&joined, counter);
                proof {
                    crate::inline::lemma_apply_counter(
                        self.inlines(),
                        nl_to_space(t.subrange(0, para_len(t))),
                        counter as nat,
                    );
                }
                (Node::Paragraph(Paragraph::assemble(res.0)), res.1)
            },
        }
    }

    /// Parses body text into a document: line endings are normalized
    /// once up front, then the registered rules scan the text in order.
    /// Each parse owns a fresh sequence counter starting at zero.
    pub fn parse(&self, text: &str) -> (r: MDXFile)
        ensures
            r@ == spec_parse(self.blocks(), self.inlines(), normalize(text@), 0).0,
    {
        let raw = str_to_chars(text);
        let norm = normalize_chars(&raw);
        let ghost full = norm@;
        let mut elements: Vec<Node> = Vec::new();
        let mut cur: usize = 0;
        let mut counter: usize = 0;
        proof {
            assert(full.skip(0) =~= full);
            assert(elements@.map_values(|n: Node| n@) + spec_parse(
                self.blocks(),
                self.inlines(),
                full,
                0,
            ).0 =~= spec_parse(self.blocks(), self.inlines(), full, 0).0);
        }
        while cur < norm.len()
            invariant
                cur <= full.len(),
                full == norm@,
                counter <= cur,
                spec_parse(self.blocks(), self.inlines(), full, 0).0 == elements@.map_values(
                    |n: Node| n@,
                ) + spec_parse(
                    self.blocks(),
                    self.inlines(),
                    full.skip(cur as int),
                    counter as nat,
                ).0,
            decreases full.len() - cur,
        {
            let ghost t = full.skip(cur as int);
            match self.first_block_match(&norm, cur) {
                Some(kl) => {
                    let (k, mlen) = kl;
                    proof {
                        lemma_block_first_match(self.blocks(), t);
                    }
                    let made = self.make_node(k, &norm, cur, mlen, counter);
                    elements.push(made.0);
                    counter = made.1;
                    cur = cur + mlen;
                    proof {
                        assert(t.skip(mlen as int) =~= full.skip(cur as int));
                        assert(elements@.map_values(|n: Node| n@) =~= elements@.subrange(
                            0,
                            elements@.len() - 1,
                        ).map_values(|n: Node| n@).push(made.0@));
                        assert(spec_parse(self.blocks(), self.inlines(), full, 0).0
                            =~= elements@.map_values(|n: Node| n@) + spec_parse(
                            self.blocks(),
                            self.inlines(),
                            full.skip(cur as int),
                            counter as nat,
                        ).0);
                    }
                },
                None => {
                    cur = cur + 1;
                    proof {
                        assert(t.skip(1) =~= full.skip(cur as int));
                    }
                },
            }
        }
        proof {
            assert(full.skip(full.len() as int) =~= Seq::<char>::empty());
            assert(elements@.map_values(|n: Node| n@) =~= spec_parse(
                self.blocks(),
                self.inlines(),
                full,
                0,
            ).0);
        }
        MDXFile::assemble(elements)
    }
}

} // verus!
