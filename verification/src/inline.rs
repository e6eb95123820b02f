//! The inline substitution engine: an ordered registry of inline rules
//! applied to a text span with first-match-wins semantics, plus the
//! document-scoped sequence counter threaded through every call.

use vstd::prelude::*;
use crate::chars::{copy_range, push_char, str_to_chars};
use crate::nodes::{Note, SpecNote, spec_render_note};

verus! {

/// The inline rule kinds that can be registered; rules are tried in
/// registration order at each position of the scanned text.
#[derive(Clone, Copy, Debug)]
pub enum InlineKind {
    /// A note span: an opening marker, a body in which a closing tick
    /// may only appear escaped, and a closing tick. It is replaced by a
    /// rendered note carrying the next sequence number.
    Note,
}

/// Whether position `j` of `r` holds a closing tick: a backtick not
/// escaped by an immediately preceding backslash.
pub open spec fn is_bare_tick(r: Seq<char>, j: int) -> bool {
    r[j] == '`' && (j == 0 || r[j - 1] != '\\')
}

/// The first unescaped backtick at or after position `i`, if any.
pub open spec fn first_bare_from(r: Seq<char>, i: int) -> Option<int>
    decreases r.len() - i,
{
    if i >= r.len() {
        None
    } else if is_bare_tick(r, i) {
        Some(i)
    } else {
        first_bare_from(r, i + 1)
    }
}

/// The last backtick at or before position `i`, if any.
pub open spec fn last_tick_from(r: Seq<char>, i: int) -> Option<int>
    decreases i + 1,
{
    if i < 0 {
        None
    } else if r[i] == '`' {
        Some(i)
    } else {
        last_tick_from(r, i - 1)
    }
}

/// Where the note body ends in `r`, the text after the opening marker:
/// the closing tick is the first unescaped backtick or, when every
/// backtick is escaped, the last backtick, so that the body is the
/// longest span in which backticks appear only escaped.
pub open spec fn note_close(r: Seq<char>) -> Option<int> {
    match first_bare_from(r, 0) {
        Some(j) => Some(j),
        None => last_tick_from(r, r.len() - 1),
    }
}

/// Whether a note span starts at the first position of `t`: the opening
/// marker followed by a closable body.
pub open spec fn note_match_at(t: Seq<char>) -> bool {
    &&& t.len() >= 6
    &&& t[0] == '`'
    &&& t[1] == '@'
    &&& t[2] == 'n'
    &&& t[3] == 'o'
    &&& t[4] == 't'
    &&& t[5] == 'e'
    &&& note_close(t.skip(6)) is Some
}

/// The note body captured by a match at the first position of `t`.
pub open spec fn note_body(t: Seq<char>) -> Seq<char> {
    t.subrange(6, 6 + note_close(t.skip(6))->Some_0)
}

/// How many characters a note match at the first position of `t`
/// consumes: marker, body and closing tick.
pub open spec fn note_match_len(t: Seq<char>) -> int {
    7 + note_close(t.skip(6))->Some_0
}

/// Whether inline rule `k` matches at the first position of `t`.
pub open spec fn inline_kind_matches(k: InlineKind, t: Seq<char>) -> bool {
    match k {
        InlineKind::Note => note_match_at(t),
    }
}

/// The first registered rule in `ks` that matches at the first position
/// of `t`, in registration order.
pub open spec fn inline_first_match(ks: Seq<InlineKind>, t: Seq<char>) -> Option<InlineKind>
    decreases ks.len(),
{
    if ks.len() == 0 {
        None
    } else if inline_kind_matches(ks[0], t) {
        Some(ks[0])
    } else {
        inline_first_match(ks.drop_first(), t)
    }
}

proof fn lemma_inline_first_match(ks: Seq<InlineKind>, t: Seq<char>)
    ensures
        match inline_first_match(ks, t) {
            Some(k) => inline_kind_matches(k, t),
            None => true,
        },
    decreases ks.len(),
{
    if ks.len() > 0 && !inline_kind_matches(ks[0], t) {
        lemma_inline_first_match(ks.drop_first(), t);
    }
}

proof fn lemma_first_bare_bounds(r: Seq<char>, i: int)
    requires
        0 <= i,
    ensures
        match first_bare_from(r, i) {
            Some(j) => i <= j < r.len(),
            None => true,
        },
    decreases r.len() - i,
{
    if i < r.len() && !is_bare_tick(r, i) {
        lemma_first_bare_bounds(r, i + 1);
    }
}

proof fn lemma_last_tick_bounds(r: Seq<char>, i: int)
    requires
        i < r.len(),
    ensures
        match last_tick_from(r, i) {
            Some(j) => 0 <= j <= i,
            None => true,
        },
    decreases i + 1,
{
    if i >= 0 && r[i] != '`' {
        lemma_last_tick_bounds(r, i - 1);
    }
}

proof fn lemma_note_close_bounds(r: Seq<char>)
    ensures
        match note_close(r) {
            Some(j) => 0 <= j < r.len(),
            None => true,
        },
{
    lemma_first_bare_bounds(r, 0);
    if r.len() > 0 {
        lemma_last_tick_bounds(r, r.len() - 1);
    }
}

/// The result of running the inline pass over `t` with the registered
/// rules `ks`, starting from counter value `c`: the substituted text
/// and the counter left behind. At each position the first matching
/// rule wins; a matched note is replaced by its rendering, with its
/// body substituted recursively after the note takes the next number;
/// a position no rule matches is copied verbatim.
pub open spec fn spec_apply(ks: Seq<InlineKind>, t: Seq<char>, c: nat) -> (Seq<char>, nat)
    decreases t.len(),
    via spec_apply_decreases
{
    if t.len() == 0 {
        (Seq::empty(), c)
    } else {
        match inline_first_match(ks, t) {
            Some(InlineKind::Note) => {
                let body_res = spec_apply(ks, note_body(t), (c + 1) as nat);
                let repl = spec_render_note(SpecNote { number: c as int, note: body_res.0 });
                let rest_res = spec_apply(ks, t.skip(note_match_len(t)), body_res.1);
                (repl + rest_res.0, rest_res.1)
            },
            None => {
                let rest_res = spec_apply(ks, t.skip(1), c);
                (seq![t[0]] + rest_res.0, rest_res.1)
            },
        }
    }
}

#[via_fn]
proof fn spec_apply_decreases(ks: Seq<InlineKind>, t: Seq<char>, c: nat) {
    if t.len() > 0 {
        lemma_inline_first_match(ks, t);
        match inline_first_match(ks, t) {
            Some(InlineKind::Note) => {
                lemma_note_close_bounds(t.skip(6));
            },
            None => {},
        }
    }
}

/// The counter only grows during the inline pass, and it grows by at
/// most one per seven consumed characters, so never beyond the length
/// of the text.
pub proof fn lemma_apply_counter(ks: Seq<InlineKind>, t: Seq<char>, c: nat)
    ensures
        c <= spec_apply(ks, t, c).1 <= c + t.len(),
    decreases t.len(),
{
    if t.len() > 0 {
        lemma_inline_first_match(ks, t);
        match inline_first_match(ks, t) {
            Some(InlineKind::Note) => {
                lemma_note_close_bounds(t.skip(6));
                let body = note_body(t);
                let m = note_match_len(t);
                lemma_apply_counter(ks, body, (c + 1) as nat);
                lemma_apply_counter(ks, t.skip(m), spec_apply(ks, body, (c + 1) as nat).1);
            },
            None => {
                lemma_apply_counter(ks, t.skip(1), c);
            },
        }
    }
}

/// The sequence numbers handed out while the inline pass runs over
/// `t` from counter value `c`, in resolution order: a note's own
/// number first, then the numbers of its recursively substituted body,
/// then those of the text after the match.
pub open spec fn apply_note_numbers(ks: Seq<InlineKind>, t: Seq<char>, c: nat) -> Seq<nat>
    decreases t.len(),
    via apply_note_numbers_decreases
{
    if t.len() == 0 {
        Seq::empty()
    } else {
        match inline_first_match(ks, t) {
            Some(InlineKind::Note) => {
                let body_nums = apply_note_numbers(ks, note_body(t), (c + 1) as nat);
                let c1 = spec_apply(ks, note_body(t), (c + 1) as nat).1;
                seq![c] + body_nums + apply_note_numbers(ks, t.skip(note_match_len(t)), c1)
            },
            None => apply_note_numbers(ks, t.skip(1), c),
        }
    }
}

#[via_fn]
proof fn apply_note_numbers_decreases(ks: Seq<InlineKind>, t: Seq<char>, c: nat) {
    if t.len() > 0 {
        lemma_inline_first_match(ks, t);
        match inline_first_match(ks, t) {
            Some(InlineKind::Note) => {
                lemma_note_close_bounds(t.skip(6));
            },
            None => {},
        }
    }
}

/// Sequence numbers are handed out consecutively: over any text span
/// the numbers assigned in resolution order are exactly `c`, `c + 1`,
/// `c + 2`, ... up to the counter value the pass leaves behind — in
/// particular they strictly increase, whatever the nesting.
pub proof fn lemma_note_numbers_consecutive(ks: Seq<InlineKind>, t: Seq<char>, c: nat)
    ensures
        apply_note_numbers(ks, t, c) == Seq::new(
            (spec_apply(ks, t, c).1 - c) as nat,
            |i: int| (c + i) as nat,
        ),
    decreases t.len(),
{
    lemma_apply_counter(ks, t, c);
    if t.len() == 0 {
        assert(apply_note_numbers(ks, t, c) =~= Seq::new(
            (spec_apply(ks, t, c).1 - c) as nat,
            |i: int| (c + i) as nat,
        ));
    } else {
        lemma_inline_first_match(ks, t);
        match inline_first_match(ks, t) {
            Some(InlineKind::Note) => {
                lemma_note_close_bounds(t.skip(6));
                let body = note_body(t);
                let m = note_match_len(t);
                let c1 = spec_apply(ks, body, (c + 1) as nat).1;
                let c2 = spec_apply(ks, t.skip(m), c1).1;
                lemma_apply_counter(ks, body, (c + 1) as nat);
                lemma_apply_counter(ks, t.skip(m), c1);
                lemma_note_numbers_consecutive(ks, body, (c + 1) as nat);
                lemma_note_numbers_consecutive(ks, t.skip(m), c1);
                assert(spec_apply(ks, t, c).1 == c2);
                assert(apply_note_numbers(ks, t, c) =~= Seq::new(
                    (c2 - c) as nat,
                    |i: int| (c + i) as nat,
                ));
            },
            None => {
                lemma_note_numbers_consecutive(ks, t.skip(1), c);
            },
        }
    }
}

/// Finds the closing tick of a note body in `s` from position `pos`
/// on, mirroring `note_close` on the corresponding suffix.
fn find_note_close(s: &Vec<char>, pos: usize) -> (res: Option<usize>)
    requires
        pos <= s@.len(),
    ensures
        (match res {
            Some(j) => note_close(s@.skip(pos as int)) == Some(j as int),
            None => note_close(s@.skip(pos as int)) is None,
        }),
{
    let ghost r = s@.skip(pos as int);
    let len = s.len();
    let mut i: usize = pos;
    while i < len
        invariant
            pos <= i <= len,
            len == s@.len(),
            r == s@.skip(pos as int),
            first_bare_from(r, 0) == first_bare_from(r, i - pos),
        decreases len - i,
    {
        proof {
            assert(r[i - pos] == s@[i as int]);
            assert(i - pos > 0 ==> r[i - pos - 1] == s@[i - 1]);
        }
        if s[i] == '`' && (i == pos || s[i - 1] != '\\') {
            proof {
                assert(is_bare_tick(r, i - pos));
            }
            return Some(i - pos);
        }
        proof {
            assert(!is_bare_tick(r, i - pos));
        }
        i = i + 1;
    }
    // no unescaped backtick anywhere: fall back to the last backtick
    let mut k: usize = len;
    while k > pos
        invariant
            pos <= k <= len,
            len == s@.len(),
            r == s@.skip(pos as int),
            first_bare_from(r, 0) is None,
            last_tick_from(r, r.len() - 1) == last_tick_from(r, k - pos - 1),
        decreases k,
    {
        proof {
            assert(r[k - pos - 1] == s@[k - 1]);
        }
        if s[k - 1] == '`' {
            return Some(k - 1 - pos);
        }
        k = k - 1;
    }
    None
}

/// Tests whether a note span starts at position `pos` of `s`.
fn note_matches_at(s: &Vec<char>, pos: usize) -> (b: bool)
    requires
        pos <= s@.len(),
    ensures
        b == note_match_at(s@.skip(pos as int)),
{
    let ghost t = s@.skip(pos as int);
    let len = s.len();
    if len - pos < 6 {
        return false;
    }
    proof {
        assert(t[0] == s@[pos as int]);
        assert(t[1] == s@[pos + 1]);
        assert(t[2] == s@[pos + 2]);
        assert(t[3] == s@[pos + 3]);
        assert(t[4] == s@[pos + 4]);
        assert(t[5] == s@[pos + 5]);
    }
    if !(s[pos] == '`' && s[pos + 1] == '@' && s[pos + 2] == 'n' && s[pos + 3] == 'o' && s[pos + 4]
        == 't' && s[pos + 5] == 'e') {
        return false;
    }
    proof {
        assert(t.skip(6) =~= s@.skip(pos + 6));
    }
    match find_note_close(s, pos + 6) {
        Some(_) => true,
        None => false,
    }
}

/// The inline engine: the ordered list of registered inline rules.
/// The sequence counter is not stored here; each document parse owns a
/// fresh counter threaded explicitly through every substitution call.
pub struct InlineParser {
    inline_types: Vec<InlineKind>,
}

impl View for InlineParser {
    type V = Seq<InlineKind>;

    closed spec fn view(&self) -> Seq<InlineKind> {
        self.inline_types@
    }
}

impl InlineParser {
    /// An engine with no registered rules.
    pub(crate) fn empty() -> (r: InlineParser)
        ensures
            r@ == Seq::<InlineKind>::empty(),
    {
        let r = InlineParser { inline_types: Vec::new() };
        proof {
            assert(r@ =~= Seq::<InlineKind>::empty());
        }
        r
    }

    /// Appends an inline rule at the end of the registration order.
    pub(crate) fn push_rule(&mut self, k: InlineKind)
        ensures
            final(self)@ == old(self)@.push(k),
    {
        self.inline_types.push(k);
    }

    /// The first registered rule that matches at position `pos` of `s`.
    fn first_match(&self, s: &Vec<char>, pos: usize) -> (r: Option<InlineKind>)
        requires
            pos <= s@.len(),
        ensures
            r == inline_first_match(self@, s@.skip(pos as int)),
    {
        let ghost t = s@.skip(pos as int);
        let n = self.inline_types.len();
        let mut i: usize = 0;
        proof {
            assert(self@.skip(0) =~= self@);
        }
        while i < n
            invariant
                i <= n,
                n == self.inline_types@.len(),
                pos <= s@.len(),
                t == s@.skip(pos as int),
                inline_first_match(self@, t) == inline_first_match(self@.skip(i as int), t),
            decreases n - i,
        {
            proof {
                assert(self@.skip(i as int)[0] == self@[i as int]);
                assert(self@.skip(i as int).drop_first() =~= self@.skip(i + 1));
            }
            let matched = match self.inline_types[i] {
                InlineKind::Note => note_matches_at(s, pos),
            };
            if matched {
                return Some(self.inline_types[i]);
            }
            i = i + 1;
        }
        proof {
            assert(self@.skip(n as int) =~= Seq::<InlineKind>::empty());
        }
        None
    }

    /// Runs the inline pass over `s` starting from counter value
    /// `counter`; returns the substituted text and the counter left
    /// behind.
    pub(crate) fn apply_chars(&self, s: &Vec<char>, counter: usize) -> (res: (String, usize))
        requires
            counter + s@.len() <= usize::MAX,
        ensures
            res.0@ == spec_apply(self@, s@, counter as nat).0,
            res.1 as nat == spec_apply(self@, s@, counter as nat).1,
        decreases s@.len(),
    {
        let mut out = String::new();
        let mut cur: usize = 0;
        let mut c: usize = counter;
        proof {
            assert(s@.skip(0) =~= s@);
            assert(out@ + spec_apply(self@, s@, counter as nat).0 =~= spec_apply(
                self@,
                s@,
                counter as nat,
            ).0);
        }
        while cur < s.len()
            invariant
                cur <= s@.len(),
                counter + s@.len() <= usize::MAX,
                counter <= c,
                c <= counter + cur,
                spec_apply(self@, s@, counter as nat).0 == out@ + spec_apply(
                    self@,
                    s@.skip(cur as int),
                    c as nat,
                ).0,
                spec_apply(self@, s@, counter as nat).1 == spec_apply(
                    self@,
                    s@.skip(cur as int),
                    c as nat,
                ).1,
            decreases s@.len() - cur,
        {
            let ghost t = s@.skip(cur as int);
            let ghost out_before = out@;
            match self.first_match(s, cur) {
                Some(InlineKind::Note) => {
                    proof {
                        lemma_inline_first_match(self@, t);
                        assert(t.skip(6) =~= s@.skip(cur + 6));
                        lemma_note_close_bounds(t.skip(6));
                    }
                    let j = match find_note_close(s, cur + 6) {
                        Some(j) => j,
                        None => {
                            proof {
                                assert(false);
                            }
                            0
                        },
                    };
                    let body = copy_range(s, cur + 6, cur + 6 + j);
                    proof {
                        assert(body@ =~= note_body(t));
                    }
                    let num = c;
                    let rec = self.apply_chars(&body, num + 1);
                    let body_out = rec.0;
                    let c1 = rec.1;
                    let note = Note::create(num, body_out);
                    let repl = note.render();
                    out.append(repl.as_str());
                    c = c1;
                    cur = cur + 7 + j;
                    proof {
                        let body_res = spec_apply(self@, note_body(t), (num + 1) as nat);
                        lemma_apply_counter(self@, note_body(t), (num + 1) as nat);
                        assert(repl@ == spec_render_note(
                            SpecNote { number: num as int, note: body_res.0 },
                        ));
                        assert(t.skip(note_match_len(t)) =~= s@.skip(cur as int));
                        assert(spec_apply(self@, t, num as nat).0 == repl@ + spec_apply(
                            self@,
                            s@.skip(cur as int),
                            c as nat,
                        ).0);
                        assert(spec_apply(self@, s@, counter as nat).0 =~= out@ + spec_apply(
                            self@,
                            s@.skip(cur as int),
                            c as nat,
                        ).0);
                    }
                },
                None => {
                    push_char(&mut out, s[cur]);
                    cur = cur + 1;
                    proof {
                        assert(t[0] == s@[cur - 1]);
                        assert(t.skip(1) =~= s@.skip(cur as int));
                        assert(spec_apply(self@, t, c as nat).0 == seq![t[0]] + spec_apply(
                            self@,
                            s@.skip(cur as int),
                            c as nat,
                        ).0);
                        assert(spec_apply(self@, s@, counter as nat).0 =~= out@ + spec_apply(
                            self@,
                            s@.skip(cur as int),
                            c as nat,
                        ).0);
                    }
                },
            }
        }
        proof {
            assert(s@.skip(s@.len() as int) =~= Seq::<char>::empty());
        }
        (out, c)
    }

    /// Transforms a text span by the registered inline rules, reading
    /// and advancing the document's sequence counter.
    pub fn apply(&self, text: &str, counter: &mut usize) -> (r: String)
        requires
            *old(counter) + text@.len() <= usize::MAX,
        ensures
            r@ == spec_apply(self@, text@, *old(counter) as nat).0,
            *final(counter) as nat == spec_apply(self@, text@, *old(counter) as nat).1,
    {
        let chars = str_to_chars(text);
        let res = self.apply_chars(&chars, *counter);
        *counter = res.1;
        res.0
    }
}

} // verus!
