//! Character-addressable cursor over the full input buffer, with
//! offset-based peeking and bounds-safe sentinel behavior.

use vstd::prelude::*;

verus! {

use vstd::slice::slice_subrange;
use vstd::slice::slice_to_vec;

/// The character a read past the end of the buffer yields.
pub open spec fn sentinel() -> char {
    '\0'
}

/// The character of `s` at `i`, or the null sentinel out of bounds.
pub open spec fn char_at(s: Seq<char>, i: int) -> char {
    if 0 <= i < s.len() {
        s[i]
    } else {
        sentinel()
    }
}

/// The whitespace characters the grammar coalesces: the Unicode
/// characters with the White_Space property.
pub open spec fn is_ws_char(c: char) -> bool {
    c == ' ' || c == '\t' || c == '\n' || c == '\u{b}' || c == '\u{c}' || c == '\r' || c
        == '\u{85}' || c == '\u{a0}' || c == '\u{1680}' || ('\u{2000}' <= c && c <= '\u{200a}')
        || c == '\u{2028}' || c == '\u{2029}' || c == '\u{202f}' || c == '\u{205f}' || c
        == '\u{3000}'
}

/// Exec twin of [`is_ws_char`].
pub fn is_whitespace_char(c: char) -> (r: bool)
    ensures
        r == is_ws_char(c),
{
    c == ' ' || c == '\t' || c == '\n' || c == '\u{b}' || c == '\u{c}' || c == '\r' || c
        == '\u{85}' || c == '\u{a0}' || c == '\u{1680}' || ('\u{2000}' <= c && c <= '\u{200a}')
        || c == '\u{2028}' || c == '\u{2029}' || c == '\u{202f}' || c == '\u{205f}' || c
        == '\u{3000}'
}

/// Position just past a line comment entered at `i`: everything up to
/// and including the next newline is consumed; a comment hitting the
/// end of input consumes the rest.
pub open spec fn skip_comment(s: Seq<char>, i: int) -> int
    decreases s.len() - i,
{
    if i < 0 || i >= s.len() {
        s.len() as int
    } else if s[i] == '\n' {
        i + 1
    } else {
        skip_comment(s, i + 1)
    }
}

pub proof fn lemma_skip_comment_bounds(s: Seq<char>, i: int)
    requires
        0 <= i <= s.len(),
    ensures
        i <= skip_comment(s, i) <= s.len(),
    decreases s.len() - i,
{
    if i < s.len() && s[i] != '\n' {
        lemma_skip_comment_bounds(s, i + 1);
    }
}

/// Position of the next character that is neither whitespace nor part
/// of a `#`-comment, starting from `i`; `i` itself if it already is
/// such a position or lies at or past the end.
pub open spec fn skip_ws(s: Seq<char>, i: int) -> int
    decreases s.len() - i,
    via skip_ws_decreases
{
    if i < 0 || i >= s.len() {
        i
    } else if s[i] == '#' {
        skip_ws(s, skip_comment(s, i + 1))
    } else if is_ws_char(s[i]) {
        skip_ws(s, i + 1)
    } else {
        i
    }
}

#[via_fn]
proof fn skip_ws_decreases(s: Seq<char>, i: int) {
    if 0 <= i < s.len() && s[i] == '#' {
        lemma_skip_comment_bounds(s, i + 1);
    }
}

pub proof fn lemma_skip_ws_bounds(s: Seq<char>, i: int)
    requires
        0 <= i <= s.len(),
    ensures
        i <= skip_ws(s, i) <= s.len(),
    decreases s.len() - i,
{
    if i < s.len() {
        if s[i] == '#' {
            lemma_skip_comment_bounds(s, i + 1);
            lemma_skip_ws_bounds(s, skip_comment(s, i + 1));
        } else if is_ws_char(s[i]) {
            lemma_skip_ws_bounds(s, i + 1);
        }
    }
}

/// The literal sequence `p` occurs in `s` starting at position `i`.
/// An empty `p` is taken never to occur: every use of this predicate
/// is a trigger that must consume at least one character.
pub open spec fn prefix_at(p: Seq<char>, s: Seq<char>, i: int) -> bool {
    p.len() > 0 && 0 <= i && i + p.len() <= s.len() && s.subrange(i, i + p.len()) == p
}

/// Relies on str::chars: the characters of a string, in order; a
/// string's view is exactly that character sequence.
#[verifier::external_body]
pub fn string_to_chars(s: &str) -> (r: Vec<char>)
    ensures
        r@ == s@,
{
    s.chars().collect()
}

/// Relies on String's FromIterator impl over char: collecting
/// characters yields the string of exactly those characters, whose
/// view is that character sequence.
#[verifier::external_body]
pub fn chars_to_string(v: &Vec<char>) -> (s: String)
    ensures
        s@ == v@,
{
    v.iter().collect()
}

/// Cursor over a fully materialized character buffer.  The cursor
/// never exceeds the buffer length; reads past the end yield the null
/// sentinel instead of failing.  There is no implicit backtracking:
/// callers save and restore the offset themselves around speculative
/// parses.
pub struct Scanner {
    raw: Vec<char>,
    offset: usize,
}

impl Scanner {
    /// The full input buffer.
    pub closed spec fn input(&self) -> Seq<char> {
        self.raw@
    }

    /// The current cursor offset.
    pub closed spec fn pos(&self) -> int {
        self.offset as int
    }

    /// The cursor stays within the buffer.
    pub open spec fn wf(&self) -> bool {
        0 <= self.pos() <= self.input().len()
    }

    pub fn new(raw: Vec<char>) -> (s: Scanner)
        ensures
            s.input() == raw@,
            s.pos() == 0,
            s.wf(),
    {
        Scanner { raw, offset: 0 }
    }

    pub fn is_at_end(&self) -> (r: bool)
        requires
            self.wf(),
        ensures
            r == (self.pos() == self.input().len()),
    {
        self.raw.len() == self.offset
    }

    /// The current cursor offset, for snapshotting around a
    /// speculative parse.
    pub fn position(&self) -> (p: usize)
        ensures
            p as int == self.pos(),
    {
        self.offset
    }

    /// The length of the input buffer.
    pub fn len(&self) -> (n: usize)
        ensures
            n as int == self.input().len(),
    {
        self.raw.len()
    }

    /// Moves the cursor to `p`: the restore half of the snapshot and
    /// rollback discipline around speculative parses.
    pub fn set_position(&mut self, p: usize)
        requires
            p as int <= old(self).input().len(),
        ensures
            final(self).wf(),
            final(self).input() == old(self).input(),
            final(self).pos() == p as int,
    {
        self.offset = p;
    }

    /// The character at absolute offset `at`, or the sentinel.
    pub fn peek_at(&self, at: usize) -> (c: char)
        ensures
            c == char_at(self.input(), at as int),
    {
        if at < self.raw.len() {
            self.raw[at]
        } else {
            '\0'
        }
    }

    /// The character at the cursor, or the sentinel at the end.
    pub fn peek(&self) -> (c: char)
        ensures
            c == char_at(self.input(), self.pos()),
    {
        self.peek_at(self.offset)
    }

    /// Up to `len` characters from the cursor on, clamped to the
    /// remaining length; the cursor does not move.
    pub fn peek_many(&self, len: usize) -> (r: &[char])
        requires
            self.wf(),
        ensures
            r@ == self.input().subrange(
                self.pos(),
                if self.pos() + len <= self.input().len() {
                    self.pos() + len
                } else {
                    self.input().len() as int
                },
            ),
    {
        let remaining = self.raw.len() - self.offset;
        let take_len = if len <= remaining {
            len
        } else {
            remaining
        };
        slice_subrange(self.raw.as_slice(), self.offset, self.offset + take_len)
    }

    /// Returns the character at the cursor and advances past it; at
    /// the end of input, returns the sentinel and stays put.
    pub fn take(&mut self) -> (c: char)
        requires
            old(self).wf(),
        ensures
            final(self).wf(),
            final(self).input() == old(self).input(),
            c == char_at(old(self).input(), old(self).pos()),
            final(self).pos() == if old(self).pos() < old(self).input().len() {
                old(self).pos() + 1
            } else {
                old(self).pos()
            },
    {
        let c = self.peek();
        if self.offset < self.raw.len() {
            self.offset = self.offset + 1;
        }
        c
    }

    /// Returns up to `len` characters from the cursor on and advances
    /// past them, clamped to the remaining length.
    pub fn take_many(&mut self, len: usize) -> (r: Vec<char>)
        requires
            old(self).wf(),
        ensures
            final(self).wf(),
            final(self).input() == old(self).input(),
            final(self).pos() == if old(self).pos() + len <= old(self).input().len() {
                old(self).pos() + len
            } else {
                old(self).input().len() as int
            },
            r@ == old(self).input().subrange(old(self).pos(), final(self).pos()),
    {
        let remaining = self.raw.len() - self.offset;
        let take_len = if len <= remaining {
            len
        } else {
            remaining
        };
        let r = slice_to_vec(self.peek_many(len));
        self.offset = self.offset + take_len;
        r
    }

    /// Advances past whitespace and `#`-comments to the next
    /// significant character (or the end of input).
    pub fn move_past_whitespace(&mut self)
        requires
            old(self).wf(),
        ensures
            final(self).wf(),
            final(self).input() == old(self).input(),
            final(self).pos() == skip_ws(old(self).input(), old(self).pos()),
    {
        loop
            invariant
                self.wf(),
                self.input() == old(self).input(),
                skip_ws(self.input(), self.pos()) == skip_ws(self.input(), old(self).pos()),
            ensures
                skip_ws(self.input(), self.pos()) == self.pos(),
            decreases self.input().len() - self.pos(),
        {
            let c = self.peek();
            if c == '#' && self.offset < self.raw.len() {
                self.offset = self.offset + 1;
                proof {
                    lemma_skip_comment_bounds(self.input(), self.pos());
                }
                self.move_past_comment();
            } else if is_whitespace_char(c) && self.offset < self.raw.len() {
                self.offset = self.offset + 1;
            } else {
                break;
            }
        }
    }

    /// Advances through a line comment: everything up to and including
    /// the next newline, or the rest of the input.
    pub fn move_past_comment(&mut self)
        requires
            old(self).wf(),
        ensures
            final(self).wf(),
            final(self).input() == old(self).input(),
            final(self).pos() == skip_comment(old(self).input(), old(self).pos()),
            final(self).pos() > old(self).pos() || old(self).pos() == old(self).input().len(),
    {
        proof {
            lemma_skip_comment_bounds(self.input(), self.pos());
        }
        loop
            invariant
                self.wf(),
                self.input() == old(self).input(),
                skip_comment(self.input(), self.pos()) == skip_comment(
                    self.input(),
                    old(self).pos(),
                ),
                self.pos() >= old(self).pos(),
            decreases self.input().len() - self.pos(),
        {
            if self.offset == self.raw.len() {
                return;
            }
            let c = self.peek();
            self.offset = self.offset + 1;
            if c == '\n' {
                return;
            }
        }
    }
}

} // verus!
