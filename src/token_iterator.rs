//! The lexer: turns the text into tokens, dropping whitespace and comments.
use vstd::prelude::*;
use vstd::utf8::*;

use crate::keywords::{is_reserved, is_reserved_word};
use crate::text::{
    bytes_of, lemma_step_boundary, lemma_str_valid, lemma_ws_boundaries, str_eq, substr, ws_width,
};

verus! {

broadcast use {
    is_char_boundary_iff_not_is_continuation_byte,
    is_char_boundary_start_end_of_seq,
    encode_utf8_valid_utf8,
};

/// Position of the first byte at or after `i` that is neither whitespace nor
/// part of a comment (`len` when there is none). A comment runs from `;` to
/// the end of its line; `in_comment` says whether `i` lies inside one.
pub open spec fn skip_blank(b: Seq<u8>, i: int, in_comment: bool) -> int
    decreases b.len() - i,
{
    if i >= b.len() {
        b.len() as int
    } else if in_comment {
        skip_blank(b, i + 1, b[i] != 0x0a)
    } else if ws_width(b, i) > 0 {
        skip_blank(b, i + ws_width(b, i), false)
    } else if b[i] == 0x3b {
        skip_blank(b, i + 1, true)
    } else {
        i
    }
}

/// Where the cursor rests after position `x`: on the next token when one
/// follows, otherwise at `x` itself.
pub open spec fn resting(b: Seq<u8>, x: int) -> int {
    if skip_blank(b, x, false) < b.len() {
        skip_blank(b, x, false)
    } else {
        x
    }
}

/// Bytes that always form a token of their own (`,` `:` `=`), and `.` while
/// a version number is being read.
pub open spec fn is_single(c: u8, dot: bool) -> bool {
    c == 0x2c || c == 0x3a || c == 0x3d || (dot && c == 0x2e)
}

/// End of an unquoted token whose remaining bytes start at `j`.
pub open spec fn bare_end(b: Seq<u8>, j: int, dot: bool) -> int
    decreases b.len() - j,
{
    if j >= b.len() {
        b.len() as int
    } else if ws_width(b, j) > 0 || is_single(b[j], dot) {
        j
    } else {
        bare_end(b, j + 1, dot)
    }
}

/// Position of the first `"` at or after `j` (`len` when there is none).
pub open spec fn quote_close(b: Seq<u8>, j: int) -> int
    decreases b.len() - j,
{
    if j >= b.len() {
        b.len() as int
    } else if b[j] == 0x22 {
        j
    } else {
        quote_close(b, j + 1)
    }
}

/// End of the text once trailing whitespace is cut off, scanning from `j`;
/// `last` is the end of the last non-whitespace byte seen so far.
pub open spec fn solid_end(b: Seq<u8>, j: int, last: int) -> int
    decreases b.len() - j,
{
    if j >= b.len() {
        last
    } else if ws_width(b, j) > 0 {
        solid_end(b, j + ws_width(b, j), last)
    } else {
        solid_end(b, j + 1, j + 1)
    }
}

/// The token that starts at `s`, as (start, end, position after it).
/// A quoted token keeps its opening quote and stops before the closing one;
/// an unterminated quote runs to the end of the text, trailing whitespace
/// excluded.
pub open spec fn lex_token(b: Seq<u8>, s: int, dot: bool) -> (int, int, int) {
    if is_single(b[s], dot) {
        (s, s + 1, s + 1)
    } else if b[s] == 0x22 {
        let q = quote_close(b, s + 1);
        if q < b.len() {
            (s, q, q + 1)
        } else {
            let e = solid_end(b, s + 1, s + 1);
            (s, e, e)
        }
    } else {
        let e = bare_end(b, s + 1, dot);
        (s, e, e)
    }
}

/// The next token at or after `pos`, if any.
pub open spec fn next_token(b: Seq<u8>, pos: int, dot: bool) -> Option<(int, int, int)> {
    let s = skip_blank(b, pos, false);
    if s < b.len() {
        Some(lex_token(b, s, dot))
    } else {
        None
    }
}

/// How many tokens ago `VERSION` was read, after reading `tok`: the two
/// tokens that follow `VERSION` treat `.` as a token of its own.
pub open spec fn window_after(window: u8, tok: Option<Seq<u8>>) -> u8 {
    if tok == Some(bytes_of("VERSION")) {
        1
    } else if window == 1 {
        2
    } else {
        0
    }
}

proof fn lemma_skip_blank(b: Seq<u8>, i: int, c: bool)
    requires
        valid_utf8(b),
        0 <= i <= b.len(),
        c || is_char_boundary(b, i),
    ensures
        i <= skip_blank(b, i, c) <= b.len(),
        is_char_boundary(b, skip_blank(b, i, c)),
        skip_blank(b, i, c) < b.len() ==> ws_width(b, skip_blank(b, i, c)) == 0 && b[skip_blank(
            b,
            i,
            c,
        )] != 0x3b,
        skip_blank(b, i, c) < b.len() ==> !c || i < skip_blank(b, i, c),
    decreases b.len() - i,
{
    if i < b.len() {
        if c {
            if b[i] == 0x0a {
                lemma_step_boundary(b, i);
            }
            lemma_skip_blank(b, i + 1, b[i] != 0x0a);
        } else if ws_width(b, i) > 0 {
            lemma_ws_boundaries(b, i);
            lemma_skip_blank(b, i + ws_width(b, i), false);
        } else if b[i] == 0x3b {
            lemma_skip_blank(b, i + 1, true);
        }
    }
}

/// Where the cursor rests is on a character boundary, and nothing but the
/// token itself is skipped from there.
pub proof fn lemma_resting(b: Seq<u8>, x: int)
    requires
        valid_utf8(b),
        0 <= x <= b.len(),
        is_char_boundary(b, x),
    ensures
        x <= resting(b, x) <= b.len(),
        is_char_boundary(b, resting(b, x)),
        skip_blank(b, resting(b, x), false) == resting(b, x) || skip_blank(
            b,
            resting(b, x),
            false,
        ) == b.len(),
        skip_blank(b, resting(b, x), false) == skip_blank(b, x, false),
{
    lemma_skip_blank(b, x, false);
    let s = skip_blank(b, x, false);
    if s < b.len() {
        assert(skip_blank(b, s, false) == s);
    }
}

proof fn lemma_bare_end(b: Seq<u8>, j: int, dot: bool)
    requires
        valid_utf8(b),
        0 <= j <= b.len(),
    ensures
        j <= bare_end(b, j, dot) <= b.len(),
        is_char_boundary(b, bare_end(b, j, dot)),
    decreases b.len() - j,
{
    assert(is_char_boundary(b, b.len() as int));
    if j < b.len() {
        if ws_width(b, j) > 0 {
            lemma_ws_boundaries(b, j);
        } else if is_single(b[j], dot) {
            assert(!is_continuation_byte(b[j]));
        } else {
            lemma_bare_end(b, j + 1, dot);
        }
    }
}

proof fn lemma_quote_close(b: Seq<u8>, j: int)
    requires
        0 <= j <= b.len(),
    ensures
        j <= quote_close(b, j) <= b.len(),
        quote_close(b, j) < b.len() ==> b[quote_close(b, j)] == 0x22,
    decreases b.len() - j,
{
    if j < b.len() && b[j] != 0x22 {
        lemma_quote_close(b, j + 1);
    }
}

proof fn lemma_solid_end_gen(b: Seq<u8>, j: int, last: int)
    requires
        valid_utf8(b),
        0 <= last <= j <= b.len(),
        last == j || ws_width(b, last) > 0,
    ensures
        last <= solid_end(b, j, last) <= b.len(),
        solid_end(b, j, last) == b.len() || ws_width(b, solid_end(b, j, last)) > 0,
    decreases b.len() - j,
{
    if j < b.len() {
        if ws_width(b, j) > 0 {
            lemma_solid_end_gen(b, j + ws_width(b, j), last);
        } else {
            lemma_solid_end_gen(b, j + 1, j + 1);
        }
    }
}

/// The token at a resting position is non-empty, lies on character
/// boundaries, and the position after it lies beyond its start.
pub proof fn lemma_lex_token(b: Seq<u8>, s: int, dot: bool)
    requires
        valid_utf8(b),
        0 <= s < b.len(),
        is_char_boundary(b, s),
    ensures
        lex_token(b, s, dot).0 == s,
        s < lex_token(b, s, dot).1 <= lex_token(b, s, dot).2 <= b.len(),
        is_char_boundary(b, lex_token(b, s, dot).1),
        is_char_boundary(b, lex_token(b, s, dot).2),
{
    if is_single(b[s], dot) {
        lemma_step_boundary(b, s);
    } else if b[s] == 0x22 {
        lemma_quote_close(b, s + 1);
        let q = quote_close(b, s + 1);
        if q < b.len() {
            lemma_step_boundary(b, q);
        } else {
            lemma_step_boundary(b, s);
            lemma_solid_end_gen(b, s + 1, s + 1);
            let e = solid_end(b, s + 1, s + 1);
            if e < b.len() {
                lemma_ws_boundaries(b, e);
            }
        }
    } else {
        lemma_bare_end(b, s + 1, dot);
    }
}

/// Abstract state of a token cursor over fixed bytes: its byte offset and
/// how many tokens ago `VERSION` was read.
pub struct Cursor {
    pub offset: int,
    pub window: u8,
}

/// The cursor rests on a character boundary, at the next token or past the
/// last one.
pub open spec fn cursor_wf(b: Seq<u8>, c: Cursor) -> bool {
    &&& valid_utf8(b)
    &&& 0 <= c.offset <= b.len()
    &&& is_char_boundary(b, c.offset)
    &&& c.window <= 2
    &&& (skip_blank(b, c.offset, false) == c.offset || skip_blank(b, c.offset, false) == b.len())
}

/// The next token as (start, end, position after it).
pub open spec fn spec_next(b: Seq<u8>, c: Cursor) -> Option<(int, int, int)> {
    next_token(b, c.offset, c.window != 0)
}

/// The bytes of the next token.
pub open spec fn spec_token(b: Seq<u8>, c: Cursor) -> Option<Seq<u8>> {
    match spec_next(b, c) {
        Some(t) => Some(b.subrange(t.0, t.1)),
        None => None,
    }
}

/// The cursor after the next token has been read.
pub open spec fn spec_eaten(b: Seq<u8>, c: Cursor) -> Cursor {
    Cursor {
        offset: match spec_next(b, c) {
            Some(t) => resting(b, t.2),
            None => c.offset,
        },
        window: window_after(c.window, spec_token(b, c)),
    }
}

/// The cursor at the start of the text.
pub open spec fn cursor_start(b: Seq<u8>) -> Cursor {
    Cursor { offset: resting(b, 0), window: 0 }
}

/// Reading a token keeps the cursor well formed and moves it forward past
/// the token's start, which is where the cursor was.
pub proof fn lemma_eaten(b: Seq<u8>, c: Cursor)
    requires
        cursor_wf(b, c),
    ensures
        cursor_wf(b, spec_eaten(b, c)),
        spec_next(b, c) is Some ==> c.offset < spec_eaten(b, c).offset,
        spec_next(b, c) is Some ==> spec_next(b, c).unwrap().0 == c.offset,
        spec_next(b, c) is Some ==> spec_next(b, c).unwrap().1 <= spec_eaten(b, c).offset,
{
    if let Some(t) = spec_next(b, c) {
        lemma_lex_token(b, c.offset, c.window != 0);
        lemma_resting(b, t.2);
    }
}

/// The cursor after `n` more reads.
pub open spec fn eaten_n(b: Seq<u8>, c: Cursor, n: nat) -> Cursor
    decreases n,
{
    if n == 0 {
        c
    } else {
        spec_eaten(b, eaten_n(b, c, (n - 1) as nat))
    }
}

/// Once the lexer is exhausted it stays so: however many more reads follow,
/// none returns a token and the cursor stays where it is.
pub proof fn lemma_exhausted(b: Seq<u8>, c: Cursor, n: nat)
    requires
        cursor_wf(b, c),
        spec_next(b, c) is None,
    ensures
        eaten_n(b, c, n).offset == c.offset,
        spec_token(b, eaten_n(b, c, n)) is None,
    decreases n,
{
    if n > 0 {
        lemma_exhausted(b, c, (n - 1) as nat);
    }
}

/// Cursor over the tokens of a text.
#[derive(Debug, Clone, Copy, PartialEq, Eq, Hash)]
pub struct TokenIterator<'a> {
    /// The whole text being read.
    pub text: &'a str,
    /// Byte offset of the cursor: the start of the next token, or where the
    /// last token ended once no token is left.
    pub offset: usize,
    /// 1 right after a `VERSION` token, 2 one token later, 0 otherwise.
    pub version_token_encountered_tokens_ago: u8,
}

impl<'a> TokenIterator<'a> {
    /// The bytes of the text.
    pub open spec fn bytes(&self) -> Seq<u8> {
        bytes_of(self.text)
    }

    /// The abstract state of the cursor.
    pub open spec fn cursor(&self) -> Cursor {
        Cursor { offset: self.offset as int, window: self.version_token_encountered_tokens_ago }
    }

    pub open spec fn wf(&self) -> bool {
        &&& self.bytes().len() <= usize::MAX
        &&& cursor_wf(self.bytes(), self.cursor())
    }

    /// The bytes of the next token.
    pub open spec fn next_bytes(&self) -> Option<Seq<u8>> {
        spec_token(self.bytes(), self.cursor())
    }

    /// `self` after reading one token from `o`.
    pub open spec fn eaten_from(&self, o: TokenIterator<'a>) -> bool {
        &&& self.text == o.text
        &&& self.cursor() == spec_eaten(o.bytes(), o.cursor())
    }

    /// A cursor at the start of `s`.
    pub fn new(s: &'a str) -> (r: Self)
        ensures
            r.wf(),
            r.text == s,
            r.cursor() == cursor_start(bytes_of(s)),
    {
        let mut r = TokenIterator { text: s, offset: 0, version_token_encountered_tokens_ago: 0 };
        let n = s.as_bytes().len();
        proof {
            lemma_str_valid(s);
            lemma_resting(bytes_of(s), 0);
        }
        r.remove_comment();
        r
    }

    /// Moves the cursor `i` bytes on and then over any whitespace and
    /// comments that lead to a further token; does nothing when `peek`.
    pub fn set_rest(&mut self, i: usize, peek: bool)
        requires
            old(self).bytes().len() <= usize::MAX,
            old(self).offset + i <= old(self).bytes().len(),
            is_char_boundary(old(self).bytes(), old(self).offset + i),
            old(self).version_token_encountered_tokens_ago <= 2,
        ensures
            peek ==> *final(self) == *old(self),
            !peek ==> *final(self) == (TokenIterator {
                offset: resting(old(self).bytes(), old(self).offset + i) as usize,
                ..*old(self)
            }),
            !peek ==> final(self).wf(),
    {
        if !peek {
            self.offset = self.offset + i;
            self.remove_comment();
        }
    }

    /// Moves the cursor over whitespace and comments when a token follows
    /// them; returns whether one does.
    pub fn remove_comment(&mut self) -> (r: bool)
        requires
            old(self).bytes().len() <= usize::MAX,
            old(self).offset <= old(self).bytes().len(),
            is_char_boundary(old(self).bytes(), old(self).offset as int),
            old(self).version_token_encountered_tokens_ago <= 2,
        ensures
            r == (skip_blank(old(self).bytes(), old(self).offset as int, false) < old(
                self,
            ).bytes().len()),
            *final(self) == (TokenIterator {
                offset: resting(old(self).bytes(), old(self).offset as int) as usize,
                ..*old(self)
            }),
            final(self).wf(),
    {
        let b = self.text.as_bytes();
        let s = trim_start(b, self.offset);
        proof {
            lemma_str_valid(self.text);
            lemma_resting(b@, self.offset as int);
        }
        if s < b.len() {
            self.offset = s;
            true
        } else {
            false
        }
    }

    fn eat_token_inner(&mut self, peek: bool) -> (r: Option<&'a str>)
        requires
            old(self).wf(),
        ensures
            match r {
                None => spec_next(old(self).bytes(), old(self).cursor()) is None,
                Some(t) => old(self).next_bytes() == Some(bytes_of(t)),
            },
            peek ==> *final(self) == *old(self),
            !peek ==> final(self).offset == spec_eaten(old(self).bytes(), old(self).cursor()).offset,
            final(self).text == old(self).text,
            final(self).version_token_encountered_tokens_ago
                == old(self).version_token_encountered_tokens_ago,
            final(self).wf(),
    {
        let b = self.text.as_bytes();
        let s = trim_start(b, self.offset);
        if s >= b.len() {
            return None;
        }
        let dot = self.version_token_encountered_tokens_ago != 0;
        proof {
            lemma_str_valid(self.text);
            lemma_lex_token(b@, s as int, dot);
            lemma_resting(b@, lex_token(b@, s as int, dot).2);
        }
        let (start, end, after) = lex_token_at(b, s, dot);
        let tok = substr(self.text, start, end);
        self.set_rest(after - self.offset, peek);
        Some(tok)
    }

    fn eat_token_state_wrapper(&mut self) -> (r: Option<&'a str>)
        requires
            old(self).wf(),
        ensures
            match r {
                None => spec_next(old(self).bytes(), old(self).cursor()) is None,
                Some(t) => old(self).next_bytes() == Some(bytes_of(t)),
            },
            final(self).eaten_from(*old(self)),
    {
        let token = self.eat_token_inner(false);
        if self.version_token_encountered_tokens_ago == 1 {
            self.version_token_encountered_tokens_ago = 2;
        } else if self.version_token_encountered_tokens_ago == 2 {
            self.version_token_encountered_tokens_ago = 0;
        }
        if let Some(t) = token {
            if str_eq(t, "VERSION") {
                self.version_token_encountered_tokens_ago = 1;
            }
        }
        proof {
            lemma_eaten(old(self).bytes(), old(self).cursor());
        }
        token
    }

    /// Reads the next token.
    pub fn eat_token(&mut self) -> (r: Option<&'a str>)
        requires
            old(self).wf(),
        ensures
            match r {
                None => spec_next(old(self).bytes(), old(self).cursor()) is None,
                Some(t) => old(self).next_bytes() == Some(bytes_of(t)),
            },
            final(self).eaten_from(*old(self)),
            final(self).wf(),
    {
        proof {
            lemma_eaten(old(self).bytes(), old(self).cursor());
        }
        self.eat_token_state_wrapper()
    }

    /// The next token, without reading it.
    pub fn peek_token(&mut self) -> (r: Option<&'a str>)
        requires
            old(self).wf(),
        ensures
            match r {
                None => spec_next(old(self).bytes(), old(self).cursor()) is None,
                Some(t) => old(self).next_bytes() == Some(bytes_of(t)),
            },
            *final(self) == *old(self),
    {
        self.eat_token_inner(true)
    }

    /// Whether the next token is `token`.
    pub fn next_token_is(&mut self, token: &str) -> (r: bool)
        requires
            old(self).wf(),
        ensures
            r == (old(self).next_bytes() == Some(bytes_of(token))),
            *final(self) == *old(self),
    {
        let t = self.peek_token();
        match t {
            None => false,
            Some(s) => str_eq(s, token),
        }
    }

    /// Whether the next token is a reserved word.
    pub fn next_token_is_keyword(&mut self) -> (r: bool)
        requires
            old(self).wf(),
        ensures
            r == (old(self).next_bytes() matches Some(t) && is_reserved(t)),
            *final(self) == *old(self),
    {
        let t = self.peek_token();
        match t {
            None => false,
            Some(s) => is_reserved_word(s),
        }
    }
}

/// Number of bytes of the whitespace character at `i`, 0 when none starts
/// there.
fn ws_width_at(b: &[u8], i: usize) -> (r: usize)
    requires
        i < b@.len(),
    ensures
        r == ws_width(b@, i as int),
{
    let c = b[i];
    if c == 0x20 || (0x09 <= c && c <= 0x0d) {
        return 1;
    }
    let n = b.len();
    if c == 0xc2 && n - i > 1 && (b[i + 1] == 0x85 || b[i + 1] == 0xa0) {
        return 2;
    }
    if n - i > 2 {
        let d = b[i + 1];
        let e = b[i + 2];
        if (c == 0xe1 && d == 0x9a && e == 0x80) || (c == 0xe2 && d == 0x80 && ((0x80 <= e && e
            <= 0x8a) || e == 0xa8 || e == 0xa9 || e == 0xaf)) || (c == 0xe2 && d == 0x81 && e
            == 0x9f) || (c == 0xe3 && d == 0x80 && e == 0x80) {
            return 3;
        }
    }
    0
}

/// Position of the first byte at or after `i` that is neither whitespace nor
/// part of a comment.
fn trim_start(b: &[u8], i: usize) -> (r: usize)
    requires
        i <= b@.len(),
    ensures
        r == skip_blank(b@, i as int, false),
{
    let mut j = i;
    let mut in_comment = false;
    while j < b.len()
        invariant
            j <= b@.len(),
            skip_blank(b@, j as int, in_comment) == skip_blank(b@, i as int, false),
        decreases b@.len() - j,
    {
        if in_comment {
            in_comment = b[j] != 0x0a;
            j = j + 1;
        } else {
            let w = ws_width_at(b, j);
            if w > 0 {
                j = j + w;
            } else if b[j] == 0x3b {
                in_comment = true;
                j = j + 1;
            } else {
                return j;
            }
        }
    }
    j
}

/// End of the text from `j` on, trailing whitespace excluded.
fn trim_end(b: &[u8], j: usize) -> (r: usize)
    requires
        j <= b@.len(),
    ensures
        r == solid_end(b@, j as int, j as int),
{
    let mut k = j;
    let mut last = j;
    while k < b.len()
        invariant
            k <= b@.len(),
            solid_end(b@, k as int, last as int) == solid_end(b@, j as int, j as int),
        decreases b@.len() - k,
    {
        let w = ws_width_at(b, k);
        if w > 0 {
            k = k + w;
        } else {
            k = k + 1;
            last = k;
        }
    }
    last
}

/// Whether the byte at `j` ends an unquoted token.
fn ends_bare(b: &[u8], j: usize, dot: bool) -> (r: bool)
    requires
        j < b@.len(),
    ensures
        r == (ws_width(b@, j as int) > 0 || is_single(b@[j as int], dot)),
{
    let d = b[j];
    ws_width_at(b, j) > 0 || d == 0x2c || d == 0x3a || d == 0x3d || (dot && d == 0x2e)
}

/// The token that starts at `s`.
fn lex_token_at(b: &[u8], s: usize, dot: bool) -> (r: (usize, usize, usize))
    requires
        s < b@.len(),
    ensures
        r.0 == lex_token(b@, s as int, dot).0,
        r.1 == lex_token(b@, s as int, dot).1,
        r.2 == lex_token(b@, s as int, dot).2,
{
    let c = b[s];
    if c == 0x2c || c == 0x3a || c == 0x3d || (dot && c == 0x2e) {
        return (s, s + 1, s + 1);
    }
    let n = b.len();
    let mut j = s + 1;
    if c == 0x22 {
        while j < n && b[j] != 0x22
            invariant
                s < j <= n,
                n == b@.len(),
                quote_close(b@, j as int) == quote_close(b@, s + 1),
            decreases n - j,
        {
            j = j + 1;
        }
        if j < n {
            (s, j, j + 1)
        } else {
            let e = trim_end(b, s + 1);
            (s, e, e)
        }
    } else {
        while j < n && !ends_bare(b, j, dot)
            invariant
                s < j <= n,
                n == b@.len(),
                bare_end(b@, j as int, dot) == bare_end(b@, s + 1, dot),
            decreases n - j,
        {
            j = j + 1;
        }
        (s, j, j)
    }
}

} // verus!
