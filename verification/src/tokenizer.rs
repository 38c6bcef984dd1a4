//! Tokenizer for the `digraph`-style DSL.
//!
//! The input is a sequence of characters; the output a sequence of tokens.
//! Whitespace separates tokens; `[ ] { } ; = ,` are single-character tokens;
//! `->` is an arrow; `"..."` is quoted text with `\` escaping the next
//! character; `[A-Za-z0-9_]+` starting with an alphanumeric is an identifier,
//! which becomes reserved text when it matches `digraph`, `shape` or `data`
//! case-insensitively. An unexpected character ends the token stream.

use vstd::prelude::*;

verus! {

broadcast use vstd::seq_lib::lemma_seq_skip_of_skip;

/// Whether a bracket or brace token is the opening or the closing one.
#[derive(Debug, PartialEq, Eq, Structural, Clone, Copy)]
pub enum BrState {
    Open,
    Closed,
}

/// The reserved words of the DSL.
#[derive(Debug, PartialEq, Eq, Structural, Hash, Clone, Copy)]
pub enum Key {
    Digraph,
    Shape,
    Data,
}

/// One token of the DSL.
#[derive(Debug, PartialEq, Clone)]
pub enum Token {
    Arrow,
    Bracket(BrState),
    Brace(BrState),
    Comma,
    Equals,
    Text(String),
    ReservedText(Key),
    Semicolon,
}

/// The mathematical value of a [`Token`]: text is a sequence of characters.
pub enum TokenModel {
    Arrow,
    Bracket(BrState),
    Brace(BrState),
    Comma,
    Equals,
    Text(Seq<char>),
    ReservedText(Key),
    Semicolon,
}

impl View for Token {
    type V = TokenModel;

    open spec fn view(&self) -> TokenModel {
        match self {
            Token::Arrow => TokenModel::Arrow,
            Token::Bracket(b) => TokenModel::Bracket(*b),
            Token::Brace(b) => TokenModel::Brace(*b),
            Token::Comma => TokenModel::Comma,
            Token::Equals => TokenModel::Equals,
            Token::Text(s) => TokenModel::Text(s@),
            Token::ReservedText(k) => TokenModel::ReservedText(*k),
            Token::Semicolon => TokenModel::Semicolon,
        }
    }
}

/// The whitespace characters that separate tokens.
pub open spec fn is_ws(c: char) -> bool {
    c == ' ' || c == '\t' || c == '\n' || c == '\r'
}

/// Characters that may continue an unquoted identifier.
pub open spec fn is_ident_char(c: char) -> bool {
    ('0' as u32 <= c as u32 && c as u32 <= '9' as u32) || ('A' as u32 <= c as u32 && c as u32
        <= 'Z' as u32) || ('a' as u32 <= c as u32 && c as u32 <= 'z' as u32) || c == '_'
}

/// Characters that may begin an unquoted identifier.
pub open spec fn is_ident_start(c: char) -> bool {
    ('0' as u32 <= c as u32 && c as u32 <= '9' as u32) || ('A' as u32 <= c as u32 && c as u32
        <= 'Z' as u32) || ('a' as u32 <= c as u32 && c as u32 <= 'z' as u32)
}

/// ASCII lower-casing of one character, as a code point.
pub open spec fn lower(c: char) -> int {
    if 'A' as u32 <= c as u32 && c as u32 <= 'Z' as u32 {
        c as u32 + 32
    } else {
        c as u32 as int
    }
}

/// Case-insensitive equality of two words.
pub open spec fn matches_word(s: Seq<char>, w: Seq<char>) -> bool {
    s.len() == w.len() && forall|i: int| 0 <= i < s.len() ==> lower(s[i]) == #[trigger] lower(w[i])
}

pub open spec fn digraph_chars() -> Seq<char> {
    seq!['d', 'i', 'g', 'r', 'a', 'p', 'h']
}

pub open spec fn shape_chars() -> Seq<char> {
    seq!['s', 'h', 'a', 'p', 'e']
}

pub open spec fn data_chars() -> Seq<char> {
    seq!['d', 'a', 't', 'a']
}

/// The keyword an identifier stands for, if any: `digraph`, `shape` and
/// `data` are recognized case-insensitively.
pub open spec fn keyword_of(s: Seq<char>) -> Option<Key> {
    if matches_word(s, digraph_chars()) {
        Some(Key::Digraph)
    } else if matches_word(s, shape_chars()) {
        Some(Key::Shape)
    } else if matches_word(s, data_chars()) {
        Some(Key::Data)
    } else {
        None
    }
}

/// The input with its leading whitespace removed.
pub open spec fn skip_ws(s: Seq<char>) -> Seq<char>
    decreases s.len(),
{
    if s.len() > 0 && is_ws(s[0]) {
        skip_ws(s.drop_first())
    } else {
        s
    }
}

/// The maximal prefix of identifier characters.
pub open spec fn ident_of(s: Seq<char>) -> Seq<char>
    decreases s.len(),
{
    if s.len() > 0 && is_ident_char(s[0]) {
        seq![s[0]] + ident_of(s.drop_first())
    } else {
        Seq::empty()
    }
}

/// Scanning of quoted text: the content up to the first unescaped `"` (or the
/// end of input), and the number of characters consumed. A `\` escapes the
/// character after it and is itself never part of the content.
pub open spec fn quoted(s: Seq<char>, escaped: bool) -> (Seq<char>, int)
    decreases s.len(),
{
    if s.len() == 0 {
        (Seq::empty(), 0)
    } else if !escaped && s[0] == '"' {
        (Seq::empty(), 0)
    } else {
        let c = s[0];
        let (tail, n) = quoted(s.drop_first(), c == '\\');
        if c == '\\' {
            (tail, n + 1)
        } else {
            (seq![c] + tail, n + 1)
        }
    }
}

/// The first token of the input, with the input that remains after it.
/// `None` is the end of the input, or a character no token may start with
/// (the stream ends there; the caller observes an early end).
pub open spec fn next_token(s: Seq<char>) -> Option<(TokenModel, Seq<char>)> {
    let t = skip_ws(s);
    if t.len() == 0 {
        None
    } else {
        let c = t[0];
        let rest = t.drop_first();
        if c == '[' {
            Some((TokenModel::Bracket(BrState::Open), rest))
        } else if c == ']' {
            Some((TokenModel::Bracket(BrState::Closed), rest))
        } else if c == '{' {
            Some((TokenModel::Brace(BrState::Open), rest))
        } else if c == '}' {
            Some((TokenModel::Brace(BrState::Closed), rest))
        } else if c == ';' {
            Some((TokenModel::Semicolon, rest))
        } else if c == '=' {
            Some((TokenModel::Equals, rest))
        } else if c == ',' {
            Some((TokenModel::Comma, rest))
        } else if c == '-' {
            if rest.len() > 0 && rest[0] == '>' {
                Some((TokenModel::Arrow, rest.drop_first()))
            } else {
                None
            }
        } else if c == '"' {
            let (content, n) = quoted(rest, false);
            let after = if n < rest.len() {
                rest.skip(n + 1)
            } else {
                rest.skip(n)
            };
            Some((TokenModel::Text(content), after))
        } else if is_ident_start(c) {
            let w = seq![c] + ident_of(rest);
            let after = rest.skip(ident_of(rest).len() as int);
            match keyword_of(w) {
                Some(k) => Some((TokenModel::ReservedText(k), after)),
                None => Some((TokenModel::Text(w), after)),
            }
        } else {
            None
        }
    }
}

pub proof fn lemma_skip_ws_len(s: Seq<char>)
    ensures
        skip_ws(s).len() <= s.len(),
        skip_ws(s).len() == s.len() ==> skip_ws(s) == s,
    decreases s.len(),
{
    if s.len() > 0 && is_ws(s[0]) {
        lemma_skip_ws_len(s.drop_first());
    }
}

pub proof fn lemma_ident_of_len(s: Seq<char>)
    ensures
        0 <= ident_of(s).len() <= s.len(),
    decreases s.len(),
{
    if s.len() > 0 && is_ident_char(s[0]) {
        lemma_ident_of_len(s.drop_first());
    }
}

pub proof fn lemma_quoted_len(s: Seq<char>, escaped: bool)
    ensures
        0 <= quoted(s, escaped).1 <= s.len(),
    decreases s.len(),
{
    if s.len() > 0 && !(!escaped && s[0] == '"') {
        lemma_quoted_len(s.drop_first(), s[0] == '\\');
    }
}

/// A token never leaves the input longer than it was: the ground for
/// recursion over the token stream.
pub proof fn lemma_next_token_shrinks(s: Seq<char>)
    ensures
        next_token(s) matches Some(p) ==> p.1.len() < s.len(),
{
    lemma_skip_ws_len(s);
    let t = skip_ws(s);
    if t.len() > 0 {
        let rest = t.drop_first();
        if t[0] == '"' {
            lemma_quoted_len(rest, false);
        }
        if is_ident_start(t[0]) {
            lemma_ident_of_len(rest);
        }
    }
}

/// The whole token stream of the input.
pub open spec fn spec_tokenize(s: Seq<char>) -> Seq<TokenModel>
    decreases s.len(),
    via spec_tokenize_decreases
{
    match next_token(s) {
        Some((t, rest)) => seq![t] + spec_tokenize(rest),
        None => Seq::empty(),
    }
}

#[via_fn]
proof fn spec_tokenize_decreases(s: Seq<char>) {
    lemma_next_token_shrinks(s);
}

fn is_ws_exec(c: char) -> (r: bool)
    ensures
        r == is_ws(c),
{
    c == ' ' || c == '\t' || c == '\n' || c == '\r'
}

pub(crate) fn is_ident_char_exec(c: char) -> (r: bool)
    ensures
        r == is_ident_char(c),
{
    let u = c as u32;
    ('0' as u32 <= u && u <= '9' as u32) || ('A' as u32 <= u && u <= 'Z' as u32) || ('a' as u32 <= u
        && u <= 'z' as u32) || c == '_'
}

pub(crate) fn is_ident_start_exec(c: char) -> (r: bool)
    ensures
        r == is_ident_start(c),
{
    let u = c as u32;
    ('0' as u32 <= u && u <= '9' as u32) || ('A' as u32 <= u && u <= 'Z' as u32) || ('a' as u32 <= u
        && u <= 'z' as u32)
}

fn lower_exec(c: char) -> (r: u32)
    ensures
        r as int == lower(c),
{
    let u = c as u32;
    if 'A' as u32 <= u && u <= 'Z' as u32 {
        u + 32
    } else {
        u
    }
}

/// Case-insensitive comparison of an identifier with a lower-case word.
pub(crate) fn matches_word_exec(s: &Vec<char>, w: &Vec<char>) -> (r: bool)
    ensures
        r == matches_word(s@, w@),
{
    if s.len() != w.len() {
        return false;
    }
    let mut i: usize = 0;
    while i < s.len()
        invariant
            0 <= i <= s.len(),
            s@.len() == w@.len(),
            forall|j: int| 0 <= j < i ==> lower(s@[j]) == #[trigger] lower(w@[j]),
        decreases s.len() - i,
    {
        if lower_exec(s[i]) != lower_exec(w[i]) {
            return false;
        }
        i = i + 1;
    }
    true
}

/// The values of a sequence of tokens.
pub open spec fn token_views(ts: Seq<Token>) -> Seq<TokenModel> {
    Seq::new(ts.len(), |i: int| ts[i]@)
}

/// Relies on `String: FromIterator<char>`: collecting yields exactly the
/// characters of the iterator, in order.
#[verifier::external_body]
pub(crate) fn chars_to_string(v: Vec<char>) -> (s: String)
    ensures
        s@ == v@,
{
    v.into_iter().collect()
}

/// A cursor over the characters of one input, from which tokens are read.
pub struct Tokenizer {
    pub chars: Vec<char>,
    pub pos: usize,
}

impl Tokenizer {
    /// The cursor stands inside the input.
    pub open spec fn wf(&self) -> bool {
        self.pos <= self.chars@.len()
    }

    /// The input not yet consumed.
    pub open spec fn remaining(&self) -> Seq<char> {
        self.chars@.skip(self.pos as int)
    }

    pub fn new(chars: Vec<char>) -> (t: Self)
        ensures
            t.wf(),
            t.remaining() == chars@,
    {
        let t = Tokenizer { chars, pos: 0 };
        proof {
            assert(t.remaining() =~= t.chars@);
        }
        t
    }

    fn skip_whitespace(&mut self)
        requires
            old(self).wf(),
        ensures
            final(self).wf(),
            final(self).remaining() == skip_ws(old(self).remaining()),
            final(self).chars == old(self).chars,
    {
        while self.pos < self.chars.len() && is_ws_exec(self.chars[self.pos])
            invariant
                self.wf(),
                self.chars == old(self).chars,
                skip_ws(self.remaining()) == skip_ws(old(self).remaining()),
            decreases self.chars@.len() - self.pos,
        {
            proof {
                assert(self.remaining().drop_first() =~= self.chars@.skip(self.pos + 1));
            }
            self.pos = self.pos + 1;
        }
        proof {
            if self.pos < self.chars@.len() {
                assert(skip_ws(self.remaining()) == self.remaining());
            } else {
                assert(self.remaining().len() == 0);
            }
        }
    }

    fn scan_ident(&mut self) -> (out: Vec<char>)
        requires
            old(self).wf(),
        ensures
            final(self).wf(),
            out@ == ident_of(old(self).remaining()),
            final(self).pos == old(self).pos + out@.len(),
            final(self).chars == old(self).chars,
    {
        let mut out: Vec<char> = Vec::new();
        while self.pos < self.chars.len() && is_ident_char_exec(self.chars[self.pos])
            invariant
                self.wf(),
                self.chars == old(self).chars,
                self.pos == old(self).pos + out@.len(),
                ident_of(old(self).remaining()) == out@ + ident_of(self.remaining()),
            decreases self.chars@.len() - self.pos,
        {
            proof {
                assert(self.remaining().drop_first() =~= self.chars@.skip(self.pos + 1));
                assert(ident_of(self.remaining()) == seq![self.remaining()[0]] + ident_of(
                    self.remaining().drop_first(),
                ));
            }
            out.push(self.chars[self.pos]);
            self.pos = self.pos + 1;
            proof {
                assert(ident_of(old(self).remaining()) =~= out@ + ident_of(self.remaining()));
            }
        }
        proof {
            assert(ident_of(self.remaining()) == Seq::<char>::empty());
            assert(ident_of(old(self).remaining()) =~= out@);
        }
        out
    }

    fn scan_quoted(&mut self) -> (out: Vec<char>)
        requires
            old(self).wf(),
        ensures
            final(self).wf(),
            out@ == quoted(old(self).remaining(), false).0,
            final(self).pos == old(self).pos + ({
                let n = quoted(old(self).remaining(), false).1;
                if n < old(self).remaining().len() {
                    n + 1
                } else {
                    n
                }
            }),
            final(self).chars == old(self).chars,
    {
        let mut out: Vec<char> = Vec::new();
        let mut escaped = false;
        let ghost mut consumed: int = 0;
        while self.pos < self.chars.len() && (escaped || self.chars[self.pos] != '"')
            invariant
                self.wf(),
                self.chars == old(self).chars,
                self.pos == old(self).pos + consumed,
                0 <= consumed,
                quoted(old(self).remaining(), false).0 == out@ + quoted(
                    self.remaining(),
                    escaped,
                ).0,
                quoted(old(self).remaining(), false).1 == consumed + quoted(
                    self.remaining(),
                    escaped,
                ).1,
            decreases self.chars@.len() - self.pos,
        {
            let c = self.chars[self.pos];
            proof {
                assert(self.remaining().drop_first() =~= self.chars@.skip(self.pos + 1));
            }
            if c != '\\' {
                out.push(c);
            }
            self.pos = self.pos + 1;
            escaped = c == '\\';
            proof {
                consumed = consumed + 1;
                assert(quoted(old(self).remaining(), false).0 =~= out@ + quoted(
                    self.remaining(),
                    escaped,
                ).0);
            }
        }
        let ghost n = quoted(old(self).remaining(), false).1;
        proof {
            assert(quoted(self.remaining(), escaped).0 == Seq::<char>::empty());
            assert(quoted(self.remaining(), escaped).1 == 0);
            assert(out@ =~= quoted(old(self).remaining(), false).0);
            assert(n == consumed);
            assert(old(self).remaining().len() == self.chars@.len() - old(self).pos);
        }
        if self.pos < self.chars.len() {
            // the closing quote
            self.pos = self.pos + 1;
            proof {
                assert(n < old(self).remaining().len());
            }
        } else {
            proof {
                assert(n == old(self).remaining().len());
            }
        }
        out
    }

    /// Reads the next token. `None` is the end of the input or a character
    /// no token may start with; the stream ends either way.
    pub fn next(&mut self) -> (r: Option<Token>)
        requires
            old(self).wf(),
        ensures
            final(self).wf(),
            match r {
                Some(tok) => next_token(old(self).remaining()) == Some(
                    (tok@, final(self).remaining()),
                ),
                None => next_token(old(self).remaining()) is None,
            },
    {
        self.skip_whitespace();
        let ghost t = skip_ws(old(self).remaining());
        if self.pos >= self.chars.len() {
            return None;
        }
        let c = self.chars[self.pos];
        self.pos = self.pos + 1;
        proof {
            assert(self.remaining() =~= t.drop_first());
        }
        let ghost rest = t.drop_first();
        if c == '[' {
            Some(Token::Bracket(BrState::Open))
        } else if c == ']' {
            Some(Token::Bracket(BrState::Closed))
        } else if c == '{' {
            Some(Token::Brace(BrState::Open))
        } else if c == '}' {
            Some(Token::Brace(BrState::Closed))
        } else if c == ';' {
            Some(Token::Semicolon)
        } else if c == '=' {
            Some(Token::Equals)
        } else if c == ',' {
            Some(Token::Comma)
        } else if c == '-' {
            if self.pos < self.chars.len() && self.chars[self.pos] == '>' {
                self.pos = self.pos + 1;
                proof {
                    assert(self.remaining() =~= rest.drop_first());
                }
                Some(Token::Arrow)
            } else {
                None
            }
        } else if c == '"' {
            let ghost p1 = self.pos as int;
            let content = self.scan_quoted();
            proof {
                let n = quoted(rest, false).1;
                let d: int = if n < rest.len() {
                    n + 1
                } else {
                    n
                };
                lemma_quoted_len(rest, false);
                vstd::seq_lib::lemma_seq_skip_of_skip(self.chars@, p1, d);
                assert(self.remaining() =~= rest.skip(d));
            }
            Some(Token::Text(chars_to_string(content)))
        } else if is_ident_start_exec(c) {
            let ghost p1 = self.pos as int;
            let mut w: Vec<char> = Vec::new();
            w.push(c);
            let mut tail = self.scan_ident();
            w.append(&mut tail);
            proof {
                let len = ident_of(rest).len() as int;
                lemma_ident_of_len(rest);
                vstd::seq_lib::lemma_seq_skip_of_skip(self.chars@, p1, len);
                assert(self.remaining() =~= rest.skip(len));
                assert(w@ =~= seq![c] + ident_of(rest));
            }
            let kw_digraph: Vec<char> = vec!['d', 'i', 'g', 'r', 'a', 'p', 'h'];
            let kw_shape: Vec<char> = vec!['s', 'h', 'a', 'p', 'e'];
            let kw_data: Vec<char> = vec!['d', 'a', 't', 'a'];
            proof {
                assert(kw_digraph@ =~= digraph_chars());
                assert(kw_shape@ =~= shape_chars());
                assert(kw_data@ =~= data_chars());
            }
            if matches_word_exec(&w, &kw_digraph) {
                Some(Token::ReservedText(Key::Digraph))
            } else if matches_word_exec(&w, &kw_shape) {
                Some(Token::ReservedText(Key::Shape))
            } else if matches_word_exec(&w, &kw_data) {
                Some(Token::ReservedText(Key::Data))
            } else {
                Some(Token::Text(chars_to_string(w)))
            }
        } else {
            None
        }
    }

    /// Reads the whole token stream.
    pub fn tokenize(&mut self) -> (r: Vec<Token>)
        requires
            old(self).wf(),
        ensures
            final(self).wf(),
            token_views(r@) == spec_tokenize(old(self).remaining()),
    {
        let mut out: Vec<Token> = Vec::new();
        loop
            invariant
                self.wf(),
                spec_tokenize(old(self).remaining()) == token_views(out@) + spec_tokenize(
                    self.remaining(),
                ),
            decreases self.remaining().len(),
        {
            let ghost before = self.remaining();
            match self.next() {
                Some(t) => {
                    proof {
                        lemma_next_token_shrinks(before);
                        assert(spec_tokenize(before) == seq![t@] + spec_tokenize(
                            self.remaining(),
                        ));
                    }
                    let ghost prev_out = out@;
                    out.push(t);
                    proof {
                        assert(token_views(out@) =~= token_views(prev_out) + seq![t@]);
                        assert(spec_tokenize(old(self).remaining()) =~= token_views(out@)
                            + spec_tokenize(self.remaining()));
                    }
                },
                None => {
                    proof {
                        assert(spec_tokenize(before) == Seq::<TokenModel>::empty());
                        assert(token_views(out@) =~= spec_tokenize(old(self).remaining()));
                    }
                    return out;
                },
            }
        }
    }
}

} // verus!
