//! Pretty-printing of token streams, and the round-trip law: printing a
//! token stream and tokenizing the result yields the stream back.

use vstd::prelude::*;
use crate::tokenizer::{
    BrState, Key, Token, TokenModel, token_views, spec_tokenize, next_token, skip_ws, ident_of,
    quoted, is_ws, is_ident_char, is_ident_start, keyword_of, matches_word, lower, digraph_chars,
    shape_chars, data_chars,
};

verus! {

/// Escaping of quoted text: `"` and `\` get a `\` before them.
pub open spec fn escape(s: Seq<char>) -> Seq<char>
    decreases s.len(),
{
    if s.len() == 0 {
        Seq::empty()
    } else {
        (if s[0] == '"' || s[0] == '\\' {
            seq!['\\', s[0]]
        } else {
            seq![s[0]]
        }) + escape(s.drop_first())
    }
}

/// Whether text may be printed bare, as an unquoted identifier.
pub open spec fn bare_ok(s: Seq<char>) -> bool {
    &&& s.len() > 0
    &&& is_ident_start(s[0])
    &&& forall|i: int| 0 <= i < s.len() ==> is_ident_char(#[trigger] s[i])
    &&& keyword_of(s) is None
}

/// The printed form of one token.
pub open spec fn print_token(t: TokenModel) -> Seq<char> {
    match t {
        TokenModel::Arrow => seq!['-', '>'],
        TokenModel::Bracket(BrState::Open) => seq!['['],
        TokenModel::Bracket(BrState::Closed) => seq![']'],
        TokenModel::Brace(BrState::Open) => seq!['{'],
        TokenModel::Brace(BrState::Closed) => seq!['}'],
        TokenModel::Comma => seq![','],
        TokenModel::Equals => seq!['='],
        TokenModel::Semicolon => seq![';'],
        TokenModel::ReservedText(Key::Digraph) => digraph_chars(),
        TokenModel::ReservedText(Key::Shape) => shape_chars(),
        TokenModel::ReservedText(Key::Data) => data_chars(),
        TokenModel::Text(s) => if bare_ok(s) {
            s
        } else {
            seq!['"'] + escape(s) + seq!['"']
        },
    }
}

/// The printed form of a token stream: tokens separated by single spaces.
pub open spec fn spec_print(ts: Seq<TokenModel>) -> Seq<char>
    decreases ts.len(),
{
    if ts.len() == 0 {
        Seq::empty()
    } else {
        print_token(ts[0]) + seq![' '] + spec_print(ts.drop_first())
    }
}

/// A token the tokenizer itself could have produced: its text holds no
/// backslash. (A backslash always escapes and is never emitted, so no
/// produced text contains one.)
pub open spec fn token_ok(t: TokenModel) -> bool {
    match t {
        TokenModel::Text(s) => forall|i: int| 0 <= i < s.len() ==> #[trigger] s[i] != '\\',
        _ => true,
    }
}

pub open spec fn tokens_ok(ts: Seq<TokenModel>) -> bool {
    forall|i: int| 0 <= i < ts.len() ==> token_ok(#[trigger] ts[i])
}

proof fn lemma_skip_ws_nows(s: Seq<char>)
    requires
        s.len() > 0,
        !is_ws(s[0]),
    ensures
        skip_ws(s) == s,
{
}

/// A single leading space changes no token stream.
proof fn lemma_tokenize_space(x: Seq<char>)
    ensures
        spec_tokenize(seq![' '] + x) == spec_tokenize(x),
{
    assert((seq![' '] + x).drop_first() =~= x);
    assert(skip_ws(seq![' '] + x) == skip_ws(x));
    assert(next_token(seq![' '] + x) == next_token(x));
    assert(spec_tokenize(seq![' '] + x) == spec_tokenize(x));
}

/// Identifier scanning stops exactly at the first non-identifier character.
proof fn lemma_ident_of_ext(a: Seq<char>, b: Seq<char>)
    requires
        forall|i: int| 0 <= i < a.len() ==> is_ident_char(#[trigger] a[i]),
        b.len() > 0,
        !is_ident_char(b[0]),
    ensures
        ident_of(a + b) == a,
    decreases a.len(),
{
    if a.len() == 0 {
        assert(a + b =~= b);
        assert(ident_of(b) == Seq::<char>::empty());
        assert(a =~= Seq::<char>::empty());
    } else {
        assert((a + b).drop_first() =~= a.drop_first() + b);
        lemma_ident_of_ext(a.drop_first(), b);
        assert(ident_of(a + b) =~= a);
    }
}

/// Scanning escaped text gives the text back and consumes exactly the
/// escaped form, stopping before the closing quote.
proof fn lemma_quoted_escape(s: Seq<char>, suffix: Seq<char>)
    requires
        forall|i: int| 0 <= i < s.len() ==> #[trigger] s[i] != '\\',
    ensures
        quoted(escape(s) + seq!['"'] + suffix, false).0 == s,
        quoted(escape(s) + seq!['"'] + suffix, false).1 == escape(s).len(),
        escape(s).len() >= s.len(),
    decreases s.len(),
{
    let full = escape(s) + seq!['"'] + suffix;
    if s.len() == 0 {
        assert(full =~= seq!['"'] + suffix);
        assert(full[0] == '"');
        assert(quoted(full, false).0 =~= s);
    } else {
        let c = s[0];
        lemma_quoted_escape(s.drop_first(), suffix);
        let tail_full = escape(s.drop_first()) + seq!['"'] + suffix;
        if c == '"' {
            assert(escape(s) =~= seq!['\\', '"'] + escape(s.drop_first()));
            assert(full[0] == '\\');
            assert(full.drop_first() =~= seq!['"'] + tail_full);
            assert(full.drop_first().drop_first() =~= tail_full);
            let step1 = full.drop_first();
            assert(quoted(step1, true).0 =~= seq!['"'] + s.drop_first());
            assert(quoted(step1, true).1 == 1 + escape(s.drop_first()).len());
            assert(quoted(full, false).0 =~= s);
            assert(quoted(full, false).1 == 2 + escape(s.drop_first()).len());
            assert(escape(s).len() == 2 + escape(s.drop_first()).len());
        } else {
            assert(escape(s) =~= seq![c] + escape(s.drop_first()));
            assert(full[0] == c);
            assert(full.drop_first() =~= tail_full);
            assert(quoted(full, false).0 =~= s);
            assert(quoted(full, false).1 == 1 + escape(s.drop_first()).len());
        }
    }
}

proof fn lemma_keyword_of_canonical()
    ensures
        keyword_of(digraph_chars()) == Some(Key::Digraph),
        keyword_of(shape_chars()) == Some(Key::Shape),
        keyword_of(data_chars()) == Some(Key::Data),
{
    assert(matches_word(digraph_chars(), digraph_chars()));
    assert(matches_word(shape_chars(), shape_chars()));
    assert(matches_word(data_chars(), data_chars()));
}

/// One printed token, followed by a space and anything at all, lexes back
/// to exactly that token with the space and the rest untouched.
proof fn lemma_token_print_lex(t: TokenModel, x: Seq<char>)
    requires
        token_ok(t),
    ensures
        next_token(print_token(t) + seq![' '] + x) == Some::<(TokenModel, Seq<char>)>(
            (t, seq![' '] + x),
        ),
{
    let sp = seq![' '] + x;
    let full = print_token(t) + sp;
    lemma_keyword_of_canonical();
    match t {
        TokenModel::Arrow => {
            assert(full[0] == '-');
            lemma_skip_ws_nows(full);
            assert(full.drop_first() =~= seq!['>'] + sp);
            assert(full.drop_first().drop_first() =~= sp);
            assert(next_token(full) == Some::<(TokenModel, Seq<char>)>((t, sp)));
        },
        TokenModel::Bracket(b) => {
            lemma_skip_ws_nows(full);
            assert(full.drop_first() =~= sp);
            assert(next_token(full) == Some::<(TokenModel, Seq<char>)>((t, sp)));
        },
        TokenModel::Brace(b) => {
            lemma_skip_ws_nows(full);
            assert(full.drop_first() =~= sp);
            assert(next_token(full) == Some::<(TokenModel, Seq<char>)>((t, sp)));
        },
        TokenModel::Comma => {
            lemma_skip_ws_nows(full);
            assert(full.drop_first() =~= sp);
            assert(next_token(full) == Some::<(TokenModel, Seq<char>)>((t, sp)));
        },
        TokenModel::Equals => {
            lemma_skip_ws_nows(full);
            assert(full.drop_first() =~= sp);
            assert(next_token(full) == Some::<(TokenModel, Seq<char>)>((t, sp)));
        },
        TokenModel::Semicolon => {
            lemma_skip_ws_nows(full);
            assert(full.drop_first() =~= sp);
            assert(next_token(full) == Some::<(TokenModel, Seq<char>)>((t, sp)));
        },
        TokenModel::ReservedText(k) => {
            let kw = print_token(t);
            assert(is_ident_start(kw[0]));
            lemma_skip_ws_nows(full);
            assert(full.drop_first() =~= kw.drop_first() + sp);
            assert(forall|i: int|
                0 <= i < kw.drop_first().len() ==> is_ident_char(#[trigger] kw.drop_first()[i]));
            assert(!is_ident_char(sp[0]));
            lemma_ident_of_ext(kw.drop_first(), sp);
            let w = seq![full[0]] + ident_of(full.drop_first());
            assert(w =~= kw);
            let after = full.drop_first().skip(ident_of(full.drop_first()).len() as int);
            assert(after =~= sp);
            assert(next_token(full) == Some::<(TokenModel, Seq<char>)>((t, sp)));
        },
        TokenModel::Text(s) => {
            if bare_ok(s) {
                lemma_skip_ws_nows(full);
                assert(full.drop_first() =~= s.drop_first() + sp);
                assert(!is_ident_char(sp[0]));
                lemma_ident_of_ext(s.drop_first(), sp);
                let w = seq![full[0]] + ident_of(full.drop_first());
                assert(w =~= s);
                let after = full.drop_first().skip(ident_of(full.drop_first()).len() as int);
                assert(after =~= sp);
                assert(next_token(full) == Some::<(TokenModel, Seq<char>)>((t, sp)));
            } else {
                assert(print_token(t) =~= seq!['"'] + (escape(s) + seq!['"']));
                assert(full[0] == '"');
                lemma_skip_ws_nows(full);
                let rest = full.drop_first();
                assert(rest =~= escape(s) + seq!['"'] + sp);
                lemma_quoted_escape(s, sp);
                let n = quoted(rest, false).1;
                assert(n == escape(s).len());
                assert(rest.len() == n + 1 + sp.len());
                assert(n < rest.len());
                let after = rest.skip(n + 1);
                assert(after =~= sp);
                assert(next_token(full) == Some::<(TokenModel, Seq<char>)>((t, sp)));
            }
        },
    }
    assert(print_token(t) + seq![' '] + x =~= full);
}

/// The round-trip law on token streams: printing a stream of producible
/// tokens and tokenizing the result yields the stream back.
pub proof fn lemma_print_roundtrip(ts: Seq<TokenModel>)
    requires
        tokens_ok(ts),
    ensures
        spec_tokenize(spec_print(ts)) == ts,
    decreases ts.len(),
{
    if ts.len() == 0 {
        assert(skip_ws(Seq::<char>::empty()).len() == 0);
        assert(spec_tokenize(spec_print(ts)) =~= ts);
    } else {
        let rest = ts.drop_first();
        lemma_token_print_lex(ts[0], spec_print(rest));
        assert(next_token(spec_print(ts)) == Some::<(TokenModel, Seq<char>)>(
            (ts[0], seq![' '] + spec_print(rest)),
        ));
        assert(spec_tokenize(spec_print(ts)) == seq![ts[0]] + spec_tokenize(
            seq![' '] + spec_print(rest),
        ));
        lemma_tokenize_space(spec_print(rest));
        lemma_print_roundtrip(rest);
        assert(spec_tokenize(spec_print(ts)) =~= ts);
    }
}

proof fn lemma_quoted_no_backslash(s: Seq<char>, escaped: bool)
    ensures
        forall|i: int| 0 <= i < quoted(s, escaped).0.len() ==> #[trigger] quoted(s, escaped).0[i]
            != '\\',
    decreases s.len(),
{
    if s.len() > 0 && !(!escaped && s[0] == '"') {
        let c = s[0];
        lemma_quoted_no_backslash(s.drop_first(), c == '\\');
        let tail = quoted(s.drop_first(), c == '\\').0;
        assert forall|i: int|
            0 <= i < quoted(s, escaped).0.len() implies #[trigger] quoted(s, escaped).0[i]
            != '\\' by {
            if c == '\\' {
                assert(quoted(s, escaped).0 == tail);
            } else {
                assert(quoted(s, escaped).0 == seq![c] + tail);
                if i > 0 {
                    assert(quoted(s, escaped).0[i] == tail[i - 1]);
                }
            }
        }
    }
}

proof fn lemma_ident_of_chars(s: Seq<char>)
    ensures
        forall|i: int| 0 <= i < ident_of(s).len() ==> is_ident_char(#[trigger] ident_of(s)[i]),
    decreases s.len(),
{
    if s.len() > 0 && is_ident_char(s[0]) {
        lemma_ident_of_chars(s.drop_first());
        assert forall|i: int|
            0 <= i < ident_of(s).len() implies is_ident_char(#[trigger] ident_of(s)[i]) by {
            assert(ident_of(s) == seq![s[0]] + ident_of(s.drop_first()));
            if i > 0 {
                assert(ident_of(s)[i] == ident_of(s.drop_first())[i - 1]);
            }
        }
    }
}

/// Every token the tokenizer produces is producible: no text holds a
/// backslash.
pub proof fn lemma_tokenize_ok(s: Seq<char>)
    ensures
        tokens_ok(spec_tokenize(s)),
    decreases s.len(),
{
    crate::tokenizer::lemma_next_token_shrinks(s);
    match next_token(s) {
        Some((t, rest)) => {
            let ws = skip_ws(s);
            let tail = ws.drop_first();
            if ws.len() > 0 && ws[0] == '"' && !(ws[0] == '[' || ws[0] == ']' || ws[0] == '{'
                || ws[0] == '}' || ws[0] == ';' || ws[0] == '=' || ws[0] == ',' || ws[0] == '-') {
                lemma_quoted_no_backslash(tail, false);
            }
            if ws.len() > 0 && is_ident_start(ws[0]) {
                lemma_ident_of_chars(tail);
                assert(forall|i: int|
                    0 <= i < (seq![ws[0]] + ident_of(tail)).len() ==> #[trigger] (seq![ws[0]]
                        + ident_of(tail))[i] != '\\');
            }
            assert(token_ok(t));
            lemma_tokenize_ok(rest);
            assert(spec_tokenize(s) == seq![t] + spec_tokenize(rest));
            assert(forall|i: int|
                0 <= i < spec_tokenize(s).len() ==> token_ok(#[trigger] spec_tokenize(s)[i]));
        },
        None => {
            assert(spec_tokenize(s).len() == 0);
        },
    }
}

/// The tokenizer round-trip: for any input, tokenizing, printing and
/// tokenizing again yields the token stream of the input.
pub proof fn lemma_tokenize_print_tokenize(input: Seq<char>)
    ensures
        spec_tokenize(spec_print(spec_tokenize(input))) == spec_tokenize(input),
{
    lemma_tokenize_ok(input);
    lemma_print_roundtrip(spec_tokenize(input));
}

/// Relies on `str::chars`: the characters of the string, in order.
#[verifier::external_body]
fn string_to_chars(s: &str) -> (v: Vec<char>)
    ensures
        v@ == s@,
{
    s.chars().collect()
}

proof fn lemma_escape_append(a: Seq<char>, b: Seq<char>)
    ensures
        escape(a + b) == escape(a) + escape(b),
    decreases a.len(),
{
    if a.len() == 0 {
        assert(a + b =~= b);
        assert(escape(a + b) =~= escape(a) + escape(b));
    } else {
        assert((a + b).drop_first() =~= a.drop_first() + b);
        lemma_escape_append(a.drop_first(), b);
        assert(escape(a + b) =~= escape(a) + escape(b));
    }
}

fn escape_exec(s: &Vec<char>) -> (out: Vec<char>)
    ensures
        out@ == escape(s@),
{
    let mut out: Vec<char> = Vec::new();
    let mut i: usize = 0;
    while i < s.len()
        invariant
            0 <= i <= s@.len(),
            out@ == escape(s@.take(i as int)),
        decreases s@.len() - i,
    {
        let c = s[i];
        if c == '"' || c == '\\' {
            out.push('\\');
            out.push(c);
        } else {
            out.push(c);
        }
        proof {
            assert(s@.take(i + 1) =~= s@.take(i as int) + seq![c]);
            lemma_escape_append(s@.take(i as int), seq![c]);
            assert(seq![c].drop_first() =~= Seq::<char>::empty());
            assert(escape(Seq::<char>::empty()) =~= Seq::<char>::empty());
            if c == '"' || c == '\\' {
                assert(escape(seq![c]) =~= seq!['\\', c]);
            } else {
                assert(escape(seq![c]) =~= seq![c]);
            }
            assert(out@ =~= escape(s@.take(i + 1)));
        }
        i = i + 1;
    }
    proof {
        assert(s@.take(s@.len() as int) =~= s@);
    }
    out
}

fn bare_ok_exec(s: &Vec<char>) -> (r: bool)
    ensures
        r == bare_ok(s@),
{
    if s.len() == 0 {
        return false;
    }
    if !crate::tokenizer::is_ident_start_exec(s[0]) {
        return false;
    }
    let mut i: usize = 0;
    while i < s.len()
        invariant
            0 <= i <= s@.len(),
            forall|j: int| 0 <= j < i ==> is_ident_char(#[trigger] s@[j]),
        decreases s@.len() - i,
    {
        if !crate::tokenizer::is_ident_char_exec(s[i]) {
            return false;
        }
        i = i + 1;
    }
    let kw_digraph: Vec<char> = vec!['d', 'i', 'g', 'r', 'a', 'p', 'h'];
    let kw_shape: Vec<char> = vec!['s', 'h', 'a', 'p', 'e'];
    let kw_data: Vec<char> = vec!['d', 'a', 't', 'a'];
    proof {
        assert(kw_digraph@ =~= digraph_chars());
        assert(kw_shape@ =~= shape_chars());
        assert(kw_data@ =~= data_chars());
    }
    let reserved = crate::tokenizer::matches_word_exec(s, &kw_digraph)
        || crate::tokenizer::matches_word_exec(s, &kw_shape) || crate::tokenizer::matches_word_exec(
        s,
        &kw_data,
    );
    !reserved
}

/// The printed form of one token.
fn print_token_exec(t: &Token) -> (out: Vec<char>)
    ensures
        out@ == print_token(t@),
{
    match t {
        Token::Arrow => {
            let v = vec!['-', '>'];
            proof {
                assert(v@ =~= print_token(t@));
            }
            v
        },
        Token::Bracket(BrState::Open) => {
            let v = vec!['['];
            proof {
                assert(v@ =~= print_token(t@));
            }
            v
        },
        Token::Bracket(BrState::Closed) => {
            let v = vec![']'];
            proof {
                assert(v@ =~= print_token(t@));
            }
            v
        },
        Token::Brace(BrState::Open) => {
            let v = vec!['{'];
            proof {
                assert(v@ =~= print_token(t@));
            }
            v
        },
        Token::Brace(BrState::Closed) => {
            let v = vec!['}'];
            proof {
                assert(v@ =~= print_token(t@));
            }
            v
        },
        Token::Comma => {
            let v = vec![','];
            proof {
                assert(v@ =~= print_token(t@));
            }
            v
        },
        Token::Equals => {
            let v = vec!['='];
            proof {
                assert(v@ =~= print_token(t@));
            }
            v
        },
        Token::Semicolon => {
            let v = vec![';'];
            proof {
                assert(v@ =~= print_token(t@));
            }
            v
        },
        Token::ReservedText(Key::Digraph) => {
            let v = vec!['d', 'i', 'g', 'r', 'a', 'p', 'h'];
            proof {
                assert(v@ =~= print_token(t@));
            }
            v
        },
        Token::ReservedText(Key::Shape) => {
            let v = vec!['s', 'h', 'a', 'p', 'e'];
            proof {
                assert(v@ =~= print_token(t@));
            }
            v
        },
        Token::ReservedText(Key::Data) => {
            let v = vec!['d', 'a', 't', 'a'];
            proof {
                assert(v@ =~= print_token(t@));
            }
            v
        },
        Token::Text(s) => {
            let chars = string_to_chars(s.as_str());
            if bare_ok_exec(&chars) {
                chars
            } else {
                let mut v: Vec<char> = Vec::new();
                v.push('"');
                let mut esc = escape_exec(&chars);
                v.append(&mut esc);
                v.push('"');
                proof {
                    assert(v@ =~= print_token(t@));
                }
                v
            }
        },
    }
}

proof fn lemma_spec_print_append(a: Seq<TokenModel>, b: Seq<TokenModel>)
    ensures
        spec_print(a + b) == spec_print(a) + spec_print(b),
    decreases a.len(),
{
    if a.len() == 0 {
        assert(a + b =~= b);
        assert(spec_print(a + b) =~= spec_print(a) + spec_print(b));
    } else {
        assert((a + b).drop_first() =~= a.drop_first() + b);
        lemma_spec_print_append(a.drop_first(), b);
        assert(spec_print(a + b) =~= spec_print(a) + spec_print(b));
    }
}

/// Prints a token stream: tokens separated by single spaces. The result
/// re-tokenizes to the same stream (see [`lemma_print_roundtrip`]).
pub fn print_tokens(tokens: &Vec<Token>) -> (out: Vec<char>)
    ensures
        out@ == spec_print(token_views(tokens@)),
{
    let ghost ts = token_views(tokens@);
    let mut out: Vec<char> = Vec::new();
    let mut i: usize = 0;
    while i < tokens.len()
        invariant
            0 <= i <= tokens@.len(),
            ts == token_views(tokens@),
            out@ == spec_print(ts.take(i as int)),
        decreases tokens@.len() - i,
    {
        let mut part = print_token_exec(&tokens[i]);
        out.append(&mut part);
        out.push(' ');
        proof {
            assert(ts.take(i + 1) =~= ts.take(i as int) + seq![ts[i as int]]);
            lemma_spec_print_append(ts.take(i as int), seq![ts[i as int]]);
            assert(seq![ts[i as int]].drop_first() =~= Seq::<TokenModel>::empty());
            assert(spec_print(Seq::<TokenModel>::empty()) =~= Seq::<char>::empty());
            assert(spec_print(seq![ts[i as int]]) =~= print_token(ts[i as int]) + seq![' ']);
            assert(out@ =~= spec_print(ts.take(i + 1)));
        }
        i = i + 1;
    }
    proof {
        assert(ts.take(ts.len() as int) =~= ts);
    }
    out
}

} // verus!
