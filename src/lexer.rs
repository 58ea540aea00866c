//! Splits description text into identifiers, literals and punctuation.
use vstd::prelude::*;

use crate::error::{Error, ErrorKind};

verus! {

#[derive(Clone, Copy, Debug)]
pub enum TokenKind {
    Ident,
    Literal,
    Punct(char),
}

/// A token and the character offsets it spans in the source.
#[derive(Debug)]
pub struct Token {
    pub kind: TokenKind,
    pub start: usize,
    pub end: usize,
}

pub open spec fn is_ident_start(c: char) -> bool {
    ('a' <= c && c <= 'z') || ('A' <= c && c <= 'Z') || c == '_'
}

pub open spec fn is_ident_continue(c: char) -> bool {
    is_ident_start(c) || ('0' <= c && c <= '9')
}

pub open spec fn is_space(c: char) -> bool {
    c == ' ' || c == '\t' || c == '\n' || c == '\r'
}

/// The tokens lie in order inside the text, each where its kind says:
/// an identifier on identifier characters, a punctuation mark on its character.
#[verifier::opaque]
pub open spec fn lexed_ok(chars: Seq<char>, toks: Seq<Token>) -> bool {
    &&& forall|k: int| 0 <= k < toks.len() ==> (#[trigger] toks[k]).start < toks[k].end <= chars.len()
    &&& forall|a: int, b: int| 0 <= a < b < toks.len() ==> (#[trigger] toks[a]).end <= (#[trigger] toks[b]).start
    &&& forall|k: int| 0 <= k < toks.len() ==> match (#[trigger] toks[k]).kind {
        TokenKind::Punct(c) => toks[k].end == toks[k].start + 1 && chars[toks[k].start as int] == c,
        TokenKind::Ident => is_ident_start(chars[toks[k].start as int]) && forall|m: int|
            toks[k].start <= m < toks[k].end ==> is_ident_continue(#[trigger] chars[m]),
        TokenKind::Literal => true,
    }
}

/// `chars[a..b]` separates tokens: one whitespace character, a line comment up
/// to its newline or the end, or a block comment through its first `*/`.
pub open spec fn is_skip(chars: Seq<char>, a: int, b: int) -> bool {
    ||| (0 <= a < chars.len() && is_space(chars[a]) && b == a + 1)
    ||| (0 <= a && a + 1 < chars.len() && chars[a] == '/' && chars[a + 1] == '/' && a < b <= chars.len()
        && (forall|m: int| a <= m < b ==> chars[m] != '\n') && (b == chars.len() || chars[b] == '\n'))
    ||| (0 <= a && a + 1 < chars.len() && chars[a] == '/' && chars[a + 1] == '*' && a + 4 <= b <= chars.len()
        && chars[b - 2] == '*' && chars[b - 1] == '/' && forall|m: int|
        a + 2 <= m < b - 2 ==> !(chars[m] == '*' && #[trigger] chars[m + 1] == '/'))
}

/// From offset `i` inside a string literal, a closing `"` follows (a backslash
/// escapes the character after it).
pub open spec fn string_closes(chars: Seq<char>, i: int) -> bool
    decreases chars.len() - i,
{
    if i < 0 || i >= chars.len() {
        false
    } else if chars[i] == '\\' && i + 1 < chars.len() {
        string_closes(chars, i + 2)
    } else if chars[i] == '"' {
        true
    } else {
        string_closes(chars, i + 1)
    }
}

/// At offset `at` a string literal or block comment opens and never closes.
pub open spec fn unterminated(chars: Seq<char>, at: int) -> bool {
    ||| (0 <= at < chars.len() && chars[at] == '"' && !string_closes(chars, at + 1))
    ||| (0 <= at && at + 1 < chars.len() && chars[at] == '/' && chars[at + 1] == '*' && forall|m: int|
        at + 2 <= m < chars.len() - 1 ==> !(chars[m] == '*' && #[trigger] chars[m + 1] == '/'))
}

/// Character `m` lies inside one of the tokens.
pub open spec fn covered(toks: Seq<Token>, m: int) -> bool {
    exists|k: int| 0 <= k < toks.len() && (#[trigger] toks[k]).start <= m < toks[k].end
}

/// Character `m` lies in a run of whitespace or comment.
pub open spec fn skipped(chars: Seq<char>, m: int) -> bool {
    exists|a: int, b: int| a <= m < b && #[trigger] is_skip(chars, a, b)
}

/// From `i`: the end of a run of identifier characters.
pub open spec fn ident_run(chars: Seq<char>, i: int) -> int
    decreases chars.len() - i,
{
    if 0 <= i < chars.len() && is_ident_continue(chars[i]) {
        ident_run(chars, i + 1)
    } else {
        i
    }
}

/// From `i`: the end of the rest of a number (identifier characters and `.`).
pub open spec fn number_run(chars: Seq<char>, i: int) -> int
    decreases chars.len() - i,
{
    if 0 <= i < chars.len() && (is_ident_continue(chars[i]) || chars[i] == '.') {
        number_run(chars, i + 1)
    } else {
        i
    }
}

/// From `i`: the next newline, or the end.
pub open spec fn line_end(chars: Seq<char>, i: int) -> int
    decreases chars.len() - i,
{
    if 0 <= i < chars.len() && chars[i] != '\n' {
        line_end(chars, i + 1)
    } else {
        i
    }
}

/// From `i` inside a block comment: the offset after its `*/`.
pub open spec fn block_end(chars: Seq<char>, i: int) -> Option<int>
    decreases chars.len() - i,
{
    if i < 0 || i >= chars.len() {
        None
    } else if chars[i] == '*' && i + 1 < chars.len() && chars[i + 1] == '/' {
        Some(i + 2)
    } else {
        block_end(chars, i + 1)
    }
}

/// From `i` inside a string literal: the offset after its closing `"`.
pub open spec fn string_end(chars: Seq<char>, i: int) -> Option<int>
    decreases chars.len() - i,
{
    if i < 0 || i >= chars.len() {
        None
    } else if chars[i] == '\\' && i + 1 < chars.len() {
        string_end(chars, i + 2)
    } else if chars[i] == '"' {
        Some(i + 1)
    } else {
        string_end(chars, i + 1)
    }
}

/// What starts at `at`: a token kind or nothing (whitespace, comment), and the
/// offset after it; `None` for an unterminated string or block comment.
pub open spec fn scan_at(chars: Seq<char>, at: int) -> Option<(Option<TokenKind>, int)> {
    let n = chars.len();
    let c = chars[at];
    if is_space(c) {
        Some((None, at + 1))
    } else if c == '/' && at + 1 < n && chars[at + 1] == '/' {
        Some((None, line_end(chars, at)))
    } else if c == '/' && at + 1 < n && chars[at + 1] == '*' {
        match block_end(chars, at + 2) {
            Some(j) => Some((None, j)),
            None => None,
        }
    } else if is_ident_start(c) {
        Some((Some(TokenKind::Ident), ident_run(chars, at + 1)))
    } else if '0' <= c && c <= '9' {
        Some((Some(TokenKind::Literal), number_run(chars, at + 1)))
    } else if c == '"' {
        match string_end(chars, at + 1) {
            Some(j) => Some((Some(TokenKind::Literal), j)),
            None => None,
        }
    } else if c == '\'' && n - at > 2 && chars[at + 1] != '\\' && chars[at + 2] == '\'' {
        Some((Some(TokenKind::Literal), at + 3))
    } else {
        Some((Some(TokenKind::Punct(c)), at + 1))
    }
}

/// The tokens of `chars` from offset `i`, by the scanning rules; `None` if an
/// unterminated string or block comment stops them.
pub open spec fn tokens_from(chars: Seq<char>, i: int) -> Option<Seq<Token>>
    decreases chars.len() - i,
{
    if i < 0 || i >= chars.len() {
        Some(Seq::empty())
    } else {
        match scan_at(chars, i) {
            Some((k, j)) => if j <= i || j > chars.len() {
                None
            } else {
                match tokens_from(chars, j) {
                    Some(ts) => match k {
                        Some(kind) => Some(seq![Token { kind, start: i as usize, end: j as usize }] + ts),
                        None => Some(ts),
                    },
                    None => None,
                }
            },
            None => None,
        }
    }
}

/// The tokens of the whole text.
pub open spec fn tokens(chars: Seq<char>) -> Option<Seq<Token>> {
    tokens_from(chars, 0)
}

fn ident_start(c: char) -> (r: bool)
    ensures
        r == is_ident_start(c),
{
    ('a' <= c && c <= 'z') || ('A' <= c && c <= 'Z') || c == '_'
}

fn ident_continue(c: char) -> (r: bool)
    ensures
        r == is_ident_continue(c),
{
    ident_start(c) || ('0' <= c && c <= '9')
}

pub open spec fn token_ok(chars: Seq<char>, t: Token) -> bool {
    &&& t.start < t.end <= chars.len()
    &&& match t.kind {
        TokenKind::Punct(c) => t.end == t.start + 1 && chars[t.start as int] == c,
        TokenKind::Ident => is_ident_start(chars[t.start as int]) && forall|m: int|
            t.start <= m < t.end ==> is_ident_continue(#[trigger] chars[m]),
        TokenKind::Literal => true,
    }
}

fn push_token(toks: &mut Vec<Token>, tok: Token, Ghost(chars): Ghost<Seq<char>>)
    requires
        lexed_ok(chars, old(toks)@),
        token_ok(chars, tok),
        forall|k: int| 0 <= k < old(toks)@.len() ==> (#[trigger] old(toks)@[k]).end <= tok.start,
    ensures
        lexed_ok(chars, final(toks)@),
        final(toks)@ == old(toks)@.push(tok),
{
    reveal(lexed_ok);
    let ghost pre = toks@;
    toks.push(tok);
    assert forall|a: int, b: int| 0 <= a < b < toks@.len() implies (#[trigger] toks@[a]).end <= (#[trigger] toks@[b]).start by {
        assert(toks@[a] == pre[a]);
        if b < pre.len() {
            assert(toks@[b] == pre[b]);
        }
    }
    assert forall|k: int| 0 <= k < toks@.len() implies match (#[trigger] toks@[k]).kind {
        TokenKind::Punct(c) => toks@[k].end == toks@[k].start + 1 && chars[toks@[k].start as int] == c,
        TokenKind::Ident => is_ident_start(chars[toks@[k].start as int]) && forall|m: int|
            toks@[k].start <= m < toks@[k].end ==> is_ident_continue(#[trigger] chars[m]),
        TokenKind::Literal => true,
    } by {
        if k < pre.len() {
            assert(toks@[k] == pre[k]);
        }
    }
}

/// The characters of `s`, in order.
pub fn chars_of(s: &str) -> (r: Vec<char>)
    ensures
        r@ == s@,
{
    let n = s.unicode_len();
    let mut r: Vec<char> = Vec::new();
    let mut i: usize = 0;
    while i < n
        invariant
            n == s@.len(),
            i <= n,
            r@ == s@.take(i as int),
        decreases n - i,
    {
        r.push(s.get_char(i));
        i = i + 1;
        assert(r@ =~= s@.take(i as int));
    }
    assert(s@.take(n as int) =~= s@);
    r
}

/// Reads what starts at offset `at`: whitespace or a comment (no token), or one
/// token; and the offset after it.
fn scan(chars: &Vec<char>, at: usize) -> (r: Result<(Option<Token>, usize), Error>)
    requires
        at < chars@.len(),
    ensures
        r matches Ok((t, j)) ==> at < j <= chars@.len() && (t matches Some(tok) ==> tok.start == at && tok.end == j
            && token_ok(chars@, tok)),
        r matches Err(e) ==> e.kind is Syntax && e.at == at && unterminated(chars@, at as int),
        r matches Ok((None, j)) ==> is_skip(chars@, at as int, j as int),
        is_space(chars@[at as int]) ==> (r matches Ok((None, j)) && j == at + 1),
        r is Err <==> scan_at(chars@, at as int) is None,
        r matches Ok((t, j)) ==> scan_at(chars@, at as int) == Some((
            match t {
                Some(tok) => Some(tok.kind),
                None => None::<TokenKind>,
            },
            j as int,
        )),
{
    let n = chars.len();
    let start = at;
    let c = chars[at];
    let mut i = at;
    if c == ' ' || c == '\t' || c == '\n' || c == '\r' {
        return Ok((None, i + 1));
    }
    if c == '/' && i + 1 < n && chars[i + 1] == '/' {
        while i < n && chars[i] != '\n'
            invariant
                start <= i <= n,
                n == chars@.len(),
                start == at,
                chars@[start as int] == '/',
                start + 1 < n && chars@[start + 1] == '/',
                forall|m: int| start <= m < i ==> chars@[m] != '\n',
                line_end(chars@, start as int) == line_end(chars@, i as int),
            decreases n - i,
        {
            i = i + 1;
        }
        return Ok((None, i));
    }
    if c == '/' && i + 1 < n && chars[i + 1] == '*' {
        i = i + 2;
        while i < n
            invariant
                start + 2 <= i <= n,
                n == chars@.len(),
                start == at,
                chars@[start as int] == '/',
                start + 1 < n && chars@[start + 1] == '*',
                forall|m: int| start + 2 <= m < i && m + 1 < n ==> !(chars@[m] == '*' && #[trigger] chars@[m + 1] == '/'),
                block_end(chars@, start + 2) == block_end(chars@, i as int),
            decreases n - i,
        {
            if chars[i] == '*' && i + 1 < n && chars[i + 1] == '/' {
                return Ok((None, i + 2));
            }
            i = i + 1;
        }
        return Err(Error { kind: ErrorKind::Syntax, at: start, message: String::from_str("Unterminated block comment.") });
    }
    let kind = if ident_start(c) {
        i = i + 1;
        while i < n && ident_continue(chars[i])
            invariant
                start < i <= n,
                n == chars@.len(),
                start == at,
                is_ident_start(chars@[start as int]),
                forall|m: int| start <= m < i ==> is_ident_continue(#[trigger] chars@[m]),
                ident_run(chars@, start + 1) == ident_run(chars@, i as int),
            decreases n - i,
        {
            i = i + 1;
        }
        TokenKind::Ident
    } else if '0' <= c && c <= '9' {
        i = i + 1;
        while i < n && (ident_continue(chars[i]) || chars[i] == '.')
            invariant
                start < i <= n,
                n == chars@.len(),
                start == at,
                number_run(chars@, start + 1) == number_run(chars@, i as int),
            decreases n - i,
        {
            i = i + 1;
        }
        TokenKind::Literal
    } else if c == '"' {
        i = i + 1;
        let mut closed = false;
        while i < n && !closed
            invariant
                start < i <= n,
                n == chars@.len(),
                start == at,
                chars@[start as int] == '"',
                !closed ==> string_closes(chars@, start + 1) == string_closes(chars@, i as int),
                !closed ==> string_end(chars@, start + 1) == string_end(chars@, i as int),
                closed ==> string_end(chars@, start + 1) == Some(i as int),
            decreases n - i,
        {
            if chars[i] == '\\' && i + 1 < n {
                i = i + 2;
            } else {
                if chars[i] == '"' {
                    closed = true;
                }
                i = i + 1;
            }
        }
        if !closed {
            return Err(Error { kind: ErrorKind::Syntax, at: start, message: String::from_str("Unterminated string literal.") });
        }
        TokenKind::Literal
    } else if c == '\'' && n - i > 2 && chars[i + 1] != '\\' && chars[i + 2] == '\'' {
        i = i + 3;
        TokenKind::Literal
    } else {
        i = i + 1;
        TokenKind::Punct(c)
    };
    Ok((Some(Token { kind, start, end: i }), i))
}

/// Splits `chars` into tokens. Whitespace and comments (`// ...` to the end of
/// the line, `/* ... */`) separate tokens and are dropped. A string literal or
/// block comment left open is an error at its start.
pub fn lex(chars: &Vec<char>) -> (r: Result<Vec<Token>, Error>)
    ensures
        r matches Ok(toks) ==> lexed_ok(chars@, toks@),
        r matches Ok(toks) ==> forall|m: int| 0 <= m < chars@.len() && !covered(toks@, m) ==> skipped(chars@, m),
        r matches Err(e) ==> e.kind is Syntax && e.at < chars@.len() && unterminated(chars@, e.at as int),
        r matches Ok(toks) ==> tokens(chars@) == Some(toks@),
        r is Err ==> tokens(chars@) is None,
        (forall|m: int| 0 <= m < chars@.len() ==> is_space(#[trigger] chars@[m])) ==> (r matches Ok(toks)
            && toks@.len() == 0),
{
    let n = chars.len();
    let mut toks: Vec<Token> = Vec::new();
    assert(lexed_ok(chars@, toks@)) by {
        reveal(lexed_ok);
    }
    let mut i: usize = 0;
    while i < n
        invariant
            n == chars@.len(),
            i <= n,
            lexed_ok(chars@, toks@),
            forall|k: int| 0 <= k < toks@.len() ==> (#[trigger] toks@[k]).end <= i,
            forall|m: int| 0 <= m < i && !covered(toks@, m) ==> skipped(chars@, m),
            (forall|m: int| 0 <= m < chars@.len() ==> is_space(#[trigger] chars@[m])) ==> toks@.len() == 0,
            tokens(chars@) == match tokens_from(chars@, i as int) {
                Some(ts) => Some(toks@ + ts),
                None => None::<Seq<Token>>,
            },
        decreases n - i,
    {
        match scan(chars, i) {
            Err(e) => {
                return Err(e);
            },
            Ok((None, j)) => {
                assert forall|m: int| 0 <= m < j && !covered(toks@, m) implies skipped(chars@, m) by {
                    if m >= i {
                        assert(is_skip(chars@, i as int, j as int));
                    }
                }
                i = j;
            },
            Ok((Some(t), j)) => {
                let ghost pre = toks@;
                push_token(&mut toks, t, Ghost(chars@));
                assert forall|k: int| 0 <= k < toks@.len() implies (#[trigger] toks@[k]).end <= j by {
                    if k < pre.len() {
                        assert(toks@[k] == pre[k]);
                    }
                }
                assert forall|m: int| 0 <= m < j && !covered(toks@, m) implies skipped(chars@, m) by {
                    if m >= i {
                        assert(toks@[pre.len() as int].start <= m < toks@[pre.len() as int].end);
                    } else if covered(pre, m) {
                        let k = choose|k: int| 0 <= k < pre.len() && (#[trigger] pre[k]).start <= m < pre[k].end;
                        assert(toks@[k] == pre[k]);
                    }
                }
                proof {
                    match tokens_from(chars@, j as int) {
                        Some(ts) => {
                            assert(pre + (seq![t] + ts) =~= toks@ + ts);
                        },
                        None => {},
                    }
                }
                i = j;
            },
        }
    }
    assert(toks@ + Seq::<Token>::empty() =~= toks@);
    Ok(toks)
}

} // verus!
