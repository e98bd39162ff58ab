//! Tokenizer for list expressions.

use vstd::prelude::*;

use super::ParseError;
use crate::text::{
    char_is_alphanumeric, chars_of, clone_string, from_str, is_alphanumeric, is_ascii_alnum, is_white_space,
    is_whitespace, push_char, push_str, string_of_range,
};

verus! {

#[derive(Debug)]
pub enum Token {
    Name(String),
    Pipe,
    Plus,
    Minus,
    Amp,
    Caret,
    LParen,
    RParen,
}

pub enum TokenV {
    Name(Seq<char>),
    Pipe,
    Plus,
    Minus,
    Amp,
    Caret,
    LParen,
    RParen,
}

impl View for Token {
    type V = TokenV;

    open spec fn view(&self) -> TokenV {
        match self {
            Token::Name(n) => TokenV::Name(n@),
            Token::Pipe => TokenV::Pipe,
            Token::Plus => TokenV::Plus,
            Token::Minus => TokenV::Minus,
            Token::Amp => TokenV::Amp,
            Token::Caret => TokenV::Caret,
            Token::LParen => TokenV::LParen,
            Token::RParen => TokenV::RParen,
        }
    }
}

pub open spec fn describe_token(t: TokenV) -> Seq<char> {
    match t {
        TokenV::Name(n) => "`"@ + n + "`"@,
        TokenV::Pipe => "`|`"@,
        TokenV::Plus => "`+`"@,
        TokenV::Minus => "`-`"@,
        TokenV::Amp => "`&`"@,
        TokenV::Caret => "`^`"@,
        TokenV::LParen => "`(`"@,
        TokenV::RParen => "`)`"@,
    }
}

impl Token {
    pub fn describe(&self) -> (r: String)
        ensures
            r@ == describe_token(self@),
    {
        match self {
            Token::Name(name) => {
                let mut s = from_str("`");
                push_str(&mut s, name.as_str());
                push_str(&mut s, "`");
                s
            },
            Token::Pipe => from_str("`|`"),
            Token::Plus => from_str("`+`"),
            Token::Minus => from_str("`-`"),
            Token::Amp => from_str("`&`"),
            Token::Caret => from_str("`^`"),
            Token::LParen => from_str("`(`"),
            Token::RParen => from_str("`)`"),
        }
    }

    pub fn duplicate(&self) -> (r: Token)
        ensures
            r@ == self@,
    {
        match self {
            Token::Name(name) => Token::Name(clone_string(name)),
            Token::Pipe => Token::Pipe,
            Token::Plus => Token::Plus,
            Token::Minus => Token::Minus,
            Token::Amp => Token::Amp,
            Token::Caret => Token::Caret,
            Token::LParen => Token::LParen,
            Token::RParen => Token::RParen,
        }
    }
}

#[derive(Debug)]
pub struct Spanned {
    pub token: Token,
    /// Zero-based character offset, reported to the user as a column.
    pub pos: usize,
}

pub struct SpannedV {
    pub token: TokenV,
    pub pos: int,
}

impl View for Spanned {
    type V = SpannedV;

    open spec fn view(&self) -> SpannedV {
        SpannedV { token: self.token@, pos: self.pos as int }
    }
}

pub open spec fn spanned_view(v: Seq<Spanned>) -> Seq<SpannedV> {
    v.map_values(|s: Spanned| s@)
}

/// A letter or digit in the sense of `char::is_alphanumeric` (on ASCII:
/// `a`-`z`, `A`-`Z`, `0`-`9`), or one of `_ . : / *`. `-` is an operator,
/// so it cannot also be a name character; a name that needs one has to be
/// quoted. `*` lexes as part of a name so that a wildcard pattern is a
/// single token.
pub open spec fn is_name_char_spec(c: char) -> bool {
    ||| (if (c as u32) < 128 {
        is_ascii_alnum(c)
    } else {
        char_is_alphanumeric(c)
    })
    ||| c == '_' || c == '.' || c == ':' || c == '/' || c == '*'
}

pub fn is_name_char(c: char) -> (r: bool)
    ensures
        r == is_name_char_spec(c),
{
    is_alphanumeric(c) || c == '_' || c == '.' || c == ':' || c == '/' || c == '*'
}

/// The single-character operator tokens.
pub open spec fn operator_token(c: char) -> Option<TokenV> {
    if c == '|' {
        Some(TokenV::Pipe)
    } else if c == '+' {
        Some(TokenV::Plus)
    } else if c == '-' {
        Some(TokenV::Minus)
    } else if c == '&' {
        Some(TokenV::Amp)
    } else if c == '^' {
        Some(TokenV::Caret)
    } else if c == '(' {
        Some(TokenV::LParen)
    } else if c == ')' {
        Some(TokenV::RParen)
    } else {
        None
    }
}

/// Where the run of name characters starting at `i` ends.
pub open spec fn name_end(s: Seq<char>, i: int) -> int
    decreases s.len() - i,
{
    if 0 <= i < s.len() && is_name_char_spec(s[i]) {
        name_end(s, i + 1)
    } else {
        i
    }
}

/// The first `q` at or after `i`.
pub open spec fn quote_close(s: Seq<char>, i: int, q: char) -> Option<int>
    decreases s.len() - i,
{
    if i < 0 || i >= s.len() {
        None
    } else if s[i] == q {
        Some(i)
    } else {
        quote_close(s, i + 1, q)
    }
}

pub proof fn lemma_name_end(s: Seq<char>, i: int)
    requires
        0 <= i <= s.len(),
    ensures
        i <= name_end(s, i) <= s.len(),
        i < s.len() && is_name_char_spec(s[i]) ==> name_end(s, i) > i,
        forall|k: int| i <= k < name_end(s, i) ==> is_name_char_spec(#[trigger] s[k]),
        name_end(s, i) < s.len() ==> !is_name_char_spec(s[name_end(s, i)]),
    decreases s.len() - i,
{
    if i < s.len() && is_name_char_spec(s[i]) {
        lemma_name_end(s, i + 1);
    }
}

pub proof fn lemma_quote_close(s: Seq<char>, i: int, q: char)
    requires
        0 <= i,
    ensures
        quote_close(s, i, q) matches Some(j) ==> i <= j < s.len() && s[j] == q && forall|k: int|
            i <= k < j ==> s[k] != q,
        quote_close(s, i, q) is None ==> forall|k: int| i <= k < s.len() ==> s[k] != q,
    decreases s.len() - i,
{
    if i < s.len() && s[i] != q {
        lemma_quote_close(s, i + 1, q);
    }
}

pub open spec fn unterminated_message(quote: char) -> Seq<char> {
    "unterminated quoted name, expected a closing "@ + seq![quote]
}

pub open spec fn unexpected_char_message(c: char) -> Seq<char> {
    "unexpected character `"@ + seq![c] + "`"@
}

pub open spec fn prepend_token(
    t: SpannedV,
    rest: Result<Seq<SpannedV>, (Seq<char>, int)>,
) -> Result<Seq<SpannedV>, (Seq<char>, int)> {
    match rest {
        Ok(ts) => Ok(seq![t] + ts),
        Err(e) => Err(e),
    }
}

/// The tokens of `s` from offset `i`, or the first lexical error.
pub open spec fn lex_from(s: Seq<char>, i: int) -> Result<Seq<SpannedV>, (Seq<char>, int)>
    decreases s.len() - i,
{
    if i < 0 || i >= s.len() {
        Ok(seq![])
    } else {
        let c = s[i];
        if is_white_space(c) {
            lex_from(s, i + 1)
        } else if operator_token(c) is Some {
            prepend_token(SpannedV { token: operator_token(c)->0, pos: i }, lex_from(s, i + 1))
        } else if c == '"' || c == '\'' {
            match quote_close(s, i + 1, c) {
                None => Err((unterminated_message(c), i)),
                Some(j) => {
                    if j == i + 1 {
                        Err(("empty quoted name"@, i))
                    } else {
                        proof {
                            lemma_quote_close(s, i + 1, c);
                        }
                        prepend_token(
                            SpannedV { token: TokenV::Name(s.subrange(i + 1, j)), pos: i },
                            lex_from(s, j + 1),
                        )
                    }
                },
            }
        } else if is_name_char_spec(c) {
            proof {
                lemma_name_end(s, i);
            }
            let j = name_end(s, i);
            prepend_token(SpannedV { token: TokenV::Name(s.subrange(i, j)), pos: i }, lex_from(s, j))
        } else {
            Err((unexpected_char_message(c), i))
        }
    }
}

/// Whether a token stands where it says: a name is not empty and starts at
/// its position (or its opening quote does), an operator is the character
/// there.
pub open spec fn token_at(s: Seq<char>, t: SpannedV) -> bool {
    &&& 0 <= t.pos < s.len()
    &&& match t.token {
        TokenV::Name(n) => n.len() > 0 && (s[t.pos] == '"' || s[t.pos] == '\'' || s[t.pos] == n[0]),
        other => operator_token(s[t.pos]) == Some(other),
    }
}

/// The tokens of a successful lex from `i` stand at increasing positions,
/// each at or after `i`, each where `token_at` says.
pub proof fn lemma_lex_positions(s: Seq<char>, i: int)
    requires
        0 <= i,
    ensures
        lex_from(s, i) matches Ok(ts) ==> {
            &&& forall|k: int| 0 <= k < ts.len() ==> i <= (#[trigger] ts[k]).pos && token_at(s, ts[k])
            &&& forall|a: int, b: int| 0 <= a < b < ts.len() ==> (#[trigger] ts[a]).pos < (#[trigger] ts[b]).pos
        },
    decreases s.len() - i,
{
    if 0 <= i < s.len() {
        let c = s[i];
        if is_white_space(c) {
            lemma_lex_positions(s, i + 1);
        } else if operator_token(c) is Some {
            lemma_lex_positions(s, i + 1);
            lemma_prepend_positions(s, SpannedV { token: operator_token(c)->0, pos: i }, lex_from(s, i + 1), i + 1);
        } else if c == '"' || c == '\'' {
            lemma_quote_close(s, i + 1, c);
            if let Some(j) = quote_close(s, i + 1, c) {
                if j != i + 1 {
                    lemma_lex_positions(s, j + 1);
                    let t = SpannedV { token: TokenV::Name(s.subrange(i + 1, j)), pos: i };
                    assert(token_at(s, t));
                    lemma_prepend_positions(s, t, lex_from(s, j + 1), j + 1);
                }
            }
        } else if is_name_char_spec(c) {
            lemma_name_end(s, i);
            let j = name_end(s, i);
            lemma_lex_positions(s, j);
            let t = SpannedV { token: TokenV::Name(s.subrange(i, j)), pos: i };
            assert(s.subrange(i, j)[0] == c);
            assert(token_at(s, t));
            lemma_prepend_positions(s, t, lex_from(s, j), j);
        }
    }
}

proof fn lemma_prepend_positions(
    s: Seq<char>,
    t: SpannedV,
    rest: Result<Seq<SpannedV>, (Seq<char>, int)>,
    from: int,
)
    requires
        token_at(s, t),
        t.pos < from,
        rest matches Ok(ts) ==> {
            &&& forall|k: int| 0 <= k < ts.len() ==> from <= (#[trigger] ts[k]).pos && token_at(s, ts[k])
            &&& forall|a: int, b: int| 0 <= a < b < ts.len() ==> (#[trigger] ts[a]).pos < (#[trigger] ts[b]).pos
        },
    ensures
        prepend_token(t, rest) matches Ok(ts) ==> {
            &&& forall|k: int| 0 <= k < ts.len() ==> t.pos <= (#[trigger] ts[k]).pos && token_at(s, ts[k])
            &&& forall|a: int, b: int| 0 <= a < b < ts.len() ==> (#[trigger] ts[a]).pos < (#[trigger] ts[b]).pos
        },
{
    if let Ok(rs) = rest {
        let ts = seq![t] + rs;
        assert forall|k: int| 0 <= k < ts.len() implies t.pos <= (#[trigger] ts[k]).pos && token_at(s, ts[k]) by {
            if k > 0 {
                assert(ts[k] == rs[k - 1]);
            }
        }
        assert forall|a: int, b: int| 0 <= a < b < ts.len() implies (#[trigger] ts[a]).pos < (#[trigger] ts[b]).pos by {
            assert(ts[b] == rs[b - 1]);
            if a > 0 {
                assert(ts[a] == rs[a - 1]);
            }
        }
    }
}

/// How a token was read: at a character that is not white space, and an
/// unquoted name is the whole run of name characters from there, stopping
/// only at the end of the text or at a character that cannot be in a name.
pub open spec fn read_at(s: Seq<char>, t: SpannedV) -> bool {
    &&& 0 <= t.pos < s.len()
    &&& !is_white_space(s[t.pos])
    &&& s[t.pos] != '"' && s[t.pos] != '\'' ==> match t.token {
        TokenV::Name(n) => {
            &&& n == s.subrange(t.pos, name_end(s, t.pos))
            &&& name_end(s, t.pos) < s.len() ==> !is_name_char_spec(s[name_end(s, t.pos)])
        },
        _ => true,
    }
}

/// White space yields no token, and a bare name is the longest run of name
/// characters at its position.
pub proof fn lemma_lex_reads(s: Seq<char>, i: int)
    requires
        0 <= i,
    ensures
        lex_from(s, i) matches Ok(ts) ==> forall|k: int| 0 <= k < ts.len() ==> read_at(s, #[trigger] ts[k]),
    decreases s.len() - i,
{
    if 0 <= i < s.len() {
        let c = s[i];
        if is_white_space(c) {
            lemma_lex_reads(s, i + 1);
        } else if operator_token(c) is Some {
            lemma_lex_reads(s, i + 1);
            lemma_prepend_reads(s, SpannedV { token: operator_token(c)->0, pos: i }, lex_from(s, i + 1));
        } else if c == '"' || c == '\'' {
            lemma_quote_close(s, i + 1, c);
            if let Some(j) = quote_close(s, i + 1, c) {
                if j != i + 1 {
                    lemma_lex_reads(s, j + 1);
                    let t = SpannedV { token: TokenV::Name(s.subrange(i + 1, j)), pos: i };
                    lemma_prepend_reads(s, t, lex_from(s, j + 1));
                }
            }
        } else if is_name_char_spec(c) {
            lemma_name_end(s, i);
            let j = name_end(s, i);
            lemma_lex_reads(s, j);
            let t = SpannedV { token: TokenV::Name(s.subrange(i, j)), pos: i };
            assert(read_at(s, t));
            lemma_prepend_reads(s, t, lex_from(s, j));
        }
    }
}

proof fn lemma_prepend_reads(s: Seq<char>, t: SpannedV, rest: Result<Seq<SpannedV>, (Seq<char>, int)>)
    requires
        read_at(s, t),
        rest matches Ok(ts) ==> forall|k: int| 0 <= k < ts.len() ==> read_at(s, #[trigger] ts[k]),
    ensures
        prepend_token(t, rest) matches Ok(ts) ==> forall|k: int| 0 <= k < ts.len() ==> read_at(s, #[trigger] ts[k]),
{
    if let Ok(rs) = rest {
        let ts = seq![t] + rs;
        assert forall|k: int| 0 <= k < ts.len() implies read_at(s, #[trigger] ts[k]) by {
            if k > 0 {
                assert(ts[k] == rs[k - 1]);
            }
        }
    }
}

pub open spec fn lex_spec(s: Seq<char>) -> Result<Seq<SpannedV>, (Seq<char>, int)> {
    lex_from(s, 0)
}

pub open spec fn prefixed(
    acc: Seq<SpannedV>,
    rest: Result<Seq<SpannedV>, (Seq<char>, int)>,
) -> Result<Seq<SpannedV>, (Seq<char>, int)> {
    match rest {
        Ok(ts) => Ok(acc + ts),
        Err(e) => Err(e),
    }
}

fn operator_at(c: char) -> (r: Option<Token>)
    ensures
        match r {
            Some(t) => operator_token(c) == Some(t@),
            None => operator_token(c) is None,
        },
{
    if c == '|' {
        Some(Token::Pipe)
    } else if c == '+' {
        Some(Token::Plus)
    } else if c == '-' {
        Some(Token::Minus)
    } else if c == '&' {
        Some(Token::Amp)
    } else if c == '^' {
        Some(Token::Caret)
    } else if c == '(' {
        Some(Token::LParen)
    } else if c == ')' {
        Some(Token::RParen)
    } else {
        None
    }
}

fn push_token(out: &mut Vec<Spanned>, token: Token, pos: usize)
    ensures
        spanned_view(final(out)@) == spanned_view(old(out)@).push(
            SpannedV { token: token@, pos: pos as int },
        ),
{
    let ghost before = spanned_view(out@);
    out.push(Spanned { token, pos });
    assert(spanned_view(out@) =~= before.push(SpannedV { token: token@, pos: pos as int }));
}

/// Split an expression into tokens, or report the first character that does
/// not belong.
pub fn lex(input: &str) -> (r: Result<Vec<Spanned>, ParseError>)
    ensures
        match (r, lex_spec(input@)) {
            (Ok(ts), Ok(m)) => spanned_view(ts@) == m,
            (Err(e), Err(m)) => e.message@ == m.0 && e.pos == m.1,
            _ => false,
        },
{
    let chars = chars_of(input);
    let n = chars.len();
    let ghost s = input@;
    let mut out: Vec<Spanned> = Vec::new();
    let mut i: usize = 0;
    assert(spanned_view(out@) =~= Seq::<SpannedV>::empty());
    while i < n
        invariant
            n == chars@.len(),
            chars@ == s,
            s == input@,
            0 <= i <= n,
            lex_spec(s) == prefixed(spanned_view(out@), lex_from(s, i as int)),
        decreases n - i,
    {
        let c = chars[i];
        let start = i;
        if is_whitespace(c) {
            i += 1;
            continue;
        }
        match operator_at(c) {
            Some(token) => {
                let ghost before = spanned_view(out@);
                push_token(&mut out, token, start);
                i += 1;
                proof {
                    let rest = lex_from(s, i as int);
                    match rest {
                        Ok(ts) => {
                            assert(before + (seq![SpannedV { token: operator_token(c)->0, pos: start as int }] + ts) =~= before.push(SpannedV { token: operator_token(c)->0, pos: start as int }) + ts);
                        },
                        Err(_) => {},
                    }
                }
                continue;
            },
            None => {},
        }
        if c == '"' || c == '\'' {
            let quote = c;
            let mut j: usize = i + 1;
            proof {
                lemma_quote_close(s, i + 1, quote);
            }
            while j < n && chars[j] != quote
                invariant
                    n == chars@.len(),
                    chars@ == s,
                    start + 1 <= j <= n,
                    quote_close(s, start + 1, quote) == quote_close(s, j as int, quote),
                decreases n - j,
            {
                j += 1;
            }
            if j == n {
                let mut message = from_str("unterminated quoted name, expected a closing ");
                push_char(&mut message, quote);
                return Err(ParseError::new(message, start));
            }
            if j == start + 1 {
                return Err(ParseError::new(from_str("empty quoted name"), start));
            }
            let name = string_of_range(&chars, start + 1, j);
            let ghost before = spanned_view(out@);
            push_token(&mut out, Token::Name(name), start);
            i = j + 1;
            proof {
                let rest = lex_from(s, i as int);
                let t = SpannedV { token: TokenV::Name(s.subrange(start + 1, j as int)), pos: start as int };
                match rest {
                    Ok(ts) => {
                        assert(before + (seq![t] + ts) =~= before.push(t) + ts);
                    },
                    Err(_) => {},
                }
            }
            continue;
        }
        if is_name_char(c) {
            proof {
                lemma_name_end(s, i as int);
            }
            let mut j: usize = i;
            while j < n && is_name_char(chars[j])
                invariant
                    n == chars@.len(),
                    chars@ == s,
                    start <= j <= n,
                    name_end(s, start as int) == name_end(s, j as int),
                decreases n - j,
            {
                j += 1;
            }
            let name = string_of_range(&chars, start, j);
            let ghost before = spanned_view(out@);
            push_token(&mut out, Token::Name(name), start);
            i = j;
            proof {
                let rest = lex_from(s, i as int);
                let t = SpannedV { token: TokenV::Name(s.subrange(start as int, j as int)), pos: start as int };
                match rest {
                    Ok(ts) => {
                        assert(before + (seq![t] + ts) =~= before.push(t) + ts);
                    },
                    Err(_) => {},
                }
            }
            continue;
        }
        let mut message = from_str("unexpected character `");
        push_char(&mut message, c);
        push_str(&mut message, "`");
        return Err(ParseError::new(message, start));
    }
    proof {
        assert(spanned_view(out@) + Seq::<SpannedV>::empty() =~= spanned_view(out@));
    }
    Ok(out)
}

} // verus!
