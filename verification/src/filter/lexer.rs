//! Tokenizer for filter expressions.
//!
//! Deliberately word operators. The set language next door uses `& | ^ - +`,
//! and having the two read differently is what keeps `a - b` (set difference)
//! from being confused with `a and not b` (filter conjunction).

use vstd::prelude::*;

use crate::expr::lexer::{lemma_quote_close, quote_close, unexpected_char_message, unterminated_message};
use crate::expr::ParseError;
use crate::text::{
    ascii_lower, ascii_lower_chars, char_is_alphanumeric, chars_eq, chars_of, clone_string,
    from_str, is_alphanumeric, is_white_space, is_whitespace, push_char, push_str,
    string_of_range,
};

verus! {

#[derive(Debug)]
pub enum Token {
    Name(String),
    And,
    Or,
    Not,
    LParen,
    RParen,
}

pub enum TokenV {
    Name(Seq<char>),
    And,
    Or,
    Not,
    LParen,
    RParen,
}

impl View for Token {
    type V = TokenV;

    open spec fn view(&self) -> TokenV {
        match self {
            Token::Name(n) => TokenV::Name(n@),
            Token::And => TokenV::And,
            Token::Or => TokenV::Or,
            Token::Not => TokenV::Not,
            Token::LParen => TokenV::LParen,
            Token::RParen => TokenV::RParen,
        }
    }
}

pub open spec fn describe_token(t: TokenV) -> Seq<char> {
    match t {
        TokenV::Name(n) => "`"@ + n + "`"@,
        TokenV::And => "`and`"@,
        TokenV::Or => "`or`"@,
        TokenV::Not => "`not`"@,
        TokenV::LParen => "`(`"@,
        TokenV::RParen => "`)`"@,
    }
}

impl Token {
    pub fn describe(&self) -> (r: String)
        ensures
            r@ == describe_token(self@),
    {
        match self {
            Token::Name(name) => {
                let mut s = from_str("`");
                push_str(&mut s, name.as_str());
                push_str(&mut s, "`");
                s
            },
            Token::And => from_str("`and`"),
            Token::Or => from_str("`or`"),
            Token::Not => from_str("`not`"),
            Token::LParen => from_str("`(`"),
            Token::RParen => from_str("`)`"),
        }
    }

    pub fn duplicate(&self) -> (r: Token)
        ensures
            r@ == self@,
    {
        match self {
            Token::Name(name) => Token::Name(clone_string(name)),
            Token::And => Token::And,
            Token::Or => Token::Or,
            Token::Not => Token::Not,
            Token::LParen => Token::LParen,
            Token::RParen => Token::RParen,
        }
    }
}

#[derive(Debug)]
pub struct Spanned {
    pub token: Token,
    /// Zero-based character offset, reported to the user as a column.
    pub pos: usize,
}

pub struct SpannedV {
    pub token: TokenV,
    pub pos: int,
}

impl View for Spanned {
    type V = SpannedV;

    open spec fn view(&self) -> SpannedV {
        SpannedV { token: self.token@, pos: self.pos as int }
    }
}

pub open spec fn spanned_view(v: Seq<Spanned>) -> Seq<SpannedV> {
    v.map_values(|s: Spanned| s@)
}

/// No operator is punctuation here, so a filter name may contain `-` bare.
pub open spec fn is_name_char_spec(c: char) -> bool {
    char_is_alphanumeric(c) || c == '_' || c == '-' || c == '.' || c == ':' || c == '/'
}

fn is_name_char(c: char) -> (r: bool)
    ensures
        r == is_name_char_spec(c),
{
    is_alphanumeric(c) || c == '_' || c == '-' || c == '.' || c == ':' || c == '/'
}

/// The bracket and `!` tokens, one character each.
pub open spec fn punct_token(c: char) -> Option<TokenV> {
    if c == '(' {
        Some(TokenV::LParen)
    } else if c == ')' {
        Some(TokenV::RParen)
    } else if c == '!' {
        Some(TokenV::Not)
    } else {
        None
    }
}

/// A bare word is a keyword when it spells one in any case.
pub open spec fn word_token(name: Seq<char>) -> TokenV {
    let k = ascii_lower(name);
    if k == "and"@ {
        TokenV::And
    } else if k == "or"@ {
        TokenV::Or
    } else if k == "not"@ {
        TokenV::Not
    } else {
        TokenV::Name(name)
    }
}

pub open spec fn set_operator_message(c: char) -> Seq<char> {
    let word = if c == '&' {
        "and"@
    } else {
        "or"@
    };
    "`"@ + seq![c] + "` is a set operator; a filter expression uses `"@ + word + "` (or `"@ + seq![
        c,
        c,
    ] + "`)"@
}

/// Where the run of name characters starting at `i` ends.
pub open spec fn name_end(s: Seq<char>, i: int) -> int
    decreases s.len() - i,
{
    if 0 <= i < s.len() && is_name_char_spec(s[i]) {
        name_end(s, i + 1)
    } else {
        i
    }
}

pub proof fn lemma_name_end(s: Seq<char>, i: int)
    requires
        0 <= i <= s.len(),
    ensures
        i <= name_end(s, i) <= s.len(),
        i < s.len() && is_name_char_spec(s[i]) ==> name_end(s, i) > i,
    decreases s.len() - i,
{
    if i < s.len() && is_name_char_spec(s[i]) {
        lemma_name_end(s, i + 1);
    }
}

pub open spec fn prepend_token(
    t: SpannedV,
    rest: Result<Seq<SpannedV>, (Seq<char>, int)>,
) -> Result<Seq<SpannedV>, (Seq<char>, int)> {
    match rest {
        Ok(ts) => Ok(seq![t] + ts),
        Err(e) => Err(e),
    }
}

/// The tokens of `s` from offset `i`, or the first lexical error.
pub open spec fn lex_from(s: Seq<char>, i: int) -> Result<Seq<SpannedV>, (Seq<char>, int)>
    decreases s.len() - i,
{
    if i < 0 || i >= s.len() {
        Ok(seq![])
    } else {
        let c = s[i];
        if is_white_space(c) {
            lex_from(s, i + 1)
        } else if punct_token(c) is Some {
            prepend_token(SpannedV { token: punct_token(c)->0, pos: i }, lex_from(s, i + 1))
        } else if c == '&' || c == '|' {
            if i + 1 < s.len() && s[i + 1] == c {
                let t = if c == '&' {
                    TokenV::And
                } else {
                    TokenV::Or
                };
                prepend_token(SpannedV { token: t, pos: i }, lex_from(s, i + 2))
            } else {
                Err((set_operator_message(c), i))
            }
        } else if c == '"' || c == '\'' {
            match quote_close(s, i + 1, c) {
                None => Err((unterminated_message(c), i)),
                Some(j) => {
                    if j == i + 1 {
                        Err(("empty quoted name"@, i))
                    } else {
                        proof {
                            lemma_quote_close(s, i + 1, c);
                        }
                        prepend_token(
                            SpannedV { token: TokenV::Name(s.subrange(i + 1, j)), pos: i },
                            lex_from(s, j + 1),
                        )
                    }
                },
            }
        } else if is_name_char_spec(c) {
            proof {
                lemma_name_end(s, i);
            }
            let j = name_end(s, i);
            prepend_token(SpannedV { token: word_token(s.subrange(i, j)), pos: i }, lex_from(s, j))
        } else {
            Err((unexpected_char_message(c), i))
        }
    }
}

pub open spec fn lex_spec(s: Seq<char>) -> Result<Seq<SpannedV>, (Seq<char>, int)> {
    lex_from(s, 0)
}

pub open spec fn prefixed(
    acc: Seq<SpannedV>,
    rest: Result<Seq<SpannedV>, (Seq<char>, int)>,
) -> Result<Seq<SpannedV>, (Seq<char>, int)> {
    match rest {
        Ok(ts) => Ok(acc + ts),
        Err(e) => Err(e),
    }
}

fn punct_at(c: char) -> (r: Option<Token>)
    ensures
        match r {
            Some(t) => punct_token(c) == Some(t@),
            None => punct_token(c) is None,
        },
{
    if c == '(' {
        Some(Token::LParen)
    } else if c == ')' {
        Some(Token::RParen)
    } else if c == '!' {
        Some(Token::Not)
    } else {
        None
    }
}

fn word_at(chars: &Vec<char>, from: usize, to: usize) -> (r: Token)
    requires
        from <= to <= chars@.len(),
    ensures
        r@ == word_token(chars@.subrange(from as int, to as int)),
{
    let name = string_of_range(chars, from, to);
    let lowered = ascii_lower_chars(chars_of(name.as_str()).as_slice());
    let and_word = chars_of("and");
    let or_word = chars_of("or");
    let not_word = chars_of("not");
    if chars_eq(lowered.as_slice(), and_word.as_slice()) {
        Token::And
    } else if chars_eq(lowered.as_slice(), or_word.as_slice()) {
        Token::Or
    } else if chars_eq(lowered.as_slice(), not_word.as_slice()) {
        Token::Not
    } else {
        Token::Name(name)
    }
}

fn push_token(out: &mut Vec<Spanned>, token: Token, pos: usize)
    ensures
        spanned_view(final(out)@) == spanned_view(old(out)@).push(
            SpannedV { token: token@, pos: pos as int },
        ),
{
    let ghost before = spanned_view(out@);
    out.push(Spanned { token, pos });
    assert(spanned_view(out@) =~= before.push(SpannedV { token: token@, pos: pos as int }));
}

proof fn lemma_step(before: Seq<SpannedV>, t: SpannedV, rest: Result<Seq<SpannedV>, (Seq<char>, int)>)
    ensures
        prefixed(before, prepend_token(t, rest)) == prefixed(before.push(t), rest),
{
    match rest {
        Ok(ts) => {
            assert(before + (seq![t] + ts) =~= before.push(t) + ts);
        },
        Err(_) => {},
    }
}

/// Split a filter expression into tokens, or report the first character that
/// does not belong.
pub fn lex(input: &str) -> (r: Result<Vec<Spanned>, ParseError>)
    ensures
        match (r, lex_spec(input@)) {
            (Ok(ts), Ok(m)) => spanned_view(ts@) == m,
            (Err(e), Err(m)) => e.message@ == m.0 && e.pos == m.1,
            _ => false,
        },
{
    let chars = chars_of(input);
    let n = chars.len();
    let ghost s = input@;
    let mut out: Vec<Spanned> = Vec::new();
    let mut i: usize = 0;
    assert(spanned_view(out@) =~= Seq::<SpannedV>::empty());
    while i < n
        invariant
            n == chars@.len(),
            chars@ == s,
            s == input@,
            0 <= i <= n,
            lex_spec(s) == prefixed(spanned_view(out@), lex_from(s, i as int)),
        decreases n - i,
    {
        let c = chars[i];
        let start = i;
        if is_whitespace(c) {
            i += 1;
            continue;
        }
        match punct_at(c) {
            Some(token) => {
                let ghost before = spanned_view(out@);
                let ghost t = SpannedV { token: token@, pos: start as int };
                push_token(&mut out, token, start);
                i += 1;
                proof {
                    lemma_step(before, t, lex_from(s, i as int));
                }
                continue;
            },
            None => {},
        }
        if c == '&' || c == '|' {
            if i + 1 < n && chars[i + 1] == c {
                let token = if c == '&' {
                    Token::And
                } else {
                    Token::Or
                };
                let ghost before = spanned_view(out@);
                let ghost t = SpannedV { token: token@, pos: start as int };
                push_token(&mut out, token, start);
                i += 2;
                proof {
                    lemma_step(before, t, lex_from(s, i as int));
                }
                continue;
            }
            let mut message = from_str("`");
            push_char(&mut message, c);
            push_str(&mut message, "` is a set operator; a filter expression uses `");
            if c == '&' {
                push_str(&mut message, "and");
            } else {
                push_str(&mut message, "or");
            }
            push_str(&mut message, "` (or `");
            push_char(&mut message, c);
            push_char(&mut message, c);
            push_str(&mut message, "`)");
            proof {
                assert(seq![c].push(c) =~= seq![c, c]);
                assert(message@ =~= set_operator_message(c));
            }
            return Err(ParseError::new(message, start));
        }
        if c == '"' || c == '\'' {
            let quote = c;
            let mut j: usize = i + 1;
            proof {
                lemma_quote_close(s, i + 1, quote);
            }
            while j < n && chars[j] != quote
                invariant
                    n == chars@.len(),
                    chars@ == s,
                    start + 1 <= j <= n,
                    quote_close(s, start + 1, quote) == quote_close(s, j as int, quote),
                decreases n - j,
            {
                j += 1;
            }
            if j == n {
                let mut message = from_str("unterminated quoted name, expected a closing ");
                push_char(&mut message, quote);
                return Err(ParseError::new(message, start));
            }
            if j == start + 1 {
                return Err(ParseError::new(from_str("empty quoted name"), start));
            }
            let name = string_of_range(&chars, start + 1, j);
            let ghost before = spanned_view(out@);
            let ghost t = SpannedV {
                token: TokenV::Name(s.subrange(start + 1, j as int)),
                pos: start as int,
            };
            push_token(&mut out, Token::Name(name), start);
            i = j + 1;
            proof {
                lemma_step(before, t, lex_from(s, i as int));
            }
            continue;
        }
        if is_name_char(c) {
            proof {
                lemma_name_end(s, i as int);
            }
            let mut j: usize = i;
            while j < n && is_name_char(chars[j])
                invariant
                    n == chars@.len(),
                    chars@ == s,
                    start <= j <= n,
                    name_end(s, start as int) == name_end(s, j as int),
                decreases n - j,
            {
                j += 1;
            }
            let token = word_at(&chars, start, j);
            let ghost before = spanned_view(out@);
            let ghost t = SpannedV { token: token@, pos: start as int };
            push_token(&mut out, token, start);
            i = j;
            proof {
                lemma_step(before, t, lex_from(s, i as int));
            }
            continue;
        }
        let mut message = from_str("unexpected character `");
        push_char(&mut message, c);
        push_str(&mut message, "`");
        return Err(ParseError::new(message, start));
    }
    proof {
        assert(spanned_view(out@) + Seq::<SpannedV>::empty() =~= spanned_view(out@));
    }
    Ok(out)
}

} // verus!
