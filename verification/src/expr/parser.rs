//! Precedence-climbing parser for list expressions.
//!
//! Precedence follows Python's set operators, so anyone who has written
//! `a | b - c` in Python gets the same grouping here: `-` and `+` bind tightest,
//! then `&`, then `^`, then `|`. Bracket anything non-obvious.

use vstd::prelude::*;

use super::ast::{canonical, set_op_symbol, Expr, ExprV, SetOp};
use super::lexer::{
    describe_token, is_name_char_spec, lex, lex_from, lex_spec, name_end, operator_token,
    prepend_token, spanned_view, Spanned, SpannedV, Token, TokenV,
};
use super::wildcard::is_pattern;
use super::ParseError;
use crate::text::{chars_of, from_str, has_char, is_white_space, push_str};

verus! {

/// The operator a token stands for, with its binding power.
pub open spec fn binding_power_spec(t: TokenV) -> Option<(SetOp, u8)> {
    match t {
        TokenV::Minus => Some((SetOp::Difference, 4)),
        TokenV::Plus => Some((SetOp::Union, 4)),
        TokenV::Amp => Some((SetOp::Intersection, 3)),
        TokenV::Caret => Some((SetOp::SymmetricDifference, 2)),
        TokenV::Pipe => Some((SetOp::Union, 1)),
        _ => None,
    }
}

fn binding_power(token: &Token) -> (r: Option<(SetOp, u8)>)
    ensures
        r == binding_power_spec(token@),
{
    match token {
        Token::Minus => Some((SetOp::Difference, 4)),
        Token::Plus => Some((SetOp::Union, 4)),
        Token::Amp => Some((SetOp::Intersection, 3)),
        Token::Caret => Some((SetOp::SymmetricDifference, 2)),
        Token::Pipe => Some((SetOp::Union, 1)),
        _ => None,
    }
}

pub open spec fn op_level(t: TokenV) -> nat {
    match binding_power_spec(t) {
        Some((_, b)) => b as nat,
        None => 0,
    }
}

pub open spec fn op_of(t: TokenV) -> SetOp {
    match binding_power_spec(t) {
        Some((op, _)) => op,
        None => SetOp::Union,
    }
}

/// A name token is a name, or a pattern when it holds a `*`.
pub open spec fn leaf(n: Seq<char>) -> ExprV {
    if has_char(n, '*') {
        ExprV::Wildcard(n)
    } else {
        ExprV::Name(n)
    }
}

/// The grammar of list expressions. `derives(t, e, p)` holds when the token
/// sequence `t` spells the expression `e` at precedence level `p`: level 5 is
/// a name or a bracketed expression, and level `p` below it is a
/// left-associative chain of level `p + 1` operands joined by operators of
/// binding power `p`. Level 0 is the same as level 1.
pub open spec fn derives(t: Seq<TokenV>, e: ExprV, p: nat) -> bool
    decreases t.len(), 5 - p,
{
    if p >= 5 {
        ||| (t.len() == 1 && t[0] is Name && e == leaf(t[0]->Name_0))
        ||| (t.len() >= 2 && t[0] is LParen && t[t.len() - 1] is RParen && derives(
            t.subrange(1, t.len() - 1),
            e,
            1,
        ))
    } else if p == 0 {
        derives(t, e, 1)
    } else {
        ||| derives(t, e, p + 1)
        ||| exists|i: int|
            #![trigger t[i]]
            0 < i < t.len() - 1 && binding_power_spec(t[i]) is Some && op_level(t[i]) == p
                && e is Op && e->Op_0 == op_of(t[i]) && derives(
                t.subrange(0, i),
                *e->Op_1,
                p,
            ) && derives(t.subrange(i + 1, t.len() as int), *e->Op_2, p + 1)
    }
}

pub proof fn lemma_derives_lift(t: Seq<TokenV>, e: ExprV, p: nat, q: nat)
    requires
        p <= q <= 5,
        derives(t, e, q),
    ensures
        derives(t, e, p),
    decreases q - p,
{
    if p < q {
        lemma_derives_lift(t, e, p + 1, q);
    }
}

/// Where the atom starting at `s` ends: a name, or a bracketed chain
/// followed by its `)`; `None` where no atom starts there.
pub open spec fn atom_end(t: Seq<TokenV>, s: int) -> Option<int>
    decreases t.len() - s, 0int,
{
    if 0 <= s < t.len() {
        if t[s] is Name {
            Some(s + 1)
        } else if t[s] is LParen {
            match chain_end(t, s + 1, 0) {
                Some(m) => if s + 1 <= m < t.len() && t[m] is RParen {
                    Some(m + 1)
                } else {
                    None
                },
                None => None,
            }
        } else {
            None
        }
    } else {
        None
    }
}

/// Where the chain `atom (op atom)*` starting at `s` ends, taking only
/// operators that bind at least `min`; `None` where an atom is missing.
pub open spec fn chain_end(t: Seq<TokenV>, s: int, min: nat) -> Option<int>
    decreases t.len() - s, 1int,
{
    if 0 <= s < t.len() {
        match atom_end(t, s) {
            Some(p) => if s < p < t.len() && binding_power_spec(t[p]) is Some && op_level(t[p]) >= min {
                chain_end(t, p + 1, min)
            } else {
                Some(p)
            },
            None => None,
        }
    } else {
        None
    }
}

/// What follows an atom ending at `p`: an operator binding at least `min`
/// and the rest of the chain, or nothing more.
pub open spec fn after_atom(t: Seq<TokenV>, p: int, min: nat) -> Option<int> {
    if 0 <= p < t.len() && binding_power_spec(t[p]) is Some && op_level(t[p]) >= min {
        chain_end(t, p + 1, min)
    } else {
        Some(p)
    }
}

proof fn lemma_atom_end_after(t: Seq<TokenV>, s: int)
    ensures
        atom_end(t, s) matches Some(p) ==> s < p <= t.len(),
        chain_end(t, s, 0) matches Some(p) ==> s < p <= t.len(),
    decreases t.len() - s,
{
    if 0 <= s < t.len() && t[s] is LParen {
        lemma_atom_end_after(t, s + 1);
    }
    lemma_chain_end_after(t, s, 0);
}

proof fn lemma_chain_end_after(t: Seq<TokenV>, s: int, min: nat)
    ensures
        chain_end(t, s, min) matches Some(p) ==> s < p <= t.len(),
    decreases t.len() - s, 0int,
{
    if 0 <= s < t.len() {
        if t[s] is LParen {
            lemma_chain_end_after(t, s + 1, 0);
        }
        if let Some(p) = atom_end(t, s) {
            if s < p < t.len() && binding_power_spec(t[p]) is Some && op_level(t[p]) >= min {
                lemma_chain_end_after(t, p + 1, min);
            }
        }
    }
}

/// A chain that takes operators binding at least `min` is one that takes
/// those binding at least `hi >= min`, continued from where that one ends.
proof fn lemma_chain_split(t: Seq<TokenV>, x: int, min: nat, hi: nat)
    requires
        min <= hi,
    ensures
        chain_end(t, x, min) == match chain_end(t, x, hi) {
            Some(q) => after_atom(t, q, min),
            None => None,
        },
    decreases t.len() - x,
{
    if 0 <= x < t.len() {
        if let Some(p) = atom_end(t, x) {
            if x < p && p < t.len() && binding_power_spec(t[p]) is Some && op_level(t[p]) >= hi {
                lemma_chain_split(t, p + 1, min, hi);
            }
        }
    }
}

/// What parsing yields: an expression and the index just past it, or an
/// error's message and position.
pub type Parsed = Result<(ExprV, int), (Seq<char>, int)>;

/// The atom starting at token `s`: a name, or a bracketed chain followed by
/// its `)`. `end` is the position just past the input, where an error at
/// the end of the tokens points.
pub open spec fn atom_parse(ts: Seq<SpannedV>, end: int, s: int) -> Parsed
    decreases ts.len() - s, 0int,
{
    if s < 0 || s >= ts.len() {
        Err(("unexpected end of expression, expected a list name"@, end))
    } else {
        match ts[s].token {
            TokenV::Name(n) => Ok((leaf(n), s + 1)),
            TokenV::LParen => match chain_parse(ts, end, s + 1, 0) {
                Err(e) => Err(e),
                Ok((e, m)) => if 0 <= m < ts.len() {
                    if ts[m].token is RParen {
                        Ok((e, m + 1))
                    } else {
                        Err(("expected `)` but found "@ + describe_token(ts[m].token), ts[m].pos))
                    }
                } else {
                    Err(("unbalanced brackets, expected `)`"@, end))
                },
            },
            other => Err(("expected a list name but found "@ + describe_token(other), ts[s].pos)),
        }
    }
}

/// The chain `atom (op atom)*` starting at token `s`, taking operators that
/// bind at least `min`, each one's right side binding tighter.
pub open spec fn chain_parse(ts: Seq<SpannedV>, end: int, s: int, min: nat) -> Parsed
    decreases ts.len() - s, 1int,
{
    if s < 0 || s >= ts.len() {
        atom_parse(ts, end, s)
    } else {
        match atom_parse(ts, end, s) {
            Err(e) => Err(e),
            Ok((lhs, p)) => if s < p <= ts.len() {
                rest_parse(ts, end, lhs, p, min)
            } else {
                Ok((lhs, p))
            },
        }
    }
}

/// The rest of a chain after `lhs`, which ends at token `p`.
pub open spec fn rest_parse(ts: Seq<SpannedV>, end: int, lhs: ExprV, p: int, min: nat) -> Parsed
    decreases ts.len() - p, 2int,
{
    if 0 <= p < ts.len() && binding_power_spec(ts[p].token) is Some && op_level(ts[p].token) >= min {
        match chain_parse(ts, end, p + 1, op_level(ts[p].token) + 1) {
            Err(e) => Err(e),
            Ok((rhs, q)) => if p < q <= ts.len() {
                rest_parse(ts, end, ExprV::Op(op_of(ts[p].token), Box::new(lhs), Box::new(rhs)), q, min)
            } else {
                Ok((lhs, p))
            },
        }
    } else {
        Ok((lhs, p))
    }
}

/// What parsing `input` yields: the expression, or the error's message and
/// position.
pub open spec fn parse_spec(input: Seq<char>) -> Result<ExprV, (Seq<char>, int)> {
    match lex_spec(input) {
        Err(m) => Err(m),
        Ok(ts) => if ts.len() == 0 {
            Err(("expression is empty"@, 0))
        } else {
            match chain_parse(ts, input.len() as int, 0, 0) {
                Err(e) => Err(e),
                Ok((e, q)) => if q < ts.len() {
                    if ts[q].token is RParen {
                        Err(("unbalanced brackets, unexpected `)`"@, ts[q].pos))
                    } else {
                        Err(("unexpected trailing "@ + describe_token(ts[q].token), ts[q].pos))
                    }
                } else {
                    Ok(e)
                },
            }
        },
    }
}

pub open spec fn tokens_of(s: Seq<SpannedV>) -> Seq<TokenV> {
    s.map_values(|x: SpannedV| x.token)
}

struct Parser {
    tokens: Vec<Spanned>,
    pos: usize,
    /// Offset just past the last token, for "unexpected end of expression".
    end: usize,
}

impl Parser {
    spec fn spans(&self) -> Seq<SpannedV> {
        spanned_view(self.tokens@)
    }

    spec fn toks(&self) -> Seq<TokenV> {
        tokens_of(spanned_view(self.tokens@))
    }

    fn peek(&self) -> (r: Option<&Spanned>)
        ensures
            match r {
                Some(s) => self.pos < self.tokens@.len() && *s == self.tokens@[self.pos as int],
                None => self.pos >= self.tokens@.len(),
            },
    {
        if self.pos < self.tokens.len() {
            Some(&self.tokens[self.pos])
        } else {
            None
        }
    }

    fn next(&mut self) -> (r: Option<Spanned>)
        ensures
            final(self).tokens@ == old(self).tokens@,
            final(self).end == old(self).end,
            match r {
                Some(s) => old(self).pos < old(self).tokens@.len() && s@ == old(self).tokens@[old(
                    self,
                ).pos as int]@ && final(self).pos == old(self).pos + 1,
                None => old(self).pos >= old(self).tokens@.len() && final(self).pos == old(
                    self,
                ).pos,
            },
    {
        if self.pos < self.tokens.len() {
            let s = &self.tokens[self.pos];
            let item = Spanned { token: s.token.duplicate(), pos: s.pos };
            self.pos += 1;
            Some(item)
        } else {
            None
        }
    }

    fn position(&self) -> (r: usize)
        ensures
            self.pos < self.tokens@.len() ==> r == self.tokens@[self.pos as int].pos,
            self.pos >= self.tokens@.len() ==> r == self.end,
    {
        match self.peek() {
            Some(s) => s.pos,
            None => self.end,
        }
    }

    fn parse_expr(&mut self, min_bp: u8) -> (r: Result<Expr, ParseError>)
        requires
            min_bp <= 5,
            old(self).pos <= old(self).tokens@.len(),
        ensures
            final(self).tokens@ == old(self).tokens@,
            final(self).end == old(self).end,
            final(self).pos <= final(self).tokens@.len(),
            r matches Ok(e) ==> {
                &&& old(self).pos < final(self).pos
                &&& derives(
                    final(self).toks().subrange(old(self).pos as int, final(self).pos as int),
                    e@,
                    min_bp as nat,
                )
                &&& final(self).pos < final(self).tokens@.len() ==> (binding_power_spec(
                    final(self).toks()[final(self).pos as int],
                ) matches Some(b) ==> b.1 < min_bp)
            },
            r is Ok <==> chain_end(old(self).toks(), old(self).pos as int, min_bp as nat) is Some,
            r is Ok ==> chain_end(old(self).toks(), old(self).pos as int, min_bp as nat) == Some(
                final(self).pos as int,
            ),
            match r {
                Ok(e) => chain_parse(old(self).spans(), old(self).end as int, old(self).pos as int, min_bp as nat)
                    == Ok::<(ExprV, int), (Seq<char>, int)>((e@, final(self).pos as int)),
                Err(x) => chain_parse(old(self).spans(), old(self).end as int, old(self).pos as int, min_bp as nat)
                    == Err::<(ExprV, int), (Seq<char>, int)>((x.message@, x.pos as int)),
            },
        decreases old(self).tokens@.len() - old(self).pos, 1int,
    {
        let ghost start = self.pos as int;
        let ghost t = self.toks();
        let ghost sp = self.spans();
        let ghost end = self.end as int;
        let mut lhs = match self.parse_atom() {
            Ok(e) => e,
            Err(e) => return Err(e),
        };
        proof {
            lemma_atom_end_after(t, start);
        }
        let ghost mut cur: nat = 5;
        loop
            invariant
                self.tokens@ == old(self).tokens@,
                self.end == old(self).end,
                min_bp <= 5,
                start == old(self).pos,
                start < self.pos <= self.tokens@.len(),
                min_bp <= cur <= 5,
                derives(self.toks().subrange(start, self.pos as int), lhs@, cur),
                self.pos < self.tokens@.len() ==> (binding_power_spec(self.toks()[self.pos as int])
                    matches Some(b) ==> b.1 <= cur),
                t == self.toks(),
                chain_end(t, start, min_bp as nat) == after_atom(t, self.pos as int, min_bp as nat),
                sp == self.spans(),
                end == self.end as int,
                chain_parse(sp, end, start, min_bp as nat) == rest_parse(sp, end, lhs@, self.pos as int, min_bp as nat),
            ensures
                t == self.toks(),
                chain_end(t, start, min_bp as nat) == Some(self.pos as int),
                sp == self.spans(),
                chain_parse(sp, end, start, min_bp as nat) == Ok::<(ExprV, int), (Seq<char>, int)>((lhs@, self.pos as int)),
                self.tokens@ == old(self).tokens@,
                self.end == old(self).end,
                start < self.pos <= self.tokens@.len(),
                min_bp <= cur <= 5,
                derives(self.toks().subrange(start, self.pos as int), lhs@, cur),
                self.pos < self.tokens@.len() ==> (binding_power_spec(self.toks()[self.pos as int])
                    matches Some(b) ==> b.1 < min_bp),
            decreases self.tokens@.len() - self.pos,
        {
            let (op, bp) = match self.peek() {
                None => break,
                Some(spanned) => {
                    proof {
                        assert(self.toks()[self.pos as int] == spanned.token@);
                        assert(self.spans()[self.pos as int].token == spanned.token@);
                    }
                    match binding_power(&spanned.token) {
                        None => break,
                        Some(found) => found,
                    }
                },
            };
            if bp < min_bp {
                break;
            }
            let ghost op_at = self.pos as int;
            self.next();
            // Left associative: the right side may only bind operators that
            // are strictly tighter than this one.
            proof {
                lemma_chain_split(t, op_at + 1, min_bp as nat, (bp + 1) as nat);
            }
            let rhs = match self.parse_expr(bp + 1) {
                Ok(e) => e,
                Err(e) => return Err(e),
            };
            proof {
                let t = self.toks().subrange(start, self.pos as int);
                let i = op_at - start;
                assert(t.subrange(0, i) =~= self.toks().subrange(start, op_at));
                assert(t.subrange(i + 1, t.len() as int) =~= self.toks().subrange(
                    op_at + 1,
                    self.pos as int,
                ));
                assert(t[i] == self.toks()[op_at]);
                lemma_derives_lift(self.toks().subrange(start, op_at), lhs@, bp as nat, cur);
                let e = ExprV::Op(op, Box::new(lhs@), Box::new(rhs@));
                assert(derives(t, e, bp as nat));
                cur = bp as nat;
            }
            lhs = Expr::binary(op, lhs, rhs);
        }
        proof {
            lemma_derives_lift(
                self.toks().subrange(start, self.pos as int),
                lhs@,
                min_bp as nat,
                cur,
            );
        }
        Ok(lhs)
    }

    fn parse_atom(&mut self) -> (r: Result<Expr, ParseError>)
        requires
            old(self).pos <= old(self).tokens@.len(),
        ensures
            final(self).tokens@ == old(self).tokens@,
            final(self).end == old(self).end,
            final(self).pos <= final(self).tokens@.len(),
            r matches Ok(e) ==> {
                &&& old(self).pos < final(self).pos
                &&& derives(
                    final(self).toks().subrange(old(self).pos as int, final(self).pos as int),
                    e@,
                    5,
                )
            },
            r is Ok <==> atom_end(old(self).toks(), old(self).pos as int) is Some,
            r is Ok ==> atom_end(old(self).toks(), old(self).pos as int) == Some(final(self).pos as int),
            match r {
                Ok(e) => atom_parse(old(self).spans(), old(self).end as int, old(self).pos as int)
                    == Ok::<(ExprV, int), (Seq<char>, int)>((e@, final(self).pos as int)),
                Err(x) => atom_parse(old(self).spans(), old(self).end as int, old(self).pos as int)
                    == Err::<(ExprV, int), (Seq<char>, int)>((x.message@, x.pos as int)),
            },
        decreases old(self).tokens@.len() - old(self).pos, 0int,
    {
        let ghost start = self.pos as int;
        proof {
            lemma_chain_end_after(self.toks(), start + 1, 0);
        }
        let position = self.position();
        let spanned = match self.next() {
            Some(s) => s,
            None => {
                return Err(
                    ParseError::new(
                        from_str("unexpected end of expression, expected a list name"),
                        position,
                    ),
                );
            },
        };
        assert(self.toks()[start] == spanned.token@);
        match spanned.token {
            Token::Name(name) => {
                let e = if is_pattern(name.as_str()) {
                    Expr::Wildcard(name)
                } else {
                    Expr::Name(name)
                };
                proof {
                    let t = self.toks().subrange(start, self.pos as int);
                    assert(t.len() == 1 && t[0] == self.toks()[start]);
                }
                Ok(e)
            },
            Token::LParen => {
                let inner = match self.parse_expr(0) {
                    Ok(e) => e,
                    Err(e) => return Err(e),
                };
                let ghost inner_end = self.pos as int;
                match self.next() {
                    Some(close) => {
                        match close.token {
                            Token::RParen => {
                                proof {
                                    assert(self.toks()[inner_end] == close.token@);
                                    let t = self.toks().subrange(start, self.pos as int);
                                    assert(t.subrange(1, t.len() - 1) =~= self.toks().subrange(
                                        start + 1,
                                        inner_end,
                                    ));
                                    assert(t[0] == self.toks()[start]);
                                    assert(t[t.len() - 1] == self.toks()[inner_end]);
                                    lemma_derives_lift(
                                        self.toks().subrange(start + 1, inner_end),
                                        inner@,
                                        1,
                                        1,
                                    );
                                }
                                Ok(inner)
                            },
                            other => {
                                let mut message = from_str("expected `)` but found ");
                                let described = other.describe();
                                push_str(&mut message, described.as_str());
                                Err(ParseError::new(message, close.pos))
                            },
                        }
                    },
                    None => Err(
                        ParseError::new(from_str("unbalanced brackets, expected `)`"), self.end),
                    ),
                }
            },
            other => {
                let mut message = from_str("expected a list name but found ");
                let described = other.describe();
                push_str(&mut message, described.as_str());
                Err(ParseError::new(message, spanned.pos))
            },
        }
    }
}

/// Parse a list expression. A result is always a derivation of the tokens
/// under the grammar of [`derives`]; lexical errors are reported as the lexer
/// found them.
pub fn parse(input: &str) -> (r: Result<Expr, ParseError>)
    ensures
        match lex_spec(input@) {
            Err(m) => (r matches Err(e) && e.message@ == m.0 && e.pos == m.1),
            Ok(ts) => {
                &&& ts.len() == 0 ==> (r matches Err(e) && e.message@ == "expression is empty"@
                    && e.pos == 0)
                &&& r matches Ok(e) ==> derives(tokens_of(ts), e@, 1)
                &&& ts.len() > 0 ==> (r is Ok <==> chain_end(tokens_of(ts), 0, 0) == Some(ts.len() as int))
            },
        },
        match parse_spec(input@) {
            Ok(e) => r matches Ok(x) && x@ == e,
            Err(m) => r matches Err(x) && x.message@ == m.0 && x.pos == m.1,
        },
{
    let tokens = match lex(input) {
        Ok(t) => t,
        Err(e) => return Err(e),
    };
    if tokens.len() == 0 {
        return Err(ParseError::new(from_str("expression is empty"), 0));
    }
    let end = chars_of(input).len();
    let mut parser = Parser { end, tokens, pos: 0 };
    proof {
        lemma_chain_end_after(parser.toks(), 0, 0);
    }
    let expr = match parser.parse_expr(0) {
        Ok(e) => e,
        Err(e) => return Err(e),
    };
    match parser.peek() {
        Some(spanned) => {
            let message = match spanned.token {
                Token::RParen => from_str("unbalanced brackets, unexpected `)`"),
                _ => {
                    let mut m = from_str("unexpected trailing ");
                    let described = spanned.token.describe();
                    push_str(&mut m, described.as_str());
                    m
                },
            };
            return Err(ParseError::new(message, spanned.pos));
        },
        None => {},
    }
    proof {
        assert(parser.toks().subrange(0, parser.pos as int) =~= parser.toks());
        lemma_derives_lift(parser.toks(), expr@, 1, 1);
    }
    Ok(expr)
}

// ---------------------------------------------------------------------------
// Reading back the canonical form
// ---------------------------------------------------------------------------

/// A leaf the lexer reads back as one name: a non-empty run of name
/// characters, none of them white space.
pub open spec fn leaf_text_ok(n: Seq<char>) -> bool {
    &&& n.len() > 0
    &&& forall|k: int| 0 <= k < n.len() ==> is_name_char_spec(#[trigger] n[k]) && !is_white_space(n[k])
}

/// Every leaf reads back as one name, and holds a `*` exactly when it is a
/// pattern - as every parsed expression's leaves do.
pub open spec fn leaves_ok(e: ExprV) -> bool
    decreases e,
{
    match e {
        ExprV::Name(n) => leaf_text_ok(n) && !has_char(n, '*'),
        ExprV::Wildcard(p) => leaf_text_ok(p) && has_char(p, '*'),
        ExprV::Op(_, l, r) => leaves_ok(*l) && leaves_ok(*r),
    }
}

pub open spec fn op_token_of(op: SetOp) -> TokenV {
    match op {
        SetOp::Union => TokenV::Pipe,
        SetOp::Difference => TokenV::Minus,
        SetOp::Intersection => TokenV::Amp,
        SetOp::SymmetricDifference => TokenV::Caret,
    }
}

/// The tokens of the canonical form, with the positions they stand at when
/// it starts at `i`.
pub open spec fn canonical_spans(e: ExprV, i: int) -> Seq<SpannedV>
    decreases e,
{
    match e {
        ExprV::Name(n) => seq![SpannedV { token: TokenV::Name(n), pos: i }],
        ExprV::Wildcard(p) => seq![SpannedV { token: TokenV::Name(p), pos: i }],
        ExprV::Op(op, l, r) => {
            let a = i + 1 + canonical(*l).len();
            seq![SpannedV { token: TokenV::LParen, pos: i }] + canonical_spans(*l, i + 1) + seq![
                SpannedV { token: op_token_of(op), pos: a + 1 },
            ] + canonical_spans(*r, a + 3) + seq![
                SpannedV { token: TokenV::RParen, pos: a + 3 + canonical(*r).len() },
            ]
        },
    }
}

pub open spec fn prepend_all(
    ts: Seq<SpannedV>,
    rest: Result<Seq<SpannedV>, (Seq<char>, int)>,
) -> Result<Seq<SpannedV>, (Seq<char>, int)> {
    match rest {
        Ok(r) => Ok(ts + r),
        Err(x) => Err(x),
    }
}

/// A run of name characters from `i` up to a character that is none ends
/// where the run does.
proof fn lemma_name_run(s: Seq<char>, i: int, j: int)
    requires
        0 <= i <= j <= s.len(),
        forall|k: int| i <= k < j ==> is_name_char_spec(#[trigger] s[k]),
        j < s.len() ==> !is_name_char_spec(s[j]),
    ensures
        name_end(s, i) == j,
    decreases j - i,
{
    if i < j {
        lemma_name_run(s, i + 1, j);
    }
}

proof fn lemma_prepend_one(t: SpannedV, rest: Result<Seq<SpannedV>, (Seq<char>, int)>)
    ensures
        prepend_token(t, rest) == prepend_all(seq![t], rest),
{
}

proof fn lemma_prepend_join(a: Seq<SpannedV>, b: Seq<SpannedV>, rest: Result<Seq<SpannedV>, (Seq<char>, int)>)
    ensures
        prepend_all(a, prepend_all(b, rest)) == prepend_all(a + b, rest),
{
    if let Ok(r) = rest {
        assert(a + (b + r) =~= (a + b) + r);
    }
}

/// Lexing the canonical form of `e`, followed by anything that does not
/// continue a name, yields its tokens and then whatever follows.
proof fn lemma_lex_canonical(s: Seq<char>, i: int, e: ExprV)
    requires
        leaves_ok(e),
        0 <= i,
        i + canonical(e).len() <= s.len(),
        s.subrange(i, i + canonical(e).len()) == canonical(e),
        i + canonical(e).len() < s.len() ==> !is_name_char_spec(s[i + canonical(e).len()]),
    ensures
        lex_from(s, i) == prepend_all(canonical_spans(e, i), lex_from(s, i + canonical(e).len())),
    decreases e,
{
    reveal_strlit("(");
    reveal_strlit(")");
    reveal_strlit(" ");
    reveal_strlit("|");
    reveal_strlit("-");
    reveal_strlit("&");
    reveal_strlit("^");
    match e {
        ExprV::Name(n) => {
            lemma_leaf_lexes(s, i, n);
        },
        ExprV::Wildcard(n) => {
            lemma_leaf_lexes(s, i, n);
        },
        ExprV::Op(op, l, r) => {
            let cl = canonical(*l);
            let cr = canonical(*r);
            let sym = set_op_symbol(op);
            let c = canonical(e);
            let len = c.len();
            let a = i + 1 + cl.len();
            assert(sym.len() == 1);
            assert(c == "("@ + cl + " "@ + sym + " "@ + cr + ")"@);
            assert(len == cl.len() + cr.len() + 5);
            assert(s[i] == c[0]);
            assert(s[i] == '(');
            assert(s.subrange(i + 1, a) =~= cl) by {
                assert forall|k: int| 0 <= k < cl.len() implies s.subrange(i + 1, a)[k] == cl[k] by {
                    assert(s[i + 1 + k] == c[1 + k]);
                }
            }
            assert(s[a] == c[a - i]);
            assert(s[a] == ' ');
            assert(s[a + 1] == c[a - i + 1]);
            assert(s[a + 1] == sym[0]);
            assert(s[a + 2] == c[a - i + 2]);
            assert(s[a + 2] == ' ');
            assert(s.subrange(a + 3, a + 3 + cr.len()) =~= cr) by {
                assert forall|k: int| 0 <= k < cr.len() implies s.subrange(a + 3, a + 3 + cr.len())[k] == cr[k] by {
                    assert(s[a + 3 + k] == c[4 + cl.len() + k]);
                }
            }
            assert(s[a + 3 + cr.len()] == c[len - 1]);
            assert(s[a + 3 + cr.len()] == ')');
            lemma_lex_canonical(s, i + 1, *l);
            lemma_lex_canonical(s, a + 3, *r);
            let tok = op_token_of(op);
            assert(operator_token(sym[0]) == Some(tok));
            let after = lex_from(s, i + len);
            let t_close = SpannedV { token: TokenV::RParen, pos: a + 3 + cr.len() };
            assert(lex_from(s, a + 3 + cr.len()) == prepend_token(t_close, after));
            lemma_prepend_one(t_close, after);
            let from_r = lex_from(s, a + 3);
            assert(from_r == prepend_all(canonical_spans(*r, a + 3), prepend_all(seq![t_close], after)));
            assert(lex_from(s, a + 2) == from_r);
            let t_op = SpannedV { token: tok, pos: a + 1 };
            assert(lex_from(s, a + 1) == prepend_token(t_op, lex_from(s, a + 2)));
            lemma_prepend_one(t_op, from_r);
            assert(lex_from(s, a) == lex_from(s, a + 1));
            let t_open = SpannedV { token: TokenV::LParen, pos: i };
            assert(lex_from(s, i) == prepend_token(t_open, lex_from(s, i + 1)));
            lemma_prepend_one(t_open, lex_from(s, i + 1));
            lemma_prepend_join(canonical_spans(*r, a + 3), seq![t_close], after);
            lemma_prepend_join(seq![t_op], canonical_spans(*r, a + 3) + seq![t_close], after);
            lemma_prepend_join(canonical_spans(*l, i + 1), seq![t_op] + (canonical_spans(*r, a + 3) + seq![t_close]), after);
            lemma_prepend_join(
                seq![t_open],
                canonical_spans(*l, i + 1) + (seq![t_op] + (canonical_spans(*r, a + 3) + seq![t_close])),
                after,
            );
            assert(seq![t_open] + (canonical_spans(*l, i + 1) + (seq![t_op] + (canonical_spans(*r, a + 3) + seq![t_close])))
                =~= canonical_spans(e, i));
        },
    }
}

/// A leaf's text lexes as one name token.
proof fn lemma_leaf_lexes(s: Seq<char>, i: int, n: Seq<char>)
    requires
        leaf_text_ok(n),
        0 <= i,
        i + n.len() <= s.len(),
        s.subrange(i, i + n.len()) == n,
        i + n.len() < s.len() ==> !is_name_char_spec(s[i + n.len()]),
    ensures
        lex_from(s, i) == prepend_all(
            seq![SpannedV { token: TokenV::Name(n), pos: i }],
            lex_from(s, i + n.len()),
        ),
{
    assert(s[i] == n[0]);
    let c = s[i];
    assert(is_name_char_spec(c) && !is_white_space(c));
    assert(operator_token(c) is None);
    assert(c != '"' && c != '\'');
    assert forall|k: int| i <= k < i + n.len() implies is_name_char_spec(#[trigger] s[k]) by {
        assert(s[k] == n[k - i]);
    }
    lemma_name_run(s, i, i + n.len());
    lemma_prepend_one(SpannedV { token: TokenV::Name(n), pos: i }, lex_from(s, i + n.len()));
}

pub open spec fn canonical_tokens(e: ExprV) -> Seq<TokenV>
    decreases e,
{
    match e {
        ExprV::Name(n) => seq![TokenV::Name(n)],
        ExprV::Wildcard(p) => seq![TokenV::Name(p)],
        ExprV::Op(op, l, r) => seq![TokenV::LParen] + canonical_tokens(*l) + seq![op_token_of(op)]
            + canonical_tokens(*r) + seq![TokenV::RParen],
    }
}

proof fn lemma_spans_tokens(e: ExprV, i: int)
    ensures
        tokens_of(canonical_spans(e, i)) == canonical_tokens(e),
    decreases e,
{
    match e {
        ExprV::Op(op, l, r) => {
            let a = i + 1 + canonical(*l).len();
            lemma_spans_tokens(*l, i + 1);
            lemma_spans_tokens(*r, a + 3);
            assert(tokens_of(canonical_spans(e, i)) =~= canonical_tokens(e));
        },
        _ => {
            assert(tokens_of(canonical_spans(e, i)) =~= canonical_tokens(e));
        },
    }
}

/// The atom at `s` whose tokens are those of `e`'s canonical form parses
/// back to `e`.
proof fn lemma_atom_canonical(ts: Seq<SpannedV>, end: int, s: int, e: ExprV)
    requires
        leaves_ok(e),
        0 <= s,
        s + canonical_tokens(e).len() <= ts.len(),
        tokens_of(ts).subrange(s, s + canonical_tokens(e).len()) == canonical_tokens(e),
    ensures
        atom_parse(ts, end, s) == Ok::<(ExprV, int), (Seq<char>, int)>((e, s + canonical_tokens(e).len())),
    decreases e,
{
    let ct = canonical_tokens(e);
    assert(ts[s].token == tokens_of(ts)[s]);
    assert(tokens_of(ts)[s] == ct[0]);
    match e {
        ExprV::Name(n) => {
            assert(leaf(n) == e);
        },
        ExprV::Wildcard(n) => {
            assert(leaf(n) == e);
        },
        ExprV::Op(op, l, r) => {
            let tl = canonical_tokens(*l);
            let tr = canonical_tokens(*r);
            let p = s + 1 + tl.len();
            let q = p + 1 + tr.len();
            assert(ct == seq![TokenV::LParen] + tl + seq![op_token_of(op)] + tr + seq![TokenV::RParen]);
            assert(tokens_of(ts).subrange(s + 1, p) =~= tl) by {
                assert forall|k: int| 0 <= k < tl.len() implies tokens_of(ts).subrange(s + 1, p)[k] == tl[k] by {
                    assert(tokens_of(ts)[s + 1 + k] == ct[1 + k]);
                }
            }
            assert(tokens_of(ts).subrange(p + 1, q) =~= tr) by {
                assert forall|k: int| 0 <= k < tr.len() implies tokens_of(ts).subrange(p + 1, q)[k] == tr[k] by {
                    assert(tokens_of(ts)[p + 1 + k] == ct[2 + tl.len() + k]);
                }
            }
            assert(tokens_of(ts)[p] == ct[p - s]);
            assert(ts[p].token == op_token_of(op));
            assert(tokens_of(ts)[q] == ct[ct.len() - 1]);
            assert(ts[q].token == TokenV::RParen);
            lemma_atom_canonical(ts, end, s + 1, *l);
            lemma_atom_canonical(ts, end, p + 1, *r);
            let lvl = op_level(ts[p].token);
            assert(binding_power_spec(ts[p].token) is Some);
            assert(op_of(ts[p].token) == op);
            assert(rest_parse(ts, end, *r, q, lvl + 1) == Ok::<(ExprV, int), (Seq<char>, int)>((*r, q)));
            assert(chain_parse(ts, end, p + 1, lvl + 1) == Ok::<(ExprV, int), (Seq<char>, int)>((*r, q)));
            assert(rest_parse(ts, end, e, q, 0) == Ok::<(ExprV, int), (Seq<char>, int)>((e, q)));
            assert(rest_parse(ts, end, *l, p, 0) == Ok::<(ExprV, int), (Seq<char>, int)>((e, q)));
            assert(chain_parse(ts, end, s + 1, 0) == Ok::<(ExprV, int), (Seq<char>, int)>((e, q)));
        },
    }
}

/// Parsing an expression's canonical form gives the expression back, when
/// each of its leaves reads back as one name.
pub proof fn lemma_parse_canonical(e: ExprV)
    requires
        leaves_ok(e),
    ensures
        parse_spec(canonical(e)) == Ok::<ExprV, (Seq<char>, int)>(e),
{
    let c = canonical(e);
    lemma_canonical_nonempty(e);
    assert(c.subrange(0, c.len() as int) =~= c);
    lemma_lex_canonical(c, 0, e);
    assert(lex_from(c, c.len() as int) == Ok::<Seq<SpannedV>, (Seq<char>, int)>(seq![]));
    let ts = canonical_spans(e, 0);
    assert(ts + seq![] =~= ts);
    assert(lex_spec(c) == Ok::<Seq<SpannedV>, (Seq<char>, int)>(ts));
    lemma_spans_tokens(e, 0);
    assert(tokens_of(ts).subrange(0, canonical_tokens(e).len() as int) =~= canonical_tokens(e));
    lemma_atom_canonical(ts, c.len() as int, 0, e);
    assert(ts.len() == canonical_tokens(e).len());
    assert(ts.len() > 0);
    assert(chain_parse(ts, c.len() as int, 0, 0) == Ok::<(ExprV, int), (Seq<char>, int)>((e, ts.len() as int)));
}

proof fn lemma_canonical_nonempty(e: ExprV)
    requires
        leaves_ok(e),
    ensures
        canonical(e).len() > 0,
        canonical_tokens(e).len() > 0,
{
    reveal_strlit("(");
}

} // verus!
