//! Precedence-climbing parser for filter expressions.
//!
//! `not` binds tightest, then `and`, then `or` - the ordering every boolean
//! language uses, so `a or b and c` is `a or (b and c)`.

use vstd::prelude::*;

use super::ast::{BoolExpr, BoolExprV};
use super::lexer::{describe_token, lex, lex_spec, spanned_view, Spanned, SpannedV, Token, TokenV};
use crate::expr::ParseError;
use crate::text::{chars_of, from_str, push_str};

verus! {

/// The binding power of an infix operator token.
pub open spec fn binding_power_spec(t: TokenV) -> Option<u8> {
    match t {
        TokenV::And => Some(2),
        TokenV::Or => Some(1),
        _ => None,
    }
}

fn binding_power(token: &Token) -> (r: Option<u8>)
    ensures
        r == binding_power_spec(token@),
{
    match token {
        Token::And => Some(2),
        Token::Or => Some(1),
        _ => None,
    }
}

/// Whether `e` is the node that the infix token `t` builds.
pub open spec fn joins(t: TokenV, e: BoolExprV) -> bool {
    ||| (t is And && e is And)
    ||| (t is Or && e is Or)
}

pub open spec fn lhs_of(e: BoolExprV) -> BoolExprV {
    match e {
        BoolExprV::And(l, _) => *l,
        BoolExprV::Or(l, _) => *l,
        _ => e,
    }
}

pub open spec fn rhs_of(e: BoolExprV) -> BoolExprV {
    match e {
        BoolExprV::And(_, r) => *r,
        BoolExprV::Or(_, r) => *r,
        _ => e,
    }
}

/// The grammar of filter expressions. `derives(t, e, p)` holds when the token
/// sequence `t` spells `e` at precedence level `p`. Level 3 is an atom: a
/// name, `not` before an atom, or a bracketed expression. Levels 2 and 1 are
/// left-associative chains of `and` and of `or`; level 0 is level 1.
pub open spec fn derives(t: Seq<TokenV>, e: BoolExprV, p: nat) -> bool
    decreases t.len(), 3 - p,
{
    if p >= 3 {
        ||| (t.len() == 1 && t[0] is Name && e == BoolExprV::Name(t[0]->Name_0))
        ||| (t.len() >= 2 && t[0] is Not && e is Not && derives(
            t.subrange(1, t.len() as int),
            *e->Not_0,
            3,
        ))
        ||| (t.len() >= 2 && t[0] is LParen && t[t.len() - 1] is RParen && derives(
            t.subrange(1, t.len() - 1),
            e,
            1,
        ))
    } else if p == 0 {
        derives(t, e, 1)
    } else {
        ||| derives(t, e, p + 1)
        ||| exists|i: int|
            #![trigger t[i]]
            0 < i < t.len() - 1 && binding_power_spec(t[i]) == Some(p as u8) && joins(t[i], e)
                && derives(t.subrange(0, i), lhs_of(e), p) && derives(
                t.subrange(i + 1, t.len() as int),
                rhs_of(e),
                p + 1,
            )
    }
}

pub proof fn lemma_derives_lift(t: Seq<TokenV>, e: BoolExprV, p: nat, q: nat)
    requires
        p <= q <= 3,
        derives(t, e, q),
    ensures
        derives(t, e, p),
    decreases q - p,
{
    if p < q {
        lemma_derives_lift(t, e, p + 1, q);
    }
}

/// Where the atom starting at `s` ends: a name, `not` before an atom, or a
/// bracketed chain followed by its `)`; `None` where no atom starts there.
pub open spec fn atom_end(t: Seq<TokenV>, s: int) -> Option<int>
    decreases t.len() - s, 0int,
{
    if 0 <= s < t.len() {
        if t[s] is Name {
            Some(s + 1)
        } else if t[s] is Not {
            atom_end(t, s + 1)
        } else if t[s] is LParen {
            match chain_end(t, s + 1, 0) {
                Some(m) => if s + 1 <= m < t.len() && t[m] is RParen {
                    Some(m + 1)
                } else {
                    None
                },
                None => None,
            }
        } else {
            None
        }
    } else {
        None
    }
}

/// Where the chain `atom (op atom)*` starting at `s` ends, taking only
/// operators that bind at least `min`; `None` where an atom is missing.
pub open spec fn chain_end(t: Seq<TokenV>, s: int, min: nat) -> Option<int>
    decreases t.len() - s, 1int,
{
    if 0 <= s < t.len() {
        match atom_end(t, s) {
            Some(p) => if s < p < t.len() && binding_power_spec(t[p]) is Some && binding_power_spec(t[p])->0 >= min {
                chain_end(t, p + 1, min)
            } else {
                Some(p)
            },
            None => None,
        }
    } else {
        None
    }
}

/// What follows an atom ending at `p`: an operator binding at least `min`
/// and the rest of the chain, or nothing more.
pub open spec fn after_atom(t: Seq<TokenV>, p: int, min: nat) -> Option<int> {
    if 0 <= p < t.len() && binding_power_spec(t[p]) is Some && binding_power_spec(t[p])->0 >= min {
        chain_end(t, p + 1, min)
    } else {
        Some(p)
    }
}

proof fn lemma_atom_end_after(t: Seq<TokenV>, s: int)
    ensures
        atom_end(t, s) matches Some(p) ==> s < p <= t.len(),
    decreases t.len() - s, 0int,
{
    if 0 <= s < t.len() {
        if t[s] is Not {
            lemma_atom_end_after(t, s + 1);
        } else if t[s] is LParen {
            lemma_chain_end_after(t, s + 1, 0);
        }
    }
}

proof fn lemma_chain_end_after(t: Seq<TokenV>, s: int, min: nat)
    ensures
        chain_end(t, s, min) matches Some(p) ==> s < p <= t.len(),
    decreases t.len() - s, 1int,
{
    if 0 <= s < t.len() {
        lemma_atom_end_after(t, s);
        if let Some(p) = atom_end(t, s) {
            if s < p < t.len() && binding_power_spec(t[p]) is Some && binding_power_spec(t[p])->0 >= min {
                lemma_chain_end_after(t, p + 1, min);
            }
        }
    }
}

/// A chain that takes operators binding at least `min` is one that takes
/// those binding at least `hi >= min`, continued from where that one ends.
proof fn lemma_chain_split(t: Seq<TokenV>, x: int, min: nat, hi: nat)
    requires
        min <= hi,
    ensures
        chain_end(t, x, min) == match chain_end(t, x, hi) {
            Some(q) => after_atom(t, q, min),
            None => None,
        },
    decreases t.len() - x,
{
    lemma_atom_end_after(t, x);
    if 0 <= x < t.len() {
        if let Some(p) = atom_end(t, x) {
            if x < p < t.len() && binding_power_spec(t[p]) is Some && binding_power_spec(t[p])->0 >= hi {
                lemma_chain_split(t, p + 1, min, hi);
            }
        }
    }
}

/// What parsing yields: an expression and the index just past it, or an
/// error's message and position.
pub type Parsed = Result<(BoolExprV, int), (Seq<char>, int)>;

/// The node an infix token builds from its two sides.
pub open spec fn join_node(t: TokenV, l: BoolExprV, r: BoolExprV) -> BoolExprV {
    if t is And {
        BoolExprV::And(Box::new(l), Box::new(r))
    } else {
        BoolExprV::Or(Box::new(l), Box::new(r))
    }
}

/// The atom starting at token `s`: a name, `not` before an atom, or a
/// bracketed chain followed by its `)`. `end` is the position just past the
/// input, where an error at the end of the tokens points.
pub open spec fn atom_parse(ts: Seq<SpannedV>, end: int, s: int) -> Parsed
    decreases ts.len() - s, 0int,
{
    if s < 0 || s >= ts.len() {
        Err(("unexpected end of expression, expected a filter name"@, end))
    } else {
        match ts[s].token {
            TokenV::Name(n) => Ok((BoolExprV::Name(n), s + 1)),
            TokenV::Not => match atom_parse(ts, end, s + 1) {
                Err(e) => Err(e),
                Ok((e, p)) => Ok((BoolExprV::Not(Box::new(e)), p)),
            },
            TokenV::LParen => match chain_parse(ts, end, s + 1, 0) {
                Err(e) => Err(e),
                Ok((e, m)) => if 0 <= m < ts.len() {
                    if ts[m].token is RParen {
                        Ok((e, m + 1))
                    } else {
                        Err(("expected `)` but found "@ + describe_token(ts[m].token), ts[m].pos))
                    }
                } else {
                    Err(("unbalanced brackets, expected `)`"@, end))
                },
            },
            other => Err(("expected a filter name but found "@ + describe_token(other), ts[s].pos)),
        }
    }
}

/// The chain `atom (op atom)*` starting at token `s`, taking operators that
/// bind at least `min`, each one's right side binding tighter.
pub open spec fn chain_parse(ts: Seq<SpannedV>, end: int, s: int, min: nat) -> Parsed
    decreases ts.len() - s, 1int,
{
    if s < 0 || s >= ts.len() {
        atom_parse(ts, end, s)
    } else {
        match atom_parse(ts, end, s) {
            Err(e) => Err(e),
            Ok((lhs, p)) => if s < p <= ts.len() {
                rest_parse(ts, end, lhs, p, min)
            } else {
                Ok((lhs, p))
            },
        }
    }
}

/// The rest of a chain after `lhs`, which ends at token `p`.
pub open spec fn rest_parse(ts: Seq<SpannedV>, end: int, lhs: BoolExprV, p: int, min: nat) -> Parsed
    decreases ts.len() - p, 2int,
{
    if 0 <= p < ts.len() && binding_power_spec(ts[p].token) is Some && binding_power_spec(ts[p].token)->0 >= min {
        match chain_parse(ts, end, p + 1, (binding_power_spec(ts[p].token)->0 + 1) as nat) {
            Err(e) => Err(e),
            Ok((rhs, q)) => if p < q <= ts.len() {
                rest_parse(ts, end, join_node(ts[p].token, lhs, rhs), q, min)
            } else {
                Ok((lhs, p))
            },
        }
    } else {
        Ok((lhs, p))
    }
}

/// What parsing `input` yields: the expression, or the error's message and
/// position.
pub open spec fn parse_spec(input: Seq<char>) -> Result<BoolExprV, (Seq<char>, int)> {
    match lex_spec(input) {
        Err(m) => Err(m),
        Ok(ts) => if ts.len() == 0 {
            Err(("filter expression is empty"@, 0))
        } else {
            match chain_parse(ts, input.len() as int, 0, 0) {
                Err(e) => Err(e),
                Ok((e, q)) => if q < ts.len() {
                    if ts[q].token is RParen {
                        Err(("unbalanced brackets, unexpected `)`"@, ts[q].pos))
                    } else {
                        Err(("unexpected trailing "@ + describe_token(ts[q].token), ts[q].pos))
                    }
                } else {
                    Ok(e)
                },
            }
        },
    }
}

pub open spec fn tokens_of(s: Seq<SpannedV>) -> Seq<TokenV> {
    s.map_values(|x: SpannedV| x.token)
}

struct Parser {
    tokens: Vec<Spanned>,
    pos: usize,
    /// Offset just past the last token, for "unexpected end of expression".
    end: usize,
}

impl Parser {
    spec fn spans(&self) -> Seq<SpannedV> {
        spanned_view(self.tokens@)
    }

    spec fn toks(&self) -> Seq<TokenV> {
        tokens_of(spanned_view(self.tokens@))
    }

    fn peek(&self) -> (r: Option<&Spanned>)
        ensures
            match r {
                Some(s) => self.pos < self.tokens@.len() && *s == self.tokens@[self.pos as int],
                None => self.pos >= self.tokens@.len(),
            },
    {
        if self.pos < self.tokens.len() {
            Some(&self.tokens[self.pos])
        } else {
            None
        }
    }

    fn next(&mut self) -> (r: Option<Spanned>)
        ensures
            final(self).tokens@ == old(self).tokens@,
            final(self).end == old(self).end,
            match r {
                Some(s) => old(self).pos < old(self).tokens@.len() && s@ == old(self).tokens@[old(
                    self,
                ).pos as int]@ && final(self).pos == old(self).pos + 1,
                None => old(self).pos >= old(self).tokens@.len() && final(self).pos == old(
                    self,
                ).pos,
            },
    {
        if self.pos < self.tokens.len() {
            let s = &self.tokens[self.pos];
            let item = Spanned { token: s.token.duplicate(), pos: s.pos };
            self.pos += 1;
            Some(item)
        } else {
            None
        }
    }

    fn position(&self) -> (r: usize)
        ensures
            self.pos < self.tokens@.len() ==> r == self.tokens@[self.pos as int].pos,
            self.pos >= self.tokens@.len() ==> r == self.end,
    {
        match self.peek() {
            Some(s) => s.pos,
            None => self.end,
        }
    }

    fn parse_expr(&mut self, min_bp: u8) -> (r: Result<BoolExpr, ParseError>)
        requires
            min_bp <= 3,
            old(self).pos <= old(self).tokens@.len(),
        ensures
            final(self).tokens@ == old(self).tokens@,
            final(self).end == old(self).end,
            final(self).pos <= final(self).tokens@.len(),
            r matches Ok(e) ==> {
                &&& old(self).pos < final(self).pos
                &&& derives(
                    final(self).toks().subrange(old(self).pos as int, final(self).pos as int),
                    e@,
                    min_bp as nat,
                )
                &&& final(self).pos < final(self).tokens@.len() ==> (binding_power_spec(
                    final(self).toks()[final(self).pos as int],
                ) matches Some(b) ==> b < min_bp)
            },
            r is Ok <==> chain_end(old(self).toks(), old(self).pos as int, min_bp as nat) is Some,
            r is Ok ==> chain_end(old(self).toks(), old(self).pos as int, min_bp as nat) == Some(
                final(self).pos as int,
            ),
            match r {
                Ok(e) => chain_parse(old(self).spans(), old(self).end as int, old(self).pos as int, min_bp as nat)
                    == Ok::<(BoolExprV, int), (Seq<char>, int)>((e@, final(self).pos as int)),
                Err(x) => chain_parse(old(self).spans(), old(self).end as int, old(self).pos as int, min_bp as nat)
                    == Err::<(BoolExprV, int), (Seq<char>, int)>((x.message@, x.pos as int)),
            },
        decreases old(self).tokens@.len() - old(self).pos, 1int,
    {
        let ghost start = self.pos as int;
        let ghost t = self.toks();
        let ghost sp = self.spans();
        let ghost end = self.end as int;
        let mut lhs = match self.parse_atom() {
            Ok(e) => e,
            Err(e) => return Err(e),
        };
        proof {
            lemma_atom_end_after(t, start);
        }
        let ghost mut cur: nat = 3;
        loop
            invariant
                self.tokens@ == old(self).tokens@,
                self.end == old(self).end,
                min_bp <= 3,
                start == old(self).pos,
                start < self.pos <= self.tokens@.len(),
                min_bp <= cur <= 3,
                derives(self.toks().subrange(start, self.pos as int), lhs@, cur),
                self.pos < self.tokens@.len() ==> (binding_power_spec(self.toks()[self.pos as int])
                    matches Some(b) ==> b <= cur),
                t == self.toks(),
                chain_end(t, start, min_bp as nat) == after_atom(t, self.pos as int, min_bp as nat),
                sp == self.spans(),
                end == self.end as int,
                chain_parse(sp, end, start, min_bp as nat) == rest_parse(sp, end, lhs@, self.pos as int, min_bp as nat),
            ensures
                t == self.toks(),
                chain_end(t, start, min_bp as nat) == Some(self.pos as int),
                sp == self.spans(),
                chain_parse(sp, end, start, min_bp as nat) == Ok::<(BoolExprV, int), (Seq<char>, int)>((lhs@, self.pos as int)),
                self.tokens@ == old(self).tokens@,
                self.end == old(self).end,
                start < self.pos <= self.tokens@.len(),
                min_bp <= cur <= 3,
                derives(self.toks().subrange(start, self.pos as int), lhs@, cur),
                self.pos < self.tokens@.len() ==> (binding_power_spec(self.toks()[self.pos as int])
                    matches Some(b) ==> b < min_bp),
            decreases self.tokens@.len() - self.pos,
        {
            let (is_and, bp) = match self.peek() {
                None => break,
                Some(spanned) => {
                    proof {
                        assert(self.toks()[self.pos as int] == spanned.token@);
                        assert(self.spans()[self.pos as int].token == spanned.token@);
                    }
                    match binding_power(&spanned.token) {
                        None => break,
                        Some(found) => (
                            match spanned.token {
                                Token::And => true,
                                _ => false,
                            },
                            found,
                        ),
                    }
                },
            };
            if bp < min_bp {
                break;
            }
            let ghost op_at = self.pos as int;
            self.next();
            // Left associative: the right side may only bind operators that
            // are strictly tighter than this one.
            proof {
                lemma_chain_split(t, op_at + 1, min_bp as nat, (bp + 1) as nat);
            }
            let rhs = match self.parse_expr(bp + 1) {
                Ok(e) => e,
                Err(e) => return Err(e),
            };
            let ghost old_lhs = lhs@;
            lhs = if is_and {
                BoolExpr::and(lhs, rhs)
            } else {
                BoolExpr::or(lhs, rhs)
            };
            proof {
                let t = self.toks().subrange(start, self.pos as int);
                let i = op_at - start;
                assert(t.subrange(0, i) =~= self.toks().subrange(start, op_at));
                assert(t.subrange(i + 1, t.len() as int) =~= self.toks().subrange(
                    op_at + 1,
                    self.pos as int,
                ));
                assert(t[i] == self.toks()[op_at]);
                lemma_derives_lift(self.toks().subrange(start, op_at), old_lhs, bp as nat, cur);
                assert(derives(t, lhs@, bp as nat));
                cur = bp as nat;
            }
        }
        proof {
            lemma_derives_lift(
                self.toks().subrange(start, self.pos as int),
                lhs@,
                min_bp as nat,
                cur,
            );
        }
        Ok(lhs)
    }

    fn parse_atom(&mut self) -> (r: Result<BoolExpr, ParseError>)
        requires
            old(self).pos <= old(self).tokens@.len(),
        ensures
            final(self).tokens@ == old(self).tokens@,
            final(self).end == old(self).end,
            final(self).pos <= final(self).tokens@.len(),
            r matches Ok(e) ==> {
                &&& old(self).pos < final(self).pos
                &&& derives(
                    final(self).toks().subrange(old(self).pos as int, final(self).pos as int),
                    e@,
                    3,
                )
            },
            r is Ok <==> atom_end(old(self).toks(), old(self).pos as int) is Some,
            r is Ok ==> atom_end(old(self).toks(), old(self).pos as int) == Some(final(self).pos as int),
            match r {
                Ok(e) => atom_parse(old(self).spans(), old(self).end as int, old(self).pos as int)
                    == Ok::<(BoolExprV, int), (Seq<char>, int)>((e@, final(self).pos as int)),
                Err(x) => atom_parse(old(self).spans(), old(self).end as int, old(self).pos as int)
                    == Err::<(BoolExprV, int), (Seq<char>, int)>((x.message@, x.pos as int)),
            },
        decreases old(self).tokens@.len() - old(self).pos, 0int,
    {
        let ghost start = self.pos as int;
        proof {
            lemma_chain_end_after(self.toks(), start + 1, 0);
        }
        let position = self.position();
        let spanned = match self.next() {
            Some(s) => s,
            None => {
                return Err(
                    ParseError::new(
                        from_str("unexpected end of expression, expected a filter name"),
                        position,
                    ),
                );
            },
        };
        assert(self.toks()[start] == spanned.token@);
        match spanned.token {
            Token::Name(name) => {
                proof {
                    let t = self.toks().subrange(start, self.pos as int);
                    assert(t.len() == 1 && t[0] == self.toks()[start]);
                }
                Ok(BoolExpr::Name(name))
            },
            // Prefix, and tighter than any infix operator, so `not a and b`
            // means `(not a) and b`.
            Token::Not => {
                let ghost inner_start = self.pos as int;
                let inner = match self.parse_atom() {
                    Ok(e) => e,
                    Err(e) => return Err(e),
                };
                proof {
                    let t = self.toks().subrange(start, self.pos as int);
                    assert(t.subrange(1, t.len() as int) =~= self.toks().subrange(
                        inner_start,
                        self.pos as int,
                    ));
                    assert(t[0] == self.toks()[start]);
                }
                Ok(BoolExpr::negate(inner))
            },
            Token::LParen => {
                let inner = match self.parse_expr(0) {
                    Ok(e) => e,
                    Err(e) => return Err(e),
                };
                let ghost inner_end = self.pos as int;
                match self.next() {
                    Some(close) => {
                        match close.token {
                            Token::RParen => {
                                proof {
                                    assert(self.toks()[inner_end] == close.token@);
                                    let t = self.toks().subrange(start, self.pos as int);
                                    assert(t.subrange(1, t.len() - 1) =~= self.toks().subrange(
                                        start + 1,
                                        inner_end,
                                    ));
                                    assert(t[0] == self.toks()[start]);
                                    assert(t[t.len() - 1] == self.toks()[inner_end]);
                                    lemma_derives_lift(
                                        self.toks().subrange(start + 1, inner_end),
                                        inner@,
                                        1,
                                        1,
                                    );
                                }
                                Ok(inner)
                            },
                            other => {
                                let mut message = from_str("expected `)` but found ");
                                let described = other.describe();
                                push_str(&mut message, described.as_str());
                                Err(ParseError::new(message, close.pos))
                            },
                        }
                    },
                    None => Err(
                        ParseError::new(from_str("unbalanced brackets, expected `)`"), self.end),
                    ),
                }
            },
            other => {
                let mut message = from_str("expected a filter name but found ");
                let described = other.describe();
                push_str(&mut message, described.as_str());
                Err(ParseError::new(message, spanned.pos))
            },
        }
    }
}

/// Parse a filter expression. A result is always a derivation of the tokens
/// under the grammar of [`derives`]; lexical errors are reported as the lexer
/// found them.
pub fn parse(input: &str) -> (r: Result<BoolExpr, ParseError>)
    ensures
        match lex_spec(input@) {
            Err(m) => (r matches Err(e) && e.message@ == m.0 && e.pos == m.1),
            Ok(ts) => {
                &&& ts.len() == 0 ==> (r matches Err(e) && e.message@
                    == "filter expression is empty"@ && e.pos == 0)
                &&& r matches Ok(e) ==> derives(tokens_of(ts), e@, 1)
                &&& ts.len() > 0 ==> (r is Ok <==> chain_end(tokens_of(ts), 0, 0) == Some(ts.len() as int))
            },
        },
        match parse_spec(input@) {
            Ok(e) => r matches Ok(x) && x@ == e,
            Err(m) => r matches Err(x) && x.message@ == m.0 && x.pos == m.1,
        },
{
    let tokens = match lex(input) {
        Ok(t) => t,
        Err(e) => return Err(e),
    };
    if tokens.len() == 0 {
        return Err(ParseError::new(from_str("filter expression is empty"), 0));
    }
    let end = chars_of(input).len();
    let mut parser = Parser { end, tokens, pos: 0 };
    proof {
        lemma_chain_end_after(parser.toks(), 0, 0);
    }
    let expr = match parser.parse_expr(0) {
        Ok(e) => e,
        Err(e) => return Err(e),
    };
    match parser.peek() {
        Some(spanned) => {
            let message = match spanned.token {
                Token::RParen => from_str("unbalanced brackets, unexpected `)`"),
                _ => {
                    let mut m = from_str("unexpected trailing ");
                    let described = spanned.token.describe();
                    push_str(&mut m, described.as_str());
                    m
                },
            };
            return Err(ParseError::new(message, spanned.pos));
        },
        None => {},
    }
    proof {
        assert(parser.toks().subrange(0, parser.pos as int) =~= parser.toks());
        lemma_derives_lift(parser.toks(), expr@, 1, 1);
    }
    Ok(expr)
}

} // verus!
