//! `${VAR}` and `${VAR:-fallback}` in config values; `$${` is a literal `${`.
//!
//! A value is first split into pieces, literal text and variable references,
//! which is a function of the text alone. The pieces are then filled in from
//! whatever the environment answers for each reference.

use vstd::prelude::*;

use crate::text::{
    chars_of, clone_string, contains_text, from_str, push_char, push_str, string_of_range, trim, trim_string,
};

verus! {

#[derive(Debug)]
pub enum Piece {
    Text(String),
    Var { name: String, fallback: Option<String> },
}

pub enum PieceV {
    Text(Seq<char>),
    Var(Seq<char>, Option<Seq<char>>),
}

impl View for Piece {
    type V = PieceV;

    open spec fn view(&self) -> PieceV {
        match self {
            Piece::Text(t) => PieceV::Text(t@),
            Piece::Var { name, fallback } => PieceV::Var(
                name@,
                match fallback {
                    Some(f) => Some(f@),
                    None => None,
                },
            ),
        }
    }
}

pub open spec fn pieces_view(ps: Seq<Piece>) -> Seq<PieceV> {
    ps.map_values(|p: Piece| p@)
}

/// The first `}` at or after `i`.
pub open spec fn close_brace(s: Seq<char>, i: int) -> Option<int>
    decreases s.len() - i,
{
    if i < 0 || i >= s.len() {
        None
    } else if s[i] == '}' {
        Some(i)
    } else {
        close_brace(s, i + 1)
    }
}

pub proof fn lemma_close_brace(s: Seq<char>, i: int)
    requires
        0 <= i,
    ensures
        close_brace(s, i) matches Some(j) ==> i <= j < s.len() && s[j] == '}',
    decreases s.len() - i,
{
    if i < s.len() && s[i] != '}' {
        lemma_close_brace(s, i + 1);
    }
}

/// The first position of `:-` in `s`.
pub open spec fn fallback_mark(s: Seq<char>, i: int) -> Option<int>
    decreases s.len() - i,
{
    if i < 0 || i + 1 >= s.len() {
        None
    } else if s[i] == ':' && s[i + 1] == '-' {
        Some(i)
    } else {
        fallback_mark(s, i + 1)
    }
}

pub proof fn lemma_fallback_mark(s: Seq<char>, i: int)
    requires
        0 <= i,
    ensures
        fallback_mark(s, i) matches Some(j) ==> i <= j && j + 1 < s.len(),
    decreases s.len() - i,
{
    if i + 1 < s.len() && !(s[i] == ':' && s[i + 1] == '-') {
        lemma_fallback_mark(s, i + 1);
    }
}

/// The reference inside `${...}`: a trimmed name, and the fallback after
/// `:-` if there is one.
pub open spec fn reference(inner: Seq<char>) -> (Seq<char>, Option<Seq<char>>) {
    match fallback_mark(inner, 0) {
        Some(j) => (trim(inner.subrange(0, j)), Some(inner.subrange(j + 2, inner.len() as int))),
        None => (trim(inner), None),
    }
}

pub open spec fn unterminated_message() -> Seq<char> {
    "unterminated `${` in config"@
}

pub open spec fn empty_name_message() -> Seq<char> {
    "empty variable name in `${}`"@
}

pub open spec fn unset_message(name: Seq<char>) -> Seq<char> {
    "environment variable `"@ + name
        + "` is referenced by the config but not set (use `${"@ + name
        + ":-default}` to give it a fallback)"@
}

pub open spec fn prepend(p: PieceV, rest: Result<Seq<PieceV>, Seq<char>>) -> Result<
    Seq<PieceV>,
    Seq<char>,
> {
    match rest {
        Ok(ps) => Ok(seq![p] + ps),
        Err(e) => Err(e),
    }
}

/// The pieces of `s` from offset `i`, or why it has none.
pub open spec fn pieces_from(s: Seq<char>, i: int) -> Result<Seq<PieceV>, Seq<char>>
    decreases s.len() - i,
{
    if i < 0 || i >= s.len() {
        Ok(seq![])
    } else if s[i] == '$' && i + 2 < s.len() && s[i + 1] == '$' && s[i + 2] == '{' {
        prepend(PieceV::Text("${"@), pieces_from(s, i + 3))
    } else if s[i] == '$' && i + 1 < s.len() && s[i + 1] == '{' {
        match close_brace(s, i) {
            None => Err(unterminated_message()),
            Some(c) => {
                proof {
                    lemma_close_brace(s, i);
                }
                let (name, fallback) = reference(s.subrange(i + 2, c));
                if name.len() == 0 {
                    Err(empty_name_message())
                } else {
                    prepend(PieceV::Var(name, fallback), pieces_from(s, c + 1))
                }
            },
        }
    } else {
        prepend(PieceV::Text(seq![s[i]]), pieces_from(s, i + 1))
    }
}

pub open spec fn template_spec(s: Seq<char>) -> Result<Seq<PieceV>, Seq<char>> {
    pieces_from(s, 0)
}

pub open spec fn or_fallback(v: Option<Seq<char>>, fallback: Option<Seq<char>>) -> Option<
    Seq<char>,
> {
    match v {
        Some(x) => Some(x),
        None => fallback,
    }
}

/// A text as pieces of one character each, with no reference among them.
pub open spec fn char_pieces(t: Seq<char>) -> Seq<PieceV> {
    Seq::new(t.len(), |k: int| PieceV::Text(seq![t[k]]))
}

/// A text in which `${` never occurs is read as its characters, one literal
/// piece each.
pub proof fn lemma_pieces_without_reference(s: Seq<char>, i: int)
    requires
        !contains_text(s, "${"@),
        0 <= i <= s.len(),
    ensures
        pieces_from(s, i) == Ok::<Seq<PieceV>, Seq<char>>(char_pieces(s.subrange(i, s.len() as int))),
    decreases s.len() - i,
{
    reveal_strlit("${");
    if i == s.len() {
        assert(char_pieces(s.subrange(i, s.len() as int)) =~= Seq::<PieceV>::empty());
    } else {
        if s[i] == '$' && i + 2 < s.len() && s[i + 1] == '$' && s[i + 2] == '{' {
            assert(s.subrange(i + 1, i + 3) =~= "${"@);
            assert(crate::text::occurs_at(s, "${"@, i + 1));
        }
        if s[i] == '$' && i + 1 < s.len() && s[i + 1] == '{' {
            assert(s.subrange(i, i + 2) =~= "${"@);
            assert(crate::text::occurs_at(s, "${"@, i));
        }
        lemma_pieces_without_reference(s, i + 1);
        assert(seq![PieceV::Text(seq![s[i]])] + char_pieces(s.subrange(i + 1, s.len() as int)) =~= char_pieces(
            s.subrange(i, s.len() as int),
        ));
    }
}

/// The text the pieces spell when each reference is answered by the value at
/// the same index in `vals` (`None` for an unset variable); the first
/// reference left without a value is the error.
pub open spec fn fill_spec(ps: Seq<PieceV>, vals: Seq<Option<Seq<char>>>) -> Result<
    Seq<char>,
    Seq<char>,
>
    decreases ps.len(),
{
    if ps.len() == 0 {
        Ok(seq![])
    } else {
        match fill_spec(ps.drop_last(), vals.drop_last()) {
            Err(e) => Err(e),
            Ok(prefix) => match ps.last() {
                PieceV::Text(t) => Ok(prefix + t),
                PieceV::Var(n, fb) => match or_fallback(vals.last(), fb) {
                    None => Err(unset_message(n)),
                    Some(v) => Ok(prefix + v),
                },
            },
        }
    }
}

proof fn lemma_fill_prefix_error(
    ps: Seq<PieceV>,
    vals: Seq<Option<Seq<char>>>,
    k: int,
    m: Seq<char>,
)
    requires
        0 <= k <= ps.len(),
        vals.len() == ps.len(),
        fill_spec(ps.subrange(0, k), vals.subrange(0, k)) == Err::<Seq<char>, Seq<char>>(m),
    ensures
        fill_spec(ps, vals) == Err::<Seq<char>, Seq<char>>(m),
    decreases ps.len() - k,
{
    if k < ps.len() {
        let a = ps.subrange(0, k + 1);
        let b = vals.subrange(0, k + 1);
        assert(a.drop_last() =~= ps.subrange(0, k));
        assert(b.drop_last() =~= vals.subrange(0, k));
        lemma_fill_prefix_error(ps, vals, k + 1, m);
    } else {
        assert(ps.subrange(0, k) =~= ps);
        assert(vals.subrange(0, k) =~= vals);
    }
}

fn find_close(v: &Vec<char>, i: usize) -> (r: Option<usize>)
    ensures
        match r {
            Some(j) => close_brace(v@, i as int) == Some(j as int),
            None => close_brace(v@, i as int) is None,
        },
{
    let mut j: usize = i;
    while j < v.len() && v[j] != '}'
        invariant
            i <= j,
            close_brace(v@, i as int) == close_brace(v@, j as int),
        decreases v.len() - j,
    {
        j += 1;
    }
    if j < v.len() {
        Some(j)
    } else {
        None
    }
}

fn find_mark(v: &Vec<char>) -> (r: Option<usize>)
    ensures
        match r {
            Some(j) => fallback_mark(v@, 0) == Some(j as int),
            None => fallback_mark(v@, 0) is None,
        },
{
    let mut j: usize = 0;
    while j < v.len() && j + 1 < v.len() && !(v[j] == ':' && v[j + 1] == '-')
        invariant
            fallback_mark(v@, 0) == fallback_mark(v@, j as int),
            j <= v@.len(),
        decreases v.len() - j,
    {
        j += 1;
    }
    if j < v.len() && j + 1 < v.len() {
        Some(j)
    } else {
        None
    }
}

fn push_piece(out: &mut Vec<Piece>, p: Piece)
    ensures
        pieces_view(final(out)@) == pieces_view(old(out)@).push(p@),
{
    let ghost before = pieces_view(out@);
    out.push(p);
    assert(pieces_view(out@) =~= before.push(p@));
}

/// A reference expands to its variable's value whenever the variable has
/// one, whatever fallback it names; only an unset variable takes the
/// fallback, and an unset variable without one is the error that names it.
/// Text before the reference is kept as it was spelled.
pub proof fn lemma_reference_expansion(
    ps: Seq<PieceV>,
    vals: Seq<Option<Seq<char>>>,
    name: Seq<char>,
    fallback: Option<Seq<char>>,
    value: Seq<char>,
    f: Seq<char>,
)
    requires
        fill_spec(ps, vals) is Ok,
    ensures
        fill_spec(ps.push(PieceV::Var(name, fallback)), vals.push(Some(value))) == Ok::<Seq<char>, Seq<char>>(
            fill_spec(ps, vals)->Ok_0 + value,
        ),
        fill_spec(ps.push(PieceV::Var(name, Some(f))), vals.push(None)) == Ok::<Seq<char>, Seq<char>>(
            fill_spec(ps, vals)->Ok_0 + f,
        ),
        fill_spec(ps.push(PieceV::Var(name, None)), vals.push(None)) == Err::<Seq<char>, Seq<char>>(
            unset_message(name),
        ),
{
    assert(ps.push(PieceV::Var(name, fallback)).drop_last() =~= ps);
    assert(vals.push(Some(value)).drop_last() =~= vals);
    assert(ps.push(PieceV::Var(name, Some(f))).drop_last() =~= ps);
    assert(vals.push(None::<Seq<char>>).drop_last() =~= vals);
    assert(ps.push(PieceV::Var(name, None)).drop_last() =~= ps);
}

/// Literal pieces spell their characters, whatever the environment holds.
pub proof fn lemma_fill_char_pieces(t: Seq<char>, vals: Seq<Option<Seq<char>>>)
    ensures
        fill_spec(char_pieces(t), vals) == Ok::<Seq<char>, Seq<char>>(t),
    decreases t.len(),
{
    if t.len() == 0 {
        assert(char_pieces(t) =~= Seq::<PieceV>::empty());
        assert(t =~= Seq::<char>::empty());
    } else {
        lemma_fill_char_pieces(t.drop_last(), vals.drop_last());
        let ps = char_pieces(t);
        assert(ps.drop_last() =~= char_pieces(t.drop_last()));
        assert(ps.last() == PieceV::Text(seq![t.last()]));
        assert(fill_spec(ps.drop_last(), vals.drop_last()) == Ok::<Seq<char>, Seq<char>>(t.drop_last()));
        assert(t.drop_last() + seq![t.last()] =~= t);
    }
}

pub open spec fn with_prefix(acc: Seq<PieceV>, rest: Result<Seq<PieceV>, Seq<char>>) -> Result<
    Seq<PieceV>,
    Seq<char>,
> {
    match rest {
        Ok(ps) => Ok(acc + ps),
        Err(e) => Err(e),
    }
}

proof fn lemma_with_prefix_step(acc: Seq<PieceV>, p: PieceV, rest: Result<Seq<PieceV>, Seq<char>>)
    ensures
        with_prefix(acc, prepend(p, rest)) == with_prefix(acc.push(p), rest),
{
    match rest {
        Ok(ps) => {
            assert(acc + (seq![p] + ps) =~= acc.push(p) + ps);
        },
        Err(_) => {},
    }
}

/// Split a value into literal text and variable references.
pub fn parse_template(raw: &str) -> (r: Result<Vec<Piece>, String>)
    ensures
        match (r, template_spec(raw@)) {
            (Ok(ps), Ok(m)) => pieces_view(ps@) == m,
            (Err(e), Err(m)) => e@ == m,
            _ => false,
        },
{
    let chars = chars_of(raw);
    let n = chars.len();
    let ghost s = raw@;
    let mut out: Vec<Piece> = Vec::new();
    let mut i: usize = 0;
    assert(pieces_view(out@) =~= Seq::<PieceV>::empty());
    while i < n
        invariant
            n == chars@.len(),
            chars@ == s,
            s == raw@,
            0 <= i <= n,
            template_spec(s) == with_prefix(pieces_view(out@), pieces_from(s, i as int)),
        decreases n - i,
    {
        let ghost before = pieces_view(out@);
        if chars[i] == '$' && n - i > 2 && chars[i + 1] == '$' && chars[i + 2] == '{' {
            let p = Piece::Text(from_str("${"));
            proof {
                lemma_with_prefix_step(before, p@, pieces_from(s, i + 3));
            }
            push_piece(&mut out, p);
            i += 3;
            continue;
        }
        if chars[i] == '$' && n - i > 1 && chars[i + 1] == '{' {
            proof {
                lemma_close_brace(s, i as int);
            }
            let close = match find_close(&chars, i) {
                Some(c) => c,
                None => return Err(from_str("unterminated `${` in config")),
            };
            let inner = string_of_range(&chars, i + 2, close);
            let inner_chars = chars_of(inner.as_str());
            let (name, fallback) = match find_mark(&inner_chars) {
                Some(j) => {
                    proof {
                        lemma_fallback_mark(inner_chars@, 0);
                    }
                    let head = string_of_range(&inner_chars, 0, j);
                    (
                        trim_string(head.as_str()),
                        Some(string_of_range(&inner_chars, j + 2, inner_chars.len())),
                    )
                },
                None => (trim_string(inner.as_str()), None),
            };
            if name.as_str().unicode_len() == 0 {
                return Err(from_str("empty variable name in `${}`"));
            }
            let p = Piece::Var { name, fallback };
            proof {
                lemma_with_prefix_step(before, p@, pieces_from(s, close + 1));
            }
            push_piece(&mut out, p);
            i = close + 1;
            continue;
        }
        let mut t = String::new();
        push_char(&mut t, chars[i]);
        let p = Piece::Text(t);
        proof {
            assert(t@ =~= seq![s[i as int]]);
            lemma_with_prefix_step(before, p@, pieces_from(s, i + 1));
        }
        push_piece(&mut out, p);
        i += 1;
    }
    assert(pieces_view(out@) + Seq::<PieceV>::empty() =~= pieces_view(out@));
    Ok(out)
}

} // verus!

verus! {

/// Whether the result of an interpolation is what the pieces spell under
/// some answers of the environment.
pub open spec fn spells(r: Result<String, String>, f: Result<Seq<char>, Seq<char>>) -> bool {
    match (r, f) {
        (Ok(s), Ok(t)) => s@ == t,
        (Err(e), Err(t)) => e@ == t,
        _ => false,
    }
}

pub open spec fn filled_by(
    ps: Seq<PieceV>,
    vals: Seq<Option<Seq<char>>>,
    r: Result<String, String>,
) -> bool {
    vals.len() == ps.len() && spells(r, fill_spec(ps, vals))
}

pub open spec fn opt_view(o: Option<String>) -> Option<Seq<char>> {
    match o {
        Some(s) => Some(s@),
        None => None,
    }
}

/// Whether each variable among the first `upto` pieces holds what `lookup`
/// answered for its name.
pub open spec fn asked<F: Fn(&str) -> Option<String>>(
    lookup: F,
    ps: Seq<PieceV>,
    vals: Seq<Option<Seq<char>>>,
    upto: int,
) -> bool {
    forall|k: int|
        0 <= k < upto && (#[trigger] ps[k]) is Var ==> exists|s: &str, a: Option<String>|
            s@ == ps[k]->Var_0 && call_ensures(lookup, (s,), a) && opt_view(a) == vals[k]
}

/// Expand `${VAR}` and `${VAR:-fallback}` in `raw`, asking `lookup` for the
/// value of each variable; `$${` is a literal `${`.
///
/// What the environment answers is outside this function's knowledge, so the
/// contract says what holds whatever it answers: a malformed reference is
/// reported exactly, and otherwise the result is the text the pieces spell
/// with each variable's value the one `lookup` answered for its name - all
/// of them on success, those up to the first unset one without a fallback
/// on failure.
pub fn interpolate_with<F: Fn(&str) -> Option<String>>(raw: &str, lookup: F) -> (r: Result<
    String,
    String,
>)
    requires
        forall|s: &str| lookup.requires((s,)),
    ensures
        match template_spec(raw@) {
            Err(m) => (r matches Err(e) && e@ == m),
            Ok(ps) => exists|vals: Seq<Option<Seq<char>>>, upto: int|
                #[trigger] filled_by(ps, vals, r) && 0 <= upto <= ps.len() && #[trigger] asked(lookup, ps, vals, upto)
                    && (r is Ok ==> upto == ps.len()) && (r matches Err(e) ==> fill_spec(
                    ps.subrange(0, upto),
                    vals.subrange(0, upto),
                ) == Err::<Seq<char>, Seq<char>>(e@)),
        },
{
    let pieces = match parse_template(raw) {
        Ok(p) => p,
        Err(e) => return Err(e),
    };
    let ghost ps = pieces_view(pieces@);
    let ghost mut vals: Seq<Option<Seq<char>>> = seq![];
    let mut out = String::new();
    let mut failure: Option<String> = None;
    let mut i: usize = 0;
    assert(ps.subrange(0, 0) =~= Seq::<PieceV>::empty());
    assert(out@ =~= Seq::<char>::empty());
    while i < pieces.len() && failure.is_none()
        invariant
            0 <= i <= pieces@.len(),
            ps == pieces_view(pieces@),
            template_spec(raw@) == Ok::<Seq<PieceV>, Seq<char>>(ps),
            vals.len() == i,
            failure is None ==> fill_spec(ps.subrange(0, i as int), vals) == Ok::<
                Seq<char>,
                Seq<char>,
            >(out@),
            failure matches Some(m) ==> fill_spec(ps.subrange(0, i as int), vals) == Err::<
                Seq<char>,
                Seq<char>,
            >(m@),
            forall|s: &str| lookup.requires((s,)),
            asked(lookup, ps, vals, i as int),
        decreases pieces.len() - i,
    {
        let ghost pre = ps.subrange(0, i as int);
        let ghost next = ps.subrange(0, i + 1);
        proof {
            assert(next.drop_last() =~= pre);
            assert(next.last() == pieces@[i as int]@);
        }
        match &pieces[i] {
            Piece::Text(t) => {
                push_str(&mut out, t.as_str());
                proof {
                    let v2 = vals.push(None);
                    assert(v2.drop_last() =~= vals);
                    assert forall|k: int| 0 <= k < i + 1 && (#[trigger] ps[k]) is Var implies exists|
                        s: &str,
                        a: Option<String>,
                    | s@ == ps[k]->Var_0 && call_ensures(lookup, (s,), a) && opt_view(a) == v2[k] by {
                        assert(ps[i as int] == pieces@[i as int]@);
                        if k < i {
                            assert(v2[k] == vals[k]);
                        }
                    }
                    vals = v2;
                }
            },
            Piece::Var { name, fallback } => {
                let key = name.as_str();
                let answer = lookup(key);
                proof {
                    let v2 = vals.push(opt_view(answer));
                    assert(v2.drop_last() =~= vals);
                    assert forall|k: int| 0 <= k < i + 1 && (#[trigger] ps[k]) is Var implies exists|
                        s: &str,
                        a: Option<String>,
                    | s@ == ps[k]->Var_0 && call_ensures(lookup, (s,), a) && opt_view(a) == v2[k] by {
                        if k < i {
                            assert(v2[k] == vals[k]);
                        } else {
                            assert(ps[k] == pieces@[i as int]@);
                            assert(key@ == ps[k]->Var_0);
                            assert(call_ensures(lookup, (key,), answer));
                        }
                    }
                    vals = v2;
                }
                match answer {
                    Some(v) => push_str(&mut out, v.as_str()),
                    None => match fallback {
                        Some(f) => push_str(&mut out, f.as_str()),
                        None => {
                            let mut m = from_str("environment variable `");
                            push_str(&mut m, name.as_str());
                            push_str(&mut m, "` is referenced by the config but not set (use `${");
                            push_str(&mut m, name.as_str());
                            push_str(&mut m, ":-default}` to give it a fallback)");
                            failure = Some(m);
                        },
                    },
                }
            },
        }
        i += 1;
    }
    match failure {
        Some(m) => {
            let ghost full = vals + Seq::new((ps.len() - i) as nat, |k: int| None::<Seq<char>>);
            proof {
                assert(full.subrange(0, i as int) =~= vals);
                lemma_fill_prefix_error(ps, full, i as int, m@);
                assert(filled_by(ps, full, Err::<String, String>(m)));
                assert forall|k: int| 0 <= k < i && (#[trigger] ps[k]) is Var implies exists|
                    s: &str,
                    a: Option<String>,
                | s@ == ps[k]->Var_0 && call_ensures(lookup, (s,), a) && opt_view(a) == full[k] by {
                    assert(full[k] == vals[k]);
                }
                assert(asked(lookup, ps, full, i as int));
            }
            Err(m)
        },
        None => {
            proof {
                assert(ps.subrange(0, pieces@.len() as int) =~= ps);
                assert(filled_by(ps, vals, Ok::<String, String>(out)));
                assert(asked(lookup, ps, vals, pieces@.len() as int));
            }
            Ok(out)
        },
    }
}

} // verus!
