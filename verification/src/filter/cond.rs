//! A single `attribute[.modifier]: value` line, and the named block of them.
//!
//! Within one block every condition must hold (AND); within one condition the
//! comma-separated values are alternatives (OR). That is Kometa's rule, and it
//! is the one most people writing these filters already have in their head.

use vstd::prelude::*;

use super::attr::{
    attribute_text, attribute_word, kind_of, known_attribute_names, known_names_spec, reading_of,
    Attribute, Kind, Reading, ReadingV,
};
use crate::doc::Doc;
use crate::expr::ast::{add_new, lemma_add_new_concat, push_new};
use crate::model::{
    calendar_date, date_before, date_lt, find_char, first_index_of, is_word, parse_date,
    strings_view, Date, Item, ItemView,
};
use crate::text::{
    ascii_lower, chars_of, clone_string, contains_text, ends_with, eq_ignore_ascii_case,
    from_str, join, join_strings, join_strs, keyword, keyword_of, parse_i64, parse_i64_spec,
    push_char, push_str, starts_with, str_contains, str_ends_with, str_starts_with,
    string_of_range, to_lowercase, trim, trim_string, unicode_lower,
};

verus! {

/// What a condition answers when the item simply does not know the attribute.
#[derive(Debug, Clone, Copy, PartialEq, Eq, Structural)]
pub enum UnknownPolicy {
    /// Unknown never matches, so the item is filtered out. Consistent with the
    /// way `min_year` already drops items that have no year.
    Exclude,
    Include,
}

impl UnknownPolicy {
    pub fn default_value() -> (r: UnknownPolicy)
        ensures
            r == UnknownPolicy::Exclude,
    {
        UnknownPolicy::Exclude
    }

    fn allows(self) -> (r: bool)
        ensures
            r == (self == UnknownPolicy::Include),
    {
        match self {
            UnknownPolicy::Include => true,
            UnknownPolicy::Exclude => false,
        }
    }
}

#[derive(Debug, Clone, Copy, PartialEq, Eq, Structural)]
pub enum Modifier {
    /// No suffix: any-of for codes, equality for numbers, contains for text.
    Is,
    Not,
    /// Every listed value must be present. Multi-valued attributes only.
    All,
    Gt,
    Gte,
    Lt,
    Lte,
    Before,
    After,
    Begins,
    Ends,
    Regex,
}

pub open spec fn modifier_word(k: Seq<char>) -> Option<Modifier> {
    if k == "is"@ {
        Some(Modifier::Is)
    } else if k == "not"@ || k == "isnot"@ {
        Some(Modifier::Not)
    } else if k == "all"@ {
        Some(Modifier::All)
    } else if k == "gt"@ {
        Some(Modifier::Gt)
    } else if k == "gte"@ {
        Some(Modifier::Gte)
    } else if k == "lt"@ {
        Some(Modifier::Lt)
    } else if k == "lte"@ {
        Some(Modifier::Lte)
    } else if k == "before"@ {
        Some(Modifier::Before)
    } else if k == "after"@ {
        Some(Modifier::After)
    } else if k == "begins"@ {
        Some(Modifier::Begins)
    } else if k == "ends"@ {
        Some(Modifier::Ends)
    } else if k == "regex"@ {
        Some(Modifier::Regex)
    } else {
        None
    }
}

pub open spec fn modifier_text(m: Modifier) -> Seq<char> {
    match m {
        Modifier::Is => "is"@,
        Modifier::Not => "not"@,
        Modifier::All => "all"@,
        Modifier::Gt => "gt"@,
        Modifier::Gte => "gte"@,
        Modifier::Lt => "lt"@,
        Modifier::Lte => "lte"@,
        Modifier::Before => "before"@,
        Modifier::After => "after"@,
        Modifier::Begins => "begins"@,
        Modifier::Ends => "ends"@,
        Modifier::Regex => "regex"@,
    }
}

/// The modifiers an attribute of each kind accepts, in the order they are
/// listed back to the user when they get one wrong.
pub open spec fn allowed_spec(kind: Kind) -> Seq<Modifier> {
    match kind {
        Kind::Codes => seq![Modifier::Is, Modifier::Not],
        Kind::List => seq![Modifier::Is, Modifier::Not, Modifier::All],
        Kind::Number => seq![
            Modifier::Is,
            Modifier::Not,
            Modifier::Gt,
            Modifier::Gte,
            Modifier::Lt,
            Modifier::Lte,
        ],
        Kind::Date => seq![Modifier::Before, Modifier::After],
        Kind::Text => seq![
            Modifier::Is,
            Modifier::Not,
            Modifier::Begins,
            Modifier::Ends,
            Modifier::Regex,
        ],
    }
}

/// A bare `release:` would be ambiguous, so dates always say which side.
pub open spec fn default_modifier_spec(kind: Kind) -> Modifier {
    match kind {
        Kind::Date => Modifier::After,
        _ => Modifier::Is,
    }
}

impl Modifier {
    pub fn parse(raw: &str) -> (r: Option<Modifier>)
        ensures
            r == modifier_word(keyword(raw@)),
    {
        let k = keyword_of(raw);
        if is_word(&k, "is") {
            Some(Modifier::Is)
        } else if is_word(&k, "not") || is_word(&k, "isnot") {
            Some(Modifier::Not)
        } else if is_word(&k, "all") {
            Some(Modifier::All)
        } else if is_word(&k, "gt") {
            Some(Modifier::Gt)
        } else if is_word(&k, "gte") {
            Some(Modifier::Gte)
        } else if is_word(&k, "lt") {
            Some(Modifier::Lt)
        } else if is_word(&k, "lte") {
            Some(Modifier::Lte)
        } else if is_word(&k, "before") {
            Some(Modifier::Before)
        } else if is_word(&k, "after") {
            Some(Modifier::After)
        } else if is_word(&k, "begins") {
            Some(Modifier::Begins)
        } else if is_word(&k, "ends") {
            Some(Modifier::Ends)
        } else if is_word(&k, "regex") {
            Some(Modifier::Regex)
        } else {
            None
        }
    }

    pub fn as_str(self) -> (r: &'static str)
        ensures
            r@ == modifier_text(self),
    {
        match self {
            Modifier::Is => "is",
            Modifier::Not => "not",
            Modifier::All => "all",
            Modifier::Gt => "gt",
            Modifier::Gte => "gte",
            Modifier::Lt => "lt",
            Modifier::Lte => "lte",
            Modifier::Before => "before",
            Modifier::After => "after",
            Modifier::Begins => "begins",
            Modifier::Ends => "ends",
            Modifier::Regex => "regex",
        }
    }

    pub fn allowed_for(kind: Kind) -> (r: Vec<Modifier>)
        ensures
            r@ == allowed_spec(kind),
    {
        let r = match kind {
            Kind::Codes => vec![Modifier::Is, Modifier::Not],
            Kind::List => vec![Modifier::Is, Modifier::Not, Modifier::All],
            Kind::Number => vec![
                Modifier::Is,
                Modifier::Not,
                Modifier::Gt,
                Modifier::Gte,
                Modifier::Lt,
                Modifier::Lte,
            ],
            Kind::Date => vec![Modifier::Before, Modifier::After],
            Kind::Text => vec![
                Modifier::Is,
                Modifier::Not,
                Modifier::Begins,
                Modifier::Ends,
                Modifier::Regex,
            ],
        };
        assert(r@ =~= allowed_spec(kind));
        r
    }
}

pub fn default_modifier(kind: Kind) -> (r: Modifier)
    ensures
        r == default_modifier_spec(kind),
{
    match kind {
        Kind::Date => Modifier::After,
        _ => Modifier::Is,
    }
}

// ---------------------------------------------------------------------------
// Regular expressions
// ---------------------------------------------------------------------------

/// The error `regex::RegexBuilder::build` reports for a pattern, compiled
/// case-insensitively with a 1 MiB size limit, or `None` when it compiles.
pub uninterp spec fn regex_build_error(pattern: Seq<char>) -> Option<Seq<char>>;

/// Whether the pattern, compiled as above, finds a match anywhere in `text`.
pub uninterp spec fn regex_finds(pattern: Seq<char>, text: Seq<char>) -> bool;

/// A declared outside type: the compiled regex.
#[verifier::external_type_specification]
#[verifier::external_body]
pub struct ExRegex(regex::Regex);

/// A compiled regular expression, together with the pattern it was built from.
#[derive(Debug)]
pub struct Pattern {
    source: String,
    compiled: regex::Regex,
}

impl View for Pattern {
    type V = Seq<char>;

    closed spec fn view(&self) -> Seq<char> {
        self.source@
    }
}

/// `regex::RegexBuilder::new(text).case_insensitive(true).size_limit(1 << 20)
/// .build()`. Claimed: whether it compiles, and the error text when it does
/// not, are a function of the pattern.
#[verifier::external_body]
fn build_pattern(text: &str) -> (r: Result<Pattern, String>)
    ensures
        match r {
            Ok(p) => p@ == text@ && regex_build_error(text@) is None,
            Err(e) => regex_build_error(text@) == Some(e@),
        },
{
    match regex::RegexBuilder::new(text).case_insensitive(true).size_limit(1 << 20).build() {
        Ok(compiled) => Ok(Pattern { source: text.to_string(), compiled }),
        Err(error) => Err(error.to_string()),
    }
}

impl Pattern {
    /// `regex::Regex::is_match`.
    #[verifier::external_body]
    pub(crate) fn is_match(&self, text: &str) -> (r: bool)
        ensures
            r == regex_finds(self@, text@),
    {
        self.compiled.is_match(text)
    }

    /// `regex::Regex::clone`, which shares the compiled program.
    #[verifier::external_body]
    pub(crate) fn duplicate(&self) -> (r: Pattern)
        ensures
            r@ == self@,
    {
        Pattern { source: self.source.clone(), compiled: self.compiled.clone() }
    }
}

// ---------------------------------------------------------------------------
// Operands
// ---------------------------------------------------------------------------

/// The parsed right-hand side, already in the shape the comparison needs.
#[derive(Debug)]
pub enum Operand {
    Codes(Vec<String>),
    Number(i64),
    Date(Date),
    Text(String),
    Pattern(Pattern),
}

pub enum OperandV {
    Codes(Seq<Seq<char>>),
    Number(i64),
    Date(Date),
    Text(Seq<char>),
    Pattern(Seq<char>),
}

impl View for Operand {
    type V = OperandV;

    open spec fn view(&self) -> OperandV {
        match self {
            Operand::Codes(c) => OperandV::Codes(strings_view(c@)),
            Operand::Number(n) => OperandV::Number(*n),
            Operand::Date(d) => OperandV::Date(*d),
            Operand::Text(t) => OperandV::Text(t@),
            Operand::Pattern(p) => OperandV::Pattern(p@),
        }
    }
}

/// YAML scalars: a bare `PG` is a string, a bare `18` is a number, and `true`
/// would be a bool. All of them are legitimate values to compare against.
pub open spec fn as_text_spec(value: Doc) -> Option<Seq<char>> {
    match value {
        Doc::Text(t) => Some(trim(t@)),
        Doc::Number(n) => Some(n.text@),
        Doc::Bool(b) => Some(
            if b {
                "true"@
            } else {
                "false"@
            },
        ),
        _ => None,
    }
}

pub fn as_text(value: &Doc) -> (r: Option<String>)
    ensures
        match r {
            Some(t) => as_text_spec(*value) == Some(t@),
            None => as_text_spec(*value) is None,
        },
{
    match value {
        Doc::Text(t) => Some(trim_string(t.as_str())),
        Doc::Number(n) => Some(clone_string(&n.text)),
        Doc::Bool(b) => Some(
            if *b {
                from_str("true")
            } else {
                from_str("false")
            },
        ),
        _ => None,
    }
}

pub open spec fn as_number_spec(value: Doc) -> Option<i64> {
    match value {
        Doc::Number(n) => n.signed,
        Doc::Text(t) => parse_i64_spec(trim(t@)),
        _ => None,
    }
}

pub fn as_number(value: &Doc) -> (r: Option<i64>)
    ensures
        r == as_number_spec(*value),
{
    match value {
        Doc::Number(n) => n.signed,
        Doc::Text(t) => {
            let trimmed = trim_string(t.as_str());
            parse_i64(trimmed.as_str())
        },
        _ => None,
    }
}

/// The pieces of `s` between commas, as `str::split(',')` yields them.
pub open spec fn comma_pieces(s: Seq<char>) -> Seq<Seq<char>>
    decreases s.len(),
{
    if s.len() == 0 {
        seq![seq![]]
    } else {
        let rest = comma_pieces(s.drop_last());
        if s.last() == ',' {
            rest.push(seq![])
        } else {
            rest.update(rest.len() - 1, rest.last().push(s.last()))
        }
    }
}

proof fn lemma_comma_pieces_nonempty(s: Seq<char>)
    ensures
        comma_pieces(s).len() >= 1,
    decreases s.len(),
{
    if s.len() > 0 {
        lemma_comma_pieces_nonempty(s.drop_last());
    }
}

/// The codes one piece of text adds: each comma-separated part, trimmed,
/// unless it is empty or already present.
pub open spec fn push_codes(acc: Seq<Seq<char>>, text: Seq<char>) -> Seq<Seq<char>> {
    add_new(
        acc,
        comma_pieces(text).map_values(|p: Seq<char>| trim(p)).filter(|p: Seq<char>| p.len() > 0),
    )
}

pub open spec fn flatten_from(entries: Seq<Doc>, acc: Seq<Seq<char>>) -> Option<Seq<Seq<char>>>
    decreases entries.len(),
{
    if entries.len() == 0 {
        Some(acc)
    } else {
        match as_text_spec(entries[0]) {
            None => None,
            Some(t) => flatten_from(entries.drop_first(), push_codes(acc, t)),
        }
    }
}

/// `ru, su`, `[ru, su]` and `ru` all mean the same thing.
pub open spec fn flatten_spec(value: Doc) -> Option<Seq<Seq<char>>> {
    match value {
        Doc::List(entries) => flatten_from(entries@, seq![]),
        _ => match as_text_spec(value) {
            None => None,
            Some(t) => Some(push_codes(seq![], t)),
        },
    }
}

fn split_commas(text: &str) -> (r: Vec<String>)
    ensures
        strings_view(r@) == comma_pieces(text@),
{
    let v = chars_of(text);
    let mut out: Vec<String> = Vec::new();
    let mut cur = String::new();
    let mut i: usize = 0;
    assert(v@.subrange(0, 0) =~= Seq::<char>::empty());
    while i < v.len()
        invariant
            0 <= i <= v@.len(),
            v@ == text@,
            comma_pieces(v@.subrange(0, i as int)) == strings_view(out@).push(cur@),
        decreases v.len() - i,
    {
        let c = v[i];
        let ghost before = strings_view(out@);
        let ghost s = v@.subrange(0, i + 1);
        assert(s.drop_last() =~= v@.subrange(0, i as int));
        if c == ',' {
            let piece = cur;
            out.push(piece);
            cur = String::new();
            assert(strings_view(out@) =~= before.push(piece@));
        } else {
            push_char(&mut cur, c);
            assert(strings_view(out@).push(cur@) =~= comma_pieces(s));
        }
        i += 1;
    }
    assert(v@.subrange(0, v@.len() as int) =~= v@);
    let ghost before = strings_view(out@);
    let last = cur;
    out.push(last);
    assert(strings_view(out@) =~= before.push(last@));
    out
}

fn push_codes_into(out: &mut Vec<String>, text: &str)
    ensures
        strings_view(final(out)@) == push_codes(strings_view(old(out)@), text@),
{
    let pieces = split_commas(text);
    let ghost all = comma_pieces(text@).map_values(|p: Seq<char>| trim(p));
    let ghost nonblank = |p: Seq<char>| p.len() > 0;
    let ghost start = strings_view(out@);
    let mut i: usize = 0;
    assert(all.subrange(0, 0).filter(nonblank) =~= Seq::<Seq<char>>::empty());
    while i < pieces.len()
        invariant
            0 <= i <= pieces@.len(),
            strings_view(pieces@) == comma_pieces(text@),
            all == comma_pieces(text@).map_values(|p: Seq<char>| trim(p)),
            nonblank == (|p: Seq<char>| p.len() > 0),
            all.len() == pieces@.len(),
            strings_view(out@) == add_new(start, all.subrange(0, i as int).filter(nonblank)),
        decreases pieces.len() - i,
    {
        let part = trim_string(pieces[i].as_str());
        let ghost prev = all.subrange(0, i as int);
        let ghost next = all.subrange(0, i + 1);
        proof {
            assert(strings_view(pieces@)[i as int] == pieces@[i as int]@);
            assert(all[i as int] == trim(comma_pieces(text@)[i as int]));
            assert(next =~= prev.push(part@));
            prev.lemma_filter_push(part@, nonblank);
        }
        if part.as_str().unicode_len() > 0 {
            let ghost before = strings_view(out@);
            push_new(out, &part);
            proof {
                assert(prev.filter(nonblank).push(part@) =~= prev.filter(nonblank) + seq![part@]);
                lemma_add_new_concat(start, prev.filter(nonblank), seq![part@]);
            }
        }
        i += 1;
    }
    assert(all.subrange(0, pieces@.len() as int) =~= all);
}

fn flatten_codes(value: &Doc) -> (r: Option<Vec<String>>)
    ensures
        match r {
            Some(v) => flatten_spec(*value) == Some(strings_view(v@)),
            None => flatten_spec(*value) is None,
        },
{
    let mut out: Vec<String> = Vec::new();
    assert(strings_view(out@) =~= Seq::<Seq<char>>::empty());
    match value {
        Doc::List(entries) => {
            assert(entries@.subrange(0, entries@.len() as int) =~= entries@);
            let mut i: usize = 0;
            while i < entries.len()
                invariant
                    0 <= i <= entries@.len(),
                    *value == Doc::List(*entries),
                    flatten_spec(*value) == flatten_from(
                        entries@.subrange(i as int, entries@.len() as int),
                        strings_view(out@),
                    ),
                decreases entries.len() - i,
            {
                let ghost rest = entries@.subrange(i as int, entries@.len() as int);
                assert(rest.drop_first() =~= entries@.subrange(i + 1, entries@.len() as int));
                assert(rest[0] == entries@[i as int]);
                match as_text(&entries[i]) {
                    None => return None,
                    Some(t) => push_codes_into(&mut out, t.as_str()),
                }
                i += 1;
            }
            assert(entries@.subrange(entries@.len() as int, entries@.len() as int)
                =~= Seq::<Doc>::empty());
            Some(out)
        },
        _ => match as_text(value) {
            None => None,
            Some(t) => {
                push_codes_into(&mut out, t.as_str());
                Some(out)
            },
        },
    }
}

pub open spec fn expects_message(name: Seq<char>, what: Seq<char>) -> Seq<char> {
    "`"@ + name + "` "@ + what
}

/// The operand a condition compares against, or why the value does not fit
/// the attribute.
pub open spec fn operand_spec(attribute: Attribute, modifier: Modifier, value: Doc) -> Result<
    OperandV,
    Seq<char>,
> {
    let name = attribute_text(attribute);
    match kind_of(attribute) {
        Kind::Codes | Kind::List => match flatten_spec(value) {
            None => Err(expects_message(name, "expects a string or a list of strings"@)),
            Some(codes) => if codes.len() == 0 {
                Err(expects_message(name, "has no values"@))
            } else {
                Ok(OperandV::Codes(codes))
            },
        },
        Kind::Number => match as_number_spec(value) {
            None => Err(expects_message(name, "expects a single whole number"@)),
            Some(n) => Ok(OperandV::Number(n)),
        },
        Kind::Date => match as_text_spec(value) {
            None => Err(expects_message(name, "expects a date as `YYYY-MM-DD`"@)),
            Some(text) => match calendar_date(text) {
                None => Err("`"@ + text + "` is not a date in `YYYY-MM-DD` form"@),
                Some(d) => Ok(OperandV::Date(d)),
            },
        },
        Kind::Text => match as_text_spec(value) {
            None => Err(expects_message(name, "expects a single string"@)),
            Some(text) => if modifier == Modifier::Regex {
                match regex_build_error(text) {
                    Some(e) => Err("invalid regex `"@ + text + "`: "@ + e),
                    None => Ok(OperandV::Pattern(text)),
                }
            } else {
                Ok(OperandV::Text(unicode_lower(text)))
            },
        },
    }
}

fn expects(name: &str, what: &str) -> (r: String)
    ensures
        r@ == expects_message(name@, what@),
{
    let mut m = from_str("`");
    push_str(&mut m, name);
    push_str(&mut m, "` ");
    push_str(&mut m, what);
    m
}

fn parse_operand(attribute: Attribute, modifier: Modifier, value: &Doc) -> (r: Result<
    Operand,
    String,
>)
    ensures
        match (r, operand_spec(attribute, modifier, *value)) {
            (Ok(o), Ok(m)) => o@ == m,
            (Err(e), Err(m)) => e@ == m,
            _ => false,
        },
{
    let name = attribute.as_str();
    match attribute.kind() {
        Kind::Codes | Kind::List => match flatten_codes(value) {
            None => Err(expects(name, "expects a string or a list of strings")),
            Some(codes) => {
                if codes.len() == 0 {
                    Err(expects(name, "has no values"))
                } else {
                    Ok(Operand::Codes(codes))
                }
            },
        },
        Kind::Number => match as_number(value) {
            None => Err(expects(name, "expects a single whole number")),
            Some(n) => Ok(Operand::Number(n)),
        },
        Kind::Date => match as_text(value) {
            None => Err(expects(name, "expects a date as `YYYY-MM-DD`")),
            Some(text) => match parse_date(text.as_str()) {
                None => {
                    let mut m = from_str("`");
                    push_str(&mut m, text.as_str());
                    push_str(&mut m, "` is not a date in `YYYY-MM-DD` form");
                    Err(m)
                },
                Some(d) => Ok(Operand::Date(d)),
            },
        },
        Kind::Text => match as_text(value) {
            None => Err(expects(name, "expects a single string")),
            Some(text) => {
                if modifier == Modifier::Regex {
                    match build_pattern(text.as_str()) {
                        Ok(p) => Ok(Operand::Pattern(p)),
                        Err(e) => {
                            let mut m = from_str("invalid regex `");
                            push_str(&mut m, text.as_str());
                            push_str(&mut m, "`: ");
                            push_str(&mut m, e.as_str());
                            Err(m)
                        },
                    }
                } else {
                    Ok(Operand::Text(to_lowercase(text.as_str())))
                }
            },
        },
    }
}

// ---------------------------------------------------------------------------
// Conditions
// ---------------------------------------------------------------------------

#[derive(Debug)]
pub struct Condition {
    pub attribute: Attribute,
    pub modifier: Modifier,
    operand: Operand,
}

pub struct ConditionV {
    pub attribute: Attribute,
    pub modifier: Modifier,
    pub operand: OperandV,
}

impl View for Condition {
    type V = ConditionV;

    closed spec fn view(&self) -> ConditionV {
        ConditionV { attribute: self.attribute, modifier: self.modifier, operand: self.operand@ }
    }
}

pub open spec fn unknown_attribute_message(name: Seq<char>) -> Seq<char> {
    "unknown filter attribute `"@ + name + "` (known: "@ + join(known_names_spec(), ", "@) + ")"@
}

pub open spec fn unknown_modifier_message(suffix: Seq<char>, a: Attribute) -> Seq<char> {
    "unknown modifier `."@ + suffix + "` on `"@ + attribute_text(a) + "`"@
}

pub open spec fn dotted(m: Modifier) -> Seq<char> {
    "."@ + modifier_text(m)
}

pub open spec fn not_applicable_message(m: Modifier, a: Attribute) -> Seq<char> {
    "`."@ + modifier_text(m) + "` does not apply to `"@ + attribute_text(a) + "` (allowed: "@
        + join(allowed_spec(kind_of(a)).map_values(|x: Modifier| dotted(x)), ", "@) + ")"@
}

/// The key split at its first `.`: the attribute name, and the modifier
/// suffix if there is one.
pub open spec fn key_parts(key: Seq<char>) -> (Seq<char>, Option<Seq<char>>) {
    match first_index_of(key, '.') {
        Some(i) => (key.subrange(0, i), Some(key.subrange(i + 1, key.len() as int))),
        None => (key, None),
    }
}

/// What one `attribute[.modifier]: value` entry means, or the sentence that
/// says why it means nothing.
pub open spec fn condition_spec(key: Seq<char>, value: Doc) -> Result<ConditionV, Seq<char>> {
    let (name, suffix) = key_parts(key);
    match attribute_word(keyword(name)) {
        None => Err(unknown_attribute_message(name)),
        Some(a) => {
            let m = match suffix {
                None => Some(default_modifier_spec(kind_of(a))),
                Some(s) => modifier_word(keyword(s)),
            };
            match m {
                None => Err(unknown_modifier_message(suffix->0, a)),
                Some(m) => if !allowed_spec(kind_of(a)).contains(m) {
                    Err(not_applicable_message(m, a))
                } else {
                    match operand_spec(a, m, value) {
                        Err(e) => Err(e),
                        Ok(o) => Ok(ConditionV { attribute: a, modifier: m, operand: o }),
                    }
                },
            }
        },
    }
}

/// Whether some code the item carries equals `want`, ignoring ASCII case.
pub open spec fn carries(actual: Seq<Seq<char>>, want: Seq<char>) -> bool {
    exists|j: int| 0 <= j < actual.len() && ascii_lower(#[trigger] actual[j]) == ascii_lower(want)
}

pub open spec fn any_carried(wanted: Seq<Seq<char>>, actual: Seq<Seq<char>>) -> bool {
    exists|i: int| 0 <= i < wanted.len() && carries(actual, #[trigger] wanted[i])
}

pub open spec fn all_carried(wanted: Seq<Seq<char>>, actual: Seq<Seq<char>>) -> bool {
    forall|i: int| 0 <= i < wanted.len() ==> carries(actual, #[trigger] wanted[i])
}

/// Whether a condition holds of an item. An unknown attribute is answered by
/// the policy, never by negation.
pub open spec fn holds(c: ConditionV, item: ItemView, unknown: UnknownPolicy) -> bool {
    match reading_of(c.attribute, item) {
        None => unknown == UnknownPolicy::Include,
        Some(reading) => match (c.operand, reading) {
            (OperandV::Codes(wanted), ReadingV::Codes(actual)) => match c.modifier {
                Modifier::Not => !any_carried(wanted, actual),
                Modifier::All => all_carried(wanted, actual),
                _ => any_carried(wanted, actual),
            },
            (OperandV::Number(wanted), ReadingV::Number(actual)) => match c.modifier {
                Modifier::Not => actual != wanted,
                Modifier::Gt => actual > wanted,
                Modifier::Gte => actual >= wanted,
                Modifier::Lt => actual < wanted,
                Modifier::Lte => actual <= wanted,
                _ => actual == wanted,
            },
            (OperandV::Date(wanted), ReadingV::Date(actual)) => match c.modifier {
                Modifier::Before => date_lt(actual, wanted),
                _ => date_lt(wanted, actual),
            },
            (OperandV::Text(wanted), ReadingV::Text(actual)) => {
                let lowered = unicode_lower(actual);
                match c.modifier {
                    Modifier::Not => !contains_text(lowered, wanted),
                    Modifier::Begins => starts_with(lowered, wanted),
                    Modifier::Ends => ends_with(lowered, wanted),
                    _ => contains_text(lowered, wanted),
                }
            },
            (OperandV::Pattern(p), ReadingV::Text(actual)) => regex_finds(p, actual),
            _ => false,
        },
    }
}

fn carries_code(actual: &Vec<String>, want: &String) -> (r: bool)
    ensures
        r == carries(strings_view(actual@), want@),
{
    let mut j: usize = 0;
    while j < actual.len()
        invariant
            0 <= j <= actual@.len(),
            forall|k: int|
                0 <= k < j ==> ascii_lower(#[trigger] strings_view(actual@)[k]) != ascii_lower(
                    want@,
                ),
        decreases actual.len() - j,
    {
        if eq_ignore_ascii_case(actual[j].as_str(), want.as_str()) {
            assert(strings_view(actual@)[j as int] == actual@[j as int]@);
            return true;
        }
        assert(strings_view(actual@)[j as int] == actual@[j as int]@);
        j += 1;
    }
    false
}

fn any_code(wanted: &Vec<String>, actual: &Vec<String>) -> (r: bool)
    ensures
        r == any_carried(strings_view(wanted@), strings_view(actual@)),
{
    let mut i: usize = 0;
    while i < wanted.len()
        invariant
            0 <= i <= wanted@.len(),
            forall|k: int|
                0 <= k < i ==> !carries(strings_view(actual@), #[trigger] strings_view(wanted@)[k]),
        decreases wanted.len() - i,
    {
        assert(strings_view(wanted@)[i as int] == wanted@[i as int]@);
        if carries_code(actual, &wanted[i]) {
            return true;
        }
        i += 1;
    }
    false
}

fn all_codes(wanted: &Vec<String>, actual: &Vec<String>) -> (r: bool)
    ensures
        r == all_carried(strings_view(wanted@), strings_view(actual@)),
{
    let mut i: usize = 0;
    while i < wanted.len()
        invariant
            0 <= i <= wanted@.len(),
            forall|k: int|
                0 <= k < i ==> carries(strings_view(actual@), #[trigger] strings_view(wanted@)[k]),
        decreases wanted.len() - i,
    {
        assert(strings_view(wanted@)[i as int] == wanted@[i as int]@);
        if !carries_code(actual, &wanted[i]) {
            return false;
        }
        i += 1;
    }
    true
}

impl Condition {
    /// Parse one `attribute[.modifier]: value` entry. The error is a plain
    /// sentence; the caller prefixes it with the filter name.
    pub fn parse(key: &str, value: &Doc) -> (r: Result<Condition, String>)
        ensures
            match (r, condition_spec(key@, *value)) {
                (Ok(c), Ok(m)) => c@ == m,
                (Err(e), Err(m)) => e@ == m,
                _ => false,
            },
    {
        let v = chars_of(key);
        let n = v.len();
        let (name, suffix) = match find_char(&v, '.') {
            Some(i) => (string_of_range(&v, 0, i), Some(string_of_range(&v, i + 1, n))),
            None => (from_str(key), None),
        };
        let attribute = match Attribute::parse(name.as_str()) {
            Some(a) => a,
            None => {
                let known = known_attribute_names();
                let mut m = from_str("unknown filter attribute `");
                push_str(&mut m, name.as_str());
                push_str(&mut m, "` (known: ");
                let joined = join_strs(&known, ", ");
                push_str(&mut m, joined.as_str());
                push_str(&mut m, ")");
                return Err(m);
            },
        };
        let kind = attribute.kind();
        let modifier = match &suffix {
            None => default_modifier(kind),
            Some(s) => match Modifier::parse(s.as_str()) {
                Some(m) => m,
                None => {
                    let mut m = from_str("unknown modifier `.");
                    push_str(&mut m, s.as_str());
                    push_str(&mut m, "` on `");
                    push_str(&mut m, attribute.as_str());
                    push_str(&mut m, "`");
                    return Err(m);
                },
            },
        };
        let allowed = Modifier::allowed_for(kind);
        let mut found = false;
        let mut k: usize = 0;
        while k < allowed.len()
            invariant
                0 <= k <= allowed@.len(),
                found == exists|j: int| 0 <= j < k && allowed@[j] == modifier,
            decreases allowed.len() - k,
        {
            if allowed[k] == modifier {
                found = true;
            }
            k += 1;
        }
        if !found {
            let mut listed: Vec<String> = Vec::new();
            let mut j: usize = 0;
            while j < allowed.len()
                invariant
                    0 <= j <= allowed@.len(),
                    strings_view(listed@) == allowed@.subrange(0, j as int).map_values(
                        |x: Modifier| dotted(x),
                    ),
                decreases allowed.len() - j,
            {
                let mut d = from_str(".");
                push_str(&mut d, allowed[j].as_str());
                let ghost before = strings_view(listed@);
                assert(d@ == dotted(allowed@[j as int]));
                listed.push(d);
                assert(strings_view(listed@) =~= before.push(dotted(allowed@[j as int])));
                assert(strings_view(listed@) =~= allowed@.subrange(0, j + 1).map_values(
                    |x: Modifier| dotted(x),
                ));
                j += 1;
            }
            assert(allowed@.subrange(0, allowed@.len() as int) =~= allowed@);
            let mut m = from_str("`.");
            push_str(&mut m, modifier.as_str());
            push_str(&mut m, "` does not apply to `");
            push_str(&mut m, attribute.as_str());
            push_str(&mut m, "` (allowed: ");
            let joined = join_strings(&listed, ", ");
            push_str(&mut m, joined.as_str());
            push_str(&mut m, ")");
            return Err(m);
        }
        let operand = match parse_operand(attribute, modifier, value) {
            Ok(o) => o,
            Err(e) => return Err(e),
        };
        Ok(Condition { attribute, modifier, operand })
    }

    pub fn matches(&self, item: &Item, unknown: UnknownPolicy) -> (r: bool)
        ensures
            r == holds(self@, item@, unknown),
    {
        // "Not known" is answered by the policy, never by negation: an item of
        // unknown country fails `country.not: us` just as it fails
        // `country: us`, because we cannot show either way.
        let reading = match self.attribute.read(item) {
            Some(r) => r,
            None => return unknown.allows(),
        };
        match (&self.operand, &reading) {
            (Operand::Codes(wanted), Reading::Codes(actual)) => match self.modifier {
                Modifier::Not => !any_code(wanted, actual),
                Modifier::All => all_codes(wanted, actual),
                _ => any_code(wanted, actual),
            },
            (Operand::Number(wanted), Reading::Number(actual)) => match self.modifier {
                Modifier::Not => *actual != *wanted,
                Modifier::Gt => *actual > *wanted,
                Modifier::Gte => *actual >= *wanted,
                Modifier::Lt => *actual < *wanted,
                Modifier::Lte => *actual <= *wanted,
                _ => *actual == *wanted,
            },
            (Operand::Date(wanted), Reading::Date(actual)) => match self.modifier {
                Modifier::Before => date_before(*actual, *wanted),
                _ => date_before(*wanted, *actual),
            },
            (Operand::Text(wanted), Reading::Text(actual)) => {
                let lowered = to_lowercase(actual.as_str());
                match self.modifier {
                    Modifier::Not => !str_contains(lowered.as_str(), wanted.as_str()),
                    Modifier::Begins => str_starts_with(lowered.as_str(), wanted.as_str()),
                    Modifier::Ends => str_ends_with(lowered.as_str(), wanted.as_str()),
                    _ => str_contains(lowered.as_str(), wanted.as_str()),
                }
            },
            (Operand::Pattern(pattern), Reading::Text(actual)) => pattern.is_match(actual.as_str()),
            // Attribute kind and operand kind are paired at parse time.
            _ => false,
        }
    }

    pub fn duplicate(&self) -> (r: Condition)
        ensures
            r@ == self@,
    {
        let operand = match &self.operand {
            Operand::Codes(c) => Operand::Codes(crate::model::clone_strings(c)),
            Operand::Number(n) => Operand::Number(*n),
            Operand::Date(d) => Operand::Date(*d),
            Operand::Text(t) => Operand::Text(clone_string(t)),
            Operand::Pattern(p) => Operand::Pattern(p.duplicate()),
        };
        Condition { attribute: self.attribute, modifier: self.modifier, operand }
    }
}

// ---------------------------------------------------------------------------
// Filter blocks
// ---------------------------------------------------------------------------

/// A named block of conditions, all of which must hold.
#[derive(Debug)]
pub struct FilterDef {
    pub name: String,
    pub conditions: Vec<Condition>,
    pub unknown: UnknownPolicy,
}

pub open spec fn conditions_view(cs: Seq<Condition>) -> Seq<ConditionV> {
    cs.map_values(|c: Condition| c@)
}

/// Whether every condition of a block holds of an item.
pub open spec fn block_holds(cs: Seq<ConditionV>, item: ItemView, unknown: UnknownPolicy) -> bool {
    forall|i: int| 0 <= i < cs.len() ==> holds(#[trigger] cs[i], item, unknown)
}

impl FilterDef {
    pub fn matches(&self, item: &Item) -> (r: bool)
        ensures
            r == block_holds(conditions_view(self.conditions@), item@, self.unknown),
    {
        let mut i: usize = 0;
        while i < self.conditions.len()
            invariant
                0 <= i <= self.conditions@.len(),
                forall|k: int|
                    0 <= k < i ==> holds(
                        #[trigger] conditions_view(self.conditions@)[k],
                        item@,
                        self.unknown,
                    ),
            decreases self.conditions.len() - i,
        {
            assert(conditions_view(self.conditions@)[i as int] == self.conditions@[i as int]@);
            if !self.conditions[i].matches(item, self.unknown) {
                return false;
            }
            i += 1;
        }
        true
    }

    /// Every attribute this filter reads, for scoping metadata enrichment.
    pub fn attributes(&self) -> (r: Vec<Attribute>)
        ensures
            r@ == self.conditions@.map_values(|c: Condition| c@.attribute),
    {
        let mut out: Vec<Attribute> = Vec::new();
        let mut i: usize = 0;
        while i < self.conditions.len()
            invariant
                0 <= i <= self.conditions@.len(),
                out@ == self.conditions@.subrange(0, i as int).map_values(
                    |c: Condition| c@.attribute,
                ),
            decreases self.conditions.len() - i,
        {
            out.push(self.conditions[i].attribute);
            assert(out@ =~= self.conditions@.subrange(0, i + 1).map_values(
                |c: Condition| c@.attribute,
            ));
            i += 1;
        }
        assert(self.conditions@.subrange(0, self.conditions@.len() as int) =~= self.conditions@);
        out
    }

    pub fn duplicate(&self) -> (r: FilterDef)
        ensures
            r.name@ == self.name@,
            r.unknown == self.unknown,
            conditions_view(r.conditions@) == conditions_view(self.conditions@),
    {
        let mut out: Vec<Condition> = Vec::new();
        let mut i: usize = 0;
        while i < self.conditions.len()
            invariant
                0 <= i <= self.conditions@.len(),
                conditions_view(out@) == conditions_view(self.conditions@.subrange(0, i as int)),
            decreases self.conditions.len() - i,
        {
            let ghost before = conditions_view(out@);
            let c = self.conditions[i].duplicate();
            out.push(c);
            assert(conditions_view(out@) =~= before.push(self.conditions@[i as int]@));
            assert(conditions_view(out@) =~= conditions_view(
                self.conditions@.subrange(0, i + 1),
            ));
            i += 1;
        }
        assert(self.conditions@.subrange(0, self.conditions@.len() as int) =~= self.conditions@);
        FilterDef { name: clone_string(&self.name), conditions: out, unknown: self.unknown }
    }
}

/// A number condition holds of an item whose attribute reads as the number
/// `v` exactly as its modifier compares `v` with the wanted number `n`:
/// `.lt` when v < n, `.lte` when v <= n, `.gt` when v > n, `.gte` when
/// v >= n, `.not` when they differ, and with no modifier when they are equal.
pub proof fn lemma_number_condition(c: ConditionV, item: ItemView, unknown: UnknownPolicy, v: i64, n: i64)
    requires
        c.operand == OperandV::Number(n),
        reading_of(c.attribute, item) == Some(ReadingV::Number(v)),
    ensures
        c.modifier == Modifier::Lt ==> (holds(c, item, unknown) <==> v < n),
        c.modifier == Modifier::Lte ==> (holds(c, item, unknown) <==> v <= n),
        c.modifier == Modifier::Gt ==> (holds(c, item, unknown) <==> v > n),
        c.modifier == Modifier::Gte ==> (holds(c, item, unknown) <==> v >= n),
        c.modifier == Modifier::Not ==> (holds(c, item, unknown) <==> v != n),
        c.modifier == Modifier::Is ==> (holds(c, item, unknown) <==> v == n),
{
}

/// A runtime condition compares the item's runtime, in minutes, with the
/// wanted number as its modifier says; an item whose runtime is unknown is
/// answered by the policy alone.
pub proof fn lemma_runtime_condition(c: ConditionV, item: ItemView, unknown: UnknownPolicy, n: i64)
    requires
        c.attribute == Attribute::Runtime,
        c.operand == OperandV::Number(n),
    ensures
        item.attrs.runtime matches Some(m) ==> {
            &&& c.modifier == Modifier::Lt ==> (holds(c, item, unknown) <==> (m as int) < n)
            &&& c.modifier == Modifier::Lte ==> (holds(c, item, unknown) <==> (m as int) <= n)
            &&& c.modifier == Modifier::Gt ==> (holds(c, item, unknown) <==> (m as int) > n)
            &&& c.modifier == Modifier::Gte ==> (holds(c, item, unknown) <==> (m as int) >= n)
        },
        item.attrs.runtime is None ==> (holds(c, item, unknown) <==> unknown == UnknownPolicy::Include),
{
}

/// A year condition compares the item's year (its own, else its release
/// date's) with the wanted number as its modifier says; an item with no
/// year is answered by the policy alone.
pub proof fn lemma_year_condition(c: ConditionV, item: ItemView, unknown: UnknownPolicy, n: i64)
    requires
        c.attribute == Attribute::Year,
        c.operand == OperandV::Number(n),
    ensures
        item.effective_year() matches Some(y) ==> {
            &&& c.modifier == Modifier::Lt ==> (holds(c, item, unknown) <==> (y as int) < n)
            &&& c.modifier == Modifier::Lte ==> (holds(c, item, unknown) <==> (y as int) <= n)
            &&& c.modifier == Modifier::Gt ==> (holds(c, item, unknown) <==> (y as int) > n)
            &&& c.modifier == Modifier::Gte ==> (holds(c, item, unknown) <==> (y as int) >= n)
        },
        item.effective_year() is None ==> (holds(c, item, unknown) <==> unknown == UnknownPolicy::Include),
{
}

} // verus!
