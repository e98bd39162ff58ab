//! The shape of `config.yml`, and how a parsed document becomes one.
//!
//! Every block rejects keys it does not know, so a typo is reported instead of
//! silently doing nothing. Source blocks collect their unknown keys instead,
//! and the compiler reports them together with every other problem.

use vstd::prelude::*;

use crate::doc::{lookup, Doc};
use crate::filter::cond::{Condition, FilterDef, UnknownPolicy};
use crate::model::{calendar_date, parse_date, strings_view, Date, MediaType};
use crate::text::{clone_string, from_str, push_str, str_eq};

verus! {

// ---------------------------------------------------------------------------
// Durations
// ---------------------------------------------------------------------------

/// A length of time, as `std::time::Duration` holds it.
#[derive(Debug, Clone, Copy, PartialEq, Eq, Structural)]
pub struct Span {
    pub secs: u64,
    pub nanos: u32,
}

impl Span {
    pub fn from_secs(secs: u64) -> (r: Span)
        ensures
            r == (Span { secs, nanos: 0 }),
    {
        Span { secs, nanos: 0 }
    }
}

/// What `humantime::parse_duration` makes of a text such as `12h` or `30d`.
pub uninterp spec fn humantime_span(text: Seq<char>) -> Option<Span>;

pub open spec fn is_digit(c: char) -> bool {
    '0' <= c <= '9'
}

/// Whether a duration text is small enough to read safely: at most eleven
/// digits in all. Every number in it is then below 10^11 and there are at
/// most eleven of them, so the seconds it spells stay far below `u64::MAX`
/// - the one place where `humantime` panics rather than reporting an
/// overflow.
pub open spec fn span_text_bounded(t: Seq<char>) -> bool {
    t.filter(|c: char| is_digit(c)).len() <= 11
}

/// The span a duration text spells; a text too large to read safely spells
/// none.
pub open spec fn duration_of(t: Seq<char>) -> Option<Span> {
    if span_text_bounded(t) {
        humantime_span(t)
    } else {
        None
    }
}

fn bounded_span_text(text: &str) -> (r: bool)
    ensures
        r == span_text_bounded(text@),
{
    let v = crate::text::chars_of(text);
    let ghost digit = |c: char| is_digit(c);
    let mut count: usize = 0;
    let mut i: usize = 0;
    assert(v@.take(0).filter(digit) =~= Seq::<char>::empty());
    while i < v.len()
        invariant
            v@ == text@,
            0 <= i <= v@.len(),
            count == v@.take(i as int).filter(digit).len(),
            count <= 11,
            forall|c: char| #[trigger] digit(c) == is_digit(c),
        decreases v.len() - i,
    {
        let c = v[i];
        assert(v@.take(i + 1) =~= v@.take(i as int).push(c));
        proof {
            v@.take(i as int).lemma_filter_push(c, digit);
        }
        if '0' <= c && c <= '9' {
            if count == 11 {
                proof {
                    assert(v@.take(i + 1).filter(digit).len() == 12);
                    lemma_filter_prefix_len(v@, i + 1, digit);
                    assert(digit =~= (|c: char| is_digit(c)));
                    assert(!span_text_bounded(text@));
                }
                return false;
            }
            count = count + 1;
        }
        i = i + 1;
    }
    assert(v@.take(v@.len() as int) =~= v@);
    true
}

/// A prefix keeps no more of a filter than the whole.
proof fn lemma_filter_prefix_len(s: Seq<char>, n: int, f: spec_fn(char) -> bool)
    requires
        0 <= n <= s.len(),
    ensures
        s.take(n).filter(f).len() <= s.filter(f).len(),
    decreases s.len() - n,
{
    if n < s.len() {
        assert(s.take(n + 1) =~= s.take(n).push(s[n]));
        s.take(n).lemma_filter_push(s[n], f);
        lemma_filter_prefix_len(s, n + 1, f);
    } else {
        assert(s.take(n) =~= s);
    }
}

/// `humantime::parse_duration`, on a text small enough that it cannot
/// panic (`span_text_bounded`). Claimed: the outcome is a function of the
/// text, and the nanosecond part of a duration is below one second.
#[verifier::external_body]
fn parse_span(text: &str) -> (r: Option<Span>)
    requires
        span_text_bounded(text@),
    ensures
        r == humantime_span(text@),
        r matches Some(s) ==> s.nanos < 1_000_000_000,
{
    match humantime::parse_duration(text) {
        Ok(d) => Some(Span { secs: d.as_secs(), nanos: d.subsec_nanos() }),
        Err(_) => None,
    }
}

// ---------------------------------------------------------------------------
// Field decoders
// ---------------------------------------------------------------------------

/// The message for a value of the wrong shape.
pub open spec fn type_error(field: Seq<char>, what: Seq<char>) -> Seq<char> {
    "invalid type for `"@ + field + "`, expected "@ + what
}

fn type_err(field: &str, what: &str) -> (r: String)
    ensures
        r@ == type_error(field@, what@),
{
    let mut m = from_str("invalid type for `");
    push_str(&mut m, field);
    push_str(&mut m, "`, expected ");
    push_str(&mut m, what);
    m
}

pub open spec fn missing_error(field: Seq<char>) -> Seq<char> {
    "missing field `"@ + field + "`"@
}

fn missing_err(field: &str) -> (r: String)
    ensures
        r@ == missing_error(field@),
{
    let mut m = from_str("missing field `");
    push_str(&mut m, field);
    push_str(&mut m, "`");
    m
}

pub open spec fn text_value(d: Doc) -> Option<Seq<char>> {
    match d {
        Doc::Text(s) => Some(s@),
        _ => None,
    }
}

fn text_of(field: &str, d: &Doc) -> (r: Result<String, String>)
    ensures
        match r {
            Ok(s) => text_value(*d) == Some(s@),
            Err(e) => text_value(*d) is None && e@ == type_error(field@, "a string"@),
        },
{
    match d {
        Doc::Text(s) => Ok(clone_string(s)),
        _ => Err(type_err(field, "a string")),
    }
}

/// An optional text field: absent or null means `None`.
fn opt_text(field: &str, d: Option<&Doc>) -> (r: Result<Option<String>, String>)
    ensures
        match d {
            None => r matches Ok(None),
            Some(v) => match (v, r) {
                (Doc::Null, Ok(None)) => true,
                (Doc::Text(s), Ok(Some(t))) => t@ == s@,
                (Doc::Null, _) => false,
                (Doc::Text(_), _) => false,
                (_, Err(e)) => e@ == type_error(field@, "a string"@),
                _ => false,
            },
        },
{
    match d {
        None => Ok(None),
        Some(Doc::Null) => Ok(None),
        Some(v) => match text_of(field, v) {
            Ok(s) => Ok(Some(s)),
            Err(e) => Err(e),
        },
    }
}

pub open spec fn bool_value(d: Doc) -> Option<bool> {
    match d {
        Doc::Bool(b) => Some(b),
        _ => None,
    }
}

fn opt_bool(field: &str, d: Option<&Doc>, default: bool) -> (r: Result<bool, String>)
    ensures
        match d {
            None => r == Ok::<bool, String>(default),
            Some(v) => match (bool_value(*v), r) {
                (Some(b), Ok(x)) => x == b,
                (None, Err(e)) => e@ == type_error(field@, "a boolean"@),
                _ => false,
            },
        },
{
    match d {
        None => Ok(default),
        Some(Doc::Bool(b)) => Ok(*b),
        Some(_) => Err(type_err(field, "a boolean")),
    }
}

/// A whole number within `lo..=hi`.
pub open spec fn int_value(d: Doc, lo: int, hi: int) -> Option<int> {
    match d {
        Doc::Number(n) => match (n.signed, n.unsigned) {
            (Some(v), _) => if lo <= v <= hi {
                Some(v as int)
            } else {
                None
            },
            (None, Some(v)) => if lo <= v <= hi {
                Some(v as int)
            } else {
                None
            },
            _ => None,
        },
        _ => None,
    }
}

fn int_of(field: &str, d: &Doc, lo: i128, hi: i128, what: &str) -> (r: Result<i128, String>)
    ensures
        match (int_value(*d, lo as int, hi as int), r) {
            (Some(v), Ok(x)) => x == v,
            (None, Err(e)) => e@ == type_error(field@, what@),
            _ => false,
        },
{
    match d {
        Doc::Number(n) => {
            let v: Option<i128> = match n.signed {
                Some(s) => Some(s as i128),
                None => match n.unsigned {
                    Some(u) => Some(u as i128),
                    None => None,
                },
            };
            match v {
                Some(x) => {
                    if lo <= x && x <= hi {
                        Ok(x)
                    } else {
                        Err(type_err(field, what))
                    }
                },
                None => Err(type_err(field, what)),
            }
        },
        _ => Err(type_err(field, what)),
    }
}

fn opt_u16(field: &str, d: Option<&Doc>, default: u16) -> (r: Result<u16, String>)
    ensures
        match d {
            None => r == Ok::<u16, String>(default),
            Some(v) => match (int_value(*v, 0, 65535), r) {
                (Some(x), Ok(y)) => y == x,
                (None, Err(e)) => e@ == type_error(field@, "an integer in 0..=65535"@),
                _ => false,
            },
        },
{
    match d {
        None => Ok(default),
        Some(v) => match int_of(field, v, 0, 65535, "an integer in 0..=65535") {
            Ok(x) => Ok(x as u16),
            Err(e) => Err(e),
        },
    }
}

/// An optional whole number: absent or null means `None`.
fn opt_int(field: &str, d: Option<&Doc>, lo: i128, hi: i128, what: &str) -> (r: Result<
    Option<i128>,
    String,
>)
    ensures
        match d {
            None => r matches Ok(None),
            Some(v) => match (v, int_value(*v, lo as int, hi as int), r) {
                (Doc::Null, _, Ok(None)) => true,
                (Doc::Null, _, _) => false,
                (_, Some(x), Ok(Some(y))) => y == x,
                (_, None, Err(e)) => e@ == type_error(field@, what@),
                _ => false,
            },
        },
{
    match d {
        None => Ok(None),
        Some(Doc::Null) => Ok(None),
        Some(v) => match int_of(field, v, lo, hi, what) {
            Ok(x) => Ok(Some(x)),
            Err(e) => Err(e),
        },
    }
}

fn opt_date(field: &str, d: Option<&Doc>) -> (r: Result<Option<Date>, String>)
    ensures
        match d {
            None => r matches Ok(None),
            Some(v) => match (v, r) {
                (Doc::Null, Ok(None)) => true,
                (Doc::Null, _) => false,
                (Doc::Text(s), Ok(Some(x))) => calendar_date(s@) == Some(x),
                (Doc::Text(s), Err(e)) => calendar_date(s@) is None && e@ == type_error(
                    field@,
                    "a date as `YYYY-MM-DD`"@,
                ),
                (_, Err(e)) => e@ == type_error(field@, "a date as `YYYY-MM-DD`"@),
                _ => false,
            },
        },
{
    match d {
        None => Ok(None),
        Some(Doc::Null) => Ok(None),
        Some(Doc::Text(s)) => match parse_date(s.as_str()) {
            Some(x) => Ok(Some(x)),
            None => Err(type_err(field, "a date as `YYYY-MM-DD`")),
        },
        Some(_) => Err(type_err(field, "a date as `YYYY-MM-DD`")),
    }
}

fn span_of(field: &str, d: &Doc) -> (r: Result<Span, String>)
    ensures
        match (d, r) {
            (Doc::Text(s), Ok(x)) => duration_of(s@) == Some(x),
            (Doc::Text(s), Err(e)) => duration_of(s@) is None && e@ == type_error(
                field@,
                "a duration such as `12h`"@,
            ),
            (_, Err(e)) => e@ == type_error(field@, "a duration such as `12h`"@),
            _ => false,
        },
{
    match d {
        Doc::Text(s) => {
            if !bounded_span_text(s.as_str()) {
                return Err(type_err(field, "a duration such as `12h`"));
            }
            match parse_span(s.as_str()) {
                Some(x) => Ok(x),
                None => Err(type_err(field, "a duration such as `12h`")),
            }
        },
        _ => Err(type_err(field, "a duration such as `12h`")),
    }
}

/// What a duration field gives: `None` where it is absent, the span it
/// spells, or the error for it.
pub open spec fn span_field(field: Seq<char>, v: Doc) -> Result<Span, Seq<char>> {
    match v {
        Doc::Text(s) => match duration_of(s@) {
            Some(x) => Ok(x),
            None => Err(type_error(field, "a duration such as `12h`"@)),
        },
        _ => Err(type_error(field, "a duration such as `12h`"@)),
    }
}

fn span_or(field: &str, d: Option<&Doc>, default: Span) -> (r: Result<Span, String>)
    ensures
        d is None ==> r == Ok::<Span, String>(default),
        d matches Some(v) ==> match (span_field(field@, *v), r) {
            (Ok(x), Ok(y)) => x == y,
            (Err(m), Err(e)) => e@ == m,
            _ => false,
        },
{
    match d {
        None => Ok(default),
        Some(v) => span_of(field, v),
    }
}

fn opt_span(field: &str, d: Option<&Doc>) -> (r: Result<Option<Span>, String>)
    ensures
        d is None ==> r matches Ok(None),
        d matches Some(Doc::Null) ==> r matches Ok(None),
        d matches Some(v) ==> !(v is Null) ==> match (span_field(field@, *v), r) {
            (Ok(x), Ok(Some(y))) => x == y,
            (Err(m), Err(e)) => e@ == m,
            _ => false,
        },
{
    match d {
        None => Ok(None),
        Some(Doc::Null) => Ok(None),
        Some(v) => match span_of(field, v) {
            Ok(x) => Ok(Some(x)),
            Err(e) => Err(e),
        },
    }
}

/// A list of strings.
fn text_list(field: &str, d: &Doc) -> (r: Result<Vec<String>, String>)
    ensures
        match r {
            Ok(v) => d matches Doc::List(entries) && strings_view(v@).len() == entries@.len()
                && forall|i: int|
                0 <= i < entries@.len() ==> text_value(entries@[i]) == Some(
                    #[trigger] strings_view(v@)[i],
                ),
            Err(_) => true,
        },
        r matches Err(e) ==> (d matches Doc::List(entries) ==> (exists|i: int|
            0 <= i < entries@.len() && #[trigger] text_value(entries@[i]) is None) && e@
            == type_error(field@, "a string"@)),
        r matches Err(e) ==> (!(d is List) ==> e@ == type_error(field@, "a list of strings"@)),
{
    match d {
        Doc::List(entries) => {
            let mut out: Vec<String> = Vec::new();
            let mut i: usize = 0;
            while i < entries.len()
                invariant
                    0 <= i <= entries@.len(),
                    *d == Doc::List(*entries),
                    out@.len() == i,
                    forall|j: int| 0 <= j < i ==> text_value(entries@[j]) == Some(#[trigger] out@[j]@),
                decreases entries.len() - i,
            {
                match text_of(field, &entries[i]) {
                    Ok(s) => out.push(s),
                    Err(e) => {
                        assert(text_value(entries@[i as int]) is None);
                        assert(exists|j: int|
                            0 <= j < entries@.len() && #[trigger] text_value(entries@[j]) is None);
                        assert(e@ == type_error(field@, "a string"@));
                        return Err(e);
                    },
                }
                i += 1;
            }
            proof {
                assert forall|j: int| 0 <= j < entries@.len() implies text_value(entries@[j]) == Some(
                    #[trigger] strings_view(out@)[j],
                ) by {
                    assert(strings_view(out@)[j] == out@[j]@);
                }
            }
            Ok(out)
        },
        _ => Err(type_err(field, "a list of strings")),
    }
}

/// One string or a list of them; absent means none.
fn one_or_many(field: &str, d: Option<&Doc>) -> (r: Result<Vec<String>, String>)
    ensures
        d is None ==> (r matches Ok(v) && v@.len() == 0),
        d matches Some(Doc::Text(s)) ==> (r matches Ok(v) && strings_view(v@) == seq![s@]),
        d matches Some(Doc::List(e)) ==> (r matches Ok(v) ==> v@.len() == e@.len() && forall|i: int|
            0 <= i < e@.len() ==> text_value(e@[i]) == Some(#[trigger] v@[i]@)),
        r is Ok <==> match d {
            None => true,
            Some(v) => v is Text || (v matches Doc::List(e) && all_text(e@)),
        },
{
    match d {
        None => Ok(Vec::new()),
        Some(Doc::Text(s)) => {
            let v = vec![clone_string(s)];
            assert(strings_view(v@) =~= seq![s@]);
            Ok(v)
        },
        Some(v) => {
            let r = text_list(field, v);
            proof {
                if r is Ok {
                    let v2 = r->Ok_0;
                    assert forall|i: int| 0 <= i < v2@.len() implies #[trigger] v2@[i]@ == strings_view(v2@)[i] by {}
                    if let Doc::List(e) = v {
                        assert forall|i: int| 0 <= i < e@.len() implies #[trigger] text_value(e@[i]) is Some by {
                            assert(text_value(e@[i]) == Some(strings_view(v2@)[i]));
                        }
                    }
                } else {
                    if let Doc::List(e) = v {
                        let i = choose|i: int| 0 <= i < e@.len() && #[trigger] text_value(e@[i]) is None;
                        assert(!all_text(e@));
                    }
                }
            }
            r
        },
    }
}

/// The entries of a block, or the error for a value that is not one. A null
/// block stands for an empty one.
fn entries_of<'a>(field: &str, d: &'a Doc, empty: &'a Vec<(Doc, Doc)>) -> (r: Result<
    &'a Vec<(Doc, Doc)>,
    String,
>)
    requires
        empty@.len() == 0,
    ensures
        d matches Doc::Table(e) ==> (r matches Ok(x) && *x == e),
        d is Null ==> (r matches Ok(x) && x@.len() == 0),
        !(d is Table || d is Null) ==> (r matches Err(e) && e@ == type_error(field@, "a mapping"@)),
        r matches Ok(x) ==> x@ == block_entries(*d),
{
    match d {
        Doc::Table(e) => Ok(e),
        Doc::Null => {
            assert(empty@ =~= block_entries(*d));
            Ok(empty)
        },
        _ => Err(type_err(field, "a mapping")),
    }
}

/// Whether a block key is one of the allowed names.
pub open spec fn key_allowed(key: Doc, allowed: Seq<Seq<char>>) -> bool {
    match text_value(key) {
        Some(k) => allowed.contains(k),
        None => false,
    }
}

fn key_text(d: &Doc) -> (r: String)
    ensures
        d matches Doc::Text(s) ==> r@ == s@,
{
    match d {
        Doc::Text(s) => clone_string(s),
        Doc::Number(n) => clone_string(&n.text),
        Doc::Bool(b) => if *b {
            from_str("true")
        } else {
            from_str("false")
        },
        Doc::Null => from_str("~"),
        _ => from_str("<complex key>"),
    }
}

fn is_allowed(key: &Doc, allowed: &Vec<&str>) -> (r: bool)
    ensures
        r == key_allowed(*key, allowed@.map_values(|a: &str| a@)),
{
    match key {
        Doc::Text(k) => {
            let mut i: usize = 0;
            while i < allowed.len()
                invariant
                    0 <= i <= allowed@.len(),
                    *key == Doc::Text(*k),
                    forall|j: int| 0 <= j < i ==> allowed@[j]@ != k@,
                decreases allowed.len() - i,
            {
                if str_eq(allowed[i], k.as_str()) {
                    let ghost names = allowed@.map_values(|a: &str| a@);
                    assert(names[i as int] == k@);
                    assert(names.contains(k@));
                    return true;
                }
                i += 1;
            }
            proof {
                if allowed@.map_values(|a: &str| a@).contains(k@) {
                    let names = allowed@.map_values(|a: &str| a@);
                    let j = choose|j: int| 0 <= j < names.len() && names[j] == k@;
                    assert(allowed@[j]@ == k@);
                }
            }
            false
        },
        _ => false,
    }
}

pub open spec fn unknown_field_message(key: Seq<char>, allowed: Seq<Seq<char>>) -> Seq<char> {
    "unknown field `"@ + key + "`, expected one of "@ + crate::text::join(
        allowed.map_values(|a: Seq<char>| "`"@ + a + "`"@),
        ", "@,
    )
}

/// Reject the first key of a block that is not one of `allowed`.
fn deny_unknown(entries: &Vec<(Doc, Doc)>, allowed: &Vec<&str>) -> (r: Result<(), String>)
    ensures
        r is Ok <==> forall|i: int|
            0 <= i < entries@.len() ==> key_allowed(
                #[trigger] entries@[i].0,
                allowed@.map_values(|a: &str| a@),
            ),
{
    let mut i: usize = 0;
    while i < entries.len()
        invariant
            0 <= i <= entries@.len(),
            forall|j: int|
                0 <= j < i ==> key_allowed(
                    #[trigger] entries@[j].0,
                    allowed@.map_values(|a: &str| a@),
                ),
        decreases entries.len() - i,
    {
        if !is_allowed(&entries[i].0, allowed) {
            let key = key_text(&entries[i].0);
            let mut quoted: Vec<String> = Vec::new();
            let mut j: usize = 0;
            while j < allowed.len()
                invariant
                    0 <= j <= allowed@.len(),
                decreases allowed.len() - j,
            {
                let mut q = from_str("`");
                push_str(&mut q, allowed[j]);
                push_str(&mut q, "`");
                quoted.push(q);
                j += 1;
            }
            let mut m = from_str("unknown field `");
            push_str(&mut m, key.as_str());
            push_str(&mut m, "`, expected one of ");
            let joined = crate::text::join_strings(&quoted, ", ");
            push_str(&mut m, joined.as_str());
            return Err(m);
        }
        i += 1;
    }
    Ok(())
}

/// The entries of a block; a null block has none.
pub open spec fn block_entries(d: Doc) -> Seq<(Doc, Doc)> {
    match d {
        Doc::Table(e) => e@,
        _ => seq![],
    }
}

/// Whether `d` is a block - a mapping, or null for an empty one - whose
/// keys are all among `allowed`.
pub open spec fn block_ok(d: Doc, allowed: Seq<Seq<char>>) -> bool {
    &&& (d is Table || d is Null)
    &&& forall|i: int|
        0 <= i < block_entries(d).len() ==> key_allowed(#[trigger] block_entries(d)[i].0, allowed)
}

/// Whether the field `k` of `d` is absent or a string.
pub open spec fn text_ok(d: Doc, k: Seq<char>) -> bool {
    match lookup(d, k) {
        Some(v) => v is Text,
        None => true,
    }
}

/// Whether the field `k` of `d` is absent or a boolean.
pub open spec fn bool_ok(d: Doc, k: Seq<char>) -> bool {
    match lookup(d, k) {
        Some(v) => v is Bool,
        None => true,
    }
}

/// Whether the field `k` of `d` is absent or a whole number in `lo..=hi`.
pub open spec fn int_ok(d: Doc, k: Seq<char>, lo: int, hi: int) -> bool {
    match lookup(d, k) {
        Some(v) => int_value(v, lo, hi) is Some,
        None => true,
    }
}

/// Whether the field `k` of `d` is absent, null or a whole number in
/// `lo..=hi`.
pub open spec fn opt_int_ok(d: Doc, k: Seq<char>, lo: int, hi: int) -> bool {
    match lookup(d, k) {
        Some(v) => v is Null || int_value(v, lo, hi) is Some,
        None => true,
    }
}

/// Whether the field `k` of `d` is absent or a duration.
pub open spec fn span_ok(d: Doc, k: Seq<char>) -> bool {
    match lookup(d, k) {
        Some(v) => span_field(k, v) is Ok,
        None => true,
    }
}

/// Whether an optional field is absent, null or a string.
pub open spec fn opt_text_ok(d: Doc, k: Seq<char>) -> bool {
    match lookup(d, k) {
        Some(v) => v is Null || v is Text,
        None => true,
    }
}

/// The string an optional field holds.
pub open spec fn opt_text_of(o: Option<Doc>) -> Option<Seq<char>> {
    match o {
        Some(Doc::Text(s)) => Some(s@),
        _ => None,
    }
}

/// A text as a sequence of characters, if there is one.
pub open spec fn opt_chars(o: Option<String>) -> Option<Seq<char>> {
    match o {
        Some(s) => Some(s@),
        None => None,
    }
}

/// The whole number in `lo..=hi` an optional field holds.
pub open spec fn opt_int_of(o: Option<Doc>, lo: int, hi: int) -> Option<int> {
    match o {
        Some(v) => int_value(v, lo, hi),
        None => None,
    }
}

/// Whether an optional duration is absent, null or a duration.
pub open spec fn opt_span_ok(d: Doc, k: Seq<char>) -> bool {
    match lookup(d, k) {
        Some(v) => v is Null || span_field(k, v) is Ok,
        None => true,
    }
}

/// The duration an optional field spells.
pub open spec fn opt_span_of(o: Option<Doc>, k: Seq<char>) -> Option<Span> {
    match o {
        Some(v) => match span_field(k, v) {
            Ok(x) => Some(x),
            Err(_) => None,
        },
        None => None,
    }
}

/// Whether an optional date is absent, null or a `YYYY-MM-DD` date.
pub open spec fn opt_date_ok(d: Doc, k: Seq<char>) -> bool {
    match lookup(d, k) {
        Some(v) => v is Null || (v matches Doc::Text(s) && calendar_date(s@) is Some),
        None => true,
    }
}

/// The date an optional field spells.
pub open spec fn opt_date_of(o: Option<Doc>) -> Option<Date> {
    match o {
        Some(Doc::Text(s)) => calendar_date(s@),
        _ => None,
    }
}

/// Whether every value is a string.
pub open spec fn all_text(v: Seq<Doc>) -> bool {
    forall|i: int| 0 <= i < v.len() ==> #[trigger] text_value(v[i]) is Some
}

/// Whether a field is absent, a string, or a list of strings.
pub open spec fn many_ok(d: Doc, k: Seq<char>) -> bool {
    match lookup(d, k) {
        Some(v) => v is Text || (v matches Doc::List(e) && all_text(e@)),
        None => true,
    }
}

/// Whether a block (a mapping, or null) has only string keys and, where
/// `values` asks it, only string values.
pub open spec fn text_block_ok(v: Doc, values: bool) -> bool {
    &&& (v is Table || v is Null)
    &&& forall|i: int|
        0 <= i < block_entries(v).len() ==> text_value(#[trigger] block_entries(v)[i].0) is Some
            && (values ==> text_value(block_entries(v)[i].1) is Some)
}

/// Whether a `server:` block is well formed.
pub open spec fn server_ok(d: Doc) -> bool {
    block_ok(d, seq!["host"@, "port"@]) && text_ok(d, "host"@) && int_ok(d, "port"@, 0, 65535)
}

/// Whether a `cache:` block is well formed.
pub open spec fn cache_ok(d: Doc) -> bool {
    block_ok(d, seq!["dir"@, "default_ttl"@, "check_interval"@, "persist"@]) && text_ok(d, "dir"@)
        && span_ok(d, "default_ttl"@) && span_ok(d, "check_interval"@) && bool_ok(d, "persist"@)
}

/// Whether a `providers:` block is well formed: an MDBList provider, where
/// there is one, carries a key.
pub open spec fn providers_ok(d: Doc) -> bool {
    block_ok(d, seq!["mdblist"@]) && match lookup(d, "mdblist"@) {
        None => true,
        Some(m) => m is Null || (block_ok(m, seq!["apikey"@, "base_url"@]) && (lookup(
            m,
            "apikey"@,
        ) matches Some(Doc::Text(_))) && text_ok(m, "base_url"@)),
    }
}

/// Whether a `metadata:` block is well formed.
pub open spec fn metadata_ok(d: Doc) -> bool {
    block_ok(d, seq!["enabled"@, "ttl"@, "miss_ttl"@, "budget"@, "reserve"@]) && bool_ok(d, "enabled"@)
        && span_ok(d, "ttl"@) && span_ok(d, "miss_ttl"@) && opt_int_ok(d, "budget"@, 0, 0xffff_ffff)
        && opt_int_ok(d, "reserve"@, 0, 0xffff_ffff_ffff_ffff)
}

/// The value under a key of a block.
fn field<'a>(d: &'a Doc, key: &str) -> (r: Option<&'a Doc>)
    ensures
        match r {
            Some(v) => lookup(*d, key@) == Some(*v),
            None => lookup(*d, key@) is None,
        },
{
    d.get(key)
}

// ---------------------------------------------------------------------------
// The blocks
// ---------------------------------------------------------------------------

#[derive(Debug)]
pub struct ServerConfig {
    pub host: String,
    pub port: u16,
}

pub open spec fn default_host() -> Seq<char> {
    "0.0.0.0"@
}

pub const DEFAULT_PORT: u16 = 9797;

impl ServerConfig {
    pub fn default_value() -> (r: ServerConfig)
        ensures
            r.host@ == default_host(),
            r.port == DEFAULT_PORT,
    {
        ServerConfig { host: from_str("0.0.0.0"), port: DEFAULT_PORT }
    }
}

fn server_from(d: &Doc) -> (r: Result<ServerConfig, String>)
    ensures
        r matches Ok(s) ==> {
            &&& lookup(*d, "host"@) is None ==> s.host@ == default_host()
            &&& lookup(*d, "host"@) matches Some(Doc::Text(h)) ==> s.host@ == h@
            &&& lookup(*d, "port"@) is None ==> s.port == DEFAULT_PORT
            &&& lookup(*d, "port"@) matches Some(p) ==> int_value(p, 0, 65535) == Some(s.port as int)
        },
        r is Ok <==> server_ok(*d),
{
    let empty: Vec<(Doc, Doc)> = Vec::new();
    let entries = match entries_of("server", d, &empty) {
        Ok(e) => e,
        Err(e) => return Err(e),
    };
    let allowed: Vec<&str> = vec!["host", "port"];
    assert(allowed@.map_values(|a: &str| a@) =~= seq!["host"@, "port"@]);
    match deny_unknown(entries, &allowed) {
        Ok(()) => {},
        Err(e) => return Err(e),
    }
    let host = match field(d, "host") {
        None => from_str("0.0.0.0"),
        Some(v) => match text_of("host", v) {
            Ok(s) => s,
            Err(e) => return Err(e),
        },
    };
    let port = match opt_u16("port", field(d, "port"), DEFAULT_PORT) {
        Ok(p) => p,
        Err(e) => return Err(e),
    };
    Ok(ServerConfig { host, port })
}

#[derive(Debug)]
pub struct CacheConfig {
    pub dir: String,
    /// Used by any source that does not set its own `ttl`.
    pub default_ttl: Span,
    /// How often the refresher looks for sources whose data has aged out.
    pub check_interval: Span,
    /// Write snapshots to disk so a restart does not refetch everything.
    pub persist: bool,
}

pub open spec fn default_cache_dir() -> Seq<char> {
    "/config/cache"@
}

/// Six hours.
pub const DEFAULT_CACHE_TTL_SECS: u64 = 21600;

pub const DEFAULT_CHECK_INTERVAL_SECS: u64 = 60;

impl CacheConfig {
    pub fn default_value() -> (r: CacheConfig)
        ensures
            r.dir@ == default_cache_dir(),
            r.default_ttl == (Span { secs: DEFAULT_CACHE_TTL_SECS, nanos: 0 }),
            r.check_interval == (Span { secs: DEFAULT_CHECK_INTERVAL_SECS, nanos: 0 }),
            r.persist,
    {
        CacheConfig {
            dir: from_str("/config/cache"),
            default_ttl: Span::from_secs(DEFAULT_CACHE_TTL_SECS),
            check_interval: Span::from_secs(DEFAULT_CHECK_INTERVAL_SECS),
            persist: true,
        }
    }
}

fn cache_from(d: &Doc) -> (r: Result<CacheConfig, String>)
    ensures
        r matches Ok(c) ==> {
            &&& lookup(*d, "dir"@) is None ==> c.dir@ == default_cache_dir()
            &&& lookup(*d, "default_ttl"@) is None ==> c.default_ttl == (Span {
                secs: DEFAULT_CACHE_TTL_SECS,
                nanos: 0,
            })
            &&& lookup(*d, "check_interval"@) is None ==> c.check_interval == (Span {
                secs: DEFAULT_CHECK_INTERVAL_SECS,
                nanos: 0,
            })
            &&& lookup(*d, "persist"@) is None ==> c.persist
            &&& lookup(*d, "dir"@) matches Some(Doc::Text(x)) ==> c.dir@ == x@
            &&& lookup(*d, "default_ttl"@) matches Some(v) ==> span_field("default_ttl"@, v) == Ok::<
                Span,
                Seq<char>,
            >(c.default_ttl)
            &&& lookup(*d, "check_interval"@) matches Some(v) ==> span_field("check_interval"@, v)
                == Ok::<Span, Seq<char>>(c.check_interval)
            &&& lookup(*d, "persist"@) matches Some(v) ==> bool_value(v) == Some(c.persist)
        },
        r is Ok <==> cache_ok(*d),
{
    let empty: Vec<(Doc, Doc)> = Vec::new();
    let entries = match entries_of("cache", d, &empty) {
        Ok(e) => e,
        Err(e) => return Err(e),
    };
    let allowed: Vec<&str> = vec!["dir", "default_ttl", "check_interval", "persist"];
    assert(allowed@.map_values(|a: &str| a@) =~= seq!["dir"@, "default_ttl"@, "check_interval"@, "persist"@]);
    match deny_unknown(entries, &allowed) {
        Ok(()) => {},
        Err(e) => return Err(e),
    }
    let dir = match field(d, "dir") {
        None => from_str("/config/cache"),
        Some(v) => match text_of("dir", v) {
            Ok(s) => s,
            Err(e) => return Err(e),
        },
    };
    let default_ttl = match span_or(
        "default_ttl",
        field(d, "default_ttl"),
        Span::from_secs(DEFAULT_CACHE_TTL_SECS),
    ) {
        Ok(s) => s,
        Err(e) => return Err(e),
    };
    let check_interval = match span_or(
        "check_interval",
        field(d, "check_interval"),
        Span::from_secs(DEFAULT_CHECK_INTERVAL_SECS),
    ) {
        Ok(s) => s,
        Err(e) => return Err(e),
    };
    let persist = match opt_bool("persist", field(d, "persist"), true) {
        Ok(b) => b,
        Err(e) => return Err(e),
    };
    Ok(CacheConfig { dir, default_ttl, check_interval, persist })
}

#[derive(Debug)]
pub struct MdblistProvider {
    pub apikey: String,
    pub base_url: String,
}

pub open spec fn default_mdblist_base() -> Seq<char> {
    "https://api.mdblist.com"@
}

#[derive(Debug)]
pub struct Providers {
    pub mdblist: Option<MdblistProvider>,
}

fn providers_from(d: &Doc) -> (r: Result<Providers, String>)
    ensures
        r matches Ok(p) ==> {
            &&& lookup(*d, "mdblist"@) is None ==> p.mdblist is None
            &&& lookup(*d, "mdblist"@) matches Some(m) ==> match p.mdblist {
                Some(mp) => {
                    &&& lookup(m, "apikey"@) matches Some(Doc::Text(k)) && mp.apikey@ == k@
                    &&& lookup(m, "base_url"@) is None ==> mp.base_url@ == default_mdblist_base()
                    &&& lookup(m, "base_url"@) matches Some(Doc::Text(b)) ==> mp.base_url@ == b@
                },
                None => m is Null,
            }
        },
        r is Ok <==> providers_ok(*d),
{
    let empty: Vec<(Doc, Doc)> = Vec::new();
    let entries = match entries_of("providers", d, &empty) {
        Ok(e) => e,
        Err(e) => return Err(e),
    };
    let allowed: Vec<&str> = vec!["mdblist"];
    assert(allowed@.map_values(|a: &str| a@) =~= seq!["mdblist"@]);
    match deny_unknown(entries, &allowed) {
        Ok(()) => {},
        Err(e) => return Err(e),
    }
    let mdblist = match field(d, "mdblist") {
        None => None,
        Some(Doc::Null) => None,
        Some(m) => {
            let inner = match entries_of("mdblist", m, &empty) {
                Ok(e) => e,
                Err(e) => return Err(e),
            };
            let inner_allowed: Vec<&str> = vec!["apikey", "base_url"];
            assert(inner_allowed@.map_values(|a: &str| a@) =~= seq!["apikey"@, "base_url"@]);
            match deny_unknown(inner, &inner_allowed) {
                Ok(()) => {},
                Err(e) => return Err(e),
            }
            let apikey = match field(m, "apikey") {
                None => return Err(missing_err("apikey")),
                Some(v) => match text_of("apikey", v) {
                    Ok(s) => s,
                    Err(e) => return Err(e),
                },
            };
            let base_url = match field(m, "base_url") {
                None => from_str("https://api.mdblist.com"),
                Some(v) => match text_of("base_url", v) {
                    Ok(s) => s,
                    Err(e) => return Err(e),
                },
            };
            Some(MdblistProvider { apikey, base_url })
        },
    };
    Ok(Providers { mdblist })
}

/// The background enricher's settings.
#[derive(Debug)]
pub struct MetadataConfig {
    pub enabled: bool,
    /// How long a positive answer is kept.
    pub ttl: Span,
    /// How long a "never heard of it" answer is kept.
    pub miss_ttl: Span,
    /// The most requests one enrichment pass may make.
    pub budget: usize,
    /// Stop when the provider's daily allowance drops below this.
    pub reserve: u64,
}

/// Thirty days.
pub const DEFAULT_META_TTL_SECS: u64 = 2592000;

/// Seven days.
pub const DEFAULT_MISS_TTL_SECS: u64 = 604800;

pub const DEFAULT_BUDGET: usize = 2000;

pub const DEFAULT_RESERVE: u64 = 1000;

impl MetadataConfig {
    pub fn default_value() -> (r: MetadataConfig)
        ensures
            r.enabled,
            r.ttl == (Span { secs: DEFAULT_META_TTL_SECS, nanos: 0 }),
            r.miss_ttl == (Span { secs: DEFAULT_MISS_TTL_SECS, nanos: 0 }),
            r.budget == DEFAULT_BUDGET,
            r.reserve == DEFAULT_RESERVE,
    {
        MetadataConfig {
            enabled: true,
            ttl: Span::from_secs(DEFAULT_META_TTL_SECS),
            miss_ttl: Span::from_secs(DEFAULT_MISS_TTL_SECS),
            budget: DEFAULT_BUDGET,
            reserve: DEFAULT_RESERVE,
        }
    }

    pub fn duplicate(&self) -> (r: MetadataConfig)
        ensures
            r == *self,
    {
        MetadataConfig {
            enabled: self.enabled,
            ttl: self.ttl,
            miss_ttl: self.miss_ttl,
            budget: self.budget,
            reserve: self.reserve,
        }
    }
}

fn metadata_from(d: &Doc) -> (r: Result<MetadataConfig, String>)
    ensures
        r matches Ok(c) ==> {
            &&& lookup(*d, "enabled"@) is None ==> c.enabled
            &&& lookup(*d, "ttl"@) is None ==> c.ttl == (Span { secs: DEFAULT_META_TTL_SECS, nanos: 0 })
            &&& lookup(*d, "miss_ttl"@) is None ==> c.miss_ttl == (Span {
                secs: DEFAULT_MISS_TTL_SECS,
                nanos: 0,
            })
            &&& lookup(*d, "budget"@) is None ==> c.budget == DEFAULT_BUDGET
            &&& lookup(*d, "reserve"@) is None ==> c.reserve == DEFAULT_RESERVE
            &&& lookup(*d, "enabled"@) matches Some(v) ==> bool_value(v) == Some(c.enabled)
            &&& lookup(*d, "ttl"@) matches Some(v) ==> span_field("ttl"@, v) == Ok::<Span, Seq<char>>(c.ttl)
            &&& lookup(*d, "miss_ttl"@) matches Some(v) ==> span_field("miss_ttl"@, v) == Ok::<
                Span,
                Seq<char>,
            >(c.miss_ttl)
            &&& lookup(*d, "budget"@) matches Some(v) ==> c.budget == (match int_value(v, 0, 0xffff_ffff) {
                Some(x) => x,
                None => DEFAULT_BUDGET as int,
            })
            &&& lookup(*d, "reserve"@) matches Some(v) ==> c.reserve == (match int_value(v, 0, 0xffff_ffff_ffff_ffff) {
                Some(x) => x,
                None => DEFAULT_RESERVE as int,
            })
        },
        r is Ok <==> metadata_ok(*d),
{
    let empty: Vec<(Doc, Doc)> = Vec::new();
    let entries = match entries_of("metadata", d, &empty) {
        Ok(e) => e,
        Err(e) => return Err(e),
    };
    let allowed: Vec<&str> = vec!["enabled", "ttl", "miss_ttl", "budget", "reserve"];
    assert(allowed@.map_values(|a: &str| a@) =~= seq!["enabled"@, "ttl"@, "miss_ttl"@, "budget"@, "reserve"@]);
    match deny_unknown(entries, &allowed) {
        Ok(()) => {},
        Err(e) => return Err(e),
    }
    let enabled = match opt_bool("enabled", field(d, "enabled"), true) {
        Ok(b) => b,
        Err(e) => return Err(e),
    };
    let ttl = match span_or("ttl", field(d, "ttl"), Span::from_secs(DEFAULT_META_TTL_SECS)) {
        Ok(s) => s,
        Err(e) => return Err(e),
    };
    let miss_ttl = match span_or(
        "miss_ttl",
        field(d, "miss_ttl"),
        Span::from_secs(DEFAULT_MISS_TTL_SECS),
    ) {
        Ok(s) => s,
        Err(e) => return Err(e),
    };
    let budget = match opt_int(
        "budget",
        field(d, "budget"),
        0,
        0xffff_ffff,
        "a non-negative integer",
    ) {
        Ok(Some(b)) => b as usize,
        Ok(None) => DEFAULT_BUDGET,
        Err(e) => return Err(e),
    };
    let reserve = match opt_int(
        "reserve",
        field(d, "reserve"),
        0,
        0xffff_ffff_ffff_ffff,
        "a non-negative integer",
    ) {
        Ok(Some(b)) => b as u64,
        Ok(None) => DEFAULT_RESERVE,
        Err(e) => return Err(e),
    };
    Ok(MetadataConfig { enabled, ttl, miss_ttl, budget, reserve })
}


// ---------------------------------------------------------------------------
// Small enumerations
// ---------------------------------------------------------------------------

#[derive(Debug, Clone, Copy, PartialEq, Eq, Structural)]
pub enum MediaTypeFilter {
    Any,
    Movie,
    Show,
}

pub open spec fn filter_admits(f: MediaTypeFilter, m: MediaType) -> bool {
    match f {
        MediaTypeFilter::Any => true,
        MediaTypeFilter::Movie => m == MediaType::Movie,
        MediaTypeFilter::Show => m == MediaType::Show,
    }
}

pub open spec fn filter_media_type(f: MediaTypeFilter) -> Option<MediaType> {
    match f {
        MediaTypeFilter::Any => None,
        MediaTypeFilter::Movie => Some(MediaType::Movie),
        MediaTypeFilter::Show => Some(MediaType::Show),
    }
}

pub open spec fn filter_text(f: MediaTypeFilter) -> Seq<char> {
    match f {
        MediaTypeFilter::Any => "any"@,
        MediaTypeFilter::Movie => "movie"@,
        MediaTypeFilter::Show => "show"@,
    }
}

/// `any`, or any spelling of a media type.
pub open spec fn filter_word(raw: Seq<char>) -> Option<MediaTypeFilter> {
    if crate::text::keyword(raw) == "any"@ {
        Some(MediaTypeFilter::Any)
    } else {
        match crate::model::media_type_word(crate::text::keyword(raw)) {
            Some(MediaType::Movie) => Some(MediaTypeFilter::Movie),
            Some(MediaType::Show) => Some(MediaTypeFilter::Show),
            None => None,
        }
    }
}

impl MediaTypeFilter {
    pub fn default_value() -> (r: MediaTypeFilter)
        ensures
            r == MediaTypeFilter::Any,
    {
        MediaTypeFilter::Any
    }

    pub fn matches(self, media_type: MediaType) -> (r: bool)
        ensures
            r == filter_admits(self, media_type),
    {
        match self {
            MediaTypeFilter::Any => true,
            MediaTypeFilter::Movie => media_type == MediaType::Movie,
            MediaTypeFilter::Show => media_type == MediaType::Show,
        }
    }

    pub fn as_media_type(self) -> (r: Option<MediaType>)
        ensures
            r == filter_media_type(self),
    {
        match self {
            MediaTypeFilter::Any => None,
            MediaTypeFilter::Movie => Some(MediaType::Movie),
            MediaTypeFilter::Show => Some(MediaType::Show),
        }
    }

    pub fn as_str(self) -> (r: &'static str)
        ensures
            r@ == filter_text(self),
    {
        match self {
            MediaTypeFilter::Any => "any",
            MediaTypeFilter::Movie => "movie",
            MediaTypeFilter::Show => "show",
        }
    }

    /// `any`, or any of the spellings [`MediaType::parse`] accepts.
    pub fn parse(raw: &str) -> (r: Option<MediaTypeFilter>)
        ensures
            r == filter_word(raw@),
    {
        let k = crate::text::keyword_of(raw);
        if crate::model::is_word(&k, "any") {
            return Some(MediaTypeFilter::Any);
        }
        match MediaType::parse(raw) {
            Some(MediaType::Movie) => Some(MediaTypeFilter::Movie),
            Some(MediaType::Show) => Some(MediaTypeFilter::Show),
            None => None,
        }
    }
}

/// The error for a word that names no variant of `field`.
pub open spec fn unknown_variant_message(word: Seq<char>, field: Seq<char>) -> Seq<char> {
    "unknown variant `"@ + word + "` for `"@ + field + "`"@
}

/// A unit-variant enumeration spelled in snake case: the index of `text`
/// among `names`, or the error serde would give.
fn variant_of(field: &str, d: Option<&Doc>, names: &Vec<&str>) -> (r: Result<Option<usize>, String>)
    ensures
        match d {
            None => r matches Ok(None),
            Some(Doc::Text(s)) => match r {
                Ok(Some(i)) => i < names@.len() && names@[i as int]@ == s@ && forall|j: int|
                    0 <= j < i ==> names@[j]@ != s@,
                Ok(None) => false,
                Err(e) => (forall|j: int| 0 <= j < names@.len() ==> names@[j]@ != s@) && e@
                    == unknown_variant_message(s@, field@),
            },
            Some(_) => r matches Err(e) && e@ == type_error(field@, "a string"@),
        },
{
    match d {
        None => Ok(None),
        Some(Doc::Text(s)) => {
            let mut i: usize = 0;
            while i < names.len()
                invariant
                    0 <= i <= names@.len(),
                    d is Some,
                    *(d->0) == Doc::Text(*s),
                    forall|j: int| 0 <= j < i ==> names@[j]@ != s@,
                decreases names.len() - i,
            {
                if str_eq(names[i], s.as_str()) {
                    return Ok(Some(i));
                }
                i += 1;
            }
            let mut m = from_str("unknown variant `");
            push_str(&mut m, s.as_str());
            push_str(&mut m, "` for `");
            push_str(&mut m, field);
            push_str(&mut m, "`");
            Err(m)
        },
        Some(_) => Err(type_err(field, "a string")),
    }
}

/// What a variant field that is neither absent nor one of the words gives:
/// the error for a word that names no variant, or for a value that is not
/// a string.
pub open spec fn variant_error(field: Seq<char>, d: Doc, e: Seq<char>) -> bool {
    match d {
        Doc::Text(s) => e == unknown_variant_message(s@, field),
        _ => e == type_error(field, "a string"@),
    }
}

/// Whether a `media_type:` that filters is absent or one of its words.
pub open spec fn media_type_filter_ok(o: Option<Doc>) -> bool {
    match o {
        None => true,
        Some(v) => text_value(v) matches Some(w) && (w == "any"@ || w == "movie"@ || w == "show"@),
    }
}

/// The filter a `media_type:` spells; absent means any.
pub open spec fn media_type_filter_of(o: Option<Doc>) -> MediaTypeFilter {
    match o {
        Some(v) => match text_value(v) {
            Some(w) => if w == "any"@ {
                MediaTypeFilter::Any
            } else if w == "movie"@ {
                MediaTypeFilter::Movie
            } else if w == "show"@ {
                MediaTypeFilter::Show
            } else {
                MediaTypeFilter::Any
            },
            None => MediaTypeFilter::Any,
        },
        None => MediaTypeFilter::Any,
    }
}

/// Whether a `media_type:` of a source is absent, `movie` or `show`.
pub open spec fn media_type_ok(o: Option<Doc>) -> bool {
    match o {
        None => true,
        Some(v) => text_value(v) matches Some(w) && (w == "movie"@ || w == "show"@),
    }
}

/// The media type a source's `media_type:` spells; absent means movies.
pub open spec fn media_type_of(o: Option<Doc>) -> MediaType {
    match o {
        Some(v) => match text_value(v) {
            Some(w) => if w == "movie"@ {
                MediaType::Movie
            } else if w == "show"@ {
                MediaType::Show
            } else {
                MediaType::Movie
            },
            None => MediaType::Movie,
        },
        None => MediaType::Movie,
    }
}

fn media_type_filter_from(d: Option<&Doc>) -> (r: Result<MediaTypeFilter, String>)
    ensures
        match d {
            None => r == Ok::<MediaTypeFilter, String>(MediaTypeFilter::Any),
            Some(v) => match text_value(*v) {
                Some(w) if w == "any"@ => r == Ok::<MediaTypeFilter, String>(MediaTypeFilter::Any),
                Some(w) if w == "movie"@ => r == Ok::<MediaTypeFilter, String>(MediaTypeFilter::Movie),
                Some(w) if w == "show"@ => r == Ok::<MediaTypeFilter, String>(MediaTypeFilter::Show),
                _ => r matches Err(e) && variant_error("media_type"@, *v, e@),
            },
        },
{
    let names: Vec<&str> = vec!["any", "movie", "show"];
    match variant_of("media_type", d, &names) {
        Ok(None) => Ok(MediaTypeFilter::Any),
        Ok(Some(0)) => Ok(MediaTypeFilter::Any),
        Ok(Some(1)) => Ok(MediaTypeFilter::Movie),
        Ok(Some(_)) => Ok(MediaTypeFilter::Show),
        Err(e) => Err(e),
    }
}

fn media_type_from(d: Option<&Doc>) -> (r: Result<MediaType, String>)
    ensures
        match d {
            None => r == Ok::<MediaType, String>(MediaType::Movie),
            Some(v) => match text_value(*v) {
                Some(w) if w == "movie"@ => r == Ok::<MediaType, String>(MediaType::Movie),
                Some(w) if w == "show"@ => r == Ok::<MediaType, String>(MediaType::Show),
                _ => r matches Err(e) && variant_error("media_type"@, *v, e@),
            },
        },
{
    let names: Vec<&str> = vec!["movie", "show"];
    match variant_of("media_type", d, &names) {
        Ok(None) => Ok(MediaType::Movie),
        Ok(Some(0)) => Ok(MediaType::Movie),
        Ok(Some(_)) => Ok(MediaType::Show),
        Err(e) => Err(e),
    }
}

#[derive(Debug, Clone, Copy, PartialEq, Eq, Structural)]
pub enum SortKey {
    /// Keep the order the algebra produced (`none`).
    Unsorted,
    /// The rank the source gave the item, unranked items last.
    Rank,
    Title,
    Year,
    Released,
    Random,
}

#[derive(Debug, Clone, Copy, PartialEq, Eq, Structural)]
pub enum SortOrder {
    Asc,
    Desc,
}

/// Whether a `sort:` is absent or one of its words.
pub open spec fn sort_ok(o: Option<Doc>) -> bool {
    match o {
        None => true,
        Some(v) => text_value(v) matches Some(w) && (w == "none"@ || w == "rank"@ || w == "title"@
            || w == "year"@ || w == "released"@ || w == "random"@),
    }
}

/// The sort a `sort:` spells; absent means none.
pub open spec fn sort_of(o: Option<Doc>) -> SortKey {
    match o {
        Some(v) => match text_value(v) {
            Some(w) => if w == "none"@ {
                SortKey::Unsorted
            } else if w == "rank"@ {
                SortKey::Rank
            } else if w == "title"@ {
                SortKey::Title
            } else if w == "year"@ {
                SortKey::Year
            } else if w == "released"@ {
                SortKey::Released
            } else if w == "random"@ {
                SortKey::Random
            } else {
                SortKey::Unsorted
            },
            None => SortKey::Unsorted,
        },
        None => SortKey::Unsorted,
    }
}

/// Whether an `order:` is absent, `asc` or `desc`.
pub open spec fn order_ok(o: Option<Doc>) -> bool {
    match o {
        None => true,
        Some(v) => text_value(v) matches Some(w) && (w == "asc"@ || w == "desc"@),
    }
}

/// The order an `order:` spells; absent means ascending.
pub open spec fn order_of(o: Option<Doc>) -> SortOrder {
    match o {
        Some(v) => match text_value(v) {
            Some(w) => if w == "asc"@ {
                SortOrder::Asc
            } else if w == "desc"@ {
                SortOrder::Desc
            } else {
                SortOrder::Asc
            },
            None => SortOrder::Asc,
        },
        None => SortOrder::Asc,
    }
}

fn sort_key_from(d: Option<&Doc>) -> (r: Result<SortKey, String>)
    ensures
        match d {
            None => r == Ok::<SortKey, String>(SortKey::Unsorted),
            Some(v) => match text_value(*v) {
                Some(w) if w == "none"@ => r == Ok::<SortKey, String>(SortKey::Unsorted),
                Some(w) if w == "rank"@ => r == Ok::<SortKey, String>(SortKey::Rank),
                Some(w) if w == "title"@ => r == Ok::<SortKey, String>(SortKey::Title),
                Some(w) if w == "year"@ => r == Ok::<SortKey, String>(SortKey::Year),
                Some(w) if w == "released"@ => r == Ok::<SortKey, String>(SortKey::Released),
                Some(w) if w == "random"@ => r == Ok::<SortKey, String>(SortKey::Random),
                _ => r matches Err(e) && variant_error("sort"@, *v, e@),
            },
        },
{
    let names: Vec<&str> = vec!["none", "rank", "title", "year", "released", "random"];
    match variant_of("sort", d, &names) {
        Ok(None) => Ok(SortKey::Unsorted),
        Ok(Some(0)) => Ok(SortKey::Unsorted),
        Ok(Some(1)) => Ok(SortKey::Rank),
        Ok(Some(2)) => Ok(SortKey::Title),
        Ok(Some(3)) => Ok(SortKey::Year),
        Ok(Some(4)) => Ok(SortKey::Released),
        Ok(Some(_)) => Ok(SortKey::Random),
        Err(e) => Err(e),
    }
}

fn sort_order_from(d: Option<&Doc>) -> (r: Result<SortOrder, String>)
    ensures
        match d {
            None => r == Ok::<SortOrder, String>(SortOrder::Asc),
            Some(v) => match text_value(*v) {
                Some(w) if w == "asc"@ => r == Ok::<SortOrder, String>(SortOrder::Asc),
                Some(w) if w == "desc"@ => r == Ok::<SortOrder, String>(SortOrder::Desc),
                _ => r matches Err(e) && variant_error("order"@, *v, e@),
            },
        },
{
    let names: Vec<&str> = vec!["asc", "desc"];
    match variant_of("order", d, &names) {
        Ok(None) => Ok(SortOrder::Asc),
        Ok(Some(0)) => Ok(SortOrder::Asc),
        Ok(Some(_)) => Ok(SortOrder::Desc),
        Err(e) => Err(e),
    }
}

// ---------------------------------------------------------------------------
// Lists
// ---------------------------------------------------------------------------

#[derive(Debug)]
pub struct KometaConfig {
    /// Collection name in the generated file; defaults to the list name.
    pub collection: Option<String>,
    pub sync_mode: String,
    pub collection_order: String,
    /// Copied verbatim into the collection block.
    pub extra: Vec<(String, Doc)>,
}

impl KometaConfig {
    pub fn default_value() -> (r: KometaConfig)
        ensures
            r.collection is None,
            r.sync_mode@ == "sync"@,
            r.collection_order@ == "custom"@,
            r.extra@.len() == 0,
    {
        KometaConfig {
            collection: None,
            sync_mode: from_str("sync"),
            collection_order: from_str("custom"),
            extra: Vec::new(),
        }
    }
}

/// Whether a `kometa:` block is absent or well formed: known keys, strings
/// where strings go, and an `extra:` block keyed by strings.
pub open spec fn kometa_ok(o: Option<Doc>) -> bool {
    match o {
        None => true,
        Some(b) => {
            &&& block_ok(b, seq!["collection"@, "sync_mode"@, "collection_order"@, "extra"@])
            &&& opt_text_ok(b, "collection"@)
            &&& text_ok(b, "sync_mode"@)
            &&& text_ok(b, "collection_order"@)
            &&& (lookup(b, "extra"@) matches Some(x) ==> text_block_ok(x, false))
        },
    }
}

fn kometa_from(d: Option<&Doc>) -> (r: Result<KometaConfig, String>)
    ensures
        d is None ==> (r matches Ok(k) && k.collection is None && k.sync_mode@ == "sync"@
            && k.collection_order@ == "custom"@),
        r is Ok <==> kometa_ok(
            match d {
                Some(v) => Some(*v),
                None => None,
            },
        ),
        r matches Ok(k) ==> (d matches Some(b) ==> {
            &&& opt_chars(k.collection) == opt_text_of(lookup(*b, "collection"@))
            &&& k.sync_mode@ == (match lookup(*b, "sync_mode"@) {
                Some(Doc::Text(t)) => t@,
                _ => "sync"@,
            })
            &&& k.collection_order@ == (match lookup(*b, "collection_order"@) {
                Some(Doc::Text(t)) => t@,
                _ => "custom"@,
            })
        }),
{
    let block = match d {
        None => return Ok(KometaConfig::default_value()),
        Some(b) => b,
    };
    let empty: Vec<(Doc, Doc)> = Vec::new();
    let entries = match entries_of("kometa", block, &empty) {
        Ok(e) => e,
        Err(e) => return Err(e),
    };
    let allowed: Vec<&str> = vec!["collection", "sync_mode", "collection_order", "extra"];
    assert(allowed@.map_values(|a: &str| a@) =~= seq!["collection"@, "sync_mode"@, "collection_order"@, "extra"@]);
    match deny_unknown(entries, &allowed) {
        Ok(()) => {},
        Err(e) => return Err(e),
    }
    let collection = match opt_text("collection", field(block, "collection")) {
        Ok(c) => c,
        Err(e) => return Err(e),
    };
    let sync_mode = match field(block, "sync_mode") {
        None => from_str("sync"),
        Some(v) => match text_of("sync_mode", v) {
            Ok(s) => s,
            Err(e) => return Err(e),
        },
    };
    let collection_order = match field(block, "collection_order") {
        None => from_str("custom"),
        Some(v) => match text_of("collection_order", v) {
            Ok(s) => s,
            Err(e) => return Err(e),
        },
    };
    let mut extra: Vec<(String, Doc)> = Vec::new();
    match field(block, "extra") {
        None => {},
        Some(x) => {
            let inner = match entries_of("extra", x, &empty) {
                Ok(e) => e,
                Err(e) => return Err(e),
            };
            let mut i: usize = 0;
            while i < inner.len()
                invariant
                    0 <= i <= inner@.len(),
                    d is Some,
                    *(d->0) == *block,
                    lookup(*block, "extra"@) == Some(*x),
                    inner@ == block_entries(*x),
                    forall|j: int| 0 <= j < i ==> text_value(#[trigger] inner@[j].0) is Some,
                decreases inner.len() - i,
            {
                let key = match text_of("extra", &inner[i].0) {
                    Ok(k) => k,
                    Err(e) => {
                        assert(!text_block_ok(*x, false)) by {
                            assert(text_value(block_entries(*x)[i as int].0) is None);
                        }
                        return Err(e);
                    },
                };
                extra.push((key, inner[i].1.duplicate()));
                i += 1;
            }
        },
    }
    Ok(KometaConfig { collection, sync_mode, collection_order, extra })
}

#[derive(Debug)]
pub struct ListConfig {
    /// The set expression, e.g. `(trending | top250) - my_radarr`.
    pub list_formula: String,
    /// Boolean algebra over the names under `filters:`.
    pub filter: Option<String>,
    pub media_type: MediaTypeFilter,
    pub min_year: Option<i32>,
    pub max_year: Option<i32>,
    pub released_after: Option<Date>,
    pub released_before: Option<Date>,
    pub sort: SortKey,
    pub order: SortOrder,
    pub limit: Option<usize>,
    pub kometa: KometaConfig,
}

pub open spec fn formula_entry(d: Doc) -> Option<Doc> {
    match lookup(d, "list_formula"@) {
        Some(v) => Some(v),
        None => lookup(d, "expr"@),
    }
}

/// Whether a list block is well formed: known keys, a formula that is a
/// string, and every option of the type it takes.
pub open spec fn list_ok(d: Doc) -> bool {
    &&& block_ok(
        d,
        seq![
            "list_formula"@,
            "expr"@,
            "filter"@,
            "media_type"@,
            "min_year"@,
            "max_year"@,
            "released_after"@,
            "released_before"@,
            "sort"@,
            "order"@,
            "limit"@,
            "kometa"@,
        ],
    )
    &&& formula_entry(d) matches Some(Doc::Text(_))
    &&& opt_text_ok(d, "filter"@)
    &&& media_type_filter_ok(lookup(d, "media_type"@))
    &&& opt_int_ok(d, "min_year"@, -2147483648, 2147483647)
    &&& opt_int_ok(d, "max_year"@, -2147483648, 2147483647)
    &&& opt_date_ok(d, "released_after"@)
    &&& opt_date_ok(d, "released_before"@)
    &&& sort_ok(lookup(d, "sort"@))
    &&& order_ok(lookup(d, "order"@))
    &&& opt_int_ok(d, "limit"@, 0, 0xffff_ffff)
    &&& kometa_ok(lookup(d, "kometa"@))
}

/// One list block. The formula is written `list_formula:`, or `expr:` for
/// short.
fn list_from(d: &Doc) -> (r: Result<ListConfig, String>)
    ensures
        r matches Ok(l) ==> {
            &&& formula_entry(*d) matches Some(Doc::Text(f)) && l.list_formula@ == f@
            &&& lookup(*d, "filter"@) is None ==> l.filter is None
            &&& lookup(*d, "media_type"@) is None ==> l.media_type == MediaTypeFilter::Any
            &&& lookup(*d, "min_year"@) is None ==> l.min_year is None
            &&& lookup(*d, "max_year"@) is None ==> l.max_year is None
            &&& lookup(*d, "limit"@) is None ==> l.limit is None
            &&& lookup(*d, "sort"@) is None ==> l.sort == SortKey::Unsorted
            &&& lookup(*d, "order"@) is None ==> l.order == SortOrder::Asc
            &&& opt_chars(l.filter) == opt_text_of(lookup(*d, "filter"@))
            &&& l.media_type == media_type_filter_of(lookup(*d, "media_type"@))
            &&& (match l.min_year {
                Some(y) => Some(y as int),
                None => None,
            }) == opt_int_of(lookup(*d, "min_year"@), -2147483648, 2147483647)
            &&& (match l.max_year {
                Some(y) => Some(y as int),
                None => None,
            }) == opt_int_of(lookup(*d, "max_year"@), -2147483648, 2147483647)
            &&& l.released_after == opt_date_of(lookup(*d, "released_after"@))
            &&& l.released_before == opt_date_of(lookup(*d, "released_before"@))
            &&& l.sort == sort_of(lookup(*d, "sort"@))
            &&& l.order == order_of(lookup(*d, "order"@))
            &&& (match l.limit {
                Some(n) => Some(n as int),
                None => None,
            }) == opt_int_of(lookup(*d, "limit"@), 0, 0xffff_ffff)
        },
        r is Ok <==> list_ok(*d),
{
    let empty: Vec<(Doc, Doc)> = Vec::new();
    let entries = match entries_of("list", d, &empty) {
        Ok(e) => e,
        Err(e) => return Err(e),
    };
    let allowed: Vec<&str> = vec![
        "list_formula",
        "expr",
        "filter",
        "media_type",
        "min_year",
        "max_year",
        "released_after",
        "released_before",
        "sort",
        "order",
        "limit",
        "kometa",
    ];
    assert(allowed@.map_values(|a: &str| a@) =~= seq![
        "list_formula"@,
        "expr"@,
        "filter"@,
        "media_type"@,
        "min_year"@,
        "max_year"@,
        "released_after"@,
        "released_before"@,
        "sort"@,
        "order"@,
        "limit"@,
        "kometa"@,
    ]);
    match deny_unknown(
        entries,
        &allowed,
    ) {
        Ok(()) => {},
        Err(e) => return Err(e),
    }
    let formula = match field(d, "list_formula") {
        Some(v) => Some(v),
        None => field(d, "expr"),
    };
    let list_formula = match formula {
        None => return Err(missing_err("list_formula")),
        Some(v) => match text_of("list_formula", v) {
            Ok(s) => s,
            Err(e) => return Err(e),
        },
    };
    let filter = match opt_text("filter", field(d, "filter")) {
        Ok(f) => f,
        Err(e) => return Err(e),
    };
    let media_type = match media_type_filter_from(field(d, "media_type")) {
        Ok(m) => m,
        Err(e) => return Err(e),
    };
    let min_year = match opt_int(
        "min_year",
        field(d, "min_year"),
        -2147483648,
        2147483647,
        "a year",
    ) {
        Ok(y) => match y {
            Some(v) => Some(v as i32),
            None => None,
        },
        Err(e) => return Err(e),
    };
    let max_year = match opt_int(
        "max_year",
        field(d, "max_year"),
        -2147483648,
        2147483647,
        "a year",
    ) {
        Ok(y) => match y {
            Some(v) => Some(v as i32),
            None => None,
        },
        Err(e) => return Err(e),
    };
    let released_after = match opt_date("released_after", field(d, "released_after")) {
        Ok(x) => x,
        Err(e) => return Err(e),
    };
    let released_before = match opt_date("released_before", field(d, "released_before")) {
        Ok(x) => x,
        Err(e) => return Err(e),
    };
    let sort = match sort_key_from(field(d, "sort")) {
        Ok(x) => x,
        Err(e) => return Err(e),
    };
    let order = match sort_order_from(field(d, "order")) {
        Ok(x) => x,
        Err(e) => return Err(e),
    };
    let limit = match opt_int("limit", field(d, "limit"), 0, 0xffff_ffff, "a non-negative integer") {
        Ok(y) => match y {
            Some(v) => Some(v as usize),
            None => None,
        },
        Err(e) => return Err(e),
    };
    let kometa = match kometa_from(field(d, "kometa")) {
        Ok(k) => k,
        Err(e) => return Err(e),
    };
    Ok(
        ListConfig {
            list_formula,
            filter,
            media_type,
            min_year,
            max_year,
            released_after,
            released_before,
            sort,
            order,
            limit,
            kometa,
        },
    )
}


// ---------------------------------------------------------------------------
// Text order
// ---------------------------------------------------------------------------

/// Code-point order on texts, which is the order `str`'s `Ord` and a
/// `BTreeMap<String, _>` use.
pub open spec fn text_lt(a: Seq<char>, b: Seq<char>) -> bool
    decreases a.len(),
{
    if a.len() == 0 {
        b.len() > 0
    } else if b.len() == 0 {
        false
    } else if a[0] != b[0] {
        a[0] < b[0]
    } else {
        text_lt(a.drop_first(), b.drop_first())
    }
}

pub fn text_less(a: &str, b: &str) -> (r: bool)
    ensures
        r == text_lt(a@, b@),
{
    let x = crate::text::chars_of(a);
    let y = crate::text::chars_of(b);
    let mut i: usize = 0;
    assert(x@.subrange(0, x@.len() as int) =~= x@);
    assert(y@.subrange(0, y@.len() as int) =~= y@);
    while i < x.len() && i < y.len() && x[i] == y[i]
        invariant
            0 <= i <= x@.len(),
            i <= y@.len(),
            text_lt(a@, b@) == text_lt(x@.subrange(i as int, x@.len() as int), y@.subrange(
                i as int,
                y@.len() as int,
            )),
        decreases x.len() - i,
    {
        proof {
            let xs = x@.subrange(i as int, x@.len() as int);
            let ys = y@.subrange(i as int, y@.len() as int);
            assert(xs.drop_first() =~= x@.subrange(i + 1, x@.len() as int));
            assert(ys.drop_first() =~= y@.subrange(i + 1, y@.len() as int));
        }
        i += 1;
    }
    if i == x.len() {
        i < y.len()
    } else if i == y.len() {
        false
    } else {
        x[i] < y[i]
    }
}

#[verifier::spinoff_prover]
#[verifier::rlimit(40)]
/// Insert a text into a list kept in text order, as a `BTreeMap` key set
/// orders its keys. A text already present is not added again.
pub(crate) fn insert_sorted(out: &mut Vec<String>, key: String)
    requires
        forall|i: int, j: int|
            0 <= i < j < old(out)@.len() ==> text_lt(old(out)@[i]@, old(out)@[j]@),
    ensures
        forall|i: int, j: int|
            0 <= i < j < final(out)@.len() ==> text_lt(final(out)@[i]@, final(out)@[j]@),
        forall|t: Seq<char>|
            strings_view(final(out)@).contains(t) <==> (strings_view(old(out)@).contains(t) || t
                == key@),
{
    let mut i: usize = 0;
    while i < out.len() && text_less(out[i].as_str(), key.as_str())
        invariant
            0 <= i <= out@.len(),
            forall|j: int| 0 <= j < i ==> text_lt(out@[j]@, key@),
        decreases out.len() - i,
    {
        i += 1;
    }
    if i < out.len() && crate::text::string_eq(&out[i], &key) {
        proof {
            assert(strings_view(out@)[i as int] == key@);
        }
        return;
    }
    let ghost before = out@;
    assert(before == old(out)@);
    proof {
        if i < before.len() {
            lemma_text_lt_total(before[i as int]@, key@);
            assert(text_lt(key@, before[i as int]@));
            assert forall|j: int| i <= j < before.len() implies text_lt(key@, before[j]@) by {
                if j > i {
                    lemma_text_lt_trans(key@, before[i as int]@, before[j]@);
                }
            }
        }
    }
    let ghost k = key@;
    out.insert(i, key);
    proof {
        assert(out@ == before.insert(i as int, out@[i as int]));
        assert forall|a: int, b: int| 0 <= a < b < out@.len() implies text_lt(out@[a]@, out@[b]@) by {
            if a < i && b == i {
            } else if a < i && b > i {
                assert(out@[b] == before[b - 1]);
                assert(out@[a] == before[a]);
            } else if a == i {
                assert(out@[b] == before[b - 1]);
            } else if a > i {
                assert(out@[b] == before[b - 1]);
                assert(out@[a] == before[a - 1]);
            } else {
                assert(out@[b] == before[b]);
                assert(out@[a] == before[a]);
            }
        }
        assert forall|t: Seq<char>| strings_view(out@).contains(t) <==> (strings_view(
            before,
        ).contains(t) || t == k) by {
            if strings_view(out@).contains(t) {
                let w = choose|w: int| 0 <= w < strings_view(out@).len() && strings_view(out@)[w] == t;
                if w < i {
                    assert(strings_view(before)[w] == t);
                } else if w > i {
                    assert(strings_view(before)[w - 1] == t);
                }
            }
            if strings_view(before).contains(t) {
                let w = choose|w: int| 0 <= w < strings_view(before).len() && strings_view(before)[w] == t;
                if w < i {
                    assert(strings_view(out@)[w] == t);
                } else {
                    assert(strings_view(out@)[w + 1] == t);
                }
            }
            if t == k {
                assert(strings_view(out@)[i as int] == t);
            }
        }
    }
}

pub proof fn lemma_text_lt_irreflexive(a: Seq<char>)
    ensures
        !text_lt(a, a),
    decreases a.len(),
{
    if a.len() > 0 {
        lemma_text_lt_irreflexive(a.drop_first());
    }
}

pub proof fn lemma_text_lt_total(a: Seq<char>, b: Seq<char>)
    ensures
        a == b || text_lt(a, b) || text_lt(b, a),
    decreases a.len(),
{
    if a.len() > 0 && b.len() > 0 && a[0] == b[0] {
        lemma_text_lt_total(a.drop_first(), b.drop_first());
        if a.drop_first() == b.drop_first() {
            assert(a =~= seq![a[0]] + a.drop_first());
            assert(b =~= seq![b[0]] + b.drop_first());
        }
    } else if a.len() > 0 && b.len() > 0 {
    } else if a.len() == 0 && b.len() == 0 {
        assert(a =~= b);
    }
}

pub proof fn lemma_text_lt_trans(a: Seq<char>, b: Seq<char>, c: Seq<char>)
    requires
        text_lt(a, b),
        text_lt(b, c),
    ensures
        text_lt(a, c),
    decreases a.len(),
{
    if a.len() > 0 && b.len() > 0 && c.len() > 0 && a[0] == b[0] && b[0] == c[0] {
        lemma_text_lt_trans(a.drop_first(), b.drop_first(), c.drop_first());
    }
}


// ---------------------------------------------------------------------------
// JSON field names
// ---------------------------------------------------------------------------

/// Which keys of a JSON object hold which value. Each entry is a list of
/// candidate key names tried in order; leaving one empty uses the defaults.
#[derive(Debug)]
pub struct FieldMap {
    pub tmdb: Vec<String>,
    pub imdb: Vec<String>,
    pub tvdb: Vec<String>,
    pub trakt: Vec<String>,
    pub title: Vec<String>,
    pub year: Vec<String>,
    pub media_type: Vec<String>,
    pub released: Vec<String>,
    pub runtime: Vec<String>,
    pub country: Vec<String>,
    pub original_language: Vec<String>,
    pub spoken_language: Vec<String>,
    pub genres: Vec<String>,
    pub content_rating: Vec<String>,
    pub status: Vec<String>,
}

/// Configured key names win; an unconfigured field falls back to the
/// spellings these feeds commonly use.
pub open spec fn pick_spec(configured: Seq<String>, defaults: Seq<Seq<char>>) -> Seq<Seq<char>> {
    if configured.len() == 0 {
        defaults
    } else {
        strings_view(configured)
    }
}

fn pick(configured: &Vec<String>, defaults: Vec<&str>) -> (r: Vec<String>)
    ensures
        strings_view(r@) == pick_spec(configured@, defaults@.map_values(|d: &str| d@)),
{
    if configured.len() == 0 {
        let mut out: Vec<String> = Vec::new();
        let mut i: usize = 0;
        while i < defaults.len()
            invariant
                0 <= i <= defaults@.len(),
                strings_view(out@) == defaults@.subrange(0, i as int).map_values(|d: &str| d@),
            decreases defaults.len() - i,
        {
            let ghost before = strings_view(out@);
            let t = from_str(defaults[i]);
            out.push(t);
            assert(strings_view(out@) =~= before.push(t@));
            assert(defaults@.subrange(0, i + 1).map_values(|d: &str| d@) =~= defaults@.subrange(
                0,
                i as int,
            ).map_values(|d: &str| d@).push(defaults@[i as int]@));
            i += 1;
        }
        assert(defaults@.subrange(0, defaults@.len() as int) =~= defaults@);
        out
    } else {
        crate::model::clone_strings(configured)
    }
}

pub open spec fn default_tmdb_keys() -> Seq<Seq<char>> {
    seq!["tmdbId"@, "tmdb_id"@, "tmdb"@]
}

pub open spec fn default_imdb_keys() -> Seq<Seq<char>> {
    seq!["imdbId"@, "imdb_id"@, "imdb"@]
}

pub open spec fn default_tvdb_keys() -> Seq<Seq<char>> {
    seq!["tvdbId"@, "tvdb_id"@, "tvdb"@]
}

pub open spec fn default_trakt_keys() -> Seq<Seq<char>> {
    seq!["traktId"@, "trakt_id"@, "trakt"@]
}

pub open spec fn default_title_keys() -> Seq<Seq<char>> {
    seq!["title"@, "name"@]
}

pub open spec fn default_year_keys() -> Seq<Seq<char>> {
    seq!["year"@, "release_year"@, "releaseYear"@]
}

pub open spec fn default_media_type_keys() -> Seq<Seq<char>> {
    seq!["mediatype"@, "media_type"@, "type"@]
}

pub open spec fn default_released_keys() -> Seq<Seq<char>> {
    seq!["released"@, "release_date"@, "releaseDate"@]
}

pub open spec fn default_runtime_keys() -> Seq<Seq<char>> {
    seq!["runtime"@]
}

pub open spec fn default_country_keys() -> Seq<Seq<char>> {
    seq!["country"@]
}

pub open spec fn default_original_language_keys() -> Seq<Seq<char>> {
    seq!["original_language"@, "language"@]
}

pub open spec fn default_spoken_language_keys() -> Seq<Seq<char>> {
    seq!["spoken_language"@]
}

pub open spec fn default_genres_keys() -> Seq<Seq<char>> {
    seq!["genres"@, "genre"@]
}

pub open spec fn default_content_rating_keys() -> Seq<Seq<char>> {
    seq!["content_rating"@, "certification"@]
}

pub open spec fn default_status_keys() -> Seq<Seq<char>> {
    seq!["status"@]
}

impl FieldMap {
    pub fn default_value() -> (r: FieldMap)
        ensures
            r.tmdb@.len() == 0,
            r.imdb@.len() == 0,
            r.tvdb@.len() == 0,
            r.trakt@.len() == 0,
            r.title@.len() == 0,
            r.year@.len() == 0,
            r.media_type@.len() == 0,
            r.released@.len() == 0,
            r.runtime@.len() == 0,
            r.country@.len() == 0,
            r.original_language@.len() == 0,
            r.spoken_language@.len() == 0,
            r.genres@.len() == 0,
            r.content_rating@.len() == 0,
            r.status@.len() == 0,
    {
        FieldMap {
            tmdb: Vec::new(),
            imdb: Vec::new(),
            tvdb: Vec::new(),
            trakt: Vec::new(),
            title: Vec::new(),
            year: Vec::new(),
            media_type: Vec::new(),
            released: Vec::new(),
            runtime: Vec::new(),
            country: Vec::new(),
            original_language: Vec::new(),
            spoken_language: Vec::new(),
            genres: Vec::new(),
            content_rating: Vec::new(),
            status: Vec::new(),
        }
    }

    pub fn tmdb_keys(&self) -> (r: Vec<String>)
        ensures
            strings_view(r@) == pick_spec(self.tmdb@, default_tmdb_keys()),
    {
        let d = vec!["tmdbId", "tmdb_id", "tmdb"];
        assert(d@.map_values(|x: &str| x@) =~= default_tmdb_keys());
        pick(&self.tmdb, d)
    }

    pub fn imdb_keys(&self) -> (r: Vec<String>)
        ensures
            strings_view(r@) == pick_spec(self.imdb@, default_imdb_keys()),
    {
        let d = vec!["imdbId", "imdb_id", "imdb"];
        assert(d@.map_values(|x: &str| x@) =~= default_imdb_keys());
        pick(&self.imdb, d)
    }

    pub fn tvdb_keys(&self) -> (r: Vec<String>)
        ensures
            strings_view(r@) == pick_spec(self.tvdb@, default_tvdb_keys()),
    {
        let d = vec!["tvdbId", "tvdb_id", "tvdb"];
        assert(d@.map_values(|x: &str| x@) =~= default_tvdb_keys());
        pick(&self.tvdb, d)
    }

    pub fn trakt_keys(&self) -> (r: Vec<String>)
        ensures
            strings_view(r@) == pick_spec(self.trakt@, default_trakt_keys()),
    {
        let d = vec!["traktId", "trakt_id", "trakt"];
        assert(d@.map_values(|x: &str| x@) =~= default_trakt_keys());
        pick(&self.trakt, d)
    }

    pub fn title_keys(&self) -> (r: Vec<String>)
        ensures
            strings_view(r@) == pick_spec(self.title@, default_title_keys()),
    {
        let d = vec!["title", "name"];
        assert(d@.map_values(|x: &str| x@) =~= default_title_keys());
        pick(&self.title, d)
    }

    pub fn year_keys(&self) -> (r: Vec<String>)
        ensures
            strings_view(r@) == pick_spec(self.year@, default_year_keys()),
    {
        let d = vec!["year", "release_year", "releaseYear"];
        assert(d@.map_values(|x: &str| x@) =~= default_year_keys());
        pick(&self.year, d)
    }

    pub fn media_type_keys(&self) -> (r: Vec<String>)
        ensures
            strings_view(r@) == pick_spec(self.media_type@, default_media_type_keys()),
    {
        let d = vec!["mediatype", "media_type", "type"];
        assert(d@.map_values(|x: &str| x@) =~= default_media_type_keys());
        pick(&self.media_type, d)
    }

    pub fn released_keys(&self) -> (r: Vec<String>)
        ensures
            strings_view(r@) == pick_spec(self.released@, default_released_keys()),
    {
        let d = vec!["released", "release_date", "releaseDate"];
        assert(d@.map_values(|x: &str| x@) =~= default_released_keys());
        pick(&self.released, d)
    }

    pub fn runtime_keys(&self) -> (r: Vec<String>)
        ensures
            strings_view(r@) == pick_spec(self.runtime@, default_runtime_keys()),
    {
        let d = vec!["runtime"];
        assert(d@.map_values(|x: &str| x@) =~= default_runtime_keys());
        pick(&self.runtime, d)
    }

    pub fn country_keys(&self) -> (r: Vec<String>)
        ensures
            strings_view(r@) == pick_spec(self.country@, default_country_keys()),
    {
        let d = vec!["country"];
        assert(d@.map_values(|x: &str| x@) =~= default_country_keys());
        pick(&self.country, d)
    }

    pub fn original_language_keys(&self) -> (r: Vec<String>)
        ensures
            strings_view(r@) == pick_spec(self.original_language@, default_original_language_keys()),
    {
        let d = vec!["original_language", "language"];
        assert(d@.map_values(|x: &str| x@) =~= default_original_language_keys());
        pick(&self.original_language, d)
    }

    pub fn spoken_language_keys(&self) -> (r: Vec<String>)
        ensures
            strings_view(r@) == pick_spec(self.spoken_language@, default_spoken_language_keys()),
    {
        let d = vec!["spoken_language"];
        assert(d@.map_values(|x: &str| x@) =~= default_spoken_language_keys());
        pick(&self.spoken_language, d)
    }

    pub fn genres_keys(&self) -> (r: Vec<String>)
        ensures
            strings_view(r@) == pick_spec(self.genres@, default_genres_keys()),
    {
        let d = vec!["genres", "genre"];
        assert(d@.map_values(|x: &str| x@) =~= default_genres_keys());
        pick(&self.genres, d)
    }

    pub fn content_rating_keys(&self) -> (r: Vec<String>)
        ensures
            strings_view(r@) == pick_spec(self.content_rating@, default_content_rating_keys()),
    {
        let d = vec!["content_rating", "certification"];
        assert(d@.map_values(|x: &str| x@) =~= default_content_rating_keys());
        pick(&self.content_rating, d)
    }

    pub fn status_keys(&self) -> (r: Vec<String>)
        ensures
            strings_view(r@) == pick_spec(self.status@, default_status_keys()),
    {
        let d = vec!["status"];
        assert(d@.map_values(|x: &str| x@) =~= default_status_keys());
        pick(&self.status, d)
    }

}

/// Whether a `fields:` block is absent or well formed: known keys, each a
/// string or a list of strings.
pub open spec fn field_map_ok(o: Option<Doc>) -> bool {
    match o {
        None => true,
        Some(b) => {
            &&& block_ok(b, seq!["tmdb"@, "imdb"@, "tvdb"@, "trakt"@, "title"@, "year"@, "media_type"@, "released"@, "runtime"@, "country"@, "original_language"@, "spoken_language"@, "genres"@, "content_rating"@, "status"@])
            &&& many_ok(b, "tmdb"@)
            &&& many_ok(b, "imdb"@)
            &&& many_ok(b, "tvdb"@)
            &&& many_ok(b, "trakt"@)
            &&& many_ok(b, "title"@)
            &&& many_ok(b, "year"@)
            &&& many_ok(b, "media_type"@)
            &&& many_ok(b, "released"@)
            &&& many_ok(b, "runtime"@)
            &&& many_ok(b, "country"@)
            &&& many_ok(b, "original_language"@)
            &&& many_ok(b, "spoken_language"@)
            &&& many_ok(b, "genres"@)
            &&& many_ok(b, "content_rating"@)
            &&& many_ok(b, "status"@)
        },
    }
}

fn field_map_from(d: Option<&Doc>) -> (r: Result<FieldMap, String>)
    ensures
        d is None ==> (r matches Ok(m) && m.tmdb@.len() == 0 && m.imdb@.len() == 0),
        r is Ok <==> field_map_ok(
            match d {
                Some(v) => Some(*v),
                None => None,
            },
        ),
{
    let d = match d {
        None => return Ok(FieldMap::default_value()),
        Some(d) => d,
    };
    let empty: Vec<(Doc, Doc)> = Vec::new();
    let entries = match entries_of("fields", d, &empty) {
        Ok(e) => e,
        Err(e) => return Err(e),
    };
    let allowed: Vec<&str> = vec![
        "tmdb",
        "imdb",
        "tvdb",
        "trakt",
        "title",
        "year",
        "media_type",
        "released",
        "runtime",
        "country",
        "original_language",
        "spoken_language",
        "genres",
        "content_rating",
        "status",
    ];
    assert(allowed@.map_values(|a: &str| a@) =~= seq!["tmdb"@, "imdb"@, "tvdb"@, "trakt"@, "title"@, "year"@, "media_type"@, "released"@, "runtime"@, "country"@, "original_language"@, "spoken_language"@, "genres"@, "content_rating"@, "status"@]);
    match deny_unknown(entries, &allowed) {
        Ok(()) => {},
        Err(e) => return Err(e),
    }
    let tmdb = match one_or_many("tmdb", field(d, "tmdb")) {
        Ok(v) => v,
        Err(e) => return Err(e),
    };
    let imdb = match one_or_many("imdb", field(d, "imdb")) {
        Ok(v) => v,
        Err(e) => return Err(e),
    };
    let tvdb = match one_or_many("tvdb", field(d, "tvdb")) {
        Ok(v) => v,
        Err(e) => return Err(e),
    };
    let trakt = match one_or_many("trakt", field(d, "trakt")) {
        Ok(v) => v,
        Err(e) => return Err(e),
    };
    let title = match one_or_many("title", field(d, "title")) {
        Ok(v) => v,
        Err(e) => return Err(e),
    };
    let year = match one_or_many("year", field(d, "year")) {
        Ok(v) => v,
        Err(e) => return Err(e),
    };
    let media_type = match one_or_many("media_type", field(d, "media_type")) {
        Ok(v) => v,
        Err(e) => return Err(e),
    };
    let released = match one_or_many("released", field(d, "released")) {
        Ok(v) => v,
        Err(e) => return Err(e),
    };
    let runtime = match one_or_many("runtime", field(d, "runtime")) {
        Ok(v) => v,
        Err(e) => return Err(e),
    };
    let country = match one_or_many("country", field(d, "country")) {
        Ok(v) => v,
        Err(e) => return Err(e),
    };
    let original_language = match one_or_many("original_language", field(d, "original_language")) {
        Ok(v) => v,
        Err(e) => return Err(e),
    };
    let spoken_language = match one_or_many("spoken_language", field(d, "spoken_language")) {
        Ok(v) => v,
        Err(e) => return Err(e),
    };
    let genres = match one_or_many("genres", field(d, "genres")) {
        Ok(v) => v,
        Err(e) => return Err(e),
    };
    let content_rating = match one_or_many("content_rating", field(d, "content_rating")) {
        Ok(v) => v,
        Err(e) => return Err(e),
    };
    let status = match one_or_many("status", field(d, "status")) {
        Ok(v) => v,
        Err(e) => return Err(e),
    };
    Ok(FieldMap {
        tmdb,
        imdb,
        tvdb,
        trakt,
        title,
        year,
        media_type,
        released,
        runtime,
        country,
        original_language,
        spoken_language,
        genres,
        content_rating,
        status,
    })
}


// ---------------------------------------------------------------------------
// Sources
// ---------------------------------------------------------------------------

#[derive(Debug)]
pub struct MdblistSource {
    /// `username/listname` as it appears in the mdblist.com URL.
    pub list: Option<String>,
    /// Numeric list id, for lists addressed by id.
    pub list_id: Option<u64>,
    /// A pasted `https://mdblist.com/lists/username/listname` URL.
    pub url: Option<String>,
    /// Overrides `providers.mdblist.apikey`.
    pub apikey: Option<String>,
    /// Keep only one media type from a mixed list.
    pub media_type: MediaTypeFilter,
    /// Stop after this many items.
    pub limit: Option<usize>,
    pub ttl: Option<Span>,
    /// Keys the block does not know, in text order.
    pub extra: Vec<String>,
}

#[derive(Debug)]
pub struct StaticSource {
    /// `provider:id` specs, e.g. `tmdb:550`, `imdb:tt0133093`, `tvdb:81189`.
    pub items: Vec<String>,
    /// Media type of every entry in this block.
    pub media_type: MediaType,
    pub extra: Vec<String>,
}

#[derive(Debug)]
pub struct JsonSource {
    pub url: String,
    /// Request headers, in name order.
    pub headers: Vec<(String, String)>,
    /// Dotted path to the array inside the response, e.g. `data.items`.
    /// Omit when the response is an array already.
    pub path: Option<String>,
    pub fields: FieldMap,
    /// Media type for entries whose type field is missing or unmapped.
    pub media_type: MediaType,
    pub ttl: Option<Span>,
    pub extra: Vec<String>,
}

#[derive(Debug)]
pub struct ArrSource {
    /// Base URL of the instance, e.g. `http://radarr:7878`.
    pub url: String,
    pub api_key: String,
    /// Only report items the instance is monitoring.
    pub monitored_only: bool,
    pub ttl: Option<Span>,
    pub extra: Vec<String>,
}

#[derive(Debug)]
pub enum SourceConfig {
    Mdblist(MdblistSource),
    Static(StaticSource),
    Json(JsonSource),
    Radarr(ArrSource),
    Sonarr(ArrSource),
}

pub open spec fn source_kind_text(s: SourceConfig) -> Seq<char> {
    match s {
        SourceConfig::Mdblist(_) => "mdblist"@,
        SourceConfig::Static(_) => "static"@,
        SourceConfig::Json(_) => "json"@,
        SourceConfig::Radarr(_) => "radarr"@,
        SourceConfig::Sonarr(_) => "sonarr"@,
    }
}

pub open spec fn source_ttl(s: SourceConfig) -> Option<Span> {
    match s {
        SourceConfig::Mdblist(x) => x.ttl,
        SourceConfig::Static(_) => None,
        SourceConfig::Json(x) => x.ttl,
        SourceConfig::Radarr(x) => x.ttl,
        SourceConfig::Sonarr(x) => x.ttl,
    }
}

pub open spec fn source_extra(s: SourceConfig) -> Seq<String> {
    match s {
        SourceConfig::Mdblist(x) => x.extra@,
        SourceConfig::Static(x) => x.extra@,
        SourceConfig::Json(x) => x.extra@,
        SourceConfig::Radarr(x) => x.extra@,
        SourceConfig::Sonarr(x) => x.extra@,
    }
}

impl SourceConfig {
    pub fn kind(&self) -> (r: &'static str)
        ensures
            r@ == source_kind_text(*self),
    {
        match self {
            SourceConfig::Mdblist(_) => "mdblist",
            SourceConfig::Static(_) => "static",
            SourceConfig::Json(_) => "json",
            SourceConfig::Radarr(_) => "radarr",
            SourceConfig::Sonarr(_) => "sonarr",
        }
    }

    pub fn ttl(&self) -> (r: Option<Span>)
        ensures
            r == source_ttl(*self),
    {
        match self {
            SourceConfig::Mdblist(source) => source.ttl,
            SourceConfig::Static(_) => None,
            SourceConfig::Json(source) => source.ttl,
            SourceConfig::Radarr(source) => source.ttl,
            SourceConfig::Sonarr(source) => source.ttl,
        }
    }

    /// A static source is defined entirely by the config, so there is nothing
    /// worth keeping on disk or refreshing on a timer.
    pub fn is_remote(&self) -> (r: bool)
        ensures
            r == !(*self is Static),
    {
        match self {
            SourceConfig::Static(_) => false,
            _ => true,
        }
    }

    /// The keys of the block that no option of its type claims.
    pub fn extra(&self) -> (r: &Vec<String>)
        ensures
            r@ == source_extra(*self),
    {
        match self {
            SourceConfig::Mdblist(source) => &source.extra,
            SourceConfig::Static(source) => &source.extra,
            SourceConfig::Json(source) => &source.extra,
            SourceConfig::Radarr(source) => &source.extra,
            SourceConfig::Sonarr(source) => &source.extra,
        }
    }
}

/// The keys of a block that are neither `type` nor one of `known`, in text
/// order, once each.
fn extras(entries: &Vec<(Doc, Doc)>, known: &Vec<&str>) -> (r: Vec<String>)
    ensures
        forall|i: int, j: int| 0 <= i < j < r@.len() ==> text_lt(r@[i]@, r@[j]@),
        forall|i: int|
            0 <= i < entries@.len() && !key_allowed(
                #[trigger] entries@[i].0,
                known@.map_values(|a: &str| a@),
            ) && entries@[i].0 is Text && !is_type_key(entries@[i].0) ==> strings_view(
                r@,
            ).contains(text_value(entries@[i].0)->0),
{
    let mut out: Vec<String> = Vec::new();
    let mut i: usize = 0;
    while i < entries.len()
        invariant
            0 <= i <= entries@.len(),
            forall|a: int, b: int| 0 <= a < b < out@.len() ==> text_lt(out@[a]@, out@[b]@),
            forall|k: int|
                0 <= k < i && !key_allowed(
                    #[trigger] entries@[k].0,
                    known@.map_values(|a: &str| a@),
                ) && entries@[k].0 is Text && !is_type_key(entries@[k].0) ==> strings_view(
                    out@,
                ).contains(text_value(entries@[k].0)->0),
        decreases entries.len() - i,
    {
        let ghost before = strings_view(out@);
        match &entries[i].0 {
            Doc::Text(k) => {
                if !is_allowed(&entries[i].0, known) && !str_eq(k.as_str(), "type") {
                    insert_sorted(&mut out, clone_string(k));
                }
            },
            _ => {},
        }
        proof {
            assert forall|t: Seq<char>| before.contains(t) implies strings_view(out@).contains(t) by {}
        }
        i += 1;
    }
    out
}

pub open spec fn is_type_key(k: Doc) -> bool {
    text_value(k) == Some("type"@)
}

/// Whether the options of an MDBList source have the types they take.
pub open spec fn mdblist_ok(d: Doc) -> bool {
    &&& opt_text_ok(d, "list"@)
    &&& opt_int_ok(d, "list_id"@, 0, 0xffff_ffff_ffff_ffff)
    &&& opt_text_ok(d, "url"@)
    &&& opt_text_ok(d, "apikey"@)
    &&& media_type_filter_ok(lookup(d, "media_type"@))
    &&& opt_int_ok(d, "limit"@, 0, 0xffff_ffff)
    &&& opt_span_ok(d, "ttl"@)
}

/// Whether the options of a static source have the types they take.
pub open spec fn static_ok(d: Doc) -> bool {
    &&& (lookup(d, "items"@) matches Some(v) ==> (v matches Doc::List(e) && all_text(e@)))
    &&& media_type_ok(lookup(d, "media_type"@))
}

/// Whether the options of a JSON source have the types they take, with the
/// `url` it needs.
pub open spec fn json_ok(d: Doc) -> bool {
    &&& lookup(d, "url"@) matches Some(Doc::Text(_))
    &&& (lookup(d, "headers"@) matches Some(h) ==> text_block_ok(h, true))
    &&& opt_text_ok(d, "path"@)
    &&& field_map_ok(lookup(d, "fields"@))
    &&& media_type_ok(lookup(d, "media_type"@))
    &&& opt_span_ok(d, "ttl"@)
}

/// Whether the options of a Radarr or Sonarr source have the types they
/// take, with the `url` and `api_key` it needs.
pub open spec fn arr_ok(d: Doc) -> bool {
    &&& lookup(d, "url"@) matches Some(Doc::Text(_))
    &&& lookup(d, "api_key"@) matches Some(Doc::Text(_))
    &&& bool_ok(d, "monitored_only"@)
    &&& opt_span_ok(d, "ttl"@)
}

/// Whether a source block is well formed: a mapping with a known `type:`
/// whose options have the types they take.
pub open spec fn source_ok(d: Doc) -> bool {
    &&& (d is Table || d is Null)
    &&& match lookup(d, "type"@) {
        Some(v) => match text_value(v) {
            Some(w) => if w == "mdblist"@ {
                mdblist_ok(d)
            } else if w == "static"@ {
                static_ok(d)
            } else if w == "json"@ {
                json_ok(d)
            } else if w == "radarr"@ || w == "sonarr"@ {
                arr_ok(d)
            } else {
                false
            },
            None => false,
        },
        None => false,
    }
}

fn mdblist_from(d: &Doc, entries: &Vec<(Doc, Doc)>) -> (r: Result<MdblistSource, String>)
    ensures
        r is Ok <==> mdblist_ok(*d),
        r matches Ok(x) ==> {
            &&& opt_chars(x.list) == opt_text_of(lookup(*d, "list"@))
            &&& (match x.list_id {
                Some(n) => Some(n as int),
                None => None,
            }) == opt_int_of(lookup(*d, "list_id"@), 0, 0xffff_ffff_ffff_ffff)
            &&& opt_chars(x.url) == opt_text_of(lookup(*d, "url"@))
            &&& opt_chars(x.apikey) == opt_text_of(lookup(*d, "apikey"@))
            &&& x.media_type == media_type_filter_of(lookup(*d, "media_type"@))
            &&& (match x.limit {
                Some(n) => Some(n as int),
                None => None,
            }) == opt_int_of(lookup(*d, "limit"@), 0, 0xffff_ffff)
            &&& x.ttl == opt_span_of(lookup(*d, "ttl"@), "ttl"@)
            &&& forall|i: int, j: int| 0 <= i < j < x.extra@.len() ==> text_lt(x.extra@[i]@, x.extra@[j]@)
        },
{
    let known = vec!["list", "list_id", "url", "apikey", "media_type", "limit", "ttl"];
    let list = match opt_text("list", field(d, "list")) {
        Ok(x) => x,
        Err(e) => return Err(e),
    };
    let list_id = match opt_int(
        "list_id",
        field(d, "list_id"),
        0,
        0xffff_ffff_ffff_ffff,
        "a non-negative integer",
    ) {
        Ok(x) => match x {
            Some(v) => Some(v as u64),
            None => None,
        },
        Err(e) => return Err(e),
    };
    let url = match opt_text("url", field(d, "url")) {
        Ok(x) => x,
        Err(e) => return Err(e),
    };
    let apikey = match opt_text("apikey", field(d, "apikey")) {
        Ok(x) => x,
        Err(e) => return Err(e),
    };
    let media_type = match media_type_filter_from(field(d, "media_type")) {
        Ok(x) => x,
        Err(e) => return Err(e),
    };
    let limit = match opt_int("limit", field(d, "limit"), 0, 0xffff_ffff, "a non-negative integer") {
        Ok(x) => match x {
            Some(v) => Some(v as usize),
            None => None,
        },
        Err(e) => return Err(e),
    };
    let ttl = match opt_span("ttl", field(d, "ttl")) {
        Ok(x) => x,
        Err(e) => return Err(e),
    };
    let extra = extras(entries, &known);
    Ok(MdblistSource { list, list_id, url, apikey, media_type, limit, ttl, extra })
}

fn static_from(d: &Doc, entries: &Vec<(Doc, Doc)>) -> (r: Result<StaticSource, String>)
    ensures
        r matches Ok(x) ==> (lookup(*d, "items"@) is None ==> x.items@.len() == 0),
        r matches Ok(x) ==> (lookup(*d, "items"@) matches Some(Doc::List(e)) ==> x.items@.len()
            == e@.len() && forall|i: int|
            0 <= i < e@.len() ==> text_value(e@[i]) == Some(#[trigger] x.items@[i]@)),
        r matches Ok(x) ==> x.media_type == media_type_of(lookup(*d, "media_type"@)),
        r is Ok <==> static_ok(*d),
{
    let known = vec!["items", "media_type"];
    let items = match field(d, "items") {
        None => Vec::new(),
        Some(v) => match text_list("items", v) {
            Ok(x) => {
                proof {
                    assert forall|i: int| 0 <= i < x@.len() implies #[trigger] x@[i]@ == strings_view(x@)[i] by {}
                    if let Doc::List(e) = v {
                        assert forall|i: int| 0 <= i < e@.len() implies #[trigger] text_value(e@[i]) is Some by {
                            assert(text_value(e@[i]) == Some(strings_view(x@)[i]));
                        }
                    }
                }
                x
            },
            Err(e) => {
                proof {
                    if let Doc::List(e) = v {
                        let i = choose|i: int| 0 <= i < e@.len() && #[trigger] text_value(e@[i]) is None;
                        assert(!all_text(e@));
                    }
                }
                return Err(e);
            },
        },
    };
    let media_type = match media_type_from(field(d, "media_type")) {
        Ok(x) => x,
        Err(e) => return Err(e),
    };
    let extra = extras(entries, &known);
    Ok(StaticSource { items, media_type, extra })
}

fn json_from(d: &Doc, entries: &Vec<(Doc, Doc)>) -> (r: Result<JsonSource, String>)
    ensures
        lookup(*d, "url"@) is None ==> r is Err,
        r is Ok <==> json_ok(*d),
        r matches Ok(x) ==> {
            &&& Some(x.url@) == opt_text_of(lookup(*d, "url"@))
            &&& opt_chars(x.path) == opt_text_of(lookup(*d, "path"@))
            &&& x.media_type == media_type_of(lookup(*d, "media_type"@))
            &&& x.ttl == opt_span_of(lookup(*d, "ttl"@), "ttl"@)
        },
{
    let known = vec!["url", "headers", "path", "fields", "media_type", "ttl"];
    let url = match field(d, "url") {
        None => return Err(missing_err("url")),
        Some(v) => match text_of("url", v) {
            Ok(x) => x,
            Err(e) => return Err(e),
        },
    };
    let mut headers: Vec<(String, String)> = Vec::new();
    match field(d, "headers") {
        None => {},
        Some(h) => {
            let empty: Vec<(Doc, Doc)> = Vec::new();
            let inner = match entries_of("headers", h, &empty) {
                Ok(e) => e,
                Err(e) => return Err(e),
            };
            let mut i: usize = 0;
            while i < inner.len()
                invariant
                    0 <= i <= inner@.len(),
                    lookup(*d, "headers"@) == Some(*h),
                    inner@ == block_entries(*h),
                    *h is Table || *h is Null,
                    forall|j: int|
                        0 <= j < i ==> text_value(#[trigger] inner@[j].0) is Some && text_value(
                            inner@[j].1,
                        ) is Some,
                decreases inner.len() - i,
            {
                let name = match text_of("headers", &inner[i].0) {
                    Ok(x) => x,
                    Err(e) => {
                        assert(!text_block_ok(*h, true)) by {
                            assert(text_value(block_entries(*h)[i as int].0) is None);
                        }
                        return Err(e);
                    },
                };
                let value = match text_of("headers", &inner[i].1) {
                    Ok(x) => x,
                    Err(e) => {
                        assert(!text_block_ok(*h, true)) by {
                            assert(text_value(block_entries(*h)[i as int].1) is None);
                        }
                        return Err(e);
                    },
                };
                // In name order, as a `BTreeMap` would hold them.
                let mut at: usize = 0;
                while at < headers.len() && text_less(headers[at].0.as_str(), name.as_str())
                    invariant
                        0 <= at <= headers@.len(),
                    decreases headers.len() - at,
                {
                    at += 1;
                }
                if at < headers.len() && crate::text::string_eq(&headers[at].0, &name) {
                    headers.set(at, (name, value));
                } else {
                    headers.insert(at, (name, value));
                }
                i += 1;
            }
            assert(text_block_ok(*h, true));
        },
    }
    let path = match opt_text("path", field(d, "path")) {
        Ok(x) => x,
        Err(e) => return Err(e),
    };
    let fields = match field_map_from(field(d, "fields")) {
        Ok(x) => x,
        Err(e) => return Err(e),
    };
    let media_type = match media_type_from(field(d, "media_type")) {
        Ok(x) => x,
        Err(e) => return Err(e),
    };
    let ttl = match opt_span("ttl", field(d, "ttl")) {
        Ok(x) => x,
        Err(e) => return Err(e),
    };
    let extra = extras(entries, &known);
    Ok(JsonSource { url, headers, path, fields, media_type, ttl, extra })
}

fn arr_from(d: &Doc, entries: &Vec<(Doc, Doc)>) -> (r: Result<ArrSource, String>)
    ensures
        lookup(*d, "url"@) is None ==> r is Err,
        lookup(*d, "api_key"@) is None ==> r is Err,
        r is Ok <==> arr_ok(*d),
        r matches Ok(x) ==> {
            &&& Some(x.url@) == opt_text_of(lookup(*d, "url"@))
            &&& Some(x.api_key@) == opt_text_of(lookup(*d, "api_key"@))
            &&& x.monitored_only == (match lookup(*d, "monitored_only"@) {
                Some(Doc::Bool(b)) => b,
                _ => false,
            })
            &&& x.ttl == opt_span_of(lookup(*d, "ttl"@), "ttl"@)
        },
{
    let known = vec!["url", "api_key", "monitored_only", "ttl"];
    let url = match field(d, "url") {
        None => return Err(missing_err("url")),
        Some(v) => match text_of("url", v) {
            Ok(x) => x,
            Err(e) => return Err(e),
        },
    };
    let api_key = match field(d, "api_key") {
        None => return Err(missing_err("api_key")),
        Some(v) => match text_of("api_key", v) {
            Ok(x) => x,
            Err(e) => return Err(e),
        },
    };
    let monitored_only = match opt_bool("monitored_only", field(d, "monitored_only"), false) {
        Ok(x) => x,
        Err(e) => return Err(e),
    };
    let ttl = match opt_span("ttl", field(d, "ttl")) {
        Ok(x) => x,
        Err(e) => return Err(e),
    };
    let extra = extras(entries, &known);
    Ok(ArrSource { url, api_key, monitored_only, ttl, extra })
}

/// One source block, told apart by its `type:`.
fn source_from(d: &Doc) -> (r: Result<SourceConfig, String>)
    ensures
        r matches Ok(s) ==> lookup(*d, "type"@) matches Some(Doc::Text(t)) && t@
            == source_kind_text(s),
        r is Ok <==> source_ok(*d),
{
    let empty: Vec<(Doc, Doc)> = Vec::new();
    let entries = match entries_of("source", d, &empty) {
        Ok(e) => e,
        Err(e) => return Err(e),
    };
    let kinds: Vec<&str> = vec!["mdblist", "static", "json", "radarr", "sonarr"];
    let kind = match variant_of(
        "type",
        field(d, "type"),
        &kinds,
    ) {
        Ok(Some(k)) => k,
        Ok(None) => return Err(missing_err("type")),
        Err(e) => return Err(e),
    };
    if kind == 0 {
        match mdblist_from(d, entries) {
            Ok(x) => Ok(SourceConfig::Mdblist(x)),
            Err(e) => Err(e),
        }
    } else if kind == 1 {
        match static_from(d, entries) {
            Ok(x) => Ok(SourceConfig::Static(x)),
            Err(e) => Err(e),
        }
    } else if kind == 2 {
        match json_from(d, entries) {
            Ok(x) => Ok(SourceConfig::Json(x)),
            Err(e) => Err(e),
        }
    } else if kind == 3 {
        match arr_from(d, entries) {
            Ok(x) => Ok(SourceConfig::Radarr(x)),
            Err(e) => Err(e),
        }
    } else {
        match arr_from(d, entries) {
            Ok(x) => Ok(SourceConfig::Sonarr(x)),
            Err(e) => Err(e),
        }
    }
}

// ---------------------------------------------------------------------------
// The whole file
// ---------------------------------------------------------------------------

#[derive(Debug)]
pub struct Config {
    pub server: ServerConfig,
    pub cache: CacheConfig,
    pub providers: Providers,
    pub metadata: MetadataConfig,
    /// Named blocks of filter conditions, each as written.
    pub filters: Vec<(String, Doc)>,
    pub sources: Vec<(String, SourceConfig)>,
    pub lists: Vec<(String, ListConfig)>,
}

pub open spec fn names_of<T>(entries: Seq<(String, T)>) -> Seq<Seq<char>> {
    entries.map_values(|e: (String, T)| e.0@)
}

impl Config {
    /// What an empty file configures.
    pub fn default_value() -> (r: Config)
        ensures
            r.server.port == DEFAULT_PORT,
            r.cache.default_ttl == (Span { secs: DEFAULT_CACHE_TTL_SECS, nanos: 0 }),
            r.providers.mdblist is None,
            r.metadata.enabled,
            r.filters@.len() == 0,
            r.sources@.len() == 0,
            r.lists@.len() == 0,
    {
        Config {
            server: ServerConfig::default_value(),
            cache: CacheConfig::default_value(),
            providers: Providers { mdblist: None },
            metadata: MetadataConfig::default_value(),
            filters: Vec::new(),
            sources: Vec::new(),
            lists: Vec::new(),
        }
    }
}

/// A named block: the text of each key, in document order, with the block
/// decoded by `decode`.
fn named_entries<'a>(field_name: &str, d: Option<&'a Doc>, empty: &'a Vec<(Doc, Doc)>) -> (r: Result<
    &'a Vec<(Doc, Doc)>,
    String,
>)
    requires
        empty@.len() == 0,
    ensures
        d is None ==> (r matches Ok(x) && x@.len() == 0),
        d matches Some(Doc::Table(e)) ==> (r matches Ok(x) && *x == e),
        r is Err <==> (d matches Some(v) && !(v is Table || v is Null)),
        r matches Ok(x) ==> x@ == block_of(
            match d {
                Some(v) => Some(*v),
                None => None,
            },
        ),
{
    match d {
        None => Ok(empty),
        Some(v) => entries_of(field_name, v, empty),
    }
}

/// The entries of a named block: a mapping's entries, or none for a block
/// that is absent or empty.
pub open spec fn block_of(v: Option<Doc>) -> Seq<(Doc, Doc)> {
    match v {
        Some(Doc::Table(e)) => e@,
        _ => seq![],
    }
}

/// Whether a named block is absent, null or a mapping keyed by strings.
pub open spec fn named_ok(o: Option<Doc>) -> bool {
    &&& (o matches Some(v) ==> (v is Table || v is Null))
    &&& forall|i: int| 0 <= i < block_of(o).len() ==> text_value(#[trigger] block_of(o)[i].0) is Some
}

/// Whether a document is a configuration: null, or a mapping of the known
/// blocks, each well formed, with every source and list block well formed.
pub open spec fn config_ok(d: Doc) -> bool {
    ||| d is Null
    ||| {
        &&& block_ok(d, seq!["server"@, "cache"@, "providers"@, "metadata"@, "filters"@, "sources"@, "lists"@])
        &&& (lookup(d, "server"@) matches Some(v) ==> server_ok(v))
        &&& (lookup(d, "cache"@) matches Some(v) ==> cache_ok(v))
        &&& (lookup(d, "providers"@) matches Some(v) ==> providers_ok(v))
        &&& (lookup(d, "metadata"@) matches Some(v) ==> metadata_ok(v))
        &&& named_ok(lookup(d, "filters"@))
        &&& named_ok(lookup(d, "sources"@))
        &&& forall|i: int|
            0 <= i < block_of(lookup(d, "sources"@)).len() ==> source_ok(
                (#[trigger] block_of(lookup(d, "sources"@))[i]).1,
            )
        &&& named_ok(lookup(d, "lists"@))
        &&& forall|i: int|
            0 <= i < block_of(lookup(d, "lists"@)).len() ==> list_ok(
                (#[trigger] block_of(lookup(d, "lists"@))[i]).1,
            )
    }
}

/// What a configuration read from the document `d` holds: the port, the
/// sources, lists and filters in the order the document names them, each
/// under its name, with its type, formula or body.
pub open spec fn config_read(d: Doc, c: Config) -> bool {
    &&& lookup(d, "server"@) is None ==> c.server.port == DEFAULT_PORT
    &&& lookup(d, "sources"@) is None ==> c.sources@.len() == 0
    &&& lookup(d, "lists"@) is None ==> c.lists@.len() == 0
    &&& c.sources@.len() == block_of(lookup(d, "sources"@)).len()
    &&& forall|i: int|
        0 <= i < c.sources@.len() ==> {
            let entry = #[trigger] block_of(lookup(d, "sources"@))[i];
            &&& text_value(entry.0) == Some(c.sources@[i].0@)
            &&& lookup(entry.1, "type"@) matches Some(Doc::Text(t)) && t@ == source_kind_text(c.sources@[i].1)
        }
    &&& c.lists@.len() == block_of(lookup(d, "lists"@)).len()
    &&& forall|i: int|
        0 <= i < c.lists@.len() ==> {
            let entry = #[trigger] block_of(lookup(d, "lists"@))[i];
            &&& text_value(entry.0) == Some(c.lists@[i].0@)
            &&& formula_entry(entry.1) matches Some(Doc::Text(f)) && c.lists@[i].1.list_formula@ == f@
        }
    &&& c.filters@.len() == block_of(lookup(d, "filters"@)).len()
    &&& forall|i: int|
        0 <= i < c.filters@.len() ==> {
            let entry = #[trigger] block_of(lookup(d, "filters"@))[i];
            &&& text_value(entry.0) == Some(c.filters@[i].0@)
            &&& crate::doc::same_doc(entry.1, c.filters@[i].1)
        }
}

/// Turn a parsed document into a configuration. A null document, such as a
/// file of nothing but comments, is the empty configuration.
pub fn config_from_doc(d: &Doc) -> (r: Result<Config, String>)
    ensures
        *d is Null ==> (r matches Ok(c) && c.sources@.len() == 0 && c.lists@.len() == 0
            && c.server.port == DEFAULT_PORT),
        r is Ok <==> config_ok(*d),
        r matches Ok(c) ==> !(*d is Null) ==> config_read(*d, c),
{
    if d.is_null() {
        return Ok(Config::default_value());
    }
    let empty: Vec<(Doc, Doc)> = Vec::new();
    let entries = match entries_of("config", d, &empty) {
        Ok(e) => e,
        Err(e) => return Err(e),
    };
    let allowed: Vec<&str> = vec!["server", "cache", "providers", "metadata", "filters", "sources", "lists"];
    assert(allowed@.map_values(|a: &str| a@) =~= seq!["server"@, "cache"@, "providers"@, "metadata"@, "filters"@, "sources"@, "lists"@]);
    match deny_unknown(
        entries,
        &allowed,
    ) {
        Ok(()) => {},
        Err(e) => return Err(e),
    }
    let server = match field(d, "server") {
        None => ServerConfig::default_value(),
        Some(v) => match server_from(v) {
            Ok(x) => x,
            Err(e) => return Err(e),
        },
    };
    let cache = match field(d, "cache") {
        None => CacheConfig::default_value(),
        Some(v) => match cache_from(v) {
            Ok(x) => x,
            Err(e) => return Err(e),
        },
    };
    let providers = match field(d, "providers") {
        None => Providers { mdblist: None },
        Some(v) => match providers_from(v) {
            Ok(x) => x,
            Err(e) => return Err(e),
        },
    };
    let metadata = match field(d, "metadata") {
        None => MetadataConfig::default_value(),
        Some(v) => match metadata_from(v) {
            Ok(x) => x,
            Err(e) => return Err(e),
        },
    };
    let mut filters: Vec<(String, Doc)> = Vec::new();
    let block = match named_entries("filters", field(d, "filters"), &empty) {
        Ok(e) => e,
        Err(e) => return Err(e),
    };
    let ghost fb = block_of(lookup(*d, "filters"@));
    proof {
        assert(block@ == fb);
    }
    let mut i: usize = 0;
    while i < block.len()
        invariant
            0 <= i <= block@.len(),
            !(*d is Null),
            block@ == fb,
            fb == block_of(lookup(*d, "filters"@)),
            filters@.len() == i,
            forall|k: int|
                0 <= k < i ==> text_value((#[trigger] fb[k]).0) == Some(filters@[k].0@) && crate::doc::same_doc(
                    fb[k].1,
                    filters@[k].1,
                ),
        decreases block.len() - i,
    {
        let name = match text_of("filters", &block[i].0) {
            Ok(x) => x,
            Err(e) => {
                assert(!named_ok(lookup(*d, "filters"@))) by {
                    assert(text_value(fb[i as int].0) is None);
                }
                return Err(e);
            },
        };
        filters.push((name, block[i].1.duplicate()));
        i += 1;
    }
    let mut sources: Vec<(String, SourceConfig)> = Vec::new();
    let block = match named_entries("sources", field(d, "sources"), &empty) {
        Ok(e) => e,
        Err(e) => return Err(e),
    };
    let ghost sb = block_of(lookup(*d, "sources"@));
    proof {
        assert(block@ == sb);
    }
    let mut i: usize = 0;
    while i < block.len()
        invariant
            0 <= i <= block@.len(),
            !(*d is Null),
            sources@.len() == i,
            lookup(*d, "sources"@) is None ==> block@.len() == 0,
            block@ == sb,
            sb == block_of(lookup(*d, "sources"@)),
            forall|k: int|
                0 <= k < i ==> text_value((#[trigger] sb[k]).0) == Some(sources@[k].0@) && (lookup(
                    sb[k].1,
                    "type"@,
                ) matches Some(Doc::Text(t)) && t@ == source_kind_text(sources@[k].1)) && source_ok(sb[k].1),
            filters@.len() == fb.len(),
            forall|k: int|
                0 <= k < fb.len() ==> text_value((#[trigger] fb[k]).0) == Some(filters@[k].0@) && crate::doc::same_doc(
                    fb[k].1,
                    filters@[k].1,
                ),
        decreases block.len() - i,
    {
        let name = match text_of("sources", &block[i].0) {
            Ok(x) => x,
            Err(e) => {
                assert(!named_ok(lookup(*d, "sources"@))) by {
                    assert(text_value(sb[i as int].0) is None);
                }
                return Err(e);
            },
        };
        let source = match source_from(&block[i].1) {
            Ok(x) => x,
            Err(e) => {
                assert(!source_ok(sb[i as int].1));
                let mut m = from_str("sources.");
                push_str(&mut m, name.as_str());
                push_str(&mut m, ": ");
                push_str(&mut m, e.as_str());
                return Err(m);
            },
        };
        sources.push((name, source));
        i += 1;
    }
    let mut lists: Vec<(String, ListConfig)> = Vec::new();
    let block = match named_entries("lists", field(d, "lists"), &empty) {
        Ok(e) => e,
        Err(e) => return Err(e),
    };
    let ghost lb = block_of(lookup(*d, "lists"@));
    proof {
        assert(block@ == lb);
    }
    let mut i: usize = 0;
    while i < block.len()
        invariant
            0 <= i <= block@.len(),
            !(*d is Null),
            lists@.len() == i,
            lookup(*d, "lists"@) is None ==> block@.len() == 0,
            lookup(*d, "sources"@) is None ==> sources@.len() == 0,
            block@ == lb,
            lb == block_of(lookup(*d, "lists"@)),
            forall|k: int|
                0 <= k < i ==> text_value((#[trigger] lb[k]).0) == Some(lists@[k].0@) && (formula_entry(lb[k].1) matches Some(
                    Doc::Text(f),
                ) && lists@[k].1.list_formula@ == f@) && list_ok(lb[k].1),
            sources@.len() == sb.len(),
            forall|k: int|
                0 <= k < sb.len() ==> text_value((#[trigger] sb[k]).0) == Some(sources@[k].0@) && (lookup(
                    sb[k].1,
                    "type"@,
                ) matches Some(Doc::Text(t)) && t@ == source_kind_text(sources@[k].1)) && source_ok(sb[k].1),
            filters@.len() == fb.len(),
            forall|k: int|
                0 <= k < fb.len() ==> text_value((#[trigger] fb[k]).0) == Some(filters@[k].0@) && crate::doc::same_doc(
                    fb[k].1,
                    filters@[k].1,
                ),
        decreases block.len() - i,
    {
        let name = match text_of("lists", &block[i].0) {
            Ok(x) => x,
            Err(e) => {
                assert(!named_ok(lookup(*d, "lists"@))) by {
                    assert(text_value(lb[i as int].0) is None);
                }
                return Err(e);
            },
        };
        let list = match list_from(&block[i].1) {
            Ok(x) => x,
            Err(e) => {
                assert(!list_ok(lb[i as int].1));
                let mut m = from_str("lists.");
                push_str(&mut m, name.as_str());
                push_str(&mut m, ": ");
                push_str(&mut m, e.as_str());
                return Err(m);
            },
        };
        lists.push((name, list));
        i += 1;
    }
    Ok(Config { server, cache, providers, metadata, filters, sources, lists })
}

} // verus!
