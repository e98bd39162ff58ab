//! Loading, environment interpolation and validation of `config.yml`.

pub mod compile;
pub mod model;
pub mod order;
pub mod render;
pub mod template;

use vstd::prelude::*;

use crate::doc::{
    lemma_same_doc_symmetric, lemma_same_doc_transitive, parse_yaml, same_doc, yaml_document, Doc,
};
use crate::text::{contains_text, ends_with, from_str, push_str, starts_with, str_eq, trim};
use model::{config_from_doc, config_ok, config_read, Config};
use template::{
    asked, char_pieces, fill_spec, interpolate_with, lemma_fill_char_pieces, lemma_pieces_without_reference,
    template_spec,
};

verus! {

/// Whether a value is nothing but one `${...}`, so that what it expands to
/// may take the type it reads as.
pub open spec fn single_expansion(text: Seq<char>) -> bool {
    let t = trim(text);
    starts_with(t, "${"@) && ends_with(t, "}"@) && !contains_text(t.subrange(2, t.len() as int), "${"@)
}

pub fn is_single_expansion(text: &str) -> (r: bool)
    ensures
        r == single_expansion(text@),
{
    let t = crate::text::trim_string(text);
    if !crate::text::str_starts_with(t.as_str(), "${") {
        return false;
    }
    if !crate::text::str_ends_with(t.as_str(), "}") {
        return false;
    }
    let v = crate::text::chars_of(t.as_str());
    proof {
        reveal_strlit("${");
    }
    let rest = crate::text::string_of_range(&v, 2, v.len());
    !crate::text::str_contains(rest.as_str(), "${")
}

/// Whether an expanded scalar takes the type of what it expanded to: it was
/// one `${...}`, the expansion changed it, and the result reads as YAML that
/// is not null. So `port: ${PORT:-9797}` is still a number and
/// `apikey: ${KEY:-}` stays an empty string.
pub open spec fn retyped(original: Seq<char>, expanded: Seq<char>) -> bool {
    &&& expanded != original
    &&& single_expansion(original)
    &&& yaml_document(expanded) is Ok
    &&& !(yaml_document(expanded)->Ok_0 is Null)
}

fn settle(original: &str, expanded: String) -> (r: Doc)
    ensures
        retyped(original@, expanded@) ==> r == yaml_document(expanded@)->Ok_0,
        !retyped(original@, expanded@) ==> (r matches Doc::Text(s) && s@ == expanded@),
{
    if !str_eq(expanded.as_str(), original) && is_single_expansion(original) {
        match parse_yaml(expanded.as_str()) {
            Ok(parsed) => {
                if !parsed.is_null() {
                    return parsed;
                }
            },
            Err(_) => {},
        }
    }
    Doc::Text(expanded)
}

/// What a text becomes once its references are filled in to `expanded`:
/// the value it reads as, where it is one `${...}` that changed and reads as
/// YAML that is not null; otherwise the text itself.
pub open spec fn settled(original: Seq<char>, expanded: Seq<char>, d: Doc) -> bool {
    if retyped(original, expanded) {
        d == yaml_document(expanded)->Ok_0
    } else {
        d matches Doc::Text(s) && s@ == expanded
    }
}

/// What a text value becomes under the answers `lookup` gives: a malformed
/// reference is its error; otherwise the pieces are filled with what
/// `lookup` answered for each name, and the result is the filled text,
/// settled, or the first reference left without a value.
pub open spec fn text_expands<F: Fn(&str) -> Option<String>>(lookup: F, t: Seq<char>, r: Result<Doc, String>) -> bool {
    match template_spec(t) {
        Err(m) => r matches Err(e) && e@ == m,
        Ok(ps) => exists|vals: Seq<Option<Seq<char>>>, upto: int|
            #[trigger] asked(lookup, ps, vals, upto) && vals.len() == ps.len() && 0 <= upto <= ps.len()
                && match r {
                Ok(d) => upto == ps.len() && (fill_spec(ps, vals) matches Ok(x) && settled(t, x, d)),
                Err(e) => fill_spec(ps.subrange(0, upto), vals.subrange(0, upto)) == Err::<
                    Seq<char>,
                    Seq<char>,
                >(e@),
            },
    }
}

/// The first entry from `i` on whose key is the same document as `k`.
pub open spec fn key_from(m: Seq<(Doc, Doc)>, k: Doc, i: int) -> Option<int>
    decreases m.len() - i,
{
    if i < 0 || i >= m.len() {
        None
    } else if same_doc(m[i].0, k) {
        Some(i)
    } else {
        key_from(m, k, i + 1)
    }
}

proof fn lemma_key_from(m: Seq<(Doc, Doc)>, k: Doc, i: int, x: Option<int>)
    requires
        0 <= i <= m.len(),
        match x {
            Some(p) => i <= p < m.len() && same_doc(m[p].0, k) && forall|j: int| i <= j < p ==> !same_doc(#[trigger] m[j].0, k),
            None => forall|j: int| i <= j < m.len() ==> !same_doc(#[trigger] m[j].0, k),
        },
    ensures
        key_from(m, k, i) == x,
    decreases m.len() - i,
{
    if i < m.len() {
        if x != Some(i) {
            assert(!same_doc(m[i].0, k));
            lemma_key_from(m, k, i + 1, x);
        }
    }
}

/// A mapping rebuilt from its expanded keys and values, in order: a key the
/// same as one already present replaces that entry's value in place.
pub open spec fn merged(ks: Seq<Doc>, vs: Seq<Doc>) -> Seq<(Doc, Doc)>
    decreases ks.len(),
{
    if ks.len() == 0 || vs.len() == 0 {
        seq![]
    } else {
        let m = merged(ks.drop_last(), vs.drop_last());
        match key_from(m, ks.last(), 0) {
            Some(x) => m.update(x, (m[x].0, vs.last())),
            None => m.push((ks.last(), vs.last())),
        }
    }
}

/// What expanding every scalar of `value` gives under the answers `lookup`
/// gives: each text as `text_expands` says, lists element by element, and
/// mappings rebuilt entry by entry from expanded keys and values; an error
/// is one that some text of the document expands to.
pub open spec fn expands_to<F: Fn(&str) -> Option<String>>(lookup: F, value: Doc, r: Result<Doc, String>) -> bool
    decreases value,
{
    match value {
        Doc::Null => r matches Ok(d) && d is Null,
        Doc::Bool(b) => r matches Ok(d) && d == Doc::Bool(b),
        Doc::Number(n) => r matches Ok(d) && same_doc(Doc::Number(n), d),
        Doc::Text(t) => text_expands(lookup, t@, r),
        Doc::List(items) => match r {
            Ok(d) => d matches Doc::List(out) && out@.len() == items@.len() && forall|i: int|
                0 <= i < items@.len() ==> expands_to(lookup, items@[i], Ok(#[trigger] out@[i])),
            Err(e) => exists|i: int| 0 <= i < items@.len() && expands_to(lookup, #[trigger] items@[i], Err(e)),
        },
        Doc::Table(entries) => match r {
            Ok(d) => d matches Doc::Table(out) && exists|ks: Seq<Doc>, vs: Seq<Doc>|
                ks.len() == entries@.len() && vs.len() == entries@.len() && (forall|i: int|
                    0 <= i < entries@.len() ==> expands_to(lookup, entries@[i].0, Ok(#[trigger] ks[i]))
                        && expands_to(lookup, entries@[i].1, Ok(vs[i]))) && #[trigger] merged(ks, vs) == out@,
            Err(e) => exists|i: int|
                0 <= i < entries@.len() && (expands_to(lookup, #[trigger] entries@[i].0, Err(e)) || expands_to(
                    lookup,
                    entries@[i].1,
                    Err(e),
                )),
        },
    }
}

fn expand_document<F: Fn(&str) -> Option<String>>(value: &Doc, lookup: &F) -> (r: Result<
    Doc,
    String,
>)
    requires
        forall|s: &str| lookup.requires((s,)),
    ensures
        expands_to(lookup, *value, r),
    decreases value,
{
    match value {
        Doc::Text(text) => {
            let filled = interpolate_with(text.as_str(), lookup);
            let expanded = match filled {
                Ok(e) => e,
                Err(e) => {
                    let r = Err(e);
                    proof {
                        if let Ok(ps) = template_spec(text@) {
                            let (vals, upto) = choose|vals: Seq<Option<Seq<char>>>, upto: int|
                                #[trigger] template::filled_by(ps, vals, filled) && 0 <= upto <= ps.len()
                                    && #[trigger] asked(lookup, ps, vals, upto) && (filled is Ok ==> upto
                                    == ps.len()) && (filled matches Err(e) ==> fill_spec(
                                    ps.subrange(0, upto),
                                    vals.subrange(0, upto),
                                ) == Err::<Seq<char>, Seq<char>>(e@));
                            assert(asked(lookup, ps, vals, upto));
                        }
                    }
                    return r;
                },
            };
            let ghost x = expanded@;
            let settled_doc = settle(text.as_str(), expanded);
            proof {
                if let Ok(ps) = template_spec(text@) {
                    let (vals, upto) = choose|vals: Seq<Option<Seq<char>>>, upto: int|
                        #[trigger] template::filled_by(ps, vals, filled) && 0 <= upto <= ps.len()
                            && #[trigger] asked(lookup, ps, vals, upto) && (filled is Ok ==> upto == ps.len())
                            && (filled matches Err(e) ==> fill_spec(ps.subrange(0, upto), vals.subrange(0, upto))
                            == Err::<Seq<char>, Seq<char>>(e@));
                    assert(fill_spec(ps, vals) == Ok::<Seq<char>, Seq<char>>(x));
                    assert(asked(lookup, ps, vals, upto));
                }
            }
            Ok(settled_doc)
        },
        Doc::List(items) => {
            let mut out: Vec<Doc> = Vec::new();
            let mut i: usize = 0;
            while i < items.len()
                invariant
                    *value == Doc::List(*items),
                    out@.len() == i,
                    i <= items@.len(),
                    forall|s: &str| lookup.requires((s,)),
                    forall|j: int| 0 <= j < i ==> expands_to(lookup, items@[j], Ok(#[trigger] out@[j])),
                decreases items.len() - i,
            {
                proof {
                    assert(decreases_to!(*value => (*value)->List_0));
                    assert(decreases_to!(*items => items@));
                    assert(decreases_to!(items@ => items@[i as int]));
                    assert(decreases_to!(*value => items@[i as int]));
                }
                let expanded = match expand_document(&items[i], lookup) {
                    Ok(d) => d,
                    Err(e) => {
                        let r = Err(e);
                        proof {
                            assert(expands_to(lookup, items@[i as int], r));
                        }
                        return r;
                    },
                };
                out.push(expanded);
                i += 1;
            }
            let r = Ok(Doc::List(out));
            assert(forall|j: int| 0 <= j < items@.len() ==> expands_to(lookup, items@[j], Ok(#[trigger] out@[j])));
            r
        },
        Doc::Table(entries) => {
            let mut out: Vec<(Doc, Doc)> = Vec::new();
            let ghost mut ks: Seq<Doc> = seq![];
            let ghost mut vs: Seq<Doc> = seq![];
            let mut i: usize = 0;
            while i < entries.len()
                invariant
                    *value == Doc::Table(*entries),
                    i <= entries@.len(),
                    forall|s: &str| lookup.requires((s,)),
                    ks.len() == i,
                    vs.len() == i,
                    forall|j: int|
                        0 <= j < i ==> expands_to(lookup, entries@[j].0, Ok(#[trigger] ks[j]))
                            && expands_to(lookup, entries@[j].1, Ok(vs[j])),
                    merged(ks, vs) == out@,
                decreases entries.len() - i,
            {
                proof {
                    assert(decreases_to!(*value => (*value)->Table_0));
                    assert(decreases_to!(*entries => entries@));
                    assert(decreases_to!(entries@ => entries@[i as int]));
                    assert(decreases_to!(*value => entries@[i as int].0));
                    assert(decreases_to!(*value => entries@[i as int].1));
                }
                let key = match expand_document(&entries[i].0, lookup) {
                    Ok(d) => d,
                    Err(e) => {
                        let r = Err(e);
                        assert(expands_to(lookup, entries@[i as int].0, r));
                        return r;
                    },
                };
                let entry = match expand_document(&entries[i].1, lookup) {
                    Ok(d) => d,
                    Err(e) => {
                        let r = Err(e);
                        assert(expands_to(lookup, entries@[i as int].1, r));
                        return r;
                    },
                };
                // A key the same as one already present replaces that
                // entry's value in place, as the rebuilt mapping would.
                let mut at: Option<usize> = None;
                let mut j: usize = 0;
                while j < out.len() && at.is_none()
                    invariant
                        j <= out@.len(),
                        at matches Some(x) ==> x < out@.len() && same_doc(out@[x as int].0, key) && forall|jj: int|
                            0 <= jj < x ==> !same_doc(#[trigger] out@[jj].0, key),
                        at is None ==> forall|jj: int| 0 <= jj < j ==> !same_doc(#[trigger] out@[jj].0, key),
                    decreases out.len() - j,
                {
                    if out[j].0.same(&key) {
                        at = Some(j);
                    }
                    j += 1;
                }
                proof {
                    lemma_key_from(out@, key, 0, match at {
                        Some(x) => Some(x as int),
                        None => None,
                    });
                    let ks2 = ks.push(key);
                    let vs2 = vs.push(entry);
                    assert(ks2.drop_last() =~= ks);
                    assert(vs2.drop_last() =~= vs);
                }
                let ghost prior = out@;
                match at {
                    Some(x) => {
                        let old_pair = out.remove(x);
                        out.insert(x, (old_pair.0, entry));
                        assert(out@ =~= prior.update(x as int, (prior[x as int].0, entry)));
                    },
                    None => out.push((key, entry)),
                }
                proof {
                    ks = ks.push(key);
                    vs = vs.push(entry);
                }
                i += 1;
            }
            let r = Ok(Doc::Table(out));
            proof {
                assert(merged(ks, vs) == out@);
            }
            r
        },
        Doc::Null => Ok(Doc::Null),
        Doc::Bool(b) => Ok(Doc::Bool(*b)),
        Doc::Number(n) => Ok(Doc::Number(n.duplicate())),
    }
}

/// Whether no two entries have keys that are the same document.
pub open spec fn keys_distinct(entries: Seq<(Doc, Doc)>) -> bool {
    forall|i: int, j: int| 0 <= i < j < entries.len() ==> !same_doc(#[trigger] entries[i].0, #[trigger] entries[j].0)
}

/// Whether a document is read as it stands: no text in it, key or value,
/// holds `${`, and no mapping in it has two keys that are the same document.
pub open spec fn plain_doc(d: Doc) -> bool
    decreases d,
{
    match d {
        Doc::Text(t) => !contains_text(t@, "${"@),
        Doc::List(items) => forall|i: int| 0 <= i < items@.len() ==> plain_doc(#[trigger] items@[i]),
        Doc::Table(entries) => (forall|i: int|
            0 <= i < entries@.len() ==> plain_doc(#[trigger] entries@[i].0) && plain_doc(entries@[i].1))
            && keys_distinct(entries@),
        _ => true,
    }
}

/// Rebuilding a mapping whose keys are all different keeps every entry,
/// in order.
proof fn lemma_merged_distinct(ks: Seq<Doc>, vs: Seq<Doc>)
    requires
        ks.len() == vs.len(),
        forall|i: int, j: int| 0 <= i < j < ks.len() ==> !same_doc(#[trigger] ks[i], #[trigger] ks[j]),
    ensures
        merged(ks, vs) == Seq::new(ks.len(), |i: int| (ks[i], vs[i])),
    decreases ks.len(),
{
    if ks.len() == 0 {
        assert(merged(ks, vs) =~= Seq::new(ks.len(), |i: int| (ks[i], vs[i])));
    } else {
        let n = ks.len() - 1;
        lemma_merged_distinct(ks.drop_last(), vs.drop_last());
        let m = merged(ks.drop_last(), vs.drop_last());
        assert forall|j: int| 0 <= j < m.len() implies !same_doc(#[trigger] m[j].0, ks.last()) by {
            assert(m[j].0 == ks[j]);
            assert(!same_doc(ks[j], ks[n]));
        }
        lemma_key_from(m, ks.last(), 0, None);
        assert(m.push((ks.last(), vs.last())) =~= Seq::new(ks.len(), |i: int| (ks[i], vs[i])));
    }
}

/// Keys expanded from keys that are all different are all different.
proof fn lemma_keys_stay_distinct(entries: Seq<(Doc, Doc)>, ks: Seq<Doc>)
    requires
        ks.len() == entries.len(),
        forall|i: int| 0 <= i < entries.len() ==> same_doc(#[trigger] entries[i].0, ks[i]),
        forall|i: int, j: int|
            0 <= i < j < entries.len() ==> !same_doc(#[trigger] entries[i].0, #[trigger] entries[j].0),
    ensures
        forall|i: int, j: int| 0 <= i < j < ks.len() ==> !same_doc(#[trigger] ks[i], #[trigger] ks[j]),
{
    assert forall|i: int, j: int| 0 <= i < j < ks.len() implies !same_doc(#[trigger] ks[i], #[trigger] ks[j]) by {
        if same_doc(ks[i], ks[j]) {
            assert(same_doc(entries[i].0, ks[i]));
            assert(same_doc(entries[j].0, ks[j]));
            lemma_same_doc_transitive(entries[i].0, ks[i], ks[j]);
            lemma_same_doc_symmetric(entries[j].0, ks[j]);
            lemma_same_doc_transitive(entries[i].0, ks[j], entries[j].0);
            assert(!same_doc(entries[i].0, entries[j].0));
        }
    }
}

/// Expanding a document with no reference in it gives the same document,
/// whatever the environment holds.
pub proof fn lemma_plain_expands_unchanged<F: Fn(&str) -> Option<String>>(
    lookup: F,
    value: Doc,
    r: Result<Doc, String>,
)
    requires
        plain_doc(value),
        expands_to(lookup, value, r),
    ensures
        r matches Ok(d) && same_doc(value, d),
    decreases value,
{
    match value {
        Doc::Text(t) => {
            lemma_pieces_without_reference(t@, 0);
            assert(t@.subrange(0, t@.len() as int) =~= t@);
            let ps = char_pieces(t@);
            assert(template_spec(t@) == Ok::<Seq<template::PieceV>, Seq<char>>(ps));
            let (vals, upto) = choose|vals: Seq<Option<Seq<char>>>, upto: int|
                #[trigger] asked(lookup, ps, vals, upto) && vals.len() == ps.len() && 0 <= upto <= ps.len()
                    && match r {
                    Ok(d) => upto == ps.len() && (fill_spec(ps, vals) matches Ok(x) && settled(t@, x, d)),
                    Err(e) => fill_spec(ps.subrange(0, upto), vals.subrange(0, upto)) == Err::<
                        Seq<char>,
                        Seq<char>,
                    >(e@),
                };
            lemma_fill_char_pieces(t@, vals);
            assert(ps.subrange(0, upto) =~= char_pieces(t@.subrange(0, upto)));
            lemma_fill_char_pieces(t@.subrange(0, upto), vals.subrange(0, upto));
        },
        Doc::List(items) => {
            match r {
                Ok(d) => {
                    let out = d->List_0;
                    assert forall|i: int| 0 <= i < items@.len() implies same_doc(items@[i], #[trigger] out@[i]) by {
                        assert(decreases_to!(value => items));
                        assert(decreases_to!(items => items@));
                        assert(decreases_to!(items@ => items@[i]));
                        assert(plain_doc(items@[i]));
                        lemma_plain_expands_unchanged(lookup, items@[i], Ok(out@[i]));
                    }
                },
                Err(e) => {
                    let i = choose|i: int| 0 <= i < items@.len() && expands_to(lookup, #[trigger] items@[i], Err(e));
                    assert(decreases_to!(value => items));
                    assert(decreases_to!(items => items@));
                    assert(decreases_to!(items@ => items@[i]));
                    assert(plain_doc(items@[i]));
                    lemma_plain_expands_unchanged(lookup, items@[i], Err(e));
                },
            }
        },
        Doc::Table(entries) => {
            match r {
                Ok(d) => {
                    let out = d->Table_0;
                    let (ks, vs) = choose|ks: Seq<Doc>, vs: Seq<Doc>|
                        ks.len() == entries@.len() && vs.len() == entries@.len() && (forall|i: int|
                            0 <= i < entries@.len() ==> expands_to(lookup, entries@[i].0, Ok(#[trigger] ks[i]))
                                && expands_to(lookup, entries@[i].1, Ok(vs[i]))) && #[trigger] merged(ks, vs) == out@;
                    assert forall|i: int| 0 <= i < entries@.len() implies same_doc(entries@[i].0, #[trigger] ks[i])
                        && same_doc(entries@[i].1, vs[i]) by {
                        assert(decreases_to!(value => entries));
                        assert(decreases_to!(entries => entries@));
                        assert(decreases_to!(entries@ => entries@[i]));
                        assert(plain_doc(entries@[i].0) && plain_doc(entries@[i].1));
                        lemma_plain_expands_unchanged(lookup, entries@[i].0, Ok(ks[i]));
                        lemma_plain_expands_unchanged(lookup, entries@[i].1, Ok(vs[i]));
                    }
                    lemma_keys_stay_distinct(entries@, ks);
                    lemma_merged_distinct(ks, vs);
                    assert forall|i: int| 0 <= i < entries@.len() implies same_doc(entries@[i].0, #[trigger] out@[i].0)
                        && same_doc(entries@[i].1, out@[i].1) by {
                        assert(out@[i] == (ks[i], vs[i]));
                        assert(same_doc(entries@[i].0, ks[i]));
                    }
                },
                Err(e) => {
                    let i = choose|i: int|
                        0 <= i < entries@.len() && (expands_to(lookup, #[trigger] entries@[i].0, Err(e)) || expands_to(
                            lookup,
                            entries@[i].1,
                            Err(e),
                        ));
                    assert(decreases_to!(value => entries));
                    assert(decreases_to!(entries => entries@));
                    assert(decreases_to!(entries@ => entries@[i]));
                    assert(plain_doc(entries@[i].0) && plain_doc(entries@[i].1));
                    if expands_to(lookup, entries@[i].0, Err(e)) {
                        lemma_plain_expands_unchanged(lookup, entries@[i].0, Err(e));
                    } else {
                        lemma_plain_expands_unchanged(lookup, entries@[i].1, Err(e));
                    }
                },
            }
        },
        _ => {},
    }
}

/// A document with no reference in it is one of the documents it expands
/// to: itself.
pub proof fn lemma_plain_expands_to_itself<F: Fn(&str) -> Option<String>>(lookup: F, value: Doc)
    requires
        plain_doc(value),
    ensures
        expands_to(lookup, value, Ok(value)),
    decreases value,
{
    match value {
        Doc::Text(t) => {
            lemma_pieces_without_reference(t@, 0);
            assert(t@.subrange(0, t@.len() as int) =~= t@);
            let ps = char_pieces(t@);
            let vals = Seq::new(ps.len(), |k: int| None::<Seq<char>>);
            lemma_fill_char_pieces(t@, vals);
            assert(asked(lookup, ps, vals, ps.len() as int));
            assert(settled(t@, t@, value));
        },
        Doc::List(items) => {
            assert forall|i: int| 0 <= i < items@.len() implies expands_to(lookup, items@[i], Ok(#[trigger] items@[i])) by {
                assert(decreases_to!(value => items));
                assert(decreases_to!(items => items@));
                assert(decreases_to!(items@ => items@[i]));
                assert(plain_doc(items@[i]));
                lemma_plain_expands_to_itself(lookup, items@[i]);
            }
        },
        Doc::Table(entries) => {
            let ks = Seq::new(entries@.len(), |i: int| entries@[i].0);
            let vs = Seq::new(entries@.len(), |i: int| entries@[i].1);
            assert forall|i: int| 0 <= i < entries@.len() implies expands_to(lookup, entries@[i].0, Ok(#[trigger] ks[i]))
                && expands_to(lookup, entries@[i].1, Ok(vs[i])) by {
                assert(decreases_to!(value => entries));
                assert(decreases_to!(entries => entries@));
                assert(decreases_to!(entries@ => entries@[i]));
                assert(plain_doc(entries@[i].0) && plain_doc(entries@[i].1));
                lemma_plain_expands_to_itself(lookup, entries@[i].0);
                lemma_plain_expands_to_itself(lookup, entries@[i].1);
            }
            assert forall|i: int, j: int| 0 <= i < j < ks.len() implies !same_doc(#[trigger] ks[i], #[trigger] ks[j]) by {
                assert(!same_doc(entries@[i].0, entries@[j].0));
            }
            lemma_merged_distinct(ks, vs);
            assert(merged(ks, vs) =~= entries@);
        },
        _ => {},
    }
}

/// Whether a document is read as it stands (`plain_doc`).
pub fn is_plain(d: &Doc) -> (r: bool)
    ensures
        r == plain_doc(*d),
    decreases d,
{
    match d {
        Doc::Text(t) => !crate::text::str_contains(t.as_str(), "${"),
        Doc::List(items) => {
            let mut i: usize = 0;
            while i < items.len()
                invariant
                    *d == Doc::List(*items),
                    i <= items@.len(),
                    forall|j: int| 0 <= j < i ==> plain_doc(#[trigger] items@[j]),
                decreases items.len() - i,
            {
                proof {
                    assert(decreases_to!(*d => (*d)->List_0));
                    assert(decreases_to!(*items => items@));
                    assert(decreases_to!(items@ => items@[i as int]));
                    assert(decreases_to!(*d => items@[i as int]));
                }
                if !is_plain(&items[i]) {
                    return false;
                }
                i += 1;
            }
            true
        },
        Doc::Table(entries) => {
            let mut i: usize = 0;
            while i < entries.len()
                invariant
                    *d == Doc::Table(*entries),
                    i <= entries@.len(),
                    forall|j: int| 0 <= j < i ==> plain_doc(#[trigger] entries@[j].0) && plain_doc(entries@[j].1),
                    forall|a: int, b: int|
                        0 <= a < b < i ==> !same_doc(#[trigger] entries@[a].0, #[trigger] entries@[b].0),
                decreases entries.len() - i,
            {
                proof {
                    assert(decreases_to!(*d => (*d)->Table_0));
                    assert(decreases_to!(*entries => entries@));
                    assert(decreases_to!(entries@ => entries@[i as int]));
                    assert(decreases_to!(*d => entries@[i as int].0));
                    assert(decreases_to!(*d => entries@[i as int].1));
                }
                if !is_plain(&entries[i].0) || !is_plain(&entries[i].1) {
                    return false;
                }
                let mut j: usize = 0;
                while j < i
                    invariant
                        *d == Doc::Table(*entries),
                        i < entries@.len(),
                        j <= i,
                        forall|jj: int|
                            0 <= jj <= i ==> plain_doc(#[trigger] entries@[jj].0) && plain_doc(entries@[jj].1),
                        forall|a: int, b: int|
                            0 <= a < b < i ==> !same_doc(#[trigger] entries@[a].0, #[trigger] entries@[b].0),
                        forall|a: int| 0 <= a < j ==> !same_doc(#[trigger] entries@[a].0, entries@[i as int].0),
                    decreases i - j,
                {
                    if entries[j].0.same(&entries[i].0) {
                        proof {
                            let a = j as int;
                            let b = i as int;
                            assert(same_doc(entries@[a].0, entries@[b].0));
                            assert(!keys_distinct(entries@));
                            assert(!plain_doc(*d));
                        }
                        return false;
                    }
                    j += 1;
                }
                i += 1;
            }
            true
        },
        _ => true,
    }
}

/// Expand `${VAR}` in every scalar of a parsed document, keys included,
/// asking `lookup` for the value of each variable. A document with no `${`
/// in it comes back as it was.
///
/// Substituting into the raw text instead would also rewrite comments, so a
/// comment mentioning `${SOME_VAR}` would demand that the variable exist.
pub fn interpolate_document<F: Fn(&str) -> Option<String>>(value: &Doc, lookup: &F) -> (r: Result<
    Doc,
    String,
>)
    requires
        forall|s: &str| lookup.requires((s,)),
    ensures
        expands_to(lookup, *value, r),
        plain_doc(*value) ==> (r matches Ok(d) && same_doc(*value, d)),
{
    let r = expand_document(value, lookup);
    proof {
        if plain_doc(*value) {
            lemma_plain_expands_unchanged(lookup, *value, r);
        }
    }
    r
}

/// What reading a configuration from an expanded document gives: the
/// expansion's error, or the configuration the document holds where it is
/// a valid one.
pub open spec fn read_outcome(x: Result<Doc, String>, r: Result<Config, String>) -> bool {
    match x {
        Err(e) => r matches Err(m) && m@ == e@,
        Ok(d) => (r is Ok <==> config_ok(d)) && (r matches Ok(c) ==> !(d is Null) ==> config_read(d, c)),
    }
}

/// Parse and interpolate a config file's text, asking `lookup` for the value
/// of each `${VAR}`. A file that is entirely comments is a valid, empty
/// configuration; a file with no `${` in it is read as it stands.
pub fn parse_str_with<F: Fn(&str) -> Option<String>>(raw: &str, lookup: &F) -> (r: Result<
    Config,
    String,
>)
    requires
        forall|s: &str| lookup.requires((s,)),
    ensures
        yaml_document(raw@) matches Err(m) ==> (r matches Err(e) && e@ == "parsing YAML: "@ + m),
        (yaml_document(raw@) matches Ok(d) && d is Null) ==> (r matches Ok(c)
            && c.sources@.len() == 0 && c.lists@.len() == 0 && c.server.port
            == model::DEFAULT_PORT),
        yaml_document(raw@) matches Ok(d) ==> !(d is Null) ==> exists|x: Result<Doc, String>|
            #[trigger] expands_to(lookup, d, x) && read_outcome(x, r),
        yaml_document(raw@) matches Ok(d) ==> !(d is Null) ==> plain_doc(d) ==> read_outcome(Ok(d), r),
{
    let document = match crate::doc::read_yaml(raw) {
        Ok(d) => d,
        Err(e) => return Err(e),
    };
    if document.is_null() {
        return Ok(Config::default_value());
    }
    if is_plain(&document) {
        let r = read_config(&document);
        proof {
            lemma_plain_expands_to_itself(lookup, document);
            assert(expands_to(lookup, document, Ok(document)));
        }
        return r;
    }
    let expanded = interpolate_document(&document, lookup);
    let r = match expanded {
        Ok(d) => read_config(&d),
        Err(e) => Err(e),
    };
    proof {
        assert(expands_to(lookup, document, expanded));
    }
    r
}

fn read_config(d: &Doc) -> (r: Result<Config, String>)
    ensures
        read_outcome(Ok(*d), r),
{
    match config_from_doc(d) {
        Ok(c) => Ok(c),
        Err(e) => {
            let mut m = from_str("reading config: ");
            push_str(&mut m, e.as_str());
            Err(m)
        },
    }
}

} // verus!
