//! Loosely typed documents: the YAML of the config file and the JSON that
//! sources answer with, as one tree of plain values.

use vstd::prelude::*;

use crate::text::{clone_string, trim, trim_string};

verus! {

/// A number as the document wrote it: its value where it is a whole number
/// that fits, and its decimal rendering.
#[derive(Debug)]
pub struct Number {
    /// The value, where it is a whole number in `0..=u64::MAX`.
    pub unsigned: Option<u64>,
    /// The value, where it is a whole number in `i64::MIN..=i64::MAX`.
    pub signed: Option<i64>,
    /// How the number prints.
    pub text: String,
}

/// One node of a document.
#[derive(Debug)]
pub enum Doc {
    Null,
    Bool(bool),
    Number(Number),
    Text(String),
    List(Vec<Doc>),
    /// Entries in the order the parser hands them over: document order for
    /// YAML, key order for a JSON object.
    Table(Vec<(Doc, Doc)>),
}

pub open spec fn key_of(entry: (Doc, Doc)) -> Doc {
    entry.0
}

pub open spec fn value_of(entry: (Doc, Doc)) -> Doc {
    entry.1
}

/// Whether `d` is the text `k`.
pub open spec fn is_text(d: Doc, k: Seq<char>) -> bool {
    d matches Doc::Text(s) && s@ == k
}

/// The index of the first entry whose key is the text `k`.
pub open spec fn entry_index(entries: Seq<(Doc, Doc)>, k: Seq<char>) -> Option<int>
    decreases entries.len(),
{
    if entries.len() == 0 {
        None
    } else if is_text(key_of(entries[0]), k) {
        Some(0)
    } else {
        match entry_index(entries.drop_first(), k) {
            Some(i) => Some(i + 1),
            None => None,
        }
    }
}

pub proof fn lemma_entry_index(entries: Seq<(Doc, Doc)>, k: Seq<char>)
    ensures
        entry_index(entries, k) matches Some(i) ==> 0 <= i < entries.len() && is_text(
            key_of(entries[i]),
            k,
        ) && forall|j: int| 0 <= j < i ==> !is_text(key_of(#[trigger] entries[j]), k),
        entry_index(entries, k) is None ==> forall|j: int|
            0 <= j < entries.len() ==> !is_text(key_of(#[trigger] entries[j]), k),
    decreases entries.len(),
{
    if entries.len() > 0 {
        lemma_entry_index(entries.drop_first(), k);
        assert forall|j: int| 1 <= j < entries.len() implies entries[j] == entries.drop_first()[j
            - 1] by {}
    }
}

/// The value under the text key `k`, for a table.
pub open spec fn lookup(d: Doc, k: Seq<char>) -> Option<Doc> {
    match d {
        Doc::Table(entries) => match entry_index(entries@, k) {
            Some(i) => Some(value_of(entries@[i])),
            None => None,
        },
        _ => None,
    }
}

/// The first of `keys` present in the table with a value that is not null.
pub open spec fn first_present_spec(d: Doc, keys: Seq<Seq<char>>) -> Option<Doc>
    decreases keys.len(),
{
    if keys.len() == 0 {
        None
    } else {
        match lookup(d, keys[0]) {
            Some(v) => if v is Null {
                first_present_spec(d, keys.drop_first())
            } else {
                Some(v)
            },
            None => first_present_spec(d, keys.drop_first()),
        }
    }
}

impl Number {
    pub fn duplicate(&self) -> (r: Number)
        ensures
            r.unsigned == self.unsigned,
            r.signed == self.signed,
            r.text@ == self.text@,
    {
        Number { unsigned: self.unsigned, signed: self.signed, text: clone_string(&self.text) }
    }
}

/// Structural equality of documents, strings compared by their text.
pub open spec fn same_doc(a: Doc, b: Doc) -> bool
    decreases a,
{
    match (a, b) {
        (Doc::Null, Doc::Null) => true,
        (Doc::Bool(x), Doc::Bool(y)) => x == y,
        (Doc::Number(x), Doc::Number(y)) => x.unsigned == y.unsigned && x.signed == y.signed
            && x.text@ == y.text@,
        (Doc::Text(x), Doc::Text(y)) => x@ == y@,
        (Doc::List(x), Doc::List(y)) => x@.len() == y@.len() && forall|i: int|
            0 <= i < x@.len() ==> same_doc(x@[i], #[trigger] y@[i]),
        (Doc::Table(x), Doc::Table(y)) => x@.len() == y@.len() && forall|i: int|
            0 <= i < x@.len() ==> same_doc(x@[i].0, #[trigger] y@[i].0) && same_doc(
                x@[i].1,
                y@[i].1,
            ),
        _ => false,
    }
}

/// `same_doc` relates a document to itself.
pub proof fn lemma_same_doc_reflexive(a: Doc)
    ensures
        same_doc(a, a),
    decreases a,
{
    match a {
        Doc::List(x) => {
            assert forall|i: int| 0 <= i < x@.len() implies same_doc(x@[i], #[trigger] x@[i]) by {
                assert(decreases_to!(a => x));
                assert(decreases_to!(x => x@));
                assert(decreases_to!(x@ => x@[i]));
                lemma_same_doc_reflexive(x@[i]);
            }
        },
        Doc::Table(x) => {
            assert forall|i: int| 0 <= i < x@.len() implies same_doc(x@[i].0, #[trigger] x@[i].0) && same_doc(
                x@[i].1,
                x@[i].1,
            ) by {
                assert(decreases_to!(a => x));
                assert(decreases_to!(x => x@));
                assert(decreases_to!(x@ => x@[i]));
                lemma_same_doc_reflexive(x@[i].0);
                lemma_same_doc_reflexive(x@[i].1);
            }
        },
        _ => {},
    }
}

/// `same_doc` does not depend on the order of its arguments.
pub proof fn lemma_same_doc_symmetric(a: Doc, b: Doc)
    requires
        same_doc(a, b),
    ensures
        same_doc(b, a),
    decreases a,
{
    match (a, b) {
        (Doc::List(x), Doc::List(y)) => {
            assert forall|i: int| 0 <= i < y@.len() implies same_doc(y@[i], #[trigger] x@[i]) by {
                assert(decreases_to!(a => x));
                assert(decreases_to!(x => x@));
                assert(decreases_to!(x@ => x@[i]));
                lemma_same_doc_symmetric(x@[i], y@[i]);
            }
        },
        (Doc::Table(x), Doc::Table(y)) => {
            assert forall|i: int| 0 <= i < y@.len() implies same_doc(y@[i].0, #[trigger] x@[i].0) && same_doc(
                y@[i].1,
                x@[i].1,
            ) by {
                assert(decreases_to!(a => x));
                assert(decreases_to!(x => x@));
                assert(decreases_to!(x@ => x@[i]));
                lemma_same_doc_symmetric(x@[i].0, y@[i].0);
                lemma_same_doc_symmetric(x@[i].1, y@[i].1);
            }
        },
        _ => {},
    }
}

/// `same_doc` carries over a chain of documents.
pub proof fn lemma_same_doc_transitive(a: Doc, b: Doc, c: Doc)
    requires
        same_doc(a, b),
        same_doc(b, c),
    ensures
        same_doc(a, c),
    decreases a,
{
    match (a, b, c) {
        (Doc::List(x), Doc::List(y), Doc::List(z)) => {
            assert forall|i: int| 0 <= i < x@.len() implies same_doc(x@[i], #[trigger] z@[i]) by {
                assert(decreases_to!(a => x));
                assert(decreases_to!(x => x@));
                assert(decreases_to!(x@ => x@[i]));
                assert(same_doc(x@[i], y@[i]));
                assert(same_doc(y@[i], z@[i]));
                lemma_same_doc_transitive(x@[i], y@[i], z@[i]);
            }
        },
        (Doc::Table(x), Doc::Table(y), Doc::Table(z)) => {
            assert forall|i: int| 0 <= i < x@.len() implies same_doc(x@[i].0, #[trigger] z@[i].0) && same_doc(
                x@[i].1,
                z@[i].1,
            ) by {
                assert(decreases_to!(a => x));
                assert(decreases_to!(x => x@));
                assert(decreases_to!(x@ => x@[i]));
                assert(same_doc(x@[i].0, y@[i].0) && same_doc(x@[i].1, y@[i].1));
                assert(same_doc(y@[i].0, z@[i].0) && same_doc(y@[i].1, z@[i].1));
                lemma_same_doc_transitive(x@[i].0, y@[i].0, z@[i].0);
                lemma_same_doc_transitive(x@[i].1, y@[i].1, z@[i].1);
            }
        },
        _ => {},
    }
}

impl Doc {
    /// Whether two documents are the same tree of the same values
    /// (`same_doc`).
    pub fn same(&self, other: &Doc) -> (r: bool)
        ensures
            r == same_doc(*self, *other),
        decreases self,
    {
        match (self, other) {
            (Doc::Null, Doc::Null) => true,
            (Doc::Bool(x), Doc::Bool(y)) => *x == *y,
            (Doc::Number(x), Doc::Number(y)) => {
                let unsigned_same = match (x.unsigned, y.unsigned) {
                    (Some(a), Some(b)) => a == b,
                    (None, None) => true,
                    _ => false,
                };
                let signed_same = match (x.signed, y.signed) {
                    (Some(a), Some(b)) => a == b,
                    (None, None) => true,
                    _ => false,
                };
                unsigned_same && signed_same && crate::text::str_eq(x.text.as_str(), y.text.as_str())
            },
            (Doc::Text(x), Doc::Text(y)) => crate::text::str_eq(x.as_str(), y.as_str()),
            (Doc::List(x), Doc::List(y)) => {
                if x.len() != y.len() {
                    return false;
                }
                let mut i: usize = 0;
                while i < x.len()
                    invariant
                        *self == Doc::List(*x),
                        *other == Doc::List(*y),
                        x@.len() == y@.len(),
                        0 <= i <= x@.len(),
                        forall|j: int| 0 <= j < i ==> same_doc(x@[j], #[trigger] y@[j]),
                    decreases x.len() - i,
                {
                    proof {
                        assert(decreases_to!(*self => (*self)->List_0));
                        assert(decreases_to!(*x => x@));
                        assert(decreases_to!(x@ => x@[i as int]));
                        assert(decreases_to!(*self => x@[i as int]));
                    }
                    if !x[i].same(&y[i]) {
                        return false;
                    }
                    i += 1;
                }
                true
            },
            (Doc::Table(x), Doc::Table(y)) => {
                if x.len() != y.len() {
                    return false;
                }
                let mut i: usize = 0;
                while i < x.len()
                    invariant
                        *self == Doc::Table(*x),
                        *other == Doc::Table(*y),
                        x@.len() == y@.len(),
                        0 <= i <= x@.len(),
                        forall|j: int| 0 <= j < i ==> same_doc(x@[j].0, #[trigger] y@[j].0),
                        forall|j: int| 0 <= j < i ==> same_doc(x@[j].1, #[trigger] y@[j].1),
                    decreases x.len() - i,
                {
                    proof {
                        assert(decreases_to!(*self => (*self)->Table_0));
                        assert(decreases_to!(*x => x@));
                        assert(decreases_to!(x@ => x@[i as int]));
                        assert(decreases_to!(*self => x@[i as int].0));
                        assert(decreases_to!(*self => x@[i as int].1));
                    }
                    let (xk, xv) = &x[i];
                    let (yk, yv) = &y[i];
                    let keys_same = xk.same(yk);
                    if !keys_same {
                        return false;
                    }
                    let values_same = xv.same(yv);
                    if !values_same {
                        return false;
                    }
                    i += 1;
                }
                true
            },
            _ => false,
        }
    }

    /// A copy of the document.
    pub fn duplicate(&self) -> (r: Doc)
        ensures
            same_doc(*self, r),
        decreases self,
    {
        match self {
            Doc::Null => Doc::Null,
            Doc::Bool(b) => Doc::Bool(*b),
            Doc::Number(n) => Doc::Number(n.duplicate()),
            Doc::Text(s) => Doc::Text(clone_string(s)),
            Doc::List(items) => {
                let mut out: Vec<Doc> = Vec::new();
                let mut i: usize = 0;
                while i < items.len()
                    invariant
                        *self == Doc::List(*items),
                        0 <= i <= items@.len(),
                        out@.len() == i,
                        forall|j: int| 0 <= j < i ==> same_doc(items@[j], #[trigger] out@[j]),
                    decreases items.len() - i,
                {
                    proof {
                        assert(decreases_to!(*self => (*self)->List_0));
                        assert(decreases_to!(*items => items@));
                        assert(decreases_to!(items@ => items@[i as int]));
                        assert(decreases_to!(*self => items@[i as int]));
                    }
                    out.push(items[i].duplicate());
                    i += 1;
                }
                Doc::List(out)
            },
            Doc::Table(entries) => {
                let mut out: Vec<(Doc, Doc)> = Vec::new();
                let mut i: usize = 0;
                while i < entries.len()
                    invariant
                        *self == Doc::Table(*entries),
                        0 <= i <= entries@.len(),
                        out@.len() == i,
                        forall|j: int|
                            0 <= j < i ==> same_doc(entries@[j].0, #[trigger] out@[j].0)
                                && same_doc(entries@[j].1, out@[j].1),
                    decreases entries.len() - i,
                {
                    let (k, v) = &entries[i];
                    proof {
                        assert(decreases_to!(*self => (*self)->Table_0));
                        assert(decreases_to!(*entries => entries@));
                        assert(decreases_to!(entries@ => entries@[i as int]));
                        assert(decreases_to!(*self => entries@[i as int]));
                        assert(decreases_to!(*self => entries@[i as int].0));
                        assert(decreases_to!(*self => entries@[i as int].1));
                    }
                    out.push((k.duplicate(), v.duplicate()));
                    i += 1;
                }
                Doc::Table(out)
            },
        }
    }

    pub fn is_null(&self) -> (r: bool)
        ensures
            r == (*self is Null),
    {
        match self {
            Doc::Null => true,
            _ => false,
        }
    }

    /// The value under a text key, for a table.
    pub fn get(&self, key: &str) -> (r: Option<&Doc>)
        ensures
            match r {
                Some(v) => lookup(*self, key@) == Some(*v),
                None => lookup(*self, key@) is None,
            },
    {
        match self {
            Doc::Table(entries) => {
                proof {
                    lemma_entry_index(entries@, key@);
                }
                let mut i: usize = 0;
                while i < entries.len()
                    invariant
                        *self == Doc::Table(*entries),
                        0 <= i <= entries@.len(),
                        forall|j: int| 0 <= j < i ==> !is_text(key_of(#[trigger] entries@[j]), key@),
                        entry_index(entries@, key@) matches Some(m) ==> i <= m,
                        entry_index(entries@, key@) matches Some(m) ==> 0 <= m < entries@.len()
                            && is_text(key_of(entries@[m]), key@) && forall|j: int|
                            0 <= j < m ==> !is_text(key_of(#[trigger] entries@[j]), key@),
                        entry_index(entries@, key@) is None ==> forall|j: int|
                            0 <= j < entries@.len() ==> !is_text(key_of(#[trigger] entries@[j]), key@),
                    decreases entries.len() - i,
                {
                    let (k, v) = &entries[i];
                    let hit = match k {
                        Doc::Text(s) => crate::text::str_eq(s.as_str(), key),
                        _ => false,
                    };
                    if hit {
                        assert(is_text(key_of(entries@[i as int]), key@));
                        assert(entry_index(entries@, key@) == Some(i as int));
                        assert(*v == value_of(entries@[i as int]));
                        assert(lookup(*self, key@) == Some(*v));
                        return Some(v);
                    }
                    assert(!is_text(key_of(entries@[i as int]), key@));
                    i += 1;
                }
                None
            },
            _ => None,
        }
    }
}

/// The text of a string node, trimmed, unless it is blank.
pub open spec fn nonblank_text(d: Doc) -> Option<Seq<char>> {
    match d {
        Doc::Text(s) => if trim(s@).len() > 0 {
            Some(trim(s@))
        } else {
            None
        },
        _ => None,
    }
}

pub fn nonblank(d: &Doc) -> (r: Option<String>)
    ensures
        match r {
            Some(s) => nonblank_text(*d) == Some(s@),
            None => nonblank_text(*d) is None,
        },
{
    match d {
        Doc::Text(s) => {
            let t = trim_string(s.as_str());
            if t.as_str().unicode_len() > 0 {
                Some(t)
            } else {
                None
            }
        },
        _ => None,
    }
}

/// A parsed YAML node, carried only into the conversion below.
#[verifier::external_type_specification]
#[verifier::external_body]
pub struct ExYamlValue(serde_yaml_ng::Value);

/// A parsed JSON node, carried only into the conversion below.
#[verifier::external_type_specification]
#[verifier::external_body]
pub struct ExJsonValue(serde_json::Value);

/// The document a YAML text parses to, or the parser's error message.
pub uninterp spec fn yaml_document(text: Seq<char>) -> Result<Doc, Seq<char>>;

/// The document a JSON text parses to, or the parser's error message.
pub uninterp spec fn json_document(text: Seq<char>) -> Result<Doc, Seq<char>>;

/// Turn a parsed YAML value into a document, node for node. A `!tag` keeps
/// its value and drops the tag.
#[verifier::external_body]
fn doc_of_yaml(value: serde_yaml_ng::Value) -> Doc {
    match value {
        serde_yaml_ng::Value::Null => Doc::Null,
        serde_yaml_ng::Value::Bool(b) => Doc::Bool(b),
        serde_yaml_ng::Value::Number(n) => Doc::Number(
            Number { unsigned: n.as_u64(), signed: n.as_i64(), text: n.to_string() },
        ),
        serde_yaml_ng::Value::String(s) => Doc::Text(s),
        serde_yaml_ng::Value::Sequence(items) => Doc::List(items.into_iter().map(doc_of_yaml).collect()),
        serde_yaml_ng::Value::Mapping(m) => Doc::Table(m.into_iter().map(|(k, v)| (doc_of_yaml(k), doc_of_yaml(v))).collect()),
        serde_yaml_ng::Value::Tagged(t) => doc_of_yaml(t.value),
    }
}

/// Turn a parsed JSON value into a document, node for node.
#[verifier::external_body]
fn doc_of_json(value: serde_json::Value) -> Doc {
    match value {
        serde_json::Value::Null => Doc::Null,
        serde_json::Value::Bool(b) => Doc::Bool(b),
        serde_json::Value::Number(n) => Doc::Number(
            Number { unsigned: n.as_u64(), signed: n.as_i64(), text: n.to_string() },
        ),
        serde_json::Value::String(s) => Doc::Text(s),
        serde_json::Value::Array(items) => Doc::List(items.into_iter().map(doc_of_json).collect()),
        serde_json::Value::Object(m) => Doc::Table(m.into_iter().map(|(k, v)| (Doc::Text(k), doc_of_json(v))).collect()),
    }
}

/// `serde_yaml_ng::from_str` into a `serde_yaml_ng::Value`. Claimed: parsing
/// is a function of the text alone.
#[verifier::external_body]
pub(crate) fn parse_yaml(text: &str) -> (r: Result<Doc, String>)
    ensures
        match (r, yaml_document(text@)) {
            (Ok(d), Ok(e)) => d == e,
            (Err(m), Err(e)) => m@ == e,
            _ => false,
        },
{
    match serde_yaml_ng::from_str::<serde_yaml_ng::Value>(text) {
        Ok(value) => Ok(doc_of_yaml(value)),
        Err(error) => Err(error.to_string()),
    }
}

/// `serde_json::from_str` into a `serde_json::Value`. Claimed: parsing is a
/// function of the text alone.
#[verifier::external_body]
pub(crate) fn parse_json(text: &str) -> (r: Result<Doc, String>)
    ensures
        match (r, json_document(text@)) {
            (Ok(d), Ok(e)) => d == e,
            (Err(m), Err(e)) => m@ == e,
            _ => false,
        },
{
    match serde_json::from_str::<serde_json::Value>(text) {
        Ok(value) => Ok(doc_of_json(value)),
        Err(error) => Err(error.to_string()),
    }
}

/// A YAML text as a document; a text that is not YAML is refused with the
/// parser's message.
pub fn read_yaml(text: &str) -> (r: Result<Doc, String>)
    ensures
        match yaml_document(text@) {
            Ok(d) => r == Ok::<Doc, String>(d),
            Err(m) => r matches Err(e) && e@ == "parsing YAML: "@ + m,
        },
{
    match parse_yaml(text) {
        Ok(d) => Ok(d),
        Err(m) => {
            let mut e = crate::text::from_str("parsing YAML: ");
            crate::text::push_str(&mut e, m.as_str());
            Err(e)
        },
    }
}

/// A JSON text as a document; a text that is not JSON is refused with the
/// parser's message.
pub fn read_json(text: &str) -> (r: Result<Doc, String>)
    ensures
        match json_document(text@) {
            Ok(d) => r == Ok::<Doc, String>(d),
            Err(m) => r matches Err(e) && e@ == "parsing JSON: "@ + m,
        },
{
    match parse_json(text) {
        Ok(d) => Ok(d),
        Err(m) => {
            let mut e = crate::text::from_str("parsing JSON: ");
            crate::text::push_str(&mut e, m.as_str());
            Err(e)
        },
    }
}

} // verus!
