//! Validating a parsed config and pre-compiling every list expression.
//!
//! All problems are collected and reported together - fixing a config one
//! error per restart is miserable.

use vstd::prelude::*;

use super::model::{
    names_of, source_extra, ArrSource, Config, ListConfig, MdblistSource, SourceConfig, Span,
};
use super::order::{dependencies_first, dependency_order, depends_on, deps_in_range, is_cycle, occurs_before};
use crate::doc::Doc;
use crate::expr::ast::{add_new, lemma_add_new_no_duplicates, push_new, strings_contain, wildcard_free, Expr, ExprV};
use crate::expr::wildcard::expand_expr;
use crate::filter::attr::Attribute;
use crate::filter::cond::{Condition, FilterDef, UnknownPolicy};
use crate::filter::eval::Program;
use crate::model::{parse_id_spec, strings_view};
use crate::text::{
    chars_of, clone_string, ends_with, fmt_i64, fmt_u64, from_str, has_char, join,
    join_strings, push_str, starts_with, str_eq, str_has, str_starts_with, trim, trim_string,
};

verus! {

/// One list, compiled: its expression with every pattern expanded, what it
/// depends on, and its filter.
#[derive(Debug)]
pub struct CompiledList {
    pub name: String,
    pub expr: Expr,
    /// Lists this list needs, transitively, in evaluation order.
    pub list_deps: Vec<String>,
    /// Sources this list needs, transitively.
    pub source_deps: Vec<String>,
    /// The list's `filter:`, resolved against the filter blocks.
    pub filter: Option<Program>,
    /// Every attribute the filter reads, in `Attribute` order.
    pub required_attrs: Vec<Attribute>,
}

/// A validated configuration: every expression parsed, every name resolved.
#[derive(Debug)]
pub struct Runtime {
    pub path: String,
    pub config: Config,
    /// The compiled lists, dependencies first.
    pub lists: Vec<CompiledList>,
    /// All lists in dependency order, dependencies first.
    pub list_order: Vec<String>,
}

/// The position of the first entry named `name`.
pub open spec fn position_of<T>(entries: Seq<(String, T)>, name: Seq<char>) -> Option<int> {
    if exists|i: int| 0 <= i < entries.len() && entries[i].0@ == name {
        Some(
            choose|i: int|
                0 <= i < entries.len() && entries[i].0@ == name && forall|j: int|
                    0 <= j < i ==> entries[j].0@ != name,
        )
    } else {
        None
    }
}

/// What `position_of` gives once the first entry with the name is known.
pub proof fn lemma_position_first<T>(entries: Seq<(String, T)>, name: Seq<char>, i: int)
    requires
        0 <= i < entries.len(),
        entries[i].0@ == name,
        forall|j: int| 0 <= j < i ==> entries[j].0@ != name,
    ensures
        position_of(entries, name) == Some(i),
{
    let c = position_of(entries, name)->0;
    if c < i {
        assert(entries[c].0@ != name);
    } else if c > i {
        assert(entries[i].0@ != name);
    }
}

/// The entry stored under `name`, the first one when several share it.
pub open spec fn named<T>(entries: Seq<(String, T)>, name: Seq<char>) -> Option<T> {
    match position_of(entries, name) {
        Some(i) => Some(entries[i].1),
        None => None,
    }
}

/// The first compiled list called `name`.
pub open spec fn list_named(lists: Seq<CompiledList>, name: Seq<char>) -> Option<CompiledList> {
    if exists|i: int| 0 <= i < lists.len() && lists[i].name@ == name {
        Some(
            lists[choose|i: int|
                0 <= i < lists.len() && lists[i].name@ == name && forall|j: int|
                    0 <= j < i ==> lists[j].name@ != name],
        )
    } else {
        None
    }
}

/// The key a source of the MDBList kind carries, if it has one.
pub open spec fn source_apikey(s: SourceConfig) -> Option<Seq<char>> {
    match s {
        SourceConfig::Mdblist(m) => match m.apikey {
            Some(k) => Some(k@),
            None => None,
        },
        _ => None,
    }
}

/// The first key carried by a source of `sources[from..]`.
pub open spec fn first_source_apikey(sources: Seq<(String, SourceConfig)>, from: int) -> Option<
    Seq<char>,
>
    decreases sources.len() - from,
{
    if from < 0 || from >= sources.len() {
        None
    } else {
        match source_apikey(sources[from].1) {
            Some(k) => Some(k),
            None => first_source_apikey(sources, from + 1),
        }
    }
}

impl Runtime {
    /// What `compile` guarantees of its lists: each is a configured list and
    /// no list is named like a source; every source a list depends on is
    /// one; a formula holds no pattern and names only sources and lists; and
    /// each list's dependencies are closed and ordered (`deps_closed`).
    pub open spec fn coherent(&self) -> bool {
        &&& forall|p: int| 0 <= p < self.lists@.len() ==> !is_source(self.config, (#[trigger] self.lists@[p]).name@)
        &&& forall|p: int| 0 <= p < self.lists@.len() ==> is_list(self.config, (#[trigger] self.lists@[p]).name@)
        &&& forall|p: int| 0 <= p < self.lists@.len() ==> all_sources(self.config, (#[trigger] self.lists@[p]).source_deps@)
        &&& forall|p: int| 0 <= p < self.lists@.len() ==> wildcard_free((#[trigger] self.lists@[p]).expr@)
        &&& forall|p: int| 0 <= p < self.lists@.len() ==> deps_closed(self.config, self.lists@, p)
        &&& forall|p: int, k: int|
            0 <= p < self.lists@.len() && 0 <= k < crate::expr::ast::expr_names(self.lists@[p].expr@).len()
                ==> is_source(self.config, #[trigger] crate::expr::ast::expr_names(self.lists@[p].expr@)[k])
                || is_list(self.config, crate::expr::ast::expr_names(self.lists@[p].expr@)[k])
    }

    /// The compiled list called `name`.
    pub fn list(&self, name: &str) -> (r: Option<&CompiledList>)
        ensures
            match list_named(self.lists@, name@) {
                Some(l) => r == Some(&l),
                None => r is None,
            },
    {
        let mut i: usize = 0;
        while i < self.lists.len()
            invariant
                0 <= i <= self.lists@.len(),
                forall|j: int| 0 <= j < i ==> self.lists@[j].name@ != name@,
            decreases self.lists.len() - i,
        {
            if str_eq(self.lists[i].name.as_str(), name) {
                proof {
                    let c = choose|c: int|
                        0 <= c < self.lists@.len() && self.lists@[c].name@ == name@ && forall|j: int|
                            0 <= j < c ==> self.lists@[j].name@ != name@;
                    if c < i {
                    } else if c > i {
                        assert(self.lists@[i as int].name@ != name@);
                    }
                }
                return Some(&self.lists[i]);
            }
            i += 1;
        }
        None
    }

    /// The configuration of the source called `name`.
    pub fn source(&self, name: &str) -> (r: Option<&SourceConfig>)
        ensures
            match named(self.config.sources@, name@) {
                Some(s) => r == Some(&s),
                None => r is None,
            },
    {
        match find_named(&self.config.sources, name) {
            Some(i) => {
                proof {
                    lemma_position_first(self.config.sources@, name@, i as int);
                }
                Some(&self.config.sources[i].1)
            },
            None => None,
        }
    }

    /// The refresh interval for a source: its own `ttl`, else the global
    /// default.
    pub fn ttl_for(&self, name: &str) -> (r: Span)
        ensures
            r == match named(self.config.sources@, name@) {
                Some(s) => match super::model::source_ttl(s) {
                    Some(t) => t,
                    None => self.config.cache.default_ttl,
                },
                None => self.config.cache.default_ttl,
            },
    {
        match self.source(name) {
            Some(s) => match s.ttl() {
                Some(t) => t,
                None => self.config.cache.default_ttl,
            },
            None => self.config.cache.default_ttl,
        }
    }

    /// The key an MDBList source is fetched with: its own, else the
    /// provider's.
    pub fn mdblist_apikey(&self, source: &MdblistSource) -> (r: Option<String>)
        ensures
            crate::model::ov(r) == match source.apikey {
                Some(k) => Some(k@),
                None => match self.config.providers.mdblist {
                    Some(p) => Some(p.apikey@),
                    None => None,
                },
            },
    {
        match &source.apikey {
            Some(k) => Some(clone_string(k)),
            None => match &self.config.providers.mdblist {
                Some(p) => Some(clone_string(&p.apikey)),
                None => None,
            },
        }
    }

    /// Any MDBList key at all, for calls that belong to no one source: the
    /// provider's, else the first source's own.
    /// The key of the providers block, else the first one a source carries.
    pub open spec fn mdblist_any_apikey_spec(&self) -> Option<Seq<char>> {
        match self.config.providers.mdblist {
            Some(p) => Some(p.apikey@),
            None => first_source_apikey(self.config.sources@, 0),
        }
    }

    /// The MDBList base URL the config sets, else the default one.
    pub open spec fn mdblist_base_url_spec(&self) -> Seq<char> {
        match self.config.providers.mdblist {
            Some(p) => p.base_url@,
            None => super::model::default_mdblist_base(),
        }
    }

    pub fn mdblist_any_apikey(&self) -> (r: Option<String>)
        ensures
            crate::model::ov(r) == self.mdblist_any_apikey_spec(),
    {
        if let Some(p) = &self.config.providers.mdblist {
            return Some(clone_string(&p.apikey));
        }
        let mut i: usize = self.config.sources.len();
        let mut found: Option<String> = None;
        while i > 0
            invariant
                0 <= i <= self.config.sources@.len(),
                crate::model::ov(found) == first_source_apikey(self.config.sources@, i as int),
            decreases i,
        {
            i -= 1;
            if let SourceConfig::Mdblist(m) = &self.config.sources[i].1 {
                if let Some(k) = &m.apikey {
                    found = Some(clone_string(k));
                }
            }
        }
        found
    }

    /// Where MDBList is reached: the provider's `base_url`, else the public
    /// API.
    pub fn mdblist_base_url(&self) -> (r: String)
        ensures
            r@ == self.mdblist_base_url_spec(),
    {
        match &self.config.providers.mdblist {
            Some(p) => clone_string(&p.base_url),
            None => {
                let s = from_str("https://api.mdblist.com");
                proof {
                    reveal_strlit("https://api.mdblist.com");
                }
                s
            },
        }
    }
}

pub fn find_named<T>(entries: &Vec<(String, T)>, name: &str) -> (r: Option<usize>)
    ensures
        match r {
            Some(i) => i < entries@.len() && entries@[i as int].0@ == name@ && forall|j: int|
                0 <= j < i ==> entries@[j].0@ != name@,
            None => forall|j: int| 0 <= j < entries@.len() ==> entries@[j].0@ != name@,
        },
        r is Some <==> names_of(entries@).contains(name@),
{
    let mut i: usize = 0;
    while i < entries.len()
        invariant
            0 <= i <= entries@.len(),
            forall|j: int| 0 <= j < i ==> entries@[j].0@ != name@,
        decreases entries.len() - i,
    {
        if str_eq(entries[i].0.as_str(), name) {
            assert(names_of(entries@)[i as int] == name@);
            return Some(i);
        }
        i += 1;
    }
    proof {
        if names_of(entries@).contains(name@) {
            let w = choose|w: int| 0 <= w < names_of(entries@).len() && names_of(entries@)[w] == name@;
            assert(entries@[w].0@ == name@);
        }
    }
    None
}

/// Every value back-quoted and comma-separated.
pub open spec fn quoted_list_spec(values: Seq<Seq<char>>) -> Seq<char> {
    join(values.map_values(|v: Seq<char>| "`"@ + v + "`"@), ", "@)
}

pub fn quoted_list(values: &Vec<String>) -> (r: String)
    ensures
        r@ == quoted_list_spec(strings_view(values@)),
{
    let mut quoted: Vec<String> = Vec::new();
    let mut i: usize = 0;
    while i < values.len()
        invariant
            0 <= i <= values@.len(),
            strings_view(quoted@) == strings_view(values@).subrange(0, i as int).map_values(
                |v: Seq<char>| "`"@ + v + "`"@,
            ),
        decreases values.len() - i,
    {
        let mut q = from_str("`");
        push_str(&mut q, values[i].as_str());
        push_str(&mut q, "`");
        let ghost before = strings_view(quoted@);
        quoted.push(q);
        proof {
            assert(strings_view(quoted@) =~= before.push(q@));
            assert(strings_view(values@).subrange(0, i + 1).map_values(
                |v: Seq<char>| "`"@ + v + "`"@,
            ) =~= strings_view(values@).subrange(0, i as int).map_values(
                |v: Seq<char>| "`"@ + v + "`"@,
            ).push(q@));
        }
        i += 1;
    }
    assert(strings_view(values@).subrange(0, values@.len() as int) =~= strings_view(values@));
    join_strings(&quoted, ", ")
}

fn problem2(a: &str, b: &str, c: &str) -> (r: String)
    ensures
        r@ == a@ + b@ + c@,
{
    let mut m = from_str(a);
    push_str(&mut m, b);
    push_str(&mut m, c);
    m
}

pub open spec fn mdblist_provider_key(config: Config) -> Option<Seq<char>> {
    match config.providers.mdblist {
        Some(p) => Some(p.apikey@),
        None => None,
    }
}

pub open spec fn addressed_count(s: MdblistSource) -> int {
    (if s.list is Some {
        1int
    } else {
        0
    }) + (if s.list_id is Some {
        1int
    } else {
        0
    }) + (if s.url is Some {
        1int
    } else {
        0
    })
}

/// How a problem with a named block begins: ``source `name`: ``.
pub open spec fn block_prefix(kind: Seq<char>, name: Seq<char>) -> Seq<char> {
    kind + " `"@ + name + "`: "@
}

/// The problems one source block has, in the order they are reported.
pub open spec fn source_problems(name: Seq<char>, source: SourceConfig, provider_key: Option<
    Seq<char>,
>) -> Seq<Seq<char>> {
    let p = block_prefix("source"@, name);
    match source {
        SourceConfig::Mdblist(m) => {
            let count = addressed_count(m);
            let address = if count == 0 {
                seq![p + "set one of `list: user/listname`, `list_id: 1234` or `url:`"@]
            } else if count > 1 {
                seq![p + "`list`, `list_id` and `url` are alternatives, set only one"@]
            } else {
                seq![]
            };
            let shape = match m.list {
                Some(l) => if !has_char(l@, '/') {
                    seq![p + "`list` must be `username/listname`, got `"@ + l@ + "`"@]
                } else {
                    seq![]
                },
                None => seq![],
            };
            let key = match m.apikey {
                Some(k) => Some(k@),
                None => provider_key,
            };
            let keyed = match key {
                Some(k) => if k.len() == 0 {
                    seq![
                        p
                            + "no MDBList API key; set `providers.mdblist.apikey` or `apikey` on the source"@,
                    ]
                } else {
                    seq![]
                },
                None => seq![
                    p
                        + "no MDBList API key; set `providers.mdblist.apikey` or `apikey` on the source"@,
                ],
            };
            address + shape + keyed
        },
        SourceConfig::Static(s) => (if s.items@.len() == 0 {
            seq![p + "`items` is empty"@]
        } else {
            seq![]
        }) + static_spec_problems(p, s.items@),
        SourceConfig::Json(j) => if trim(j.url@).len() == 0 {
            seq![p + "`url` is empty"@]
        } else {
            seq![]
        },
        SourceConfig::Radarr(a) => arr_problems(p, a),
        SourceConfig::Sonarr(a) => arr_problems(p, a),
    }
}

pub open spec fn arr_problems(p: Seq<char>, a: ArrSource) -> Seq<Seq<char>> {
    (if trim(a.url@).len() == 0 {
        seq![p + "`url` is empty"@]
    } else {
        seq![]
    }) + (if trim(a.api_key@).len() == 0 {
        seq![p + "`api_key` is empty"@]
    } else {
        seq![]
    })
}

/// One problem per static item that is not a `provider:id` spec.
pub open spec fn static_spec_problems(p: Seq<char>, items: Seq<String>) -> Seq<Seq<char>>
    decreases items.len(),
{
    if items.len() == 0 {
        seq![]
    } else {
        static_spec_problems(p, items.drop_last()) + match crate::model::id_spec_result(
            items.last()@,
        ) {
            Err(e) => seq![p + e],
            Ok(_) => seq![],
        }
    }
}

fn push_problem(problems: &mut Vec<String>, m: String)
    ensures
        strings_view(final(problems)@) == strings_view(old(problems)@).push(m@),
{
    let ghost before = strings_view(problems@);
    problems.push(m);
    assert(strings_view(problems@) =~= before.push(m@));
}

fn prefix(kind: &str, name: &str) -> (r: String)
    ensures
        r@ == block_prefix(kind@, name@),
{
    let mut m = from_str(kind);
    push_str(&mut m, " `");
    push_str(&mut m, name);
    push_str(&mut m, "`: ");
    m
}

fn with_prefix(p: &String, rest: &str) -> (r: String)
    ensures
        r@ == p@ + rest@,
{
    let mut m = clone_string(p);
    push_str(&mut m, rest);
    m
}

fn blank(s: &String) -> (r: bool)
    ensures
        r == (trim(s@).len() == 0),
{
    let t = trim_string(s.as_str());
    t.as_str().unicode_len() == 0
}

fn validate_arr(p: &String, a: &ArrSource, problems: &mut Vec<String>)
    ensures
        strings_view(final(problems)@) == strings_view(old(problems)@) + arr_problems(p@, *a),
{
    let ghost start = strings_view(problems@);
    if blank(&a.url) {
        push_problem(problems, with_prefix(p, "`url` is empty"));
    }
    let ghost mid = strings_view(problems@);
    if blank(&a.api_key) {
        push_problem(problems, with_prefix(p, "`api_key` is empty"));
    }
    assert(strings_view(problems@) =~= start + arr_problems(p@, *a));
}

pub fn validate_source(
    name: &str,
    source: &SourceConfig,
    config: &Config,
    problems: &mut Vec<String>,
)
    ensures
        strings_view(final(problems)@) == strings_view(old(problems)@) + source_problems(
            name@,
            *source,
            mdblist_provider_key(*config),
        ),
{
    let ghost start = strings_view(problems@);
    let p = prefix("source", name);
    match source {
        SourceConfig::Mdblist(m) => {
            let mut count: usize = 0;
            if m.list.is_some() {
                count += 1;
            }
            if m.list_id.is_some() {
                count += 1;
            }
            if m.url.is_some() {
                count += 1;
            }
            if count == 0 {
                push_problem(
                    problems,
                    with_prefix(&p, "set one of `list: user/listname`, `list_id: 1234` or `url:`"),
                );
            } else if count > 1 {
                push_problem(
                    problems,
                    with_prefix(&p, "`list`, `list_id` and `url` are alternatives, set only one"),
                );
            }
            let ghost after_address = strings_view(problems@);
            proof {
                let count = addressed_count(*m);
                assert(count == count as usize);
                assert(after_address =~= start + if count == 0 {
                    seq![p@ + "set one of `list: user/listname`, `list_id: 1234` or `url:`"@]
                } else if count > 1 {
                    seq![p@ + "`list`, `list_id` and `url` are alternatives, set only one"@]
                } else {
                    Seq::<Seq<char>>::empty()
                });
            }
            match &m.list {
                Some(l) => {
                    if !str_has(l.as_str(), '/') {
                        let mut msg = with_prefix(&p, "`list` must be `username/listname`, got `");
                        push_str(&mut msg, l.as_str());
                        push_str(&mut msg, "`");
                        push_problem(problems, msg);
                    }
                },
                None => {},
            }
            let ghost after_shape = strings_view(problems@);
            proof {
                assert(after_shape =~= after_address + match m.list {
                    Some(l) => if !has_char(l@, '/') {
                        seq![p@ + "`list` must be `username/listname`, got `"@ + l@ + "`"@]
                    } else {
                        Seq::<Seq<char>>::empty()
                    },
                    None => Seq::<Seq<char>>::empty(),
                });
            }
            let key: Option<&String> = match &m.apikey {
                Some(k) => Some(k),
                None => match &config.providers.mdblist {
                    Some(provider) => Some(&provider.apikey),
                    None => None,
                },
            };
            let missing = match key {
                Some(k) => k.as_str().unicode_len() == 0,
                None => true,
            };
            if missing {
                push_problem(
                    problems,
                    with_prefix(
                        &p,
                        "no MDBList API key; set `providers.mdblist.apikey` or `apikey` on the source",
                    ),
                );
            }
            proof {
                assert(strings_view(problems@) =~= start + source_problems(
                    name@,
                    *source,
                    mdblist_provider_key(*config),
                ));
            }
        },
        SourceConfig::Static(s) => {
            if s.items.len() == 0 {
                push_problem(problems, with_prefix(&p, "`items` is empty"));
            }
            let ghost mid = strings_view(problems@);
            proof {
                assert(mid =~= start + if s.items@.len() == 0 {
                    seq![p@ + "`items` is empty"@]
                } else {
                    Seq::<Seq<char>>::empty()
                });
                assert(s.items@.subrange(0, 0) =~= Seq::<String>::empty());
                assert(mid + static_spec_problems(p@, s.items@.subrange(0, 0)) =~= mid);
            }
            let mut i: usize = 0;
            while i < s.items.len()
                invariant
                    0 <= i <= s.items@.len(),
                    strings_view(problems@) == mid + static_spec_problems(
                        p@,
                        s.items@.subrange(0, i as int),
                    ),
                decreases s.items.len() - i,
            {
                let ghost before = strings_view(problems@);
                proof {
                    assert(s.items@.subrange(0, i + 1).drop_last() =~= s.items@.subrange(0, i as int));
                }
                match parse_id_spec(s.items[i].as_str()) {
                    Err(e) => {
                        push_problem(problems, with_prefix(&p, e.as_str()));
                        assert(strings_view(problems@) =~= mid + static_spec_problems(
                            p@,
                            s.items@.subrange(0, i + 1),
                        ));
                    },
                    Ok(_) => {
                        assert(strings_view(problems@) =~= mid + static_spec_problems(
                            p@,
                            s.items@.subrange(0, i + 1),
                        ));
                    },
                }
                i += 1;
            }
            proof {
                assert(s.items@.subrange(0, s.items@.len() as int) =~= s.items@);
                assert(strings_view(problems@) =~= start + source_problems(
                    name@,
                    *source,
                    mdblist_provider_key(*config),
                ));
            }
        },
        SourceConfig::Json(j) => {
            if blank(&j.url) {
                push_problem(problems, with_prefix(&p, "`url` is empty"));
            }
            assert(p@ == block_prefix("source"@, name@));
            assert(strings_view(problems@) =~= start + source_problems(
                name@,
                *source,
                mdblist_provider_key(*config),
            ));
        },
        SourceConfig::Radarr(a) => validate_arr(&p, a, problems),
        SourceConfig::Sonarr(a) => validate_arr(&p, a, problems),
    }
}

/// The problems a list's own options have.
pub open spec fn list_option_problems(name: Seq<char>, list: ListConfig) -> Seq<Seq<char>> {
    let p = block_prefix("list"@, name);
    (match (list.min_year, list.max_year) {
        (Some(min), Some(max)) => if min > max {
            seq![
                p + "min_year "@ + crate::text::signed_decimal(min as int) + " is after max_year "@
                    + crate::text::signed_decimal(max as int),
            ]
        } else {
            seq![]
        },
        _ => seq![],
    }) + (match (list.released_after, list.released_before) {
        (Some(after), Some(before)) => if crate::model::date_lt(before, after) {
            seq![
                p + "released_after "@ + crate::model::date_text(after)
                    + " is after released_before "@ + crate::model::date_text(before),
            ]
        } else {
            seq![]
        },
        _ => seq![],
    }) + (if list.limit == Some(0usize) {
        seq![p + "`limit: 0` would always be empty"@]
    } else {
        seq![]
    })
}

pub fn validate_list_options(name: &str, list: &ListConfig, problems: &mut Vec<String>)
    ensures
        strings_view(final(problems)@) == strings_view(old(problems)@) + list_option_problems(
            name@,
            *list,
        ),
{
    let ghost start = strings_view(problems@);
    let p = prefix("list", name);
    match (list.min_year, list.max_year) {
        (Some(min), Some(max)) => {
            if min > max {
                let mut m = with_prefix(&p, "min_year ");
                let a = fmt_i64(min as i64);
                push_str(&mut m, a.as_str());
                push_str(&mut m, " is after max_year ");
                let b = fmt_i64(max as i64);
                push_str(&mut m, b.as_str());
                push_problem(problems, m);
            }
        },
        _ => {},
    }
    let ghost first = strings_view(problems@);
    proof {
        assert(first =~= start + match (list.min_year, list.max_year) {
            (Some(min), Some(max)) => if min > max {
                seq![
                    p@ + "min_year "@ + crate::text::signed_decimal(min as int)
                        + " is after max_year "@ + crate::text::signed_decimal(max as int),
                ]
            } else {
                Seq::<Seq<char>>::empty()
            },
            _ => Seq::<Seq<char>>::empty(),
        });
    }
    match (list.released_after, list.released_before) {
        (Some(after), Some(before)) => {
            if crate::model::date_before(before, after) {
                let mut m = with_prefix(&p, "released_after ");
                let a = after.to_text();
                push_str(&mut m, a.as_str());
                push_str(&mut m, " is after released_before ");
                let b = before.to_text();
                push_str(&mut m, b.as_str());
                push_problem(problems, m);
            }
        },
        _ => {},
    }
    let ghost second = strings_view(problems@);
    proof {
        assert(second =~= first + match (list.released_after, list.released_before) {
            (Some(after), Some(before)) => if crate::model::date_lt(before, after) {
                seq![
                    p@ + "released_after "@ + crate::model::date_text(after)
                        + " is after released_before "@ + crate::model::date_text(before),
                ]
            } else {
                Seq::<Seq<char>>::empty()
            },
            _ => Seq::<Seq<char>>::empty(),
        });
    }
    match list.limit {
        Some(0) => push_problem(problems, with_prefix(&p, "`limit: 0` would always be empty")),
        _ => {},
    }
    assert(strings_view(problems@) =~= start + list_option_problems(name@, *list));
}

/// The first configured name, sources first, that contains a `-` and begins
/// with `referenced`.
pub open spec fn dash_candidate(referenced: Seq<char>, names: Seq<Seq<char>>) -> Option<int> {
    if exists|i: int|
        0 <= i < names.len() && has_char(names[i], '-') && starts_with(names[i], referenced) {
        Some(
            choose|i: int|
                0 <= i < names.len() && has_char(names[i], '-') && starts_with(
                    names[i],
                    referenced,
                ) && forall|j: int|
                    0 <= j < i ==> !(has_char(names[j], '-') && starts_with(names[j], referenced)),
        )
    } else {
        None
    }
}

pub open spec fn config_names(config: Config) -> Seq<Seq<char>> {
    names_of(config.sources@) + names_of(config.lists@)
}

pub open spec fn dash_hint_spec(referenced: Seq<char>, config: Config) -> Seq<char> {
    match dash_candidate(referenced, config_names(config)) {
        Some(i) => " (`-` is the difference operator; quote it as `\""@ + config_names(config)[i]
            + "\"`)"@,
        None => seq![],
    }
}

/// If an unknown name is a prefix of a configured name that contains a dash,
/// the user almost certainly wrote `top-250` where `"top-250"` was needed.
pub fn dash_hint(referenced: &str, config: &Config) -> (r: String)
    ensures
        r@ == dash_hint_spec(referenced@, *config),
{
    let ghost names = config_names(*config);
    let ns = config.sources.len();
    let mut i: usize = 0;
    while i < ns
        invariant
            names == config_names(*config),
            ns == config.sources@.len(),
            names.len() == ns + config.lists@.len(),
            0 <= i <= ns,
            forall|j: int| 0 <= j < i ==> !(has_char(names[j], '-') && starts_with(names[j], referenced@)),
        decreases ns - i,
    {
        let name = &config.sources[i].0;
        assert(name@ == names[i as int]);
        if str_has(name.as_str(), '-') && str_starts_with(name.as_str(), referenced) {
            return hint_for(referenced, name, Ghost(names), Ghost(i as int));
        }
        i += 1;
    }
    let nl = config.lists.len();
    let mut k: usize = 0;
    while k < nl
        invariant
            names == config_names(*config),
            ns == config.sources@.len(),
            nl == config.lists@.len(),
            names.len() == ns + nl,
            0 <= k <= nl,
            forall|j: int|
                0 <= j < ns + k ==> !(has_char(names[j], '-') && starts_with(names[j], referenced@)),
        decreases nl - k,
    {
        let name = &config.lists[k].0;
        assert(name@ == names[ns + k]);
        if str_has(name.as_str(), '-') && str_starts_with(name.as_str(), referenced) {
            return hint_for(referenced, name, Ghost(names), Ghost(ns + k));
        }
        k += 1;
    }
    String::new()
}

fn hint_for(referenced: &str, name: &String, Ghost(names): Ghost<Seq<Seq<char>>>, Ghost(i): Ghost<int>) -> (r: String)
    requires
        0 <= i < names.len(),
        names[i] == name@,
        has_char(name@, '-'),
        starts_with(name@, referenced@),
        forall|j: int| 0 <= j < i ==> !(has_char(names[j], '-') && starts_with(names[j], referenced@)),
    ensures
        dash_candidate(referenced@, names) == Some(i),
        r@ == " (`-` is the difference operator; quote it as `\""@ + names[i] + "\"`)"@,
{
    let mut m = from_str(" (`-` is the difference operator; quote it as `\"");
    push_str(&mut m, name.as_str());
    push_str(&mut m, "\"`)");
    proof {
        let c = dash_candidate(referenced@, names);
        assert(c is Some);
        let w = c->0;
        if w < i {
        } else if w > i {
        }
        assert(w == i);
    }
    m
}


/// Whether a name is one of the configured lists.
pub open spec fn is_list(config: Config, n: Seq<char>) -> bool {
    names_of(config.lists@).contains(n)
}

/// Whether a name is one of the configured sources.
pub open spec fn is_source(config: Config, n: Seq<char>) -> bool {
    names_of(config.sources@).contains(n)
}

/// A parse error of a list's `text`, at the 1-based column after `pos`.
pub open spec fn column_message(
    name: Seq<char>,
    message: Seq<char>,
    pos: int,
    text: Seq<char>,
    what: Seq<char>,
) -> Seq<char> {
    let column: int = if pos < 0xffff_ffff_ffff_ffff {
        pos + 1
    } else {
        pos
    };
    block_prefix("list"@, name) + message + " (column "@ + crate::text::decimal(column as nat) + ") in "@
        + what + "`"@ + text + "`"@
}

fn column_error(name: &String, message: &String, pos: usize, text: &String, what: &str) -> (r: String)
    ensures
        r@ == column_message(name@, message@, pos as int, text@, what@),
{
    let mut m = prefix("list", name.as_str());
    push_str(&mut m, message.as_str());
    push_str(&mut m, " (column ");
    let column: u64 = if (pos as u64) < 0xffff_ffff_ffff_ffff {
        pos as u64 + 1
    } else {
        pos as u64
    };
    let col = fmt_u64(column);
    push_str(&mut m, col.as_str());
    push_str(&mut m, ") in ");
    push_str(&mut m, what);
    push_str(&mut m, "`");
    push_str(&mut m, text.as_str());
    push_str(&mut m, "`");
    m
}

/// The problem a source's unknown options make, if it has any.
pub open spec fn extra_problems(name: Seq<char>, source: SourceConfig) -> Seq<Seq<char>> {
    if source_extra(source).len() > 0 {
        seq![block_prefix("source"@, name) + "unknown option(s) "@ + quoted_list_spec(strings_view(source_extra(source)))]
    } else {
        seq![]
    }
}

/// The problems of the first `n` sources, in order: each one's unknown
/// options, then what `validate_source` finds.
pub open spec fn sources_problems(config: Config, n: int) -> Seq<Seq<char>>
    decreases n,
{
    if n <= 0 {
        seq![]
    } else {
        let e = config.sources@[n - 1];
        sources_problems(config, n - 1) + extra_problems(e.0@, e.1) + source_problems(
            e.0@,
            e.1,
            mdblist_provider_key(config),
        )
    }
}

/// Whether a source block is sound: an MDBList source sets exactly one of
/// `list`, `list_id` and `url`, writes a `list` as `user/name`, and has a
/// non-empty API key, its own or else the provider's; a static source lists
/// at least one item, each a `provider:id`; a JSON source has a `url` that
/// is not blank; a Radarr or Sonarr source has a `url` and an `api_key`
/// that are not blank.
pub open spec fn source_sound(source: SourceConfig, provider_key: Option<Seq<char>>) -> bool {
    match source {
        SourceConfig::Mdblist(m) => {
            &&& addressed_count(m) == 1
            &&& (m.list matches Some(l) ==> has_char(l@, '/'))
            &&& match m.apikey {
                Some(k) => k@.len() > 0,
                None => provider_key matches Some(k) && k.len() > 0,
            }
        },
        SourceConfig::Static(s) => s.items@.len() > 0 && forall|i: int|
            0 <= i < s.items@.len() ==> crate::model::id_spec_result(#[trigger] s.items@[i]@) is Ok,
        SourceConfig::Json(j) => trim(j.url@).len() > 0,
        SourceConfig::Radarr(a) => trim(a.url@).len() > 0 && trim(a.api_key@).len() > 0,
        SourceConfig::Sonarr(a) => trim(a.url@).len() > 0 && trim(a.api_key@).len() > 0,
    }
}

proof fn lemma_static_spec_problems(p: Seq<char>, items: Seq<String>)
    ensures
        static_spec_problems(p, items).len() == 0 <==> forall|i: int|
            0 <= i < items.len() ==> crate::model::id_spec_result(#[trigger] items[i]@) is Ok,
    decreases items.len(),
{
    if items.len() > 0 {
        lemma_static_spec_problems(p, items.drop_last());
        assert forall|i: int| 0 <= i < items.len() - 1 implies #[trigger] items[i] == items.drop_last()[i] by {}
        if static_spec_problems(p, items).len() == 0 {
            assert forall|i: int| 0 <= i < items.len() implies crate::model::id_spec_result(#[trigger] items[i]@) is Ok by {
                if i < items.len() - 1 {
                    assert(items[i] == items.drop_last()[i]);
                    assert(crate::model::id_spec_result(items.drop_last()[i]@) is Ok);
                }
            }
        }
        if forall|i: int| 0 <= i < items.len() ==> crate::model::id_spec_result(#[trigger] items[i]@) is Ok {
            assert forall|i: int| 0 <= i < items.drop_last().len() implies crate::model::id_spec_result(
                #[trigger] items.drop_last()[i]@,
            ) is Ok by {
                assert(items[i] == items.drop_last()[i]);
            }
            assert(crate::model::id_spec_result(items[items.len() - 1]@) is Ok);
        }
    }
}

/// A source block raises no problem exactly when it is sound.
pub proof fn lemma_source_problems(name: Seq<char>, source: SourceConfig, provider_key: Option<Seq<char>>)
    ensures
        source_problems(name, source, provider_key).len() == 0 <==> source_sound(source, provider_key),
{
    if let SourceConfig::Static(st) = source {
        lemma_static_spec_problems(block_prefix("source"@, name), st.items@);
    }
}

/// The first `n` sources raise no problem exactly when none of them has an
/// unknown option and each is sound.
pub proof fn lemma_sources_problems(config: Config, n: int)
    requires
        0 <= n <= config.sources@.len(),
    ensures
        sources_problems(config, n).len() == 0 <==> forall|i: int|
            0 <= i < n ==> source_extra((#[trigger] config.sources@[i]).1).len() == 0 && source_sound(
                config.sources@[i].1,
                mdblist_provider_key(config),
            ),
    decreases n,
{
    if n > 0 {
        let e = config.sources@[n - 1];
        lemma_sources_problems(config, n - 1);
        lemma_source_problems(e.0@, e.1, mdblist_provider_key(config));
    }
}

/// Whether a list block is sound: it is not named like a source, its
/// `min_year` is not after its `max_year`, its `released_after` is not
/// after its `released_before`, and its `limit` is not zero.
pub open spec fn list_sound(config: Config, name: Seq<char>, list: ListConfig) -> bool {
    &&& !is_source(config, name)
    &&& match (list.min_year, list.max_year) {
        (Some(min), Some(max)) => min <= max,
        _ => true,
    }
    &&& match (list.released_after, list.released_before) {
        (Some(after), Some(before)) => !crate::model::date_lt(before, after),
        _ => true,
    }
    &&& list.limit != Some(0usize)
}

/// The first `n` lists raise no problem exactly when each is sound.
pub proof fn lemma_lists_problems(config: Config, n: int)
    requires
        0 <= n <= config.lists@.len(),
    ensures
        lists_problems(config, n).len() == 0 <==> forall|i: int|
            0 <= i < n ==> list_sound(config, (#[trigger] config.lists@[i]).0@, config.lists@[i].1),
    decreases n,
{
    if n > 0 {
        let e = config.lists@[n - 1];
        lemma_lists_problems(config, n - 1);
        lemma_list_problems(config, e.0@, e.1);
        assert(lists_problems(config, n) == lists_problems(config, n - 1) + clash_problems(config, e.0@)
            + list_option_problems(e.0@, e.1));
    }
}

proof fn lemma_list_problems(config: Config, name: Seq<char>, list: ListConfig)
    ensures
        (clash_problems(config, name) + list_option_problems(name, list)).len() == 0 <==> list_sound(config, name, list),
{
    let a = match (list.min_year, list.max_year) {
        (Some(min), Some(max)) => min > max,
        _ => false,
    };
    let b = match (list.released_after, list.released_before) {
        (Some(after), Some(before)) => crate::model::date_lt(before, after),
        _ => false,
    };
    assert(list_option_problems(name, list).len() == (if a { 1int } else { 0 }) + (if b { 1int } else { 0 }) + (
    if list.limit == Some(0usize) {
        1int
    } else {
        0
    }));
    assert(clash_problems(config, name).len() == if is_source(config, name) { 1int } else { 0 });
}

/// Report unknown options and the problems of every source.
fn check_sources(config: &Config, problems: &mut Vec<String>)
    ensures
        strings_view(old(problems)@).len() <= strings_view(final(problems)@).len(),
        forall|j: int| 0 <= j < old(problems)@.len() ==> final(problems)@[j]@ == old(problems)@[j]@,
        strings_view(final(problems)@) == strings_view(old(problems)@) + sources_problems(
            *config,
            config.sources@.len() as int,
        ),
{
    let mut i: usize = 0;
    while i < config.sources.len()
        invariant
            0 <= i <= config.sources@.len(),
            old(problems)@.len() <= problems@.len(),
            forall|j: int| 0 <= j < old(problems)@.len() ==> problems@[j]@ == old(problems)@[j]@,
            strings_view(problems@) == strings_view(old(problems)@) + sources_problems(*config, i as int),
        decreases config.sources.len() - i,
    {
        let name = &config.sources[i].0;
        let source = &config.sources[i].1;
        let ghost start = strings_view(problems@);
        let extra = source.extra();
        if extra.len() > 0 {
            let mut m = prefix("source", name.as_str());
            push_str(&mut m, "unknown option(s) ");
            let q = quoted_list(extra);
            push_str(&mut m, q.as_str());
            problems.push(m);
            proof {
                assert(strings_view(problems@) =~= start + extra_problems(name@, *source));
            }
        } else {
            proof {
                assert(strings_view(problems@) =~= start + extra_problems(name@, *source));
            }
        }
        let ghost before = problems@;
        validate_source(name.as_str(), source, config, problems);
        proof {
            assert(strings_view(problems@) =~= strings_view(old(problems)@) + sources_problems(*config, i + 1));
            assert(strings_view(problems@).len() == problems@.len());
            assert(strings_view(before).len() == before.len());
            assert forall|j: int| 0 <= j < before.len() implies problems@[j]@ == before[j]@ by {
                assert(strings_view(problems@)[j] == problems@[j]@);
                assert(strings_view(before)[j] == before[j]@);
                assert(strings_view(problems@)[j] == strings_view(before)[j]);
            }
            assert forall|j: int| 0 <= j < old(problems)@.len() implies problems@[j]@ == old(
                problems,
            )@[j]@ by {
                assert(problems@[j]@ == before[j]@);
            }
        }
        i += 1;
    }
}

/// The problem a list makes by sharing its name with a source, if it does.
pub open spec fn clash_problems(config: Config, name: Seq<char>) -> Seq<Seq<char>> {
    if is_source(config, name) {
        seq!["`"@ + name + "` is used for both a source and a list; names must be unique"@]
    } else {
        seq![]
    }
}

/// The problems of the first `n` lists, in order: each one's name clash,
/// then its options.
pub open spec fn lists_problems(config: Config, n: int) -> Seq<Seq<char>>
    decreases n,
{
    if n <= 0 {
        seq![]
    } else {
        let e = config.lists@[n - 1];
        lists_problems(config, n - 1) + clash_problems(config, e.0@) + list_option_problems(e.0@, e.1)
    }
}

/// Report lists that share a name with a source, and bad list options.
fn check_lists(config: &Config, problems: &mut Vec<String>)
    ensures
        forall|j: int| 0 <= j < old(problems)@.len() ==> final(problems)@[j]@ == old(problems)@[j]@,
        old(problems)@.len() <= final(problems)@.len(),
        final(problems)@.len() == 0 ==> forall|j: int|
            0 <= j < config.lists@.len() ==> !is_source(*config, #[trigger] config.lists@[j].0@),
        strings_view(final(problems)@) == strings_view(old(problems)@) + lists_problems(
            *config,
            config.lists@.len() as int,
        ),
{
    let mut i: usize = 0;
    while i < config.lists.len()
        invariant
            0 <= i <= config.lists@.len(),
            old(problems)@.len() <= problems@.len(),
            forall|j: int| 0 <= j < old(problems)@.len() ==> problems@[j]@ == old(problems)@[j]@,
            problems@.len() == 0 ==> forall|j: int|
                0 <= j < i ==> !is_source(*config, #[trigger] config.lists@[j].0@),
            strings_view(problems@) == strings_view(old(problems)@) + lists_problems(*config, i as int),
        decreases config.lists.len() - i,
    {
        let name = &config.lists[i].0;
        let ghost start = strings_view(problems@);
        if find_named(&config.sources, name.as_str()).is_some() {
            let m = problem2("`", name.as_str(), "` is used for both a source and a list; names must be unique");
            problems.push(m);
            proof {
                reveal_strlit("`");
                assert(strings_view(problems@) =~= start + clash_problems(*config, name@));
            }
        } else {
            proof {
                assert(strings_view(problems@) =~= start + clash_problems(*config, name@));
            }
        }
        let ghost before = problems@;
        validate_list_options(name.as_str(), &config.lists[i].1, problems);
        proof {
            assert(strings_view(problems@) =~= strings_view(old(problems)@) + lists_problems(*config, i + 1));
            assert(strings_view(problems@).len() == problems@.len());
            assert(strings_view(before).len() == before.len());
            assert forall|j: int| 0 <= j < before.len() implies problems@[j]@ == before[j]@ by {
                assert(strings_view(problems@)[j] == problems@[j]@);
                assert(strings_view(before)[j] == before[j]@);
                assert(strings_view(problems@)[j] == strings_view(before)[j]);
            }
            assert forall|j: int| 0 <= j < old(problems)@.len() implies problems@[j]@ == old(
                problems,
            )@[j]@ by {
                assert(problems@[j]@ == before[j]@);
            }
        }
        i += 1;
    }
}

/// Whether one line of a filter block is well formed: `unknown:` with
/// `exclude` or `include`, or a condition that parses.
pub open spec fn filter_entry_ok(key: Doc, value: Doc) -> bool {
    match key {
        Doc::Text(k) => if k@ == "unknown"@ {
            crate::config::model::text_value(value) matches Some(w) && (w == "exclude"@ || w == "include"@)
        } else {
            crate::filter::cond::condition_spec(k@, value) is Ok
        },
        _ => false,
    }
}

/// Whether a filter block is a mapping of well-formed lines.
pub open spec fn filter_block_ok(d: Doc) -> bool {
    d matches Doc::Table(e) && forall|k: int| 0 <= k < e@.len() ==> #[trigger] filter_entry_ok(e@[k].0, e@[k].1)
}

/// How many lines of a filter block do not parse.
pub open spec fn bad_entries(e: Seq<(Doc, Doc)>) -> nat
    decreases e.len(),
{
    if e.len() == 0 {
        0
    } else {
        bad_entries(e.drop_last()) + if filter_entry_ok(e.last().0, e.last().1) {
            0nat
        } else {
            1nat
        }
    }
}

/// The problems a filter block has: one per line that does not parse, or
/// one for a block that is not a mapping.
pub open spec fn block_problem_count(d: Doc) -> nat {
    match d {
        Doc::Table(e) => bad_entries(e@),
        _ => 1,
    }
}

pub open spec fn filter_problem_count(blocks: Seq<(String, Doc)>) -> nat
    decreases blocks.len(),
{
    if blocks.len() == 0 {
        0
    } else {
        filter_problem_count(blocks.drop_last()) + block_problem_count(blocks.last().1)
    }
}

/// Turn the `filters:` blocks into filter definitions, reporting every line
/// that does not parse.
#[verifier::rlimit(60)]
fn build_filters(blocks: &Vec<(String, Doc)>, problems: &mut Vec<String>) -> (r: Vec<FilterDef>)
    ensures
        forall|j: int| 0 <= j < old(problems)@.len() ==> final(problems)@[j]@ == old(problems)@[j]@,
        old(problems)@.len() <= final(problems)@.len(),
        r@.len() == blocks@.len(),
        forall|j: int| 0 <= j < blocks@.len() ==> (#[trigger] r@[j]).name@ == blocks@[j].0@,
        final(problems)@.len() == old(problems)@.len() <==> forall|j: int|
            0 <= j < blocks@.len() ==> filter_block_ok(#[trigger] blocks@[j].1),
        final(problems)@.len() == old(problems)@.len() + filter_problem_count(blocks@),
{
    let mut out: Vec<FilterDef> = Vec::new();
    assert(blocks@.take(0) =~= Seq::<(String, Doc)>::empty());
    let mut i: usize = 0;
    while i < blocks.len()
        invariant
            0 <= i <= blocks@.len(),
            out@.len() == i,
            forall|j: int| 0 <= j < i ==> (#[trigger] out@[j]).name@ == blocks@[j].0@,
            old(problems)@.len() <= problems@.len(),
            forall|j: int| 0 <= j < old(problems)@.len() ==> problems@[j]@ == old(problems)@[j]@,
            problems@.len() == old(problems)@.len() <==> forall|j: int|
                0 <= j < i ==> filter_block_ok(#[trigger] blocks@[j].1),
            problems@.len() == old(problems)@.len() + filter_problem_count(blocks@.take(i as int)),
        decreases blocks.len() - i,
    {
        let name = &blocks[i].0;
        let block = &blocks[i].1;
        let mut conditions: Vec<Condition> = Vec::new();
        let mut unknown = UnknownPolicy::Exclude;
        let ghost at_block = problems@.len();
        match block {
            Doc::Table(entries) => {
                let mut k: usize = 0;
                assert(entries@.take(0) =~= Seq::<(Doc, Doc)>::empty());
                while k < entries.len()
                    invariant
                        0 <= k <= entries@.len(),
                        old(problems)@.len() <= at_block <= problems@.len(),
                        forall|j: int| 0 <= j < old(problems)@.len() ==> problems@[j]@ == old(problems)@[j]@,
                        problems@.len() == at_block <==> forall|j: int|
                            0 <= j < k ==> #[trigger] filter_entry_ok(entries@[j].0, entries@[j].1),
                        problems@.len() == at_block + bad_entries(entries@.take(k as int)),
                    decreases entries.len() - k,
                {
                    let key = &entries[k].0;
                    let value = &entries[k].1;
                    let ghost before = problems@.len();
                    match key {
                        Doc::Text(key_text) => {
                            if str_eq(key_text.as_str(), "unknown") {
                                let policy = match value {
                                    Doc::Text(v) => {
                                        if str_eq(v.as_str(), "exclude") {
                                            Some(UnknownPolicy::Exclude)
                                        } else if str_eq(v.as_str(), "include") {
                                            Some(UnknownPolicy::Include)
                                        } else {
                                            None
                                        }
                                    },
                                    _ => None,
                                };
                                match policy {
                                    Some(p) => unknown = p,
                                    None => {
                                        let mut m = prefix("filter", name.as_str());
                                        push_str(&mut m, "`unknown` must be `exclude` or `include`");
                                        problems.push(m);
                                    },
                                }
                            } else {
                                match Condition::parse(key_text.as_str(), value) {
                                    Ok(c) => conditions.push(c),
                                    Err(e) => {
                                        let mut m = prefix("filter", name.as_str());
                                        push_str(&mut m, e.as_str());
                                        problems.push(m);
                                    },
                                }
                            }
                        },
                        _ => {
                            let mut m = prefix("filter", name.as_str());
                            push_str(&mut m, "condition names must be strings");
                            problems.push(m);
                        },
                    }
                    proof {
                        assert(filter_entry_ok(entries@[k as int].0, entries@[k as int].1) <==> problems@.len() == before);
                        assert(before <= problems@.len());
                        assert(problems@.len() <= before + 1);
                        assert(entries@.take(k + 1).drop_last() =~= entries@.take(k as int));
                        assert(entries@.take(k + 1).last() == entries@[k as int]);
                        assert forall|j: int| 0 <= j < k + 1 && problems@.len() == at_block implies #[trigger] filter_entry_ok(
                            entries@[j].0,
                            entries@[j].1,
                        ) by {
                            if j < k {
                                assert(before == at_block);
                            }
                        }
                    }
                    k += 1;
                }
            },
            _ => {
                let mut m = prefix("filter", name.as_str());
                push_str(&mut m, "expected a mapping of conditions");
                problems.push(m);
            },
        }
        proof {
            assert(blocks@.take(i + 1).drop_last() =~= blocks@.take(i as int));
            assert(blocks@.take(i + 1).last() == blocks@[i as int]);
            if let Doc::Table(e) = blocks@[i as int].1 {
                assert(e@.take(e@.len() as int) =~= e@);
            }
            assert(filter_block_ok(blocks@[i as int].1) <==> problems@.len() == at_block);
            assert forall|j: int| 0 <= j < i + 1 && problems@.len() == old(problems)@.len() implies filter_block_ok(
                #[trigger] blocks@[j].1,
            ) by {
                if j < i {
                    assert(at_block == old(problems)@.len());
                }
            }
        }
        out.push(FilterDef { name: clone_string(name), conditions, unknown });
        i += 1;
    }
    assert(blocks@.take(blocks@.len() as int) =~= blocks@);
    out
}

/// Parse every list's formula; a list that does not parse is reported and
/// left out.
/// Whether a formula parses.
pub open spec fn formula_parses(text: Seq<char>) -> bool {
    crate::expr::parser::parse_spec(text) is Ok
}

/// The formula of list `j`, as parsed.
pub open spec fn formula_of(config: Config, j: int) -> ExprV {
    crate::expr::parser::parse_spec(config.lists@[j].1.list_formula@)->Ok_0
}

/// The formula of list `j` with every pattern replaced by what it matches.
pub open spec fn expanded_of(config: Config, j: int) -> ExprV {
    crate::expr::wildcard::rewrite_spec(formula_of(config, j), config_names(config), config.lists@[j].0@)
}

/// The lists, each with its expanded formula.
pub open spec fn expanded_lists(config: Config) -> Seq<(Seq<char>, ExprV)> {
    Seq::new(config.lists@.len(), |j: int| (config.lists@[j].0@, expanded_of(config, j)))
}

/// How many lists' formulas do not parse.
pub open spec fn formula_failures(lists: Seq<(String, ListConfig)>) -> nat
    decreases lists.len(),
{
    if lists.len() == 0 {
        0
    } else {
        formula_failures(lists.drop_last()) + if formula_parses(lists.last().1.list_formula@) {
            0nat
        } else {
            1nat
        }
    }
}

/// The lists whose formulas parse, each with its formula.
pub open spec fn parsed_formulas(lists: Seq<(String, ListConfig)>) -> Seq<(Seq<char>, ExprV)>
    decreases lists.len(),
{
    if lists.len() == 0 {
        seq![]
    } else {
        match crate::expr::parser::parse_spec(lists.last().1.list_formula@) {
            Ok(e) => parsed_formulas(lists.drop_last()).push((lists.last().0@, e)),
            Err(_) => parsed_formulas(lists.drop_last()),
        }
    }
}

fn parse_formulas(config: &Config, problems: &mut Vec<String>) -> (r: Vec<(String, Expr)>)
    ensures
        forall|j: int| 0 <= j < old(problems)@.len() ==> final(problems)@[j]@ == old(problems)@[j]@,
        old(problems)@.len() <= final(problems)@.len(),
        final(problems)@.len() == 0 ==> r@.len() == config.lists@.len() && forall|j: int|
            0 <= j < r@.len() ==> (#[trigger] r@[j]).0@ == config.lists@[j].0@,
        final(problems)@.len() == old(problems)@.len() <==> forall|j: int|
            0 <= j < config.lists@.len() ==> formula_parses(#[trigger] config.lists@[j].1.list_formula@),
        final(problems)@.len() == old(problems)@.len() ==> r@.len() == config.lists@.len() && forall|j: int|
            0 <= j < r@.len() ==> (#[trigger] r@[j]).0@ == config.lists@[j].0@ && r@[j].1@ == formula_of(*config, j),
        final(problems)@.len() == old(problems)@.len() + formula_failures(config.lists@),
        parsed_view(r@) == parsed_formulas(config.lists@),
{
    let mut parsed: Vec<(String, Expr)> = Vec::new();
    let mut i: usize = 0;
    assert(config.lists@.take(0) =~= Seq::<(String, ListConfig)>::empty());
    assert(parsed_view(parsed@) =~= Seq::<(Seq<char>, ExprV)>::empty());
    while i < config.lists.len()
        invariant
            0 <= i <= config.lists@.len(),
            old(problems)@.len() <= problems@.len(),
            forall|j: int| 0 <= j < old(problems)@.len() ==> problems@[j]@ == old(problems)@[j]@,
            problems@.len() == 0 ==> parsed@.len() == i && forall|j: int|
                0 <= j < i ==> (#[trigger] parsed@[j]).0@ == config.lists@[j].0@,
            problems@.len() == old(problems)@.len() <==> forall|j: int|
                0 <= j < i ==> formula_parses(#[trigger] config.lists@[j].1.list_formula@),
            problems@.len() == old(problems)@.len() ==> parsed@.len() == i && forall|j: int|
                0 <= j < i ==> (#[trigger] parsed@[j]).0@ == config.lists@[j].0@ && parsed@[j].1@ == formula_of(*config, j),
            problems@.len() == old(problems)@.len() + formula_failures(config.lists@.take(i as int)),
            parsed_view(parsed@) == parsed_formulas(config.lists@.take(i as int)),
        decreases config.lists.len() - i,
    {
        let ghost before = problems@.len();
        let ghost before_parsed = parsed_view(parsed@);
        assert(config.lists@.take(i + 1).drop_last() =~= config.lists@.take(i as int));
        assert(config.lists@.take(i + 1).last() == config.lists@[i as int]);
        let name = &config.lists[i].0;
        let formula = &config.lists[i].1.list_formula;
        match crate::expr::parse(formula.as_str()) {
            Ok(e) => {
                parsed.push((clone_string(name), e));
                assert(parsed_view(parsed@) =~= before_parsed.push((name@, parsed@.last().1@)));
            },
            Err(e) => {
                let m = column_error(name, &e.message, e.pos, formula, "");
                problems.push(m);
            },
        }
        proof {
            assert(formula_parses(config.lists@[i as int].1.list_formula@) <==> problems@.len() == before);
            assert forall|j: int| 0 <= j < i + 1 && problems@.len() == old(problems)@.len() implies formula_parses(
                #[trigger] config.lists@[j].1.list_formula@,
            ) by {
                if j < i {
                    assert(before == old(problems)@.len());
                }
            }
        }
        i += 1;
    }
    assert(config.lists@.take(config.lists@.len() as int) =~= config.lists@);
    parsed
}

/// Every configured name patterns are matched against: sources first, then
/// lists, each in declaration order.
fn candidates(config: &Config) -> (r: Vec<String>)
    ensures
        strings_view(r@) == config_names(*config),
{
    let mut out: Vec<String> = Vec::new();
    let mut i: usize = 0;
    while i < config.sources.len()
        invariant
            0 <= i <= config.sources@.len(),
            strings_view(out@) == names_of(config.sources@).subrange(0, i as int),
        decreases config.sources.len() - i,
    {
        let ghost before = strings_view(out@);
        let n = clone_string(&config.sources[i].0);
        out.push(n);
        assert(strings_view(out@) =~= before.push(config.sources@[i as int].0@));
        assert(names_of(config.sources@).subrange(0, i + 1) =~= names_of(config.sources@).subrange(
            0,
            i as int,
        ).push(config.sources@[i as int].0@));
        i += 1;
    }
    let mut k: usize = 0;
    while k < config.lists.len()
        invariant
            0 <= k <= config.lists@.len(),
            strings_view(out@) == names_of(config.sources@) + names_of(config.lists@).subrange(
                0,
                k as int,
            ),
        decreases config.lists.len() - k,
    {
        let ghost before = strings_view(out@);
        let n = clone_string(&config.lists[k].0);
        out.push(n);
        assert(strings_view(out@) =~= before.push(config.lists@[k as int].0@));
        assert(names_of(config.lists@).subrange(0, k + 1) =~= names_of(config.lists@).subrange(
            0,
            k as int,
        ).push(config.lists@[k as int].0@));
        assert(strings_view(out@) =~= names_of(config.sources@) + names_of(config.lists@).subrange(
            0,
            k + 1,
        ));
        k += 1;
    }
    proof {
        assert(names_of(config.sources@).subrange(0, config.sources@.len() as int) =~= names_of(config.sources@));
        assert(names_of(config.lists@).subrange(0, config.lists@.len() as int) =~= names_of(config.lists@));
    }
    out
}

/// How many distinct patterns match nothing, list by list.
pub open spec fn unmatched_count(ps: Seq<(Seq<char>, ExprV)>, names: Seq<Seq<char>>) -> nat
    decreases ps.len(),
{
    if ps.len() == 0 {
        0
    } else {
        unmatched_count(ps.drop_last(), names) + add_new(
            seq![],
            crate::expr::wildcard::unmatched_leaves(ps.last().1, names, ps.last().0),
        ).len()
    }
}

/// The lists with every pattern replaced by what it matches.
pub open spec fn rewritten(ps: Seq<(Seq<char>, ExprV)>, names: Seq<Seq<char>>) -> Seq<(Seq<char>, ExprV)> {
    Seq::new(ps.len(), |j: int| (ps[j].0, crate::expr::wildcard::rewrite_spec(ps[j].1, names, ps[j].0)))
}

/// Replace every wildcard by the union of the names it matches, reporting
/// patterns that match nothing.
fn expand_patterns(parsed: &mut Vec<(String, Expr)>, config: &Config, problems: &mut Vec<String>)
    ensures
        final(parsed)@.len() == old(parsed)@.len(),
        forall|j: int| 0 <= j < old(parsed)@.len() ==> (#[trigger] final(parsed)@[j]).0@ == old(parsed)@[j].0@,
        forall|j: int| 0 <= j < old(problems)@.len() ==> final(problems)@[j]@ == old(problems)@[j]@,
        old(problems)@.len() <= final(problems)@.len(),
        final(problems)@.len() == old(problems)@.len() ==> forall|j: int|
            0 <= j < final(parsed)@.len() ==> wildcard_free((#[trigger] final(parsed)@[j]).1@),
        forall|j: int|
            0 <= j < old(parsed)@.len() ==> (#[trigger] final(parsed)@[j]).1@
                == crate::expr::wildcard::rewrite_spec(old(parsed)@[j].1@, config_names(*config), old(parsed)@[j].0@),
        final(problems)@.len() == old(problems)@.len() <==> forall|j: int|
            0 <= j < old(parsed)@.len() ==> crate::expr::wildcard::unmatched_leaves(
                (#[trigger] old(parsed)@[j]).1@,
                config_names(*config),
                old(parsed)@[j].0@,
            ).len() == 0,
        final(problems)@.len() == old(problems)@.len() + unmatched_count(parsed_view(old(parsed)@), config_names(*config)),
        parsed_view(final(parsed)@) == rewritten(parsed_view(old(parsed)@), config_names(*config)),
{
    let names = candidates(config);
    let ghost pv = parsed_view(parsed@);
    let mut i: usize = 0;
    assert(pv.take(0) =~= Seq::<(Seq<char>, ExprV)>::empty());
    while i < parsed.len()
        invariant
            0 <= i <= parsed@.len(),
            parsed@.len() == old(parsed)@.len(),
            strings_view(names@) == config_names(*config),
            forall|j: int| 0 <= j < old(parsed)@.len() ==> (#[trigger] parsed@[j]).0@ == old(parsed)@[j].0@,
            forall|j: int| i <= j < old(parsed)@.len() ==> #[trigger] parsed@[j] == old(parsed)@[j],
            forall|j: int|
                0 <= j < i ==> (#[trigger] parsed@[j]).1@ == crate::expr::wildcard::rewrite_spec(
                    old(parsed)@[j].1@,
                    config_names(*config),
                    old(parsed)@[j].0@,
                ),
            old(problems)@.len() <= problems@.len(),
            forall|j: int| 0 <= j < old(problems)@.len() ==> problems@[j]@ == old(problems)@[j]@,
            problems@.len() == old(problems)@.len() ==> forall|j: int|
                0 <= j < i ==> wildcard_free((#[trigger] parsed@[j]).1@),
            problems@.len() == old(problems)@.len() <==> forall|j: int|
                0 <= j < i ==> crate::expr::wildcard::unmatched_leaves(
                    (#[trigger] old(parsed)@[j]).1@,
                    config_names(*config),
                    old(parsed)@[j].0@,
                ).len() == 0,
            pv == parsed_view(old(parsed)@),
            problems@.len() == old(problems)@.len() + unmatched_count(pv.take(i as int), config_names(*config)),
        decreases parsed.len() - i,
    {
        let (expanded, unmatched) = expand_expr(&parsed[i].1, &names, parsed[i].0.as_str());
        proof {
            let leaves = crate::expr::wildcard::unmatched_leaves(old(parsed)@[i as int].1@, config_names(*config), old(parsed)@[i as int].0@);
            assert(names@.map_values(|x: String| x@) == strings_view(names@));
            crate::expr::ast::lemma_add_new_no_duplicates(seq![], leaves);
            if leaves.len() > 0 {
                assert(leaves.contains(leaves[0]));
                assert(unmatched@.map_values(|x: String| x@).contains(leaves[0]));
            }
        }
        let ghost before_count = problems@.len();
        proof {
            assert(pv.take(i + 1).drop_last() =~= pv.take(i as int));
            assert(pv.take(i + 1).last() == pv[i as int]);
            assert(pv[i as int] == (old(parsed)@[i as int].0@, old(parsed)@[i as int].1@));
            assert(unmatched@.len() == unmatched@.map_values(|x: String| x@).len());
        }
        let mut k: usize = 0;
        while k < unmatched.len()
            invariant
                0 <= k <= unmatched@.len(),
                0 <= i < parsed@.len(),
                old(problems)@.len() <= problems@.len(),
                forall|j: int| 0 <= j < old(problems)@.len() ==> problems@[j]@ == old(problems)@[j]@,
                problems@.len() == before_count + k,
            decreases unmatched.len() - k,
        {
            let mut m = prefix("list", parsed[i].0.as_str());
            push_str(&mut m, "`");
            push_str(&mut m, unmatched[k].as_str());
            push_str(&mut m, "` matches no source or list");
            problems.push(m);
            k += 1;
        }
        let name = clone_string(&parsed[i].0);
        let ghost prev = parsed@;
        parsed.set(i, (name, expanded));
        proof {
            assert forall|j: int| 0 <= j < i + 1 && problems@.len() == old(problems)@.len() implies wildcard_free(
                (#[trigger] parsed@[j]).1@,
            ) by {
                if j < i {
                    assert(parsed@[j] == prev[j]);
                }
            }
            assert forall|j: int| 0 <= j < i + 1 && problems@.len() == old(problems)@.len() implies crate::expr::wildcard::unmatched_leaves(
                (#[trigger] old(parsed)@[j]).1@,
                config_names(*config),
                old(parsed)@[j].0@,
            ).len() == 0 by {
                if j < i {
                    assert(before_count == old(problems)@.len());
                }
            }
            assert forall|j: int| 0 <= j < i + 1 implies (#[trigger] parsed@[j]).1@ == crate::expr::wildcard::rewrite_spec(
                old(parsed)@[j].1@,
                config_names(*config),
                old(parsed)@[j].0@,
            ) by {
                if j < i {
                    assert(parsed@[j] == prev[j]);
                }
            }
            assert forall|j: int| i + 1 <= j < old(parsed)@.len() implies #[trigger] parsed@[j] == old(parsed)@[j] by {
                assert(parsed@[j] == prev[j]);
            }
        }
        i += 1;
    }
    proof {
        assert(pv.take(pv.len() as int) =~= pv);
        assert(parsed_view(parsed@) =~= rewritten(pv, config_names(*config)));
    }
}

/// Whether every name a formula references is a source or a list.
pub open spec fn names_resolved(config: Config, e: ExprV) -> bool {
    forall|k: int|
        0 <= k < crate::expr::ast::expr_names(e).len() ==> is_source(config, #[trigger] crate::expr::ast::expr_names(e)[k])
            || is_list(config, crate::expr::ast::expr_names(e)[k])
}

/// How many of `names` are neither a source nor a list.
pub open spec fn unresolved_in(config: Config, names: Seq<Seq<char>>) -> nat
    decreases names.len(),
{
    if names.len() == 0 {
        0
    } else {
        unresolved_in(config, names.drop_last()) + if is_source(config, names.last()) || is_list(
            config,
            names.last(),
        ) {
            0nat
        } else {
            1nat
        }
    }
}

/// How many names the formulas reference that are neither a source nor a
/// list, list by list, each name once per formula.
pub open spec fn unresolved_total(config: Config, ps: Seq<(Seq<char>, ExprV)>) -> nat
    decreases ps.len(),
{
    if ps.len() == 0 {
        0
    } else {
        unresolved_total(config, ps.drop_last()) + unresolved_in(config, crate::expr::ast::expr_names(ps.last().1))
    }
}

/// Report every referenced name that is neither a source nor a list.
fn check_references(parsed: &Vec<(String, Expr)>, config: &Config, problems: &mut Vec<String>)
    ensures
        forall|j: int| 0 <= j < old(problems)@.len() ==> final(problems)@[j]@ == old(problems)@[j]@,
        old(problems)@.len() <= final(problems)@.len(),
        final(problems)@.len() == 0 ==> forall|j: int, k: int|
            0 <= j < parsed@.len() && 0 <= k < crate::expr::ast::expr_names(parsed@[j].1@).len()
                ==> is_source(*config, #[trigger] crate::expr::ast::expr_names(parsed@[j].1@)[k])
                || is_list(*config, crate::expr::ast::expr_names(parsed@[j].1@)[k]),
        final(problems)@.len() == old(problems)@.len() <==> forall|j: int|
            0 <= j < parsed@.len() ==> names_resolved(*config, (#[trigger] parsed@[j]).1@),
    final(problems)@.len() == old(problems)@.len() + unresolved_total(*config, parsed_view(parsed@)),
{
    let mut i: usize = 0;
    while i < parsed.len()
        invariant
            0 <= i <= parsed@.len(),
            old(problems)@.len() <= problems@.len(),
            forall|j: int| 0 <= j < old(problems)@.len() ==> problems@[j]@ == old(problems)@[j]@,
            problems@.len() == old(problems)@.len() <==> forall|j: int|
                0 <= j < i ==> names_resolved(*config, (#[trigger] parsed@[j]).1@),
            problems@.len() == old(problems)@.len() + unresolved_total(*config, parsed_view(parsed@).take(i as int)),
        decreases parsed.len() - i,
    {
        let names = parsed[i].1.names();
        let ghost at_i = problems@.len();
        assert(parsed_view(parsed@)[i as int].1 == parsed@[i as int].1@);
        let mut k: usize = 0;
        assert(strings_view(names@).take(0) =~= Seq::<Seq<char>>::empty());
        while k < names.len()
            invariant
                0 <= k <= names@.len(),
                0 <= i < parsed@.len(),
                strings_view(names@) == crate::expr::ast::expr_names(parsed@[i as int].1@),
                old(problems)@.len() <= at_i <= problems@.len(),
                forall|j: int| 0 <= j < old(problems)@.len() ==> problems@[j]@ == old(problems)@[j]@,
                problems@.len() == at_i <==> forall|kk: int|
                    0 <= kk < k ==> is_source(*config, #[trigger] strings_view(names@)[kk])
                        || is_list(*config, strings_view(names@)[kk]),
                problems@.len() == at_i + unresolved_in(*config, strings_view(names@).take(k as int)),
            decreases names.len() - k,
        {
            let referenced = &names[k];
            let ghost before = problems@.len();
            let known_source = find_named(&config.sources, referenced.as_str()).is_some();
            let known_list = find_named(&config.lists, referenced.as_str()).is_some();
            assert(strings_view(names@)[k as int] == referenced@);
            assert(strings_view(names@).take(k + 1).drop_last() =~= strings_view(names@).take(k as int));
            assert(strings_view(names@).take(k + 1).last() == referenced@);
            if !known_source && !known_list {
                let mut m = from_str("list `");
                push_str(&mut m, parsed[i].0.as_str());
                push_str(&mut m, "` references `");
                push_str(&mut m, referenced.as_str());
                push_str(&mut m, "`, which is not a source or a list");
                let hint = dash_hint(referenced.as_str(), config);
                push_str(&mut m, hint.as_str());
                problems.push(m);
            }
            proof {
                assert forall|kk: int| 0 <= kk < k + 1 && problems@.len() == at_i implies is_source(
                    *config,
                    #[trigger] strings_view(names@)[kk],
                ) || is_list(*config, strings_view(names@)[kk]) by {
                    if kk < k {
                        assert(before == at_i);
                    }
                }
            }
            k += 1;
        }
        proof {
            let pv = parsed_view(parsed@);
            assert(pv.take(i + 1).drop_last() =~= pv.take(i as int));
            assert(pv.take(i + 1).last() == pv[i as int]);
            assert(strings_view(names@).take(names@.len() as int) =~= strings_view(names@));
            assert(names_resolved(*config, parsed@[i as int].1@) <==> problems@.len() == at_i);
            assert forall|j: int| 0 <= j < i + 1 && problems@.len() == old(problems)@.len() implies names_resolved(
                *config,
                (#[trigger] parsed@[j]).1@,
            ) by {
                if j < i {
                    assert(at_i == old(problems)@.len());
                }
            }
        }
        i += 1;
    }
    assert(parsed_view(parsed@).take(parsed@.len() as int) =~= parsed_view(parsed@));
    proof {
        if problems@.len() == 0 {
            assert forall|j: int, k: int|
                0 <= j < parsed@.len() && 0 <= k < crate::expr::ast::expr_names(parsed@[j].1@).len()
                    implies is_source(*config, #[trigger] crate::expr::ast::expr_names(parsed@[j].1@)[k])
                    || is_list(*config, crate::expr::ast::expr_names(parsed@[j].1@)[k]) by {
                assert(names_resolved(*config, parsed@[j].1@));
            }
        }
    }
}


/// The parsed lists as names and formulas.
pub open spec fn parsed_view(parsed: Seq<(String, Expr)>) -> Seq<(Seq<char>, ExprV)> {
    parsed.map_values(|p: (String, Expr)| (p.0@, p.1@))
}

/// List `i` depends on list `j`: its formula names a configured list, and
/// `j` is the first list of that name.
pub open spec fn dep_edge(ps: Seq<(Seq<char>, ExprV)>, config: Config, i: int, j: int) -> bool {
    &&& 0 <= i < ps.len()
    &&& 0 <= j < ps.len()
    &&& crate::expr::ast::expr_names(ps[i].1).contains(ps[j].0)
    &&& is_list(config, ps[j].0)
    &&& forall|k: int| 0 <= k < j ==> ps[k].0 != ps[j].0
}

/// Whether the lists depend on one another in a circle.
pub open spec fn has_cycle(ps: Seq<(Seq<char>, ExprV)>, config: Config) -> bool {
    exists|c: Seq<usize>|
        c.len() >= 2 && c[0] == c[c.len() - 1] && forall|t: int|
            0 <= t < c.len() - 1 ==> #[trigger] dep_edge(ps, config, c[t] as int, c[t + 1] as int)
}

/// For each parsed list, the parsed lists it references.
fn list_dependencies(parsed: &Vec<(String, Expr)>, config: &Config) -> (r: Vec<Vec<usize>>)
    ensures
        r@.len() == parsed@.len(),
        deps_in_range(r@),
        forall|i: int, k: int|
            0 <= i < parsed@.len() && 0 <= k < crate::expr::ast::expr_names(parsed@[i].1@).len()
                && is_list(*config, #[trigger] crate::expr::ast::expr_names(parsed@[i].1@)[k])
                && names_of(parsed@).contains(crate::expr::ast::expr_names(parsed@[i].1@)[k])
                ==> exists|m: int|
                0 <= m < r@[i]@.len() && parsed@[r@[i]@[m] as int].0@
                    == crate::expr::ast::expr_names(parsed@[i].1@)[k],
        forall|i: int, j: int|
            0 <= i < parsed@.len() && 0 <= j < parsed@.len() ==> (r@[i]@.contains(j as usize) <==> dep_edge(
                parsed_view(parsed@),
                *config,
                i,
                j,
            )),
{
    let ghost pv = parsed_view(parsed@);
    let mut deps: Vec<Vec<usize>> = Vec::new();
    let mut i: usize = 0;
    while i < parsed.len()
        invariant
            0 <= i <= parsed@.len(),
            deps@.len() == i,
            forall|a: int, b: int|
                0 <= a < i && 0 <= b < deps@[a]@.len() ==> #[trigger] deps@[a]@[b] < parsed@.len(),
            forall|a: int, k: int|
                0 <= a < i && 0 <= k < crate::expr::ast::expr_names(parsed@[a].1@).len() && is_list(
                    *config,
                    #[trigger] crate::expr::ast::expr_names(parsed@[a].1@)[k],
                ) && names_of(parsed@).contains(crate::expr::ast::expr_names(parsed@[a].1@)[k])
                    ==> exists|m: int|
                    0 <= m < deps@[a]@.len() && parsed@[deps@[a]@[m] as int].0@
                        == crate::expr::ast::expr_names(parsed@[a].1@)[k],
            pv == parsed_view(parsed@),
            forall|a: int, j: int|
                0 <= a < i && 0 <= j < parsed@.len() ==> (deps@[a]@.contains(j as usize) <==> dep_edge(pv, *config, a, j)),
        decreases parsed.len() - i,
    {
        let names = parsed[i].1.names();
        let ghost ns = crate::expr::ast::expr_names(parsed@[i as int].1@);
        let mut mine: Vec<usize> = Vec::new();
        let mut k: usize = 0;
        while k < names.len()
            invariant
                0 <= k <= names@.len(),
                0 <= i < parsed@.len(),
                ns == crate::expr::ast::expr_names(parsed@[i as int].1@),
                strings_view(names@) == ns,
                forall|b: int| 0 <= b < mine@.len() ==> #[trigger] mine@[b] < parsed@.len(),
                forall|kk: int|
                    0 <= kk < k && is_list(*config, #[trigger] ns[kk]) && names_of(parsed@).contains(
                        ns[kk],
                    ) ==> exists|m: int|
                        0 <= m < mine@.len() && parsed@[mine@[m] as int].0@ == ns[kk],
                pv == parsed_view(parsed@),
                forall|b: int| 0 <= b < mine@.len() ==> dep_edge(pv, *config, i as int, #[trigger] mine@[b] as int),
            decreases names.len() - k,
        {
            assert(strings_view(names@)[k as int] == names@[k as int]@);
            let is_a_list = find_named(&config.lists, names[k].as_str()).is_some();
            if is_a_list {
                match find_named(parsed, names[k].as_str()) {
                    Some(t) => {
                        let ghost before = mine@;
                        mine.push(t);
                        proof {
                            assert(mine@[before.len() as int] == t);
                            assert(pv[t as int].0 == names@[k as int]@);
                            assert(ns.contains(ns[k as int]));
                            assert forall|j: int| 0 <= j < t implies pv[j].0 != pv[t as int].0 by {
                                assert(pv[j].0 == parsed@[j].0@);
                            }
                            assert(dep_edge(pv, *config, i as int, t as int));
                            assert forall|b: int| 0 <= b < mine@.len() implies dep_edge(pv, *config, i as int, #[trigger] mine@[b] as int) by {
                                if b < before.len() {
                                    assert(mine@[b] == before[b]);
                                }
                            }
                            assert forall|kk: int|
                                0 <= kk < k + 1 && is_list(*config, #[trigger] ns[kk])
                                    && names_of(parsed@).contains(ns[kk]) implies exists|m: int|
                                    0 <= m < mine@.len() && parsed@[mine@[m] as int].0@ == ns[kk] by {
                                if kk < k {
                                    let m = choose|m: int|
                                        0 <= m < before.len() && parsed@[before[m] as int].0@ == ns[kk];
                                    assert(mine@[m] == before[m]);
                                } else {
                                    assert(parsed@[mine@[before.len() as int] as int].0@ == ns[kk]);
                                }
                            }
                        }
                    },
                    None => {},
                }
            }
            k += 1;
        }
        proof {
            assert forall|j: int| 0 <= j < parsed@.len() && dep_edge(pv, *config, i as int, j) implies mine@.contains(j as usize) by {
                let n = pv[j].0;
                let kk = choose|kk: int| 0 <= kk < ns.len() && ns[kk] == n;
                assert(names_of(parsed@)[j] == n);
                assert(names_of(parsed@).contains(n));
                let m = choose|m: int| 0 <= m < mine@.len() && parsed@[mine@[m] as int].0@ == ns[kk];
                assert(dep_edge(pv, *config, i as int, mine@[m] as int));
                let t = mine@[m] as int;
                if t < j {
                    assert(pv[t].0 == n);
                } else if j < t {
                    assert(pv[j].0 == pv[t].0);
                }
            }
            assert forall|j: int| 0 <= j < parsed@.len() && mine@.contains(j as usize) implies dep_edge(pv, *config, i as int, j) by {
                let b = choose|b: int| 0 <= b < mine@.len() && mine@[b] == j as usize;
            }
        }
        let ghost before_deps = deps@;
        deps.push(mine);
        proof {
            assert forall|a: int, j: int|
                0 <= a < i + 1 && 0 <= j < parsed@.len() implies (deps@[a]@.contains(j as usize) <==> dep_edge(pv, *config, a, j)) by {
                if a < i {
                    assert(deps@[a] == before_deps[a]);
                }
            }
            assert forall|a: int, k2: int|
                0 <= a < i + 1 && 0 <= k2 < crate::expr::ast::expr_names(parsed@[a].1@).len()
                    && is_list(*config, #[trigger] crate::expr::ast::expr_names(parsed@[a].1@)[k2])
                    && names_of(parsed@).contains(crate::expr::ast::expr_names(parsed@[a].1@)[k2])
                    implies exists|m: int|
                    0 <= m < deps@[a]@.len() && parsed@[deps@[a]@[m] as int].0@
                        == crate::expr::ast::expr_names(parsed@[a].1@)[k2] by {
                if a < i {
                    assert(deps@[a] == before_deps[a]);
                } else {
                    assert(deps@[a]@ == mine@);
                }
            }
            assert forall|a: int, b: int|
                0 <= a < i + 1 && 0 <= b < deps@[a]@.len() implies #[trigger] deps@[a]@[b]
                < parsed@.len() by {
                if a < i {
                    assert(deps@[a] == before_deps[a]);
                }
            }
        }
        i += 1;
    }
    deps
}

/// Dependency-first ordering of the parsed lists, reporting every cycle.
fn topological_order(
    parsed: &Vec<(String, Expr)>,
    config: &Config,
    problems: &mut Vec<String>,
) -> (r: (Vec<usize>, Vec<Vec<usize>>))
    ensures
        forall|j: int| 0 <= j < old(problems)@.len() ==> final(problems)@[j]@ == old(problems)@[j]@,
        old(problems)@.len() <= final(problems)@.len(),
        r.1@.len() == parsed@.len(),
        deps_in_range(r.1@),
        forall|i: int, k: int|
            0 <= i < parsed@.len() && 0 <= k < crate::expr::ast::expr_names(parsed@[i].1@).len()
                && is_list(*config, #[trigger] crate::expr::ast::expr_names(parsed@[i].1@)[k])
                && names_of(parsed@).contains(crate::expr::ast::expr_names(parsed@[i].1@)[k])
                ==> exists|m: int|
                0 <= m < r.1@[i]@.len() && parsed@[r.1@[i]@[m] as int].0@
                    == crate::expr::ast::expr_names(parsed@[i].1@)[k],
        r.0@.len() == parsed@.len(),
        r.0@.no_duplicates(),
        forall|j: int| 0 <= j < r.0@.len() ==> #[trigger] r.0@[j] < parsed@.len(),
        final(problems)@.len() == old(problems)@.len() ==> dependencies_first(r.1@, r.0@),
        final(problems)@.len() == old(problems)@.len() <==> !has_cycle(parsed_view(parsed@), *config),
        forall|j: int|
            old(problems)@.len() <= j < final(problems)@.len() ==> starts_with(
                #[trigger] final(problems)@[j]@,
                "lists form a cycle: "@,
            ),
{
    let deps = list_dependencies(parsed, config);
    let (order, cycles) = dependency_order(&deps);
    let ghost pv = parsed_view(parsed@);
    proof {
        if cycles@.len() == 0 {
            assert forall|c: Seq<usize>|
                c.len() >= 2 && c[0] == c[c.len() - 1] implies !(forall|t: int|
                    0 <= t < c.len() - 1 ==> #[trigger] dep_edge(pv, *config, c[t] as int, c[t + 1] as int)) by {
                if forall|t: int| 0 <= t < c.len() - 1 ==> #[trigger] dep_edge(pv, *config, c[t] as int, c[t + 1] as int) {
                    assert forall|t: int| 0 <= t < c.len() - 1 implies #[trigger] depends_on(deps@, c[t], c[t + 1]) by {
                        assert(dep_edge(pv, *config, c[t] as int, c[t + 1] as int));
                        assert(deps@[c[t] as int]@.contains(c[t + 1]));
                    }
                    assert(is_cycle(deps@, c));
                    crate::config::order::lemma_first_order_acyclic(deps@, order@, c);
                }
            }
        } else {
            let c = cycles@[0]@;
            assert(is_cycle(deps@, c));
            assert forall|t: int| 0 <= t < c.len() - 1 implies #[trigger] dep_edge(pv, *config, c[t] as int, c[t + 1] as int) by {
                assert(depends_on(deps@, c[t], c[t + 1]));
                let row = deps@[c[t] as int]@;
                let k = choose|k: int| 0 <= k < row.len() && #[trigger] row[k] == c[t + 1];
                assert(deps@[c[t] as int]@[k] < deps@.len());
            }
            assert(has_cycle(pv, *config));
        }
    }
    let mut c: usize = 0;
    while c < cycles.len()
        invariant
            0 <= c <= cycles@.len(),
            old(problems)@.len() + c == problems@.len(),
            forall|j: int| 0 <= j < old(problems)@.len() ==> problems@[j]@ == old(problems)@[j]@,
            forall|j: int|
                old(problems)@.len() <= j < problems@.len() ==> starts_with(
                    #[trigger] problems@[j]@,
                    "lists form a cycle: "@,
                ),
            deps_in_range(deps@),
            deps@.len() == parsed@.len(),
        decreases cycles.len() - c,
    {
        let mut names: Vec<String> = Vec::new();
        let mut k: usize = 0;
        while k < cycles[c].len()
            invariant
                0 <= k <= cycles@[c as int]@.len(),
                0 <= c < cycles@.len(),
            decreases cycles@[c as int]@.len() - k,
        {
            let at = cycles[c][k];
            if at < parsed.len() {
                names.push(clone_string(&parsed[at].0));
            }
            k += 1;
        }
        let mut m = from_str("lists form a cycle: ");
        let joined = join_strings(&names, " -> ");
        push_str(&mut m, joined.as_str());
        assert(m@.subrange(0, "lists form a cycle: "@.len() as int) =~= "lists form a cycle: "@);
        problems.push(m);
        c += 1;
    }
    (order, deps)
}

/// Each list's `filter:`, resolved against the filter blocks; the problems
/// are reported.
fn compile_filter(
    name: &String,
    list: &ListConfig,
    filters: &Vec<FilterDef>,
    problems: &mut Vec<String>,
) -> (r: Option<Program>)
    ensures
        forall|j: int| 0 <= j < old(problems)@.len() ==> final(problems)@[j]@ == old(problems)@[j]@,
        old(problems)@.len() <= final(problems)@.len(),
        list.filter is None ==> r is None && final(problems)@.len() == old(problems)@.len(),
        list.filter matches Some(t) ==> {
            &&& (r is Some <==> final(problems)@.len() == old(problems)@.len())
            &&& r is None ==> final(problems)@.len() == old(problems)@.len() + 1
            &&& (crate::filter::lexer::lex_spec(t@) matches Err(m) ==> r is None
                && final(problems)@.last()@ == column_message(name@, m.0, m.1, t@, "filter "@))
            &&& (r matches Some(p) ==> crate::filter::lexer::lex_spec(t@) matches Ok(ts) && exists|
                e: crate::filter::ast::BoolExprV,
            |
                crate::filter::parser::derives(crate::filter::parser::tokens_of(ts), e, 1)
                    && crate::filter::eval::compile_spec(e, filters@) == Ok::<
                    crate::filter::eval::ProgramV,
                    Seq<char>,
                >(p@))
            &&& (r is None && crate::filter::lexer::lex_spec(t@) is Ok ==> starts_with(
                final(problems)@.last()@,
                block_prefix("list"@, name@),
            ))
            &&& (r is Some <==> (crate::filter::parser::parse_spec(t@) matches Ok(e)
                && crate::filter::eval::filter_known(e, crate::filter::eval::block_names(filters@))))
        },
{
    match &list.filter {
        None => None,
        Some(text) => match crate::filter::parse(text.as_str()) {
            Err(e) => {
                let m = column_error(name, &e.message, e.pos, text, "filter ");
                proof {
                    assert(starts_with(m@, block_prefix("list"@, name@))) by {
                        assert(m@.subrange(0, block_prefix("list"@, name@).len() as int) =~= block_prefix("list"@, name@));
                    }
                }
                problems.push(m);
                None
            },
            Ok(expr) => {
                proof {
                    crate::filter::eval::lemma_compile_ok(expr@, filters@);
                }
                match Program::compile(&expr, filters) {
                    Ok(p) => Some(p),
                    Err(unknown) => {
                        let mut m = prefix("list", name.as_str());
                        let ghost head = m@;
                        let u = unknown.message();
                        push_str(&mut m, u.as_str());
                        proof {
                            assert(m@.subrange(0, head.len() as int) =~= head);
                        }
                        problems.push(m);
                        None
                    },
                }
            },
        },
    }
}

/// The message for a config with problems.
pub open spec fn problems_message(problems: Seq<Seq<char>>) -> Seq<char> {
    "config has "@ + crate::text::decimal(problems.len()) + " problem(s):\n  - "@ + join(
        problems,
        "\n  - "@,
    )
}

/// Whether `n` is one of the names in `entries`, before position `p`.
pub open spec fn named_before(lists: Seq<CompiledList>, n: Seq<char>, p: int) -> bool {
    exists|q: int| 0 <= q < p && lists[q].name@ == n
}

/// Whether every name in `v` is a configured source.
pub open spec fn all_sources(config: Config, v: Seq<String>) -> bool {
    forall|t: int| 0 <= t < v.len() ==> is_source(config, (#[trigger] v[t])@)
}

proof fn lemma_push_new_single(before: Seq<Seq<char>>, s: Seq<char>)
    ensures
        crate::expr::ast::add_new(before, seq![s]) == if before.contains(s) {
            before
        } else {
            before.push(s)
        },
{
    let next = if before.contains(s) {
        before
    } else {
        before.push(s)
    };
    assert(seq![s].drop_first() =~= Seq::<Seq<char>>::empty());
    assert(seq![s][0] == s);
    assert(crate::expr::ast::add_new(next, Seq::<Seq<char>>::empty()) == next);
}

proof fn lemma_all_sources_push_new(config: Config, before: Seq<String>, after: Seq<String>, s: String)
    requires
        all_sources(config, before),
        is_source(config, s@),
        after.map_values(|x: String| x@) == crate::expr::ast::add_new(before.map_values(|x: String| x@), seq![s@]),
    ensures
        all_sources(config, after),
{
    let bv = before.map_values(|x: String| x@);
    let av = after.map_values(|x: String| x@);
    lemma_push_new_single(bv, s@);
    assert forall|t: int| 0 <= t < after.len() implies is_source(config, (#[trigger] after[t])@) by {
        assert(av[t] == after[t]@);
        if bv.contains(s@) {
            assert(av == bv);
            assert(bv[t] == before[t]@);
            assert(is_source(config, before[t]@));
        } else if t < before.len() {
            assert(av[t] == bv[t]);
            assert(bv[t] == before[t]@);
            assert(is_source(config, before[t]@));
        } else {
            assert(av == bv.push(s@));
            assert(bv.len() == before.len());
            assert(av.len() == after.len());
            assert(t == bv.len());
            assert(av[t] == s@);
        }
    }
}

/// `big` holds every name `small` holds.
pub open spec fn includes(big: Seq<String>, small: Seq<String>) -> bool {
    forall|x: Seq<char>| #[trigger] strings_view(small).contains(x) ==> strings_view(big).contains(x)
}

/// Position `q` holds the first list called `n`.
pub open spec fn first_named_at(lists: Seq<CompiledList>, n: Seq<char>, q: int) -> bool {
    &&& 0 <= q < lists.len()
    &&& lists[q].name@ == n
    &&& forall|j: int| 0 <= j < q ==> lists[j].name@ != n
}

/// Only one position holds the first list of a name.
pub proof fn lemma_first_named_unique(lists: Seq<CompiledList>, n: Seq<char>, a: int, b: int)
    requires
        first_named_at(lists, n, a),
        first_named_at(lists, n, b),
    ensures
        a == b,
{
    if a < b {
        assert(lists[a].name@ == n);
    } else if b < a {
        assert(lists[b].name@ == n);
    }
}

/// `list_named` finds the first list of the name.
pub proof fn lemma_first_named_found(lists: Seq<CompiledList>, n: Seq<char>, q: int)
    requires
        first_named_at(lists, n, q),
    ensures
        list_named(lists, n) == Some(lists[q]),
{
    let c = choose|i: int|
        0 <= i < lists.len() && lists[i].name@ == n && forall|j: int| 0 <= j < i ==> lists[j].name@ != n;
    assert(first_named_at(lists, n, c));
    lemma_first_named_unique(lists, n, c, q);
}

/// `n` is the first list of its name among `lists[..p]`, and its own
/// dependencies are among `list_deps` and `source_deps`.
pub open spec fn dep_ok(lists: Seq<CompiledList>, p: int, n: Seq<char>, list_deps: Seq<String>, source_deps: Seq<String>) -> bool {
    exists|q: int|
        0 <= q < p && #[trigger] first_named_at(lists, n, q) && includes(list_deps, lists[q].list_deps@)
            && includes(source_deps, lists[q].source_deps@)
}

/// Every list among `list_deps` is an earlier list whose own dependencies
/// are included.
pub open spec fn closed_over(lists: Seq<CompiledList>, p: int, list_deps: Seq<String>, source_deps: Seq<String>) -> bool {
    forall|x: Seq<char>| #[trigger] strings_view(list_deps).contains(x) ==> dep_ok(lists, p, x, list_deps, source_deps)
}

/// The list at position `d` of `ld` comes after every list it depends on.
pub open spec fn placed_after_deps(lists: Seq<CompiledList>, p: int, ld: Seq<String>, d: int) -> bool {
    exists|q: int| 0 <= q < p && #[trigger] first_named_at(lists, ld[d]@, q) && includes(ld.take(d), lists[q].list_deps@)
}

/// Every list among `ld` is an earlier list, and comes after the lists it
/// depends on, so evaluating them in this order never needs one not yet
/// evaluated.
pub open spec fn deps_ordered(lists: Seq<CompiledList>, p: int, ld: Seq<String>) -> bool {
    forall|d: int| 0 <= d < ld.len() ==> #[trigger] placed_after_deps(lists, p, ld, d)
}

/// The dependencies of the list at `p`: every list and source its formula
/// names, and, for every list among them, that list's own dependencies - so
/// they are transitive, and every list among them is evaluated before `p`.
pub open spec fn deps_closed(config: Config, lists: Seq<CompiledList>, p: int) -> bool {
    let l = lists[p];
    let names = crate::expr::ast::expr_names(l.expr@);
    &&& closed_over(lists, p, l.list_deps@, l.source_deps@)
    &&& deps_ordered(lists, p, l.list_deps@)
    &&& forall|k: int| 0 <= k < names.len() && is_list(config, #[trigger] names[k]) ==> strings_view(l.list_deps@).contains(names[k])
    &&& forall|k: int| 0 <= k < names.len() && is_source(config, #[trigger] names[k]) ==> strings_view(l.source_deps@).contains(names[k])
    &&& strings_view(l.list_deps@).no_duplicates()
    &&& strings_view(l.source_deps@).no_duplicates()
}

proof fn lemma_includes_trans(a: Seq<String>, b: Seq<String>, c: Seq<String>)
    requires
        includes(a, b),
        includes(b, c),
    ensures
        includes(a, c),
{
}

proof fn lemma_closed_grow(lists: Seq<CompiledList>, p: int, ld: Seq<String>, sd: Seq<String>, ld2: Seq<String>, sd2: Seq<String>, x: Seq<char>)
    requires
        dep_ok(lists, p, x, ld, sd),
        includes(ld2, ld),
        includes(sd2, sd),
    ensures
        dep_ok(lists, p, x, ld2, sd2),
{
    let q = choose|q: int|
        0 <= q < p && #[trigger] first_named_at(lists, x, q) && includes(ld, lists[q].list_deps@)
            && includes(sd, lists[q].source_deps@);
    lemma_includes_trans(ld2, ld, lists[q].list_deps@);
    lemma_includes_trans(sd2, sd, lists[q].source_deps@);
    assert(first_named_at(lists, x, q));
}

/// What `push_new` does to membership and to the absence of repeats.
proof fn lemma_push_new_view(before: Seq<String>, after: Seq<String>, s: String)
    requires
        after.map_values(|x: String| x@) == add_new(before.map_values(|x: String| x@), seq![s@]),
    ensures
        forall|x: Seq<char>| #[trigger] strings_view(after).contains(x) <==> (strings_view(before).contains(x) || x == s@),
        strings_view(before).no_duplicates() ==> strings_view(after).no_duplicates(),
        includes(after, before),
{
    let bv = before.map_values(|x: String| x@);
    lemma_push_new_single(bv, s@);
    assert(strings_view(before) == bv);
    assert(strings_view(after) == after.map_values(|x: String| x@));
    if !bv.contains(s@) {
        assert forall|x: Seq<char>| #[trigger] strings_view(after).contains(x) <==> (strings_view(before).contains(x) || x == s@) by {
            if strings_view(after).contains(x) {
                let i = choose|i: int| 0 <= i < strings_view(after).len() && strings_view(after)[i] == x;
                if i < bv.len() {
                    assert(bv[i] == x);
                }
            }
            if bv.contains(x) {
                let i = choose|i: int| 0 <= i < bv.len() && bv[i] == x;
                assert(strings_view(after)[i] == x);
            }
            if x == s@ {
                assert(strings_view(after)[bv.len() as int] == x);
            }
        }
    }
}

proof fn lemma_dep_ok_push(before: Seq<CompiledList>, after: Seq<CompiledList>, p: int, x: Seq<char>, ld: Seq<String>, sd: Seq<String>)
    requires
        after.len() == before.len() + 1,
        forall|j: int| 0 <= j < before.len() ==> after[j] == before[j],
        0 <= p <= before.len(),
        dep_ok(before, p, x, ld, sd),
    ensures
        dep_ok(after, p, x, ld, sd),
{
    let q = choose|q: int|
        0 <= q < p && #[trigger] first_named_at(before, x, q) && includes(ld, before[q].list_deps@)
            && includes(sd, before[q].source_deps@);
    assert(after[q] == before[q]);
    assert forall|j: int| 0 <= j < q implies after[j].name@ != x by {
        assert(after[j] == before[j]);
    }
    assert(first_named_at(after, x, q));
}

/// Appending a list keeps what is known of the earlier ones, and the new
/// one's dependencies were worked out against the earlier ones.
proof fn lemma_deps_closed_push(config: Config, before: Seq<CompiledList>, after: Seq<CompiledList>, q: int)
    requires
        after.len() == before.len() + 1,
        forall|j: int| 0 <= j < before.len() ==> after[j] == before[j],
        0 <= q <= before.len(),
        q < before.len() ==> deps_closed(config, before, q),
        q == before.len() ==> {
            let l = after[q];
            let names = crate::expr::ast::expr_names(l.expr@);
            &&& closed_over(before, q, l.list_deps@, l.source_deps@)
            &&& deps_ordered(before, q, l.list_deps@)
            &&& forall|k: int| 0 <= k < names.len() && is_list(config, #[trigger] names[k]) ==> strings_view(l.list_deps@).contains(names[k])
            &&& forall|k: int| 0 <= k < names.len() && is_source(config, #[trigger] names[k]) ==> strings_view(l.source_deps@).contains(names[k])
            &&& strings_view(l.list_deps@).no_duplicates()
            &&& strings_view(l.source_deps@).no_duplicates()
        },
    ensures
        deps_closed(config, after, q),
{
    let l = after[q];
    if q < before.len() {
        assert(l == before[q]);
    }
    assert forall|x: Seq<char>| #[trigger] strings_view(l.list_deps@).contains(x) implies dep_ok(
        after,
        q,
        x,
        l.list_deps@,
        l.source_deps@,
    ) by {
        if q < before.len() {
            assert(closed_over(before, q, before[q].list_deps@, before[q].source_deps@));
        }
        lemma_dep_ok_push(before, after, q, x, l.list_deps@, l.source_deps@);
    }
    assert forall|d: int| 0 <= d < l.list_deps@.len() implies #[trigger] placed_after_deps(after, q, l.list_deps@, d) by {
        if q < before.len() {
            assert(deps_ordered(before, q, before[q].list_deps@));
        }
        assert(placed_after_deps(before, q, l.list_deps@, d));
        let w = choose|w: int| 0 <= w < q && #[trigger] first_named_at(before, l.list_deps@[d]@, w) && includes(l.list_deps@.take(d), before[w].list_deps@);
        assert(after[w] == before[w]);
        assert forall|j: int| 0 <= j < w implies after[j].name@ != l.list_deps@[d]@ by {
            assert(after[j] == before[j]);
        }
        assert(first_named_at(after, l.list_deps@[d]@, w));
    }
}

proof fn lemma_ordered_push_new(lists: Seq<CompiledList>, p: int, before: Seq<String>, after: Seq<String>, x: String)
    requires
        deps_ordered(lists, p, before),
        after.map_values(|y: String| y@) == add_new(before.map_values(|y: String| y@), seq![x@]),
        !strings_view(before).contains(x@) ==> exists|q: int|
            0 <= q < p && #[trigger] first_named_at(lists, x@, q) && includes(before, lists[q].list_deps@),
    ensures
        deps_ordered(lists, p, after),
{
    let bv = before.map_values(|y: String| y@);
    lemma_push_new_single(bv, x@);
    assert(strings_view(before) == bv);
    assert(after.len() == after.map_values(|y: String| y@).len());
    assert forall|d: int| 0 <= d < after.len() implies #[trigger] placed_after_deps(lists, p, after, d) by {
        if d < before.len() {
            assert(after[d]@ == before[d]@) by {
                assert(after.map_values(|y: String| y@)[d] == after[d]@);
                assert(bv[d] == before[d]@);
            }
            assert(placed_after_deps(lists, p, before, d));
            let q = choose|q: int| 0 <= q < p && #[trigger] first_named_at(lists, before[d]@, q) && includes(before.take(d), lists[q].list_deps@);
            assert(strings_view(after.take(d)) =~= strings_view(before.take(d))) by {
                assert forall|t: int| 0 <= t < d implies strings_view(after.take(d))[t] == strings_view(before.take(d))[t] by {
                    assert(after.map_values(|y: String| y@)[t] == after[t]@);
                    assert(bv[t] == before[t]@);
                }
            }
            assert(first_named_at(lists, after[d]@, q));
        } else {
            assert(!bv.contains(x@));
            assert(after.map_values(|y: String| y@) == bv.push(x@));
            assert(d == before.len());
            assert(after.map_values(|y: String| y@)[d] == after[d]@);
            assert(after[d]@ == x@);
            let q = choose|q: int| 0 <= q < p && #[trigger] first_named_at(lists, x@, q) && includes(before, lists[q].list_deps@);
            assert(strings_view(after.take(d)) =~= strings_view(before)) by {
                assert forall|t: int| 0 <= t < d implies strings_view(after.take(d))[t] == strings_view(before)[t] by {
                    assert(after.map_values(|y: String| y@)[t] == after[t]@);
                    assert(bv[t] == before[t]@);
                }
            }
            assert(first_named_at(lists, after[d]@, q));
        }
    }
}

/// What one name of a formula adds to a list's dependencies, given the
/// lists compiled before it: a source, itself; a list, that list's own
/// dependencies and then itself. Each is kept where it was first met.
pub open spec fn with_reference(
    prior: Seq<CompiledList>,
    config: Config,
    acc: (Seq<Seq<char>>, Seq<Seq<char>>),
    n: Seq<char>,
) -> (Seq<Seq<char>>, Seq<Seq<char>>) {
    if is_source(config, n) {
        (acc.0, add_new(acc.1, seq![n]))
    } else {
        match list_named(prior, n) {
            Some(l) => (
                add_new(add_new(acc.0, strings_view(l.list_deps@)), seq![n]),
                add_new(acc.1, strings_view(l.source_deps@)),
            ),
            None => acc,
        }
    }
}

/// A list's dependencies, lists and sources, from the names its formula
/// references in order: exactly the lists and sources it reaches.
pub open spec fn formula_deps(prior: Seq<CompiledList>, config: Config, names: Seq<Seq<char>>) -> (
    Seq<Seq<char>>,
    Seq<Seq<char>>,
)
    decreases names.len(),
{
    if names.len() == 0 {
        (seq![], seq![])
    } else {
        with_reference(prior, config, formula_deps(prior, config, names.drop_last()), names.last())
    }
}

/// Whether the name `m` in a formula brings the list `n` into the
/// dependencies: `m` names a list compiled before, and `n` is that list or
/// one of its dependencies.
pub open spec fn brings_list(prior: Seq<CompiledList>, config: Config, m: Seq<char>, n: Seq<char>) -> bool {
    !is_source(config, m) && (list_named(prior, m) matches Some(l) && (m == n || strings_view(
        l.list_deps@,
    ).contains(n)))
}

/// Whether the name `m` in a formula brings the source `n` into the
/// dependencies: `m` is that source, or names a list compiled before that
/// depends on it.
pub open spec fn brings_source(prior: Seq<CompiledList>, config: Config, m: Seq<char>, n: Seq<char>) -> bool {
    ||| is_source(config, m) && m == n
    ||| !is_source(config, m) && (list_named(prior, m) matches Some(l) && strings_view(
        l.source_deps@,
    ).contains(n))
}

/// What one name adds to the list dependencies: exactly what it brings.
proof fn lemma_with_reference_lists(
    prior: Seq<CompiledList>,
    config: Config,
    acc: (Seq<Seq<char>>, Seq<Seq<char>>),
    m: Seq<char>,
)
    requires
        acc.0.no_duplicates(),
    ensures
        with_reference(prior, config, acc, m).0.no_duplicates(),
        forall|n: Seq<char>|
            #[trigger] with_reference(prior, config, acc, m).0.contains(n) <==> (acc.0.contains(n) || brings_list(
                prior,
                config,
                m,
                n,
            )),
{
    if !is_source(config, m) {
        if let Some(l) = list_named(prior, m) {
            let once = add_new(acc.0, strings_view(l.list_deps@));
            lemma_add_new_no_duplicates(acc.0, strings_view(l.list_deps@));
            lemma_add_new_no_duplicates(once, seq![m]);
            assert forall|n: Seq<char>| seq![m].contains(n) <==> m == n by {
                if m == n {
                    assert(seq![m][0] == n);
                }
            }
        }
    }
}

/// The list half of `formula_deps`: no name twice, and exactly what the
/// formula's names bring.
proof fn lemma_formula_list_deps(prior: Seq<CompiledList>, config: Config, names: Seq<Seq<char>>)
    ensures
        formula_deps(prior, config, names).0.no_duplicates(),
        forall|n: Seq<char>|
            #[trigger] formula_deps(prior, config, names).0.contains(n) <==> exists|k: int|
                0 <= k < names.len() && brings_list(prior, config, #[trigger] names[k], n),
    decreases names.len(),
{
    let r = formula_deps(prior, config, names);
    if names.len() == 0 {
        assert(r.0 =~= Seq::<Seq<char>>::empty());
    } else {
        let front = names.drop_last();
        let m = names.last();
        let acc = formula_deps(prior, config, front);
        lemma_formula_list_deps(prior, config, front);
        assert(r == with_reference(prior, config, acc, m));
        lemma_with_reference_lists(prior, config, acc, m);
        assert forall|n: Seq<char>| #[trigger] r.0.contains(n) <==> exists|k: int|
            0 <= k < names.len() && brings_list(prior, config, #[trigger] names[k], n) by {
            if r.0.contains(n) {
                if acc.0.contains(n) {
                    let k = choose|k: int| 0 <= k < front.len() && brings_list(prior, config, #[trigger] front[k], n);
                    assert(names[k] == front[k]);
                } else {
                    assert(brings_list(prior, config, names[names.len() - 1], n));
                }
            }
            if exists|k: int| 0 <= k < names.len() && brings_list(prior, config, #[trigger] names[k], n) {
                let k = choose|k: int| 0 <= k < names.len() && brings_list(prior, config, #[trigger] names[k], n);
                if k < front.len() {
                    assert(names[k] == front[k]);
                    assert(brings_list(prior, config, front[k], n));
                    assert(acc.0.contains(n));
                } else {
                    assert(names[k] == m);
                }
            }
        }
    }
}

/// The source half of `formula_deps`: no name twice, and exactly what the
/// formula's names bring.
proof fn lemma_formula_source_deps(prior: Seq<CompiledList>, config: Config, names: Seq<Seq<char>>)
    ensures
        formula_deps(prior, config, names).1.no_duplicates(),
        forall|n: Seq<char>|
            #[trigger] formula_deps(prior, config, names).1.contains(n) <==> exists|k: int|
                0 <= k < names.len() && brings_source(prior, config, #[trigger] names[k], n),
    decreases names.len(),
{
    let r = formula_deps(prior, config, names);
    if names.len() == 0 {
        assert(r.1 =~= Seq::<Seq<char>>::empty());
    } else {
        let front = names.drop_last();
        let m = names.last();
        let acc = formula_deps(prior, config, front);
        lemma_formula_source_deps(prior, config, front);
        assert(r == with_reference(prior, config, acc, m));
        if is_source(config, m) {
            lemma_add_new_no_duplicates(acc.1, seq![m]);
        } else if let Some(l) = list_named(prior, m) {
            lemma_add_new_no_duplicates(acc.1, strings_view(l.source_deps@));
        }
        assert forall|n: Seq<char>| #[trigger] r.1.contains(n) <==> exists|k: int|
            0 <= k < names.len() && brings_source(prior, config, #[trigger] names[k], n) by {
            if r.1.contains(n) {
                if acc.1.contains(n) {
                    let k = choose|k: int| 0 <= k < front.len() && brings_source(prior, config, #[trigger] front[k], n);
                    assert(names[k] == front[k]);
                } else {
                    if is_source(config, m) {
                        let z = choose|z: int| 0 <= z < seq![m].len() && seq![m][z] == n;
                        assert(n == m);
                    }
                    assert(brings_source(prior, config, names[names.len() - 1], n));
                }
            }
            if exists|k: int| 0 <= k < names.len() && brings_source(prior, config, #[trigger] names[k], n) {
                let k = choose|k: int| 0 <= k < names.len() && brings_source(prior, config, #[trigger] names[k], n);
                if k < front.len() {
                    assert(names[k] == front[k]);
                    assert(brings_source(prior, config, front[k], n));
                    assert(acc.1.contains(n));
                } else {
                    assert(names[k] == m);
                    if is_source(config, m) {
                        assert(seq![m][0] == n);
                    }
                }
            }
        }
    }
}

/// A list's dependencies hold no name twice, and hold exactly the lists its
/// formula names together with their own dependencies; its source
/// dependencies, exactly the sources it names and those its lists depend
/// on. Applied list by list in compile order, this makes each list's
/// dependencies exactly what it reaches.
pub proof fn lemma_formula_deps_members(prior: Seq<CompiledList>, config: Config, names: Seq<Seq<char>>)
    ensures
        formula_deps(prior, config, names).0.no_duplicates(),
        formula_deps(prior, config, names).1.no_duplicates(),
        forall|n: Seq<char>|
            #[trigger] formula_deps(prior, config, names).0.contains(n) <==> exists|k: int|
                0 <= k < names.len() && brings_list(prior, config, #[trigger] names[k], n),
        forall|n: Seq<char>|
            #[trigger] formula_deps(prior, config, names).1.contains(n) <==> exists|k: int|
                0 <= k < names.len() && brings_source(prior, config, #[trigger] names[k], n),
{
    lemma_formula_list_deps(prior, config, names);
    lemma_formula_source_deps(prior, config, names);
}

/// Whether the list at `p` reaches the list named `n`: its formula names a
/// list placed before it that is `n` or itself reaches `n`.
pub open spec fn reaches_list(lists: Seq<CompiledList>, config: Config, p: int, n: Seq<char>) -> bool
    decreases p,
{
    if p <= 0 || p >= lists.len() {
        false
    } else {
        exists|k: int, q: int|
            #![trigger crate::expr::ast::expr_names(lists[p].expr@)[k], lists[q]]
            0 <= k < crate::expr::ast::expr_names(lists[p].expr@).len() && 0 <= q < p && !is_source(
                config,
                crate::expr::ast::expr_names(lists[p].expr@)[k],
            ) && first_named_at(lists, crate::expr::ast::expr_names(lists[p].expr@)[k], q) && (
            crate::expr::ast::expr_names(lists[p].expr@)[k] == n || reaches_list(lists, config, q, n))
    }
}

/// Whether the list at `p` reaches the source `n`: its formula names `n`,
/// or names a list placed before it that reaches `n`.
pub open spec fn reaches_source(lists: Seq<CompiledList>, config: Config, p: int, n: Seq<char>) -> bool
    decreases p,
{
    if p < 0 || p >= lists.len() {
        false
    } else {
        exists|k: int, q: int|
            #![trigger crate::expr::ast::expr_names(lists[p].expr@)[k], lists[q]]
            0 <= k < crate::expr::ast::expr_names(lists[p].expr@).len() && (
            (is_source(config, crate::expr::ast::expr_names(lists[p].expr@)[k])
                && crate::expr::ast::expr_names(lists[p].expr@)[k] == n && q == p) || (0 <= q < p
                && !is_source(config, crate::expr::ast::expr_names(lists[p].expr@)[k]) && first_named_at(
                lists,
                crate::expr::ast::expr_names(lists[p].expr@)[k],
                q,
            ) && reaches_source(lists, config, q, n)))
    }
}

/// The list a prefix of the compiled lists names `m` by is the first of
/// them with that name.
proof fn lemma_list_named_first(lists: Seq<CompiledList>, p: int, m: Seq<char>, q: int)
    requires
        0 <= q < p <= lists.len(),
        first_named_at(lists, m, q),
    ensures
        list_named(lists.take(p), m) == Some(lists[q]),
{
    let prior = lists.take(p);
    assert(prior[q] == lists[q]);
    assert(0 <= q < prior.len() && prior[q].name@ == m);
    let i = choose|i: int| 0 <= i < prior.len() && prior[i].name@ == m && forall|j: int| 0 <= j < i ==> prior[j].name@ != m;
    assert(prior[i] == lists[i]);
    if i < q {
        assert(lists[i].name@ != m);
    }
    if q < i {
        assert(prior[q].name@ != m);
    }
}

/// Whether the list at `t` holds the dependencies `formula_deps` gives over
/// the lists before it, as `compile` builds them.
pub open spec fn deps_built(lists: Seq<CompiledList>, config: Config, t: int) -> bool {
    (strings_view(lists[t].list_deps@), strings_view(lists[t].source_deps@)) == formula_deps(
        lists.take(t),
        config,
        crate::expr::ast::expr_names(lists[t].expr@),
    )
}

/// Where some list has a name, one is the first with it.
proof fn lemma_first_with_name(lists: Seq<CompiledList>, m: Seq<char>, i0: int)
    requires
        0 <= i0 < lists.len(),
        lists[i0].name@ == m,
    ensures
        exists|i: int| 0 <= i <= i0 && #[trigger] first_named_at(lists, m, i),
    decreases i0,
{
    if exists|j: int| 0 <= j < i0 && lists[j].name@ == m {
        let j = choose|j: int| 0 <= j < i0 && lists[j].name@ == m;
        lemma_first_with_name(lists, m, j);
    } else {
        assert(first_named_at(lists, m, i0));
    }
}

/// The first list of a prefix with a given name, where there is one.
proof fn lemma_list_named_is_first(lists: Seq<CompiledList>, p: int, m: Seq<char>)
    requires
        0 <= p <= lists.len(),
        list_named(lists.take(p), m) is Some,
    ensures
        exists|i: int|
            0 <= i < p && #[trigger] first_named_at(lists, m, i) && list_named(lists.take(p), m) == Some(lists[i]),
{
    let prior = lists.take(p);
    let i0 = choose|i: int| 0 <= i < prior.len() && prior[i].name@ == m;
    assert(prior[i0] == lists[i0]);
    lemma_first_with_name(lists, m, i0);
    let i = choose|i: int| 0 <= i <= i0 && #[trigger] first_named_at(lists, m, i);
    lemma_list_named_first(lists, p, m, i);
}

proof fn lemma_list_deps_step(lists: Seq<CompiledList>, config: Config, p: int)
    requires
        0 <= p < lists.len(),
        deps_built(lists, config, p),
        forall|q: int, n: Seq<char>|
            0 <= q < p ==> (#[trigger] strings_view(lists[q].list_deps@).contains(n) <==> #[trigger] reaches_list(
                lists,
                config,
                q,
                n,
            )),
    ensures
        forall|n: Seq<char>| #[trigger] strings_view(lists[p].list_deps@).contains(n) <==> reaches_list(lists, config, p, n),
{
    let names = crate::expr::ast::expr_names(lists[p].expr@);
    let prior = lists.take(p);
    lemma_formula_deps_members(prior, config, names);
    assert forall|n: Seq<char>| #[trigger] strings_view(lists[p].list_deps@).contains(n) implies reaches_list(
        lists,
        config,
        p,
        n,
    ) by {
        let k = choose|k: int| 0 <= k < names.len() && brings_list(prior, config, #[trigger] names[k], n);
        let m = names[k];
        lemma_list_named_is_first(lists, p, m);
        let i = choose|i: int| 0 <= i < p && #[trigger] first_named_at(lists, m, i) && list_named(prior, m) == Some(lists[i]);
        if m != n {
            assert(strings_view(lists[i].list_deps@).contains(n));
            assert(reaches_list(lists, config, i, n));
        }
        assert(lists[i] == lists[i]);
    }
    assert forall|n: Seq<char>| reaches_list(lists, config, p, n) implies #[trigger] strings_view(
        lists[p].list_deps@,
    ).contains(n) by {
        let (k, q) = choose|k: int, q: int|
            #![trigger names[k], lists[q]]
            0 <= k < names.len() && 0 <= q < p && !is_source(config, names[k]) && first_named_at(lists, names[k], q)
                && (names[k] == n || reaches_list(lists, config, q, n));
        lemma_list_named_first(lists, p, names[k], q);
        assert(brings_list(prior, config, names[k], n));
    }
}

proof fn lemma_source_deps_step(lists: Seq<CompiledList>, config: Config, p: int)
    requires
        0 <= p < lists.len(),
        deps_built(lists, config, p),
        forall|q: int, n: Seq<char>|
            0 <= q < p ==> (#[trigger] strings_view(lists[q].source_deps@).contains(n) <==> #[trigger] reaches_source(
                lists,
                config,
                q,
                n,
            )),
    ensures
        forall|n: Seq<char>| #[trigger] strings_view(lists[p].source_deps@).contains(n) <==> reaches_source(lists, config, p, n),
{
    let names = crate::expr::ast::expr_names(lists[p].expr@);
    let prior = lists.take(p);
    lemma_formula_deps_members(prior, config, names);
    assert forall|n: Seq<char>| #[trigger] strings_view(lists[p].source_deps@).contains(n) implies reaches_source(
        lists,
        config,
        p,
        n,
    ) by {
        let k = choose|k: int| 0 <= k < names.len() && brings_source(prior, config, #[trigger] names[k], n);
        let m = names[k];
        if is_source(config, m) && m == n {
            assert(lists[p] == lists[p]);
        } else {
            lemma_list_named_is_first(lists, p, m);
            let i = choose|i: int| 0 <= i < p && #[trigger] first_named_at(lists, m, i) && list_named(prior, m) == Some(lists[i]);
            assert(strings_view(lists[i].source_deps@).contains(n));
            assert(reaches_source(lists, config, i, n));
            assert(lists[i] == lists[i]);
        }
    }
    assert forall|n: Seq<char>| reaches_source(lists, config, p, n) implies #[trigger] strings_view(
        lists[p].source_deps@,
    ).contains(n) by {
        let (k, q) = choose|k: int, q: int|
            #![trigger names[k], lists[q]]
            0 <= k < names.len() && ((is_source(config, names[k]) && names[k] == n && q == p) || (0 <= q < p
                && !is_source(config, names[k]) && first_named_at(lists, names[k], q) && reaches_source(
                lists,
                config,
                q,
                n,
            )));
        if q < p {
            lemma_list_named_first(lists, p, names[k], q);
        }
        assert(brings_source(prior, config, names[k], n));
    }
}

/// Where each list's dependencies are what `formula_deps` gives over the
/// lists before it, as `compile` builds them, a list's dependencies are
/// exactly the lists and the sources it reaches.
pub proof fn lemma_deps_are_reachable(lists: Seq<CompiledList>, config: Config, p: int)
    requires
        0 <= p < lists.len(),
        forall|t: int| 0 <= t < lists.len() ==> #[trigger] deps_built(lists, config, t),
    ensures
        forall|n: Seq<char>| #[trigger] strings_view(lists[p].list_deps@).contains(n) <==> reaches_list(lists, config, p, n),
        forall|n: Seq<char>| #[trigger] strings_view(lists[p].source_deps@).contains(n) <==> reaches_source(lists, config, p, n),
    decreases p,
{
    assert forall|q: int, n: Seq<char>| 0 <= q < p implies (#[trigger] strings_view(lists[q].list_deps@).contains(n)
        <==> #[trigger] reaches_list(lists, config, q, n)) by {
        lemma_deps_are_reachable(lists, config, q);
    }
    assert forall|q: int, n: Seq<char>| 0 <= q < p implies (#[trigger] strings_view(lists[q].source_deps@).contains(n)
        <==> #[trigger] reaches_source(lists, config, q, n)) by {
        lemma_deps_are_reachable(lists, config, q);
    }
    assert(deps_built(lists, config, p));
    lemma_list_deps_step(lists, config, p);
    lemma_source_deps_step(lists, config, p);
}

/// Add what one referenced name brings to a list's dependencies: a source
/// itself, or a list together with that list's own dependencies.
fn add_reference(
    compiled: &Vec<CompiledList>,
    config: &Config,
    referenced: &String,
    list_deps: &mut Vec<String>,
    source_deps: &mut Vec<String>,
)
    requires
        forall|q: int| 0 <= q < compiled@.len() ==> deps_closed(*config, compiled@, q),
        forall|q: int| 0 <= q < compiled@.len() ==> all_sources(*config, (#[trigger] compiled@[q]).source_deps@),
        closed_over(compiled@, compiled@.len() as int, old(list_deps)@, old(source_deps)@),
        deps_ordered(compiled@, compiled@.len() as int, old(list_deps)@),
        strings_view(old(list_deps)@).no_duplicates(),
        strings_view(old(source_deps)@).no_duplicates(),
        all_sources(*config, old(source_deps)@),
    ensures
        closed_over(compiled@, compiled@.len() as int, final(list_deps)@, final(source_deps)@),
        deps_ordered(compiled@, compiled@.len() as int, final(list_deps)@),
        strings_view(final(list_deps)@).no_duplicates(),
        strings_view(final(source_deps)@).no_duplicates(),
        all_sources(*config, final(source_deps)@),
        includes(final(list_deps)@, old(list_deps)@),
        includes(final(source_deps)@, old(source_deps)@),
        is_source(*config, referenced@) ==> strings_view(final(source_deps)@).contains(referenced@),
        (exists|q: int| 0 <= q < compiled@.len() && compiled@[q].name@ == referenced@) && !is_source(
            *config,
            referenced@,
        ) ==> strings_view(final(list_deps)@).contains(referenced@),
        (strings_view(final(list_deps)@), strings_view(final(source_deps)@)) == with_reference(
            compiled@,
            *config,
            (strings_view(old(list_deps)@), strings_view(old(source_deps)@)),
            referenced@,
        ),
{
    let ghost p = compiled@.len() as int;
    let ghost ld0 = list_deps@;
    let ghost sd0 = source_deps@;
    if find_named(&config.sources, referenced.as_str()).is_some() {
        push_new(source_deps, referenced);
        proof {
            assert(strings_view(source_deps@) == add_new(strings_view(sd0), seq![referenced@]));
            lemma_push_new_view(sd0, source_deps@, *referenced);
            lemma_all_sources_push_new(*config, sd0, source_deps@, *referenced);
            assert forall|x: Seq<char>| #[trigger] strings_view(list_deps@).contains(x) implies dep_ok(
                compiled@,
                p,
                x,
                list_deps@,
                source_deps@,
            ) by {
                lemma_closed_grow(compiled@, p, ld0, sd0, list_deps@, source_deps@, x);
            }
        }
        return;
    }
    let mut q: usize = 0;
    let mut found: Option<usize> = None;
    while q < compiled.len()
        invariant
            0 <= q <= compiled@.len(),
            found matches Some(x) ==> first_named_at(compiled@, referenced@, x as int),
            found is None ==> forall|j: int| 0 <= j < q ==> compiled@[j].name@ != referenced@,
        decreases compiled.len() - q,
    {
        if found.is_none() && str_eq(compiled[q].name.as_str(), referenced.as_str()) {
            found = Some(q);
        }
        q += 1;
    }
    match found {
        Some(q) => {
            let dependency = &compiled[q];
            proof {
                assert(deps_closed(*config, compiled@, q as int));
                assert(first_named_at(compiled@, referenced@, q as int));
                assert(strings_view(dependency.list_deps@).take(0) =~= Seq::<Seq<char>>::empty());
            }
            let mut a: usize = 0;
            while a < dependency.list_deps.len()
                invariant
                    0 <= a <= dependency.list_deps@.len(),
                    source_deps@ == sd0,
                    includes(list_deps@, ld0),
                    strings_view(list_deps@).no_duplicates(),
                    forall|x: Seq<char>|
                        #[trigger] strings_view(list_deps@).contains(x) ==> strings_view(ld0).contains(x)
                            || strings_view(dependency.list_deps@).contains(x),
                    forall|t: int| 0 <= t < a ==> strings_view(list_deps@).contains((#[trigger] dependency.list_deps@[t])@),
                    deps_ordered(compiled@, p, list_deps@),
                    deps_ordered(compiled@, q as int, dependency.list_deps@),
                    q < p,
                    strings_view(list_deps@) == add_new(strings_view(ld0), strings_view(dependency.list_deps@).take(a as int)),
                decreases dependency.list_deps.len() - a,
            {
                let ghost before = list_deps@;
                proof {
                    let x = dependency.list_deps@[a as int];
                    assert(placed_after_deps(compiled@, q as int, dependency.list_deps@, a as int));
                    let q2 = choose|q2: int| 0 <= q2 < q && #[trigger] first_named_at(compiled@, x@, q2) && includes(dependency.list_deps@.take(a as int), compiled@[q2].list_deps@);
                    assert(includes(before, dependency.list_deps@.take(a as int))) by {
                        assert forall|y: Seq<char>| #[trigger] strings_view(dependency.list_deps@.take(a as int)).contains(y) implies strings_view(before).contains(y) by {
                            let t = choose|t: int| 0 <= t < strings_view(dependency.list_deps@.take(a as int)).len() && strings_view(dependency.list_deps@.take(a as int))[t] == y;
                            assert(dependency.list_deps@[t]@ == y);
                        }
                    }
                    lemma_includes_trans(before, dependency.list_deps@.take(a as int), compiled@[q2].list_deps@);
                    assert(first_named_at(compiled@, x@, q2));
                }
                push_new(list_deps, &dependency.list_deps[a]);
                proof {
                    let dv = strings_view(dependency.list_deps@);
                    assert(dv.take(a + 1) =~= dv.take(a as int) + seq![dv[a as int]]);
                    crate::expr::ast::lemma_add_new_concat(strings_view(ld0), dv.take(a as int), seq![dv[a as int]]);
                    assert(strings_view(list_deps@) == add_new(strings_view(before), seq![dv[a as int]]));
                    lemma_ordered_push_new(compiled@, p, before, list_deps@, dependency.list_deps@[a as int]);
                    lemma_push_new_view(before, list_deps@, dependency.list_deps@[a as int]);
                    assert(strings_view(dependency.list_deps@)[a as int] == dependency.list_deps@[a as int]@);
                    assert forall|x: Seq<char>| #[trigger] strings_view(list_deps@).contains(x) implies strings_view(
                        ld0,
                    ).contains(x) || strings_view(dependency.list_deps@).contains(x) by {
                        if x == dependency.list_deps@[a as int]@ {
                        } else {
                            assert(strings_view(before).contains(x));
                        }
                    }
                    assert forall|t: int| 0 <= t < a + 1 implies strings_view(list_deps@).contains(
                        (#[trigger] dependency.list_deps@[t])@,
                    ) by {
                        if t < a {
                            assert(strings_view(before).contains(dependency.list_deps@[t]@));
                        }
                    }
                }
                a += 1;
            }
            let ghost ld1 = list_deps@;
            proof {
                assert(strings_view(dependency.list_deps@).take(dependency.list_deps@.len() as int) =~= strings_view(dependency.list_deps@));
                lemma_first_named_found(compiled@, referenced@, q as int);
                assert(!is_source(*config, referenced@));
                assert forall|x: Seq<char>| #[trigger] strings_view(dependency.list_deps@).contains(x) implies strings_view(
                    ld1,
                ).contains(x) by {
                    let t = choose|t: int| 0 <= t < strings_view(dependency.list_deps@).len() && strings_view(dependency.list_deps@)[t] == x;
                    assert(dependency.list_deps@[t]@ == x);
                }
            }
            proof {
                assert(includes(ld1, compiled@[q as int].list_deps@));
                assert(first_named_at(compiled@, referenced@, q as int));
            }
            push_new(list_deps, referenced);
            proof {
                assert(strings_view(list_deps@) == add_new(strings_view(ld1), seq![referenced@]));
                lemma_ordered_push_new(compiled@, p, ld1, list_deps@, *referenced);
                lemma_push_new_view(ld1, list_deps@, *referenced);
            }
            let mut b: usize = 0;
            assert(strings_view(dependency.source_deps@).take(0) =~= Seq::<Seq<char>>::empty());
            while b < dependency.source_deps.len()
                invariant
                    0 <= b <= dependency.source_deps@.len(),
                    all_sources(*config, source_deps@),
                    all_sources(*config, dependency.source_deps@),
                    includes(source_deps@, sd0),
                    strings_view(source_deps@).no_duplicates(),
                    forall|t: int| 0 <= t < b ==> strings_view(source_deps@).contains((#[trigger] dependency.source_deps@[t])@),
                    strings_view(source_deps@) == add_new(strings_view(sd0), strings_view(dependency.source_deps@).take(b as int)),
                decreases dependency.source_deps.len() - b,
            {
                let ghost before = source_deps@;
                push_new(source_deps, &dependency.source_deps[b]);
                proof {
                    let dv = strings_view(dependency.source_deps@);
                    assert(dv.take(b + 1) =~= dv.take(b as int) + seq![dv[b as int]]);
                    crate::expr::ast::lemma_add_new_concat(strings_view(sd0), dv.take(b as int), seq![dv[b as int]]);
                    assert(strings_view(source_deps@) == add_new(strings_view(before), seq![dv[b as int]]));
                    lemma_push_new_view(before, source_deps@, dependency.source_deps@[b as int]);
                    assert(is_source(*config, dependency.source_deps@[b as int]@));
                    lemma_all_sources_push_new(*config, before, source_deps@, dependency.source_deps@[b as int]);
                    assert forall|t: int| 0 <= t < b + 1 implies strings_view(source_deps@).contains(
                        (#[trigger] dependency.source_deps@[t])@,
                    ) by {
                        if t < b {
                            assert(strings_view(before).contains(dependency.source_deps@[t]@));
                        }
                    }
                }
                b += 1;
            }
            proof {
                assert(strings_view(dependency.source_deps@).take(dependency.source_deps@.len() as int) =~= strings_view(dependency.source_deps@));
                let ld = list_deps@;
                let sd = source_deps@;
                assert(includes(sd, dependency.source_deps@)) by {
                    assert forall|x: Seq<char>| #[trigger] strings_view(dependency.source_deps@).contains(x) implies strings_view(
                        sd,
                    ).contains(x) by {
                        let t = choose|t: int| 0 <= t < strings_view(dependency.source_deps@).len() && strings_view(dependency.source_deps@)[t] == x;
                        assert(dependency.source_deps@[t]@ == x);
                    }
                }
                assert(includes(ld, dependency.list_deps@));
                assert forall|x: Seq<char>| #[trigger] strings_view(ld).contains(x) implies dep_ok(compiled@, p, x, ld, sd) by {
                    if x == referenced@ {
                        assert(first_named_at(compiled@, x, q as int));
                    } else if strings_view(ld0).contains(x) {
                        lemma_closed_grow(compiled@, p, ld0, sd0, ld, sd, x);
                    } else {
                        assert(strings_view(ld1).contains(x));
                        assert(strings_view(dependency.list_deps@).contains(x));
                        assert(closed_over(compiled@, q as int, dependency.list_deps@, dependency.source_deps@));
                        assert(dep_ok(compiled@, q as int, x, dependency.list_deps@, dependency.source_deps@));
                        let q2 = choose|q2: int|
                            0 <= q2 < q && #[trigger] first_named_at(compiled@, x, q2) && includes(
                                dependency.list_deps@,
                                compiled@[q2].list_deps@,
                            ) && includes(dependency.source_deps@, compiled@[q2].source_deps@);
                        lemma_includes_trans(ld, dependency.list_deps@, compiled@[q2].list_deps@);
                        lemma_includes_trans(sd, dependency.source_deps@, compiled@[q2].source_deps@);
                        assert(first_named_at(compiled@, x, q2));
                    }
                }
            }
        },
        None => {
            proof {
                assert(!(exists|i: int| 0 <= i < compiled@.len() && compiled@[i].name@ == referenced@));
                assert(list_named(compiled@, referenced@) is None);
            }
        },
    }
}

/// Whether list `j`'s `filter:`, where it has one, parses and names only
/// defined filter blocks.
pub open spec fn list_filter_ok(config: Config, j: int) -> bool {
    match config.lists@[j].1.filter {
        None => true,
        Some(t) => crate::filter::parser::parse_spec(t@) matches Ok(e) && crate::filter::eval::filter_known(
            e,
            names_of(config.filters@),
        ),
    }
}

/// Whether a configuration compiles: no source or list has a problem,
/// every filter block is well formed, every formula parses, every pattern
/// matches something, every name a formula references is a source or a
/// list, every list filter resolves, and no lists depend on one another in
/// a circle.
pub open spec fn config_valid(config: Config) -> bool {
    &&& sources_problems(config, config.sources@.len() as int).len() == 0
    &&& lists_problems(config, config.lists@.len() as int).len() == 0
    &&& forall|j: int| 0 <= j < config.filters@.len() ==> filter_block_ok(#[trigger] config.filters@[j].1)
    &&& forall|j: int| 0 <= j < config.lists@.len() ==> formula_parses(#[trigger] config.lists@[j].1.list_formula@)
    &&& forall|j: int|
        0 <= j < config.lists@.len() ==> crate::expr::wildcard::unmatched_leaves(
            #[trigger] formula_of(config, j),
            config_names(config),
            config.lists@[j].0@,
        ).len() == 0
    &&& forall|j: int| 0 <= j < config.lists@.len() ==> names_resolved(config, #[trigger] expanded_of(config, j))
    &&& forall|j: int| 0 <= j < config.lists@.len() ==> #[trigger] list_filter_ok(config, j)
    &&& !has_cycle(expanded_lists(config), config)
}

/// How many lists' filters do not resolve, among the first `n`.
pub open spec fn filter_failures(config: Config, n: int) -> nat
    decreases n,
{
    if n <= 0 {
        0
    } else {
        filter_failures(config, n - 1) + if list_filter_ok(config, n - 1) {
            0nat
        } else {
            1nat
        }
    }
}

/// The lists whose formulas parse, each with every pattern replaced by what
/// it matches.
pub open spec fn resolved_lists(config: Config) -> Seq<(Seq<char>, ExprV)> {
    rewritten(parsed_formulas(config.lists@), config_names(config))
}

/// How many problems a config has besides its cycles: those of its sources
/// and of its lists, one per filter line that does not parse, per formula
/// that does not parse, per pattern that matches nothing, per referenced
/// name that is neither a source nor a list, and per list filter that does
/// not resolve.
pub open spec fn problems_besides_cycles(config: Config) -> nat {
    sources_problems(config, config.sources@.len() as int).len() + lists_problems(
        config,
        config.lists@.len() as int,
    ).len() + filter_problem_count(config.filters@) + formula_failures(config.lists@) + unmatched_count(
        parsed_formulas(config.lists@),
        config_names(config),
    ) + unresolved_total(config, resolved_lists(config)) + filter_failures(config, config.lists@.len() as int)
}

/// Validate a parsed config and pre-compile every list expression.
///
/// It succeeds exactly when the config is valid (`config_valid`); otherwise
/// every problem is reported at once, counted, in one message that begins
/// with those of the sources and of the lists, and names a cycle where the
/// formulas parse and lists depend on one another in a circle. On success
/// each list comes after every list it references, every name a list
/// references is a source or a list, and each list's dependencies are
/// exactly the lists and sources it reaches, in the order `formula_deps`
/// meets them.
#[verifier::rlimit(40)]
pub fn compile(config: Config, path: String) -> (r: Result<Runtime, String>)
    ensures
        r matches Err(m) ==> starts_with(m@, "config has "@),
        r is Ok <==> config_valid(config),
        r matches Err(m) ==> exists|ps: Seq<Seq<char>>|
            ps.len() > 0 && m@ == problems_message(ps) && ps.subrange(
                0,
                (sources_problems(config, config.sources@.len() as int).len() + lists_problems(
                    config,
                    config.lists@.len() as int,
                ).len()) as int,
            ) == sources_problems(config, config.sources@.len() as int) + lists_problems(
                config,
                config.lists@.len() as int,
            ) && ((forall|j: int|
                0 <= j < config.lists@.len() ==> formula_parses(#[trigger] config.lists@[j].1.list_formula@))
                && has_cycle(expanded_lists(config), config) ==> exists|j: int|
                0 <= j < ps.len() && starts_with(#[trigger] ps[j], "lists form a cycle: "@))
                && ps.len() >= problems_besides_cycles(config) && (ps.len() == problems_besides_cycles(config)
                <==> !has_cycle(resolved_lists(config), config)),
        r matches Ok(rt) ==> {
            &&& rt.config == config
            &&& rt.path@ == path@
            &&& rt.lists@.len() == config.lists@.len()
            &&& rt.list_order@.len() == rt.lists@.len()
            &&& exists|perm: Seq<usize>|
                perm.len() == config.lists@.len() && perm.no_duplicates() && forall|q: int|
                    0 <= q < perm.len() ==> #[trigger] perm[q] < config.lists@.len() && rt.list_order@[q]@
                        == config.lists@[perm[q] as int].0@
            &&& forall|p: int| 0 <= p < rt.lists@.len() ==> (#[trigger] rt.lists@[p]).name@ == rt.list_order@[p]@
            &&& forall|p: int| 0 <= p < rt.lists@.len() ==> is_list(config, (#[trigger] rt.lists@[p]).name@)
            &&& forall|p: int| 0 <= p < rt.lists@.len() ==> all_sources(config, (#[trigger] rt.lists@[p]).source_deps@)
            &&& rt.coherent()
            &&& forall|p: int| 0 <= p < rt.lists@.len() ==> deps_closed(config, rt.lists@, p)
            &&& forall|p: int|
                0 <= p < rt.lists@.len() ==> (
                    strings_view((#[trigger] rt.lists@[p]).list_deps@),
                    strings_view(rt.lists@[p].source_deps@),
                ) == formula_deps(rt.lists@.take(p), config, crate::expr::ast::expr_names(rt.lists@[p].expr@))
            // Each list depends on exactly the lists and the sources it
            // reaches through the lists its formula names.
            &&& forall|p: int, n: Seq<char>|
                0 <= p < rt.lists@.len() ==> (#[trigger] strings_view(rt.lists@[p].list_deps@).contains(n)
                    <==> reaches_list(rt.lists@, config, p, n)) && (strings_view(rt.lists@[p].source_deps@).contains(
                    n,
                ) <==> reaches_source(rt.lists@, config, p, n))
            &&& forall|p: int| 0 <= p < rt.lists@.len() ==> wildcard_free((#[trigger] rt.lists@[p]).expr@)
            &&& sources_problems(config, config.sources@.len() as int).len() == 0
            &&& lists_problems(config, config.lists@.len() as int).len() == 0
            &&& forall|j: int| 0 <= j < config.filters@.len() ==> filter_block_ok(#[trigger] config.filters@[j].1)
            &&& forall|j: int|
                0 <= j < config.lists@.len() ==> formula_parses(#[trigger] config.lists@[j].1.list_formula@)
            &&& forall|j: int|
                0 <= j < config.lists@.len() ==> !is_source(config, #[trigger] config.lists@[j].0@)
            &&& forall|p: int, k: int|
                0 <= p < rt.lists@.len() && 0 <= k < crate::expr::ast::expr_names(
                    rt.lists@[p].expr@,
                ).len() ==> is_source(
                    config,
                    #[trigger] crate::expr::ast::expr_names(rt.lists@[p].expr@)[k],
                ) || is_list(config, crate::expr::ast::expr_names(rt.lists@[p].expr@)[k])
            &&& forall|p: int, k: int|
                0 <= p < rt.lists@.len() && 0 <= k < crate::expr::ast::expr_names(
                    rt.lists@[p].expr@,
                ).len() && is_list(
                    config,
                    #[trigger] crate::expr::ast::expr_names(rt.lists@[p].expr@)[k],
                ) ==> named_before(rt.lists@, crate::expr::ast::expr_names(rt.lists@[p].expr@)[k], p)
        },
{
    let mut problems: Vec<String> = Vec::new();
    check_sources(&config, &mut problems);
    let ghost after_sources = problems@.len();
    proof {
        assert(strings_view(problems@).len() == problems@.len());
    }
    check_lists(&config, &mut problems);
    let ghost after_lists = problems@.len();
    let ghost pre = strings_view(problems@);
    proof {
        assert(strings_view(problems@).len() == problems@.len());
        assert(pre == sources_problems(config, config.sources@.len() as int) + lists_problems(
            config,
            config.lists@.len() as int,
        ));
    }
    let filters = build_filters(&config.filters, &mut problems);
    let ghost after_filters = problems@.len();
    let mut parsed = parse_formulas(&config, &mut problems);
    let ghost after_formulas = problems@.len();
    proof {
        assert forall|j: int| 0 <= j < pre.len() implies #[trigger] problems@[j]@ == pre[j] by {}
    }
    let ghost parsed_names = names_of(parsed@);
    let ghost parsed0 = parsed@;
    let ghost before_expand = problems@.len();
    expand_patterns(&mut parsed, &config, &mut problems);
    let ghost after_expand = problems@.len();
    proof {
        if after_formulas == after_filters {
            assert(parsed_view(parsed@) =~= expanded_lists(config)) by {
                assert forall|j: int| 0 <= j < parsed@.len() implies #[trigger] parsed_view(parsed@)[j] == expanded_lists(config)[j] by {
                    assert(parsed0[j].1@ == formula_of(config, j));
                }
            }
            assert(after_expand == after_formulas <==> forall|j: int|
                0 <= j < config.lists@.len() ==> crate::expr::wildcard::unmatched_leaves(
                    #[trigger] formula_of(config, j),
                    config_names(config),
                    config.lists@[j].0@,
                ).len() == 0) by {
                if after_expand == after_formulas {
                    assert forall|j: int| 0 <= j < config.lists@.len() implies crate::expr::wildcard::unmatched_leaves(
                        #[trigger] formula_of(config, j),
                        config_names(config),
                        config.lists@[j].0@,
                    ).len() == 0 by {
                        assert(parsed0[j].1@ == formula_of(config, j));
                        assert(crate::expr::wildcard::unmatched_leaves(parsed0[j].1@, config_names(config), parsed0[j].0@).len() == 0);
                    }
                } else {
                    let j = choose|j: int| 0 <= j < parsed0.len() && crate::expr::wildcard::unmatched_leaves(
                        (#[trigger] parsed0[j]).1@,
                        config_names(config),
                        parsed0[j].0@,
                    ).len() != 0;
                    assert(parsed0[j].1@ == formula_of(config, j));
                }
            }
        }
    }
    check_references(&parsed, &config, &mut problems);
    let ghost checked = problems@.len();
    proof {
        assert(crate::filter::eval::block_names(filters@) =~= names_of(config.filters@));
        assert forall|j: int| 0 <= j < pre.len() implies #[trigger] problems@[j]@ == pre[j] by {}
    }
    let mut i: usize = 0;
    while i < config.lists.len()
        invariant
            0 <= i <= config.lists@.len(),
            checked <= problems@.len(),
            crate::filter::eval::block_names(filters@) == names_of(config.filters@),
            problems@.len() == checked <==> forall|j: int| 0 <= j < i ==> #[trigger] list_filter_ok(config, j),
            pre.len() <= checked,
            forall|j: int| 0 <= j < pre.len() ==> #[trigger] problems@[j]@ == pre[j],
            problems@.len() == checked + filter_failures(config, i as int),
        decreases config.lists.len() - i,
    {
        let ghost before = problems@.len();
        compile_filter(&config.lists[i].0, &config.lists[i].1, &filters, &mut problems);
        proof {
            assert(list_filter_ok(config, i as int) <==> problems@.len() == before);
            assert(problems@.len() <= before + 1);
            assert forall|j: int| 0 <= j < i + 1 && problems@.len() == checked implies #[trigger] list_filter_ok(config, j) by {
                if j < i {
                    assert(before == checked);
                }
            }
        }
        i += 1;
    }
    let ghost problems_before_order = problems@.len();
    let ghost parsed_before_order = parsed_view(parsed@);
    let (order, deps) = topological_order(&parsed, &config, &mut problems);
    let ghost after_order = problems@.len();
    proof {
        assert(problems_before_order == checked + filter_failures(config, config.lists@.len() as int));
        assert(parsed_before_order == resolved_lists(config));
        assert(checked == after_expand + unresolved_total(config, resolved_lists(config)));
        assert(after_expand == after_formulas + unmatched_count(parsed_formulas(config.lists@), config_names(config)));
        assert(after_formulas == after_filters + formula_failures(config.lists@));
        assert(after_filters == after_lists + filter_problem_count(config.filters@));
        assert(problems_before_order == problems_besides_cycles(config));
    }
    proof {
        assert(strings_view(problems@).len() == problems@.len());
        if after_formulas == after_filters {
            assert(checked == after_expand <==> forall|j: int|
                0 <= j < config.lists@.len() ==> names_resolved(config, #[trigger] expanded_of(config, j))) by {
                assert forall|j: int| 0 <= j < config.lists@.len() implies #[trigger] expanded_of(config, j) == parsed@[j].1@ by {
                    assert(parsed_view(parsed@)[j] == expanded_lists(config)[j]);
                }
                if checked != after_expand {
                    let j = choose|j: int| 0 <= j < parsed@.len() && !names_resolved(config, (#[trigger] parsed@[j]).1@);
                    assert(expanded_of(config, j) == parsed@[j].1@);
                }
            }
        }
        assert(problems@.len() == 0 <==> config_valid(config));
    }
    if problems.len() > 0 {
        let mut m = from_str("config has ");
        let count = fmt_u64(problems.len() as u64);
        push_str(&mut m, count.as_str());
        push_str(&mut m, " problem(s):\n  - ");
        let joined = join_strings(&problems, "\n  - ");
        push_str(&mut m, joined.as_str());
        proof {
            reveal_strlit("config has ");
            assert(m@.subrange(0, 11) =~= "config has "@);
            let ps = strings_view(problems@);
            assert(m@ =~= problems_message(ps));
            assert(ps.subrange(0, pre.len() as int) =~= pre) by {
                assert forall|j: int| 0 <= j < pre.len() implies ps[j] == pre[j] by {
                    assert(problems@[j]@ == pre[j]);
                }
            }
            if (forall|j: int|
                0 <= j < config.lists@.len() ==> formula_parses(#[trigger] config.lists@[j].1.list_formula@))
                && has_cycle(expanded_lists(config), config) {
                assert(after_formulas == after_filters);
                assert(parsed_before_order =~= expanded_lists(config));
                assert(after_order > problems_before_order);
                assert(starts_with(ps[problems_before_order as int], "lists form a cycle: "@));
            }
        }
        return Err(m);
    }
    proof {
        assert(after_expand == 0 && before_expand == 0);
        assert(after_sources == 0 && after_lists == 0 && after_filters == 0 && after_formulas == 0);
        assert(names_of(parsed@) =~= names_of(config.lists@)) by {
            assert forall|j: int| 0 <= j < parsed@.len() implies #[trigger] names_of(parsed@)[j]
                == names_of(config.lists@)[j] by {}
        }
    }
    let mut compiled: Vec<CompiledList> = Vec::new();
    let mut list_order: Vec<String> = Vec::new();
    let mut scratch: Vec<String> = Vec::new();
    let mut p: usize = 0;
    while p < order.len()
        invariant
            0 <= p <= order@.len(),
            order@.len() == parsed@.len(),
            parsed@.len() == config.lists@.len(),
            forall|j: int| 0 <= j < order@.len() ==> #[trigger] order@[j] < parsed@.len(),
            compiled@.len() == p,
            list_order@.len() == p,
            forall|q: int|
                0 <= q < p ==> (#[trigger] compiled@[q]).name@ == parsed@[order@[q] as int].0@
                    && compiled@[q].expr@ == parsed@[order@[q] as int].1@ && list_order@[q]@
                    == compiled@[q].name@,
            names_of(parsed@) == names_of(config.lists@),
            forall|q: int| 0 <= q < p ==> all_sources(config, (#[trigger] compiled@[q]).source_deps@),
            forall|q: int| 0 <= q < p ==> deps_closed(config, compiled@, q),
            forall|q: int|
                0 <= q < p ==> (
                    strings_view((#[trigger] compiled@[q]).list_deps@),
                    strings_view(compiled@[q].source_deps@),
                ) == formula_deps(compiled@.take(q), config, crate::expr::ast::expr_names(compiled@[q].expr@)),
            dependencies_first(deps@, order@),
            deps@.len() == parsed@.len(),
            forall|i: int, k: int|
                0 <= i < parsed@.len() && 0 <= k < crate::expr::ast::expr_names(parsed@[i].1@).len()
                    && is_list(config, #[trigger] crate::expr::ast::expr_names(parsed@[i].1@)[k])
                    && names_of(parsed@).contains(crate::expr::ast::expr_names(parsed@[i].1@)[k])
                    ==> exists|m: int|
                    0 <= m < deps@[i]@.len() && parsed@[deps@[i]@[m] as int].0@
                        == crate::expr::ast::expr_names(parsed@[i].1@)[k],
            forall|j: int| 0 <= j < config.lists@.len() ==> !is_source(config, #[trigger] config.lists@[j].0@),
            forall|j: int| 0 <= j < parsed@.len() ==> wildcard_free((#[trigger] parsed@[j]).1@),
        decreases order.len() - p,
    {
        let idx = order[p];
        let name = clone_string(&parsed[idx].0);
        let expr = parsed[idx].1.deep_clone();
        let names = expr.names();
        let mut list_deps: Vec<String> = Vec::new();
        let mut source_deps: Vec<String> = Vec::new();
        let ghost nv = crate::expr::ast::expr_names(parsed@[idx as int].1@);
        proof {
            assert(names@.map_values(|x: String| x@) == nv);
            // Every list the formula names was compiled before this one.
            assert forall|t: int| 0 <= t < nv.len() && is_list(config, #[trigger] nv[t]) implies exists|q: int|
                0 <= q < p && compiled@[q].name@ == nv[t] by {
                assert(names_of(parsed@).contains(nv[t]));
                let m = choose|m: int| 0 <= m < deps@[idx as int]@.len() && parsed@[deps@[idx as int]@[m] as int].0@ == nv[t];
                assert(occurs_before(order@, deps@[order@[p as int] as int]@[m], p as int));
                let q = choose|q: int| 0 <= q < p && order@[q] == deps@[idx as int]@[m];
                assert(compiled@[q].name@ == nv[t]);
            }
            assert(strings_view(list_deps@) =~= Seq::<Seq<char>>::empty());
            assert(strings_view(source_deps@) =~= Seq::<Seq<char>>::empty());
            assert(nv.take(0) =~= Seq::<Seq<char>>::empty());
        }
        let mut k: usize = 0;
        while k < names.len()
            invariant
                0 <= k <= names@.len(),
                names@.map_values(|x: String| x@) == nv,
                compiled@.len() == p,
                all_sources(config, source_deps@),
                forall|q: int| 0 <= q < compiled@.len() ==> all_sources(config, (#[trigger] compiled@[q]).source_deps@),
                forall|q: int| 0 <= q < compiled@.len() ==> deps_closed(config, compiled@, q),
                closed_over(compiled@, p as int, list_deps@, source_deps@),
                deps_ordered(compiled@, p as int, list_deps@),
                strings_view(list_deps@).no_duplicates(),
                strings_view(source_deps@).no_duplicates(),
                forall|t: int| 0 <= t < nv.len() && is_list(config, #[trigger] nv[t]) ==> exists|q: int|
                    0 <= q < p && compiled@[q].name@ == nv[t],
                forall|t: int| 0 <= t < k && is_list(config, #[trigger] nv[t]) ==> strings_view(list_deps@).contains(nv[t]),
                forall|t: int| 0 <= t < k && is_source(config, #[trigger] nv[t]) ==> strings_view(source_deps@).contains(nv[t]),
                forall|j: int| 0 <= j < config.lists@.len() ==> !is_source(config, #[trigger] config.lists@[j].0@),
                (strings_view(list_deps@), strings_view(source_deps@)) == formula_deps(compiled@, config, nv.take(k as int)),
            decreases names.len() - k,
        {
            let ghost ld0 = list_deps@;
            let ghost sd0 = source_deps@;
            proof {
                assert(names@[k as int]@ == nv[k as int]);
                if is_list(config, nv[k as int]) {
                    let j = choose|j: int| 0 <= j < names_of(config.lists@).len() && names_of(config.lists@)[j] == nv[k as int];
                    assert(config.lists@[j].0@ == nv[k as int]);
                    assert(!is_source(config, nv[k as int]));
                }
            }
            add_reference(&compiled, &config, &names[k], &mut list_deps, &mut source_deps);
            proof {
                assert(nv.take(k + 1).drop_last() =~= nv.take(k as int));
                assert(nv.take(k + 1).last() == nv[k as int]);
                assert forall|t: int| 0 <= t < k + 1 && is_list(config, #[trigger] nv[t]) implies strings_view(list_deps@).contains(nv[t]) by {
                    if t < k {
                        assert(strings_view(ld0).contains(nv[t]));
                    }
                }
                assert forall|t: int| 0 <= t < k + 1 && is_source(config, #[trigger] nv[t]) implies strings_view(source_deps@).contains(nv[t]) by {
                    if t < k {
                        assert(strings_view(sd0).contains(nv[t]));
                    }
                }
            }
            k += 1;
        }
        let filter = compile_filter(&name, &config.lists[idx].1, &filters, &mut scratch);
        let required_attrs = match &filter {
            Some(program) => program.attributes(),
            None => Vec::new(),
        };
        let order_name = clone_string(&name);
        let ghost before = compiled@;
        compiled.push(
            CompiledList { name, expr, list_deps, source_deps, filter, required_attrs },
        );
        list_order.push(order_name);
        proof {
            assert forall|q: int| 0 <= q < p + 1 implies (#[trigger] compiled@[q]).name@
                == parsed@[order@[q] as int].0@ && compiled@[q].expr@ == parsed@[order@[q] as int].1@
                && list_order@[q]@ == compiled@[q].name@ by {
                if q < p {
                    assert(compiled@[q] == before[q]);
                }
            }
            assert forall|q: int| 0 <= q < p + 1 implies all_sources(config, (#[trigger] compiled@[q]).source_deps@) by {
                if q < p {
                    assert(compiled@[q] == before[q]);
                }
            }
            assert forall|q: int| 0 <= q < p + 1 implies deps_closed(config, compiled@, q) by {
                lemma_deps_closed_push(config, before, compiled@, q);
            }
            assert(nv.take(nv.len() as int) =~= nv);
            assert(compiled@.take(p as int) =~= before);
            assert forall|q: int| 0 <= q < p + 1 implies (
                strings_view((#[trigger] compiled@[q]).list_deps@),
                strings_view(compiled@[q].source_deps@),
            ) == formula_deps(compiled@.take(q), config, crate::expr::ast::expr_names(compiled@[q].expr@)) by {
                if q < p {
                    assert(compiled@[q] == before[q]);
                    assert(compiled@.take(q) =~= before.take(q));
                }
            }
        }
        p += 1;
    }
    proof {
        assert forall|pp: int, k: int|
            0 <= pp < compiled@.len() && 0 <= k < crate::expr::ast::expr_names(
                compiled@[pp].expr@,
            ).len() && is_list(
                config,
                #[trigger] crate::expr::ast::expr_names(compiled@[pp].expr@)[k],
            ) implies named_before(
            compiled@,
            crate::expr::ast::expr_names(compiled@[pp].expr@)[k],
            pp,
        ) by {
            let idx = order@[pp] as int;
            let n = crate::expr::ast::expr_names(parsed@[idx].1@)[k];
            assert(crate::expr::ast::expr_names(compiled@[pp].expr@)[k] == n);
            assert(names_of(parsed@).contains(n));
            let m = choose|m: int|
                0 <= m < deps@[idx]@.len() && parsed@[deps@[idx]@[m] as int].0@ == n;
            assert(occurs_before(order@, deps@[order@[pp] as int]@[m], pp));
            let q = choose|q: int| 0 <= q < pp && order@[q] == deps@[idx]@[m];
            assert(compiled@[q].name@ == n);
        }
        assert forall|pp: int, k: int|
            0 <= pp < compiled@.len() && 0 <= k < crate::expr::ast::expr_names(
                compiled@[pp].expr@,
            ).len() implies is_source(
            config,
            #[trigger] crate::expr::ast::expr_names(compiled@[pp].expr@)[k],
        ) || is_list(config, crate::expr::ast::expr_names(compiled@[pp].expr@)[k]) by {
            let idx = order@[pp] as int;
            assert(crate::expr::ast::expr_names(compiled@[pp].expr@)[k]
                == crate::expr::ast::expr_names(parsed@[idx].1@)[k]);
        }
    }
    proof {
        assert forall|pp: int| 0 <= pp < compiled@.len() implies wildcard_free((#[trigger] compiled@[pp]).expr@) by {
            assert(wildcard_free(parsed@[order@[pp] as int].1@));
        }
        assert forall|pp: int| 0 <= pp < compiled@.len() implies is_list(config, (#[trigger] compiled@[pp]).name@) by {
            let idx = order@[pp] as int;
            assert(names_of(parsed@)[idx] == parsed@[idx].0@);
            assert(names_of(config.lists@)[idx] == compiled@[pp].name@);
        }
        assert forall|pp: int| 0 <= pp < compiled@.len() implies !is_source(config, (#[trigger] compiled@[pp]).name@) by {
            let idx = order@[pp] as int;
            assert(names_of(parsed@)[idx] == parsed@[idx].0@);
            assert(names_of(config.lists@)[idx] == compiled@[pp].name@);
            assert(config.lists@[idx].0@ == compiled@[pp].name@);
        }
    }
    proof {
        assert forall|q: int| 0 <= q < order@.len() implies #[trigger] order@[q] < config.lists@.len()
            && list_order@[q]@ == config.lists@[order@[q] as int].0@ by {
            assert(compiled@[q].name@ == parsed@[order@[q] as int].0@);
            assert(list_order@[q]@ == compiled@[q].name@);
            assert(names_of(parsed@)[order@[q] as int] == parsed@[order@[q] as int].0@);
            assert(names_of(parsed@)[order@[q] as int] == names_of(config.lists@)[order@[q] as int]);
        }
    }
    proof {
        assert forall|pp: int, n: Seq<char>| 0 <= pp < compiled@.len() implies (#[trigger] strings_view(
            compiled@[pp].list_deps@,
        ).contains(n) <==> reaches_list(compiled@, config, pp, n)) && (strings_view(
            compiled@[pp].source_deps@,
        ).contains(n) <==> reaches_source(compiled@, config, pp, n)) by {
            assert forall|t: int| 0 <= t < compiled@.len() implies #[trigger] deps_built(compiled@, config, t) by {
                assert((strings_view(compiled@[t].list_deps@), strings_view(compiled@[t].source_deps@))
                    == formula_deps(compiled@.take(t), config, crate::expr::ast::expr_names(compiled@[t].expr@)));
            }
            lemma_deps_are_reachable(compiled@, config, pp);
        }
    }
    Ok(Runtime { path, config, lists: compiled, list_order })
}

} // verus!
