//! Turning a configured list into items: gather, identify, evaluate,
//! post-process.

use vstd::prelude::*;

use crate::cache::{CacheStore, SourceStatus};
use crate::clock::{elapsed_spec, span_nanos, Stamp};
use crate::config::compile::{
    deps_closed, dep_ok, first_named_at, includes, is_list, is_source, lemma_first_named_found,
    lemma_first_named_unique, list_named, named,
    placed_after_deps, CompiledList, Runtime,
};
use crate::config::model::{
    filter_admits, source_ttl, ListConfig, SortKey, SortOrder, Span,
};
use crate::expr::eval::{
    distinct, env_insert, env_lookup, env_view, env_well_formed, eval, eval_spec, lookup_set,
    set_from_vec, set_items, set_new, set_insert, set_to_vec, well_formed, GroupSet,
    UnknownName,
};
use crate::expr::ast::{
    expr_names, lemma_add_new_no_duplicates, name_leaves, wildcard_free, ExprV, SetOp,
};
use crate::filter::attr::{present_in_spec, Attribute};
use crate::filter::eval::accepts;
use crate::identity::Interner;
use crate::model::ItemKeyView;
use crate::meta::MetaStore;
use crate::model::{date_before, date_lt, strings_view, Date, Item, ItemView};
use crate::text::{clone_string, from_str, join, join_strs, push_str};
use crate::config::model::{lemma_text_lt_irreflexive, lemma_text_lt_total, lemma_text_lt_trans, text_less, text_lt};

verus! {

broadcast use vstd::seq_lib::group_to_multiset_ensures;

// ---------------------------------------------------------------------------
// Which items a list keeps
// ---------------------------------------------------------------------------

/// The list's own bounds: media type, year range and release window. An
/// item that does not carry what a bound reads fails it.
pub open spec fn keep_spec(item: ItemView, config: ListConfig) -> bool {
    &&& filter_admits(config.media_type, item.media_type)
    &&& (config.min_year matches Some(min) ==> (item.effective_year() matches Some(y) && y >= min))
    &&& (config.max_year matches Some(max) ==> (item.effective_year() matches Some(y) && y <= max))
    &&& (config.released_after matches Some(a) ==> (item.released matches Some(d) && !date_lt(d, a)))
    &&& (config.released_before matches Some(b) ==> (item.released matches Some(d) && !date_lt(b, d)))
}

pub fn keep(item: &Item, config: &ListConfig) -> (r: bool)
    ensures
        r == keep_spec(item@, *config),
{
    if !config.media_type.matches(item.media_type) {
        return false;
    }
    if let Some(min) = config.min_year {
        match item.effective_year() {
            Some(year) => {
                if year < min {
                    return false;
                }
            },
            None => return false,
        }
    }
    if let Some(max) = config.max_year {
        match item.effective_year() {
            Some(year) => {
                if year > max {
                    return false;
                }
            },
            None => return false,
        }
    }
    if let Some(after) = config.released_after {
        match item.released {
            Some(released) => {
                if date_before(released, after) {
                    return false;
                }
            },
            None => return false,
        }
    }
    if let Some(before) = config.released_before {
        match item.released {
            Some(released) => {
                if date_before(before, released) {
                    return false;
                }
            },
            None => return false,
        }
    }
    true
}

// ---------------------------------------------------------------------------
// Sorting
// ---------------------------------------------------------------------------

/// A release date as one number in calendar order; a missing date sorts
/// after every real one.
pub open spec fn date_key(d: Option<Date>) -> int {
    match d {
        Some(x) => x.year * 10000 + x.month * 100 + x.day,
        None => i64::MAX as int,
    }
}

/// What a numeric sort orders by: the rank (unranked last), the year (yearless
/// last) or the release date (undated last).
pub open spec fn number_key(sort: SortKey, item: ItemView) -> int {
    match sort {
        SortKey::Rank => match item.rank {
            Some(r) => r as int,
            None => u32::MAX as int,
        },
        SortKey::Year => match item.effective_year() {
            Some(y) => y as int,
            None => i32::MAX as int,
        },
        SortKey::Released => date_key(item.released),
        _ => 0,
    }
}

pub open spec fn is_numeric_sort(sort: SortKey) -> bool {
    sort is Rank || sort is Year || sort is Released
}

fn number_key_of(sort: SortKey, item: &Item) -> (r: i64)
    requires
        is_numeric_sort(sort),
    ensures
        r == number_key(sort, item@),
{
    match sort {
        SortKey::Rank => match item.rank {
            Some(r) => r as i64,
            None => u32::MAX as i64,
        },
        SortKey::Year => match item.effective_year() {
            Some(y) => y as i64,
            None => i32::MAX as i64,
        },
        _ => match item.released {
            Some(d) => {
                assert(d.year * 10000 >= i32::MIN * 10000) by (nonlinear_arith)
                    requires d.year >= i32::MIN;
                assert(d.year * 10000 <= i32::MAX * 10000) by (nonlinear_arith)
                    requires d.year <= i32::MAX;
                assert(d.month * 100 <= u32::MAX * 100) by (nonlinear_arith)
                    requires d.month <= u32::MAX;
                d.year as i64 * 10000 + d.month as i64 * 100 + d.day as i64
            },
            None => i64::MAX,
        },
    }
}

pub open spec fn sorted_by_number(ids: Seq<usize>, keys: Seq<i64>) -> bool {
    forall|a: int, b: int| 0 <= a < b < ids.len() ==> keys[ids[a] as int] <= keys[ids[b] as int]
}

pub open spec fn sorted_by_text(ids: Seq<usize>, keys: Seq<String>) -> bool {
    forall|a: int, b: int|
        0 <= a < b < ids.len() ==> !text_lt(keys[ids[b] as int]@, keys[ids[a] as int]@)
}

/// Whether `x` occurs in `ids` somewhere before `y`.
pub open spec fn comes_before(ids: Seq<usize>, x: usize, y: usize) -> bool {
    exists|i: int, j: int| 0 <= i < j < ids.len() && ids[i] == x && ids[j] == y
}

/// Whether `out` keeps the order of `ids` among ids of equal number keys.
pub open spec fn stable_by_number(out: Seq<usize>, ids: Seq<usize>, keys: Seq<i64>) -> bool {
    forall|a: int, b: int|
        0 <= a < b < out.len() && keys[out[a] as int] == keys[out[b] as int] ==> comes_before(ids, out[a], out[b])
}

/// Whether `out` keeps the order of `ids` among ids of equal text keys.
pub open spec fn stable_by_text(out: Seq<usize>, ids: Seq<usize>, keys: Seq<String>) -> bool {
    forall|a: int, b: int|
        0 <= a < b < out.len() && keys[out[a] as int]@ == keys[out[b] as int]@ ==> comes_before(ids, out[a], out[b])
}

proof fn lemma_comes_before_grow(ids: Seq<usize>, i: int, x: usize, y: usize)
    requires
        0 <= i < ids.len(),
        comes_before(ids.take(i), x, y),
    ensures
        comes_before(ids.take(i + 1), x, y),
{
    let (a, b) = choose|a: int, b: int| 0 <= a < b < ids.take(i).len() && ids.take(i)[a] == x && ids.take(i)[b] == y;
    assert(ids.take(i + 1)[a] == x && ids.take(i + 1)[b] == y);
}

proof fn lemma_comes_before_new(ids: Seq<usize>, i: int, x: usize)
    requires
        0 <= i < ids.len(),
        ids.take(i).contains(x),
    ensures
        comes_before(ids.take(i + 1), x, ids[i]),
{
    let a = choose|a: int| 0 <= a < ids.take(i).len() && ids.take(i)[a] == x;
    assert(ids.take(i + 1)[a] == x && ids.take(i + 1)[i] == ids[i]);
}

pub open spec fn ids_below(ids: Seq<usize>, n: nat) -> bool {
    forall|a: int| 0 <= a < ids.len() ==> (#[trigger] ids[a]) < n
}

/// A stable insertion sort of `ids` by `keys[id]`.
fn sort_by_number(ids: &Vec<usize>, keys: &Vec<i64>) -> (r: Vec<usize>)
    requires
        ids_below(ids@, keys@.len()),
    ensures
        r@.to_multiset() == ids@.to_multiset(),
        ids_below(r@, keys@.len()),
        sorted_by_number(r@, keys@),
        stable_by_number(r@, ids@, keys@),
{
    let mut out: Vec<usize> = Vec::new();
    let mut i: usize = 0;
    while i < ids.len()
        invariant
            0 <= i <= ids@.len(),
            ids_below(ids@, keys@.len()),
            ids_below(out@, keys@.len()),
            sorted_by_number(out@, keys@),
            out@.to_multiset() == ids@.take(i as int).to_multiset(),
            stable_by_number(out@, ids@.take(i as int), keys@),
        decreases ids.len() - i,
    {
        let x = ids[i];
        let k = keys[x];
        let mut p: usize = 0;
        while p < out.len() && keys[out[p]] <= k
            invariant
                0 <= p <= out@.len(),
                ids_below(out@, keys@.len()),
                x < keys@.len(),
                k == keys@[x as int],
                forall|a: int| 0 <= a < p ==> keys@[out@[a] as int] <= k,
            decreases out.len() - p,
        {
            p += 1;
        }
        let ghost before = out@;
        out.insert(p, x);
        proof {
            assert(ids@.take(i + 1) =~= ids@.take(i as int).push(x));
            assert forall|a: int, b: int| 0 <= a < b < out@.len() implies keys@[out@[a] as int]
                <= keys@[out@[b] as int] by {
                if b < p {
                } else if a < p && b == p {
                } else if a < p {
                    assert(out@[b] == before[b - 1]);
                    if p < before.len() {
                        assert(keys@[before[p as int] as int] > k);
                    }
                } else if a == p {
                    assert(out@[b] == before[b - 1]);
                    assert(keys@[before[p as int] as int] > k);
                    if b - 1 > p {
                        assert(keys@[before[p as int] as int] <= keys@[before[b - 1] as int]);
                    }
                } else {
                    assert(out@[b] == before[b - 1]);
                    assert(out@[a] == before[a - 1]);
                }
            }
            assert forall|a: int| 0 <= a < out@.len() implies (#[trigger] out@[a]) < keys@.len() by {
                if a < p {
                    assert(out@[a] == before[a]);
                } else if a > p {
                    assert(out@[a] == before[a - 1]);
                }
            }
            assert forall|a: int, b: int|
                0 <= a < b < out@.len() && keys@[out@[a] as int] == keys@[out@[b] as int] implies comes_before(
                ids@.take(i + 1),
                out@[a],
                out@[b],
            ) by {
                if b < p {
                    assert(out@[a] == before[a] && out@[b] == before[b]);
                    lemma_comes_before_grow(ids@, i as int, out@[a], out@[b]);
                } else if b == p {
                    assert(out@[a] == before[a]);
                    assert(before.contains(before[a]));
                    assert(before.to_multiset().count(before[a]) > 0);
                    assert(ids@.take(i as int).contains(before[a]));
                    lemma_comes_before_new(ids@, i as int, before[a]);
                } else if a == p {
                    assert(out@[b] == before[b - 1]);
                    assert(keys@[before[p as int] as int] > k);
                    if b - 1 > p {
                        assert(keys@[before[p as int] as int] <= keys@[before[b - 1] as int]);
                    }
                } else if a < p {
                    assert(out@[b] == before[b - 1]);
                    assert(keys@[before[p as int] as int] > k);
                    assert(keys@[before[a] as int] <= k);
                    if b - 1 > p {
                        assert(keys@[before[p as int] as int] <= keys@[before[b - 1] as int]);
                    }
                } else {
                    assert(out@[a] == before[a - 1] && out@[b] == before[b - 1]);
                    lemma_comes_before_grow(ids@, i as int, out@[a], out@[b]);
                }
            }
        }
        i += 1;
    }
    assert(ids@.take(ids@.len() as int) =~= ids@);
    out
}

/// A stable insertion sort of `ids` by the text `keys[id]`.
fn sort_by_text(ids: &Vec<usize>, keys: &Vec<String>) -> (r: Vec<usize>)
    requires
        ids_below(ids@, keys@.len()),
    ensures
        r@.to_multiset() == ids@.to_multiset(),
        ids_below(r@, keys@.len()),
        sorted_by_text(r@, keys@),
        stable_by_text(r@, ids@, keys@),
{
    let mut out: Vec<usize> = Vec::new();
    let mut i: usize = 0;
    while i < ids.len()
        invariant
            0 <= i <= ids@.len(),
            ids_below(ids@, keys@.len()),
            ids_below(out@, keys@.len()),
            sorted_by_text(out@, keys@),
            out@.to_multiset() == ids@.take(i as int).to_multiset(),
            stable_by_text(out@, ids@.take(i as int), keys@),
        decreases ids.len() - i,
    {
        let x = ids[i];
        let mut p: usize = 0;
        while p < out.len() && !text_less(keys[x].as_str(), keys[out[p]].as_str())
            invariant
                0 <= p <= out@.len(),
                ids_below(out@, keys@.len()),
                x < keys@.len(),
                forall|a: int| 0 <= a < p ==> !text_lt(keys@[x as int]@, keys@[out@[a] as int]@),
            decreases out.len() - p,
        {
            p += 1;
        }
        let ghost before = out@;
        let ghost kx = keys@[x as int]@;
        out.insert(p, x);
        proof {
            assert(ids@.take(i + 1) =~= ids@.take(i as int).push(x));
            assert forall|a: int, b: int| 0 <= a < b < out@.len() implies !text_lt(
                keys@[out@[b] as int]@,
                keys@[out@[a] as int]@,
            ) by {
                if b < p {
                } else if a < p && b == p {
                } else if a < p {
                    assert(out@[b] == before[b - 1]);
                    assert(out@[a] == before[a]);
                } else if a == p {
                    assert(out@[b] == before[b - 1]);
                    let kp = keys@[before[p as int] as int]@;
                    let kb = keys@[before[b - 1] as int]@;
                    assert(text_lt(kx, kp));
                    if text_lt(kb, kx) {
                        lemma_text_lt_trans(kb, kx, kp);
                        if b - 1 == p {
                            lemma_text_lt_irreflexive(kp);
                        } else {
                            assert(!text_lt(kb, kp));
                        }
                    }
                } else {
                    assert(out@[b] == before[b - 1]);
                    assert(out@[a] == before[a - 1]);
                }
            }
            assert forall|a: int| 0 <= a < out@.len() implies (#[trigger] out@[a]) < keys@.len() by {
                if a < p {
                    assert(out@[a] == before[a]);
                } else if a > p {
                    assert(out@[a] == before[a - 1]);
                }
            }
            assert forall|a: int, b: int|
                0 <= a < b < out@.len() && keys@[out@[a] as int]@ == keys@[out@[b] as int]@ implies comes_before(
                ids@.take(i + 1),
                out@[a],
                out@[b],
            ) by {
                if b < p {
                    assert(out@[a] == before[a] && out@[b] == before[b]);
                    lemma_comes_before_grow(ids@, i as int, out@[a], out@[b]);
                } else if b == p {
                    assert(out@[a] == before[a]);
                    assert(before.contains(before[a]));
                    assert(before.to_multiset().count(before[a]) > 0);
                    assert(ids@.take(i as int).contains(before[a]));
                    lemma_comes_before_new(ids@, i as int, before[a]);
                } else if a == p {
                    assert(out@[b] == before[b - 1]);
                    let kp = keys@[before[p as int] as int]@;
                    let kb = keys@[before[b - 1] as int]@;
                    assert(text_lt(kx, kp));
                    assert(kb == kx);
                    if b - 1 == p {
                        lemma_text_lt_irreflexive(kp);
                    } else {
                        assert(!text_lt(kb, kp));
                    }
                } else if a < p {
                    assert(out@[a] == before[a] && out@[b] == before[b - 1]);
                    lemma_comes_before_grow(ids@, i as int, out@[a], out@[b]);
                } else {
                    assert(out@[a] == before[a - 1] && out@[b] == before[b - 1]);
                    lemma_comes_before_grow(ids@, i as int, out@[a], out@[b]);
                }
            }
        }
        i += 1;
    }
    assert(ids@.take(ids@.len() as int) =~= ids@);
    out
}

/// `rand`'s `SliceRandom::shuffle` with the thread's generator. Claimed:
/// the result is a permutation of what was there; which one is chance.
#[verifier::external_body]
fn shuffle_ids(ids: &mut Vec<usize>)
    ensures
        final(ids)@.to_multiset() == old(ids)@.to_multiset(),
{
    rand::seq::SliceRandom::shuffle(ids.as_mut_slice(), &mut rand::rng());
}

fn reversed(ids: &Vec<usize>) -> (r: Vec<usize>)
    ensures
        r@ == ids@.reverse(),
{
    let mut out: Vec<usize> = Vec::new();
    let mut i: usize = ids.len();
    while i > 0
        invariant
            0 <= i <= ids@.len(),
            out@.len() == ids@.len() - i,
            forall|a: int| 0 <= a < out@.len() ==> out@[a] == ids@[ids@.len() - 1 - a],
        decreases i,
    {
        i -= 1;
        out.push(ids[i]);
    }
    assert(out@ =~= ids@.reverse());
    out
}

// ---------------------------------------------------------------------------
// Post-processing
// ---------------------------------------------------------------------------

/// The members of `set` that pass the list's bounds and its filter, in
/// order.
pub open spec fn kept_spec(
    set: Seq<usize>,
    members: spec_fn(usize) -> ItemView,
    list: CompiledList,
    config: ListConfig,
) -> Seq<usize> {
    set.filter(
        |g: usize|
            keep_spec(members(g), config) && match list.filter {
                Some(p) => accepts(p@, members(g)),
                None => true,
            },
    )
}

/// Whether an item lacks an attribute the list's filter reads.
pub open spec fn blind_spec(list: CompiledList, item: ItemView) -> bool {
    exists|a: int|
        0 <= a < list.required_attrs@.len() && !present_in_spec(
            #[trigger] list.required_attrs@[a],
            item.attrs,
        )
}

/// How many of `set` the filter judges without knowing everything it reads.
pub open spec fn blind_count(
    set: Seq<usize>,
    members: spec_fn(usize) -> ItemView,
    list: CompiledList,
) -> nat {
    set.filter(|g: usize| blind_spec(list, members(g))).len()
}

/// The order a list's sort, order and limit produce from its kept items:
/// `ordered` is that order before the limit.
pub open spec fn ordered_ok(
    kept: Seq<usize>,
    ordered: Seq<usize>,
    members: spec_fn(usize) -> ItemView,
    config: ListConfig,
) -> bool {
    &&& ordered.to_multiset() == kept.to_multiset()
    &&& match config.sort {
        SortKey::Unsorted => ordered == if config.order is Desc {
            kept.reverse()
        } else {
            kept
        },
        SortKey::Random => true,
        SortKey::Title => forall|a: int, b: int|
            0 <= a < b < ordered.len() ==> (if config.order is Desc {
                !text_lt(
                    crate::model::sort_title_spec(members(ordered[a]).title),
                    crate::model::sort_title_spec(members(ordered[b]).title),
                )
            } else {
                !text_lt(
                    crate::model::sort_title_spec(members(ordered[b]).title),
                    crate::model::sort_title_spec(members(ordered[a]).title),
                )
            }) && (crate::model::sort_title_spec(members(ordered[a]).title) == crate::model::sort_title_spec(
                members(ordered[b]).title,
            ) ==> tie_kept(kept, ordered[a], ordered[b], config)),
        _ => forall|a: int, b: int|
            0 <= a < b < ordered.len() ==> (if config.order is Desc {
                number_key(config.sort, members(ordered[a])) >= number_key(
                    config.sort,
                    members(ordered[b]),
                )
            } else {
                number_key(config.sort, members(ordered[a])) <= number_key(
                    config.sort,
                    members(ordered[b]),
                )
            }) && (number_key(config.sort, members(ordered[a])) == number_key(config.sort, members(ordered[b]))
                ==> tie_kept(kept, ordered[a], ordered[b], config)),
    }
}

/// How two items that sort alike stand: in the order the formula gave
/// them, or the reverse of it for a descending sort - a stable sort,
/// reversed for `desc`.
pub open spec fn tie_kept(kept: Seq<usize>, x: usize, y: usize, config: ListConfig) -> bool {
    if config.order is Desc {
        comes_before(kept, y, x)
    } else {
        comes_before(kept, x, y)
    }
}

pub open spec fn limited(ordered: Seq<usize>, limit: Option<usize>) -> Seq<usize> {
    match limit {
        Some(n) => if n < ordered.len() {
            ordered.take(n as int)
        } else {
            ordered
        },
        None => ordered,
    }
}

pub open spec fn members_of(interner: Interner) -> spec_fn(usize) -> ItemView {
    |g: usize| interner.member(g as int)
}

/// Filter, sort and limit - applied after the algebra, so a list used inside
/// another expression contributes its post-processed contents.
///
/// Also reports how many *candidates* the filter had to judge without
/// knowing every attribute it reads. Counting before the filter rather than
/// after is the point: an item dropped for an unknown country is exactly the
/// item the caller needs to be told about.
pub fn post_process(set: &GroupSet, list: &CompiledList, config: &ListConfig, interner: &Interner) -> (r: (GroupSet, usize))
    requires
        interner.well_formed(),
        ids_below(set_items(*set), interner.slots()),
    ensures
        r.1 == blind_count(set_items(*set), members_of(*interner), *list),
        exists|ordered: Seq<usize>|
            ordered_ok(
                kept_spec(set_items(*set), members_of(*interner), *list, *config),
                ordered,
                members_of(*interner),
                *config,
            ) && set_items(r.0) == distinct(limited(ordered, config.limit)),
        ids_below(set_items(r.0), interner.slots()),
{
    let members = set_to_vec(set);
    let ghost m = members_of(*interner);
    let ghost keep_pred = |g: usize|
        keep_spec(m(g), *config) && match list.filter {
            Some(p) => accepts(p@, m(g)),
            None => true,
        };
    let ghost blind_pred = |g: usize| blind_spec(*list, m(g));
    let mut unenriched: usize = 0;
    let mut kept: Vec<usize> = Vec::new();
    let mut i: usize = 0;
    while i < members.len()
        invariant
            0 <= i <= members@.len(),
            interner.well_formed(),
            members@ == set_items(*set),
            ids_below(members@, interner.slots()),
            m == members_of(*interner),
            forall|x: usize| #[trigger] keep_pred(x) == (keep_spec(m(x), *config) && match list.filter {
                Some(p) => accepts(p@, m(x)),
                None => true,
            }),
            forall|x: usize| #[trigger] blind_pred(x) == blind_spec(*list, m(x)),
            kept@ == members@.take(i as int).filter(keep_pred),
            unenriched == members@.take(i as int).filter(blind_pred).len(),
            unenriched <= i,
            ids_below(kept@, interner.slots()),
        decreases members.len() - i,
    {
        let g = members[i];
        let item = interner.item(g);
        let mut blind = false;
        let mut a: usize = 0;
        while a < list.required_attrs.len()
            invariant
                0 <= a <= list.required_attrs@.len(),
                item@ == m(g),
                blind == exists|b: int|
                    0 <= b < a && !present_in_spec(#[trigger] list.required_attrs@[b], item@.attrs),
            decreases list.required_attrs.len() - a,
        {
            if !list.required_attrs[a].present_in(&item.attrs) {
                blind = true;
            }
            a += 1;
        }
        assert(members@.take(i + 1) =~= members@.take(i as int).push(g));
        proof {
            members@.take(i as int).lemma_filter_push(g, blind_pred);
            members@.take(i as int).lemma_filter_push(g, keep_pred);
        }
        if blind {
            unenriched = unenriched + 1;
        }
        let pass = keep(item, config) && match &list.filter {
            Some(program) => program.matches(item),
            None => true,
        };
        if pass {
            kept.push(g);
        }
        i += 1;
    }
    assert(members@.take(members@.len() as int) =~= members@);
    let ghost kept_all = kept@;
    assert(unenriched == blind_count(set_items(*set), m, *list)) by {
        let spec_blind = |g: usize| blind_spec(*list, m(g));
        assert(blind_pred =~= spec_blind);
    }
    let ordered: Vec<usize> = match config.sort {
        SortKey::Unsorted => {
            if config.order == SortOrder::Desc {
                let r = reversed(&kept);
                proof {
                    kept_all.lemma_reverse_to_multiset();
                }
                r
            } else {
                kept
            }
        },
        SortKey::Random => {
            let mut shuffled = kept;
            shuffle_ids(&mut shuffled);
            shuffled
        },
        SortKey::Title => {
            let keys = title_keys(interner);
            let sorted = sort_by_text(&kept, &keys);
            let ghost sv = sorted@;
            proof {
                assert forall|a: int, b: int| 0 <= a < b < sv.len() implies !text_lt(
                    crate::model::sort_title_spec(m(sv[b]).title),
                    crate::model::sort_title_spec(m(sv[a]).title),
                ) by {
                    assert(sv[a] < keys@.len());
                    assert(sv[b] < keys@.len());
                    assert(keys@[sv[a] as int]@ == crate::model::sort_title_spec(interner.member(sv[a] as int).title));
                    assert(keys@[sv[b] as int]@ == crate::model::sort_title_spec(interner.member(sv[b] as int).title));
                }
                assert forall|a: int, b: int|
                    0 <= a < b < sv.len() && crate::model::sort_title_spec(m(sv[a]).title)
                        == crate::model::sort_title_spec(m(sv[b]).title) implies comes_before(kept@, sv[a], sv[b]) by {
                    assert(sv[a] < keys@.len());
                    assert(sv[b] < keys@.len());
                    assert(keys@[sv[a] as int]@ == crate::model::sort_title_spec(interner.member(sv[a] as int).title));
                    assert(keys@[sv[b] as int]@ == crate::model::sort_title_spec(interner.member(sv[b] as int).title));
                }
            }
            if config.order == SortOrder::Desc {
                let r = reversed(&sorted);
                proof {
                    sv.lemma_reverse_to_multiset();
                    let n = sv.len();
                    assert forall|a: int, b: int| 0 <= a < b < r@.len() implies !text_lt(
                        crate::model::sort_title_spec(m(r@[a]).title),
                        crate::model::sort_title_spec(m(r@[b]).title),
                    ) by {
                        assert(r@[a] == sv[n - 1 - a]);
                        assert(r@[b] == sv[n - 1 - b]);
                    }
                }
                r
            } else {
                sorted
            }
        },
        _ => {
            let keys = number_keys(config.sort, interner);
            let sorted = sort_by_number(&kept, &keys);
            let ghost sv = sorted@;
            proof {
                assert forall|a: int, b: int| 0 <= a < b < sv.len() implies number_key(
                    config.sort,
                    m(sv[a]),
                ) <= number_key(config.sort, m(sv[b])) by {
                    assert(sv[a] < keys@.len());
                    assert(sv[b] < keys@.len());
                    assert(keys@[sv[a] as int] == number_key(config.sort, interner.member(sv[a] as int)));
                    assert(keys@[sv[b] as int] == number_key(config.sort, interner.member(sv[b] as int)));
                }
                assert forall|a: int, b: int|
                    0 <= a < b < sv.len() && number_key(config.sort, m(sv[a])) == number_key(config.sort, m(sv[b]))
                        implies comes_before(kept@, sv[a], sv[b]) by {
                    assert(sv[a] < keys@.len());
                    assert(sv[b] < keys@.len());
                    assert(keys@[sv[a] as int] == number_key(config.sort, interner.member(sv[a] as int)));
                    assert(keys@[sv[b] as int] == number_key(config.sort, interner.member(sv[b] as int)));
                }
            }
            if config.order == SortOrder::Desc {
                let r = reversed(&sorted);
                proof {
                    sv.lemma_reverse_to_multiset();
                    let n = sv.len();
                    assert forall|a: int, b: int| 0 <= a < b < r@.len() implies number_key(
                        config.sort,
                        m(r@[a]),
                    ) >= number_key(config.sort, m(r@[b])) by {
                        assert(r@[a] == sv[n - 1 - a]);
                        assert(r@[b] == sv[n - 1 - b]);
                    }
                }
                r
            } else {
                sorted
            }
        },
    };
    proof {
        assert(ordered_ok(kept_all, ordered@, m, *config));
        lemma_perm_below(ordered@, kept_all, interner.slots());
    }
    let mut limited_ids = ordered;
    if let Some(limit) = config.limit {
        limited_ids.truncate(limit);
    }
    proof {
        assert(limited_ids@ == limited(ordered@, config.limit));
        assert forall|a: int| 0 <= a < limited_ids@.len() implies (#[trigger] limited_ids@[a]) < interner.slots() by {
            assert(limited_ids@[a] == ordered@[a]);
        }
        lemma_distinct_below(limited_ids@, interner.slots());
    }
    let result = set_from_vec(&limited_ids);
    proof {
        let spec_pred = |g: usize|
            keep_spec(m(g), *config) && match list.filter {
                Some(p) => accepts(p@, m(g)),
                None => true,
            };
        assert(keep_pred =~= spec_pred);
        assert(kept_all == kept_spec(set_items(*set), m, *list, *config));
        assert(ordered_ok(
            kept_spec(set_items(*set), members_of(*interner), *list, *config),
            ordered@,
            members_of(*interner),
            *config,
        ) && set_items(result) == distinct(limited(ordered@, config.limit)));
    }
    (result, unenriched)
}

proof fn lemma_perm_below(a: Seq<usize>, b: Seq<usize>, n: nat)
    requires
        a.to_multiset() == b.to_multiset(),
        ids_below(b, n),
    ensures
        ids_below(a, n),
{
    assert forall|i: int| 0 <= i < a.len() implies (#[trigger] a[i]) < n by {
        assert(a.contains(a[i]));
        assert(a.to_multiset().count(a[i]) > 0);
        assert(b.to_multiset().count(a[i]) > 0);
        assert(b.contains(a[i]));
    }
}

proof fn lemma_distinct_below(v: Seq<usize>, n: nat)
    requires
        ids_below(v, n),
    ensures
        ids_below(distinct(v), n),
    decreases v.len(),
{
    if v.len() > 0 {
        lemma_distinct_below(v.drop_last(), n);
    }
}

/// Each slot's sort title.
fn title_keys(interner: &Interner) -> (r: Vec<String>)
    requires
        interner.well_formed(),
    ensures
        r@.len() == interner.slots(),
        forall|g: int|
            0 <= g < r@.len() ==> (#[trigger] r@[g])@ == crate::model::sort_title_spec(
                interner.member(g).title,
            ),
{
    let mut out: Vec<String> = Vec::new();
    let n = interner.len();
    let mut g: usize = 0;
    while g < n
        invariant
            0 <= g <= n,
            n == interner.slots(),
            out@.len() == g,
            forall|h: int|
                0 <= h < g ==> (#[trigger] out@[h])@ == crate::model::sort_title_spec(
                    interner.member(h).title,
                ),
        decreases n - g,
    {
        out.push(interner.item(g).sort_title());
        g += 1;
    }
    out
}

/// Each slot's numeric sort key.
fn number_keys(sort: SortKey, interner: &Interner) -> (r: Vec<i64>)
    requires
        interner.well_formed(),
        is_numeric_sort(sort),
    ensures
        r@.len() == interner.slots(),
        forall|g: int| 0 <= g < r@.len() ==> (#[trigger] r@[g]) == number_key(sort, interner.member(g)),
{
    let mut out: Vec<i64> = Vec::new();
    let n = interner.len();
    let mut g: usize = 0;
    while g < n
        invariant
            0 <= g <= n,
            n == interner.slots(),
            is_numeric_sort(sort),
            out@.len() == g,
            forall|h: int| 0 <= h < g ==> (#[trigger] out@[h]) == number_key(sort, interner.member(h)),
        decreases n - g,
    {
        out.push(number_key_of(sort, interner.item(g)));
        g += 1;
    }
    out
}

} // verus!

verus! {

// ---------------------------------------------------------------------------
// Evaluation
// ---------------------------------------------------------------------------

#[derive(Debug)]
pub struct Evaluation {
    pub name: String,
    pub items: Vec<Item>,
    /// Sources whose data is past its TTL - the answer is still served, but
    /// the caller is told about it.
    pub stale_sources: Vec<String>,
    /// Items the list's filter had to judge without knowing every attribute
    /// it reads, because the enricher has not reached them yet. A non-zero
    /// count means the answer is provisional, not wrong.
    pub unenriched: usize,
    pub evaluated_at: Stamp,
}

#[derive(Debug)]
pub enum EvalError {
    UnknownList(String),
    NoData(Vec<String>),
    Other(String),
}

pub open spec fn eval_error_message(e: EvalError) -> Seq<char> {
    match e {
        EvalError::UnknownList(n) => "no list named `"@ + n@ + "`"@,
        EvalError::NoData(names) => "no data has been fetched yet for source(s): "@ + join(
            strings_view(names@),
            ", "@,
        ),
        EvalError::Other(m) => m@,
    }
}

impl EvalError {
    /// The HTTP status the error is answered with: an unknown list is not
    /// there, a list whose data has not arrived yet is temporarily
    /// unavailable, and anything else is the server's fault.
    pub fn status_code(&self) -> (r: u16)
        ensures
            r == match *self {
                EvalError::UnknownList(_) => 404u16,
                EvalError::NoData(_) => 503u16,
                EvalError::Other(_) => 500u16,
            },
    {
        match self {
            EvalError::UnknownList(_) => 404,
            EvalError::NoData(_) => 503,
            EvalError::Other(_) => 500,
        }
    }

    /// What the error says to a person.
    pub fn message(&self) -> (r: String)
        ensures
            r@ == eval_error_message(*self),
    {
        match self {
            EvalError::UnknownList(n) => {
                let mut out = from_str("no list named `");
                push_str(&mut out, n.as_str());
                push_str(&mut out, "`");
                out
            },
            EvalError::NoData(names) => {
                let mut out = from_str("no data has been fetched yet for source(s): ");
                let joined = crate::text::join_strings(names, ", ");
                push_str(&mut out, joined.as_str());
                out
            },
            EvalError::Other(m) => clone_string(m),
        }
    }
}

/// Whether a source has a snapshot to evaluate against.
pub open spec fn has_data(cache: CacheStore, name: Seq<char>) -> bool {
    cache.status_of(name) matches Some(s) && s.items is Some
}

/// The refresh interval `Runtime::ttl_for` gives a source.
pub open spec fn ttl_of(runtime: Runtime, name: Seq<char>) -> Span {
    match named(runtime.config.sources@, name) {
        Some(s) => match source_ttl(s) {
            Some(t) => t,
            None => runtime.config.cache.default_ttl,
        },
        None => runtime.config.cache.default_ttl,
    }
}

/// Whether a status is past `ttl` at `now`; never fetched, or fetched in
/// the future, counts as stale.
pub open spec fn stale_at(status: SourceStatus, ttl: Span, now: Stamp) -> bool {
    match status.fetched_at {
        None => true,
        Some(t) => match elapsed_spec(now, t) {
            None => true,
            Some(age) => age > span_nanos(ttl),
        },
    }
}

/// The sources among `deps` that have no data yet, in order.
pub open spec fn missing_of(deps: Seq<Seq<char>>, cache: CacheStore) -> Seq<Seq<char>>
    decreases deps.len(),
{
    if deps.len() == 0 {
        seq![]
    } else {
        let before = missing_of(deps.drop_last(), cache);
        if has_data(cache, deps.last()) {
            before
        } else {
            before.push(deps.last())
        }
    }
}

/// The sources among `deps` that have data, but data past its TTL at `now`.
pub open spec fn stale_of(deps: Seq<Seq<char>>, runtime: Runtime, cache: CacheStore, now: Stamp) -> Seq<Seq<char>>
    decreases deps.len(),
{
    if deps.len() == 0 {
        seq![]
    } else {
        let before = stale_of(deps.drop_last(), runtime, cache, now);
        let last = deps.last();
        if has_data(cache, last) && stale_at(cache.status_of(last)->0, ttl_of(runtime, last), now) {
            before.push(last)
        } else {
            before
        }
    }
}

/// The snapshot of each of `deps`, with the sources past their TTL; or the
/// sources that have no snapshot yet.
pub fn gather(runtime: &Runtime, cache: &CacheStore, deps: &Vec<String>, now: Stamp) -> (r: Result<
    (Vec<(String, Vec<Item>)>, Vec<String>),
    Vec<String>,
>)
    requires
        cache.well_formed(),
    ensures
        r is Err <==> missing_of(strings_view(deps@), *cache).len() > 0,
        r matches Err(m) ==> strings_view(m@) == missing_of(strings_view(deps@), *cache),
        r matches Ok((fetched, stale)) ==> {
            &&& strings_view(stale@) == stale_of(strings_view(deps@), *runtime, *cache, now)
            &&& fetched@.len() == deps@.len()
            &&& forall|i: int|
                0 <= i < deps@.len() ==> (#[trigger] fetched@[i]).0@ == deps@[i]@ && (
                cache.status_of(deps@[i]@) matches Some(s) && s.items matches Some(v)
                    && crate::cache::items_view(fetched@[i].1@) == crate::cache::items_view(v@))
        },
{
    let ghost names = strings_view(deps@);
    let mut missing: Vec<String> = Vec::new();
    let mut stale: Vec<String> = Vec::new();
    let mut fetched: Vec<(String, Vec<Item>)> = Vec::new();
    let mut i: usize = 0;
    while i < deps.len()
        invariant
            cache.well_formed(),
            0 <= i <= deps@.len(),
            names == strings_view(deps@),
            strings_view(missing@) == missing_of(names.take(i as int), *cache),
            strings_view(stale@) == stale_of(names.take(i as int), *runtime, *cache, now),
            fetched@.len() <= i,
            missing@.len() == 0 ==> fetched@.len() == i,
            forall|k: int|
                0 <= k < fetched@.len() ==> (#[trigger] fetched@[k]).0@ == deps@[k]@ && (
                cache.status_of(deps@[k]@) matches Some(s) && s.items matches Some(v)
                    && crate::cache::items_view(fetched@[k].1@) == crate::cache::items_view(v@)),
        decreases deps.len() - i,
    {
        assert(names.take(i + 1).drop_last() =~= names.take(i as int));
        assert(names.take(i + 1).last() == deps@[i as int]@);
        let status = cache.status(deps[i].as_str());
        let stale_now = status.is_stale_at(runtime.ttl_for(deps[i].as_str()), now);
        match status.items {
            None => {
                missing.push(clone_string(&deps[i]));
                proof {
                    assert(strings_view(missing@) =~= strings_view(missing@.drop_last()).push(
                        deps@[i as int]@,
                    ));
                }
            },
            Some(items) => {
                if stale_now {
                    stale.push(clone_string(&deps[i]));
                    proof {
                        assert(strings_view(stale@) =~= strings_view(stale@.drop_last()).push(
                            deps@[i as int]@,
                        ));
                    }
                }
                if missing.len() == 0 {
                    let ghost prev = fetched@;
                    fetched.push((clone_string(&deps[i]), items));
                    proof {
                        assert forall|k: int| 0 <= k < prev.len() implies #[trigger] fetched@[k] == prev[k] by {}
                    }
                }
            },
        }
        i += 1;
    }
    assert(names.take(deps@.len() as int) =~= names);
    if missing.len() > 0 {
        Err(missing)
    } else {
        Ok((fetched, stale))
    }
}

} // verus!

verus! {

pub open spec fn slots_below(slots: Seq<(String, Vec<usize>)>, n: nat) -> bool {
    forall|i: int| 0 <= i < slots.len() ==> ids_below((#[trigger] slots[i]).1@, n)
}

/// The items of a source that carry an id, in order: the ones an interner
/// keeps.
pub open spec fn keyed(items: Seq<ItemView>) -> Seq<ItemView> {
    items.filter(|it: ItemView| it.keys().len() > 0)
}

/// The group an item lands in: the group its first id leads to.
pub open spec fn item_group(interner: Interner, item: ItemView) -> int {
    match interner.key_slot(item.keys()[0]) {
        Some(t) => interner.group(t),
        None => -1,
    }
}

/// Every id of every item leads to the group the item lands in, so two
/// items that share any id are in one group.
pub open spec fn identifies(interner: Interner, items: Seq<ItemView>) -> bool {
    forall|j: int, k: int|
        0 <= j < items.len() && 0 <= k < items[j].keys().len() ==> #[trigger] interner.leads_to(
            items[j].keys()[k],
            item_group(interner, items[j]),
        )
}

/// `slots[j]` is where `items[j]` went: every id of the item leads to the
/// slot's group.
pub open spec fn slots_track(interner: Interner, slots: Seq<usize>, items: Seq<ItemView>) -> bool {
    &&& slots.len() == items.len()
    &&& forall|j: int| #![trigger slots[j]] 0 <= j < slots.len() ==> slots[j] < interner.slots() && items[j].keys().len() > 0
    &&& forall|j: int, k: int|
        0 <= j < slots.len() && 0 <= k < items[j].keys().len() ==> #[trigger] interner.leads_to(
            items[j].keys()[k],
            interner.group(slots[j] as int),
        )
}

proof fn lemma_insert_keeps_tracks(
    prev: Interner,
    next: Interner,
    item: ItemView,
    r: Option<usize>,
    slots: Seq<usize>,
    items: Seq<ItemView>,
)
    requires
        prev.well_formed(),
        next.well_formed(),
        slots_track(prev, slots, items),
        next.slots() >= prev.slots(),
        r is None ==> forall|j: int| 0 <= j < prev.slots() ==> next.group(j) == prev.group(j),
        r matches Some(s) ==> forall|j: int|
            0 <= j < prev.slots() && prev.touches(item, prev.group(j)) ==> next.group(j) == next.group(s as int),
        r matches Some(s) ==> forall|j: int|
            0 <= j < prev.slots() && !prev.touches(item, prev.group(j)) ==> next.group(j) == prev.group(j),
        forall|k: ItemKeyView| prev.key_slot(k) is Some ==> next.key_slot(k) == prev.key_slot(k),
    ensures
        slots_track(next, slots, items),
{
    assert(forall|j: int| #![trigger slots[j]] 0 <= j < slots.len() ==> slots[j] < prev.slots() && items[j].keys().len() > 0);
    assert forall|j: int| #![trigger slots[j]] 0 <= j < slots.len() implies slots[j] < next.slots() && items[j].keys().len() > 0 by {
        assert(slots[j] < prev.slots() && items[j].keys().len() > 0);
    }
    assert forall|j: int, k: int|
        0 <= j < slots.len() && 0 <= k < items[j].keys().len() implies #[trigger] next.leads_to(
            items[j].keys()[k],
            next.group(slots[j] as int),
        ) by {
        let key = items[j].keys()[k];
        let t = slots[j] as int;
        assert(prev.leads_to(key, prev.group(t)));
        prev.lemma_key_slot(key);
        let u = prev.key_slot(key)->0;
        assert(next.key_slot(key) == Some(u));
        assert(0 <= u < prev.slots());
        assert(prev.group(u) == prev.group(t));
        match r {
            None => {
                assert(next.group(u) == prev.group(u));
                assert(next.group(t) == prev.group(t));
            },
            Some(s) => {
                if prev.touches(item, prev.group(t)) {
                    assert(next.group(t) == next.group(s as int));
                    assert(next.group(u) == next.group(s as int));
                } else {
                    assert(next.group(t) == prev.group(t));
                    assert(next.group(u) == prev.group(u));
                }
            },
        }
    }
}

/// What tracking says once the interner is complete: each item's group is
/// the group of its slot, and the items are identified.
proof fn lemma_tracks_identify(interner: Interner, slots: Seq<usize>, items: Seq<ItemView>)
    requires
        interner.well_formed(),
        slots_track(interner, slots, items),
    ensures
        identifies(interner, items),
        forall|j: int| 0 <= j < slots.len() ==> interner.group(#[trigger] slots[j] as int) == item_group(interner, items[j]),
{
    assert forall|j: int| 0 <= j < slots.len() implies interner.group(#[trigger] slots[j] as int) == item_group(interner, items[j]) by {
        assert(interner.leads_to(items[j].keys()[0], interner.group(slots[j] as int)));
    }
    assert forall|j: int, k: int|
        0 <= j < items.len() && 0 <= k < items[j].keys().len() implies #[trigger] interner.leads_to(
            items[j].keys()[k],
            item_group(interner, items[j]),
        ) by {
        assert(interner.leads_to(items[j].keys()[k], interner.group(slots[j] as int)));
        assert(interner.group(slots[j] as int) == item_group(interner, items[j]));
    }
}

/// Run every fetched item through one interner: items from different
/// sources are only comparable once they have been through the same identity
/// pass. Items with no id at all are dropped. Each source's slots are its
/// items with ids, in order, and every id of every item leads to its slot's
/// group.
pub fn intern_sources(fetched: &Vec<(String, Vec<Item>)>) -> (r: (Interner, Vec<(String, Vec<usize>)>))
    ensures
        r.0.well_formed(),
        r.1@.len() == fetched@.len(),
        forall|i: int| 0 <= i < fetched@.len() ==> (#[trigger] r.1@[i]).0@ == fetched@[i].0@,
        slots_below(r.1@, r.0.slots()),
        forall|i: int|
            0 <= i < fetched@.len() ==> slots_track(
                r.0,
                (#[trigger] r.1@[i]).1@,
                keyed(crate::cache::items_view(fetched@[i].1@)),
            ),
{
    let mut interner = Interner::new();
    let mut out: Vec<(String, Vec<usize>)> = Vec::new();
    let mut i: usize = 0;
    while i < fetched.len()
        invariant
            interner.well_formed(),
            0 <= i <= fetched@.len(),
            out@.len() == i,
            forall|k: int| 0 <= k < i ==> (#[trigger] out@[k]).0@ == fetched@[k].0@,
            slots_below(out@, interner.slots()),
            forall|k: int|
                0 <= k < i ==> slots_track(
                    interner,
                    (#[trigger] out@[k]).1@,
                    keyed(crate::cache::items_view(fetched@[k].1@)),
                ),
        decreases fetched.len() - i,
    {
        let items = &fetched[i].1;
        let ghost all = crate::cache::items_view(items@);
        let ghost pred = |it: ItemView| it.keys().len() > 0;
        let mut slots: Vec<usize> = Vec::new();
        let mut j: usize = 0;
        assert(all.take(0).filter(pred) =~= Seq::<ItemView>::empty());
        while j < items.len()
            invariant
                interner.well_formed(),
                0 <= j <= items@.len(),
                all == crate::cache::items_view(items@),
                forall|x: ItemView| #[trigger] pred(x) == (x.keys().len() > 0),
                ids_below(slots@, interner.slots()),
                slots_below(out@, interner.slots()),
                out@.len() == i,
                forall|k: int| 0 <= k < i ==> (#[trigger] out@[k]).0@ == fetched@[k].0@,
                slots_track(interner, slots@, all.take(j as int).filter(pred)),
                forall|k: int|
                    0 <= k < i ==> slots_track(
                        interner,
                        (#[trigger] out@[k]).1@,
                        keyed(crate::cache::items_view(fetched@[k].1@)),
                    ),
            decreases items.len() - j,
        {
            let ghost before = interner;
            let ghost prior = slots@;
            let ghost tracked_items = all.take(j as int).filter(pred);
            let outcome = interner.insert(&items[j]);
            proof {
                assert(all[j as int] == items@[j as int]@);
                assert(all.take(j + 1) =~= all.take(j as int).push(all[j as int]));
                all.take(j as int).lemma_filter_push(all[j as int], pred);
                lemma_insert_keeps_tracks(before, interner, items@[j as int]@, outcome, prior, tracked_items);
                assert forall|k: int| 0 <= k < i implies slots_track(
                    interner,
                    (#[trigger] out@[k]).1@,
                    keyed(crate::cache::items_view(fetched@[k].1@)),
                ) by {
                    lemma_insert_keeps_tracks(
                        before,
                        interner,
                        items@[j as int]@,
                        outcome,
                        out@[k].1@,
                        keyed(crate::cache::items_view(fetched@[k].1@)),
                    );
                }
            }
            match outcome {
                Some(s) => {
                    slots.push(s);
                    proof {
                        let now_items = all.take(j + 1).filter(pred);
                        assert(now_items == tracked_items.push(items@[j as int]@));
                        assert(slots@ == prior.push(s));
                        assert forall|a: int| #![trigger slots@[a]] 0 <= a < slots@.len() implies slots@[a] < interner.slots() && now_items[a].keys().len() > 0 by {
                            if a < prior.len() {
                                assert(slots@[a] == prior[a]);
                                assert(now_items[a] == tracked_items[a]);
                            }
                        }
                        assert forall|a: int, k: int|
                            0 <= a < slots@.len() && 0 <= k < now_items[a].keys().len() implies #[trigger] interner.leads_to(
                                now_items[a].keys()[k],
                                interner.group(slots@[a] as int),
                            ) by {
                            if a < prior.len() {
                                assert(slots@[a] == prior[a]);
                                assert(now_items[a] == tracked_items[a]);
                            } else {
                                assert(now_items[a] == items@[j as int]@);
                            }
                        }
                    }
                },
                None => {
                    proof {
                        assert(all.take(j + 1).filter(pred) == tracked_items);
                    }
                },
            }
            proof {
                assert(interner.slots() >= before.slots());
                assert forall|a: int| 0 <= a < slots@.len() implies (#[trigger] slots@[a]) < interner.slots() by {}
                assert forall|k: int| 0 <= k < out@.len() implies ids_below((#[trigger] out@[k]).1@, interner.slots()) by {
                    assert(ids_below(out@[k].1@, before.slots()));
                }
            }
            j += 1;
        }
        proof {
            assert(all.take(items@.len() as int) =~= all);
        }
        let ghost prior = out@;
        out.push((clone_string(&fetched[i].0), slots));
        proof {
            assert forall|k: int| 0 <= k < out@.len() implies ids_below((#[trigger] out@[k]).1@, interner.slots()) by {
                if k < i {
                    assert(out@[k] == prior[k]);
                }
            }
            assert forall|k: int| 0 <= k < i + 1 implies slots_track(
                interner,
                (#[trigger] out@[k]).1@,
                keyed(crate::cache::items_view(fetched@[k].1@)),
            ) by {
                if k < i {
                    assert(out@[k] == prior[k]);
                } else {
                    assert(keyed(crate::cache::items_view(fetched@[k].1@)) =~= all.filter(pred));
                }
            }
        }
        i += 1;
    }
    (interner, out)
}

} // verus!

verus! {

/// Overlay what the enricher has learned on every slot. This reads the
/// store only; a request never fetches, so a cold store means a provisional
/// answer rather than a slow one.
pub fn overlay_metadata(interner: &mut Interner, meta: &MetaStore)
    requires
        old(interner).well_formed(),
        meta.well_formed(),
    ensures
        final(interner).well_formed(),
        final(interner).slots() == old(interner).slots(),
        forall|j: int| 0 <= j < old(interner).slots() ==> final(interner).group(j) == old(interner).group(j),
        forall|k: ItemKeyView| final(interner).key_slot(k) == old(interner).key_slot(k),
        forall|j: int|
            0 <= j < old(interner).slots() ==> (#[trigger] final(interner).member(j)) == match meta.known(
                old(interner).member(j),
            ) {
                Some(a) => ItemView { attrs: old(interner).member(j).attrs.fill_from(a), ..old(interner).member(j) },
                None => old(interner).member(j),
            },
{
    let n = interner.len();
    let mut s: usize = 0;
    while s < n
        invariant
            interner.well_formed(),
            meta.well_formed(),
            0 <= s <= n,
            n == interner.slots(),
            n == old(interner).slots(),
            forall|j: int| 0 <= j < n ==> interner.group(j) == old(interner).group(j),
            forall|k: ItemKeyView| interner.key_slot(k) == old(interner).key_slot(k),
            forall|j: int| s <= j < n ==> interner.member(j) == old(interner).member(j),
            forall|j: int|
                0 <= j < s ==> (#[trigger] interner.member(j)) == match meta.known(old(interner).member(j)) {
                    Some(a) => ItemView { attrs: old(interner).member(j).attrs.fill_from(a), ..old(interner).member(j) },
                    None => old(interner).member(j),
                },
        decreases n - s,
    {
        let found = meta.lookup(interner.item(s));
        match found {
            Some(attrs) => {
                interner.fill_attrs(s, &attrs);
            },
            None => {},
        }
        s += 1;
    }
}

pub open spec fn env_below(sets: Seq<(String, GroupSet)>, n: nat) -> bool {
    forall|name: Seq<char>|
        #[trigger] env_lookup(env_view(sets), name) matches Some(s) ==> ids_below(s, n)
}

/// The groups of a source's slots, each once, in the order first reached.
pub open spec fn groups_of(interner: Interner, slots: Seq<usize>) -> Seq<usize> {
    distinct(slots.map_values(|s: usize| interner.group(s as int) as usize))
}

/// The slots of the last entry called `name` among `slots[..n]`.
pub open spec fn last_slots(slots: Seq<(String, Vec<usize>)>, name: Seq<char>, n: int) -> Option<Seq<usize>>
    decreases n,
{
    if n <= 0 || n > slots.len() {
        None
    } else if slots[n - 1].0@ == name {
        Some(slots[n - 1].1@)
    } else {
        last_slots(slots, name, n - 1)
    }
}

/// One set per source, of the groups its items ended up in: a name maps to
/// the groups of its slots, each once, in the order first reached.
pub fn source_sets(interner: &mut Interner, slots: &Vec<(String, Vec<usize>)>) -> (r: Vec<(String, GroupSet)>)
    requires
        old(interner).well_formed(),
        slots_below(slots@, old(interner).slots()),
    ensures
        final(interner).well_formed(),
        final(interner).slots() == old(interner).slots(),
        forall|j: int| 0 <= j < old(interner).slots() ==> final(interner).group(j) == old(interner).group(j),
        forall|j: int| 0 <= j < old(interner).slots() ==> final(interner).member(j) == old(interner).member(j),
        forall|k: ItemKeyView| final(interner).key_slot(k) == old(interner).key_slot(k),
        env_well_formed(r@),
        env_below(r@, final(interner).slots()),
        forall|name: Seq<char>|
            #[trigger] env_lookup(env_view(r@), name) == match last_slots(slots@, name, slots@.len() as int) {
                Some(ss) => Some(groups_of(*final(interner), ss)),
                None => None,
            },
{
    let mut sets: Vec<(String, GroupSet)> = Vec::new();
    let n = interner.len();
    let mut i: usize = 0;
    while i < slots.len()
        invariant
            interner.well_formed(),
            n == interner.slots(),
            n == old(interner).slots(),
            forall|j: int| 0 <= j < n ==> interner.group(j) == old(interner).group(j),
            forall|j: int| 0 <= j < n ==> interner.member(j) == old(interner).member(j),
            forall|k: ItemKeyView| interner.key_slot(k) == old(interner).key_slot(k),
            slots_below(slots@, n as nat),
            0 <= i <= slots@.len(),
            env_well_formed(sets@),
            env_below(sets@, n as nat),
            forall|name: Seq<char>|
                #[trigger] env_lookup(env_view(sets@), name) == match last_slots(slots@, name, i as int) {
                    Some(ss) => Some(groups_of(*old(interner), ss)),
                    None => None,
                },
        decreases slots.len() - i,
    {
        let source_slots = &slots[i].1;
        assert(ids_below(source_slots@, n as nat));
        let ghost gmap = source_slots@.map_values(|s: usize| old(interner).group(s as int) as usize);
        let mut set = set_new();
        let mut j: usize = 0;
        while j < source_slots.len()
            invariant
                interner.well_formed(),
                n == interner.slots(),
                n == old(interner).slots(),
                forall|k: int| 0 <= k < n ==> interner.group(k) == old(interner).group(k),
                forall|k: int| 0 <= k < n ==> interner.member(k) == old(interner).member(k),
                forall|k: ItemKeyView| interner.key_slot(k) == old(interner).key_slot(k),
                ids_below(source_slots@, n as nat),
                0 <= j <= source_slots@.len(),
                gmap == source_slots@.map_values(|s: usize| old(interner).group(s as int) as usize),
                well_formed(set),
                ids_below(set_items(set), n as nat),
                set_items(set) == distinct(gmap.take(j as int)),
            decreases source_slots.len() - j,
        {
            let slot = source_slots[j];
            let group = interner.resolve(slot);
            proof {
                interner.lemma_group(slot as int);
                assert(gmap[j as int] == group);
                assert(gmap.take(j + 1).drop_last() =~= gmap.take(j as int));
                assert(gmap.take(j + 1).last() == group);
            }
            let ghost before = set_items(set);
            set_insert(&mut set, group);
            proof {
                assert forall|a: int| 0 <= a < set_items(set).len() implies (#[trigger] set_items(set)[a]) < n by {
                    if a < before.len() {
                        assert(set_items(set)[a] == before[a]);
                    }
                }
                if set_items(set) != before {
                    assert forall|a: int, b: int| 0 <= a < b < set_items(set).len() implies set_items(set)[a] != set_items(set)[b] by {
                        if b == before.len() {
                            assert(set_items(set)[a] == before[a]);
                            assert(!before.contains(group));
                        } else {
                            assert(set_items(set)[a] == before[a]);
                            assert(set_items(set)[b] == before[b]);
                        }
                    }
                }
            }
            j += 1;
        }
        proof {
            assert(gmap.take(source_slots@.len() as int) =~= gmap);
        }
        let ghost prev = sets@;
        env_insert(&mut sets, &slots[i].0, set);
        proof {
            assert forall|name: Seq<char>|
                #[trigger] env_lookup(env_view(sets@), name) is Some implies ids_below(env_lookup(env_view(sets@), name)->0, n as nat) by {
                if name != slots@[i as int].0@ {
                    assert(env_lookup(env_view(sets@), name) == env_lookup(env_view(prev), name));
                }
            }
            assert forall|name: Seq<char>|
                #[trigger] env_lookup(env_view(sets@), name) == match last_slots(slots@, name, i + 1) {
                    Some(ss) => Some(groups_of(*old(interner), ss)),
                    None => None,
                } by {
                if name != slots@[i as int].0@ {
                    assert(env_lookup(env_view(sets@), name) == env_lookup(env_view(prev), name));
                }
            }
        }
        i += 1;
    }
    proof {
        assert forall|name: Seq<char>|
            #[trigger] env_lookup(env_view(sets@), name) == match last_slots(slots@, name, slots@.len() as int) {
                Some(ss) => Some(groups_of(*interner, ss)),
                None => None,
            } by {
            match last_slots(slots@, name, slots@.len() as int) {
                Some(ss) => {
                    lemma_last_slots_from(slots@, name, slots@.len() as int);
                    assert(ids_below(ss, n as nat));
                    assert(ss.map_values(|s: usize| interner.group(s as int) as usize) =~= ss.map_values(
                        |s: usize| old(interner).group(s as int) as usize,
                    ));
                },
                None => {},
            }
        }
    }
    sets
}

proof fn lemma_last_slots_from(slots: Seq<(String, Vec<usize>)>, name: Seq<char>, n: int)
    ensures
        last_slots(slots, name, n) matches Some(ss) ==> exists|i: int| 0 <= i < slots.len() && slots[i].1@ == ss,
    decreases n,
{
    if n > 0 && n <= slots.len() && slots[n - 1].0@ != name {
        lemma_last_slots_from(slots, name, n - 1);
    }
}

} // verus!

verus! {

proof fn lemma_distinct_no_duplicates(v: Seq<usize>)
    ensures
        distinct(v).no_duplicates(),
    decreases v.len(),
{
    if v.len() > 0 {
        lemma_distinct_no_duplicates(v.drop_last());
        let d = distinct(v.drop_last());
        if !d.contains(v.last()) {
            assert forall|a: int, b: int| 0 <= a < b < d.push(v.last()).len() implies d.push(v.last())[a] != d.push(v.last())[b] by {
                if b == d.len() {
                    assert(d[a] == d.push(v.last())[a]);
                }
            }
        }
    }
}

proof fn lemma_below_contains(s: Seq<usize>, t: Seq<usize>, n: nat)
    requires
        ids_below(t, n),
        forall|x: usize| s.contains(x) ==> t.contains(x),
    ensures
        ids_below(s, n),
{
    assert forall|a: int| 0 <= a < s.len() implies (#[trigger] s[a]) < n by {
        assert(s.contains(s[a]));
        let w = choose|w: int| 0 <= w < t.len() && t[w] == s[a];
        assert(t[w] < n);
    }
}

proof fn lemma_apply_below(op: crate::expr::ast::SetOp, l: Seq<usize>, r: Seq<usize>, n: nat)
    requires
        ids_below(l, n),
        ids_below(r, n),
    ensures
        ids_below(crate::expr::eval::apply_spec(op, l, r), n),
{
    let nl = |x: usize| !r.contains(x);
    let il = |x: usize| r.contains(x);
    let nr = |x: usize| !l.contains(x);
    assert forall|x: usize| l.filter(nl).contains(x) implies l.contains(x) by {
        l.lemma_filter_contains_rev(nl, x);
    }
    assert forall|x: usize| l.filter(il).contains(x) implies l.contains(x) by {
        l.lemma_filter_contains_rev(il, x);
    }
    assert forall|x: usize| r.filter(nr).contains(x) implies r.contains(x) by {
        r.lemma_filter_contains_rev(nr, x);
    }
    lemma_below_contains(l.filter(nl), l, n);
    lemma_below_contains(l.filter(il), l, n);
    lemma_below_contains(r.filter(nr), r, n);
    let res = crate::expr::eval::apply_spec(op, l, r);
    match op {
        crate::expr::ast::SetOp::Union => {
            assert forall|a: int| 0 <= a < res.len() implies (#[trigger] res[a]) < n by {
                if a < l.len() {
                    assert(res[a] == l[a]);
                } else {
                    assert(res[a] == r.filter(nr)[a - l.len()]);
                }
            }
        },
        crate::expr::ast::SetOp::SymmetricDifference => {
            assert forall|a: int| 0 <= a < res.len() implies (#[trigger] res[a]) < n by {
                let left = l.filter(nl);
                if a < left.len() {
                    assert(res[a] == left[a]);
                } else {
                    assert(res[a] == r.filter(nr)[a - left.len()]);
                }
            }
        },
        _ => {},
    }
}

proof fn lemma_eval_below(e: ExprV, sets: Seq<(String, GroupSet)>, n: nat)
    requires
        env_below(sets, n),
    ensures
        eval_spec(e, env_view(sets)) matches Ok(s) ==> ids_below(s, n),
    decreases e,
{
    match e {
        ExprV::Name(name) => {
            assert(env_lookup(env_view(sets), name) is Some ==> ids_below(env_lookup(env_view(sets), name)->0, n));
        },
        ExprV::Wildcard(_) => {},
        ExprV::Op(op, l, r) => {
            lemma_eval_below(*l, sets, n);
            lemma_eval_below(*r, sets, n);
            if let Ok(a) = eval_spec(*l, env_view(sets)) {
                if let Ok(b) = eval_spec(*r, env_view(sets)) {
                    lemma_apply_below(op, a, b, n);
                }
            }
        },
    }
}

/// One list's step: its expression over the sets so far, then its filter,
/// sort and limit.
pub fn evaluate_list(
    list: &CompiledList,
    config: &ListConfig,
    sets: &Vec<(String, GroupSet)>,
    interner: &Interner,
) -> (r: Result<(GroupSet, usize), UnknownName>)
    requires
        interner.well_formed(),
        env_well_formed(sets@),
        env_below(sets@, interner.slots()),
    ensures
        match eval_spec(list.expr@, env_view(sets@)) {
            Err(n) => r matches Err(UnknownName(m)) && m@ == n,
            Ok(s) => r matches Ok((set, blind)) && {
                &&& blind == blind_count(s, members_of(*interner), *list)
                &&& exists|ordered: Seq<usize>|
                    ordered_ok(
                        kept_spec(s, members_of(*interner), *list, *config),
                        ordered,
                        members_of(*interner),
                        *config,
                    ) && set_items(set) == distinct(limited(ordered, config.limit))
                &&& well_formed(set)
                &&& ids_below(set_items(set), interner.slots())
            },
        },
{
    proof {
        lemma_eval_below(list.expr@, sets@, interner.slots());
    }
    match eval(&list.expr, sets) {
        Ok(evaluated) => {
            let (processed, blind) = post_process(&evaluated, list, config, interner);
            proof {
                let ordered = choose|ordered: Seq<usize>|
                    ordered_ok(
                        kept_spec(set_items(evaluated), members_of(*interner), *list, *config),
                        ordered,
                        members_of(*interner),
                        *config,
                    ) && set_items(processed) == distinct(limited(ordered, config.limit));
                lemma_distinct_no_duplicates(limited(ordered, config.limit));
            }
            Ok((processed, blind))
        },
        Err(e) => Err(e),
    }
}

} // verus!

verus! {

/// What the cache holds for a source, as items.
pub open spec fn cached_items(cache: CacheStore, name: Seq<char>) -> Seq<ItemView> {
    match cache.status_of(name) {
        Some(st) => match st.items {
            Some(v) => crate::cache::items_view(v@),
            None => seq![],
        },
        None => seq![],
    }
}

/// The groups a source's items land in, each once, in the order first
/// reached.
pub open spec fn source_groups(interner: Interner, items: Seq<ItemView>) -> Seq<usize> {
    distinct(keyed(items).map_values(|it: ItemView| item_group(interner, it) as usize))
}

/// One list's step over an environment of sets: its formula's set, then
/// its filter, sort and limit, giving `set`; `blind` counts the items the
/// filter judged without all it reads.
pub open spec fn step_ok(
    list: CompiledList,
    config: ListConfig,
    env: Seq<(Seq<char>, Seq<usize>)>,
    interner: Interner,
    set: Seq<usize>,
    blind: nat,
) -> bool {
    match eval_spec(list.expr@, env) {
        Err(_) => false,
        Ok(s) => {
            &&& blind == blind_count(s, members_of(interner), list)
            &&& exists|ordered: Seq<usize>|
                ordered_ok(kept_spec(s, members_of(interner), list, config), ordered, members_of(interner), config)
                    && set == distinct(limited(ordered, config.limit))
        },
    }
}

/// What a list's answer is made of: an interner that identifies the items
/// of every source the list reads, an environment in which each of those
/// sources is the set of groups its items land in, and the list's own step
/// over that environment; the answer holds each resulting group's merged
/// item, in order.
pub open spec fn made_from(
    runtime: Runtime,
    cache: CacheStore,
    name: Seq<char>,
    l: CompiledList,
    ev: Evaluation,
    interner: Interner,
    env: Seq<(Seq<char>, Seq<usize>)>,
    set: Seq<usize>,
) -> bool {
    &&& interner.well_formed()
    &&& forall|i: int|
        0 <= i < l.source_deps@.len() ==> {
            let dep = (#[trigger] l.source_deps@[i])@;
            &&& cache.status_of(dep) matches Some(st) && st.items is Some
            &&& identifies(interner, keyed(cached_items(cache, dep)))
            &&& env_lookup(env, dep) == Some(source_groups(interner, cached_items(cache, dep)))
        }
    &&& named(runtime.config.lists@, name) matches Some(cfg) && step_ok(l, cfg, env, interner, set, ev.unenriched as nat)
    &&& ids_below(set, interner.slots())
    &&& crate::cache::items_view(ev.items@) == set.map_values(|g: usize| interner.member(g as int))
}

proof fn lemma_first_named(lists: Seq<CompiledList>, name: Seq<char>, n: int)
    requires
        0 <= n <= lists.len(),
        exists|i: int| 0 <= i < n && lists[i].name@ == name,
    ensures
        exists|c: int|
            0 <= c < lists.len() && lists[c].name@ == name && forall|j: int| 0 <= j < c ==> lists[j].name@ != name,
    decreases n,
{
    if exists|i: int| 0 <= i < n - 1 && lists[i].name@ == name {
        lemma_first_named(lists, name, n - 1);
    } else {
        assert(lists[n - 1].name@ == name);
        assert forall|j: int| 0 <= j < n - 1 implies lists[j].name@ != name by {}
    }
}

/// The list `list_named` finds is one of the lists, under that name.
proof fn lemma_list_named_member(lists: Seq<CompiledList>, name: Seq<char>)
    ensures
        list_named(lists, name) matches Some(l) ==> exists|p: int|
            0 <= p < lists.len() && lists[p] == l && lists[p].name@ == name,
{
    if exists|i: int| 0 <= i < lists.len() && lists[i].name@ == name {
        lemma_first_named(lists, name, lists.len() as int);
        let c = choose|c: int|
            0 <= c < lists.len() && lists[c].name@ == name && forall|j: int| 0 <= j < c ==> lists[j].name@ != name;
        assert(list_named(lists, name) == Some(lists[c]));
    }
}

proof fn lemma_tracks_transfer(a: Interner, b: Interner, slots: Seq<usize>, items: Seq<ItemView>)
    requires
        a.well_formed(),
        b.well_formed(),
        slots_track(a, slots, items),
        a.slots() == b.slots(),
        forall|j: int| 0 <= j < a.slots() ==> b.group(j) == a.group(j),
        forall|k: ItemKeyView| b.key_slot(k) == a.key_slot(k),
    ensures
        slots_track(b, slots, items),
{
    assert(forall|j: int| #![trigger slots[j]] 0 <= j < slots.len() ==> slots[j] < a.slots() && items[j].keys().len() > 0);
    assert forall|j: int, k: int|
        0 <= j < slots.len() && 0 <= k < items[j].keys().len() implies #[trigger] b.leads_to(
            items[j].keys()[k],
            b.group(slots[j] as int),
        ) by {
        let key = items[j].keys()[k];
        assert(a.leads_to(key, a.group(slots[j] as int)));
        a.lemma_key_slot(key);
    }
}

/// The environment a source's slots make, told in terms of its items.
proof fn lemma_groups_are_source_groups(interner: Interner, slots: Seq<usize>, items: Seq<ItemView>)
    requires
        interner.well_formed(),
        slots_track(interner, slots, keyed(items)),
    ensures
        groups_of(interner, slots) == source_groups(interner, items),
        identifies(interner, keyed(items)),
{
    lemma_tracks_identify(interner, slots, keyed(items));
    let a = slots.map_values(|s: usize| interner.group(s as int) as usize);
    let b = keyed(items).map_values(|it: ItemView| item_group(interner, it) as usize);
    assert forall|j: int| 0 <= j < a.len() implies a[j] == b[j] by {
        assert(interner.group(slots[j] as int) == item_group(interner, keyed(items)[j]));
    }
    assert(a =~= b);
}

proof fn lemma_last_slots(slots: Seq<(String, Vec<usize>)>, name: Seq<char>, n: int)
    requires
        0 <= n <= slots.len(),
    ensures
        last_slots(slots, name, n) matches Some(ss) ==> exists|i: int|
            0 <= i < n && (#[trigger] slots[i]).0@ == name && slots[i].1@ == ss,
        (exists|i: int| 0 <= i < n && (#[trigger] slots[i]).0@ == name) ==> last_slots(slots, name, n) is Some,
    decreases n,
{
    if n > 0 {
        lemma_last_slots(slots, name, n - 1);
        if slots[n - 1].0@ != name {
            if exists|i: int| 0 <= i < n && (#[trigger] slots[i]).0@ == name {
                let i = choose|i: int| 0 <= i < n && (#[trigger] slots[i]).0@ == name;
                assert(i < n - 1);
            }
        }
    }
}

/// The list evaluated at step `k` for the list at `p0`: the first of its
/// name, whose list dependencies are among the steps before `k` and whose
/// sources are among those of `p0`.
proof fn lemma_step_list(config: crate::config::model::Config, lists: Seq<CompiledList>, p0: int, k: int) -> (q: int)
    requires
        0 <= p0 < lists.len(),
        first_named_at(lists, lists[p0].name@, p0),
        deps_closed(config, lists, p0),
        0 <= k <= lists[p0].list_deps@.len(),
    ensures
        first_named_at(lists, strings_view(lists[p0].list_deps@).push(lists[p0].name@)[k], q),
        includes(lists[p0].list_deps@.take(k), lists[q].list_deps@),
        includes(lists[p0].source_deps@, lists[q].source_deps@),
{
    let c = lists[p0];
    let ld = c.list_deps@;
    let sd = c.source_deps@;
    let order = strings_view(ld).push(c.name@);
    if k < ld.len() {
        assert(placed_after_deps(lists, p0, ld, k));
        let q = choose|q: int|
            0 <= q < p0 && #[trigger] first_named_at(lists, ld[k]@, q) && includes(ld.take(k), lists[q].list_deps@);
        assert(order[k] == strings_view(ld)[k]);
        assert(strings_view(ld)[k] == ld[k]@);
        assert(strings_view(ld).contains(ld[k]@));
        assert(dep_ok(lists, p0, ld[k]@, ld, sd));
        let q2 = choose|q2: int|
            0 <= q2 < p0 && #[trigger] first_named_at(lists, ld[k]@, q2) && includes(ld, lists[q2].list_deps@)
                && includes(sd, lists[q2].source_deps@);
        lemma_first_named_unique(lists, ld[k]@, q, q2);
        q
    } else {
        assert(ld.take(k) =~= ld);
        assert(order[k] == c.name@);
        p0
    }
}

/// In a coherent runtime, every step in evaluating the list at `p0` - its
/// list dependencies in order, then the list itself - is a compiled and
/// configured list whose formula evaluates once every earlier step and
/// every source of `p0` is bound.
proof fn lemma_step_evaluates(
    runtime: Runtime,
    p0: int,
    order: Seq<Seq<char>>,
    k: int,
    env: Seq<(Seq<char>, Seq<usize>)>,
)
    requires
        runtime.coherent(),
        0 <= p0 < runtime.lists@.len(),
        first_named_at(runtime.lists@, runtime.lists@[p0].name@, p0),
        order == strings_view(runtime.lists@[p0].list_deps@).push(runtime.lists@[p0].name@),
        0 <= k < order.len(),
        forall|j: int| 0 <= j < k ==> env_lookup(env, #[trigger] order[j]) is Some,
        forall|i: int|
            0 <= i < runtime.lists@[p0].source_deps@.len() ==> env_lookup(
                env,
                (#[trigger] runtime.lists@[p0].source_deps@[i])@,
            ) is Some,
    ensures
        list_named(runtime.lists@, order[k]) matches Some(l) && eval_spec(l.expr@, env) is Ok,
        is_list(runtime.config, order[k]),
{
    let lists = runtime.lists@;
    let config = runtime.config;
    let ld = lists[p0].list_deps@;
    let sd = lists[p0].source_deps@;
    assert(deps_closed(config, lists, p0));
    let q = lemma_step_list(config, lists, p0, k);
    lemma_first_named_found(lists, order[k], q);
    let l = lists[q];
    assert(deps_closed(config, lists, q));
    assert(wildcard_free(l.expr@));
    assert(is_list(config, l.name@));
    let names = expr_names(l.expr@);
    lemma_add_new_no_duplicates(seq![], name_leaves(l.expr@));
    assert forall|n: Seq<char>| #[trigger] name_leaves(l.expr@).contains(n) implies env_lookup(env, n) is Some by {
        assert(names.contains(n));
        let kk = choose|kk: int| 0 <= kk < names.len() && names[kk] == n;
        assert(is_source(config, names[kk]) || is_list(config, names[kk]));
        if is_source(config, names[kk]) {
            assert(strings_view(l.source_deps@).contains(n));
            assert(strings_view(sd).contains(n));
            let t = choose|t: int| 0 <= t < strings_view(sd).len() && strings_view(sd)[t] == n;
            assert(sd[t]@ == n);
        } else {
            assert(strings_view(l.list_deps@).contains(n));
            assert(strings_view(ld.take(k)).contains(n));
            let t = choose|t: int| 0 <= t < strings_view(ld.take(k)).len() && strings_view(ld.take(k))[t] == n;
            assert(order[t] == strings_view(ld)[t]);
            assert(order[t] == n);
        }
    }
    crate::expr::eval::lemma_eval_bound(l.expr@, env);
}

/// What an evaluation of the list called `name` at `now` is held to: an
/// unknown list is reported as such, a list that cannot find one of its
/// dependencies or its own settings names that one, a list whose sources
/// have not all been
/// fetched names exactly the missing ones, and a result carries its name,
/// its time and exactly the sources that were past their TTL. In a runtime
/// `compile` produced, a list fails only for want of data: with every
/// source it reaches fetched, it evaluates, and its items are made as
/// `made_from` says.
pub open spec fn evaluation_ok(
    runtime: Runtime,
    cache: CacheStore,
    name: Seq<char>,
    now: Stamp,
    r: Result<Evaluation, EvalError>,
) -> bool {
    match list_named(runtime.lists@, name) {
        None => r matches Err(EvalError::UnknownList(n)) && n@ == name,
        Some(l) => {
            let missing = missing_of(strings_view(l.source_deps@), cache);
            &&& (missing.len() > 0 <==> r matches Err(EvalError::NoData(_)))
            &&& (runtime.coherent() ==> (missing.len() == 0 <==> r is Ok))
            &&& (r matches Err(EvalError::NoData(m)) ==> strings_view(m@) == missing)
            &&& (r matches Err(EvalError::UnknownList(n)) ==> {
                &&& strings_view(l.list_deps@).push(name).contains(n@)
                &&& list_named(runtime.lists@, n@) is None || named(runtime.config.lists@, n@) is None
            })
            &&& (r matches Ok(ev) ==> {
                &&& ev.name@ == name
                &&& ev.evaluated_at == now
                &&& strings_view(ev.stale_sources@) == stale_of(
                    strings_view(l.source_deps@),
                    runtime,
                    cache,
                    now,
                )
                &&& runtime.coherent() ==> exists|
                    interner: Interner,
                    env: Seq<(Seq<char>, Seq<usize>)>,
                    set: Seq<usize>,
                | #[trigger] made_from(runtime, cache, name, l, ev, interner, env, set)
            })
        },
    }
}

/// Evaluate one list at `now`: gather its sources' snapshots, identify items
/// across sources, overlay known metadata, then evaluate its dependencies
/// and itself in order, each post-processed before the next sees it.
#[verifier::rlimit(60)]
#[verifier::spinoff_prover]
pub fn evaluate_at(runtime: &Runtime, cache: &CacheStore, meta: &MetaStore, name: &str, now: Stamp) -> (r: Result<
    Evaluation,
    EvalError,
>)
    requires
        cache.well_formed(),
        meta.well_formed(),
    ensures
        evaluation_ok(*runtime, *cache, name@, now, r),
{
    let compiled = match runtime.list(name) {
        Some(c) => c,
        None => return Err(EvalError::UnknownList(from_str(name))),
    };
    let ghost deps = compiled.source_deps@;
    proof {
        // The list is one of the runtime's lists, so it depends on sources only.
        lemma_list_named_member(runtime.lists@, name@);
        let p0 = choose|p: int| 0 <= p < runtime.lists@.len() && runtime.lists@[p] == *compiled && runtime.lists@[p].name@ == name@;
        if runtime.coherent() {
            assert(crate::config::compile::all_sources(runtime.config, runtime.lists@[p0].source_deps@));
        }
    }
    let ghost p0 = choose|i: int|
        0 <= i < runtime.lists@.len() && runtime.lists@[i].name@ == name@ && forall|j: int|
            0 <= j < i ==> runtime.lists@[j].name@ != name@;
    proof {
        lemma_first_named(runtime.lists@, name@, runtime.lists@.len() as int);
        assert(runtime.lists@[p0] == *compiled);
        assert(first_named_at(runtime.lists@, name@, p0));
    }
    let (fetched, stale) = match gather(runtime, cache, &compiled.source_deps, now) {
        Ok(x) => x,
        Err(missing) => return Err(EvalError::NoData(missing)),
    };
    let (mut interner, slots) = intern_sources(&fetched);
    let ghost first = interner;
    if compiled.required_attrs.len() > 0 {
        overlay_metadata(&mut interner, meta);
    }
    let ghost second = interner;
    let mut sets = source_sets(&mut interner, &slots);
    proof {
        assert forall|i: int| 0 <= i < fetched@.len() implies slots_track(
            interner,
            (#[trigger] slots@[i]).1@,
            keyed(crate::cache::items_view(fetched@[i].1@)),
        ) by {
            lemma_tracks_transfer(first, second, slots@[i].1@, keyed(crate::cache::items_view(fetched@[i].1@)));
            lemma_tracks_transfer(second, interner, slots@[i].1@, keyed(crate::cache::items_view(fetched@[i].1@)));
        }
        assert forall|i: int| 0 <= i < deps.len() implies {
            let dep = (#[trigger] deps[i])@;
            &&& identifies(interner, keyed(cached_items(*cache, dep)))
            &&& env_lookup(env_view(sets@), dep) == Some(source_groups(interner, cached_items(*cache, dep)))
        } by {
            let dep = deps[i]@;
            assert(fetched@[i].0@ == dep);
            assert(crate::cache::items_view(fetched@[i].1@) == cached_items(*cache, dep));
            lemma_groups_are_source_groups(interner, slots@[i].1@, crate::cache::items_view(fetched@[i].1@));
            lemma_last_slots(slots@, dep, slots@.len() as int);
            assert(slots@[i].0@ == dep);
            let ss = last_slots(slots@, dep, slots@.len() as int)->0;
            let w = choose|w: int| 0 <= w < slots@.len() && (#[trigger] slots@[w]).0@ == dep && slots@[w].1@ == ss;
            assert(fetched@[w].0@ == dep);
            assert(deps[w]@ == dep);
            assert(crate::cache::items_view(fetched@[w].1@) == cached_items(*cache, dep));
            lemma_groups_are_source_groups(interner, slots@[w].1@, crate::cache::items_view(fetched@[w].1@));
        }
    }
    let mut order: Vec<String> = crate::model::clone_strings(&compiled.list_deps);
    order.push(clone_string(&compiled.name));
    let ghost last = order@.len() - 1;
    proof {
        assert(order@[last]@ == name@);
    }
    let mut unenriched: usize = 0;
    let mut failure: Option<EvalError> = None;
    let ghost mut cap_env: Seq<(Seq<char>, Seq<usize>)> = seq![];
    let ghost mut cap_set: Seq<usize> = seq![];
    let mut k: usize = 0;
    while k < order.len() && failure.is_none()
        invariant
            interner.well_formed(),
            env_well_formed(sets@),
            env_below(sets@, interner.slots()),
            0 <= k <= order@.len(),
            last == order@.len() - 1,
            order@[last]@ == name@,
            list_named(runtime.lists@, name@) == Some(*compiled),
            deps == compiled.source_deps@,
            !(failure matches Some(EvalError::NoData(_))),
            failure matches Some(EvalError::UnknownList(n)) ==> {
                &&& strings_view(order@).contains(n@)
                &&& list_named(runtime.lists@, n@) is None || named(runtime.config.lists@, n@) is None
            },
            0 <= p0 < runtime.lists@.len(),
            first_named_at(runtime.lists@, name@, p0),
            runtime.lists@[p0] == *compiled,
            strings_view(order@) == strings_view(compiled.list_deps@).push(name@),
            runtime.coherent() ==> failure is None,
            failure is None ==> forall|j: int|
                0 <= j < k ==> env_lookup(env_view(sets@), #[trigger] strings_view(order@)[j]) is Some,
            runtime.coherent() ==> crate::config::compile::all_sources(runtime.config, deps),
            runtime.coherent() ==> forall|i: int|
                0 <= i < deps.len() ==> env_lookup(env_view(sets@), (#[trigger] deps[i])@) == Some(
                    source_groups(interner, cached_items(*cache, deps[i]@)),
                ),
            (k == order@.len() && failure is None) ==> {
                &&& runtime.coherent() ==> forall|i: int|
                    0 <= i < deps.len() ==> env_lookup(cap_env, (#[trigger] deps[i])@) == Some(
                        source_groups(interner, cached_items(*cache, deps[i]@)),
                    )
                &&& named(runtime.config.lists@, name@) matches Some(cfg) && step_ok(
                    *compiled,
                    cfg,
                    cap_env,
                    interner,
                    cap_set,
                    unenriched as nat,
                )
                &&& ids_below(cap_set, interner.slots())
                &&& env_lookup(env_view(sets@), name@) == Some(cap_set)
            },
        decreases order.len() - k,
    {
        let list_name = &order[k];
        proof {
            assert(strings_view(order@)[k as int] == list_name@);
            if runtime.coherent() {
                assert forall|i: int| 0 <= i < runtime.lists@[p0].source_deps@.len() implies env_lookup(
                    env_view(sets@),
                    (#[trigger] runtime.lists@[p0].source_deps@[i])@,
                ) is Some by {
                    assert(deps[i] == runtime.lists@[p0].source_deps@[i]);
                }
                lemma_step_evaluates(*runtime, p0, strings_view(order@), k as int, env_view(sets@));
            }
        }
        match runtime.list(list_name.as_str()) {
            Some(list) => match crate::config::compile::find_named(&runtime.config.lists, list_name.as_str()) {
                Some(i) => {
                    let config = &runtime.config.lists[i].1;
                    match evaluate_list(list, config, &sets, &interner) {
                        Ok((processed, blind)) => {
                            if crate::text::str_eq(list_name.as_str(), name) {
                                unenriched = blind;
                            }
                            let ghost prev = sets@;
                            proof {
                                if k == last {
                                    crate::config::compile::lemma_position_first(
                                        runtime.config.lists@,
                                        name@,
                                        i as int,
                                    );
                                    let ordered = choose|ordered: Seq<usize>|
                                        ordered_ok(
                                            kept_spec(
                                                eval_spec(list.expr@, env_view(prev))->Ok_0,
                                                members_of(interner),
                                                *list,
                                                *config,
                                            ),
                                            ordered,
                                            members_of(interner),
                                            *config,
                                        ) && set_items(processed) == distinct(limited(ordered, config.limit));
                                    cap_env = env_view(prev);
                                    cap_set = set_items(processed);
                                }
                            }
                            env_insert(&mut sets, list_name, processed);
                            proof {
                                assert forall|n: Seq<char>|
                                    #[trigger] env_lookup(env_view(sets@), n) is Some implies ids_below(
                                        env_lookup(env_view(sets@), n)->0,
                                        interner.slots(),
                                    ) by {
                                    if n != list_name@ {
                                        assert(env_lookup(env_view(sets@), n) == env_lookup(env_view(prev), n));
                                    }
                                }
                                assert forall|j: int| 0 <= j < k + 1 implies env_lookup(
                                    env_view(sets@),
                                    #[trigger] strings_view(order@)[j],
                                ) is Some by {
                                    if strings_view(order@)[j] != list_name@ {
                                        assert(env_lookup(env_view(sets@), strings_view(order@)[j]) == env_lookup(
                                            env_view(prev),
                                            strings_view(order@)[j],
                                        ));
                                    }
                                }
                                if runtime.coherent() {
                                    lemma_list_named_member(runtime.lists@, list_name@);
                                    let p1 = choose|p: int| 0 <= p < runtime.lists@.len() && runtime.lists@[p] == *list && runtime.lists@[p].name@ == list_name@;
                                    assert(!crate::config::compile::is_source(runtime.config, runtime.lists@[p1].name@));
                                    assert forall|t: int| 0 <= t < deps.len() implies env_lookup(
                                        env_view(sets@),
                                        (#[trigger] deps[t])@,
                                    ) == Some(source_groups(interner, cached_items(*cache, deps[t]@))) by {
                                        assert(crate::config::compile::is_source(runtime.config, deps[t]@));
                                        assert(deps[t]@ != list_name@);
                                        assert(env_lookup(env_view(sets@), deps[t]@) == env_lookup(env_view(prev), deps[t]@));
                                    }
                                }
                            }
                        },
                        Err(e) => {
                            failure = Some(EvalError::Other(e.message()));
                        },
                    }
                },
                None => {
                    failure = Some(EvalError::UnknownList(clone_string(list_name)));
                    assert(strings_view(order@)[k as int] == list_name@);
                },
            },
            None => {
                failure = Some(EvalError::UnknownList(clone_string(list_name)));
                assert(strings_view(order@)[k as int] == list_name@);
            },
        }
        k += 1;
    }
    if let Some(e) = failure {
        return Err(e);
    }
    let key = from_str(name);
    let groups: Vec<usize> = match lookup_set(&sets, &key) {
        Some(s) => set_to_vec(s),
        None => Vec::new(),
    };
    let mut items: Vec<Item> = Vec::new();
    let mut g: usize = 0;
    while g < groups.len()
        invariant
            interner.well_formed(),
            ids_below(groups@, interner.slots()),
            0 <= g <= groups@.len(),
            crate::cache::items_view(items@) == groups@.take(g as int).map_values(
                |x: usize| interner.member(x as int),
            ),
        decreases groups.len() - g,
    {
        let ghost before = items@;
        items.push(interner.item(groups[g]).clone());
        proof {
            assert(crate::cache::items_view(items@) =~= crate::cache::items_view(before).push(
                interner.member(groups@[g as int] as int),
            ));
            assert(groups@.take(g + 1) =~= groups@.take(g as int).push(groups@[g as int]));
            assert(groups@.take(g + 1).map_values(|x: usize| interner.member(x as int)) =~= groups@.take(
                g as int,
            ).map_values(|x: usize| interner.member(x as int)).push(interner.member(groups@[g as int] as int)));
        }
        g += 1;
    }
    proof {
        assert(groups@.take(groups@.len() as int) =~= groups@);
    }
    let ev = Evaluation { name: from_str(name), items, stale_sources: stale, unenriched, evaluated_at: now };
    proof {
        if runtime.coherent() {
            assert(groups@ == cap_set);
            assert forall|i: int| 0 <= i < deps.len() implies {
                let dep = (#[trigger] deps[i])@;
                &&& cache.status_of(dep) matches Some(st) && st.items is Some
                &&& identifies(interner, keyed(cached_items(*cache, dep)))
                &&& env_lookup(cap_env, dep) == Some(source_groups(interner, cached_items(*cache, dep)))
            } by {
                assert(fetched@[i].0@ == deps[i]@);
            }
            assert(made_from(*runtime, *cache, name@, *compiled, ev, interner, cap_env, cap_set));
            assert(exists|
                i2: Interner,
                e2: Seq<(Seq<char>, Seq<usize>)>,
                s2: Seq<usize>,
            | #[trigger] made_from(*runtime, *cache, name@, *compiled, ev, i2, e2, s2));
        }
        assert(list_named(runtime.lists@, name@) == Some(*compiled));
    }
    let r = Ok(ev);
    proof {
        assert(r matches Ok(e) && e == ev);
    }
    r
}

/// Evaluate one list now.
pub fn evaluate(runtime: &Runtime, cache: &CacheStore, meta: &MetaStore, name: &str) -> (r: Result<
    Evaluation,
    EvalError,
>)
    requires
        cache.well_formed(),
        meta.well_formed(),
    ensures
        exists|now: Stamp| evaluation_ok(*runtime, *cache, name@, now, r),
{
    let now = crate::clock::now();
    let r = evaluate_at(runtime, cache, meta, name, now);
    assert(evaluation_ok(*runtime, *cache, name@, now, r));
    r
}

/// Every configured list evaluated at `now`, in configuration order.
pub fn evaluate_all_at(runtime: &Runtime, cache: &CacheStore, meta: &MetaStore, now: Stamp) -> (r: Vec<
    (String, Result<Evaluation, EvalError>),
>)
    requires
        cache.well_formed(),
        meta.well_formed(),
    ensures
        r@.len() == runtime.config.lists@.len(),
        forall|i: int|
            0 <= i < r@.len() ==> (#[trigger] r@[i]).0@ == runtime.config.lists@[i].0@
                && evaluation_ok(*runtime, *cache, r@[i].0@, now, r@[i].1),
{
    let mut out: Vec<(String, Result<Evaluation, EvalError>)> = Vec::new();
    let mut i: usize = 0;
    while i < runtime.config.lists.len()
        invariant
            cache.well_formed(),
            meta.well_formed(),
            0 <= i <= runtime.config.lists@.len(),
            out@.len() == i,
            forall|k: int|
                0 <= k < i ==> (#[trigger] out@[k]).0@ == runtime.config.lists@[k].0@
                    && evaluation_ok(*runtime, *cache, out@[k].0@, now, out@[k].1),
        decreases runtime.config.lists.len() - i,
    {
        let name = &runtime.config.lists[i].0;
        let result = evaluate_at(runtime, cache, meta, name.as_str(), now);
        out.push((clone_string(name), result));
        i += 1;
    }
    out
}

} // verus!
