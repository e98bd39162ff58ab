//! A Kometa collection file: one collection, named after the list or its
//! `kometa.collection`, whose builders name the list's items by id, followed
//! by the list's `sync_mode`, `collection_order` and `extra` settings.

use vstd::prelude::*;

use crate::api::{kometa_id, kometa_ids, views, KometaId, KometaIdView};
use crate::config::model::KometaConfig;
use crate::doc::Doc;
use crate::model::{strings_view, Item};
use crate::text::{chars_of, decimal, fmt_u64, join, join_strings, push_char, push_str};

verus! {

// ---------------------------------------------------------------------------
// Quoting
// ---------------------------------------------------------------------------

/// The inside of a YAML single-quoted scalar: a quote is written twice.
pub open spec fn single_body(s: Seq<char>) -> Seq<char>
    decreases s.len(),
{
    if s.len() == 0 {
        seq![]
    } else {
        single_body(s.drop_last()) + if s.last() == '\'' {
            seq!['\'', '\'']
        } else {
            seq![s.last()]
        }
    }
}

pub open spec fn single_quoted(s: Seq<char>) -> Seq<char> {
    seq!['\''] + single_body(s) + seq!['\'']
}

/// One character inside a YAML double-quoted scalar.
pub open spec fn double_char(c: char) -> Seq<char> {
    if c == '\\' {
        seq!['\\', '\\']
    } else if c == '"' {
        seq!['\\', '"']
    } else if c == '\n' {
        seq!['\\', 'n']
    } else if c == '\r' {
        seq!['\\', 'r']
    } else if c == '\t' {
        seq!['\\', 't']
    } else {
        seq![c]
    }
}

pub open spec fn double_body(s: Seq<char>) -> Seq<char>
    decreases s.len(),
{
    if s.len() == 0 {
        seq![]
    } else {
        double_body(s.drop_last()) + double_char(s.last())
    }
}

pub open spec fn double_quoted(s: Seq<char>) -> Seq<char> {
    seq!['"'] + double_body(s) + seq!['"']
}

/// Appends `s` as a single-quoted scalar.
fn push_single_quoted(out: &mut String, s: &str)
    ensures
        final(out)@ == old(out)@ + single_quoted(s@),
{
    let v = chars_of(s);
    push_char(out, '\'');
    let ghost start = out@;
    let mut i: usize = 0;
    while i < v.len()
        invariant
            v@ == s@,
            0 <= i <= v@.len(),
            start == old(out)@ + seq!['\''],
            out@ == start + single_body(v@.take(i as int)),
        decreases v.len() - i,
    {
        let c = v[i];
        if c == '\'' {
            push_char(out, '\'');
            push_char(out, '\'');
        } else {
            push_char(out, c);
        }
        assert(v@.take(i + 1).drop_last() =~= v@.take(i as int));
        i += 1;
        assert(out@ =~= start + single_body(v@.take(i as int)));
    }
    assert(v@.take(v@.len() as int) =~= v@);
    push_char(out, '\'');
    assert(out@ =~= old(out)@ + single_quoted(s@));
}

/// Appends `s` as a double-quoted scalar.
fn push_double_quoted(out: &mut String, s: &str)
    ensures
        final(out)@ == old(out)@ + double_quoted(s@),
{
    let v = chars_of(s);
    push_char(out, '"');
    let ghost start = out@;
    let mut i: usize = 0;
    while i < v.len()
        invariant
            v@ == s@,
            0 <= i <= v@.len(),
            start == old(out)@ + seq!['"'],
            out@ == start + double_body(v@.take(i as int)),
        decreases v.len() - i,
    {
        let c = v[i];
        if c == '\\' {
            push_char(out, '\\');
            push_char(out, '\\');
        } else if c == '"' {
            push_char(out, '\\');
            push_char(out, '"');
        } else if c == '\n' {
            push_char(out, '\\');
            push_char(out, 'n');
        } else if c == '\r' {
            push_char(out, '\\');
            push_char(out, 'r');
        } else if c == '\t' {
            push_char(out, '\\');
            push_char(out, 't');
        } else {
            push_char(out, c);
        }
        assert(v@.take(i + 1).drop_last() =~= v@.take(i as int));
        i += 1;
        assert(out@ =~= start + double_body(v@.take(i as int)));
    }
    assert(v@.take(v@.len() as int) =~= v@);
    push_char(out, '"');
    assert(out@ =~= old(out)@ + double_quoted(s@));
}

// ---------------------------------------------------------------------------
// Settings copied from `extra`, in YAML's flow style
// ---------------------------------------------------------------------------

/// A document in YAML's flow style: `[a, b]`, `{k: v}`, texts double-quoted.
pub open spec fn flow(d: Doc) -> Seq<char>
    decreases d,
{
    match d {
        Doc::Null => "null"@,
        Doc::Bool(b) => if b {
            "true"@
        } else {
            "false"@
        },
        Doc::Number(n) => n.text@,
        Doc::Text(s) => double_quoted(s@),
        Doc::List(v) => seq!['['] + flow_items(v@) + seq![']'],
        Doc::Table(e) => seq!['{'] + flow_entries(e@) + seq!['}'],
    }
}

pub open spec fn flow_items(s: Seq<Doc>) -> Seq<char>
    decreases s,
{
    if s.len() == 0 {
        seq![]
    } else if s.len() == 1 {
        flow(s[0])
    } else {
        flow_items(s.drop_last()) + seq![',', ' '] + flow(s.last())
    }
}

pub open spec fn flow_entries(s: Seq<(Doc, Doc)>) -> Seq<char>
    decreases s,
{
    if s.len() == 0 {
        seq![]
    } else if s.len() == 1 {
        flow(s[0].0) + seq![':', ' '] + flow(s[0].1)
    } else {
        flow_entries(s.drop_last()) + seq![',', ' '] + flow(s.last().0) + seq![':', ' '] + flow(
            s.last().1,
        )
    }
}

/// Appends `d` in flow style.
fn push_flow(out: &mut String, d: &Doc)
    ensures
        final(out)@ == old(out)@ + flow(*d),
    decreases d,
{
    match d {
        Doc::Null => push_str(out, "null"),
        Doc::Bool(b) => {
            if *b {
                push_str(out, "true");
            } else {
                push_str(out, "false");
            }
        },
        Doc::Number(n) => push_str(out, n.text.as_str()),
        Doc::Text(s) => push_double_quoted(out, s.as_str()),
        Doc::List(items) => {
            push_char(out, '[');
            let ghost start = out@;
            let mut i: usize = 0;
            while i < items.len()
                invariant
                    *d == Doc::List(*items),
                    0 <= i <= items@.len(),
                    start == old(out)@ + seq!['['],
                    out@ == start + flow_items(items@.take(i as int)),
                decreases items.len() - i,
            {
                proof {
                    assert(decreases_to!(*d => (*d)->List_0));
                    assert(decreases_to!(*items => items@));
                    assert(decreases_to!(items@ => items@[i as int]));
                    assert(decreases_to!(*d => items@[i as int]));
                }
                if i > 0 {
                    push_char(out, ',');
                    push_char(out, ' ');
                }
                push_flow(out, &items[i]);
                assert(items@.take(i + 1).drop_last() =~= items@.take(i as int));
                i += 1;
                assert(out@ =~= start + flow_items(items@.take(i as int)));
            }
            assert(items@.take(items@.len() as int) =~= items@);
            push_char(out, ']');
            assert(out@ =~= old(out)@ + flow(*d));
        },
        Doc::Table(entries) => {
            push_char(out, '{');
            let ghost start = out@;
            let mut i: usize = 0;
            while i < entries.len()
                invariant
                    *d == Doc::Table(*entries),
                    0 <= i <= entries@.len(),
                    start == old(out)@ + seq!['{'],
                    out@ == start + flow_entries(entries@.take(i as int)),
                decreases entries.len() - i,
            {
                let (k, v) = &entries[i];
                proof {
                    assert(decreases_to!(*d => (*d)->Table_0));
                    assert(decreases_to!(*entries => entries@));
                    assert(decreases_to!(entries@ => entries@[i as int]));
                    assert(decreases_to!(*d => entries@[i as int]));
                    assert(decreases_to!(*d => entries@[i as int].0));
                    assert(decreases_to!(*d => entries@[i as int].1));
                }
                if i > 0 {
                    push_char(out, ',');
                    push_char(out, ' ');
                }
                push_flow(out, k);
                push_char(out, ':');
                push_char(out, ' ');
                push_flow(out, v);
                assert(entries@.take(i + 1).drop_last() =~= entries@.take(i as int));
                i += 1;
                assert(out@ =~= start + flow_entries(entries@.take(i as int)));
            }
            assert(entries@.take(entries@.len() as int) =~= entries@);
            push_char(out, '}');
            assert(out@ =~= old(out)@ + flow(*d));
        },
    }
}

// ---------------------------------------------------------------------------
// Builders
// ---------------------------------------------------------------------------

/// Which builder names an id: TMDb movies, TVDb shows, TMDb shows, IMDb.
pub open spec fn builder_of(id: KometaIdView) -> int {
    match id {
        KometaIdView::Tmdb(_) => 0,
        KometaIdView::Tvdb(_) => 1,
        KometaIdView::TmdbShow(_) => 2,
        KometaIdView::Imdb(_) => 3,
    }
}

pub open spec fn builder_key(k: int) -> Seq<char> {
    if k == 0 {
        "tmdb_movie"@
    } else if k == 1 {
        "tvdb_show"@
    } else if k == 2 {
        "tmdb_show"@
    } else {
        "imdb_id"@
    }
}

/// The id as its builder writes it: the bare number, or the IMDb id.
pub open spec fn id_value(id: KometaIdView) -> Seq<char> {
    match id {
        KometaIdView::Tmdb(n) => decimal(n as nat),
        KometaIdView::Tvdb(n) => decimal(n as nat),
        KometaIdView::TmdbShow(n) => decimal(n as nat),
        KometaIdView::Imdb(s) => s,
    }
}

/// The ids builder `k` names, in list order.
pub open spec fn builder_values(ids: Seq<KometaIdView>, k: int) -> Seq<Seq<char>>
    decreases ids.len(),
{
    if ids.len() == 0 {
        seq![]
    } else if builder_of(ids.last()) == k {
        builder_values(ids.drop_last(), k).push(id_value(ids.last()))
    } else {
        builder_values(ids.drop_last(), k)
    }
}

/// A builder's value: several ids comma-separated, a lone id quoted so that
/// it stays a string.
pub open spec fn id_list_text(v: Seq<Seq<char>>) -> Seq<char> {
    if v.len() == 1 {
        single_quoted(v[0])
    } else {
        join(v, ", "@)
    }
}

/// Builder `k`'s line, or nothing when no id goes to it.
pub open spec fn builder_line(ids: Seq<KometaIdView>, k: int) -> Seq<char> {
    let v = builder_values(ids, k);
    if v.len() == 0 {
        seq![]
    } else {
        "    "@ + builder_key(k) + ": "@ + id_list_text(v) + seq!['\n']
    }
}

pub open spec fn extra_text(e: Seq<(String, Doc)>) -> Seq<char>
    decreases e.len(),
{
    if e.len() == 0 {
        seq![]
    } else {
        extra_text(e.drop_last()) + "    "@ + double_quoted(e.last().0@) + ": "@ + flow(e.last().1)
            + seq!['\n']
    }
}

pub open spec fn collection_name(name: Seq<char>, kometa: KometaConfig) -> Seq<char> {
    match kometa.collection {
        Some(c) => c@,
        None => name,
    }
}

/// The whole file.
pub open spec fn collection_yaml(name: Seq<char>, kometa: KometaConfig, ids: Seq<KometaIdView>) -> Seq<
    char,
> {
    "collections:\n  "@ + double_quoted(collection_name(name, kometa)) + ":\n"@ + builder_line(ids, 0)
        + builder_line(ids, 1) + builder_line(ids, 2) + builder_line(ids, 3) + "    sync_mode: "@
        + double_quoted(kometa.sync_mode@) + seq!['\n'] + "    collection_order: "@ + double_quoted(
        kometa.collection_order@,
    ) + seq!['\n'] + extra_text(kometa.extra@)
}

fn push_builder(out: &mut String, key: &str, values: &Vec<String>)
    ensures
        final(out)@ == old(out)@ + if values@.len() == 0 {
            seq![]
        } else {
            "    "@ + key@ + ": "@ + id_list_text(strings_view(values@)) + seq!['\n']
        },
{
    if values.len() == 0 {
        assert(out@ =~= old(out)@ + Seq::<char>::empty());
        return;
    }
    push_str(out, "    ");
    push_str(out, key);
    push_str(out, ": ");
    if values.len() == 1 {
        push_single_quoted(out, values[0].as_str());
    } else {
        let joined = join_strings(values, ", ");
        push_str(out, joined.as_str());
    }
    push_char(out, '\n');
    assert(out@ =~= old(out)@ + ("    "@ + key@ + ": "@ + id_list_text(strings_view(values@)) + seq!['\n']));
}

/// A Kometa collection file holding the list's items, to be included in
/// Kometa's config as a collection file. Movies go to `tmdb_movie`, shows
/// to `tvdb_show`, then by IMDb id, then to `tmdb_show`, as `kometa_id`
/// chooses; a lone id is quoted so that it stays a string.
///
/// Returns the file and the number of items carrying no id Kometa could use.
pub fn kometa_collection(name: &str, kometa: &KometaConfig, items: &Vec<Item>) -> (r: (String, usize))
    ensures
        r.0@ == collection_yaml(name@, *kometa, kometa_ids(views(items@))),
        r.1 == items@.len() - kometa_ids(views(items@)).len(),
{
    let ghost all = views(items@);
    let mut movies: Vec<String> = Vec::new();
    let mut tvdb: Vec<String> = Vec::new();
    let mut shows: Vec<String> = Vec::new();
    let mut imdb: Vec<String> = Vec::new();
    let mut found: usize = 0;
    let mut i: usize = 0;
    while i < items.len()
        invariant
            0 <= i <= items@.len(),
            all == views(items@),
            found == kometa_ids(all.take(i as int)).len(),
            found <= i,
            strings_view(movies@) == builder_values(kometa_ids(all.take(i as int)), 0),
            strings_view(tvdb@) == builder_values(kometa_ids(all.take(i as int)), 1),
            strings_view(shows@) == builder_values(kometa_ids(all.take(i as int)), 2),
            strings_view(imdb@) == builder_values(kometa_ids(all.take(i as int)), 3),
        decreases items.len() - i,
    {
        assert(all.take(i + 1).drop_last() =~= all.take(i as int));
        assert(all.take(i + 1).last() == items@[i as int]@);
        let ghost before = kometa_ids(all.take(i as int));
        match kometa_id(&items[i]) {
            Some(id) => {
                let ghost ids = kometa_ids(all.take(i + 1));
                assert(ids == before.push(id@));
                assert(ids.drop_last() =~= before);
                match &id {
                    KometaId::Tmdb(n) => {
                        let ghost b = strings_view(movies@);
                        movies.push(fmt_u64(*n as u64));
                        assert(strings_view(movies@) =~= b.push(id_value(id@)));
                    },
                    KometaId::Tvdb(n) => {
                        let ghost b = strings_view(tvdb@);
                        tvdb.push(fmt_u64(*n as u64));
                        assert(strings_view(tvdb@) =~= b.push(id_value(id@)));
                    },
                    KometaId::TmdbShow(n) => {
                        let ghost b = strings_view(shows@);
                        shows.push(fmt_u64(*n as u64));
                        assert(strings_view(shows@) =~= b.push(id_value(id@)));
                    },
                    KometaId::Imdb(s) => {
                        let ghost b = strings_view(imdb@);
                        imdb.push(crate::text::clone_string(s));
                        assert(strings_view(imdb@) =~= b.push(id_value(id@)));
                    },
                }
                found += 1;
            },
            None => {
                proof {
                    assert(kometa_ids(all.take(i + 1)) == before);
                }
            },
        }
        i += 1;
    }
    assert(all.take(items@.len() as int) =~= all);
    let ghost ids = kometa_ids(all);
    let mut out = crate::text::from_str("collections:\n  ");
    match &kometa.collection {
        Some(c) => push_double_quoted(&mut out, c.as_str()),
        None => push_double_quoted(&mut out, name),
    }
    push_str(&mut out, ":\n");
    proof {
        reveal_strlit("tmdb_movie");
        reveal_strlit("tvdb_show");
        reveal_strlit("tmdb_show");
        reveal_strlit("imdb_id");
    }
    push_builder(&mut out, "tmdb_movie", &movies);
    push_builder(&mut out, "tvdb_show", &tvdb);
    push_builder(&mut out, "tmdb_show", &shows);
    push_builder(&mut out, "imdb_id", &imdb);
    push_str(&mut out, "    sync_mode: ");
    push_double_quoted(&mut out, kometa.sync_mode.as_str());
    push_char(&mut out, '\n');
    push_str(&mut out, "    collection_order: ");
    push_double_quoted(&mut out, kometa.collection_order.as_str());
    push_char(&mut out, '\n');
    let ghost head = out@;
    let mut e: usize = 0;
    while e < kometa.extra.len()
        invariant
            0 <= e <= kometa.extra@.len(),
            out@ == head + extra_text(kometa.extra@.take(e as int)),
        decreases kometa.extra.len() - e,
    {
        let (key, value) = &kometa.extra[e];
        push_str(&mut out, "    ");
        push_double_quoted(&mut out, key.as_str());
        push_str(&mut out, ": ");
        push_flow(&mut out, value);
        push_char(&mut out, '\n');
        assert(kometa.extra@.take(e + 1).drop_last() =~= kometa.extra@.take(e as int));
        e += 1;
        assert(out@ =~= head + extra_text(kometa.extra@.take(e as int)));
    }
    assert(kometa.extra@.take(kometa.extra@.len() as int) =~= kometa.extra@);
    assert(out@ =~= collection_yaml(name@, *kometa, ids));
    (out, items.len() - found)
}

} // verus!
