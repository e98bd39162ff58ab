//! Any JSON endpoint, mapped to items by configurable field names.
//!
//! This covers StevenLu-shaped feeds, another instance of this service, and
//! anything homemade, without needing a dedicated provider for each.

use vstd::prelude::*;

use super::json_value::{
    as_date, as_genres, as_i32, as_str, as_u32, date_of, dig, first_present, genres_of, i32_of,
    path_segments, str_of, u32_of, walk,
};
use super::static_list::{rank_at, rank_of};
use crate::config::model::{
    default_content_rating_keys, default_country_keys, default_genres_keys, default_imdb_keys,
    default_media_type_keys, default_original_language_keys, default_released_keys,
    default_runtime_keys, default_spoken_language_keys, default_status_keys, default_title_keys,
    default_tmdb_keys, default_trakt_keys, default_tvdb_keys, default_year_keys, pick_spec, FieldMap,
    JsonSource,
};
use crate::doc::{first_present_spec, json_document, parse_json, Doc};
use crate::model::{
    media_type_word, normalize_code, normalize_code_spec, normalize_imdb, normalize_imdb_spec,
    ov, strings_view, Attrs, AttrsView, Item, ItemView, MediaIdsView, MediaType,
};
use crate::text::{ascii_upper, ascii_upper_string, from_str, keyword, push_str};

verus! {

pub open spec fn code_of(value: Option<Doc>) -> Option<Seq<char>> {
    match str_of(value) {
        Some(t) => normalize_code_spec(t),
        None => None,
    }
}

pub open spec fn imdb_of(value: Option<Doc>) -> Option<Seq<char>> {
    match str_of(value) {
        Some(t) => normalize_imdb_spec(t),
        None => None,
    }
}

/// Descriptive fields, if the feed happens to carry any. A feed that does
/// not leaves the gaps for the enricher.
pub open spec fn feed_attrs(entry: Doc, f: FieldMap) -> AttrsView {
    AttrsView {
        country: code_of(first_present_spec(entry, pick_spec(f.country@, default_country_keys()))),
        original_language: code_of(
            first_present_spec(entry, pick_spec(f.original_language@, default_original_language_keys())),
        ),
        spoken_language: code_of(
            first_present_spec(entry, pick_spec(f.spoken_language@, default_spoken_language_keys())),
        ),
        genres: genres_of(first_present_spec(entry, pick_spec(f.genres@, default_genres_keys()))),
        runtime: match u32_of(first_present_spec(entry, pick_spec(f.runtime@, default_runtime_keys()))) {
            Some(m) => if m > 0 {
                Some(m)
            } else {
                None
            },
            None => None,
        },
        content_rating: match str_of(
            first_present_spec(entry, pick_spec(f.content_rating@, default_content_rating_keys())),
        ) {
            Some(t) => Some(ascii_upper(t)),
            None => None,
        },
        status: code_of(first_present_spec(entry, pick_spec(f.status@, default_status_keys()))),
    }
}

pub open spec fn feed_ids(entry: Doc, f: FieldMap) -> MediaIdsView {
    MediaIdsView {
        tmdb: u32_of(first_present_spec(entry, pick_spec(f.tmdb@, default_tmdb_keys()))),
        imdb: imdb_of(first_present_spec(entry, pick_spec(f.imdb@, default_imdb_keys()))),
        tvdb: u32_of(first_present_spec(entry, pick_spec(f.tvdb@, default_tvdb_keys()))),
        trakt: u32_of(first_present_spec(entry, pick_spec(f.trakt@, default_trakt_keys()))),
    }
}

/// The item one feed entry stands for; `None` for an entry with no id.
pub open spec fn feed_item(entry: Doc, index: int, source: JsonSource) -> Option<ItemView> {
    let f = source.fields;
    let ids = feed_ids(entry, f);
    if ids.is_empty() {
        None
    } else {
        Some(
            ItemView {
                media_type: match str_of(
                    first_present_spec(entry, pick_spec(f.media_type@, default_media_type_keys())),
                ) {
                    Some(t) => match media_type_word(keyword(t)) {
                        Some(m) => m,
                        None => source.media_type,
                    },
                    None => source.media_type,
                },
                ids,
                title: str_of(first_present_spec(entry, pick_spec(f.title@, default_title_keys()))),
                year: i32_of(first_present_spec(entry, pick_spec(f.year@, default_year_keys()))),
                released: date_of(
                    first_present_spec(entry, pick_spec(f.released@, default_released_keys())),
                ),
                rank: Some(rank_of(index)),
                attrs: feed_attrs(entry, f),
            },
        )
    }
}

/// The items of the first `n` entries, in order.
pub open spec fn feed_items(entries: Seq<Doc>, n: int, source: JsonSource) -> Seq<ItemView>
    decreases n,
{
    if n <= 0 || n > entries.len() {
        seq![]
    } else {
        let before = feed_items(entries, n - 1, source);
        match feed_item(entries[n - 1], n - 1, source) {
            Some(item) => before.push(item),
            None => before,
        }
    }
}

pub open spec fn kind_text(d: Doc) -> Seq<char> {
    match d {
        Doc::Null => "null"@,
        Doc::Bool(_) => "a boolean"@,
        Doc::Number(_) => "a number"@,
        Doc::Text(_) => "a string"@,
        Doc::List(_) => "an array"@,
        Doc::Table(_) => "an object"@,
    }
}

pub fn kind_of(value: &Doc) -> (r: &'static str)
    ensures
        r@ == kind_text(*value),
{
    match value {
        Doc::Null => "null",
        Doc::Bool(_) => "a boolean",
        Doc::Number(_) => "a number",
        Doc::Text(_) => "a string",
        Doc::List(_) => "an array",
        Doc::Table(_) => "an object",
    }
}

/// The value a source reads its entries from: the document, or what its
/// `path` leads to.
pub open spec fn feed_root(document: Doc, source: JsonSource) -> Option<Doc> {
    match source.path {
        Some(p) => walk(document, path_segments(p@)),
        None => Some(document),
    }
}

pub open spec fn feed_spec(document: Doc, source: JsonSource) -> Result<Seq<ItemView>, Seq<char>> {
    match feed_root(document, source) {
        None => Err("`"@ + source.path->0@ + "` is not present in the response"@),
        Some(Doc::List(entries)) => Ok(feed_items(entries@, entries@.len() as int, source)),
        Some(other) => Err(
            "expected a JSON array"@ + match source.path {
                Some(p) => " at `"@ + p@ + "`"@,
                None => Seq::empty(),
            } + ", found "@ + kind_text(other),
        ),
    }
}

fn code(entry: &Doc, keys: &Vec<String>) -> (r: Option<String>)
    ensures
        ov(r) == code_of(first_present_spec(*entry, strings_view(keys@))),
{
    match as_str(first_present(entry, keys)) {
        Some(t) => normalize_code(t.as_str()),
        None => None,
    }
}

fn feed_attrs_of(entry: &Doc, f: &FieldMap) -> (r: Attrs)
    ensures
        r@ == feed_attrs(*entry, *f),
{
    let runtime = match as_u32(first_present(entry, &f.runtime_keys())) {
        Some(m) => if m > 0 {
            Some(m)
        } else {
            None
        },
        None => None,
    };
    let content_rating = match as_str(first_present(entry, &f.content_rating_keys())) {
        Some(t) => Some(ascii_upper_string(t.as_str())),
        None => None,
    };
    Attrs {
        country: code(entry, &f.country_keys()),
        original_language: code(entry, &f.original_language_keys()),
        spoken_language: code(entry, &f.spoken_language_keys()),
        genres: as_genres(first_present(entry, &f.genres_keys())),
        runtime,
        content_rating,
        status: code(entry, &f.status_keys()),
    }
}

/// The item one feed entry stands for.
pub fn feed_entry(entry: &Doc, index: usize, source: &JsonSource) -> (r: Option<Item>)
    ensures
        match feed_item(*entry, index as int, *source) {
            Some(v) => r matches Some(item) && item@ == v,
            None => r is None,
        },
{
    let f = &source.fields;
    let media_type = match as_str(first_present(entry, &f.media_type_keys())) {
        Some(t) => match MediaType::parse(t.as_str()) {
            Some(m) => m,
            None => source.media_type,
        },
        None => source.media_type,
    };
    let mut item = Item::new(media_type);
    item.ids.tmdb = as_u32(first_present(entry, &f.tmdb_keys()));
    item.ids.imdb = match as_str(first_present(entry, &f.imdb_keys())) {
        Some(t) => normalize_imdb(t.as_str()),
        None => None,
    };
    item.ids.tvdb = as_u32(first_present(entry, &f.tvdb_keys()));
    item.ids.trakt = as_u32(first_present(entry, &f.trakt_keys()));
    if item.ids.is_empty() {
        return None;
    }
    item.title = as_str(first_present(entry, &f.title_keys()));
    item.year = as_i32(first_present(entry, &f.year_keys()));
    item.released = as_date(first_present(entry, &f.released_keys()));
    item.rank = Some(rank_at(index));
    item.attrs = feed_attrs_of(entry, f);
    Some(item)
}

/// The items of a feed's response, in the order the feed gives them; an
/// entry with no id is skipped.
pub fn parse(document: &Doc, source: &JsonSource) -> (r: Result<Vec<Item>, String>)
    ensures
        match feed_spec(*document, *source) {
            Ok(items) => r matches Ok(v) && crate::cache::items_view(v@) == items,
            Err(m) => r matches Err(e) && e@ == m,
        },
{
    let array: &Doc = match &source.path {
        Some(path) => match dig(document, path.as_str()) {
            Some(found) => found,
            None => {
                let mut e = from_str("`");
                push_str(&mut e, path.as_str());
                push_str(&mut e, "` is not present in the response");
                return Err(e);
            },
        },
        None => document,
    };
    let entries = match array {
        Doc::List(entries) => entries,
        _ => {
            let mut e = from_str("expected a JSON array");
            match &source.path {
                Some(path) => {
                    push_str(&mut e, " at `");
                    push_str(&mut e, path.as_str());
                    push_str(&mut e, "`");
                },
                None => {},
            }
            push_str(&mut e, ", found ");
            push_str(&mut e, kind_of(array));
            proof {
                assert(Seq::<char>::empty() + ", found "@ =~= ", found "@);
            }
            return Err(e);
        },
    };
    let mut out: Vec<Item> = Vec::new();
    let mut i: usize = 0;
    while i < entries.len()
        invariant
            0 <= i <= entries@.len(),
            crate::cache::items_view(out@) == feed_items(entries@, i as int, *source),
        decreases entries.len() - i,
    {
        let ghost before = out@;
        match feed_entry(&entries[i], i, source) {
            Some(item) => {
                out.push(item);
                assert(crate::cache::items_view(out@) =~= crate::cache::items_view(before).push(out@[before.len() as int]@));
            },
            None => {},
        }
        i += 1;
    }
    Ok(out)
}


/// What to make of a feed's answer: a failed status is reported with the
/// feed's URL, a body that is not JSON likewise, and otherwise the items.
/// `status_text` is the status as it prints, such as `404 Not Found`.
pub fn read_response(status: u16, status_text: &str, body: &str, source: &JsonSource) -> (r: Result<Vec<Item>, String>)
    ensures
        !(200 <= status < 300) ==> (r matches Err(e) && e@ == source.url@ + " returned "@ + status_text@),
        (200 <= status < 300) ==> match json_document(body@) {
            Err(m) => r matches Err(e) && e@ == "parsing JSON from "@ + source.url@ + ": "@ + m,
            Ok(d) => match feed_spec(d, *source) {
                Ok(items) => r matches Ok(v) && crate::cache::items_view(v@) == items,
                Err(m) => r matches Err(e) && e@ == m,
            },
        },
{
    if !(200 <= status && status < 300) {
        let mut e = crate::text::clone_string(&source.url);
        push_str(&mut e, " returned ");
        push_str(&mut e, status_text);
        return Err(e);
    }
    match parse_json(body) {
        Ok(document) => parse(&document, source),
        Err(message) => {
            let mut e = from_str("parsing JSON from ");
            push_str(&mut e, source.url.as_str());
            push_str(&mut e, ": ");
            push_str(&mut e, message.as_str());
            Err(e)
        },
    }
}

} // verus!
