//! What a Radarr or Sonarr instance already has, as a set.
//!
//! This is what makes "everything trending that I do not already have" a
//! one-line expression.

use vstd::prelude::*;

use super::json_value::{as_date, as_i32, as_str, as_u32, date_of, i32_of, opt_doc, str_of, u32_of};
use super::json_url::imdb_of;
use crate::config::model::ArrSource;
use crate::doc::{lookup, parse_json, json_document, Doc};
use crate::model::{media_type_text, no_attrs, normalize_imdb, ItemView, Item, MediaIdsView, MediaType};
use crate::text::{from_str, push_str, trim_end};

verus! {

/// The API resource a media type is listed under.
pub open spec fn resource_text(m: MediaType) -> Seq<char> {
    match m {
        MediaType::Movie => "movie"@,
        MediaType::Show => "series"@,
    }
}

/// `text` without any trailing `c`.
pub open spec fn trim_end_char(text: Seq<char>, c: char) -> Seq<char>
    decreases text.len(),
{
    if text.len() > 0 && text.last() == c {
        trim_end_char(text.drop_last(), c)
    } else {
        text
    }
}

pub fn trim_end_slashes(text: &str) -> (r: String)
    ensures
        r@ == trim_end_char(text@, '/'),
{
    let chars = crate::text::chars_of(text);
    let mut end: usize = chars.len();
    assert(chars@.take(end as int) =~= chars@);
    while end > 0 && chars[end - 1] == '/'
        invariant
            0 <= end <= chars@.len(),
            trim_end_char(text@, '/') == trim_end_char(chars@.take(end as int), '/'),
            chars@ == text@,
        decreases end,
    {
        assert(chars@.take(end as int).drop_last() =~= chars@.take(end - 1));
        end -= 1;
    }
    assert(chars@.take(0) =~= Seq::<char>::empty());
    assert(chars@.subrange(0, end as int) =~= chars@.take(end as int));
    crate::text::string_of_range(&chars, 0, end)
}

/// Where an instance lists what it has.
pub open spec fn arr_url_spec(source: ArrSource, m: MediaType) -> Seq<char> {
    trim_end_char(source.url@, '/') + "/api/v3/"@ + resource_text(m)
}

pub fn arr_url(source: &ArrSource, media_type: MediaType) -> (r: String)
    ensures
        r@ == arr_url_spec(*source, media_type),
{
    let mut url = trim_end_slashes(source.url.as_str());
    push_str(&mut url, "/api/v3/");
    push_str(
        &mut url,
        match media_type {
            MediaType::Movie => "movie",
            MediaType::Show => "series",
        },
    );
    url
}

pub open spec fn monitored(entry: Doc) -> bool {
    lookup(entry, "monitored"@) == Some(Doc::Bool(true))
}

/// The item one resource stands for; `None` for one with no id.
pub open spec fn arr_item(entry: Doc, m: MediaType) -> Option<ItemView> {
    let ids = MediaIdsView {
        tmdb: u32_of(lookup(entry, "tmdbId"@)),
        imdb: imdb_of(lookup(entry, "imdbId"@)),
        tvdb: u32_of(lookup(entry, "tvdbId"@)),
        trakt: None,
    };
    if ids.is_empty() {
        None
    } else {
        Some(
            ItemView {
                media_type: m,
                ids,
                title: str_of(lookup(entry, "title"@)),
                year: i32_of(lookup(entry, "year"@)),
                released: match date_of(lookup(entry, "inCinemas"@)) {
                    Some(d) => Some(d),
                    None => date_of(lookup(entry, "firstAired"@)),
                },
                rank: None,
                attrs: no_attrs(),
            },
        )
    }
}

pub open spec fn arr_items(entries: Seq<Doc>, source: ArrSource, m: MediaType) -> Seq<ItemView>
    decreases entries.len(),
{
    if entries.len() == 0 {
        seq![]
    } else {
        let before = arr_items(entries.drop_last(), source, m);
        let e = entries.last();
        if source.monitored_only && !monitored(e) {
            before
        } else {
            match arr_item(e, m) {
                Some(item) => before.push(item),
                None => before,
            }
        }
    }
}

pub open spec fn arr_spec(document: Doc, source: ArrSource, m: MediaType) -> Result<Seq<ItemView>, Seq<char>> {
    match document {
        Doc::List(entries) => Ok(arr_items(entries@, source, m)),
        _ => Err("expected a JSON array of "@ + media_type_text(m) + " resources"@),
    }
}

fn arr_entry(entry: &Doc, media_type: MediaType) -> (r: Option<Item>)
    ensures
        match arr_item(*entry, media_type) {
            Some(v) => r matches Some(item) && item@ == v,
            None => r is None,
        },
{
    let mut item = Item::new(media_type);
    item.ids.tmdb = as_u32(entry.get("tmdbId"));
    item.ids.imdb = match as_str(entry.get("imdbId")) {
        Some(t) => normalize_imdb(t.as_str()),
        None => None,
    };
    item.ids.tvdb = as_u32(entry.get("tvdbId"));
    if item.ids.is_empty() {
        return None;
    }
    item.title = as_str(entry.get("title"));
    item.year = as_i32(entry.get("year"));
    item.released = match as_date(entry.get("inCinemas")) {
        Some(d) => Some(d),
        None => as_date(entry.get("firstAired")),
    };
    Some(item)
}

/// What an instance lists, as items; only monitored ones when the source
/// asks for that.
pub fn parse(document: &Doc, source: &ArrSource, media_type: MediaType) -> (r: Result<Vec<Item>, String>)
    ensures
        match arr_spec(*document, *source, media_type) {
            Ok(items) => r matches Ok(v) && crate::cache::items_view(v@) == items,
            Err(m) => r matches Err(e) && e@ == m,
        },
{
    let entries = match document {
        Doc::List(entries) => entries,
        _ => {
            let mut e = from_str("expected a JSON array of ");
            push_str(&mut e, media_type.as_str());
            push_str(&mut e, " resources");
            return Err(e);
        },
    };
    let mut out: Vec<Item> = Vec::new();
    let mut i: usize = 0;
    while i < entries.len()
        invariant
            0 <= i <= entries@.len(),
            crate::cache::items_view(out@) == arr_items(entries@.take(i as int), *source, media_type),
        decreases entries.len() - i,
    {
        assert(entries@.take(i + 1).drop_last() =~= entries@.take(i as int));
        assert(entries@.take(i + 1).last() == entries@[i as int]);
        let entry = &entries[i];
        let wanted = !source.monitored_only || match entry.get("monitored") {
            Some(Doc::Bool(b)) => *b,
            _ => false,
        };
        if wanted {
            let ghost before = out@;
            match arr_entry(entry, media_type) {
                Some(item) => {
                    out.push(item);
                    assert(crate::cache::items_view(out@) =~= crate::cache::items_view(before).push(out@[before.len() as int]@));
                },
                None => {},
            }
        }
        i += 1;
    }
    assert(entries@.take(entries@.len() as int) =~= entries@);
    Ok(out)
}

/// What to make of an instance's response: its body as a document, then
/// the items. `url` names the request in messages.
pub fn read_response(body: &str, url: &str, source: &ArrSource, media_type: MediaType) -> (r: Result<Vec<Item>, String>)
    ensures
        match json_document(body@) {
            Err(m) => r matches Err(e) && e@ == "parsing JSON from "@ + url@ + ": "@ + m,
            Ok(d) => match arr_spec(d, *source, media_type) {
                Ok(items) => r matches Ok(v) && crate::cache::items_view(v@) == items,
                Err(m) => r matches Err(e) && e@ == m,
            },
        },
{
    match parse_json(body) {
        Ok(document) => parse(&document, source, media_type),
        Err(message) => {
            let mut e = from_str("parsing JSON from ");
            push_str(&mut e, url);
            push_str(&mut e, ": ");
            push_str(&mut e, message.as_str());
            Err(e)
        },
    }
}


/// How an instance's status line is judged: a refused key and any other
/// failure are told apart.
pub open spec fn arr_status_spec(status: u16, status_text: Seq<char>, url: Seq<char>) -> Result<(), Seq<char>> {
    if status == 401 {
        Err(url + " rejected the API key"@)
    } else if !(200 <= status < 300) {
        Err(url + " returned "@ + status_text)
    } else {
        Ok(())
    }
}

/// Whether an instance's answer is worth reading. `status_text` is the
/// status as it prints, such as `404 Not Found`.
pub fn check_status(status: u16, status_text: &str, url: &str) -> (r: Result<(), String>)
    ensures
        match arr_status_spec(status, status_text@, url@) {
            Ok(()) => r is Ok,
            Err(m) => r matches Err(e) && e@ == m,
        },
{
    if status == 401 {
        let mut e = from_str(url);
        push_str(&mut e, " rejected the API key");
        return Err(e);
    }
    if !(200 <= status && status < 300) {
        let mut e = from_str(url);
        push_str(&mut e, " returned ");
        push_str(&mut e, status_text);
        return Err(e);
    }
    Ok(())
}

} // verus!
