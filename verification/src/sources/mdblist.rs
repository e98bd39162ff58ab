//! MDBList lists, via `GET /lists/{…}/items`, and the attributes MDBList
//! reports for a title.
//!
//! The API pages with `limit`/`offset` and reports `X-Has-More`. Items come
//! back split into `movies` and `shows` (a flat array when `unified=true` is
//! used), and carry TMDb, IMDb and TVDb ids in both a flat and a nested form.

use vstd::prelude::*;

use super::arr::{trim_end_char, trim_end_slashes};
use super::json_url::{code_of, imdb_of};
use super::json_value::{
    as_date, as_genres, as_i32, as_str, as_u32, date_of, genres_of, i32_of, nonempty_pieces,
    opt_doc, split_nonempty, str_of, u32_of,
};
use super::static_list::{rank_at, rank_of};
use crate::config::model::{filter_admits, MdblistSource, MediaTypeFilter};
use crate::doc::{json_document, lookup, parse_json, Doc};
use crate::model::{
    media_type_word, no_attrs, normalize_code, normalize_imdb, ov, strings_view, Attrs, AttrsView,
    Item, ItemView, MediaIdsView, MediaType,
};
use crate::text::{
    ascii_upper, ascii_upper_string, decimal, fmt_u64, from_str, keyword, parse_u64,
    parse_u64_spec, push_str,
};

verus! {

pub const PAGE_SIZE: usize = 1000;

pub const MAX_PAGES: usize = 100;

/// Where a list lives, resolved from `list`, `list_id` or a pasted URL.
#[derive(Debug)]
pub enum Address {
    Named { user: String, list: String },
    Id(u64),
}

pub enum AddressView {
    Named(Seq<char>, Seq<char>),
    Id(u64),
}

impl View for Address {
    type V = AddressView;

    open spec fn view(&self) -> AddressView {
        match self {
            Address::Named { user, list } => AddressView::Named(user@, list@),
            Address::Id(id) => AddressView::Id(*id),
        }
    }
}

pub open spec fn address_path(a: AddressView) -> Seq<char> {
    match a {
        AddressView::Named(user, list) => "lists/"@ + user + "/"@ + list + "/items"@,
        AddressView::Id(id) => "lists/"@ + decimal(id as nat) + "/items"@,
    }
}

impl Address {
    pub fn path(&self) -> (r: String)
        ensures
            r@ == address_path(self@),
    {
        let mut out = from_str("lists/");
        match self {
            Address::Named { user, list } => {
                push_str(&mut out, user.as_str());
                push_str(&mut out, "/");
                push_str(&mut out, list.as_str());
            },
            Address::Id(id) => {
                let digits = fmt_u64(*id);
                push_str(&mut out, digits.as_str());
            },
        }
        push_str(&mut out, "/items");
        out
    }
}

/// `text` without any leading `c`.
pub open spec fn trim_start_char(text: Seq<char>, c: char) -> Seq<char>
    decreases text.len(),
{
    if text.len() > 0 && text[0] == c {
        trim_start_char(text.drop_first(), c)
    } else {
        text
    }
}

/// The position of the first `c` in `s`.
pub open spec fn first_of(s: Seq<char>, c: char) -> Option<int> {
    if exists|i: int| 0 <= i < s.len() && s[i] == c {
        Some(choose|i: int| 0 <= i < s.len() && s[i] == c && forall|j: int| 0 <= j < i ==> s[j] != c)
    } else {
        None
    }
}

fn find_first(v: &Vec<char>, c: char) -> (r: Option<usize>)
    ensures
        match r {
            Some(i) => i < v@.len() && first_of(v@, c) == Some(i as int),
            None => first_of(v@, c) is None,
        },
{
    let mut i: usize = 0;
    while i < v.len()
        invariant
            0 <= i <= v@.len(),
            forall|j: int| 0 <= j < i ==> v@[j] != c,
        decreases v.len() - i,
    {
        if v[i] == c {
            proof {
                let w = choose|w: int| 0 <= w < v@.len() && v@[w] == c && forall|j: int| 0 <= j < w ==> v@[j] != c;
                if w < i {
                } else if w > i {
                }
            }
            return Some(i);
        }
        i += 1;
    }
    None
}

/// `username/listname`, slashes around it ignored, split at its first `/`.
pub open spec fn named_address(list: Seq<char>) -> Result<AddressView, Seq<char>> {
    let t = trim_end_char(trim_start_char(list, '/'), '/');
    match first_of(t, '/') {
        Some(i) => Ok(AddressView::Named(t.take(i), t.skip(i + 1))),
        None => Err("`"@ + list + "` is not `username/listname`"@),
    }
}

/// The text before the first `?` or `#`.
pub open spec fn before_query(url: Seq<char>) -> Seq<char> {
    if exists|i: int| 0 <= i < url.len() && (url[i] == '?' || url[i] == '#') {
        url.take(
            choose|i: int|
                0 <= i < url.len() && (url[i] == '?' || url[i] == '#') && forall|j: int|
                    0 <= j < i ==> url[j] != '?' && url[j] != '#',
        )
    } else {
        url
    }
}

/// The position of the first segment that is `lists`.
pub open spec fn lists_at(segs: Seq<Seq<char>>) -> Option<int> {
    if exists|i: int| 0 <= i < segs.len() && segs[i] == "lists"@ {
        Some(
            choose|i: int|
                0 <= i < segs.len() && segs[i] == "lists"@ && forall|j: int| 0 <= j < i ==> segs[j] != "lists"@,
        )
    } else {
        None
    }
}

/// The segments that name the list: everything but a `json` or `items`
/// suffix.
pub open spec fn naming_segments(segs: Seq<Seq<char>>) -> Seq<Seq<char>>
    decreases segs.len(),
{
    if segs.len() == 0 {
        seq![]
    } else {
        let before = naming_segments(segs.drop_last());
        if segs.last() == "json"@ || segs.last() == "items"@ {
            before
        } else {
            before.push(segs.last())
        }
    }
}

/// Accepts `https://mdblist.com/lists/user/name`, with or without a
/// trailing `/json`, and the numeric form.
pub open spec fn url_address(url: Seq<char>) -> Result<AddressView, Seq<char>> {
    let segs = nonempty_pieces(before_query(url), '/');
    match lists_at(segs) {
        None => Err("`"@ + url + "` does not look like an MDBList list URL"@),
        Some(p) => {
            let rest = naming_segments(segs.skip(p + 1));
            if rest.len() == 1 {
                match parse_u64_spec(rest[0]) {
                    Some(id) => Ok(AddressView::Id(id)),
                    None => Err(
                        "`"@ + url + "` has no username/listname and `"@ + rest[0] + "` is not a list id"@,
                    ),
                }
            } else if rest.len() >= 2 {
                Ok(AddressView::Named(rest[0], rest[1]))
            } else {
                Err("`"@ + url + "` does not name a list"@)
            }
        },
    }
}

pub open spec fn address_spec(source: MdblistSource) -> Result<AddressView, Seq<char>> {
    match source.list_id {
        Some(id) => Ok(AddressView::Id(id)),
        None => match source.list {
            Some(l) => named_address(l@),
            None => match source.url {
                Some(u) => url_address(u@),
                None => Err("no `list`, `list_id` or `url` configured"@),
            },
        },
    }
}

fn trim_start_slashes(v: &Vec<char>) -> (r: usize)
    ensures
        r <= v@.len(),
        v@.skip(r as int) == trim_start_char(v@, '/'),
{
    let mut i: usize = 0;
    assert(v@.skip(0) =~= v@);
    while i < v.len() && v[i] == '/'
        invariant
            0 <= i <= v@.len(),
            trim_start_char(v@, '/') == trim_start_char(v@.skip(i as int), '/'),
        decreases v.len() - i,
    {
        assert(v@.skip(i as int).drop_first() =~= v@.skip(i + 1));
        i += 1;
    }
    i
}

fn address_of_list(list: &str) -> (r: Result<Address, String>)
    ensures
        match named_address(list@) {
            Ok(a) => r matches Ok(x) && x@ == a,
            Err(m) => r matches Err(e) && e@ == m,
        },
{
    let v = crate::text::chars_of(list);
    let start = trim_start_slashes(&v);
    let tail = crate::text::string_of_range(&v, start, v.len());
    assert(v@.subrange(start as int, v@.len() as int) =~= v@.skip(start as int));
    let trimmed = trim_end_slashes(tail.as_str());
    let t = crate::text::chars_of(trimmed.as_str());
    match find_first(&t, '/') {
        Some(i) => {
            assert(i < t.len());
            let user = crate::text::string_of_range(&t, 0, i);
            let name = crate::text::string_of_range(&t, i + 1, t.len());
            assert(t@.subrange(0, i as int) =~= t@.take(i as int));
            assert(t@.subrange(i + 1, t@.len() as int) =~= t@.skip(i + 1));
            Ok(Address::Named { user, list: name })
        },
        None => {
            let mut e = from_str("`");
            push_str(&mut e, list);
            push_str(&mut e, "` is not `username/listname`");
            Err(e)
        },
    }
}

fn text_before_query(url: &str) -> (r: String)
    ensures
        r@ == before_query(url@),
{
    let v = crate::text::chars_of(url);
    let mut i: usize = 0;
    while i < v.len() && v[i] != '?' && v[i] != '#'
        invariant
            0 <= i <= v@.len(),
            v@ == url@,
            forall|j: int| 0 <= j < i ==> v@[j] != '?' && v@[j] != '#',
        decreases v.len() - i,
    {
        i += 1;
    }
    proof {
        if i < v@.len() {
            let w = choose|w: int|
                0 <= w < v@.len() && (v@[w] == '?' || v@[w] == '#') && forall|j: int|
                    0 <= j < w ==> v@[j] != '?' && v@[j] != '#';
            if w < i {
            } else if w > i {
            }
        } else {
            assert(v@.take(i as int) =~= v@);
        }
    }
    let r = crate::text::string_of_range(&v, 0, i);
    assert(v@.subrange(0, i as int) =~= v@.take(i as int));
    r
}

pub fn address_from_url(url: &str) -> (r: Result<Address, String>)
    ensures
        match url_address(url@) {
            Ok(a) => r matches Ok(x) && x@ == a,
            Err(m) => r matches Err(e) && e@ == m,
        },
{
    let prefix = text_before_query(url);
    let segs = split_nonempty(prefix.as_str(), '/');
    let ghost sv = strings_view(segs@);
    let mut p: usize = 0;
    while p < segs.len() && !crate::text::str_eq(segs[p].as_str(), "lists")
        invariant
            0 <= p <= segs@.len(),
            sv == strings_view(segs@),
            forall|j: int| 0 <= j < p ==> sv[j] != "lists"@,
        decreases segs.len() - p,
    {
        p += 1;
    }
    if p == segs.len() {
        let mut e = from_str("`");
        push_str(&mut e, url);
        push_str(&mut e, "` does not look like an MDBList list URL");
        return Err(e);
    }
    proof {
        let w = choose|w: int| 0 <= w < sv.len() && sv[w] == "lists"@ && forall|j: int| 0 <= j < w ==> sv[j] != "lists"@;
        assert(sv[p as int] == "lists"@);
        if w < p {
        } else if w > p {
        }
    }
    let mut rest: Vec<String> = Vec::new();
    let mut k: usize = p + 1;
    assert(sv.skip(p + 1).take(0) =~= Seq::<Seq<char>>::empty());
    while k < segs.len()
        invariant
            p + 1 <= k <= segs@.len(),
            sv == strings_view(segs@),
            strings_view(rest@) == naming_segments(sv.skip(p + 1).take(k - (p + 1))),
        decreases segs.len() - k,
    {
        let ghost prefix_before = sv.skip(p + 1).take(k - (p + 1));
        assert(sv.skip(p + 1).take(k + 1 - (p + 1)) =~= prefix_before.push(sv[k as int]));
        assert(prefix_before.push(sv[k as int]).drop_last() =~= prefix_before);
        assert(sv[k as int] == segs@[k as int]@);
        if !crate::text::str_eq(segs[k].as_str(), "json") && !crate::text::str_eq(segs[k].as_str(), "items") {
            let ghost b = rest@;
            rest.push(crate::text::clone_string(&segs[k]));
            assert(strings_view(rest@) =~= strings_view(b).push(segs@[k as int]@));
        }
        k += 1;
    }
    assert(sv.skip(p + 1).take(segs@.len() - (p + 1)) =~= sv.skip(p + 1));
    if rest.len() == 1 {
        assert(strings_view(rest@)[0] == rest@[0]@);
        match parse_u64(rest[0].as_str()) {
            Some(id) => Ok(Address::Id(id)),
            None => {
                let mut e = from_str("`");
                push_str(&mut e, url);
                push_str(&mut e, "` has no username/listname and `");
                push_str(&mut e, rest[0].as_str());
                push_str(&mut e, "` is not a list id");
                Err(e)
            },
        }
    } else if rest.len() >= 2 {
        assert(strings_view(rest@)[0] == rest@[0]@);
        assert(strings_view(rest@)[1] == rest@[1]@);
        Ok(Address::Named { user: crate::text::clone_string(&rest[0]), list: crate::text::clone_string(&rest[1]) })
    } else {
        let mut e = from_str("`");
        push_str(&mut e, url);
        push_str(&mut e, "` does not name a list");
        Err(e)
    }
}

/// Where a list lives: its id, else its name, else its URL.
pub fn address(source: &MdblistSource) -> (r: Result<Address, String>)
    ensures
        match address_spec(*source) {
            Ok(a) => r matches Ok(x) && x@ == a,
            Err(m) => r matches Err(e) && e@ == m,
        },
{
    if let Some(id) = source.list_id {
        return Ok(Address::Id(id));
    }
    if let Some(list) = &source.list {
        return address_of_list(list.as_str());
    }
    if let Some(url) = &source.url {
        return address_from_url(url.as_str());
    }
    Err(from_str("no `list`, `list_id` or `url` configured"))
}

/// The endpoint a list's items are read from.
pub open spec fn list_url_spec(base_url: Seq<char>, a: AddressView) -> Seq<char> {
    trim_end_char(base_url, '/') + "/"@ + address_path(a)
}

pub fn list_url(base_url: &str, address: &Address) -> (r: String)
    ensures
        r@ == list_url_spec(base_url@, address@),
{
    let mut url = trim_end_slashes(base_url);
    push_str(&mut url, "/");
    let path = address.path();
    push_str(&mut url, path.as_str());
    url
}

/// At most `max` characters of `text`, with an ellipsis when cut.
pub open spec fn truncate_spec(text: Seq<char>, max: nat) -> Seq<char> {
    if text.len() <= max {
        text
    } else {
        text.take(max as int) + "…"@
    }
}

pub fn truncate(text: &str, max: usize) -> (r: String)
    ensures
        r@ == truncate_spec(text@, max as nat),
{
    let v = crate::text::chars_of(text);
    if v.len() <= max {
        return from_str(text);
    }
    let mut head = crate::text::string_of_range(&v, 0, max);
    assert(v@.subrange(0, max as int) =~= v@.take(max as int));
    push_str(&mut head, "…");
    head
}

} // verus!

verus! {

// ---------------------------------------------------------------------------
// Pages
// ---------------------------------------------------------------------------

/// What serde reports when a page has none of the shapes it may take.
pub open spec fn shapeless_message() -> Seq<char> {
    "data did not match any variant of untagged enum Page"@
}

/// An optional array field: absent is empty, an array is its entries,
/// anything else does not fit.
pub open spec fn array_field(d: Doc, key: Seq<char>) -> Option<Seq<Doc>> {
    match lookup(d, key) {
        None => Some(seq![]),
        Some(Doc::List(v)) => Some(v@),
        Some(_) => None,
    }
}

pub open spec fn hinted(values: Seq<Doc>, hint: Option<MediaType>) -> Seq<(Option<MediaType>, Doc)> {
    values.map_values(|v: Doc| (hint, v))
}

/// A page flattened to `(media type hint, raw item)` pairs; the hint is the
/// array the item came from, which an explicit `mediatype` field overrides.
/// MDBList reports failures as a JSON body with a 200 in some cases.
pub open spec fn page_spec(page: Doc) -> Result<Seq<(Option<MediaType>, Doc)>, Seq<char>> {
    match page {
        Doc::Table(_) => match lookup(page, "error"@) {
            Some(Doc::Text(e)) => Err("MDBList returned an error: "@ + e@),
            _ => match (array_field(page, "movies"@), array_field(page, "shows"@)) {
                (Some(m), Some(s)) => Ok(
                    hinted(m, Some(MediaType::Movie)) + hinted(s, Some(MediaType::Show)),
                ),
                _ => Err(shapeless_message()),
            },
        },
        Doc::List(values) => Ok(hinted(values@, None)),
        _ => Err(shapeless_message()),
    }
}

pub open spec fn entry_refs(r: Seq<(Option<MediaType>, &Doc)>) -> Seq<(Option<MediaType>, Doc)> {
    r.map_values(|e: (Option<MediaType>, &Doc)| (e.0, *e.1))
}

fn push_hinted<'a>(out: &mut Vec<(Option<MediaType>, &'a Doc)>, values: &'a Vec<Doc>, hint: Option<MediaType>)
    ensures
        entry_refs(final(out)@) == entry_refs(old(out)@) + hinted(values@, hint),
{
    let ghost start = entry_refs(out@);
    let mut i: usize = 0;
    while i < values.len()
        invariant
            0 <= i <= values@.len(),
            entry_refs(out@) == start + hinted(values@.take(i as int), hint),
        decreases values.len() - i,
    {
        let ghost prev = out@;
        out.push((hint, &values[i]));
        assert(entry_refs(out@) =~= entry_refs(prev).push((hint, values@[i as int])));
        assert(hinted(values@.take(i + 1), hint) =~= hinted(values@.take(i as int), hint).push((hint, values@[i as int])));
        assert(entry_refs(out@) =~= start + hinted(values@.take(i + 1), hint));
        i += 1;
    }
    assert(values@.take(values@.len() as int) =~= values@);
}

/// The raw items of a page, with the media type each one's array implies.
pub fn into_items(page: &Doc) -> (r: Result<Vec<(Option<MediaType>, &Doc)>, String>)
    ensures
        match page_spec(*page) {
            Ok(items) => r matches Ok(v) && entry_refs(v@) == items,
            Err(m) => r matches Err(e) && e@ == m,
        },
{
    let mut out: Vec<(Option<MediaType>, &Doc)> = Vec::new();
    assert(entry_refs(out@) =~= Seq::<(Option<MediaType>, Doc)>::empty());
    match page {
        Doc::Table(_) => {
            if let Some(Doc::Text(e)) = page.get("error") {
                let mut m = from_str("MDBList returned an error: ");
                push_str(&mut m, e.as_str());
                return Err(m);
            }
            let movies: Option<&Vec<Doc>> = match page.get("movies") {
                None => None,
                Some(Doc::List(v)) => Some(v),
                Some(_) => return Err(from_str("data did not match any variant of untagged enum Page")),
            };
            let shows: Option<&Vec<Doc>> = match page.get("shows") {
                None => None,
                Some(Doc::List(v)) => Some(v),
                Some(_) => return Err(from_str("data did not match any variant of untagged enum Page")),
            };
            if let Some(v) = movies {
                push_hinted(&mut out, v, Some(MediaType::Movie));
            }
            if let Some(v) = shows {
                push_hinted(&mut out, v, Some(MediaType::Show));
            }
            proof {
                assert(hinted(Seq::<Doc>::empty(), Some(MediaType::Movie)) =~= Seq::<(Option<MediaType>, Doc)>::empty());
                assert(hinted(Seq::<Doc>::empty(), Some(MediaType::Show)) =~= Seq::<(Option<MediaType>, Doc)>::empty());
                assert(entry_refs(out@) =~= match page_spec(*page) { Ok(x) => x, Err(_) => seq![] });
            }
            Ok(out)
        },
        Doc::List(values) => {
            push_hinted(&mut out, values, None);
            assert(entry_refs(out@) =~= hinted(values@, None));
            Ok(out)
        },
        _ => Err(from_str("data did not match any variant of untagged enum Page")),
    }
}

// ---------------------------------------------------------------------------
// Items
// ---------------------------------------------------------------------------

pub open spec fn nested(raw: Doc, key: Seq<char>) -> Option<Doc> {
    match lookup(raw, "ids"@) {
        Some(ids) => lookup(ids, key),
        None => None,
    }
}

pub open spec fn either<T>(a: Option<T>, b: Option<T>) -> Option<T> {
    match a {
        Some(x) => Some(x),
        None => b,
    }
}

/// The item one list entry stands for; `None` without a media type or
/// without any id. Nested ids win over flat ones.
pub open spec fn convert_spec(hint: Option<MediaType>, raw: Doc, position: int) -> Option<ItemView> {
    let media_type = either(
        match str_of(lookup(raw, "mediatype"@)) {
            Some(t) => media_type_word(keyword(t)),
            None => None,
        },
        hint,
    );
    let ids = MediaIdsView {
        tmdb: either(u32_of(nested(raw, "tmdb"@)), u32_of(lookup(raw, "id"@))),
        imdb: match either(str_of(nested(raw, "imdb"@)), str_of(lookup(raw, "imdb_id"@))) {
            Some(t) => crate::model::normalize_imdb_spec(t),
            None => None,
        },
        tvdb: either(u32_of(nested(raw, "tvdb"@)), u32_of(lookup(raw, "tvdb_id"@))),
        trakt: either(u32_of(nested(raw, "trakt"@)), u32_of(lookup(raw, "traktid"@))),
    };
    match media_type {
        None => None,
        Some(m) => if ids.is_empty() {
            None
        } else {
            Some(
                ItemView {
                    media_type: m,
                    ids,
                    title: str_of(lookup(raw, "title"@)),
                    year: either(i32_of(lookup(raw, "release_year"@)), i32_of(lookup(raw, "year"@))),
                    released: date_of(lookup(raw, "released"@)),
                    rank: Some(
                        match u32_of(lookup(raw, "rank"@)) {
                            Some(r) => r,
                            None => rank_of(position),
                        },
                    ),
                    attrs: no_attrs(),
                },
            )
        },
    }
}

fn nested_get<'a>(raw: &'a Doc, key: &str) -> (r: Option<&'a Doc>)
    ensures
        opt_doc(r) == nested(*raw, key@),
{
    match raw.get("ids") {
        Some(ids) => ids.get(key),
        None => None,
    }
}

/// The rank of the entry at `base + i`, without computing the sum.
fn rank_after(base: usize, i: usize) -> (r: u32)
    ensures
        r == rank_of(base + i),
{
    let m: u64 = 0x1_0000_0000;
    let a = (base as u64) % m;
    let b = (i as u64) % m;
    let r = (a + b + 1) % m;
    proof {
        vstd::arithmetic::div_mod::lemma_add_mod_noop(base as int, i as int, m as int);
        vstd::arithmetic::div_mod::lemma_add_mod_noop(base + i, 1, m as int);
        vstd::arithmetic::div_mod::lemma_add_mod_noop(a + b, 1, m as int);
        assert(1int % (m as int) == 1);
    }
    r as u32
}

/// An MDBList entry read with a media type converts to an item that keeps
/// each numeric id it carries: TMDb from `ids.tmdb`, else from `id`; TVDb
/// from `ids.tvdb`, else from `tvdb_id`; Trakt from `ids.trakt`, else from
/// `traktid`. A nested id wins over the flat one.
pub proof fn lemma_convert_keeps_numeric_ids(hint: Option<MediaType>, raw: Doc, position: int, n: u32)
    requires
        hint is Some,
    ensures
        u32_of(nested(raw, "tvdb"@)) == Some(n) ==> (convert_spec(hint, raw, position) matches Some(it)
            && it.ids.tvdb == Some(n)),
        u32_of(nested(raw, "tvdb"@)) is None && u32_of(lookup(raw, "tvdb_id"@)) == Some(n) ==> (convert_spec(
            hint,
            raw,
            position,
        ) matches Some(it) && it.ids.tvdb == Some(n)),
        u32_of(nested(raw, "tmdb"@)) == Some(n) ==> (convert_spec(hint, raw, position) matches Some(it)
            && it.ids.tmdb == Some(n)),
        u32_of(nested(raw, "tmdb"@)) is None && u32_of(lookup(raw, "id"@)) == Some(n) ==> (convert_spec(
            hint,
            raw,
            position,
        ) matches Some(it) && it.ids.tmdb == Some(n)),
        u32_of(nested(raw, "trakt"@)) == Some(n) ==> (convert_spec(hint, raw, position) matches Some(it)
            && it.ids.trakt == Some(n)),
        u32_of(nested(raw, "trakt"@)) is None && u32_of(lookup(raw, "traktid"@)) == Some(n) ==> (convert_spec(
            hint,
            raw,
            position,
        ) matches Some(it) && it.ids.trakt == Some(n)),
{
}

/// A JSON number that fits in 32 bits is read as that id.
pub proof fn lemma_number_id(x: crate::doc::Number, u: u64)
    requires
        x.unsigned == Some(u),
        u <= u32::MAX,
    ensures
        u32_of(Some(Doc::Number(x))) == Some(u as u32),
{
}

/// An entry whose `mediatype` is `movie` or `show` is read as that media
/// type, whatever the hint, as long as it carries a numeric id.
pub proof fn lemma_convert_media_type(hint: Option<MediaType>, raw: Doc, position: int, t: Seq<char>, n: u32)
    requires
        lookup(raw, "mediatype"@) matches Some(Doc::Text(s)) && s@ == t,
        t == "movie"@ || t == "show"@,
        u32_of(nested(raw, "tvdb"@)) == Some(n) || u32_of(nested(raw, "tmdb"@)) == Some(n),
    ensures
        convert_spec(hint, raw, position) matches Some(it) && it.media_type == (if t == "show"@ {
            MediaType::Show
        } else {
            MediaType::Movie
        }),
{
    reveal_strlit("movie");
    reveal_strlit("movies");
    reveal_strlit("film");
    reveal_strlit("feature");
    reveal_strlit("show");
    crate::text::lemma_plain_word_is_keyword(t);
    assert(str_of(lookup(raw, "mediatype"@)) == Some(t));
    assert(keyword(t) == t);
    if t == "show"@ {
        assert(t != "movie"@ && t != "movies"@ && t != "film"@ && t != "feature"@);
        assert(media_type_word(t) == Some(MediaType::Show));
    } else {
        assert(media_type_word(t) == Some(MediaType::Movie));
    }
}

pub fn convert(hint: Option<MediaType>, raw: &Doc, position: usize) -> (r: Option<Item>)
    ensures
        match convert_spec(hint, *raw, position as int) {
            Some(v) => r matches Some(item) && item@ == v,
            None => r is None,
        },
{
    convert_ranked(hint, raw, rank_at(position), Ghost(position as int))
}

fn convert_ranked(hint: Option<MediaType>, raw: &Doc, fallback: u32, position: Ghost<int>) -> (r: Option<Item>)
    requires
        fallback == rank_of(position@),
    ensures
        match convert_spec(hint, *raw, position@) {
            Some(v) => r matches Some(item) && item@ == v,
            None => r is None,
        },
{
    let explicit = match as_str(raw.get("mediatype")) {
        Some(t) => MediaType::parse(t.as_str()),
        None => None,
    };
    let media_type = match explicit {
        Some(m) => m,
        None => match hint {
            Some(m) => m,
            None => return None,
        },
    };
    let mut item = Item::new(media_type);
    item.ids.tmdb = match as_u32(nested_get(raw, "tmdb")) {
        Some(n) => Some(n),
        None => as_u32(raw.get("id")),
    };
    let imdb = match as_str(nested_get(raw, "imdb")) {
        Some(t) => Some(t),
        None => as_str(raw.get("imdb_id")),
    };
    item.ids.imdb = match imdb {
        Some(t) => normalize_imdb(t.as_str()),
        None => None,
    };
    item.ids.tvdb = match as_u32(nested_get(raw, "tvdb")) {
        Some(n) => Some(n),
        None => as_u32(raw.get("tvdb_id")),
    };
    item.ids.trakt = match as_u32(nested_get(raw, "trakt")) {
        Some(n) => Some(n),
        None => as_u32(raw.get("traktid")),
    };
    if item.ids.is_empty() {
        return None;
    }
    item.title = as_str(raw.get("title"));
    item.year = match as_i32(raw.get("release_year")) {
        Some(y) => Some(y),
        None => as_i32(raw.get("year")),
    };
    item.released = as_date(raw.get("released"));
    item.rank = Some(
        match as_u32(raw.get("rank")) {
            Some(r) => r,
            None => fallback,
        },
    );
    Some(item)
}

/// What MDBList's media-info answer says about a title's descriptive
/// attributes.
pub open spec fn attrs_spec(raw: Doc) -> AttrsView {
    AttrsView {
        country: code_of(lookup(raw, "country"@)),
        original_language: code_of(lookup(raw, "language"@)),
        spoken_language: code_of(lookup(raw, "spoken_language"@)),
        genres: genres_of(lookup(raw, "genres"@)),
        runtime: match u32_of(lookup(raw, "runtime"@)) {
            Some(m) => if m > 0 {
                Some(m)
            } else {
                None
            },
            None => None,
        },
        content_rating: match str_of(lookup(raw, "certification"@)) {
            Some(t) => Some(ascii_upper(t)),
            None => None,
        },
        status: code_of(lookup(raw, "status"@)),
    }
}

fn code_at(raw: &Doc, key: &str) -> (r: Option<String>)
    ensures
        ov(r) == code_of(lookup(*raw, key@)),
{
    match as_str(raw.get(key)) {
        Some(t) => normalize_code(t.as_str()),
        None => None,
    }
}

pub fn attrs_from_json(raw: &Doc) -> (r: Attrs)
    ensures
        r@ == attrs_spec(*raw),
{
    let runtime = match as_u32(raw.get("runtime")) {
        Some(m) => if m > 0 {
            Some(m)
        } else {
            None
        },
        None => None,
    };
    let content_rating = match as_str(raw.get("certification")) {
        Some(t) => Some(ascii_upper_string(t.as_str())),
        None => None,
    };
    Attrs {
        country: code_at(raw, "country"),
        original_language: code_at(raw, "language"),
        spoken_language: code_at(raw, "spoken_language"),
        genres: as_genres(raw.get("genres")),
        runtime,
        content_rating,
        status: code_at(raw, "status"),
    }
}

// ---------------------------------------------------------------------------
// Paging
// ---------------------------------------------------------------------------

/// The items of a page, converted with positions counted from `base`.
pub open spec fn converted(entries: Seq<(Option<MediaType>, Doc)>, base: int) -> Seq<ItemView>
    decreases entries.len(),
{
    if entries.len() == 0 {
        seq![]
    } else {
        let before = converted(entries.drop_last(), base);
        match convert_spec(entries.last().0, entries.last().1, base + entries.len() - 1) {
            Some(item) => before.push(item),
            None => before,
        }
    }
}

/// The paging of one list fetch: which page to ask for next, and when to
/// stop. The caller makes the requests and hands each page back.
#[derive(Debug)]
pub struct Pager {
    wanted: usize,
    items: Vec<Item>,
    offset: usize,
    pages: usize,
    done: bool,
}

pub open spec fn page_size_spec(wanted: nat, have: nat) -> nat {
    let room = if wanted > have {
        (wanted - have) as nat
    } else {
        0
    };
    if room < PAGE_SIZE {
        room
    } else {
        PAGE_SIZE as nat
    }
}

impl Pager {
    /// A fetch of at most `limit` items, or of the whole list.
    pub fn new(limit: Option<usize>) -> (r: Pager)
        ensures
            r.wanted_count() == match limit {
                Some(n) => n,
                None => usize::MAX,
            },
            r.fetched().len() == 0,
            r.next_offset() == 0,
            r.pages_read() == 0,
            !r.finished(),
    {
        Pager {
            wanted: match limit {
                Some(n) => n,
                None => usize::MAX,
            },
            items: Vec::new(),
            offset: 0,
            pages: 0,
            done: false,
        }
    }

    pub closed spec fn wanted_count(&self) -> nat {
        self.wanted as nat
    }

    pub closed spec fn fetched(&self) -> Seq<ItemView> {
        crate::cache::items_view(self.items@)
    }

    pub closed spec fn next_offset(&self) -> nat {
        self.offset as nat
    }

    pub closed spec fn pages_read(&self) -> nat {
        self.pages as nat
    }

    pub closed spec fn finished(&self) -> bool {
        self.done
    }

    /// The next page to ask for, as `(limit, offset)`; `None` once the list
    /// is complete, the limit is reached or the page cap is hit.
    pub fn next_request(&self) -> (r: Option<(usize, usize)>)
        ensures
            r is None <==> (self.finished() || self.pages_read() >= MAX_PAGES || page_size_spec(
                self.wanted_count(),
                self.fetched().len(),
            ) == 0),
            r matches Some((size, offset)) ==> size == page_size_spec(
                self.wanted_count(),
                self.fetched().len(),
            ) && offset == self.next_offset(),
    {
        if self.done || self.pages >= MAX_PAGES {
            return None;
        }
        let have = self.items.len();
        let room = if self.wanted > have {
            self.wanted - have
        } else {
            0
        };
        let size = if room < PAGE_SIZE {
            room
        } else {
            PAGE_SIZE
        };
        if size == 0 {
            None
        } else {
            Some((size, self.offset))
        }
    }

    /// Take in the page asked for with `page_size`: its items, converted,
    /// are appended, and the fetch stops on a short page or when the server
    /// says there is no more.
    pub fn absorb(&mut self, entries: &Vec<(Option<MediaType>, &Doc)>, page_size: usize, has_more: Option<bool>)
        ensures
            final(self).wanted_count() == old(self).wanted_count(),
            final(self).fetched() == old(self).fetched() + converted(
                entry_refs(entries@),
                old(self).fetched().len() as int,
            ),
            final(self).pages_read() == old(self).pages_read() + 1 || old(self).pages_read() == usize::MAX,
            final(self).finished() == (old(self).finished() || entries@.len() < page_size || has_more
                == Some(false)),
            !final(self).finished() ==> final(self).next_offset() == if old(self).next_offset() + entries@.len() <= usize::MAX {
                old(self).next_offset() + entries@.len()
            } else {
                usize::MAX as nat
            },
    {
        let base = self.items.len();
        let ghost start = crate::cache::items_view(self.items@);
        let ghost refs = entry_refs(entries@);
        let mut i: usize = 0;
        while i < entries.len()
            invariant
                0 <= i <= entries@.len(),
                base == start.len(),
                refs == entry_refs(entries@),
                self.wanted == old(self).wanted,
                self.pages == old(self).pages,
                self.done == old(self).done,
                self.offset == old(self).offset,
                crate::cache::items_view(self.items@) == start + converted(refs.take(i as int), base as int),
            decreases entries.len() - i,
        {
            let (hint, raw) = entries[i];
            assert(refs.take(i + 1).drop_last() =~= refs.take(i as int));
            assert(refs.take(i + 1).last() == (hint, *raw));
            let ghost before = crate::cache::items_view(self.items@);
            match convert_ranked(hint, raw, rank_after(base, i), Ghost(base + i)) {
                Some(item) => {
                    self.items.push(item);
                    assert(crate::cache::items_view(self.items@) =~= before.push(self.items@[self.items@.len() - 1]@));
                },
                None => {},
            }
            i += 1;
        }
        assert(refs.take(entries@.len() as int) =~= refs);
        if self.pages < usize::MAX {
            self.pages = self.pages + 1;
        }
        if entries.len() < page_size || has_more == Some(false) {
            self.done = true;
        } else {
            self.offset = self.offset.saturating_add(entries.len());
        }
    }

    /// The items fetched, narrowed to one media type when the source asks
    /// for one.
    pub fn finish(self, filter: MediaTypeFilter) -> (r: Vec<Item>)
        ensures
            crate::cache::items_view(r@) == self.fetched().filter(
                |item: ItemView| filter_admits(filter, item.media_type),
            ),
    {
        let ghost all = crate::cache::items_view(self.items@);
        let ghost pred = |item: ItemView| filter_admits(filter, item.media_type);
        let mut out: Vec<Item> = Vec::new();
        let mut rest = self.items;
        let mut i: usize = 0;
        let ghost src = rest@;
        assert(src.len() == rest.len());
        assert(src.skip(0) =~= src);
        assert(all.take(0).filter(pred) =~= Seq::<ItemView>::empty());
        while rest.len() > 0
            invariant
                src.len() <= usize::MAX,
                all == crate::cache::items_view(src),
                i + rest@.len() == src.len(),
                rest@ == src.skip(i as int),
                crate::cache::items_view(out@) == all.take(i as int).filter(pred),
                forall|x: ItemView| #[trigger] pred(x) == filter_admits(filter, x.media_type),
            decreases rest.len(),
        {
            assert(rest@[0] == src[i as int]);
            let item = rest.remove(0);
            assert(all.take(i + 1) =~= all.take(i as int).push(item@));
            proof {
                all.take(i as int).lemma_filter_push(item@, pred);
            }
            if filter.matches(item.media_type) {
                let ghost before = out@;
                out.push(item);
                assert(crate::cache::items_view(out@) =~= crate::cache::items_view(before).push(out@[before.len() as int]@));
            }
            i += 1;
            assert(rest@ =~= src.skip(i as int));
        }
        assert(all.take(i as int) =~= all);
        out
    }
}

} // verus!

verus! {

/// An answer that is not a success, as the fetch reports it.
pub open spec fn status_message(status: Seq<char>, url: Seq<char>, body: Seq<char>) -> Seq<char> {
    "MDBList returned "@ + status + " for "@ + url + ": "@ + truncate_spec(body, 300)
}

pub fn status_error(status: &str, url: &str, body: &str) -> (r: String)
    ensures
        r@ == status_message(status@, url@, body@),
{
    let mut e = from_str("MDBList returned ");
    push_str(&mut e, status);
    push_str(&mut e, " for ");
    push_str(&mut e, url);
    push_str(&mut e, ": ");
    let cut = truncate(body, 300);
    push_str(&mut e, cut.as_str());
    e
}

/// Whether a page's answer is worth reading: a 2xx status is, any other is
/// the error `status_error` words.
pub fn check_status(code: u16, status: &str, url: &str, body: &str) -> (r: Result<(), String>)
    ensures
        200 <= code < 300 ==> r is Ok,
        !(200 <= code < 300) ==> (r matches Err(e) && e@ == status_message(status@, url@, body@)),
{
    if 200 <= code && code < 300 {
        Ok(())
    } else {
        Err(status_error(status, url, body))
    }
}

/// A response body as a document; a body that is not JSON is reported with
/// its beginning.
pub fn read_page(body: &str) -> (r: Result<Doc, String>)
    ensures
        match json_document(body@) {
            Ok(d) => r == Ok::<Doc, String>(d),
            Err(m) => r matches Err(e) && e@ == "parsing MDBList response: "@ + truncate_spec(body@, 300) + ": "@ + m,
        },
{
    match parse_json(body) {
        Ok(d) => Ok(d),
        Err(m) => {
            let mut e = from_str("parsing MDBList response: ");
            let cut = truncate(body, 300);
            push_str(&mut e, cut.as_str());
            push_str(&mut e, ": ");
            push_str(&mut e, m.as_str());
            Err(e)
        },
    }
}


/// `X-Has-More`, as the fetch reads it: `true` in any letter case means
/// more pages follow, any other value means none do, and no header leaves
/// the question open.
pub fn has_more(header: Option<&str>) -> (r: Option<bool>)
    ensures
        match header {
            None => r is None,
            Some(h) => r == Some(crate::text::ascii_lower(h@) == "true"@),
        },
{
    match header {
        None => None,
        Some(h) => {
            let v = crate::text::chars_of(h);
            let low = crate::text::ascii_lower_chars(&v);
            Some(crate::model::is_word(&low, "true"))
        },
    }
}

} // verus!
