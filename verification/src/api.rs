//! What the HTTP surface answers: the query a request carries, and one
//! renderer per consumer. Serving, routing and JSON encoding are the
//! caller's part.

use vstd::prelude::*;

use crate::config::model::{
    filter_media_type, filter_text, filter_word, lemma_text_lt_irreflexive, lemma_text_lt_total,
    lemma_text_lt_trans, text_less, text_lt, MediaTypeFilter,
};
use crate::clock::Stamp;
use crate::model::{media_type_text, ov, Item, ItemView, MediaType};
use crate::text::{
    clone_string, decimal, fmt_i64, fmt_u64, from_str, keyword, keyword_of, push_char, push_str,
    signed_decimal, str_eq, trim,
};

verus! {

/// The version reported by the API and written into generated files.
pub const VERSION: &'static str = "0.1.0";

/// The encoding a consumer asks for with `?format=`.
#[derive(Debug, Clone, Copy, PartialEq, Eq, Structural)]
pub enum OutputFormat {
    /// The normalized items themselves - the default, and what a human reads.
    Json,
    Radarr,
    Sonarr,
    /// A Kometa collection file naming the items by id.
    Kometa,
    /// Kometa's Text File builder, as lines.
    KometaText,
    /// Kometa's Text File builder, as the JSON list it also accepts.
    KometaJson,
}

/// `_` and `-` mean the same in a format's name.
pub open spec fn dashed(s: Seq<char>) -> Seq<char> {
    Seq::new(s.len(), |i: int| if s[i] == '_' { '-' } else { s[i] })
}

pub open spec fn format_word(raw: Seq<char>) -> Option<OutputFormat> {
    let k = dashed(keyword(raw));
    if k == "json"@ {
        Some(OutputFormat::Json)
    } else if k == "radarr"@ {
        Some(OutputFormat::Radarr)
    } else if k == "sonarr"@ {
        Some(OutputFormat::Sonarr)
    } else if k == "kometa"@ {
        Some(OutputFormat::Kometa)
    } else if k == "kometa-text"@ {
        Some(OutputFormat::KometaText)
    } else if k == "kometa-json"@ {
        Some(OutputFormat::KometaJson)
    } else {
        None
    }
}

pub open spec fn format_text(f: OutputFormat) -> Seq<char> {
    match f {
        OutputFormat::Json => "json"@,
        OutputFormat::Radarr => "radarr"@,
        OutputFormat::Sonarr => "sonarr"@,
        OutputFormat::Kometa => "kometa"@,
        OutputFormat::KometaText => "kometa-text"@,
        OutputFormat::KometaJson => "kometa-json"@,
    }
}

/// The one media type a format can represent, if it is limited to one.
pub open spec fn format_media(f: OutputFormat) -> Option<MediaType> {
    match f {
        OutputFormat::Radarr => Some(MediaType::Movie),
        OutputFormat::Sonarr => Some(MediaType::Show),
        _ => None,
    }
}

impl OutputFormat {
    pub fn default_value() -> (r: OutputFormat)
        ensures
            r == OutputFormat::Json,
    {
        OutputFormat::Json
    }

    pub fn parse(raw: &str) -> (r: Option<OutputFormat>)
        ensures
            r == format_word(raw@),
    {
        let k = keyword_of(raw);
        let mut d: Vec<char> = Vec::new();
        let mut i: usize = 0;
        while i < k.len()
            invariant
                0 <= i <= k@.len(),
                d@ == dashed(k@).take(i as int),
            decreases k.len() - i,
        {
            d.push(if k[i] == '_' { '-' } else { k[i] });
            assert(d@ =~= dashed(k@).take(i + 1));
            i += 1;
        }
        assert(d@ =~= dashed(k@));
        if crate::model::is_word(&d, "json") {
            Some(OutputFormat::Json)
        } else if crate::model::is_word(&d, "radarr") {
            Some(OutputFormat::Radarr)
        } else if crate::model::is_word(&d, "sonarr") {
            Some(OutputFormat::Sonarr)
        } else if crate::model::is_word(&d, "kometa") {
            Some(OutputFormat::Kometa)
        } else if crate::model::is_word(&d, "kometa-text") {
            Some(OutputFormat::KometaText)
        } else if crate::model::is_word(&d, "kometa-json") {
            Some(OutputFormat::KometaJson)
        } else {
            None
        }
    }

    pub fn as_str(self) -> (r: &'static str)
        ensures
            r@ == format_text(self),
    {
        match self {
            OutputFormat::Json => "json",
            OutputFormat::Radarr => "radarr",
            OutputFormat::Sonarr => "sonarr",
            OutputFormat::Kometa => "kometa",
            OutputFormat::KometaText => "kometa-text",
            OutputFormat::KometaJson => "kometa-json",
        }
    }

    /// Radarr's import list parses movies and Sonarr's series, while
    /// Kometa's text file and the raw dump carry both.
    pub fn media_type(self) -> (r: Option<MediaType>)
        ensures
            r == format_media(self),
    {
        match self {
            OutputFormat::Radarr => Some(MediaType::Movie),
            OutputFormat::Sonarr => Some(MediaType::Show),
            _ => None,
        }
    }
}

// ---------------------------------------------------------------------------
// The query string
// ---------------------------------------------------------------------------

/// `?format=…&media_type=…`.
#[derive(Debug, Clone, Copy, PartialEq, Eq, Structural)]
pub struct ListQuery {
    pub format: OutputFormat,
    pub media_type: MediaTypeFilter,
}

pub open spec fn pair_lt(a: (Seq<char>, Seq<char>), b: (Seq<char>, Seq<char>)) -> bool {
    text_lt(a.0, b.0) || (a.0 == b.0 && text_lt(a.1, b.1))
}

proof fn lemma_pair_lt_trans(a: (Seq<char>, Seq<char>), b: (Seq<char>, Seq<char>), c: (Seq<char>, Seq<char>))
    requires
        pair_lt(a, b),
        pair_lt(b, c),
    ensures
        pair_lt(a, c),
{
    if text_lt(a.0, b.0) && text_lt(b.0, c.0) {
        lemma_text_lt_trans(a.0, b.0, c.0);
    } else if a.0 == b.0 && b.0 == c.0 {
        lemma_text_lt_trans(a.1, b.1, c.1);
    }
}

pub open spec fn param_view(p: (String, String)) -> (Seq<char>, Seq<char>) {
    (p.0@, p.1@)
}

/// Whether a parameter is refused on its own: an unknown name, or a value
/// its name does not accept.
pub open spec fn param_bad(p: (Seq<char>, Seq<char>)) -> bool {
    if p.0 == "format"@ {
        format_word(p.1) is None
    } else if p.0 == "media_type"@ {
        filter_word(p.1) is None
    } else {
        true
    }
}

pub open spec fn param_message(p: (Seq<char>, Seq<char>)) -> Seq<char> {
    if p.0 == "format"@ {
        "unknown format `"@ + p.1
            + "`, expected `json`, `radarr`, `sonarr`, `kometa`, `kometa-text` or `kometa-json`"@
    } else if p.0 == "media_type"@ {
        "unknown media_type `"@ + p.1 + "`, expected `any`, `movies` or `shows`"@
    } else {
        "unknown parameter `"@ + p.0 + "`, expected `format` or `media_type`"@
    }
}

pub open spec fn mismatch_message(f: OutputFormat, serves: MediaType, raw: Seq<char>) -> Seq<char> {
    "format `"@ + format_text(f) + "` serves "@ + media_type_text(serves) + "s only, but media_type `"@
        + raw + "` was requested"@
}

/// The parameters, read in name order: the first refused one decides the
/// error, so a request with two mistakes always names the same one; a later
/// value of a name wins over an earlier one.
pub open spec fn query_spec(params: Seq<(Seq<char>, Seq<char>)>) -> Result<ListQuery, Seq<char>> {
    if exists|i: int| 0 <= i < params.len() && param_bad(#[trigger] params[i]) {
        let b = choose|i: int|
            0 <= i < params.len() && param_bad(#[trigger] params[i]) && forall|j: int|
                0 <= j < params.len() && param_bad(#[trigger] params[j]) ==> !pair_lt(params[j], params[i]);
        Err(param_message(params[b]))
    } else {
        let format = if exists|i: int| 0 <= i < params.len() && #[trigger] params[i].0 == "format"@ {
            format_word(
                params[choose|i: int|
                    0 <= i < params.len() && #[trigger] params[i].0 == "format"@ && forall|j: int|
                        0 <= j < params.len() && #[trigger] params[j].0 == "format"@ ==> !pair_lt(
                            params[i],
                            params[j],
                        )].1,
            )->0
        } else {
            OutputFormat::Json
        };
        let media = if exists|i: int| 0 <= i < params.len() && #[trigger] params[i].0 == "media_type"@ {
            Some(
                params[choose|i: int|
                    0 <= i < params.len() && #[trigger] params[i].0 == "media_type"@ && forall|j: int|
                        0 <= j < params.len() && #[trigger] params[j].0 == "media_type"@ ==> !pair_lt(
                            params[i],
                            params[j],
                        )].1,
            )
        } else {
            None
        };
        let media_type = match media {
            Some(raw) => filter_word(raw)->0,
            None => MediaTypeFilter::Any,
        };
        let raw = match media {
            Some(raw) => raw,
            None => "any"@,
        };
        match (format_media(format), filter_media_type(media_type)) {
            (Some(serves), Some(asked)) => if serves != asked {
                Err(mismatch_message(format, serves, raw))
            } else {
                Ok(ListQuery { format, media_type })
            },
            _ => Ok(ListQuery { format, media_type }),
        }
    }
}

fn pair_less(a: &(String, String), b: &(String, String)) -> (r: bool)
    ensures
        r == pair_lt(param_view(*a), param_view(*b)),
{
    text_less(a.0.as_str(), b.0.as_str()) || (str_eq(a.0.as_str(), b.0.as_str()) && text_less(
        a.1.as_str(),
        b.1.as_str(),
    ))
}

fn param_is_bad(p: &(String, String)) -> (r: bool)
    ensures
        r == param_bad(param_view(*p)),
{
    if str_eq(p.0.as_str(), "format") {
        OutputFormat::parse(p.1.as_str()).is_none()
    } else if str_eq(p.0.as_str(), "media_type") {
        MediaTypeFilter::parse(p.1.as_str()).is_none()
    } else {
        true
    }
}

fn param_error(p: &(String, String)) -> (r: String)
    ensures
        r@ == param_message(param_view(*p)),
{
    if str_eq(p.0.as_str(), "format") {
        let mut m = from_str("unknown format `");
        push_str(&mut m, p.1.as_str());
        push_str(&mut m, "`, expected `json`, `radarr`, `sonarr`, `kometa`, `kometa-text` or `kometa-json`");
        m
    } else if str_eq(p.0.as_str(), "media_type") {
        let mut m = from_str("unknown media_type `");
        push_str(&mut m, p.1.as_str());
        push_str(&mut m, "`, expected `any`, `movies` or `shows`");
        m
    } else {
        let mut m = from_str("unknown parameter `");
        push_str(&mut m, p.0.as_str());
        push_str(&mut m, "`, expected `format` or `media_type`");
        m
    }
}

/// The position of the greatest parameter called `name`, if any.
fn last_named(params: &Vec<(String, String)>, name: &str) -> (r: Option<usize>)
    ensures
        match r {
            Some(i) => i < params@.len() && params@[i as int].0@ == name@ && forall|j: int|
                0 <= j < params@.len() && #[trigger] params@[j].0@ == name@ ==> !pair_lt(
                    param_view(params@[i as int]),
                    param_view(params@[j]),
                ),
            None => forall|j: int| 0 <= j < params@.len() ==> #[trigger] params@[j].0@ != name@,
        },
{
    let mut best: Option<usize> = None;
    let mut i: usize = 0;
    while i < params.len()
        invariant
            0 <= i <= params@.len(),
            match best {
                Some(b) => b < i && params@[b as int].0@ == name@ && forall|j: int|
                    0 <= j < i && #[trigger] params@[j].0@ == name@ ==> !pair_lt(
                        param_view(params@[b as int]),
                        param_view(params@[j]),
                    ),
                None => forall|j: int| 0 <= j < i ==> #[trigger] params@[j].0@ != name@,
            },
        decreases params.len() - i,
    {
        if str_eq(params[i].0.as_str(), name) {
            match best {
                Some(b) => {
                    if pair_less(&params[b], &params[i]) {
                        proof {
                            assert forall|j: int|
                                0 <= j < i + 1 && #[trigger] params@[j].0@ == name@ implies !pair_lt(
                                    param_view(params@[i as int]),
                                    param_view(params@[j]),
                                ) by {
                                if j < i && pair_lt(param_view(params@[i as int]), param_view(params@[j])) {
                                    lemma_pair_lt_trans(
                                        param_view(params@[b as int]),
                                        param_view(params@[i as int]),
                                        param_view(params@[j]),
                                    );
                                }
                                if j == i {
                                    lemma_text_lt_irreflexive(params@[j].1@);
                                    lemma_text_lt_irreflexive(params@[j].0@);
                                }
                            }
                        }
                        best = Some(i);
                    }
                },
                None => {
                    proof {
                        lemma_text_lt_irreflexive(params@[i as int].1@);
                        lemma_text_lt_irreflexive(params@[i as int].0@);
                    }
                    best = Some(i);
                },
            }
        }
        i += 1;
    }
    best
}

impl ListQuery {
    /// Read the query parameters, in name order. Every rejection is a
    /// message fit for a JSON `error`.
    pub fn from_params(params: &Vec<(String, String)>) -> (r: Result<ListQuery, String>)
        ensures
            match query_spec(params@.map_values(|p: (String, String)| param_view(p))) {
                Ok(q) => r == Ok::<ListQuery, String>(q),
                Err(m) => r matches Err(e) && e@ == m,
            },
    {
        let ghost v = params@.map_values(|p: (String, String)| param_view(p));
        // The first refused parameter in name order.
        let mut bad: Option<usize> = None;
        let mut i: usize = 0;
        while i < params.len()
            invariant
                0 <= i <= params@.len(),
                v == params@.map_values(|p: (String, String)| param_view(p)),
                match bad {
                    Some(b) => b < i && param_bad(v[b as int]) && forall|j: int|
                        0 <= j < i && param_bad(#[trigger] v[j]) ==> !pair_lt(v[j], v[b as int]),
                    None => forall|j: int| 0 <= j < i ==> !param_bad(#[trigger] v[j]),
                },
            decreases params.len() - i,
        {
            assert(v[i as int] == param_view(params@[i as int]));
            if param_is_bad(&params[i]) {
                match bad {
                    Some(b) => {
                        assert(v[b as int] == param_view(params@[b as int]));
                        if pair_less(&params[i], &params[b]) {
                            proof {
                                assert forall|j: int|
                                    0 <= j < i + 1 && param_bad(#[trigger] v[j]) implies !pair_lt(
                                        v[j],
                                        v[i as int],
                                    ) by {
                                    if j < i && pair_lt(v[j], v[i as int]) {
                                        lemma_pair_lt_trans(v[j], v[i as int], v[b as int]);
                                    }
                                    if j == i {
                                        lemma_text_lt_irreflexive(v[j].1);
                                        lemma_text_lt_irreflexive(v[j].0);
                                    }
                                }
                            }
                            bad = Some(i);
                        } else {
                            proof {
                                assert forall|j: int|
                                    0 <= j < i + 1 && param_bad(#[trigger] v[j]) implies !pair_lt(
                                        v[j],
                                        v[b as int],
                                    ) by {}
                            }
                        }
                    },
                    None => {
                        proof {
                            lemma_text_lt_irreflexive(v[i as int].1);
                            lemma_text_lt_irreflexive(v[i as int].0);
                        }
                        bad = Some(i);
                    },
                }
            }
            i += 1;
        }
        if let Some(b) = bad {
            proof {
                assert(param_bad(v[b as int]));
                let c = choose|c: int|
                    0 <= c < v.len() && param_bad(#[trigger] v[c]) && forall|j: int|
                        0 <= j < v.len() && param_bad(#[trigger] v[j]) ==> !pair_lt(v[j], v[c]);
                lemma_text_lt_total(v[c].0, v[b as int].0);
                lemma_text_lt_total(v[c].1, v[b as int].1);
                assert(v[c] == v[b as int]);
            }
            return Err(param_error(&params[b]));
        }
        let format = match last_named(params, "format") {
            Some(f) => {
                proof {
                    assert(v[f as int].0 == "format"@);
                    let c = choose|c: int|
                        0 <= c < v.len() && #[trigger] v[c].0 == "format"@ && forall|j: int|
                            0 <= j < v.len() && #[trigger] v[j].0 == "format"@ ==> !pair_lt(v[c], v[j]);
                    assert(params@[c].0@ == "format"@);
                    lemma_text_lt_total(v[c].1, v[f as int].1);
                    assert(v[c] == v[f as int]);
                    assert(!param_bad(v[f as int]));
                }
                match OutputFormat::parse(params[f].1.as_str()) {
                    Some(x) => x,
                    None => OutputFormat::Json,
                }
            },
            None => {
                proof {
                    assert forall|j: int| 0 <= j < v.len() implies #[trigger] v[j].0 != "format"@ by {
                        assert(params@[j].0@ != "format"@);
                    }
                }
                OutputFormat::Json
            },
        };
        let media_idx = last_named(params, "media_type");
        proof {
            if let Some(m) = media_idx {
                assert(v[m as int].0 == "media_type"@);
                reveal_strlit("media_type");
                reveal_strlit("format");
                let c = choose|c: int|
                    0 <= c < v.len() && #[trigger] v[c].0 == "media_type"@ && forall|j: int|
                        0 <= j < v.len() && #[trigger] v[j].0 == "media_type"@ ==> !pair_lt(v[c], v[j]);
                assert(params@[c].0@ == "media_type"@);
                lemma_text_lt_total(v[c].1, v[m as int].1);
                assert(v[c] == v[m as int]);
                assert(!param_bad(v[m as int]));
                assert(filter_word(v[m as int].1) is Some);
            } else {
                assert forall|j: int| 0 <= j < v.len() implies #[trigger] v[j].0 != "media_type"@ by {
                    assert(params@[j].0@ != "media_type"@);
                }
                reveal_strlit("any");
            }
        }
        let (media_type, raw) = match media_idx {
            Some(m) => {
                match MediaTypeFilter::parse(params[m].1.as_str()) {
                    Some(x) => (x, params[m].1.as_str()),
                    None => (MediaTypeFilter::Any, params[m].1.as_str()),
                }
            },
            None => (MediaTypeFilter::Any, "any"),
        };
        proof {
            assert(!(exists|i: int| 0 <= i < v.len() && param_bad(#[trigger] v[i])));
            let spec_format = if exists|i: int| 0 <= i < v.len() && #[trigger] v[i].0 == "format"@ {
                format_word(
                    v[choose|i: int|
                        0 <= i < v.len() && #[trigger] v[i].0 == "format"@ && forall|j: int|
                            0 <= j < v.len() && #[trigger] v[j].0 == "format"@ ==> !pair_lt(
                                v[i],
                                v[j],
                            )].1,
                )->0
            } else {
                OutputFormat::Json
            };
            assert(spec_format == format);
            let media = if exists|i: int| 0 <= i < v.len() && #[trigger] v[i].0 == "media_type"@ {
                Some(
                    v[choose|i: int|
                        0 <= i < v.len() && #[trigger] v[i].0 == "media_type"@ && forall|j: int|
                            0 <= j < v.len() && #[trigger] v[j].0 == "media_type"@ ==> !pair_lt(
                                v[i],
                                v[j],
                            )].1,
                )
            } else {
                None
            };
            assert(match media { Some(x) => filter_word(x)->0, None => MediaTypeFilter::Any } == media_type);
            assert(match media { Some(x) => x, None => "any"@ } == raw@);
        }
        match (format.media_type(), media_type.as_media_type()) {
            (Some(serves), Some(asked)) => {
                if serves != asked {
                    let mut m = from_str("format `");
                    push_str(&mut m, format.as_str());
                    push_str(&mut m, "` serves ");
                    push_str(&mut m, serves.as_str());
                    push_str(&mut m, "s only, but media_type `");
                    push_str(&mut m, raw);
                    push_str(&mut m, "` was requested");
                    return Err(m);
                }
            },
            _ => {},
        }
        Ok(ListQuery { format, media_type })
    }
}

} // verus!

verus! {

// ---------------------------------------------------------------------------
// Radarr and Sonarr
// ---------------------------------------------------------------------------

/// Radarr's "Custom Lists" import list parses TMDb search results and reads
/// nothing but `id`. The rest is there so a human can read the response.
#[derive(Debug)]
pub struct RadarrMovie {
    pub id: u32,
    pub title: Option<String>,
    pub imdb_id: Option<String>,
    pub year: Option<i32>,
}

/// Sonarr's "Custom List" import list reads `title`, `tvdbId`, `tmdbId` and
/// `imdbId`; unknown ids are omitted rather than sent as zero.
#[derive(Debug)]
pub struct SonarrSeries {
    pub title: Option<String>,
    pub tvdb_id: Option<u32>,
    pub tmdb_id: Option<u32>,
    pub imdb_id: Option<String>,
}

pub open spec fn views(items: Seq<Item>) -> Seq<ItemView> {
    items.map_values(|i: Item| i@)
}

/// The items of one media type, in order.
pub open spec fn of_type(items: Seq<ItemView>, m: MediaType) -> Seq<ItemView>
    decreases items.len(),
{
    if items.len() == 0 {
        seq![]
    } else if items.last().media_type == m {
        of_type(items.drop_last(), m).push(items.last())
    } else {
        of_type(items.drop_last(), m)
    }
}

/// The movies of `items` that carry a TMDb id, in order.
pub open spec fn radarr_movies(items: Seq<ItemView>) -> Seq<ItemView>
    decreases items.len(),
{
    if items.len() == 0 {
        seq![]
    } else if items.last().media_type == MediaType::Movie && items.last().ids.tmdb is Some {
        radarr_movies(items.drop_last()).push(items.last())
    } else {
        radarr_movies(items.drop_last())
    }
}

/// Whether an item is a movie.
pub open spec fn is_movie() -> spec_fn(ItemView) -> bool {
    |m: ItemView| m.media_type == MediaType::Movie
}

/// Whether an item carries a TMDb id.
pub open spec fn has_tmdb() -> spec_fn(ItemView) -> bool {
    |m: ItemView| m.ids.tmdb is Some
}

/// Whether an item is a movie that carries a TMDb id.
pub open spec fn is_tmdb_movie() -> spec_fn(ItemView) -> bool {
    |m: ItemView| m.media_type == MediaType::Movie && m.ids.tmdb is Some
}

/// A Radarr list holds exactly the movies among the items that carry a TMDb
/// id, in the order the items come: the items' movies, less those without
/// one. Shows never appear.
pub proof fn lemma_radarr_movies_filter(items: Seq<ItemView>)
    ensures
        radarr_movies(items) == items.filter(is_tmdb_movie()),
        of_type(items, MediaType::Movie) == items.filter(is_movie()),
        radarr_movies(items) == of_type(items, MediaType::Movie).filter(has_tmdb()),
    decreases items.len(),
{
    reveal(Seq::filter);
    if items.len() == 0 {
        assert(radarr_movies(items) =~= items);
        assert(of_type(items, MediaType::Movie) =~= items);
    } else {
        lemma_radarr_movies_filter(items.drop_last());
        let front = of_type(items.drop_last(), MediaType::Movie);
        if items.last().media_type == MediaType::Movie {
            assert(of_type(items, MediaType::Movie).drop_last() =~= front);
        }
    }
}

pub open spec fn radarr_entry_ok(m: RadarrMovie, item: ItemView) -> bool {
    &&& item.ids.tmdb == Some(m.id)
    &&& ov(m.title) == item.title
    &&& ov(m.imdb_id) == item.ids.imdb
    &&& m.year == item.effective_year()
}

/// Returns the payload and the number of movies dropped for want of a TMDb
/// id. Shows never appear in a Radarr list.
pub fn radarr_payload(items: &Vec<Item>) -> (r: (Vec<RadarrMovie>, usize))
    ensures
        r.0@.len() == radarr_movies(views(items@)).len(),
        forall|k: int| 0 <= k < r.0@.len() ==> radarr_entry_ok(#[trigger] r.0@[k], radarr_movies(views(items@))[k]),
        r.1 == of_type(views(items@), MediaType::Movie).len() - radarr_movies(views(items@)).len(),
{
    let ghost all = views(items@);
    let mut payload: Vec<RadarrMovie> = Vec::new();
    let mut movies: usize = 0;
    let mut i: usize = 0;
    while i < items.len()
        invariant
            0 <= i <= items@.len(),
            all == views(items@),
            payload@.len() == radarr_movies(all.take(i as int)).len(),
            forall|k: int| 0 <= k < payload@.len() ==> radarr_entry_ok(#[trigger] payload@[k], radarr_movies(all.take(i as int))[k]),
            movies == of_type(all.take(i as int), MediaType::Movie).len(),
            radarr_movies(all.take(i as int)).len() <= of_type(all.take(i as int), MediaType::Movie).len(),
            movies <= i,
        decreases items.len() - i,
    {
        assert(all.take(i + 1).drop_last() =~= all.take(i as int));
        assert(all.take(i + 1).last() == items@[i as int]@);
        let item = &items[i];
        if item.media_type == MediaType::Movie {
            movies = movies + 1;
            if let Some(id) = item.ids.tmdb {
                payload.push(RadarrMovie {
                    id,
                    title: crate::model::clone_opt_string(&item.title),
                    imdb_id: crate::model::clone_opt_string(&item.ids.imdb),
                    year: item.effective_year(),
                });
            }
        }
        i += 1;
    }
    assert(all.take(items@.len() as int) =~= all);
    let skipped = movies - payload.len();
    (payload, skipped)
}

/// The shows of `items` with no TVDb id, which Sonarr has to resolve by
/// another id.
pub open spec fn without_tvdb(items: Seq<ItemView>) -> nat
    decreases items.len(),
{
    if items.len() == 0 {
        0
    } else {
        without_tvdb(items.drop_last()) + if items.last().media_type == MediaType::Show
            && items.last().ids.tvdb is None {
            1nat
        } else {
            0nat
        }
    }
}

pub open spec fn sonarr_entry_ok(s: SonarrSeries, item: ItemView) -> bool {
    &&& ov(s.title) == item.title
    &&& s.tvdb_id == item.ids.tvdb
    &&& s.tmdb_id == item.ids.tmdb
    &&& ov(s.imdb_id) == item.ids.imdb
}

/// Returns the payload - every show, movies excluded - and the number of
/// shows with no TVDb id.
pub fn sonarr_payload(items: &Vec<Item>) -> (r: (Vec<SonarrSeries>, usize))
    ensures
        r.0@.len() == of_type(views(items@), MediaType::Show).len(),
        forall|k: int|
            0 <= k < r.0@.len() ==> sonarr_entry_ok(#[trigger] r.0@[k], of_type(views(items@), MediaType::Show)[k]),
        r.1 == without_tvdb(views(items@)),
{
    let ghost all = views(items@);
    let mut payload: Vec<SonarrSeries> = Vec::new();
    let mut missing: usize = 0;
    let mut i: usize = 0;
    while i < items.len()
        invariant
            0 <= i <= items@.len(),
            all == views(items@),
            payload@.len() == of_type(all.take(i as int), MediaType::Show).len(),
            forall|k: int|
                0 <= k < payload@.len() ==> sonarr_entry_ok(#[trigger] payload@[k], of_type(all.take(i as int), MediaType::Show)[k]),
            missing == without_tvdb(all.take(i as int)),
            missing <= i,
        decreases items.len() - i,
    {
        assert(all.take(i + 1).drop_last() =~= all.take(i as int));
        assert(all.take(i + 1).last() == items@[i as int]@);
        let item = &items[i];
        if item.media_type == MediaType::Show {
            if item.ids.tvdb.is_none() {
                missing = missing + 1;
            }
            payload.push(SonarrSeries {
                title: crate::model::clone_opt_string(&item.title),
                tvdb_id: item.ids.tvdb,
                tmdb_id: item.ids.tmdb,
                imdb_id: crate::model::clone_opt_string(&item.ids.imdb),
            });
        }
        i += 1;
    }
    assert(all.take(items@.len() as int) =~= all);
    (payload, missing)
}

/// How many items are of a media type.
pub fn count(items: &Vec<Item>, media_type: MediaType) -> (r: usize)
    ensures
        r == of_type(views(items@), media_type).len(),
{
    let ghost all = views(items@);
    let mut n: usize = 0;
    let mut i: usize = 0;
    while i < items.len()
        invariant
            0 <= i <= items@.len(),
            all == views(items@),
            n == of_type(all.take(i as int), media_type).len(),
            n <= i,
        decreases items.len() - i,
    {
        assert(all.take(i + 1).drop_last() =~= all.take(i as int));
        assert(all.take(i + 1).last() == items@[i as int]@);
        if items[i].media_type == media_type {
            n = n + 1;
        }
        i += 1;
    }
    assert(all.take(items@.len() as int) =~= all);
    n
}

} // verus!

verus! {

// ---------------------------------------------------------------------------
// Kometa
// ---------------------------------------------------------------------------

/// One id, in the two spellings Kometa's Text File builder accepts.
#[derive(Debug)]
pub enum KometaId {
    Tmdb(u32),
    TmdbShow(u32),
    Tvdb(u32),
    Imdb(String),
}

pub enum KometaIdView {
    Tmdb(u32),
    TmdbShow(u32),
    Tvdb(u32),
    Imdb(Seq<char>),
}

impl View for KometaId {
    type V = KometaIdView;

    open spec fn view(&self) -> KometaIdView {
        match self {
            KometaId::Tmdb(n) => KometaIdView::Tmdb(*n),
            KometaId::TmdbShow(n) => KometaIdView::TmdbShow(*n),
            KometaId::Tvdb(n) => KometaIdView::Tvdb(*n),
            KometaId::Imdb(s) => KometaIdView::Imdb(s@),
        }
    }
}

/// The id Kometa should match an item by, most reliable first.
///
/// TVDb is what a Plex show library keys on, IMDb is next and is spelled the
/// same way in both of Kometa's input shapes, and a show's TMDb id comes last
/// because it is the one needing a `_show`-qualified type. `None` means the
/// item carries nothing Kometa could look up.
pub open spec fn kometa_id_spec(item: ItemView) -> Option<KometaIdView> {
    match item.media_type {
        MediaType::Movie => match item.ids.tmdb {
            Some(n) => Some(KometaIdView::Tmdb(n)),
            None => match item.ids.imdb {
                Some(s) => Some(KometaIdView::Imdb(s)),
                None => None,
            },
        },
        MediaType::Show => match item.ids.tvdb {
            Some(n) => Some(KometaIdView::Tvdb(n)),
            None => match item.ids.imdb {
                Some(s) => Some(KometaIdView::Imdb(s)),
                None => match item.ids.tmdb {
                    Some(n) => Some(KometaIdView::TmdbShow(n)),
                    None => None,
                },
            },
        },
    }
}

pub fn kometa_id(item: &Item) -> (r: Option<KometaId>)
    ensures
        match r {
            Some(k) => kometa_id_spec(item@) == Some(k@),
            None => kometa_id_spec(item@) is None,
        },
{
    match item.media_type {
        MediaType::Movie => match item.ids.tmdb {
            Some(n) => Some(KometaId::Tmdb(n)),
            None => match &item.ids.imdb {
                Some(s) => Some(KometaId::Imdb(clone_string(s))),
                None => None,
            },
        },
        MediaType::Show => match item.ids.tvdb {
            Some(n) => Some(KometaId::Tvdb(n)),
            None => match &item.ids.imdb {
                Some(s) => Some(KometaId::Imdb(clone_string(s))),
                None => match item.ids.tmdb {
                    Some(n) => Some(KometaId::TmdbShow(n)),
                    None => None,
                },
            },
        },
    }
}

/// A prefixed line value, e.g. `tmdb:550`. A bare number means TMDb in a
/// movie library and TVDb in a show library, which is exactly the guess not
/// worth making, so the prefix is always written; a show library reads
/// `tmdb:` as the show, a movie library as the movie.
pub open spec fn line_spec(id: KometaIdView) -> Seq<char> {
    match id {
        KometaIdView::Tmdb(n) => "tmdb:"@ + decimal(n as nat),
        KometaIdView::TmdbShow(n) => "tmdb:"@ + decimal(n as nat),
        KometaIdView::Tvdb(n) => "tvdb:"@ + decimal(n as nat),
        KometaIdView::Imdb(s) => "imdb:"@ + s,
    }
}

/// One entry of Kometa's JSON list. `imdb_id` and `tmdb_id` are the
/// documented keys; a TVDb show has none, so it goes through the generic
/// `type`/`id` escape hatch with the internal id names Kometa's own docs
/// mention.
#[derive(Debug)]
pub enum KometaEntry {
    TmdbId(u32),
    ImdbId(String),
    Typed(&'static str, u32),
}

pub open spec fn entry_ok(e: KometaEntry, id: KometaIdView) -> bool {
    match id {
        KometaIdView::Tmdb(n) => e == KometaEntry::TmdbId(n),
        KometaIdView::TmdbShow(n) => e matches KometaEntry::Typed(k, m) && k@ == "tmdb_show"@ && m == n,
        KometaIdView::Tvdb(n) => e matches KometaEntry::Typed(k, m) && k@ == "tvdb"@ && m == n,
        KometaIdView::Imdb(s) => e matches KometaEntry::ImdbId(t) && t@ == s,
    }
}

impl KometaId {
    pub fn line(&self) -> (r: String)
        ensures
            r@ == line_spec(self@),
    {
        match self {
            KometaId::Tmdb(n) | KometaId::TmdbShow(n) => {
                let mut out = from_str("tmdb:");
                let digits = fmt_u64(*n as u64);
                push_str(&mut out, digits.as_str());
                out
            },
            KometaId::Tvdb(n) => {
                let mut out = from_str("tvdb:");
                let digits = fmt_u64(*n as u64);
                push_str(&mut out, digits.as_str());
                out
            },
            KometaId::Imdb(s) => {
                let mut out = from_str("imdb:");
                push_str(&mut out, s.as_str());
                out
            },
        }
    }

    pub fn entry(&self) -> (r: KometaEntry)
        ensures
            entry_ok(r, self@),
    {
        match self {
            KometaId::Tmdb(n) => KometaEntry::TmdbId(*n),
            KometaId::TmdbShow(n) => {
                proof {
                    reveal_strlit("tmdb_show");
                }
                KometaEntry::Typed("tmdb_show", *n)
            },
            KometaId::Tvdb(n) => {
                proof {
                    reveal_strlit("tvdb");
                }
                KometaEntry::Typed("tvdb", *n)
            },
            KometaId::Imdb(s) => KometaEntry::ImdbId(clone_string(s)),
        }
    }
}

/// `Title (Year)`, or nothing at all when the title is unknown.
pub open spec fn comment_spec(item: ItemView) -> Option<Seq<char>> {
    match item.title {
        None => None,
        Some(t) => Some(
            match item.effective_year() {
                Some(y) => trim(t) + " ("@ + signed_decimal(y as int) + ")"@,
                None => trim(t),
            },
        ),
    }
}

pub fn comment(item: &Item) -> (r: Option<String>)
    ensures
        crate::model::ov(r) == comment_spec(item@),
{
    match &item.title {
        None => None,
        Some(t) => {
            let mut out = crate::text::trim_string(t.as_str());
            match item.effective_year() {
                Some(y) => {
                    push_str(&mut out, " (");
                    let digits = fmt_i64(y as i64);
                    push_str(&mut out, digits.as_str());
                    push_str(&mut out, ")");
                },
                None => {},
            }
            Some(out)
        },
    }
}

/// Each item Kometa could look up, as its line and its comment.
pub open spec fn kometa_lines(items: Seq<ItemView>) -> Seq<(Seq<char>, Option<Seq<char>>)>
    decreases items.len(),
{
    if items.len() == 0 {
        seq![]
    } else {
        let before = kometa_lines(items.drop_last());
        match kometa_id_spec(items.last()) {
            Some(id) => before.push((line_spec(id), comment_spec(items.last()))),
            None => before,
        }
    }
}

/// Whether Kometa can name an item.
pub open spec fn has_kometa_id() -> spec_fn(ItemView) -> bool {
    |it: ItemView| kometa_id_spec(it) is Some
}

/// The line and comment an item that Kometa can name is written as.
pub open spec fn kometa_line_of(it: ItemView) -> (Seq<char>, Option<Seq<char>>) {
    (line_spec(kometa_id_spec(it)->0), comment_spec(it))
}

/// A Kometa list has one line per item that carries an id Kometa reads,
/// in the order the items come, written from that id and the item's title.
pub proof fn lemma_kometa_lines_filter(items: Seq<ItemView>)
    ensures
        kometa_lines(items).len() == items.filter(has_kometa_id()).len(),
        forall|k: int|
            0 <= k < kometa_lines(items).len() ==> #[trigger] kometa_lines(items)[k] == kometa_line_of(
                items.filter(has_kometa_id())[k],
            ),
    decreases items.len(),
{
    reveal(Seq::filter);
    if items.len() > 0 {
        lemma_kometa_lines_filter(items.drop_last());
        let before = kometa_lines(items.drop_last());
        let kept = items.drop_last().filter(has_kometa_id());
        if kometa_id_spec(items.last()) is Some {
            assert forall|k: int| 0 <= k < kometa_lines(items).len() implies #[trigger] kometa_lines(items)[k]
                == kometa_line_of(items.filter(has_kometa_id())[k]) by {
                if k < before.len() {
                    assert(kometa_lines(items)[k] == before[k]);
                    assert(items.filter(has_kometa_id())[k] == kept[k]);
                }
            }
        }
    }
}

/// The widest line.
pub open spec fn widest(lines: Seq<(Seq<char>, Option<Seq<char>>)>) -> nat
    decreases lines.len(),
{
    if lines.len() == 0 {
        0
    } else {
        let w = widest(lines.drop_last());
        if lines.last().0.len() > w {
            lines.last().0.len()
        } else {
            w
        }
    }
}

/// `text` padded with spaces on the right to `width` characters.
pub open spec fn pad_right(text: Seq<char>, width: nat) -> Seq<char> {
    if text.len() >= width {
        text
    } else {
        text + Seq::new((width - text.len()) as nat, |i: int| ' ')
    }
}

/// The lines of a Kometa text file, each id padded so the comments line up.
pub open spec fn render_lines(lines: Seq<(Seq<char>, Option<Seq<char>>)>, width: nat) -> Seq<char>
    decreases lines.len(),
{
    if lines.len() == 0 {
        seq![]
    } else {
        render_lines(lines.drop_last(), width) + match lines.last().1 {
            Some(c) => pad_right(lines.last().0, width) + " # "@ + c + "\n"@,
            None => lines.last().0 + "\n"@,
        }
    }
}

pub open spec fn kometa_header(name: Seq<char>, n: nat) -> Seq<char> {
    "# Generated by Repsetarr "@ + VERSION@ + " - list `"@ + name + "` - "@ + decimal(n) + " item(s)\n"@
}

pub open spec fn kometa_text_spec(name: Seq<char>, items: Seq<ItemView>) -> Seq<char> {
    let lines = kometa_lines(items);
    kometa_header(name, lines.len()) + render_lines(lines, widest(lines))
}

fn collect_lines(items: &Vec<Item>) -> (r: (Vec<(String, Option<String>)>, usize))
    ensures
        r.0@.len() == kometa_lines(views(items@)).len(),
        forall|k: int|
            0 <= k < r.0@.len() ==> (#[trigger] r.0@[k]).0@ == kometa_lines(views(items@))[k].0
                && crate::model::ov(r.0@[k].1) == kometa_lines(views(items@))[k].1,
        r.1 == widest(kometa_lines(views(items@))),
{
    let ghost all = views(items@);
    let mut lines: Vec<(String, Option<String>)> = Vec::new();
    let mut width: usize = 0;
    let mut i: usize = 0;
    while i < items.len()
        invariant
            0 <= i <= items@.len(),
            all == views(items@),
            lines@.len() == kometa_lines(all.take(i as int)).len(),
            lines@.len() <= i,
            forall|k: int|
                0 <= k < lines@.len() ==> (#[trigger] lines@[k]).0@ == kometa_lines(all.take(i as int))[k].0
                    && crate::model::ov(lines@[k].1) == kometa_lines(all.take(i as int))[k].1,
            width == widest(kometa_lines(all.take(i as int))),
        decreases items.len() - i,
    {
        let ghost prefix = all.take(i as int);
        let ghost next = all.take(i + 1);
        assert(next.drop_last() =~= prefix);
        assert(next.last() == items@[i as int]@);
        match kometa_id(&items[i]) {
            Some(id) => {
                let line = id.line();
                let c = comment(&items[i]);
                let len = line.as_str().unicode_len();
                proof {
                    assert(kometa_lines(next) == kometa_lines(prefix).push((line@, crate::model::ov(c))));
                    assert(kometa_lines(next).last().0.len() == len);
                    assert(kometa_lines(next).drop_last() =~= kometa_lines(prefix));
                }
                if len > width {
                    width = len;
                }
                lines.push((line, c));
            },
            None => {},
        }
        i += 1;
    }
    assert(all.take(items@.len() as int) =~= all);
    (lines, width)
}

fn render_body(
    header: String,
    lines: &Vec<(String, Option<String>)>,
    width: usize,
    ls: Ghost<Seq<(Seq<char>, Option<Seq<char>>)>>,
) -> (r: String)
    requires
        lines@.len() == ls@.len(),
        forall|j: int|
            0 <= j < lines@.len() ==> (#[trigger] lines@[j]).0@ == ls@[j].0 && crate::model::ov(lines@[j].1)
                == ls@[j].1,
    ensures
        r@ == header@ + render_lines(ls@, width as nat),
{
    let ghost head = header@;
    let mut body = header;
    let mut k: usize = 0;
    while k < lines.len()
        invariant
            0 <= k <= lines@.len(),
            lines@.len() == ls@.len(),
            forall|j: int|
                0 <= j < lines@.len() ==> (#[trigger] lines@[j]).0@ == ls@[j].0 && crate::model::ov(lines@[j].1)
                    == ls@[j].1,
            body@ == head + render_lines(ls@.take(k as int), width as nat),
        decreases lines.len() - k,
    {
        assert(ls@.take(k + 1).drop_last() =~= ls@.take(k as int));
        assert(ls@.take(k + 1).last() == ls@[k as int]);
        let ghost before = body@;
        let (id, note) = &lines[k];
        match note {
            Some(c) => {
                push_str(&mut body, id.as_str());
                let mut pad: usize = id.as_str().unicode_len();
                let ghost padded_from = body@;
                if pad < width {
                    while pad < width
                        invariant
                            id@.len() <= pad <= width,
                            body@ == padded_from + Seq::new((pad - id@.len()) as nat, |i: int| ' '),
                        decreases width - pad,
                    {
                        push_char(&mut body, ' ');
                        assert(body@ =~= padded_from + Seq::new((pad + 1 - id@.len()) as nat, |i: int| ' '));
                        pad += 1;
                    }
                    assert(body@ == before + pad_right(id@, width as nat));
                } else {
                    assert(body@ == before + pad_right(id@, width as nat));
                }
                push_str(&mut body, " # ");
                push_str(&mut body, c.as_str());
                push_str(&mut body, "\n");
            },
            None => {
                push_str(&mut body, id.as_str());
                push_str(&mut body, "\n");
            },
        }
        assert(body@ =~= head + render_lines(ls@.take(k + 1), width as nat));
        k += 1;
    }
    assert(ls@.take(lines@.len() as int) =~= ls@);
    body
}

/// A Kometa text file, to be loaded with `text_file: <url>`. The collection
/// itself stays in Kometa's own config, which is where people want it.
/// Kometa ignores everything after a `#`, so the header and the titles cost
/// nothing but make the URL readable in a browser.
///
/// Returns the body and the number of items carrying no id Kometa could use.
pub fn kometa_text(name: &str, items: &Vec<Item>) -> (r: (String, usize))
    ensures
        r.0@ == kometa_text_spec(name@, views(items@)),
        r.1 == items@.len() - kometa_lines(views(items@)).len(),
{
    let (lines, width) = collect_lines(items);
    let ghost ls = kometa_lines(views(items@));
    let mut header = from_str("# Generated by Repsetarr ");
    push_str(&mut header, VERSION);
    push_str(&mut header, " - list `");
    push_str(&mut header, name);
    push_str(&mut header, "` - ");
    let count_text = fmt_u64(lines.len() as u64);
    push_str(&mut header, count_text.as_str());
    push_str(&mut header, " item(s)\n");
    assert(header@ == kometa_header(name@, ls.len()));
    let body = render_body(header, &lines, width, Ghost(ls));
    assert(items@.len() >= kometa_lines(views(items@)).len()) by {
        lemma_lines_len(views(items@));
    }
    let skipped = items.len() - lines.len();
    (body, skipped)
}

proof fn lemma_lines_len(items: Seq<ItemView>)
    ensures
        kometa_lines(items).len() <= items.len(),
        kometa_ids(items).len() <= items.len(),
    decreases items.len(),
{
    if items.len() > 0 {
        lemma_lines_len(items.drop_last());
    }
}

/// Each item Kometa could look up, as its id.
pub open spec fn kometa_ids(items: Seq<ItemView>) -> Seq<KometaIdView>
    decreases items.len(),
{
    if items.len() == 0 {
        seq![]
    } else {
        let before = kometa_ids(items.drop_last());
        match kometa_id_spec(items.last()) {
            Some(id) => before.push(id),
            None => before,
        }
    }
}

/// The JSON list the same `text_file: <url>` may return instead of lines.
///
/// Returns the payload and the number of items carrying no id Kometa could
/// use.
pub fn kometa_json(items: &Vec<Item>) -> (r: (Vec<KometaEntry>, usize))
    ensures
        r.0@.len() == kometa_ids(views(items@)).len(),
        forall|k: int| 0 <= k < r.0@.len() ==> entry_ok(#[trigger] r.0@[k], kometa_ids(views(items@))[k]),
        r.1 == items@.len() - kometa_ids(views(items@)).len(),
{
    let ghost all = views(items@);
    let mut out: Vec<KometaEntry> = Vec::new();
    let mut i: usize = 0;
    while i < items.len()
        invariant
            0 <= i <= items@.len(),
            all == views(items@),
            out@.len() == kometa_ids(all.take(i as int)).len(),
            out@.len() <= i,
            forall|k: int| 0 <= k < out@.len() ==> entry_ok(#[trigger] out@[k], kometa_ids(all.take(i as int))[k]),
        decreases items.len() - i,
    {
        assert(all.take(i + 1).drop_last() =~= all.take(i as int));
        assert(all.take(i + 1).last() == items@[i as int]@);
        match kometa_id(&items[i]) {
            Some(id) => {
                out.push(id.entry());
            },
            None => {},
        }
        i += 1;
    }
    assert(all.take(items@.len() as int) =~= all);
    proof {
        lemma_lines_len(all);
    }
    let skipped = items.len() - out.len();
    (out, skipped)
}

} // verus!

verus! {

// ---------------------------------------------------------------------------
// Headers, health and the index
// ---------------------------------------------------------------------------

pub open spec fn header_spec(
    returned: nat,
    skipped: nat,
    unenriched: nat,
    stale: Seq<Seq<char>>,
) -> Seq<(Seq<char>, Seq<char>)> {
    seq![("X-Repsetarr-Count"@, decimal(returned))] + (if skipped > 0 {
        seq![("X-Repsetarr-Skipped"@, decimal(skipped))]
    } else {
        seq![]
    }) + (if unenriched > 0 {
        seq![("X-Repsetarr-Unenriched"@, decimal(unenriched))]
    } else {
        seq![]
    }) + (if stale.len() > 0 {
        seq![("X-Repsetarr-Stale"@, crate::text::join(stale, ","@))]
    } else {
        seq![]
    })
}

pub open spec fn header_view(h: Seq<(&'static str, String)>) -> Seq<(Seq<char>, Seq<char>)> {
    h.map_values(|p: (&'static str, String)| (p.0@, p.1@))
}

/// The headers a list response carries: how many entries it returns, how
/// many it had to leave out, how many items were judged without all their
/// metadata, and which sources were stale.
pub fn response_headers(evaluation: &crate::lists::Evaluation, returned: usize, skipped: usize) -> (r: Vec<(&'static str, String)>)
    ensures
        header_view(r@) == header_spec(
            returned as nat,
            skipped as nat,
            evaluation.unenriched as nat,
            crate::model::strings_view(evaluation.stale_sources@),
        ),
{
    let ghost before: Seq<(Seq<char>, Seq<char>)>;
    let mut out: Vec<(&'static str, String)> = Vec::new();
    out.push(("X-Repsetarr-Count", fmt_u64(returned as u64)));
    proof {
        reveal_strlit("X-Repsetarr-Count");
        assert(header_view(out@) =~= seq![("X-Repsetarr-Count"@, decimal(returned as nat))]);
    }
    let ghost a = header_view(out@);
    if skipped > 0 {
        out.push(("X-Repsetarr-Skipped", fmt_u64(skipped as u64)));
    }
    proof {
        reveal_strlit("X-Repsetarr-Skipped");
        assert(header_view(out@) =~= a + if skipped > 0 {
            seq![("X-Repsetarr-Skipped"@, decimal(skipped as nat))]
        } else {
            seq![]
        });
    }
    let ghost b = header_view(out@);
    if evaluation.unenriched > 0 {
        out.push(("X-Repsetarr-Unenriched", fmt_u64(evaluation.unenriched as u64)));
    }
    proof {
        reveal_strlit("X-Repsetarr-Unenriched");
        assert(header_view(out@) =~= b + if evaluation.unenriched > 0 {
            seq![("X-Repsetarr-Unenriched"@, decimal(evaluation.unenriched as nat))]
        } else {
            seq![]
        });
    }
    let ghost c = header_view(out@);
    if evaluation.stale_sources.len() > 0 {
        out.push(("X-Repsetarr-Stale", crate::text::join_strings(&evaluation.stale_sources, ",")));
    }
    proof {
        reveal_strlit("X-Repsetarr-Stale");
        assert(crate::model::strings_view(evaluation.stale_sources@) =~= evaluation.stale_sources@.map_values(|p: String| p@));
        assert(header_view(out@) =~= c + if evaluation.stale_sources@.len() > 0 {
            seq![("X-Repsetarr-Stale"@, crate::text::join(crate::model::strings_view(evaluation.stale_sources@), ","@))]
        } else {
            seq![]
        });
    }
    out
}

/// One source as the health endpoint reports it.
#[derive(Debug)]
pub struct SourceHealth {
    pub name: String,
    pub kind: &'static str,
    pub items: Option<usize>,
    pub fetched_at: Option<Stamp>,
    pub age_seconds: Option<u64>,
    pub stale: bool,
    pub last_attempt: Option<Stamp>,
    pub last_error: Option<String>,
}

/// Whether a status makes the whole service degraded: no data yet, or a
/// failed last attempt.
pub open spec fn degrading(status: Option<crate::cache::SourceStatus>) -> bool {
    match status {
        Some(s) => s.items is None || s.last_error is Some,
        None => true,
    }
}

pub open spec fn health_ok(h: SourceHealth, runtime: crate::config::compile::Runtime, cache: crate::cache::CacheStore, i: int, now: Stamp) -> bool {
    let name = runtime.config.sources@[i].0@;
    &&& h.name@ == name
    &&& h.kind@ == crate::config::model::source_kind_text(runtime.config.sources@[i].1)
    &&& match cache.status_of(name) {
        Some(s) => {
            &&& h.items == match s.items {
                Some(v) => Some(v@.len() as usize),
                None => None::<usize>,
            }
            &&& h.fetched_at == s.fetched_at
            &&& h.last_attempt == s.last_attempt
            &&& ov(h.last_error) == ov(s.last_error)
            &&& h.stale == crate::lists::stale_at(s, crate::lists::ttl_of(runtime, name), now)
            &&& h.age_seconds == match s.fetched_at {
                Some(t) => match crate::clock::elapsed_spec(now, t) {
                    Some(n) => Some(crate::clock::whole_seconds(n)),
                    None => None::<u64>,
                },
                None => None::<u64>,
            }
        },
        None => h.items is None && h.fetched_at is None && h.last_attempt is None && h.last_error is None
            && h.stale && h.age_seconds is None,
    }
}

pub open spec fn same_status_items(items: Option<usize>, s: crate::cache::SourceStatus) -> bool {
    items == match s.items {
        Some(v) => Some(v@.len() as usize),
        None => None::<usize>,
    }
}

/// Every configured source's health at `now`, and whether any of them
/// degrades the service.
pub fn source_health(runtime: &crate::config::compile::Runtime, cache: &crate::cache::CacheStore, now: Stamp) -> (r: (Vec<SourceHealth>, bool))
    requires
        cache.well_formed(),
    ensures
        r.0@.len() == runtime.config.sources@.len(),
        forall|i: int| 0 <= i < r.0@.len() ==> health_ok(#[trigger] r.0@[i], *runtime, *cache, i, now),
        r.1 == exists|i: int|
            0 <= i < runtime.config.sources@.len() && degrading(cache.status_of(#[trigger] runtime.config.sources@[i].0@)),
{
    let mut out: Vec<SourceHealth> = Vec::new();
    let mut degraded = false;
    let mut i: usize = 0;
    while i < runtime.config.sources.len()
        invariant
            cache.well_formed(),
            0 <= i <= runtime.config.sources@.len(),
            out@.len() == i,
            forall|k: int| 0 <= k < i ==> health_ok(#[trigger] out@[k], *runtime, *cache, k, now),
            degraded == exists|k: int|
                0 <= k < i && degrading(cache.status_of(#[trigger] runtime.config.sources@[k].0@)),
        decreases runtime.config.sources.len() - i,
    {
        let (name, source) = &runtime.config.sources[i];
        let status = cache.status(name.as_str());
        let ghost copy = status;
        let stale = status.is_stale_at(runtime.ttl_for(name.as_str()), now);
        if status.items.is_none() || status.last_error.is_some() {
            degraded = true;
        }
        let age_seconds = match status.fetched_at {
            Some(t) => crate::clock::elapsed_seconds(now, t),
            None => None,
        };
        let items = status.item_count();
        let h = SourceHealth {
            name: clone_string(name),
            kind: source.kind(),
            items,
            fetched_at: status.fetched_at,
            age_seconds,
            stale,
            last_attempt: status.last_attempt,
            last_error: status.last_error,
        };
        let ghost prior = out@;
        proof {
            let n = runtime.config.sources@[i as int].0@;
            assert(n == name@);
            match cache.status_of(n) {
                Some(st) => {
                    if st.items is Some {
                        assert(crate::cache::items_view(st.items->0@).len() == st.items->0@.len());
                        assert(crate::cache::items_view(copy.items->0@).len() == copy.items->0@.len());
                    }
                    assert(same_status_items(h.items, st));
                },
                None => {},
            }
            assert(health_ok(h, *runtime, *cache, i as int, now));
        }
        out.push(h);
        proof {
            assert forall|k: int| 0 <= k < i + 1 implies health_ok(#[trigger] out@[k], *runtime, *cache, k, now) by {
                if k < i {
                    assert(out@[k] == prior[k]);
                }
            }
            let n = runtime.config.sources@[i as int].0@;
            assert(n == name@);
            if degrading(cache.status_of(n)) {
                assert(degrading(cache.status_of(runtime.config.sources@[i as int].0@)));
            }
        }
        i += 1;
    }
    (out, degraded)
}

/// What the list index reports of a list that evaluated.
#[derive(Debug)]
pub struct ListCounts {
    pub items: usize,
    pub movies: usize,
    pub shows: usize,
    pub stale_sources: Vec<String>,
    pub unenriched: usize,
    pub evaluated_at: Stamp,
}

/// One entry of the list index.
#[derive(Debug)]
pub struct ListSummary {
    pub name: String,
    pub list_formula: String,
    pub filter: Option<String>,
    pub media_type: &'static str,
    pub sources: Vec<String>,
    pub list_deps: Vec<String>,
    /// Each format's URL, by format name.
    pub endpoints: Vec<(&'static str, String)>,
    /// The counts, or the error the list evaluated to.
    pub outcome: Result<ListCounts, String>,
}

pub open spec fn endpoints_spec(name: Seq<char>) -> Seq<(Seq<char>, Seq<char>)> {
    let base = "/api/lists/"@ + name;
    seq![
        ("json"@, base),
        ("radarr"@, base + "?format=radarr"@),
        ("sonarr"@, base + "?format=sonarr"@),
        ("kometa"@, base + "?format=kometa"@),
        ("kometa-text"@, base + "?format=kometa-text"@),
        ("kometa-json"@, base + "?format=kometa-json"@),
    ]
}

fn endpoint(base: &String, suffix: &str) -> (r: String)
    ensures
        r@ == base@ + suffix@,
{
    let mut out = clone_string(base);
    push_str(&mut out, suffix);
    out
}

/// The URLs a list is served at, one per format.
pub fn endpoints(name: &str) -> (r: Vec<(&'static str, String)>)
    ensures
        header_view(r@) == endpoints_spec(name@),
{
    let mut base = from_str("/api/lists/");
    push_str(&mut base, name);
    let mut out: Vec<(&'static str, String)> = Vec::new();
    out.push(("json", clone_string(&base)));
    out.push(("radarr", endpoint(&base, "?format=radarr")));
    out.push(("sonarr", endpoint(&base, "?format=sonarr")));
    out.push(("kometa", endpoint(&base, "?format=kometa")));
    out.push(("kometa-text", endpoint(&base, "?format=kometa-text")));
    out.push(("kometa-json", endpoint(&base, "?format=kometa-json")));
    proof {
        reveal_strlit("json");
        reveal_strlit("radarr");
        reveal_strlit("sonarr");
        reveal_strlit("kometa");
        reveal_strlit("kometa-text");
        reveal_strlit("kometa-json");
        assert(header_view(out@) =~= endpoints_spec(name@));
    }
    out
}

} // verus!

verus! {

pub open spec fn counts_ok(c: ListCounts, ev: crate::lists::Evaluation) -> bool {
    let all = views(ev.items@);
    &&& c.items == ev.items@.len()
    &&& c.movies == of_type(all, MediaType::Movie).len()
    &&& c.shows == ev.items@.len() - of_type(all, MediaType::Movie).len()
    &&& crate::model::strings_view(c.stale_sources@) == crate::model::strings_view(ev.stale_sources@)
    &&& c.unenriched == ev.unenriched
    &&& c.evaluated_at == ev.evaluated_at
}

pub open spec fn outcome_ok(
    outcome: Result<ListCounts, String>,
    evaluations: Seq<(String, Result<crate::lists::Evaluation, crate::lists::EvalError>)>,
    name: Seq<char>,
) -> bool {
    match crate::config::compile::named(evaluations, name) {
        Some(Ok(ev)) => outcome matches Ok(c) && counts_ok(c, ev),
        Some(Err(e)) => outcome matches Err(m) && m@ == crate::lists::eval_error_message(e),
        None => outcome matches Err(m) && m@ == "no list named `"@ + name + "`"@,
    }
}

pub open spec fn summary_ok(
    s: ListSummary,
    runtime: crate::config::compile::Runtime,
    evaluations: Seq<(String, Result<crate::lists::Evaluation, crate::lists::EvalError>)>,
    i: int,
) -> bool {
    let (name, config) = (runtime.config.lists@[i].0@, runtime.config.lists@[i].1);
    &&& s.name@ == name
    &&& s.list_formula@ == config.list_formula@
    &&& ov(s.filter) == ov(config.filter)
    &&& s.media_type@ == filter_text(config.media_type)
    &&& match crate::config::compile::list_named(runtime.lists@, name) {
        Some(l) => crate::model::strings_view(s.sources@) == crate::model::strings_view(l.source_deps@)
            && crate::model::strings_view(s.list_deps@) == crate::model::strings_view(l.list_deps@),
        None => s.sources@.len() == 0 && s.list_deps@.len() == 0,
    }
    &&& header_view(s.endpoints@) == endpoints_spec(name)
    &&& outcome_ok(s.outcome, evaluations, name)
}

fn list_counts(ev: &crate::lists::Evaluation) -> (r: ListCounts)
    ensures
        counts_ok(r, *ev),
{
    let movies = count(&ev.items, MediaType::Movie);
    proof {
        lemma_of_type_len(views(ev.items@), MediaType::Movie);
    }
    ListCounts {
        items: ev.items.len(),
        movies,
        shows: ev.items.len() - movies,
        stale_sources: crate::model::clone_strings(&ev.stale_sources),
        unenriched: ev.unenriched,
        evaluated_at: ev.evaluated_at,
    }
}

proof fn lemma_of_type_len(items: Seq<ItemView>, m: MediaType)
    ensures
        of_type(items, m).len() <= items.len(),
    decreases items.len(),
{
    if items.len() > 0 {
        lemma_of_type_len(items.drop_last(), m);
    }
}

/// The list index: every configured list with what it is made of, where
/// it is served, and what it evaluated to.
pub fn list_index(
    runtime: &crate::config::compile::Runtime,
    evaluations: &Vec<(String, Result<crate::lists::Evaluation, crate::lists::EvalError>)>,
) -> (r: Vec<ListSummary>)
    ensures
        r@.len() == runtime.config.lists@.len(),
        forall|i: int| 0 <= i < r@.len() ==> summary_ok(#[trigger] r@[i], *runtime, evaluations@, i),
{
    let mut out: Vec<ListSummary> = Vec::new();
    let mut i: usize = 0;
    while i < runtime.config.lists.len()
        invariant
            0 <= i <= runtime.config.lists@.len(),
            out@.len() == i,
            forall|k: int| 0 <= k < i ==> summary_ok(#[trigger] out@[k], *runtime, evaluations@, k),
        decreases runtime.config.lists.len() - i,
    {
        let (name, config) = &runtime.config.lists[i];
        let (sources, list_deps) = match runtime.list(name.as_str()) {
            Some(l) => (crate::model::clone_strings(&l.source_deps), crate::model::clone_strings(&l.list_deps)),
            None => (Vec::new(), Vec::new()),
        };
        let outcome = match crate::config::compile::find_named(evaluations, name.as_str()) {
            Some(k) => {
                proof {
                    crate::config::compile::lemma_position_first(evaluations@, name@, k as int);
                }
                match &evaluations[k].1 {
                    Ok(ev) => Ok(list_counts(ev)),
                    Err(e) => Err(e.message()),
                }
            },
            None => {
                let mut m = from_str("no list named `");
                push_str(&mut m, name.as_str());
                push_str(&mut m, "`");
                Err(m)
            },
        };
        let summary = ListSummary {
            name: clone_string(name),
            list_formula: clone_string(&config.list_formula),
            filter: crate::model::clone_opt_string(&config.filter),
            media_type: config.media_type.as_str(),
            sources,
            list_deps,
            endpoints: endpoints(name.as_str()),
            outcome,
        };
        let ghost prior = out@;
        proof {
            assert(summary_ok(summary, *runtime, evaluations@, i as int));
        }
        out.push(summary);
        proof {
            assert forall|k: int| 0 <= k < i + 1 implies summary_ok(#[trigger] out@[k], *runtime, evaluations@, k) by {
                if k < i {
                    assert(out@[k] == prior[k]);
                }
            }
        }
        i += 1;
    }
    out
}

} // verus!

verus! {

// ---------------------------------------------------------------------------
// One list response
// ---------------------------------------------------------------------------

/// The `Content-Type` a response in a format carries.
pub open spec fn content_type_spec(f: OutputFormat) -> Seq<char> {
    match f {
        OutputFormat::Kometa => "application/yaml; charset=utf-8"@,
        OutputFormat::KometaText => "text/plain; charset=utf-8"@,
        _ => "application/json"@,
    }
}

impl OutputFormat {
    /// The `Content-Type` a response in this format carries.
    pub fn content_type(self) -> (r: &'static str)
        ensures
            r@ == content_type_spec(self),
    {
        proof {
            reveal_strlit("text/plain; charset=utf-8");
            reveal_strlit("application/yaml; charset=utf-8");
            reveal_strlit("application/json");
        }
        match self {
            OutputFormat::Kometa => "application/yaml; charset=utf-8",
            OutputFormat::KometaText => "text/plain; charset=utf-8",
            _ => "application/json",
        }
    }
}

/// The items a `media_type` narrowing keeps, in order.
pub open spec fn admitted(items: Seq<ItemView>, f: MediaTypeFilter) -> Seq<ItemView> {
    items.filter(|i: ItemView| crate::config::model::filter_admits(f, i.media_type))
}

/// The items of the media types `filter` admits, in order.
pub fn narrow(items: &Vec<Item>, filter: MediaTypeFilter) -> (r: Vec<Item>)
    ensures
        views(r@) == admitted(views(items@), filter),
{
    let ghost all = views(items@);
    let ghost pred = |i: ItemView| crate::config::model::filter_admits(filter, i.media_type);
    let mut out: Vec<Item> = Vec::new();
    let mut i: usize = 0;
    assert(all.take(0).filter(pred) =~= Seq::<ItemView>::empty());
    while i < items.len()
        invariant
            0 <= i <= items@.len(),
            all == views(items@),
            views(out@) == all.take(i as int).filter(pred),
            forall|x: ItemView| #[trigger] pred(x) == crate::config::model::filter_admits(filter, x.media_type),
        decreases items.len() - i,
    {
        let item = &items[i];
        assert(all.take(i + 1) =~= all.take(i as int).push(item@));
        proof {
            all.take(i as int).lemma_filter_push(item@, pred);
        }
        if filter.matches(item.media_type) {
            let ghost before = out@;
            out.push(item.clone());
            assert(views(out@) =~= views(before).push(item@));
        }
        i += 1;
    }
    assert(all.take(items@.len() as int) =~= all);
    out
}

/// A list response's body, before it is encoded.
#[derive(Debug)]
pub enum Body {
    /// The normalized items themselves.
    Items(Vec<Item>),
    Radarr(Vec<RadarrMovie>),
    Sonarr(Vec<SonarrSeries>),
    Kometa(String),
    KometaText(String),
    KometaJson(Vec<KometaEntry>),
}

/// A list response: its body, its headers and its content type.
#[derive(Debug)]
pub struct Rendered {
    pub body: Body,
    pub headers: Vec<(&'static str, String)>,
    pub content_type: &'static str,
}

/// What a list response holds: the evaluated items narrowed to the asked-for
/// media type, written in the asked-for format, with headers that count what
/// was returned and what had to be left out.
pub open spec fn rendered_ok(
    r: Rendered,
    name: Seq<char>,
    kometa: crate::config::model::KometaConfig,
    query: ListQuery,
    ev: crate::lists::Evaluation,
) -> bool {
    let items = admitted(views(ev.items@), query.media_type);
    let unenriched = ev.unenriched as nat;
    let stale = crate::model::strings_view(ev.stale_sources@);
    &&& r.content_type@ == content_type_spec(query.format)
    &&& match query.format {
        OutputFormat::Json => {
            &&& r.body matches Body::Items(v) && views(v@) == items
            &&& header_view(r.headers@) == header_spec(items.len(), 0, unenriched, stale)
        },
        OutputFormat::Radarr => {
            &&& r.body matches Body::Radarr(p) && p@.len() == radarr_movies(items).len() && forall|k: int|
                0 <= k < p@.len() ==> radarr_entry_ok(#[trigger] p@[k], radarr_movies(items)[k])
            &&& header_view(r.headers@) == header_spec(
                radarr_movies(items).len(),
                (of_type(items, MediaType::Movie).len() - radarr_movies(items).len()) as nat,
                unenriched,
                stale,
            )
        },
        OutputFormat::Sonarr => {
            &&& r.body matches Body::Sonarr(p) && p@.len() == of_type(items, MediaType::Show).len()
                && forall|k: int|
                0 <= k < p@.len() ==> sonarr_entry_ok(#[trigger] p@[k], of_type(items, MediaType::Show)[k])
            &&& header_view(r.headers@) == header_spec(
                of_type(items, MediaType::Show).len(),
                without_tvdb(items),
                unenriched,
                stale,
            )
        },
        OutputFormat::Kometa => {
            &&& r.body matches Body::Kometa(s) && s@ == crate::collection::collection_yaml(
                name,
                kometa,
                kometa_ids(items),
            )
            &&& header_view(r.headers@) == header_spec(
                kometa_ids(items).len(),
                (items.len() - kometa_ids(items).len()) as nat,
                unenriched,
                stale,
            )
        },
        OutputFormat::KometaText => {
            &&& r.body matches Body::KometaText(s) && s@ == kometa_text_spec(name, items)
            &&& header_view(r.headers@) == header_spec(
                kometa_lines(items).len(),
                (items.len() - kometa_lines(items).len()) as nat,
                unenriched,
                stale,
            )
        },
        OutputFormat::KometaJson => {
            &&& r.body matches Body::KometaJson(p) && p@.len() == kometa_ids(items).len() && forall|k: int|
                0 <= k < p@.len() ==> entry_ok(#[trigger] p@[k], kometa_ids(items)[k])
            &&& header_view(r.headers@) == header_spec(
                kometa_ids(items).len(),
                (items.len() - kometa_ids(items).len()) as nat,
                unenriched,
                stale,
            )
        },
    }
}

/// One list, written the way the caller asked for it. The list is the
/// resource; the format is only how it is written down.
pub fn render(
    name: &str,
    kometa: &crate::config::model::KometaConfig,
    query: ListQuery,
    evaluation: &crate::lists::Evaluation,
) -> (r: Rendered)
    ensures
        rendered_ok(r, name@, *kometa, query, *evaluation),
{
    let items = narrow(&evaluation.items, query.media_type);
    let content_type = query.format.content_type();
    match query.format {
        OutputFormat::Json => {
            let n = items.len();
            let headers = response_headers(evaluation, n, 0);
            Rendered { body: Body::Items(items), headers, content_type }
        },
        OutputFormat::Radarr => {
            let (payload, skipped) = radarr_payload(&items);
            let headers = response_headers(evaluation, payload.len(), skipped);
            Rendered { body: Body::Radarr(payload), headers, content_type }
        },
        OutputFormat::Sonarr => {
            let (payload, skipped) = sonarr_payload(&items);
            let headers = response_headers(evaluation, payload.len(), skipped);
            Rendered { body: Body::Sonarr(payload), headers, content_type }
        },
        OutputFormat::Kometa => {
            let (body, skipped) = crate::collection::kometa_collection(name, kometa, &items);
            let headers = response_headers(evaluation, items.len() - skipped, skipped);
            Rendered { body: Body::Kometa(body), headers, content_type }
        },
        OutputFormat::KometaText => {
            let (body, skipped) = kometa_text(name, &items);
            let headers = response_headers(evaluation, items.len() - skipped, skipped);
            Rendered { body: Body::KometaText(body), headers, content_type }
        },
        OutputFormat::KometaJson => {
            let (payload, skipped) = kometa_json(&items);
            let headers = response_headers(evaluation, payload.len(), skipped);
            Rendered { body: Body::KometaJson(payload), headers, content_type }
        },
    }
}

} // verus!
