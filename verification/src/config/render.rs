//! A source configuration written out as text, every option included, so
//! that two configurations that differ in any option read differently.

use vstd::prelude::*;

use super::model::{
    filter_text, ArrSource, FieldMap, JsonSource, MdblistSource, SourceConfig, Span, StaticSource,
};
use crate::model::{media_type_text, MediaType};
use crate::text::{decimal, fmt_u64, from_str, join, join_strings, push_str};

verus! {

pub open spec fn quoted(s: Seq<char>) -> Seq<char> {
    "\""@ + s + "\""@
}

pub open spec fn texts_text(v: Seq<String>) -> Seq<char> {
    "["@ + join(v.map_values(|s: String| quoted(s@)), ","@) + "]"@
}

pub open spec fn opt_text_text(o: Option<String>) -> Seq<char> {
    match o {
        Some(s) => quoted(s@),
        None => "-"@,
    }
}

pub open spec fn opt_number_text(o: Option<nat>) -> Seq<char> {
    match o {
        Some(n) => decimal(n),
        None => "-"@,
    }
}

pub open spec fn span_text(s: Span) -> Seq<char> {
    decimal(s.secs as nat) + "s"@ + decimal(s.nanos as nat) + "ns"@
}

pub open spec fn opt_span_text(o: Option<Span>) -> Seq<char> {
    match o {
        Some(s) => span_text(s),
        None => "-"@,
    }
}

pub open spec fn bool_text(b: bool) -> Seq<char> {
    if b {
        "true"@
    } else {
        "false"@
    }
}

pub open spec fn headers_text(h: Seq<(String, String)>) -> Seq<char> {
    "["@ + join(h.map_values(|p: (String, String)| quoted(p.0@) + ":"@ + quoted(p.1@)), ","@) + "]"@
}

pub open spec fn fields_text(f: FieldMap) -> Seq<char> {
    texts_text(f.tmdb@) + texts_text(f.imdb@) + texts_text(f.tvdb@) + texts_text(f.trakt@) + texts_text(f.title@)
        + texts_text(f.year@) + texts_text(f.media_type@) + texts_text(f.released@) + texts_text(
        f.runtime@,
    ) + texts_text(f.country@) + texts_text(f.original_language@) + texts_text(f.spoken_language@)
        + texts_text(f.genres@) + texts_text(f.content_rating@) + texts_text(f.status@)
}

pub open spec fn mdblist_text(m: MdblistSource) -> Seq<char> {
    "mdblist list="@ + opt_text_text(m.list) + " list_id="@ + opt_number_text(
        match m.list_id {
            Some(n) => Some(n as nat),
            None => None,
        },
    ) + " url="@ + opt_text_text(m.url) + " apikey="@ + opt_text_text(m.apikey) + " media_type="@
        + filter_text(m.media_type) + " limit="@ + opt_number_text(
        match m.limit {
            Some(n) => Some(n as nat),
            None => None,
        },
    ) + " ttl="@ + opt_span_text(m.ttl) + " extra="@ + texts_text(m.extra@)
}

pub open spec fn static_text(s: StaticSource) -> Seq<char> {
    "static items="@ + texts_text(s.items@) + " media_type="@ + media_type_text(s.media_type) + " extra="@
        + texts_text(s.extra@)
}

pub open spec fn json_text(j: JsonSource) -> Seq<char> {
    "json url="@ + quoted(j.url@) + " headers="@ + headers_text(j.headers@) + " path="@ + opt_text_text(
        j.path,
    ) + " fields="@ + fields_text(j.fields) + " media_type="@ + media_type_text(j.media_type) + " ttl="@
        + opt_span_text(j.ttl) + " extra="@ + texts_text(j.extra@)
}

pub open spec fn arr_text(kind: Seq<char>, a: ArrSource) -> Seq<char> {
    kind + " url="@ + quoted(a.url@) + " api_key="@ + quoted(a.api_key@) + " monitored_only="@ + bool_text(
        a.monitored_only,
    ) + " ttl="@ + opt_span_text(a.ttl) + " extra="@ + texts_text(a.extra@)
}

/// A source configuration as text: its kind, then every option in a fixed
/// order.
pub open spec fn config_text(source: SourceConfig) -> Seq<char> {
    match source {
        SourceConfig::Mdblist(m) => mdblist_text(m),
        SourceConfig::Static(s) => static_text(s),
        SourceConfig::Json(j) => json_text(j),
        SourceConfig::Radarr(a) => arr_text("radarr"@, a),
        SourceConfig::Sonarr(a) => arr_text("sonarr"@, a),
    }
}

fn quote(s: &str) -> (r: String)
    ensures
        r@ == quoted(s@),
{
    let mut out = from_str("\"");
    push_str(&mut out, s);
    push_str(&mut out, "\"");
    out
}

fn texts(v: &Vec<String>) -> (r: String)
    ensures
        r@ == texts_text(v@),
{
    let mut parts: Vec<String> = Vec::new();
    let mut i: usize = 0;
    while i < v.len()
        invariant
            0 <= i <= v@.len(),
            parts@.len() == i,
            parts@.map_values(|p: String| p@) == v@.subrange(0, i as int).map_values(|s: String| quoted(s@)),
        decreases v.len() - i,
    {
        let q = quote(v[i].as_str());
        let ghost before = parts@;
        parts.push(q);
        assert forall|k: int| 0 <= k < i + 1 implies #[trigger] parts@[k]@ == quoted(v@[k]@) by {
            if k < i {
                assert(parts@[k] == before[k]);
                assert(before.map_values(|p: String| p@)[k] == v@.subrange(0, i as int).map_values(|s: String| quoted(s@))[k]);
            }
        }
        assert(parts@.map_values(|p: String| p@) =~= v@.subrange(0, i + 1).map_values(|s: String| quoted(s@)));
        i += 1;
    }
    assert(v@.subrange(0, v@.len() as int) =~= v@);
    let mut out = from_str("[");
    let joined = join_strings(&parts, ",");
    push_str(&mut out, joined.as_str());
    push_str(&mut out, "]");
    out
}

fn opt_text(o: &Option<String>) -> (r: String)
    ensures
        r@ == opt_text_text(*o),
{
    match o {
        Some(s) => quote(s.as_str()),
        None => from_str("-"),
    }
}

fn opt_number(o: Option<u64>) -> (r: String)
    ensures
        r@ == opt_number_text(
            match o {
                Some(n) => Some(n as nat),
                None => None,
            },
        ),
{
    match o {
        Some(n) => fmt_u64(n),
        None => from_str("-"),
    }
}

fn span(s: Span) -> (r: String)
    ensures
        r@ == span_text(s),
{
    let mut out = fmt_u64(s.secs);
    push_str(&mut out, "s");
    let n = fmt_u64(s.nanos as u64);
    push_str(&mut out, n.as_str());
    push_str(&mut out, "ns");
    out
}

fn opt_span(o: Option<Span>) -> (r: String)
    ensures
        r@ == opt_span_text(o),
{
    match o {
        Some(s) => span(s),
        None => from_str("-"),
    }
}

fn headers(h: &Vec<(String, String)>) -> (r: String)
    ensures
        r@ == headers_text(h@),
{
    let mut parts: Vec<String> = Vec::new();
    let mut i: usize = 0;
    while i < h.len()
        invariant
            0 <= i <= h@.len(),
            parts@.len() == i,
            parts@.map_values(|p: String| p@) == h@.subrange(0, i as int).map_values(
                |p: (String, String)| quoted(p.0@) + ":"@ + quoted(p.1@),
            ),
        decreases h.len() - i,
    {
        let mut q = quote(h[i].0.as_str());
        push_str(&mut q, ":");
        let v = quote(h[i].1.as_str());
        push_str(&mut q, v.as_str());
        let ghost before = parts@;
        parts.push(q);
        assert forall|k: int| 0 <= k < i + 1 implies #[trigger] parts@[k]@ == quoted(h@[k].0@) + ":"@ + quoted(h@[k].1@) by {
            if k < i {
                assert(parts@[k] == before[k]);
                assert(before.map_values(|p: String| p@)[k] == h@.subrange(0, i as int).map_values(
                    |p: (String, String)| quoted(p.0@) + ":"@ + quoted(p.1@),
                )[k]);
            }
        }
        assert(parts@.map_values(|p: String| p@) =~= h@.subrange(0, i + 1).map_values(
            |p: (String, String)| quoted(p.0@) + ":"@ + quoted(p.1@),
        ));
        i += 1;
    }
    assert(h@.subrange(0, h@.len() as int) =~= h@);
    let mut out = from_str("[");
    let joined = join_strings(&parts, ",");
    push_str(&mut out, joined.as_str());
    push_str(&mut out, "]");
    out
}

fn fields(f: &FieldMap) -> (r: String)
    ensures
        r@ == fields_text(*f),
{
    let mut out = texts(&f.tmdb);
    push_str(&mut out, texts(&f.imdb).as_str());
    push_str(&mut out, texts(&f.tvdb).as_str());
    push_str(&mut out, texts(&f.trakt).as_str());
    push_str(&mut out, texts(&f.title).as_str());
    push_str(&mut out, texts(&f.year).as_str());
    push_str(&mut out, texts(&f.media_type).as_str());
    push_str(&mut out, texts(&f.released).as_str());
    push_str(&mut out, texts(&f.runtime).as_str());
    push_str(&mut out, texts(&f.country).as_str());
    push_str(&mut out, texts(&f.original_language).as_str());
    push_str(&mut out, texts(&f.spoken_language).as_str());
    push_str(&mut out, texts(&f.genres).as_str());
    push_str(&mut out, texts(&f.content_rating).as_str());
    push_str(&mut out, texts(&f.status).as_str());
    out
}

fn media_type_word(m: MediaType) -> (r: &'static str)
    ensures
        r@ == media_type_text(m),
{
    match m {
        MediaType::Movie => "movie",
        MediaType::Show => "show",
    }
}

fn arr(kind: &str, a: &ArrSource) -> (r: String)
    ensures
        r@ == arr_text(kind@, *a),
{
    let mut out = from_str(kind);
    push_str(&mut out, " url=");
    push_str(&mut out, quote(a.url.as_str()).as_str());
    push_str(&mut out, " api_key=");
    push_str(&mut out, quote(a.api_key.as_str()).as_str());
    push_str(&mut out, " monitored_only=");
    push_str(&mut out, if a.monitored_only { "true" } else { "false" });
    push_str(&mut out, " ttl=");
    push_str(&mut out, opt_span(a.ttl).as_str());
    push_str(&mut out, " extra=");
    push_str(&mut out, texts(&a.extra).as_str());
    out
}

/// A source configuration written out in full.
pub fn render_source(source: &SourceConfig) -> (r: String)
    ensures
        r@ == config_text(*source),
{
    match source {
        SourceConfig::Mdblist(m) => {
            let mut out = from_str("mdblist list=");
            push_str(&mut out, opt_text(&m.list).as_str());
            push_str(&mut out, " list_id=");
            push_str(&mut out, opt_number(m.list_id).as_str());
            push_str(&mut out, " url=");
            push_str(&mut out, opt_text(&m.url).as_str());
            push_str(&mut out, " apikey=");
            push_str(&mut out, opt_text(&m.apikey).as_str());
            push_str(&mut out, " media_type=");
            push_str(&mut out, m.media_type.as_str());
            push_str(&mut out, " limit=");
            let limit = match m.limit {
                Some(n) => Some(n as u64),
                None => None,
            };
            push_str(&mut out, opt_number(limit).as_str());
            push_str(&mut out, " ttl=");
            push_str(&mut out, opt_span(m.ttl).as_str());
            push_str(&mut out, " extra=");
            push_str(&mut out, texts(&m.extra).as_str());
            out
        },
        SourceConfig::Static(s) => {
            let mut out = from_str("static items=");
            push_str(&mut out, texts(&s.items).as_str());
            push_str(&mut out, " media_type=");
            push_str(&mut out, media_type_word(s.media_type));
            push_str(&mut out, " extra=");
            push_str(&mut out, texts(&s.extra).as_str());
            out
        },
        SourceConfig::Json(j) => {
            let mut out = from_str("json url=");
            push_str(&mut out, quote(j.url.as_str()).as_str());
            push_str(&mut out, " headers=");
            push_str(&mut out, headers(&j.headers).as_str());
            push_str(&mut out, " path=");
            push_str(&mut out, opt_text(&j.path).as_str());
            push_str(&mut out, " fields=");
            push_str(&mut out, fields(&j.fields).as_str());
            push_str(&mut out, " media_type=");
            push_str(&mut out, media_type_word(j.media_type));
            push_str(&mut out, " ttl=");
            push_str(&mut out, opt_span(j.ttl).as_str());
            push_str(&mut out, " extra=");
            push_str(&mut out, texts(&j.extra).as_str());
            out
        },
        SourceConfig::Radarr(a) => arr("radarr", a),
        SourceConfig::Sonarr(a) => arr("sonarr", a),
    }
}

} // verus!
