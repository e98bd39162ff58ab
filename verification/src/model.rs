//! Normalized media items and the external ids used to identify them.

use vstd::prelude::*;

use chrono::Datelike;

use crate::text::{
    ascii_lower, ascii_lower_char, ascii_lower_chars, is_ascii_upper, is_white_space, trim_chars, trim_end, trim_start,
    all_digits, append_chars, chars_eq, chars_occur_at, chars_of, chars_starts_with,
    clone_string, decimal, fmt_i64, fmt_u64, from_str, has_char, is_ascii_digit, keyword,
    keyword_of, parse_u32, parse_u32_spec, push_char, push_str, signed_decimal, starts_with,
    string_eq, string_of, string_of_range, to_lowercase, trim, trim_string, unicode_lower,
};

verus! {

// ---------------------------------------------------------------------------
// Small shared helpers
// ---------------------------------------------------------------------------

/// The text of an optional string.
pub open spec fn ov(o: Option<String>) -> Option<Seq<char>> {
    match o {
        Some(s) => Some(s@),
        None => None,
    }
}

pub fn clone_opt_string(o: &Option<String>) -> (r: Option<String>)
    ensures
        ov(r) == ov(*o),
{
    match o {
        Some(s) => Some(clone_string(s)),
        None => None,
    }
}

pub open spec fn strings_view(v: Seq<String>) -> Seq<Seq<char>> {
    v.map_values(|s: String| s@)
}

pub fn clone_strings(v: &Vec<String>) -> (r: Vec<String>)
    ensures
        strings_view(r@) == strings_view(v@),
{
    let mut out: Vec<String> = Vec::new();
    let mut i: usize = 0;
    while i < v.len()
        invariant
            0 <= i <= v@.len(),
            out@.len() == i,
            forall|k: int| 0 <= k < i ==> out@[k]@ == v@[k]@,
        decreases v.len() - i,
    {
        out.push(clone_string(&v[i]));
        i += 1;
    }
    assert(strings_view(out@) =~= strings_view(v@));
    out
}

/// Whether `k` is the word `w`.
pub fn is_word(k: &[char], w: &str) -> (r: bool)
    ensures
        r == (k@ == w@),
{
    let wv = chars_of(w);
    chars_eq(k, &wv)
}

// ---------------------------------------------------------------------------
// Media type and provider
// ---------------------------------------------------------------------------

#[derive(Debug, Clone, Copy, PartialEq, Eq, Structural, Hash, PartialOrd, Ord)]
pub enum MediaType {
    Movie,
    Show,
}

/// The spellings upstream providers use for each media type.
pub open spec fn media_type_word(k: Seq<char>) -> Option<MediaType> {
    if k == "movie"@ || k == "movies"@ || k == "film"@ || k == "feature"@ {
        Some(MediaType::Movie)
    } else if k == "show"@ || k == "shows"@ || k == "tv"@ || k == "series"@ || k == "season"@ || k
        == "episode"@ {
        Some(MediaType::Show)
    } else {
        None
    }
}

pub open spec fn media_type_text(m: MediaType) -> Seq<char> {
    match m {
        MediaType::Movie => "movie"@,
        MediaType::Show => "show"@,
    }
}

impl MediaType {
    pub fn default_value() -> (r: MediaType)
        ensures
            r == MediaType::Movie,
    {
        MediaType::Movie
    }

    /// Lenient parsing of the many spellings upstream providers use.
    pub fn parse(raw: &str) -> (r: Option<MediaType>)
        ensures
            r == media_type_word(keyword(raw@)),
    {
        let k = keyword_of(raw);
        if is_word(&k, "movie") || is_word(&k, "movies") || is_word(&k, "film") || is_word(
            &k,
            "feature",
        ) {
            Some(MediaType::Movie)
        } else if is_word(&k, "show") || is_word(&k, "shows") || is_word(&k, "tv") || is_word(
            &k,
            "series",
        ) || is_word(&k, "season") || is_word(&k, "episode") {
            Some(MediaType::Show)
        } else {
            None
        }
    }

    pub fn as_str(self) -> (r: &'static str)
        ensures
            r@ == media_type_text(self),
    {
        match self {
            MediaType::Movie => "movie",
            MediaType::Show => "show",
        }
    }
}

#[derive(Debug, Clone, Copy, PartialEq, Eq, Structural, Hash, PartialOrd, Ord)]
pub enum Provider {
    Tmdb,
    Imdb,
    Tvdb,
    Trakt,
}

pub open spec fn provider_word(k: Seq<char>) -> Option<Provider> {
    if k == "tmdb"@ {
        Some(Provider::Tmdb)
    } else if k == "imdb"@ {
        Some(Provider::Imdb)
    } else if k == "tvdb"@ || k == "thetvdb"@ {
        Some(Provider::Tvdb)
    } else if k == "trakt"@ {
        Some(Provider::Trakt)
    } else {
        None
    }
}

pub open spec fn provider_text(p: Provider) -> Seq<char> {
    match p {
        Provider::Tmdb => "tmdb"@,
        Provider::Imdb => "imdb"@,
        Provider::Tvdb => "tvdb"@,
        Provider::Trakt => "trakt"@,
    }
}

impl Provider {
    pub fn parse(raw: &str) -> (r: Option<Provider>)
        ensures
            r == provider_word(keyword(raw@)),
    {
        let k = keyword_of(raw);
        if is_word(&k, "tmdb") {
            Some(Provider::Tmdb)
        } else if is_word(&k, "imdb") {
            Some(Provider::Imdb)
        } else if is_word(&k, "tvdb") || is_word(&k, "thetvdb") {
            Some(Provider::Tvdb)
        } else if is_word(&k, "trakt") {
            Some(Provider::Trakt)
        } else {
            None
        }
    }

    pub fn as_str(self) -> (r: &'static str)
        ensures
            r@ == provider_text(self),
    {
        match self {
            Provider::Tmdb => "tmdb",
            Provider::Imdb => "imdb",
            Provider::Tvdb => "tvdb",
            Provider::Trakt => "trakt",
        }
    }
}

// ---------------------------------------------------------------------------
// External ids
// ---------------------------------------------------------------------------

/// Every external id known for one item. All fields are optional; an item with
/// no ids at all cannot be matched against anything and is dropped on ingest.
#[derive(Debug, Default)]
pub struct MediaIds {
    pub tmdb: Option<u32>,
    pub imdb: Option<String>,
    pub tvdb: Option<u32>,
    pub trakt: Option<u32>,
}

pub struct MediaIdsView {
    pub tmdb: Option<u32>,
    pub imdb: Option<Seq<char>>,
    pub tvdb: Option<u32>,
    pub trakt: Option<u32>,
}

impl View for MediaIds {
    type V = MediaIdsView;

    open spec fn view(&self) -> MediaIdsView {
        MediaIdsView { tmdb: self.tmdb, imdb: ov(self.imdb), tvdb: self.tvdb, trakt: self.trakt }
    }
}

impl MediaIdsView {
    pub open spec fn with_imdb(self, n: Seq<char>) -> MediaIdsView {
        MediaIdsView { tmdb: self.tmdb, imdb: Some(n), tvdb: self.tvdb, trakt: self.trakt }
    }

    /// The ids with the numeric id of `p` (TMDb, TVDb or Trakt) set to `n`.
    pub open spec fn with_number(self, p: Provider, n: u32) -> MediaIdsView {
        match p {
            Provider::Tmdb => MediaIdsView { tmdb: Some(n), ..self },
            Provider::Tvdb => MediaIdsView { tvdb: Some(n), ..self },
            _ => MediaIdsView { trakt: Some(n), ..self },
        }
    }

    pub open spec fn is_empty(self) -> bool {
        self.tmdb is None && self.imdb is None && self.tvdb is None && self.trakt is None
    }

    /// The identity keys as `(provider, value)` pairs, in provider order.
    pub open spec fn keys(self) -> Seq<(Provider, Seq<char>)> {
        (if self.tmdb is Some {
            seq![(Provider::Tmdb, decimal(self.tmdb->0 as nat))]
        } else {
            seq![]
        }) + (if self.imdb is Some {
            seq![(Provider::Imdb, self.imdb->0)]
        } else {
            seq![]
        }) + (if self.tvdb is Some {
            seq![(Provider::Tvdb, decimal(self.tvdb->0 as nat))]
        } else {
            seq![]
        }) + (if self.trakt is Some {
            seq![(Provider::Trakt, decimal(self.trakt->0 as nat))]
        } else {
            seq![]
        })
    }

    /// Fill in what this set of ids is missing from `other`; existing values win.
    pub open spec fn fill_from(self, other: MediaIdsView) -> MediaIdsView {
        MediaIdsView {
            tmdb: if self.tmdb is Some {
                self.tmdb
            } else {
                other.tmdb
            },
            imdb: if self.imdb is Some {
                self.imdb
            } else {
                other.imdb
            },
            tvdb: if self.tvdb is Some {
                self.tvdb
            } else {
                other.tvdb
            },
            trakt: if self.trakt is Some {
                self.trakt
            } else {
                other.trakt
            },
        }
    }
}

impl Clone for MediaIds {
    fn clone(&self) -> (r: Self)
        ensures
            r@ == self@,
    {
        MediaIds {
            tmdb: self.tmdb,
            imdb: clone_opt_string(&self.imdb),
            tvdb: self.tvdb,
            trakt: self.trakt,
        }
    }
}

pub open spec fn no_ids() -> MediaIdsView {
    MediaIdsView { tmdb: None, imdb: None, tvdb: None, trakt: None }
}

/// What recording `value` as the `provider` id does to `ids`.
pub open spec fn set_outcome(ids: MediaIdsView, provider: Provider, value: Seq<char>) -> Result<
    MediaIdsView,
    Seq<char>,
> {
    if provider == Provider::Imdb {
        match normalize_imdb_spec(value) {
            Some(n) => Ok(ids.with_imdb(n)),
            None => Err(invalid_id_message(provider, value)),
        }
    } else {
        match parse_u32_spec(trim(value)) {
            Some(n) => Ok(ids.with_number(provider, n)),
            None => Err(invalid_id_message(provider, value)),
        }
    }
}

/// The message `MediaIds::set` gives for a value it cannot read.
pub open spec fn invalid_id_message(provider: Provider, value: Seq<char>) -> Seq<char> {
    "invalid "@ + provider_text(provider) + " id `"@ + value + "`"@
}

impl MediaIds {
    pub fn empty() -> (r: MediaIds)
        ensures
            r@ == no_ids(),
    {
        MediaIds { tmdb: None, imdb: None, tvdb: None, trakt: None }
    }

    pub fn is_empty(&self) -> (r: bool)
        ensures
            r == self@.is_empty(),
    {
        self.tmdb.is_none() && self.imdb.is_none() && self.tvdb.is_none() && self.trakt.is_none()
    }

    /// The identity keys this item contributes, as `(provider, value)` pairs.
    pub fn keys(&self) -> (r: Vec<(Provider, String)>)
        ensures
            r@.len() == self@.keys().len(),
            forall|i: int|
                0 <= i < r@.len() ==> (#[trigger] r@[i]).0 == self@.keys()[i].0 && r@[i].1@
                    == self@.keys()[i].1,
    {
        let mut out: Vec<(Provider, String)> = Vec::new();
        let ghost mut model: Seq<(Provider, Seq<char>)> = seq![];
        if let Some(id) = self.tmdb {
            out.push((Provider::Tmdb, fmt_u64(id as u64)));
            proof {
                model = model.push((Provider::Tmdb, decimal(id as nat)));
            }
        }
        if let Some(id) = &self.imdb {
            out.push((Provider::Imdb, clone_string(id)));
            proof {
                model = model.push((Provider::Imdb, id@));
            }
        }
        if let Some(id) = self.tvdb {
            out.push((Provider::Tvdb, fmt_u64(id as u64)));
            proof {
                model = model.push((Provider::Tvdb, decimal(id as nat)));
            }
        }
        if let Some(id) = self.trakt {
            out.push((Provider::Trakt, fmt_u64(id as u64)));
            proof {
                model = model.push((Provider::Trakt, decimal(id as nat)));
            }
        }
        assert(model =~= self@.keys());
        out
    }

    /// Fill in whatever this set of ids is missing from `other`. Existing values win.
    pub fn fill_from(&mut self, other: &MediaIds)
        ensures
            final(self)@ == old(self)@.fill_from(other@),
    {
        if self.tmdb.is_none() {
            self.tmdb = other.tmdb;
        }
        if self.imdb.is_none() {
            self.imdb = clone_opt_string(&other.imdb);
        }
        if self.tvdb.is_none() {
            self.tvdb = other.tvdb;
        }
        if self.trakt.is_none() {
            self.trakt = other.trakt;
        }
    }

    /// Record one id. IMDb ids are normalized; the others must be whole numbers.
    pub fn set(&mut self, provider: Provider, value: &str) -> (r: Result<(), String>)
        ensures
            match set_outcome(old(self)@, provider, value@) {
                Ok(m) => r is Ok && final(self)@ == m,
                Err(msg) => final(self)@ == old(self)@ && match r {
                    Err(e) => e@ == msg,
                    Ok(_) => false,
                },
            },
    {
        match provider {
            Provider::Imdb => {
                match normalize_imdb(value) {
                    Some(n) => {
                        self.imdb = Some(n);
                        Ok(())
                    },
                    None => Err(invalid_id_message_text(provider, value)),
                }
            },
            _ => {
                let trimmed = trim_string(value);
                match parse_u32(trimmed.as_str()) {
                    Some(n) => {
                        match provider {
                            Provider::Tmdb => self.tmdb = Some(n),
                            Provider::Tvdb => self.tvdb = Some(n),
                            _ => self.trakt = Some(n),
                        }
                        Ok(())
                    },
                    None => Err(invalid_id_message_text(provider, value)),
                }
            },
        }
    }
}

fn invalid_id_message_text(provider: Provider, value: &str) -> (r: String)
    ensures
        r@ == invalid_id_message(provider, value@),
{
    let mut s = from_str("invalid ");
    push_str(&mut s, provider.as_str());
    push_str(&mut s, " id `");
    push_str(&mut s, value);
    push_str(&mut s, "`");
    s
}

/// The digits of an IMDb id: the trimmed, lowercased text without its `tt`.
pub open spec fn imdb_digits(raw: Seq<char>) -> Seq<char> {
    let t = keyword(raw);
    if starts_with(t, "tt"@) {
        t.subrange("tt"@.len() as int, t.len() as int)
    } else {
        t
    }
}

/// `digits` padded with leading zeros to at least `width` characters.
pub open spec fn zero_pad(digits: Seq<char>, width: nat) -> Seq<char> {
    if digits.len() >= width {
        digits
    } else {
        Seq::new((width - digits.len()) as nat, |i: int| '0') + digits
    }
}

/// `tt0137523`, `0137523` and `137523` all denote the same IMDb title; the
/// canonical form is `tt`-prefixed and zero-padded to seven digits.
pub open spec fn normalize_imdb_spec(raw: Seq<char>) -> Option<Seq<char>> {
    let d = imdb_digits(raw);
    if d.len() == 0 || !all_digits(d) {
        None
    } else {
        Some("tt"@ + zero_pad(d, 7))
    }
}

/// A canonical IMDb id is its own canonical form: normalizing twice is
/// normalizing once.
pub proof fn lemma_normalize_imdb_idempotent(raw: Seq<char>)
    ensures
        normalize_imdb_spec(raw) matches Some(n) ==> normalize_imdb_spec(n) == Some(n),
{
    if let Some(n) = normalize_imdb_spec(raw) {
        reveal_strlit("tt");
        let d = imdb_digits(raw);
        let p = zero_pad(d, 7);
        assert(all_digits(p)) by {
            assert forall|i: int| 0 <= i < p.len() implies is_ascii_digit(#[trigger] p[i]) by {
                if d.len() < 7 {
                    let z = (7 - d.len()) as nat;
                    if i >= z {
                        assert(p[i] == d[i - z]);
                    }
                }
            }
        }
        assert(p.len() >= 7);
        assert(n == "tt"@ + p);
        assert(n[0] == 't');
        assert(is_ascii_digit(n[n.len() - 1])) by {
            assert(n[n.len() - 1] == p[p.len() - 1]);
        }
        assert(trim_start(n) == n);
        assert(trim_end(n) == n);
        assert(ascii_lower(n) =~= n) by {
            assert forall|i: int| 0 <= i < n.len() implies ascii_lower(n)[i] == n[i] by {
                if i >= 2 {
                    assert(n[i] == p[i - 2]);
                    assert(is_ascii_digit(p[i - 2]));
                }
            }
        }
        assert(keyword(n) == n);
        assert(n.subrange(0, 2) =~= "tt"@);
        assert(imdb_digits(n) =~= p);
        assert(zero_pad(p, 7) == p);
    }
}

/// The canonical `tt`-prefixed, zero-padded form of an IMDb id.
pub fn normalize_imdb(raw: &str) -> (r: Option<String>)
    ensures
        ov(r) == normalize_imdb_spec(raw@),
{
    let t = keyword_of(raw);
    let tt = chars_of("tt");
    let start: usize = if chars_starts_with(&t, &tt) {
        tt.len()
    } else {
        0
    };
    let ghost d = imdb_digits(raw@);
    assert(t@.subrange(start as int, t@.len() as int) =~= d);
    if start == t.len() {
        assert(normalize_imdb_spec(raw@) is None);
        return None;
    }
    let mut i: usize = start;
    while i < t.len()
        invariant
            start <= i <= t@.len(),
            d == imdb_digits(raw@),
            d == t@.subrange(start as int, t@.len() as int),
            forall|k: int| start <= k < i ==> is_ascii_digit(t@[k]),
        decreases t.len() - i,
    {
        if !('0' <= t[i] && t[i] <= '9') {
            assert(d[i - start] == t@[i as int]);
            assert(normalize_imdb_spec(raw@) is None);
            return None;
        }
        i += 1;
    }
    assert(all_digits(d)) by {
        assert forall|k: int| 0 <= k < d.len() implies is_ascii_digit(#[trigger] d[k]) by {
            assert(d[k] == t@[k + start]);
        }
    }
    let mut out = from_str("tt");
    let len = t.len() - start;
    let mut pad: usize = len;
    let ghost before = out@;
    while pad < 7
        invariant
            len <= pad <= 7 || (len > 7 && pad == len),
            out@ == before + Seq::new((pad - len) as nat, |k: int| '0'),
        decreases 7 - pad,
    {
        push_char(&mut out, '0');
        assert(out@ =~= before + Seq::new((pad + 1 - len) as nat, |k: int| '0'));
        pad += 1;
    }
    append_chars(&mut out, &t, start, t.len());
    proof {
        if len >= 7 {
            assert(pad == len);
            assert(out@ =~= "tt"@ + zero_pad(d, 7));
        } else {
            assert(pad == 7);
            assert(out@ =~= "tt"@ + zero_pad(d, 7));
        }
        assert(normalize_imdb_spec(raw@) == Some(out@));
    }
    Some(out)
}

/// Lowercase and trim a free-form code (country, language, genre); empty
/// becomes `None` so a source sending `""` does not look like knowledge.
pub open spec fn normalize_code_spec(raw: Seq<char>) -> Option<Seq<char>> {
    let k = keyword(raw);
    if k.len() == 0 {
        None
    } else {
        Some(k)
    }
}

pub fn normalize_code(raw: &str) -> (r: Option<String>)
    ensures
        ov(r) == normalize_code_spec(raw@),
{
    let k = keyword_of(raw);
    if k.len() == 0 {
        None
    } else {
        Some(string_of(&k))
    }
}

// ---------------------------------------------------------------------------
// Dates
// ---------------------------------------------------------------------------

/// A calendar date, as the sources and the config write it (`YYYY-MM-DD`).
#[derive(Debug, Clone, Copy, PartialEq, Eq, Structural, Hash)]
pub struct Date {
    pub year: i32,
    pub month: u32,
    pub day: u32,
}

/// Calendar order.
pub open spec fn date_lt(a: Date, b: Date) -> bool {
    ||| a.year < b.year
    ||| a.year == b.year && a.month < b.month
    ||| a.year == b.year && a.month == b.month && a.day < b.day
}

pub fn date_before(a: Date, b: Date) -> (r: bool)
    ensures
        r == date_lt(a, b),
{
    a.year < b.year || (a.year == b.year && a.month < b.month) || (a.year == b.year && a.month
        == b.month && a.day < b.day)
}

/// What `chrono::NaiveDate::parse_from_str(text, "%Y-%m-%d")` yields.
pub uninterp spec fn calendar_date(text: Seq<char>) -> Option<Date>;

/// `chrono::NaiveDate::parse_from_str` with the `%Y-%m-%d` format. Claimed:
/// the outcome is a function of the text, and a date it yields has a month in
/// `1..=12` and a day in `1..=31`, as chrono's `NaiveDate` guarantees.
#[verifier::external_body]
pub(crate) fn parse_date(text: &str) -> (r: Option<Date>)
    ensures
        r == calendar_date(text@),
        r matches Some(d) ==> 1 <= d.month <= 12 && 1 <= d.day <= 31,
{
    match chrono::NaiveDate::parse_from_str(text, "%Y-%m-%d") {
        Ok(d) => Some(Date { year: d.year(), month: d.month(), day: d.day() }),
        Err(_) => None,
    }
}

impl Date {
    /// `YYYY-MM-DD`, as the date is shown back to the user.
    pub fn to_text(&self) -> (r: String)
        ensures
            r@ == date_text(*self),
    {
        let mut s = if self.year < 0 {
            fmt_i64(self.year as i64)
        } else {
            pad_number(self.year as u64, 4)
        };
        push_char(&mut s, '-');
        let m = pad_number(self.month as u64, 2);
        push_str(&mut s, m.as_str());
        push_char(&mut s, '-');
        let d = pad_number(self.day as u64, 2);
        push_str(&mut s, d.as_str());
        s
    }
}

pub open spec fn date_text(d: Date) -> Seq<char> {
    (if d.year < 0 {
        signed_decimal(d.year as int)
    } else {
        zero_pad(decimal(d.year as nat), 4)
    }) + seq!['-'] + zero_pad(decimal(d.month as nat), 2) + seq!['-'] + zero_pad(
        decimal(d.day as nat),
        2,
    )
}

pub fn pad_number(n: u64, width: usize) -> (r: String)
    ensures
        r@ == zero_pad(decimal(n as nat), width as nat),
{
    let digits = fmt_u64(n);
    let len = digits.as_str().unicode_len();
    if len >= width {
        return digits;
    }
    let mut out = String::new();
    let mut i: usize = len;
    while i < width
        invariant
            len <= i <= width,
            out@ == Seq::new((i - len) as nat, |k: int| '0'),
        decreases width - i,
    {
        push_char(&mut out, '0');
        assert(out@ =~= Seq::new((i + 1 - len) as nat, |k: int| '0'));
        i += 1;
    }
    push_str(&mut out, digits.as_str());
    out
}

// ---------------------------------------------------------------------------
// Descriptive attributes
// ---------------------------------------------------------------------------

/// Descriptive metadata used by filters. Every field is optional: absent means
/// "not known", never "not applicable".
#[derive(Debug, Default)]
pub struct Attrs {
    pub country: Option<String>,
    pub original_language: Option<String>,
    pub spoken_language: Option<String>,
    pub genres: Vec<String>,
    pub runtime: Option<u32>,
    pub content_rating: Option<String>,
    pub status: Option<String>,
}

pub struct AttrsView {
    pub country: Option<Seq<char>>,
    pub original_language: Option<Seq<char>>,
    pub spoken_language: Option<Seq<char>>,
    pub genres: Seq<Seq<char>>,
    pub runtime: Option<u32>,
    pub content_rating: Option<Seq<char>>,
    pub status: Option<Seq<char>>,
}

impl View for Attrs {
    type V = AttrsView;

    open spec fn view(&self) -> AttrsView {
        AttrsView {
            country: ov(self.country),
            original_language: ov(self.original_language),
            spoken_language: ov(self.spoken_language),
            genres: strings_view(self.genres@),
            runtime: self.runtime,
            content_rating: ov(self.content_rating),
            status: ov(self.status),
        }
    }
}

pub open spec fn or_else<T>(a: Option<T>, b: Option<T>) -> Option<T> {
    if a is Some {
        a
    } else {
        b
    }
}

impl AttrsView {
    pub open spec fn is_empty(self) -> bool {
        &&& self.country is None
        &&& self.original_language is None
        &&& self.spoken_language is None
        &&& self.genres.len() == 0
        &&& self.runtime is None
        &&& self.content_rating is None
        &&& self.status is None
    }

    /// Fill in what this set of attributes is missing from `other`; existing
    /// values win, and a non-empty genre list is kept whole.
    pub open spec fn fill_from(self, other: AttrsView) -> AttrsView {
        AttrsView {
            country: or_else(self.country, other.country),
            original_language: or_else(self.original_language, other.original_language),
            spoken_language: or_else(self.spoken_language, other.spoken_language),
            genres: if self.genres.len() == 0 {
                other.genres
            } else {
                self.genres
            },
            runtime: or_else(self.runtime, other.runtime),
            content_rating: or_else(self.content_rating, other.content_rating),
            status: or_else(self.status, other.status),
        }
    }
}

pub open spec fn no_attrs() -> AttrsView {
    AttrsView {
        country: None,
        original_language: None,
        spoken_language: None,
        genres: seq![],
        runtime: None,
        content_rating: None,
        status: None,
    }
}

impl Clone for Attrs {
    fn clone(&self) -> (r: Self)
        ensures
            r@ == self@,
    {
        Attrs {
            country: clone_opt_string(&self.country),
            original_language: clone_opt_string(&self.original_language),
            spoken_language: clone_opt_string(&self.spoken_language),
            genres: clone_strings(&self.genres),
            runtime: self.runtime,
            content_rating: clone_opt_string(&self.content_rating),
            status: clone_opt_string(&self.status),
        }
    }
}

impl Attrs {
    pub fn empty() -> (r: Attrs)
        ensures
            r@ == no_attrs(),
    {
        let r = Attrs {
            country: None,
            original_language: None,
            spoken_language: None,
            genres: Vec::new(),
            runtime: None,
            content_rating: None,
            status: None,
        };
        assert(r@.genres =~= Seq::<Seq<char>>::empty());
        r
    }

    pub fn is_empty(&self) -> (r: bool)
        ensures
            r == self@.is_empty(),
    {
        self.country.is_none() && self.original_language.is_none()
            && self.spoken_language.is_none() && self.genres.len() == 0 && self.runtime.is_none()
            && self.content_rating.is_none() && self.status.is_none()
    }

    /// Fill in whatever this set of attributes is missing from `other`.
    /// Existing values win, matching [`MediaIds::fill_from`].
    pub fn fill_from(&mut self, other: &Attrs)
        ensures
            final(self)@ == old(self)@.fill_from(other@),
    {
        if self.country.is_none() {
            self.country = clone_opt_string(&other.country);
        }
        if self.original_language.is_none() {
            self.original_language = clone_opt_string(&other.original_language);
        }
        if self.spoken_language.is_none() {
            self.spoken_language = clone_opt_string(&other.spoken_language);
        }
        if self.genres.len() == 0 {
            self.genres = clone_strings(&other.genres);
        }
        if self.runtime.is_none() {
            self.runtime = other.runtime;
        }
        if self.content_rating.is_none() {
            self.content_rating = clone_opt_string(&other.content_rating);
        }
        if self.status.is_none() {
            self.status = clone_opt_string(&other.status);
        }
    }
}

// ---------------------------------------------------------------------------
// Items
// ---------------------------------------------------------------------------

/// One movie or show, normalized away from whatever the source called things.
#[derive(Debug)]
pub struct Item {
    pub media_type: MediaType,
    pub ids: MediaIds,
    pub title: Option<String>,
    pub year: Option<i32>,
    pub released: Option<Date>,
    /// Position within the source list, if the source has a meaningful order.
    pub rank: Option<u32>,
    pub attrs: Attrs,
}

pub struct ItemView {
    pub media_type: MediaType,
    pub ids: MediaIdsView,
    pub title: Option<Seq<char>>,
    pub year: Option<i32>,
    pub released: Option<Date>,
    pub rank: Option<u32>,
    pub attrs: AttrsView,
}

impl View for Item {
    type V = ItemView;

    open spec fn view(&self) -> ItemView {
        ItemView {
            media_type: self.media_type,
            ids: self.ids@,
            title: ov(self.title),
            year: self.year,
            released: self.released,
            rank: self.rank,
            attrs: self.attrs@,
        }
    }
}

impl Clone for Item {
    fn clone(&self) -> (r: Self)
        ensures
            r@ == self@,
    {
        Item {
            media_type: self.media_type,
            ids: self.ids.clone(),
            title: clone_opt_string(&self.title),
            year: self.year,
            released: self.released,
            rank: self.rank,
            attrs: self.attrs.clone(),
        }
    }
}

/// An identity key: one external id, scoped by media type so TMDb movie 550
/// never collides with TMDb show 550.
#[derive(Debug)]
pub struct ItemKey {
    pub media_type: MediaType,
    pub provider: Provider,
    pub value: String,
}

pub struct ItemKeyView {
    pub media_type: MediaType,
    pub provider: Provider,
    pub value: Seq<char>,
}

impl View for ItemKey {
    type V = ItemKeyView;

    open spec fn view(&self) -> ItemKeyView {
        ItemKeyView { media_type: self.media_type, provider: self.provider, value: self.value@ }
    }
}

impl Clone for ItemKey {
    fn clone(&self) -> (r: Self)
        ensures
            r@ == self@,
    {
        ItemKey {
            media_type: self.media_type,
            provider: self.provider,
            value: clone_string(&self.value),
        }
    }
}

impl ItemKey {
    /// Whether two keys name the same id.
    pub fn same(&self, other: &ItemKey) -> (r: bool)
        ensures
            r == (self@ == other@),
    {
        self.media_type == other.media_type && self.provider == other.provider && string_eq(
            &self.value,
            &other.value,
        )
    }
}

impl ItemView {
    pub open spec fn keys(self) -> Seq<ItemKeyView> {
        self.ids.keys().map_values(
            |k: (Provider, Seq<char>)|
                ItemKeyView { media_type: self.media_type, provider: k.0, value: k.1 },
        )
    }

    pub open spec fn merge_from(self, other: ItemView) -> ItemView {
        ItemView {
            media_type: self.media_type,
            ids: self.ids.fill_from(other.ids),
            title: or_else(self.title, other.title),
            year: or_else(self.year, other.year),
            released: or_else(self.released, other.released),
            rank: or_else(self.rank, other.rank),
            attrs: self.attrs.fill_from(other.attrs),
        }
    }

    /// Whether `later` still holds every value set on this item: the same
    /// media type, and each id, title, year, release date, rank and
    /// attribute this item has, unchanged.
    pub open spec fn kept_in(self, later: ItemView) -> bool {
        &&& later.media_type == self.media_type
        &&& (self.ids.tmdb is Some ==> later.ids.tmdb == self.ids.tmdb)
        &&& (self.ids.imdb is Some ==> later.ids.imdb == self.ids.imdb)
        &&& (self.ids.tvdb is Some ==> later.ids.tvdb == self.ids.tvdb)
        &&& (self.ids.trakt is Some ==> later.ids.trakt == self.ids.trakt)
        &&& (self.title is Some ==> later.title == self.title)
        &&& (self.year is Some ==> later.year == self.year)
        &&& (self.released is Some ==> later.released == self.released)
        &&& (self.rank is Some ==> later.rank == self.rank)
        &&& (self.attrs.country is Some ==> later.attrs.country == self.attrs.country)
        &&& (self.attrs.original_language is Some ==> later.attrs.original_language
            == self.attrs.original_language)
        &&& (self.attrs.spoken_language is Some ==> later.attrs.spoken_language == self.attrs.spoken_language)
        &&& (self.attrs.genres.len() > 0 ==> later.attrs.genres == self.attrs.genres)
        &&& (self.attrs.runtime is Some ==> later.attrs.runtime == self.attrs.runtime)
        &&& (self.attrs.content_rating is Some ==> later.attrs.content_rating == self.attrs.content_rating)
        &&& (self.attrs.status is Some ==> later.attrs.status == self.attrs.status)
    }

    /// Whether `later` has a value wherever this item has one: each id,
    /// the title, year, release date, rank and every attribute.
    pub open spec fn covered_by(self, later: ItemView) -> bool {
        &&& (self.ids.tmdb is Some ==> later.ids.tmdb is Some)
        &&& (self.ids.imdb is Some ==> later.ids.imdb is Some)
        &&& (self.ids.tvdb is Some ==> later.ids.tvdb is Some)
        &&& (self.ids.trakt is Some ==> later.ids.trakt is Some)
        &&& (self.title is Some ==> later.title is Some)
        &&& (self.year is Some ==> later.year is Some)
        &&& (self.released is Some ==> later.released is Some)
        &&& (self.rank is Some ==> later.rank is Some)
        &&& (self.attrs.country is Some ==> later.attrs.country is Some)
        &&& (self.attrs.original_language is Some ==> later.attrs.original_language is Some)
        &&& (self.attrs.spoken_language is Some ==> later.attrs.spoken_language is Some)
        &&& (self.attrs.genres.len() > 0 ==> later.attrs.genres.len() > 0)
        &&& (self.attrs.runtime is Some ==> later.attrs.runtime is Some)
        &&& (self.attrs.content_rating is Some ==> later.attrs.content_rating is Some)
        &&& (self.attrs.status is Some ==> later.attrs.status is Some)
    }

    /// The explicit year, else the year of the release date.
    pub open spec fn effective_year(self) -> Option<i32> {
        if self.year is Some {
            self.year
        } else if self.released is Some {
            Some(self.released->0.year)
        } else {
            None
        }
    }
}

/// `s` with every leading repetition of `prefix` removed, as
/// `str::trim_start_matches` does.
pub open spec fn strip_repeated(s: Seq<char>, prefix: Seq<char>) -> Seq<char>
    decreases s.len(),
{
    if prefix.len() > 0 && starts_with(s, prefix) {
        strip_repeated(s.subrange(prefix.len() as int, s.len() as int), prefix)
    } else {
        s
    }
}

/// Merging one item into another keeps every value the first held and
/// leaves a value wherever either held one: existing values win, and gaps
/// are filled from the other item.
pub proof fn lemma_merge_keeps_both(a: ItemView, b: ItemView)
    ensures
        a.kept_in(a.merge_from(b)),
        a.covered_by(a.merge_from(b)),
        b.covered_by(a.merge_from(b)),
        b.ids.tmdb is Some && a.ids.tmdb is None ==> a.merge_from(b).ids.tmdb == b.ids.tmdb,
        b.ids.imdb is Some && a.ids.imdb is None ==> a.merge_from(b).ids.imdb == b.ids.imdb,
        b.ids.tvdb is Some && a.ids.tvdb is None ==> a.merge_from(b).ids.tvdb == b.ids.tvdb,
        b.ids.trakt is Some && a.ids.trakt is None ==> a.merge_from(b).ids.trakt == b.ids.trakt,
        b.title is Some && a.title is None ==> a.merge_from(b).title == b.title,
        b.year is Some && a.year is None ==> a.merge_from(b).year == b.year,
{
}

/// Whether every character of the text is ASCII.
pub open spec fn is_ascii_text(s: Seq<char>) -> bool {
    forall|i: int| 0 <= i < s.len() ==> (#[trigger] s[i] as u32) < 128
}

/// The text lowercased: ASCII text letter by letter, anything else by the
/// full Unicode mapping of `str::to_lowercase`, which agrees with it on
/// ASCII.
pub open spec fn lowercased(s: Seq<char>) -> Seq<char> {
    if is_ascii_text(s) {
        ascii_lower(s)
    } else {
        unicode_lower(s)
    }
}

pub open spec fn sort_title_spec(title: Option<Seq<char>>) -> Seq<char> {
    let t = lowercased(
        trim(
            match title {
                Some(t) => t,
                None => seq![],
            },
        ),
    );
    strip_repeated(strip_repeated(strip_repeated(t, "the "@), "a "@), "an "@)
}

fn all_ascii(v: &Vec<char>) -> (r: bool)
    ensures
        r == is_ascii_text(v@),
{
    let mut k: usize = 0;
    while k < v.len()
        invariant
            0 <= k <= v@.len(),
            forall|i: int| 0 <= i < k ==> (#[trigger] v@[i] as u32) < 128,
        decreases v.len() - k,
    {
        if (v[k] as u32) >= 128 {
            return false;
        }
        k += 1;
    }
    true
}

proof fn lemma_lower_char_white_space(c: char)
    ensures
        is_white_space(ascii_lower_char(c)) == is_white_space(c),
        (c as u32) < 128 ==> (ascii_lower_char(c) as u32) < 128,
        !is_ascii_upper(ascii_lower_char(c)),
        ascii_lower_char(ascii_lower_char(c)) == ascii_lower_char(c),
{
}

proof fn lemma_trim_start_lower(s: Seq<char>)
    ensures
        trim_start(ascii_lower(s)) == ascii_lower(trim_start(s)),
    decreases s.len(),
{
    if s.len() > 0 {
        lemma_lower_char_white_space(s[0]);
        assert(ascii_lower(s)[0] == ascii_lower_char(s[0]));
        if is_white_space(s[0]) {
            assert(ascii_lower(s).drop_first() =~= ascii_lower(s.drop_first()));
            lemma_trim_start_lower(s.drop_first());
        }
    } else {
        assert(ascii_lower(s) =~= s);
    }
}

proof fn lemma_trim_end_lower(s: Seq<char>)
    ensures
        trim_end(ascii_lower(s)) == ascii_lower(trim_end(s)),
    decreases s.len(),
{
    if s.len() > 0 {
        lemma_lower_char_white_space(s.last());
        assert(ascii_lower(s).last() == ascii_lower_char(s.last()));
        if is_white_space(s.last()) {
            assert(ascii_lower(s).drop_last() =~= ascii_lower(s.drop_last()));
            lemma_trim_end_lower(s.drop_last());
        }
    } else {
        assert(ascii_lower(s) =~= s);
    }
}

proof fn lemma_trim_shorter(s: Seq<char>)
    ensures
        trim_start(s).len() <= s.len(),
        trim_end(s).len() <= s.len(),
        s.len() > 0 && is_white_space(s[0]) ==> trim_start(s).len() < s.len(),
        s.len() > 0 && is_white_space(s.last()) ==> trim_end(s).len() < s.len(),
    decreases s.len(),
{
    if s.len() > 0 {
        lemma_trim_shorter(s.drop_first());
        lemma_trim_shorter(s.drop_last());
    }
}

/// A text that trimming leaves alone starts and ends with a character that
/// is not white space, where it is not empty.
proof fn lemma_trimmed_ends(s: Seq<char>)
    requires
        trim(s) == s,
        s.len() > 0,
    ensures
        !is_white_space(s[0]),
        !is_white_space(s.last()),
{
    lemma_trim_shorter(s);
    lemma_trim_shorter(trim_start(s));
    if !is_white_space(s[0]) {
        assert(trim_start(s) == s);
    }
}

/// The sort key does not depend on the case of an ASCII title.
pub proof fn lemma_sort_title_ignores_case(t: Seq<char>)
    requires
        is_ascii_text(t),
    ensures
        sort_title_spec(Some(t)) == sort_title_spec(Some(ascii_lower(t))),
{
    lemma_trim_start_lower(t);
    lemma_trim_end_lower(trim_start(t));
    let tr = trim(t);
    assert(trim(ascii_lower(t)) == ascii_lower(tr));
    lemma_trim_shorter(t);
    lemma_trim_shorter(trim_start(t));
    assert(is_ascii_text(tr)) by {
        assert forall|i: int| 0 <= i < tr.len() implies (#[trigger] tr[i] as u32) < 128 by {
            lemma_trim_is_slice(t, i);
        }
    }
    assert(is_ascii_text(ascii_lower(tr))) by {
        assert forall|i: int| 0 <= i < tr.len() implies (#[trigger] ascii_lower(tr)[i] as u32) < 128 by {
            lemma_lower_char_white_space(tr[i]);
        }
    }
    assert forall|i: int| 0 <= i < tr.len() implies #[trigger] ascii_lower(ascii_lower(tr))[i] == ascii_lower(tr)[i] by {
        lemma_lower_char_white_space(tr[i]);
    }
    assert(ascii_lower(ascii_lower(tr)) =~= ascii_lower(tr));
}

/// Every character trimming keeps is one of the text's.
proof fn lemma_trim_is_slice(t: Seq<char>, i: int)
    requires
        0 <= i < trim(t).len(),
    ensures
        exists|j: int| 0 <= j < t.len() && t[j] == #[trigger] trim(t)[i],
{
    lemma_trim_start_slice(t, i);
    let s = trim_start(t);
    lemma_trim_end_slice(s, i);
    let j = choose|j: int| 0 <= j < s.len() && s[j] == trim_end(s)[i];
    lemma_trim_start_slice(t, j);
}

proof fn lemma_trim_start_slice(t: Seq<char>, i: int)
    ensures
        0 <= i < trim_start(t).len() ==> exists|j: int| 0 <= j < t.len() && t[j] == #[trigger] trim_start(t)[i],
    decreases t.len(),
{
    if t.len() > 0 && is_white_space(t[0]) {
        lemma_trim_start_slice(t.drop_first(), i);
        if 0 <= i < trim_start(t).len() {
            let j = choose|j: int| 0 <= j < t.drop_first().len() && t.drop_first()[j] == trim_start(t.drop_first())[i];
            assert(t[j + 1] == trim_start(t)[i]);
        }
    } else if 0 <= i < trim_start(t).len() {
        assert(t[i] == trim_start(t)[i]);
    }
}

proof fn lemma_trim_end_slice(t: Seq<char>, i: int)
    ensures
        0 <= i < trim_end(t).len() ==> exists|j: int| 0 <= j < t.len() && t[j] == #[trigger] trim_end(t)[i],
    decreases t.len(),
{
    if t.len() > 0 && is_white_space(t.last()) {
        lemma_trim_end_slice(t.drop_last(), i);
        if 0 <= i < trim_end(t).len() {
            let j = choose|j: int| 0 <= j < t.drop_last().len() && t.drop_last()[j] == trim_end(t.drop_last())[i];
            assert(t[j] == trim_end(t)[i]);
        }
    } else if 0 <= i < trim_end(t).len() {
        assert(t[i] == trim_end(t)[i]);
    }
}

/// A title that is already trimmed, lowercase ASCII and without a leading
/// "the ", "a " or "an " sorts as itself.
pub proof fn lemma_sort_title_plain(t: Seq<char>)
    requires
        is_ascii_text(t),
        trim(t) == t,
        forall|i: int| 0 <= i < t.len() ==> !is_ascii_upper(#[trigger] t[i]),
        !starts_with(t, "the "@),
        !starts_with(t, "a "@),
        !starts_with(t, "an "@),
    ensures
        sort_title_spec(Some(t)) == t,
{
    assert forall|i: int| 0 <= i < t.len() implies #[trigger] ascii_lower(t)[i] == t[i] by {}
    assert(ascii_lower(t) =~= t);
}

/// A leading "the " (in any case) does not change where a title sorts.
pub proof fn lemma_sort_title_skips_the(article: Seq<char>, t: Seq<char>)
    requires
        ascii_lower(article) == "the "@,
        is_ascii_text(article),
        is_ascii_text(t),
        trim(t) == t,
        t.len() > 0,
    ensures
        sort_title_spec(Some(article + t)) == sort_title_spec(Some(t)),
{
    reveal_strlit("the ");
    let s = article + t;
    lemma_trimmed_ends(t);
    assert(ascii_lower(article).len() == article.len());
    assert("the "@.len() == 4);
    assert(article.len() == 4);
    assert(ascii_lower(article)[0] == 't');
    assert(!is_white_space(article[0])) by {
        lemma_lower_char_white_space(article[0]);
    }
    assert(s[0] == article[0]);
    assert(s.last() == t.last());
    assert(trim_start(s) == s);
    assert(trim_end(s) == s);
    assert(trim(s) == s);
    assert(is_ascii_text(s)) by {
        assert forall|i: int| 0 <= i < s.len() implies (#[trigger] s[i] as u32) < 128 by {
            if i < 4 {
                assert(s[i] == article[i]);
            } else {
                assert(s[i] == t[i - 4]);
            }
        }
    }
    let l = ascii_lower(t);
    assert(ascii_lower(s) =~= "the "@ + l) by {
        assert forall|i: int| 0 <= i < s.len() implies #[trigger] ascii_lower(s)[i] == ("the "@ + l)[i] by {
            if i < 4 {
                assert(ascii_lower(article)[i] == ascii_lower_char(article[i]));
            }
        }
    }
    assert(starts_with("the "@ + l, "the "@)) by {
        assert(("the "@ + l).subrange(0, 4) =~= "the "@);
    }
    assert(("the "@ + l).subrange(4, ("the "@ + l).len() as int) =~= l);
    assert(strip_repeated("the "@ + l, "the "@) == strip_repeated(l, "the "@));
}

fn strip_repeated_chars(v: &Vec<char>, prefix: &str) -> (r: Vec<char>)
    ensures
        r@ == strip_repeated(v@, prefix@),
{
    let p = chars_of(prefix);
    let mut start: usize = 0;
    assert(v@.subrange(0, v@.len() as int) =~= v@);
    while p.len() > 0 && start <= v.len() && p.len() <= v.len() - start && chars_occur_at(
        v,
        &p,
        start,
    )
        invariant
            start <= v@.len(),
            p@ == prefix@,
            strip_repeated(v@, prefix@) == strip_repeated(
                v@.subrange(start as int, v@.len() as int),
                prefix@,
            ),
        decreases v.len() - start,
    {
        let ghost rest = v@.subrange(start as int, v@.len() as int);
        assert(rest.subrange(0, p@.len() as int) =~= v@.subrange(
            start as int,
            start + p@.len(),
        ));
        assert(rest.subrange(p@.len() as int, rest.len() as int) =~= v@.subrange(
            start + p@.len(),
            v@.len() as int,
        ));
        start = start + p.len();
    }
    let mut out = Vec::new();
    let mut k: usize = start;
    while k < v.len()
        invariant
            start <= k <= v@.len(),
            out@ == v@.subrange(start as int, k as int),
        decreases v.len() - k,
    {
        out.push(v[k]);
        assert(v@.subrange(start as int, (k + 1) as int) =~= v@.subrange(
            start as int,
            k as int,
        ).push(v@[k as int]));
        k += 1;
    }
    proof {
        let rest = v@.subrange(start as int, v@.len() as int);
        if p@.len() > 0 && starts_with(rest, p@) {
            assert(rest.subrange(0, p@.len() as int) =~= v@.subrange(
                start as int,
                start + p@.len(),
            ));
        }
    }
    out
}

impl Item {
    pub fn new(media_type: MediaType) -> (r: Item)
        ensures
            r@ == (ItemView {
                media_type,
                ids: no_ids(),
                title: None,
                year: None,
                released: None,
                rank: None,
                attrs: no_attrs(),
            }),
    {
        Item {
            media_type,
            ids: MediaIds::empty(),
            title: None,
            year: None,
            released: None,
            rank: None,
            attrs: Attrs::empty(),
        }
    }

    /// Identity keys, scoped by media type.
    pub fn keys(&self) -> (r: Vec<ItemKey>)
        ensures
            r@.len() == self@.keys().len(),
            forall|i: int| 0 <= i < r@.len() ==> (#[trigger] r@[i])@ == self@.keys()[i],
    {
        let pairs = self.ids.keys();
        let mut out: Vec<ItemKey> = Vec::new();
        let mut i: usize = 0;
        while i < pairs.len()
            invariant
                0 <= i <= pairs@.len(),
                pairs@.len() == self@.ids.keys().len(),
                forall|j: int|
                    0 <= j < pairs@.len() ==> (#[trigger] pairs@[j]).0 == self@.ids.keys()[j].0
                        && pairs@[j].1@ == self@.ids.keys()[j].1,
                out@.len() == i,
                forall|j: int| 0 <= j < i ==> (#[trigger] out@[j])@ == self@.keys()[j],
            decreases pairs.len() - i,
        {
            let (provider, value) = &pairs[i];
            out.push(
                ItemKey { media_type: self.media_type, provider: *provider, value: clone_string(value) },
            );
            i += 1;
        }
        out
    }

    /// Absorb anything `other` knows that this item does not. Existing values
    /// win, so the leftmost source in an expression decides the title shown.
    pub fn merge_from(&mut self, other: &Item)
        ensures
            final(self)@ == old(self)@.merge_from(other@),
    {
        self.ids.fill_from(&other.ids);
        if self.title.is_none() {
            self.title = clone_opt_string(&other.title);
        }
        if self.year.is_none() {
            self.year = other.year;
        }
        if self.released.is_none() {
            self.released = other.released;
        }
        if self.rank.is_none() {
            self.rank = other.rank;
        }
        self.attrs.fill_from(&other.attrs);
    }

    /// Best-effort release year: the explicit year, else the year of the release date.
    pub fn effective_year(&self) -> (r: Option<i32>)
        ensures
            r == self@.effective_year(),
    {
        match self.year {
            Some(y) => Some(y),
            None => match self.released {
                Some(d) => Some(d.year),
                None => None,
            },
        }
    }

    /// The title as it sorts: trimmed, lowercased, without a leading article.
    pub fn sort_title(&self) -> (r: String)
        ensures
            r@ == sort_title_spec(self@.title),
    {
        let title = match &self.title {
            Some(t) => trim_string(t.as_str()),
            None => String::new(),
        };
        let trimmed = chars_of(title.as_str());
        let v = if all_ascii(&trimmed) {
            ascii_lower_chars(&trimmed)
        } else {
            let lowered = to_lowercase(title.as_str());
            chars_of(lowered.as_str())
        };
        let a = strip_repeated_chars(&v, "the ");
        let b = strip_repeated_chars(&a, "a ");
        let c = strip_repeated_chars(&b, "an ");
        string_of(&c)
    }
}

// ---------------------------------------------------------------------------
// `provider:id` specs
// ---------------------------------------------------------------------------

/// The position of the first `c` in `s`, if any.
pub open spec fn first_index_of(s: Seq<char>, c: char) -> Option<int> {
    if has_char(s, c) {
        Some(choose|i: int| 0 <= i < s.len() && s[i] == c && forall|j: int| 0 <= j < i ==> s[j] != c)
    } else {
        None
    }
}

pub fn find_char(v: &[char], c: char) -> (r: Option<usize>)
    ensures
        match r {
            Some(i) => i < v@.len() && v@[i as int] == c && forall|j: int| 0 <= j < i ==> v@[j] != c,
            None => !has_char(v@, c),
        },
        r matches Some(i) ==> first_index_of(v@, c) == Some(i as int),
        r is None ==> first_index_of(v@, c) is None,
{
    let mut i: usize = 0;
    while i < v.len()
        invariant
            0 <= i <= v@.len(),
            forall|k: int| 0 <= k < i ==> v@[k] != c,
        decreases v.len() - i,
    {
        if v[i] == c {
            proof {
                let w = choose|w: int| 0 <= w < v@.len() && v@[w] == c && forall|j: int| 0 <= j < w ==> v@[j] != c;
                assert(0 <= i < v@.len() && v@[i as int] == c && forall|j: int| 0 <= j < i ==> v@[j] != c);
                if w < i {
                } else if w > i {
                    assert(v@[i as int] != c);
                }
            }
            return Some(i);
        }
        i += 1;
    }
    None
}

pub open spec fn not_a_pair_message(spec: Seq<char>) -> Seq<char> {
    "`"@ + spec + "` is not a `provider:id` pair (e.g. `tmdb:550`)"@
}

pub open spec fn unknown_provider_message(provider: Seq<char>, spec: Seq<char>) -> Seq<char> {
    "unknown id provider `"@ + provider + "` in `"@ + spec + "`"@
}

/// The ids a `provider:id` spec denotes, or why it denotes none.
pub open spec fn id_spec_result(spec: Seq<char>) -> Result<MediaIdsView, Seq<char>> {
    match first_index_of(spec, ':') {
        None => Err(not_a_pair_message(spec)),
        Some(i) => {
            let provider = spec.subrange(0, i);
            let value = spec.subrange(i + 1, spec.len() as int);
            match provider_word(keyword(provider)) {
                None => Err(unknown_provider_message(provider, spec)),
                Some(p) => set_outcome(no_ids(), p, value),
            }
        },
    }
}

/// Parse a `provider:id` spec as written in a static source, e.g. `tmdb:550`.
pub fn parse_id_spec(spec: &str) -> (r: Result<MediaIds, String>)
    ensures
        match (r, id_spec_result(spec@)) {
            (Ok(ids), Ok(m)) => ids@ == m,
            (Err(e), Err(m)) => e@ == m,
            _ => false,
        },
{
    let v = chars_of(spec);
    let n = v.len();
    match find_char(&v, ':') {
        None => {
            let mut e = from_str("`");
            push_str(&mut e, spec);
            push_str(&mut e, "` is not a `provider:id` pair (e.g. `tmdb:550`)");
            Err(e)
        },
        Some(i) => {
            let provider_text = string_of_range(&v, 0, i);
            assert(i < n);
            let value = string_of_range(&v, i + 1, n);
            match Provider::parse(provider_text.as_str()) {
                None => {
                    let mut e = from_str("unknown id provider `");
                    push_str(&mut e, provider_text.as_str());
                    push_str(&mut e, "` in `");
                    push_str(&mut e, spec);
                    push_str(&mut e, "`");
                    Err(e)
                },
                Some(p) => {
                    let mut ids = MediaIds::empty();
                    match ids.set(p, value.as_str()) {
                        Ok(()) => Ok(ids),
                        Err(e) => Err(e),
                    }
                },
            }
        },
    }
}

} // verus!
