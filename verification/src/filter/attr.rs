//! The attribute vocabulary a filter condition can talk about.
//!
//! Names follow Kometa/TMDb spelling (`content_rating`, `original_language`)
//! rather than the internal field names, because that is what someone writing
//! these filters has seen before.

use vstd::prelude::*;

use crate::model::{
    clone_strings, is_word, media_type_text, ov, strings_view, Attrs, AttrsView, Date, Item,
    ItemView,
};
use crate::text::{clone_string, from_str, keyword, keyword_of, lemma_plain_word_is_keyword};
use crate::config::model::text_lt;

verus! {

#[derive(Debug, Clone, Copy, PartialEq, Eq, Structural, PartialOrd, Ord, Hash)]
pub enum Attribute {
    Country,
    OriginalLanguage,
    SpokenLanguage,
    Genre,
    ContentRating,
    Status,
    Runtime,
    Year,
    Release,
    Title,
    Type,
}

/// What shape of value an attribute holds, which decides the modifiers it
/// accepts and how its values are parsed.
#[derive(Debug, Clone, Copy, PartialEq, Eq, Structural)]
pub enum Kind {
    /// One or more short codes compared case-insensitively: country, language,
    /// certification, media type.
    Codes,
    /// Like [`Kind::Codes`] but genuinely multi-valued, so `.all` means something.
    List,
    Number,
    Date,
    Text,
}

/// The value read off an item.
#[derive(Debug)]
pub enum Reading {
    Codes(Vec<String>),
    Number(i64),
    Date(Date),
    Text(String),
}

pub enum ReadingV {
    Codes(Seq<Seq<char>>),
    Number(i64),
    Date(Date),
    Text(Seq<char>),
}

impl View for Reading {
    type V = ReadingV;

    open spec fn view(&self) -> ReadingV {
        match self {
            Reading::Codes(c) => ReadingV::Codes(strings_view(c@)),
            Reading::Number(n) => ReadingV::Number(*n),
            Reading::Date(d) => ReadingV::Date(*d),
            Reading::Text(t) => ReadingV::Text(t@),
        }
    }
}

/// Every spelling accepted in a filter block, with the attribute it names.
/// The first spelling of each attribute is its canonical one.
pub open spec fn spellings() -> Seq<(Seq<char>, Attribute)> {
    seq![
        ("country"@, Attribute::Country),
        ("original_language"@, Attribute::OriginalLanguage),
        ("language"@, Attribute::OriginalLanguage),
        ("spoken_language"@, Attribute::SpokenLanguage),
        ("genre"@, Attribute::Genre),
        ("genres"@, Attribute::Genre),
        ("content_rating"@, Attribute::ContentRating),
        ("certification"@, Attribute::ContentRating),
        ("status"@, Attribute::Status),
        ("runtime"@, Attribute::Runtime),
        ("year"@, Attribute::Year),
        ("release"@, Attribute::Release),
        ("released"@, Attribute::Release),
        ("title"@, Attribute::Title),
        ("type"@, Attribute::Type),
        ("media_type"@, Attribute::Type),
    ]
}

/// The attribute a lowercased spelling names.
pub open spec fn attribute_word(k: Seq<char>) -> Option<Attribute> {
    if k == "country"@ {
        Some(Attribute::Country)
    } else if k == "original_language"@ || k == "language"@ {
        Some(Attribute::OriginalLanguage)
    } else if k == "spoken_language"@ {
        Some(Attribute::SpokenLanguage)
    } else if k == "genre"@ || k == "genres"@ {
        Some(Attribute::Genre)
    } else if k == "content_rating"@ || k == "certification"@ {
        Some(Attribute::ContentRating)
    } else if k == "status"@ {
        Some(Attribute::Status)
    } else if k == "runtime"@ {
        Some(Attribute::Runtime)
    } else if k == "year"@ {
        Some(Attribute::Year)
    } else if k == "release"@ || k == "released"@ {
        Some(Attribute::Release)
    } else if k == "title"@ {
        Some(Attribute::Title)
    } else if k == "type"@ || k == "media_type"@ {
        Some(Attribute::Type)
    } else {
        None
    }
}

/// The name an attribute is written with is one of its spellings.
pub proof fn lemma_attribute_round_trip(a: Attribute)
    ensures
        attribute_word(attribute_text(a)) == Some(a),
{
    reveal_strlit("country");
    reveal_strlit("original_language");
    reveal_strlit("language");
    reveal_strlit("spoken_language");
    reveal_strlit("genre");
    reveal_strlit("genres");
    reveal_strlit("content_rating");
    reveal_strlit("certification");
    reveal_strlit("status");
    reveal_strlit("runtime");
    reveal_strlit("year");
    reveal_strlit("release");
    reveal_strlit("released");
    reveal_strlit("title");
    reveal_strlit("type");
    reveal_strlit("media_type");
    match a {
        Attribute::Country => {
            assert(attribute_text(a) == "country"@);
            assert(attribute_word("country"@) == Some(Attribute::Country));
        },
        Attribute::OriginalLanguage => {
            assert(attribute_text(a) == "original_language"@);
            assert(attribute_word("original_language"@) == Some(Attribute::OriginalLanguage));
        },
        Attribute::SpokenLanguage => {
            assert(attribute_text(a) == "spoken_language"@);
            assert(attribute_word("spoken_language"@) == Some(Attribute::SpokenLanguage));
        },
        Attribute::Genre => {
            assert(attribute_text(a) == "genre"@);
            assert(attribute_word("genre"@) == Some(Attribute::Genre));
        },
        Attribute::ContentRating => {
            assert(attribute_text(a) == "content_rating"@);
            assert(attribute_word("content_rating"@) == Some(Attribute::ContentRating));
        },
        Attribute::Status => {
            assert(attribute_text(a) == "status"@);
            assert("status"@[0] != "genres"@[0]);
            assert(attribute_word("status"@) == Some(Attribute::Status));
        },
        Attribute::Runtime => {
            assert(attribute_text(a) == "runtime"@);
            assert("runtime"@[0] != "country"@[0]);
            assert(attribute_word("runtime"@) == Some(Attribute::Runtime));
        },
        Attribute::Year => {
            assert(attribute_text(a) == "year"@);
            assert(attribute_word("year"@) == Some(Attribute::Year));
        },
        Attribute::Release => {
            assert(attribute_text(a) == "release"@);
            assert("release"@[0] != "country"@[0]);
            assert("release"@[1] != "runtime"@[1]);
            assert(attribute_word("release"@) == Some(Attribute::Release));
        },
        Attribute::Title => {
            assert(attribute_text(a) == "title"@);
            assert("title"@[0] != "genre"@[0]);
            assert(attribute_word("title"@) == Some(Attribute::Title));
        },
        Attribute::Type => {
            assert(attribute_text(a) == "type"@);
            assert("type"@[0] != "year"@[0]);
            assert(attribute_word("type"@) == Some(Attribute::Type));
        },
    }
}

pub open spec fn attribute_text(a: Attribute) -> Seq<char> {
    match a {
        Attribute::Country => "country"@,
        Attribute::OriginalLanguage => "original_language"@,
        Attribute::SpokenLanguage => "spoken_language"@,
        Attribute::Genre => "genre"@,
        Attribute::ContentRating => "content_rating"@,
        Attribute::Status => "status"@,
        Attribute::Runtime => "runtime"@,
        Attribute::Year => "year"@,
        Attribute::Release => "release"@,
        Attribute::Title => "title"@,
        Attribute::Type => "type"@,
    }
}

pub open spec fn kind_of(a: Attribute) -> Kind {
    match a {
        Attribute::Country | Attribute::OriginalLanguage | Attribute::SpokenLanguage
        | Attribute::ContentRating | Attribute::Status | Attribute::Type => Kind::Codes,
        Attribute::Genre => Kind::List,
        Attribute::Runtime | Attribute::Year => Kind::Number,
        Attribute::Release => Kind::Date,
        Attribute::Title => Kind::Text,
    }
}

pub open spec fn needs_metadata_spec(a: Attribute) -> bool {
    match a {
        Attribute::Country | Attribute::OriginalLanguage | Attribute::SpokenLanguage
        | Attribute::Genre | Attribute::ContentRating | Attribute::Status
        | Attribute::Runtime => true,
        _ => false,
    }
}

pub open spec fn present_in_spec(a: Attribute, attrs: AttrsView) -> bool {
    match a {
        Attribute::Country => attrs.country is Some,
        Attribute::OriginalLanguage => attrs.original_language is Some,
        Attribute::SpokenLanguage => attrs.spoken_language is Some,
        Attribute::Genre => attrs.genres.len() > 0,
        Attribute::ContentRating => attrs.content_rating is Some,
        Attribute::Status => attrs.status is Some,
        Attribute::Runtime => attrs.runtime is Some,
        _ => true,
    }
}

pub open spec fn single(value: Option<Seq<char>>) -> Option<ReadingV> {
    match value {
        Some(t) => Some(ReadingV::Codes(seq![t])),
        None => None,
    }
}

/// The attribute's value on an item, or `None` when the item does not know it.
pub open spec fn reading_of(a: Attribute, item: ItemView) -> Option<ReadingV> {
    match a {
        Attribute::Country => single(item.attrs.country),
        Attribute::OriginalLanguage => single(item.attrs.original_language),
        Attribute::SpokenLanguage => single(item.attrs.spoken_language),
        Attribute::ContentRating => single(item.attrs.content_rating),
        Attribute::Status => single(item.attrs.status),
        Attribute::Genre => if item.attrs.genres.len() > 0 {
            Some(ReadingV::Codes(item.attrs.genres))
        } else {
            None
        },
        Attribute::Runtime => match item.attrs.runtime {
            Some(m) => Some(ReadingV::Number(m as i64)),
            None => None,
        },
        Attribute::Year => match item.effective_year() {
            Some(y) => Some(ReadingV::Number(y as i64)),
            None => None,
        },
        Attribute::Release => match item.released {
            Some(d) => Some(ReadingV::Date(d)),
            None => None,
        },
        Attribute::Title => match item.title {
            Some(t) => Some(ReadingV::Text(t)),
            None => None,
        },
        Attribute::Type => Some(ReadingV::Codes(seq![media_type_text(item.media_type)])),
    }
}

fn read_single(value: &Option<String>) -> (r: Option<Reading>)
    ensures
        match r {
            Some(x) => single(ov(*value)) == Some(x@),
            None => single(ov(*value)) is None,
        },
{
    match value {
        Some(text) => {
            let v = vec![clone_string(text)];
            proof {
                assert(strings_view(v@) =~= seq![text@]);
            }
            Some(Reading::Codes(v))
        },
        None => None,
    }
}

impl Attribute {
    /// Every spelling accepted in a filter block, canonical spellings first
    /// for each attribute.
    pub fn all() -> (r: Vec<(&'static str, Attribute)>)
        ensures
            r@.map_values(|e: (&'static str, Attribute)| (e.0@, e.1)) == spellings(),
    {
        let r = vec![
            ("country", Attribute::Country),
            ("original_language", Attribute::OriginalLanguage),
            ("language", Attribute::OriginalLanguage),
            ("spoken_language", Attribute::SpokenLanguage),
            ("genre", Attribute::Genre),
            ("genres", Attribute::Genre),
            ("content_rating", Attribute::ContentRating),
            ("certification", Attribute::ContentRating),
            ("status", Attribute::Status),
            ("runtime", Attribute::Runtime),
            ("year", Attribute::Year),
            ("release", Attribute::Release),
            ("released", Attribute::Release),
            ("title", Attribute::Title),
            ("type", Attribute::Type),
            ("media_type", Attribute::Type),
        ];
        assert(r@.map_values(|e: (&'static str, Attribute)| (e.0@, e.1)) =~= spellings());
        r
    }

    pub fn parse(raw: &str) -> (r: Option<Attribute>)
        ensures
            r == attribute_word(keyword(raw@)),
    {
        let k = keyword_of(raw);
        if is_word(&k, "country") {
            Some(Attribute::Country)
        } else if is_word(&k, "original_language") || is_word(&k, "language") {
            Some(Attribute::OriginalLanguage)
        } else if is_word(&k, "spoken_language") {
            Some(Attribute::SpokenLanguage)
        } else if is_word(&k, "genre") || is_word(&k, "genres") {
            Some(Attribute::Genre)
        } else if is_word(&k, "content_rating") || is_word(&k, "certification") {
            Some(Attribute::ContentRating)
        } else if is_word(&k, "status") {
            Some(Attribute::Status)
        } else if is_word(&k, "runtime") {
            Some(Attribute::Runtime)
        } else if is_word(&k, "year") {
            Some(Attribute::Year)
        } else if is_word(&k, "release") || is_word(&k, "released") {
            Some(Attribute::Release)
        } else if is_word(&k, "title") {
            Some(Attribute::Title)
        } else if is_word(&k, "type") || is_word(&k, "media_type") {
            Some(Attribute::Type)
        } else {
            None
        }
    }

    pub fn as_str(self) -> (r: &'static str)
        ensures
            r@ == attribute_text(self),
    {
        match self {
            Attribute::Country => "country",
            Attribute::OriginalLanguage => "original_language",
            Attribute::SpokenLanguage => "spoken_language",
            Attribute::Genre => "genre",
            Attribute::ContentRating => "content_rating",
            Attribute::Status => "status",
            Attribute::Runtime => "runtime",
            Attribute::Year => "year",
            Attribute::Release => "release",
            Attribute::Title => "title",
            Attribute::Type => "type",
        }
    }

    pub fn kind(self) -> (r: Kind)
        ensures
            r == kind_of(self),
    {
        match self {
            Attribute::Country | Attribute::OriginalLanguage | Attribute::SpokenLanguage
            | Attribute::ContentRating | Attribute::Status | Attribute::Type => Kind::Codes,
            Attribute::Genre => Kind::List,
            Attribute::Runtime | Attribute::Year => Kind::Number,
            Attribute::Release => Kind::Date,
            Attribute::Title => Kind::Text,
        }
    }

    /// Whether this attribute has to be fetched from a metadata provider, or is
    /// already carried by every item. Drives what the enricher asks for.
    pub fn needs_metadata(self) -> (r: bool)
        ensures
            r == needs_metadata_spec(self),
    {
        match self {
            Attribute::Country | Attribute::OriginalLanguage | Attribute::SpokenLanguage
            | Attribute::Genre | Attribute::ContentRating | Attribute::Status
            | Attribute::Runtime => true,
            Attribute::Year | Attribute::Release | Attribute::Title | Attribute::Type => false,
        }
    }

    /// Whether a set of attributes already answers this one. Attributes that
    /// live on the item itself rather than in metadata are always answered.
    pub fn present_in(self, attrs: &Attrs) -> (r: bool)
        ensures
            r == present_in_spec(self, attrs@),
    {
        match self {
            Attribute::Country => attrs.country.is_some(),
            Attribute::OriginalLanguage => attrs.original_language.is_some(),
            Attribute::SpokenLanguage => attrs.spoken_language.is_some(),
            Attribute::Genre => attrs.genres.len() > 0,
            Attribute::ContentRating => attrs.content_rating.is_some(),
            Attribute::Status => attrs.status.is_some(),
            Attribute::Runtime => attrs.runtime.is_some(),
            Attribute::Year | Attribute::Release | Attribute::Title | Attribute::Type => true,
        }
    }

    /// Read the attribute off an item. `None` means "not known", which is what
    /// the filter's `unknown:` policy decides the answer for.
    pub fn read(self, item: &Item) -> (r: Option<Reading>)
        ensures
            match r {
                Some(x) => reading_of(self, item@) == Some(x@),
                None => reading_of(self, item@) is None,
            },
    {
        match self {
            Attribute::Country => read_single(&item.attrs.country),
            Attribute::OriginalLanguage => read_single(&item.attrs.original_language),
            Attribute::SpokenLanguage => read_single(&item.attrs.spoken_language),
            Attribute::ContentRating => read_single(&item.attrs.content_rating),
            Attribute::Status => read_single(&item.attrs.status),
            Attribute::Genre => {
                if item.attrs.genres.len() > 0 {
                    Some(Reading::Codes(clone_strings(&item.attrs.genres)))
                } else {
                    None
                }
            },
            Attribute::Runtime => match item.attrs.runtime {
                Some(minutes) => Some(Reading::Number(minutes as i64)),
                None => None,
            },
            Attribute::Year => match item.effective_year() {
                Some(year) => Some(Reading::Number(year as i64)),
                None => None,
            },
            Attribute::Release => match item.released {
                Some(d) => Some(Reading::Date(d)),
                None => None,
            },
            Attribute::Title => match &item.title {
                Some(t) => Some(Reading::Text(clone_string(t))),
                None => None,
            },
            Attribute::Type => {
                let v = vec![from_str(item.media_type.as_str())];
                proof {
                    assert(strings_view(v@) =~= seq![media_type_text(item.media_type)]);
                }
                Some(Reading::Codes(v))
            },
        }
    }
}

/// The accepted spellings in code-point order.
pub open spec fn known_names_spec() -> Seq<Seq<char>> {
    seq![
        "certification"@,
        "content_rating"@,
        "country"@,
        "genre"@,
        "genres"@,
        "language"@,
        "media_type"@,
        "original_language"@,
        "release"@,
        "released"@,
        "runtime"@,
        "spoken_language"@,
        "status"@,
        "title"@,
        "type"@,
        "year"@,
    ]
}

/// The spellings accepted for an attribute, sorted, for "did you mean" style
/// errors.
pub fn known_attribute_names() -> (r: Vec<&'static str>)
    ensures
        r@.map_values(|s: &'static str| s@) == known_names_spec(),
{
    let r = vec![
        "certification",
        "content_rating",
        "country",
        "genre",
        "genres",
        "language",
        "media_type",
        "original_language",
        "release",
        "released",
        "runtime",
        "spoken_language",
        "status",
        "title",
        "type",
        "year",
    ];
    assert(r@.map_values(|s: &'static str| s@) =~= known_names_spec());
    r
}

/// The first spelling of each attribute in `spellings` is the one it is
/// written with.
pub proof fn lemma_canonical_spelling(a: Attribute)
    ensures
        exists|i: int|
            0 <= i < spellings().len() && spellings()[i] == (attribute_text(a), a) && forall|j: int|
                0 <= j < i ==> (#[trigger] spellings()[j]).1 != a,
{
    let s = spellings();
    match a {
        Attribute::Country => assert(s[0] == (attribute_text(a), a)),
        Attribute::OriginalLanguage => assert(s[1] == (attribute_text(a), a)),
        Attribute::SpokenLanguage => assert(s[3] == (attribute_text(a), a)),
        Attribute::Genre => assert(s[4] == (attribute_text(a), a)),
        Attribute::ContentRating => assert(s[6] == (attribute_text(a), a)),
        Attribute::Status => assert(s[8] == (attribute_text(a), a)),
        Attribute::Runtime => assert(s[9] == (attribute_text(a), a)),
        Attribute::Year => assert(s[10] == (attribute_text(a), a)),
        Attribute::Release => assert(s[11] == (attribute_text(a), a)),
        Attribute::Title => assert(s[13] == (attribute_text(a), a)),
        Attribute::Type => assert(s[14] == (attribute_text(a), a)),
    }
}

/// Every spelling of the table reads as the attribute it stands for.
pub proof fn lemma_spellings_parse()
    ensures
        forall|j: int| 0 <= j < spellings().len() ==> attribute_word((#[trigger] spellings()[j]).0) == Some(
            spellings()[j].1,
        ),
{
    reveal_strlit("country");
    reveal_strlit("original_language");
    reveal_strlit("language");
    reveal_strlit("spoken_language");
    reveal_strlit("genre");
    reveal_strlit("genres");
    reveal_strlit("content_rating");
    reveal_strlit("certification");
    reveal_strlit("status");
    reveal_strlit("runtime");
    reveal_strlit("year");
    reveal_strlit("release");
    reveal_strlit("released");
    reveal_strlit("title");
    reveal_strlit("type");
    reveal_strlit("media_type");
    assert(attribute_word("country"@) == Some(Attribute::Country));
    assert("original_language"@[0] != "country"@[0]);
    assert(attribute_word("original_language"@) == Some(Attribute::OriginalLanguage));
    assert("language"@[0] != "country"@[0]);
    assert(attribute_word("language"@) == Some(Attribute::OriginalLanguage));
    assert("spoken_language"@[0] != "country"@[0]);
    assert("spoken_language"@[0] != "original_language"@[0]);
    assert("spoken_language"@[0] != "language"@[0]);
    assert(attribute_word("spoken_language"@) == Some(Attribute::SpokenLanguage));
    assert("genre"@[0] != "country"@[0]);
    assert("genre"@[0] != "original_language"@[0]);
    assert("genre"@[0] != "language"@[0]);
    assert("genre"@[0] != "spoken_language"@[0]);
    assert(attribute_word("genre"@) == Some(Attribute::Genre));
    assert("genres"@[0] != "country"@[0]);
    assert("genres"@[0] != "original_language"@[0]);
    assert("genres"@[0] != "language"@[0]);
    assert("genres"@[0] != "spoken_language"@[0]);
    assert(attribute_word("genres"@) == Some(Attribute::Genre));
    assert("content_rating"@[2] != "country"@[2]);
    assert("content_rating"@[0] != "original_language"@[0]);
    assert("content_rating"@[0] != "language"@[0]);
    assert("content_rating"@[0] != "spoken_language"@[0]);
    assert("content_rating"@[0] != "genre"@[0]);
    assert("content_rating"@[0] != "genres"@[0]);
    assert(attribute_word("content_rating"@) == Some(Attribute::ContentRating));
    assert("certification"@[1] != "country"@[1]);
    assert("certification"@[0] != "original_language"@[0]);
    assert("certification"@[0] != "language"@[0]);
    assert("certification"@[0] != "spoken_language"@[0]);
    assert("certification"@[0] != "genre"@[0]);
    assert("certification"@[0] != "genres"@[0]);
    assert(attribute_word("certification"@) == Some(Attribute::ContentRating));
    assert("status"@[0] != "country"@[0]);
    assert("status"@[0] != "original_language"@[0]);
    assert("status"@[0] != "language"@[0]);
    assert("status"@[1] != "spoken_language"@[1]);
    assert("status"@[0] != "genre"@[0]);
    assert("status"@[0] != "genres"@[0]);
    assert("status"@[0] != "content_rating"@[0]);
    assert("status"@[0] != "certification"@[0]);
    assert(attribute_word("status"@) == Some(Attribute::Status));
    assert("runtime"@[0] != "country"@[0]);
    assert("runtime"@[0] != "original_language"@[0]);
    assert("runtime"@[0] != "language"@[0]);
    assert("runtime"@[0] != "spoken_language"@[0]);
    assert("runtime"@[0] != "genre"@[0]);
    assert("runtime"@[0] != "genres"@[0]);
    assert("runtime"@[0] != "content_rating"@[0]);
    assert("runtime"@[0] != "certification"@[0]);
    assert("runtime"@[0] != "status"@[0]);
    assert(attribute_word("runtime"@) == Some(Attribute::Runtime));
    assert("year"@[0] != "country"@[0]);
    assert("year"@[0] != "original_language"@[0]);
    assert("year"@[0] != "language"@[0]);
    assert("year"@[0] != "spoken_language"@[0]);
    assert("year"@[0] != "genre"@[0]);
    assert("year"@[0] != "genres"@[0]);
    assert("year"@[0] != "content_rating"@[0]);
    assert("year"@[0] != "certification"@[0]);
    assert("year"@[0] != "status"@[0]);
    assert("year"@[0] != "runtime"@[0]);
    assert(attribute_word("year"@) == Some(Attribute::Year));
    assert("release"@[0] != "country"@[0]);
    assert("release"@[0] != "original_language"@[0]);
    assert("release"@[0] != "language"@[0]);
    assert("release"@[0] != "spoken_language"@[0]);
    assert("release"@[0] != "genre"@[0]);
    assert("release"@[0] != "genres"@[0]);
    assert("release"@[0] != "content_rating"@[0]);
    assert("release"@[0] != "certification"@[0]);
    assert("release"@[0] != "status"@[0]);
    assert("release"@[1] != "runtime"@[1]);
    assert("release"@[0] != "year"@[0]);
    assert(attribute_word("release"@) == Some(Attribute::Release));
    assert("released"@[0] != "country"@[0]);
    assert("released"@[0] != "original_language"@[0]);
    assert("released"@[0] != "language"@[0]);
    assert("released"@[0] != "spoken_language"@[0]);
    assert("released"@[0] != "genre"@[0]);
    assert("released"@[0] != "genres"@[0]);
    assert("released"@[0] != "content_rating"@[0]);
    assert("released"@[0] != "certification"@[0]);
    assert("released"@[0] != "status"@[0]);
    assert("released"@[1] != "runtime"@[1]);
    assert("released"@[0] != "year"@[0]);
    assert(attribute_word("released"@) == Some(Attribute::Release));
    assert("title"@[0] != "country"@[0]);
    assert("title"@[0] != "original_language"@[0]);
    assert("title"@[0] != "language"@[0]);
    assert("title"@[0] != "spoken_language"@[0]);
    assert("title"@[0] != "genre"@[0]);
    assert("title"@[0] != "genres"@[0]);
    assert("title"@[0] != "content_rating"@[0]);
    assert("title"@[0] != "certification"@[0]);
    assert("title"@[0] != "status"@[0]);
    assert("title"@[0] != "runtime"@[0]);
    assert("title"@[0] != "year"@[0]);
    assert("title"@[0] != "release"@[0]);
    assert("title"@[0] != "released"@[0]);
    assert(attribute_word("title"@) == Some(Attribute::Title));
    assert("type"@[0] != "country"@[0]);
    assert("type"@[0] != "original_language"@[0]);
    assert("type"@[0] != "language"@[0]);
    assert("type"@[0] != "spoken_language"@[0]);
    assert("type"@[0] != "genre"@[0]);
    assert("type"@[0] != "genres"@[0]);
    assert("type"@[0] != "content_rating"@[0]);
    assert("type"@[0] != "certification"@[0]);
    assert("type"@[0] != "status"@[0]);
    assert("type"@[0] != "runtime"@[0]);
    assert("type"@[0] != "year"@[0]);
    assert("type"@[0] != "release"@[0]);
    assert("type"@[0] != "released"@[0]);
    assert("type"@[1] != "title"@[1]);
    assert(attribute_word("type"@) == Some(Attribute::Type));
    assert("media_type"@[0] != "country"@[0]);
    assert("media_type"@[0] != "original_language"@[0]);
    assert("media_type"@[0] != "language"@[0]);
    assert("media_type"@[0] != "spoken_language"@[0]);
    assert("media_type"@[0] != "genre"@[0]);
    assert("media_type"@[0] != "genres"@[0]);
    assert("media_type"@[0] != "content_rating"@[0]);
    assert("media_type"@[0] != "certification"@[0]);
    assert("media_type"@[0] != "status"@[0]);
    assert("media_type"@[0] != "runtime"@[0]);
    assert("media_type"@[0] != "year"@[0]);
    assert("media_type"@[0] != "release"@[0]);
    assert("media_type"@[0] != "released"@[0]);
    assert("media_type"@[0] != "title"@[0]);
    assert(attribute_word("media_type"@) == Some(Attribute::Type));
    assert forall|j: int| 0 <= j < spellings().len() implies attribute_word((#[trigger] spellings()[j]).0)
        == Some(spellings()[j].1) by {}
}

proof fn lemma_chain_pair(s: Seq<Seq<char>>, i: int, j: int)
    requires
        forall|k: int| 0 <= k < s.len() - 1 ==> text_lt(#[trigger] s[k], s[k + 1]),
        0 <= i < j < s.len(),
    ensures
        text_lt(s[i], s[j]),
    decreases j - i,
{
    if j > i + 1 {
        lemma_chain_pair(s, i, j - 1);
        assert(text_lt(s[j - 1], s[j]));
        crate::config::model::lemma_text_lt_trans(s[i], s[j - 1], s[j]);
    }
}

/// The names offered in "did you mean" errors are the table's spellings,
/// each once, in code-point order; each reads as an attribute.
pub proof fn lemma_known_names()
    ensures
        forall|i: int, j: int|
            0 <= i < j < known_names_spec().len() ==> text_lt(
                #[trigger] known_names_spec()[i],
                #[trigger] known_names_spec()[j],
            ),
        known_names_spec().no_duplicates(),
        known_names_spec().len() == spellings().len(),
        forall|i: int|
            0 <= i < known_names_spec().len() ==> exists|j: int|
                0 <= j < spellings().len() && spellings()[j].0 == #[trigger] known_names_spec()[i],
        forall|j: int| 0 <= j < spellings().len() ==> known_names_spec().contains(#[trigger] spellings()[j].0),
        forall|i: int| 0 <= i < known_names_spec().len() ==> attribute_word(#[trigger] known_names_spec()[i]) is Some,
{
    let k = known_names_spec();
    reveal_strlit("country");
    reveal_strlit("original_language");
    reveal_strlit("language");
    reveal_strlit("spoken_language");
    reveal_strlit("genre");
    reveal_strlit("genres");
    reveal_strlit("content_rating");
    reveal_strlit("certification");
    reveal_strlit("status");
    reveal_strlit("runtime");
    reveal_strlit("year");
    reveal_strlit("release");
    reveal_strlit("released");
    reveal_strlit("title");
    reveal_strlit("type");
    reveal_strlit("media_type");
    reveal_with_fuel(text_lt, 10);
    assert(text_lt("certification"@, "content_rating"@));
    assert(text_lt("content_rating"@, "country"@));
    assert(text_lt("country"@, "genre"@));
    assert(text_lt("genre"@, "genres"@));
    assert(text_lt("genres"@, "language"@));
    assert(text_lt("language"@, "media_type"@));
    assert(text_lt("media_type"@, "original_language"@));
    assert(text_lt("original_language"@, "release"@));
    assert(text_lt("release"@, "released"@));
    assert(text_lt("released"@, "runtime"@));
    assert(text_lt("runtime"@, "spoken_language"@));
    assert(text_lt("spoken_language"@, "status"@));
    assert(text_lt("status"@, "title"@));
    assert(text_lt("title"@, "type"@));
    assert(text_lt("type"@, "year"@));
    assert forall|i: int, j: int| 0 <= i < j < k.len() implies text_lt(#[trigger] k[i], #[trigger] k[j]) by {
        lemma_chain_pair(k, i, j);
    }
    assert forall|i: int, j: int| 0 <= i < k.len() && 0 <= j < k.len() && i != j implies k[i] != k[j] by {
        if i < j {
            lemma_chain_pair(k, i, j);
            crate::config::model::lemma_text_lt_irreflexive(k[i]);
        } else {
            lemma_chain_pair(k, j, i);
            crate::config::model::lemma_text_lt_irreflexive(k[j]);
        }
    }
    assert(spellings()[7].0 == known_names_spec()[0]);
    assert(spellings()[6].0 == known_names_spec()[1]);
    assert(spellings()[0].0 == known_names_spec()[2]);
    assert(spellings()[4].0 == known_names_spec()[3]);
    assert(spellings()[5].0 == known_names_spec()[4]);
    assert(spellings()[2].0 == known_names_spec()[5]);
    assert(spellings()[15].0 == known_names_spec()[6]);
    assert(spellings()[1].0 == known_names_spec()[7]);
    assert(spellings()[11].0 == known_names_spec()[8]);
    assert(spellings()[12].0 == known_names_spec()[9]);
    assert(spellings()[9].0 == known_names_spec()[10]);
    assert(spellings()[3].0 == known_names_spec()[11]);
    assert(spellings()[8].0 == known_names_spec()[12]);
    assert(spellings()[13].0 == known_names_spec()[13]);
    assert(spellings()[14].0 == known_names_spec()[14]);
    assert(spellings()[10].0 == known_names_spec()[15]);
    assert(known_names_spec()[2] == spellings()[0].0);
    assert(known_names_spec()[7] == spellings()[1].0);
    assert(known_names_spec()[5] == spellings()[2].0);
    assert(known_names_spec()[11] == spellings()[3].0);
    assert(known_names_spec()[3] == spellings()[4].0);
    assert(known_names_spec()[4] == spellings()[5].0);
    assert(known_names_spec()[1] == spellings()[6].0);
    assert(known_names_spec()[0] == spellings()[7].0);
    assert(known_names_spec()[12] == spellings()[8].0);
    assert(known_names_spec()[10] == spellings()[9].0);
    assert(known_names_spec()[15] == spellings()[10].0);
    assert(known_names_spec()[8] == spellings()[11].0);
    assert(known_names_spec()[9] == spellings()[12].0);
    assert(known_names_spec()[13] == spellings()[13].0);
    assert(known_names_spec()[14] == spellings()[14].0);
    assert(known_names_spec()[6] == spellings()[15].0);
    lemma_spellings_parse();
    assert forall|i: int| 0 <= i < k.len() implies attribute_word(#[trigger] k[i]) is Some by {
        let j = choose|j: int| 0 <= j < spellings().len() && spellings()[j].0 == k[i];
        assert(attribute_word(spellings()[j].0) == Some(spellings()[j].1));
    }
}

/// Every spelling is already trimmed and lowercase, so parsing reads it as
/// it stands.
pub proof fn lemma_spellings_are_keywords()
    ensures
        forall|j: int| 0 <= j < spellings().len() ==> keyword((#[trigger] spellings()[j]).0) == spellings()[j].0,
{
    reveal_strlit("country");
    reveal_strlit("original_language");
    reveal_strlit("language");
    reveal_strlit("spoken_language");
    reveal_strlit("genre");
    reveal_strlit("genres");
    reveal_strlit("content_rating");
    reveal_strlit("certification");
    reveal_strlit("status");
    reveal_strlit("runtime");
    reveal_strlit("year");
    reveal_strlit("release");
    reveal_strlit("released");
    reveal_strlit("title");
    reveal_strlit("type");
    reveal_strlit("media_type");
    lemma_plain_word_is_keyword(spellings()[0].0);
    lemma_plain_word_is_keyword(spellings()[1].0);
    lemma_plain_word_is_keyword(spellings()[2].0);
    lemma_plain_word_is_keyword(spellings()[3].0);
    lemma_plain_word_is_keyword(spellings()[4].0);
    lemma_plain_word_is_keyword(spellings()[5].0);
    lemma_plain_word_is_keyword(spellings()[6].0);
    lemma_plain_word_is_keyword(spellings()[7].0);
    lemma_plain_word_is_keyword(spellings()[8].0);
    lemma_plain_word_is_keyword(spellings()[9].0);
    lemma_plain_word_is_keyword(spellings()[10].0);
    lemma_plain_word_is_keyword(spellings()[11].0);
    lemma_plain_word_is_keyword(spellings()[12].0);
    lemma_plain_word_is_keyword(spellings()[13].0);
    lemma_plain_word_is_keyword(spellings()[14].0);
    lemma_plain_word_is_keyword(spellings()[15].0);
}

/// The canonical text of every attribute parses back to that attribute,
/// through the trimming and lowercasing that parsing applies.
pub proof fn lemma_attribute_text_parses(a: Attribute)
    ensures
        attribute_word(keyword(attribute_text(a))) == Some(a),
{
    lemma_canonical_spelling(a);
    lemma_spellings_are_keywords();
    lemma_attribute_round_trip(a);
    let i = choose|i: int|
        0 <= i < spellings().len() && spellings()[i] == (attribute_text(a), a) && forall|j: int|
            0 <= j < i ==> (#[trigger] spellings()[j]).1 != a;
    assert(keyword(spellings()[i].0) == spellings()[i].0);
}

/// Every known attribute name parses, through the trimming and lowercasing
/// that parsing applies.
pub proof fn lemma_known_names_parse()
    ensures
        forall|i: int|
            0 <= i < known_names_spec().len() ==> attribute_word(keyword(#[trigger] known_names_spec()[i])) is Some,
{
    lemma_known_names();
    lemma_spellings_are_keywords();
    lemma_spellings_parse();
    assert forall|i: int| 0 <= i < known_names_spec().len() implies attribute_word(
        keyword(#[trigger] known_names_spec()[i]),
    ) is Some by {
        let j = choose|j: int| 0 <= j < spellings().len() && spellings()[j].0 == known_names_spec()[i];
        assert(keyword(spellings()[j].0) == spellings()[j].0);
        assert(attribute_word(spellings()[j].0) == Some(spellings()[j].1));
    }
}

} // verus!
