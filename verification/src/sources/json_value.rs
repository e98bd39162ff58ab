//! Small helpers for digging ids out of loosely typed JSON.

use vstd::prelude::*;

use crate::doc::{first_present_spec, lookup, nonblank, nonblank_text, Doc};
use crate::model::{calendar_date, normalize_code_spec, parse_date, strings_view, Date};
use crate::text::{parse_i64, parse_i64_spec, parse_u32, parse_u32_spec, trim, trim_string};

verus! {

pub open spec fn opt_doc(value: Option<&Doc>) -> Option<Doc> {
    match value {
        Some(d) => Some(*d),
        None => None,
    }
}

/// Numbers arrive as numbers, as strings, or not at all.
pub open spec fn u32_of(value: Option<Doc>) -> Option<u32> {
    match value {
        Some(Doc::Number(n)) => match n.unsigned {
            Some(u) => if u <= u32::MAX {
                Some(u as u32)
            } else {
                None
            },
            None => None,
        },
        Some(Doc::Text(t)) => parse_u32_spec(trim(t@)),
        _ => None,
    }
}

pub open spec fn i32_of(value: Option<Doc>) -> Option<i32> {
    match value {
        Some(Doc::Number(n)) => match n.signed {
            Some(s) => if i32::MIN <= s <= i32::MAX {
                Some(s as i32)
            } else {
                None
            },
            None => None,
        },
        Some(Doc::Text(t)) => match parse_i64_spec(trim(t@)) {
            Some(s) => if i32::MIN <= s <= i32::MAX {
                Some(s as i32)
            } else {
                None
            },
            None => None,
        },
        _ => None,
    }
}

pub open spec fn str_of(value: Option<Doc>) -> Option<Seq<char>> {
    match value {
        Some(d) => nonblank_text(d),
        None => None,
    }
}

/// Radarr and Sonarr send full timestamps, MDBList sends plain dates: the
/// first ten characters are read as a date.
pub open spec fn date_of(value: Option<Doc>) -> Option<Date> {
    match str_of(value) {
        Some(t) => calendar_date(if t.len() > 10 {
            t.take(10)
        } else {
            t
        }),
        None => None,
    }
}

pub fn as_u32(value: Option<&Doc>) -> (r: Option<u32>)
    ensures
        r == u32_of(opt_doc(value)),
{
    match value {
        Some(Doc::Number(n)) => match n.unsigned {
            Some(u) => if u <= u32::MAX as u64 {
                Some(u as u32)
            } else {
                None
            },
            None => None,
        },
        Some(Doc::Text(t)) => {
            let trimmed = trim_string(t.as_str());
            parse_u32(trimmed.as_str())
        },
        _ => None,
    }
}

pub fn as_i32(value: Option<&Doc>) -> (r: Option<i32>)
    ensures
        r == i32_of(opt_doc(value)),
{
    let wide = match value {
        Some(Doc::Number(n)) => n.signed,
        Some(Doc::Text(t)) => {
            let trimmed = trim_string(t.as_str());
            parse_i64(trimmed.as_str())
        },
        _ => None,
    };
    match wide {
        Some(s) => if i32::MIN as i64 <= s && s <= i32::MAX as i64 {
            Some(s as i32)
        } else {
            None
        },
        None => None,
    }
}

/// A text value with something in it, trimmed.
pub fn as_str(value: Option<&Doc>) -> (r: Option<String>)
    ensures
        crate::model::ov(r) == str_of(opt_doc(value)),
{
    match value {
        Some(d) => nonblank(d),
        None => None,
    }
}

pub fn as_date(value: Option<&Doc>) -> (r: Option<Date>)
    ensures
        r == date_of(opt_doc(value)),
{
    match as_str(value) {
        Some(text) => {
            let chars = crate::text::chars_of(text.as_str());
            if chars.len() > 10 {
                let head = crate::text::string_of_range(&chars, 0, 10);
                assert(chars@.subrange(0, 10) =~= chars@.take(10));
                parse_date(head.as_str())
            } else {
                parse_date(text.as_str())
            }
        },
        None => None,
    }
}

/// The first of `keys` present with a value that is not null, so a feed can
/// spell it `tmdbId`, `tmdb_id` or `tmdb`.
pub fn first_present<'a>(object: &'a Doc, keys: &Vec<String>) -> (r: Option<&'a Doc>)
    ensures
        opt_doc(r) == first_present_spec(*object, strings_view(keys@)),
{
    let ghost ks = strings_view(keys@);
    assert(ks.skip(0) =~= ks);
    let mut i: usize = 0;
    while i < keys.len()
        invariant
            0 <= i <= keys@.len(),
            ks == strings_view(keys@),
            first_present_spec(*object, ks) == first_present_spec(*object, ks.skip(i as int)),
        decreases keys.len() - i,
    {
        assert(ks.skip(i as int).drop_first() =~= ks.skip(i + 1));
        assert(ks.skip(i as int)[0] == keys@[i as int]@);
        match object.get(keys[i].as_str()) {
            Some(v) => {
                if !v.is_null() {
                    return Some(v);
                }
            },
            None => {},
        }
        i += 1;
    }
    assert(ks.skip(keys@.len() as int).len() == 0);
    None
}

/// The pieces of `p` between occurrences of `sep`, as `str::split` gives
/// them.
pub open spec fn pieces(p: Seq<char>, sep: char) -> Seq<Seq<char>>
    decreases p.len(),
{
    if p.len() == 0 {
        seq![seq![]]
    } else {
        let rest = pieces(p.drop_first(), sep);
        if p[0] == sep {
            seq![seq![]] + rest
        } else {
            seq![seq![p[0]] + rest[0]] + rest.drop_first()
        }
    }
}

pub proof fn lemma_pieces_nonempty(p: Seq<char>, sep: char)
    ensures
        pieces(p, sep).len() >= 1,
    decreases p.len(),
{
    if p.len() > 0 {
        lemma_pieces_nonempty(p.drop_first(), sep);
    }
}

/// The non-empty pieces of `p` between occurrences of `sep`.
pub open spec fn nonempty_pieces(p: Seq<char>, sep: char) -> Seq<Seq<char>> {
    pieces(p, sep).filter(|s: Seq<char>| s.len() > 0)
}

/// The key names a path such as `data.items` walks, empty segments skipped.
pub open spec fn path_segments(p: Seq<char>) -> Seq<Seq<char>> {
    nonempty_pieces(p, '.')
}

/// Walk a sequence of keys down from a value.
pub open spec fn walk(value: Doc, keys: Seq<Seq<char>>) -> Option<Doc>
    decreases keys.len(),
{
    if keys.len() == 0 {
        Some(value)
    } else {
        match lookup(value, keys[0]) {
            Some(v) => walk(v, keys.drop_first()),
            None => None,
        }
    }
}

/// The non-empty pieces of `text` between occurrences of `sep`, in order.
pub fn split_nonempty(text: &str, sep: char) -> (r: Vec<String>)
    ensures
        strings_view(r@) == nonempty_pieces(text@, sep),
{
    let chars = crate::text::chars_of(text);
    let mut out: Vec<String> = Vec::new();
    let mut current: Vec<char> = Vec::new();
    let ghost p = chars@;
    let mut i: usize = 0;
    let ghost mut done: Seq<Seq<char>> = seq![];
    proof {
        assert(current@ + p.skip(0) =~= p);
        assert(done + pieces(p, sep) =~= pieces(p, sep));
        assert(strings_view(out@) =~= done.filter(|s: Seq<char>| s.len() > 0));
    }
    while i < chars.len()
        invariant
            0 <= i <= p.len(),
            p == chars@,
            p == text@,
            strings_view(out@) == done.filter(|s: Seq<char>| s.len() > 0),
            !current@.contains(sep),
            done + pieces(current@ + p.skip(i as int), sep) == pieces(p, sep),
        decreases chars.len() - i,
    {
        let c = chars[i];
        let ghost tail = p.skip(i as int);
        proof {
            lemma_pieces_prefix(current@, tail, sep);
        }
        if c == sep {
            proof {
                assert(tail[0] == sep);
                assert(tail.drop_first() =~= p.skip(i + 1));
            }
            let seg = crate::text::string_of(current.as_slice());
            let ghost cur = current@;
            if current.len() > 0 {
                out.push(seg);
            }
            proof {
                done.lemma_filter_push(cur, |s: Seq<char>| s.len() > 0);
                assert(strings_view(out@) =~= done.push(cur).filter(|s: Seq<char>| s.len() > 0));
                assert(pieces(cur + tail, sep) == seq![cur] + pieces(tail.drop_first(), sep));
                assert(Seq::<char>::empty() + p.skip(i + 1) =~= p.skip(i + 1));
                assert(done.push(cur) + pieces(Seq::<char>::empty() + p.skip(i + 1), sep) =~= done + (
                seq![cur] + pieces(tail.drop_first(), sep)));
                done = done.push(cur);
            }
            current = Vec::new();
        } else {
            let ghost before = current@;
            current.push(c);
            proof {
                assert(current@ + p.skip(i + 1) =~= before.push(tail[0]) + tail.drop_first());
                assert(!current@.contains(sep)) by {
                    assert forall|k: int| 0 <= k < current@.len() implies current@[k] != sep by {
                        if k < before.len() {
                            assert(current@[k] == before[k]);
                        }
                    }
                }
            }
        }
        i += 1;
    }
    let ghost cur = current@;
    proof {
        assert(p.skip(p.len() as int) =~= Seq::<char>::empty());
        assert(cur + p.skip(p.len() as int) =~= cur);
        lemma_pieces_plain(cur, sep);
        done.lemma_filter_push(cur, |s: Seq<char>| s.len() > 0);
        assert(pieces(p, sep) =~= done.push(cur));
    }
    if current.len() > 0 {
        out.push(crate::text::string_of(current.as_slice()));
    }
    proof {
        assert(strings_view(out@) =~= done.push(cur).filter(|s: Seq<char>| s.len() > 0));
    }
    out
}

/// Text without the separator is one piece.
proof fn lemma_pieces_plain(s: Seq<char>, sep: char)
    requires
        !s.contains(sep),
    ensures
        pieces(s, sep) == seq![s],
    decreases s.len(),
{
    if s.len() > 0 {
        assert(!s.drop_first().contains(sep)) by {
            assert forall|k: int| 0 <= k < s.drop_first().len() implies s.drop_first()[k] != sep by {
                assert(s.drop_first()[k] == s[k + 1]);
            }
        }
        lemma_pieces_plain(s.drop_first(), sep);
        assert(s[0] != sep) by {
            if s[0] == sep {
                assert(s.contains(sep));
            }
        }
        assert(seq![s[0]] + s.drop_first() =~= s);
        assert(seq![s.drop_first()].drop_first() =~= Seq::<Seq<char>>::empty());
        assert(pieces(s, sep) =~= seq![s]);
    } else {
        assert(s =~= Seq::<char>::empty());
    }
}

/// A separator-free prefix joins the first piece of what follows it.
proof fn lemma_pieces_prefix(pre: Seq<char>, t: Seq<char>, sep: char)
    requires
        !pre.contains(sep),
    ensures
        t.len() > 0 && t[0] == sep ==> pieces(pre + t, sep) == seq![pre] + pieces(t.drop_first(), sep),
        t.len() > 0 && t[0] != sep ==> pieces(pre + t, sep) == pieces(pre.push(t[0]) + t.drop_first(), sep),
    decreases pre.len(),
{
    if pre.len() == 0 {
        assert(pre + t =~= t);
        assert(pre =~= Seq::<char>::empty());
        if t.len() > 0 && t[0] != sep {
            assert(pre.push(t[0]) + t.drop_first() =~= t);
        }
    } else {
        let rest = pre.drop_first();
        assert(!rest.contains(sep)) by {
            assert forall|k: int| 0 <= k < rest.len() implies rest[k] != sep by {
                assert(rest[k] == pre[k + 1]);
            }
        }
        assert(pre[0] != sep) by {
            if pre[0] == sep {
                assert(pre.contains(sep));
            }
        }
        lemma_pieces_prefix(rest, t, sep);
        lemma_pieces_nonempty(rest + t, sep);
        assert((pre + t).drop_first() =~= rest + t);
        assert((pre + t)[0] == pre[0]);
        if t.len() > 0 && t[0] != sep {
            assert((pre.push(t[0]) + t.drop_first()).drop_first() =~= rest.push(t[0]) + t.drop_first());
            assert((pre.push(t[0]) + t.drop_first())[0] == pre[0]);
            lemma_pieces_nonempty(rest.push(t[0]) + t.drop_first(), sep);
        }
        if t.len() > 0 && t[0] == sep {
            assert(seq![pre[0]] + rest =~= pre);
        }
    }
}

/// Walk a dotted path such as `data.items`.
pub fn dig<'a>(value: &'a Doc, path: &str) -> (r: Option<&'a Doc>)
    ensures
        opt_doc(r) == walk(*value, path_segments(path@)),
{
    let segs = split_nonempty(path, '.');
    let ghost ks = strings_view(segs@);
    assert(ks.skip(0) =~= ks);
    let mut current: &Doc = value;
    let mut i: usize = 0;
    while i < segs.len()
        invariant
            0 <= i <= segs@.len(),
            ks == strings_view(segs@),
            ks == path_segments(path@),
            walk(*value, ks) == walk(*current, ks.skip(i as int)),
        decreases segs.len() - i,
    {
        assert(ks.skip(i as int).drop_first() =~= ks.skip(i + 1));
        assert(ks.skip(i as int)[0] == segs@[i as int]@);
        match current.get(segs[i].as_str()) {
            Some(next) => {
                current = next;
            },
            None => {
                assert(walk(*current, ks.skip(i as int)) is None);
                return None;
            },
        }
        i += 1;
    }
    assert(ks.skip(segs@.len() as int).len() == 0);
    Some(current)
}

/// One genre entry's name: a plain string, or an object's `title`, `name`
/// or `genre`.
pub open spec fn genre_name(entry: Doc) -> Option<Seq<char>> {
    match entry {
        Doc::Text(_) => nonblank_text(entry),
        Doc::Table(_) => str_of(first_present_spec(entry, seq!["title"@, "name"@, "genre"@])),
        _ => None,
    }
}

/// Genre names normalized to lowercase codes, deduplicated, order kept.
pub open spec fn genres_from(entries: Seq<Doc>) -> Seq<Seq<char>>
    decreases entries.len(),
{
    if entries.len() == 0 {
        seq![]
    } else {
        let before = genres_from(entries.drop_last());
        match genre_name(entries.last()) {
            Some(n) => match normalize_code_spec(n) {
                Some(c) => if before.contains(c) {
                    before
                } else {
                    before.push(c)
                },
                None => before,
            },
            None => before,
        }
    }
}

pub open spec fn genres_of(value: Option<Doc>) -> Seq<Seq<char>> {
    match value {
        Some(Doc::List(entries)) => genres_from(entries@),
        _ => seq![],
    }
}

/// Genres arrive either as plain strings (`["drama"]`, from the list
/// endpoint) or as objects (`[{"id":6,"title":"Drama"}]`, from the batch
/// endpoint).
pub fn as_genres(value: Option<&Doc>) -> (r: Vec<String>)
    ensures
        strings_view(r@) == genres_of(opt_doc(value)),
{
    let entries = match value {
        Some(Doc::List(entries)) => entries,
        _ => {
            let out: Vec<String> = Vec::new();
            assert(strings_view(out@) =~= Seq::<Seq<char>>::empty());
            return out;
        },
    };
    let keys: Vec<String> = vec![
        crate::text::from_str("title"),
        crate::text::from_str("name"),
        crate::text::from_str("genre"),
    ];
    assert(strings_view(keys@) =~= seq!["title"@, "name"@, "genre"@]);
    let mut out: Vec<String> = Vec::new();
    let mut i: usize = 0;
    while i < entries.len()
        invariant
            0 <= i <= entries@.len(),
            strings_view(keys@) == seq!["title"@, "name"@, "genre"@],
            strings_view(out@) == genres_from(entries@.take(i as int)),
        decreases entries.len() - i,
    {
        assert(entries@.take(i + 1).drop_last() =~= entries@.take(i as int));
        assert(entries@.take(i + 1).last() == entries@[i as int]);
        let entry = &entries[i];
        let name = match entry {
            Doc::Text(_) => nonblank(entry),
            Doc::Table(_) => as_str(first_present(entry, &keys)),
            _ => None,
        };
        match name {
            Some(n) => match crate::model::normalize_code(n.as_str()) {
                Some(code) => {
                    if !crate::expr::ast::strings_contain(&out, &code) {
                        let ghost before = out@;
                        out.push(code);
                        assert(strings_view(out@) =~= strings_view(before).push(code@));
                    }
                },
                None => {},
            },
            None => {},
        }
        i += 1;
    }
    assert(entries@.take(entries@.len() as int) =~= entries@);
    out
}

} // verus!
