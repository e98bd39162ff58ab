//! Items written directly in the config: `items: ["tmdb:550", "imdb:tt0133093"]`.

use vstd::prelude::*;

use crate::config::model::StaticSource;
use crate::model::{id_spec_result, no_attrs, parse_id_spec, Item, ItemView, MediaIdsView, MediaType};
use crate::text::{decimal, fmt_u64, from_str, push_str};

verus! {

/// The rank of the entry at `index`: its position, counted from one, as a
/// `u32` counts.
pub open spec fn rank_of(index: int) -> u32 {
    ((index + 1) % 0x1_0000_0000) as u32
}

pub fn rank_at(index: usize) -> (r: u32)
    ensures
        r == rank_of(index as int),
{
    let i = index as u64;
    if i == u64::MAX {
        assert(((index as int) + 1) % 0x1_0000_0000 == 0);
        0
    } else {
        ((i + 1) % 0x1_0000_0000) as u32
    }
}

/// The item a static entry stands for.
pub open spec fn static_item(media_type: MediaType, ids: MediaIdsView, index: int) -> ItemView {
    ItemView {
        media_type,
        ids,
        title: None,
        year: None,
        released: None,
        rank: Some(rank_of(index)),
        attrs: no_attrs(),
    }
}

/// The first entry that does not parse, with its position.
pub open spec fn first_bad_spec(specs: Seq<String>) -> Option<int> {
    if exists|i: int| 0 <= i < specs.len() && #[trigger] id_spec_result(specs[i]@) is Err {
        Some(
            choose|i: int|
                0 <= i < specs.len() && #[trigger] id_spec_result(specs[i]@) is Err && forall|j: int|
                    0 <= j < i ==> #[trigger] id_spec_result(specs[j]@) is Ok,
        )
    } else {
        None
    }
}

pub open spec fn static_error(index: int, message: Seq<char>) -> Seq<char> {
    "static item #"@ + decimal((index + 1) as nat) + ": "@ + message
}

/// Every entry as a ranked item, or the first entry that does not parse.
pub fn fetch(source: &StaticSource) -> (r: Result<Vec<Item>, String>)
    ensures
        match first_bad_spec(source.items@) {
            Some(b) => r matches Err(e) && e@ == static_error(b, id_spec_result(source.items@[b]@)->Err_0),
            None => r matches Ok(items) && items@.len() == source.items@.len() && forall|i: int|
                0 <= i < items@.len() ==> (#[trigger] items@[i])@ == static_item(
                    source.media_type,
                    id_spec_result(source.items@[i]@)->Ok_0,
                    i,
                ),
        },
{
    let mut out: Vec<Item> = Vec::new();
    let mut i: usize = 0;
    while i < source.items.len()
        invariant
            0 <= i <= source.items@.len(),
            out@.len() == i,
            forall|j: int| 0 <= j < i ==> #[trigger] id_spec_result(source.items@[j]@) is Ok,
            forall|j: int|
                0 <= j < i ==> (#[trigger] out@[j])@ == static_item(
                    source.media_type,
                    id_spec_result(source.items@[j]@)->Ok_0,
                    j,
                ),
        decreases source.items.len() - i,
    {
        match parse_id_spec(source.items[i].as_str()) {
            Ok(ids) => {
                let mut item = Item::new(source.media_type);
                item.ids = ids;
                item.rank = Some(rank_at(i));
                out.push(item);
            },
            Err(message) => {
                proof {
                    let c = choose|c: int|
                        0 <= c < source.items@.len() && #[trigger] id_spec_result(source.items@[c]@) is Err
                            && forall|j: int| 0 <= j < c ==> #[trigger] id_spec_result(source.items@[j]@) is Ok;
                    assert(id_spec_result(source.items@[i as int]@) is Err);
                    if c < i {
                    } else if c > i {
                        assert(id_spec_result(source.items@[i as int]@) is Ok);
                    }
                }
                let mut e = from_str("static item #");
                let n = fmt_u64(i as u64 + 1);
                push_str(&mut e, n.as_str());
                push_str(&mut e, ": ");
                push_str(&mut e, message.as_str());
                return Err(e);
            },
        }
        i += 1;
    }
    Ok(out)
}

} // verus!
