//! Where items come from: turning what a provider answers into items.
//! Adding a provider means adding a module here and a variant to
//! `SourceConfig`. Making the requests is the caller's part.

pub mod arr;
pub mod json_url;
pub mod json_value;
pub mod mdblist;
pub mod static_list;

use vstd::prelude::*;

use crate::config::compile::{named, Runtime};
use crate::config::model::{ArrSource, JsonSource, MdblistSource, SourceConfig};
use crate::model::{Item, MediaType};
use crate::text::{from_str, push_str};

verus! {

/// What fetching a source takes.
#[derive(Debug)]
pub enum Plan {
    /// A static source needs no request: here are its items.
    Ready(Vec<Item>),
    /// Page through an MDBList list at `url` with `apikey`.
    Mdblist { url: String, apikey: String },
    /// `GET` a JSON feed.
    Json,
    /// `GET` an instance's library at `url`.
    Arr { url: String, media_type: MediaType },
}

pub open spec fn no_source_message(name: Seq<char>) -> Seq<char> {
    "no source named `"@ + name + "`"@
}

/// How to fetch the source called `name`: an unknown source, a static
/// entry that does not parse, an MDBList source without an address or a
/// key are refused here, before anything is requested.
pub fn plan(runtime: &Runtime, name: &str) -> (r: Result<Plan, String>)
    ensures
        named(runtime.config.sources@, name@) is None ==> (r matches Err(e) && e@ == no_source_message(name@)),
        named(runtime.config.sources@, name@) matches Some(s) ==> match s {
            SourceConfig::Static(st) => match static_list::first_bad_spec(st.items@) {
                Some(_) => r is Err,
                None => r matches Ok(Plan::Ready(_)),
            },
            SourceConfig::Mdblist(m) => match mdblist::address_spec(m) {
                Err(e) => r matches Err(x) && x@ == e,
                Ok(a) => match (m.apikey, runtime.config.providers.mdblist) {
                    (None, None) => r matches Err(x) && x@ == "no MDBList API key configured"@,
                    _ => r matches Ok(Plan::Mdblist { url, apikey }) && url@ == mdblist::list_url_spec(
                        match runtime.config.providers.mdblist {
                            Some(p) => p.base_url@,
                            None => crate::config::model::default_mdblist_base(),
                        },
                        a,
                    ) && apikey@ == match m.apikey {
                        Some(k) => k@,
                        None => runtime.config.providers.mdblist->0.apikey@,
                    },
                },
            },
            SourceConfig::Json(_) => r matches Ok(Plan::Json),
            SourceConfig::Radarr(a) => r matches Ok(Plan::Arr { url, media_type }) && media_type
                == MediaType::Movie && url@ == arr::arr_url_spec(a, MediaType::Movie),
            SourceConfig::Sonarr(a) => r matches Ok(Plan::Arr { url, media_type }) && media_type
                == MediaType::Show && url@ == arr::arr_url_spec(a, MediaType::Show),
        },
{
    let source = match runtime.source(name) {
        Some(s) => s,
        None => {
            let mut e = from_str("no source named `");
            push_str(&mut e, name);
            push_str(&mut e, "`");
            return Err(e);
        },
    };
    match source {
        SourceConfig::Static(st) => match static_list::fetch(st) {
            Ok(items) => Ok(Plan::Ready(items)),
            Err(e) => Err(e),
        },
        SourceConfig::Mdblist(m) => {
            let address = match mdblist::address(m) {
                Ok(a) => a,
                Err(e) => return Err(e),
            };
            let apikey = match runtime.mdblist_apikey(m) {
                Some(k) => k,
                None => return Err(from_str("no MDBList API key configured")),
            };
            let base = runtime.mdblist_base_url();
            let url = mdblist::list_url(base.as_str(), &address);
            Ok(Plan::Mdblist { url, apikey })
        },
        SourceConfig::Json(_) => Ok(Plan::Json),
        SourceConfig::Radarr(a) => Ok(Plan::Arr { url: arr::arr_url(a, MediaType::Movie), media_type: MediaType::Movie }),
        SourceConfig::Sonarr(a) => Ok(Plan::Arr { url: arr::arr_url(a, MediaType::Show), media_type: MediaType::Show }),
    }
}

} // verus!
