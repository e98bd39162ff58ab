//! Set algebra for movie and show lists: the expression and filter languages,
//! item identity across sources, list evaluation and the renderers that hand
//! the result to Radarr, Sonarr and Kometa.

pub mod text;
pub mod doc;
pub mod clock;
pub mod config;
pub mod model;
pub mod expr;
pub mod filter;
pub mod chains;
pub mod identity;
pub mod cache;
pub mod meta;
pub mod lists;
pub mod api;
pub mod collection;
pub mod sources;
pub mod enrich;
pub mod refresh;
