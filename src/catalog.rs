//! Records of the catalog service that the surrounding application browses:
//! a page of a series' episodes and the streams offered for one episode.

use vstd::prelude::*;

verus! {

/// One page of a series' episode list.
#[derive(Debug, Clone)]
pub struct SeriesResponse {
    pub title: String,
    pub episodes: Vec<Episode>,
    pub total_pages: u32,
    pub page: u32,
    pub next: bool,
}

/// One episode of a series.
#[derive(Debug, Clone)]
pub struct Episode {
    pub episode: String,
    pub session: String,
    pub snapshot: String,
}

/// One stream offered for an episode: a hosting-page link and its quality label.
#[derive(Debug, Clone)]
pub struct StreamItem {
    pub link: String,
    pub name: String,
}

} // verus!
