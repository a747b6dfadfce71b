//! The resolution of one hosting-page link as a state machine: it asks for
//! page fetches and is told their outcome, so that the caller alone performs
//! I/O. A resolution fetches the entry page, then the embed page that the entry
//! page names, and ends with the stream URL or a failure.

use vstd::prelude::*;
use crate::error::ResolveError;
use crate::extract::origin_spec;
use crate::resolver::{decode_kwik_embed_page, decode_kwik_f_page, embed_stage, entry_stage, result_view};

verus! {

/// Where a resolution stands.
#[derive(Debug, Clone, Copy, PartialEq, Eq, Structural)]
pub enum Stage {
    /// The entry page has been asked for.
    AwaitingEntry,
    /// The embed page has been asked for.
    AwaitingEmbed,
    /// The resolution has ended.
    Finished,
}

/// What the caller is to do next.
#[derive(Debug, PartialEq, Eq)]
pub enum Action {
    /// Fetch `url`, sending `referrer` as the referrer, and report the outcome.
    Fetch { url: String, referrer: String },
    /// The resolution has ended with this result.
    Finish(Result<String, ResolveError>),
}

/// The outcome of a fetch.
#[derive(Debug, Clone)]
pub enum PageEvent {
    /// The page's text.
    Fetched(String),
    /// The fetch did not return usable text.
    FetchFailed,
}

/// One resolution in progress.
#[derive(Debug)]
pub struct Resolver {
    pub entry_url: String,
    pub stage: Stage,
}

/// The host's origin.
pub fn origin() -> (r: String)
    ensures
        r@ == origin_spec(),
{
    proof {
        reveal_strlit("https://kwik.cx");
    }
    let r = String::from_str("https://kwik.cx");
    assert(r@ =~= origin_spec());
    r
}

/// The referrer sent with the entry page: the origin followed by `/`.
pub fn entry_referrer() -> (r: String)
    ensures
        r@ == origin_spec().push('/'),
{
    proof {
        reveal_strlit("/");
    }
    let r = origin().concat("/");
    assert(r@ =~= origin_spec().push('/'));
    r
}

impl Resolver {
    /// Starts resolving `entry_url`: the first action fetches it.
    pub fn new(entry_url: String) -> (r: (Resolver, Action))
        ensures
            r.0.stage == Stage::AwaitingEntry,
            r.0.entry_url@ == entry_url@,
            r.1 matches Action::Fetch { url, referrer } && url@ == entry_url@ && referrer@ == origin_spec().push('/'),
    {
        let url = entry_url.clone();
        (Resolver { entry_url, stage: Stage::AwaitingEntry }, Action::Fetch { url, referrer: entry_referrer() })
    }

    /// Takes the outcome of the fetch last asked for and says what to do next.
    pub fn step(&mut self, event: PageEvent) -> (a: Action)
        requires
            old(self).stage != Stage::Finished,
        ensures
            final(self).entry_url == old(self).entry_url,
            match event {
                PageEvent::FetchFailed => final(self).stage == Stage::Finished && (a matches Action::Finish(r)
                    && r == Err::<String, ResolveError>(ResolveError::FetchFailed)),
                PageEvent::Fetched(html) => if old(self).stage == Stage::AwaitingEntry {
                    match entry_stage(html@) {
                        Ok(path) => final(self).stage == Stage::AwaitingEmbed && (a matches Action::Fetch { url, referrer }
                            && url@ == origin_spec() + path && referrer@ == old(self).entry_url@),
                        Err(e) => final(self).stage == Stage::Finished && (a matches Action::Finish(r)
                            && r == Err::<String, ResolveError>(e)),
                    }
                } else {
                    final(self).stage == Stage::Finished && (a matches Action::Finish(r) && result_view(r) == embed_stage(html@))
                },
            },
    {
        match event {
            PageEvent::FetchFailed => {
                self.stage = Stage::Finished;
                Action::Finish(Err(ResolveError::FetchFailed))
            },
            PageEvent::Fetched(html) => {
                if self.stage == Stage::AwaitingEntry {
                    match decode_kwik_f_page(html.as_str()) {
                        Ok(path) => {
                            self.stage = Stage::AwaitingEmbed;
                            let url = origin().concat(path.as_str());
                            Action::Fetch { url, referrer: self.entry_url.clone() }
                        },
                        Err(e) => {
                            self.stage = Stage::Finished;
                            Action::Finish(Err(e))
                        },
                    }
                } else {
                    self.stage = Stage::Finished;
                    Action::Finish(decode_kwik_embed_page(html.as_str()))
                }
            },
        }
    }
}

} // verus!
