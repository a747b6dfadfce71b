//! The two page stages of a resolution and the state machine that sequences
//! them around the page fetches, which the caller performs.

use vstd::prelude::*;
use crate::cipher::{cipher_call_of, cipher_parameters_spec, cipher_stage, outcome_view, unpack_custom_kwik, MAX_RADIX};
use crate::decimal::{decimal_within, parse_decimal};
use crate::error::ResolveError;
use crate::extract::{
    assignment_of, extract_embed_link, extract_embed_path, extract_m3u8, link_of, manifest_of,
    opt_view, origin_spec,
};
use crate::packer::{strings_view, substitute_runs, unpack_dean_edwards, word_runs};
use crate::text::{chars_of, split_chars, split_spec, string_of};

verus! {

/// The textual arguments of one packer invocation: the packed source, its
/// base, the dictionary string and the character that separates its entries.
#[derive(Debug, Clone)]
pub struct PackerInvocation {
    pub packed: String,
    pub base_text: String,
    pub dictionary: String,
    pub separator: char,
}

impl PackerInvocation {
    /// The invocation's arguments as plain values.
    pub open spec fn view(&self) -> (Seq<char>, Seq<char>, Seq<char>, char) {
        (self.packed@, self.base_text@, self.dictionary@, self.separator)
    }
}

/// The packer invocations of `html` in document order, as the pattern of
/// `find_packer_invocations` captures them.
pub uninterp spec fn packer_calls_of(html: Seq<char>) -> Seq<(Seq<char>, Seq<char>, Seq<char>, char)>;

/// Relies on `regex::Regex::captures_iter`: the successive non-overlapping
/// matches of the packer invocation shape in `html`, with their packed source,
/// base, dictionary and separator groups. The separator group is one character.
#[verifier::external_body]
fn find_packer_invocations(html: &str) -> (r: Vec<PackerInvocation>)
    ensures
        r@.len() == packer_calls_of(html@).len(),
        forall|i: int| 0 <= i < r@.len() ==> #[trigger] r@[i].view() == packer_calls_of(html@)[i],
{
    let re = regex::Regex::new(
        r#"(?s)eval\(function\(p,a,c,k,e,d\)\{.*?\}\('(.*?)',(\d+),(\d+),'(.*?)'\.split\('([|\\\\])'\),\d+,\{\}\)\)"#,
    ).unwrap();
    re.captures_iter(html).map(
        |c| PackerInvocation {
            packed: c[1].to_string(),
            base_text: c[2].to_string(),
            dictionary: c[4].to_string(),
            separator: c[5].chars().next().unwrap(),
        },
    ).collect()
}

/// The text one packer invocation decodes to, or `None` when its base is not
/// a numeral that fits a `usize`.
pub open spec fn packer_text(call: (Seq<char>, Seq<char>, Seq<char>, char)) -> Option<Seq<char>> {
    let (packed, base_text, dictionary, sep) = call;
    match decimal_within(base_text, usize::MAX as int) {
        Some(base) => Some(substitute_runs(packed, word_runs(packed), base, split_spec(dictionary, sep))),
        None => None,
    }
}

/// The outcome of trying the packer invocations from the `i`-th on, in order:
/// the first manifest URL that one of them decodes to. An invocation whose
/// base is unusable yields nothing and the search goes on, so the search fails,
/// with `NoStreamUrl`, only once every invocation has been tried.
pub open spec fn packer_search(calls: Seq<(Seq<char>, Seq<char>, Seq<char>, char)>, i: int) -> Result<Seq<char>, ResolveError>
    decreases calls.len() - i,
{
    if i < 0 || i >= calls.len() {
        Err(ResolveError::NoStreamUrl)
    } else {
        match packer_text(calls[i]) {
            None => packer_search(calls, i + 1),
            Some(t) => match manifest_of(t) {
                Some(u) => Ok(u),
                None => packer_search(calls, i + 1),
            },
        }
    }
}

/// What the embed-page stage makes of a cipher outcome and the page's packer
/// invocations: the cipher's manifest URL if it decodes to one, else the
/// packers' search. A cipher that is absent, malformed or whose text holds no
/// manifest URL leaves the page to the packers, and when they give none either
/// the stage fails with `NoStreamUrl`.
pub open spec fn stream_from(
    cipher: Result<Option<Seq<char>>, ResolveError>,
    calls: Seq<(Seq<char>, Seq<char>, Seq<char>, char)>,
) -> Result<Seq<char>, ResolveError> {
    match cipher {
        Ok(Some(t)) => match manifest_of(t) {
            Some(u) => Ok(u),
            None => packer_search(calls, 0),
        },
        _ => packer_search(calls, 0),
    }
}

/// The manifest URL that an embed page resolves to.
pub open spec fn embed_stage(html: Seq<char>) -> Result<Seq<char>, ResolveError> {
    stream_from(cipher_stage(html), packer_calls_of(html))
}

/// What the entry-page stage makes of a cipher outcome and the page: the
/// assignment in the cipher's text, else a literal embed-page link of the
/// page, origin taken off. A cipher that is absent, malformed or whose text
/// holds no assignment leaves the page to the literal link, and when there is
/// none the stage fails with `NoEmbedPath`.
pub open spec fn path_from(cipher: Result<Option<Seq<char>>, ResolveError>, html: Seq<char>) -> Result<Seq<char>, ResolveError> {
    let found = match cipher {
        Ok(Some(t)) => assignment_of(t),
        _ => None,
    };
    match found {
        Some(p) => Ok(p),
        None => match link_of(html) {
            Some(m) => Ok(m.skip(15)),
            None => Err(ResolveError::NoEmbedPath),
        },
    }
}

/// The embed-page path that an entry page resolves to.
pub open spec fn entry_stage(html: Seq<char>) -> Result<Seq<char>, ResolveError> {
    path_from(cipher_stage(html), html)
}

/// The view of a stage's result.
pub open spec fn result_view(r: Result<String, ResolveError>) -> Result<Seq<char>, ResolveError> {
    match r {
        Ok(s) => Ok(s@),
        Err(e) => Err(e),
    }
}

/// Splits a dictionary string into its entries.
pub fn packer_dictionary(dictionary: &str, separator: char) -> (r: Vec<String>)
    ensures
        strings_view(r@) == split_spec(dictionary@, separator),
{
    let cs = chars_of(dictionary);
    let parts = split_chars(&cs, separator);
    let mut r: Vec<String> = Vec::new();
    let mut i: usize = 0;
    while i < parts.len()
        invariant
            i <= parts.len(),
            parts@.len() == split_spec(cs@, separator).len(),
            forall|k: int| 0 <= k < parts@.len() ==> #[trigger] parts@[k]@ == split_spec(cs@, separator)[k],
            r@.len() == i,
            forall|k: int| 0 <= k < i ==> #[trigger] r@[k]@ == parts@[k]@,
        decreases parts.len() - i,
    {
        r.push(string_of(&parts[i]));
        i = i + 1;
    }
    assert(strings_view(r@) =~= split_spec(dictionary@, separator));
    r
}

/// Decodes one packer invocation; fails exactly when its base is unusable.
pub fn decode_packer_invocation(call: &PackerInvocation) -> (r: Result<String, ResolveError>)
    ensures
        match packer_text(call.view()) {
            Some(t) => r matches Ok(s) && s@ == t,
            None => r == Err::<String, ResolveError>(ResolveError::MalformedPackerParameters),
        },
{
    let base = match parse_decimal(call.base_text.as_str(), usize::MAX as u64) {
        Some(b) => b as usize,
        None => return Err(ResolveError::MalformedPackerParameters),
    };
    let keywords = packer_dictionary(call.dictionary.as_str(), call.separator);
    Ok(unpack_dean_edwards(call.packed.as_str(), base, &keywords))
}

/// Tries the packer invocations in order and returns the first manifest URL
/// that one of them decodes to; invocations with an unusable base are passed over.
pub fn search_packer_invocations(calls: &Vec<PackerInvocation>) -> (r: Result<String, ResolveError>)
    ensures
        result_view(r) == packer_search(calls@.map_values(|c: PackerInvocation| c.view()), 0),
{
    let ghost views = calls@.map_values(|c: PackerInvocation| c.view());
    let mut i: usize = 0;
    while i < calls.len()
        invariant
            i <= calls.len(),
            views == calls@.map_values(|c: PackerInvocation| c.view()),
            packer_search(views, 0) == packer_search(views, i as int),
        decreases calls.len() - i,
    {
        assert(views[i as int] == calls@[i as int].view());
        if let Ok(text) = decode_packer_invocation(&calls[i]) {
            if let Some(u) = extract_m3u8(text.as_str()) {
                return Ok(u);
            }
        }
        i = i + 1;
    }
    Err(ResolveError::NoStreamUrl)
}

/// The embed-page stage, given the cipher decoder's outcome on the page and
/// the page's packer invocations.
pub fn stream_url_from(
    cipher: Result<Option<String>, ResolveError>,
    calls: &Vec<PackerInvocation>,
) -> (r: Result<String, ResolveError>)
    ensures
        result_view(r) == stream_from(outcome_view(cipher), calls@.map_values(|c: PackerInvocation| c.view())),
{
    match cipher {
        Ok(Some(text)) => match extract_m3u8(text.as_str()) {
            Some(u) => Ok(u),
            None => search_packer_invocations(calls),
        },
        _ => search_packer_invocations(calls),
    }
}

/// Resolves an embed page to its stream manifest URL.
pub fn decode_kwik_embed_page(html: &str) -> (r: Result<String, ResolveError>)
    ensures
        result_view(r) == embed_stage(html@),
{
    let cipher = unpack_custom_kwik(html);
    let calls = find_packer_invocations(html);
    assert(calls@.map_values(|c: PackerInvocation| c.view()) =~= packer_calls_of(html@));
    stream_url_from(cipher, &calls)
}

/// The entry-page stage, given the cipher decoder's outcome on the page and
/// the page itself.
pub fn embed_path_from(cipher: Result<Option<String>, ResolveError>, html: &str) -> (r: Result<String, ResolveError>)
    ensures
        result_view(r) == path_from(outcome_view(cipher), html@),
{
    if let Ok(Some(text)) = cipher {
        if let Some(path) = extract_embed_path(text.as_str()) {
            return Ok(path);
        }
    }
    match extract_embed_link(html) {
        Some(path) => Ok(path),
        None => Err(ResolveError::NoEmbedPath),
    }
}

/// Resolves an entry page to the path of its embed page.
pub fn decode_kwik_f_page(html: &str) -> (r: Result<String, ResolveError>)
    ensures
        result_view(r) == entry_stage(html@),
{
    embed_path_from(unpack_custom_kwik(html), html)
}

proof fn lemma_search_exhausted(calls: Seq<(Seq<char>, Seq<char>, Seq<char>, char)>, i: int)
    requires
        0 <= i,
        packer_search(calls, i) == Err::<Seq<char>, ResolveError>(ResolveError::NoStreamUrl),
    ensures
        forall|j: int| i <= j < calls.len() ==> (#[trigger] packer_text(calls[j]) matches Some(t) ==> manifest_of(t) is None),
    decreases calls.len() - i,
{
    if i < calls.len() {
        lemma_search_exhausted(calls, i + 1);
        assert forall|j: int| i <= j < calls.len() implies (#[trigger] packer_text(calls[j]) matches Some(t)
            ==> manifest_of(t) is None) by {
            if j > i {
                assert(i + 1 <= j);
            }
        }
    }
}

proof fn lemma_search_results(calls: Seq<(Seq<char>, Seq<char>, Seq<char>, char)>, i: int)
    requires
        0 <= i,
    ensures
        packer_search(calls, i) is Ok || packer_search(calls, i) == Err::<Seq<char>, ResolveError>(ResolveError::NoStreamUrl),
    decreases calls.len() - i,
{
    if i < calls.len() {
        lemma_search_results(calls, i + 1);
    }
}

/// Whenever the cipher decoder gives an embed page no manifest URL (it does
/// not apply, its parameters are unusable, or its text holds none), the page
/// resolves exactly as its packer invocations do, tried in order.
pub proof fn lemma_packer_follows_cipher(html: Seq<char>)
    requires
        !(cipher_stage(html) matches Ok(Some(t)) && manifest_of(t) is Some),
    ensures
        embed_stage(html) == packer_search(packer_calls_of(html), 0),
{
}

/// An embed page fails only with `NoStreamUrl`, and only when every decoder
/// was tried and none gave a manifest URL: the cipher decoder either does not
/// apply, is malformed, or its text holds none, and every packer invocation is
/// malformed or decodes to text that holds none.
pub proof fn lemma_no_stream_url_only_when_exhausted(html: Seq<char>)
    requires
        embed_stage(html) is Err,
    ensures
        embed_stage(html) == Err::<Seq<char>, ResolveError>(ResolveError::NoStreamUrl),
        cipher_stage(html) matches Ok(Some(t)) ==> manifest_of(t) is None,
        forall|j: int| 0 <= j < packer_calls_of(html).len() ==> (#[trigger] packer_text(packer_calls_of(html)[j]) matches Some(t)
            ==> manifest_of(t) is None),
{
    lemma_search_results(packer_calls_of(html), 0);
    lemma_search_exhausted(packer_calls_of(html), 0);
}

/// An entry page fails only with `NoEmbedPath`, and only when the cipher
/// decoder gave no assignment (it does not apply, is malformed, or its text
/// holds none) and the page holds no literal embed-page link.
pub proof fn lemma_no_embed_path_only_when_exhausted(html: Seq<char>)
    requires
        entry_stage(html) is Err,
    ensures
        entry_stage(html) == Err::<Seq<char>, ResolveError>(ResolveError::NoEmbedPath),
        cipher_stage(html) matches Ok(Some(t)) ==> assignment_of(t) is None,
        link_of(html) is None,
{
}

/// A page whose cipher invocation has a radix that does not index its charset
/// (or an offset or radix that is no numeral in range) makes the cipher
/// decoder report `MalformedCipherParameters`; the entry stage then falls back
/// to the page's literal embed-page link and the embed stage to its packer
/// invocations.
pub proof fn lemma_malformed_cipher_falls_back(html: Seq<char>)
    requires
        cipher_call_of(html) matches Some((ciphertext, charset, offset_text, radix_text)) && (
        cipher_parameters_spec(charset, offset_text, radix_text) is None || (decimal_within(
            radix_text,
            MAX_RADIX as int,
        ) matches Some(radix) && radix >= charset.len())),
    ensures
        cipher_stage(html) == Err::<Option<Seq<char>>, ResolveError>(ResolveError::MalformedCipherParameters),
        entry_stage(html) == (match link_of(html) {
            Some(m) => Ok::<Seq<char>, ResolveError>(m.skip(15)),
            None => Err(ResolveError::NoEmbedPath),
        }),
        embed_stage(html) == packer_search(packer_calls_of(html), 0),
{
}

} // verus!
