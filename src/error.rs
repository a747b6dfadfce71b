//! The ways a resolution can fail.

use vstd::prelude::*;

verus! {

/// Why a hosting-page link could not be resolved to a stream URL.
#[derive(Debug, Clone, Copy, PartialEq, Eq, Structural)]
pub enum ResolveError {
    /// A page fetch did not return usable text.
    FetchFailed,
    /// A cipher invocation was found but its offset or radix is unusable.
    MalformedCipherParameters,
    /// A packer invocation was found but its base is not a usable integer.
    MalformedPackerParameters,
    /// The entry page yielded no path to the embed page.
    NoEmbedPath,
    /// The embed page yielded no manifest URL.
    NoStreamUrl,
}

} // verus!
