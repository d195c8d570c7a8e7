//! Virtual ZIP gateway core: computes the byte-exact layout of a ZIP archive
//! from a manifest of object-store members, translates arbitrary byte ranges
//! over the virtual archive into segment plans, and implements the HTTP
//! range / conditional-range protocol that drives it.

use vstd::prelude::*;

pub mod encode;
pub mod stream_range;
pub mod zip;
pub mod etag;
pub mod serve_range;
pub mod upstream;

verus! {

/// Process-wide configuration, set once at startup.
#[derive(Clone)]
pub struct Config {
    /// Base URL of the upstream server that provides archive manifests.
    pub upstream: String,
    /// Prefix removed from the request path before proxying upstream.
    pub strip_prefix: String,
    /// Value sent in the `X-Via-Zip-Stream` header on upstream requests.
    pub via_zip_stream_header_value: String,
}

} // verus!