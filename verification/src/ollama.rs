//! The interface to the text-generation backend, as far as this crate
//! decides it: the endpoint addresses and the shape of a finished reply.
//! The transport and the decoding of the backend's raw responses live with
//! the surrounding process.

use vstd::prelude::*;
use vstd::string::*;

verus! {

/// One finished reply of the backend.
#[derive(Debug, Clone, PartialEq, Eq)]
pub struct GenerateResponse {
    /// The generated text.
    pub response: String,
    /// Whether the backend considers the reply finished.
    pub done: bool,
}

/// The address of the backend's generation endpoint under a host.
pub fn generate_url(host: &str) -> (r: String)
    ensures
        r@ == host@ + "/api/generate"@,
{
    let mut out = String::from_str(host);
    out.append("/api/generate");
    proof {
        assert(out@ =~= host@ + "/api/generate"@);
    }
    out
}

/// The address of the backend's availability endpoint under a host.
pub fn tags_url(host: &str) -> (r: String)
    ensures
        r@ == host@ + "/api/tags"@,
{
    let mut out = String::from_str(host);
    out.append("/api/tags");
    proof {
        assert(out@ =~= host@ + "/api/tags"@);
    }
    out
}

} // verus!
