//! What the gateway says of itself.
use vstd::prelude::*;

verus! {

/// The state of the service.
pub struct HealthResponse {
    pub status: &'static str,
    pub service: &'static str,
    pub host: String,
}

/// A service that answers is well.
pub fn healthy(host: &str) -> (res: HealthResponse)
    ensures
        res.status@ == "ok"@,
        res.service@ == "web-research-mcp"@,
        res.host@ == host@,
{
    HealthResponse { status: "ok", service: "web-research-mcp", host: host.to_owned() }
}

} // verus!
