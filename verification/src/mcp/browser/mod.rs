//! The tools that use a browser.
use vstd::prelude::*;

use crate::envelope::{envelope_json, EnvelopeView, UntrustedEnvelope};
use crate::json::{Json, JsonView};
use crate::mcp::outcome::{source_of, Call, CallView, Reply, ReplyView};

pub mod actions;
pub mod cookies;
pub mod session;

verus! {

/// An answer from the browser.
pub open spec fn browser_reply(call: CallView, url: Seq<char>, content: JsonView) -> ReplyView {
    ReplyView::Plain(
        envelope_json(
            EnvelopeView {
                trust: "untrusted_web_evidence"@,
                source: source_of(call, url, "camofox"@),
                provenance: None,
                content,
                diagnostics: None,
                audit_id: call.audit_id,
            },
        ),
    )
}

/// An answer from the browser.
pub fn answer_from_browser(call: &Call, url: &str, content: Json) -> (res: Reply)
    ensures
        res@ == browser_reply(call@, url@, content@),
{
    let envelope = UntrustedEnvelope::new(
        call.source(url, "camofox"),
        content,
        call.audit_id.clone(),
    );
    Reply::Plain(envelope.to_json())
}

} // verus!
