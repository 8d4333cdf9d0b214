//! What a call of a tool comes to: its answer, and what is recorded of it.
use vstd::prelude::*;

use crate::envelope::{
    envelope_json, error_json, EnvelopeView, ErrorEnvelope, ErrorPayload, ErrorView, Provenance,
    ProvenanceView, Source, SourceView, UntrustedEnvelope,
};
use crate::json::{lemma_says, says, Json, JsonView};
use crate::store::{rfc3339, rfc3339_text, AuditRecord, AuditView, FetchRecord, FetchView};
use crate::text::opt_text;

verus! {

/// The answer to a call.
pub enum Reply {
    Error(ErrorEnvelope),
    Envelope(UntrustedEnvelope<Json>),
    Plain(Json),
}

/// The answer to a call, as a mathematical value.
#[verifier::ext_equal]
pub enum ReplyView {
    Error(ErrorView),
    Envelope(EnvelopeView),
    Plain(JsonView),
}

impl View for Reply {
    type V = ReplyView;

    open spec fn view(&self) -> ReplyView {
        match *self {
            Reply::Error(e) => ReplyView::Error(e@),
            Reply::Envelope(e) => ReplyView::Envelope(e@),
            Reply::Plain(v) => ReplyView::Plain(v@),
        }
    }
}

/// The JSON form of an answer.
pub open spec fn reply_json(r: ReplyView) -> JsonView {
    match r {
        ReplyView::Error(e) => error_json(e),
        ReplyView::Envelope(e) => envelope_json(e),
        ReplyView::Plain(v) => v,
    }
}

impl Reply {
    /// The JSON form.
    pub fn to_json(&self) -> (res: Json)
        ensures
            res@ == reply_json(self@),
    {
        match self {
            Reply::Error(e) => e.to_json(),
            Reply::Envelope(e) => e.to_json(),
            Reply::Plain(v) => v.copy(),
        }
    }
}

/// What a call comes to: the denial and the call to count, the audit entry and the page to
/// store, and the answer.
pub struct Outcome {
    /// The reason that a denial is counted under.
    pub denial: Option<String>,
    /// The tool and the outcome that a call is counted under.
    pub call: Option<(String, String)>,
    pub audit: Option<AuditRecord>,
    pub fetch: Option<FetchRecord>,
    pub reply: Reply,
}

/// What a call comes to, as a mathematical value.
#[verifier::ext_equal]
pub struct OutcomeView {
    pub denial: Option<Seq<char>>,
    pub call: Option<(Seq<char>, Seq<char>)>,
    pub audit: Option<AuditView>,
    pub fetch: Option<FetchView>,
    pub reply: ReplyView,
}

impl View for Outcome {
    type V = OutcomeView;

    open spec fn view(&self) -> OutcomeView {
        OutcomeView {
            denial: opt_text(self.denial),
            call: match self.call {
                Some((tool, outcome)) => Some((tool@, outcome@)),
                None => None,
            },
            audit: match self.audit {
                Some(a) => Some(a@),
                None => None,
            },
            fetch: match self.fetch {
                Some(f) => Some(f@),
                None => None,
            },
            reply: self.reply@,
        }
    }
}

// ---------------------------------------------------------------------------
// Models
// ---------------------------------------------------------------------------
/// A call as it is asked: the tool, its arguments as they are recorded, the identifier of the
/// audit entry, and the time.
#[verifier::ext_equal]
pub struct CallView {
    pub tool: Seq<char>,
    pub args: JsonView,
    pub audit_id: Seq<char>,
    pub now: i64,
}

/// An answer that is an error.
pub open spec fn error_reply(
    kind: Seq<char>,
    reason: Seq<char>,
    detail: Seq<char>,
    audit_id: Option<Seq<char>>,
) -> ReplyView {
    ReplyView::Error(ErrorView { kind, reason, detail, audit_id })
}

/// An answer from the web.
pub open spec fn envelope_reply(
    source: SourceView,
    provenance: Option<ProvenanceView>,
    content: JsonView,
    audit_id: Seq<char>,
) -> ReplyView {
    ReplyView::Envelope(
        EnvelopeView {
            trust: "untrusted_web_evidence"@,
            source,
            provenance,
            content,
            diagnostics: None,
            audit_id,
        },
    )
}

/// The audit entry of a call.
pub open spec fn audit_of(
    call: CallView,
    outcome: Seq<char>,
    error: Option<Seq<char>>,
    fetch_id: Option<Seq<char>>,
) -> AuditView {
    AuditView {
        entry_id: call.audit_id,
        fetch_id,
        tool: call.tool,
        args_redacted: call.args,
        outcome,
        error,
        recorded_at: call.now,
    }
}

/// A call that is answered with an error and leaves no trace.
pub open spec fn refused(
    kind: Seq<char>,
    reason: Seq<char>,
    detail: Seq<char>,
    audit_id: Option<Seq<char>>,
) -> OutcomeView {
    OutcomeView {
        denial: None,
        call: None,
        audit: None,
        fetch: None,
        reply: error_reply(kind, reason, detail, audit_id),
    }
}

/// A call that the policy denies: the denial is counted and recorded.
pub open spec fn denied(call: CallView, reason: Seq<char>, detail: Seq<char>) -> OutcomeView {
    OutcomeView {
        denial: Some(reason),
        call: None,
        audit: Some(audit_of(call, "policy_denied"@, Some(reason), None)),
        fetch: None,
        reply: error_reply("policy_denied"@, reason, detail, Some(call.audit_id)),
    }
}

/// A call that a service fails: the error is counted and recorded.
pub open spec fn failed(call: CallView, backend: Seq<char>, message: Seq<char>) -> OutcomeView {
    OutcomeView {
        denial: None,
        call: Some((call.tool, "error"@)),
        audit: Some(audit_of(call, "error"@, Some(message), None)),
        fetch: None,
        reply: error_reply("backend_error"@, backend, message, Some(call.audit_id)),
    }
}

/// A call that succeeds: it is counted and recorded.
pub open spec fn succeeded(
    call: CallView,
    outcome: Seq<char>,
    fetch: Option<FetchView>,
    reply: ReplyView,
) -> OutcomeView {
    OutcomeView {
        denial: None,
        call: Some((call.tool, "ok"@)),
        audit: Some(
            audit_of(
                call,
                outcome,
                None,
                match fetch {
                    Some(f) => Some(f.fetch_id),
                    None => None,
                },
            ),
        ),
        fetch,
        reply,
    }
}

/// The source of an answer to a call.
pub open spec fn source_of(call: CallView, url: Seq<char>, provider: Seq<char>) -> SourceView {
    SourceView { url, fetched_at: rfc3339(call.now), tool: call.tool, provider }
}

// ---------------------------------------------------------------------------
// Code
// ---------------------------------------------------------------------------
/// A call as it is asked.
pub struct Call {
    pub tool: &'static str,
    pub args: Json,
    pub audit_id: String,
    pub now: i64,
}

impl View for Call {
    type V = CallView;

    open spec fn view(&self) -> CallView {
        CallView {
            tool: self.tool@,
            args: self.args@,
            audit_id: self.audit_id@,
            now: self.now,
        }
    }
}

/// An answer that is an error.
pub fn error_envelope(kind: &str, reason: &str, detail: &str, audit_id: Option<String>) -> (res:
    ErrorEnvelope)
    ensures
        res@ == (ErrorView {
            kind: kind@,
            reason: reason@,
            detail: detail@,
            audit_id: opt_text(audit_id),
        }),
{
    ErrorEnvelope {
        error: ErrorPayload {
            kind: kind.to_owned(),
            reason: reason.to_owned(),
            detail: detail.to_owned(),
            audit_id,
        },
    }
}

/// A call that is answered with an error and leaves no trace.
pub fn refuse(kind: &str, reason: &str, detail: &str, audit_id: Option<String>) -> (res: Outcome)
    ensures
        res@ == refused(kind@, reason@, detail@, opt_text(audit_id)),
{
    Outcome {
        denial: None,
        call: None,
        audit: None,
        fetch: None,
        reply: Reply::Error(error_envelope(kind, reason, detail, audit_id)),
    }
}

impl Call {
    /// The audit entry of the call.
    pub fn audit(&self, outcome: &str, error: Option<String>, fetch_id: Option<String>) -> (res:
        AuditRecord)
        ensures
            res@ == audit_of(self@, outcome@, opt_text(error), opt_text(fetch_id)),
    {
        AuditRecord {
            entry_id: self.audit_id.clone(),
            fetch_id,
            tool: self.tool.to_owned(),
            args_redacted: self.args.copy(),
            outcome: outcome.to_owned(),
            error,
            recorded_at: self.now,
        }
    }

    /// The source of an answer to the call.
    pub fn source(&self, url: &str, provider: &str) -> (res: Source)
        ensures
            res@ == source_of(self@, url@, provider@),
    {
        Source {
            url: url.to_owned(),
            fetched_at: rfc3339_text(self.now),
            tool: self.tool.to_owned(),
            provider: provider.to_owned(),
        }
    }

    /// The policy denies the call.
    pub fn deny(&self, reason: &str, detail: &str) -> (res: Outcome)
        ensures
            res@ == denied(self@, reason@, detail@),
    {
        Outcome {
            denial: Some(reason.to_owned()),
            call: None,
            audit: Some(self.audit("policy_denied", Some(reason.to_owned()), None)),
            fetch: None,
            reply: Reply::Error(
                error_envelope("policy_denied", reason, detail, Some(self.audit_id.clone())),
            ),
        }
    }

    /// A service fails the call.
    pub fn fail(&self, backend: &str, message: &str) -> (res: Outcome)
        ensures
            res@ == failed(self@, backend@, message@),
    {
        Outcome {
            denial: None,
            call: Some((self.tool.to_owned(), "error".to_owned())),
            audit: Some(self.audit("error", Some(message.to_owned()), None)),
            fetch: None,
            reply: Reply::Error(
                error_envelope("backend_error", backend, message, Some(self.audit_id.clone())),
            ),
        }
    }

    /// The call succeeds.
    pub fn succeed(&self, outcome: &str, fetch: Option<FetchRecord>, reply: Reply) -> (res: Outcome)
        ensures
            res@ == succeeded(
                self@,
                outcome@,
                match fetch {
                    Some(f) => Some(f@),
                    None => None,
                },
                reply@,
            ),
    {
        let fetch_id = match &fetch {
            Some(f) => Some(f.fetch_id.clone()),
            None => None,
        };
        Outcome {
            denial: None,
            call: Some((self.tool.to_owned(), "ok".to_owned())),
            audit: Some(self.audit(outcome, None, fetch_id)),
            fetch,
            reply,
        }
    }

    /// An answer from the web to the call.
    pub fn envelope(&self, url: &str, provider: &str, provenance: Option<Provenance>, content: Json) -> (res:
        Reply)
        ensures
            res@ == envelope_reply(
                source_of(self@, url@, provider@),
                match provenance {
                    Some(p) => Some(p@),
                    None => None,
                },
                content@,
                self@.audit_id,
            ),
    {
        let source = self.source(url, provider);
        match provenance {
            Some(p) => Reply::Envelope(
                UntrustedEnvelope::new_with_provenance(source, p, content, self.audit_id.clone()),
            ),
            None => Reply::Envelope(
                UntrustedEnvelope::new(source, content, self.audit_id.clone()),
            ),
        }
    }
}

// ---------------------------------------------------------------------------
// Laws
// ---------------------------------------------------------------------------
/// A denied call is answered with the reason that it is counted and recorded under, and
/// nothing is stored of a page.
pub proof fn law_denials_tell_their_reason(call: CallView, reason: Seq<char>, detail: Seq<char>)
    ensures
        ({
            let o = denied(call, reason, detail);
            &&& o.denial == Some(reason)
            &&& o.audit matches Some(a) && a.error == Some(reason) && a.entry_id == call.audit_id
            &&& o.fetch is None
            &&& o.reply matches ReplyView::Error(e) && e.reason == reason && e.audit_id == Some(
                call.audit_id,
            )
        }),
{
}

/// In the JSON form of an answer, the stored evidence it rests on stands before its content.
pub proof fn law_provenance_precedes_content(e: EnvelopeView)
    requires
        e.provenance is Some,
    ensures
        ({
            let m = envelope_json(e)->Object_0;
            &&& m[2] == ("provenance"@, crate::envelope::provenance_json(e.provenance->0))
            &&& m[3] == ("content"@, e.content)
        }),
{
}

/// What a call comes to tells how it ended: a refusal leaves no trace, an error of a service is
/// counted and recorded with its message, and a success is counted and recorded with the page
/// that it stored. All of them are recorded under the call's own tool, arguments, identifier and
/// time.
pub proof fn law_outcomes_tell_how_a_call_ended(
    call: CallView,
    kind: Seq<char>,
    text: Seq<char>,
    more: Seq<char>,
    fetch: Option<FetchView>,
    reply: ReplyView,
)
    ensures
        ({
            let o = refused(kind, text, more, Some(call.audit_id));
            &&& o.denial is None && o.call is None && o.audit is None && o.fetch is None
            &&& o.reply matches ReplyView::Error(e) && e.kind == kind && e.reason == text
                && e.detail == more && e.audit_id == Some(call.audit_id)
        }),
        ({
            let o = failed(call, text, more);
            &&& o.denial is None && o.fetch is None && o.call == Some((call.tool, "error"@))
            &&& o.audit is Some && is_recorded(o.audit->0, call)
            &&& o.audit->0.outcome == "error"@ && o.audit->0.error == Some(more)
                && o.audit->0.fetch_id is None
            &&& o.reply matches ReplyView::Error(e) && e.kind == "backend_error"@ && e.reason
                == text && e.detail == more && e.audit_id == Some(call.audit_id)
        }),
        ({
            let o = succeeded(call, text, fetch, reply);
            &&& o.denial is None && o.fetch == fetch && o.call == Some((call.tool, "ok"@))
            &&& o.reply == reply
            &&& o.audit is Some && is_recorded(o.audit->0, call)
            &&& o.audit->0.outcome == text && o.audit->0.error is None
            &&& fetch is Some ==> o.audit->0.fetch_id == Some(fetch->0.fetch_id)
            &&& fetch is None ==> o.audit->0.fetch_id is None
        }),
        ({
            let o = denied(call, text, more);
            &&& o.audit is Some && is_recorded(o.audit->0, call) && o.audit->0.outcome
                == "policy_denied"@
            &&& o.call is None
            &&& o.reply matches ReplyView::Error(e) && e.kind == "policy_denied"@ && e.detail
                == more
        }),
{
}

/// An audit entry is one of a call.
pub open spec fn is_recorded(a: AuditView, call: CallView) -> bool {
    a.entry_id == call.audit_id && a.tool == call.tool && a.args_redacted == call.args
        && a.recorded_at == call.now
}

/// An answer from the web is marked as untrusted, and its JSON form says where and when it came
/// from, by which tool and service, the stored evidence that it rests on, its content and the
/// identifier of its audit entry. The JSON form of an error says its kind, reason and detail.
pub proof fn law_answers_say_where_they_come_from(
    call: CallView,
    url: Seq<char>,
    provider: Seq<char>,
    provenance: Option<ProvenanceView>,
    content: JsonView,
    error: ErrorView,
)
    ensures
        ({
            let reply = envelope_reply(
                source_of(call, url, provider),
                provenance,
                content,
                call.audit_id,
            );
            let v = reply_json(reply);
            &&& says(v, "trust"@, JsonView::Text("untrusted_web_evidence"@))
            &&& says(v, "content"@, content)
            &&& says(v, "audit_id"@, JsonView::Text(call.audit_id))
            &&& exists|source: JsonView| #[trigger]
                says(v, "source"@, source) && says(source, "url"@, JsonView::Text(url)) && says(
                    source,
                    "fetched_at"@,
                    JsonView::Text(rfc3339(call.now)),
                ) && says(source, "tool"@, JsonView::Text(call.tool)) && says(
                    source,
                    "provider"@,
                    JsonView::Text(provider),
                )
            &&& provenance is Some ==> exists|p: JsonView| #[trigger]
                says(v, "provenance"@, p) && says(
                    p,
                    "fetch_id"@,
                    JsonView::Text(provenance->0.fetch_id),
                ) && says(p, "content_hash"@, JsonView::Text(provenance->0.content_hash))
        }),
        exists|e: JsonView| #[trigger]
            says(reply_json(ReplyView::Error(error)), "error"@, e) && says(
                e,
                "kind"@,
                JsonView::Text(error.kind),
            ) && says(e, "reason"@, JsonView::Text(error.reason)) && says(
                e,
                "detail"@,
                JsonView::Text(error.detail),
            ) && says(e, "audit_id"@, crate::json::text_or_null(error.audit_id)),
        reply_json(ReplyView::Plain(content)) == content,
{
    let reply = envelope_reply(
        source_of(call, url, provider),
        provenance,
        content,
        call.audit_id,
    );
    let v = reply_json(reply);
    lemma_says(v);
    let m = v->Object_0;
    let n = m.len() as int;
    assert(m[0].0 == "trust"@ && m[1].0 == "source"@);
    assert(m[n - 1].0 == "audit_id"@ && m[n - 2].0 == "content"@);
    let source = m[1].1;
    lemma_says(source);
    let s = source->Object_0;
    assert(s[0].0 == "url"@ && s[1].0 == "fetched_at"@ && s[2].0 == "tool"@ && s[3].0
        == "provider"@);
    assert(says(v, "source"@, source));
    if provenance is Some {
        assert(m[2].0 == "provenance"@);
        let p = m[2].1;
        lemma_says(p);
        assert(p->Object_0[0].0 == "fetch_id"@ && p->Object_0[1].0 == "content_hash"@);
        assert(says(v, "provenance"@, p));
    }
    let w = reply_json(ReplyView::Error(error));
    lemma_says(w);
    assert(w->Object_0[0].0 == "error"@);
    let e = w->Object_0[0].1;
    lemma_says(e);
    let x = e->Object_0;
    assert(x[0].0 == "kind"@ && x[1].0 == "reason"@ && x[2].0 == "detail"@ && x[3].0
        == "audit_id"@);
    assert(says(w, "error"@, e));
}

} // verus!
