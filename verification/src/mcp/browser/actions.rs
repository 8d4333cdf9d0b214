//! Using a browser session.
use vstd::prelude::*;

use crate::backends::{failure_message, BackendError, FailureView};
use crate::json::{lemma_says, member_views, says, Json, JsonView};
use crate::mcp::browser::session::SessionDone;
use crate::mcp::browser::{answer_from_browser, browser_reply};
use crate::mcp::fetch::{check_family_gate, family_gate};
use crate::mcp::outcome::{
    audit_of, error_envelope, error_reply, succeeded, Call, CallView, Outcome, OutcomeView, Reply,
};
use crate::policy::{Family, Policy};
use crate::sessions::{touched, without, LookupError, SessionRegistry, SessionView};

verus! {

/// The use of a session, as it is recorded.
pub open spec fn action_call(
    tool: Seq<char>,
    session_id: Seq<char>,
    audit_id: Seq<char>,
    now: i64,
) -> CallView {
    CallView {
        tool,
        args: JsonView::Object(seq![("session_id"@, JsonView::Text(session_id))]),
        audit_id,
        now,
    }
}

/// The name of a session that is not found.
pub open spec fn lookup_kind(e: LookupError) -> Seq<char> {
    match e {
        LookupError::NotFound => "not_found"@,
        LookupError::Expired => "session_expired"@,
    }
}

/// The outcome of the use of a session that is not found.
pub open spec fn no_session(call: CallView, e: LookupError) -> OutcomeView {
    OutcomeView {
        denial: None,
        call: Some((call.tool, lookup_kind(e))),
        audit: Some(audit_of(call, lookup_kind(e), None, None)),
        fetch: None,
        reply: error_reply(
            lookup_kind(e),
            lookup_kind(e),
            "session not found or expired"@,
            Some(call.audit_id),
        ),
    }
}

fn lookup_name(e: LookupError) -> (res: &'static str)
    ensures
        res@ == lookup_kind(e),
{
    match e {
        LookupError::NotFound => "not_found",
        LookupError::Expired => "session_expired",
    }
}

/// Holds the use of a session to the policy, and marks the session as used.
pub fn begin_action(
    policy: &Policy,
    sessions: &mut SessionRegistry,
    tool: &'static str,
    session_id: &str,
    audit_id: String,
    now: i64,
    clock: u128,
) -> (res: Result<Call, Outcome>)
    ensures
        final(sessions).cap() == old(sessions).cap(),
        match family_gate(
            policy@,
            Family::Browser,
            "browser family disabled"@,
            action_call(tool@, session_id@, audit_id@, now),
        ) {
            Some(outcome) => {
                &&& final(sessions).sessions() == old(sessions).sessions()
                &&& res matches Err(o) && o@ == outcome
            },
            None => exists|found: Result<(), LookupError>|
                #[trigger] touched(
                    old(sessions).sessions(),
                    session_id@,
                    clock,
                    final(sessions).sessions(),
                    found,
                ) && match found {
                    Ok(_) => res matches Ok(call) && call@ == action_call(
                        tool@,
                        session_id@,
                        audit_id@,
                        now,
                    ),
                    Err(e) => res matches Err(o) && o@ == no_session(
                        action_call(tool@, session_id@, audit_id@, now),
                        e,
                    ),
                },
        },
{
    let members = vec![Json::field("session_id", Json::text(session_id))];
    assert(member_views(members@) =~= seq![("session_id"@, JsonView::Text(session_id@))]);
    let call = Call { tool, args: Json::object(members), audit_id, now };
    if let Some(outcome) = check_family_gate(
        policy,
        Family::Browser,
        "browser family disabled",
        &call,
    ) {
        return Err(outcome);
    }
    match sessions.touch(session_id, clock) {
        Ok(()) => Ok(call),
        Err(e) => {
            let kind = lookup_name(e);
            let audit = call.audit(kind, None, None);
            Err(
                Outcome {
                    denial: None,
                    call: Some((tool.to_owned(), kind.to_owned())),
                    audit: Some(audit),
                    fetch: None,
                    reply: Reply::Error(
                        error_envelope(
                            kind,
                            kind,
                            "session not found or expired",
                            Some(call.audit_id),
                        ),
                    ),
                },
            )
        },
    }
}

/// What the use of a session comes to: the outcome, the sessions after it, and whether the tab
/// is to be closed.
pub open spec fn action_outcome(
    call: CallView,
    session_id: Seq<char>,
    sessions: Seq<SessionView>,
    result: Result<JsonView, FailureView>,
) -> (OutcomeView, Seq<SessionView>, bool) {
    match result {
        Ok(payload) => (
            succeeded(call, "ok"@, None, browser_reply(call, ""@, payload)),
            sessions,
            false,
        ),
        Err(e) => (
            OutcomeView {
                denial: None,
                call: Some((call.tool, "error"@)),
                audit: Some(
                    audit_of(call, "session_force_closed"@, Some(failure_message(e)), None),
                ),
                fetch: None,
                reply: error_reply(
                    "backend_error"@,
                    "camofox"@,
                    failure_message(e),
                    Some(call.audit_id),
                ),
            },
            without(sessions, session_id),
            true,
        ),
    }
}

/// Says what the use of a session comes to, once the browser has answered. A failure closes
/// the session and its tab.
pub fn finish_action(
    call: &Call,
    sessions: &mut SessionRegistry,
    session_id: &str,
    result: Result<Json, BackendError>,
) -> (res: SessionDone)
    ensures
        final(sessions).cap() == old(sessions).cap(),
        (res.outcome@, final(sessions).sessions(), res.close_tab) == action_outcome(
            call@,
            session_id@,
            old(sessions).sessions(),
            match result {
                Ok(payload) => Ok(payload@),
                Err(e) => Err(e@),
            },
        ),
{
    match result {
        Ok(payload) => {
            let reply = answer_from_browser(call, "", payload);
            SessionDone { outcome: call.succeed("ok", None, reply), close_tab: false }
        },
        Err(e) => {
            let message = e.message();
            let _was_open = sessions.remove(session_id);
            let audit = call.audit("session_force_closed", Some(message.clone()), None);
            let outcome = Outcome {
                denial: None,
                call: Some((call.tool.to_owned(), "error".to_owned())),
                audit: Some(audit),
                fetch: None,
                reply: Reply::Error(
                    error_envelope(
                        "backend_error",
                        "camofox",
                        &message,
                        Some(call.audit_id.clone()),
                    ),
                ),
            };
            SessionDone { outcome, close_tab: true }
        },
    }
}

// ---------------------------------------------------------------------------
// Laws
// ---------------------------------------------------------------------------
/// A failed action leaves no session behind: its tab is closed, and it is found no more.
pub proof fn law_failed_actions_close_their_session(
    call: CallView,
    session_id: Seq<char>,
    sessions: Seq<SessionView>,
    e: FailureView,
)
    ensures
        action_outcome(call, session_id, sessions, Err(e)).2,
        !crate::sessions::is_open(
            action_outcome(call, session_id, sessions, Err(e)).1,
            session_id,
        ),
{
    crate::sessions::law_closed_sessions_are_gone(sessions, session_id, 0);
}

/// What the browser answers is handed on as the content of an answer from the web, and the
/// sessions stay as they are; a failure is told with its message.
pub proof fn law_actions_hand_the_answer_on(
    call: CallView,
    session_id: Seq<char>,
    sessions: Seq<SessionView>,
    payload: JsonView,
    e: FailureView,
)
    ensures
        ({
            let (o, after, close) = action_outcome(call, session_id, sessions, Ok(payload));
            &&& !close && after == sessions
            &&& o.denial is None && o.call == Some((call.tool, "ok"@))
            &&& o.reply is Plain && says(o.reply->Plain_0, "content"@, payload)
            &&& says(o.reply->Plain_0, "trust"@, JsonView::Text("untrusted_web_evidence"@))
            &&& says(o.reply->Plain_0, "audit_id"@, JsonView::Text(call.audit_id))
        }),
        ({
            let (o, after, _close) = action_outcome(call, session_id, sessions, Err(e));
            &&& after == without(sessions, session_id)
            &&& o.call == Some((call.tool, "error"@))
            &&& o.audit is Some && o.audit->0.outcome == "session_force_closed"@
                && o.audit->0.error == Some(failure_message(e))
            &&& o.reply is Error && o.reply->Error_0.kind == "backend_error"@
                && o.reply->Error_0.reason == "camofox"@ && o.reply->Error_0.detail
                == failure_message(e)
        }),
{
    let v = action_outcome(call, session_id, sessions, Ok(payload)).0.reply->Plain_0;
    lemma_says(v);
    let m = v->Object_0;
    let n = m.len() as int;
    assert(m[0].0 == "trust"@ && m[n - 2].0 == "content"@ && m[n - 1].0 == "audit_id"@);
}

/// The use of a session that is not open and of one that has ended are told apart.
pub proof fn law_missing_sessions_are_told_apart(call: CallView)
    ensures
        ({
            let o = no_session(call, LookupError::NotFound);
            &&& o.call == Some((call.tool, "not_found"@)) && o.denial is None && o.fetch is None
            &&& o.reply is Error && o.reply->Error_0.kind == "not_found"@
                && o.reply->Error_0.reason == "not_found"@
            &&& o.audit is Some && o.audit->0.outcome == "not_found"@
        }),
        ({
            let o = no_session(call, LookupError::Expired);
            &&& o.call == Some((call.tool, "session_expired"@)) && o.denial is None
                && o.fetch is None
            &&& o.reply is Error && o.reply->Error_0.kind == "session_expired"@
                && o.reply->Error_0.reason == "session_expired"@
            &&& o.audit is Some && o.audit->0.outcome == "session_expired"@
        }),
{
}

/// The use of a session is recorded with its identifier.
pub proof fn law_actions_are_recorded_with_their_session(
    tool: Seq<char>,
    session_id: Seq<char>,
    audit_id: Seq<char>,
    now: i64,
)
    ensures
        ({
            let c = action_call(tool, session_id, audit_id, now);
            &&& c.tool == tool && c.audit_id == audit_id && c.now == now
            &&& says(c.args, "session_id"@, JsonView::Text(session_id))
        }),
{
    let c = action_call(tool, session_id, audit_id, now);
    lemma_says(c.args);
    assert(c.args->Object_0[0].0 == "session_id"@);
}

} // verus!
