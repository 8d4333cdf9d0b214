//! Opening and closing browser sessions.
use vstd::prelude::*;

use crate::backends::{failure_message, BackendError, FailureView};
use crate::config::Limits;
use crate::json::{lemma_says, member_views, says, Json, JsonView};
use crate::mcp::browser::{answer_from_browser, browser_reply};
use crate::mcp::domain::{BrowserOpenArgs, BrowserSessionArgs};
use crate::mcp::fetch::{check_domain_gate, check_family_gate, domain_gate, family_gate};
use crate::mcp::outcome::{
    denied, error_envelope, error_reply, succeeded, Call, CallView, Outcome, OutcomeView, Reply,
    ReplyView,
};
use crate::policy::{url_verdict, Family, Policy, PolicyView, Verdict};
use crate::sessions::{allocated, live, without, SessionRegistry, SessionView};
use crate::text::opt_text;

verus! {

/// How many nanoseconds a second has.
pub const NANOS_PER_SECOND: u128 = 1_000_000_000;

/// How many seconds a session lasts at most.
pub const MAX_SESSION_SECONDS: u64 = 1800;

/// The request for a new session, as it is asked.
pub open spec fn open_call(args: BrowserOpenArgs, audit_id: Seq<char>, now: i64) -> CallView {
    CallView {
        tool: "browser_open"@,
        args: JsonView::Object(args.members()),
        audit_id,
        now,
    }
}

/// What is said of a new session before it is opened: the outcome where it is not opened.
pub open spec fn open_verdict(p: PolicyView, args: BrowserOpenArgs, call: CallView) -> Option<
    OutcomeView,
> {
    match family_gate(p, Family::Browser, "browser family disabled"@, call) {
        Some(outcome) => Some(outcome),
        None => match opt_text(args.start_url) {
            Some(url) => domain_gate(p, url, call),
            None => None,
        },
    }
}

/// Holds a new session to the policy.
pub fn begin_open(policy: &Policy, args: &BrowserOpenArgs, audit_id: String, now: i64) -> (res: Result<
    Call,
    Outcome,
>)
    ensures
        match res {
            Ok(call) => open_verdict(policy@, *args, open_call(*args, audit_id@, now)) is None
                && call@ == open_call(*args, audit_id@, now),
            Err(outcome) => open_verdict(policy@, *args, open_call(*args, audit_id@, now)) == Some(
                outcome@,
            ),
        },
{
    let call = Call { tool: "browser_open", args: args.to_json(), audit_id, now };
    if let Some(outcome) = check_family_gate(
        policy,
        Family::Browser,
        "browser family disabled",
        &call,
    ) {
        return Err(outcome);
    }
    if let Some(url) = &args.start_url {
        if let Some(outcome) = check_domain_gate(policy, url, &call) {
            return Err(outcome);
        }
    }
    Ok(call)
}

/// How many seconds a session lasts: as many as are asked for or else as the policy says, but
/// never more than half an hour.
pub open spec fn session_seconds(asked: Option<u64>, usual: u64) -> u64 {
    let seconds = match asked {
        Some(s) => s,
        None => usual,
    };
    if seconds < MAX_SESSION_SECONDS {
        seconds
    } else {
        MAX_SESSION_SECONDS
    }
}

/// What opening a session comes to: the outcome, the sessions after it, and whether the tab is
/// to be closed again.
pub open spec fn open_outcome(
    call: CallView,
    start_url: Option<Seq<char>>,
    asked: Option<u64>,
    limits: Limits,
    sessions: Seq<SessionView>,
    cap: usize,
    clock: u128,
    result: Result<Seq<char>, FailureView>,
) -> (OutcomeView, Seq<SessionView>, bool) {
    match result {
        Err(e) => (
            OutcomeView {
                denial: None,
                call: Some((call.tool, "error"@)),
                audit: None,
                fetch: None,
                reply: error_reply(
                    "backend_error"@,
                    "camofox"@,
                    failure_message(e),
                    Some(call.audit_id),
                ),
            },
            sessions,
            false,
        ),
        Ok(id) => {
            let (after, granted) = allocated(
                sessions,
                cap,
                id,
                (session_seconds(asked, limits.browser_session_ttl_secs) * NANOS_PER_SECOND) as u128,
                (limits.browser_session_idle_secs * NANOS_PER_SECOND) as u128,
                clock,
            );
            if granted is Err {
                (
                    denied(call, "browser_max_concurrent"@, "browser session cap reached"@),
                    after,
                    true,
                )
            } else {
                (
                    succeeded(
                        call,
                        "session_open"@,
                        None,
                        browser_reply(
                            call,
                            match start_url {
                                Some(url) => url,
                                None => ""@,
                            },
                            JsonView::Object(seq![("session_id"@, JsonView::Text(id))]),
                        ),
                    ),
                    after,
                    false,
                )
            }
        },
    }
}

/// What opening or using a session comes to, and whether the tab is to be closed.
pub struct SessionDone {
    pub outcome: Outcome,
    pub close_tab: bool,
}

/// Says what opening a session comes to, once the browser has answered with a tab.
pub fn finish_open(
    call: &Call,
    args: &BrowserOpenArgs,
    limits: &Limits,
    sessions: &mut SessionRegistry,
    clock: u128,
    result: Result<String, BackendError>,
) -> (res: SessionDone)
    ensures
        final(sessions).cap() == old(sessions).cap(),
        (res.outcome@, final(sessions).sessions(), res.close_tab) == open_outcome(
            call@,
            opt_text(args.start_url),
            args.session_ttl,
            *limits,
            old(sessions).sessions(),
            old(sessions).cap(),
            clock,
            match result {
                Ok(id) => Ok(id@),
                Err(e) => Err(e@),
            },
        ),
{
    let session_id = match result {
        Ok(id) => id,
        Err(e) => {
            let outcome = Outcome {
                denial: None,
                call: Some((call.tool.to_owned(), "error".to_owned())),
                audit: None,
                fetch: None,
                reply: Reply::Error(
                    error_envelope(
                        "backend_error",
                        "camofox",
                        &e.message(),
                        Some(call.audit_id.clone()),
                    ),
                ),
            };
            return SessionDone { outcome, close_tab: false };
        },
    };
    let asked: u64 = match args.session_ttl {
        Some(s) => s,
        None => limits.browser_session_ttl_secs,
    };
    let seconds: u64 = if asked < MAX_SESSION_SECONDS {
        asked
    } else {
        MAX_SESSION_SECONDS
    };
    let ttl: u128 = seconds as u128 * NANOS_PER_SECOND;
    let idle: u128 = limits.browser_session_idle_secs as u128 * NANOS_PER_SECOND;
    let ghost id = session_id@;
    let name = session_id.clone();
    if sessions.allocate(session_id, ttl, idle, clock).is_err() {
        return SessionDone {
            outcome: call.deny("browser_max_concurrent", "browser session cap reached"),
            close_tab: true,
        };
    }
    let members = vec![Json::field("session_id", Json::Text(name))];
    assert(member_views(members@) =~= seq![("session_id"@, JsonView::Text(id))]);
    let url = match &args.start_url {
        Some(url) => url.clone(),
        None => "".to_owned(),
    };
    let reply = answer_from_browser(call, &url, Json::object(members));
    SessionDone { outcome: call.succeed("session_open", None, reply), close_tab: false }
}

/// The request to close a session, as it is asked.
pub open spec fn close_call(args: BrowserSessionArgs, audit_id: Seq<char>, now: i64) -> CallView {
    CallView {
        tool: "browser_close"@,
        args: JsonView::Object(args.members()),
        audit_id,
        now,
    }
}

/// Closes a session, whether it is open or not.
pub fn close_session(
    args: &BrowserSessionArgs,
    sessions: &mut SessionRegistry,
    audit_id: String,
    now: i64,
) -> (res: Outcome)
    ensures
        final(sessions).cap() == old(sessions).cap(),
        final(sessions).sessions() == without(old(sessions).sessions(), args.session_id@),
        res@ == succeeded(
            close_call(*args, audit_id@, now),
            "session_close"@,
            None,
            ReplyView::Plain(
                JsonView::Object(
                    seq![("ok"@, JsonView::Bool(true)), ("audit_id"@, JsonView::Text(audit_id@))],
                ),
            ),
        ),
{
    let call = Call { tool: "browser_close", args: args.to_json(), audit_id, now };
    let _was_open = sessions.remove(&args.session_id);
    let members = vec![
        Json::field("ok", Json::Bool(true)),
        Json::field("audit_id", Json::text(&call.audit_id)),
    ];
    assert(member_views(members@) =~= seq![
        ("ok"@, JsonView::Bool(true)),
        ("audit_id"@, JsonView::Text(audit_id@)),
    ]);
    call.succeed("session_close", None, Reply::Plain(Json::object(members)))
}

// ---------------------------------------------------------------------------
// Laws
// ---------------------------------------------------------------------------
/// A tab that gets no place in the registry is closed again, and one that is closed again has
/// got none.
pub proof fn law_tabs_without_a_place_are_closed(
    call: CallView,
    start_url: Option<Seq<char>>,
    asked: Option<u64>,
    limits: Limits,
    sessions: Seq<SessionView>,
    cap: usize,
    clock: u128,
    id: Seq<char>,
)
    ensures
        ({
            let (outcome, after, close) = open_outcome(
                call,
                start_url,
                asked,
                limits,
                sessions,
                cap,
                clock,
                Ok(id),
            );
            &&& close <==> crate::sessions::live(sessions, clock).len() >= cap
            &&& close ==> after == crate::sessions::live(sessions, clock)
            &&& close ==> outcome.denial == Some("browser_max_concurrent"@)
            &&& !close ==> crate::sessions::is_open(after, id)
        }),
{
    let live = crate::sessions::live(sessions, clock);
    if live.len() < cap {
        let after = open_outcome(
            call,
            start_url,
            asked,
            limits,
            sessions,
            cap,
            clock,
            Ok(id),
        ).1;
        assert(after[after.len() - 1].session_id == id);
    }
}

/// No session lasts longer than half an hour, whatever is asked for.
pub proof fn law_sessions_last_half_an_hour_at_most(asked: Option<u64>, usual: u64)
    ensures
        session_seconds(asked, usual) <= 1800,
        asked matches Some(s) ==> s <= 1800 ==> session_seconds(asked, usual) == s,
{
}

/// A session may be opened if and only if the family is enabled and the policy admits the page
/// that it starts with, where there is one.
pub proof fn law_sessions_that_may_open(p: PolicyView, args: BrowserOpenArgs, call: CallView)
    ensures
        ({
            let v = open_verdict(p, args, call);
            &&& v is None <==> p.families.browser && (args.start_url is None || url_verdict(
                p,
                args.start_url->0@,
            ) is Allow)
            &&& v is Some ==> v->0.denial is Some && v->0.reply is Error
            &&& !p.families.browser ==> v->0.denial == Some("family_disabled:browser"@)
        }),
{
}

/// A session lasts as many seconds as are asked for, or else as usual, up to half an hour. It
/// starts when it is opened and ends in due time; the answer names it and the page that it
/// starts with. A browser that fails opens none.
pub proof fn law_opened_sessions_are_as_asked_for(
    call: CallView,
    start_url: Option<Seq<char>>,
    asked: Option<u64>,
    limits: Limits,
    sessions: Seq<SessionView>,
    cap: usize,
    clock: u128,
    id: Seq<char>,
    failure: FailureView,
)
    requires
        live(sessions, clock).len() < cap,
    ensures
        ({
            let (o, after, close) = open_outcome(
                call,
                start_url,
                asked,
                limits,
                sessions,
                cap,
                clock,
                Ok(id),
            );
            let seconds = if asked is Some {
                asked->0
            } else {
                limits.browser_session_ttl_secs
            };
            let x = after.last();
            &&& !close && after.len() > 0
            &&& x.session_id == id && x.created_at == clock && x.last_used_at == clock
            &&& seconds <= 1800 ==> x.ttl == seconds * 1_000_000_000
            &&& seconds > 1800 ==> x.ttl == 1800 * 1_000_000_000
            &&& x.idle == limits.browser_session_idle_secs * 1_000_000_000
            &&& after.drop_last() == without(live(sessions, clock), id)
            &&& o.call == Some((call.tool, "ok"@)) && o.denial is None
            &&& o.audit is Some && o.audit->0.outcome == "session_open"@
            &&& o.reply is Plain
            &&& exists|c: JsonView| #[trigger]
                says(o.reply->Plain_0, "content"@, c) && says(
                    c,
                    "session_id"@,
                    JsonView::Text(id),
                )
            &&& start_url is Some ==> exists|s: JsonView| #[trigger]
                says(o.reply->Plain_0, "source"@, s) && says(
                    s,
                    "url"@,
                    JsonView::Text(start_url->0),
                )
        }),
        ({
            let (o, after, close) = open_outcome(
                call,
                start_url,
                asked,
                limits,
                sessions,
                cap,
                clock,
                Err(failure),
            );
            &&& !close && after == sessions && o.denial is None
            &&& o.call == Some((call.tool, "error"@))
            &&& o.reply is Error && o.reply->Error_0.kind == "backend_error"@
                && o.reply->Error_0.reason == "camofox"@ && o.reply->Error_0.detail
                == failure_message(failure)
        }),
{
    let (o, after, _close) = open_outcome(
        call,
        start_url,
        asked,
        limits,
        sessions,
        cap,
        clock,
        Ok(id),
    );
    assert(after.drop_last() =~= without(live(sessions, clock), id));
    let v = o.reply->Plain_0;
    lemma_says(v);
    let m = v->Object_0;
    let n = m.len() as int;
    assert(m[1].0 == "source"@ && m[n - 2].0 == "content"@);
    lemma_says(m[n - 2].1);
    assert(m[n - 2].1->Object_0[0].0 == "session_id"@);
    assert(says(v, "content"@, m[n - 2].1));
    lemma_says(m[1].1);
    assert(m[1].1->Object_0[0].0 == "url"@);
    assert(says(v, "source"@, m[1].1));
}

/// A new session is recorded under its tool, with what it asks for, its identifier and its time.
pub proof fn law_opens_are_recorded_as_made(args: BrowserOpenArgs, audit_id: Seq<char>, now: i64)
    ensures
        open_call(args, audit_id, now).tool == "browser_open"@,
        open_call(args, audit_id, now).args == JsonView::Object(args.members()),
        open_call(args, audit_id, now).audit_id == audit_id,
        open_call(args, audit_id, now).now == now,
{
}

/// The end of a session is recorded under its tool, with the session, its identifier and its time.
pub proof fn law_closes_are_recorded_as_made(args: BrowserSessionArgs, audit_id: Seq<char>, now: i64)
    ensures
        close_call(args, audit_id, now).tool == "browser_close"@,
        close_call(args, audit_id, now).args == JsonView::Object(args.members()),
        close_call(args, audit_id, now).audit_id == audit_id,
        close_call(args, audit_id, now).now == now,
{
}

/// A session that may not be opened is answered with what stands against it.
pub proof fn law_refused_sessions_are_explained(
    p: PolicyView,
    args: BrowserOpenArgs,
    call: CallView,
)
    ensures
        ({
            let v = open_verdict(p, args, call);
            let e = v->0.reply->Error_0;
            &&& !p.families.browser ==> e.kind == "policy_denied"@ && e.detail
                == "browser family disabled"@
            &&& p.families.browser && v is Some ==> e.kind == "policy_denied"@ && e.detail
                == "domain policy"@ && url_verdict(p, args.start_url->0@) == Verdict::Deny(
                v->0.denial->0,
            )
        }),
{
}

} // verus!
