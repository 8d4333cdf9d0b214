//! Importing cookies, which is not offered.
use vstd::prelude::*;

use crate::json::{lemma_says, member_views, says, Json, JsonView};
use crate::mcp::domain::BrowserCookieImportArgs;
use crate::mcp::outcome::{denied, Call, CallView, Outcome};

verus! {

/// How many cookies are to be imported.
pub open spec fn cookie_count(cookies: JsonView) -> u64 {
    match cookies {
        JsonView::Array(items) => items.len() as u64,
        _ => 0,
    }
}

/// The request, as it is recorded: without the cookies.
pub open spec fn cookie_call(
    session_id: Seq<char>,
    cookies: JsonView,
    audit_id: Seq<char>,
    now: i64,
) -> CallView {
    CallView {
        tool: "browser_import_cookies"@,
        args: JsonView::Object(
            seq![
                ("session_id"@, JsonView::Text(session_id)),
                ("cookie_count"@, JsonView::Unsigned(cookie_count(cookies))),
            ],
        ),
        audit_id,
        now,
    }
}

/// Turns an import of cookies down.
pub fn import_cookies(
    cookie_import_enabled: bool,
    args: &BrowserCookieImportArgs,
    audit_id: String,
    now: i64,
) -> (res: Outcome)
    ensures
        res@ == denied(
            cookie_call(args.session_id@, args.cookies@, audit_id@, now),
            if cookie_import_enabled {
                "not_implemented"@
            } else {
                "disabled_by_policy"@
            },
            "cookie import is disabled in v1"@,
        ),
{
    let count: u64 = match args.cookies.as_array() {
        Some(items) => {
            assert(crate::json::views(items@).len() == items@.len());
            items.len() as u64
        },
        None => 0,
    };
    let members = vec![
        Json::field("session_id", Json::text(&args.session_id)),
        Json::field("cookie_count", Json::Unsigned(count)),
    ];
    assert(member_views(members@) =~= seq![
        ("session_id"@, JsonView::Text(args.session_id@)),
        ("cookie_count"@, JsonView::Unsigned(cookie_count(args.cookies@))),
    ]);
    let call = Call {
        tool: "browser_import_cookies",
        args: Json::object(members),
        audit_id,
        now,
    };
    let reason = if cookie_import_enabled {
        "not_implemented"
    } else {
        "disabled_by_policy"
    };
    call.deny(reason, "cookie import is disabled in v1")
}

// ---------------------------------------------------------------------------
// Laws
// ---------------------------------------------------------------------------
/// An import is recorded with the number of its cookies and without the cookies: two imports of
/// as many cookies leave the same record.
pub proof fn law_cookies_are_counted_and_not_recorded(
    session_id: Seq<char>,
    items: Seq<JsonView>,
    others: Seq<JsonView>,
    audit_id: Seq<char>,
    now: i64,
)
    requires
        items.len() == others.len(),
        items.len() <= u64::MAX,
    ensures
        ({
            let c = cookie_call(session_id, JsonView::Array(items), audit_id, now);
            &&& c == cookie_call(session_id, JsonView::Array(others), audit_id, now)
            &&& says(c.args, "session_id"@, JsonView::Text(session_id))
            &&& says(c.args, "cookie_count"@, JsonView::Unsigned(items.len() as u64))
        }),
        cookie_count(JsonView::Array(items)) as nat == items.len(),
        cookie_count(JsonView::Null) == 0,
{
    let c = cookie_call(session_id, JsonView::Array(items), audit_id, now);
    lemma_says(c.args);
    assert(c.args->Object_0[0].0 == "session_id"@ && c.args->Object_0[1].0 == "cookie_count"@);
}

} // verus!
