//! A browser through Camofox.
use vstd::prelude::*;

use crate::backends::{BackendError, FailureView};
use crate::json::{lemma_says, member_views, says, Json, JsonView};
use crate::text::{contains, occurs, opt_text};
use crate::weburl::pair_views;

verus! {

/// A tab that was opened, by its identifier.
#[derive(Debug, Clone)]
pub struct OpenResult {
    pub session_id: String,
}

/// The page of a tab, as text.
#[derive(Debug, Clone)]
pub struct SnapshotResult {
    pub url: String,
    pub text: String,
}

/// The picture of a page in base 64, and its type.
#[derive(Debug, Clone)]
pub struct ScreenshotResult {
    pub data: String,
    pub mime_type: String,
}

/// The standard base 64 form of some bytes, with padding.
pub uninterp spec fn base64_form(bytes: Seq<u8>) -> Seq<char>;

/// `base64::engine::general_purpose::STANDARD`'s `encode`: a function of the bytes alone, four
/// characters for every three bytes or less.
#[verifier::external_body]
pub(crate) fn base64_text(bytes: &[u8]) -> (res: String)
    ensures
        res@ == base64_form(bytes@),
        res@.len() == (bytes@.len() + 2) / 3 * 4,
{
    base64::Engine::encode(&base64::engine::general_purpose::STANDARD, bytes)
}

/// The name under which the gateway uses the browser.
pub open spec fn user_id() -> Seq<char> {
    "web-research-mcp"@
}

/// The path of a tab, or of something it can do.
pub open spec fn tab_path(tab_id: Seq<char>, action: Seq<char>) -> Seq<char> {
    "/tabs/"@ + tab_id + action
}

/// The body that opens a tab.
pub open spec fn open_body_view(url: Seq<char>) -> JsonView {
    JsonView::Object(seq![("userId"@, JsonView::Text(user_id())), ("url"@, JsonView::Text(url))])
}

/// The body that clicks on a target.
pub open spec fn click_body_view(target: Seq<char>) -> JsonView {
    JsonView::Object(
        seq![("userId"@, JsonView::Text(user_id())), ("ref"@, JsonView::Text(target))],
    )
}

/// The body that types into a target.
pub open spec fn type_body_view(target: Seq<char>, text: Seq<char>) -> JsonView {
    JsonView::Object(
        seq![
            ("userId"@, JsonView::Text(user_id())),
            ("ref"@, JsonView::Text(target)),
            ("text"@, JsonView::Text(text)),
        ],
    )
}

/// An integer as a JSON number.
pub open spec fn integer_view(n: i32) -> JsonView {
    if n < 0 {
        JsonView::Negative(n as i64)
    } else {
        JsonView::Unsigned(n as u64)
    }
}

/// The body that scrolls; an amount that is not given is left out, for the browser takes no
/// null.
pub open spec fn scroll_body_view(direction: Seq<char>, amount: Option<i32>) -> JsonView {
    let members = seq![
        ("userId"@, JsonView::Text(user_id())),
        ("direction"@, JsonView::Text(direction)),
    ];
    JsonView::Object(
        match amount {
            Some(a) => members.push(("amount"@, integer_view(a))),
            None => members,
        },
    )
}

/// The path of a tab, or of something it can do.
pub fn path_of_tab(tab_id: &str, action: &str) -> (res: String)
    ensures
        res@ == tab_path(tab_id@, action@),
{
    let mut out = "/tabs/".to_owned();
    out.push_str(tab_id);
    out.push_str(action);
    out
}

/// The page that a tab opens with.
pub fn start_page(start_url: &Option<String>) -> (res: String)
    ensures
        res@ == match opt_text(*start_url) {
            Some(url) => url,
            None => "about:blank"@,
        },
{
    match start_url {
        Some(url) => url.clone(),
        None => "about:blank".to_owned(),
    }
}

/// The body that opens a tab.
pub fn open_body(url: &str) -> (res: Json)
    ensures
        res@ == open_body_view(url@),
{
    let members = vec![
        Json::field("userId", Json::text("web-research-mcp")),
        Json::field("url", Json::text(url)),
    ];
    assert(member_views(members@) =~= open_body_view(url@)->Object_0);
    Json::object(members)
}

/// The body that clicks on a target.
pub fn click_body(target: &str) -> (res: Json)
    ensures
        res@ == click_body_view(target@),
{
    let members = vec![
        Json::field("userId", Json::text("web-research-mcp")),
        Json::field("ref", Json::text(target)),
    ];
    assert(member_views(members@) =~= click_body_view(target@)->Object_0);
    Json::object(members)
}

/// The body that types into a target.
pub fn type_body(target: &str, text: &str) -> (res: Json)
    ensures
        res@ == type_body_view(target@, text@),
{
    let members = vec![
        Json::field("userId", Json::text("web-research-mcp")),
        Json::field("ref", Json::text(target)),
        Json::field("text", Json::text(text)),
    ];
    assert(member_views(members@) =~= type_body_view(target@, text@)->Object_0);
    Json::object(members)
}

/// The body that scrolls.
pub fn scroll_body(direction: &str, amount: Option<i32>) -> (res: Json)
    ensures
        res@ == scroll_body_view(direction@, amount),
{
    let mut members = vec![
        Json::field("userId", Json::text("web-research-mcp")),
        Json::field("direction", Json::text(direction)),
    ];
    if let Some(a) = amount {
        let value = if a < 0 {
            Json::Negative(a as i64)
        } else {
            Json::Unsigned(a as u64)
        };
        members.push(Json::field("amount", value));
    }
    assert(member_views(members@) =~= scroll_body_view(direction@, amount)->Object_0);
    Json::object(members)
}

/// The parameters of a screenshot.
pub fn screenshot_params(full_page: bool) -> (res: Vec<(String, String)>)
    ensures
        pair_views(res@) == if full_page {
            seq![("userId"@, user_id()), ("fullPage"@, "true"@)]
        } else {
            seq![("userId"@, user_id())]
        },
{
    let mut params: Vec<(String, String)> = Vec::new();
    params.push(("userId".to_owned(), "web-research-mcp".to_owned()));
    if full_page {
        params.push(("fullPage".to_owned(), "true".to_owned()));
    }
    assert(pair_views(params@) =~= if full_page {
        seq![("userId"@, user_id()), ("fullPage"@, "true"@)]
    } else {
        seq![("userId"@, user_id())]
    });
    params
}

/// The picture of a page, with the type that the reply gives, or else a PNG.
pub fn screenshot_result(bytes: &[u8], content_type: &Option<String>) -> (res: ScreenshotResult)
    ensures
        res.data@ == base64_form(bytes@),
        res.mime_type@ == match opt_text(*content_type) {
            Some(t) => t,
            None => "image/png"@,
        },
{
    let mime_type = match content_type {
        Some(t) => t.clone(),
        None => "image/png".to_owned(),
    };
    ScreenshotResult { data: base64_text(bytes), mime_type }
}

/// What comes after a refusal to open a tab.
pub enum OpenRetry {
    /// The browser is started and the tab opened once more.
    StartAndRetry,
    /// The refusal stands.
    Fail(BackendError),
}

/// A first refusal because the browser's session has ended is worth one more try; any other
/// stands.
pub fn after_open_refused(status: u16, body: String, retried: bool) -> (res: OpenRetry)
    ensures
        match res {
            OpenRetry::StartAndRetry => !retried && occurs(body@, "session_expired"@),
            OpenRetry::Fail(e) => (retried || !occurs(body@, "session_expired"@)) && e@
                == (FailureView::Http { status, body: body@ }),
        },
{
    if !retried && contains(&body, "session_expired") {
        OpenRetry::StartAndRetry
    } else {
        OpenRetry::Fail(BackendError::Http { status, body })
    }
}

impl SnapshotResult {
    /// The page as a JSON value.
    pub fn to_json(&self) -> (res: Json)
        ensures
            res@ == JsonView::Object(
                seq![("url"@, JsonView::Text(self.url@)), ("snapshot"@, JsonView::Text(self.text@))],
            ),
    {
        let members = vec![
            Json::field("url", Json::text(&self.url)),
            Json::field("snapshot", Json::text(&self.text)),
        ];
        assert(member_views(members@) =~= seq![
            ("url"@, JsonView::Text(self.url@)),
            ("snapshot"@, JsonView::Text(self.text@)),
        ]);
        Json::object(members)
    }
}

impl ScreenshotResult {
    /// The picture as a JSON value.
    pub fn to_json(&self) -> (res: Json)
        ensures
            res@ == JsonView::Object(
                seq![
                    ("data"@, JsonView::Text(self.data@)),
                    ("mime_type"@, JsonView::Text(self.mime_type@)),
                ],
            ),
    {
        let members = vec![
            Json::field("data", Json::text(&self.data)),
            Json::field("mime_type", Json::text(&self.mime_type)),
        ];
        assert(member_views(members@) =~= seq![
            ("data"@, JsonView::Text(self.data@)),
            ("mime_type"@, JsonView::Text(self.mime_type@)),
        ]);
        Json::object(members)
    }
}

// ---------------------------------------------------------------------------
// Laws
// ---------------------------------------------------------------------------
/// Each request to the browser is made in the name of the gateway and carries what it was asked
/// for: the page to open, the target to click on, the text to type into it, the direction and
/// the amount to scroll by.
pub proof fn law_browser_requests_carry_what_is_asked(
    target: Seq<char>,
    text: Seq<char>,
    amount: i32,
)
    ensures
        says(open_body_view(target), "userId"@, JsonView::Text("web-research-mcp"@)),
        says(open_body_view(target), "url"@, JsonView::Text(target)),
        says(click_body_view(target), "userId"@, JsonView::Text("web-research-mcp"@)),
        says(click_body_view(target), "ref"@, JsonView::Text(target)),
        says(type_body_view(target, text), "userId"@, JsonView::Text("web-research-mcp"@)),
        says(type_body_view(target, text), "ref"@, JsonView::Text(target)),
        says(type_body_view(target, text), "text"@, JsonView::Text(text)),
        forall|a: Option<i32>|
            says(#[trigger] scroll_body_view(target, a), "direction"@, JsonView::Text(target))
                && says(
                scroll_body_view(target, a),
                "userId"@,
                JsonView::Text("web-research-mcp"@),
            ),
        amount >= 0 ==> says(
            scroll_body_view(target, Some(amount)),
            "amount"@,
            JsonView::Unsigned(amount as u64),
        ),
        amount < 0 ==> says(
            scroll_body_view(target, Some(amount)),
            "amount"@,
            JsonView::Negative(amount as i64),
        ),
        forall|v: JsonView| !#[trigger] says(scroll_body_view(target, None), "amount"@, v),
{
    let o = open_body_view(target);
    lemma_says(o);
    assert(o->Object_0[0].0 == "userId"@ && o->Object_0[1].0 == "url"@);
    let c = click_body_view(target);
    lemma_says(c);
    assert(c->Object_0[0].0 == "userId"@ && c->Object_0[1].0 == "ref"@);
    let t = type_body_view(target, text);
    lemma_says(t);
    assert(t->Object_0[0].0 == "userId"@ && t->Object_0[1].0 == "ref"@ && t->Object_0[2].0
        == "text"@);
    assert forall|a: Option<i32>|
        says(#[trigger] scroll_body_view(target, a), "direction"@, JsonView::Text(target)) && says(
            scroll_body_view(target, a),
            "userId"@,
            JsonView::Text("web-research-mcp"@),
        ) by {
        let s = scroll_body_view(target, a);
        lemma_says(s);
        assert(s->Object_0[0].0 == "userId"@ && s->Object_0[1].0 == "direction"@);
    }
    let s = scroll_body_view(target, Some(amount));
    lemma_says(s);
    assert(s->Object_0[2].0 == "amount"@);
    reveal_strlit("userId");
    reveal_strlit("direction");
    reveal_strlit("amount");
    assert("userId"@[0] == 'u' && "direction"@[0] == 'd' && "amount"@[0] == 'a');
}

/// What a tab can do stands at a path below the tab's own.
pub proof fn law_actions_stand_below_their_tab(tab_id: Seq<char>, action: Seq<char>)
    ensures
        tab_path(tab_id, action) == tab_path(tab_id, ""@) + action,
        tab_path(tab_id, ""@) == "/tabs/"@ + tab_id,
{
    reveal_strlit("");
    assert(tab_path(tab_id, ""@) =~= "/tabs/"@ + tab_id);
    assert(tab_path(tab_id, action) =~= tab_path(tab_id, ""@) + action);
}

} // verus!
