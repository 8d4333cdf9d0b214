//! Crawling a site.
use vstd::prelude::*;

use crate::backends::firecrawl::{page_views, ScrapeResult, ScrapeView};
use crate::backends::{failure_message, BackendError, FailureView};
use crate::envelope::{wrap_with_nonce, wrapped};
use crate::json::{lemma_says, member_views, says, text_array, views, Json, JsonView};
use crate::mcp::domain::WebCrawlArgs;
use crate::mcp::fetch::{
    check_domain_gate, check_family_gate, domain_gate, family_gate, no_place,
};
use crate::mcp::outcome::{
    denied, envelope_reply, failed, source_of, succeeded, Call, CallView, Outcome, OutcomeView,
};
use crate::policy::{
    acquired, crawl_caps_verdict, url_verdict, Decision, Family, InflightGuard, Policy, PolicyView,
    Verdict,
};
use crate::store::{is_uuid_text, new_uuid_text};
use crate::text::{decimal, texts};

verus! {

/// A crawl as it is asked.
pub open spec fn crawl_call(args: WebCrawlArgs, audit_id: Seq<char>, now: i64) -> CallView {
    CallView {
        tool: "web_crawl_site"@,
        args: JsonView::Object(args.members()),
        audit_id,
        now,
    }
}

/// What is said of a crawl before it is made: the outcome where it is not made.
pub open spec fn crawl_verdict(p: PolicyView, args: WebCrawlArgs, call: CallView) -> Option<
    OutcomeView,
> {
    match family_gate(p, Family::Crawl, "crawl family disabled"@, call) {
        Some(outcome) => Some(outcome),
        None => match crawl_caps_verdict(p, args.max_depth as nat, args.max_pages as nat) {
            Verdict::Deny(reason) => Some(denied(call, reason, "crawl caps"@)),
            Verdict::Allow => match domain_gate(p, args.url@, call) {
                Some(outcome) => Some(outcome),
                None => if acquired(p) is None {
                    Some(no_place(call))
                } else {
                    None
                },
            },
        },
    }
}

/// A crawl that may be made.
pub struct CrawlPlan {
    pub call: Call,
    pub guard: InflightGuard,
}

/// Holds a crawl to the policy, and takes its place among the calls in flight.
pub fn begin_crawl(policy: &mut Policy, args: &WebCrawlArgs, audit_id: String, now: i64) -> (res:
    Result<CrawlPlan, Outcome>)
    ensures
        match res {
            Ok(plan) => {
                &&& crawl_verdict(old(policy)@, *args, crawl_call(*args, audit_id@, now)) is None
                &&& acquired(old(policy)@) == Some(final(policy)@)
                &&& plan.call@ == crawl_call(*args, audit_id@, now)
            },
            Err(outcome) => {
                &&& crawl_verdict(old(policy)@, *args, crawl_call(*args, audit_id@, now)) == Some(
                    outcome@,
                )
                &&& final(policy)@ == old(policy)@
            },
        },
{
    let call = Call { tool: "web_crawl_site", args: args.to_json(), audit_id, now };
    if let Some(outcome) = check_family_gate(
        policy,
        Family::Crawl,
        "crawl family disabled",
        &call,
    ) {
        return Err(outcome);
    }
    if let Decision::Deny(reason) = policy.check_caps_crawl(args.max_depth, args.max_pages) {
        return Err(call.deny(&reason, "crawl caps"));
    }
    if let Some(outcome) = check_domain_gate(policy, &args.url, &call) {
        return Err(outcome);
    }
    match policy.try_acquire_inflight() {
        Some(guard) => Ok(CrawlPlan { call, guard }),
        None => Err(call.deny("inflight_full", "concurrent fetch limit reached")),
    }
}

/// The JSON form of a page of a crawl, given the nonce of its markers.
pub open spec fn page_json(page: ScrapeView, nonce: Seq<char>) -> JsonView {
    JsonView::Object(
        seq![
            ("url"@, JsonView::Text(page.url)),
            ("content_markdown"@, JsonView::Text(wrapped(nonce, page.url, page.markdown))),
            ("links"@, text_array(page.links)),
            ("metadata"@, page.metadata),
        ],
    )
}

/// The JSON form of the pages of a crawl, given the nonces of their markers.
pub open spec fn pages_json(pages: Seq<ScrapeView>, nonces: Seq<Seq<char>>) -> JsonView {
    JsonView::Array(Seq::new(pages.len(), |i: int| page_json(pages[i], nonces[i])))
}

/// What a crawl comes to, given the nonces of its pages' markers.
pub open spec fn crawl_outcome(
    call: CallView,
    url: Seq<char>,
    result: Result<Seq<ScrapeView>, FailureView>,
    nonces: Seq<Seq<char>>,
) -> OutcomeView {
    match result {
        Ok(pages) => succeeded(
            call,
            "ok"@,
            None,
            envelope_reply(
                source_of(call, url, "firecrawl-selfhosted"@),
                None,
                pages_json(pages, nonces),
                call.audit_id,
            ),
        ),
        Err(e) => failed(call, "firecrawl"@, failure_message(e)),
    }
}

/// The view of the pages of a crawl, or of why there are none.
pub open spec fn pages_or_failure(r: Result<Vec<ScrapeResult>, BackendError>) -> Result<
    Seq<ScrapeView>,
    FailureView,
> {
    match r {
        Ok(pages) => Ok(page_views(pages@)),
        Err(e) => Err(e@),
    }
}

fn page_value(page: &ScrapeResult, nonce: &str) -> (res: Json)
    ensures
        res@ == page_json(page@, nonce@),
{
    let members = vec![
        Json::field("url", Json::text(&page.url)),
        Json::field("content_markdown", Json::text(&wrap_with_nonce(nonce, &page.url, &page.markdown))),
        Json::field("links", Json::texts(&page.links)),
        Json::field("metadata", page.metadata.copy()),
    ];
    assert(member_views(members@) =~= page_json(page@, nonce@)->Object_0);
    Json::object(members)
}

/// Says what a crawl comes to, given the nonces of its pages' markers.
pub fn settle_crawl(
    call: &Call,
    url: &str,
    result: Result<Vec<ScrapeResult>, BackendError>,
    nonces: &Vec<String>,
) -> (res: Outcome)
    requires
        result matches Ok(pages) ==> pages@.len() <= nonces@.len(),
    ensures
        res@ == crawl_outcome(call@, url@, pages_or_failure(result), texts(nonces@)),
{
    let pages = match result {
        Ok(pages) => pages,
        Err(e) => {
            return call.fail("firecrawl", &e.message());
        },
    };
    let ghost all = page_views(pages@);
    let mut items: Vec<Json> = Vec::new();
    let mut i: usize = 0;
    while i < pages.len()
        invariant
            i <= pages@.len(),
            pages@.len() <= nonces@.len(),
            all == page_views(pages@),
            items@.len() == i,
            forall|k: int|
                0 <= k < i ==> (#[trigger] items@[k])@ == page_json(all[k], texts(nonces@)[k]),
        decreases pages@.len() - i,
    {
        items.push(page_value(&pages[i], &nonces[i]));
        assert(all[i as int] == pages@[i as int]@);
        i = i + 1;
    }
    assert(views(items@) =~= pages_json(all, texts(nonces@))->Array_0);
    let reply = call.envelope(url, "firecrawl-selfhosted", None, Json::array(items));
    call.succeed("ok", None, reply)
}

/// Says what a crawl comes to, once the service has answered, with fresh markers for each page.
pub fn finish_crawl(call: &Call, url: &str, result: Result<Vec<ScrapeResult>, BackendError>) -> (res:
    Outcome)
    ensures
        exists|nonces: Seq<Seq<char>>|
            {
                &&& result matches Ok(pages) ==> nonces.len() == pages@.len()
                &&& forall|i: int| 0 <= i < nonces.len() ==> is_uuid_text(#[trigger] nonces[i])
                &&& res@ == #[trigger] crawl_outcome(
                    call@,
                    url@,
                    pages_or_failure(result),
                    nonces,
                )
            },
{
    let mut nonces: Vec<String> = Vec::new();
    let count: usize = match &result {
        Ok(pages) => pages.len(),
        Err(_) => 0,
    };
    while nonces.len() < count
        invariant
            nonces@.len() <= count,
            forall|i: int| 0 <= i < nonces@.len() ==> is_uuid_text((#[trigger] nonces@[i])@),
        decreases count - nonces@.len(),
    {
        nonces.push(new_uuid_text());
    }
    let res = settle_crawl(call, url, result, &nonces);
    proof {
        let marks = texts(nonces@);
        assert forall|i: int| 0 <= i < marks.len() implies is_uuid_text(#[trigger] marks[i]) by {
            assert(is_uuid_text(nonces@[i]@));
        }
        assert(res@ == crawl_outcome(call@, url@, pages_or_failure(result), marks));
    }
    res
}

// ---------------------------------------------------------------------------
// Laws
// ---------------------------------------------------------------------------
/// No crawl goes deeper or wider than the policy allows.
pub proof fn law_crawls_stay_capped(p: PolicyView, args: WebCrawlArgs, call: CallView)
    requires
        crawl_verdict(p, args, call) is None,
    ensures
        p.families.crawl,
        1 <= args.max_depth <= p.limits.crawl_max_depth,
        1 <= args.max_pages <= p.limits.crawl_max_pages,
        crate::policy::url_verdict(p, args.url@) is Allow,
        p.inflight < p.limits.inflight_max,
{
}

/// A crawl is made if and only if the family is enabled, the depth and the number of pages lie
/// between one and their caps, the policy admits the URL and there is a place in flight.
pub proof fn law_crawls_that_are_made(p: PolicyView, args: WebCrawlArgs, call: CallView)
    ensures
        ({
            let v = crawl_verdict(p, args, call);
            let admitted = url_verdict(p, args.url@);
            let sized = 1 <= args.max_depth <= p.limits.crawl_max_depth && 1 <= args.max_pages
                <= p.limits.crawl_max_pages;
            &&& v is None <==> p.families.crawl && sized && admitted is Allow && p.inflight
                < p.limits.inflight_max
            &&& v is Some ==> v->0.denial is Some && v->0.fetch is None && v->0.reply is Error
            &&& !p.families.crawl ==> v->0.denial == Some("family_disabled:crawl"@)
            &&& (p.families.crawl && sized ==> (admitted matches Verdict::Deny(reason)
                ==> v->0.denial == Some(reason)))
            &&& p.families.crawl && sized && admitted is Allow && p.inflight
                >= p.limits.inflight_max ==> v->0.denial == Some("inflight_full"@)
        }),
{
}

/// A crawl is answered with its pages one for one and in order: each with its URL, its text
/// between its own markers, its links and its metadata. A failure is told with its message.
pub proof fn law_crawled_pages_are_told_as_they_came(
    call: CallView,
    url: Seq<char>,
    pages: Seq<ScrapeView>,
    nonces: Seq<Seq<char>>,
    failure: FailureView,
)
    ensures
        ({
            let o = crawl_outcome(call, url, Ok(pages), nonces);
            let e = o.reply->Envelope_0;
            &&& o.reply is Envelope && o.denial is None && o.fetch is None
            &&& e.source.url == url
            &&& e.content is Array && e.content->Array_0.len() == pages.len()
            &&& forall|i: int|
                0 <= i < pages.len() ==> tells_page(
                    #[trigger] e.content->Array_0[i],
                    pages[i],
                    nonces[i],
                )
        }),
        ({
            let o = crawl_outcome(call, url, Err(failure), nonces);
            &&& o.fetch is None && o.reply is Error && o.reply->Error_0.kind == "backend_error"@
            &&& o.reply->Error_0.reason == "firecrawl"@
            &&& o.reply->Error_0.detail == failure_message(failure)
        }),
{
    let e = crawl_outcome(call, url, Ok(pages), nonces).reply->Envelope_0;
    assert forall|i: int| 0 <= i < pages.len() implies tells_page(
        #[trigger] e.content->Array_0[i],
        pages[i],
        nonces[i],
    ) by {
        let x = e.content->Array_0[i];
        lemma_says(x);
        let m = x->Object_0;
        assert(m[0].0 == "url"@ && m[1].0 == "content_markdown"@ && m[2].0 == "links"@ && m[3].0
            == "metadata"@);
    }
}

/// A JSON value tells a page of a crawl, with its text between markers.
pub open spec fn tells_page(v: JsonView, page: ScrapeView, nonce: Seq<char>) -> bool {
    &&& says(v, "url"@, JsonView::Text(page.url))
    &&& says(v, "content_markdown"@, JsonView::Text(wrapped(nonce, page.url, page.markdown)))
    &&& says(v, "links"@, text_array(page.links))
    &&& says(v, "metadata"@, page.metadata)
}

/// A crawl is recorded under its tool, with what it asks for, its identifier and its time.
pub proof fn law_crawls_are_recorded_as_made(args: WebCrawlArgs, audit_id: Seq<char>, now: i64)
    ensures
        crawl_call(args, audit_id, now).tool == "web_crawl_site"@,
        crawl_call(args, audit_id, now).args == JsonView::Object(args.members()),
        crawl_call(args, audit_id, now).audit_id == audit_id,
        crawl_call(args, audit_id, now).now == now,
{
}

/// A crawl that is not made is answered with what stands against it; a depth or a number of
/// pages beyond its cap is told with the cap.
pub proof fn law_refused_crawls_are_explained(p: PolicyView, args: WebCrawlArgs, call: CallView)
    ensures
        ({
            let v = crawl_verdict(p, args, call);
            let e = v->0.reply->Error_0;
            let admitted = url_verdict(p, args.url@);
            let deep = 1 <= args.max_depth <= p.limits.crawl_max_depth;
            let sized = 1 <= args.max_pages <= p.limits.crawl_max_pages;
            &&& !p.families.crawl ==> e.kind == "policy_denied"@ && e.detail
                == "crawl family disabled"@
            &&& p.families.crawl && !(deep && sized) ==> e.detail == "crawl caps"@
            &&& p.families.crawl && !deep ==> e.kind == "policy_denied"@ && v->0.denial == Some(
                "crawl_max_depth:"@ + decimal(p.limits.crawl_max_depth as nat),
            )
            &&& p.families.crawl && deep && !sized ==> e.kind == "policy_denied"@ && v->0.denial
                == Some("crawl_max_pages:"@ + decimal(p.limits.crawl_max_pages as nat))
            &&& p.families.crawl && deep && sized && admitted is Deny ==> e.kind
                == "policy_denied"@ && e.detail == "domain policy"@
            &&& p.families.crawl && deep && sized && admitted is Allow && p.inflight
                >= p.limits.inflight_max ==> e.kind == "policy_denied"@ && e.detail
                == "concurrent fetch limit reached"@
        }),
{
}

} // verus!
