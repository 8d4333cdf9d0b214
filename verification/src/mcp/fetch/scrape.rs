//! Fetching one page.
use vstd::prelude::*;
use vstd::utf8::encode_utf8;

use crate::backends::firecrawl::{ScrapeResult, ScrapeView};
use crate::backends::{failure_message, BackendError, FailureView};
use crate::envelope::{wrap_with_nonce, wrapped, Provenance, ProvenanceView};
use crate::json::{lemma_member_at, lemma_says, member_views, says, text_array, Json, JsonView};
use crate::mcp::domain::WebScrapeArgs;
use crate::mcp::fetch::{
    check_domain_gate, check_family_gate, domain_gate, family_gate, no_place,
};
use crate::mcp::outcome::{
    denied, envelope_reply, failed, source_of, succeeded, Call, CallView, Outcome, OutcomeView,
};
use crate::policy::{
    acquired, url_verdict, Family, InflightGuard, Policy, PolicyView, Verdict,
};
use crate::store::{
    hash_of, is_uuid_text, new_uuid_text, FetchRecord, FetchView, Store,
};
use crate::text::{byte_len, opt_text, same_text, utf8_len};

verus! {

/// A fetch as it is asked.
pub open spec fn scrape_call(args: WebScrapeArgs, audit_id: Seq<char>, now: i64) -> CallView {
    CallView {
        tool: "web_scrape_url"@,
        args: JsonView::Object(args.members()),
        audit_id,
        now,
    }
}

/// What is said of a fetch before it is made: the outcome where it is not made.
pub open spec fn scrape_verdict(p: PolicyView, url: Seq<char>, call: CallView) -> Option<
    OutcomeView,
> {
    match family_gate(p, Family::Extract, "extract family disabled"@, call) {
        Some(outcome) => Some(outcome),
        None => match domain_gate(p, url, call) {
            Some(outcome) => Some(outcome),
            None => if acquired(p) is None {
                Some(no_place(call))
            } else {
                None
            },
        },
    }
}

/// A fetch that may be made; whether the page is to be rendered.
pub struct ScrapePlan {
    pub call: Call,
    pub guard: InflightGuard,
    pub rendered: bool,
}

/// Holds a fetch to the policy, and takes its place among the calls in flight.
pub fn begin_scrape(policy: &mut Policy, args: &WebScrapeArgs, audit_id: String, now: i64) -> (res:
    Result<ScrapePlan, Outcome>)
    ensures
        match res {
            Ok(plan) => {
                &&& scrape_verdict(
                    old(policy)@,
                    args.url@,
                    scrape_call(*args, audit_id@, now),
                ) is None
                &&& acquired(old(policy)@) == Some(final(policy)@)
                &&& plan.call@ == scrape_call(*args, audit_id@, now)
                &&& plan.rendered == (opt_text(args.mode) == Some("rendered"@))
            },
            Err(outcome) => {
                &&& scrape_verdict(old(policy)@, args.url@, scrape_call(*args, audit_id@, now))
                    == Some(outcome@)
                &&& final(policy)@ == old(policy)@
            },
        },
{
    let call = Call { tool: "web_scrape_url", args: args.to_json(), audit_id, now };
    if let Some(outcome) = check_family_gate(
        policy,
        Family::Extract,
        "extract family disabled",
        &call,
    ) {
        return Err(outcome);
    }
    if let Some(outcome) = check_domain_gate(policy, &args.url, &call) {
        return Err(outcome);
    }
    let rendered = match &args.mode {
        Some(mode) => same_text(mode, "rendered"),
        None => false,
    };
    match policy.try_acquire_inflight() {
        Some(guard) => Ok(ScrapePlan { call, guard, rendered }),
        None => Err(call.deny("inflight_full", "concurrent fetch limit reached")),
    }
}

/// The URL that a page was found at in the end.
pub open spec fn final_url(page: ScrapeView) -> Seq<char> {
    match page.metadata.member_text("sourceURL"@) {
        Some(url) => url,
        None => page.url,
    }
}

/// What is stored of a page.
pub open spec fn fetch_record(
    requested_url: Seq<char>,
    page: ScrapeView,
    fetch_id: Seq<char>,
    nonce: Seq<char>,
    requested_at: i64,
    completed_at: i64,
) -> FetchView {
    let text = wrapped(nonce, final_url(page), page.markdown);
    FetchView {
        fetch_id,
        requested_url,
        final_url: final_url(page),
        mode: "scrape"@,
        requested_at,
        completed_at,
        status: "ok"@,
        bytes: utf8_len(page.markdown) as u64,
        content_hash: hash_of(encode_utf8(text)),
        content_markdown: text,
        source_provider: "firecrawl-selfhosted"@,
        policy_decision: "allow"@,
        truncated: false,
    }
}

/// The content of an answer with a page.
pub open spec fn scrape_content(record: FetchView, page: ScrapeView) -> JsonView {
    JsonView::Object(
        seq![
            ("fetch_id"@, JsonView::Text(record.fetch_id)),
            ("content_hash"@, JsonView::Text(record.content_hash)),
            ("bytes"@, JsonView::Unsigned(record.bytes)),
            ("truncated"@, JsonView::Bool(false)),
            ("content_markdown"@, JsonView::Text(record.content_markdown)),
            ("links"@, text_array(page.links)),
            ("metadata"@, page.metadata),
        ],
    )
}

/// What a fetch comes to, given the identifier of what is stored and the nonce of its markers.
pub open spec fn scrape_outcome(
    call: CallView,
    requested_url: Seq<char>,
    max_bytes: usize,
    completed_at: i64,
    result: Result<ScrapeView, FailureView>,
    fetch_id: Seq<char>,
    nonce: Seq<char>,
) -> OutcomeView {
    match result {
        Err(e) => failed(call, "firecrawl"@, failure_message(e)),
        Ok(page) => if utf8_len(page.markdown) > max_bytes {
            denied(call, "scrape_max_bytes"@, "page exceeds byte cap"@)
        } else {
            let record = fetch_record(requested_url, page, fetch_id, nonce, call.now, completed_at);
            succeeded(
                call,
                "ok"@,
                Some(record),
                envelope_reply(
                    source_of(call, record.final_url, "firecrawl-selfhosted"@),
                    Some(
                        ProvenanceView { fetch_id, content_hash: record.content_hash },
                    ),
                    scrape_content(record, page),
                    call.audit_id,
                ),
            )
        },
    }
}

/// The view of a page that was fetched, or of why it was not.
pub open spec fn page_or_failure(r: Result<ScrapeResult, BackendError>) -> Result<
    ScrapeView,
    FailureView,
> {
    match r {
        Ok(page) => Ok(page@),
        Err(e) => Err(e@),
    }
}

/// Says what a fetch comes to, given the identifier of what is stored and the nonce of its
/// markers.
pub fn settle_scrape(
    call: &Call,
    requested_url: &str,
    max_bytes: usize,
    completed_at: i64,
    result: Result<ScrapeResult, BackendError>,
    fetch_id: String,
    nonce: String,
) -> (res: Outcome)
    ensures
        res@ == scrape_outcome(
            call@,
            requested_url@,
            max_bytes,
            completed_at,
            page_or_failure(result),
            fetch_id@,
            nonce@,
        ),
{
    let page = match result {
        Ok(page) => page,
        Err(e) => {
            return call.fail("firecrawl", &e.message());
        },
    };
    let bytes: usize = byte_len(&page.markdown);
    if bytes > max_bytes {
        return call.deny("scrape_max_bytes", "page exceeds byte cap");
    }
    let url = match page.metadata.get_text("sourceURL") {
        Some(url) => url.clone(),
        None => page.url.clone(),
    };
    let text = wrap_with_nonce(&nonce, &url, &page.markdown);
    let content_hash = Store::content_hash(text.as_str().as_bytes());
    let record = FetchRecord {
        fetch_id: fetch_id.clone(),
        requested_url: requested_url.to_owned(),
        final_url: url.clone(),
        mode: "scrape".to_owned(),
        requested_at: call.now,
        completed_at,
        status: "ok".to_owned(),
        bytes: bytes as u64,
        content_hash: content_hash.clone(),
        content_markdown: text.clone(),
        source_provider: "firecrawl-selfhosted".to_owned(),
        policy_decision: "allow".to_owned(),
        truncated: false,
    };
    let members = vec![
        Json::field("fetch_id", Json::text(&fetch_id)),
        Json::field("content_hash", Json::text(&content_hash)),
        Json::field("bytes", Json::Unsigned(bytes as u64)),
        Json::field("truncated", Json::Bool(false)),
        Json::field("content_markdown", Json::text(&text)),
        Json::field("links", Json::texts(&page.links)),
        Json::field("metadata", page.metadata.copy()),
    ];
    proof {
        assert(member_views(members@) =~= scrape_content(record@, page@)->Object_0);
    }
    let content = Json::object(members);
    let reply = call.envelope(
        &url,
        "firecrawl-selfhosted",
        Some(Provenance { fetch_id, content_hash }),
        content,
    );
    call.succeed("ok", Some(record), reply)
}

/// Says what a fetch comes to, once the service has answered, under a fresh identifier and
/// with fresh markers.
pub fn finish_scrape(
    call: &Call,
    requested_url: &str,
    max_bytes: usize,
    completed_at: i64,
    result: Result<ScrapeResult, BackendError>,
) -> (res: Outcome)
    ensures
        exists|fetch_id: Seq<char>, nonce: Seq<char>|
            is_uuid_text(fetch_id) && is_uuid_text(nonce) && res@ == #[trigger] scrape_outcome(
                call@,
                requested_url@,
                max_bytes,
                completed_at,
                page_or_failure(result),
                fetch_id,
                nonce,
            ),
{
    let fetch_id = Store::new_fetch_id();
    let nonce = new_uuid_text();
    let ghost id = fetch_id@;
    let ghost mark = nonce@;
    let res = settle_scrape(
        call,
        requested_url,
        max_bytes,
        completed_at,
        result,
        fetch_id,
        nonce,
    );
    assert(res@ == scrape_outcome(
        call@,
        requested_url@,
        max_bytes,
        completed_at,
        page_or_failure(result),
        id,
        mark,
    ));
    res
}

// ---------------------------------------------------------------------------
// Laws
// ---------------------------------------------------------------------------
/// A successful fetch is answered with the identifier and the hash under which the page is
/// stored, the URL it was found at, its size and its text; the text is the page between its
/// markers, and the hash is that of the text.
pub proof fn law_answers_match_what_is_stored(
    call: CallView,
    requested_url: Seq<char>,
    max_bytes: usize,
    completed_at: i64,
    page: ScrapeView,
    fetch_id: Seq<char>,
    nonce: Seq<char>,
)
    requires
        utf8_len(page.markdown) <= max_bytes,
    ensures
        ({
            let o = scrape_outcome(
                call,
                requested_url,
                max_bytes,
                completed_at,
                Ok(page),
                fetch_id,
                nonce,
            );
            &&& o.fetch is Some
            &&& o.fetch->0.fetch_id == fetch_id
            &&& o.fetch->0.content_markdown == wrapped(nonce, final_url(page), page.markdown)
            &&& o.fetch->0.content_hash == hash_of(encode_utf8(o.fetch->0.content_markdown))
            &&& o.reply is Envelope
            &&& o.reply->Envelope_0.provenance == Some(
                ProvenanceView {
                    fetch_id: o.fetch->0.fetch_id,
                    content_hash: o.fetch->0.content_hash,
                },
            )
            &&& o.reply->Envelope_0.source.url == o.fetch->0.final_url
            &&& o.reply->Envelope_0.content.member("bytes"@) == Some(
                JsonView::Unsigned(o.fetch->0.bytes),
            )
            &&& o.reply->Envelope_0.content.member_text("content_markdown"@) == Some(
                o.fetch->0.content_markdown,
            )
            &&& o.audit is Some && o.audit->0.fetch_id == Some(o.fetch->0.fetch_id)
        }),
{
    let o = scrape_outcome(
        call,
        requested_url,
        max_bytes,
        completed_at,
        Ok(page),
        fetch_id,
        nonce,
    );
    let m = o.reply->Envelope_0.content->Object_0;
    reveal_strlit("fetch_id");
    reveal_strlit("content_hash");
    reveal_strlit("bytes");
    reveal_strlit("truncated");
    reveal_strlit("content_markdown");
    lemma_member_at(m, "content_markdown"@, 4);
    lemma_member_at(m, "bytes"@, 2);
}

/// Nothing is fetched for a family that is disabled or a URL that is not admitted.
pub proof fn law_fetches_are_admitted(p: PolicyView, url: Seq<char>, call: CallView)
    requires
        scrape_verdict(p, url, call) is None,
    ensures
        p.families.extract,
        crate::policy::url_verdict(p, url) is Allow,
        p.inflight < p.limits.inflight_max,
{
}

/// Nothing is stored of a page over the byte cap.
pub proof fn law_stored_pages_stay_capped(
    call: CallView,
    requested_url: Seq<char>,
    max_bytes: usize,
    completed_at: i64,
    result: Result<ScrapeView, FailureView>,
    fetch_id: Seq<char>,
    nonce: Seq<char>,
)
    ensures
        scrape_outcome(
            call,
            requested_url,
            max_bytes,
            completed_at,
            result,
            fetch_id,
            nonce,
        ).fetch matches Some(f) ==> f.bytes <= max_bytes,
{
}

/// A fetch is made if and only if the family is enabled, the policy admits the URL and there is
/// a place in flight; otherwise it is denied, with the reason.
pub proof fn law_fetches_that_are_made(p: PolicyView, url: Seq<char>, call: CallView)
    ensures
        ({
            let v = scrape_verdict(p, url, call);
            let admitted = url_verdict(p, url);
            &&& v is None <==> p.families.extract && admitted is Allow && p.inflight
                < p.limits.inflight_max
            &&& v is Some ==> v->0.denial is Some && v->0.fetch is None && v->0.reply is Error
            &&& !p.families.extract ==> v->0.denial == Some("family_disabled:extract"@)
            &&& (p.families.extract ==> (admitted matches Verdict::Deny(reason) ==> v->0.denial
                == Some(reason)))
            &&& p.families.extract && admitted is Allow && p.inflight >= p.limits.inflight_max
                ==> v->0.denial == Some("inflight_full"@)
        }),
{
}

/// The final URL of a page that was fetched is the one that its metadata names as its source,
/// and otherwise the one it was asked for under. What is stored of it is that URL, the URL that
/// was requested, the size of its text and the times of the request and of the answer; the
/// answer gives its links and its metadata as they came.
pub proof fn law_fetched_pages_are_told_as_they_came(
    call: CallView,
    requested_url: Seq<char>,
    max_bytes: usize,
    completed_at: i64,
    page: ScrapeView,
    fetch_id: Seq<char>,
    nonce: Seq<char>,
)
    requires
        utf8_len(page.markdown) <= max_bytes,
    ensures
        ({
            let o = scrape_outcome(
                call,
                requested_url,
                max_bytes,
                completed_at,
                Ok(page),
                fetch_id,
                nonce,
            );
            let f = o.fetch->0;
            let e = o.reply->Envelope_0;
            &&& o.fetch is Some && o.reply is Envelope && o.denial is None
            &&& o.call == Some((call.tool, "ok"@))
            &&& match page.metadata.member("sourceURL"@) {
                Some(JsonView::Text(u)) => f.final_url == u,
                _ => f.final_url == page.url,
            }
            &&& e.source.url == f.final_url
            &&& f.requested_url == requested_url
            &&& f.bytes == utf8_len(page.markdown) as u64
            &&& f.requested_at == call.now && f.completed_at == completed_at
            &&& f.fetch_id == fetch_id && f.mode == "scrape"@ && f.policy_decision == "allow"@
            &&& !f.truncated && f.status == "ok"@ && f.source_provider == "firecrawl-selfhosted"@
            &&& f.content_markdown == wrapped(nonce, f.final_url, page.markdown)
            &&& f.content_hash == hash_of(encode_utf8(f.content_markdown))
            &&& e.provenance is Some && e.provenance->0.fetch_id == fetch_id
                && e.provenance->0.content_hash == f.content_hash
            &&& says(e.content, "fetch_id"@, JsonView::Text(fetch_id))
            &&& says(e.content, "content_hash"@, JsonView::Text(f.content_hash))
            &&& says(e.content, "bytes"@, JsonView::Unsigned(f.bytes))
            &&& says(e.content, "truncated"@, JsonView::Bool(false))
            &&& says(e.content, "content_markdown"@, JsonView::Text(f.content_markdown))
            &&& says(e.content, "links"@, text_array(page.links))
            &&& says(e.content, "metadata"@, page.metadata)
        }),
{
    let e = scrape_outcome(
        call,
        requested_url,
        max_bytes,
        completed_at,
        Ok(page),
        fetch_id,
        nonce,
    ).reply->Envelope_0;
    lemma_says(e.content);
    let m = e.content->Object_0;
    assert(m[0].0 == "fetch_id"@ && m[1].0 == "content_hash"@ && m[2].0 == "bytes"@ && m[3].0
        == "truncated"@ && m[4].0 == "content_markdown"@ && m[5].0 == "links"@ && m[6].0
        == "metadata"@);
}

/// A page over the byte cap is denied and a failure of the service is told with its message; in
/// neither case is anything stored.
pub proof fn law_fetches_that_give_no_page(
    call: CallView,
    requested_url: Seq<char>,
    max_bytes: usize,
    completed_at: i64,
    page: ScrapeView,
    failure: FailureView,
    fetch_id: Seq<char>,
    nonce: Seq<char>,
)
    ensures
        utf8_len(page.markdown) > max_bytes ==> {
            let o = scrape_outcome(
                call,
                requested_url,
                max_bytes,
                completed_at,
                Ok(page),
                fetch_id,
                nonce,
            );
            o.denial == Some("scrape_max_bytes"@) && o.fetch is None && o.reply is Error
        },
        ({
            let o = scrape_outcome(
                call,
                requested_url,
                max_bytes,
                completed_at,
                Err(failure),
                fetch_id,
                nonce,
            );
            &&& o.fetch is None && o.denial is None && o.call == Some((call.tool, "error"@))
            &&& o.reply is Error && o.reply->Error_0.kind == "backend_error"@
            &&& o.reply->Error_0.reason == "firecrawl"@
            &&& o.reply->Error_0.detail == failure_message(failure)
        }),
{
}

/// A fetch is recorded under its tool, with what it asks for, its identifier and its time.
pub proof fn law_scrapes_are_recorded_as_made(args: WebScrapeArgs, audit_id: Seq<char>, now: i64)
    ensures
        scrape_call(args, audit_id, now).tool == "web_scrape_url"@,
        scrape_call(args, audit_id, now).args == JsonView::Object(args.members()),
        scrape_call(args, audit_id, now).audit_id == audit_id,
        scrape_call(args, audit_id, now).now == now,
{
}

/// A fetch that is not made is answered with what stands against it.
pub proof fn law_refused_fetches_are_explained(p: PolicyView, url: Seq<char>, call: CallView)
    ensures
        ({
            let e = scrape_verdict(p, url, call)->0.reply->Error_0;
            &&& !p.families.extract ==> e.kind == "policy_denied"@ && e.detail
                == "extract family disabled"@
            &&& p.families.extract && url_verdict(p, url) is Deny ==> e.kind == "policy_denied"@
                && e.detail == "domain policy"@
            &&& p.families.extract && url_verdict(p, url) is Allow && p.inflight
                >= p.limits.inflight_max ==> e.kind == "policy_denied"@ && e.detail
                == "concurrent fetch limit reached"@
        }),
{
}

} // verus!
