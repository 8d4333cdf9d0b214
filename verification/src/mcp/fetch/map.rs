//! Finding the pages of a site.
use vstd::prelude::*;

use crate::backends::firecrawl::MapEntry;
use crate::backends::{failure_message, BackendError, FailureView};
use crate::json::{lemma_says, member_views, says, text_or_null, views, Json, JsonView};
use crate::mcp::domain::WebMapArgs;
use crate::mcp::fetch::{
    check_domain_gate, check_family_gate, domain_gate, family_gate, no_place,
};
use crate::mcp::outcome::{
    envelope_reply, failed, source_of, succeeded, Call, CallView, Outcome, OutcomeView,
};
use crate::policy::{
    acquired, url_verdict, Family, InflightGuard, Policy, PolicyView, Verdict,
};
use crate::text::opt_text;

verus! {

/// A request for the pages of a site, as it is asked.
pub open spec fn map_call(args: WebMapArgs, audit_id: Seq<char>, now: i64) -> CallView {
    CallView {
        tool: "web_map_site"@,
        args: JsonView::Object(args.members()),
        audit_id,
        now,
    }
}

/// What is said of the request before it is made: how many pages to ask for, or the outcome
/// where it is not made.
pub open spec fn map_verdict(p: PolicyView, args: WebMapArgs, call: CallView) -> Result<
    usize,
    OutcomeView,
> {
    match family_gate(p, Family::Extract, "extract family disabled"@, call) {
        Some(outcome) => Err(outcome),
        None => match domain_gate(p, args.url@, call) {
            Some(outcome) => Err(outcome),
            None => if acquired(p) is None {
                Err(no_place(call))
            } else {
                Ok(
                    match args.max_pages {
                        Some(max) => max,
                        None => p.limits.crawl_max_pages,
                    },
                )
            },
        },
    }
}

/// A request that may be made.
pub struct MapPlan {
    pub call: Call,
    pub guard: InflightGuard,
    pub max: usize,
}

/// Holds a request to the policy, and takes its place among the calls in flight.
pub fn begin_map(policy: &mut Policy, args: &WebMapArgs, audit_id: String, now: i64) -> (res: Result<
    MapPlan,
    Outcome,
>)
    ensures
        match res {
            Ok(plan) => {
                &&& map_verdict(old(policy)@, *args, map_call(*args, audit_id@, now)) == Ok::<
                    usize,
                    OutcomeView,
                >(plan.max)
                &&& acquired(old(policy)@) == Some(final(policy)@)
                &&& plan.call@ == map_call(*args, audit_id@, now)
            },
            Err(outcome) => {
                &&& map_verdict(old(policy)@, *args, map_call(*args, audit_id@, now)) == Err::<
                    usize,
                    OutcomeView,
                >(outcome@)
                &&& final(policy)@ == old(policy)@
            },
        },
{
    let call = Call { tool: "web_map_site", args: args.to_json(), audit_id, now };
    if let Some(outcome) = check_family_gate(
        policy,
        Family::Extract,
        "extract family disabled",
        &call,
    ) {
        return Err(outcome);
    }
    if let Some(outcome) = check_domain_gate(policy, &args.url, &call) {
        return Err(outcome);
    }
    let max: usize = match args.max_pages {
        Some(max) => max,
        None => policy.limits().crawl_max_pages,
    };
    match policy.try_acquire_inflight() {
        Some(guard) => Ok(MapPlan { call, guard, max }),
        None => Err(call.deny("inflight_full", "concurrent fetch limit reached")),
    }
}

/// The JSON form of a page of a site.
pub open spec fn entry_json(e: MapEntry) -> JsonView {
    JsonView::Object(
        seq![("url"@, JsonView::Text(e.url@)), ("title"@, text_or_null(opt_text(e.title)))],
    )
}

fn entries_json(entries: &Vec<MapEntry>) -> (res: Json)
    ensures
        res@ == JsonView::Array(entries@.map_values(|e: MapEntry| entry_json(e))),
{
    let mut items: Vec<Json> = Vec::new();
    let mut i: usize = 0;
    while i < entries.len()
        invariant
            i <= entries@.len(),
            items@.len() == i,
            forall|k: int| 0 <= k < i ==> (#[trigger] items@[k])@ == entry_json(entries@[k]),
        decreases entries@.len() - i,
    {
        let members = vec![
            Json::field("url", Json::text(&entries[i].url)),
            Json::field("title", Json::opt_text(&entries[i].title)),
        ];
        assert(member_views(members@) =~= entry_json(entries@[i as int])->Object_0);
        items.push(Json::object(members));
        i = i + 1;
    }
    assert(views(items@) =~= entries@.map_values(|e: MapEntry| entry_json(e)));
    Json::array(items)
}

/// What the request comes to.
pub open spec fn map_outcome(
    call: CallView,
    url: Seq<char>,
    result: Result<Seq<MapEntry>, FailureView>,
) -> OutcomeView {
    match result {
        Ok(entries) => succeeded(
            call,
            "ok"@,
            None,
            envelope_reply(
                source_of(call, url, "firecrawl-selfhosted"@),
                None,
                JsonView::Array(entries.map_values(|e: MapEntry| entry_json(e))),
                call.audit_id,
            ),
        ),
        Err(e) => failed(call, "firecrawl"@, failure_message(e)),
    }
}

/// Says what the request comes to, once the service has answered.
pub fn finish_map(call: &Call, url: &str, result: Result<Vec<MapEntry>, BackendError>) -> (res:
    Outcome)
    ensures
        res@ == map_outcome(
            call@,
            url@,
            match result {
                Ok(entries) => Ok(entries@),
                Err(e) => Err(e@),
            },
        ),
{
    match result {
        Ok(entries) => {
            let reply = call.envelope(url, "firecrawl-selfhosted", None, entries_json(&entries));
            call.succeed("ok", None, reply)
        },
        Err(e) => call.fail("firecrawl", &e.message()),
    }
}

// ---------------------------------------------------------------------------
// Laws
// ---------------------------------------------------------------------------
/// The pages of a site are asked for if and only if the family is enabled, the policy admits the
/// URL and there is a place in flight; as many as are asked for, or else as the cap allows.
pub proof fn law_maps_that_are_made(p: PolicyView, args: WebMapArgs, call: CallView)
    ensures
        ({
            let v = map_verdict(p, args, call);
            let admitted = url_verdict(p, args.url@);
            &&& v is Ok <==> p.families.extract && admitted is Allow && p.inflight
                < p.limits.inflight_max
            &&& v is Ok && args.max_pages is Some ==> v->Ok_0 == args.max_pages->0
            &&& v is Ok && args.max_pages is None ==> v->Ok_0 == p.limits.crawl_max_pages
            &&& v is Err ==> v->Err_0.denial is Some && v->Err_0.reply is Error
            &&& !p.families.extract ==> v->Err_0.denial == Some("family_disabled:extract"@)
            &&& (p.families.extract ==> (admitted matches Verdict::Deny(reason)
                ==> v->Err_0.denial == Some(reason)))
            &&& p.families.extract && admitted is Allow && p.inflight >= p.limits.inflight_max
                ==> v->Err_0.denial == Some("inflight_full"@)
        }),
{
}

/// The answer lists the pages of the site one for one and in order, each with its URL and its
/// title. A failure is told with its message.
pub proof fn law_maps_list_their_pages(
    call: CallView,
    url: Seq<char>,
    entries: Seq<MapEntry>,
    failure: FailureView,
)
    ensures
        ({
            let o = map_outcome(call, url, Ok(entries));
            let e = o.reply->Envelope_0;
            &&& o.reply is Envelope && o.denial is None && o.fetch is None
            &&& e.source.url == url
            &&& e.content is Array && e.content->Array_0.len() == entries.len()
            &&& forall|i: int|
                0 <= i < entries.len() ==> {
                    let x = #[trigger] e.content->Array_0[i];
                    says(x, "url"@, JsonView::Text(entries[i].url@)) && says(
                        x,
                        "title"@,
                        text_or_null(opt_text(entries[i].title)),
                    )
                }
        }),
        ({
            let o = map_outcome(call, url, Err(failure));
            &&& o.reply is Error && o.reply->Error_0.kind == "backend_error"@
            &&& o.reply->Error_0.reason == "firecrawl"@
            &&& o.reply->Error_0.detail == failure_message(failure)
        }),
{
    let e = map_outcome(call, url, Ok(entries)).reply->Envelope_0;
    assert forall|i: int| 0 <= i < entries.len() implies {
        let x = #[trigger] e.content->Array_0[i];
        says(x, "url"@, JsonView::Text(entries[i].url@)) && says(
            x,
            "title"@,
            text_or_null(opt_text(entries[i].title)),
        )
    } by {
        let x = e.content->Array_0[i];
        lemma_says(x);
        assert(x->Object_0[0].0 == "url"@ && x->Object_0[1].0 == "title"@);
    }
}

/// A map is recorded under its tool, with what it asks for, its identifier and its time.
pub proof fn law_maps_are_recorded_as_made(args: WebMapArgs, audit_id: Seq<char>, now: i64)
    ensures
        map_call(args, audit_id, now).tool == "web_map_site"@,
        map_call(args, audit_id, now).args == JsonView::Object(args.members()),
        map_call(args, audit_id, now).audit_id == audit_id,
        map_call(args, audit_id, now).now == now,
{
}

/// A map that is not made is answered with what stands against it.
pub proof fn law_refused_maps_are_explained(p: PolicyView, args: WebMapArgs, call: CallView)
    ensures
        ({
            let e = map_verdict(p, args, call)->Err_0.reply->Error_0;
            let admitted = url_verdict(p, args.url@);
            &&& !p.families.extract ==> e.kind == "policy_denied"@ && e.detail
                == "extract family disabled"@
            &&& p.families.extract && admitted is Deny ==> e.kind == "policy_denied"@ && e.detail
                == "domain policy"@
            &&& p.families.extract && admitted is Allow && p.inflight >= p.limits.inflight_max
                ==> e.kind == "policy_denied"@ && e.detail == "concurrent fetch limit reached"@
        }),
{
}

} // verus!
