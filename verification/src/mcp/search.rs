//! The search tool.
use vstd::prelude::*;

use crate::backends::searxng::{ResultView, SearxResult, SearxSearchResponse};
use crate::backends::{failure_message, BackendError, FailureView};
use crate::json::{lemma_says, says, text_array, text_or_null, JsonView};
use crate::mcp::passages::lemma_occurs_within;
use crate::mcp::domain::{hit_json, hit_views, hits_json, HitView, SearchHit, WebSearchArgs};
use crate::mcp::outcome::{
    denied, envelope_reply, failed, refuse, refused, source_of, succeeded, Call, CallView, Outcome,
    OutcomeView,
};
use crate::policy::{
    acquired, family_verdict, search_caps_verdict, Decision, Family, InflightGuard, Policy,
    PolicyView, Verdict,
};
use crate::text::{
    byte_len, char_is_whitespace, chars_of, decimal, has_at, is_ascii_alnum, join, joined, occurs,
    opt_text, same_text, slice_text, stands_at, texts, trim, trimmed, utf8_len, white,
};

verus! {

// ---------------------------------------------------------------------------
// The query
// ---------------------------------------------------------------------------
/// A domain without the wildcards before it.
pub open spec fn without_wildcards(s: Seq<char>) -> Seq<char>
    decreases s.len(),
{
    if has_at(s, "*."@, 0) && s.len() >= 2 {
        without_wildcards(s.skip(2))
    } else {
        s
    }
}

/// The domain that a filter names.
pub open spec fn filter_domain(raw: Seq<char>) -> Seq<char> {
    without_wildcards(trimmed(raw))
}

/// A domain that a filter may name: letters, digits, hyphens and full stops, up to 253 of them,
/// without a full stop at either end.
pub open spec fn is_filter_domain(d: Seq<char>) -> bool {
    &&& d.len() > 0
    &&& utf8_len(d) <= 253
    &&& d[0] != '.'
    &&& d.last() != '.'
    &&& forall|i: int|
        0 <= i < d.len() ==> is_ascii_alnum(#[trigger] d[i]) || d[i] == '-' || d[i] == '.'
}

/// Why a filter is refused.
pub open spec fn bad_filter(d: Seq<char>) -> Seq<char> {
    "invalid domain filter: "@ + d
}

/// The first refusal among some filters.
pub open spec fn first_bad_filter(raws: Seq<Seq<char>>) -> Option<Seq<char>>
    decreases raws.len(),
{
    if raws.len() == 0 {
        None
    } else {
        match first_bad_filter(raws.drop_last()) {
            Some(detail) => Some(detail),
            None => if is_filter_domain(filter_domain(raws.last())) {
                None
            } else {
                Some(bad_filter(filter_domain(raws.last())))
            },
        }
    }
}

/// Filters as they stand in a query.
pub open spec fn filter_terms(prefix: Seq<char>, raws: Seq<Seq<char>>) -> Seq<Seq<char>> {
    raws.map_values(|raw: Seq<char>| prefix + filter_domain(raw))
}

/// Terms with a blank before each.
pub open spec fn spaced(terms: Seq<Seq<char>>) -> Seq<char>
    decreases terms.len(),
{
    if terms.len() == 0 {
        Seq::empty()
    } else {
        spaced(terms.drop_last()) + " "@ + terms.last()
    }
}

/// A query with its filters.
pub open spec fn filtered_query(
    query: Seq<char>,
    includes: Seq<Seq<char>>,
    excludes: Seq<Seq<char>>,
) -> Seq<char> {
    let only = filter_terms("site:"@, includes);
    let none = filter_terms("-site:"@, excludes);
    let head = if only.len() == 0 {
        query
    } else {
        query + " ("@ + joined(only, " OR "@) + ")"@
    };
    head + spaced(none)
}

/// The query of a search, or why a filter is refused.
pub open spec fn query_of(args: WebSearchArgs) -> Result<Seq<char>, Seq<char>> {
    match first_bad_filter(texts(args.include_domains@)) {
        Some(detail) => Err(detail),
        None => match first_bad_filter(texts(args.exclude_domains@)) {
            Some(detail) => Err(detail),
            None => Ok(
                filtered_query(
                    args.query@,
                    texts(args.include_domains@),
                    texts(args.exclude_domains@),
                ),
            ),
        },
    }
}

fn strip_wildcards(s: String) -> (res: String)
    ensures
        res@ == without_wildcards(s@),
{
    let v = chars_of(&s);
    let star = chars_of("*.");
    let total: usize = v.len();
    let mut at: usize = 0;
    proof {
        reveal_strlit("*.");
        assert(v@.skip(0) =~= v@);
    }
    while at < total && total - at >= 2 && stands_at(&v, &star, at)
        invariant
            v@ == s@,
            total == v@.len(),
            at <= total,
            star@ == "*."@,
            star@.len() == 2,
            without_wildcards(s@) == without_wildcards(v@.skip(at as int)),
        decreases total - at,
    {
        proof {
            assert(v@.skip(at as int).subrange(0, 2) =~= v@.subrange(at as int, at + 2));
            assert(v@.skip(at as int).skip(2) =~= v@.skip(at + 2));
        }
        at = at + 2;
    }
    proof {
        let rest = v@.skip(at as int);
        if has_at(rest, "*."@, 0) && rest.len() >= 2 {
            assert(rest.subrange(0, 2) =~= v@.subrange(at as int, at + 2));
        }
    }
    let out = slice_text(&v, at, total);
    assert(out@ =~= v@.skip(at as int));
    out
}

/// The domain that a filter names, or why it is refused.
pub fn checked_domain(domain: &str) -> (res: Result<String, String>)
    ensures
        match res {
            Ok(d) => d@ == filter_domain(domain@) && is_filter_domain(d@),
            Err(detail) => !is_filter_domain(filter_domain(domain@)) && detail@ == bad_filter(
                filter_domain(domain@),
            ),
        },
{
    let d = strip_wildcards(trim(domain));
    if is_plain_domain(&d) {
        Ok(d)
    } else {
        let mut detail = "invalid domain filter: ".to_owned();
        detail.push_str(&d);
        Err(detail)
    }
}

fn is_plain_domain(d: &str) -> (res: bool)
    ensures
        res == is_filter_domain(d@),
{
    let v = chars_of(d);
    if v.len() == 0 || byte_len(d) > 253 || v[0] == '.' || v[v.len() - 1] == '.' {
        return false;
    }
    let mut i: usize = 0;
    while i < v.len()
        invariant
            v@ == d@,
            i <= v@.len(),
            forall|k: int|
                0 <= k < i ==> is_ascii_alnum(#[trigger] v@[k]) || v@[k] == '-' || v@[k] == '.',
        decreases v@.len() - i,
    {
        let c = v[i];
        let fine = ('a' <= c && c <= 'z') || ('A' <= c && c <= 'Z') || ('0' <= c && c <= '9') || c
            == '-' || c == '.';
        if !fine {
            assert(!(is_ascii_alnum(d@[i as int]) || d@[i as int] == '-' || d@[i as int] == '.'));
            return false;
        }
        i = i + 1;
    }
    true
}

fn checked_terms(prefix: &str, raws: &Vec<String>) -> (res: Result<Vec<String>, String>)
    ensures
        match res {
            Ok(terms) => first_bad_filter(texts(raws@)) is None && texts(terms@) == filter_terms(
                prefix@,
                texts(raws@),
            ),
            Err(detail) => first_bad_filter(texts(raws@)) == Some(detail@),
        },
{
    let ghost all = texts(raws@);
    let mut out: Vec<String> = Vec::new();
    let mut i: usize = 0;
    assert(texts(out@) =~= filter_terms(prefix@, all.take(0)));
    while i < raws.len()
        invariant
            all == texts(raws@),
            i <= raws@.len(),
            first_bad_filter(all.take(i as int)) is None,
            texts(out@) == filter_terms(prefix@, all.take(i as int)),
        decreases raws@.len() - i,
    {
        proof {
            assert(all.take(i + 1).drop_last() =~= all.take(i as int));
            assert(all.take(i + 1).last() == raws@[i as int]@);
        }
        match checked_domain(&raws[i]) {
            Ok(d) => {
                let ghost before = out@;
                let mut term = prefix.to_owned();
                term.push_str(&d);
                out.push(term);
                proof {
                    assert(texts(out@) =~= texts(before).push(term@));
                    assert(filter_terms(prefix@, all.take(i + 1)) =~= filter_terms(
                        prefix@,
                        all.take(i as int),
                    ).push(term@));
                }
            },
            Err(detail) => {
                proof {
                    lemma_bad_filter_stays(all, i + 1);
                }
                return Err(detail);
            },
        }
        i = i + 1;
    }
    assert(all.take(all.len() as int) =~= all);
    Ok(out)
}

proof fn lemma_bad_filter_stays(raws: Seq<Seq<char>>, n: int)
    requires
        0 <= n <= raws.len(),
        first_bad_filter(raws.take(n)) is Some,
    ensures
        first_bad_filter(raws) == first_bad_filter(raws.take(n)),
    decreases raws.len() - n,
{
    if n < raws.len() {
        assert(raws.take(n + 1).drop_last() =~= raws.take(n));
        lemma_bad_filter_stays(raws, n + 1);
    } else {
        assert(raws.take(n) =~= raws);
    }
}

/// The query of a search, or why a filter is refused.
pub fn search_query(args: &WebSearchArgs) -> (res: Result<String, String>)
    ensures
        query_of(*args) == match res {
            Ok(q) => Ok::<Seq<char>, Seq<char>>(q@),
            Err(detail) => Err::<Seq<char>, Seq<char>>(detail@),
        },
{
    let includes = match checked_terms("site:", &args.include_domains) {
        Ok(terms) => terms,
        Err(detail) => {
            return Err(detail);
        },
    };
    let excludes = match checked_terms("-site:", &args.exclude_domains) {
        Ok(terms) => terms,
        Err(detail) => {
            return Err(detail);
        },
    };
    let ghost only = texts(includes@);
    let ghost none = texts(excludes@);
    let mut query = args.query.clone();
    if includes.len() > 0 {
        query.push_str(" (");
        query.push_str(&join(&includes, " OR "));
        query.push_str(")");
    }
    let ghost head = query@;
    let mut i: usize = 0;
    assert(only.len() == includes@.len());
    assert(query@ =~= head + spaced(none.take(0)));
    while i < excludes.len()
        invariant
            none == texts(excludes@),
            i <= excludes@.len(),
            query@ == head + spaced(none.take(i as int)),
        decreases excludes@.len() - i,
    {
        proof {
            assert(none.take(i + 1).drop_last() =~= none.take(i as int));
            assert(none.take(i + 1).last() == excludes@[i as int]@);
        }
        let ghost before = query@;
        query.push_str(" ");
        query.push_str(&excludes[i]);
        assert(query@ =~= head + spaced(none.take(i + 1)));
        i = i + 1;
    }
    assert(none.take(none.len() as int) =~= none);
    Ok(query)
}

// ---------------------------------------------------------------------------
// The call
// ---------------------------------------------------------------------------
/// A search as it is asked.
pub open spec fn search_call(args: WebSearchArgs, audit_id: Seq<char>, now: i64) -> CallView {
    CallView {
        tool: "web_search"@,
        args: JsonView::Object(args.members()),
        audit_id,
        now,
    }
}

/// How many results a search asks for.
pub open spec fn search_max(p: PolicyView, args: WebSearchArgs) -> usize {
    match args.max_results {
        Some(max) => max,
        None => p.limits.search_max_results,
    }
}

/// A freshness that a search may ask for.
pub open spec fn is_time_range(s: Seq<char>) -> bool {
    s == "day"@ || s == "month"@ || s == "year"@
}

/// What is said of a search before it is made: the query and how many results to ask for, or
/// the outcome where it is not made.
pub open spec fn search_verdict(p: PolicyView, args: WebSearchArgs, call: CallView) -> Result<
    (Seq<char>, usize),
    OutcomeView,
> {
    match family_verdict(p, Family::Search) {
        Verdict::Deny(reason) => Err(denied(call, reason, "search family disabled"@)),
        Verdict::Allow => match search_caps_verdict(p, search_max(p, args) as nat) {
            Verdict::Deny(reason) => Err(denied(call, reason, "result cap exceeded"@)),
            Verdict::Allow => if opt_text(args.time_range) is Some && !is_time_range(
                opt_text(args.time_range)->0,
            ) {
                Err(
                    refused(
                        "invalid_argument"@,
                        "bad_time_range"@,
                        "time_range must be day, month, or year"@,
                        Some(call.audit_id),
                    ),
                )
            } else {
                match query_of(args) {
                    Err(detail) => Err(
                        refused(
                            "invalid_argument"@,
                            "bad_domain_filter"@,
                            detail,
                            Some(call.audit_id),
                        ),
                    ),
                    Ok(query) => if acquired(p) is None {
                        Err(denied(call, "inflight_full"@, "concurrent fetch limit reached"@))
                    } else {
                        Ok((query, search_max(p, args)))
                    },
                }
            },
        },
    }
}

/// A search that may be made.
pub struct SearchPlan {
    pub call: Call,
    pub guard: InflightGuard,
    pub query: String,
    pub max: usize,
}

/// Holds a search to the policy, and takes its place among the calls in flight.
pub fn begin_search(policy: &mut Policy, args: &WebSearchArgs, audit_id: String, now: i64) -> (res:
    Result<SearchPlan, Outcome>)
    ensures
        match res {
            Ok(plan) => {
                &&& search_verdict(old(policy)@, *args, search_call(*args, audit_id@, now)) == Ok::<
                    (Seq<char>, usize),
                    OutcomeView,
                >((plan.query@, plan.max))
                &&& acquired(old(policy)@) == Some(final(policy)@)
                &&& plan.call@ == search_call(*args, audit_id@, now)
            },
            Err(outcome) => {
                &&& search_verdict(old(policy)@, *args, search_call(*args, audit_id@, now)) == Err::<
                    (Seq<char>, usize),
                    OutcomeView,
                >(outcome@)
                &&& final(policy)@ == old(policy)@
            },
        },
{
    let call = Call { tool: "web_search", args: args.to_json(), audit_id, now };
    if let Decision::Deny(reason) = policy.check_family(Family::Search) {
        return Err(call.deny(&reason, "search family disabled"));
    }
    let max: usize = match args.max_results {
        Some(max) => max,
        None => policy.limits().search_max_results,
    };
    if let Decision::Deny(reason) = policy.check_caps_search(max) {
        return Err(call.deny(&reason, "result cap exceeded"));
    }
    if let Some(range) = &args.time_range {
        if !same_text(range, "day") && !same_text(range, "month") && !same_text(range, "year") {
            return Err(
                refuse(
                    "invalid_argument",
                    "bad_time_range",
                    "time_range must be day, month, or year",
                    Some(call.audit_id),
                ),
            );
        }
    }
    let query = match search_query(args) {
        Ok(query) => query,
        Err(detail) => {
            return Err(
                refuse("invalid_argument", "bad_domain_filter", &detail, Some(call.audit_id)),
            );
        },
    };
    match policy.try_acquire_inflight() {
        Some(guard) => Ok(SearchPlan { call, guard, query, max }),
        None => Err(call.deny("inflight_full", "concurrent fetch limit reached")),
    }
}

/// The hits that results make: each with its rank.
pub open spec fn ranked_hits(results: Seq<ResultView>) -> Seq<HitView> {
    Seq::new(
        results.len(),
        |i: int|
            HitView {
                rank: (i + 1) as usize,
                url: results[i].url,
                title: results[i].title,
                snippet: results[i].snippet,
                engine: results[i].engine,
                engines: results[i].engines,
                score: results[i].score,
                published_at: results[i].published_at,
            },
    )
}

fn rank_results(results: Vec<SearxResult>) -> (res: Vec<SearchHit>)
    ensures
        hit_views(res@) == ranked_hits(crate::backends::searxng::result_views(results@)),
{
    let total: usize = results.len();
    let ghost all = crate::backends::searxng::result_views(results@);
    let ghost goal = ranked_hits(all);
    let mut rest = results;
    let mut out: Vec<SearchHit> = Vec::new();
    let mut i: usize = 0;
    proof {
        assert(all.skip(0) =~= all);
    }
    while rest.len() > 0
        invariant
            total == all.len(),
            goal == ranked_hits(all),
            i <= total,
            crate::backends::searxng::result_views(rest@) == all.skip(i as int),
            out@.len() == i,
            forall|k: int| 0 <= k < i ==> (#[trigger] out@[k])@ == goal[k],
        decreases rest@.len(),
    {
        let ghost before = rest@;
        let r = rest.remove(0);
        proof {
            let views = crate::backends::searxng::result_views(before);
            assert(views.len() == before.len());
            assert(views[0] == before[0]@);
            assert(crate::backends::searxng::result_views(rest@) =~= views.remove(0));
            assert(all.skip(i as int).remove(0) =~= all.skip(i + 1));
            assert(all[i as int] == r@);
        }
        out.push(
            SearchHit {
                rank: i + 1,
                url: r.url,
                title: r.title,
                snippet: r.snippet,
                engine: r.engine,
                engines: r.engines,
                score: r.score,
                published_at: r.published_at,
            },
        );
        i = i + 1;
    }
    proof {
        assert(crate::backends::searxng::result_views(rest@).len() == 0);
        assert(hit_views(out@) =~= goal);
    }
    out
}

/// What a search comes to.
pub open spec fn search_outcome(
    call: CallView,
    query: Seq<char>,
    result: Result<Seq<ResultView>, FailureView>,
) -> OutcomeView {
    match result {
        Ok(results) => succeeded(
            call,
            "ok"@,
            None,
            envelope_reply(
                source_of(call, "search:"@ + query, "searxng"@),
                None,
                JsonView::Array(ranked_hits(results).map_values(|h: HitView| hit_json(h))),
                call.audit_id,
            ),
        ),
        Err(e) => failed(call, "searxng"@, failure_message(e)),
    }
}

/// A search that was made: what it comes to, and its hits.
pub struct SearchDone {
    pub outcome: Outcome,
    pub hits: Vec<SearchHit>,
}

/// Says what a search comes to, once the service has answered.
pub fn finish_search(call: &Call, query: &str, result: Result<SearxSearchResponse, BackendError>) -> (res:
    SearchDone)
    ensures
        res.outcome@ == search_outcome(
            call@,
            query@,
            match result {
                Ok(r) => Ok(crate::backends::searxng::result_views(r.results@)),
                Err(e) => Err(e@),
            },
        ),
        hit_views(res.hits@) == match result {
            Ok(r) => ranked_hits(crate::backends::searxng::result_views(r.results@)),
            Err(_) => Seq::empty(),
        },
{
    match result {
        Ok(response) => {
            let hits = rank_results(response.results);
            let mut url = "search:".to_owned();
            url.push_str(query);
            let reply = call.envelope(&url, "searxng", None, hits_json(&hits));
            SearchDone { outcome: call.succeed("ok", None, reply), hits }
        },
        Err(e) => {
            let hits: Vec<SearchHit> = Vec::new();
            assert(hit_views(hits@) =~= Seq::empty());
            SearchDone { outcome: call.fail("searxng", &e.message()), hits }
        },
    }
}

// ---------------------------------------------------------------------------
// Laws
// ---------------------------------------------------------------------------
/// No search asks a service for more results than the policy allows, or for none.
pub proof fn law_searches_stay_capped(p: PolicyView, args: WebSearchArgs, call: CallView)
    requires
        search_verdict(p, args, call) is Ok,
    ensures
        1 <= search_verdict(p, args, call)->Ok_0.1 <= p.limits.search_max_results,
        p.families.search,
        p.inflight < p.limits.inflight_max,
{
}

/// A domain that stands in a query holds nothing but letters, digits, hyphens and full stops.
pub proof fn law_filters_are_plain(raws: Seq<Seq<char>>, i: int)
    requires
        first_bad_filter(raws) is None,
        0 <= i < raws.len(),
    ensures
        is_filter_domain(filter_domain(raws[i])),
    decreases raws.len(),
{
    if i < raws.len() - 1 {
        law_filters_are_plain(raws.drop_last(), i);
    }
}

/// A host name in plain letters: up to 253 letters, digits, hyphens and full stops, without a
/// full stop at either end.
pub open spec fn is_plain_host(d: Seq<char>) -> bool {
    &&& 0 < d.len() && utf8_len(d) <= 253
    &&& d[0] != '.' && d[d.len() - 1] != '.'
    &&& forall|i: int|
        0 <= i < d.len() ==> {
            let c = #[trigger] d[i];
            ('a' <= c && c <= 'z') || ('A' <= c && c <= 'Z') || ('0' <= c && c <= '9') || c == '-'
                || c == '.'
        }
}

/// A filter names the domain that it spells, with or without white space around it and a
/// wildcard before it.
pub proof fn law_filters_name_their_domain(before: Seq<char>, d: Seq<char>, behind: Seq<char>)
    requires
        is_plain_host(d),
        forall|i: int| 0 <= i < before.len() ==> char_is_whitespace(#[trigger] before[i]),
        forall|i: int| 0 <= i < behind.len() ==> char_is_whitespace(#[trigger] behind[i]),
    ensures
        filter_domain(before + d + behind) == d,
        filter_domain(before + ("*."@ + d) + behind) == d,
{
    reveal_strlit("*.");
    let starred = "*."@ + d;
    crate::mcp::bundle::law_space_around_is_forgotten(before, d, behind);
    crate::mcp::bundle::law_space_around_is_forgotten(before, starred, behind);
    assert(!white()(d[0]) && !white()(d[d.len() - 1]));
    assert(trimmed(d) == d);
    assert(!white()(starred[0]) && !white()(starred[starred.len() - 1]));
    assert(trimmed(starred) == starred);
    assert(!has_at(d, "*."@, 0)) by {
        if has_at(d, "*."@, 0) {
            assert(d.subrange(0, 2)[0] == d[0]);
        }
    }
    assert(starred.subrange(0, 2) =~= "*."@);
    assert(starred.skip(2) =~= d);
    assert(without_wildcards(d) == d);
    assert(without_wildcards(starred) == d);
}

proof fn lemma_bad_filters(raws: Seq<Seq<char>>)
    ensures
        first_bad_filter(raws) is None <==> forall|i: int|
            0 <= i < raws.len() ==> is_plain_host(filter_domain(#[trigger] raws[i])),
    decreases raws.len(),
{
    if raws.len() > 0 {
        let front = raws.drop_last();
        lemma_bad_filters(front);
        lemma_plain_host(filter_domain(raws.last()));
        if first_bad_filter(raws) is None {
            assert forall|i: int| 0 <= i < raws.len() implies is_plain_host(
                filter_domain(#[trigger] raws[i]),
            ) by {
                if i < front.len() {
                    assert(front[i] == raws[i]);
                }
            }
        } else if forall|i: int|
            0 <= i < raws.len() ==> is_plain_host(filter_domain(#[trigger] raws[i])) {
            assert forall|i: int| 0 <= i < front.len() implies is_plain_host(
                filter_domain(#[trigger] front[i]),
            ) by {
                assert(front[i] == raws[i]);
            }
            assert(raws[raws.len() - 1] == raws.last());
        }
    }
}

proof fn lemma_plain_host(d: Seq<char>)
    ensures
        is_plain_host(d) <==> is_filter_domain(d),
{
}

/// A search is given a query if and only if every filter names a plain host.
pub proof fn law_queries_need_plain_filters(args: WebSearchArgs)
    ensures
        query_of(args) is Ok <==> (forall|i: int|
            0 <= i < args.include_domains@.len() ==> is_plain_host(
                filter_domain((#[trigger] args.include_domains@[i])@),
            )) && (forall|i: int|
            0 <= i < args.exclude_domains@.len() ==> is_plain_host(
                filter_domain((#[trigger] args.exclude_domains@[i])@),
            )),
{
    let a = texts(args.include_domains@);
    let b = texts(args.exclude_domains@);
    lemma_bad_filters(a);
    lemma_bad_filters(b);
    assert forall|i: int| 0 <= i < a.len() implies a[i] == (
    #[trigger] args.include_domains@[i])@ by {}
    assert forall|i: int| 0 <= i < b.len() implies b[i] == (
    #[trigger] args.exclude_domains@[i])@ by {}
    if query_of(args) is Ok {
        assert forall|i: int| 0 <= i < args.include_domains@.len() implies is_plain_host(
            filter_domain((#[trigger] args.include_domains@[i])@),
        ) by {
            assert(is_plain_host(filter_domain(a[i])));
        }
        assert forall|i: int| 0 <= i < args.exclude_domains@.len() implies is_plain_host(
            filter_domain((#[trigger] args.exclude_domains@[i])@),
        ) by {
            assert(is_plain_host(filter_domain(b[i])));
        }
    } else {
        if first_bad_filter(a) is Some {
            let i = choose|i: int|
                0 <= i < a.len() && !is_plain_host(filter_domain(#[trigger] a[i]));
            assert(!is_plain_host(filter_domain(args.include_domains@[i]@)));
        } else {
            let i = choose|i: int|
                0 <= i < b.len() && !is_plain_host(filter_domain(#[trigger] b[i]));
            assert(!is_plain_host(filter_domain(args.exclude_domains@[i]@)));
        }
    }
}

proof fn lemma_spaced_holds(terms: Seq<Seq<char>>, i: int)
    requires
        0 <= i < terms.len(),
    ensures
        occurs(spaced(terms), " "@ + terms[i]),
    decreases terms.len(),
{
    let front = terms.drop_last();
    let all = spaced(terms);
    let head = spaced(front);
    if i == terms.len() - 1 {
        let tail = " "@ + terms[i];
        assert(all.subrange(head.len() as int, (head.len() + tail.len()) as int) =~= tail);
        assert(has_at(all, tail, head.len() as int));
    } else {
        lemma_spaced_holds(front, i);
        assert(front[i] == terms[i]);
        assert(all.subrange(0, head.len() as int) =~= head);
        assert(has_at(all, head, 0));
        lemma_occurs_within(all, head, " "@ + terms[i]);
    }
}

proof fn lemma_joined_holds(parts: Seq<Seq<char>>, sep: Seq<char>, i: int)
    requires
        0 <= i < parts.len(),
    ensures
        occurs(joined(parts, sep), parts[i]),
    decreases parts.len(),
{
    let all = joined(parts, sep);
    if parts.len() == 1 {
        assert(all.subrange(0, all.len() as int) =~= parts[i]);
        assert(has_at(all, parts[i], 0));
    } else {
        let front = parts.drop_last();
        let head = joined(front, sep);
        if i == parts.len() - 1 {
            let at = head.len() + sep.len();
            assert(all.subrange(at as int, (at + parts[i].len()) as int) =~= parts[i]);
            assert(has_at(all, parts[i], at as int));
        } else {
            lemma_joined_holds(front, sep, i);
            assert(front[i] == parts[i]);
            assert(all.subrange(0, head.len() as int) =~= head);
            assert(has_at(all, head, 0));
            lemma_occurs_within(all, head, parts[i]);
        }
    }
}

/// The query that is sent begins with the query that was asked, asks for each domain that is
/// included and turns down each one that is excluded, whatever the other filters are. Without
/// filters it is the query that was asked.
pub proof fn law_queries_carry_their_filters(args: WebSearchArgs)
    ensures
        query_of(args) matches Ok(q) ==> {
            &&& has_at(q, args.query@, 0)
            &&& forall|i: int|
                0 <= i < args.include_domains@.len() ==> occurs(
                    q,
                    "site:"@ + filter_domain((#[trigger] args.include_domains@[i])@),
                )
            &&& forall|i: int|
                0 <= i < args.exclude_domains@.len() ==> occurs(
                    q,
                    " -site:"@ + filter_domain((#[trigger] args.exclude_domains@[i])@),
                )
            &&& args.include_domains@.len() == 0 && args.exclude_domains@.len() == 0 ==> q
                == args.query@
        },
{
    if query_of(args) is Ok {
        let q = query_of(args)->Ok_0;
        let query = args.query@;
        let a = texts(args.include_domains@);
        let b = texts(args.exclude_domains@);
        let only = filter_terms("site:"@, a);
        let none = filter_terms("-site:"@, b);
        let head = if only.len() == 0 {
            query
        } else {
            query + " ("@ + joined(only, " OR "@) + ")"@
        };
        let tail = spaced(none);
        assert(q =~= head + tail);
        assert(q.subrange(0, query.len() as int) =~= query);
        assert(q.subrange(0, head.len() as int) =~= head);
        assert(has_at(q, head, 0));
        assert(q.subrange(head.len() as int, (head.len() + tail.len()) as int) =~= tail);
        assert(has_at(q, tail, head.len() as int));
        assert forall|i: int| 0 <= i < args.include_domains@.len() implies occurs(
            q,
            "site:"@ + filter_domain((#[trigger] args.include_domains@[i])@),
        ) by {
            assert(a[i] == args.include_domains@[i]@);
            assert(only[i] == "site:"@ + filter_domain(a[i]));
            let middle = joined(only, " OR "@);
            let at = query.len() + " ("@.len();
            assert(head.subrange(at as int, (at + middle.len()) as int) =~= middle);
            assert(has_at(head, middle, at as int));
            lemma_joined_holds(only, " OR "@, i);
            lemma_occurs_within(head, middle, only[i]);
            lemma_occurs_within(q, head, only[i]);
        }
        assert forall|i: int| 0 <= i < args.exclude_domains@.len() implies occurs(
            q,
            " -site:"@ + filter_domain((#[trigger] args.exclude_domains@[i])@),
        ) by {
            assert(b[i] == args.exclude_domains@[i]@);
            reveal_strlit(" ");
            reveal_strlit("-site:");
            reveal_strlit(" -site:");
            assert(" "@ + none[i] =~= " -site:"@ + filter_domain(b[i]));
            lemma_spaced_holds(none, i);
            lemma_occurs_within(q, tail, " "@ + none[i]);
        }
    }
}

/// One more domain to leave out stands at the end of the query, and nothing else changes.
pub proof fn law_excludes_are_appended(a: WebSearchArgs, b: WebSearchArgs, raw: Seq<char>)
    requires
        a.query@ == b.query@,
        texts(a.include_domains@) == texts(b.include_domains@),
        texts(b.exclude_domains@) == texts(a.exclude_domains@).push(raw),
    ensures
        query_of(a) is Ok && is_plain_host(filter_domain(raw)) ==> query_of(b) == Ok::<
            Seq<char>,
            Seq<char>,
        >(query_of(a)->Ok_0 + " -site:"@ + filter_domain(raw)),
        query_of(a) is Ok && !is_plain_host(filter_domain(raw)) ==> query_of(b) == Err::<
            Seq<char>,
            Seq<char>,
        >("invalid domain filter: "@ + filter_domain(raw)),
        query_of(a) is Err ==> query_of(b) == query_of(a),
{
    let x = texts(a.exclude_domains@);
    let y = texts(b.exclude_domains@);
    assert(y.drop_last() =~= x);
    assert(y.last() == raw);
    lemma_plain_host(filter_domain(raw));
    let ta = filter_terms("-site:"@, x);
    let tb = filter_terms("-site:"@, y);
    assert(tb =~= ta.push("-site:"@ + filter_domain(raw)));
    assert(tb.drop_last() =~= ta);
    reveal_strlit(" ");
    reveal_strlit("-site:");
    reveal_strlit(" -site:");
    if query_of(b) is Ok {
        assert(query_of(b)->Ok_0 =~= query_of(a)->Ok_0 + " -site:"@ + filter_domain(raw));
    }
}

/// The domains to search in are alternatives in round brackets behind the query: the first one
/// opens the brackets, and each further one stands behind the others in them.
pub proof fn law_includes_are_alternatives(a: WebSearchArgs, b: WebSearchArgs, raw: Seq<char>)
    requires
        a.query@ == b.query@,
        a.exclude_domains@.len() == 0 && b.exclude_domains@.len() == 0,
        texts(b.include_domains@) == texts(a.include_domains@).push(raw),
    ensures
        query_of(a) is Ok && is_plain_host(filter_domain(raw)) && a.include_domains@.len() == 0
            ==> query_of(b) == Ok::<Seq<char>, Seq<char>>(
            a.query@ + " (site:"@ + filter_domain(raw) + ")"@,
        ),
        query_of(a) is Ok && is_plain_host(filter_domain(raw)) && a.include_domains@.len() > 0
            ==> query_of(b) == Ok::<Seq<char>, Seq<char>>(
            query_of(a)->Ok_0.drop_last() + " OR site:"@ + filter_domain(raw) + ")"@,
        ),
        query_of(a) is Ok && !is_plain_host(filter_domain(raw)) ==> query_of(b) == Err::<
            Seq<char>,
            Seq<char>,
        >("invalid domain filter: "@ + filter_domain(raw)),
{
    let x = texts(a.include_domains@);
    let y = texts(b.include_domains@);
    assert(y.drop_last() =~= x);
    assert(y.last() == raw);
    assert(texts(a.exclude_domains@) =~= Seq::empty());
    assert(texts(b.exclude_domains@) =~= Seq::empty());
    lemma_plain_host(filter_domain(raw));
    let ta = filter_terms("site:"@, x);
    let tb = filter_terms("site:"@, y);
    assert(tb =~= ta.push("site:"@ + filter_domain(raw)));
    assert(tb.drop_last() =~= ta);
    reveal_strlit("site:");
    reveal_strlit(" (");
    reveal_strlit(" OR ");
    reveal_strlit(" (site:");
    reveal_strlit(" OR site:");
    reveal_strlit(")");
    assert(" ("@ + "site:"@ =~= " (site:"@);
    assert(" OR "@ + "site:"@ =~= " OR site:"@);
    let none = filter_terms("-site:"@, Seq::<Seq<char>>::empty());
    assert(none =~= Seq::empty());
    if query_of(b) is Ok {
        if a.include_domains@.len() == 0 {
            assert(x =~= Seq::empty());
            assert(query_of(b)->Ok_0 =~= a.query@ + " (site:"@ + filter_domain(raw) + ")"@);
        } else {
            assert(query_of(b)->Ok_0 =~= query_of(a)->Ok_0.drop_last() + " OR site:"@
                + filter_domain(raw) + ")"@);
        }
    }
}

/// A search is made if and only if the family is enabled, the number of results lies between one
/// and the cap, the freshness is a day, a month or a year where one is given, the filters are
/// plain and there is a place in flight. It then asks for the number that was given, or else for
/// the cap.
pub proof fn law_searches_that_are_made(p: PolicyView, args: WebSearchArgs, call: CallView)
    ensures
        ({
            let wanted = match args.max_results {
                Some(n) => n,
                None => p.limits.search_max_results,
            };
            let range = opt_text(args.time_range);
            let fresh = range is None || range->0 == "day"@ || range->0 == "month"@ || range->0
                == "year"@;
            let v = search_verdict(p, args, call);
            &&& v is Ok <==> p.families.search && 1 <= wanted <= p.limits.search_max_results
                && fresh && query_of(args) is Ok && p.inflight < p.limits.inflight_max
            &&& v is Ok ==> v->Ok_0.0 == query_of(args)->Ok_0 && v->Ok_0.1 == wanted
            &&& v is Err ==> v->Err_0.reply is Error && v->Err_0.fetch is None
            &&& !p.families.search ==> v is Err && v->Err_0.reply->Error_0.reason
                == "family_disabled:search"@
            &&& p.families.search && 1 <= wanted <= p.limits.search_max_results && !fresh
                ==> v->Err_0.reply->Error_0.reason == "bad_time_range"@ && v->Err_0.audit is None
            &&& p.families.search && 1 <= wanted <= p.limits.search_max_results && fresh
                && query_of(args) is Err ==> v->Err_0.reply->Error_0.reason == "bad_domain_filter"@
                && v->Err_0.reply->Error_0.detail == query_of(args)->Err_0
            &&& p.families.search && 1 <= wanted <= p.limits.search_max_results && fresh
                && query_of(args) is Ok && p.inflight >= p.limits.inflight_max
                ==> v->Err_0.denial == Some("inflight_full"@)
        }),
{
}

/// The results of a search become its hits one for one, ranked from one on in the order in which
/// they came, and the answer lists the hits with all that is known of them.
pub proof fn law_results_become_hits(call: CallView, query: Seq<char>, results: Seq<ResultView>)
    ensures
        ranked_hits(results).len() == results.len(),
        forall|i: int|
            0 <= i < results.len() ==> {
                let h = #[trigger] ranked_hits(results)[i];
                let r = results[i];
                &&& i < usize::MAX ==> h.rank == i + 1
                &&& h.url == r.url && h.title == r.title && h.snippet == r.snippet
                &&& h.engine == r.engine && h.engines == r.engines && h.score == r.score
                &&& h.published_at == r.published_at
            },
        ({
            let o = search_outcome(call, query, Ok(results));
            let e = o.reply->Envelope_0;
            &&& o.reply is Envelope && o.denial is None && o.fetch is None
            &&& o.audit is Some && o.audit->0.entry_id == call.audit_id && o.audit->0.error is None
            &&& e.source.url == "search:"@ + query
            &&& e.source.provider == "searxng"@
            &&& e.content is Array && e.content->Array_0.len() == results.len()
            &&& forall|i: int|
                0 <= i < results.len() ==> {
                    let item = #[trigger] e.content->Array_0[i];
                    let r = results[i];
                    &&& i < usize::MAX ==> says(item, "rank"@, JsonView::Unsigned((i + 1) as u64))
                    &&& says(item, "url"@, JsonView::Text(r.url))
                    &&& says(item, "title"@, JsonView::Text(r.title))
                    &&& says(item, "snippet"@, JsonView::Text(r.snippet))
                    &&& says(item, "engine"@, JsonView::Text(r.engine))
                    &&& says(item, "engines"@, text_array(r.engines))
                    &&& says(item, "published_at"@, text_or_null(r.published_at))
                    &&& r.score is Some ==> says(item, "score"@, JsonView::Fraction(r.score->0))
                    &&& r.score is None ==> says(item, "score"@, JsonView::Null)
                }
        }),
{
    let e = search_outcome(call, query, Ok(results)).reply->Envelope_0;
    assert forall|i: int| 0 <= i < results.len() implies {
        let item = #[trigger] e.content->Array_0[i];
        let r = results[i];
        &&& i < usize::MAX ==> says(item, "rank"@, JsonView::Unsigned((i + 1) as u64))
        &&& says(item, "url"@, JsonView::Text(r.url))
        &&& says(item, "title"@, JsonView::Text(r.title))
        &&& says(item, "snippet"@, JsonView::Text(r.snippet))
        &&& says(item, "engine"@, JsonView::Text(r.engine))
        &&& says(item, "engines"@, text_array(r.engines))
        &&& says(item, "published_at"@, text_or_null(r.published_at))
        &&& r.score is Some ==> says(item, "score"@, JsonView::Fraction(r.score->0))
        &&& r.score is None ==> says(item, "score"@, JsonView::Null)
    } by {
        let item = e.content->Array_0[i];
        assert(item == hit_json(ranked_hits(results)[i]));
        lemma_says(item);
        let m = item->Object_0;
        assert(m[0].0 == "rank"@ && m[1].0 == "url"@ && m[2].0 == "title"@ && m[3].0 == "snippet"@
            && m[4].0 == "engine"@ && m[5].0 == "engines"@ && m[6].0 == "score"@ && m[7].0
            == "published_at"@);
    }
}

/// A search that the service fails is answered, counted and recorded as an error of the service,
/// with the message of the failure.
pub proof fn law_failed_searches_are_told(call: CallView, query: Seq<char>, e: FailureView)
    ensures
        ({
            let o = search_outcome(call, query, Err(e));
            &&& o.reply is Error && o.reply->Error_0.kind == "backend_error"@
            &&& o.reply->Error_0.reason == "searxng"@
            &&& o.reply->Error_0.detail == failure_message(e)
            &&& o.call == Some((call.tool, "error"@))
            &&& o.audit is Some && o.audit->0.outcome == "error"@
            &&& o.fetch is None
        }),
{
}

/// A search is recorded under its tool, with what it asks for, its identifier and its time.
pub proof fn law_searches_are_recorded_as_made(args: WebSearchArgs, audit_id: Seq<char>, now: i64)
    ensures
        search_call(args, audit_id, now).tool == "web_search"@,
        search_call(args, audit_id, now).args == JsonView::Object(args.members()),
        search_call(args, audit_id, now).audit_id == audit_id,
        search_call(args, audit_id, now).now == now,
{
}

/// Wildcards before a domain are taken off, however many there are, and nothing else.
pub proof fn law_wildcards_are_taken_off(s: Seq<char>)
    ensures
        without_wildcards("*."@ + s) == without_wildcards(s),
        s.len() < 2 || s[0] != '*' || s[1] != '.' ==> without_wildcards(s) == s,
{
    reveal_strlit("*.");
    let starred = "*."@ + s;
    assert(starred.subrange(0, 2) =~= "*."@);
    assert(starred.skip(2) =~= s);
    if s.len() >= 2 {
        assert(s.subrange(0, 2)[0] == s[0] && s.subrange(0, 2)[1] == s[1]);
    }
}

/// A search that is not made is answered with the kind of the refusal, its reason and what is
/// wrong: a disabled family, a number of results beyond the cap, which the reason names, a
/// freshness that there is not, a filter that is no plain host, or no place in flight.
pub proof fn law_refused_searches_are_explained(p: PolicyView, args: WebSearchArgs, call: CallView)
    ensures
        ({
            let wanted = match args.max_results {
                Some(n) => n,
                None => p.limits.search_max_results,
            };
            let sized = 1 <= wanted <= p.limits.search_max_results;
            let range = opt_text(args.time_range);
            let fresh = range is None || range->0 == "day"@ || range->0 == "month"@ || range->0
                == "year"@;
            let e = search_verdict(p, args, call)->Err_0.reply->Error_0;
            &&& !p.families.search ==> e.kind == "policy_denied"@ && e.detail
                == "search family disabled"@
            &&& p.families.search && !sized ==> e.kind == "policy_denied"@ && e.reason
                == "search_max_results:"@ + decimal(p.limits.search_max_results as nat) && e.detail
                == "result cap exceeded"@
            &&& p.families.search && sized && !fresh ==> e.kind == "invalid_argument"@ && e.detail
                == "time_range must be day, month, or year"@ && e.audit_id == Some(call.audit_id)
            &&& p.families.search && sized && fresh && query_of(args) is Err ==> e.kind
                == "invalid_argument"@ && e.audit_id == Some(call.audit_id)
            &&& p.families.search && sized && fresh && query_of(args) is Ok && p.inflight
                >= p.limits.inflight_max ==> e.kind == "policy_denied"@ && e.detail
                == "concurrent fetch limit reached"@
        }),
{
}

} // verus!
