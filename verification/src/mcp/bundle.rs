//! Collecting evidence for a research assignment, within hard bounds and once.
use vstd::prelude::*;

use crate::backends::firecrawl::ScrapeView;
use crate::envelope::{
    envelope_json, provenance_json, source_json, wrap_footer, wrap_header, wrapped,
};
use crate::json::{
    first_member, lemma_member_at, lemma_says, member_views, says, text_array, text_or_null, views, Json,
    JsonView,
};
use crate::mcp::domain::{
    hit_views, size_or_null, HitView, SearchHit, WebCollectEvidenceArgs, WebScrapeArgs,
    WebSearchArgs, WebVerifyQuoteArgs,
};
use crate::mcp::fetch::evidence::{
    content_of, law_verified_quotes_are_exact, verified_json, verify_outcome,
};
use crate::mcp::fetch::scrape::scrape_outcome;
use crate::mcp::outcome::{
    envelope_reply, refuse, refused, reply_json, source_of, Call, CallView, Outcome, OutcomeView, Reply,
    ReplyView,
};
use crate::mcp::passages::{first_chars, lemma_occurs_within, lemma_trimmed_occurs, take_chars};
use crate::store::{hash_of, BundleView, FetchView, ResearchBundleRecord};
use crate::text::{
    byte_len, char_is_whitespace, chars_of, copy_opt, copy_texts, drop_leading, drop_trailing, find_from, first_at,
    has_at, list_has, occurs, opt_text, same_text, slice_text, texts, trim, trim_end, trim_start,
    trimmed, trimmed_end, trimmed_start, utf8_len, white,
};

verus! {

/// The most queries that an assignment may have.
pub const MAX_QUERIES: usize = 6;

/// How many sources are collected where nothing is said.
pub const DEFAULT_SOURCES: usize = 6;

/// The most sources that an assignment may ask for.
pub const MAX_SOURCES: usize = 8;

/// The most pages that are fetched for an assignment.
pub const MAX_SCRAPE_ATTEMPTS: usize = 12;

/// How many results each search asks for.
pub const SEARCH_RESULTS_PER_QUERY: usize = 8;

/// The most characters of an excerpt.
pub const EXCERPT_CHARS: usize = 4000;

// ---------------------------------------------------------------------------
// The assignment
// ---------------------------------------------------------------------------
/// Queries without white space around them, without empty ones, and each once.
pub open spec fn clean_queries(queries: Seq<Seq<char>>) -> Seq<Seq<char>>
    decreases queries.len(),
{
    if queries.len() == 0 {
        Seq::empty()
    } else {
        let before = clean_queries(queries.drop_last());
        let q = trimmed(queries.last());
        if q.len() == 0 || before.contains(q) {
            before
        } else {
            before.push(q)
        }
    }
}

fn tidy_queries(queries: &Vec<String>) -> (res: Vec<String>)
    ensures
        texts(res@) == clean_queries(texts(queries@)),
{
    let ghost all = texts(queries@);
    let mut out: Vec<String> = Vec::new();
    let mut i: usize = 0;
    assert(texts(out@) =~= clean_queries(all.take(0)));
    while i < queries.len()
        invariant
            all == texts(queries@),
            i <= queries@.len(),
            texts(out@) == clean_queries(all.take(i as int)),
        decreases queries@.len() - i,
    {
        let ghost before = out@;
        proof {
            assert(all.take(i + 1).drop_last() =~= all.take(i as int));
            assert(all.take(i + 1).last() == queries@[i as int]@);
        }
        let q = trim(&queries[i]);
        let length: usize = chars_of(&q).len();
        if length > 0 && !list_has(&out, &q) {
            out.push(q);
            assert(texts(out@) =~= texts(before).push(q@));
        }
        i = i + 1;
    }
    assert(all.take(all.len() as int) =~= all);
    out
}

/// The JSON form of an assignment once it is tidy, by whose hash it is known again.
pub open spec fn request_json(args: WebCollectEvidenceArgs) -> JsonView {
    JsonView::Object(
        seq![
            ("assignment_id"@, JsonView::Text(trimmed(args.assignment_id@))),
            ("queries"@, text_array(clean_queries(texts(args.queries@)))),
            ("max_sources"@, size_or_null(args.max_sources)),
            ("time_range"@, text_or_null(opt_text(args.time_range))),
            ("include_domains"@, text_array(texts(args.include_domains@))),
            ("exclude_domains"@, text_array(texts(args.exclude_domains@))),
        ],
    )
}

/// An assignment without white space around its identifier and its queries.
pub fn tidy_args(args: WebCollectEvidenceArgs) -> (res: WebCollectEvidenceArgs)
    ensures
        JsonView::Object(res.members()) == request_json(args),
        res.assignment_id@ == trimmed(args.assignment_id@),
        texts(res.queries@) == clean_queries(texts(args.queries@)),
        res.max_sources == args.max_sources,
        res.time_range == args.time_range,
        res.include_domains == args.include_domains,
        res.exclude_domains == args.exclude_domains,
{
    WebCollectEvidenceArgs {
        assignment_id: trim(&args.assignment_id),
        queries: tidy_queries(&args.queries),
        max_sources: args.max_sources,
        time_range: args.time_range,
        include_domains: args.include_domains,
        exclude_domains: args.exclude_domains,
    }
}

/// The most sources that an assignment asks for.
pub open spec fn sources_wanted(max_sources: Option<usize>) -> usize {
    match max_sources {
        Some(n) => n,
        None => DEFAULT_SOURCES,
    }
}

/// What is said of a tidy assignment: how many sources to collect, or why it is refused.
pub open spec fn assignment_verdict(
    assignment_id: Seq<char>,
    queries: nat,
    max_sources: Option<usize>,
    audit_id: Seq<char>,
) -> Result<usize, OutcomeView> {
    if assignment_id.len() == 0 || utf8_len(assignment_id) > 256 {
        Err(
            refused(
                "invalid_argument"@,
                "bad_assignment_id"@,
                "assignment_id must contain 1 through 256 characters"@,
                Some(audit_id),
            ),
        )
    } else if queries == 0 || queries > MAX_QUERIES {
        Err(
            refused(
                "invalid_argument"@,
                "bad_query_count"@,
                "queries must contain 1 through 6 non-empty entries"@,
                Some(audit_id),
            ),
        )
    } else if sources_wanted(max_sources) < 1 || sources_wanted(max_sources) > MAX_SOURCES {
        Err(
            refused(
                "invalid_argument"@,
                "bad_source_count"@,
                "max_sources must be between 1 and 8"@,
                Some(audit_id),
            ),
        )
    } else {
        Ok(sources_wanted(max_sources))
    }
}

/// Checks a tidy assignment: how many sources to collect, or why it is refused.
pub fn check_assignment(args: &WebCollectEvidenceArgs, audit_id: &str) -> (res: Result<
    usize,
    Outcome,
>)
    ensures
        assignment_verdict(args.assignment_id@, args.queries@.len(), args.max_sources, audit_id@)
            == match res {
            Ok(n) => Ok::<usize, OutcomeView>(n),
            Err(outcome) => Err::<usize, OutcomeView>(outcome@),
        },
{
    let length: usize = chars_of(&args.assignment_id).len();
    if length == 0 || byte_len(&args.assignment_id) > 256 {
        return Err(
            refuse(
                "invalid_argument",
                "bad_assignment_id",
                "assignment_id must contain 1 through 256 characters",
                Some(audit_id.to_owned()),
            ),
        );
    }
    if args.queries.len() == 0 || args.queries.len() > MAX_QUERIES {
        return Err(
            refuse(
                "invalid_argument",
                "bad_query_count",
                "queries must contain 1 through 6 non-empty entries",
                Some(audit_id.to_owned()),
            ),
        );
    }
    let wanted: usize = match args.max_sources {
        Some(n) => n,
        None => DEFAULT_SOURCES,
    };
    if wanted < 1 || wanted > MAX_SOURCES {
        return Err(
            refuse(
                "invalid_argument",
                "bad_source_count",
                "max_sources must be between 1 and 8",
                Some(audit_id.to_owned()),
            ),
        );
    }
    Ok(wanted)
}

// ---------------------------------------------------------------------------
// The stored answer
// ---------------------------------------------------------------------------
/// What the store says of an assignment.
pub enum Lookup {
    /// It has no answer yet.
    Fresh,
    /// It has an answer to other inputs.
    Conflict(Outcome),
    /// It has an answer, given as it was stored.
    Reuse(String),
}

/// What the store says of an assignment, as a mathematical value.
pub enum LookupView {
    Fresh,
    Conflict(OutcomeView),
    Reuse(Seq<char>),
}

impl View for Lookup {
    type V = LookupView;

    open spec fn view(&self) -> LookupView {
        match *self {
            Lookup::Fresh => LookupView::Fresh,
            Lookup::Conflict(o) => LookupView::Conflict(o@),
            Lookup::Reuse(s) => LookupView::Reuse(s@),
        }
    }
}

/// What a stored answer means for an assignment with some hash of its inputs.
pub open spec fn looked_up(
    record: Option<BundleView>,
    request_hash: Seq<char>,
    audit_id: Seq<char>,
) -> LookupView {
    match record {
        None => LookupView::Fresh,
        Some(r) => if r.request_hash != request_hash {
            LookupView::Conflict(
                refused(
                    "invalid_argument"@,
                    "assignment_conflict"@,
                    "assignment_id already has a bundle with different inputs"@,
                    Some(audit_id),
                ),
            )
        } else {
            LookupView::Reuse(r.response_json)
        },
    }
}

/// Says what a stored answer means for an assignment with some hash of its inputs.
pub fn look_up(record: Option<ResearchBundleRecord>, request_hash: &str, audit_id: &str) -> (res:
    Lookup)
    ensures
        res@ == looked_up(
            match record {
                Some(r) => Some(r@),
                None => None,
            },
            request_hash@,
            audit_id@,
        ),
{
    match record {
        None => Lookup::Fresh,
        Some(r) => if !same_text(&r.request_hash, request_hash) {
            Lookup::Conflict(
                refuse(
                    "invalid_argument",
                    "assignment_conflict",
                    "assignment_id already has a bundle with different inputs",
                    Some(audit_id.to_owned()),
                ),
            )
        } else {
            Lookup::Reuse(r.response_json)
        },
    }
}

/// Members with one of them set: in its place where it is there, or else at the end.
pub open spec fn with_member(
    m: Seq<(Seq<char>, JsonView)>,
    key: Seq<char>,
    value: JsonView,
) -> Seq<(Seq<char>, JsonView)>
    decreases m.len(),
{
    if m.len() == 0 {
        seq![(key, value)]
    } else if m[0].0 == key {
        seq![(key, value)] + m.drop_first()
    } else {
        seq![m[0]] + with_member(m.drop_first(), key, value)
    }
}

/// The members of an object; a missing value counts as one without members.
pub open spec fn members_or_none(v: Option<JsonView>) -> Option<Seq<(Seq<char>, JsonView)>> {
    match v {
        None => Some(Seq::empty()),
        Some(JsonView::Null) => Some(Seq::empty()),
        Some(JsonView::Object(m)) => Some(m),
        _ => None,
    }
}

/// A stored answer, marked as one; none where what was stored is no answer.
pub open spec fn marked_cached(v: JsonView) -> Option<JsonView> {
    match members_or_none(Some(v)) {
        None => None,
        Some(m) => match members_or_none(v.member("content"@)) {
            None => None,
            Some(content) => Some(
                JsonView::Object(
                    with_member(
                        m,
                        "content"@,
                        JsonView::Object(
                            with_member(content, "cached"@, JsonView::Bool(true)),
                        ),
                    ),
                ),
            ),
        },
    }
}

fn set_member(members: Vec<(String, Json)>, key: &str, value: Json) -> (res: Vec<(String, Json)>)
    ensures
        member_views(res@) == with_member(member_views(members@), key@, value@),
{
    let mut rest = members;
    let ghost all = member_views(members@);
    let ghost goal = with_member(all, key@, value@);
    let mut out: Vec<(String, Json)> = Vec::new();
    assert(member_views(out@) + with_member(all, key@, value@) =~= goal);
    while rest.len() > 0
        invariant
            goal == with_member(member_views(members@), key@, value@),
            goal == member_views(out@) + with_member(member_views(rest@), key@, value@),
        decreases rest@.len(),
    {
        let ghost before = out@;
        let ghost had = rest@;
        let m = rest.remove(0);
        proof {
            assert(member_views(had)[0] == (m.0@, m.1@));
            assert(member_views(had).drop_first() =~= member_views(rest@));
        }
        if same_text(&m.0, key) {
            out.push((key.to_owned(), value));
            proof {
                assert(member_views(out@) =~= member_views(before).push((key@, value@)));
                assert(goal =~= member_views(out@) + member_views(rest@));
            }
            while rest.len() > 0
                invariant
                    goal == with_member(member_views(members@), key@, value@),
                    goal == member_views(out@) + member_views(rest@),
                decreases rest@.len(),
            {
                let ghost b = out@;
                let ghost h = rest@;
                let x = rest.remove(0);
                out.push(x);
                proof {
                    assert(member_views(out@) =~= member_views(b).push((x.0@, x.1@)));
                    assert(member_views(h) =~= seq![(x.0@, x.1@)] + member_views(rest@));
                    assert(member_views(b) + member_views(h) =~= member_views(out@) + member_views(
                        rest@,
                    ));
                }
            }
            assert(member_views(out@) + member_views(rest@) =~= member_views(out@));
            return out;
        }
        out.push(m);
        proof {
            assert(member_views(out@) =~= member_views(before).push((m.0@, m.1@)));
            assert(member_views(before) + (seq![(m.0@, m.1@)] + with_member(
                member_views(rest@),
                key@,
                value@,
            )) =~= member_views(out@) + with_member(member_views(rest@), key@, value@));
        }
    }
    let ghost before = out@;
    out.push((key.to_owned(), value));
    proof {
        assert(member_views(rest@).len() == 0);
        assert(member_views(out@) =~= member_views(before).push((key@, value@)));
        assert(goal =~= member_views(out@));
    }
    out
}

fn members_of(v: Option<Json>) -> (res: Option<Vec<(String, Json)>>)
    ensures
        members_or_none(
            match v {
                Some(j) => Some(j@),
                None => None,
            },
        ) == match res {
            Some(m) => Some(member_views(m@)),
            None => None,
        },
{
    let none: Vec<(String, Json)> = Vec::new();
    assert(member_views(none@) =~= Seq::empty());
    match v {
        None => Some(none),
        Some(Json::Null) => Some(none),
        Some(Json::Object(m)) => {
            proof {
                Json::lemma_object(m);
            }
            Some(m)
        },
        Some(_) => None,
    }
}

/// Marks a stored answer as one; none where what was stored is no answer.
pub fn mark_cached(v: Json) -> (res: Option<Json>)
    ensures
        marked_cached(v@) == match res {
            Some(j) => Some(j@),
            None => None,
        },
{
    let content = match v.get("content") {
        Some(c) => Some(c.copy()),
        None => None,
    };
    let members = match members_of(Some(v)) {
        Some(m) => m,
        None => {
            return None;
        },
    };
    let inner = match members_of(content) {
        Some(m) => m,
        None => {
            return None;
        },
    };
    let marked = Json::object(set_member(inner, "cached", Json::Bool(true)));
    Some(Json::object(set_member(members, "content", marked)))
}

/// What a stored answer comes to: it is counted as one that was stored, and given as it was
/// then, but marked; none where what was stored is no answer.
pub open spec fn reuse_outcome(stored: JsonView) -> Option<OutcomeView> {
    match marked_cached(stored) {
        None => None,
        Some(answer) => Some(
            OutcomeView {
                denial: None,
                call: Some(("web_collect_evidence"@, "cached"@)),
                audit: None,
                fetch: None,
                reply: ReplyView::Plain(answer),
            },
        ),
    }
}

/// Says what a stored answer comes to; none where what was stored is no answer.
pub fn reuse(stored: Json) -> (res: Option<Outcome>)
    ensures
        reuse_outcome(stored@) == match res {
            Some(o) => Some(o@),
            None => None,
        },
{
    match mark_cached(stored) {
        None => None,
        Some(answer) => Some(
            Outcome {
                denial: None,
                call: Some(("web_collect_evidence".to_owned(), "cached".to_owned())),
                audit: None,
                fetch: None,
                reply: Reply::Plain(answer),
            },
        ),
    }
}

// ---------------------------------------------------------------------------
// Candidates
// ---------------------------------------------------------------------------
/// One of some hits has a URL.
pub open spec fn has_url(s: Seq<HitView>, url: Seq<char>) -> bool {
    exists|i: int| 0 <= i < s.len() && (#[trigger] s[i]).url == url
}

/// Candidates with one more hit, unless its URL is among them.
pub open spec fn with_hit(s: Seq<HitView>, hit: HitView) -> Seq<HitView> {
    if has_url(s, hit.url) {
        s
    } else {
        s.push(hit)
    }
}

/// Candidates with the hits of one rank of the first searches.
pub open spec fn with_rank(
    s: Seq<HitView>,
    searches: Seq<Seq<HitView>>,
    rank: int,
    n: nat,
) -> Seq<HitView>
    decreases n,
{
    if n == 0 {
        s
    } else {
        let before = with_rank(s, searches, rank, (n - 1) as nat);
        if rank < searches[n - 1].len() {
            with_hit(before, searches[n - 1][rank])
        } else {
            before
        }
    }
}

/// The candidates of the first ranks of all searches: rank by rank, and in each rank search by
/// search.
pub open spec fn interleaved(searches: Seq<Seq<HitView>>, ranks: nat) -> Seq<HitView>
    decreases ranks,
{
    if ranks == 0 {
        Seq::empty()
    } else {
        with_rank(
            interleaved(searches, (ranks - 1) as nat),
            searches,
            ranks - 1,
            searches.len(),
        )
    }
}

/// The views of some searches.
pub open spec fn searches_view(v: Seq<Vec<SearchHit>>) -> Seq<Seq<HitView>> {
    v.map_values(|hits: Vec<SearchHit>| hit_views(hits@))
}

fn knows_url(s: &Vec<SearchHit>, url: &str) -> (res: bool)
    ensures
        res == has_url(hit_views(s@), url@),
{
    let mut i: usize = 0;
    while i < s.len()
        invariant
            i <= s@.len(),
            forall|k: int| 0 <= k < i ==> (#[trigger] hit_views(s@)[k]).url != url@,
        decreases s@.len() - i,
    {
        assert(hit_views(s@)[i as int] == s@[i as int]@);
        if same_text(&s[i].url, url) {
            return true;
        }
        i = i + 1;
    }
    false
}

/// The candidates of all searches, the best ranks first, each URL once.
pub fn interleave(searches: &Vec<Vec<SearchHit>>) -> (res: Vec<SearchHit>)
    ensures
        hit_views(res@) == interleaved(searches_view(searches@), SEARCH_RESULTS_PER_QUERY as nat),
{
    let ghost all = searches_view(searches@);
    let mut out: Vec<SearchHit> = Vec::new();
    let mut rank: usize = 0;
    assert(hit_views(out@) =~= interleaved(all, 0));
    while rank < SEARCH_RESULTS_PER_QUERY
        invariant
            all == searches_view(searches@),
            rank <= SEARCH_RESULTS_PER_QUERY,
            hit_views(out@) == interleaved(all, rank as nat),
        decreases SEARCH_RESULTS_PER_QUERY - rank,
    {
        let ghost start = hit_views(out@);
        let mut n: usize = 0;
        while n < searches.len()
            invariant
                all == searches_view(searches@),
                n <= searches@.len(),
                hit_views(out@) == with_rank(start, all, rank as int, n as nat),
            decreases searches@.len() - n,
        {
            assert(all[n as int] == hit_views(searches@[n as int]@));
            if rank < searches[n].len() {
                let hit = &searches[n][rank];
                assert(all[n as int][rank as int] == hit@);
                if !knows_url(&out, &hit.url) {
                    let ghost before = out@;
                    out.push(hit.copy());
                    assert(hit_views(out@) =~= hit_views(before).push(hit@));
                }
            }
            n = n + 1;
        }
        assert(all.len() == searches@.len());
        rank = rank + 1;
    }
    out
}

// ---------------------------------------------------------------------------
// Sources
// ---------------------------------------------------------------------------
/// A source of the answer.
pub struct BundleSource {
    pub url: String,
    pub title: String,
    pub snippet: String,
    pub published_at: Option<String>,
    pub fetched_at: String,
    pub fetch_id: String,
    pub content_hash: String,
    pub bytes: u64,
    pub excerpt: String,
    pub verified_quote: String,
    pub quote_verified: bool,
}

/// A source of the answer as a mathematical value.
#[verifier::ext_equal]
pub struct BundleSourceView {
    pub url: Seq<char>,
    pub title: Seq<char>,
    pub snippet: Seq<char>,
    pub published_at: Option<Seq<char>>,
    pub fetched_at: Seq<char>,
    pub fetch_id: Seq<char>,
    pub content_hash: Seq<char>,
    pub bytes: u64,
    pub excerpt: Seq<char>,
    pub verified_quote: Seq<char>,
    pub quote_verified: bool,
}

impl View for BundleSource {
    type V = BundleSourceView;

    open spec fn view(&self) -> BundleSourceView {
        BundleSourceView {
            url: self.url@,
            title: self.title@,
            snippet: self.snippet@,
            published_at: opt_text(self.published_at),
            fetched_at: self.fetched_at@,
            fetch_id: self.fetch_id@,
            content_hash: self.content_hash@,
            bytes: self.bytes,
            excerpt: self.excerpt@,
            verified_quote: self.verified_quote@,
            quote_verified: self.quote_verified,
        }
    }
}

/// The JSON form of a source.
pub open spec fn bundle_source_json(s: BundleSourceView) -> JsonView {
    JsonView::Object(
        seq![
            ("url"@, JsonView::Text(s.url)),
            ("title"@, JsonView::Text(s.title)),
            ("snippet"@, JsonView::Text(s.snippet)),
            ("published_at"@, text_or_null(s.published_at)),
            ("fetched_at"@, JsonView::Text(s.fetched_at)),
            ("fetch_id"@, JsonView::Text(s.fetch_id)),
            ("content_hash"@, JsonView::Text(s.content_hash)),
            ("bytes"@, JsonView::Unsigned(s.bytes)),
            ("excerpt"@, JsonView::Text(s.excerpt)),
            ("verified_quote"@, JsonView::Text(s.verified_quote)),
            ("quote_verified"@, JsonView::Bool(s.quote_verified)),
        ],
    )
}

impl BundleSource {
    /// The JSON form.
    pub fn to_json(&self) -> (res: Json)
        ensures
            res@ == bundle_source_json(self@),
    {
        let members = vec![
            Json::field("url", Json::text(&self.url)),
            Json::field("title", Json::text(&self.title)),
            Json::field("snippet", Json::text(&self.snippet)),
            Json::field("published_at", Json::opt_text(&self.published_at)),
            Json::field("fetched_at", Json::text(&self.fetched_at)),
            Json::field("fetch_id", Json::text(&self.fetch_id)),
            Json::field("content_hash", Json::text(&self.content_hash)),
            Json::field("bytes", Json::Unsigned(self.bytes)),
            Json::field("excerpt", Json::text(&self.excerpt)),
            Json::field("verified_quote", Json::text(&self.verified_quote)),
            Json::field("quote_verified", Json::Bool(self.quote_verified)),
        ];
        assert(member_views(members@) =~= bundle_source_json(self@)->Object_0);
        Json::object(members)
    }
}

/// All that stands behind the first line of a text, or the text where it has one line.
pub open spec fn behind_first_line(s: Seq<char>) -> Seq<char> {
    match first_at(s, "\n"@, 0) {
        Some(at) => s.skip(at + 1),
        None => s,
    }
}

/// The beginning of a page's text, without the marker line before it.
pub open spec fn opening_quote(markdown: Seq<char>) -> Seq<char> {
    trimmed_end(first_chars(trimmed_start(behind_first_line(markdown)), 320))
}

/// A quote from the beginning of a page, by which the stored page can be checked.
pub fn verification_quote(markdown: &str) -> (res: String)
    ensures
        res@ == opening_quote(markdown@),
{
    let v = chars_of(markdown);
    let total: usize = v.len();
    let newline = chars_of("\n");
    proof {
        reveal_strlit("\n");
        crate::text::lemma_first_at(v@, newline@, 0);
    }
    let from: usize = match find_from(&v, &newline, 0) {
        Some(at) => at + 1,
        None => 0,
    };
    let body = slice_text(&v, from, total);
    proof {
        assert(body@ =~= v@.skip(from as int));
        assert(v@.skip(0) =~= v@);
    }
    trim_end(&take_chars(&trim_start(&body), 320))
}

// ---------------------------------------------------------------------------
// The collection
// ---------------------------------------------------------------------------
/// A collection under way.
pub struct Collector {
    assignment_id: String,
    queries: Vec<String>,
    time_range: Option<String>,
    include_domains: Vec<String>,
    exclude_domains: Vec<String>,
    max_sources: usize,
    searches: Vec<Vec<SearchHit>>,
    candidates: Vec<SearchHit>,
    attempts: usize,
    pending: Option<BundleSource>,
    sources: Vec<BundleSource>,
    failures: Vec<Json>,
}

/// A collection under way, as a mathematical value: the results of the searches so far, the
/// candidates once all searches are made, how many of them were tried, the source whose quote
/// is being checked, the sources so far and the failures so far.
#[verifier::ext_equal]
pub struct CollectorView {
    pub assignment_id: Seq<char>,
    pub queries: Seq<Seq<char>>,
    pub time_range: Option<Seq<char>>,
    pub include_domains: Seq<Seq<char>>,
    pub exclude_domains: Seq<Seq<char>>,
    pub max_sources: usize,
    pub searches: Seq<Seq<HitView>>,
    pub candidates: Seq<HitView>,
    pub attempts: nat,
    pub pending: Option<BundleSourceView>,
    pub sources: Seq<BundleSourceView>,
    pub failures: Seq<JsonView>,
}

/// The views of some sources.
pub open spec fn source_views(v: Seq<BundleSource>) -> Seq<BundleSourceView> {
    v.map_values(|s: BundleSource| s@)
}

impl View for Collector {
    type V = CollectorView;

    closed spec fn view(&self) -> CollectorView {
        CollectorView {
            assignment_id: self.assignment_id@,
            queries: texts(self.queries@),
            time_range: opt_text(self.time_range),
            include_domains: texts(self.include_domains@),
            exclude_domains: texts(self.exclude_domains@),
            max_sources: self.max_sources,
            searches: searches_view(self.searches@),
            candidates: hit_views(self.candidates@),
            attempts: self.attempts as nat,
            pending: match self.pending {
                Some(s) => Some(s@),
                None => None,
            },
            sources: source_views(self.sources@),
            failures: views(self.failures@),
        }
    }
}

/// What is recorded of a failure: the operation, the query or URL it was about, and the error.
pub open spec fn failure_json(
    operation: Seq<char>,
    key: Seq<char>,
    value: Seq<char>,
    error: JsonView,
) -> JsonView {
    JsonView::Object(
        seq![
            ("operation"@, JsonView::Text(operation)),
            (key, JsonView::Text(value)),
            ("error"@, error),
        ],
    )
}

fn failure_value(operation: &str, key: &str, value: &str, error: Json) -> (res: Json)
    ensures
        res@ == failure_json(operation@, key@, value@, error@),
{
    let members = vec![
        Json::field("operation", Json::text(operation)),
        Json::field(key, Json::text(value)),
        Json::field("error", error),
    ];
    assert(member_views(members@) =~= failure_json(operation@, key@, value@, error@)->Object_0);
    Json::object(members)
}

/// A collection with one more failure.
pub open spec fn with_failure(c: CollectorView, failure: JsonView) -> CollectorView {
    CollectorView { failures: c.failures.push(failure), ..c }
}

/// A collection after the next search: its hits, or its error. After the last one the
/// candidates are known.
pub open spec fn after_search(
    c: CollectorView,
    reply: JsonView,
    hits: Seq<HitView>,
) -> CollectorView {
    let searches = c.searches.push(
        if reply.member("error"@) is Some {
            Seq::empty()
        } else {
            hits
        },
    );
    let candidates = if searches.len() == c.queries.len() {
        interleaved(searches, SEARCH_RESULTS_PER_QUERY as nat)
    } else {
        c.candidates
    };
    let failures = match reply.member("error"@) {
        Some(error) => c.failures.push(
            failure_json("search"@, "query"@, c.queries[c.searches.len() as int], error),
        ),
        None => c.failures,
    };
    CollectorView { searches, candidates, failures, ..c }
}

/// Whether another page is fetched: one is left, and neither bound is reached.
pub open spec fn wants_page(c: CollectorView) -> bool {
    c.sources.len() < c.max_sources && c.attempts < MAX_SCRAPE_ATTEMPTS && c.attempts
        < c.candidates.len()
}

/// A member of a reply, or null.
pub open spec fn member_or_null(v: JsonView, key: Seq<char>) -> JsonView {
    match v.member(key) {
        Some(m) => m,
        None => JsonView::Null,
    }
}

/// The text of a member, or the empty text.
pub open spec fn member_text_or_empty(v: JsonView, key: Seq<char>) -> Seq<char> {
    match v.member_text(key) {
        Some(s) => s,
        None => ""@,
    }
}

/// The source that a fetched page makes, before its quote is checked.
pub open spec fn source_from(
    hit: HitView,
    reply: JsonView,
    fetch_id: Seq<char>,
    content_hash: Seq<char>,
) -> BundleSourceView {
    let content = member_or_null(reply, "content"@);
    let source = member_or_null(reply, "source"@);
    let markdown = member_text_or_empty(content, "content_markdown"@);
    BundleSourceView {
        url: match source.member_text("url"@) {
            Some(url) => url,
            None => hit.url,
        },
        title: hit.title,
        snippet: hit.snippet,
        published_at: hit.published_at,
        fetched_at: member_text_or_empty(source, "fetched_at"@),
        fetch_id,
        content_hash,
        bytes: match member_or_null(content, "bytes"@).unsigned() {
            Some(n) => n,
            None => 0,
        },
        excerpt: first_chars(markdown, EXCERPT_CHARS as int),
        verified_quote: opening_quote(markdown),
        quote_verified: false,
    }
}

/// What a fetched page makes: a source, or the error that is recorded.
pub open spec fn page_read(hit: HitView, reply: JsonView) -> Result<BundleSourceView, JsonView> {
    let provenance = member_or_null(reply, "provenance"@);
    match reply.member("error"@) {
        Some(error) => Err(error),
        None => match provenance.member_text("fetch_id"@) {
            None => Err(JsonView::Text("missing fetch_id"@)),
            Some(fetch_id) => match provenance.member_text("content_hash"@) {
                None => Err(JsonView::Text("missing content_hash"@)),
                Some(content_hash) => Ok(source_from(hit, reply, fetch_id, content_hash)),
            },
        },
    }
}

/// A collection after a page was fetched: a failure, or a source; one with a quote waits for
/// the check of it.
pub open spec fn after_page(c: CollectorView, reply: JsonView) -> CollectorView {
    let hit = c.candidates[c.attempts - 1];
    match page_read(hit, reply) {
        Err(error) => with_failure(c, failure_json("scrape"@, "url"@, hit.url, error)),
        Ok(source) => if source.verified_quote.len() == 0 {
            CollectorView { sources: c.sources.push(source), ..c }
        } else {
            CollectorView { pending: Some(source), ..c }
        },
    }
}

/// Whether a reply says that a quote was verified.
pub open spec fn says_verified(reply: JsonView) -> bool {
    member_or_null(
        member_or_null(member_or_null(reply, "content"@), "derived"@),
        "verified"@,
    ) == JsonView::Bool(true)
}

/// A collection after a quote was checked.
pub open spec fn after_check(c: CollectorView, reply: JsonView) -> CollectorView {
    match c.pending {
        None => c,
        Some(source) => CollectorView {
            pending: None,
            sources: c.sources.push(
                BundleSourceView { quote_verified: says_verified(reply), ..source },
            ),
            ..c
        },
    }
}

/// The content of the answer, as it is given at once or when it is asked for again.
pub open spec fn bundle_content(c: CollectorView, cached: bool) -> JsonView {
    JsonView::Object(
        seq![
            ("assignment_id"@, JsonView::Text(c.assignment_id)),
            ("cached"@, JsonView::Bool(cached)),
            ("search_count"@, JsonView::Unsigned(c.queries.len() as u64)),
            ("scrape_attempt_count"@, JsonView::Unsigned(c.attempts as u64)),
            ("source_count"@, JsonView::Unsigned(c.sources.len() as u64)),
            ("queries"@, text_array(c.queries)),
            (
                "sources"@,
                JsonView::Array(
                    c.sources.map_values(|s: BundleSourceView| bundle_source_json(s)),
                ),
            ),
            ("failures"@, JsonView::Array(c.failures)),
        ],
    )
}

/// The answer of a collection, as it is given at once or when it is asked for again.
pub open spec fn bundle_reply(
    c: CollectorView,
    cached: bool,
    audit_id: Seq<char>,
    now: i64,
) -> ReplyView {
    let call = CallView {
        tool: "web_collect_evidence"@,
        args: JsonView::Null,
        audit_id,
        now,
    };
    envelope_reply(
        source_of(
            call,
            "research-assignment:"@ + c.assignment_id,
            "searxng+firecrawl-selfhosted"@,
        ),
        None,
        bundle_content(c, cached),
        audit_id,
    )
}

/// What a collection comes to.
pub open spec fn bundle_outcome(c: CollectorView, audit_id: Seq<char>, now: i64) -> OutcomeView {
    OutcomeView {
        denial: None,
        call: Some(("web_collect_evidence"@, "ok"@)),
        audit: None,
        fetch: None,
        reply: bundle_reply(c, false, audit_id, now),
    }
}

fn get_or_null(v: &Json, key: &str) -> (res: Json)
    ensures
        res@ == member_or_null(v@, key@),
{
    match v.get(key) {
        Some(m) => m.copy(),
        None => Json::Null,
    }
}

fn get_text_or_empty(v: &Json, key: &str) -> (res: String)
    ensures
        res@ == member_text_or_empty(v@, key@),
{
    match v.get_text(key) {
        Some(s) => s.clone(),
        None => "".to_owned(),
    }
}

fn read_page(hit: &SearchHit, reply: &Json) -> (res: Result<BundleSource, Json>)
    ensures
        page_read(hit@, reply@) == match res {
            Ok(s) => Ok::<BundleSourceView, JsonView>(s@),
            Err(e) => Err::<BundleSourceView, JsonView>(e@),
        },
{
    if let Some(error) = reply.get("error") {
        return Err(error.copy());
    }
    let content = get_or_null(reply, "content");
    let source = get_or_null(reply, "source");
    let provenance = get_or_null(reply, "provenance");
    let markdown = get_text_or_empty(&content, "content_markdown");
    let fetch_id = match provenance.get_text("fetch_id") {
        Some(id) => id.clone(),
        None => {
            return Err(Json::text("missing fetch_id"));
        },
    };
    let content_hash = match provenance.get_text("content_hash") {
        Some(h) => h.clone(),
        None => {
            return Err(Json::text("missing content_hash"));
        },
    };
    let url = match source.get_text("url") {
        Some(url) => url.clone(),
        None => hit.url.clone(),
    };
    let bytes: u64 = match get_or_null(&content, "bytes").as_unsigned() {
        Some(n) => n,
        None => 0,
    };
    Ok(
        BundleSource {
            url,
            title: hit.title.clone(),
            snippet: hit.snippet.clone(),
            published_at: copy_opt(&hit.published_at),
            fetched_at: get_text_or_empty(&source, "fetched_at"),
            fetch_id,
            content_hash,
            bytes,
            excerpt: take_chars(&markdown, EXCERPT_CHARS),
            verified_quote: verification_quote(&markdown),
            quote_verified: false,
        },
    )
}

fn reads_verified(reply: &Json) -> (res: bool)
    ensures
        res == says_verified(reply@),
{
    let content = get_or_null(reply, "content");
    let derived = get_or_null(&content, "derived");
    match get_or_null(&derived, "verified") {
        Json::Bool(b) => b,
        _ => false,
    }
}

impl Collector {
    /// A collection that has just begun, for a tidy assignment.
    pub fn begin(args: WebCollectEvidenceArgs, max_sources: usize) -> (res: Self)
        ensures
            res@ == (CollectorView {
                assignment_id: args.assignment_id@,
                queries: texts(args.queries@),
                time_range: opt_text(args.time_range),
                include_domains: texts(args.include_domains@),
                exclude_domains: texts(args.exclude_domains@),
                max_sources,
                searches: Seq::empty(),
                candidates: Seq::empty(),
                attempts: 0,
                pending: None,
                sources: Seq::empty(),
                failures: Seq::empty(),
            }),
    {
        let res = Collector {
            assignment_id: args.assignment_id,
            queries: args.queries,
            time_range: args.time_range,
            include_domains: args.include_domains,
            exclude_domains: args.exclude_domains,
            max_sources,
            searches: Vec::new(),
            candidates: Vec::new(),
            attempts: 0,
            pending: None,
            sources: Vec::new(),
            failures: Vec::new(),
        };
        assert(res@.searches =~= Seq::empty());
        assert(res@.candidates =~= Seq::empty());
        assert(res@.sources =~= Seq::empty());
        assert(res@.failures =~= Seq::empty());
        res
    }

    /// The next search, while one is left.
    pub fn next_search(&self) -> (res: Option<WebSearchArgs>)
        ensures
            match res {
                Some(args) => {
                    &&& self@.searches.len() < self@.queries.len()
                    &&& args.query@ == self@.queries[self@.searches.len() as int]
                    &&& args.max_results == Some(SEARCH_RESULTS_PER_QUERY)
                    &&& args.categories is None
                    &&& opt_text(args.language) == Some("en"@)
                    &&& opt_text(args.time_range) == self@.time_range
                    &&& texts(args.include_domains@) == self@.include_domains
                    &&& texts(args.exclude_domains@) == self@.exclude_domains
                },
                None => self@.searches.len() >= self@.queries.len(),
            },
    {
        let n: usize = self.searches.len();
        if n >= self.queries.len() {
            return None;
        }
        Some(
            WebSearchArgs {
                query: self.queries[n].clone(),
                max_results: Some(SEARCH_RESULTS_PER_QUERY),
                categories: None,
                language: Some("en".to_owned()),
                time_range: copy_opt(&self.time_range),
                include_domains: copy_texts(&self.include_domains),
                exclude_domains: copy_texts(&self.exclude_domains),
            },
        )
    }

    /// Takes the answer to the next search.
    pub fn note_search(&mut self, reply: &Json, hits: Vec<SearchHit>)
        requires
            old(self)@.searches.len() < old(self)@.queries.len(),
        ensures
            final(self)@ == after_search(old(self)@, reply@, hit_views(hits@)),
    {
        let ghost before = self.searches@;
        let ghost failed = self.failures@;
        let n: usize = self.searches.len();
        match reply.get("error") {
            Some(error) => {
                let none: Vec<SearchHit> = Vec::new();
                assert(hit_views(none@) =~= Seq::empty());
                self.searches.push(none);
                let failure = failure_value("search", "query", &self.queries[n], error.copy());
                self.failures.push(failure);
                proof {
                    assert(views(self.failures@) =~= views(failed).push(failure@));
                    assert(searches_view(self.searches@) =~= searches_view(before).push(
                        Seq::empty(),
                    ));
                }
            },
            None => {
                self.searches.push(hits);
                assert(searches_view(self.searches@) =~= searches_view(before).push(
                    hit_views(hits@),
                ));
            },
        }
        if self.searches.len() == self.queries.len() {
            self.candidates = interleave(&self.searches);
        }
        assert(self@ =~= after_search(old(self)@, reply@, hit_views(hits@)));
    }

    /// The next page to fetch, while one is wanted.
    pub fn next_page(&mut self) -> (res: Option<WebScrapeArgs>)
        ensures
            match res {
                Some(args) => {
                    &&& wants_page(old(self)@)
                    &&& args.url@ == old(self)@.candidates[old(self)@.attempts as int].url
                    &&& opt_text(args.mode) == Some("static"@)
                    &&& final(self)@ == (CollectorView {
                        attempts: old(self)@.attempts + 1nat,
                        ..old(self)@
                    })
                },
                None => !wants_page(old(self)@) && final(self)@ == old(self)@,
            },
    {
        if self.sources.len() >= self.max_sources || self.attempts >= MAX_SCRAPE_ATTEMPTS
            || self.attempts >= self.candidates.len() {
            return None;
        }
        let url = self.candidates[self.attempts].url.clone();
        self.attempts = self.attempts + 1;
        Some(WebScrapeArgs { url, mode: Some("static".to_owned()) })
    }

    /// Takes the answer to a fetch; the check of a quote that is then to be made.
    pub fn note_page(&mut self, reply: &Json) -> (res: Option<WebVerifyQuoteArgs>)
        requires
            1 <= old(self)@.attempts <= old(self)@.candidates.len(),
            old(self)@.pending is None,
        ensures
            final(self)@ == after_page(old(self)@, reply@),
            match res {
                Some(args) => {
                    &&& final(self)@.pending is Some
                    &&& args.fetch_id@ == final(self)@.pending->0.fetch_id
                    &&& args.quote@ == final(self)@.pending->0.verified_quote
                    &&& opt_text(args.expected_content_hash) == Some(
                        final(self)@.pending->0.content_hash,
                    )
                },
                None => final(self)@.pending is None,
            },
    {
        let at: usize = self.attempts - 1;
        let ghost had = self.sources@;
        let ghost failed = self.failures@;
        assert(hit_views(self.candidates@)[at as int] == self.candidates@[at as int]@);
        match read_page(&self.candidates[at], reply) {
            Err(error) => {
                let failure = failure_value("scrape", "url", &self.candidates[at].url, error);
                self.failures.push(failure);
                proof {
                    assert(views(self.failures@) =~= views(failed).push(failure@));
                    assert(self@ =~= after_page(old(self)@, reply@));
                }
                None
            },
            Ok(source) => {
                let length: usize = chars_of(&source.verified_quote).len();
                if length == 0 {
                    self.sources.push(source);
                    proof {
                        assert(source_views(self.sources@) =~= source_views(had).push(source@));
                        assert(self@ =~= after_page(old(self)@, reply@));
                    }
                    return None;
                }
                let args = WebVerifyQuoteArgs {
                    fetch_id: source.fetch_id.clone(),
                    quote: source.verified_quote.clone(),
                    expected_content_hash: Some(source.content_hash.clone()),
                };
                self.pending = Some(source);
                assert(self@ =~= after_page(old(self)@, reply@));
                Some(args)
            },
        }
    }

    /// Takes the answer to the check of a quote.
    pub fn note_check(&mut self, reply: &Json)
        ensures
            final(self)@ == after_check(old(self)@, reply@),
    {
        let ghost had = self.sources@;
        let waiting = self.pending.take();
        if let Some(source) = waiting {
            let checked = BundleSource {
                url: source.url,
                title: source.title,
                snippet: source.snippet,
                published_at: source.published_at,
                fetched_at: source.fetched_at,
                fetch_id: source.fetch_id,
                content_hash: source.content_hash,
                bytes: source.bytes,
                excerpt: source.excerpt,
                verified_quote: source.verified_quote,
                quote_verified: reads_verified(reply),
            };
            self.sources.push(checked);
            assert(source_views(self.sources@) =~= source_views(had).push(checked@));
        }
        assert(self@ =~= after_check(old(self)@, reply@));
    }

    fn content(&self) -> (res: Json)
        ensures
            res@ == bundle_content(self@, false),
    {
        let mut sources: Vec<Json> = Vec::new();
        let ghost goal = self@.sources.map_values(|s: BundleSourceView| bundle_source_json(s));
        let mut i: usize = 0;
        while i < self.sources.len()
            invariant
                i <= self.sources@.len(),
                goal == source_views(self.sources@).map_values(
                    |s: BundleSourceView| bundle_source_json(s),
                ),
                sources@.len() == i,
                forall|k: int| 0 <= k < i ==> (#[trigger] sources@[k])@ == goal[k],
            decreases self.sources@.len() - i,
        {
            sources.push(self.sources[i].to_json());
            i = i + 1;
        }
        assert(views(sources@) =~= goal);
        let mut failures: Vec<Json> = Vec::new();
        let mut j: usize = 0;
        while j < self.failures.len()
            invariant
                j <= self.failures@.len(),
                failures@.len() == j,
                forall|k: int|
                    0 <= k < j ==> (#[trigger] failures@[k])@ == self.failures@[k]@,
            decreases self.failures@.len() - j,
        {
            failures.push(self.failures[j].copy());
            j = j + 1;
        }
        assert(views(failures@) =~= views(self.failures@));
        let members = vec![
            Json::field("assignment_id", Json::text(&self.assignment_id)),
            Json::field("cached", Json::Bool(false)),
            Json::field("search_count", Json::Unsigned(self.queries.len() as u64)),
            Json::field("scrape_attempt_count", Json::Unsigned(self.attempts as u64)),
            Json::field("source_count", Json::Unsigned(self.sources.len() as u64)),
            Json::field("queries", Json::texts(&self.queries)),
            Json::field("sources", Json::array(sources)),
            Json::field("failures", Json::array(failures)),
        ];
        assert(member_views(members@) =~= bundle_content(self@, false)->Object_0);
        Json::object(members)
    }

    /// Says what the collection comes to.
    pub fn finish(&self, audit_id: String, now: i64) -> (res: Outcome)
        ensures
            res@ == bundle_outcome(self@, audit_id@, now),
    {
        let call = Call { tool: "web_collect_evidence", args: Json::Null, audit_id, now };
        let mut url = "research-assignment:".to_owned();
        url.push_str(&self.assignment_id);
        let reply = call.envelope(
            &url,
            "searxng+firecrawl-selfhosted",
            None,
            self.content(),
        );
        Outcome {
            denial: None,
            call: Some(("web_collect_evidence".to_owned(), "ok".to_owned())),
            audit: None,
            fetch: None,
            reply,
        }
    }
}

// ---------------------------------------------------------------------------
// Laws
// ---------------------------------------------------------------------------
/// What holds of a collection at every moment: it fetches at most 12 pages, each of them a
/// candidate, and has at most as many sources as it may and as it fetched pages.
pub open spec fn stays_bounded(c: CollectorView) -> bool {
    &&& c.attempts <= MAX_SCRAPE_ATTEMPTS
    &&& c.attempts <= c.candidates.len() || c.searches.len() < c.queries.len()
    &&& c.sources.len() + c.failures.len() + (if c.pending is Some {
        1nat
    } else {
        0nat
    }) <= c.attempts + c.searches.len()
    &&& c.sources.len() + (if c.pending is Some {
        1nat
    } else {
        0nat
    }) <= c.attempts
    &&& c.sources.len() + (if c.pending is Some {
        1nat
    } else {
        0nat
    }) <= c.max_sources
    &&& c.searches.len() <= c.queries.len()
}

/// A collection that has just begun is within its bounds.
pub proof fn law_collections_begin_bounded(c: CollectorView)
    requires
        c.attempts == 0,
        c.searches.len() == 0,
        c.sources.len() == 0,
        c.failures.len() == 0,
        c.pending is None,
    ensures
        stays_bounded(c),
{
}

/// A search keeps a collection within its bounds.
pub proof fn law_searches_keep_bounds(c: CollectorView, reply: JsonView, hits: Seq<HitView>)
    requires
        stays_bounded(c),
        c.searches.len() < c.queries.len(),
        c.attempts == 0,
    ensures
        stays_bounded(after_search(c, reply, hits)),
{
}

/// A page that is wanted, fetched and read keeps a collection within its bounds.
pub proof fn law_pages_keep_bounds(c: CollectorView, reply: JsonView)
    requires
        stays_bounded(c),
        wants_page(c),
        c.pending is None,
        c.searches.len() == c.queries.len(),
    ensures
        stays_bounded(after_page(CollectorView { attempts: c.attempts + 1nat, ..c }, reply)),
{
}

/// The check of a quote keeps a collection within its bounds.
pub proof fn law_checks_keep_bounds(c: CollectorView, reply: JsonView)
    requires
        stays_bounded(c),
    ensures
        stays_bounded(after_check(c, reply)),
{
}

/// A collection for an assignment that was accepted has at most eight sources and at most six
/// searches.
pub proof fn law_assignments_are_bounded(
    assignment_id: Seq<char>,
    queries: nat,
    max_sources: Option<usize>,
    audit_id: Seq<char>,
)
    requires
        assignment_verdict(assignment_id, queries, max_sources, audit_id) is Ok,
    ensures
        1 <= queries <= 6,
        1 <= assignment_verdict(assignment_id, queries, max_sources, audit_id)->Ok_0 <= 8,
{
}

/// The answer of a collection that stayed within its bounds, for an assignment that was
/// accepted, counts at most six searches, twelve fetches and eight sources, and has as many
/// sources as it counts.
pub proof fn law_answers_are_bounded(c: CollectorView, audit_id: Seq<char>)
    requires
        stays_bounded(c),
        assignment_verdict(
            c.assignment_id,
            c.queries.len(),
            Some(c.max_sources),
            audit_id,
        ) is Ok,
    ensures
        ({
            let m = bundle_content(c, false)->Object_0;
            &&& c.queries.len() <= 6
            &&& c.attempts <= 12
            &&& c.sources.len() <= 8
            &&& m[2] == ("search_count"@, JsonView::Unsigned(c.queries.len() as u64))
            &&& m[3] == ("scrape_attempt_count"@, JsonView::Unsigned(c.attempts as u64))
            &&& m[4] == ("source_count"@, JsonView::Unsigned(c.sources.len() as u64))
            &&& m[6].1 is Array && m[6].1->Array_0.len() == c.sources.len()
        }),
{
}

/// Two assignments have the same inputs once they are tidy.
pub open spec fn same_request(a: WebCollectEvidenceArgs, b: WebCollectEvidenceArgs) -> bool {
    &&& trimmed(a.assignment_id@) == trimmed(b.assignment_id@)
    &&& clean_queries(texts(a.queries@)) == clean_queries(texts(b.queries@))
    &&& a.max_sources == b.max_sources
    &&& opt_text(a.time_range) == opt_text(b.time_range)
    &&& texts(a.include_domains@) == texts(b.include_domains@)
    &&& texts(a.exclude_domains@) == texts(b.exclude_domains@)
}

proof fn lemma_text_array(a: Seq<Seq<char>>, b: Seq<Seq<char>>)
    ensures
        text_array(a) == text_array(b) <==> a == b,
{
    if text_array(a) == text_array(b) {
        let x = text_array(a)->Array_0;
        let y = text_array(b)->Array_0;
        assert(x.len() == a.len() && y.len() == b.len());
        assert forall|i: int| 0 <= i < a.len() implies a[i] == b[i] by {
            assert(x[i] == JsonView::Text(a[i]));
            assert(y[i] == JsonView::Text(b[i]));
        }
        assert(a =~= b);
    }
}

/// Assignments have one request form if and only if they have the same inputs once they are
/// tidy: the same identifier, queries, number of sources, time range and domains.
pub proof fn law_requests_tell_inputs_apart(a: WebCollectEvidenceArgs, b: WebCollectEvidenceArgs)
    ensures
        request_json(a) == request_json(b) <==> same_request(a, b),
{
    let x = request_json(a)->Object_0;
    let y = request_json(b)->Object_0;
    lemma_text_array(clean_queries(texts(a.queries@)), clean_queries(texts(b.queries@)));
    lemma_text_array(texts(a.include_domains@), texts(b.include_domains@));
    lemma_text_array(texts(a.exclude_domains@), texts(b.exclude_domains@));
    if request_json(a) == request_json(b) {
        assert(x[0] == y[0] && x[1] == y[1] && x[2] == y[2] && x[3] == y[3] && x[4] == y[4] && x[5]
            == y[5]);
    } else if same_request(a, b) {
        assert(x =~= y);
    }
}

/// The hash of an assignment's inputs, given how JSON is written.
pub open spec fn request_hash_of(
    args: WebCollectEvidenceArgs,
    written: spec_fn(JsonView) -> Seq<u8>,
) -> Seq<char> {
    hash_of(written(request_json(args)))
}

/// Repeating an assignment with the same inputs gives the stored answer. With other inputs it is
/// refused and nothing else is done, unless the two different requests have one hash. This holds
/// however JSON is written.
pub proof fn law_assignments_are_idempotent(
    first: WebCollectEvidenceArgs,
    again: WebCollectEvidenceArgs,
    written: spec_fn(JsonView) -> Seq<u8>,
    response_json: Seq<char>,
    audit_id: Seq<char>,
)
    ensures
        ({
            let record = BundleView {
                assignment_id: trimmed(first.assignment_id@),
                request_hash: request_hash_of(first, written),
                response_json,
            };
            let found = looked_up(Some(record), request_hash_of(again, written), audit_id);
            &&& same_request(first, again) ==> found == LookupView::Reuse(response_json)
            &&& !same_request(first, again) ==> request_json(first) != request_json(again)
            &&& !same_request(first, again) && request_hash_of(first, written) != request_hash_of(
                again,
                written,
            ) ==> found == LookupView::Conflict(
                refused(
                    "invalid_argument"@,
                    "assignment_conflict"@,
                    "assignment_id already has a bundle with different inputs"@,
                    Some(audit_id),
                ),
            )
            &&& found is Conflict ==> !same_request(first, again)
        }),
{
    law_requests_tell_inputs_apart(first, again);
}

proof fn lemma_with_member(
    m: Seq<(Seq<char>, JsonView)>,
    key: Seq<char>,
    value: JsonView,
    n: int,
)
    requires
        0 <= n < m.len(),
        forall|i: int| 0 <= i < n ==> (#[trigger] m[i]).0.len() != key.len(),
        m[n].0 == key,
    ensures
        with_member(m, key, value) == m.update(n, (key, value)),
    decreases n,
{
    let rest = m.drop_first();
    if n > 0 {
        assert(m[0].0.len() != key.len());
        assert forall|i: int| 0 <= i < n - 1 implies (#[trigger] rest[i]).0.len() != key.len() by {
            assert(rest[i] == m[i + 1]);
        }
        lemma_with_member(rest, key, value, n - 1);
        assert(seq![m[0]] + rest.update(n - 1, (key, value)) =~= m.update(n, (key, value)));
    } else {
        assert(seq![(key, value)] + rest =~= m.update(0, (key, value)));
    }
}

/// The stored answer of a collection is given again as it was, but for the mark that says so.
pub proof fn law_repeats_give_the_stored_answer(c: CollectorView, audit_id: Seq<char>, now: i64)
    ensures
        ({
            let stored = reply_json(bundle_outcome(c, audit_id, now).reply);
            &&& reuse_outcome(stored) is Some
            &&& reuse_outcome(stored)->0.reply == ReplyView::Plain(
                reply_json(bundle_reply(c, true, audit_id, now)),
            )
        }),
{
    let stored = reply_json(bundle_reply(c, false, audit_id, now));
    let again = reply_json(bundle_reply(c, true, audit_id, now));
    let m = stored->Object_0;
    let content = bundle_content(c, false)->Object_0;
    reveal_strlit("trust");
    reveal_strlit("source");
    reveal_strlit("content");
    reveal_strlit("assignment_id");
    reveal_strlit("cached");
    lemma_member_at(m, "content"@, 2);
    lemma_with_member(content, "cached"@, JsonView::Bool(true), 1);
    assert(with_member(content, "cached"@, JsonView::Bool(true)) =~= bundle_content(
        c,
        true,
    )->Object_0);
    lemma_with_member(m, "content"@, bundle_content(c, true), 2);
    assert(with_member(m, "content"@, bundle_content(c, true)) =~= again->Object_0);
}

/// No two candidates have the same URL.
pub open spec fn urls_differ(s: Seq<HitView>) -> bool {
    forall|i: int, j: int| 0 <= i < j < s.len() ==> (#[trigger] s[i]).url != (#[trigger] s[j]).url
}

proof fn lemma_with_rank(s: Seq<HitView>, searches: Seq<Seq<HitView>>, rank: int, n: nat)
    requires
        urls_differ(s),
        0 <= rank,
        n <= searches.len(),
    ensures
        urls_differ(with_rank(s, searches, rank, n)),
        s.is_prefix_of(with_rank(s, searches, rank, n)),
        forall|k: int|
            0 <= k < n && rank < searches[k].len() ==> has_url(
                with_rank(s, searches, rank, n),
                (#[trigger] searches[k])[rank].url,
            ),
    decreases n,
{
    if n > 0 {
        lemma_with_rank(s, searches, rank, (n - 1) as nat);
        let before = with_rank(s, searches, rank, (n - 1) as nat);
        let out = with_rank(s, searches, rank, n);
        assert forall|k: int| 0 <= k < n && rank < searches[k].len() implies has_url(
            out,
            (#[trigger] searches[k])[rank].url,
        ) by {
            if k < n - 1 {
                let url = searches[k][rank].url;
                let i = choose|i: int| 0 <= i < before.len() && (#[trigger] before[i]).url == url;
                assert(out[i] == before[i]);
            } else if !has_url(before, searches[k][rank].url) {
                assert(out[before.len() as int] == searches[k][rank]);
            }
        }
        assert(out.subrange(0, s.len() as int) =~= before.subrange(0, s.len() as int));
    } else {
        assert(s.subrange(0, s.len() as int) =~= s);
    }
}

/// Candidates are deduplicated and complete: no URL stands twice, and the URL of every result
/// of the ranks that count is among them.
pub proof fn law_candidates_are_deduplicated(searches: Seq<Seq<HitView>>, ranks: nat)
    ensures
        urls_differ(interleaved(searches, ranks)),
        forall|k: int, r: int|
            0 <= k < searches.len() && 0 <= r < ranks && r < searches[k].len() ==> has_url(
                interleaved(searches, ranks),
                (#[trigger] searches[k][r]).url,
            ),
    decreases ranks,
{
    if ranks > 0 {
        law_candidates_are_deduplicated(searches, (ranks - 1) as nat);
        let before = interleaved(searches, (ranks - 1) as nat);
        let out = interleaved(searches, ranks);
        lemma_with_rank(before, searches, ranks - 1, searches.len());
        assert forall|k: int, r: int|
            0 <= k < searches.len() && 0 <= r < ranks && r < searches[k].len() implies has_url(
            out,
            (#[trigger] searches[k][r]).url,
        ) by {
            if r < ranks - 1 {
                let url = searches[k][r].url;
                assert(has_url(before, url));
                let i = choose|i: int| 0 <= i < before.len() && (#[trigger] before[i]).url == url;
                assert(out.subrange(0, before.len() as int)[i] == out[i]);
            } else {
                let hits = searches[k];
                assert(has_url(out, searches[k][ranks - 1].url));
            }
        }
    }
}

/// The quote of a source stands in its page letter for letter, and has at most 320 characters.
pub proof fn law_opening_quotes_are_exact(markdown: Seq<char>)
    ensures
        occurs(markdown, opening_quote(markdown)),
        opening_quote(markdown).len() <= 320,
{
    reveal_strlit("\n");
    crate::text::lemma_first_at(markdown, "\n"@, 0);
    let body = behind_first_line(markdown);
    let cut = markdown.len() - body.len();
    assert(body =~= markdown.skip(cut));
    assert(markdown.subrange(cut, cut + body.len()) =~= body);
    assert(has_at(markdown, body, cut));
    let start = trimmed_start(body);
    crate::text::lemma_drop_leading(body, white());
    let lead = body.len() - start.len();
    assert(body.subrange(lead, lead + start.len()) =~= start);
    assert(has_at(body, start, lead));
    lemma_occurs_within(markdown, body, start);
    let head = first_chars(start, 320);
    assert(start.subrange(0, head.len() as int) =~= head);
    assert(has_at(start, head, 0));
    lemma_occurs_within(markdown, start, head);
    lemma_trimmed_occurs(head);
    lemma_occurs_within(markdown, head, trimmed_end(head));
}

proof fn lemma_trimmed_twice(s: Seq<char>)
    ensures
        trimmed(trimmed(s)) == trimmed(s),
{
    let a = trimmed_start(s);
    let t = trimmed(s);
    crate::text::lemma_drop_leading(s, white());
    crate::text::lemma_drop_trailing(a, white());
    if t.len() > 0 {
        assert(t[0] == a[0]);
        assert(drop_leading(t, white()) == t);
        assert(drop_trailing(t, white()) == t);
    } else {
        assert(drop_leading(t, white()) == t);
        assert(drop_trailing(t, white()) == t);
    }
}

proof fn lemma_clean_queries(queries: Seq<Seq<char>>)
    ensures
        forall|i: int|
            0 <= i < clean_queries(queries).len() ==> trimmed(#[trigger] clean_queries(queries)[i])
                == clean_queries(queries)[i] && clean_queries(queries)[i].len() > 0,
        clean_queries(queries).no_duplicates(),
    decreases queries.len(),
{
    if queries.len() > 0 {
        lemma_clean_queries(queries.drop_last());
        lemma_trimmed_twice(queries.last());
    }
}

proof fn lemma_clean_stays(queries: Seq<Seq<char>>)
    requires
        forall|i: int|
            0 <= i < queries.len() ==> trimmed(#[trigger] queries[i]) == queries[i]
                && queries[i].len() > 0,
        queries.no_duplicates(),
    ensures
        clean_queries(queries) == queries,
    decreases queries.len(),
{
    if queries.len() > 0 {
        let front = queries.drop_last();
        assert forall|i: int| 0 <= i < front.len() implies trimmed(#[trigger] front[i]) == front[i]
            && front[i].len() > 0 by {
            assert(front[i] == queries[i]);
        }
        lemma_clean_stays(front);
        let q = queries[queries.len() - 1];
        assert(trimmed(q) == q && q.len() > 0);
        if front.contains(q) {
            let k = choose|k: int| 0 <= k < front.len() && front[k] == q;
            assert(queries[k] == queries[queries.len() - 1]);
        }
        assert(front.push(q) =~= queries);
    } else {
        assert(clean_queries(queries) =~= queries);
    }
}

/// Tidying an assignment twice is tidying it once, so white space around its parts and repeated
/// queries make no other assignment of it.
pub proof fn law_tidying_is_idempotent(assignment_id: Seq<char>, queries: Seq<Seq<char>>)
    ensures
        trimmed(trimmed(assignment_id)) == trimmed(assignment_id),
        clean_queries(clean_queries(queries)) == clean_queries(queries),
{
    lemma_trimmed_twice(assignment_id);
    lemma_clean_queries(queries);
    lemma_clean_stays(clean_queries(queries));
}

/// White space around a text is trimmed away.
pub proof fn law_space_around_is_forgotten(before: Seq<char>, s: Seq<char>, behind: Seq<char>)
    requires
        forall|i: int| 0 <= i < before.len() ==> char_is_whitespace(#[trigger] before[i]),
        forall|i: int| 0 <= i < behind.len() ==> char_is_whitespace(#[trigger] behind[i]),
    ensures
        trimmed(before + s + behind) == trimmed(s),
    decreases before.len(),
{
    let all = before + s + behind;
    if before.len() > 0 {
        let rest = before.drop_first();
        assert forall|i: int| 0 <= i < rest.len() implies char_is_whitespace(
            #[trigger] rest[i],
        ) by {
            assert(rest[i] == before[i + 1]);
        }
        law_space_around_is_forgotten(rest, s, behind);
        assert(all[0] == before[0]);
        assert(white()(all[0]));
        assert(all.drop_first() =~= rest + s + behind);
    } else {
        assert(all =~= s + behind);
        lemma_space_behind(s, behind);
    }
}

proof fn lemma_space_behind(s: Seq<char>, behind: Seq<char>)
    requires
        forall|i: int| 0 <= i < behind.len() ==> char_is_whitespace(#[trigger] behind[i]),
    ensures
        trimmed(s + behind) == trimmed(s),
    decreases s.len(),
{
    let all = s + behind;
    if s.len() == 0 {
        assert(all =~= behind);
        crate::text::lemma_drop_leading(behind, white());
        let front = trimmed_start(behind);
        if front.len() > 0 {
            assert(!white()(front[0]));
            let cut = behind.len() - front.len();
            assert(front[0] == behind[cut]);
        }
        assert(front =~= s);
        assert(trimmed_start(s) == s);
    } else if white()(s[0]) {
        assert(all[0] == s[0]);
        assert(all.drop_first() =~= s.drop_first() + behind);
        lemma_space_behind(s.drop_first(), behind);
    } else {
        assert(all[0] == s[0]);
        assert forall|j: int| s.len() <= j < all.len() implies white()(all[j]) by {
            assert(all[j] == behind[j - s.len()]);
        }
        crate::text::lemma_drop_trailing_take(all, white(), s.len() as int);
        assert(all.take(s.len() as int) =~= s);
    }
}

/// Queries with white space around them, blank queries and repeated ones make no difference.
pub proof fn law_untidy_queries_are_forgotten(
    before: Seq<Seq<char>>,
    q: Seq<char>,
    behind: Seq<Seq<char>>,
)
    ensures
        trimmed(q).len() == 0 || clean_queries(before).contains(trimmed(q)) ==> clean_queries(
            before + seq![q] + behind,
        ) == clean_queries(before + behind),
        clean_queries(before + seq![q] + behind) == clean_queries(
            before + seq![trimmed(q)] + behind,
        ),
    decreases behind.len(),
{
    let with = before + seq![q] + behind;
    let tidy = before + seq![trimmed(q)] + behind;
    let without = before + behind;
    if behind.len() == 0 {
        assert(with.drop_last() =~= before && tidy.drop_last() =~= before);
        assert(with.last() == q && tidy.last() == trimmed(q));
        assert(without =~= before);
        lemma_trimmed_twice(q);
    } else {
        let rest = behind.drop_last();
        law_untidy_queries_are_forgotten(before, q, rest);
        assert(with.drop_last() =~= before + seq![q] + rest);
        assert(tidy.drop_last() =~= before + seq![trimmed(q)] + rest);
        assert(without.drop_last() =~= before + rest);
        assert(with.last() == behind.last() && tidy.last() == behind.last() && without.last()
            == behind.last());
    }
}

/// The quote of a source passes the check against the page that is stored for it.
pub proof fn law_source_quotes_verify(
    record: FetchView,
    args: WebVerifyQuoteArgs,
    audit_id: Seq<char>,
    now: i64,
)
    requires
        args.quote@ == opening_quote(record.content_markdown),
        opt_text(args.expected_content_hash) == Some(record.content_hash),
    ensures
        says_verified(reply_json(verify_outcome(args, Some(record), audit_id, now).reply)),
{
    let reply = verify_outcome(args, Some(record), audit_id, now).reply;
    let derived = verified_json(args.quote@, opt_text(args.expected_content_hash), record);
    let content = content_of(record, derived, false);
    let m = envelope_json(reply->Envelope_0)->Object_0;
    law_opening_quotes_are_exact(record.content_markdown);
    law_verified_quotes_are_exact(args.quote@, opt_text(args.expected_content_hash), record);
    reveal_strlit("trust");
    reveal_strlit("source");
    reveal_strlit("provenance");
    reveal_strlit("content");
    lemma_member_at(m, "content"@, 3);
    reveal_strlit("fetch_id");
    reveal_strlit("content_hash");
    reveal_strlit("requested_url");
    reveal_strlit("final_url");
    reveal_strlit("bytes");
    reveal_strlit("truncated");
    reveal_strlit("derived");
    lemma_member_at(content->Object_0, "derived"@, 6);
    lemma_member_at(derived->Object_0, "verified"@, 0);
}

proof fn lemma_wrapped_pages_open(nonce: Seq<char>, source_url: Seq<char>, body: Seq<char>)
    ensures
        opening_quote(wrapped(nonce, source_url, body)).len() > 0,
{
    let w = wrapped(nonce, source_url, body);
    let header = wrap_header(nonce, source_url);
    let footer = wrap_footer(nonce);
    reveal_strlit("\n");
    reveal_strlit("<<<END_UNTRUSTED_WEB_CONTENT:");
    crate::text::lemma_first_at(w, "\n"@, 0);
    assert(w.subrange(header.len() as int, header.len() + 1int) =~= "\n"@);
    assert(has_at(w, "\n"@, header.len() as int));
    let rest = behind_first_line(w);
    let last = rest.len() - footer.len();
    assert(footer[0] == '<');
    assert(w[w.len() - footer.len()] == footer[0]);
    assert(rest[last] == '<');
    let start = trimmed_start(rest);
    crate::text::lemma_drop_leading(rest, white());
    if start.len() == 0 {
        assert(white()(rest[last]));
    }
    let head = first_chars(start, 320);
    crate::text::lemma_drop_trailing(head, white());
    if trimmed_end(head).len() == 0 {
        assert(white()(head[0]));
    }
}

/// A page that was fetched and stored makes a source that names its stored record: its
/// identifier, its hash, its URL, its size, and a quote and an excerpt of the stored text. The
/// quote is there to be checked, and the check of it against the record is passed.
pub proof fn law_stored_pages_make_verified_sources(
    call: CallView,
    requested_url: Seq<char>,
    max_bytes: usize,
    completed_at: i64,
    page: ScrapeView,
    fetch_id: Seq<char>,
    nonce: Seq<char>,
    c: CollectorView,
    args: WebVerifyQuoteArgs,
    audit_id: Seq<char>,
    now: i64,
)
    requires
        utf8_len(page.markdown) <= max_bytes,
        1 <= c.attempts <= c.candidates.len(),
        c.pending is None,
        ({
            let fetched = scrape_outcome(
                call,
                requested_url,
                max_bytes,
                completed_at,
                Ok(page),
                fetch_id,
                nonce,
            );
            let after = after_page(c, reply_json(fetched.reply));
            &&& args.quote@ == after.pending->0.verified_quote
            &&& opt_text(args.expected_content_hash) == Some(after.pending->0.content_hash)
        }),
    ensures
        ({
            let fetched = scrape_outcome(
                call,
                requested_url,
                max_bytes,
                completed_at,
                Ok(page),
                fetch_id,
                nonce,
            );
            let record = fetched.fetch->0;
            let checked = verify_outcome(args, Some(record), audit_id, now);
            let after = after_check(
                after_page(c, reply_json(fetched.reply)),
                reply_json(checked.reply),
            );
            let source = after.sources.last();
            &&& after_page(c, reply_json(fetched.reply)).pending is Some
            &&& after.sources.len() == c.sources.len() + 1
            &&& source.fetch_id == record.fetch_id
            &&& source.content_hash == record.content_hash
            &&& source.url == record.final_url
            &&& source.bytes == record.bytes
            &&& source.excerpt == first_chars(record.content_markdown, EXCERPT_CHARS as int)
            &&& occurs(record.content_markdown, source.verified_quote)
            &&& source.quote_verified
        }),
{
    let fetched = scrape_outcome(
        call,
        requested_url,
        max_bytes,
        completed_at,
        Ok(page),
        fetch_id,
        nonce,
    );
    let record = fetched.fetch->0;
    let reply = reply_json(fetched.reply);
    let envelope = fetched.reply->Envelope_0;
    let m = reply->Object_0;
    crate::mcp::fetch::scrape::law_answers_match_what_is_stored(
        call,
        requested_url,
        max_bytes,
        completed_at,
        page,
        fetch_id,
        nonce,
    );
    reveal_strlit("trust");
    reveal_strlit("source");
    reveal_strlit("provenance");
    reveal_strlit("content");
    reveal_strlit("audit_id");
    reveal_strlit("error");
    reveal_strlit("url");
    reveal_strlit("fetch_id");
    reveal_strlit("content_hash");
    lemma_member_at(m, "source"@, 1);
    lemma_member_at(m, "provenance"@, 2);
    lemma_member_at(m, "content"@, 3);
    assert("trust"@[0] != "error"@[0]);
    crate::json::lemma_skip_members(m, "error"@, 5);
    lemma_member_at(source_json(envelope.source)->Object_0, "url"@, 0);
    let p = provenance_json(envelope.provenance->0)->Object_0;
    lemma_member_at(p, "fetch_id"@, 0);
    lemma_member_at(p, "content_hash"@, 1);
    let hit = c.candidates[c.attempts - 1];
    let source = source_from(hit, reply, record.fetch_id, record.content_hash);
    assert(page_read(hit, reply) == Ok::<BundleSourceView, JsonView>(source));
    lemma_wrapped_pages_open(nonce, record.final_url, page.markdown);
    law_source_quotes_verify(record, args, audit_id, now);
    law_opening_quotes_are_exact(record.content_markdown);
}

/// A place among the results of some searches, by rank and search, comes before another: of a
/// better rank, or of the same rank in an earlier search.
pub open spec fn place_before(a: (int, int), b: (int, int)) -> bool {
    a.0 < b.0 || (a.0 == b.0 && a.1 < b.1)
}

/// There is a result at a place.
pub open spec fn is_place(searches: Seq<Seq<HitView>>, p: (int, int)) -> bool {
    0 <= p.1 < searches.len() && 0 <= p.0 < searches[p.1].len()
}

/// Some candidates stand at some places: each is the result there, the places come one after the
/// other, and no place before has its URL.
pub open spec fn stand_at(
    searches: Seq<Seq<HitView>>,
    candidates: Seq<HitView>,
    places: Seq<(int, int)>,
) -> bool {
    &&& places.len() == candidates.len()
    &&& forall|i: int|
        0 <= i < places.len() ==> is_place(searches, #[trigger] places[i]) && candidates[i]
            == searches[places[i].1][places[i].0]
    &&& forall|i: int, j: int|
        0 <= i < j < places.len() ==> place_before(#[trigger] places[i], #[trigger] places[j])
    &&& forall|i: int, q: (int, int)|
        0 <= i < places.len() && #[trigger] is_place(searches, q) && place_before(
            q,
            #[trigger] places[i],
        ) ==> searches[q.1][q.0].url != candidates[i].url
}

/// All places come before another.
spec fn all_before(places: Seq<(int, int)>, p: (int, int)) -> bool {
    forall|i: int| 0 <= i < places.len() ==> place_before(#[trigger] places[i], p)
}

/// Every result before a place has its URL among some candidates.
spec fn covered_before(
    searches: Seq<Seq<HitView>>,
    candidates: Seq<HitView>,
    p: (int, int),
) -> bool {
    forall|q: (int, int)| #[trigger]
        is_place(searches, q) && place_before(q, p) ==> has_url(candidates, searches[q.1][q.0].url)
}

proof fn lemma_rank_places(
    s: Seq<HitView>,
    searches: Seq<Seq<HitView>>,
    rank: int,
    n: nat,
    places: Seq<(int, int)>,
) -> (res: Seq<(int, int)>)
    requires
        0 <= rank,
        n <= searches.len(),
        stand_at(searches, s, places),
        all_before(places, (rank, 0)),
        covered_before(searches, s, (rank, 0)),
    ensures
        stand_at(searches, with_rank(s, searches, rank, n), res),
        all_before(res, (rank, n as int)),
        covered_before(searches, with_rank(s, searches, rank, n), (rank, n as int)),
    decreases n,
{
    if n == 0 {
        places
    } else {
        let before = lemma_rank_places(s, searches, rank, (n - 1) as nat, places);
        let was = with_rank(s, searches, rank, (n - 1) as nat);
        let now = with_rank(s, searches, rank, n);
        let p = (rank, n - 1);
        let q = (rank, n as int);
        if rank < searches[n - 1].len() {
            let hit = searches[n - 1][rank];
            assert(is_place(searches, p));
            if has_url(was, hit.url) {
                assert forall|x: (int, int)| #[trigger]
                    is_place(searches, x) && place_before(x, q) implies has_url(
                    now,
                    searches[x.1][x.0].url,
                ) by {
                    if x != p {
                        assert(place_before(x, p));
                    }
                }
                before
            } else {
                let res = before.push(p);
                assert(now == was.push(hit));
                assert forall|i: int, x: (int, int)|
                    0 <= i < res.len() && #[trigger] is_place(searches, x) && place_before(
                        x,
                        #[trigger] res[i],
                    ) implies searches[x.1][x.0].url != now[i].url by {
                    if i < before.len() {
                        assert(res[i] == before[i]);
                    } else {
                        assert(has_url(was, searches[x.1][x.0].url));
                    }
                }
                assert forall|x: (int, int)| #[trigger]
                    is_place(searches, x) && place_before(x, q) implies has_url(
                    now,
                    searches[x.1][x.0].url,
                ) by {
                    if x == p {
                        assert(now[was.len() as int] == hit);
                    } else {
                        assert(place_before(x, p));
                        let url = searches[x.1][x.0].url;
                        let k = choose|k: int| 0 <= k < was.len() && (#[trigger] was[k]).url == url;
                        assert(now[k] == was[k]);
                    }
                }
                res
            }
        } else {
            assert forall|x: (int, int)| #[trigger]
                is_place(searches, x) && place_before(x, q) implies has_url(
                now,
                searches[x.1][x.0].url,
            ) by {
                assert(place_before(x, p));
            }
            before
        }
    }
}

proof fn lemma_places(searches: Seq<Seq<HitView>>, ranks: nat) -> (res: Seq<(int, int)>)
    ensures
        stand_at(searches, interleaved(searches, ranks), res),
        all_before(res, (ranks as int, 0)),
        covered_before(searches, interleaved(searches, ranks), (ranks as int, 0)),
    decreases ranks,
{
    if ranks == 0 {
        let none = Seq::<(int, int)>::empty();
        assert(interleaved(searches, 0) =~= Seq::empty());
        none
    } else {
        let before = lemma_places(searches, (ranks - 1) as nat);
        let res = lemma_rank_places(
            interleaved(searches, (ranks - 1) as nat),
            searches,
            ranks - 1,
            searches.len(),
            before,
        );
        let now = interleaved(searches, ranks);
        assert forall|x: (int, int)| #[trigger]
            is_place(searches, x) && place_before(x, (ranks as int, 0)) implies has_url(
            now,
            searches[x.1][x.0].url,
        ) by {
            assert(place_before(x, (ranks - 1, searches.len() as int)));
        }
        res
    }
}

/// Each search is noted with its hits, or with none where it failed, and the earlier ones stay.
/// Once the last one is noted, whether or not it or another one failed, the candidates are the
/// first eight hits of every search, each URL once, the better ranks first and in each rank the
/// earlier searches first.
pub proof fn law_searches_give_the_candidates(
    c: CollectorView,
    reply: JsonView,
    hits: Seq<HitView>,
)
    requires
        c.searches.len() < c.queries.len(),
    ensures
        ({
            let after = after_search(c, reply, hits);
            let s = after.searches;
            &&& s.len() == c.searches.len() + 1
            &&& forall|q: int| 0 <= q < c.searches.len() ==> #[trigger] s[q] == c.searches[q]
            &&& reply.member("error"@) is None ==> s.last() == hits
            &&& reply.member("error"@) is Some ==> s.last().len() == 0
            &&& s.len() < c.queries.len() ==> after.candidates == c.candidates
            &&& s.len() == c.queries.len() ==> {
                &&& forall|q: int, r: int|
                    0 <= q < s.len() && 0 <= r < 8 && r < s[q].len() ==> has_url(
                        after.candidates,
                        (#[trigger] s[q][r]).url,
                    )
                &&& forall|i: int, j: int|
                    0 <= i < j < after.candidates.len() ==> (#[trigger] after.candidates[i]).url
                        != (#[trigger] after.candidates[j]).url
                &&& exists|places: Seq<(int, int)>| #[trigger]
                    stand_at(s, after.candidates, places) && forall|i: int|
                        0 <= i < places.len() ==> (#[trigger] places[i]).0 < 8
            }
        }),
{
    let after = after_search(c, reply, hits);
    let s = after.searches;
    if s.len() == c.queries.len() {
        law_candidates_are_deduplicated(s, 8);
        let places = lemma_places(s, 8);
        assert(after.candidates == interleaved(s, 8));
        assert(stand_at(s, after.candidates, places));
        assert forall|i: int| 0 <= i < places.len() implies (#[trigger] places[i]).0 < 8 by {
            assert(place_before(places[i], (8, 0)));
        }
    }
}

/// A search that failed is recorded with its query and its error. A search changes nothing else
/// of a collection.
pub proof fn law_failed_searches_are_recorded(
    c: CollectorView,
    reply: JsonView,
    hits: Seq<HitView>,
)
    requires
        c.searches.len() < c.queries.len(),
    ensures
        ({
            let after = after_search(c, reply, hits);
            &&& reply.member("error"@) is None ==> after.failures == c.failures
            &&& reply.member("error"@) matches Some(error) ==> {
                &&& after.failures.len() == c.failures.len() + 1
                &&& after.failures.drop_last() == c.failures
                &&& says(after.failures.last(), "operation"@, JsonView::Text("search"@))
                &&& says(
                    after.failures.last(),
                    "query"@,
                    JsonView::Text(c.queries[c.searches.len() as int]),
                )
                &&& says(after.failures.last(), "error"@, error)
            }
        }),
        ({
            let after = after_search(c, reply, hits);
            &&& after.assignment_id == c.assignment_id && after.queries == c.queries
            &&& after.max_sources == c.max_sources && after.attempts == c.attempts
            &&& after.pending == c.pending && after.sources == c.sources
            &&& after.time_range == c.time_range
            &&& after.include_domains == c.include_domains
            &&& after.exclude_domains == c.exclude_domains
        }),
{
    let after = after_search(c, reply, hits);
    if let Some(error) = reply.member("error"@) {
        let x = after.failures.last();
        lemma_says(x);
        assert(x->Object_0[0].0 == "operation"@ && x->Object_0[1].0 == "query"@
            && x->Object_0[2].0 == "error"@);
        assert(after.failures.drop_last() =~= c.failures);
    }
}

/// Another page is wanted as long as there are fewer sources than were asked for, fewer than
/// twelve pages were tried, and a candidate is left.
pub proof fn law_pages_are_wanted_within_bounds(c: CollectorView)
    ensures
        wants_page(c) <==> c.sources.len() < c.max_sources && c.attempts < 12 && c.attempts
            < c.candidates.len(),
{
}

/// A page that could not be fetched, or that came without its identifier or its hash, is
/// recorded as a failure with its URL, and changes nothing else.
pub proof fn law_failed_pages_are_recorded(c: CollectorView, reply: JsonView)
    requires
        1 <= c.attempts <= c.candidates.len(),
        c.pending is None,
    ensures
        ({
            let after = after_page(c, reply);
            let url = c.candidates[c.attempts - 1].url;
            let x = after.failures.last();
            let provenance = reply.member("provenance"@);
            let known = provenance is Some && provenance->0.member_text("fetch_id"@) is Some
                && provenance->0.member_text("content_hash"@) is Some;
            &&& reply.member("error"@) is Some || !known ==> {
                &&& after == CollectorView { failures: c.failures.push(x), ..c }
                &&& says(x, "operation"@, JsonView::Text("scrape"@))
                &&& says(x, "url"@, JsonView::Text(url))
            }
            &&& reply.member("error"@) matches Some(error) ==> says(x, "error"@, error)
            &&& reply.member("error"@) is None && known ==> after.failures == c.failures
        }),
{
    let after = after_page(c, reply);
    let x = after.failures.last();
    if page_read(c.candidates[c.attempts - 1], reply) is Err {
        lemma_says(x);
        assert(x->Object_0[0].0 == "operation"@ && x->Object_0[1].0 == "url"@ && x->Object_0[2].0
            == "error"@);
        assert(after.failures =~= c.failures.push(x));
    }
}

/// A page that was fetched becomes a source: the title, the snippet and the date of its
/// candidate, the identifier, the hash, the URL, the time and the size of the reply, the first
/// 4,000 characters of its text and a quote of it. One with a quote waits for its check, and one
/// without is taken at once; either way it does not count as checked.
pub proof fn law_pages_become_sources(c: CollectorView, reply: JsonView)
    requires
        1 <= c.attempts <= c.candidates.len(),
        c.pending is None,
        reply.member("error"@) is None,
        reply.member("provenance"@) is Some,
        reply.member("provenance"@)->0.member_text("fetch_id"@) is Some,
        reply.member("provenance"@)->0.member_text("content_hash"@) is Some,
    ensures
        ({
            let after = after_page(c, reply);
            let hit = c.candidates[c.attempts - 1];
            let s = if after.pending is Some {
                after.pending->0
            } else {
                after.sources.last()
            };
            let p = reply.member("provenance"@)->0;
            let from = reply.member("source"@);
            let content = reply.member("content"@);
            let text = if content is Some && content->0.member_text("content_markdown"@) is Some {
                content->0.member_text("content_markdown"@)->0
            } else {
                Seq::empty()
            };
            &&& after == CollectorView { pending: after.pending, sources: after.sources, ..c }
            &&& after.pending is Some ==> after.sources == c.sources && s.verified_quote.len() > 0
            &&& after.pending is None ==> after.sources == c.sources.push(s)
                && s.verified_quote.len() == 0
            &&& s.title == hit.title && s.snippet == hit.snippet && s.published_at
                == hit.published_at
            &&& p.member_text("fetch_id"@) == Some(s.fetch_id)
            &&& p.member_text("content_hash"@) == Some(s.content_hash)
            &&& !s.quote_verified
            &&& from is Some && from->0.member_text("url"@) is Some ==> from->0.member_text(
                "url"@,
            ) == Some(s.url)
            &&& !(from is Some && from->0.member_text("url"@) is Some) ==> s.url == hit.url
            &&& from is Some && from->0.member_text("fetched_at"@) is Some ==> from->0.member_text(
                "fetched_at"@,
            ) == Some(s.fetched_at)
            &&& content is Some && content->0.member("bytes"@) is Some
                && content->0.member("bytes"@)->0 is Unsigned ==> content->0.member("bytes"@)
                == Some(JsonView::Unsigned(s.bytes))
            &&& has_at(text, s.excerpt, 0)
            &&& s.excerpt.len() == 4000 || s.excerpt == text
            &&& s.excerpt.len() <= 4000
            &&& s.verified_quote == opening_quote(text)
        }),
{
    reveal_strlit("");
    let after = after_page(c, reply);
    let hit = c.candidates[c.attempts - 1];
    let content = reply.member("content"@);
    let text = if content is Some && content->0.member_text("content_markdown"@) is Some {
        content->0.member_text("content_markdown"@)->0
    } else {
        Seq::empty()
    };
    let source = page_read(hit, reply)->Ok_0;
    let c2 = member_or_null(reply, "content"@);
    assert(member_text_or_empty(c2, "content_markdown"@) =~= text);
    assert(source.excerpt == first_chars(text, 4000));
    assert(text.subrange(0, source.excerpt.len() as int) =~= source.excerpt);
    if text.len() <= 4000 {
        assert(source.excerpt =~= text);
    }
}

/// The check of a quote moves the source that waits for it to the others, checked if and only if
/// the reply says that the quote was verified, and changes nothing else.
pub proof fn law_checks_settle_the_source(c: CollectorView, reply: JsonView)
    ensures
        c.pending is None ==> after_check(c, reply) == c,
        c.pending is Some ==> {
            let after = after_check(c, reply);
            let s = after.sources.last();
            let content = reply.member("content"@);
            let derived = if content is Some {
                content->0.member("derived"@)
            } else {
                None
            };
            let verified = derived is Some && derived->0.member("verified"@) == Some(
                JsonView::Bool(true),
            );
            &&& after == CollectorView { pending: None, sources: c.sources.push(s), ..c }
            &&& s == BundleSourceView { quote_verified: verified, ..c.pending->0 }
        },
{
}

/// The answer of a collection names the assignment, counts its searches, fetches and sources,
/// lists its queries and failures, and lists every source with all that is known of it.
pub proof fn law_answers_list_their_sources(c: CollectorView, audit_id: Seq<char>, now: i64)
    ensures
        ({
            let o = bundle_outcome(c, audit_id, now);
            let e = o.reply->Envelope_0;
            let v = e.content;
            &&& o.reply is Envelope && o.denial is None && o.audit is None && o.fetch is None
            &&& o.call == Some(("web_collect_evidence"@, "ok"@))
            &&& e.source.url == "research-assignment:"@ + c.assignment_id
            &&& e.audit_id == audit_id
            &&& says(v, "assignment_id"@, JsonView::Text(c.assignment_id))
            &&& says(v, "cached"@, JsonView::Bool(false))
            &&& says(v, "search_count"@, JsonView::Unsigned(c.queries.len() as u64))
            &&& says(v, "scrape_attempt_count"@, JsonView::Unsigned(c.attempts as u64))
            &&& says(v, "source_count"@, JsonView::Unsigned(c.sources.len() as u64))
            &&& says(v, "queries"@, text_array(c.queries))
            &&& says(v, "failures"@, JsonView::Array(c.failures))
            &&& exists|list: Seq<JsonView>| #[trigger]
                says(v, "sources"@, JsonView::Array(list)) && list.len() == c.sources.len()
                    && forall|i: int|
                    0 <= i < list.len() ==> tells_source(#[trigger] list[i], c.sources[i])
        }),
{
    let v = bundle_outcome(c, audit_id, now).reply->Envelope_0.content;
    lemma_says(v);
    let m = v->Object_0;
    assert(m[0].0 == "assignment_id"@ && m[1].0 == "cached"@ && m[2].0 == "search_count"@ && m[3].0
        == "scrape_attempt_count"@ && m[4].0 == "source_count"@ && m[5].0 == "queries"@ && m[6].0
        == "sources"@ && m[7].0 == "failures"@);
    let list = m[6].1->Array_0;
    assert(says(v, "sources"@, JsonView::Array(list)));
    assert forall|i: int| 0 <= i < list.len() implies tells_source(
        #[trigger] list[i],
        c.sources[i],
    ) by {
        let x = list[i];
        assert(x == bundle_source_json(c.sources[i]));
        lemma_says(x);
        let y = x->Object_0;
        assert(y[0].0 == "url"@ && y[1].0 == "title"@ && y[2].0 == "snippet"@ && y[3].0
            == "published_at"@ && y[4].0 == "fetched_at"@ && y[5].0 == "fetch_id"@ && y[6].0
            == "content_hash"@ && y[7].0 == "bytes"@ && y[8].0 == "excerpt"@ && y[9].0
            == "verified_quote"@ && y[10].0 == "quote_verified"@);
    }
}

/// A JSON value tells all that is known of a source.
pub open spec fn tells_source(v: JsonView, s: BundleSourceView) -> bool {
    &&& says(v, "url"@, JsonView::Text(s.url))
    &&& says(v, "title"@, JsonView::Text(s.title))
    &&& says(v, "snippet"@, JsonView::Text(s.snippet))
    &&& says(v, "published_at"@, text_or_null(s.published_at))
    &&& says(v, "fetched_at"@, JsonView::Text(s.fetched_at))
    &&& says(v, "fetch_id"@, JsonView::Text(s.fetch_id))
    &&& says(v, "content_hash"@, JsonView::Text(s.content_hash))
    &&& says(v, "bytes"@, JsonView::Unsigned(s.bytes))
    &&& says(v, "excerpt"@, JsonView::Text(s.excerpt))
    &&& says(v, "verified_quote"@, JsonView::Text(s.verified_quote))
    &&& says(v, "quote_verified"@, JsonView::Bool(s.quote_verified))
}

/// The quote of a page begins with the first character behind its first line that is not white
/// space, and takes up to 320 characters from there, without white space at their end.
pub proof fn law_opening_quotes_open_the_page(markdown: Seq<char>)
    ensures
        ({
            let q = opening_quote(markdown);
            let start = match first_at(markdown, "\n"@, 0) {
                Some(i) => i + 1,
                None => 0,
            };
            &&& q.len() > 0 ==> !char_is_whitespace(q[0]) && !char_is_whitespace(q.last())
            &&& q.len() == 0 ==> forall|j: int|
                start <= j < markdown.len() ==> char_is_whitespace(#[trigger] markdown[j])
            &&& q.len() > 0 ==> exists|k: int| #[trigger]
                has_at(markdown, q, k) && start <= k && (forall|j: int|
                    start <= j < k ==> char_is_whitespace(#[trigger] markdown[j])) && (forall|
                    j: int,
                |
                    k + q.len() <= j < k + 320 && j < markdown.len() ==> char_is_whitespace(
                        #[trigger] markdown[j],
                    ))
        }),
{
    reveal_strlit("\n");
    crate::text::lemma_first_at(markdown, "\n"@, 0);
    let start = match first_at(markdown, "\n"@, 0) {
        Some(i) => i + 1,
        None => 0,
    };
    let body = behind_first_line(markdown);
    assert(body =~= markdown.skip(start));
    let rest = trimmed_start(body);
    crate::text::lemma_drop_leading(body, white());
    let lead = body.len() - rest.len();
    let k = start + lead;
    let head = first_chars(rest, 320);
    crate::text::lemma_drop_trailing(head, white());
    let q = opening_quote(markdown);
    assert forall|j: int| start <= j < k implies char_is_whitespace(#[trigger] markdown[j]) by {
        assert(body[j - start] == markdown[j]);
        assert(white()(body[j - start]));
    }
    assert(rest =~= markdown.skip(k));
    if rest.len() > 0 {
        assert(!white()(rest[0]));
        assert(head[0] == rest[0]);
        if q.len() == 0 {
            assert(white()(head[0]));
        }
        assert(q[0] == rest[0]);
        assert(!white()(q.last()));
        assert(markdown.subrange(k, k + q.len()) =~= q);
        assert(has_at(markdown, q, k));
        assert forall|j: int| k + q.len() <= j < k + 320 && j < markdown.len() implies
            char_is_whitespace(#[trigger] markdown[j]) by {
            assert(head[j - k] == markdown[j]);
            assert(white()(head[j - k]));
        }
    } else {
        assert(head.len() == 0);
        assert forall|j: int| start <= j < markdown.len() implies char_is_whitespace(
            #[trigger] markdown[j],
        ) by {}
    }
}

/// The queries of an assignment are kept in their order: one more is kept, trimmed, if and only
/// if it is not blank and not among those before.
pub proof fn law_queries_are_kept_in_order(queries: Seq<Seq<char>>, q: Seq<char>)
    ensures
        clean_queries(Seq::empty()).len() == 0,
        trimmed(q).len() == 0 || (exists|i: int|
            0 <= i < queries.len() && trimmed(#[trigger] queries[i]) == trimmed(q))
            ==> clean_queries(queries.push(q)) == clean_queries(queries),
        trimmed(q).len() > 0 && (forall|i: int|
            0 <= i < queries.len() ==> trimmed(#[trigger] queries[i]) != trimmed(q))
            ==> clean_queries(queries.push(q)) == clean_queries(queries).push(trimmed(q)),
{
    assert(queries.push(q).drop_last() =~= queries);
    lemma_clean_holds(queries, trimmed(q));
}

proof fn lemma_clean_holds(queries: Seq<Seq<char>>, t: Seq<char>)
    ensures
        clean_queries(queries).contains(t) <==> t.len() > 0 && exists|i: int|
            0 <= i < queries.len() && trimmed(#[trigger] queries[i]) == t,
    decreases queries.len(),
{
    if queries.len() > 0 {
        let front = queries.drop_last();
        let before = clean_queries(front);
        let all = clean_queries(queries);
        let last = trimmed(queries.last());
        lemma_clean_holds(front, t);
        lemma_clean_holds(front, last);
        if t.len() > 0 && exists|i: int|
            0 <= i < queries.len() && trimmed(#[trigger] queries[i]) == t {
            let i = choose|i: int|
                0 <= i < queries.len() && trimmed(#[trigger] queries[i]) == t;
            if i < front.len() {
                assert(front[i] == queries[i]);
                let k = choose|k: int| 0 <= k < before.len() && before[k] == t;
                assert(all[k] == t);
            } else if !before.contains(t) {
                assert(all[before.len() as int] == t);
            } else {
                assert(all == before);
            }
        }
        if all.contains(t) {
            let k = choose|k: int| 0 <= k < all.len() && all[k] == t;
            if k < before.len() {
                assert(before[k] == t);
                let i = choose|i: int|
                    0 <= i < front.len() && trimmed(#[trigger] front[i]) == t;
                assert(queries[i] == front[i]);
            } else {
                assert(trimmed(queries[queries.len() - 1]) == t);
            }
        }
    }
}

/// An assignment is accepted if and only if its identifier has 1 to 256 bytes, it has one to six
/// queries, and it asks for one to eight sources, or says nothing of them and gets six.
pub proof fn law_assignments_that_are_accepted(
    assignment_id: Seq<char>,
    queries: nat,
    max_sources: Option<usize>,
    audit_id: Seq<char>,
)
    ensures
        ({
            let v = assignment_verdict(assignment_id, queries, max_sources, audit_id);
            let named = assignment_id.len() > 0 && utf8_len(assignment_id) <= 256;
            let asked = 1 <= queries <= 6;
            let sized = max_sources is None || 1 <= max_sources->0 <= 8;
            &&& v is Ok <==> named && asked && sized
            &&& v is Ok ==> v->Ok_0 == (match max_sources {
                Some(n) => n,
                None => 6usize,
            })
            &&& v is Err ==> v->Err_0.reply is Error && v->Err_0.reply->Error_0.kind
                == "invalid_argument"@ && v->Err_0.audit is None && v->Err_0.fetch is None
            &&& !named ==> v->Err_0.reply->Error_0.reason == "bad_assignment_id"@
            &&& named && !asked ==> v->Err_0.reply->Error_0.reason == "bad_query_count"@
            &&& named && asked && !sized ==> v->Err_0.reply->Error_0.reason == "bad_source_count"@
        }),
{
}

proof fn lemma_member_set(
    m: Seq<(Seq<char>, JsonView)>,
    key: Seq<char>,
    value: JsonView,
    other: Seq<char>,
)
    ensures
        first_member(with_member(m, key, value), key) == Some(value),
        other != key ==> first_member(with_member(m, key, value), other) == first_member(m, other),
    decreases m.len(),
{
    let after = with_member(m, key, value);
    if m.len() == 0 {
        assert(after[0] == (key, value));
        assert(after.drop_first() =~= m);
    } else {
        let rest = m.drop_first();
        if m[0].0 == key {
            assert(after.drop_first() =~= rest);
        } else {
            lemma_member_set(rest, key, value, other);
            assert(after.drop_first() =~= with_member(rest, key, value));
            assert(after[0] == m[0]);
        }
    }
}

/// A stored answer is given again where it and its content are objects, or null. It keeps every
/// member but the content, and the content keeps every member but the mark that says that it was
/// stored. The call is counted as one that was, and nothing is recorded.
pub proof fn law_stored_answers_are_given_again(stored: JsonView, key: Seq<char>)
    ensures
        ({
            let content = stored.member("content"@);
            let usable = (stored is Null || stored is Object) && (content is None || content->0
                is Null || content->0 is Object);
            &&& reuse_outcome(stored) is Some <==> usable
            &&& usable ==> {
                let o = reuse_outcome(stored)->0;
                let again = o.reply->Plain_0;
                let inner = again.member("content"@)->0;
                &&& o.denial is None && o.audit is None && o.fetch is None
                &&& o.call == Some(("web_collect_evidence"@, "cached"@))
                &&& o.reply is Plain && again is Object
                &&& key != "content"@ ==> again.member(key) == stored.member(key)
                &&& again.member("content"@) is Some && inner is Object
                &&& inner.member("cached"@) == Some(JsonView::Bool(true))
                &&& key != "cached"@ && content is Some ==> inner.member(key)
                    == content->0.member(key)
                &&& key != "cached"@ && content is None ==> inner.member(key) is None
            }
        }),
{
    let content = stored.member("content"@);
    match members_or_none(Some(stored)) {
        None => {},
        Some(m) => match members_or_none(content) {
            None => {},
            Some(c) => {
                let inner = JsonView::Object(with_member(c, "cached"@, JsonView::Bool(true)));
                lemma_member_set(c, "cached"@, JsonView::Bool(true), key);
                lemma_member_set(m, "content"@, inner, key);
            },
        },
    }
}

/// The answer to an assignment is one of its tool, made for the assignment's own address by the
/// two services, and the call is counted as one that went well.
pub proof fn law_answers_name_their_assignment(c: CollectorView, audit_id: Seq<char>, now: i64)
    ensures
        ({
            let o = bundle_outcome(c, audit_id, now);
            let e = o.reply->Envelope_0;
            &&& o.denial is None && o.audit is None && o.fetch is None
            &&& o.call == Some(("web_collect_evidence"@, "ok"@))
            &&& o.reply is Envelope
            &&& e.source.url == "research-assignment:"@ + c.assignment_id
            &&& e.source.tool == "web_collect_evidence"@
            &&& e.source.provider == "searxng+firecrawl-selfhosted"@
            &&& e.audit_id == audit_id && e.provenance is None
        }),
{
}

} // verus!
