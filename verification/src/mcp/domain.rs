//! What the tools are asked for, and what a search returns.
use vstd::prelude::*;

use crate::json::{
    lemma_says, member_views, says, text_array, text_or_null, unsigned_or_null, views, Json, JsonView,
};
use crate::text::{copy_opt, copy_texts, opt_text, texts};

verus! {

/// A size as a JSON number, or null where there is none.
pub open spec fn size_or_null(o: Option<usize>) -> JsonView {
    match o {
        Some(n) => JsonView::Unsigned(n as u64),
        None => JsonView::Null,
    }
}

fn opt_unsigned(o: Option<u64>) -> (res: Json)
    ensures
        res@ == unsigned_or_null(o),
{
    match o {
        Some(n) => Json::Unsigned(n),
        None => Json::Null,
    }
}

/// What a search asks for.
#[derive(Debug, Clone)]
pub struct WebSearchArgs {
    /// Search query.
    pub query: String,
    /// Most results, below the cap of the policy.
    pub max_results: Option<usize>,
    /// SearXNG categories.
    pub categories: Option<String>,
    /// SearXNG language code, such as "en" or "en-US".
    pub language: Option<String>,
    /// Freshness: "day", "month" or "year".
    pub time_range: Option<String>,
    /// Only these domains, any of them.
    pub include_domains: Vec<String>,
    /// None of these domains.
    pub exclude_domains: Vec<String>,
}

impl WebSearchArgs {
    /// The members of the JSON form.
    pub open spec fn members(&self) -> Seq<(Seq<char>, JsonView)> {
        seq![
            ("query"@, JsonView::Text(self.query@)),
            ("max_results"@, size_or_null(self.max_results)),
            ("categories"@, text_or_null(opt_text(self.categories))),
            ("language"@, text_or_null(opt_text(self.language))),
            ("time_range"@, text_or_null(opt_text(self.time_range))),
            ("include_domains"@, text_array(texts(self.include_domains@))),
            ("exclude_domains"@, text_array(texts(self.exclude_domains@))),
        ]
    }

    /// The JSON form.
    pub fn to_json(&self) -> (res: Json)
        ensures
            res@ == JsonView::Object(self.members()),
    {
        let members = vec![
            Json::field("query", Json::text(&self.query)),
            Json::field("max_results", Json::opt_size(self.max_results)),
            Json::field("categories", Json::opt_text(&self.categories)),
            Json::field("language", Json::opt_text(&self.language)),
            Json::field("time_range", Json::opt_text(&self.time_range)),
            Json::field("include_domains", Json::texts(&self.include_domains)),
            Json::field("exclude_domains", Json::texts(&self.exclude_domains)),
        ];
        assert(member_views(members@) =~= self.members());
        Json::object(members)
    }
}

/// What a research assignment asks for.
#[derive(Debug, Clone)]
pub struct WebCollectEvidenceArgs {
    /// The assignment; repeating it gives the stored answer.
    pub assignment_id: String,
    /// One to six queries.
    pub queries: Vec<String>,
    /// Most sources, one to eight.
    pub max_sources: Option<usize>,
    /// Freshness: "day", "month" or "year".
    pub time_range: Option<String>,
    /// Only these domains, any of them.
    pub include_domains: Vec<String>,
    /// None of these domains.
    pub exclude_domains: Vec<String>,
}

impl WebCollectEvidenceArgs {
    /// The members of the JSON form.
    pub open spec fn members(&self) -> Seq<(Seq<char>, JsonView)> {
        seq![
            ("assignment_id"@, JsonView::Text(self.assignment_id@)),
            ("queries"@, text_array(texts(self.queries@))),
            ("max_sources"@, size_or_null(self.max_sources)),
            ("time_range"@, text_or_null(opt_text(self.time_range))),
            ("include_domains"@, text_array(texts(self.include_domains@))),
            ("exclude_domains"@, text_array(texts(self.exclude_domains@))),
        ]
    }

    /// The JSON form.
    pub fn to_json(&self) -> (res: Json)
        ensures
            res@ == JsonView::Object(self.members()),
    {
        let members = vec![
            Json::field("assignment_id", Json::text(&self.assignment_id)),
            Json::field("queries", Json::texts(&self.queries)),
            Json::field("max_sources", Json::opt_size(self.max_sources)),
            Json::field("time_range", Json::opt_text(&self.time_range)),
            Json::field("include_domains", Json::texts(&self.include_domains)),
            Json::field("exclude_domains", Json::texts(&self.exclude_domains)),
        ];
        assert(member_views(members@) =~= self.members());
        Json::object(members)
    }
}

/// What a fetch of a page asks for.
#[derive(Debug, Clone)]
pub struct WebScrapeArgs {
    /// The page.
    pub url: String,
    /// "static" or "rendered".
    pub mode: Option<String>,
}

impl WebScrapeArgs {
    /// The members of the JSON form.
    pub open spec fn members(&self) -> Seq<(Seq<char>, JsonView)> {
        seq![
            ("url"@, JsonView::Text(self.url@)),
            ("mode"@, text_or_null(opt_text(self.mode))),
        ]
    }

    /// The JSON form.
    pub fn to_json(&self) -> (res: Json)
        ensures
            res@ == JsonView::Object(self.members()),
    {
        let members = vec![
            Json::field("url", Json::text(&self.url)),
            Json::field("mode", Json::opt_text(&self.mode)),
        ];
        assert(member_views(members@) =~= self.members());
        Json::object(members)
    }
}

/// Which stored page is asked for.
#[derive(Debug, Clone)]
pub struct WebGetFetchArgs {
    /// The identifier that the fetch returned.
    pub fetch_id: String,
}

/// What to find in a stored page.
#[derive(Debug, Clone)]
pub struct WebFindInFetchArgs {
    /// The identifier that the fetch returned.
    pub fetch_id: String,
    /// The exact text.
    pub needle: String,
    /// Most matches: 10, or up to 50.
    pub max_matches: Option<usize>,
    /// Context characters on either side of each match: 160, or up to 1000.
    pub context_chars: Option<usize>,
}

/// Which quote to verify in a stored page.
#[derive(Debug, Clone)]
pub struct WebVerifyQuoteArgs {
    /// The identifier that the fetch returned.
    pub fetch_id: String,
    /// The exact quote.
    pub quote: String,
    /// The hash that the page must have.
    pub expected_content_hash: Option<String>,
}

/// Which site's pages are asked for.
#[derive(Debug, Clone)]
pub struct WebMapArgs {
    pub url: String,
    pub max_pages: Option<usize>,
}

impl WebMapArgs {
    /// The members of the JSON form.
    pub open spec fn members(&self) -> Seq<(Seq<char>, JsonView)> {
        seq![
            ("url"@, JsonView::Text(self.url@)),
            ("max_pages"@, size_or_null(self.max_pages)),
        ]
    }

    /// The JSON form.
    pub fn to_json(&self) -> (res: Json)
        ensures
            res@ == JsonView::Object(self.members()),
    {
        let members = vec![
            Json::field("url", Json::text(&self.url)),
            Json::field("max_pages", Json::opt_size(self.max_pages)),
        ];
        assert(member_views(members@) =~= self.members());
        Json::object(members)
    }
}

/// What a crawl asks for.
#[derive(Debug, Clone)]
pub struct WebCrawlArgs {
    pub url: String,
    pub max_depth: usize,
    pub max_pages: usize,
}

impl WebCrawlArgs {
    /// The members of the JSON form.
    pub open spec fn members(&self) -> Seq<(Seq<char>, JsonView)> {
        seq![
            ("url"@, JsonView::Text(self.url@)),
            ("max_depth"@, JsonView::Unsigned(self.max_depth as u64)),
            ("max_pages"@, JsonView::Unsigned(self.max_pages as u64)),
        ]
    }

    /// The JSON form.
    pub fn to_json(&self) -> (res: Json)
        ensures
            res@ == JsonView::Object(self.members()),
    {
        let members = vec![
            Json::field("url", Json::text(&self.url)),
            Json::field("max_depth", Json::Unsigned(self.max_depth as u64)),
            Json::field("max_pages", Json::Unsigned(self.max_pages as u64)),
        ];
        assert(member_views(members@) =~= self.members());
        Json::object(members)
    }
}

/// What a new browser session asks for.
#[derive(Debug, Clone)]
pub struct BrowserOpenArgs {
    pub start_url: Option<String>,
    pub session_ttl: Option<u64>,
}

impl BrowserOpenArgs {
    /// The members of the JSON form.
    pub open spec fn members(&self) -> Seq<(Seq<char>, JsonView)> {
        seq![
            ("start_url"@, text_or_null(opt_text(self.start_url))),
            ("session_ttl"@, unsigned_or_null(self.session_ttl)),
        ]
    }

    /// The JSON form.
    pub fn to_json(&self) -> (res: Json)
        ensures
            res@ == JsonView::Object(self.members()),
    {
        let members = vec![
            Json::field("start_url", Json::opt_text(&self.start_url)),
            Json::field("session_ttl", opt_unsigned(self.session_ttl)),
        ];
        assert(member_views(members@) =~= self.members());
        Json::object(members)
    }
}

/// Which browser session is meant.
#[derive(Debug, Clone)]
pub struct BrowserSessionArgs {
    pub session_id: String,
}

impl BrowserSessionArgs {
    /// The members of the JSON form.
    pub open spec fn members(&self) -> Seq<(Seq<char>, JsonView)> {
        seq![
            ("session_id"@, JsonView::Text(self.session_id@)),
        ]
    }

    /// The JSON form.
    pub fn to_json(&self) -> (res: Json)
        ensures
            res@ == JsonView::Object(self.members()),
    {
        let members = vec![
            Json::field("session_id", Json::text(&self.session_id)),
        ];
        assert(member_views(members@) =~= self.members());
        Json::object(members)
    }
}

/// What a screenshot asks for.
#[derive(Debug, Clone)]
pub struct BrowserScreenshotArgs {
    pub session_id: String,
    pub full_page: Option<bool>,
}

/// What to click on.
#[derive(Debug, Clone)]
pub struct BrowserClickArgs {
    pub session_id: String,
    pub target: String,
}

/// What to type, and where.
#[derive(Debug, Clone)]
pub struct BrowserTypeArgs {
    pub session_id: String,
    pub target: String,
    pub text: String,
}

/// Where to scroll.
#[derive(Debug, Clone)]
pub struct BrowserScrollArgs {
    pub session_id: String,
    pub direction: String,
    pub amount: Option<i32>,
}

/// Which cookies are to be imported.
pub struct BrowserCookieImportArgs {
    pub session_id: String,
    pub cookies: Json,
}

/// A result of a search, by its rank. The score is given by its bits.
pub struct SearchHit {
    pub rank: usize,
    pub url: String,
    pub title: String,
    pub snippet: String,
    pub engine: String,
    pub engines: Vec<String>,
    pub score: Option<u64>,
    pub published_at: Option<String>,
}

/// A result of a search as a mathematical value.
#[verifier::ext_equal]
pub struct HitView {
    pub rank: usize,
    pub url: Seq<char>,
    pub title: Seq<char>,
    pub snippet: Seq<char>,
    pub engine: Seq<char>,
    pub engines: Seq<Seq<char>>,
    pub score: Option<u64>,
    pub published_at: Option<Seq<char>>,
}

impl View for SearchHit {
    type V = HitView;

    open spec fn view(&self) -> HitView {
        HitView {
            rank: self.rank,
            url: self.url@,
            title: self.title@,
            snippet: self.snippet@,
            engine: self.engine@,
            engines: texts(self.engines@),
            score: self.score,
            published_at: opt_text(self.published_at),
        }
    }
}

/// The views of some hits.
pub open spec fn hit_views(v: Seq<SearchHit>) -> Seq<HitView> {
    v.map_values(|h: SearchHit| h@)
}

/// A score as a JSON number, or null where there is none.
pub open spec fn score_or_null(o: Option<u64>) -> JsonView {
    match o {
        Some(bits) => JsonView::Fraction(bits),
        None => JsonView::Null,
    }
}

/// The JSON form of a hit.
pub open spec fn hit_json(h: HitView) -> JsonView {
    JsonView::Object(
        seq![
            ("rank"@, JsonView::Unsigned(h.rank as u64)),
            ("url"@, JsonView::Text(h.url)),
            ("title"@, JsonView::Text(h.title)),
            ("snippet"@, JsonView::Text(h.snippet)),
            ("engine"@, JsonView::Text(h.engine)),
            ("engines"@, text_array(h.engines)),
            ("score"@, score_or_null(h.score)),
            ("published_at"@, text_or_null(h.published_at)),
        ],
    )
}

impl SearchHit {
    /// The JSON form.
    pub fn to_json(&self) -> (res: Json)
        ensures
            res@ == hit_json(self@),
    {
        let score = match self.score {
            Some(bits) => Json::Fraction(bits),
            None => Json::Null,
        };
        let members = vec![
            Json::field("rank", Json::Unsigned(self.rank as u64)),
            Json::field("url", Json::text(&self.url)),
            Json::field("title", Json::text(&self.title)),
            Json::field("snippet", Json::text(&self.snippet)),
            Json::field("engine", Json::text(&self.engine)),
            Json::field("engines", Json::texts(&self.engines)),
            Json::field("score", score),
            Json::field("published_at", Json::opt_text(&self.published_at)),
        ];
        assert(member_views(members@) =~= hit_json(self@)->Object_0);
        Json::object(members)
    }

    /// A copy.
    pub fn copy(&self) -> (res: SearchHit)
        ensures
            res@ == self@,
    {
        SearchHit {
            rank: self.rank,
            url: self.url.clone(),
            title: self.title.clone(),
            snippet: self.snippet.clone(),
            engine: self.engine.clone(),
            engines: copy_texts(&self.engines),
            score: self.score,
            published_at: copy_opt(&self.published_at),
        }
    }
}

/// The JSON form of some hits.
pub fn hits_json(hits: &Vec<SearchHit>) -> (res: Json)
    ensures
        res@ == JsonView::Array(hit_views(hits@).map_values(|h: HitView| hit_json(h))),
{
    let mut items: Vec<Json> = Vec::new();
    let mut i: usize = 0;
    let ghost all = hit_views(hits@).map_values(|h: HitView| hit_json(h));
    while i < hits.len()
        invariant
            i <= hits@.len(),
            items@.len() == i,
            all == hit_views(hits@).map_values(|h: HitView| hit_json(h)),
            forall|k: int| 0 <= k < i ==> (#[trigger] items@[k])@ == all[k],
        decreases hits@.len() - i,
    {
        items.push(hits[i].to_json());
        i = i + 1;
    }
    assert(views(items@) =~= all);
    Json::array(items)
}

// ---------------------------------------------------------------------------
// Laws
// ---------------------------------------------------------------------------
/// A search is recorded with all that it asks for.
pub proof fn law_searches_are_recorded_as_asked(args: WebSearchArgs)
    ensures
        says(JsonView::Object(args.members()), "query"@, JsonView::Text(args.query@)),
        says(JsonView::Object(args.members()), "max_results"@, match args.max_results {
            Some(n) => JsonView::Unsigned(n as u64),
            None => JsonView::Null,
        }),
        says(JsonView::Object(args.members()), "categories"@, match args.categories {
            Some(s) => JsonView::Text(s@),
            None => JsonView::Null,
        }),
        says(JsonView::Object(args.members()), "language"@, match args.language {
            Some(s) => JsonView::Text(s@),
            None => JsonView::Null,
        }),
        says(JsonView::Object(args.members()), "time_range"@, match args.time_range {
            Some(s) => JsonView::Text(s@),
            None => JsonView::Null,
        }),
        says(JsonView::Object(args.members()), "include_domains"@, text_array(texts(args.include_domains@))),
        says(JsonView::Object(args.members()), "exclude_domains"@, text_array(texts(args.exclude_domains@))),
{
    let v = JsonView::Object(args.members());
    lemma_says(v);
    assert(v->Object_0[0].0 == "query"@);
    assert(v->Object_0[1].0 == "max_results"@);
    assert(v->Object_0[2].0 == "categories"@);
    assert(v->Object_0[3].0 == "language"@);
    assert(v->Object_0[4].0 == "time_range"@);
    assert(v->Object_0[5].0 == "include_domains"@);
    assert(v->Object_0[6].0 == "exclude_domains"@);
}

/// An assignment is recorded with all that it asks for.
pub proof fn law_assignments_are_recorded_as_asked(args: WebCollectEvidenceArgs)
    ensures
        says(JsonView::Object(args.members()), "assignment_id"@, JsonView::Text(args.assignment_id@)),
        says(JsonView::Object(args.members()), "queries"@, text_array(texts(args.queries@))),
        says(JsonView::Object(args.members()), "max_sources"@, match args.max_sources {
            Some(n) => JsonView::Unsigned(n as u64),
            None => JsonView::Null,
        }),
        says(JsonView::Object(args.members()), "time_range"@, match args.time_range {
            Some(s) => JsonView::Text(s@),
            None => JsonView::Null,
        }),
        says(JsonView::Object(args.members()), "include_domains"@, text_array(texts(args.include_domains@))),
        says(JsonView::Object(args.members()), "exclude_domains"@, text_array(texts(args.exclude_domains@))),
{
    let v = JsonView::Object(args.members());
    lemma_says(v);
    assert(v->Object_0[0].0 == "assignment_id"@);
    assert(v->Object_0[1].0 == "queries"@);
    assert(v->Object_0[2].0 == "max_sources"@);
    assert(v->Object_0[3].0 == "time_range"@);
    assert(v->Object_0[4].0 == "include_domains"@);
    assert(v->Object_0[5].0 == "exclude_domains"@);
}

/// A fetch is recorded with its URL and its mode.
pub proof fn law_fetches_are_recorded_as_asked(args: WebScrapeArgs)
    ensures
        says(JsonView::Object(args.members()), "url"@, JsonView::Text(args.url@)),
        says(JsonView::Object(args.members()), "mode"@, match args.mode {
            Some(s) => JsonView::Text(s@),
            None => JsonView::Null,
        }),
{
    let v = JsonView::Object(args.members());
    lemma_says(v);
    assert(v->Object_0[0].0 == "url"@);
    assert(v->Object_0[1].0 == "mode"@);
}

/// A map of a site is recorded with its URL and its number of pages.
pub proof fn law_maps_are_recorded_as_asked(args: WebMapArgs)
    ensures
        says(JsonView::Object(args.members()), "url"@, JsonView::Text(args.url@)),
        says(JsonView::Object(args.members()), "max_pages"@, match args.max_pages {
            Some(n) => JsonView::Unsigned(n as u64),
            None => JsonView::Null,
        }),
{
    let v = JsonView::Object(args.members());
    lemma_says(v);
    assert(v->Object_0[0].0 == "url"@);
    assert(v->Object_0[1].0 == "max_pages"@);
}

/// A crawl is recorded with its URL, its depth and its number of pages.
pub proof fn law_crawls_are_recorded_as_asked(args: WebCrawlArgs)
    ensures
        says(JsonView::Object(args.members()), "url"@, JsonView::Text(args.url@)),
        says(JsonView::Object(args.members()), "max_depth"@, JsonView::Unsigned(args.max_depth as u64)),
        says(JsonView::Object(args.members()), "max_pages"@, JsonView::Unsigned(args.max_pages as u64)),
{
    let v = JsonView::Object(args.members());
    lemma_says(v);
    assert(v->Object_0[0].0 == "url"@);
    assert(v->Object_0[1].0 == "max_depth"@);
    assert(v->Object_0[2].0 == "max_pages"@);
}

/// A new session is recorded with the page that it starts with and its lifetime.
pub proof fn law_openings_are_recorded_as_asked(args: BrowserOpenArgs)
    ensures
        says(JsonView::Object(args.members()), "start_url"@, match args.start_url {
            Some(s) => JsonView::Text(s@),
            None => JsonView::Null,
        }),
        says(JsonView::Object(args.members()), "session_ttl"@, match args.session_ttl {
            Some(n) => JsonView::Unsigned(n),
            None => JsonView::Null,
        }),
{
    let v = JsonView::Object(args.members());
    lemma_says(v);
    assert(v->Object_0[0].0 == "start_url"@);
    assert(v->Object_0[1].0 == "session_ttl"@);
}

/// The end of a session is recorded with its identifier.
pub proof fn law_closings_are_recorded_as_asked(args: BrowserSessionArgs)
    ensures
        says(JsonView::Object(args.members()), "session_id"@, JsonView::Text(args.session_id@)),
{
    let v = JsonView::Object(args.members());
    lemma_says(v);
    assert(v->Object_0[0].0 == "session_id"@);
}

/// The JSON form of a hit says all that is known of it; what is not known is null.
pub proof fn law_hits_are_told_whole(h: HitView)
    ensures
        says(hit_json(h), "rank"@, JsonView::Unsigned(h.rank as u64)),
        says(hit_json(h), "url"@, JsonView::Text(h.url)),
        says(hit_json(h), "title"@, JsonView::Text(h.title)),
        says(hit_json(h), "snippet"@, JsonView::Text(h.snippet)),
        says(hit_json(h), "engine"@, JsonView::Text(h.engine)),
        says(hit_json(h), "engines"@, text_array(h.engines)),
        says(
            hit_json(h),
            "score"@,
            match h.score {
                Some(bits) => JsonView::Fraction(bits),
                None => JsonView::Null,
            },
        ),
        says(
            hit_json(h),
            "published_at"@,
            match h.published_at {
                Some(at) => JsonView::Text(at),
                None => JsonView::Null,
            },
        ),
{
    let v = hit_json(h);
    lemma_says(v);
    let m = v->Object_0;
    assert(m[0].0 == "rank"@ && m[1].0 == "url"@ && m[2].0 == "title"@ && m[3].0 == "snippet"@);
    assert(m[4].0 == "engine"@ && m[5].0 == "engines"@ && m[6].0 == "score"@ && m[7].0
        == "published_at"@);
}

} // verus!
