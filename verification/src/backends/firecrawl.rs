//! Pages through Firecrawl.
use vstd::prelude::*;

use crate::backends::{endpoint_url, url_at, BackendError, FailureView};
use crate::json::{lemma_says, member_views, says, texts_among, texts_in, views, Json, JsonView};
use crate::text::{same_text, texts};

verus! {

/// A page that was fetched.
pub struct ScrapeResult {
    pub url: String,
    pub markdown: String,
    pub links: Vec<String>,
    pub metadata: Json,
    pub status_code: Option<u16>,
}

/// A page that was fetched, as a mathematical value.
pub struct ScrapeView {
    pub url: Seq<char>,
    pub markdown: Seq<char>,
    pub links: Seq<Seq<char>>,
    pub metadata: JsonView,
    pub status_code: Option<u16>,
}

impl View for ScrapeResult {
    type V = ScrapeView;

    open spec fn view(&self) -> ScrapeView {
        ScrapeView {
            url: self.url@,
            markdown: self.markdown@,
            links: texts(self.links@),
            metadata: self.metadata@,
            status_code: self.status_code,
        }
    }
}

/// The views of some pages.
pub open spec fn page_views(v: Seq<ScrapeResult>) -> Seq<ScrapeView> {
    v.map_values(|p: ScrapeResult| p@)
}

/// A page of a site, by its URL.
#[derive(Debug, Clone)]
pub struct MapEntry {
    pub url: String,
    pub title: Option<String>,
}

/// How many milliseconds a crawl may take.
pub const CRAWL_DEADLINE_MILLIS: u64 = 120_000;

// ---------------------------------------------------------------------------
// Requests
// ---------------------------------------------------------------------------
/// The formats that are asked for.
pub open spec fn formats_view() -> JsonView {
    JsonView::Array(seq![JsonView::Text("markdown"@), JsonView::Text("links"@)])
}

fn formats() -> (res: Json)
    ensures
        res@ == formats_view(),
{
    let items = vec![Json::text("markdown"), Json::text("links")];
    assert(views(items@) =~= formats_view()->Array_0);
    Json::array(items)
}

/// The body of a request for a page.
pub open spec fn scrape_body_view(url: Seq<char>, rendered: bool) -> JsonView {
    JsonView::Object(
        seq![
            ("url"@, JsonView::Text(url)),
            ("formats"@, formats_view()),
            ("onlyMainContent"@, JsonView::Bool(true)),
            (
                "waitFor"@,
                JsonView::Unsigned(
                    if rendered {
                        1000
                    } else {
                        0
                    },
                ),
            ),
        ],
    )
}

/// The body of a request for a page.
pub fn scrape_body(url: &str, rendered: bool) -> (res: Json)
    ensures
        res@ == scrape_body_view(url@, rendered),
{
    let wait: u64 = if rendered {
        1000
    } else {
        0
    };
    let members = vec![
        Json::field("url", Json::text(url)),
        Json::field("formats", formats()),
        Json::field("onlyMainContent", Json::Bool(true)),
        Json::field("waitFor", Json::Unsigned(wait)),
    ];
    assert(member_views(members@) =~= scrape_body_view(url@, rendered)->Object_0);
    Json::object(members)
}

/// The body of a request for the pages of a site.
pub open spec fn map_body_view(url: Seq<char>, max_pages: u64) -> JsonView {
    JsonView::Object(
        seq![("url"@, JsonView::Text(url)), ("limit"@, JsonView::Unsigned(max_pages))],
    )
}

/// The body of a request for the pages of a site.
pub fn map_body(url: &str, max_pages: usize) -> (res: Json)
    ensures
        res@ == map_body_view(url@, max_pages as u64),
{
    let members = vec![
        Json::field("url", Json::text(url)),
        Json::field("limit", Json::Unsigned(max_pages as u64)),
    ];
    assert(member_views(members@) =~= map_body_view(url@, max_pages as u64)->Object_0);
    Json::object(members)
}

/// The body of a request for a crawl.
pub open spec fn crawl_body_view(url: Seq<char>, max_depth: u64, max_pages: u64) -> JsonView {
    JsonView::Object(
        seq![
            ("url"@, JsonView::Text(url)),
            ("limit"@, JsonView::Unsigned(max_pages)),
            ("maxDepth"@, JsonView::Unsigned(max_depth)),
            (
                "scrapeOptions"@,
                JsonView::Object(
                    seq![
                        ("formats"@, formats_view()),
                        ("onlyMainContent"@, JsonView::Bool(true)),
                    ],
                ),
            ),
        ],
    )
}

/// The body of a request for a crawl.
pub fn crawl_body(url: &str, max_depth: usize, max_pages: usize) -> (res: Json)
    ensures
        res@ == crawl_body_view(url@, max_depth as u64, max_pages as u64),
{
    let options = vec![
        Json::field("formats", formats()),
        Json::field("onlyMainContent", Json::Bool(true)),
    ];
    assert(member_views(options@) =~= seq![
        ("formats"@, formats_view()),
        ("onlyMainContent"@, JsonView::Bool(true)),
    ]);
    let members = vec![
        Json::field("url", Json::text(url)),
        Json::field("limit", Json::Unsigned(max_pages as u64)),
        Json::field("maxDepth", Json::Unsigned(max_depth as u64)),
        Json::field("scrapeOptions", Json::object(options)),
    ];
    assert(member_views(members@) =~= crawl_body_view(
        url@,
        max_depth as u64,
        max_pages as u64,
    )->Object_0);
    Json::object(members)
}

// ---------------------------------------------------------------------------
// Replies
// ---------------------------------------------------------------------------
/// The text of a member, or the empty text.
pub open spec fn text_at(v: JsonView, key: Seq<char>) -> Seq<char> {
    match v.member_text(key) {
        Some(s) => s,
        None => ""@,
    }
}

/// The links of a page.
pub open spec fn links_of(v: JsonView) -> Seq<Seq<char>> {
    match v.member("links"@) {
        Some(JsonView::Array(items)) => texts_among(items),
        _ => Seq::empty(),
    }
}

/// The metadata of a page.
pub open spec fn metadata_of(v: JsonView) -> JsonView {
    match v.member("metadata"@) {
        Some(m) => m,
        None => JsonView::Null,
    }
}

fn member_text_or_empty(v: &Json, key: &str) -> (res: String)
    ensures
        res@ == text_at(v@, key@),
{
    match v.get_text(key) {
        Some(s) => s.clone(),
        None => "".to_owned(),
    }
}

fn read_links(v: &Json) -> (res: Vec<String>)
    ensures
        texts(res@) == links_of(v@),
{
    let list = match v.get("links") {
        Some(l) => l.as_array(),
        None => None,
    };
    match list {
        Some(items) => texts_in(items),
        None => {
            let none: Vec<String> = Vec::new();
            assert(texts(none@) =~= Seq::empty());
            none
        },
    }
}

fn read_metadata(v: &Json) -> (res: Json)
    ensures
        res@ == metadata_of(v@),
{
    match v.get("metadata") {
        Some(m) => m.copy(),
        None => Json::Null,
    }
}

/// The status of the target that a page's metadata gives.
pub open spec fn target_status(metadata: JsonView) -> Option<u64> {
    match metadata.member("statusCode"@) {
        Some(v) => v.unsigned(),
        None => None,
    }
}

/// The failure that a page without text reports: where the target's status is an error or
/// missing, the error of its metadata.
pub open spec fn hidden_failure(markdown: Seq<char>, metadata: JsonView) -> Option<FailureView> {
    let status = target_status(metadata);
    if markdown.len() > 0 || (status is Some && status->0 < 400) {
        None
    } else {
        match metadata.member_text("error"@) {
            Some(error) => if error.len() == 0 {
                None
            } else {
                Some(
                    FailureView::Http {
                        status: match status {
                            Some(c) => (c % 65536) as u16,
                            None => 502,
                        },
                        body: error,
                    },
                )
            },
            None => None,
        }
    }
}

/// What a reply to a request for a page says.
pub open spec fn scraped(url: Seq<char>, reply: JsonView) -> Result<ScrapeView, FailureView> {
    match reply.member("data"@) {
        None => Err(FailureView::Malformed("missing data"@)),
        Some(data) => {
            let markdown = text_at(data, "markdown"@);
            let metadata = metadata_of(data);
            match hidden_failure(markdown, metadata) {
                Some(failure) => Err(failure),
                None => Ok(
                    ScrapeView { url, markdown, links: links_of(data), metadata, status_code: None },
                ),
            }
        },
    }
}

/// Reads a reply to a request for a page. A fetch that failed is reported as a success without
/// text, so such a reply is taken for the failure it hides.
pub fn read_scrape(url: &str, reply: &Json) -> (res: Result<ScrapeResult, BackendError>)
    ensures
        scraped(url@, reply@) == match res {
            Ok(r) => Ok::<ScrapeView, FailureView>(r@),
            Err(e) => Err::<ScrapeView, FailureView>(e@),
        },
{
    let data = match reply.get("data") {
        Some(data) => data,
        None => {
            return Err(BackendError::Malformed("missing data".to_owned()));
        },
    };
    let markdown = member_text_or_empty(data, "markdown");
    let links = read_links(data);
    let metadata = read_metadata(data);
    if let Some(failure) = read_hidden_failure(&markdown, &metadata) {
        return Err(failure);
    }
    Ok(ScrapeResult { url: url.to_owned(), markdown, links, metadata, status_code: None })
}

fn read_hidden_failure(markdown: &str, metadata: &Json) -> (res: Option<BackendError>)
    ensures
        hidden_failure(markdown@, metadata@) == match res {
            Some(e) => Some(e@),
            None => None,
        },
{
    let length: usize = crate::text::chars_of(markdown).len();
    if length > 0 {
        return None;
    }
    let status: Option<u64> = match metadata.get("statusCode") {
        Some(v) => v.as_unsigned(),
        None => None,
    };
    let failed = match status {
        Some(c) => c >= 400,
        None => true,
    };
    if !failed {
        return None;
    }
    match metadata.get_text("error") {
        Some(error) => {
            let error_length: usize = crate::text::chars_of(error).len();
            if error_length == 0 {
                return None;
            }
            let code: u16 = match status {
                Some(c) => (c % 65536) as u16,
                None => 502,
            };
            Some(BackendError::Http { status: code, body: error.clone() })
        },
        None => None,
    }
}

/// The URLs of some pages of a site.
pub open spec fn entry_urls(v: Seq<MapEntry>) -> Seq<Seq<char>> {
    v.map_values(|e: MapEntry| e.url@)
}

/// Reads a reply to a request for the pages of a site.
pub fn read_map(reply: &Json) -> (res: Result<Vec<MapEntry>, BackendError>)
    ensures
        match (reply@.member("links"@), res) {
            (Some(JsonView::Array(items)), Ok(entries)) => entry_urls(entries@) == texts_among(
                items,
            ) && forall|i: int|
                0 <= i < entries@.len() ==> (#[trigger] entries@[i]).title is None,
            (Some(JsonView::Array(_)), Err(_)) => false,
            (_, Ok(_)) => false,
            (_, Err(e)) => e@ == FailureView::Malformed("missing links"@),
        },
{
    let list = match reply.get("links") {
        Some(l) => l.as_array(),
        None => None,
    };
    let items = match list {
        Some(items) => items,
        None => {
            return Err(BackendError::Malformed("missing links".to_owned()));
        },
    };
    let urls = texts_in(items);
    let mut out: Vec<MapEntry> = Vec::new();
    let mut i: usize = 0;
    assert(entry_urls(out@) =~= texts(urls@).take(0));
    while i < urls.len()
        invariant
            i <= urls@.len(),
            entry_urls(out@) == texts(urls@).take(i as int),
            forall|k: int| 0 <= k < out@.len() ==> (#[trigger] out@[k]).title is None,
        decreases urls@.len() - i,
    {
        let ghost before = out@;
        out.push(MapEntry { url: urls[i].clone(), title: None });
        proof {
            assert(entry_urls(out@) =~= entry_urls(before).push(urls@[i as int]@));
            assert(texts(urls@).take(i + 1) =~= texts(urls@).take(i as int).push(urls@[i as int]@));
        }
        i = i + 1;
    }
    assert(texts(urls@).take(urls@.len() as int) =~= texts(urls@));
    Ok(out)
}

// ---------------------------------------------------------------------------
// Crawls
// ---------------------------------------------------------------------------
/// The job that a reply to a request for a crawl names.
pub fn read_crawl_start(reply: &Json) -> (res: Result<String, BackendError>)
    ensures
        match (reply@.member_text("id"@), res) {
            (Some(id), Ok(job)) => job@ == id,
            (None, Err(e)) => e@ == FailureView::Malformed(
                "missing job id in crawl start response"@,
            ),
            _ => false,
        },
{
    match reply.get_text("id") {
        Some(id) => Ok(id.clone()),
        None => Err(
            BackendError::Malformed("missing job id in crawl start response".to_owned()),
        ),
    }
}

/// The URL that a page of a crawl has: the one of its metadata, or its own.
pub open spec fn page_url(item: JsonView) -> Seq<char> {
    match metadata_of(item).member_text("sourceURL"@) {
        Some(url) => url,
        None => text_at(item, "url"@),
    }
}

/// A page of a crawl.
pub open spec fn crawled_page(item: JsonView) -> ScrapeView {
    ScrapeView {
        url: page_url(item),
        markdown: text_at(item, "markdown"@),
        links: links_of(item),
        metadata: metadata_of(item),
        status_code: None,
    }
}

/// The pages of a reply about a crawl.
pub open spec fn crawled_pages(reply: JsonView) -> Seq<ScrapeView> {
    match reply.member("data"@) {
        Some(JsonView::Array(items)) => items.map_values(|item: JsonView| crawled_page(item)),
        _ => Seq::empty(),
    }
}

/// Where the pages of a crawl go on, if they do.
pub open spec fn next_link(reply: JsonView) -> Option<Seq<char>> {
    match reply.member_text("next"@) {
        Some(url) => if url.len() > 0 {
            Some(url)
        } else {
            None
        },
        None => None,
    }
}

fn read_page(item: &Json) -> (res: ScrapeResult)
    ensures
        res@ == crawled_page(item@),
{
    let metadata = read_metadata(item);
    let url = match metadata.get_text("sourceURL") {
        Some(url) => url.clone(),
        None => member_text_or_empty(item, "url"),
    };
    let markdown = member_text_or_empty(item, "markdown");
    let links = read_links(item);
    ScrapeResult { url, markdown, links, metadata, status_code: None }
}

/// Adds the pages of a reply to those that came before.
pub fn collect_pages(body: &Json, out: &mut Vec<ScrapeResult>)
    ensures
        page_views(final(out)@) == page_views(old(out)@) + crawled_pages(body@),
{
    let ghost before = page_views(out@);
    let list = match body.get("data") {
        Some(l) => l.as_array(),
        None => None,
    };
    if let Some(items) = list {
        let ghost all = views(items@).map_values(|item: JsonView| crawled_page(item));
        let mut i: usize = 0;
        assert(page_views(out@) =~= before + all.take(0));
        while i < items.len()
            invariant
                i <= items@.len(),
                all == views(items@).map_values(|item: JsonView| crawled_page(item)),
                page_views(out@) == before + all.take(i as int),
            decreases items@.len() - i,
        {
            let ghost was = out@;
            out.push(read_page(&items[i]));
            proof {
                assert(all[i as int] == crawled_page(items@[i as int]@));
                assert(page_views(out@) =~= page_views(was).push(all[i as int]));
                assert(before + all.take(i + 1) =~= (before + all.take(i as int)).push(
                    all[i as int],
                ));
            }
            i = i + 1;
        }
        assert(all.take(all.len() as int) =~= all);
    } else {
        assert(page_views(out@) =~= before + Seq::empty());
    }
}

/// A crawl that is under way: where its state is asked for, the pages so far, and where they
/// go on, once it is complete.
pub struct CrawlJob {
    pub poll_url: String,
    pub pages: Vec<ScrapeResult>,
    pub next: Option<String>,
}

/// A crawl that is under way, as a mathematical value.
pub struct JobView {
    pub poll_url: Seq<char>,
    pub pages: Seq<ScrapeView>,
    pub next: Option<Seq<char>>,
}

impl View for CrawlJob {
    type V = JobView;

    open spec fn view(&self) -> JobView {
        JobView {
            poll_url: self.poll_url@,
            pages: page_views(self.pages@),
            next: crate::text::opt_text(self.next),
        }
    }
}

/// What a request about a crawl came to.
pub enum CrawlEvent {
    /// No reply came.
    Failed(BackendError),
    /// The reply was no success.
    Refused { status: u16, body: String },
    /// The reply was no JSON.
    Garbled(String),
    /// The reply.
    Reply(Json),
}

/// What a request about a crawl came to, as a mathematical value.
pub enum EventView {
    Failed(FailureView),
    Refused { status: u16, body: Seq<char> },
    Garbled(Seq<char>),
    Reply(JsonView),
}

impl View for CrawlEvent {
    type V = EventView;

    open spec fn view(&self) -> EventView {
        match *self {
            CrawlEvent::Failed(e) => EventView::Failed(e@),
            CrawlEvent::Refused { status, body } => EventView::Refused { status, body: body@ },
            CrawlEvent::Garbled(detail) => EventView::Garbled(detail@),
            CrawlEvent::Reply(body) => EventView::Reply(body@),
        }
    }
}

/// What comes next in a crawl.
pub enum CrawlStep {
    /// A request at once.
    Fetch(CrawlJob),
    /// A pause, and then a request.
    Pause(CrawlJob),
    /// The end, with all pages or a failure.
    Done(Result<Vec<ScrapeResult>, BackendError>),
}

/// What comes next in a crawl, as a mathematical value.
pub enum StepView {
    Fetch(JobView),
    Pause(JobView),
    Done(Result<Seq<ScrapeView>, FailureView>),
}

impl View for CrawlStep {
    type V = StepView;

    open spec fn view(&self) -> StepView {
        match *self {
            CrawlStep::Fetch(job) => StepView::Fetch(job@),
            CrawlStep::Pause(job) => StepView::Pause(job@),
            CrawlStep::Done(Ok(pages)) => StepView::Done(Ok(page_views(pages@))),
            CrawlStep::Done(Err(e)) => StepView::Done(Err(e@)),
        }
    }
}

/// What comes after a reply with pages: the next of them, or the end.
pub open spec fn after_pages(job: JobView, reply: JsonView) -> StepView {
    let pages = job.pages + crawled_pages(reply);
    match next_link(reply) {
        Some(url) => StepView::Fetch(JobView { poll_url: job.poll_url, pages, next: Some(url) }),
        None => StepView::Done(Ok(pages)),
    }
}

/// What comes after a request about a crawl. Until the crawl is complete its state is asked
/// for; after that its pages are read, and a refusal ends them where they are.
pub open spec fn crawl_after(job: JobView, event: EventView) -> StepView {
    match event {
        EventView::Failed(e) => StepView::Done(Err(e)),
        EventView::Garbled(detail) => StepView::Done(Err(FailureView::Malformed(detail))),
        EventView::Refused { status, body } => if job.next is Some {
            StepView::Done(Ok(job.pages))
        } else {
            StepView::Done(Err(FailureView::Http { status, body }))
        },
        EventView::Reply(reply) => if job.next is Some {
            after_pages(job, reply)
        } else if text_at(reply, "status"@) == "failed"@ {
            StepView::Done(Err(FailureView::Http { status: 502, body: "crawl job failed"@ }))
        } else if text_at(reply, "status"@) == "completed"@ {
            after_pages(job, reply)
        } else {
            StepView::Pause(job)
        },
    }
}

impl CrawlJob {
    /// A crawl that has just begun.
    pub fn start(endpoint: &str, job_id: &str) -> (res: Self)
        ensures
            res@.poll_url == endpoint_url(endpoint@, "/v1/crawl/"@ + job_id@),
            res@.pages == Seq::<ScrapeView>::empty(),
            res@.next is None,
    {
        let mut path = "/v1/crawl/".to_owned();
        path.push_str(job_id);
        let res = CrawlJob { poll_url: url_at(endpoint, &path), pages: Vec::new(), next: None };
        assert(res@.pages =~= Seq::empty());
        res
    }

    /// The URL to ask next, unless the crawl has taken too long.
    pub fn next_request(&self, elapsed_millis: u64) -> (res: Result<String, BackendError>)
        ensures
            match res {
                Ok(url) => elapsed_millis < CRAWL_DEADLINE_MILLIS && url@ == match self@.next {
                    Some(next) => next,
                    None => self@.poll_url,
                },
                Err(e) => elapsed_millis >= CRAWL_DEADLINE_MILLIS && e@ == FailureView::Timeout(
                    CRAWL_DEADLINE_MILLIS,
                ),
            },
    {
        if elapsed_millis >= CRAWL_DEADLINE_MILLIS {
            return Err(BackendError::Timeout(CRAWL_DEADLINE_MILLIS));
        }
        match &self.next {
            Some(url) => Ok(url.clone()),
            None => Ok(self.poll_url.clone()),
        }
    }

    fn take_pages(self, reply: &Json) -> (res: CrawlStep)
        ensures
            res@ == after_pages(self@, reply@),
    {
        let mut pages = self.pages;
        collect_pages(reply, &mut pages);
        let next = match reply.get_text("next") {
            Some(url) => {
                let length: usize = crate::text::chars_of(url).len();
                if length > 0 {
                    Some(url.clone())
                } else {
                    None
                }
            },
            None => None,
        };
        match next {
            Some(url) => CrawlStep::Fetch(
                CrawlJob { poll_url: self.poll_url, pages, next: Some(url) },
            ),
            None => CrawlStep::Done(Ok(pages)),
        }
    }

    /// What comes after a request.
    pub fn advance(self, event: CrawlEvent) -> (res: CrawlStep)
        ensures
            res@ == crawl_after(self@, event@),
    {
        match event {
            CrawlEvent::Failed(e) => CrawlStep::Done(Err(e)),
            CrawlEvent::Garbled(detail) => CrawlStep::Done(Err(BackendError::Malformed(detail))),
            CrawlEvent::Refused { status, body } => if self.next.is_some() {
                CrawlStep::Done(Ok(self.pages))
            } else {
                CrawlStep::Done(Err(BackendError::Http { status, body }))
            },
            CrawlEvent::Reply(reply) => {
                if self.next.is_some() {
                    return self.take_pages(&reply);
                }
                let status = member_text_or_empty(&reply, "status");
                if same_text(&status, "failed") {
                    CrawlStep::Done(
                        Err(
                            BackendError::Http { status: 502, body: "crawl job failed".to_owned() },
                        ),
                    )
                } else if same_text(&status, "completed") {
                    self.take_pages(&reply)
                } else {
                    CrawlStep::Pause(self)
                }
            },
        }
    }
}

// ---------------------------------------------------------------------------
// Laws
// ---------------------------------------------------------------------------
/// A page that reports success and carries text is evidence, whatever else its metadata says.
pub proof fn law_pages_with_text_are_evidence(url: Seq<char>, reply: JsonView)
    requires
        reply.member("data"@) is Some,
        text_at(reply.member("data"@)->0, "markdown"@).len() > 0,
    ensures
        scraped(url, reply) is Ok,
        scraped(url, reply)->Ok_0.markdown == text_at(reply.member("data"@)->0, "markdown"@),
{
}

/// A fetch that failed at its target is never taken for a page without text.
pub proof fn law_failed_fetches_are_reported(url: Seq<char>, reply: JsonView)
    requires
        reply.member("data"@) is Some,
        text_at(reply.member("data"@)->0, "markdown"@).len() == 0,
        metadata_of(reply.member("data"@)->0).member_text("error"@) is Some,
        metadata_of(reply.member("data"@)->0).member_text("error"@)->0.len() > 0,
        target_status(metadata_of(reply.member("data"@)->0)) matches Some(c) ==> c >= 400,
    ensures
        scraped(url, reply) is Err,
{
}

/// No page of a crawl is lost on the way: each step keeps the pages so far at the head.
pub proof fn law_crawls_keep_their_pages(job: JobView, event: EventView)
    ensures
        match crawl_after(job, event) {
            StepView::Fetch(next) => job.pages.is_prefix_of(next.pages),
            StepView::Pause(next) => next == job,
            StepView::Done(Ok(pages)) => job.pages.is_prefix_of(pages),
            StepView::Done(Err(_)) => true,
        },
{
    if let EventView::Reply(reply) = event {
        assert((job.pages + crawled_pages(reply)).subrange(0, job.pages.len() as int)
            =~= job.pages);
    }
    assert(job.pages.is_prefix_of(job.pages)) by {
        assert(job.pages.subrange(0, job.pages.len() as int) =~= job.pages);
    }
}

/// A request for a page names the page, asks for its text and its links, for the main content
/// only, and waits a second for the page where it is to be rendered.
pub proof fn law_page_requests(url: Seq<char>, rendered: bool)
    ensures
        ({
            let body = scrape_body_view(url, rendered);
            &&& says(body, "url"@, JsonView::Text(url))
            &&& says(body, "onlyMainContent"@, JsonView::Bool(true))
            &&& rendered ==> says(body, "waitFor"@, JsonView::Unsigned(1000))
            &&& !rendered ==> says(body, "waitFor"@, JsonView::Unsigned(0))
            &&& says(
                body,
                "formats"@,
                JsonView::Array(seq![JsonView::Text("markdown"@), JsonView::Text("links"@)]),
            )
        }),
{
    let body = scrape_body_view(url, rendered);
    lemma_says(body);
    let m = body->Object_0;
    assert(m[0].0 == "url"@ && m[1].0 == "formats"@ && m[2].0 == "onlyMainContent"@ && m[3].0
        == "waitFor"@);
}

/// A request for the pages of a site names the site and the most pages; one for a crawl also
/// names the depth, and asks for the text and the links of each page.
pub proof fn law_site_requests(url: Seq<char>, max_depth: u64, max_pages: u64)
    ensures
        ({
            let map = map_body_view(url, max_pages);
            let crawl = crawl_body_view(url, max_depth, max_pages);
            &&& says(map, "url"@, JsonView::Text(url))
            &&& says(map, "limit"@, JsonView::Unsigned(max_pages))
            &&& says(crawl, "url"@, JsonView::Text(url))
            &&& says(crawl, "limit"@, JsonView::Unsigned(max_pages))
            &&& says(crawl, "maxDepth"@, JsonView::Unsigned(max_depth))
            &&& exists|options: JsonView| #[trigger]
                says(crawl, "scrapeOptions"@, options) && says(
                    options,
                    "formats"@,
                    JsonView::Array(seq![JsonView::Text("markdown"@), JsonView::Text("links"@)]),
                ) && says(options, "onlyMainContent"@, JsonView::Bool(true))
        }),
{
    let map = map_body_view(url, max_pages);
    let crawl = crawl_body_view(url, max_depth, max_pages);
    lemma_says(map);
    lemma_says(crawl);
    let a = map->Object_0;
    let b = crawl->Object_0;
    assert(a[0].0 == "url"@ && a[1].0 == "limit"@);
    assert(b[0].0 == "url"@ && b[1].0 == "limit"@ && b[2].0 == "maxDepth"@ && b[3].0
        == "scrapeOptions"@);
    let options = b[3].1;
    lemma_says(options);
    assert(options->Object_0[0].0 == "formats"@ && options->Object_0[1].0 == "onlyMainContent"@);
    assert(says(crawl, "scrapeOptions"@, options));
}

/// The text of a page's entry is the text that the entry has, the metadata is the entry's, and
/// the links are the texts of the entry's list of links; what the entry lacks is empty.
pub open spec fn carries(page: ScrapeView, entry: JsonView) -> bool {
    &&& (entry.member("markdown"@) matches Some(JsonView::Text(t)) ==> page.markdown == t)
    &&& !(entry.member("markdown"@) matches Some(JsonView::Text(_))) ==> page.markdown.len() == 0
    &&& entry.member("metadata"@) is Some ==> page.metadata == entry.member("metadata"@)->0
    &&& entry.member("metadata"@) is None ==> page.metadata == JsonView::Null
    &&& (entry.member("links"@) matches Some(JsonView::Array(items)) ==> page.links
        == texts_among(items))
    &&& !(entry.member("links"@) matches Some(JsonView::Array(_))) ==> page.links.len() == 0
}

/// A page that is read from a reply is the one that was asked for, with the text, the metadata
/// and the links that the reply has under its data.
pub proof fn law_pages_are_read_as_they_came(url: Seq<char>, reply: JsonView)
    ensures
        scraped(url, reply) matches Ok(page) ==> {
            &&& reply.member("data"@) is Some
            &&& page.url == url
            &&& carries(page, reply.member("data"@)->0)
        },
        reply.member("data"@) is None ==> scraped(url, reply) == Err::<ScrapeView, FailureView>(
            FailureView::Malformed("missing data"@),
        ),
{
    reveal_strlit("");
}

/// A reply with data fails only where it has no text, a target without a status or with one of
/// at least 400, and an error; the failure has that status, or else 502, and that error.
pub proof fn law_hidden_failures(url: Seq<char>, reply: JsonView, data: JsonView)
    requires
        reply.member("data"@) == Some(data),
    ensures
        ({
            let meta = data.member("metadata"@);
            let status = if meta is Some {
                meta->0.member("statusCode"@)
            } else {
                None
            };
            let error = if meta is Some {
                meta->0.member("error"@)
            } else {
                None
            };
            let empty = !(data.member("markdown"@) matches Some(JsonView::Text(t)) && t.len() > 0);
            let told = error matches Some(JsonView::Text(e)) && e.len() > 0;
            &&& scraped(url, reply) is Err <==> empty && told && (status matches Some(
                JsonView::Unsigned(c),
            ) ==> c >= 400)
            &&& scraped(url, reply) matches Err(failure) ==> failure matches FailureView::Http {
                status: code,
                body,
            } && error == Some(JsonView::Text(body)) && (match status {
                Some(JsonView::Unsigned(c)) => c < 65536 ==> code == c,
                _ => code == 502,
            })
        }),
{
    reveal_strlit("");
}

/// The pages of a reply about a crawl are the entries of its data, one for one and in order:
/// each has the text, the metadata and the links of its entry, and the URL that the metadata
/// names as its source, or else the entry's own.
pub proof fn law_crawled_pages_are_read_as_they_came(reply: JsonView, items: Seq<JsonView>)
    ensures
        reply.member("data"@) == Some(JsonView::Array(items)) ==> {
            let pages = crawled_pages(reply);
            &&& pages.len() == items.len()
            &&& forall|i: int|
                0 <= i < items.len() ==> {
                    &&& carries(#[trigger] pages[i], items[i])
                    &&& match (pages[i].metadata.member("sourceURL"@), items[i].member("url"@)) {
                        (Some(JsonView::Text(u)), _) => pages[i].url == u,
                        (_, Some(JsonView::Text(u))) => pages[i].url == u,
                        _ => pages[i].url.len() == 0,
                    }
                }
        },
        !(reply.member("data"@) matches Some(JsonView::Array(_))) ==> crawled_pages(reply).len()
            == 0,
{
    reveal_strlit("");
    if reply.member("data"@) == Some(JsonView::Array(items)) {
        let pages = crawled_pages(reply);
        assert forall|i: int| 0 <= i < items.len() implies {
            &&& carries(#[trigger] pages[i], items[i])
            &&& match (pages[i].metadata.member("sourceURL"@), items[i].member("url"@)) {
                (Some(JsonView::Text(u)), _) => pages[i].url == u,
                (_, Some(JsonView::Text(u))) => pages[i].url == u,
                _ => pages[i].url.len() == 0,
            }
        } by {
            assert(pages[i] == crawled_page(items[i]));
        }
    }
}

/// A crawl is asked for its state until it says that it is complete or that it failed. Then its
/// pages are read, those of each reply behind those before, as long as a reply names where they
/// go on; the end gives all of them.
pub proof fn law_crawls_run_to_their_end(job: JobView, reply: JsonView)
    ensures
        ({
            let step = crawl_after(job, EventView::Reply(reply));
            let status = reply.member("status"@);
            let pages = job.pages + crawled_pages(reply);
            let reading = job.next is Some || status == Some(JsonView::Text("completed"@));
            let failed = job.next is None && status == Some(JsonView::Text("failed"@));
            &&& failed ==> (step is Done && step->Done_0 is Err)
            &&& !failed && !reading ==> step == StepView::Pause(job)
            &&& reading ==> match reply.member("next"@) {
                Some(JsonView::Text(u)) if u.len() > 0 => step == StepView::Fetch(
                    JobView { poll_url: job.poll_url, pages, next: Some(u) },
                ),
                _ => step == StepView::Done(Ok::<Seq<ScrapeView>, FailureView>(pages)),
            }
        }),
{
    reveal_strlit("");
    reveal_strlit("failed");
    reveal_strlit("completed");
    assert("failed"@[0] != "completed"@[0]);
    assert(""@.len() == 0 && "failed"@.len() == 6 && "completed"@.len() == 9);
    let step = crawl_after(job, EventView::Reply(reply));
    if job.next is Some || reply.member("status"@) == Some(JsonView::Text("completed"@)) {
        assert(step == after_pages(job, reply));
    }
}

/// A reply that did not come and one that is no JSON end a crawl without pages. A refusal does
/// so only before the first pages came; after that it ends the crawl with those that did.
pub proof fn law_crawls_end_on_failures(
    job: JobView,
    failure: FailureView,
    status: u16,
    text: Seq<char>,
)
    ensures
        crawl_after(job, EventView::Failed(failure)) == StepView::Done(
            Err::<Seq<ScrapeView>, FailureView>(failure),
        ),
        crawl_after(job, EventView::Garbled(text)) == StepView::Done(
            Err::<Seq<ScrapeView>, FailureView>(FailureView::Malformed(text)),
        ),
        job.next is None ==> crawl_after(job, EventView::Refused { status, body: text })
            == StepView::Done(
            Err::<Seq<ScrapeView>, FailureView>(FailureView::Http { status, body: text }),
        ),
        job.next is Some ==> crawl_after(job, EventView::Refused { status, body: text })
            == StepView::Done(Ok::<Seq<ScrapeView>, FailureView>(job.pages)),
{
}

} // verus!
