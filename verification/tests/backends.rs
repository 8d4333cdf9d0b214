use web_research_mcp::backends::BackendKind;

#[test]
fn provider_label_is_stable() {
    assert_eq!(BackendKind::Searxng.provider_label(), "searxng");
    assert_eq!(
        BackendKind::Firecrawl.provider_label(),
        "firecrawl-selfhosted"
    );
    assert_eq!(BackendKind::Camofox.provider_label(), "camofox");
}

use web_research_mcp::backends::camofox::{
    after_open_refused, click_body, open_body, path_of_tab, screenshot_params, screenshot_result,
    scroll_body, start_page, type_body, OpenRetry, SnapshotResult,
};
use web_research_mcp::backends::firecrawl::{
    collect_pages, crawl_body, map_body, read_crawl_start, read_map, read_scrape, scrape_body,
    CrawlEvent, CrawlJob, CrawlStep,
};
use web_research_mcp::backends::{millis_text, url_at, BackendError};
use web_research_mcp::json::Json;

fn text(s: &str) -> Json {
    Json::Text(s.into())
}

fn object(members: Vec<(&str, Json)>) -> Json {
    Json::Object(members.into_iter().map(|(k, v)| (k.into(), v)).collect())
}

fn message<T>(result: Result<T, BackendError>) -> String {
    match result {
        Ok(_) => panic!("no failure"),
        Err(e) => e.message(),
    }
}

#[test]
fn failures_have_messages() {
    assert_eq!(
        BackendError::Http {
            status: 502,
            body: "bad".into()
        }
        .message(),
        "backend HTTP error: status 502, body: bad"
    );
    assert_eq!(
        BackendError::Timeout(100).message(),
        "backend timeout after 100ms"
    );
    assert_eq!(
        BackendError::Timeout(120_000).message(),
        "backend timeout after 120s"
    );
    assert_eq!(
        BackendError::Transport("x".into()).message(),
        "backend transport error: x"
    );
    assert_eq!(
        BackendError::Malformed("x".into()).message(),
        "malformed backend response: x"
    );
}

#[test]
fn endpoints_may_end_in_slashes() {
    assert_eq!(url_at("http://h:1//", "/v1/map"), "http://h:1/v1/map");
    assert_eq!(url_at("http://h:1", "/v1/map"), "http://h:1/v1/map");
}

#[test]
fn pages_are_read_and_hidden_failures_found() {
    let reply = |markdown: &str, metadata: Json| {
        object(vec![(
            "data",
            object(vec![
                ("markdown", text(markdown)),
                ("links", Json::Array(vec![text("l"), Json::Null])),
                ("metadata", metadata),
            ]),
        )])
    };
    let page = read_scrape("u", &reply("m", Json::Null)).unwrap();
    assert_eq!(page.url, "u");
    assert_eq!(page.markdown, "m");
    assert_eq!(page.links, vec!["l"]);
    let failed = |code: Option<u64>, error: &str| {
        let mut members = vec![("error", text(error))];
        if let Some(code) = code {
            members.push(("statusCode", Json::Unsigned(code)));
        }
        object(members)
    };
    assert_eq!(
        message(read_scrape("u", &reply("", failed(Some(404), "gone")))),
        "backend HTTP error: status 404, body: gone"
    );
    assert_eq!(
        message(read_scrape("u", &reply("", failed(None, "dns")))),
        "backend HTTP error: status 502, body: dns"
    );
    assert!(read_scrape("u", &reply("", failed(Some(200), "warning"))).is_ok());
    assert!(read_scrape("u", &reply("", failed(Some(500), ""))).is_ok());
    assert!(read_scrape("u", &reply("m", failed(Some(500), "x"))).is_ok());
    assert_eq!(
        message(read_scrape("u", &reply("", failed(Some(65_536 + 404), "x")))),
        "backend HTTP error: status 404, body: x"
    );
    assert_eq!(
        message(read_scrape("u", &Json::Null)),
        "malformed backend response: missing data"
    );
}

#[test]
fn maps_are_lists_of_links() {
    let reply = object(vec![("links", Json::Array(vec![text("a"), Json::Null, text("b")]))]);
    let urls: Vec<String> = read_map(&reply).unwrap().into_iter().map(|e| e.url).collect();
    assert_eq!(urls, vec!["a", "b"]);
    assert_eq!(
        message(read_map(&Json::Null)),
        "malformed backend response: missing links"
    );
}

#[test]
fn a_crawl_polls_waits_and_follows_its_pages() {
    assert_eq!(
        read_crawl_start(&object(vec![("id", text("j"))])).unwrap(),
        "j"
    );
    assert_eq!(
        message(read_crawl_start(&Json::Null)),
        "malformed backend response: missing job id in crawl start response"
    );
    let job = CrawlJob::start("http://h/", "j");
    assert_eq!(job.next_request(0).unwrap(), "http://h/v1/crawl/j");
    assert_eq!(
        message(job.next_request(120_000)),
        "backend timeout after 120s"
    );
    let job = match job.advance(CrawlEvent::Reply(object(vec![("status", text("scraping"))]))) {
        CrawlStep::Pause(job) => job,
        _ => panic!("no pause"),
    };
    let item = object(vec![("url", text("p1")), ("markdown", text("m"))]);
    let reply = object(vec![
        ("status", text("completed")),
        ("data", Json::Array(vec![item])),
        ("next", text("http://h/more")),
    ]);
    let job = match job.advance(CrawlEvent::Reply(reply)) {
        CrawlStep::Fetch(job) => job,
        _ => panic!("no next page"),
    };
    assert_eq!(job.next_request(119_999).unwrap(), "http://h/more");
    match job.advance(CrawlEvent::Refused {
        status: 500,
        body: "x".into(),
    }) {
        CrawlStep::Done(Ok(pages)) => {
            assert_eq!(pages.len(), 1);
            assert_eq!(pages[0].url, "p1");
        }
        _ => panic!("not done"),
    }
}

#[test]
fn a_crawl_ends_on_failures() {
    let start = || CrawlJob::start("http://h", "j");
    let end = |step: CrawlStep| match step {
        CrawlStep::Done(result) => message(result),
        _ => panic!("not done"),
    };
    assert_eq!(
        end(start().advance(CrawlEvent::Reply(object(vec![("status", text("failed"))])))),
        "backend HTTP error: status 502, body: crawl job failed"
    );
    assert_eq!(
        end(start().advance(CrawlEvent::Refused {
            status: 404,
            body: "no".into()
        })),
        "backend HTTP error: status 404, body: no"
    );
    assert_eq!(
        end(start().advance(CrawlEvent::Garbled("eof".into()))),
        "malformed backend response: eof"
    );
    assert_eq!(
        end(start().advance(CrawlEvent::Failed(BackendError::Timeout(1000)))),
        "backend timeout after 1s"
    );
    let done = object(vec![("status", text("completed")), ("next", text(""))]);
    assert!(matches!(
        start().advance(CrawlEvent::Reply(done)),
        CrawlStep::Done(Ok(pages)) if pages.is_empty()
    ));
}

#[test]
fn crawled_pages_prefer_the_url_of_their_metadata() {
    let body = object(vec![(
        "data",
        Json::Array(vec![object(vec![
            ("url", text("own")),
            ("metadata", object(vec![("sourceURL", text("meta"))])),
        ])]),
    )]);
    let mut out = Vec::new();
    collect_pages(&body, &mut out);
    collect_pages(&Json::Null, &mut out);
    assert_eq!(out.len(), 1);
    assert_eq!(out[0].url, "meta");
}

#[test]
fn requests_are_what_the_services_expect() {
    let scrape = scrape_body("u", true);
    assert_eq!(scrape.get("waitFor").unwrap().as_unsigned(), Some(1000));
    assert_eq!(
        scrape_body("u", false).get("waitFor").unwrap().as_unsigned(),
        Some(0)
    );
    assert_eq!(map_body("u", 7).get("limit").unwrap().as_unsigned(), Some(7));
    let crawl = crawl_body("u", 2, 9);
    assert_eq!(crawl.get("maxDepth").unwrap().as_unsigned(), Some(2));
    assert_eq!(crawl.get("limit").unwrap().as_unsigned(), Some(9));
    assert!(matches!(
        crawl.get("scrapeOptions").unwrap().get("onlyMainContent"),
        Some(Json::Bool(true))
    ));
    assert_eq!(open_body("u").get_text("userId").unwrap(), "web-research-mcp");
    assert_eq!(click_body("t").get_text("ref").unwrap(), "t");
    assert_eq!(type_body("t", "x").get_text("text").unwrap(), "x");
    assert!(scroll_body("up", None).get("amount").is_none());
    assert!(matches!(
        scroll_body("up", Some(-3)).get("amount"),
        Some(Json::Negative(-3))
    ));
    assert!(matches!(
        scroll_body("up", Some(3)).get("amount"),
        Some(Json::Unsigned(3))
    ));
    assert_eq!(path_of_tab("t1", "/click"), "/tabs/t1/click");
    assert_eq!(start_page(&None), "about:blank");
    assert_eq!(screenshot_params(true).len(), 2);
    assert_eq!(screenshot_params(false).len(), 1);
}

#[test]
fn pictures_are_sent_in_base64() {
    let shot = screenshot_result(b"hello", &None);
    assert_eq!(shot.data, "aGVsbG8=");
    assert_eq!(shot.mime_type, "image/png");
    let shot = screenshot_result(b"", &Some("image/jpeg".into()));
    assert_eq!(shot.data, "");
    assert_eq!(shot.mime_type, "image/jpeg");
    assert_eq!(shot.to_json().get_text("mime_type").unwrap(), "image/jpeg");
    let page = SnapshotResult {
        url: "u".into(),
        text: "t".into(),
    };
    assert_eq!(page.to_json().get_text("snapshot").unwrap(), "t");
}

#[test]
fn an_ended_browser_session_is_retried_once() {
    assert!(matches!(
        after_open_refused(500, "error: session_expired".into(), false),
        OpenRetry::StartAndRetry
    ));
    assert!(matches!(
        after_open_refused(500, "error: session_expired".into(), true),
        OpenRetry::Fail(_)
    ));
    assert!(matches!(
        after_open_refused(500, "other".into(), false),
        OpenRetry::Fail(BackendError::Http { status: 500, .. })
    ));
}

#[test]
fn timeouts_are_shown_as_durations() {
    for millis in (0..3000).chain([
        9_999,
        10_000,
        59_500,
        60_000,
        123_456,
        3_600_000,
        u64::MAX,
        u64::MAX / 1000 * 1000,
    ]) {
        let shown = format!("{:?}", std::time::Duration::from_millis(millis));
        assert_eq!(millis_text(millis), shown);
    }
    assert_eq!(millis_text(1_500), "1.5s");
    assert_eq!(millis_text(1_050), "1.05s");
    assert_eq!(
        BackendError::Timeout(2_000).message(),
        "backend timeout after 2s"
    );
}
