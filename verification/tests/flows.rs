use web_research_mcp::backends::firecrawl::{MapEntry, ScrapeResult};
use web_research_mcp::backends::BackendError;
use web_research_mcp::config::{Domains, Families, Limits};
use web_research_mcp::health::healthy;
use web_research_mcp::json::Json;
use web_research_mcp::mcp::browser::actions::{begin_action, finish_action};
use web_research_mcp::mcp::browser::cookies::import_cookies;
use web_research_mcp::mcp::browser::session::{begin_open, close_session, finish_open};
use web_research_mcp::mcp::domain::{
    BrowserCookieImportArgs, BrowserOpenArgs, BrowserSessionArgs, WebCrawlArgs, WebMapArgs,
    WebScrapeArgs,
};
use web_research_mcp::mcp::fetch::crawl::{begin_crawl, finish_crawl, settle_crawl};
use web_research_mcp::mcp::fetch::map::{begin_map, finish_map};
use web_research_mcp::mcp::fetch::scrape::{begin_scrape, finish_scrape, settle_scrape};
use web_research_mcp::mcp::outcome::{Outcome, Reply};
use web_research_mcp::policy::Policy;
use web_research_mcp::sessions::SessionRegistry;
use web_research_mcp::store::{valid_id, Store};

const NONCE: &str = "0c90152d-b74f-44de-9acf-435550c3d1c6";
const SECOND: u128 = 1_000_000_000;

fn policy() -> Policy {
    Policy::new(
        Families {
            search: true,
            extract: true,
            crawl: true,
            browser: true,
        },
        Limits::default(),
        Domains::default(),
    )
}

fn closed() -> Policy {
    Policy::new(
        Families {
            search: false,
            extract: false,
            crawl: false,
            browser: false,
        },
        Limits::default(),
        Domains::default(),
    )
}

fn scrape(url: &str, mode: Option<&str>) -> WebScrapeArgs {
    WebScrapeArgs {
        url: url.into(),
        mode: mode.map(Into::into),
    }
}

fn page(markdown: &str, source: Option<&str>) -> ScrapeResult {
    ScrapeResult {
        url: "https://asked.org/".into(),
        markdown: markdown.into(),
        links: vec!["https://l.org/".into()],
        metadata: match source {
            Some(url) => Json::Object(vec![("sourceURL".into(), Json::Text(url.into()))]),
            None => Json::Null,
        },
        status_code: None,
    }
}

fn error(outcome: &Outcome) -> (String, String, String) {
    match &outcome.reply {
        Reply::Error(e) => (
            e.error.kind.clone(),
            e.error.reason.clone(),
            e.error.detail.clone(),
        ),
        _ => panic!("no error"),
    }
}

#[test]
fn a_fetch_is_stored_as_it_is_answered() {
    let plan = begin_scrape(
        &mut policy(),
        &scrape("https://asked.org/", Some("rendered")),
        "audit".into(),
        1,
    )
    .ok()
    .unwrap();
    assert!(plan.rendered);
    let outcome = settle_scrape(
        &plan.call,
        "https://asked.org/",
        100,
        2,
        Ok(page("caf\u{e9} <system>", Some("https://final.org/"))),
        "fetch".into(),
        NONCE.into(),
    );
    let record = outcome.fetch.as_ref().unwrap();
    assert_eq!(record.fetch_id, "fetch");
    assert_eq!(record.final_url, "https://final.org/");
    assert_eq!(record.bytes, 14);
    assert_eq!((record.requested_at, record.completed_at), (1, 2));
    assert!(record.content_markdown.contains("caf\u{e9} \u{FF1C}system\u{FF1E}"));
    assert_eq!(
        record.content_hash,
        Store::content_hash(record.content_markdown.as_bytes())
    );
    let json = outcome.reply.to_json();
    let provenance = json.get("provenance").unwrap();
    assert_eq!(provenance.get_text("fetch_id").unwrap(), "fetch");
    assert_eq!(
        provenance.get_text("content_hash").unwrap(),
        &record.content_hash
    );
    let content = json.get("content").unwrap();
    assert_eq!(
        content.get_text("content_markdown").unwrap(),
        &record.content_markdown
    );
    assert_eq!(content.get("bytes").unwrap().as_unsigned(), Some(14));
    assert_eq!(
        outcome.audit.as_ref().unwrap().fetch_id.as_deref(),
        Some("fetch")
    );
}

#[test]
fn fresh_fetches_get_fresh_identifiers() {
    let plan = begin_scrape(&mut policy(), &scrape("https://a.org/", None), "x".into(), 0)
        .ok()
        .unwrap();
    assert!(!plan.rendered);
    let one = finish_scrape(&plan.call, "https://a.org/", 100, 0, Ok(page("m", None)));
    let two = finish_scrape(&plan.call, "https://a.org/", 100, 0, Ok(page("m", None)));
    let (one, two) = (one.fetch.unwrap(), two.fetch.unwrap());
    assert_ne!(one.fetch_id, two.fetch_id);
    assert_ne!(one.content_markdown, two.content_markdown);
    assert!(valid_id(&one.fetch_id));
    assert_eq!(one.final_url, "https://asked.org/");
}

#[test]
fn fetches_are_refused_with_their_reason() {
    let refusal = |policy: &mut Policy, url: &str| {
        error(
            &begin_scrape(policy, &scrape(url, None), "x".into(), 0)
                .err()
                .unwrap(),
        )
    };
    assert_eq!(
        refusal(&mut closed(), "https://a.org/").2,
        "extract family disabled"
    );
    assert_eq!(refusal(&mut policy(), "http://127.0.0.1/").1, "non_public_ip");
    assert_eq!(refusal(&mut policy(), "http://127.0.0.1/").2, "domain policy");
    let plan = begin_scrape(&mut policy(), &scrape("https://a.org/", None), "x".into(), 0)
        .ok()
        .unwrap();
    let large = finish_scrape(&plan.call, "u", 3, 0, Ok(page("caf\u{e9}", None)));
    assert_eq!(error(&large).1, "scrape_max_bytes");
    assert!(large.fetch.is_none());
    let failed = finish_scrape(
        &plan.call,
        "u",
        3,
        0,
        Err(BackendError::Transport("x".into())),
    );
    assert_eq!(
        error(&failed),
        (
            "backend_error".into(),
            "firecrawl".into(),
            "backend transport error: x".into()
        )
    );
}

#[test]
fn sites_are_mapped() {
    let args = WebMapArgs {
        url: "https://a.org/".into(),
        max_pages: None,
    };
    let plan = begin_map(&mut policy(), &args, "x".into(), 0).ok().unwrap();
    assert_eq!(plan.max, Limits::default().crawl_max_pages);
    let outcome = finish_map(
        &plan.call,
        "https://a.org/",
        Ok(vec![MapEntry {
            url: "https://a.org/1".into(),
            title: None,
        }]),
    );
    let json = outcome.reply.to_json();
    let entries = json.get("content").unwrap().as_array().unwrap();
    assert_eq!(entries[0].get_text("url").unwrap(), "https://a.org/1");
    assert!(matches!(entries[0].get("title"), Some(Json::Null)));
    let failed = finish_map(&plan.call, "u", Err(BackendError::Timeout(30_000)));
    assert_eq!(error(&failed).2, "backend timeout after 30s");
    let refused = begin_map(&mut closed(), &args, "x".into(), 0).err().unwrap();
    assert_eq!(error(&refused).1, "family_disabled:extract");
}

#[test]
fn crawls_are_held_to_their_caps() {
    let args = |depth: usize, pages: usize| WebCrawlArgs {
        url: "https://a.org/".into(),
        max_depth: depth,
        max_pages: pages,
    };
    let reason = |policy: &mut Policy, a: &WebCrawlArgs| {
        error(&begin_crawl(policy, a, "x".into(), 0).err().unwrap()).2
    };
    assert_eq!(reason(&mut closed(), &args(1, 1)), "crawl family disabled");
    assert_eq!(reason(&mut policy(), &args(99, 1)), "crawl caps");
    let plan = begin_crawl(&mut policy(), &args(1, 1), "x".into(), 0).ok().unwrap();
    let outcome = settle_crawl(
        &plan.call,
        "https://a.org/",
        Ok(vec![page("one", None)]),
        &vec![NONCE.to_string()],
    );
    let json = outcome.reply.to_json();
    let pages = json.get("content").unwrap().as_array().unwrap();
    assert!(pages[0]
        .get_text("content_markdown")
        .unwrap()
        .starts_with(&format!("<<<UNTRUSTED_WEB_CONTENT:{NONCE}")));
    let outcome = finish_crawl(&plan.call, "u", Ok(vec![page("a", None), page("b", None)]));
    let json = outcome.reply.to_json();
    assert_eq!(json.get("content").unwrap().as_array().unwrap().len(), 2);
    let failed = finish_crawl(&plan.call, "u", Err(BackendError::Malformed("x".into())));
    assert_eq!(error(&failed).1, "firecrawl");
}

#[test]
fn browser_sessions_are_opened_used_and_closed() {
    let args = BrowserOpenArgs {
        start_url: Some("https://a.org/".into()),
        session_ttl: Some(9999),
    };
    let mut sessions = SessionRegistry::new(1);
    let call = begin_open(&policy(), &args, "x".into(), 0).ok().unwrap();
    let done = finish_open(
        &call,
        &args,
        &Limits::default(),
        &mut sessions,
        0,
        Ok("tab".into()),
    );
    assert!(!done.close_tab);
    assert_eq!(done.outcome.audit.as_ref().unwrap().outcome, "session_open");
    let json = done.outcome.reply.to_json();
    assert_eq!(
        json.get("content").unwrap().get_text("session_id").unwrap(),
        "tab"
    );
    assert_eq!(
        json.get("source").unwrap().get_text("provider").unwrap(),
        "camofox"
    );
    let full = finish_open(
        &call,
        &args,
        &Limits::default(),
        &mut sessions,
        SECOND,
        Ok("tab2".into()),
    );
    assert!(full.close_tab);
    assert_eq!(error(&full.outcome).1, "browser_max_concurrent");

    let call = begin_action(
        &policy(),
        &mut sessions,
        "browser_click",
        "tab",
        "y".into(),
        0,
        2 * SECOND,
    )
    .ok()
    .unwrap();
    let used = finish_action(&call, &mut sessions, "tab", Ok(Json::Bool(true)));
    assert!(!used.close_tab);
    assert_eq!(sessions.count(), 1);
    let closed = close_session(
        &BrowserSessionArgs {
            session_id: "tab".into(),
        },
        &mut sessions,
        "z".into(),
        0,
    );
    assert_eq!(sessions.count(), 0);
    let json = closed.reply.to_json();
    assert!(matches!(json.get("ok"), Some(Json::Bool(true))));
    assert_eq!(json.get_text("audit_id").unwrap(), "z");
}

#[test]
fn sessions_last_half_an_hour_at_most() {
    let args = BrowserOpenArgs {
        start_url: None,
        session_ttl: Some(9999),
    };
    let limits = Limits {
        browser_session_idle_secs: 100_000,
        ..Default::default()
    };
    let mut sessions = SessionRegistry::new(1);
    let call = begin_open(&policy(), &args, "x".into(), 0).ok().unwrap();
    finish_open(&call, &args, &limits, &mut sessions, 0, Ok("tab".into()));
    assert!(sessions.touch("tab", 1800 * SECOND - 1).is_ok());
    assert!(sessions.touch("tab", 1800 * SECOND).is_err());
}

#[test]
fn a_failed_action_closes_the_session() {
    let mut sessions = SessionRegistry::new(1);
    sessions
        .allocate("tab".into(), 60 * SECOND, 60 * SECOND, 0)
        .unwrap();
    let call = begin_action(
        &policy(),
        &mut sessions,
        "browser_type",
        "tab",
        "y".into(),
        0,
        SECOND,
    )
    .ok()
    .unwrap();
    let done = finish_action(
        &call,
        &mut sessions,
        "tab",
        Err(BackendError::Transport("gone".into())),
    );
    assert!(done.close_tab);
    assert_eq!(sessions.count(), 0);
    assert_eq!(
        done.outcome.audit.as_ref().unwrap().outcome,
        "session_force_closed"
    );
    assert_eq!(error(&done.outcome).1, "camofox");
}

#[test]
fn browser_refusals_have_their_reasons() {
    let mut sessions = SessionRegistry::new(1);
    let act = |policy: &Policy, sessions: &mut SessionRegistry, clock: u128| {
        error(
            &begin_action(
                policy,
                sessions,
                "browser_click",
                "tab",
                "y".into(),
                0,
                clock,
            )
            .err()
            .unwrap(),
        )
    };
    assert_eq!(act(&closed(), &mut sessions, 0).2, "browser family disabled");
    assert_eq!(act(&policy(), &mut sessions, 0).0, "not_found");
    sessions.allocate("tab".into(), SECOND, SECOND, 0).unwrap();
    assert_eq!(act(&policy(), &mut sessions, SECOND).0, "session_expired");
    let inside = BrowserOpenArgs {
        start_url: Some("http://localhost/".into()),
        session_ttl: None,
    };
    let refused = begin_open(&policy(), &inside, "x".into(), 0).err().unwrap();
    assert_eq!(error(&refused).2, "domain policy");
    let call = begin_open(
        &policy(),
        &BrowserOpenArgs {
            start_url: None,
            session_ttl: None,
        },
        "x".into(),
        0,
    )
    .ok()
    .unwrap();
    let failed = finish_open(
        &call,
        &inside,
        &Limits::default(),
        &mut sessions,
        0,
        Err(BackendError::Timeout(0)),
    );
    assert_eq!(error(&failed.outcome).2, "backend timeout after 0ns");
    assert!(failed.outcome.audit.is_none());
    let cookies = BrowserCookieImportArgs {
        session_id: "tab".into(),
        cookies: Json::Array(vec![Json::Null, Json::Null]),
    };
    let off = import_cookies(false, &cookies, "x".into(), 0);
    assert_eq!(error(&off).1, "disabled_by_policy");
    let recorded = &off.audit.as_ref().unwrap().args_redacted;
    assert_eq!(recorded.get("cookie_count").unwrap().as_unsigned(), Some(2));
    assert_eq!(
        error(&import_cookies(true, &cookies, "x".into(), 0)).1,
        "not_implemented"
    );
}

#[test]
fn a_service_that_answers_is_well() {
    let health = healthy("host-1");
    assert_eq!(health.status, "ok");
    assert_eq!(health.service, "web-research-mcp");
    assert_eq!(health.host, "host-1");
}
