use web_research_mcp::backends::searxng::{
    result_entries, search_params, search_response, SearxResult,
};
use web_research_mcp::backends::BackendError;
use web_research_mcp::config::{Domains, Families, Limits};
use web_research_mcp::json::Json;
use web_research_mcp::mcp::domain::WebSearchArgs;
use web_research_mcp::mcp::outcome::{Outcome, Reply};
use web_research_mcp::mcp::search::{begin_search, checked_domain, finish_search, search_query};
use web_research_mcp::policy::Policy;

fn args(query: &str) -> WebSearchArgs {
    WebSearchArgs {
        query: query.into(),
        max_results: None,
        categories: None,
        language: None,
        time_range: None,
        include_domains: vec![],
        exclude_domains: vec![],
    }
}

fn policy() -> Policy {
    Policy::new(Families::default(), Limits::default(), Domains::default())
}

fn result(url: &str) -> SearxResult {
    SearxResult {
        url: url.into(),
        title: "t".into(),
        snippet: "s".into(),
        engine: "bing".into(),
        engines: vec!["bing".into(), "fynd".into()],
        score: Some(1.5f64.to_bits()),
        published_at: None,
    }
}

fn error(outcome: &Outcome) -> (String, String, String) {
    match &outcome.reply {
        Reply::Error(e) => (
            e.error.kind.clone(),
            e.error.reason.clone(),
            e.error.detail.clone(),
        ),
        _ => panic!("no error"),
    }
}

#[test]
fn search_query_composes_domain_filters() {
    let args = WebSearchArgs {
        query: "agent research".into(),
        max_results: None,
        categories: None,
        language: None,
        time_range: None,
        include_domains: vec!["example.com".into(), "docs.rs".into()],
        exclude_domains: vec!["spam.test".into()],
    };
    assert_eq!(
        search_query(&args).unwrap(),
        "agent research (site:example.com OR site:docs.rs) -site:spam.test"
    );
}

#[test]
fn filters_are_trimmed_and_checked() {
    assert_eq!(checked_domain("  *.*.docs.rs ").unwrap(), "docs.rs");
    assert_eq!(
        checked_domain("a b").unwrap_err(),
        "invalid domain filter: a b"
    );
    assert_eq!(
        checked_domain("*.").unwrap_err(),
        "invalid domain filter: "
    );
    for bad in [".a", "a.", "a/b", "\u{e9}.fr"] {
        assert!(checked_domain(bad).is_err(), "{bad}");
    }
    assert!(checked_domain(&"a".repeat(253)).is_ok());
    assert!(checked_domain(&"a".repeat(254)).is_err());
    let mut two = args("q");
    two.include_domains = vec!["ok.org".into(), "?".into()];
    two.exclude_domains = vec!["!".into()];
    assert_eq!(search_query(&two).unwrap_err(), "invalid domain filter: ?");
}

#[test]
fn every_refusal_of_a_search_has_its_reason() {
    let mut off = Policy::new(
        Families {
            search: false,
            ..Default::default()
        },
        Limits::default(),
        Domains::default(),
    );
    let outcome = begin_search(&mut off, &args("q"), "a".into(), 7).err().unwrap();
    assert_eq!(
        error(&outcome),
        (
            "policy_denied".into(),
            "family_disabled:search".into(),
            "search family disabled".into()
        )
    );
    assert_eq!(outcome.denial.as_deref(), Some("family_disabled:search"));
    let audit = outcome.audit.unwrap();
    assert_eq!(audit.outcome, "policy_denied");
    assert_eq!(audit.recorded_at, 7);
    assert_eq!(audit.entry_id, "a");

    let mut many = args("q");
    many.max_results = Some(9999);
    let outcome = begin_search(&mut policy(), &many, "a".into(), 0).err().unwrap();
    assert_eq!(error(&outcome).2, "result cap exceeded");

    let mut week = args("q");
    week.time_range = Some("week".into());
    let outcome = begin_search(&mut policy(), &week, "a".into(), 0).err().unwrap();
    assert_eq!(error(&outcome).1, "bad_time_range");
    assert!(outcome.audit.is_none() && outcome.denial.is_none());

    let mut bad = args("q");
    bad.exclude_domains = vec!["a b".into()];
    let outcome = begin_search(&mut policy(), &bad, "a".into(), 0).err().unwrap();
    assert_eq!(error(&outcome).2, "invalid domain filter: a b");

    let mut full = Policy::new(
        Families::default(),
        Limits {
            inflight_max: 0,
            ..Default::default()
        },
        Domains::default(),
    );
    let outcome = begin_search(&mut full, &args("q"), "a".into(), 0).err().unwrap();
    assert_eq!(error(&outcome).1, "inflight_full");
}

#[test]
fn an_accepted_search_holds_a_place_until_it_gives_it_back() {
    let mut one = Policy::new(
        Families::default(),
        Limits {
            inflight_max: 1,
            ..Default::default()
        },
        Domains::default(),
    );
    let mut day = args("q");
    day.time_range = Some("day".into());
    day.max_results = Some(3);
    let plan = begin_search(&mut one, &day, "a".into(), 0).ok().unwrap();
    assert_eq!(plan.query, "q");
    assert_eq!(plan.max, 3);
    assert!(begin_search(&mut one, &day, "b".into(), 0).is_err());
    one.release_inflight(plan.guard);
    assert!(begin_search(&mut one, &day, "b".into(), 0).is_ok());
}

#[test]
fn hits_are_ranked_from_one() {
    let plan = begin_search(&mut policy(), &args("rust"), "a".into(), 0).ok().unwrap();
    let response = search_response(
        vec![Some(result("https://1")), None, Some(result("https://2"))],
        &Json::Null,
    );
    let done = finish_search(&plan.call, "rust", Ok(response));
    assert_eq!(done.hits.len(), 2);
    assert_eq!(done.hits[1].rank, 2);
    assert_eq!(done.hits[1].url, "https://2");
    assert_eq!(
        done.outcome.call,
        Some(("web_search".to_string(), "ok".to_string()))
    );
    let json = done.outcome.reply.to_json();
    assert_eq!(
        json.get("source").unwrap().get_text("url").unwrap(),
        "search:rust"
    );
    assert_eq!(
        json.get("source").unwrap().get_text("fetched_at").unwrap(),
        "1970-01-01T00:00:00+00:00"
    );
    let content = json.get("content").unwrap().as_array().unwrap();
    assert_eq!(content[0].get("rank").unwrap().as_unsigned(), Some(1));
}

#[test]
fn a_failed_search_reports_the_failure() {
    let plan = begin_search(&mut policy(), &args("q"), "a".into(), 0).ok().unwrap();
    let done = finish_search(&plan.call, "q", Err(BackendError::Timeout(30_000)));
    assert_eq!(
        error(&done.outcome),
        (
            "backend_error".into(),
            "searxng".into(),
            "backend timeout after 30s".into()
        )
    );
    assert!(done.hits.is_empty());
    assert_eq!(done.outcome.audit.unwrap().outcome, "error");
}

#[test]
fn replies_are_read_up_to_the_number_asked_for() {
    let body = Json::Object(vec![
        (
            "results".into(),
            Json::Array(vec![Json::Null, Json::Bool(true), Json::Unsigned(3)]),
        ),
        (
            "unresponsive_engines".into(),
            Json::Array(vec![
                Json::Array(vec![Json::Text("bing".into()), Json::Text("timeout".into())]),
                Json::Array(vec![Json::Text("fynd".into())]),
                Json::Text("x".into()),
            ]),
        ),
    ]);
    assert_eq!(result_entries(&body, 2).unwrap().len(), 2);
    assert_eq!(result_entries(&body, 9).unwrap().len(), 3);
    let response = search_response(vec![None], &body);
    assert_eq!(response.unresponsive_engines.len(), 1);
    assert_eq!(response.unresponsive_engines[0].reason, "timeout");
    assert_eq!(
        result_entries(&Json::Null, 2).err().unwrap().message(),
        "malformed backend response: missing results array"
    );
    assert_eq!(
        search_params("q", &None, &Some("en".into()), &None),
        vec![
            ("q".to_string(), "q".to_string()),
            ("format".to_string(), "json".to_string()),
            ("language".to_string(), "en".to_string()),
        ]
    );
}
