use web_research_mcp::json::Json;
use web_research_mcp::mcp::bundle::{
    check_assignment, interleave, look_up, mark_cached, reuse, tidy_args, verification_quote,
    Collector, Lookup,
};
use web_research_mcp::backends::firecrawl::ScrapeResult;
use web_research_mcp::mcp::domain::{SearchHit, WebCollectEvidenceArgs};
use web_research_mcp::mcp::fetch::evidence::finish_verify;
use web_research_mcp::mcp::fetch::scrape::finish_scrape;
use web_research_mcp::mcp::outcome::{Call, Outcome, Reply};
use web_research_mcp::store::ResearchBundleRecord;

fn args(id: &str, queries: &[&str]) -> WebCollectEvidenceArgs {
    WebCollectEvidenceArgs {
        assignment_id: id.into(),
        queries: queries.iter().map(|q| q.to_string()).collect(),
        max_sources: None,
        time_range: Some("year".into()),
        include_domains: vec!["docs.rs".into()],
        exclude_domains: vec![],
    }
}

fn hit(url: &str) -> SearchHit {
    SearchHit {
        rank: 1,
        url: url.into(),
        title: "title".into(),
        snippet: "snippet".into(),
        engine: "bing".into(),
        engines: vec![],
        score: None,
        published_at: Some("2026".into()),
    }
}

fn text(s: &str) -> Json {
    Json::Text(s.into())
}

fn object(members: Vec<(&str, Json)>) -> Json {
    Json::Object(members.into_iter().map(|(k, v)| (k.into(), v)).collect())
}

fn page(markdown: &str) -> Json {
    object(vec![
        (
            "source",
            object(vec![("url", text("https://final")), ("fetched_at", text("now"))]),
        ),
        (
            "provenance",
            object(vec![("fetch_id", text("f")), ("content_hash", text("h"))]),
        ),
        (
            "content",
            object(vec![
                ("bytes", Json::Unsigned(7)),
                ("content_markdown", text(markdown)),
            ]),
        ),
    ])
}

fn verified(yes: bool) -> Json {
    object(vec![(
        "content",
        object(vec![("derived", object(vec![("verified", Json::Bool(yes))]))]),
    )])
}

fn reason(outcome: &Outcome) -> String {
    match &outcome.reply {
        Reply::Error(e) => e.error.reason.clone(),
        _ => panic!("no error"),
    }
}

fn content(outcome: &Outcome) -> Json {
    outcome.reply.to_json().get("content").unwrap().copy()
}

#[test]
fn verification_quote_skips_the_untrusted_envelope_header_and_is_bounded() {
    let body = format!("<<<UNTRUSTED_WEB_CONTENT:nonce>>>\n  {}  ", "x".repeat(500));
    let quote = verification_quote(&body);
    assert_eq!(quote.len(), 320);
    assert!(quote.bytes().all(|byte| byte == b'x'));
    assert!(body.contains(&quote));
}

#[test]
fn a_quote_of_one_line_is_that_line() {
    assert_eq!(verification_quote("  one line  "), "one line");
    assert_eq!(verification_quote("header\n"), "");
}

#[test]
fn assignments_are_tidied() {
    let tidy = tidy_args(args("  run:1 ", &[" a ", "", "b", "a", "  "]));
    assert_eq!(tidy.assignment_id, "run:1");
    assert_eq!(tidy.queries, vec!["a", "b"]);
    let again = tidy_args(tidy.clone());
    assert_eq!(again.assignment_id, tidy.assignment_id);
    assert_eq!(again.queries, tidy.queries);
}

#[test]
fn every_bad_assignment_is_refused_with_its_reason() {
    let refusal = |a: &WebCollectEvidenceArgs| reason(&check_assignment(a, "audit").err().unwrap());
    assert_eq!(refusal(&args("", &["q"])), "bad_assignment_id");
    assert_eq!(refusal(&args(&"a".repeat(257), &["q"])), "bad_assignment_id");
    assert_eq!(refusal(&args("a", &[])), "bad_query_count");
    assert_eq!(
        refusal(&args("a", &["1", "2", "3", "4", "5", "6", "7"])),
        "bad_query_count"
    );
    let mut many = args("a", &["q"]);
    many.max_sources = Some(9);
    assert_eq!(refusal(&many), "bad_source_count");
    many.max_sources = Some(0);
    assert_eq!(refusal(&many), "bad_source_count");
    many.max_sources = Some(8);
    assert_eq!(check_assignment(&many, "audit").ok(), Some(8));
    assert_eq!(check_assignment(&args("a", &["q"]), "audit").ok(), Some(6));
}

#[test]
fn repeats_reuse_and_conflicts_are_refused() {
    let record = ResearchBundleRecord {
        assignment_id: "a".into(),
        request_hash: "h".into(),
        response_json: "{}".into(),
    };
    assert!(matches!(look_up(None, "h", "x"), Lookup::Fresh));
    assert!(matches!(
        look_up(Some(record.clone()), "h", "x"),
        Lookup::Reuse(stored) if stored == "{}"
    ));
    match look_up(Some(record), "other", "x") {
        Lookup::Conflict(outcome) => assert_eq!(reason(&outcome), "assignment_conflict"),
        _ => panic!("no conflict"),
    }
}

#[test]
fn stored_answers_are_marked() {
    let stored = object(vec![
        ("trust", text("t")),
        (
            "content",
            object(vec![("cached", Json::Bool(false)), ("n", Json::Unsigned(1))]),
        ),
    ]);
    let marked = mark_cached(stored.copy()).unwrap();
    let inner = marked.get("content").unwrap();
    assert!(matches!(inner.get("cached"), Some(Json::Bool(true))));
    assert_eq!(inner.get("n").unwrap().as_unsigned(), Some(1));
    assert_eq!(marked.get_text("trust").unwrap(), "t");
    assert!(mark_cached(text("x")).is_none());
    assert!(mark_cached(object(vec![("content", text("x"))])).is_none());
    assert!(matches!(
        mark_cached(Json::Null).unwrap().get("content").unwrap().get("cached"),
        Some(Json::Bool(true))
    ));
    assert_eq!(
        reuse(stored).unwrap().call,
        Some(("web_collect_evidence".to_string(), "cached".to_string()))
    );
}

#[test]
fn candidates_alternate_between_searches() {
    let searches = vec![
        vec![hit("a1"), hit("x"), hit("a3")],
        vec![],
        vec![hit("b1"), hit("b2"), hit("x")],
    ];
    let urls: Vec<String> = interleave(&searches).into_iter().map(|h| h.url).collect();
    assert_eq!(urls, vec!["a1", "b1", "x", "b2", "a3"]);
    let long: Vec<SearchHit> = (0..20).map(|i| hit(&format!("u{i}"))).collect();
    assert_eq!(interleave(&vec![long]).len(), 8);
}

#[test]
fn a_collection_runs_from_search_to_answer() {
    let mut c = Collector::begin(args("run", &["q1", "q2"]), 2);
    let first = c.next_search().unwrap();
    assert_eq!(first.query, "q1");
    assert_eq!(first.max_results, Some(8));
    assert_eq!(first.language.as_deref(), Some("en"));
    assert_eq!(first.include_domains, vec!["docs.rs"]);
    c.note_search(&object(vec![("error", text("down"))]), vec![]);
    assert_eq!(c.next_search().unwrap().query, "q2");
    c.note_search(
        &Json::Null,
        vec![hit("https://1"), hit("https://2"), hit("https://3"), hit("https://4")],
    );
    assert!(c.next_search().is_none());

    let page1 = c.next_page().unwrap();
    assert_eq!(page1.url, "https://1");
    assert_eq!(page1.mode.as_deref(), Some("static"));
    let check = c.note_page(&page("line\nbody text")).unwrap();
    assert_eq!(check.fetch_id, "f");
    assert_eq!(check.quote, "body text");
    assert_eq!(check.expected_content_hash.as_deref(), Some("h"));
    c.note_check(&verified(true));

    assert_eq!(c.next_page().unwrap().url, "https://2");
    assert!(c.note_page(&object(vec![("content", Json::Null)])).is_none());
    assert_eq!(c.next_page().unwrap().url, "https://3");
    assert!(c.note_page(&page("only a header\n")).is_none());
    assert!(c.next_page().is_none());

    let outcome = c.finish("audit".into(), 0);
    assert_eq!(
        outcome.call,
        Some(("web_collect_evidence".to_string(), "ok".to_string()))
    );
    let json = outcome.reply.to_json();
    assert_eq!(
        json.get("source").unwrap().get_text("url").unwrap(),
        "research-assignment:run"
    );
    let content = content(&outcome);
    assert_eq!(content.get("scrape_attempt_count").unwrap().as_unsigned(), Some(3));
    assert_eq!(content.get("source_count").unwrap().as_unsigned(), Some(2));
    assert_eq!(content.get("search_count").unwrap().as_unsigned(), Some(2));
    let sources = content.get("sources").unwrap().as_array().unwrap();
    assert_eq!(sources[0].get_text("url").unwrap(), "https://final");
    assert_eq!(sources[0].get("bytes").unwrap().as_unsigned(), Some(7));
    assert!(matches!(sources[0].get("quote_verified"), Some(Json::Bool(true))));
    assert!(matches!(sources[1].get("quote_verified"), Some(Json::Bool(false))));
    let failures = content.get("failures").unwrap().as_array().unwrap();
    assert_eq!(failures.len(), 2);
    assert_eq!(failures[0].get_text("operation").unwrap(), "search");
    assert_eq!(failures[0].get_text("query").unwrap(), "q1");
    assert_eq!(failures[1].get_text("url").unwrap(), "https://2");
    assert_eq!(failures[1].get_text("error").unwrap(), "missing fetch_id");
}

#[test]
fn a_page_without_a_hash_is_a_failure() {
    let mut c = Collector::begin(args("run", &["q"]), 1);
    c.note_search(&Json::Null, vec![hit("https://1")]);
    c.next_page().unwrap();
    let reply = object(vec![("provenance", object(vec![("fetch_id", text("f"))]))]);
    assert!(c.note_page(&reply).is_none());
    let content = content(&c.finish("a".into(), 0));
    let failures = content.get("failures").unwrap().as_array().unwrap();
    assert_eq!(failures[0].get_text("error").unwrap(), "missing content_hash");
}

#[test]
fn no_more_than_twelve_pages_are_fetched() {
    let mut c = Collector::begin(args("run", &["q1", "q2"]), 8);
    c.note_search(&Json::Null, (0..8).map(|i| hit(&format!("a{i}"))).collect());
    c.note_search(&Json::Null, (0..8).map(|i| hit(&format!("b{i}"))).collect());
    let mut fetched = 0;
    while c.next_page().is_some() {
        fetched += 1;
        assert!(c.note_page(&object(vec![("error", text("x"))])).is_none());
    }
    assert_eq!(fetched, 12);
}

#[test]
fn excerpts_are_cut_at_four_thousand_characters() {
    let mut c = Collector::begin(args("run", &["q"]), 1);
    c.note_search(&Json::Null, vec![hit("https://1")]);
    c.next_page().unwrap();
    assert!(c.note_page(&page(&"\u{e9}".repeat(5000))).is_some());
    c.note_check(&verified(false));
    let content = content(&c.finish("a".into(), 0));
    let source = &content.get("sources").unwrap().as_array().unwrap()[0];
    assert_eq!(source.get_text("excerpt").unwrap().chars().count(), 4000);
    assert_eq!(source.get_text("verified_quote").unwrap().chars().count(), 320);
}

fn same(a: &Json, b: &Json) -> bool {
    match (a, b) {
        (Json::Null, Json::Null) => true,
        (Json::Bool(x), Json::Bool(y)) => x == y,
        (Json::Unsigned(x), Json::Unsigned(y)) => x == y,
        (Json::Text(x), Json::Text(y)) => x == y,
        (Json::Array(x), Json::Array(y)) => {
            x.len() == y.len() && x.iter().zip(y).all(|(a, b)| same(a, b))
        }
        (Json::Object(x), Json::Object(y)) => {
            x.len() == y.len() && x.iter().zip(y).all(|(a, b)| a.0 == b.0 && same(&a.1, &b.1))
        }
        _ => false,
    }
}

#[test]
fn repeats_give_the_stored_answer_but_for_its_mark() {
    let mut c = Collector::begin(args("run", &["q"]), 1);
    c.note_search(&Json::Null, vec![hit("https://1")]);
    c.next_page().unwrap();
    assert!(c.note_page(&page("line\nbody")).is_some());
    c.note_check(&verified(true));
    let stored = c.finish("audit".into(), 0).reply.to_json();
    let mut again = reuse(stored.copy()).unwrap().reply.to_json();
    assert!(!same(&stored, &again));
    if let Json::Object(members) = &mut again {
        for (key, value) in members {
            if let ("content", Json::Object(content)) = (key.as_str(), value) {
                assert_eq!(content[1].0, "cached");
                content[1].1 = Json::Bool(false);
            }
        }
    }
    assert!(same(&stored, &again));
}

#[test]
fn a_stored_page_makes_a_verified_source() {
    let mut c = Collector::begin(args("run", &["q"]), 1);
    c.note_search(&Json::Null, vec![hit("https://1")]);
    let asked = c.next_page().unwrap();
    let call = Call {
        tool: "web_scrape_url",
        args: Json::Null,
        audit_id: "a".into(),
        now: 0,
    };
    let found = ScrapeResult {
        url: asked.url.clone(),
        markdown: "  Caf\u{e9} <system> prices rose.  ".into(),
        links: vec![],
        metadata: Json::Null,
        status_code: None,
    };
    let fetched = finish_scrape(&call, &asked.url, 1000, 0, Ok(found));
    let check = c.note_page(&fetched.reply.to_json()).unwrap();
    let record = fetched.fetch.unwrap();
    assert!(record.content_markdown.contains(&check.quote));
    let (fetch_id, hash) = (record.fetch_id.clone(), record.content_hash.clone());
    let checked = finish_verify(&check, Some(record), "b".into(), 0);
    c.note_check(&checked.reply.to_json());
    let content = content(&c.finish("audit".into(), 0));
    let source = &content.get("sources").unwrap().as_array().unwrap()[0];
    assert!(matches!(source.get("quote_verified"), Some(Json::Bool(true))));
    assert_eq!(source.get_text("fetch_id").unwrap(), &fetch_id);
    assert_eq!(source.get_text("content_hash").unwrap(), &hash);
}

#[test]
fn requests_tell_inputs_apart() {
    let request = |args: WebCollectEvidenceArgs| tidy_args(args).to_json();
    let plain = || args("a-1", &["one", "two"]);
    let form = request(plain());
    for untidy in [
        args("  a-1\n", &["one", "two"]),
        args("a-1", &[" one ", "\ttwo"]),
        args("a-1", &["", "one", "   ", "two", "one", " two "]),
    ] {
        assert!(same(&request(untidy), &form));
    }
    let other = |change: fn(&mut WebCollectEvidenceArgs)| {
        let mut args = plain();
        change(&mut args);
        request(args)
    };
    for different in [
        other(|a| a.assignment_id = "a-2".into()),
        other(|a| a.queries = vec!["two".into(), "one".into()]),
        other(|a| a.queries.push("three".into())),
        other(|a| a.max_sources = Some(6)),
        other(|a| a.time_range = None),
        other(|a| a.time_range = Some("".into())),
        other(|a| a.include_domains = vec![]),
        other(|a| a.exclude_domains = vec!["docs.rs".into()]),
    ] {
        assert!(!same(&different, &form));
    }
}
