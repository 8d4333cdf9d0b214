use web_research_mcp::json::Json;
use web_research_mcp::mcp::domain::{WebFindInFetchArgs, WebVerifyQuoteArgs};
use web_research_mcp::mcp::fetch::evidence::{
    begin_find, begin_verify, evidence_content, excerpts, finish_find, finish_get, finish_verify,
    store_error,
};
use web_research_mcp::mcp::outcome::{Outcome, Reply};
use web_research_mcp::store::{FetchRecord, Store};

fn record_with_body(body: String) -> FetchRecord {
    FetchRecord {
        fetch_id: "fetch-123".into(),
        requested_url: "https://example.com/source".into(),
        final_url: "https://example.com/source".into(),
        mode: "scrape".into(),
        requested_at: 0,
        completed_at: 0,
        status: "ok".into(),
        bytes: body.len() as u64,
        content_hash: Store::content_hash(body.as_bytes()),
        content_markdown: body,
        source_provider: "fixture".into(),
        policy_decision: "allow".into(),
        truncated: false,
    }
}

fn size(value: &Json) -> usize {
    match value {
        Json::Text(s) => s.len() + 2,
        Json::Array(items) => items.iter().map(|v| size(v) + 1).sum::<usize>() + 2,
        Json::Object(members) => {
            members.iter().map(|(k, v)| k.len() + size(v) + 4).sum::<usize>() + 2
        }
        _ => 20,
    }
}

fn derived(outcome: &Outcome) -> Json {
    outcome
        .reply
        .to_json()
        .get("content")
        .unwrap()
        .get("derived")
        .unwrap()
        .copy()
}

fn quote(text: &str, hash: Option<String>) -> WebVerifyQuoteArgs {
    WebVerifyQuoteArgs {
        fetch_id: "fetch-123".into(),
        quote: text.into(),
        expected_content_hash: hash,
    }
}

fn reason(outcome: &Outcome) -> String {
    match &outcome.reply {
        Reply::Error(e) => e.error.reason.clone(),
        _ => panic!("no error"),
    }
}

#[test]
fn excerpts_are_utf8_safe() {
    let body = "zero café needle τέλος";
    let found = excerpts(body, "needle", 1, 3);
    assert_eq!(found.len(), 1);
    assert!(found[0].get("excerpt").unwrap().as_text().unwrap().contains("needle"));
}

#[test]
fn derived_evidence_response_does_not_repeat_the_stored_page() {
    let record = record_with_body(format!(
        "{}needle{}",
        "a".repeat(50_000),
        "b".repeat(50_000)
    ));
    let matches = excerpts(&record.content_markdown, "needle", 1, 160);
    let content = evidence_content(
        &record,
        Json::Object(vec![
            ("needle".into(), Json::Text("needle".into())),
            ("matches".into(), Json::Array(matches)),
        ]),
        false,
    );
    let serialized = size(&content);

    assert!(content.get("content_markdown").is_none());
    assert_eq!(content.get_text("fetch_id").unwrap(), "fetch-123");
    assert_eq!(
        content
            .get("derived")
            .unwrap()
            .get("matches")
            .unwrap()
            .as_array()
            .unwrap()
            .len(),
        1
    );
    assert!(
        serialized < 2_000,
        "derived response was {} bytes",
        serialized
    );
}

#[test]
fn get_fetch_response_keeps_the_stored_page() {
    let record = record_with_body("stored body".into());
    let content = evidence_content(&record, Json::Null, true);

    assert_eq!(content.get_text("content_markdown").unwrap(), "stored body");
}

#[test]
fn matches_do_not_overlap_and_keep_byte_offsets() {
    let found = excerpts("\u{e9}aaaa\u{e9}", "aa", 10, 1);
    let offsets: Vec<Option<u64>> = found
        .iter()
        .map(|m| m.get("byte_offset").unwrap().as_unsigned())
        .collect();
    assert_eq!(offsets, vec![Some(2), Some(4)]);
    assert_eq!(found[0].get_text("excerpt").unwrap(), "\u{e9}aaa");
    assert_eq!(found[1].get_text("excerpt").unwrap(), "aaa\u{e9}");
    assert_eq!(excerpts("aaaa", "aa", 1, 0).len(), 1);
    assert!(excerpts("aaaa", "b", 9, 0).is_empty());
    assert_eq!(
        excerpts("abc", "b", 9, usize::MAX)[0].get_text("excerpt").unwrap(),
        "abc"
    );
}

#[test]
fn searches_in_a_page_are_bounded() {
    let record = || Some(record_with_body("x".repeat(200)));
    let mut args = WebFindInFetchArgs {
        fetch_id: "fetch-123".into(),
        needle: "x".into(),
        max_matches: None,
        context_chars: None,
    };
    let count = |args: &WebFindInFetchArgs| {
        derived(&finish_find(args, record(), "a".into(), 0))
            .get("matches")
            .unwrap()
            .as_array()
            .unwrap()
            .len()
    };
    assert!(begin_find(&args).is_none());
    assert_eq!(count(&args), 10);
    args.max_matches = Some(0);
    assert_eq!(count(&args), 1);
    args.max_matches = Some(999);
    assert_eq!(count(&args), 50);
    args.needle = "".into();
    assert_eq!(reason(&begin_find(&args).unwrap()), "empty_needle");
}

#[test]
fn quotes_are_verified_letter_for_letter() {
    let record = record_with_body("one two one".into());
    let hash = record.content_hash.clone();
    let fresh = || Some(record_with_body("one two one".into()));
    let good = derived(&finish_verify(&quote("one", Some(hash)), fresh(), "a".into(), 0));
    assert!(matches!(good.get("verified"), Some(Json::Bool(true))));
    assert_eq!(good.get("match_count").unwrap().as_unsigned(), Some(2));
    let offsets = good.get("match_offsets").unwrap().as_array().unwrap();
    assert_eq!(offsets[1].as_unsigned(), Some(8));
    let stale = derived(&finish_verify(
        &quote("one", Some("sha256:other".into())),
        fresh(),
        "a".into(),
        0,
    ));
    assert!(matches!(stale.get("verified"), Some(Json::Bool(false))));
    assert!(matches!(stale.get("hash_matches"), Some(Json::Bool(false))));
    let wrong = derived(&finish_verify(&quote("One", None), fresh(), "a".into(), 0));
    assert!(matches!(wrong.get("verified"), Some(Json::Bool(false))));
    assert!(matches!(wrong.get("hash_matches"), Some(Json::Bool(true))));
    let many = derived(&finish_verify(
        &quote("a", None),
        Some(record_with_body("a".repeat(80))),
        "a".into(),
        0,
    ));
    assert_eq!(many.get("match_count").unwrap().as_unsigned(), Some(50));
    assert_eq!(reason(&begin_verify(&quote("", None)).unwrap()), "empty_quote");
    assert!(begin_verify(&quote("q", None)).is_none());
}

#[test]
fn loading_a_page_gives_it_with_its_provenance() {
    let outcome = finish_get(Some(record_with_body("body".into())), "audit".into(), 5);
    assert_eq!(
        outcome.call,
        Some(("web_get_fetch".to_string(), "ok".to_string()))
    );
    let audit = outcome.audit.as_ref().unwrap();
    assert_eq!(audit.fetch_id.as_deref(), Some("fetch-123"));
    let json = outcome.reply.to_json();
    assert_eq!(
        json.get("provenance").unwrap().get_text("fetch_id").unwrap(),
        "fetch-123"
    );
    assert_eq!(
        json.get("content").unwrap().get_text("content_markdown").unwrap(),
        "body"
    );
    assert_eq!(
        json.get("source").unwrap().get_text("fetched_at").unwrap(),
        "1970-01-01T00:00:00+00:00"
    );
}

#[test]
fn pages_that_are_not_stored_are_not_found() {
    assert_eq!(reason(&finish_get(None, "a".into(), 0)), "unknown_fetch_id");
    assert_eq!(
        reason(&finish_verify(&quote("q", None), None, "a".into(), 0)),
        "unknown_fetch_id"
    );
    let error = store_error("invalid fetch id");
    assert_eq!(
        error.get("error").unwrap().get_text("kind").unwrap(),
        "store_error"
    );
}

#[test]
fn context_is_counted_in_characters() {
    let args = WebFindInFetchArgs {
        fetch_id: "fetch-123".into(),
        needle: "needle".into(),
        max_matches: None,
        context_chars: Some(3),
    };
    let body = "\u{e9}\u{e9}\u{e9}\u{e9}\u{e9} needle";
    let answer = derived(&finish_find(&args, Some(record_with_body(body.into())), "a".into(), 0));
    let matches = answer.get("matches").unwrap().as_array().unwrap();
    assert_eq!(matches.len(), 1);
    assert_eq!(matches[0].get("byte_offset").unwrap().as_unsigned(), Some(11));
    assert_eq!(
        matches[0].get_text("excerpt").unwrap(),
        "\u{e9}\u{e9} needle"
    );
    let both = excerpts("\u{4f60}\u{597d}xx\u{4e16}\u{754c}", "xx", 9, 1);
    assert_eq!(
        both[0].get_text("excerpt").unwrap(),
        "\u{597d}xx\u{4e16}"
    );
    assert_eq!(both[0].get("byte_offset").unwrap().as_unsigned(), Some(6));
}
