use web_research_mcp::json::Json;
use web_research_mcp::store::{
    bundle_key, valid_id, AuditRecord, FetchRecord, ResearchBundleRecord, Store, StoreError,
    StoreFile,
};

fn path(file: Option<StoreFile>) -> Option<String> {
    file.map(|f| format!("{}/{}/{}", f.root, f.dir, f.name))
}

fn fetch(fetch_id: &str) -> FetchRecord {
    FetchRecord {
        fetch_id: fetch_id.into(),
        requested_url: "https://example.com".into(),
        final_url: "https://example.com/".into(),
        mode: "scrape".into(),
        requested_at: 0,
        completed_at: 0,
        status: "ok".into(),
        bytes: 5,
        content_hash: Store::content_hash(b"hello"),
        content_markdown: "hello".into(),
        source_provider: "fixture".into(),
        policy_decision: "allow".into(),
        truncated: false,
    }
}

#[test]
fn rejects_path_like_ids() {
    assert!(!valid_id("../secret"));
    assert!(valid_id("0c90152d-b74f-44de-9acf-435550c3d1c6"));
}

#[test]
fn ids_are_bounded() {
    assert!(!valid_id(""));
    assert!(valid_id(&"a".repeat(128)));
    assert!(!valid_id(&"a".repeat(129)));
    assert!(valid_id("A_z-9"));
    assert!(!valid_id("a.b"));
    assert!(!valid_id("\u{e9}"));
}

#[test]
fn a_fetch_is_read_where_it_was_written() {
    let store = Store::disk("/data".into());
    let record = fetch("f-1");
    assert_eq!(
        path(store.write_fetch(&record)),
        Some("/data/fetches/f-1.json".into())
    );
    assert_eq!(
        path(store.read_fetch("f-1").unwrap()),
        path(store.write_fetch(&record))
    );
    assert!(matches!(
        store.read_fetch("../f-1"),
        Err(StoreError::InvalidFetchId)
    ));
    assert_eq!(StoreError::InvalidFetchId.message(), "invalid fetch id");
}

#[test]
fn bundles_of_scoped_assignments_have_plain_names() {
    let store = Store::disk("/data".into());
    let record = ResearchBundleRecord {
        assignment_id: "run-id:primary-evidence".into(),
        request_hash: "sha256:request".into(),
        response_json: r#"{"content":{"source_count":4}}"#.into(),
    };
    let written = path(store.write_research_bundle(&record)).unwrap();
    assert_eq!(
        path(store.read_research_bundle(&record.assignment_id)),
        Some(written.clone())
    );
    assert!(written.starts_with("/data/bundles/sha256-"));
    assert!(written.ends_with(".json"));
    assert_eq!(bundle_key("x").len(), "sha256-".len() + 64 + ".json".len());
    assert!(!bundle_key("a/b:c").contains('/'));
    let loaded = Store::accept_research_bundle(record.clone(), &record.assignment_id).unwrap();
    assert_eq!(loaded.assignment_id, record.assignment_id);
    assert_eq!(loaded.request_hash, record.request_hash);
    assert_eq!(loaded.response_json, record.response_json);
    assert!(matches!(
        Store::accept_research_bundle(record, "another"),
        Err(StoreError::BundleKeyCollision)
    ));
    assert_eq!(
        StoreError::BundleKeyCollision.message(),
        "research bundle key collision"
    );
}

#[test]
fn a_store_without_a_place_keeps_nothing() {
    let store = Store::noop();
    assert!(store.write_fetch(&fetch("f-1")).is_none());
    assert!(matches!(store.read_fetch("../f-1"), Ok(None)));
    assert!(store.read_research_bundle("a").is_none());
    let audit = AuditRecord {
        entry_id: "e".into(),
        fetch_id: None,
        tool: "t".into(),
        args_redacted: Json::Null,
        outcome: "ok".into(),
        error: None,
        recorded_at: 0,
    };
    assert!(store.write_audit(&audit).is_none());
    assert_eq!(
        path(Store::disk("r".into()).write_audit(&audit)),
        Some("r/audits/e.json".into())
    );
    assert_eq!(Store::directories(), vec!["fetches", "audits", "bundles"]);
}

#[test]
fn content_hashes_are_sha256() {
    assert_eq!(
        Store::content_hash(b"hello"),
        "sha256:2cf24dba5fb0a30e26e83b2ac5b9e29e1b161e5c1fa7425e73043362938b9824"
    );
    assert_eq!(
        Store::content_hash(b""),
        "sha256:e3b0c44298fc1c149afbf4c8996fb92427ae41e4649b934ca495991b7852b855"
    );
}

#[test]
fn fresh_ids_differ_and_can_be_read() {
    let a = Store::new_fetch_id();
    let b = Store::new_audit_id();
    assert_ne!(a, b);
    assert!(valid_id(&a) && valid_id(&b));
    assert_eq!(a.len(), 36);
    assert_eq!(a.matches('-').count(), 4);
}

#[test]
fn bundles_of_different_assignments_stand_apart() {
    let store = Store::disk("/data".into());
    let ours = path(store.read_research_bundle("assignment-1"));
    let theirs = path(store.read_research_bundle("assignment-2"));
    assert!(ours.is_some());
    assert_ne!(ours, theirs);
    let written = ResearchBundleRecord {
        assignment_id: "assignment-2".into(),
        request_hash: "h".into(),
        response_json: "{}".into(),
    };
    assert_eq!(path(store.write_research_bundle(&written)), theirs);
    assert!(matches!(
        Store::accept_research_bundle(written, "assignment-1"),
        Err(StoreError::BundleKeyCollision)
    ));
}
