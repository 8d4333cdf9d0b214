use web_research_mcp::mcp::tools::{select_tools, tool_names};

#[test]
fn exact_tool_allowlist_filters_advertisement_and_dispatch() {
    let allowed = vec![
        "web_collect_evidence".to_owned(),
        "web_find_in_fetch".to_owned(),
    ];
    let names = select_tools(&tool_names(), &Some(allowed.clone())).unwrap();
    assert_eq!(names, allowed);
    assert!(!names.contains(&"web_search".to_owned()));
    assert!(!names.contains(&"web_scrape_url".to_owned()));
}

#[test]
fn unknown_exposed_tool_fails_closed() {
    let error = match select_tools(&tool_names(), &Some(vec!["not-a-tool".to_owned()])) {
        Ok(_) => panic!("unknown exposed tool unexpectedly started"),
        Err(error) => error,
    };
    assert!(error.contains("unknown tool \"not-a-tool\""));
}

#[test]
fn without_an_allowlist_every_tool_is_offered() {
    let names = tool_names();
    assert_eq!(select_tools(&names, &None).unwrap(), names);
    assert_eq!(names.len(), 16);
    assert!(select_tools(&names, &Some(vec![])).unwrap().is_empty());
}

#[test]
fn a_name_is_shown_as_it_must_be_quoted() {
    assert_eq!(
        select_tools(&tool_names(), &Some(vec!["a\"b".to_owned()])).unwrap_err(),
        "WEB_RESEARCH_MCP_EXPOSED_TOOLS contains unknown tool \"a\\\"b\""
    );
}
