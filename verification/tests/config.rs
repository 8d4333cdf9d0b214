use web_research_mcp::config::{parse_flag, tool_list, Config, Environment};

fn unset() -> Environment {
    Environment {
        data_dir: None,
        http_port: None,
        http_bind_addr: None,
        mcp_path: None,
        exposed_tools: None,
        searxng_endpoint: None,
        firecrawl_endpoint: None,
        firecrawl_api_key: None,
        camofox_endpoint: None,
        camofox_api_key: None,
        enable_search: None,
        enable_extract: None,
        enable_crawl: None,
        enable_browser: None,
    }
}

#[test]
fn defaults_are_conservative() {
    let config = Config::with_data_dir("/data".into());
    assert_eq!(config.data_dir, "/data");
    assert_eq!(config.http_port, 9213);
    assert_eq!(config.http_bind_addr, "127.0.0.1");
    assert_eq!(config.mcp_path, "/mcp");
    assert!(config.policy.families.search && config.policy.families.extract);
    assert!(!config.policy.families.crawl && !config.policy.families.browser);
    assert_eq!(config.policy.limits.inflight_max, 8);
    assert_eq!(config.store.retention_days, 30);
    assert!(config.policy.domains.allowlist.is_empty());
    assert!(!config.policy.domains.denylist.is_empty());
}

#[test]
fn unset_variables_change_nothing() {
    let mut config = Config::with_data_dir("/data".into());
    config.apply_env_overrides(unset());
    assert_eq!(config.data_dir, "/data");
    assert_eq!(config.http_port, 9213);
    assert!(config.exposed_tools.is_none());
    assert!(config.backends.firecrawl.api_key.is_none());
}

#[test]
fn set_variables_take_precedence() {
    let mut config = Config::with_data_dir("/data".into());
    config.apply_env_overrides(Environment {
        data_dir: Some("/other".into()),
        http_port: Some("8080".into()),
        http_bind_addr: Some("0.0.0.0".into()),
        mcp_path: Some("/m".into()),
        exposed_tools: Some(" web_search , ,web_map_site".into()),
        searxng_endpoint: Some("http://s".into()),
        firecrawl_endpoint: Some("http://f".into()),
        firecrawl_api_key: Some("k".into()),
        camofox_endpoint: Some("http://c".into()),
        camofox_api_key: Some("l".into()),
        enable_search: Some("OFF".into()),
        enable_extract: Some("maybe".into()),
        enable_crawl: Some("Yes".into()),
        enable_browser: Some("1".into()),
    });
    assert_eq!(config.data_dir, "/other");
    assert_eq!(config.http_port, 8080);
    assert_eq!(config.http_bind_addr, "0.0.0.0");
    assert_eq!(config.mcp_path, "/m");
    assert_eq!(
        config.exposed_tools.unwrap(),
        vec!["web_search", "web_map_site"]
    );
    assert_eq!(config.backends.searxng.endpoint, "http://s");
    assert_eq!(config.backends.firecrawl.endpoint, "http://f");
    assert_eq!(config.backends.firecrawl.api_key.unwrap(), "k");
    assert_eq!(config.backends.camofox.endpoint, "http://c");
    assert_eq!(config.backends.camofox.api_key.unwrap(), "l");
    let families = config.policy.families;
    assert!(!families.search);
    assert!(families.extract);
    assert!(families.crawl);
    assert!(families.browser);
}

#[test]
fn ports_that_are_no_ports_are_ignored() {
    for text in ["", "65536", "-1", "80a", " 80"] {
        let mut config = Config::with_data_dir("/data".into());
        config.apply_env_overrides(Environment {
            http_port: Some(text.into()),
            ..unset()
        });
        assert_eq!(config.http_port, 9213, "{text}");
    }
    let mut config = Config::with_data_dir("/data".into());
    config.apply_env_overrides(Environment {
        http_port: Some("+065535".into()),
        ..unset()
    });
    assert_eq!(config.http_port, 65535);
}

#[test]
fn flags_and_lists_are_parsed() {
    assert_eq!(parse_flag("TRUE"), Some(true));
    assert_eq!(parse_flag("No"), Some(false));
    assert_eq!(parse_flag(""), None);
    assert_eq!(parse_flag(" 1"), None);
    assert!(tool_list(" , ").is_empty());
    assert_eq!(tool_list("a,b , a"), vec!["a", "b", "a"]);
}
