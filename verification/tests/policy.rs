use web_research_mcp::config::{Domains, Families, Limits};
use web_research_mcp::policy::{host_matches, Decision, Family, Policy};

fn p() -> Policy {
    Policy::new(Families::default(), Limits::default(), Domains::default())
}

fn reason(decision: Decision) -> String {
    match decision {
        Decision::Allow => "allow".into(),
        Decision::Deny(reason) => reason,
    }
}

#[test]
fn family_enabled_default() {
    assert_eq!(p().check_family(Family::Search), Decision::Allow);
}

#[test]
fn family_disabled_denies() {
    let fams = Families {
        browser: false,
        ..Default::default()
    };
    let pol = Policy::new(fams, Limits::default(), Domains::default());
    assert!(matches!(
        pol.check_family(Family::Browser),
        Decision::Deny(_)
    ));
}

#[test]
fn denylist_blocks_fleet_internal() {
    let pol = p();
    assert!(matches!(
        pol.check_domain("http://localhost/x"),
        Decision::Deny(_)
    ));
    assert!(matches!(
        pol.check_domain("http://service.internal/x"),
        Decision::Deny(_)
    ));
    assert!(matches!(
        pol.check_domain("http://100.64.5.10/x"),
        Decision::Deny(_)
    ));
    assert!(matches!(
        pol.check_domain("http://169.254.169.254/latest/meta-data"),
        Decision::Deny(_)
    ));
    assert!(matches!(
        pol.check_domain("http://[::1]/x"),
        Decision::Deny(_)
    ));
    assert!(matches!(
        pol.check_domain("file:///etc/passwd"),
        Decision::Deny(_)
    ));
}

#[test]
fn allowlist_empty_is_allow_by_default() {
    let pol = p();
    assert_eq!(pol.check_domain("https://example.com/"), Decision::Allow);
}

#[test]
fn allowlist_restricts() {
    let dom = Domains {
        allowlist: vec!["example.com".into()],
        denylist: vec![],
    };
    let pol = Policy::new(Families::default(), Limits::default(), dom);
    assert_eq!(pol.check_domain("https://example.com/"), Decision::Allow);
    assert!(matches!(
        pol.check_domain("https://other.com/"),
        Decision::Deny(_)
    ));
}

#[test]
fn deny_wins_over_allow() {
    let dom = Domains {
        allowlist: vec!["*.example.com".into()],
        denylist: vec!["bad.example.com".into()],
    };
    let pol = Policy::new(Families::default(), Limits::default(), dom);
    assert!(matches!(
        pol.check_domain("https://bad.example.com/"),
        Decision::Deny(_)
    ));
    assert_eq!(pol.check_domain("https://ok.example.com/"), Decision::Allow);
}

#[test]
fn wildcard_subdomain_match() {
    assert!(host_matches("*.example.com", "a.example.com"));
    assert!(host_matches("*.example.com", "example.com"));
    assert!(!host_matches("*.example.com", "other.com"));
}

#[test]
fn cidr_match_ipv4() {
    assert!(host_matches("100.64.0.0/10", "100.64.5.5"));
    assert!(host_matches("100.64.0.0/10", "100.127.255.254"));
    assert!(!host_matches("100.64.0.0/10", "100.128.0.1"));
}

#[test]
fn cap_search_results() {
    let pol = p();
    assert_eq!(pol.check_caps_search(10), Decision::Allow);
    assert!(matches!(pol.check_caps_search(0), Decision::Deny(_)));
    assert!(matches!(pol.check_caps_search(9999), Decision::Deny(_)));
}

#[test]
fn cap_crawl() {
    let pol = p();
    assert_eq!(pol.check_caps_crawl(2, 50), Decision::Allow);
    assert!(matches!(pol.check_caps_crawl(99, 1), Decision::Deny(_)));
    assert!(matches!(pol.check_caps_crawl(1, 99999), Decision::Deny(_)));
}

#[test]
fn inflight_caps_concurrent() {
    let lim = Limits {
        inflight_max: 2,
        ..Default::default()
    };
    let mut pol = Policy::new(
        Families::default(),
        lim,
        Domains {
            allowlist: vec![],
            denylist: vec![],
        },
    );
    let a = pol.try_acquire_inflight();
    let b = pol.try_acquire_inflight();
    let c = pol.try_acquire_inflight();
    assert!(a.is_some());
    assert!(b.is_some());
    assert!(c.is_none());
    pol.release_inflight(a.unwrap());
    let d = pol.try_acquire_inflight();
    assert!(d.is_some());
}

#[test]
fn every_denial_names_its_reason() {
    let pol = p();
    assert_eq!(reason(pol.check_domain("not a url")), "bad_url");
    assert_eq!(
        reason(pol.check_domain("ftp://example.com/")),
        "unsupported_scheme"
    );
    assert_eq!(
        reason(pol.check_domain("https://user@example.com/")),
        "url_credentials"
    );
    assert_eq!(
        reason(pol.check_domain("https://:secret@example.com/")),
        "url_credentials"
    );
    assert_eq!(
        reason(pol.check_domain("http://10.1.2.3/")),
        "non_public_ip"
    );
    assert_eq!(
        reason(pol.check_domain("http://[fd00::1]/")),
        "non_public_ip"
    );
    assert_eq!(
        reason(pol.check_domain("http://service.internal/")),
        "denylist:*.internal"
    );
    assert_eq!(
        reason(pol.check_family(Family::Browser)),
        "family_disabled:browser"
    );
    assert_eq!(
        reason(pol.check_family(Family::Crawl)),
        "family_disabled:crawl"
    );
    let limits = Limits::default();
    assert_eq!(
        reason(pol.check_caps_search(0)),
        format!("search_max_results:{}", limits.search_max_results)
    );
    assert_eq!(
        reason(pol.check_caps_crawl(0, 1)),
        format!("crawl_max_depth:{}", limits.crawl_max_depth)
    );
    assert_eq!(
        reason(pol.check_caps_crawl(1, 0)),
        format!("crawl_max_pages:{}", limits.crawl_max_pages)
    );
}

#[test]
fn hosts_are_read_as_the_url_parser_writes_them() {
    let pol = Policy::new(
        Families::default(),
        Limits::default(),
        Domains {
            allowlist: vec!["example.com".into()],
            denylist: vec![],
        },
    );
    assert_eq!(pol.check_domain("HTTPS://EXAMPLE.com:8443/a"), Decision::Allow);
    assert_eq!(
        reason(pol.check_domain("https://sub.example.com/")),
        "not_on_allowlist"
    );
    assert_eq!(reason(p().check_domain("http://0x7f.1/")), "non_public_ip");
}

#[test]
fn blocks_of_addresses_match_by_their_prefix() {
    assert!(host_matches("10.0.0.0/8", "10.255.0.1"));
    assert!(!host_matches("10.0.0.0/8", "11.0.0.1"));
    assert!(host_matches("0.0.0.0/0", "203.0.113.9"));
    assert!(host_matches("192.0.2.7/32", "192.0.2.7"));
    assert!(!host_matches("192.0.2.7/32", "192.0.2.8"));
    assert!(!host_matches("10.0.0.0/33", "10.0.0.1"));
    assert!(!host_matches("10.0.0.0/x", "10.0.0.1"));
    assert!(host_matches("fd00::/8", "fd12::1"));
    assert!(!host_matches("fd00::/8", "10.0.0.1"));
    assert!(!host_matches("10.0.0.0/8", "example.com"));
}

#[test]
fn special_use_literals_are_denied_in_any_spelling() {
    for url in [
        "http://[::ffff:127.0.0.1]/",
        "http://[::ffff:10.1.2.3]/",
        "http://[::127.0.0.1]/",
        "http://[64:ff9b::7f00:1]/",
        "http://[2002:7f00:1::]/",
        "http://[fec0::1]/",
        "http://198.18.0.1/",
        "http://0.1.2.3/",
        "http://240.0.0.1/",
        "http://192.0.0.8/",
    ] {
        assert_eq!(reason(p().check_domain(url)), "non_public_ip", "{url}");
    }
    assert_eq!(p().check_domain("http://[::ffff:8.8.8.8]/"), Decision::Allow);
    assert_eq!(p().check_domain("http://[2606:4700::1111]/"), Decision::Allow);
}
