use web_research_mcp::mcp::domain::SearchHit;
use web_research_mcp::mcp::passages::{
    assess_content as settle_content, passage_windows, passages, readable_body, rejected_content,
    verification_quote, ContentAssessment, PassageScore, MIN_CONTENT_SCORE,
};
use web_research_mcp::mcp::relevance::{
    gather_candidates, rank_candidates as rank_groups, CandidateRanking, GroupScore,
};
use web_research_mcp::mcp::terms::{
    categories_for_query, domains_share_brand, is_stopword, preview_relevance, stem, terms,
    text_relevance, title_similarity, tokenize,
};
use web_research_mcp::mcp::urls::{
    is_homepage, is_low_signal_domain, is_tracking_parameter, normalize_url,
    unsafe_candidate_reason,
};

fn hit(rank: usize, url: &str, title: &str, snippet: &str, engine: &str) -> SearchHit {
    SearchHit {
        rank,
        url: url.into(),
        title: title.into(),
        snippet: snippet.into(),
        engine: engine.into(),
        engines: vec![engine.into()],
        score: Some((1.0 / rank as f64).to_bits()),
        published_at: None,
    }
}

fn rounded(value: f64) -> f64 {
    (value * 10.0).round() / 10.0
}

fn preview_score(query: &str, hit: &SearchHit) -> u64 {
    let counts = preview_relevance(query, &hit.title, &hit.snippet, &hit.url);
    let share = |count: usize| {
        if counts.terms == 0 {
            0.0
        } else {
            count as f64 / counts.terms as f64
        }
    };
    let score =
        share(counts.title) * 42.0 + share(counts.snippet) * 30.0 + share(counts.url) * 12.0;
    score.to_bits()
}

fn rank_candidates(queries: &[String], searches: &[Vec<SearchHit>]) -> CandidateRanking {
    let queries = queries.to_vec();
    let searches: Vec<Vec<SearchHit>> = searches
        .iter()
        .map(|hits| hits.iter().map(SearchHit::copy).collect())
        .collect();
    let previews = queries
        .iter()
        .zip(&searches)
        .map(|(query, hits)| hits.iter().map(|hit| preview_score(query, hit)).collect())
        .collect::<Vec<Vec<u64>>>();
    let gathering = gather_candidates(&queries, &searches, &previews);
    let scores = gathering
        .groups
        .iter()
        .map(|group| {
            let mut retrieval = 0.0;
            for (query, index) in &group.members {
                let hit = &searches[*query][*index];
                let upstream = hit.score.map(f64::from_bits).unwrap_or_default();
                retrieval += 18.0 / (hit.rank.max(1) as f64).sqrt()
                    + upstream.max(0.0).ln_1p().min(3.0) * 2.0;
            }
            let best = f64::from_bits(group.best.score);
            let mut score = best
                + f64::min(retrieval, 28.0)
                + group.query_indices.len().saturating_sub(1) as f64 * 5.0
                + group.engines.len().saturating_sub(1) as f64 * 2.0;
            if is_homepage(&group.hit.url) {
                score -= 10.0;
            }
            if is_low_signal_domain(&group.domain) {
                score -= 12.0;
            }
            GroupScore {
                score: score.to_bits(),
                shown: rounded(score).to_bits(),
                preview_shown: rounded(best).to_bits(),
            }
        })
        .collect::<Vec<_>>();
    rank_groups(&queries, gathering, &scores)
}

fn assess_content(
    markdown: &str,
    final_url: &str,
    title: &str,
    queries: &[String],
) -> ContentAssessment {
    let body = match readable_body(markdown, final_url) {
        Ok(body) => body,
        Err(reason) => return rejected_content(reason),
    };
    let queries = queries.to_vec();
    let scores = passages(&body, &queries)
        .into_iter()
        .map(|passage| {
            let counts = &passage.counts;
            let score = if counts.terms == 0 || counts.tokens == 0 {
                0.0
            } else {
                let coverage = counts.matched as f64 / counts.terms as f64;
                let density = (counts.dense as f64 / counts.tokens as f64).min(0.08) / 0.08;
                coverage * 78.0 + density * 22.0
            };
            PassageScore {
                score: score.to_bits(),
                shown: rounded(score).to_bits(),
            }
        })
        .collect();
    settle_content(&body, title, &queries, &scores)
}

#[test]
fn normalizes_tracking_and_mobile_urls_for_deduplication() {
    let (left, domain) =
        normalize_url("https://www.Example.com/article/?utm_source=newsletter&id=3#section")
            .unwrap();
    let (right, _) = normalize_url("https://m.example.com/article?id=3").unwrap();
    assert_eq!(left, "https://example.com/article?id=3");
    assert_eq!(left, right);
    assert_eq!(domain, "example.com");
}

#[test]
fn ranks_relevant_papers_above_observed_junk() {
    let query = "time series momentum cryptocurrency academic study".to_string();
    let searches = vec![vec![
        hit(
            1,
            "https://time.is/",
            "Time.is - exact time, any time zone",
            "Current time worldwide",
            "bing",
        ),
        hit(
            2,
            "https://link.springer.com/article/crypto-momentum",
            "Time-series momentum and market timing in Bitcoin",
            "An empirical academic study of cryptocurrency momentum strategies",
            "privacywall",
        ),
        hit(
            3,
            "https://coinmarketcap.com/",
            "Cryptocurrency Prices and Market Capitalizations",
            "Live cryptocurrency prices",
            "bing",
        ),
        hit(
            4,
            "https://research.example.edu/bitcoin-momentum",
            "Bitcoin intraday time series momentum",
            "Research paper studying momentum effects in cryptocurrency markets",
            "fynd",
        ),
    ]];
    let ranked = rank_candidates(&[query], &searches);
    assert!(ranked.candidates.len() >= 2);
    assert!(ranked.candidates[0].hit.url.contains("springer.com"));
    assert!(ranked.candidates[1]
        .hit
        .url
        .contains("research.example.edu"));
    assert!(ranked
        .rejected
        .iter()
        .any(|item| item.url == "https://time.is/"));
}

#[test]
fn rejects_login_redirects_before_fetch() {
    assert_eq!(
        unsafe_candidate_reason(
            "https://login.microsoftonline.com/oauth/authorize?redirect_uri=x"
        ),
        Some("authentication_url")
    );
}

#[test]
fn rejects_near_duplicate_article_and_pdf_titles() {
    let query = "cryptocurrency momentum strategy risks counterevidence".to_string();
    let searches = vec![vec![
        hit(
            1,
            "https://link.springer.com/content/pdf/paper.pdf",
            "Cryptocurrency momentum has (not) its moments - Springer",
            "A study of cryptocurrency momentum strategy risks and counterevidence",
            "privacywall",
        ),
        hit(
            2,
            "https://link.springer.com/article/paper",
            "Cryptocurrency momentum has (not) its moments | Financial Markets",
            "Research on cryptocurrency momentum strategy risk",
            "fynd",
        ),
    ]];
    let ranked = rank_candidates(&[query], &searches);
    assert_eq!(ranked.candidates.len(), 1);
    assert!(ranked
        .rejected
        .iter()
        .any(|item| item.reason == "near_duplicate_title"));
}

#[test]
fn rejects_near_identical_titles_across_mirror_domains() {
    let query = "Model Context Protocol authorization specification guidance".to_string();
    let searches = vec![vec![
        hit(
            1,
            "https://modelcontextprotocol.io/specification/authorization",
            "Authorization - Model Context Protocol",
            "Model Context Protocol authorization specification and guidance",
            "privacywall",
        ),
        hit(
            2,
            "https://modelcontextprotocol.info/specification/authorization",
            "Authorization - Model Context Protocol (MCP)",
            "A mirror of the Model Context Protocol authorization specification",
            "fynd",
        ),
    ]];
    let ranked = rank_candidates(&[query], &searches);
    assert_eq!(ranked.candidates.len(), 1);
    assert!(ranked
        .rejected
        .iter()
        .any(|item| item.reason == "near_duplicate_title"));
}

#[test]
fn covers_each_planned_query_before_filling_more_slots() {
    let queries = vec![
        "Model Context Protocol authorization specification requirements".to_string(),
        "Model Context Protocol prompt injection independent analysis".to_string(),
    ];
    let searches = vec![
        vec![
            hit(
                1,
                "https://spec.example.org/authorization",
                "Model Context Protocol authorization specification",
                "Normative authorization requirements for protocol deployments",
                "privacywall",
            ),
            hit(
                2,
                "https://deployment.guide.org/authorization",
                "Model Context Protocol authorization deployment guide",
                "Implementation guidance for authorization requirements",
                "fynd",
            ),
        ],
        vec![hit(
            1,
            "https://security.example.org/mcp-injection",
            "Model Context Protocol prompt injection analysis",
            "Independent security analysis of prompt injection risks",
            "bing",
        )],
    ];
    let ranked = rank_candidates(&queries, &searches);
    assert_eq!(ranked.candidates.len(), 3);
    assert!(ranked.candidates[0].matched_queries.contains(&queries[0]));
    assert!(ranked.candidates[1].matched_queries.contains(&queries[1]));
    assert!(ranked.candidates[2].matched_queries.contains(&queries[0]));
}

#[test]
fn extracts_query_focused_passages_and_exact_quote() {
    let noise = "Navigation products pricing contact. ".repeat(40);
    let relevant = "The Model Context Protocol specification defines tools as schema-described functions that a server exposes to a client. Tool results are returned through the protocol with explicit correlation to the originating request.";
    let body = format!("<<<UNTRUSTED_WEB_CONTENT:n source=\"x\">>>\n{noise}\n\n{relevant}\n\n{noise}\n<<<END_UNTRUSTED_WEB_CONTENT:n>>>");
    let assessment = assess_content(
        &body,
        "https://modelcontextprotocol.io/specification/tools",
        "Model Context Protocol tools specification",
        &["Model Context Protocol official specification tooling".into()],
    );
    assert!(assessment.accepted, "{:?}", assessment.reason);
    assert!(assessment.excerpt.contains("schema-described functions"));
    assert!(body.contains(&assessment.verification_quote));
    assert!(f64::from_bits(assessment.relevance_score) >= f64::from_bits(MIN_CONTENT_SCORE));
}

#[test]
fn exact_quote_stops_before_markdown_permalink() {
    let sentence = "This document specifies an extension to the OAuth 2.0 Authorization Framework defining request parameters that let a client identify the protected resource.";
    let line = format!(
        "{sentence}[\u{00b6}](https://www.rfc-editor.org/rfc/rfc8707.html#section-abstract)"
    );
    let quote = verification_quote(&line);
    assert_eq!(quote, sentence);
    assert!(line.contains(&quote));
}

#[test]
fn rejects_content_that_only_matches_one_ambiguous_word() {
    let body = format!(
        "<<<UNTRUSTED_WEB_CONTENT:n source=\"x\">>>\n{}\n<<<END_UNTRUSTED_WEB_CONTENT:n>>>",
        "Explore popular three-dimensional fashion models, animations, and downloadable art assets. ".repeat(20)
    );
    let assessment = assess_content(
        &body,
        "https://sketchfab.com/3d-models/popular",
        "Popular 3D models",
        &["Model Context Protocol official specification tooling".into()],
    );
    assert!(!assessment.accepted);
    assert_eq!(assessment.reason, Some("low_content_relevance"));
}

#[test]
fn routes_academic_and_technical_queries_to_specialized_categories() {
    assert_eq!(
        categories_for_query("academic study of a Rust protocol implementation"),
        Some("general,science,it")
    );
    assert_eq!(categories_for_query("today's weather"), Some("general"));
}

#[test]
fn a_single_kind_of_source_gets_its_category() {
    assert_eq!(
        categories_for_query("Systematic overview"),
        Some("general,science")
    );
    assert_eq!(categories_for_query("github issues"), Some("general,it"));
}

#[test]
fn tokens_are_lowercase_stemmed_words() {
    assert_eq!(
        tokenize("The Studies, CLASSES & \u{c9}coles of x"),
        vec!["study", "classe", "\u{e9}cole", "of"]
    );
    assert_eq!(stem("ties".into()), "ties");
    assert_eq!(stem("flies".into()), "flie");
    assert_eq!(stem("stories".into()), "story");
    assert_eq!(stem("class".into()), "class");
    assert_eq!(stem("cats".into()), "cats");
    assert!(is_stopword("sources"));
    assert!(!is_stopword("evidence"));
    assert_eq!(terms("cat dog cat"), vec!["cat", "dog"]);
}

#[test]
fn coverage_is_counted_term_by_term() {
    let c = preview_relevance(
        "rust protocol design",
        "Rust design",
        "a protocol",
        "https://rust.org/",
    );
    assert_eq!(
        (c.terms, c.title, c.snippet, c.url, c.matched),
        (3, 2, 1, 1, 3)
    );
    let t = text_relevance("rust protocol", "rust rust, other words");
    assert_eq!((t.terms, t.matched, t.tokens, t.dense), (2, 1, 4, 2));
    let none = text_relevance("", "rust");
    assert_eq!((none.terms, none.matched, none.tokens), (0, 0, 1));
}

#[test]
fn titles_are_alike_from_four_fifths_on() {
    let five = terms("alpha beta gamma delta epsilon");
    assert!(title_similarity(&five, &terms("alpha beta gamma delta other words")));
    assert!(!title_similarity(&five, &terms("alpha beta gamma other words more")));
    assert!(title_similarity(&terms("alpha"), &five));
    assert!(!title_similarity(&terms(""), &five));
}

#[test]
fn brands_are_the_labels_that_tell() {
    assert!(domains_share_brand("docs.acme.io", "acme.com"));
    assert!(!domains_share_brand("docs.acme.io", "docs.other.io"));
}

#[test]
fn canonical_urls_forget_what_does_not_matter() {
    let (url, domain) =
        normalize_url("http://AMP.Example.com:8080/a//?b=2&a=1&fbclid=x&UTM_x=1").unwrap();
    assert_eq!(url, "http://example.com:8080/a?a=1&b=2");
    assert_eq!(domain, "example.com");
    assert_eq!(
        normalize_url("https://example.com:443/").unwrap().0,
        "https://example.com/"
    );
    assert_eq!(
        normalize_url("https://example.com/?utm_source=x").unwrap().0,
        "https://example.com/"
    );
    assert_eq!(
        normalize_url("https://example.com/?q=a%20b").unwrap().0,
        "https://example.com/?q=a+b"
    );
    assert_eq!(normalize_url("nonsense").unwrap_err(), "invalid_url");
    assert_eq!(
        normalize_url("ftp://example.com/").unwrap_err(),
        "unsupported_url_scheme"
    );
    assert!(is_tracking_parameter("Utm_Campaign"));
    assert!(is_tracking_parameter("GCLID"));
    assert!(!is_tracking_parameter("utmost"));
}

#[test]
fn redirects_and_homepages_are_told_from_pages() {
    assert_eq!(
        unsafe_candidate_reason("https://x.test/go?continue=/a"),
        Some("redirect_url")
    );
    assert_eq!(
        unsafe_candidate_reason("https://x.test/Sign-In/now"),
        Some("authentication_url")
    );
    assert_eq!(unsafe_candidate_reason("https://x.test/authors"), None);
    assert_eq!(unsafe_candidate_reason("nonsense"), None);
    assert!(is_homepage("https://x.test"));
    assert!(is_homepage("https://x.test//"));
    assert!(!is_homepage("https://x.test/?q"));
    assert!(!is_homepage("https://x.test/a"));
    assert!(!is_homepage("nonsense"));
    assert!(is_low_signal_domain("www.youtube.com"));
    assert!(!is_low_signal_domain("notyoutube.com"));
}

#[test]
fn pages_are_gathered_once_and_every_one_is_accounted_for() {
    let query = "rust verification tools overview".to_string();
    let title = "Rust verification tools overview";
    let other = "An overview of verification tools for Rust code";
    let searches = vec![vec![
        hit(1, "https://www.acme.org/a?utm_source=x", title, "short", "bing"),
        hit(2, "https://acme.org/a/", title, "a longer snippet on rust", "fynd"),
        hit(3, "mailto:x@y.org", title, "s", "bing"),
        hit(4, "https://acme.org/login", title, "s", "bing"),
        hit(5, "https://two.org/b", other, "rust verification tools", "bing"),
        hit(6, "https://far.org/c", "Cooking", "pasta", "bing"),
        hit(7, "https://far.org/d", "Rust removal", "iron", "bing"),
    ]];
    let ranked = rank_candidates(&[query], &searches);
    assert_eq!(ranked.candidates.len(), 2);
    assert_eq!(ranked.candidates[0].normalized_url, "https://acme.org/a");
    assert_eq!(ranked.candidates[0].hit.snippet, "a longer snippet on rust");
    assert_eq!(ranked.candidates[0].search_engines, vec!["bing", "fynd"]);
    let mut reasons: Vec<&str> = ranked.rejected.iter().map(|r| r.reason.as_str()).collect();
    reasons.sort();
    assert_eq!(
        reasons,
        vec![
            "authentication_url",
            "insufficient_preview_concepts",
            "low_preview_relevance",
            "unsupported_url_scheme"
        ]
    );
    assert!(ranked.rejected.iter().all(|r| r.stage == "candidate"));
}

#[test]
fn a_domain_gets_two_places() {
    let query = "rust ownership borrow guide".to_string();
    let titles = [
        "Rust ownership explained in depth",
        "Borrow checker guide and lifetimes",
        "Rust guide chapter about smart pointers",
    ];
    let searches = vec![(0..3)
        .map(|i| {
            hit(
                i + 1,
                &format!("https://acme.org/p{i}"),
                titles[i],
                "rust ownership borrow guide",
                "bing",
            )
        })
        .collect::<Vec<_>>()];
    let ranked = rank_candidates(&[query], &searches);
    assert_eq!(ranked.candidates.len(), 2);
    assert!(ranked
        .rejected
        .iter()
        .any(|r| r.reason == "domain_diversity_cap"));
}

#[test]
fn weak_previews_are_left_out() {
    let searches = vec![vec![hit(
        9,
        "https://acme.org/",
        "Rust news",
        "weekly",
        "bing",
    )]];
    let ranked = rank_candidates(&["rust borrow checker".to_string()], &searches);
    assert!(ranked.candidates.is_empty());
    assert_eq!(ranked.rejected[0].reason, "low_preview_relevance");
}

#[test]
fn passages_overlap_and_cover_the_text() {
    assert_eq!(passage_windows(0), vec![(0, 0)]);
    assert_eq!(passage_windows(1600), vec![(0, 1600)]);
    assert_eq!(passage_windows(1601), vec![(0, 1600), (1200, 1601)]);
    assert_eq!(
        passage_windows(4000),
        vec![(0, 1600), (1200, 2800), (2400, 4000)]
    );
}

#[test]
fn pages_that_are_no_content_are_turned_down() {
    let text = "plain words about rust verification and proofs ".repeat(20);
    assert_eq!(
        readable_body("too short", "https://x.test/").err(),
        Some("content_too_short")
    );
    assert_eq!(
        readable_body(&text, "https://x.test/login").err(),
        Some("authentication_or_interstitial")
    );
    assert_eq!(
        readable_body(&format!("Log in with your Password. {text}"), "https://x.test/").err(),
        Some("authentication_or_interstitial")
    );
    assert_eq!(readable_body(&text, "https://x.test/").unwrap(), text.trim());
    let none = settle_content(&text, "t", &vec![], &vec![]);
    assert_eq!(none.reason, Some("no_relevant_passage"));
    let mismatch = assess_content(
        &text,
        "https://x.test/",
        "Unrelated gardening headline",
        &["rust gardens compilers".to_string()],
    );
    assert_eq!(mismatch.reason, Some("title_content_mismatch"));
}

#[test]
fn quotes_are_whole_sentences_where_they_can_be() {
    let sentence = format!("{}.", "a".repeat(100));
    assert_eq!(
        verification_quote(&format!("short\n  {sentence} More text follows here.\n")),
        sentence
    );
    assert_eq!(verification_quote(&"b".repeat(400)), "b".repeat(320));
    assert_eq!(verification_quote("  tiny  "), "tiny");
    assert_eq!(
        verification_quote(&format!("{}.x {}!", "c".repeat(90), "d".repeat(20))),
        format!("{}.x {}!", "c".repeat(90), "d".repeat(20))
    );
}

#[test]
fn spellings_of_a_page_have_one_form() {
    let form = |url: &str| normalize_url(url).unwrap().0;
    let plain = form("https://example.com/a/b?x=1&y=2");
    assert_eq!(plain, "https://example.com/a/b?x=1&y=2");
    for url in [
        "https://example.com/a/b/?x=1&y=2",
        "https://example.com/a/b///?x=1&y=2",
        "https://example.com/a/b?y=2&x=1",
        "https://example.com/a/b?x=1&y=2#part",
        "https://example.com/a/b/?y=2&UTM_medium=m&x=1&gclid=7#",
        "https://example.com/a/b?x=1&y=2#a#b c",
    ] {
        assert_eq!(form(url), plain, "{url}");
    }
    assert_eq!(form("https://example.com"), "https://example.com/");
    assert_eq!(form("https://example.com//"), "https://example.com/");
    assert_eq!(form("https://example.com///#top"), "https://example.com/");
    assert_eq!(form("https://example.com/a//b//"), "https://example.com/a//b");
    assert_eq!(normalize_url("mailto:a@b.test").unwrap_err(), "unsupported_url_scheme");
}

#[test]
fn every_found_page_is_a_candidate_or_left_out() {
    let query = "rust ownership borrow guide".to_string();
    let found = |rank: usize, url: &str, title: &str| {
        hit(rank, url, title, "rust ownership borrow guide", "bing")
    };
    let searches = vec![vec![
        found(1, "https://acme.org/a", "Rust ownership explained in depth"),
        found(2, "https://www.acme.org/a/#top", "Rust ownership explained in depth"),
        found(3, "https://acme.org/b", "Borrow checker guide and lifetimes"),
        found(4, "https://acme.org/c", "Rust guide chapter about smart pointers"),
        found(5, "https://acme.org/d", "Rust ownership explained in depth"),
        found(6, "https://other.net/login", "Rust ownership borrow guide"),
        hit(7, "https://third.net/x", "Cooking", "pasta", "bing"),
    ]];
    let ranked = rank_candidates(&[query], &searches);
    let kept: Vec<&str> = ranked
        .candidates
        .iter()
        .map(|c| c.normalized_url.as_str())
        .collect();
    let left: Vec<String> = ranked
        .rejected
        .iter()
        .map(|r| normalize_url(&r.url).unwrap().0)
        .collect();
    for (i, page) in kept.iter().enumerate() {
        assert!(!kept[..i].contains(page));
        assert!(!left.iter().any(|l| l == page));
    }
    let mut pages: Vec<String> = kept.iter().map(|k| k.to_string()).collect();
    pages.extend(left);
    pages.sort();
    assert_eq!(
        pages,
        vec![
            "https://acme.org/a",
            "https://acme.org/b",
            "https://acme.org/c",
            "https://acme.org/d",
            "https://other.net/login",
            "https://third.net/x",
        ]
    );
    assert!(ranked
        .candidates
        .iter()
        .all(|c| f64::from_bits(c.score) >= 24.0));
    assert!(!ranked.candidates.is_empty());
}

#[test]
fn previews_are_counted_and_not_taken_on_trust() {
    let query = "rust borrow checker lifetimes".to_string();
    let searches = vec![vec![hit(1, "https://a.test/", "Rust news", "weekly", "bing")]];
    let gathering = gather_candidates(&vec![query], &searches, &vec![vec![99f64.to_bits()]]);
    assert_eq!(gathering.groups[0].best.terms, 4);
    assert_eq!(gathering.groups[0].best.matched, 1);
    assert_eq!(f64::from_bits(gathering.groups[0].best.score), 99.0);
}

#[test]
fn a_page_is_accepted_or_has_a_reason() {
    let text = "Plain words about rust verification and proofs of programs. ".repeat(40);
    let queries = ["rust verification proofs".to_string(), "gardens".to_string()];
    let good = assess_content(&text, "https://x.test/", "Rust proofs", &queries);
    assert!(good.accepted);
    assert_eq!(good.reason, None);
    assert!(f64::from_bits(good.relevance_score) >= 28.0);
    assert!(queries.contains(&good.matched_query));
    let length = good.verification_quote.chars().count();
    assert!(length > 0 && length <= 320);
    assert!(good.excerpt.contains(&good.verification_quote));
    let bad = assess_content(&text, "https://x.test/", "Rust proofs", &["zebra".to_string()]);
    assert!(!bad.accepted);
    assert_eq!(bad.reason, Some("low_content_relevance"));
    assert!(bad.excerpt.is_empty() && bad.verification_quote.is_empty());
}

#[test]
fn a_high_score_does_not_make_up_for_terms_that_are_missing() {
    let blank = " \n".repeat(200);
    let queries = vec!["rust".to_string()];
    let scores = passages(&blank, &queries)
        .iter()
        .map(|_| PassageScore {
            score: 90f64.to_bits(),
            shown: 90f64.to_bits(),
        })
        .collect();
    let none = settle_content(&blank, "", &queries, &scores);
    assert!(!none.accepted);
    assert_eq!(none.reason, Some("low_content_relevance"));
}

#[test]
fn a_parsed_path_is_kept_but_for_its_trailing_slashes() {
    for (path, kept) in [
        ("/a%2Fb/", "/a%2Fb"),
        ("/a b/\u{e9}/", "/a%20b/%C3%A9"),
        ("/{x}/`\"<>^|/", "/%7Bx%7D/%60%22%3C%3E^|"),
        ("/./a/.%2e/b//", "/b"),
        ("/C:/../x/", "/C:/x"),
        ("//a//b\\c\\", "//a//b/c"),
        ("/%zz/%/..", "/%zz"),
        ("/..//", "/"),
        ("/a\t/b\n/", "/a/b"),
    ] {
        let raw = format!("https://example.com{path}");
        let parsed = url::Url::parse(&raw).unwrap();
        let trimmed = parsed.path().trim_end_matches('/');
        let expected = if trimmed.is_empty() { "/" } else { trimmed };
        assert_eq!(expected, kept, "{path}");
        assert_eq!(
            normalize_url(&raw).unwrap().0,
            format!("https://example.com{kept}"),
            "{path}"
        );
    }
}
