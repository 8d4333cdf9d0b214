//! What a call may ask for: families of tools, caps, hosts, and calls in flight.
use vstd::prelude::*;

use crate::config::{Domains, Families, Limits};
use crate::ip::{block_match, cidr_match, ip_value, is_public, is_public_ip, parse_ip};
use crate::text::{
    chars_of, contains, decimal, decimal_text, ends_with, has_at, occurs, same_text, slice_text,
    starts_with, texts,
};
use crate::weburl::{parse_url, url_parse, UrlParts, UrlView};

verus! {

/// A family of tools.
#[derive(Debug, Clone, Copy, PartialEq, Eq, Structural)]
pub enum Family {
    Search,
    Extract,
    Crawl,
    Browser,
}

/// What the policy says of a request.
#[derive(Debug, Clone, PartialEq, Eq)]
pub enum Decision {
    Allow,
    Deny(String),
}

/// What the policy says of a request, as a mathematical value.
pub enum Verdict {
    Allow,
    Deny(Seq<char>),
}

impl View for Decision {
    type V = Verdict;

    open spec fn view(&self) -> Verdict {
        match *self {
            Decision::Allow => Verdict::Allow,
            Decision::Deny(reason) => Verdict::Deny(reason@),
        }
    }
}

/// The rules that every call is held to, and the number of calls in flight.
pub struct Policy {
    families: Families,
    limits: Limits,
    domains: Domains,
    inflight: usize,
}

/// The rules as mathematical values.
pub struct PolicyView {
    pub families: Families,
    pub limits: Limits,
    pub allowlist: Seq<Seq<char>>,
    pub denylist: Seq<Seq<char>>,
    pub inflight: nat,
}

impl View for Policy {
    type V = PolicyView;

    closed spec fn view(&self) -> PolicyView {
        PolicyView {
            families: self.families,
            limits: self.limits,
            allowlist: texts(self.domains.allowlist@),
            denylist: texts(self.domains.denylist@),
            inflight: self.inflight as nat,
        }
    }
}

/// A place among the calls in flight.
pub struct InflightGuard {
    held: (),
}

/// The setting that enables a family.
pub open spec fn family_enabled(families: Families, family: Family) -> bool {
    match family {
        Family::Search => families.search,
        Family::Extract => families.extract,
        Family::Crawl => families.crawl,
        Family::Browser => families.browser,
    }
}

/// The reason that a disabled family is refused with.
pub open spec fn family_reason(family: Family) -> Seq<char> {
    match family {
        Family::Search => "family_disabled:search"@,
        Family::Extract => "family_disabled:extract"@,
        Family::Crawl => "family_disabled:crawl"@,
        Family::Browser => "family_disabled:browser"@,
    }
}

/// What the policy says of a family.
pub open spec fn family_verdict(p: PolicyView, family: Family) -> Verdict {
    if family_enabled(p.families, family) {
        Verdict::Allow
    } else {
        Verdict::Deny(family_reason(family))
    }
}

/// A pattern covers a host. `*.d` covers `d` and every host below it, a pattern with a
/// slash covers the addresses of a block, and any other covers the host of that name.
pub open spec fn host_covered(pattern: Seq<char>, host: Seq<char>) -> bool {
    if has_at(pattern, "*."@, 0) {
        let suffix = pattern.skip(2);
        let dotted = "."@ + suffix;
        host == suffix || has_at(host, dotted, host.len() - dotted.len())
    } else if occurs(pattern, "/"@) {
        match ip_value(host) {
            Some(ip) => block_match(pattern, ip) == Some(true),
            None => false,
        }
    } else {
        host == pattern
    }
}

/// The first of `patterns`, from `from` on, that covers the host.
pub open spec fn first_cover(patterns: Seq<Seq<char>>, host: Seq<char>, from: int) -> Option<int>
    decreases patterns.len() - from,
{
    if from < 0 || from >= patterns.len() {
        None
    } else if host_covered(patterns[from], host) {
        Some(from)
    } else {
        first_cover(patterns, host, from + 1)
    }
}

/// What the allow and deny lists say of a host.
pub open spec fn host_verdict(
    allowlist: Seq<Seq<char>>,
    denylist: Seq<Seq<char>>,
    host: Seq<char>,
) -> Verdict {
    match first_cover(denylist, host, 0) {
        Some(i) => Verdict::Deny("denylist:"@ + denylist[i]),
        None => if allowlist.len() == 0 || first_cover(allowlist, host, 0) is Some {
            Verdict::Allow
        } else {
            Verdict::Deny("not_on_allowlist"@)
        },
    }
}

/// The schemes that are fetched.
pub open spec fn web_scheme(scheme: Seq<char>) -> bool {
    scheme == "http"@ || scheme == "https"@
}

/// What the policy says of a parsed URL.
pub open spec fn parts_verdict(p: PolicyView, url: UrlView) -> Verdict {
    if !web_scheme(url.scheme) {
        Verdict::Deny("unsupported_scheme"@)
    } else if url.username.len() > 0 || url.password is Some {
        Verdict::Deny("url_credentials"@)
    } else {
        match url.host {
            None => Verdict::Deny("no_host"@),
            Some(host) => if url.address is Some && !is_public(url.address->0) {
                Verdict::Deny("non_public_ip"@)
            } else {
                host_verdict(p.allowlist, p.denylist, host)
            },
        }
    }
}

/// What the policy says of a URL.
pub open spec fn url_verdict(p: PolicyView, raw: Seq<char>) -> Verdict {
    match url_parse(raw) {
        Some(url) => parts_verdict(p, url),
        None => Verdict::Deny("bad_url"@),
    }
}

/// A reason that names a cap.
pub open spec fn cap_reason(name: Seq<char>, cap: nat) -> Seq<char> {
    name + decimal(cap)
}

/// What the policy says of a number of results.
pub open spec fn search_caps_verdict(p: PolicyView, max_results: nat) -> Verdict {
    if max_results == 0 || max_results > p.limits.search_max_results {
        Verdict::Deny(cap_reason("search_max_results:"@, p.limits.search_max_results as nat))
    } else {
        Verdict::Allow
    }
}

/// What the policy says of the depth and the number of pages of a crawl.
pub open spec fn crawl_caps_verdict(p: PolicyView, max_depth: nat, max_pages: nat) -> Verdict {
    if max_depth == 0 || max_depth > p.limits.crawl_max_depth {
        Verdict::Deny(cap_reason("crawl_max_depth:"@, p.limits.crawl_max_depth as nat))
    } else if max_pages == 0 || max_pages > p.limits.crawl_max_pages {
        Verdict::Deny(cap_reason("crawl_max_pages:"@, p.limits.crawl_max_pages as nat))
    } else {
        Verdict::Allow
    }
}

/// The rules once one more call is in flight; none where the cap is reached.
pub open spec fn acquired(p: PolicyView) -> Option<PolicyView> {
    if p.inflight < p.limits.inflight_max {
        Some(PolicyView { inflight: p.inflight + 1, ..p })
    } else {
        None
    }
}

/// The rules once one call less is in flight.
pub open spec fn released(p: PolicyView) -> PolicyView {
    PolicyView {
        inflight: if p.inflight == 0 {
            0
        } else {
            (p.inflight - 1) as nat
        },
        ..p
    }
}

/// Whether a pattern covers a host.
pub fn host_matches(pattern: &str, host: &str) -> (res: bool)
    ensures
        res == host_covered(pattern@, host@),
{
    if starts_with(pattern, "*.") {
        let v = chars_of(pattern);
        proof {
            reveal_strlit("*.");
        }
        let suffix = slice_text(&v, 2, v.len());
        assert(suffix@ =~= pattern@.skip(2));
        let mut dotted = ".".to_owned();
        dotted.push_str(&suffix);
        return same_text(host, &suffix) || ends_with(host, &dotted);
    }
    if contains(pattern, "/") {
        return match parse_ip(host) {
            Some(ip) => match cidr_match(pattern, ip) {
                Some(matched) => matched,
                None => false,
            },
            None => false,
        };
    }
    same_text(host, pattern)
}

/// The first of `patterns` that covers the host.
fn first_match(patterns: &Vec<String>, host: &str) -> (res: Option<usize>)
    ensures
        match res {
            Some(i) => i < patterns@.len() && first_cover(texts(patterns@), host@, 0) == Some(
                i as int,
            ),
            None => first_cover(texts(patterns@), host@, 0) is None,
        },
{
    let mut i: usize = 0;
    while i < patterns.len()
        invariant
            i <= patterns@.len(),
            first_cover(texts(patterns@), host@, 0) == first_cover(
                texts(patterns@),
                host@,
                i as int,
            ),
        decreases patterns@.len() - i,
    {
        assert(texts(patterns@)[i as int] == patterns@[i as int]@);
        if host_matches(&patterns[i], host) {
            return Some(i);
        }
        i = i + 1;
    }
    None
}

fn capped(name: &str, cap: usize) -> (res: Decision)
    ensures
        res@ == Verdict::Deny(cap_reason(name@, cap as nat)),
{
    let mut reason = name.to_owned();
    reason.push_str(&decimal_text(cap as u64));
    Decision::Deny(reason)
}

impl Policy {
    /// The rules with no call in flight.
    pub fn new(families: Families, limits: Limits, domains: Domains) -> (res: Self)
        ensures
            res@.families == families,
            res@.limits == limits,
            res@.allowlist == texts(domains.allowlist@),
            res@.denylist == texts(domains.denylist@),
            res@.inflight == 0,
    {
        Policy { families, limits, domains, inflight: 0 }
    }

    /// The caps.
    pub fn limits(&self) -> (res: &Limits)
        ensures
            *res == self@.limits,
    {
        &self.limits
    }

    /// What the policy says of a family.
    pub fn check_family(&self, fam: Family) -> (res: Decision)
        ensures
            res@ == family_verdict(self@, fam),
    {
        match fam {
            Family::Search => if self.families.search {
                Decision::Allow
            } else {
                Decision::Deny("family_disabled:search".to_owned())
            },
            Family::Extract => if self.families.extract {
                Decision::Allow
            } else {
                Decision::Deny("family_disabled:extract".to_owned())
            },
            Family::Crawl => if self.families.crawl {
                Decision::Allow
            } else {
                Decision::Deny("family_disabled:crawl".to_owned())
            },
            Family::Browser => if self.families.browser {
                Decision::Allow
            } else {
                Decision::Deny("family_disabled:browser".to_owned())
            },
        }
    }

    /// What the policy says of a URL.
    pub fn check_domain(&self, url_str: &str) -> (res: Decision)
        ensures
            res@ == url_verdict(self@, url_str@),
    {
        match parse_url(url_str) {
            Some(parts) => self.check_parts(&parts),
            None => Decision::Deny("bad_url".to_owned()),
        }
    }

    /// What the policy says of a parsed URL.
    pub fn check_parts(&self, url: &UrlParts) -> (res: Decision)
        ensures
            res@ == parts_verdict(self@, url@),
    {
        if !same_text(&url.scheme, "http") && !same_text(&url.scheme, "https") {
            return Decision::Deny("unsupported_scheme".to_owned());
        }
        if !url.username.as_str().is_empty() || url.password.is_some() {
            return Decision::Deny("url_credentials".to_owned());
        }
        let host = match &url.host {
            Some(host) => host,
            None => {
                return Decision::Deny("no_host".to_owned());
            },
        };
        if let Some(ip) = url.address {
            if !is_public_ip(ip) {
                return Decision::Deny("non_public_ip".to_owned());
            }
        }
        match first_match(&self.domains.denylist, host) {
            Some(i) => {
                let mut reason = "denylist:".to_owned();
                reason.push_str(&self.domains.denylist[i]);
                assert(texts(self.domains.denylist@)[i as int] == self.domains.denylist@[i as int]@);
                return Decision::Deny(reason);
            },
            None => {},
        }
        if self.domains.allowlist.len() == 0 {
            return Decision::Allow;
        }
        match first_match(&self.domains.allowlist, host) {
            Some(_) => Decision::Allow,
            None => Decision::Deny("not_on_allowlist".to_owned()),
        }
    }

    /// What the policy says of a number of results.
    pub fn check_caps_search(&self, max_results: usize) -> (res: Decision)
        ensures
            res@ == search_caps_verdict(self@, max_results as nat),
    {
        if max_results == 0 || max_results > self.limits.search_max_results {
            capped("search_max_results:", self.limits.search_max_results)
        } else {
            Decision::Allow
        }
    }

    /// What the policy says of the depth and the number of pages of a crawl.
    pub fn check_caps_crawl(&self, max_depth: usize, max_pages: usize) -> (res: Decision)
        ensures
            res@ == crawl_caps_verdict(self@, max_depth as nat, max_pages as nat),
    {
        if max_depth == 0 || max_depth > self.limits.crawl_max_depth {
            return capped("crawl_max_depth:", self.limits.crawl_max_depth);
        }
        if max_pages == 0 || max_pages > self.limits.crawl_max_pages {
            return capped("crawl_max_pages:", self.limits.crawl_max_pages);
        }
        Decision::Allow
    }

    /// Takes a place among the calls in flight; none where all are taken.
    pub fn try_acquire_inflight(&mut self) -> (res: Option<InflightGuard>)
        ensures
            match res {
                Some(_) => acquired(old(self)@) == Some(final(self)@),
                None => acquired(old(self)@) is None && final(self)@ == old(self)@,
            },
    {
        if self.inflight >= self.limits.inflight_max {
            return None;
        }
        self.inflight = self.inflight + 1;
        Some(InflightGuard { held: () })
    }

    /// Gives a place among the calls in flight back.
    pub fn release_inflight(&mut self, guard: InflightGuard)
        ensures
            final(self)@ == released(old(self)@),
    {
        let InflightGuard { held: _ } = guard;
        if self.inflight > 0 {
            self.inflight = self.inflight - 1;
        }
    }
}

// ---------------------------------------------------------------------------
// Laws
// ---------------------------------------------------------------------------
/// What `first_cover` finds.
pub proof fn lemma_first_cover(patterns: Seq<Seq<char>>, host: Seq<char>, from: int)
    requires
        0 <= from,
    ensures
        match first_cover(patterns, host, from) {
            Some(i) => from <= i < patterns.len() && host_covered(patterns[i], host),
            None => forall|i: int|
                from <= i < patterns.len() ==> !host_covered(#[trigger] patterns[i], host),
        },
    decreases patterns.len() - from,
{
    if from < patterns.len() && !host_covered(patterns[from], host) {
        lemma_first_cover(patterns, host, from + 1);
    }
}

/// A host that the denylist covers is refused, whatever the allowlist says.
pub proof fn law_deny_wins(p: PolicyView, raw: Seq<char>, i: int)
    requires
        url_parse(raw) is Some,
        url_parse(raw)->0.host is Some,
        0 <= i < p.denylist.len(),
        host_covered(p.denylist[i], url_parse(raw)->0.host->0),
    ensures
        url_verdict(p, raw) is Deny,
{
    lemma_first_cover(p.denylist, url_parse(raw)->0.host->0, 0);
}

/// Only web URLs without credentials, at a public address where it is one, on a host that
/// no deny pattern covers and that some allow pattern covers where there is any, are
/// admitted; and all of those are.
pub proof fn law_admitted_urls(p: PolicyView, raw: Seq<char>)
    ensures
        url_verdict(p, raw) is Allow <==> {
            &&& url_parse(raw) is Some
            &&& web_scheme(url_parse(raw)->0.scheme)
            &&& url_parse(raw)->0.username.len() == 0
            &&& url_parse(raw)->0.password is None
            &&& url_parse(raw)->0.host is Some
            &&& url_parse(raw)->0.address is Some ==> is_public(url_parse(raw)->0.address->0)
            &&& forall|i: int|
                0 <= i < p.denylist.len() ==> !host_covered(
                    #[trigger] p.denylist[i],
                    url_parse(raw)->0.host->0,
                )
            &&& p.allowlist.len() > 0 ==> exists|i: int|
                0 <= i < p.allowlist.len() && host_covered(
                    #[trigger] p.allowlist[i],
                    url_parse(raw)->0.host->0,
                )
        },
{
    if url_parse(raw) is Some && url_parse(raw)->0.host is Some {
        lemma_first_cover(p.denylist, url_parse(raw)->0.host->0, 0);
        lemma_first_cover(p.allowlist, url_parse(raw)->0.host->0, 0);
    }
}

/// The calls in flight never exceed the cap, and giving a place back undoes taking it.
pub proof fn law_inflight_stays_capped(p: PolicyView)
    requires
        p.inflight <= p.limits.inflight_max,
    ensures
        released(p).inflight <= p.limits.inflight_max,
        acquired(p) is None <==> p.inflight == p.limits.inflight_max,
        acquired(p) matches Some(q) ==> q.inflight <= q.limits.inflight_max && released(q) == p,
        p.inflight > 0 ==> acquired(released(p)) == Some(p),
{
}

/// A wildcard pattern covers the domain itself and every host below it.
pub proof fn law_wildcard_covers_the_domain_and_below(domain: Seq<char>, label: Seq<char>)
    ensures
        host_covered("*."@ + domain, domain),
        host_covered("*."@ + domain, label + "."@ + domain),
{
    reveal_strlit("*.");
    reveal_strlit(".");
    let pattern = "*."@ + domain;
    let dotted = "."@ + domain;
    let host = label + "."@ + domain;
    assert(pattern.subrange(0, 2) =~= "*."@);
    assert(pattern.skip(2) =~= domain);
    assert(host.subrange(host.len() - dotted.len(), host.len() as int) =~= dotted);
}

/// A family is allowed where its own switch is on, and no other switch counts; where it is off,
/// the reason names the family.
pub proof fn law_families_have_their_own_switch(p: PolicyView)
    ensures
        family_verdict(p, Family::Search) is Allow <==> p.families.search,
        family_verdict(p, Family::Extract) is Allow <==> p.families.extract,
        family_verdict(p, Family::Crawl) is Allow <==> p.families.crawl,
        family_verdict(p, Family::Browser) is Allow <==> p.families.browser,
        !p.families.search ==> family_verdict(p, Family::Search) == Verdict::Deny(
            "family_disabled:search"@,
        ),
        !p.families.extract ==> family_verdict(p, Family::Extract) == Verdict::Deny(
            "family_disabled:extract"@,
        ),
        !p.families.crawl ==> family_verdict(p, Family::Crawl) == Verdict::Deny(
            "family_disabled:crawl"@,
        ),
        !p.families.browser ==> family_verdict(p, Family::Browser) == Verdict::Deny(
            "family_disabled:browser"@,
        ),
{
}

proof fn lemma_cover_is_first(patterns: Seq<Seq<char>>, host: Seq<char>, from: int)
    requires
        0 <= from <= patterns.len(),
    ensures
        match first_cover(patterns, host, from) {
            Some(i) => from <= i < patterns.len() && host_covered(patterns[i], host) && forall|j: int|
                from <= j < i ==> !host_covered(#[trigger] patterns[j], host),
            None => forall|j: int|
                from <= j < patterns.len() ==> !host_covered(#[trigger] patterns[j], host),
        },
    decreases patterns.len() - from,
{
    if from < patterns.len() && !host_covered(patterns[from], host) {
        lemma_cover_is_first(patterns, host, from + 1);
    }
}

/// A host is allowed if and only if no pattern of the deny list covers it, and some pattern of
/// the allow list does unless that list is empty. A denial by the deny list names the first
/// pattern that covers the host.
pub proof fn law_lists_decide_on_hosts(
    allowlist: Seq<Seq<char>>,
    denylist: Seq<Seq<char>>,
    host: Seq<char>,
)
    ensures
        ({
            let v = host_verdict(allowlist, denylist, host);
            let denied = exists|i: int|
                0 <= i < denylist.len() && host_covered(#[trigger] denylist[i], host);
            let listed = exists|i: int|
                0 <= i < allowlist.len() && host_covered(#[trigger] allowlist[i], host);
            &&& v is Allow <==> !denied && (allowlist.len() == 0 || listed)
            &&& !denied && !(allowlist.len() == 0 || listed) ==> v == Verdict::Deny(
                "not_on_allowlist"@,
            )
            &&& forall|i: int|
                0 <= i < denylist.len() && host_covered(#[trigger] denylist[i], host) && (forall|
                    j: int,
                |
                    0 <= j < i ==> !host_covered(#[trigger] denylist[j], host)) ==> v
                    == Verdict::Deny("denylist:"@ + denylist[i])
        }),
{
    lemma_cover_is_first(allowlist, host, 0);
    lemma_cover_is_first(denylist, host, 0);
}

/// A pattern without a star in front and without a slash covers the host of its own name and no
/// other. One that starts with `*.` covers the domain behind it, the hosts that end in a dot and
/// that domain, and no others. One with a slash covers the addresses of its block and no names.
pub proof fn law_patterns_cover_hosts(pattern: Seq<char>, host: Seq<char>)
    ensures
        (pattern.len() < 2 || pattern[0] != '*' || pattern[1] != '.') && !pattern.contains('/')
            ==> (host_covered(pattern, host) <==> host == pattern),
        host_covered("*."@ + pattern, host) <==> host == pattern || host.len() > pattern.len()
            && host[host.len() - pattern.len() - 1] == '.' && host.skip(
            host.len() - pattern.len(),
        ) == pattern,
        (pattern.len() < 2 || pattern[0] != '*' || pattern[1] != '.') && pattern.contains('/')
            ==> (host_covered(pattern, host) <==> ip_value(host) is Some && block_match(
            pattern,
            ip_value(host)->0,
        ) == Some(true)),
{
    lemma_starts_with_star(pattern);
    lemma_has_slash(pattern);
    lemma_wildcard(pattern, host);
}

proof fn lemma_starts_with_star(pattern: Seq<char>)
    ensures
        has_at(pattern, "*."@, 0) <==> pattern.len() >= 2 && pattern[0] == '*' && pattern[1]
            == '.',
{
    reveal_strlit("*.");
    if pattern.len() >= 2 {
        let head = pattern.subrange(0, 2);
        assert(head[0] == pattern[0] && head[1] == pattern[1]);
        if pattern[0] == '*' && pattern[1] == '.' {
            assert(head =~= "*."@);
        }
    }
}

proof fn lemma_has_slash(pattern: Seq<char>)
    ensures
        occurs(pattern, "/"@) <==> pattern.contains('/'),
{
    reveal_strlit("/");
    if occurs(pattern, "/"@) {
        let i = choose|i: int| has_at(pattern, "/"@, i);
        assert(pattern.subrange(i, i + 1)[0] == pattern[i]);
    }
    if pattern.contains('/') {
        let i = choose|i: int| 0 <= i < pattern.len() && pattern[i] == '/';
        assert(pattern.subrange(i, i + 1) =~= "/"@);
        assert(has_at(pattern, "/"@, i));
    }
}

proof fn lemma_wildcard(domain: Seq<char>, host: Seq<char>)
    ensures
        host_covered("*."@ + domain, host) <==> host == domain || host.len() > domain.len()
            && host[host.len() - domain.len() - 1] == '.' && host.skip(
            host.len() - domain.len(),
        ) == domain,
{
    reveal_strlit("*.");
    reveal_strlit(".");
    let wild = "*."@ + domain;
    assert(wild.subrange(0, 2) =~= "*."@);
    assert(has_at(wild, "*."@, 0));
    assert(wild.skip(2) =~= domain);
    let dotted = "."@ + domain;
    let at = host.len() - dotted.len();
    if at >= 0 {
        let tail = host.subrange(at, at + dotted.len());
        if has_at(host, dotted, at) {
            assert(tail[0] == host[at]);
            assert(host.skip(at + 1) =~= tail.skip(1));
            assert(dotted.skip(1) =~= domain);
        }
        if host[at] == '.' && host.skip(at + 1) == domain {
            assert forall|k: int| 0 <= k < tail.len() implies tail[k] == dotted[k] by {
                if k > 0 {
                    assert(tail[k] == host.skip(at + 1)[k - 1]);
                }
            }
            assert(tail =~= dotted);
            assert(has_at(host, dotted, at));
        }
    }
}

/// A URL is denied for the first of these that holds: it does not parse, it is not of the web,
/// it carries credentials, it has no host, its host is an address that is not public, the lists
/// deny its host. Otherwise it is allowed.
pub proof fn law_urls_are_denied_for_a_reason(p: PolicyView, raw: Seq<char>)
    ensures
        ({
            let v = url_verdict(p, raw);
            let parsed = url_parse(raw);
            let u = parsed->0;
            let web = u.scheme == "http"@ || u.scheme == "https"@;
            let bare = u.username.len() == 0 && u.password is None;
            let public = u.address is None || is_public(u.address->0);
            &&& parsed is None ==> v == Verdict::Deny("bad_url"@)
            &&& parsed is Some && !web ==> v == Verdict::Deny("unsupported_scheme"@)
            &&& parsed is Some && web && !bare ==> v == Verdict::Deny("url_credentials"@)
            &&& parsed is Some && web && bare && u.host is None ==> v == Verdict::Deny("no_host"@)
            &&& parsed is Some && web && bare && u.host is Some && !public ==> v == Verdict::Deny(
                "non_public_ip"@,
            )
            &&& parsed is Some && web && bare && u.host is Some && public ==> v == host_verdict(
                p.allowlist,
                p.denylist,
                u.host->0,
            )
        }),
{
}

/// As many results are allowed as lie between one and the cap, and so are the depth and the
/// pages of a crawl; a denial names the cap that is broken, the depth before the pages.
pub proof fn law_caps_bound_what_is_asked_for(
    p: PolicyView,
    results: nat,
    depth: nat,
    pages: nat,
)
    ensures
        search_caps_verdict(p, results) is Allow <==> 1 <= results <= p.limits.search_max_results,
        !(1 <= results <= p.limits.search_max_results) ==> search_caps_verdict(p, results)
            == Verdict::Deny(
            "search_max_results:"@ + decimal(p.limits.search_max_results as nat),
        ),
        crawl_caps_verdict(p, depth, pages) is Allow <==> 1 <= depth <= p.limits.crawl_max_depth
            && 1 <= pages <= p.limits.crawl_max_pages,
        !(1 <= depth <= p.limits.crawl_max_depth) ==> crawl_caps_verdict(p, depth, pages)
            == Verdict::Deny("crawl_max_depth:"@ + decimal(p.limits.crawl_max_depth as nat)),
        1 <= depth <= p.limits.crawl_max_depth && !(1 <= pages <= p.limits.crawl_max_pages)
            ==> crawl_caps_verdict(p, depth, pages) == Verdict::Deny(
            "crawl_max_pages:"@ + decimal(p.limits.crawl_max_pages as nat),
        ),
{
}

/// A place is given if and only if one is free. Giving one takes one place and changes no rule,
/// and giving it back restores what was before.
pub proof fn law_places_are_given_and_given_back(p: PolicyView)
    ensures
        acquired(p) is Some <==> p.inflight < p.limits.inflight_max,
        acquired(p) matches Some(q) ==> q.inflight == p.inflight + 1 && released(q) == p,
        p.inflight == 0 ==> released(p) == p,
        released(p).inflight <= p.inflight && p.inflight <= released(p).inflight + 1,
        released(p).limits == p.limits && released(p).families == p.families,
{
}

} // verus!
