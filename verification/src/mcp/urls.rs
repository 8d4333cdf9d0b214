//! What a search result's URL says about it.
use vstd::prelude::*;

use crate::order::{in_rank_order, item_views, ordered, pair_less, rank_order};
use crate::policy::web_scheme;
use crate::text::{
    ascii_lower, byte_len, chars_of, decimal, decimal_text, drop_trailing, has_at, just,
    law_texts_are_split_at_separators, lemma_drop_trailing, lemma_drop_trailing_take, opt_text,
    pieces, same_text, slice_text, split_char, starts_with, texts, to_ascii_lower, trim_end_char,
};
use crate::weburl::{
    decode_form, encode_form, form_pairs, form_text, opt_bytes, pair_views, parse_url,
    path_after_set, path_end_bound, same_but_fragment, url_parse, UrlParts, UrlView,
};

verus! {

/// The last byte at which the path of a URL may end: the URL parser's offsets have 32 bits.
pub const MAX_PATH_END: u64 = 0xffff_ffff;

// ---------------------------------------------------------------------------
// Models
// ---------------------------------------------------------------------------
/// Query parameters that only track where a reader came from.
pub open spec fn is_tracking(key: Seq<char>) -> bool {
    let k = ascii_lower(key);
    ||| has_at(k, "utm_"@, 0)
    ||| k == "fbclid"@
    ||| k == "gclid"@
    ||| k == "dclid"@
    ||| k == "msclkid"@
    ||| k == "mc_cid"@
    ||| k == "mc_eid"@
    ||| k == "ref_src"@
}

/// The pairs whose name is no tracking parameter, in their order.
pub open spec fn untracked(pairs: Seq<(Seq<char>, Seq<char>)>) -> Seq<(Seq<char>, Seq<char>)> {
    pairs.filter(|p: (Seq<char>, Seq<char>)| !is_tracking(p.0))
}

/// The order of pairs.
pub open spec fn pair_order() -> spec_fn((Seq<char>, Seq<char>), (Seq<char>, Seq<char>)) -> bool {
    |a: (Seq<char>, Seq<char>), b: (Seq<char>, Seq<char>)| pair_less(a, b)
}

/// The pairs that stay in a canonical URL, in order.
pub open spec fn canonical_pairs(pairs: Seq<(Seq<char>, Seq<char>)>) -> Seq<
    (Seq<char>, Seq<char>),
> {
    ordered(untracked(pairs), pair_order())
}

/// A host without the first of the labels for ordinary, mobile and light pages that it has.
pub open spec fn plain_host(host: Seq<char>) -> Seq<char> {
    if has_at(host, "www."@, 0) {
        host.skip(4)
    } else if has_at(host, "m."@, 0) {
        host.skip(2)
    } else if has_at(host, "amp."@, 0) {
        host.skip(4)
    } else {
        host
    }
}

/// The text of a port in a URL.
pub open spec fn port_text(port: Option<u16>) -> Seq<char> {
    match port {
        Some(p) => ":"@ + decimal(p as nat),
        None => ""@,
    }
}

/// The text of a query in a URL.
pub open spec fn query_text(query: Option<Seq<char>>) -> Seq<char> {
    match query {
        Some(q) => "?"@ + q,
        None => ""@,
    }
}

/// The canonical form of a URL with some parts, given the path and the query that it is to
/// have, and the domain that it counts for; or why it has none.
pub open spec fn canonical(
    parts: Option<UrlView>,
    path: Seq<char>,
    query: Option<Seq<char>>,
) -> Result<(Seq<char>, Seq<char>), Seq<char>> {
    match parts {
        None => Err("invalid_url"@),
        Some(p) => if !web_scheme(p.scheme) {
            Err("unsupported_url_scheme"@)
        } else {
            match p.host {
                None => Err("missing_url_host"@),
                Some(host) => if path_end_bound(p) > MAX_PATH_END {
                    Err("invalid_url"@)
                } else {
                    let domain = plain_host(ascii_lower(host));
                    Ok(
                        (
                            p.scheme + "://"@ + domain + port_text(p.port) + path + query_text(
                                query,
                            ),
                            domain,
                        ),
                    )
                },
            }
        },
    }
}

/// The path of a canonical URL: without slashes at its end, unless it is the root.
pub open spec fn canonical_path(p: UrlView) -> Seq<char> {
    let short = drop_trailing(p.path, just('/'));
    if short.len() == 0 {
        "/"@
    } else {
        short
    }
}

/// The name and value pairs of a URL's query.
pub open spec fn query_pairs(p: UrlView) -> Seq<(Seq<char>, Seq<char>)> {
    form_pairs(
        match p.query {
            Some(q) => q,
            None => ""@,
        },
    )
}

/// The query of a canonical URL.
pub open spec fn canonical_query(p: UrlView) -> Option<Seq<char>> {
    let pairs = canonical_pairs(query_pairs(p));
    if pairs.len() == 0 {
        None
    } else {
        Some(form_text(pairs))
    }
}

/// The canonical form of a URL and the domain that it counts for, or why it has none.
pub open spec fn normalized(raw: Seq<char>) -> Result<(Seq<char>, Seq<char>), Seq<char>> {
    match url_parse(raw) {
        None => canonical(None, ""@, None),
        Some(p) => canonical(Some(p), canonical_path(p), canonical_query(p)),
    }
}

/// Path segments of pages that ask who the reader is.
pub open spec fn is_auth_segment(s: Seq<char>) -> bool {
    ||| s == "auth"@
    ||| s == "authorize"@
    ||| s == "login"@
    ||| s == "oauth"@
    ||| s == "signin"@
    ||| s == "sign-in"@
    ||| s == "signup"@
    ||| s == "sign-up"@
}

/// Query parameters of pages that lead elsewhere.
pub open spec fn is_redirect_key(k: Seq<char>) -> bool {
    k == "redirect_uri"@ || k == "return_to"@ || k == "continue"@
}

/// Why a page with some path and query pairs is no evidence, if so.
pub open spec fn unsafe_reason(path: Seq<char>, pairs: Seq<(Seq<char>, Seq<char>)>) -> Option<
    Seq<char>,
> {
    let segments = pieces(ascii_lower(path), just('/'));
    if exists|i: int| 0 <= i < segments.len() && is_auth_segment(#[trigger] segments[i]) {
        Some("authentication_url"@)
    } else if exists|i: int| 0 <= i < pairs.len() && is_redirect_key((#[trigger] pairs[i]).0) {
        Some("redirect_url"@)
    } else {
        None
    }
}

/// Why a URL is no evidence, if so; a text that does not parse has no reason.
pub open spec fn unsafe_url_reason(raw: Seq<char>) -> Option<Seq<char>> {
    match url_parse(raw) {
        None => None,
        Some(p) => unsafe_reason(p.path, query_pairs(p)),
    }
}

/// The first page of a site: a path of slashes alone, and no query.
pub open spec fn homepage(parts: Option<UrlView>) -> bool {
    match parts {
        None => false,
        Some(p) => p.query is None && forall|i: int| 0 <= i < p.path.len() ==> p.path[i] == '/',
    }
}

/// Domains whose pages say little.
pub open spec fn low_signal_domains() -> Seq<Seq<char>> {
    seq![
        "coinmarketcap.com"@,
        "facebook.com"@,
        "instagram.com"@,
        "pinterest.com"@,
        "tiktok.com"@,
        "youtube.com"@,
    ]
}

/// A domain is another, or lies below it.
pub open spec fn is_or_below(domain: Seq<char>, other: Seq<char>) -> bool {
    domain == other || has_at(domain, "."@ + other, domain.len() - other.len() - 1)
}

/// A domain whose pages say little.
pub open spec fn low_signal(domain: Seq<char>) -> bool {
    exists|i: int|
        0 <= i < low_signal_domains().len() && is_or_below(
            domain,
            #[trigger] low_signal_domains()[i],
        )
}

// ---------------------------------------------------------------------------
// Code
// ---------------------------------------------------------------------------
/// Whether a query parameter only tracks where a reader came from.
pub fn is_tracking_parameter(key: &str) -> (res: bool)
    ensures
        res == is_tracking(key@),
{
    let k = to_ascii_lower(key);
    starts_with(&k, "utm_") || same_text(&k, "fbclid") || same_text(&k, "gclid") || same_text(
        &k,
        "dclid",
    ) || same_text(&k, "msclkid") || same_text(&k, "mc_cid") || same_text(&k, "mc_eid")
        || same_text(&k, "ref_src")
}

/// The query pairs that stay in a canonical URL, in order.
pub fn kept_pairs(pairs: &Vec<(String, String)>) -> (res: Vec<(String, String)>)
    ensures
        pair_views(res@) == canonical_pairs(pair_views(pairs@)),
{
    let ghost all = pair_views(pairs@);
    let ghost keep = |p: (Seq<char>, Seq<char>)| !is_tracking(p.0);
    let mut kept: Vec<(String, String)> = Vec::new();
    let mut i: usize = 0;
    proof {
        reveal(Seq::filter);
        assert(pair_views(kept@) =~= all.take(0).filter(keep));
    }
    while i < pairs.len()
        invariant
            all == pair_views(pairs@),
            keep == (|p: (Seq<char>, Seq<char>)| !is_tracking(p.0)),
            i <= pairs@.len(),
            pair_views(kept@) == all.take(i as int).filter(keep),
        decreases pairs@.len() - i,
    {
        let ghost before = kept@;
        proof {
            reveal(Seq::filter);
            assert(all.take(i + 1).drop_last() =~= all.take(i as int));
            assert(all.take(i + 1).last() == (pairs@[i as int].0@, pairs@[i as int].1@));
        }
        if !is_tracking_parameter(&pairs[i].0) {
            kept.push((pairs[i].0.clone(), pairs[i].1.clone()));
            assert(pair_views(kept@) =~= pair_views(before).push(
                (pairs@[i as int].0@, pairs@[i as int].1@),
            ));
        }
        i = i + 1;
    }
    assert(all.take(all.len() as int) =~= all);
    let ghost unsorted = kept@;
    let res = in_rank_order(kept);
    proof {
        assert(item_views(unsorted) =~= pair_views(unsorted));
        assert(item_views(res@) =~= pair_views(res@));
        assert(rank_order::<(String, String)>() =~= pair_order());
    }
    res
}

fn without_prefix(host: &str, prefix: &str) -> (res: Option<String>)
    ensures
        match res {
            Some(rest) => has_at(host@, prefix@, 0) && rest@ == host@.skip(prefix@.len() as int),
            None => !has_at(host@, prefix@, 0),
        },
{
    if starts_with(host, prefix) {
        let v = chars_of(host);
        let p = chars_of(prefix);
        let rest = slice_text(&v, p.len(), v.len());
        assert(rest@ =~= host@.skip(prefix@.len() as int));
        Some(rest)
    } else {
        None
    }
}

/// A host without the first of the labels for ordinary, mobile and light pages that it has.
pub fn without_page_label(host: String) -> (res: String)
    ensures
        res@ == plain_host(host@),
{
    proof {
        reveal_strlit("www.");
        reveal_strlit("m.");
        reveal_strlit("amp.");
    }
    if let Some(rest) = without_prefix(&host, "www.") {
        return rest;
    }
    if let Some(rest) = without_prefix(&host, "m.") {
        return rest;
    }
    if let Some(rest) = without_prefix(&host, "amp.") {
        return rest;
    }
    host
}

fn opt_byte_len(s: &Option<String>) -> (res: usize)
    ensures
        res == opt_bytes(opt_text(*s)),
{
    match s {
        Some(s) => byte_len(s),
        None => 0,
    }
}

/// Whether the URL parser's offsets reach the end of a URL's path.
fn path_end_fits(p: &UrlParts) -> (res: bool)
    ensures
        res == (path_end_bound(p@) <= MAX_PATH_END),
{
    let login: u128 = byte_len(&p.username) as u128 + 1 + opt_byte_len(&p.password) as u128 + 1;
    let site: u128 = byte_len(&p.scheme) as u128 + 3 + login + opt_byte_len(&p.host) as u128 + 6;
    site + byte_len(&p.path) as u128 <= MAX_PATH_END as u128
}

/// The canonical form of a URL with some parts, given the path and the query that it is to
/// have, and the domain that it counts for; or why it has none.
pub fn canonical_form(parts: &Option<UrlParts>, path: &str, query: &Option<String>) -> (res: Result<
    (String, String),
    String,
>)
    ensures
        canonical(
            match *parts {
                Some(p) => Some(p@),
                None => None,
            },
            path@,
            opt_text(*query),
        ) == match res {
            Ok(u) => Ok::<(Seq<char>, Seq<char>), Seq<char>>((u.0@, u.1@)),
            Err(e) => Err::<(Seq<char>, Seq<char>), Seq<char>>(e@),
        },
{
    let p = match parts {
        Some(p) => p,
        None => {
            return Err("invalid_url".to_owned());
        },
    };
    if !same_text(&p.scheme, "http") && !same_text(&p.scheme, "https") {
        return Err("unsupported_url_scheme".to_owned());
    }
    let host = match &p.host {
        Some(h) => h,
        None => {
            return Err("missing_url_host".to_owned());
        },
    };
    if !path_end_fits(p) {
        return Err("invalid_url".to_owned());
    }
    let domain = without_page_label(to_ascii_lower(host));
    let mut out = p.scheme.clone();
    out.push_str("://");
    out.push_str(&domain);
    match p.port {
        Some(port) => {
            let ghost head = out@;
            out.push_str(":");
            out.push_str(&decimal_text(port as u64));
            assert(out@ =~= head + port_text(p.port));
        },
        None => {
            out.push_str("");
        },
    }
    out.push_str(path);
    let ghost head = out@;
    match query {
        Some(q) => {
            out.push_str("?");
            out.push_str(q);
            assert(out@ =~= head + query_text(opt_text(*query)));
        },
        None => {
            out.push_str("");
        },
    }
    Ok((out, domain))
}

fn or_empty(query: &Option<String>) -> (res: String)
    ensures
        res@ == match opt_text(*query) {
            Some(q) => q,
            None => ""@,
        },
{
    match query {
        Some(q) => q.clone(),
        None => "".to_owned(),
    }
}

/// The canonical form of a URL and the domain that it counts for, or why it has none. The
/// fragment is forgotten.
pub fn normalize_url(raw: &str) -> (res: Result<(String, String), String>)
    ensures
        normalized(raw@) == match res {
            Ok(u) => Ok::<(Seq<char>, Seq<char>), Seq<char>>((u.0@, u.1@)),
            Err(e) => Err::<(Seq<char>, Seq<char>), Seq<char>>(e@),
        },
        forall|other: Seq<char>|
            res is Ok && same_but_fragment(raw@, other) ==> #[trigger] normalized(other) == Ok::<
                (Seq<char>, Seq<char>),
                Seq<char>,
            >((res->Ok_0.0@, res->Ok_0.1@)),
{
    let parts = parse_url(raw);
    let mut path = String::new();
    let mut query: Option<String> = None;
    if let Some(p) = &parts {
        let pairs = kept_pairs(&decode_form(&or_empty(&p.query)));
        if pairs.len() > 0 {
            query = Some(encode_form(&pairs));
        }
        if (same_text(&p.scheme, "http") || same_text(&p.scheme, "https")) && path_end_fits(p) {
            let short = trim_end_char(&p.path, '/');
            path = path_after_set(raw, &short);
        }
    }
    canonical_form(&parts, &path, &query)
}

fn is_login_segment(s: &str) -> (res: bool)
    ensures
        res == is_auth_segment(s@),
{
    same_text(s, "auth") || same_text(s, "authorize") || same_text(s, "login") || same_text(
        s,
        "oauth",
    ) || same_text(s, "signin") || same_text(s, "sign-in") || same_text(s, "signup") || same_text(
        s,
        "sign-up",
    )
}

/// Why a page with some path and query pairs is no evidence, if so.
pub fn unsafe_page_reason(path: &str, pairs: &Vec<(String, String)>) -> (res: Option<&'static str>)
    ensures
        unsafe_reason(path@, pair_views(pairs@)) == match res {
            Some(r) => Some(r@),
            None => None,
        },
{
    let lower = to_ascii_lower(path);
    let segments = split_char(&lower, '/');
    let ghost all = pieces(ascii_lower(path@), just('/'));
    let mut i: usize = 0;
    while i < segments.len()
        invariant
            texts(segments@) == all,
            all == pieces(ascii_lower(path@), just('/')),
            i <= segments@.len(),
            forall|k: int| 0 <= k < i ==> !is_auth_segment(#[trigger] all[k]),
        decreases segments@.len() - i,
    {
        assert(all[i as int] == segments@[i as int]@);
        if is_login_segment(&segments[i]) {
            return Some("authentication_url");
        }
        i = i + 1;
    }
    assert(all.len() == segments@.len());
    let mut j: usize = 0;
    while j < pairs.len()
        invariant
            all == pieces(ascii_lower(path@), just('/')),
            forall|k: int| 0 <= k < all.len() ==> !is_auth_segment(#[trigger] all[k]),
            j <= pairs@.len(),
            forall|k: int| 0 <= k < j ==> !is_redirect_key((#[trigger] pair_views(pairs@)[k]).0),
        decreases pairs@.len() - j,
    {
        assert(pair_views(pairs@)[j as int].0 == pairs@[j as int].0@);
        let key = &pairs[j].0;
        if same_text(key, "redirect_uri") || same_text(key, "return_to") || same_text(
            key,
            "continue",
        ) {
            return Some("redirect_url");
        }
        j = j + 1;
    }
    assert(pair_views(pairs@).len() == pairs@.len());
    None
}

/// Why a URL is no evidence, if so.
pub fn unsafe_candidate_reason(raw: &str) -> (res: Option<&'static str>)
    ensures
        unsafe_url_reason(raw@) == match res {
            Some(r) => Some(r@),
            None => None,
        },
{
    match parse_url(raw) {
        Some(p) => {
            let pairs = decode_form(&or_empty(&p.query));
            unsafe_page_reason(&p.path, &pairs)
        },
        None => None,
    }
}

/// Whether a URL is the first page of a site.
pub fn is_homepage(raw: &str) -> (res: bool)
    ensures
        res == homepage(url_parse(raw@)),
{
    match parse_url(raw) {
        Some(p) => is_first_page(&p),
        None => false,
    }
}

/// Whether a URL with some parts is the first page of a site.
pub fn is_first_page(parts: &UrlParts) -> (res: bool)
    ensures
        res == homepage(Some(parts@)),
{
    let v = chars_of(&parts.path);
    let mut i: usize = 0;
    while i < v.len()
        invariant
            v@ == parts.path@,
            i <= v@.len(),
            forall|k: int| 0 <= k < i ==> v@[k] == '/',
        decreases v@.len() - i,
    {
        if v[i] != '/' {
            assert(parts@.path[i as int] != '/');
            return false;
        }
        i = i + 1;
    }
    parts.query.is_none()
}

fn covers(domain: &str, other: &str) -> (res: bool)
    ensures
        res == is_or_below(domain@, other@),
{
    if same_text(domain, other) {
        return true;
    }
    let mut tail = ".".to_owned();
    tail.push_str(other);
    proof {
        reveal_strlit(".");
    }
    crate::text::ends_with(domain, &tail)
}

/// Whether a domain's pages say little.
pub fn is_low_signal_domain(domain: &str) -> (res: bool)
    ensures
        res == low_signal(domain@),
{
    let known: Vec<&'static str> = vec![
        "coinmarketcap.com",
        "facebook.com",
        "instagram.com",
        "pinterest.com",
        "tiktok.com",
        "youtube.com",
    ];
    let mut i: usize = 0;
    while i < known.len()
        invariant
            known@.len() == low_signal_domains().len(),
            forall|k: int| 0 <= k < known@.len() ==> known@[k]@ == #[trigger] low_signal_domains()[k],
            i <= known@.len(),
            forall|k: int|
                0 <= k < i ==> !is_or_below(domain@, #[trigger] low_signal_domains()[k]),
        decreases known@.len() - i,
    {
        assert(known@[i as int]@ == low_signal_domains()[i as int]);
        if covers(domain, known[i]) {
            return true;
        }
        i = i + 1;
    }
    false
}

// ---------------------------------------------------------------------------
// Laws
// ---------------------------------------------------------------------------
/// URLs of one page: they differ in slashes at the end of the path, in the order of their query
/// parameters or in tracking parameters, if at all.
pub open spec fn one_page(a: UrlView, b: UrlView) -> bool {
    &&& a.scheme == b.scheme
    &&& a.host == b.host
    &&& a.port == b.port
    &&& drop_trailing(a.path, just('/')) == drop_trailing(b.path, just('/'))
    &&& untracked(query_pairs(a)).to_multiset() == untracked(query_pairs(b)).to_multiset()
}

/// URLs that differ only in slashes at the end of the path, in the order of their query
/// parameters or in tracking parameters have one canonical form, where the URL parser's offsets
/// reach the ends of their paths.
pub proof fn law_one_page_has_one_form(a: Seq<char>, b: Seq<char>)
    ensures
        url_parse(a) is Some && url_parse(b) is Some && one_page(url_parse(a)->0, url_parse(b)->0)
            && path_end_bound(url_parse(a)->0) <= MAX_PATH_END && path_end_bound(url_parse(b)->0)
            <= MAX_PATH_END ==> normalized(a) == normalized(b),
{
    if url_parse(a) is Some && url_parse(b) is Some && one_page(url_parse(a)->0, url_parse(b)->0) {
        law_parameter_order_is_forgotten(
            query_pairs(url_parse(a)->0),
            query_pairs(url_parse(b)->0),
        );
    }
}

/// Slashes at the end of a path are forgotten, however many there are.
pub proof fn law_trailing_slashes_are_forgotten(p: UrlView, more: nat)
    ensures
        ({
            let slashes = Seq::new(more, |i: int| '/');
            canonical_path(UrlView { path: p.path + slashes, ..p }) == canonical_path(p)
        }),
{
    let slashes = Seq::new(more, |i: int| '/');
    let long = p.path + slashes;
    lemma_drop_trailing_take(long, just('/'), p.path.len() as int);
    assert(long.take(p.path.len() as int) =~= p.path);
}

/// Taking tracking parameters out and putting what is left in order gives the same whatever
/// order the parameters stood in.
pub proof fn law_parameter_order_is_forgotten(
    a: Seq<(Seq<char>, Seq<char>)>,
    b: Seq<(Seq<char>, Seq<char>)>,
)
    requires
        untracked(a).to_multiset() == untracked(b).to_multiset(),
    ensures
        canonical_pairs(a) == canonical_pairs(b),
{
    crate::order::law_pair_order_is_total();
    assert(rank_order::<(String, String)>() =~= pair_order());
    crate::order::law_order_forgets_the_order_before(untracked(a), untracked(b), pair_order());
}

/// Tracking parameters are forgotten: a URL with one more of them has the canonical pairs of
/// the URL without it.
pub proof fn law_tracking_is_forgotten(
    a: Seq<(Seq<char>, Seq<char>)>,
    b: Seq<(Seq<char>, Seq<char>)>,
    tracking: (Seq<char>, Seq<char>),
)
    requires
        is_tracking(tracking.0),
    ensures
        canonical_pairs(a + seq![tracking] + b) == canonical_pairs(a + b),
    decreases b.len(),
{
    let keep = |p: (Seq<char>, Seq<char>)| !is_tracking(p.0);
    lemma_filter_skips(a, b, tracking, keep);
}

proof fn lemma_filter_skips(
    a: Seq<(Seq<char>, Seq<char>)>,
    b: Seq<(Seq<char>, Seq<char>)>,
    x: (Seq<char>, Seq<char>),
    keep: spec_fn((Seq<char>, Seq<char>)) -> bool,
)
    requires
        !keep(x),
    ensures
        (a + seq![x] + b).filter(keep) == (a + b).filter(keep),
    decreases b.len(),
{
    reveal(Seq::filter);
    let s = a + seq![x] + b;
    let t = a + b;
    if b.len() == 0 {
        assert(s.drop_last() =~= a);
        assert(s.last() == x);
        assert(t =~= a);
    } else {
        lemma_filter_skips(a, b.drop_last(), x, keep);
        assert(s.drop_last() =~= a + seq![x] + b.drop_last());
        assert(t.drop_last() =~= a + b.drop_last());
        assert(s.last() == b.last() && t.last() == b.last());
    }
}

/// Every canonical pair stood in the query and is no tracking parameter.
pub proof fn law_canonical_pairs_are_untracked(pairs: Seq<(Seq<char>, Seq<char>)>, i: int)
    requires
        0 <= i < canonical_pairs(pairs).len(),
    ensures
        !is_tracking(canonical_pairs(pairs)[i].0),
        pairs.contains(canonical_pairs(pairs)[i]),
{
    broadcast use vstd::seq_lib::group_to_multiset_ensures;

    let keep = |p: (Seq<char>, Seq<char>)| !is_tracking(p.0);
    let out = canonical_pairs(pairs);
    crate::order::law_ordered(untracked(pairs), pair_order());
    assert(out.contains(out[i]));
    assert(out.to_multiset().count(out[i]) > 0);
    assert(untracked(pairs).contains(out[i]));
    let k = choose|k: int| 0 <= k < untracked(pairs).len() && untracked(pairs)[k] == out[i];
    pairs.lemma_filter_pred(keep, k);
    pairs.lemma_filter_contains_rev(keep, out[i]);
}

/// A parameter is one that tracks where its name, in any case, starts with `utm_` or is one of
/// seven names.
pub proof fn law_parameters_that_track(key: Seq<char>)
    ensures
        is_tracking(key) <==> {
            let k = ascii_lower(key);
            ||| k.len() >= 4 && k[0] == 'u' && k[1] == 't' && k[2] == 'm' && k[3] == '_'
            ||| seq!["fbclid"@, "gclid"@, "dclid"@, "msclkid"@, "mc_cid"@, "mc_eid"@, "ref_src"@].contains(k)
        },
{
    let k = ascii_lower(key);
    reveal_strlit("utm_");
    if k.len() >= 4 {
        let head = k.subrange(0, 4);
        assert(head[0] == k[0] && head[1] == k[1] && head[2] == k[2] && head[3] == k[3]);
        if k[0] == 'u' && k[1] == 't' && k[2] == 'm' && k[3] == '_' {
            assert(head =~= "utm_"@);
        }
    }
    let names = seq!["fbclid"@, "gclid"@, "dclid"@, "msclkid"@, "mc_cid"@, "mc_eid"@, "ref_src"@];
    assert(names[0] == "fbclid"@);
    assert(names[1] == "gclid"@);
    assert(names[2] == "dclid"@);
    assert(names[3] == "msclkid"@);
    assert(names[4] == "mc_cid"@);
    assert(names[5] == "mc_eid"@);
    assert(names[6] == "ref_src"@);
}

/// The labels for ordinary, mobile and light pages are taken off a host, one of them; a host
/// without such a label stays as it is.
pub proof fn law_page_labels_are_taken_off(host: Seq<char>)
    ensures
        plain_host("www."@ + host) == host,
        plain_host("m."@ + host) == host,
        plain_host("amp."@ + host) == host,
        !(host.len() >= 4 && host.take(4) == "www."@) && !(host.len() >= 2 && host.take(2)
            == "m."@) && !(host.len() >= 4 && host.take(4) == "amp."@) ==> plain_host(host)
            == host,
{
    reveal_strlit("www.");
    reveal_strlit("m.");
    reveal_strlit("amp.");
    let w = "www."@ + host;
    assert(w.subrange(0, 4) =~= "www."@);
    assert(w.skip(4) =~= host);
    let m = "m."@ + host;
    assert(m.subrange(0, 2) =~= "m."@);
    assert(m.skip(2) =~= host);
    if m.len() >= 4 {
        assert(m.subrange(0, 4)[0] == 'm');
    }
    let a = "amp."@ + host;
    assert(a.subrange(0, 4) =~= "amp."@);
    assert(a.subrange(0, 4)[0] == 'a');
    assert(a.subrange(0, 2)[0] == 'a');
    assert(a.skip(4) =~= host);
    if host.len() >= 4 {
        assert(host.take(4) =~= host.subrange(0, 4));
    }
    if host.len() >= 2 {
        assert(host.take(2) =~= host.subrange(0, 2));
    }
}

/// A canonical URL has the scheme of the URL, its host in small letters without a page label,
/// its port, and the path and the query that it is to have; it counts for that host. There is
/// one if and only if the URL parses, is of the web and has a host, and its path ends within
/// reach.
pub proof fn law_canonical_urls_are_made_of_parts(
    p: UrlView,
    path: Seq<char>,
    query: Option<Seq<char>>,
)
    ensures
        canonical(None, path, query) == Err::<(Seq<char>, Seq<char>), Seq<char>>("invalid_url"@),
        ({
            let c = canonical(Some(p), path, query);
            let web = p.scheme == "http"@ || p.scheme == "https"@;
            &&& c is Ok <==> web && p.host is Some && path_end_bound(p) <= MAX_PATH_END
            &&& !web ==> c == Err::<(Seq<char>, Seq<char>), Seq<char>>("unsupported_url_scheme"@)
            &&& web && p.host is None ==> c == Err::<(Seq<char>, Seq<char>), Seq<char>>(
                "missing_url_host"@,
            )
            &&& web && p.host is Some && path_end_bound(p) > MAX_PATH_END ==> c == Err::<
                (Seq<char>, Seq<char>),
                Seq<char>,
            >("invalid_url"@)
            &&& c is Ok ==> c->Ok_0.1 == plain_host(ascii_lower(p.host->0))
            &&& c is Ok && p.port is None && query is None ==> c->Ok_0.0 == p.scheme + "://"@
                + c->Ok_0.1 + path
            &&& c is Ok && p.port is None && query is Some ==> c->Ok_0.0 == p.scheme + "://"@
                + c->Ok_0.1 + path + "?"@ + query->0
            &&& c is Ok && p.port is Some && query is None ==> c->Ok_0.0 == p.scheme + "://"@
                + c->Ok_0.1 + ":"@ + decimal(p.port->0 as nat) + path
            &&& c is Ok && p.port is Some && query is Some ==> c->Ok_0.0 == p.scheme + "://"@
                + c->Ok_0.1 + ":"@ + decimal(p.port->0 as nat) + path + "?"@ + query->0
        }),
{
    reveal_strlit("");
    let c = canonical(Some(p), path, query);
    if c is Ok {
        let front = p.scheme + "://"@ + c->Ok_0.1;
        assert(p.port is None ==> front + port_text(p.port) =~= front);
        assert(p.port is Some ==> front + port_text(p.port) =~= front + ":"@ + decimal(
            p.port->0 as nat,
        ));
        let whole = front + port_text(p.port) + path;
        assert(query is None ==> whole + query_text(query) =~= whole);
        assert(query is Some ==> whole + query_text(query) =~= whole + "?"@ + query->0);
    }
}

/// A canonical path is the path without slashes at its end; of a path of slashes alone, one
/// slash is left.
pub proof fn law_canonical_paths_end_in_no_slash(p: UrlView)
    ensures
        p.path.len() > 0 && p.path.last() != '/' ==> canonical_path(p) == p.path,
        canonical_path(p).last() == '/' ==> canonical_path(p) == "/"@,
        canonical_path(p) == "/"@ || canonical_path(p).len() <= p.path.len() && p.path.take(
            canonical_path(p).len() as int,
        ) == canonical_path(p),
        forall|k: int|
            canonical_path(p).len() <= k < p.path.len() ==> #[trigger] p.path[k] == '/',
{
    reveal_strlit("/");
    let short = drop_trailing(p.path, just('/'));
    lemma_drop_trailing(p.path, just('/'));
    if short.len() > 0 {
        assert(!just('/')(short.last()));
    }
    assert forall|k: int| short.len() <= k < p.path.len() implies #[trigger] p.path[k] == '/' by {
        assert(just('/')(p.path[k]));
    }
}

/// A page that asks who the reader is, by a segment of its path in any case, is no evidence, and
/// neither is one that leads elsewhere, by a parameter of its query; any other page may be.
pub proof fn law_pages_that_are_no_evidence(
    a: Seq<char>,
    segment: Seq<char>,
    b: Seq<char>,
    path: Seq<char>,
    pairs: Seq<(Seq<char>, Seq<char>)>,
)
    requires
        seq!["auth"@, "authorize"@, "login"@, "oauth"@, "signin"@, "sign-in"@, "signup"@, "sign-up"@].contains(
            ascii_lower(segment),
        ),
    ensures
        unsafe_reason(a + "/"@ + segment + "/"@ + b, pairs) == Some("authentication_url"@),
        unsafe_reason(a + "/"@ + segment, pairs) == Some("authentication_url"@),
        ({
            let segments = pieces(ascii_lower(path), just('/'));
            let asks = exists|i: int|
                0 <= i < segments.len() && is_auth_segment(#[trigger] segments[i]);
            let leads = exists|i: int|
                0 <= i < pairs.len() && ((#[trigger] pairs[i]).0 == "redirect_uri"@ || pairs[i].0
                    == "return_to"@ || pairs[i].0 == "continue"@);
            &&& asks ==> unsafe_reason(path, pairs) == Some("authentication_url"@)
            &&& !asks && leads ==> unsafe_reason(path, pairs) == Some("redirect_url"@)
            &&& !asks && !leads ==> unsafe_reason(path, pairs) is None
        }),
{
    reveal_strlit("/");
    let sep = just('/');
    let slash = seq!['/'];
    let seg = ascii_lower(segment);
    let names = seq!["auth"@, "authorize"@, "login"@, "oauth"@, "signin"@, "sign-in"@, "signup"@, "sign-up"@];
    assert(names[0] == "auth"@);
    assert(names[1] == "authorize"@);
    assert(names[2] == "login"@);
    assert(names[3] == "oauth"@);
    assert(names[4] == "signin"@);
    assert(names[5] == "sign-in"@);
    assert(names[6] == "signup"@);
    assert(names[7] == "sign-up"@);
    assert(is_auth_segment(seg));
    assert forall|i: int| 0 <= i < seg.len() implies #[trigger] seg[i] != '/' by {
        reveal_strlit("auth");
        reveal_strlit("authorize");
        reveal_strlit("login");
        reveal_strlit("oauth");
        reveal_strlit("signin");
        reveal_strlit("sign-in");
        reveal_strlit("signup");
        reveal_strlit("sign-up");
    }
    assert forall|i: int| 0 <= i < seg.len() implies !sep(#[trigger] seg[i]) by {}
    let low_a = ascii_lower(a);
    let low_b = ascii_lower(b);
    let one = a + "/"@ + segment;
    let two = a + "/"@ + segment + "/"@ + b;
    assert(ascii_lower(one) =~= low_a + slash + seg);
    assert(ascii_lower(two) =~= low_a + slash + (seg + slash + low_b));
    law_texts_are_split_at_separators(low_a, '/', seg, sep);
    law_texts_are_split_at_separators(low_a, '/', seg + slash + low_b, sep);
    law_texts_are_split_at_separators(seg, '/', low_b, sep);
    let k = pieces(low_a, sep).len() as int;
    assert(pieces(seg, sep) == seq![seg]);
    assert(pieces(ascii_lower(one), sep)[k] == seg);
    assert(pieces(seg + slash + low_b, sep)[0] == seg);
    assert(pieces(ascii_lower(two), sep)[k] == seg);
    assert(is_auth_segment(pieces(ascii_lower(one), sep)[k]));
    assert(is_auth_segment(pieces(ascii_lower(two), sep)[k]));
}

/// The first page of a site has no query, and nothing is left of its path without the slashes at
/// its end.
pub proof fn law_homepages_have_no_path(p: UrlView)
    ensures
        homepage(Some(p)) <==> p.query is None && drop_trailing(p.path, just('/')).len() == 0,
        !homepage(None),
{
    lemma_drop_trailing(p.path, just('/'));
    let short = drop_trailing(p.path, just('/'));
    if short.len() == 0 {
        assert forall|i: int| 0 <= i < p.path.len() implies p.path[i] == '/' by {
            assert(just('/')(p.path[i]));
        }
    } else {
        assert(!just('/')(short.last()));
        assert(p.path[short.len() - 1] == short.last());
    }
}

/// The domains whose pages say little are six and those below them.
pub proof fn law_domains_that_say_little(domain: Seq<char>, label: Seq<char>, other: Seq<char>)
    ensures
        low_signal(domain) <==> is_or_below(domain, "coinmarketcap.com"@)
            || is_or_below(domain, "facebook.com"@) || is_or_below(domain, "instagram.com"@)
            || is_or_below(domain, "pinterest.com"@) || is_or_below(domain, "tiktok.com"@)
            || is_or_below(domain, "youtube.com"@),
        is_or_below(other, other),
        is_or_below(label + "."@ + other, other),
        is_or_below(domain, other) ==> domain == other || domain == domain.take(
            domain.len() - other.len() - 1,
        ) + "."@ + other,
{
    reveal_strlit(".");
    assert(low_signal_domains()[0] == "coinmarketcap.com"@);
    assert(low_signal_domains()[1] == "facebook.com"@);
    assert(low_signal_domains()[2] == "instagram.com"@);
    assert(low_signal_domains()[3] == "pinterest.com"@);
    assert(low_signal_domains()[4] == "tiktok.com"@);
    assert(low_signal_domains()[5] == "youtube.com"@);
    let below = label + "."@ + other;
    assert(below.subrange(label.len() as int, below.len() as int) =~= "."@ + other);
    let at = domain.len() - other.len() - 1;
    if at >= 0 && has_at(domain, "."@ + other, at) {
        assert(domain =~= domain.take(at) + domain.subrange(at, domain.len() as int));
        assert(domain.take(at) + ("."@ + other) =~= domain.take(at) + "."@ + other);
    }
}

} // verus!
