//! What the gateway reads of a URL.
use url::{Host, Url};
use vstd::prelude::*;

use crate::ip::IpAddr;
use crate::policy::web_scheme;
use crate::text::{drop_trailing, first_at, just, opt_text, utf8_len};

verus! {

/// The parts of a parsed URL.
pub struct UrlParts {
    pub scheme: String,
    pub username: String,
    pub password: Option<String>,
    pub host: Option<String>,
    pub address: Option<IpAddr>,
    pub port: Option<u16>,
    pub path: String,
    pub query: Option<String>,
}

/// The parts of a parsed URL as mathematical values.
pub struct UrlView {
    pub scheme: Seq<char>,
    pub username: Seq<char>,
    pub password: Option<Seq<char>>,
    pub host: Option<Seq<char>>,
    pub address: Option<IpAddr>,
    pub port: Option<u16>,
    pub path: Seq<char>,
    pub query: Option<Seq<char>>,
}

impl View for UrlParts {
    type V = UrlView;

    open spec fn view(&self) -> UrlView {
        UrlView {
            scheme: self.scheme@,
            username: self.username@,
            password: opt_text(self.password),
            host: opt_text(self.host),
            address: self.address,
            port: self.port,
            path: self.path@,
            query: opt_text(self.query),
        }
    }
}

/// What the WHATWG URL parser makes of a text.
pub uninterp spec fn url_parse(raw: Seq<char>) -> Option<UrlView>;

/// A text up to its first number sign, where the fragment of a URL begins.
pub open spec fn before_fragment(raw: Seq<char>) -> Seq<char> {
    match first_at(raw, "#"@, 0) {
        Some(i) => raw.take(i),
        None => raw,
    }
}

/// A text whose end a URL parser keeps: it does not end in a space or a control character,
/// which the parser would drop, and the parser's 32-bit offsets hold it, however much of it is
/// written in a longer form.
pub open spec fn ends_plainly(s: Seq<char>) -> bool {
    0 < s.len() <= 0x100_0000 && s.last() > ' '
}

/// Two texts that differ in their fragments alone.
pub open spec fn same_but_fragment(a: Seq<char>, b: Seq<char>) -> bool {
    let stem = before_fragment(a);
    &&& before_fragment(b) == stem
    &&& a == stem || b == stem ==> ends_plainly(stem)
}

/// `url::Url::parse`, with the parts that its accessors `scheme`, `username`, `password`,
/// `host_str`, `host`, `port`, `path` and `query` give; none where it reports an error.
/// The result is a function of the text alone. Of a web URL the fragment is in none of these
/// parts: the parser ends the authority, the path and the query at the number sign.
#[verifier::external_body]
pub(crate) fn parse_url(raw: &str) -> (res: Option<UrlParts>)
    ensures
        match res {
            Some(parts) => url_parse(raw@) == Some(parts@),
            None => url_parse(raw@) is None,
        },
        forall|other: Seq<char>|
            res is Some && web_scheme(res->0.scheme@) && same_but_fragment(raw@, other)
                ==> #[trigger] url_parse(other) == Some(res->0@),
{
    let url = Url::parse(raw).ok()?;
    let address = match url.host() {
        Some(Host::Ipv4(ip)) => Some(IpAddr::V4(ip.into())),
        Some(Host::Ipv6(ip)) => Some(IpAddr::V6(ip.into())),
        Some(Host::Domain(_)) | None => None,
    };
    Some(UrlParts {
        scheme: url.scheme().into(), username: url.username().into(),
        password: url.password().map(Into::into), host: url.host_str().map(Into::into),
        address, port: url.port(), path: url.path().into(), query: url.query().map(Into::into),
    })
}

/// An upper bound on the bytes of a web URL's text up to the end of its path: the scheme, the
/// user name, the password, the host, a port and the path, with what stands between them.
pub open spec fn path_end_bound(u: UrlView) -> nat {
    utf8_len(u.scheme) + 3 + utf8_len(u.username) + 1 + opt_bytes(u.password) + 1 + opt_bytes(
        u.host,
    ) + 6 + utf8_len(u.path)
}

/// The bytes of a text, where there is one.
pub open spec fn opt_bytes(s: Option<Seq<char>>) -> nat {
    match s {
        Some(s) => utf8_len(s),
        None => 0,
    }
}

/// `url::Url::set_path` on the URL that `url::Url::parse` makes of `raw`, with its own path
/// without the slashes at its end, and the path it has after that. A parsed path of an http or
/// https URL begins with a slash, is percent-encoded and has no dot segment left, so setting it
/// again gives it back; the empty text gives the root. The call panics where the text up to the
/// end of the path is longer than a 32-bit offset can tell.
#[verifier::external_body]
pub(crate) fn path_after_set(raw: &str, path: &str) -> (res: String)
    requires
        url_parse(raw@) is Some,
        web_scheme(url_parse(raw@)->0.scheme),
        path@ == drop_trailing(url_parse(raw@)->0.path, just('/')),
        path_end_bound(url_parse(raw@)->0) <= 0xffff_ffff,
    ensures
        path@.len() > 0 ==> res@ == path@,
        path@.len() == 0 ==> res@ == "/"@,
{
    let mut url = Url::parse(raw).unwrap();
    url.set_path(path);
    url.path().to_string()
}

/// The views of a list of pairs of strings.
pub open spec fn pair_views(v: Seq<(String, String)>) -> Seq<(Seq<char>, Seq<char>)> {
    v.map_values(|p: (String, String)| (p.0@, p.1@))
}

/// The name and value pairs of a form-encoded text.
pub uninterp spec fn form_pairs(query: Seq<char>) -> Seq<(Seq<char>, Seq<char>)>;

/// `form_urlencoded::parse`, which `url::Url::query_pairs` applies to the query: the pairs
/// in order, percent-decoded. An empty text has no pair.
#[verifier::external_body]
pub(crate) fn decode_form(query: &str) -> (res: Vec<(String, String)>)
    ensures
        pair_views(res@) == form_pairs(query@),
        query@.len() == 0 ==> res@.len() == 0,
{
    url::form_urlencoded::parse(query.as_bytes()).into_owned().collect()
}

/// The form-encoded text of a list of pairs.
pub uninterp spec fn form_text(pairs: Seq<(Seq<char>, Seq<char>)>) -> Seq<char>;

/// `form_urlencoded::Serializer::extend_pairs`, which `url::Url::query_pairs_mut` writes a
/// query with. Decoding what it wrote gives the pairs back.
#[verifier::external_body]
pub(crate) fn encode_form(pairs: &Vec<(String, String)>) -> (res: String)
    ensures
        res@ == form_text(pair_views(pairs@)),
        form_pairs(res@) == pair_views(pairs@),
{
    url::form_urlencoded::Serializer::new(String::new()).extend_pairs(pairs).finish()
}

} // verus!
