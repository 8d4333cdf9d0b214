//! Settings of the gateway and how the environment overrides them.
use vstd::prelude::*;

use crate::ip::{parse_unsigned, unsigned_value};
use crate::text::{
    ascii_lower, copy_opt, just, opt_text, pieces, same_text, split_char, texts, to_ascii_lower, trim,
    trimmed,
};

verus! {

/// What the command line asks for.
#[derive(Clone, Debug)]
pub struct Cli {
    pub config: Option<String>,
    pub command: Command,
}

/// A command of the program.
#[derive(Clone, Debug)]
pub enum Command {
    /// Print build and revision information.
    Version,
    /// Start the HTTP server.
    Serve,
    /// Run an end-to-end smoke check against a backend.
    Smoke { backend: String },
}

/// All settings.
#[derive(Clone, Debug)]
pub struct Config {
    pub data_dir: String,
    pub http_port: u16,
    pub http_bind_addr: String,
    pub mcp_path: String,
    /// The only tools to advertise and to answer, where the surface is restricted.
    pub exposed_tools: Option<Vec<String>>,
    pub backends: Backends,
    pub policy: Policy,
    pub store: Store,
}

/// The backend services.
#[derive(Clone, Debug)]
pub struct Backends {
    pub searxng: BackendEndpoint,
    pub firecrawl: BackendEndpoint,
    pub camofox: BackendEndpoint,
}

/// Where a backend service is reached.
#[derive(Clone, Debug)]
pub struct BackendEndpoint {
    pub endpoint: String,
    pub api_key: Option<String>,
}

/// The settings of the policy.
#[derive(Clone, Debug)]
pub struct Policy {
    pub families: Families,
    pub limits: Limits,
    pub domains: Domains,
    pub browser: BrowserPolicy,
}

/// Which families of tools are enabled.
#[derive(Clone, Copy, Debug)]
pub struct Families {
    pub search: bool,
    pub extract: bool,
    pub crawl: bool,
    pub browser: bool,
}

/// Caps on what a call may ask for.
#[derive(Clone, Copy, Debug)]
pub struct Limits {
    pub search_max_results: usize,
    pub scrape_max_bytes: usize,
    pub crawl_max_depth: usize,
    pub crawl_max_pages: usize,
    pub browser_session_ttl_secs: u64,
    pub browser_session_idle_secs: u64,
    pub browser_max_concurrent: usize,
    pub inflight_max: usize,
}

/// Hosts to admit and hosts to refuse.
#[derive(Clone, Debug)]
pub struct Domains {
    pub allowlist: Vec<String>,
    pub denylist: Vec<String>,
}

/// Settings of the browser tools.
#[derive(Clone, Copy, Debug)]
pub struct BrowserPolicy {
    pub cookie_import_enabled: bool,
}

/// Settings of the evidence store.
#[derive(Clone, Copy, Debug)]
pub struct Store {
    pub retention_days: u32,
}

impl Default for Families {
    /// The narrow research surface: crawl and browser are explicit opt-ins, because they
    /// expand network reach and resource consumption substantially.
    fn default() -> (res: Families)
        ensures
            res.search && res.extract && !res.crawl && !res.browser,
    {
        Families { search: true, extract: true, crawl: false, browser: false }
    }
}

impl Default for Limits {
    fn default() -> (res: Limits)
        ensures
            res.search_max_results == 20,
            res.scrape_max_bytes == 2_000_000,
            res.crawl_max_depth == 2,
            res.crawl_max_pages == 50,
            res.browser_session_ttl_secs == 300,
            res.browser_session_idle_secs == 60,
            res.browser_max_concurrent == 4,
            res.inflight_max == 8,
    {
        Limits {
            search_max_results: 20,
            scrape_max_bytes: 2_000_000,
            crawl_max_depth: 2,
            crawl_max_pages: 50,
            browser_session_ttl_secs: 300,
            browser_session_idle_secs: 60,
            browser_max_concurrent: 4,
            inflight_max: 8,
        }
    }
}

/// The hosts and blocks that are refused unless configured otherwise.
pub open spec fn default_denylist() -> Seq<Seq<char>> {
    seq![
        "*.internal"@,
        "*.local"@,
        "*.localhost"@,
        "*.home.arpa"@,
        "localhost"@,
        "metadata.google.internal"@,
        "0.0.0.0/8"@,
        "10.0.0.0/8"@,
        "127.0.0.1"@,
        "169.254.0.0/16"@,
        "172.16.0.0/12"@,
        "192.0.0.0/24"@,
        "192.168.0.0/16"@,
        "100.64.0.0/10"@,
        "224.0.0.0/4"@,
        "240.0.0.0/4"@,
        "::/128"@,
        "::1/128"@,
        "fc00::/7"@,
        "fe80::/10"@,
        "ff00::/8"@,
    ]
}

impl Default for Domains {
    fn default() -> (res: Domains)
        ensures
            res.allowlist@.len() == 0,
            texts(res.denylist@) == default_denylist(),
    {
        let denylist: Vec<String> = vec![
            "*.internal".to_owned(),
            "*.local".to_owned(),
            "*.localhost".to_owned(),
            "*.home.arpa".to_owned(),
            "localhost".to_owned(),
            "metadata.google.internal".to_owned(),
            "0.0.0.0/8".to_owned(),
            "10.0.0.0/8".to_owned(),
            "127.0.0.1".to_owned(),
            "169.254.0.0/16".to_owned(),
            "172.16.0.0/12".to_owned(),
            "192.0.0.0/24".to_owned(),
            "192.168.0.0/16".to_owned(),
            "100.64.0.0/10".to_owned(),
            "224.0.0.0/4".to_owned(),
            "240.0.0.0/4".to_owned(),
            "::/128".to_owned(),
            "::1/128".to_owned(),
            "fc00::/7".to_owned(),
            "fe80::/10".to_owned(),
            "ff00::/8".to_owned(),
        ];
        assert(texts(denylist@) =~= default_denylist());
        Domains { allowlist: Vec::new(), denylist }
    }
}

impl Default for BrowserPolicy {
    fn default() -> (res: BrowserPolicy)
        ensures
            !res.cookie_import_enabled,
    {
        BrowserPolicy { cookie_import_enabled: false }
    }
}

impl Default for Store {
    fn default() -> (res: Store)
        ensures
            res.retention_days == 30,
    {
        Store { retention_days: 30 }
    }
}

impl Config {
    /// The settings that hold where nothing is configured, with the given data directory.
    pub fn with_data_dir(data_dir: String) -> (res: Config)
        ensures
            res.data_dir == data_dir,
            res.http_port == 9213,
            res.http_bind_addr@ == "127.0.0.1"@,
            res.mcp_path@ == "/mcp"@,
            res.exposed_tools is None,
            res.backends.searxng.endpoint@ == "http://127.0.0.1:9210"@,
            res.backends.searxng.api_key is None,
            res.backends.firecrawl.endpoint@ == "http://127.0.0.1:9211"@,
            res.backends.firecrawl.api_key is None,
            res.backends.camofox.endpoint@ == "http://127.0.0.1:9212"@,
            res.backends.camofox.api_key is None,
            res.policy.families.search && res.policy.families.extract
                && !res.policy.families.crawl && !res.policy.families.browser,
            res.policy.limits.search_max_results == 20,
            res.policy.limits.scrape_max_bytes == 2_000_000,
            res.policy.limits.crawl_max_depth == 2,
            res.policy.limits.crawl_max_pages == 50,
            res.policy.limits.browser_session_ttl_secs == 300,
            res.policy.limits.browser_session_idle_secs == 60,
            res.policy.limits.browser_max_concurrent == 4,
            res.policy.limits.inflight_max == 8,
            res.policy.domains.allowlist@.len() == 0,
            texts(res.policy.domains.denylist@) == default_denylist(),
            !res.policy.browser.cookie_import_enabled,
            res.store.retention_days == 30,
    {
        Config {
            data_dir,
            http_port: 9213,
            http_bind_addr: "127.0.0.1".to_owned(),
            mcp_path: "/mcp".to_owned(),
            exposed_tools: None,
            backends: Backends {
                searxng: BackendEndpoint {
                    endpoint: "http://127.0.0.1:9210".to_owned(),
                    api_key: None,
                },
                firecrawl: BackendEndpoint {
                    endpoint: "http://127.0.0.1:9211".to_owned(),
                    api_key: None,
                },
                camofox: BackendEndpoint {
                    endpoint: "http://127.0.0.1:9212".to_owned(),
                    api_key: None,
                },
            },
            policy: Policy {
                families: Families::default(),
                limits: Limits::default(),
                domains: Domains::default(),
                browser: BrowserPolicy::default(),
            },
            store: Store::default(),
        }
    }

    /// Applies the values of the environment, where they are set.
    pub fn apply_env_overrides(&mut self, env: Environment)
        ensures
            final(self).data_dir@ == overridden(env.data_dir, old(self).data_dir),
            final(self).http_port == port_after(opt_text(env.http_port), old(self).http_port),
            final(self).http_bind_addr@ == overridden(
                env.http_bind_addr,
                old(self).http_bind_addr,
            ),
            final(self).mcp_path@ == overridden(env.mcp_path, old(self).mcp_path),
            match env.exposed_tools {
                Some(list) => final(self).exposed_tools is Some && texts(
                    final(self).exposed_tools->0@,
                ) == listed_tools(pieces(list@, just(','))),
                None => final(self).exposed_tools == old(self).exposed_tools,
            },
            final(self).backends.searxng.endpoint@ == overridden(
                env.searxng_endpoint,
                old(self).backends.searxng.endpoint,
            ),
            final(self).backends.searxng.api_key == old(self).backends.searxng.api_key,
            final(self).backends.firecrawl.endpoint@ == overridden(
                env.firecrawl_endpoint,
                old(self).backends.firecrawl.endpoint,
            ),
            final(self).backends.firecrawl.api_key == key_after(
                env.firecrawl_api_key,
                old(self).backends.firecrawl.api_key,
            ),
            final(self).backends.camofox.endpoint@ == overridden(
                env.camofox_endpoint,
                old(self).backends.camofox.endpoint,
            ),
            final(self).backends.camofox.api_key == key_after(
                env.camofox_api_key,
                old(self).backends.camofox.api_key,
            ),
            final(self).policy.families.search == flag_after(
                opt_text(env.enable_search),
                old(self).policy.families.search,
            ),
            final(self).policy.families.extract == flag_after(
                opt_text(env.enable_extract),
                old(self).policy.families.extract,
            ),
            final(self).policy.families.crawl == flag_after(
                opt_text(env.enable_crawl),
                old(self).policy.families.crawl,
            ),
            final(self).policy.families.browser == flag_after(
                opt_text(env.enable_browser),
                old(self).policy.families.browser,
            ),
            final(self).policy.limits == old(self).policy.limits,
            final(self).policy.domains == old(self).policy.domains,
            final(self).policy.browser == old(self).policy.browser,
            final(self).store == old(self).store,
    {
        self.data_dir = text_or(&env.data_dir, &self.data_dir);
        self.http_port = port_or(&env.http_port, self.http_port);
        self.http_bind_addr = text_or(&env.http_bind_addr, &self.http_bind_addr);
        self.mcp_path = text_or(&env.mcp_path, &self.mcp_path);
        if let Some(value) = &env.exposed_tools {
            self.exposed_tools = Some(tool_list(value));
        }
        self.backends.searxng.endpoint = text_or(
            &env.searxng_endpoint,
            &self.backends.searxng.endpoint,
        );
        self.backends.firecrawl.endpoint = text_or(
            &env.firecrawl_endpoint,
            &self.backends.firecrawl.endpoint,
        );
        self.backends.firecrawl.api_key = key_or(
            &env.firecrawl_api_key,
            &self.backends.firecrawl.api_key,
        );
        self.backends.camofox.endpoint = text_or(
            &env.camofox_endpoint,
            &self.backends.camofox.endpoint,
        );
        self.backends.camofox.api_key = key_or(
            &env.camofox_api_key,
            &self.backends.camofox.api_key,
        );
        self.policy.families.search = flag_or(&env.enable_search, self.policy.families.search);
        self.policy.families.extract = flag_or(&env.enable_extract, self.policy.families.extract);
        self.policy.families.crawl = flag_or(&env.enable_crawl, self.policy.families.crawl);
        self.policy.families.browser = flag_or(&env.enable_browser, self.policy.families.browser);
    }
}

/// The values of the environment variables that the gateway reads, where they are set.
#[derive(Clone, Debug)]
pub struct Environment {
    pub data_dir: Option<String>,
    pub http_port: Option<String>,
    pub http_bind_addr: Option<String>,
    pub mcp_path: Option<String>,
    pub exposed_tools: Option<String>,
    pub searxng_endpoint: Option<String>,
    pub firecrawl_endpoint: Option<String>,
    pub firecrawl_api_key: Option<String>,
    pub camofox_endpoint: Option<String>,
    pub camofox_api_key: Option<String>,
    pub enable_search: Option<String>,
    pub enable_extract: Option<String>,
    pub enable_crawl: Option<String>,
    pub enable_browser: Option<String>,
}

/// A value that is set takes the place of another.
pub open spec fn overridden(value: Option<String>, current: String) -> Seq<char> {
    match value {
        Some(s) => s@,
        None => current@,
    }
}

/// A key that is set takes the place of another.
pub open spec fn key_after(value: Option<String>, current: Option<String>) -> Option<String> {
    match value {
        Some(s) => Some(s),
        None => current,
    }
}

/// A port number that is set takes the place of another; any other text is ignored.
pub open spec fn port_after(value: Option<Seq<char>>, current: u16) -> u16 {
    match value {
        Some(s) => match unsigned_value(s) {
            Some(n) => if n <= 65535 {
                n as u16
            } else {
                current
            },
            None => current,
        },
        None => current,
    }
}

/// The flag that a text denotes, in any ASCII case.
pub open spec fn flag_value(s: Seq<char>) -> Option<bool> {
    let t = ascii_lower(s);
    if t == "1"@ || t == "true"@ || t == "yes"@ || t == "on"@ {
        Some(true)
    } else if t == "0"@ || t == "false"@ || t == "no"@ || t == "off"@ {
        Some(false)
    } else {
        None
    }
}

/// A flag that is set takes the place of another; any other text is ignored.
pub open spec fn flag_after(value: Option<Seq<char>>, current: bool) -> bool {
    match value {
        Some(s) => match flag_value(s) {
            Some(b) => b,
            None => current,
        },
        None => current,
    }
}

/// The flag that a text denotes.
pub fn parse_flag(value: &str) -> (res: Option<bool>)
    ensures
        res == flag_value(value@),
{
    let t = to_ascii_lower(value);
    if same_text(&t, "1") || same_text(&t, "true") || same_text(&t, "yes") || same_text(&t, "on") {
        Some(true)
    } else if same_text(&t, "0") || same_text(&t, "false") || same_text(&t, "no") || same_text(
        &t,
        "off",
    ) {
        Some(false)
    } else {
        None
    }
}

fn text_or(value: &Option<String>, current: &String) -> (res: String)
    ensures
        res@ == overridden(*value, *current),
{
    match value {
        Some(s) => s.clone(),
        None => current.clone(),
    }
}

fn key_or(value: &Option<String>, current: &Option<String>) -> (res: Option<String>)
    ensures
        res == key_after(*value, *current),
{
    match value {
        Some(s) => Some(s.clone()),
        None => copy_opt(current),
    }
}

fn port_or(value: &Option<String>, current: u16) -> (res: u16)
    ensures
        res == port_after(opt_text(*value), current),
{
    match value {
        Some(s) => match parse_unsigned(s, 65535) {
            Some(port) => port as u16,
            None => current,
        },
        None => current,
    }
}

fn flag_or(value: &Option<String>, current: bool) -> (res: bool)
    ensures
        res == flag_after(opt_text(*value), current),
{
    match value {
        Some(s) => match parse_flag(s) {
            Some(b) => b,
            None => current,
        },
        None => current,
    }
}

/// The names among the pieces of a list: trimmed, without empty ones.
pub open spec fn listed_tools(parts: Seq<Seq<char>>) -> Seq<Seq<char>>
    decreases parts.len(),
{
    if parts.len() == 0 {
        Seq::empty()
    } else {
        let before = listed_tools(parts.drop_last());
        let name = trimmed(parts.last());
        if name.len() == 0 {
            before
        } else {
            before.push(name)
        }
    }
}

/// The names of a comma-separated list.
pub fn tool_list(value: &str) -> (res: Vec<String>)
    ensures
        texts(res@) == listed_tools(pieces(value@, just(','))),
{
    let parts = split_char(value, ',');
    let ghost views = texts(parts@);
    let mut out: Vec<String> = Vec::new();
    let mut i: usize = 0;
    assert(texts(out@) =~= Seq::<Seq<char>>::empty());
    while i < parts.len()
        invariant
            views == texts(parts@),
            i <= parts@.len(),
            texts(out@) == listed_tools(views.take(i as int)),
        decreases parts@.len() - i,
    {
        proof {
            assert(views.take(i + 1).drop_last() =~= views.take(i as int));
            assert(views.take(i + 1).last() == parts@[i as int]@);
        }
        let name = trim(&parts[i]);
        if !name.as_str().is_empty() {
            let ghost before = out@;
            let ghost added = name;
            out.push(name);
            assert(texts(out@) =~= texts(before).push(added@));
        }
        i = i + 1;
    }
    assert(views.take(parts@.len() as int) =~= views);
    out
}

// ---------------------------------------------------------------------------
// Laws
// ---------------------------------------------------------------------------
/// What the environment does not set stays, and what it sets holds.
pub proof fn law_only_set_values_override(value: String, current: String, key: Option<String>)
    ensures
        overridden(None, current) == current@,
        overridden(Some(value), current) == value@,
        key_after(None, key) == key,
        key_after(Some(value), key) == Some(value),
        forall|p: u16| #[trigger] port_after(None, p) == p,
        forall|b: bool| #[trigger] flag_after(None, b) == b,
{
}

/// A port is taken where the text is a number that a port can have; any other text leaves the
/// port as it is.
pub proof fn law_ports_are_numbers(text: Seq<char>, current: u16)
    ensures
        unsigned_value(text) is Some && 0 <= unsigned_value(text)->0 <= 65535 ==> port_after(
            Some(text),
            current,
        ) == unsigned_value(text)->0,
        unsigned_value(text) is None || unsigned_value(text)->0 > 65535 ==> port_after(
            Some(text),
            current,
        ) == current,
{
}

/// A flag is switched on by four words and off by four others, in any case of their letters; any
/// other text leaves it as it is.
pub proof fn law_flags_are_switched_by_words(text: Seq<char>, current: bool)
    ensures
        ({
            let t = ascii_lower(text);
            let on = t == "1"@ || t == "true"@ || t == "yes"@ || t == "on"@;
            let off = t == "0"@ || t == "false"@ || t == "no"@ || t == "off"@;
            &&& !(on && off)
            &&& flag_value(text) == Some(true) <==> on
            &&& flag_value(text) == Some(false) <==> off
            &&& on ==> flag_after(Some(text), current)
            &&& off ==> !flag_after(Some(text), current)
            &&& !on && !off ==> flag_after(Some(text), current) == current
        }),
{
    reveal_strlit("1");
    reveal_strlit("true");
    reveal_strlit("yes");
    reveal_strlit("on");
    reveal_strlit("0");
    reveal_strlit("false");
    reveal_strlit("no");
    reveal_strlit("off");
    assert("1"@[0] == '1' && "true"@[0] == 't' && "yes"@[0] == 'y' && "on"@[0] == 'o' && "0"@[0]
        == '0' && "false"@[0] == 'f' && "no"@[0] == 'n' && "off"@[0] == 'o');
    assert("on"@.len() == 2 && "off"@.len() == 3);
}

/// The names of a list are its pieces without the space around them, in order; a piece that is
/// nothing but space is no name.
pub proof fn law_listed_names_are_the_pieces(
    a: Seq<Seq<char>>,
    b: Seq<Seq<char>>,
    piece: Seq<char>,
)
    ensures
        listed_tools(a + b) == listed_tools(a) + listed_tools(b),
        trimmed(piece).len() > 0 ==> listed_tools(seq![piece]) == seq![trimmed(piece)],
        trimmed(piece).len() == 0 ==> listed_tools(seq![piece]).len() == 0,
    decreases b.len(),
{
    let one = seq![piece];
    assert(one.drop_last() =~= Seq::<Seq<char>>::empty());
    assert(listed_tools(one.drop_last()) =~= Seq::<Seq<char>>::empty());
    assert(one.last() == piece);
    if b.len() == 0 {
        assert(a + b =~= a);
        assert(listed_tools(a) + listed_tools(b) =~= listed_tools(a));
    } else {
        law_listed_names_are_the_pieces(a, b.drop_last(), piece);
        assert((a + b).drop_last() =~= a + b.drop_last());
        assert((a + b).last() == b.last());
        let name = trimmed(b.last());
        if name.len() > 0 {
            assert((listed_tools(a) + listed_tools(b.drop_last())).push(name) =~= listed_tools(a)
                + listed_tools(b.drop_last()).push(name));
        }
    }
}

/// The hosts and blocks that are refused unless configured otherwise are these and no others.
pub proof fn law_default_denials(pattern: Seq<char>)
    ensures
        default_denylist().len() == 21,
        default_denylist().contains(pattern) <==> {
            ||| pattern == "*.internal"@
            ||| pattern == "*.local"@
            ||| pattern == "*.localhost"@
            ||| pattern == "*.home.arpa"@
            ||| pattern == "localhost"@
            ||| pattern == "metadata.google.internal"@
            ||| pattern == "0.0.0.0/8"@
            ||| pattern == "10.0.0.0/8"@
            ||| pattern == "127.0.0.1"@
            ||| pattern == "169.254.0.0/16"@
            ||| pattern == "172.16.0.0/12"@
            ||| pattern == "192.0.0.0/24"@
            ||| pattern == "192.168.0.0/16"@
            ||| pattern == "100.64.0.0/10"@
            ||| pattern == "224.0.0.0/4"@
            ||| pattern == "240.0.0.0/4"@
            ||| pattern == "::/128"@
            ||| pattern == "::1/128"@
            ||| pattern == "fc00::/7"@
            ||| pattern == "fe80::/10"@
            ||| pattern == "ff00::/8"@
        },
{
    assert(default_denylist()[0] == "*.internal"@);
    assert(default_denylist()[1] == "*.local"@);
    assert(default_denylist()[2] == "*.localhost"@);
    assert(default_denylist()[3] == "*.home.arpa"@);
    assert(default_denylist()[4] == "localhost"@);
    assert(default_denylist()[5] == "metadata.google.internal"@);
    assert(default_denylist()[6] == "0.0.0.0/8"@);
    assert(default_denylist()[7] == "10.0.0.0/8"@);
    assert(default_denylist()[8] == "127.0.0.1"@);
    assert(default_denylist()[9] == "169.254.0.0/16"@);
    assert(default_denylist()[10] == "172.16.0.0/12"@);
    assert(default_denylist()[11] == "192.0.0.0/24"@);
    assert(default_denylist()[12] == "192.168.0.0/16"@);
    assert(default_denylist()[13] == "100.64.0.0/10"@);
    assert(default_denylist()[14] == "224.0.0.0/4"@);
    assert(default_denylist()[15] == "240.0.0.0/4"@);
    assert(default_denylist()[16] == "::/128"@);
    assert(default_denylist()[17] == "::1/128"@);
    assert(default_denylist()[18] == "fc00::/7"@);
    assert(default_denylist()[19] == "fe80::/10"@);
    assert(default_denylist()[20] == "ff00::/8"@);
}

} // verus!
