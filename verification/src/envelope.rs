//! Marking what came from the web as untrusted.
use vstd::prelude::*;

use crate::json::{lemma_says, member_views, says, text_or_null, Json, JsonView};
use crate::store::{is_uuid_text, new_uuid_text};
use crate::text::{
    ascii_lower, chars_of, find_from, first_at, has_at, joined, lemma_first_at, occurs, opt_text,
    slice_text, to_ascii_lower,
};

verus! {

/// Where a response came from.
pub struct Source {
    pub url: String,
    pub fetched_at: String,
    pub tool: String,
    pub provider: String,
}

/// The stored evidence that a response rests on.
pub struct Provenance {
    pub fetch_id: String,
    pub content_hash: String,
}

/// A response whose content came from the web.
pub struct UntrustedEnvelope<T> {
    pub trust: &'static str,
    pub source: Source,
    pub provenance: Option<Provenance>,
    pub content: T,
    pub diagnostics: Option<Json>,
    pub audit_id: String,
}

/// Why a call was refused or failed.
pub struct ErrorPayload {
    pub kind: String,
    pub reason: String,
    pub detail: String,
    pub audit_id: Option<String>,
}

/// A response that reports an error.
pub struct ErrorEnvelope {
    pub error: ErrorPayload,
}

impl<T> UntrustedEnvelope<T> {
    /// An envelope without provenance and without diagnostics.
    pub fn new(source: Source, content: T, audit_id: String) -> (res: Self)
        ensures
            res.trust@ == "untrusted_web_evidence"@,
            res.source == source,
            res.provenance is None,
            res.content == content,
            res.diagnostics is None,
            res.audit_id == audit_id,
    {
        UntrustedEnvelope {
            trust: "untrusted_web_evidence",
            source,
            provenance: None,
            content,
            diagnostics: None,
            audit_id,
        }
    }

    /// An envelope that names the stored evidence it rests on.
    pub fn new_with_provenance(
        source: Source,
        provenance: Provenance,
        content: T,
        audit_id: String,
    ) -> (res: Self)
        ensures
            res.trust@ == "untrusted_web_evidence"@,
            res.source == source,
            res.provenance == Some(provenance),
            res.content == content,
            res.diagnostics is None,
            res.audit_id == audit_id,
    {
        UntrustedEnvelope {
            trust: "untrusted_web_evidence",
            source,
            provenance: Some(provenance),
            content,
            diagnostics: None,
            audit_id,
        }
    }

    /// The same envelope with diagnostics.
    pub fn with_diagnostics(self, diagnostics: Json) -> (res: Self)
        ensures
            res.trust == self.trust,
            res.source == self.source,
            res.provenance == self.provenance,
            res.content == self.content,
            res.diagnostics == Some(diagnostics),
            res.audit_id == self.audit_id,
    {
        UntrustedEnvelope {
            trust: self.trust,
            source: self.source,
            provenance: self.provenance,
            content: self.content,
            diagnostics: Some(diagnostics),
            audit_id: self.audit_id,
        }
    }
}

/// Where a response came from, as a mathematical value.
#[verifier::ext_equal]
pub struct SourceView {
    pub url: Seq<char>,
    pub fetched_at: Seq<char>,
    pub tool: Seq<char>,
    pub provider: Seq<char>,
}

impl View for Source {
    type V = SourceView;

    open spec fn view(&self) -> SourceView {
        SourceView {
            url: self.url@,
            fetched_at: self.fetched_at@,
            tool: self.tool@,
            provider: self.provider@,
        }
    }
}

/// The stored evidence that a response rests on, as a mathematical value.
#[verifier::ext_equal]
pub struct ProvenanceView {
    pub fetch_id: Seq<char>,
    pub content_hash: Seq<char>,
}

impl View for Provenance {
    type V = ProvenanceView;

    open spec fn view(&self) -> ProvenanceView {
        ProvenanceView { fetch_id: self.fetch_id@, content_hash: self.content_hash@ }
    }
}

/// A response whose content came from the web, as a mathematical value.
#[verifier::ext_equal]
pub struct EnvelopeView {
    pub trust: Seq<char>,
    pub source: SourceView,
    pub provenance: Option<ProvenanceView>,
    pub content: JsonView,
    pub diagnostics: Option<JsonView>,
    pub audit_id: Seq<char>,
}

impl View for UntrustedEnvelope<Json> {
    type V = EnvelopeView;

    open spec fn view(&self) -> EnvelopeView {
        EnvelopeView {
            trust: self.trust@,
            source: self.source@,
            provenance: match self.provenance {
                Some(p) => Some(p@),
                None => None,
            },
            content: self.content@,
            diagnostics: match self.diagnostics {
                Some(d) => Some(d@),
                None => None,
            },
            audit_id: self.audit_id@,
        }
    }
}

/// A response that reports an error, as a mathematical value.
#[verifier::ext_equal]
pub struct ErrorView {
    pub kind: Seq<char>,
    pub reason: Seq<char>,
    pub detail: Seq<char>,
    pub audit_id: Option<Seq<char>>,
}

impl View for ErrorEnvelope {
    type V = ErrorView;

    open spec fn view(&self) -> ErrorView {
        ErrorView {
            kind: self.error.kind@,
            reason: self.error.reason@,
            detail: self.error.detail@,
            audit_id: opt_text(self.error.audit_id),
        }
    }
}

/// The JSON form of a source.
pub open spec fn source_json(s: SourceView) -> JsonView {
    JsonView::Object(
        seq![
            ("url"@, JsonView::Text(s.url)),
            ("fetched_at"@, JsonView::Text(s.fetched_at)),
            ("tool"@, JsonView::Text(s.tool)),
            ("provider"@, JsonView::Text(s.provider)),
        ],
    )
}

/// The JSON form of the stored evidence that a response rests on.
pub open spec fn provenance_json(p: ProvenanceView) -> JsonView {
    JsonView::Object(
        seq![
            ("fetch_id"@, JsonView::Text(p.fetch_id)),
            ("content_hash"@, JsonView::Text(p.content_hash)),
        ],
    )
}

/// The members of an envelope's head: all that stands before its content.
pub open spec fn envelope_head(e: EnvelopeView) -> Seq<(Seq<char>, JsonView)> {
    let head = seq![("trust"@, JsonView::Text(e.trust)), ("source"@, source_json(e.source))];
    match e.provenance {
        Some(p) => head.push(("provenance"@, provenance_json(p))),
        None => head,
    }
}

/// The JSON form of an envelope: its head, its content, its diagnostics where it has them, and
/// the identifier of its audit entry.
pub open spec fn envelope_json(e: EnvelopeView) -> JsonView {
    let body = envelope_head(e).push(("content"@, e.content));
    let noted = match e.diagnostics {
        Some(d) => body.push(("diagnostics"@, d)),
        None => body,
    };
    JsonView::Object(noted.push(("audit_id"@, JsonView::Text(e.audit_id))))
}

/// The JSON form of an error.
pub open spec fn error_json(e: ErrorView) -> JsonView {
    JsonView::Object(
        seq![
            (
                "error"@,
                JsonView::Object(
                    seq![
                        ("kind"@, JsonView::Text(e.kind)),
                        ("reason"@, JsonView::Text(e.reason)),
                        ("detail"@, JsonView::Text(e.detail)),
                        ("audit_id"@, text_or_null(e.audit_id)),
                    ],
                ),
            ),
        ],
    )
}

impl Source {
    /// The JSON form.
    pub fn to_json(&self) -> (res: Json)
        ensures
            res@ == source_json(self@),
    {
        let members = vec![
            Json::field("url", Json::text(&self.url)),
            Json::field("fetched_at", Json::text(&self.fetched_at)),
            Json::field("tool", Json::text(&self.tool)),
            Json::field("provider", Json::text(&self.provider)),
        ];
        assert(member_views(members@) =~= source_json(self@)->Object_0);
        Json::object(members)
    }
}

impl Provenance {
    /// The JSON form.
    pub fn to_json(&self) -> (res: Json)
        ensures
            res@ == provenance_json(self@),
    {
        let members = vec![
            Json::field("fetch_id", Json::text(&self.fetch_id)),
            Json::field("content_hash", Json::text(&self.content_hash)),
        ];
        assert(member_views(members@) =~= provenance_json(self@)->Object_0);
        Json::object(members)
    }
}

impl UntrustedEnvelope<Json> {
    /// The JSON form, in which the provenance stands before the content.
    pub fn to_json(&self) -> (res: Json)
        ensures
            res@ == envelope_json(self@),
    {
        let mut members = vec![
            Json::field("trust", Json::text(self.trust)),
            Json::field("source", self.source.to_json()),
        ];
        if let Some(p) = &self.provenance {
            members.push(Json::field("provenance", p.to_json()));
        }
        members.push(Json::field("content", self.content.copy()));
        if let Some(d) = &self.diagnostics {
            members.push(Json::field("diagnostics", d.copy()));
        }
        members.push(Json::field("audit_id", Json::text(&self.audit_id)));
        assert(member_views(members@) =~= envelope_json(self@)->Object_0);
        Json::object(members)
    }
}

impl ErrorEnvelope {
    /// The JSON form.
    pub fn to_json(&self) -> (res: Json)
        ensures
            res@ == error_json(self@),
    {
        let payload = vec![
            Json::field("kind", Json::text(&self.error.kind)),
            Json::field("reason", Json::text(&self.error.reason)),
            Json::field("detail", Json::text(&self.error.detail)),
            Json::field("audit_id", Json::opt_text(&self.error.audit_id)),
        ];
        assert(member_views(payload@) =~= seq![
            ("kind"@, JsonView::Text(self@.kind)),
            ("reason"@, JsonView::Text(self@.reason)),
            ("detail"@, JsonView::Text(self@.detail)),
            ("audit_id"@, text_or_null(self@.audit_id)),
        ]);
        let members = vec![Json::field("error", Json::object(payload))];
        assert(member_views(members@) =~= error_json(self@)->Object_0);
        Json::object(members)
    }
}

// ---------------------------------------------------------------------------
// Models
// ---------------------------------------------------------------------------
/// The text in which a character stands inside a quoted attribute.
pub open spec fn attr_char(c: char) -> Seq<char> {
    if c == '"' {
        "&quot;"@
    } else if c == '<' {
        "&lt;"@
    } else if c == '>' {
        "&gt;"@
    } else {
        seq![c]
    }
}

/// A text as it stands inside a quoted attribute.
pub open spec fn attr_text(s: Seq<char>) -> Seq<char>
    decreases s.len(),
{
    if s.len() == 0 {
        Seq::empty()
    } else {
        attr_text(s.drop_last()) + attr_char(s.last())
    }
}

/// Angle brackets become their fullwidth forms; any other character stays.
pub open spec fn neutral_char(c: char) -> char {
    if c == '<' {
        '\u{FF1C}'
    } else if c == '>' {
        '\u{FF1E}'
    } else {
        c
    }
}

/// A text with fullwidth angle brackets.
pub open spec fn neutral(s: Seq<char>) -> Seq<char> {
    s.map_values(|c: char| neutral_char(c))
}

/// The tags that could pass for the gateway's own markers or for control tags.
pub open spec fn spoof_patterns() -> Seq<Seq<char>> {
    seq![
        "<system>"@,
        "</system>"@,
        "<tool_use>"@,
        "</tool_use>"@,
        "<untrusted-web-content"@,
        "</untrusted-web-content>"@,
        "<<<UNTRUSTED_WEB_CONTENT:"@,
        "<<<END_UNTRUSTED_WEB_CONTENT:"@,
    ]
}

/// `needle` stands in `s` at `i`, in any ASCII case.
pub open spec fn folded_at(s: Seq<char>, needle: Seq<char>, i: int) -> bool {
    has_at(ascii_lower(s), ascii_lower(needle), i)
}

/// `needle` stands somewhere in `s`, in any ASCII case.
pub open spec fn occurs_folded(s: Seq<char>, needle: Seq<char>) -> bool {
    occurs(ascii_lower(s), ascii_lower(needle))
}

/// The rest of `s` from `from` on, with each occurrence of `needle`, in any ASCII case,
/// replaced.
pub open spec fn replaced_folded(
    s: Seq<char>,
    needle: Seq<char>,
    replacement: Seq<char>,
    from: int,
) -> Seq<char>
    decreases s.len() - from,
{
    match first_at(ascii_lower(s), ascii_lower(needle), from) {
        Some(at) => if 0 <= from <= at && needle.len() > 0 && at + needle.len() <= s.len() {
            s.subrange(from, at) + replacement + replaced_folded(
                s,
                needle,
                replacement,
                at + needle.len() as int,
            )
        } else {
            s.skip(from)
        },
        None => s.skip(from),
    }
}

/// `s` with the first `n` spoof patterns neutralised, one after the other.
pub open spec fn stripped_of(s: Seq<char>, n: nat) -> Seq<char>
    decreases n,
{
    if n == 0 {
        s
    } else {
        let pattern = spoof_patterns()[n - 1];
        replaced_folded(stripped_of(s, (n - 1) as nat), pattern, neutral(pattern), 0)
    }
}

/// `s` with every spoof pattern neutralised.
pub open spec fn stripped(s: Seq<char>) -> Seq<char> {
    stripped_of(s, spoof_patterns().len())
}

/// The first line of a wrapped text.
pub open spec fn wrap_header(nonce: Seq<char>, source_url: Seq<char>) -> Seq<char> {
    "<<<UNTRUSTED_WEB_CONTENT:"@ + nonce + " source=\""@ + attr_text(source_url) + "\">>>"@
}

/// The last line of a wrapped text.
pub open spec fn wrap_footer(nonce: Seq<char>) -> Seq<char> {
    "<<<END_UNTRUSTED_WEB_CONTENT:"@ + nonce + ">>>"@
}

/// A body between its marker lines.
pub open spec fn wrapped(nonce: Seq<char>, source_url: Seq<char>, body: Seq<char>) -> Seq<char> {
    wrap_header(nonce, source_url) + "\n"@ + stripped(body) + "\n"@ + wrap_footer(nonce)
}

/// No two occurrences of `needle` in `s`, in any ASCII case, overlap.
pub open spec fn no_overlap(s: Seq<char>, needle: Seq<char>) -> bool {
    forall|i: int, j: int|
        i < j && #[trigger] folded_at(s, needle, i) && #[trigger] folded_at(s, needle, j) ==> i
            + needle.len() <= j
}

// ---------------------------------------------------------------------------
// Functions
// ---------------------------------------------------------------------------
/// A text as it stands inside a quoted attribute.
pub fn escape_attr(s: &str) -> (res: String)
    ensures
        res@ == attr_text(s@),
{
    let v = chars_of(s);
    let mut out = String::new();
    let mut i: usize = 0;
    while i < v.len()
        invariant
            v@ == s@,
            i <= v@.len(),
            out@ == attr_text(v@.take(i as int)),
        decreases v@.len() - i,
    {
        proof {
            assert(v@.take(i + 1).drop_last() =~= v@.take(i as int));
            assert(v@.take(i + 1).last() == v@[i as int]);
        }
        let c = v[i];
        if c == '"' {
            out.push_str("&quot;");
        } else if c == '<' {
            out.push_str("&lt;");
        } else if c == '>' {
            out.push_str("&gt;");
        } else {
            let ghost before = out@;
            out.push(c);
            assert(out@ =~= before + seq![c]);
        }
        i = i + 1;
    }
    assert(v@.take(v@.len() as int) =~= v@);
    out
}

/// A pattern with fullwidth angle brackets, which still reads naturally and which no
/// parser takes for a tag.
pub fn neuter(pat: &str) -> (res: String)
    ensures
        res@ == neutral(pat@),
{
    let v = chars_of(pat);
    let mut out = String::new();
    let mut i: usize = 0;
    while i < v.len()
        invariant
            v@ == pat@,
            i <= v@.len(),
            out@ == neutral(v@.take(i as int)),
        decreases v@.len() - i,
    {
        let c = v[i];
        if c == '<' {
            out.push('\u{FF1C}');
        } else if c == '>' {
            out.push('\u{FF1E}');
        } else {
            out.push(c);
        }
        assert(neutral(v@.take(i + 1)) =~= neutral(v@.take(i as int)).push(neutral_char(c)));
        i = i + 1;
    }
    assert(v@.take(v@.len() as int) =~= v@);
    out
}

/// `haystack` with each occurrence of `needle`, in any ASCII case, replaced.
///
/// The occurrences must not overlap, and `needle` must begin with an ASCII character
/// wherever it occurs.
pub fn case_insensitive_replace(haystack: &str, needle: &str, replacement: &str) -> (res: String)
    requires
        needle@.len() > 0,
        occurs_folded(haystack@, needle@) ==> (needle@[0] as u32) < 128,
        no_overlap(haystack@, needle@),
    ensures
        res@ == replaced_folded(haystack@, needle@, replacement@, 0),
{
    let original = chars_of(haystack);
    let lower_haystack = chars_of(&to_ascii_lower(haystack));
    let lower_needle = chars_of(&to_ascii_lower(needle));
    let width: usize = lower_needle.len();
    let total: usize = lower_haystack.len();
    let mut out = String::new();
    let mut last: usize = 0;
    assert(out@ + replaced_folded(haystack@, needle@, replacement@, 0) =~= replaced_folded(
        haystack@,
        needle@,
        replacement@,
        0,
    ));
    loop
        invariant
            original@ == haystack@,
            lower_haystack@ == ascii_lower(haystack@),
            lower_needle@ == ascii_lower(needle@),
            width == needle@.len(),
            width > 0,
            total == lower_haystack@.len(),
            last <= original@.len(),
            out@ + replaced_folded(haystack@, needle@, replacement@, last as int)
                == replaced_folded(haystack@, needle@, replacement@, 0),
        decreases original@.len() - last,
    {
        let found = find_from(&lower_haystack, &lower_needle, last);
        match found {
            Some(at) => {
                let ghost before = out@;
                let kept = slice_text(&original, last, at);
                out.push_str(&kept);
                out.push_str(replacement);
                last = at + width;
                assert(out@ + replaced_folded(haystack@, needle@, replacement@, last as int)
                    =~= before + (kept@ + replacement@ + replaced_folded(
                    haystack@,
                    needle@,
                    replacement@,
                    last as int,
                )));
            },
            None => {
                let rest = slice_text(&original, last, original.len());
                out.push_str(&rest);
                assert(rest@ =~= haystack@.skip(last as int));
                return out;
            },
        }
    }
}

/// The tags that could pass for the gateway's own markers or for control tags.
pub fn spoof_pattern_list() -> (res: Vec<&'static str>)
    ensures
        res@.len() == spoof_patterns().len(),
        forall|i: int| 0 <= i < res@.len() ==> (#[trigger] res@[i])@ == spoof_patterns()[i],
{
    vec![
        "<system>",
        "</system>",
        "<tool_use>",
        "</tool_use>",
        "<untrusted-web-content",
        "</untrusted-web-content>",
        "<<<UNTRUSTED_WEB_CONTENT:",
        "<<<END_UNTRUSTED_WEB_CONTENT:",
    ]
}

/// `input` with every spoof pattern neutralised.
pub fn strip_spoof_tags(input: &str) -> (res: String)
    ensures
        res@ == stripped(input@),
        forall|k: int|
            0 <= k < spoof_patterns().len() ==> !occurs_folded(
                res@,
                #[trigger] spoof_patterns()[k],
            ),
{
    let patterns = spoof_pattern_list();
    let mut out = input.to_owned();
    let mut i: usize = 0;
    while i < patterns.len()
        invariant
            patterns@.len() == spoof_patterns().len(),
            forall|k: int|
                0 <= k < patterns@.len() ==> (#[trigger] patterns@[k])@ == spoof_patterns()[k],
            i <= patterns@.len(),
            out@ == stripped_of(input@, i as nat),
        decreases patterns@.len() - i,
    {
        proof {
            lemma_spoof_pattern(i as int);
            lemma_no_overlap(out@, patterns@[i as int]@, spoof_head(i as int));
        }
        let replacement = neuter(patterns[i]);
        out = case_insensitive_replace(&out, patterns[i], &replacement);
        i = i + 1;
    }
    proof {
        law_stripped_holds_no_pattern(input@);
    }
    out
}

/// A body between marker lines that carry the given nonce.
pub fn wrap_with_nonce(nonce: &str, source_url: &str, body: &str) -> (res: String)
    ensures
        res@ == wrapped(nonce@, source_url@, body@),
{
    let cleaned = strip_spoof_tags(body);
    let mut out = "<<<UNTRUSTED_WEB_CONTENT:".to_owned();
    out.push_str(nonce);
    out.push_str(" source=\"");
    out.push_str(&escape_attr(source_url));
    out.push_str("\">>>");
    assert(out@ =~= wrap_header(nonce@, source_url@));
    out.push_str("\n");
    out.push_str(&cleaned);
    out.push_str("\n");
    let ghost before = out@;
    out.push_str("<<<END_UNTRUSTED_WEB_CONTENT:");
    out.push_str(nonce);
    out.push_str(">>>");
    assert(out@ =~= before + wrap_footer(nonce@));
    out
}

/// A body between marker lines that carry a fresh nonce, with every tag that could pass
/// for a marker or a control tag neutralised.
pub fn wrap_untrusted(source_url: &str, body: &str) -> (res: String)
    ensures
        exists|nonce: Seq<char>|
            is_uuid_text(nonce) && res@ == #[trigger] wrapped(nonce, source_url@, body@),
{
    let nonce = new_uuid_text();
    wrap_with_nonce(&nonce, source_url, body)
}

// ---------------------------------------------------------------------------
// Laws
// ---------------------------------------------------------------------------
/// The number of opening brackets at the head of a spoof pattern.
spec fn spoof_head(k: int) -> int {
    if k < 6 {
        1
    } else {
        3
    }
}

/// A pattern begins with `m` opening brackets, and holds no other.
spec fn headed(p: Seq<char>, m: int) -> bool {
    &&& 1 <= m < p.len()
    &&& forall|i: int| 0 <= i < m ==> p[i] == '<'
    &&& forall|i: int| m <= i < p.len() ==> p[i] != '<'
    &&& forall|i: int| 0 <= i < p.len() ==> p[i] != '\u{FF1C}' && p[i] != '\n'
}

proof fn lemma_spoof_pattern(k: int)
    requires
        0 <= k < spoof_patterns().len(),
    ensures
        headed(spoof_patterns()[k], spoof_head(k)),
        spoof_patterns()[k][0] == '<',
{
    reveal_strlit("<system>");
    reveal_strlit("</system>");
    reveal_strlit("<tool_use>");
    reveal_strlit("</tool_use>");
    reveal_strlit("<untrusted-web-content");
    reveal_strlit("</untrusted-web-content>");
    reveal_strlit("<<<UNTRUSTED_WEB_CONTENT:");
    reveal_strlit("<<<END_UNTRUSTED_WEB_CONTENT:");
}

proof fn lemma_lower_keeps_brackets(s: Seq<char>, i: int)
    requires
        0 <= i < s.len(),
    ensures
        (ascii_lower(s)[i] == '<') == (s[i] == '<'),
        (ascii_lower(s)[i] == '\n') == (s[i] == '\n'),
        (ascii_lower(s)[i] == '\u{FF1C}') == (s[i] == '\u{FF1C}'),
{
}

proof fn lemma_no_overlap(s: Seq<char>, p: Seq<char>, m: int)
    requires
        headed(p, m),
    ensures
        no_overlap(s, p),
{
    let h = ascii_lower(s);
    let n = ascii_lower(p);
    assert forall|i: int, j: int|
        i < j && #[trigger] folded_at(s, p, i) && #[trigger] folded_at(s, p, j) implies i + p.len()
        <= j by {
        if j < i + p.len() {
            let k = j - i;
            if k >= m {
                assert(h[j] == h.subrange(i, i + n.len())[k]);
                assert(h[j] == h.subrange(j, j + n.len())[0]);
                lemma_lower_keeps_brackets(p, k);
                lemma_lower_keeps_brackets(p, 0);
            } else {
                assert(h[i + m] == h.subrange(i, i + n.len())[m]);
                assert(h[i + m] == h.subrange(j, j + n.len())[m - k]);
                lemma_lower_keeps_brackets(p, m);
                lemma_lower_keeps_brackets(p, m - k);
            }
        }
    }
}

/// Position by position, what replacing a pattern with a text of its length does.
proof fn lemma_replaced_pointwise(s: Seq<char>, p: Seq<char>, r: Seq<char>, from: int)
    requires
        0 <= from <= s.len(),
        p.len() > 0,
        r.len() == p.len(),
        no_overlap(s, p),
        forall|i: int| folded_at(s, p, i) && i < from ==> i + p.len() <= from,
    ensures
        replaced_folded(s, p, r, from).len() == s.len() - from,
        forall|i: int, k: int|
            from <= i && #[trigger] folded_at(s, p, i) && 0 <= k < p.len()
                ==> #[trigger] replaced_folded(s, p, r, from)[i + k - from] == r[k],
        forall|x: int|
            from <= x < s.len() && (forall|i: int|
                #[trigger] folded_at(s, p, i) ==> !(i <= x < i + p.len()))
                ==> #[trigger] replaced_folded(s, p, r, from)[x - from] == s[x],
    decreases s.len() - from,
{
    let h = ascii_lower(s);
    let n = ascii_lower(p);
    lemma_first_at(h, n, from);
    let out = replaced_folded(s, p, r, from);
    match first_at(h, n, from) {
        Some(at) => {
            let next = at + p.len() as int;
            assert(folded_at(s, p, at));
            assert forall|i: int| folded_at(s, p, i) && i < next implies i + p.len() <= next by {
                if i > at {
                    assert(at + p.len() <= i);
                }
            }
            lemma_replaced_pointwise(s, p, r, next);
            let rest = replaced_folded(s, p, r, next);
            assert(out =~= s.subrange(from, at) + r + rest);
            assert forall|i: int, k: int|
                from <= i && #[trigger] folded_at(s, p, i) && 0 <= k < p.len() implies (
            #[trigger] replaced_folded(s, p, r, from)[i + k - from]) == r[k] by {
                if i < at {
                    assert(!has_at(h, n, i));
                } else if i == at {
                    assert(out[i + k - from] == r[k]);
                } else {
                    assert(at + p.len() <= i);
                    assert(rest[i + k - next] == r[k]);
                    assert(out[i + k - from] == rest[i + k - next]);
                }
            }
            assert forall|x: int|
                from <= x < s.len() && (forall|i: int|
                    #[trigger] folded_at(s, p, i) ==> !(i <= x < i + p.len())) implies (
            #[trigger] replaced_folded(s, p, r, from)[x - from]) == s[x] by {
                if x < at {
                } else {
                    assert(next <= x);
                    assert(rest[x - next] == s[x]);
                    assert(out[x - from] == rest[x - next]);
                }
            }
        },
        None => {
            assert forall|i: int, k: int|
                from <= i && #[trigger] folded_at(s, p, i) && 0 <= k < p.len() implies (
            #[trigger] replaced_folded(s, p, r, from)[i + k - from]) == r[k] by {
                assert(!has_at(h, n, i));
            }
        },
    }
}

/// Neutralising one bracket-headed pattern brings in no occurrence of another, and leaves
/// none of its own.
proof fn lemma_replaced_brings_in_none(s: Seq<char>, p: Seq<char>, m: int, q: Seq<char>, mq: int)
    requires
        headed(p, m),
        headed(q, mq),
        q == p || !occurs_folded(s, q),
    ensures
        !occurs_folded(replaced_folded(s, p, neutral(p), 0), q),
{
    let r = neutral(p);
    let out = replaced_folded(s, p, r, 0);
    lemma_no_overlap(s, p, m);
    assert forall|i: int| folded_at(s, p, i) && i < 0 implies i + p.len() <= 0 by {}
    lemma_replaced_pointwise(s, p, r, 0);
    let lo = ascii_lower(out);
    let lq = ascii_lower(q);
    if occurs_folded(out, q) {
        let i = choose|i: int| has_at(lo, lq, i);
        assert(lo.subrange(i, i + lq.len()) == lq);
        assert forall|t: int| 0 <= t < q.len() implies lo[i + t] == lq[t] by {
            assert(lo.subrange(i, i + lq.len())[t] == lq[t]);
        }
        assert forall|x: int, y: int|
            i <= x < i + q.len() && #[trigger] folded_at(s, p, y) && y <= #[trigger] (
            x + 0) < y + p.len() implies false by {
            if y >= i {
                assert(out[y + 0 - 0] == r[0]);
                assert(r[0] == '\u{FF1C}');
                assert(lo[i + (y - i)] == lq[y - i]);
                lemma_lower_keeps_brackets(q, y - i);
                lemma_lower_keeps_brackets(out, y);
            } else {
                let k = i - y;
                assert(out[y + k - 0] == r[k]);
                assert(r[k] == neutral_char(p[k]));
                assert(lo[i + 0] == lq[0]);
                lemma_lower_keeps_brackets(q, 0);
                lemma_lower_keeps_brackets(out, i);
                assert(out[i] == '<');
            }
        }
        assert forall|t: int| 0 <= t < q.len() implies ascii_lower(s)[i + t] == lq[t] by {
            let x = i + t;
            assert forall|y: int| #[trigger] folded_at(s, p, y) implies !(y <= x < y
                + p.len()) by {
                if y <= x < y + p.len() {
                    assert(y <= x + 0 < y + p.len());
                }
            }
            assert(out[x - 0] == s[x]);
            assert(lo[i + t] == lq[t]);
        }
        assert(ascii_lower(s).subrange(i, i + lq.len()) =~= lq);
        assert(folded_at(s, q, i));
        if q == p {
            assert(i <= i + 0 < i + p.len());
        }
        assert(false);
    }
}

proof fn lemma_stripped_of(s: Seq<char>, n: nat)
    requires
        n <= spoof_patterns().len(),
    ensures
        forall|k: int|
            0 <= k < n ==> !occurs_folded(stripped_of(s, n), #[trigger] spoof_patterns()[k]),
    decreases n,
{
    if n > 0 {
        lemma_stripped_of(s, (n - 1) as nat);
        let before = stripped_of(s, (n - 1) as nat);
        let p = spoof_patterns()[n - 1];
        lemma_spoof_pattern(n - 1);
        assert forall|k: int| 0 <= k < n implies !occurs_folded(
            stripped_of(s, n),
            #[trigger] spoof_patterns()[k],
        ) by {
            lemma_spoof_pattern(k);
            lemma_replaced_brings_in_none(
                before,
                p,
                spoof_head(n - 1),
                spoof_patterns()[k],
                spoof_head(k),
            );
        }
    }
}

/// A stripped text holds no spoof pattern, in any ASCII case.
pub proof fn law_stripped_holds_no_pattern(s: Seq<char>)
    ensures
        forall|k: int|
            0 <= k < spoof_patterns().len() ==> !occurs_folded(
                stripped(s),
                #[trigger] spoof_patterns()[k],
            ),
{
    lemma_stripped_of(s, spoof_patterns().len());
}

/// Where no spoof pattern occurs, stripping changes nothing.
pub proof fn law_stripped_keeps_clean_text(s: Seq<char>)
    requires
        forall|k: int|
            0 <= k < spoof_patterns().len() ==> !occurs_folded(s, #[trigger] spoof_patterns()[k]),
    ensures
        stripped(s) == s,
{
    lemma_stripped_of_clean(s, spoof_patterns().len());
}

proof fn lemma_stripped_of_clean(s: Seq<char>, n: nat)
    requires
        n <= spoof_patterns().len(),
        forall|k: int|
            0 <= k < spoof_patterns().len() ==> !occurs_folded(s, #[trigger] spoof_patterns()[k]),
    ensures
        stripped_of(s, n) == s,
    decreases n,
{
    if n > 0 {
        lemma_stripped_of_clean(s, (n - 1) as nat);
        let p = spoof_patterns()[n - 1];
        assert(!occurs_folded(s, p));
        lemma_first_at(ascii_lower(s), ascii_lower(p), 0);
        assert(s.skip(0) =~= s);
    }
}

/// Stripping twice is stripping once.
pub proof fn law_stripping_is_idempotent(s: Seq<char>)
    ensures
        stripped(stripped(s)) == stripped(s),
{
    law_stripped_holds_no_pattern(s);
    law_stripped_keeps_clean_text(stripped(s));
}

/// Stripping keeps the number of characters.
pub proof fn law_stripping_keeps_length(s: Seq<char>)
    ensures
        stripped(s).len() == s.len(),
{
    lemma_stripped_of_length(s, spoof_patterns().len());
}

proof fn lemma_stripped_of_length(s: Seq<char>, n: nat)
    requires
        n <= spoof_patterns().len(),
    ensures
        stripped_of(s, n).len() == s.len(),
    decreases n,
{
    if n > 0 {
        lemma_stripped_of_length(s, (n - 1) as nat);
        let before = stripped_of(s, (n - 1) as nat);
        let p = spoof_patterns()[n - 1];
        lemma_spoof_pattern(n - 1);
        lemma_no_overlap(before, p, spoof_head(n - 1));
        assert forall|i: int| folded_at(before, p, i) && i < 0 implies i + p.len() <= 0 by {}
        lemma_replaced_pointwise(before, p, neutral(p), 0);
    }
}

/// No opening bracket stands in an attribute.
proof fn lemma_attr_text_plain(s: Seq<char>)
    ensures
        forall|i: int| 0 <= i < attr_text(s).len() ==> attr_text(s)[i] != '<',
        (forall|i: int| 0 <= i < s.len() ==> s[i] != '\n') ==> forall|i: int|
            0 <= i < attr_text(s).len() ==> attr_text(s)[i] != '\n',
    decreases s.len(),
{
    reveal_strlit("&quot;");
    reveal_strlit("&lt;");
    reveal_strlit("&gt;");
    if s.len() > 0 {
        lemma_attr_text_plain(s.drop_last());
        let a = attr_text(s.drop_last());
        let b = attr_char(s.last());
        if forall|i: int| 0 <= i < s.len() ==> s[i] != '\n' {
            assert forall|i: int| 0 <= i < s.drop_last().len() implies s.drop_last()[i] != '\n' by {
                assert(s.drop_last()[i] == s[i]);
            }
            assert forall|i: int| 0 <= i < attr_text(s).len() implies attr_text(s)[i] != '\n' by {
                if i < a.len() {
                    assert(attr_text(s)[i] == a[i]);
                } else {
                    assert(attr_text(s)[i] == b[i - a.len()]);
                }
            }
        }
        assert forall|i: int| 0 <= i < attr_text(s).len() implies attr_text(s)[i] != '<' by {
            if i < a.len() {
                assert(attr_text(s)[i] == a[i]);
            } else {
                assert(attr_text(s)[i] == b[i - a.len()]);
            }
        }
    }
}

/// The marker lines hold opening brackets at their head only.
pub(crate) proof fn lemma_marker_lines(nonce: Seq<char>, source_url: Seq<char>)
    requires
        is_uuid_text(nonce),
    ensures
        wrap_header(nonce, source_url).len() > 3,
        wrap_header(nonce, source_url)[3] == 'U',
        forall|i: int|
            3 <= i < wrap_header(nonce, source_url).len() ==> wrap_header(nonce, source_url)[i]
                != '<',
        wrap_footer(nonce).len() > 3,
        wrap_footer(nonce)[3] == 'E',
        forall|i: int| 3 <= i < wrap_footer(nonce).len() ==> wrap_footer(nonce)[i] != '<',
        (forall|i: int| 0 <= i < source_url.len() ==> source_url[i] != '\n') ==> forall|i: int|
            0 <= i < wrap_header(nonce, source_url).len() ==> wrap_header(nonce, source_url)[i]
                != '\n',
{
    reveal_strlit("<<<UNTRUSTED_WEB_CONTENT:");
    reveal_strlit("<<<END_UNTRUSTED_WEB_CONTENT:");
    reveal_strlit(" source=\"");
    reveal_strlit("\">>>");
    reveal_strlit(">>>");
    lemma_attr_text_plain(source_url);
}

/// A marker pattern stands in a wrapped text at its very beginning or at the head of its
/// last line, and nowhere else.
proof fn lemma_marker_places(
    nonce: Seq<char>,
    source_url: Seq<char>,
    body: Seq<char>,
    k: int,
    i: int,
)
    requires
        is_uuid_text(nonce),
        k == 6 || k == 7,
        folded_at(wrapped(nonce, source_url, body), spoof_patterns()[k], i),
    ensures
        i == 0 || i == wrap_header(nonce, source_url).len() + stripped(body).len() + 2,
        i == 0 ==> k == 6,
        i != 0 ==> k == 7,
{
    let w = wrapped(nonce, source_url, body);
    let q = spoof_patterns()[k];
    let lw = ascii_lower(w);
    let lq = ascii_lower(q);
    let header = wrap_header(nonce, source_url);
    let clean = stripped(body);
    let footer = wrap_footer(nonce);
    let h = header.len() as int;
    let f = h + clean.len() + 2;
    reveal_strlit("\n");
    reveal_strlit("<<<UNTRUSTED_WEB_CONTENT:");
    reveal_strlit("<<<END_UNTRUSTED_WEB_CONTENT:");
    lemma_spoof_pattern(k);
    lemma_marker_lines(nonce, source_url);
    law_stripped_holds_no_pattern(body);
    assert forall|t: int| 0 <= t < q.len() implies lw[i + t] == lq[t] by {
        assert(lw.subrange(i, i + lq.len())[t] == lq[t]);
    }
    assert(lw[i] == lq[0] && lw[i + 1] == lq[1] && lw[i + 2] == lq[2] && lw[i + 3] == lq[3]) by {
        assert(lw[i + 0] == lq[0]);
    }
    assert(lw[i] == '<');
    assert(w[i] == '<' && w[i + 1] == '<' && w[i + 2] == '<');
    if i < h {
        assert(w[i] == header[i]);
        if i > 0 {
            assert(w[3] == header[3]);
        } else {
            assert(w[3] == header[3]);
            assert(lw[3] == 'u');
        }
    } else if i == h || i == f - 1 {
        assert(w[i] == '\n');
    } else if i < f {
        let b = i - h - 1;
        if b + q.len() <= clean.len() {
            assert forall|t: int| 0 <= t < q.len() implies ascii_lower(clean)[b + t] == lq[t] by {
                assert(lw[i + t] == lq[t]);
                assert(w[i + t] == clean[b + t]);
            }
            assert(ascii_lower(clean).subrange(b, b + lq.len()) =~= lq);
            assert(has_at(ascii_lower(clean), lq, b));
            assert(occurs_folded(clean, q));
        } else {
            let t = f - 1 - i;
            assert(w[f - 1] == '\n');
            assert(lw[i + t] == lq[t]);
        }
    } else {
        assert(w[i] == footer[i - f]);
        assert(w[f + 3] == footer[3]);
        if i > f {
            assert(i - f < 3);
        } else {
            assert(lw[f + 3] == 'e');
        }
    }
}

/// A wrapped text holds the closing marker once, at the head of its last line, whatever the
/// page held.
pub proof fn law_wrapped_closes_once(nonce: Seq<char>, source_url: Seq<char>, body: Seq<char>)
    requires
        is_uuid_text(nonce),
    ensures
        forall|i: int| #[trigger]
            folded_at(
                wrapped(nonce, source_url, body),
                "<<<END_UNTRUSTED_WEB_CONTENT:"@,
                i,
            ) <==> i == wrap_header(nonce, source_url).len() + stripped(body).len() + 2,
{
    let w = wrapped(nonce, source_url, body);
    let q = "<<<END_UNTRUSTED_WEB_CONTENT:"@;
    let f: int = wrap_header(nonce, source_url).len() + stripped(body).len() + 2int;
    reveal_strlit("\n");
    assert(spoof_patterns()[7] == q);
    assert forall|i: int| #[trigger] folded_at(w, q, i) implies i == f by {
        lemma_marker_places(nonce, source_url, body, 7, i);
    }
    assert(w.subrange(f, f + q.len()) =~= q);
    assert(ascii_lower(w).subrange(f, f + q.len()) =~= ascii_lower(q));
    assert(folded_at(w, q, f));
}

/// A wrapped text holds the opening marker once, at its very beginning, whatever the page
/// held.
pub proof fn law_wrapped_opens_once(nonce: Seq<char>, source_url: Seq<char>, body: Seq<char>)
    requires
        is_uuid_text(nonce),
    ensures
        forall|i: int| #[trigger]
            folded_at(wrapped(nonce, source_url, body), "<<<UNTRUSTED_WEB_CONTENT:"@, i) <==> i
                == 0,
{
    let w = wrapped(nonce, source_url, body);
    let q = "<<<UNTRUSTED_WEB_CONTENT:"@;
    assert(spoof_patterns()[6] == q);
    assert forall|i: int| #[trigger] folded_at(w, q, i) implies i == 0 by {
        lemma_marker_places(nonce, source_url, body, 6, i);
    }
    assert(w.subrange(0, q.len() as int) =~= q);
    assert(ascii_lower(w).subrange(0, q.len() as int) =~= ascii_lower(q));
    assert(folded_at(w, q, 0));
}

/// A wrapped text holds no other tag that could pass for a marker or a control tag, in any
/// ASCII case, whatever the page and its address held.
pub proof fn law_wrapped_holds_no_other_pattern(
    nonce: Seq<char>,
    source_url: Seq<char>,
    body: Seq<char>,
)
    requires
        is_uuid_text(nonce),
    ensures
        forall|k: int|
            0 <= k < 6 ==> !occurs_folded(
                wrapped(nonce, source_url, body),
                #[trigger] spoof_patterns()[k],
            ),
{
    let w = wrapped(nonce, source_url, body);
    assert forall|k: int| 0 <= k < 6 implies !occurs_folded(w, #[trigger] spoof_patterns()[k]) by {
        let q = spoof_patterns()[k];
        if occurs_folded(w, q) {
            let i = choose|i: int| has_at(ascii_lower(w), ascii_lower(q), i);
            lemma_no_other_pattern_at(nonce, source_url, body, k, i);
        }
    }
}

proof fn lemma_no_other_pattern_at(
    nonce: Seq<char>,
    source_url: Seq<char>,
    body: Seq<char>,
    k: int,
    i: int,
)
    requires
        is_uuid_text(nonce),
        0 <= k < 6,
    ensures
        !folded_at(wrapped(nonce, source_url, body), spoof_patterns()[k], i),
{
    if folded_at(wrapped(nonce, source_url, body), spoof_patterns()[k], i) {
        let w = wrapped(nonce, source_url, body);
        let q = spoof_patterns()[k];
        let lw = ascii_lower(w);
        let lq = ascii_lower(q);
        let header = wrap_header(nonce, source_url);
        let clean = stripped(body);
        let footer = wrap_footer(nonce);
        let h = header.len() as int;
        let f = h + clean.len() + 2;
        reveal_strlit("\n");
        reveal_strlit("<system>");
        reveal_strlit("</system>");
        reveal_strlit("<tool_use>");
        reveal_strlit("</tool_use>");
        reveal_strlit("<untrusted-web-content");
        reveal_strlit("</untrusted-web-content>");
        reveal_strlit("<<<UNTRUSTED_WEB_CONTENT:");
        reveal_strlit("<<<END_UNTRUSTED_WEB_CONTENT:");
        lemma_spoof_pattern(k);
        lemma_marker_lines(nonce, source_url);
        law_stripped_holds_no_pattern(body);
        assert forall|t: int| 0 <= t < q.len() implies lw[i + t] == lq[t] by {
            assert(lw.subrange(i, i + lq.len())[t] == lq[t]);
        }
        assert(lw[i + 0] == lq[0] && lw[i + 1] == lq[1]);
        assert(w[i] == '<' && w[i + 1] != '<');
        if i < h {
            assert(w[i] == header[i]);
            assert(w[1] == header[1] && w[2] == header[2] && w[3] == header[3]);
            assert(i == 2);
            assert(lw[3] == 'u');
            assert(k == 4);
            assert(lw[i + 10] == lq[10]);
            assert(w[12] == header[12]);
            assert(header[12] == '_');
        } else if i == h || i == f - 1 {
            assert(w[i] == '\n');
        } else if i < f {
            let b = i - h - 1;
            if b + q.len() <= clean.len() {
                assert forall|t: int| 0 <= t < q.len() implies ascii_lower(clean)[b + t] == lq[t] by {
                    assert(lw[i + t] == lq[t]);
                    assert(w[i + t] == clean[b + t]);
                }
                assert(ascii_lower(clean).subrange(b, b + lq.len()) =~= lq);
                assert(has_at(ascii_lower(clean), lq, b));
                assert(occurs_folded(clean, q));
            } else {
                let t = f - 1 - i;
                assert(w[f - 1] == '\n');
                assert(lw[i + t] == lq[t]);
                lemma_lower_keeps_brackets(q, t);
            }
        } else {
            assert(w[i] == footer[i - f]);
            assert(w[f + 1] == footer[1] && w[f + 2] == footer[2] && w[f + 3] == footer[3]);
            assert(i == f + 2);
            assert(lw[f + 3] == 'e');
        }
    }
}

/// A text in a quoted attribute is the text with its quotes and angle brackets written out, one
/// character after the other.
pub proof fn law_attributes_are_escaped_one_by_one(a: Seq<char>, b: Seq<char>, c: char)
    ensures
        attr_text(a + b) == attr_text(a) + attr_text(b),
        c != '"' && c != '<' && c != '>' ==> attr_text(seq![c]) == seq![c],
        attr_text(seq!['"']) == "&quot;"@,
        attr_text(seq!['<']) == "&lt;"@,
        attr_text(seq!['>']) == "&gt;"@,
    decreases b.len(),
{
    lemma_attr_of_one(c);
    lemma_attr_of_one('"');
    lemma_attr_of_one('<');
    lemma_attr_of_one('>');
    if b.len() == 0 {
        assert(a + b =~= a);
        assert(attr_text(a) + attr_text(b) =~= attr_text(a));
    } else {
        law_attributes_are_escaped_one_by_one(a, b.drop_last(), c);
        assert((a + b).drop_last() =~= a + b.drop_last());
        assert((attr_text(a) + attr_text(b.drop_last())) + attr_char(b.last()) =~= attr_text(a) + (
        attr_text(b.drop_last()) + attr_char(b.last())));
    }
}

proof fn lemma_attr_of_one(c: char)
    ensures
        attr_text(seq![c]) == attr_char(c),
{
    let one = seq![c];
    assert(one.drop_last() =~= Seq::<char>::empty());
    assert(attr_text(one.drop_last()) =~= Seq::<char>::empty());
    assert(one.last() == c);
    assert(Seq::<char>::empty() + attr_char(c) =~= attr_char(c));
}

/// A wrapped text is the opening marker with the nonce and the address, the body without its
/// spoofed tags on lines of its own, and the closing marker with the same nonce.
pub proof fn law_wrapped_texts_have_their_markers(
    nonce: Seq<char>,
    source_url: Seq<char>,
    body: Seq<char>,
)
    ensures
        wrapped(nonce, source_url, body) == joined(
            seq![
                "<<<UNTRUSTED_WEB_CONTENT:"@ + nonce + " source=\""@ + attr_text(source_url)
                    + "\">>>"@,
                stripped(body),
                "<<<END_UNTRUSTED_WEB_CONTENT:"@ + nonce + ">>>"@,
            ],
            "\n"@,
        ),
{
    let parts = seq![wrap_header(nonce, source_url), stripped(body), wrap_footer(nonce)];
    let two = parts.drop_last();
    let one = two.drop_last();
    assert(two =~= seq![wrap_header(nonce, source_url), stripped(body)]);
    assert(one =~= seq![wrap_header(nonce, source_url)]);
    assert(joined(one, "\n"@) == wrap_header(nonce, source_url));
    assert(joined(two, "\n"@) == wrap_header(nonce, source_url) + "\n"@ + stripped(body));
    assert(parts.last() == wrap_footer(nonce));
    assert(joined(parts, "\n"@) == joined(two, "\n"@) + "\n"@ + wrap_footer(nonce));
}

/// A text with small letters and fullwidth angle brackets.
pub open spec fn levelled(s: Seq<char>) -> Seq<char> {
    ascii_lower(neutral(s))
}

proof fn lemma_replacing_levels(s: Seq<char>, needle: Seq<char>, from: int)
    requires
        0 <= from <= s.len(),
    ensures
        levelled(replaced_folded(s, needle, neutral(needle), from)) == levelled(s.skip(from)),
    decreases s.len() - from,
{
    match first_at(ascii_lower(s), ascii_lower(needle), from) {
        Some(at) => {
            if 0 <= from <= at && needle.len() > 0 && at + needle.len() <= s.len() {
                let end = at + needle.len() as int;
                lemma_first_at(ascii_lower(s), ascii_lower(needle), from);
                lemma_replacing_levels(s, needle, end);
                let rest = replaced_folded(s, needle, neutral(needle), end);
                let out = s.subrange(from, at) + neutral(needle) + rest;
                let back = s.skip(from);
                assert(levelled(rest).len() == levelled(s.skip(end)).len());
                assert(out.len() == back.len());
                assert forall|k: int| 0 <= k < out.len() implies levelled(out)[k] == levelled(
                    back,
                )[k] by {
                    if k < at - from {
                        assert(out[k] == s[from + k]);
                    } else if k < end - from {
                        let j = k - (at - from);
                        assert(out[k] == neutral_char(needle[j]));
                        assert(ascii_lower(s).subrange(at, end)[j] == ascii_lower(needle)[j]);
                        assert(crate::text::ascii_lower_char(s[at + j])
                            == crate::text::ascii_lower_char(needle[j]));
                    } else {
                        let j = k - (end - from);
                        assert(out[k] == rest[j]);
                        assert(levelled(rest)[j] == levelled(s.skip(end))[j]);
                        assert(s.skip(end)[j] == back[k]);
                    }
                }
                assert(levelled(out) =~= levelled(back));
            }
        },
        None => {},
    }
}

/// To strip a text changes nothing but the angle brackets and the letters' case inside the tags:
/// with small letters and fullwidth brackets throughout, it is the same text as before.
pub proof fn law_stripping_changes_brackets_alone(s: Seq<char>)
    ensures
        levelled(stripped(s)) == levelled(s),
{
    lemma_stripping_levels(s, spoof_patterns().len());
}

proof fn lemma_stripping_levels(s: Seq<char>, n: nat)
    ensures
        levelled(stripped_of(s, n)) == levelled(s),
    decreases n,
{
    if n > 0 {
        let before = stripped_of(s, (n - 1) as nat);
        lemma_stripping_levels(s, (n - 1) as nat);
        lemma_replacing_levels(before, spoof_patterns()[n - 1], 0);
        assert(before.skip(0) =~= before);
    }
}

/// Fullwidth angle brackets take the place of the plain ones, and nothing else changes.
pub proof fn law_neutral_texts_keep_the_rest(s: Seq<char>, i: int)
    requires
        0 <= i < s.len(),
    ensures
        neutral(s).len() == s.len(),
        s[i] == '<' ==> neutral(s)[i] as u32 == 0xFF1C,
        s[i] == '>' ==> neutral(s)[i] as u32 == 0xFF1E,
        s[i] != '<' && s[i] != '>' ==> neutral(s)[i] == s[i],
{
}

/// The JSON form of an envelope says whether it is trusted, where and when it comes from and by
/// which tool and service, its content and the identifier of its audit entry; the stored evidence
/// and the diagnostics where it has them, and only there.
pub proof fn law_envelopes_say_all_they_hold(e: EnvelopeView, d: JsonView)
    ensures
        ({
            let v = envelope_json(e);
            let source = source_json(e.source);
            &&& says(v, "trust"@, JsonView::Text(e.trust))
            &&& says(v, "source"@, source)
            &&& says(source, "url"@, JsonView::Text(e.source.url))
            &&& says(source, "fetched_at"@, JsonView::Text(e.source.fetched_at))
            &&& says(source, "tool"@, JsonView::Text(e.source.tool))
            &&& says(source, "provider"@, JsonView::Text(e.source.provider))
            &&& says(v, "content"@, e.content)
            &&& says(v, "audit_id"@, JsonView::Text(e.audit_id))
            &&& e.diagnostics is Some ==> says(v, "diagnostics"@, e.diagnostics->0)
            &&& e.diagnostics is None ==> !says(v, "diagnostics"@, d)
            &&& e.provenance is None ==> !says(v, "provenance"@, d)
            &&& e.provenance is Some ==> {
                let p = provenance_json(e.provenance->0);
                &&& says(v, "provenance"@, p)
                &&& says(p, "fetch_id"@, JsonView::Text(e.provenance->0.fetch_id))
                &&& says(p, "content_hash"@, JsonView::Text(e.provenance->0.content_hash))
            }
        }),
{
    let v = envelope_json(e);
    lemma_says(v);
    let m = v->Object_0;
    let n = m.len() as int;
    assert(m[0].0 == "trust"@ && m[1].0 == "source"@ && m[n - 1].0 == "audit_id"@);
    let k: int = if e.provenance is Some {
        3
    } else {
        2
    };
    assert(m[k] == ("content"@, e.content));
    if e.diagnostics is Some {
        assert(m[k + 1] == ("diagnostics"@, e.diagnostics->0));
    }
    let source = source_json(e.source);
    lemma_says(source);
    let s = source->Object_0;
    assert(s[0].0 == "url"@ && s[1].0 == "fetched_at"@ && s[2].0 == "tool"@ && s[3].0
        == "provider"@);
    if e.provenance is Some {
        let p = provenance_json(e.provenance->0);
        assert(m[2] == ("provenance"@, p));
        lemma_says(p);
        assert(p->Object_0[0].0 == "fetch_id"@ && p->Object_0[1].0 == "content_hash"@);
    }
    reveal_strlit("trust");
    reveal_strlit("source");
    reveal_strlit("content");
    reveal_strlit("audit_id");
    reveal_strlit("diagnostics");
    reveal_strlit("provenance");
    assert("trust"@.len() == 5 && "source"@.len() == 6 && "content"@.len() == 7 && "audit_id"@.len()
        == 8 && "diagnostics"@.len() == 11 && "provenance"@.len() == 10);
    assert(forall|i: int|
        0 <= i < n ==> #[trigger] m[i] == m[0] || m[i] == m[1] || m[i] == m[k] || m[i] == m[n - 1]
            || (e.provenance is Some && i == 2) || (e.diagnostics is Some && i == k + 1));
}

/// The JSON form of an error says its kind, its reason, its detail and the identifier of its
/// audit entry, which is null where there is none.
pub proof fn law_errors_say_all_they_hold(e: ErrorView)
    ensures
        ({
            let inner = error_json(e)->Object_0[0].1;
            &&& says(error_json(e), "error"@, inner)
            &&& says(inner, "kind"@, JsonView::Text(e.kind))
            &&& says(inner, "reason"@, JsonView::Text(e.reason))
            &&& says(inner, "detail"@, JsonView::Text(e.detail))
            &&& says(
                inner,
                "audit_id"@,
                match e.audit_id {
                    Some(id) => JsonView::Text(id),
                    None => JsonView::Null,
                },
            )
        }),
{
    let v = error_json(e);
    lemma_says(v);
    let inner = v->Object_0[0].1;
    assert(v->Object_0[0].0 == "error"@);
    lemma_says(inner);
    let m = inner->Object_0;
    assert(m[0].0 == "kind"@ && m[1].0 == "reason"@ && m[2].0 == "detail"@ && m[3].0
        == "audit_id"@);
}

} // verus!
