//! Reading what was fetched: the stored page, matches in it, and quotes of it.
use vstd::prelude::*;
use vstd::utf8::{encode_scalar, encode_utf8};

use crate::envelope::{Provenance, ProvenanceView, Source, SourceView, UntrustedEnvelope};
use crate::json::{lemma_says, member_views, says, views, Json, JsonView};
use crate::mcp::domain::{WebFindInFetchArgs, WebVerifyQuoteArgs};
use crate::mcp::outcome::{
    audit_of, envelope_reply, refuse, refused, Call, CallView, Outcome, OutcomeView, Reply,
};
use crate::store::{rfc3339, rfc3339_text, FetchRecord, FetchView};
use crate::text::{
    byte_len, chars_of, find_from, first_at, has_at, lemma_first_at, lemma_utf8_len_concat, occurs,
    opt_text, same_text, slice_text, utf8_len,
};

verus! {

// ---------------------------------------------------------------------------
// Positions
// ---------------------------------------------------------------------------
/// The byte at which a character of a text begins.
pub open spec fn byte_at(s: Seq<char>, i: int) -> nat {
    utf8_len(s.take(i))
}

/// The positions at which a text stands in another, from one position on, without overlaps, up
/// to some number of them.
pub open spec fn match_starts(s: Seq<char>, p: Seq<char>, from: int, limit: nat) -> Seq<int>
    decreases limit,
{
    if limit == 0 {
        Seq::empty()
    } else {
        match first_at(s, p, from) {
            Some(i) => seq![i] + match_starts(
                s,
                p,
                if p.len() == 0 {
                    i + 1
                } else {
                    i + p.len()
                },
                (limit - 1) as nat,
            ),
            None => Seq::empty(),
        }
    }
}

/// A match with its context: up to some number of characters on either side of it.
pub open spec fn excerpt_at(s: Seq<char>, p: Seq<char>, i: int, context: int) -> Seq<char> {
    let low = if i >= context {
        i - context
    } else {
        0
    };
    let high = if i + p.len() + context <= s.len() {
        i + p.len() + context
    } else {
        s.len() as int
    };
    s.subrange(low, high)
}

/// The JSON form of a match.
pub open spec fn match_json(s: Seq<char>, p: Seq<char>, i: int, context: int) -> JsonView {
    JsonView::Object(
        seq![
            ("byte_offset"@, JsonView::Unsigned(byte_at(s, i) as u64)),
            ("excerpt"@, JsonView::Text(excerpt_at(s, p, i, context))),
        ],
    )
}

/// The JSON forms of the first matches.
pub open spec fn matches_json(s: Seq<char>, p: Seq<char>, limit: nat, context: int) -> Seq<
    JsonView,
> {
    match_starts(s, p, 0, limit).map_values(|i: int| match_json(s, p, i, context))
}

proof fn lemma_byte_at(s: Seq<char>, i: int, j: int)
    requires
        0 <= i <= j <= s.len(),
    ensures
        byte_at(s, j) == byte_at(s, i) + utf8_len(s.subrange(i, j)),
        byte_at(s, 0) == 0,
        byte_at(s, s.len() as int) == utf8_len(s),
{
    assert(s.take(j) =~= s.take(i) + s.subrange(i, j));
    lemma_utf8_len_concat(s.take(i), s.subrange(i, j));
    assert(s.take(s.len() as int) =~= s);
    assert(encode_utf8(s.take(0)).len() == 0);
}

fn char_width(c: char) -> (res: usize)
    ensures
        res == encode_scalar(c as u32).len(),
        res == utf8_len(seq![c]),
{
    proof {
        let one = seq![c];
        assert(one.drop_first() =~= Seq::empty());
        assert(encode_utf8(one.drop_first()).len() == 0);
        assert(encode_utf8(one) =~= encode_scalar(c as u32));
    }
    let n: u32 = c as u32;
    if n < 0x80 {
        1
    } else if n < 0x800 {
        2
    } else if n < 0x10000 {
        3
    } else {
        4
    }
}

/// The byte at which each character of a text begins, and the byte at which the text ends.
spec fn offsets_of(s: Seq<char>, offsets: Seq<usize>) -> bool {
    &&& offsets.len() == s.len() + 1
    &&& forall|i: int| 0 <= i <= s.len() ==> #[trigger] offsets[i] == byte_at(s, i)
}

fn byte_offsets(s: &str, v: &Vec<char>) -> (res: Vec<usize>)
    requires
        v@ == s@,
    ensures
        offsets_of(s@, res@),
{
    let total: usize = byte_len(s);
    let mut out: Vec<usize> = Vec::new();
    let mut at: usize = 0;
    let mut i: usize = 0;
    out.push(0);
    proof {
        lemma_byte_at(s@, 0, 0);
    }
    while i < v.len()
        invariant
            v@ == s@,
            total == utf8_len(s@),
            i <= v@.len(),
            at == byte_at(s@, i as int),
            out@.len() == i + 1,
            forall|k: int| 0 <= k <= i ==> #[trigger] out@[k] == byte_at(s@, k),
        decreases v@.len() - i,
    {
        proof {
            lemma_byte_at(s@, i as int, i + 1);
            lemma_byte_at(s@, i + 1, s@.len() as int);
            assert(s@.subrange(i as int, i + 1) =~= seq![s@[i as int]]);
        }
        at = at + char_width(v[i]);
        out.push(at);
        i = i + 1;
    }
    out
}

spec fn ends_in(s: Seq<char>, p: Seq<char>, starts: Seq<usize>) -> bool {
    forall|k: int|
        0 <= k < starts.len() ==> has_at(s, p, #[trigger] starts[k] as int)
}

spec fn as_ints(s: Seq<usize>) -> Seq<int> {
    s.map_values(|i: usize| i as int)
}

/// The positions of the first matches.
fn find_matches(v: &Vec<char>, p: &Vec<char>, limit: usize) -> (res: Vec<usize>)
    ensures
        as_ints(res@) == match_starts(v@, p@, 0, limit as nat),
        ends_in(v@, p@, res@),
{
    let total: usize = v.len();
    let width: usize = p.len();
    let ghost goal = match_starts(v@, p@, 0, limit as nat);
    let mut out: Vec<usize> = Vec::new();
    let mut from: usize = 0;
    let mut left: usize = limit;
    let mut open = true;
    assert(as_ints(out@) + goal =~= goal);
    while open && left > 0
        invariant
            total == v@.len(),
            width == p@.len(),
            left <= limit,
            ends_in(v@, p@, out@),
            open ==> goal == as_ints(out@) + match_starts(v@, p@, from as int, left as nat),
            !open ==> goal == as_ints(out@),
        decreases left + if open { 1nat } else { 0nat },
    {
        let ghost before = out@;
        match find_from(v, p, from) {
            Some(i) => {
                out.push(i);
                proof {
                    lemma_first_at(v@, p@, from as int);
                    let step = if p@.len() == 0 {
                        i + 1
                    } else {
                        i + p@.len()
                    };
                    assert(as_ints(out@) =~= as_ints(before).push(i as int));
                    assert(as_ints(before) + (seq![i as int] + match_starts(
                        v@,
                        p@,
                        step as int,
                        (left - 1) as nat,
                    )) =~= as_ints(out@) + match_starts(v@, p@, step as int, (left - 1) as nat));
                }
                if width == 0 {
                    if i == total {
                        proof {
                            assert(first_at(v@, p@, i + 1) is None);
                            assert(match_starts(v@, p@, i + 1, (left - 1) as nat)
                                =~= Seq::empty());
                            assert(goal =~= as_ints(out@));
                        }
                        open = false;
                    } else {
                        from = i + 1;
                    }
                } else {
                    from = i + width;
                }
                left = left - 1;
            },
            None => {
                proof {
                    assert(match_starts(v@, p@, from as int, left as nat) =~= Seq::empty());
                    assert(goal =~= as_ints(out@));
                }
                open = false;
            },
        }
    }
    proof {
        if open {
            assert(match_starts(v@, p@, from as int, left as nat) =~= Seq::empty());
            assert(goal =~= as_ints(out@));
        }
    }
    out
}

fn excerpt_value(
    v: &Vec<char>,
    offsets: &Vec<usize>,
    p: &Vec<char>,
    i: usize,
    context: usize,
) -> (res: Json)
    requires
        offsets_of(v@, offsets@),
        has_at(v@, p@, i as int),
    ensures
        res@ == match_json(v@, p@, i as int, context as int),
{
    let total: usize = v.len();
    let low: usize = if i >= context {
        i - context
    } else {
        0
    };
    let end: usize = i + p.len();
    let high: usize = if context <= total - end {
        end + context
    } else {
        total
    };
    let members = vec![
        Json::field("byte_offset", Json::Unsigned(offsets[i] as u64)),
        Json::field("excerpt", Json::Text(slice_text(v, low, high))),
    ];
    assert(member_views(members@) =~= match_json(v@, p@, i as int, context as int)->Object_0);
    Json::object(members)
}

/// The first matches of a text in another, each with its byte offset and its context.
pub fn excerpts(body: &str, needle: &str, limit: usize, context: usize) -> (res: Vec<Json>)
    ensures
        views(res@) == matches_json(body@, needle@, limit as nat, context as int),
{
    let v = chars_of(body);
    let p = chars_of(needle);
    let offsets = byte_offsets(body, &v);
    let starts = find_matches(&v, &p, limit);
    let ghost all = match_starts(body@, needle@, 0, limit as nat);
    let mut out: Vec<Json> = Vec::new();
    let mut k: usize = 0;
    while k < starts.len()
        invariant
            v@ == body@,
            p@ == needle@,
            offsets_of(v@, offsets@),
            k <= starts@.len(),
            ends_in(v@, p@, starts@),
            all == as_ints(starts@),
            out@.len() == k,
            forall|j: int|
                0 <= j < k ==> (#[trigger] out@[j])@ == match_json(
                    body@,
                    needle@,
                    all[j],
                    context as int,
                ),
        decreases starts@.len() - k,
    {
        assert(has_at(v@, p@, starts@[k as int] as int));
        out.push(excerpt_value(&v, &offsets, &p, starts[k], context));
        k = k + 1;
    }
    assert(views(out@) =~= matches_json(body@, needle@, limit as nat, context as int));
    out
}

// ---------------------------------------------------------------------------
// Answers
// ---------------------------------------------------------------------------
/// The content of an answer about a stored page.
pub open spec fn content_of(record: FetchView, derived: JsonView, whole: bool) -> JsonView {
    let members = seq![
        ("fetch_id"@, JsonView::Text(record.fetch_id)),
        ("content_hash"@, JsonView::Text(record.content_hash)),
        ("requested_url"@, JsonView::Text(record.requested_url)),
        ("final_url"@, JsonView::Text(record.final_url)),
        ("bytes"@, JsonView::Unsigned(record.bytes)),
        ("truncated"@, JsonView::Bool(record.truncated)),
        ("derived"@, derived),
    ];
    JsonView::Object(
        if whole {
            members.push(("content_markdown"@, JsonView::Text(record.content_markdown)))
        } else {
            members
        },
    )
}

/// The content of an answer about a stored page; the page itself only where it is asked for.
pub fn evidence_content(record: &FetchRecord, derived: Json, include_stored_content: bool) -> (res:
    Json)
    ensures
        res@ == content_of(record@, derived@, include_stored_content),
{
    let mut members = vec![
        Json::field("fetch_id", Json::text(&record.fetch_id)),
        Json::field("content_hash", Json::text(&record.content_hash)),
        Json::field("requested_url", Json::text(&record.requested_url)),
        Json::field("final_url", Json::text(&record.final_url)),
        Json::field("bytes", Json::Unsigned(record.bytes)),
        Json::field("truncated", Json::Bool(record.truncated)),
        Json::field("derived", derived),
    ];
    if include_stored_content {
        members.push(Json::field("content_markdown", Json::text(&record.content_markdown)));
    }
    assert(member_views(members@) =~= content_of(record@, derived@, include_stored_content)->Object_0);
    Json::object(members)
}

/// A call about a stored page, as it is recorded.
pub open spec fn evidence_call(
    tool: Seq<char>,
    fetch_id: Seq<char>,
    audit_id: Seq<char>,
    now: i64,
) -> CallView {
    CallView {
        tool,
        args: JsonView::Object(seq![("fetch_id"@, JsonView::Text(fetch_id))]),
        audit_id,
        now,
    }
}

/// What a call about a stored page comes to.
pub open spec fn evidence_outcome(
    tool: Seq<char>,
    record: FetchView,
    derived: JsonView,
    whole: bool,
    audit_id: Seq<char>,
    now: i64,
) -> OutcomeView {
    OutcomeView {
        denial: None,
        call: Some((tool, "ok"@)),
        audit: Some(
            audit_of(
                evidence_call(tool, record.fetch_id, audit_id, now),
                "ok"@,
                None,
                Some(record.fetch_id),
            ),
        ),
        fetch: None,
        reply: envelope_reply(
            SourceView {
                url: record.final_url,
                fetched_at: rfc3339(record.completed_at),
                tool,
                provider: record.source_provider,
            },
            Some(
                ProvenanceView {
                    fetch_id: record.fetch_id,
                    content_hash: record.content_hash,
                },
            ),
            content_of(record, derived, whole),
            audit_id,
        ),
    }
}

fn evidence_response(
    tool: &'static str,
    record: &FetchRecord,
    derived: Json,
    whole: bool,
    audit_id: String,
    now: i64,
) -> (res: Outcome)
    ensures
        res@ == evidence_outcome(tool@, record@, derived@, whole, audit_id@, now),
{
    let args = vec![Json::field("fetch_id", Json::text(&record.fetch_id))];
    assert(member_views(args@) =~= seq![("fetch_id"@, JsonView::Text(record.fetch_id@))]);
    let call = Call { tool, args: Json::object(args), audit_id: audit_id.clone(), now };
    let audit = call.audit("ok", None, Some(record.fetch_id.clone()));
    let source = Source {
        url: record.final_url.clone(),
        fetched_at: rfc3339_text(record.completed_at),
        tool: tool.to_owned(),
        provider: record.source_provider.clone(),
    };
    let provenance = Provenance {
        fetch_id: record.fetch_id.clone(),
        content_hash: record.content_hash.clone(),
    };
    let content = evidence_content(record, derived, whole);
    Outcome {
        denial: None,
        call: Some((tool.to_owned(), "ok".to_owned())),
        audit: Some(audit),
        fetch: None,
        reply: Reply::Envelope(
            UntrustedEnvelope::new_with_provenance(source, provenance, content, audit_id),
        ),
    }
}

/// The outcome of a call about a page that is not stored.
pub open spec fn unknown_fetch() -> OutcomeView {
    refused(
        "not_found"@,
        "unknown_fetch_id"@,
        "no stored evidence exists for this fetch_id"@,
        None,
    )
}

fn refuse_unknown() -> (res: Outcome)
    ensures
        res@ == unknown_fetch(),
{
    refuse(
        "not_found",
        "unknown_fetch_id",
        "no stored evidence exists for this fetch_id",
        None,
    )
}

/// The error of a store that cannot be read.
pub fn store_error(detail: &str) -> (res: Json)
    ensures
        res@ == JsonView::Object(
            seq![
                (
                    "error"@,
                    JsonView::Object(
                        seq![
                            ("kind"@, JsonView::Text("store_error"@)),
                            ("detail"@, JsonView::Text(detail@)),
                        ],
                    ),
                ),
            ],
        ),
{
    let payload = vec![
        Json::field("kind", Json::text("store_error")),
        Json::field("detail", Json::text(detail)),
    ];
    assert(member_views(payload@) =~= seq![
        ("kind"@, JsonView::Text("store_error"@)),
        ("detail"@, JsonView::Text(detail@)),
    ]);
    let members = vec![Json::field("error", Json::object(payload))];
    assert(member_views(members@) =~= seq![
        (
            "error"@,
            JsonView::Object(
                seq![
                    ("kind"@, JsonView::Text("store_error"@)),
                    ("detail"@, JsonView::Text(detail@)),
                ],
            ),
        ),
    ]);
    Json::object(members)
}

/// The view of a record that may be there.
pub open spec fn opt_record(o: Option<FetchRecord>) -> Option<FetchView> {
    match o {
        Some(r) => Some(r@),
        None => None,
    }
}

/// What loading a stored page comes to.
pub open spec fn get_outcome(record: Option<FetchView>, audit_id: Seq<char>, now: i64) -> OutcomeView {
    match record {
        None => unknown_fetch(),
        Some(r) => evidence_outcome("web_get_fetch"@, r, JsonView::Null, true, audit_id, now),
    }
}

/// Says what loading a stored page comes to.
pub fn finish_get(record: Option<FetchRecord>, audit_id: String, now: i64) -> (res: Outcome)
    ensures
        res@ == get_outcome(opt_record(record), audit_id@, now),
{
    match record {
        Some(r) => evidence_response("web_get_fetch", &r, Json::Null, true, audit_id, now),
        None => refuse_unknown(),
    }
}

/// The outcome of a search for nothing.
pub fn begin_find(args: &WebFindInFetchArgs) -> (res: Option<Outcome>)
    ensures
        match res {
            Some(outcome) => args.needle@.len() == 0 && outcome@ == refused(
                "invalid_argument"@,
                "empty_needle"@,
                "needle must not be empty"@,
                None,
            ),
            None => args.needle@.len() > 0,
        },
{
    let length: usize = chars_of(&args.needle).len();
    if length == 0 {
        Some(refuse("invalid_argument", "empty_needle", "needle must not be empty", None))
    } else {
        None
    }
}

/// A number that may be given, or else another, kept between two bounds.
pub open spec fn bounded(given: Option<usize>, usual: usize, low: usize, high: usize) -> usize {
    let n = match given {
        Some(n) => n,
        None => usual,
    };
    if n < low {
        low
    } else if n > high {
        high
    } else {
        n
    }
}

fn keep_between(given: Option<usize>, usual: usize, low: usize, high: usize) -> (res: usize)
    ensures
        res == bounded(given, usual, low, high),
{
    let n: usize = match given {
        Some(n) => n,
        None => usual,
    };
    if n < low {
        low
    } else if n > high {
        high
    } else {
        n
    }
}

/// What a search in a stored page finds.
pub open spec fn found_json(
    text: Seq<char>,
    needle: Seq<char>,
    max_matches: Option<usize>,
    context_chars: Option<usize>,
) -> JsonView {
    JsonView::Object(
        seq![
            ("needle"@, JsonView::Text(needle)),
            (
                "matches"@,
                JsonView::Array(
                    matches_json(
                        text,
                        needle,
                        bounded(max_matches, 10, 1, 50) as nat,
                        bounded(context_chars, 160, 0, 1000) as int,
                    ),
                ),
            ),
        ],
    )
}

/// What a search in a stored page comes to.
pub open spec fn find_outcome(
    args: WebFindInFetchArgs,
    record: Option<FetchView>,
    audit_id: Seq<char>,
    now: i64,
) -> OutcomeView {
    match record {
        None => unknown_fetch(),
        Some(r) => evidence_outcome(
            "web_find_in_fetch"@,
            r,
            found_json(r.content_markdown, args.needle@, args.max_matches, args.context_chars),
            false,
            audit_id,
            now,
        ),
    }
}

/// Says what a search in a stored page comes to.
pub fn finish_find(
    args: &WebFindInFetchArgs,
    record: Option<FetchRecord>,
    audit_id: String,
    now: i64,
) -> (res: Outcome)
    ensures
        res@ == find_outcome(*args, opt_record(record), audit_id@, now),
{
    let r = match record {
        Some(r) => r,
        None => {
            return refuse_unknown();
        },
    };
    let limit: usize = keep_between(args.max_matches, 10, 1, 50);
    let context: usize = keep_between(args.context_chars, 160, 0, 1000);
    let found = excerpts(&r.content_markdown, &args.needle, limit, context);
    let members = vec![
        Json::field("needle", Json::text(&args.needle)),
        Json::field("matches", Json::array(found)),
    ];
    assert(member_views(members@) =~= found_json(
        r.content_markdown@,
        args.needle@,
        args.max_matches,
        args.context_chars,
    )->Object_0);
    evidence_response("web_find_in_fetch", &r, Json::object(members), false, audit_id, now)
}

/// The outcome of a check of no quote.
pub fn begin_verify(args: &WebVerifyQuoteArgs) -> (res: Option<Outcome>)
    ensures
        match res {
            Some(outcome) => args.quote@.len() == 0 && outcome@ == refused(
                "invalid_argument"@,
                "empty_quote"@,
                "quote must not be empty"@,
                None,
            ),
            None => args.quote@.len() > 0,
        },
{
    let length: usize = chars_of(&args.quote).len();
    if length == 0 {
        Some(refuse("invalid_argument", "empty_quote", "quote must not be empty", None))
    } else {
        None
    }
}

/// The stored page is the one that is expected, where one is.
pub open spec fn hash_fits(expected: Option<Seq<char>>, record: FetchView) -> bool {
    expected matches Some(h) ==> h == record.content_hash
}

/// What a check of a quote finds: whether it stands in the page and the page is the expected
/// one, and where it stands, up to fifty times.
pub open spec fn verified_json(
    quote: Seq<char>,
    expected: Option<Seq<char>>,
    record: FetchView,
) -> JsonView {
    let text = record.content_markdown;
    let starts = match_starts(text, quote, 0, 51);
    let shown = starts.take(
        if starts.len() < 50 {
            starts.len() as int
        } else {
            50
        },
    );
    JsonView::Object(
        seq![
            ("verified"@, JsonView::Bool(hash_fits(expected, record) && starts.len() > 0)),
            ("hash_matches"@, JsonView::Bool(hash_fits(expected, record))),
            ("match_count"@, JsonView::Unsigned(shown.len() as u64)),
            (
                "match_offsets"@,
                JsonView::Array(
                    shown.map_values(|i: int| JsonView::Unsigned(byte_at(text, i) as u64)),
                ),
            ),
        ],
    )
}

/// What a check of a quote comes to.
pub open spec fn verify_outcome(
    args: WebVerifyQuoteArgs,
    record: Option<FetchView>,
    audit_id: Seq<char>,
    now: i64,
) -> OutcomeView {
    match record {
        None => unknown_fetch(),
        Some(r) => evidence_outcome(
            "web_verify_quote"@,
            r,
            verified_json(args.quote@, opt_text(args.expected_content_hash), r),
            false,
            audit_id,
            now,
        ),
    }
}

fn verify_value(args: &WebVerifyQuoteArgs, r: &FetchRecord) -> (res: Json)
    ensures
        res@ == verified_json(args.quote@, opt_text(args.expected_content_hash), r@),
{
    let hash_matches = match &args.expected_content_hash {
        Some(expected) => same_text(expected, &r.content_hash),
        None => true,
    };
    let v = chars_of(&r.content_markdown);
    let p = chars_of(&args.quote);
    let offsets = byte_offsets(&r.content_markdown, &v);
    let starts = find_matches(&v, &p, 51);
    let ghost all = match_starts(v@, p@, 0, 51);
    let shown: usize = if starts.len() < 50 {
        starts.len()
    } else {
        50
    };
    assert(all.len() == starts@.len());
    let ghost first = all.take(shown as int);
    let ghost goal = first.map_values(|i: int| JsonView::Unsigned(byte_at(v@, i) as u64));
    let mut items: Vec<Json> = Vec::new();
    let mut k: usize = 0;
    while k < shown
        invariant
            v@ == r.content_markdown@,
            offsets_of(v@, offsets@),
            ends_in(v@, p@, starts@),
            all == as_ints(starts@),
            shown <= starts@.len(),
            first == all.take(shown as int),
            goal == first.map_values(|i: int| JsonView::Unsigned(byte_at(v@, i) as u64)),
            k <= shown,
            items@.len() == k,
            forall|j: int| 0 <= j < k ==> (#[trigger] items@[j])@ == goal[j],
        decreases shown - k,
    {
        assert(has_at(v@, p@, starts@[k as int] as int));
        assert(first[k as int] == starts@[k as int]);
        let at: usize = starts[k];
        assert(offsets@[at as int] == byte_at(v@, at as int));
        items.push(Json::Unsigned(offsets[at] as u64));
        k = k + 1;
    }
    assert(views(items@) =~= goal);
    let members = vec![
        Json::field("verified", Json::Bool(hash_matches && starts.len() > 0)),
        Json::field("hash_matches", Json::Bool(hash_matches)),
        Json::field("match_count", Json::Unsigned(shown as u64)),
        Json::field("match_offsets", Json::array(items)),
    ];
    assert(member_views(members@) =~= verified_json(
        args.quote@,
        opt_text(args.expected_content_hash),
        r@,
    )->Object_0);
    Json::object(members)
}

/// Says what a check of a quote comes to.
pub fn finish_verify(
    args: &WebVerifyQuoteArgs,
    record: Option<FetchRecord>,
    audit_id: String,
    now: i64,
) -> (res: Outcome)
    ensures
        res@ == verify_outcome(*args, opt_record(record), audit_id@, now),
{
    match record {
        Some(r) => {
            let derived = verify_value(args, &r);
            evidence_response("web_verify_quote", &r, derived, false, audit_id, now)
        },
        None => refuse_unknown(),
    }
}

// ---------------------------------------------------------------------------
// Laws
// ---------------------------------------------------------------------------
/// A quote is verified if and only if it stands in the stored page letter for letter and the
/// page has the hash that is expected, where one is.
pub proof fn law_verified_quotes_are_exact(
    quote: Seq<char>,
    expected: Option<Seq<char>>,
    record: FetchView,
)
    ensures
        verified_json(quote, expected, record)->Object_0[0] == (
            "verified"@,
            JsonView::Bool(occurs(record.content_markdown, quote) && hash_fits(expected, record)),
        ),
{
    let text = record.content_markdown;
    lemma_first_at(text, quote, 0);
    let starts = match_starts(text, quote, 0, 51);
    match first_at(text, quote, 0) {
        Some(i) => {
            assert(has_at(text, quote, i));
            assert(starts.len() > 0);
        },
        None => {
            assert(starts =~= Seq::empty());
            if occurs(text, quote) {
                let i = choose|i: int| has_at(text, quote, i);
                assert(!has_at(text, quote, i));
            }
        },
    }
}

proof fn lemma_match_starts(s: Seq<char>, p: Seq<char>, from: int, limit: nat, k: int)
    requires
        0 <= from,
        0 <= k < match_starts(s, p, from, limit).len(),
    ensures
        has_at(s, p, match_starts(s, p, from, limit)[k]),
        match_starts(s, p, from, limit)[k] >= from,
        match_starts(s, p, from, limit).len() <= limit,
    decreases limit,
{
    lemma_first_at(s, p, from);
    let i = first_at(s, p, from)->0;
    let next = if p.len() == 0 {
        i + 1
    } else {
        i + p.len()
    };
    let rest = match_starts(s, p, next as int, (limit - 1) as nat);
    if k > 0 {
        lemma_match_starts(s, p, next as int, (limit - 1) as nat, k - 1);
    } else if rest.len() > 0 {
        lemma_match_starts(s, p, next as int, (limit - 1) as nat, 0);
    }
}

/// Every match that is reported is one, and its excerpt holds it, stands in the page and has
/// no more than the context on either side.
pub proof fn law_excerpts_hold_their_match(
    s: Seq<char>,
    p: Seq<char>,
    limit: nat,
    context: int,
    k: int,
)
    requires
        0 <= k < match_starts(s, p, 0, limit).len(),
        0 <= context,
    ensures
        ({
            let i = match_starts(s, p, 0, limit)[k];
            &&& has_at(s, p, i)
            &&& occurs(excerpt_at(s, p, i, context), p)
            &&& occurs(s, excerpt_at(s, p, i, context))
            &&& excerpt_at(s, p, i, context).len() <= p.len() + 2 * context
        }),
{
    lemma_match_starts(s, p, 0, limit, k);
    let i = match_starts(s, p, 0, limit)[k];
    let e = excerpt_at(s, p, i, context);
    let from = if i >= context {
        i - context
    } else {
        0
    };
    assert(e.subrange(i - from, i - from + p.len()) =~= s.subrange(i, i + p.len()));
    assert(has_at(e, p, i - from));
    assert(s.subrange(from, from + e.len()) =~= e);
    assert(has_at(s, e, from));
}

/// No more matches are reported than are asked for, and never more than fifty.
pub proof fn law_matches_stay_bounded(
    s: Seq<char>,
    p: Seq<char>,
    max_matches: Option<usize>,
    context: int,
)
    ensures
        matches_json(s, p, bounded(max_matches, 10, 1, 50) as nat, context).len() <= bounded(
            max_matches,
            10,
            1,
            50,
        ) <= 50,
{
    let limit = bounded(max_matches, 10, 1, 50) as nat;
    if match_starts(s, p, 0, limit).len() > 0 {
        lemma_match_starts(s, p, 0, limit, 0);
    }
}

/// An answer about a part of a stored page does not repeat the page.
pub proof fn law_derived_answers_leave_the_page_out(record: FetchView, derived: JsonView)
    ensures
        content_of(record, derived, false).member("content_markdown"@) is None,
        content_of(record, derived, true).member("content_markdown"@) == Some(
            JsonView::Text(record.content_markdown),
        ),
{
    reveal_strlit("fetch_id");
    reveal_strlit("content_hash");
    reveal_strlit("requested_url");
    reveal_strlit("final_url");
    reveal_strlit("bytes");
    reveal_strlit("truncated");
    reveal_strlit("derived");
    reveal_strlit("content_markdown");
    let key = "content_markdown"@;
    assert("fetch_id"@.len() != key.len());
    assert("content_hash"@.len() != key.len());
    assert("requested_url"@.len() != key.len());
    assert("final_url"@.len() != key.len());
    assert("bytes"@.len() != key.len());
    assert("truncated"@.len() != key.len());
    assert("derived"@.len() != key.len());
    let m = content_of(record, derived, true)->Object_0;
    let n = content_of(record, derived, false)->Object_0;
    crate::json::lemma_skip_members(m, key, 7);
    crate::json::lemma_skip_members(n, key, 7);
    assert(m.skip(7)[0] == m[7]);
}

proof fn lemma_matches_cover(s: Seq<char>, p: Seq<char>, from: int, limit: nat, j: int)
    requires
        p.len() > 0,
        0 <= from <= j,
        has_at(s, p, j),
    ensures
        ({
            let starts = match_starts(s, p, from, limit);
            ||| exists|k: int|
                0 <= k < starts.len() && #[trigger] starts[k] <= j && j < starts[k] + p.len()
            ||| starts.len() == limit && (limit > 0 ==> starts.last() + p.len() <= j)
        }),
    decreases limit,
{
    let starts = match_starts(s, p, from, limit);
    if limit > 0 {
        lemma_first_at(s, p, from);
        match first_at(s, p, from) {
            None => {
                assert(!has_at(s, p, j));
            },
            Some(i) => {
                assert(starts[0] == i);
                if j < i {
                    assert(!has_at(s, p, j));
                } else if j >= i + p.len() {
                    let rest = match_starts(s, p, i + p.len(), (limit - 1) as nat);
                    lemma_matches_cover(s, p, i + p.len(), (limit - 1) as nat, j);
                    if exists|k: int|
                        0 <= k < rest.len() && #[trigger] rest[k] <= j && j < rest[k] + p.len() {
                        let k = choose|k: int|
                            0 <= k < rest.len() && #[trigger] rest[k] <= j && j < rest[k] + p.len();
                        assert(starts[k + 1] == rest[k]);
                    } else if limit > 1 {
                        assert(starts.last() == rest.last());
                    }
                }
            },
        }
    }
}

/// The matches of a text in a page are all of them from the first on, up to the limit: each is
/// one, they stand in order and none begins before the one before has ended, and wherever the
/// text stands in the page, a reported match begins there or reaches over that place, unless the
/// limit is reached and the place lies behind the last one.
pub proof fn law_matches_are_complete(s: Seq<char>, p: Seq<char>, limit: nat)
    requires
        p.len() > 0,
    ensures
        ({
            let starts = match_starts(s, p, 0, limit);
            &&& starts.len() <= limit
            &&& forall|k: int| 0 <= k < starts.len() ==> has_at(s, p, #[trigger] starts[k])
            &&& forall|k: int, l: int|
                0 <= k < l < starts.len() ==> #[trigger] starts[k] + p.len() <= #[trigger] starts[l]
            &&& forall|j: int| #[trigger]
                has_at(s, p, j) ==> (exists|k: int|
                    0 <= k < starts.len() && #[trigger] starts[k] <= j && j < starts[k] + p.len())
                    || (starts.len() == limit && (limit > 0 ==> starts.last() + p.len() <= j))
        }),
{
    let starts = match_starts(s, p, 0, limit);
    assert forall|k: int| 0 <= k < starts.len() implies has_at(s, p, #[trigger] starts[k]) by {
        lemma_match_starts(s, p, 0, limit, k);
    }
    if starts.len() > 0 {
        lemma_match_starts(s, p, 0, limit, 0);
    }
    assert forall|k: int, l: int| 0 <= k < l < starts.len() implies #[trigger] starts[k] + p.len()
        <= #[trigger] starts[l] by {
        lemma_matches_apart(s, p, 0, limit, k, l);
    }
    assert forall|j: int| #[trigger] has_at(s, p, j) implies (exists|k: int|
        0 <= k < starts.len() && #[trigger] starts[k] <= j && j < starts[k] + p.len()) || (
    starts.len() == limit && (limit > 0 ==> starts.last() + p.len() <= j)) by {
        lemma_matches_cover(s, p, 0, limit, j);
    }
}

proof fn lemma_matches_apart(s: Seq<char>, p: Seq<char>, from: int, limit: nat, k: int, l: int)
    requires
        p.len() > 0,
        0 <= from,
        0 <= k < l < match_starts(s, p, from, limit).len(),
    ensures
        match_starts(s, p, from, limit)[k] + p.len() <= match_starts(s, p, from, limit)[l],
    decreases limit,
{
    lemma_first_at(s, p, from);
    let i = first_at(s, p, from)->0;
    let rest = match_starts(s, p, i + p.len(), (limit - 1) as nat);
    assert(match_starts(s, p, from, limit)[l] == rest[l - 1]);
    if k > 0 {
        assert(match_starts(s, p, from, limit)[k] == rest[k - 1]);
        lemma_matches_apart(s, p, i + p.len(), (limit - 1) as nat, k - 1, l - 1);
    } else {
        lemma_match_starts(s, p, i + p.len(), (limit - 1) as nat, l - 1);
    }
}

/// Each match is reported with the number of bytes before it and with an excerpt of the page
/// that begins as many characters before it as are asked for, or at the beginning of the page,
/// and ends as many behind it, or at the end.
pub proof fn law_matches_are_reported_with_their_context(
    s: Seq<char>,
    p: Seq<char>,
    limit: nat,
    context: int,
    k: int,
)
    requires
        0 <= k < match_starts(s, p, 0, limit).len(),
        0 <= context,
    ensures
        ({
            let i = match_starts(s, p, 0, limit)[k];
            let report = matches_json(s, p, limit, context)[k];
            &&& matches_json(s, p, limit, context).len() == match_starts(s, p, 0, limit).len()
            &&& says(report, "byte_offset"@, JsonView::Unsigned(utf8_len(s.take(i)) as u64))
            &&& exists|low: int, high: int|
                #![trigger s.subrange(low, high)]
                {
                    &&& says(report, "excerpt"@, JsonView::Text(s.subrange(low, high)))
                    &&& 0 <= low <= i && i + p.len() <= high <= s.len()
                    &&& low == i - context || (low == 0 && i < context)
                    &&& high == i + p.len() + context || (high == s.len() && i + p.len() + context
                        > s.len())
                }
        }),
{
    lemma_match_starts(s, p, 0, limit, k);
    let i = match_starts(s, p, 0, limit)[k];
    let report = matches_json(s, p, limit, context)[k];
    lemma_says(report);
    assert(report->Object_0[0].0 == "byte_offset"@ && report->Object_0[1].0 == "excerpt"@);
    let low = if i >= context {
        i - context
    } else {
        0
    };
    let high = if i + p.len() + context <= s.len() {
        i + p.len() + context
    } else {
        s.len() as int
    };
    assert(report->Object_0[1].1 == JsonView::Text(s.subrange(low, high)));
}

/// A search reports up to ten matches with 160 characters of context where nothing is said, and
/// otherwise as many as are asked for, between 1 and 50 matches and up to 1,000 characters.
pub proof fn law_searches_report_what_is_asked_for(
    text: Seq<char>,
    needle: Seq<char>,
    max_matches: Option<usize>,
    context_chars: Option<usize>,
)
    ensures
        exists|limit: nat, context: int| #[trigger]
            says(
                found_json(text, needle, max_matches, context_chars),
                "matches"@,
                JsonView::Array(matches_json(text, needle, limit, context)),
            ) && (max_matches is None ==> limit == 10) && (context_chars is None ==> context == 160)
                && (max_matches matches Some(n) ==> limit == (if n == 0 {
                1nat
            } else if n > 50 {
                50nat
            } else {
                n as nat
            })) && (context_chars matches Some(n) ==> context == (if n > 1000 {
                1000int
            } else {
                n as int
            })),
        says(
            found_json(text, needle, max_matches, context_chars),
            "needle"@,
            JsonView::Text(needle),
        ),
{
    let v = found_json(text, needle, max_matches, context_chars);
    lemma_says(v);
    assert(v->Object_0[0].0 == "needle"@ && v->Object_0[1].0 == "matches"@);
    let limit = bounded(max_matches, 10, 1, 50) as nat;
    let context = bounded(context_chars, 160, 0, 1000) as int;
    assert(says(v, "matches"@, JsonView::Array(matches_json(text, needle, limit, context))));
}

/// The check of a quote says whether the hash of the page is the expected one, whether the quote
/// stands in the page as well, and how often and at which bytes it does, up to fifty times.
pub proof fn law_checks_tell_where_a_quote_stands(
    quote: Seq<char>,
    expected: Option<Seq<char>>,
    record: FetchView,
)
    ensures
        ({
            let text = record.content_markdown;
            let v = verified_json(quote, expected, record);
            let fits = expected is None || expected == Some(record.content_hash);
            let starts = match_starts(text, quote, 0, 50);
            &&& says(v, "verified"@, JsonView::Bool(fits && occurs(text, quote)))
            &&& says(v, "hash_matches"@, JsonView::Bool(fits))
            &&& says(v, "match_count"@, JsonView::Unsigned(starts.len() as u64))
            &&& exists|offsets: Seq<JsonView>| #[trigger]
                says(v, "match_offsets"@, JsonView::Array(offsets)) && offsets.len() == starts.len()
                    && forall|k: int|
                    0 <= k < offsets.len() ==> #[trigger] offsets[k] == JsonView::Unsigned(
                        utf8_len(text.take(starts[k])) as u64,
                    )
        }),
{
    let text = record.content_markdown;
    let v = verified_json(quote, expected, record);
    let starts = match_starts(text, quote, 0, 50);
    let more = match_starts(text, quote, 0, 51);
    law_verified_quotes_are_exact(quote, expected, record);
    lemma_says(v);
    let m = v->Object_0;
    assert(m[0].0 == "verified"@ && m[1].0 == "hash_matches"@ && m[2].0 == "match_count"@ && m[3].0
        == "match_offsets"@);
    lemma_fewer_matches(text, quote, 0, 50);
    if more.len() > 0 {
        lemma_match_starts(text, quote, 0, 51, 0);
    }
    let shown = more.take(
        if more.len() < 50 {
            more.len() as int
        } else {
            50
        },
    );
    assert(shown =~= starts);
    let offsets = m[3].1->Array_0;
    assert(says(v, "match_offsets"@, JsonView::Array(offsets)));
}

proof fn lemma_fewer_matches(s: Seq<char>, p: Seq<char>, from: int, n: nat)
    requires
        0 <= from,
    ensures
        ({
            let more = match_starts(s, p, from, n + 1);
            let fewer = match_starts(s, p, from, n);
            &&& more.len() > n ==> fewer == more.take(n as int)
            &&& more.len() <= n ==> fewer == more
        }),
    decreases n,
{
    let more = match_starts(s, p, from, n + 1);
    let fewer = match_starts(s, p, from, n);
    lemma_first_at(s, p, from);
    if n == 0 {
        assert(fewer =~= more.take(0));
        if more.len() == 0 {
            assert(fewer =~= more);
        }
    } else {
        match first_at(s, p, from) {
            Some(i) => {
                let next = if p.len() == 0 {
                    i + 1
                } else {
                    i + p.len()
                };
                lemma_fewer_matches(s, p, next as int, (n - 1) as nat);
                let rest = match_starts(s, p, next as int, n);
                assert(more == seq![i] + rest);
                assert(fewer == seq![i] + match_starts(s, p, next as int, (n - 1) as nat));
                if more.len() > n {
                    assert(fewer =~= more.take(n as int));
                }
            },
            None => {},
        }
    }
}

/// An answer about a stored page names the page as it is stored: its identifier, hash, URLs,
/// size and what was derived from it. It is counted and recorded under its tool, and carries the
/// time at which the page was fetched. A page that is not stored is reported as not found.
pub proof fn law_answers_name_their_page(
    tool: Seq<char>,
    record: FetchView,
    derived: JsonView,
    whole: bool,
    audit_id: Seq<char>,
    now: i64,
)
    ensures
        ({
            let o = evidence_outcome(tool, record, derived, whole, audit_id, now);
            let e = o.reply->Envelope_0;
            &&& o.reply is Envelope
            &&& o.denial is None && o.fetch is None
            &&& o.call == Some((tool, "ok"@))
            &&& o.audit is Some
            &&& o.audit->0.entry_id == audit_id && o.audit->0.tool == tool && o.audit->0.fetch_id
                == Some(record.fetch_id) && o.audit->0.recorded_at == now && o.audit->0.outcome
                == "ok"@ && o.audit->0.error is None
            &&& e.source.url == record.final_url
            &&& e.source.fetched_at == rfc3339(record.completed_at)
            &&& e.source.tool == tool
            &&& e.source.provider == record.source_provider
            &&& e.provenance is Some
            &&& e.provenance->0.fetch_id == record.fetch_id
            &&& e.provenance->0.content_hash == record.content_hash
            &&& e.audit_id == audit_id
            &&& says(e.content, "fetch_id"@, JsonView::Text(record.fetch_id))
            &&& says(e.content, "content_hash"@, JsonView::Text(record.content_hash))
            &&& says(e.content, "requested_url"@, JsonView::Text(record.requested_url))
            &&& says(e.content, "final_url"@, JsonView::Text(record.final_url))
            &&& says(e.content, "bytes"@, JsonView::Unsigned(record.bytes))
            &&& says(e.content, "truncated"@, JsonView::Bool(record.truncated))
            &&& says(e.content, "derived"@, derived)
            &&& whole ==> says(
                e.content,
                "content_markdown"@,
                JsonView::Text(record.content_markdown),
            )
        }),
{
    let c = content_of(record, derived, whole);
    lemma_says(c);
    let m = c->Object_0;
    assert(m[0].0 == "fetch_id"@ && m[1].0 == "content_hash"@ && m[2].0 == "requested_url"@
        && m[3].0 == "final_url"@ && m[4].0 == "bytes"@ && m[5].0 == "truncated"@ && m[6].0
        == "derived"@);
    if whole {
        assert(m[7].0 == "content_markdown"@);
    }
}

/// Each tool that reads stored pages answers about the page that is stored, under its own name,
/// with what it derives from it; loading a page gives the whole of it. Where none is stored, all
/// of them answer that the identifier is unknown.
pub proof fn law_reading_tools_answer_about_the_stored_page(
    find: WebFindInFetchArgs,
    verify: WebVerifyQuoteArgs,
    record: FetchView,
    audit_id: Seq<char>,
    now: i64,
)
    ensures
        get_outcome(Some(record), audit_id, now) == evidence_outcome(
            "web_get_fetch"@,
            record,
            JsonView::Null,
            true,
            audit_id,
            now,
        ),
        find_outcome(find, Some(record), audit_id, now) == evidence_outcome(
            "web_find_in_fetch"@,
            record,
            found_json(
                record.content_markdown,
                find.needle@,
                find.max_matches,
                find.context_chars,
            ),
            false,
            audit_id,
            now,
        ),
        verify_outcome(verify, Some(record), audit_id, now) == evidence_outcome(
            "web_verify_quote"@,
            record,
            verified_json(verify.quote@, opt_text(verify.expected_content_hash), record),
            false,
            audit_id,
            now,
        ),
        get_outcome(None, audit_id, now) == find_outcome(find, None, audit_id, now),
        get_outcome(None, audit_id, now) == verify_outcome(verify, None, audit_id, now),
        ({
            let o = get_outcome(None, audit_id, now);
            &&& o.reply is Error
            &&& o.reply->Error_0.kind == "not_found"@
            &&& o.reply->Error_0.reason == "unknown_fetch_id"@
            &&& o.audit is None && o.fetch is None && o.denial is None
        }),
{
}

/// The reading of a stored page is recorded under its tool, with the page, its identifier and
/// its time.
pub proof fn law_readings_are_recorded_as_made(
    tool: Seq<char>,
    fetch_id: Seq<char>,
    audit_id: Seq<char>,
    now: i64,
)
    ensures
        ({
            let c = evidence_call(tool, fetch_id, audit_id, now);
            &&& c.tool == tool && c.audit_id == audit_id && c.now == now
            &&& says(c.args, "fetch_id"@, JsonView::Text(fetch_id))
        }),
{
    let c = evidence_call(tool, fetch_id, audit_id, now);
    lemma_says(c.args);
    assert(c.args->Object_0[0].0 == "fetch_id"@);
}

/// A number that is asked for counts within its bounds, and so does the usual one where none is.
pub proof fn law_numbers_stay_within_bounds(n: usize, usual: usize, low: usize, high: usize)
    requires
        low <= high,
    ensures
        low <= n <= high ==> bounded(Some(n), usual, low, high) == n,
        n < low ==> bounded(Some(n), usual, low, high) == low,
        n > high ==> bounded(Some(n), usual, low, high) == high,
        bounded(None, n, low, high) == bounded(Some(n), usual, low, high),
{
}

} // verus!
