//! Search through SearXNG.
use vstd::prelude::*;

use crate::backends::{BackendError, FailureView};
use crate::json::{views, Json, JsonView};
use crate::text::{opt_text, texts};
use crate::weburl::pair_views;

verus! {

/// A result of a search. The score is given by its bits.
pub struct SearxResult {
    pub url: String,
    pub title: String,
    pub snippet: String,
    pub engine: String,
    pub engines: Vec<String>,
    pub score: Option<u64>,
    pub published_at: Option<String>,
}

/// A result of a search as a mathematical value.
pub struct ResultView {
    pub url: Seq<char>,
    pub title: Seq<char>,
    pub snippet: Seq<char>,
    pub engine: Seq<char>,
    pub engines: Seq<Seq<char>>,
    pub score: Option<u64>,
    pub published_at: Option<Seq<char>>,
}

impl View for SearxResult {
    type V = ResultView;

    open spec fn view(&self) -> ResultView {
        ResultView {
            url: self.url@,
            title: self.title@,
            snippet: self.snippet@,
            engine: self.engine@,
            engines: texts(self.engines@),
            score: self.score,
            published_at: opt_text(self.published_at),
        }
    }
}

/// An engine that did not answer, and why.
#[derive(Debug, Clone)]
pub struct SearxEngineError {
    pub engine: String,
    pub reason: String,
}

/// What a search gave.
pub struct SearxSearchResponse {
    pub results: Vec<SearxResult>,
    pub unresponsive_engines: Vec<SearxEngineError>,
}

/// The views of some results.
pub open spec fn result_views(v: Seq<SearxResult>) -> Seq<ResultView> {
    v.map_values(|r: SearxResult| r@)
}

/// The engines that did not answer, each with its reason.
pub open spec fn engine_views(v: Seq<SearxEngineError>) -> Seq<(Seq<char>, Seq<char>)> {
    v.map_values(|e: SearxEngineError| (e.engine@, e.reason@))
}

/// A parameter that stands only where it has a value.
pub open spec fn opt_param(name: Seq<char>, value: Option<Seq<char>>) -> Seq<
    (Seq<char>, Seq<char>),
> {
    match value {
        Some(v) => seq![(name, v)],
        None => Seq::empty(),
    }
}

/// The parameters of a search.
pub open spec fn search_query_params(
    query: Seq<char>,
    categories: Option<Seq<char>>,
    language: Option<Seq<char>>,
    time_range: Option<Seq<char>>,
) -> Seq<(Seq<char>, Seq<char>)> {
    seq![("q"@, query), ("format"@, "json"@)] + opt_param("categories"@, categories) + opt_param(
        "language"@,
        language,
    ) + opt_param("time_range"@, time_range)
}

fn push_param(params: &mut Vec<(String, String)>, name: &str, value: &Option<String>)
    ensures
        pair_views(final(params)@) == pair_views(old(params)@) + opt_param(
            name@,
            opt_text(*value),
        ),
{
    let ghost before = params@;
    match value {
        Some(v) => {
            params.push((name.to_owned(), v.clone()));
            assert(pair_views(params@) =~= pair_views(before) + seq![(name@, v@)]);
        },
        None => {
            assert(pair_views(params@) =~= pair_views(before) + Seq::empty());
        },
    }
}

/// The parameters of a search.
pub fn search_params(
    query: &str,
    categories: &Option<String>,
    language: &Option<String>,
    time_range: &Option<String>,
) -> (res: Vec<(String, String)>)
    ensures
        pair_views(res@) == search_query_params(
            query@,
            opt_text(*categories),
            opt_text(*language),
            opt_text(*time_range),
        ),
{
    let mut params: Vec<(String, String)> = Vec::new();
    params.push(("q".to_owned(), query.to_owned()));
    params.push(("format".to_owned(), "json".to_owned()));
    assert(pair_views(params@) =~= seq![("q"@, query@), ("format"@, "json"@)]);
    push_param(&mut params, "categories", categories);
    push_param(&mut params, "language", language);
    push_param(&mut params, "time_range", time_range);
    params
}

/// The entries of a reply that are looked at: the first ones of its list of results.
pub open spec fn entries_of(body: JsonView, max_results: nat) -> Result<
    Seq<JsonView>,
    FailureView,
> {
    match body.member("results"@) {
        Some(JsonView::Array(items)) => Ok(
            items.take(
                if max_results < items.len() {
                    max_results as int
                } else {
                    items.len() as int
                },
            ),
        ),
        _ => Err(FailureView::Malformed("missing results array"@)),
    }
}

/// The entries of a reply that are looked at.
pub fn result_entries(body: &Json, max_results: usize) -> (res: Result<Vec<Json>, BackendError>)
    ensures
        entries_of(body@, max_results as nat) == match res {
            Ok(v) => Ok::<Seq<JsonView>, FailureView>(views(v@)),
            Err(e) => Err::<Seq<JsonView>, FailureView>(e@),
        },
{
    let list = match body.get("results") {
        Some(v) => v.as_array(),
        None => None,
    };
    let items = match list {
        Some(items) => items,
        None => {
            return Err(BackendError::Malformed("missing results array".to_owned()));
        },
    };
    let mut out: Vec<Json> = Vec::new();
    let mut i: usize = 0;
    assert(views(out@) =~= views(items@).take(0));
    while i < items.len() && i < max_results
        invariant
            i <= items@.len(),
            i <= max_results,
            views(out@) == views(items@).take(i as int),
        decreases items@.len() - i,
    {
        let ghost before = out@;
        out.push(items[i].copy());
        proof {
            assert(views(out@) =~= views(before).push(items@[i as int]@));
            assert(views(items@).take(i + 1) =~= views(items@).take(i as int).push(
                items@[i as int]@,
            ));
        }
        i = i + 1;
    }
    Ok(out)
}

/// The results among some entries; an entry that is none is left out.
pub open spec fn results_among(parsed: Seq<Option<SearxResult>>) -> Seq<ResultView>
    decreases parsed.len(),
{
    if parsed.len() == 0 {
        Seq::empty()
    } else {
        match parsed.last() {
            Some(r) => results_among(parsed.drop_last()).push(r@),
            None => results_among(parsed.drop_last()),
        }
    }
}

/// An engine that did not answer, as an entry of a reply names it: a list that begins with
/// its name and the reason.
pub open spec fn engine_error(entry: JsonView) -> Option<(Seq<char>, Seq<char>)> {
    match entry {
        JsonView::Array(pair) => if pair.len() >= 2 {
            match (pair[0], pair[1]) {
                (JsonView::Text(engine), JsonView::Text(reason)) => Some((engine, reason)),
                _ => None,
            }
        } else {
            None
        },
        _ => None,
    }
}

/// The engines that did not answer, among some entries.
pub open spec fn engine_errors(entries: Seq<JsonView>) -> Seq<(Seq<char>, Seq<char>)>
    decreases entries.len(),
{
    if entries.len() == 0 {
        Seq::empty()
    } else {
        match engine_error(entries.last()) {
            Some(e) => engine_errors(entries.drop_last()).push(e),
            None => engine_errors(entries.drop_last()),
        }
    }
}

/// The engines that a reply names as not answering.
pub open spec fn unresponsive(body: JsonView) -> Seq<(Seq<char>, Seq<char>)> {
    match body.member("unresponsive_engines"@) {
        Some(JsonView::Array(entries)) => engine_errors(entries),
        _ => Seq::empty(),
    }
}

fn engine_entry(entry: &Json) -> (res: Option<SearxEngineError>)
    ensures
        match res {
            Some(e) => engine_error(entry@) == Some((e.engine@, e.reason@)),
            None => engine_error(entry@) is None,
        },
{
    let pair = match entry.as_array() {
        Some(pair) => pair,
        None => {
            return None;
        },
    };
    assert(views(pair@).len() == pair@.len());
    if pair.len() < 2 {
        return None;
    }
    assert(views(pair@)[0] == pair@[0]@ && views(pair@)[1] == pair@[1]@);
    match (pair[0].as_text(), pair[1].as_text()) {
        (Some(engine), Some(reason)) => Some(
            SearxEngineError { engine: engine.clone(), reason: reason.clone() },
        ),
        _ => None,
    }
}

/// The engines that a reply names as not answering.
pub fn unresponsive_engines(body: &Json) -> (res: Vec<SearxEngineError>)
    ensures
        engine_views(res@) == unresponsive(body@),
{
    let mut out: Vec<SearxEngineError> = Vec::new();
    let list = match body.get("unresponsive_engines") {
        Some(v) => v.as_array(),
        None => None,
    };
    let entries = match list {
        Some(entries) => entries,
        None => {
            assert(engine_views(out@) =~= Seq::empty());
            return out;
        },
    };
    let mut i: usize = 0;
    assert(engine_views(out@) =~= engine_errors(views(entries@).take(0)));
    while i < entries.len()
        invariant
            i <= entries@.len(),
            engine_views(out@) == engine_errors(views(entries@).take(i as int)),
        decreases entries@.len() - i,
    {
        let ghost before = out@;
        proof {
            assert(views(entries@).take(i + 1).drop_last() =~= views(entries@).take(i as int));
            assert(views(entries@).take(i + 1).last() == entries@[i as int]@);
        }
        if let Some(e) = engine_entry(&entries[i]) {
            out.push(e);
            assert(engine_views(out@) =~= engine_views(before).push((e.engine@, e.reason@)));
        }
        i = i + 1;
    }
    assert(views(entries@).take(entries@.len() as int) =~= views(entries@));
    out
}

/// What a search gave: the results among the parsed entries, and the engines that the reply
/// names as not answering.
pub fn search_response(parsed: Vec<Option<SearxResult>>, body: &Json) -> (res: SearxSearchResponse)
    ensures
        result_views(res.results@) == results_among(parsed@),
        engine_views(res.unresponsive_engines@) == unresponsive(body@),
{
    let mut rest = parsed;
    let ghost all = parsed@;
    let ghost mut done: int = 0;
    let mut results: Vec<SearxResult> = Vec::new();
    proof {
        assert(all.skip(0) =~= all);
        assert(result_views(results@) =~= results_among(all.take(0)));
    }
    while rest.len() > 0
        invariant
            0 <= done <= all.len(),
            rest@ == all.skip(done),
            result_views(results@) == results_among(all.take(done)),
        decreases rest@.len(),
    {
        let ghost before = results@;
        let entry = rest.remove(0);
        proof {
            assert(all.skip(done).remove(0) =~= all.skip(done + 1));
            assert(all.take(done + 1).drop_last() =~= all.take(done));
            assert(all.take(done + 1).last() == entry);
        }
        if let Some(r) = entry {
            results.push(r);
            assert(result_views(results@) =~= result_views(before).push(r@));
        }
        proof {
            done = done + 1;
        }
    }
    assert(all.take(done) =~= all);
    SearxSearchResponse { results, unresponsive_engines: unresponsive_engines(body) }
}

// ---------------------------------------------------------------------------
// Laws
// ---------------------------------------------------------------------------
/// The parameters of a search are the query, the form of the reply, and those of the categories,
/// the language and the freshness that are given.
pub proof fn law_search_parameters(
    query: Seq<char>,
    categories: Option<Seq<char>>,
    language: Option<Seq<char>>,
    time_range: Option<Seq<char>>,
)
    ensures
        ({
            let s = search_query_params(query, categories, language, time_range);
            &&& s.contains(("q"@, query))
            &&& s.contains(("format"@, "json"@))
            &&& categories is Some ==> s.contains(("categories"@, categories->0))
            &&& language is Some ==> s.contains(("language"@, language->0))
            &&& time_range is Some ==> s.contains(("time_range"@, time_range->0))
            &&& s.len() == 2 + (if categories is Some {
                1int
            } else {
                0
            }) + (if language is Some {
                1int
            } else {
                0
            }) + (if time_range is Some {
                1int
            } else {
                0
            })
        }),
{
    let s = search_query_params(query, categories, language, time_range);
    assert(s[0] == ("q"@, query));
    assert(s[1] == ("format"@, "json"@));
    let c = opt_param("categories"@, categories);
    let l = opt_param("language"@, language);
    if categories is Some {
        assert(s[2] == ("categories"@, categories->0));
    }
    if language is Some {
        assert(s[2 + c.len() as int] == ("language"@, language->0));
    }
    if time_range is Some {
        assert(s[2 + c.len() as int + l.len() as int] == ("time_range"@, time_range->0));
    }
}

/// The entries that are looked at are the first ones of the reply's results, all of them up to
/// the number that is asked for; a reply without a list of results is malformed.
pub proof fn law_first_entries_are_looked_at(body: JsonView, max_results: nat)
    ensures
        match body.member("results"@) {
            Some(JsonView::Array(items)) => {
                let entries = entries_of(body, max_results);
                &&& entries is Ok
                &&& entries->Ok_0.len() == items.len() || (entries->Ok_0.len() == max_results
                    && max_results < items.len())
                &&& forall|i: int|
                    0 <= i < entries->Ok_0.len() ==> #[trigger] entries->Ok_0[i] == items[i]
            },
            _ => entries_of(body, max_results) == Err::<Seq<JsonView>, FailureView>(
                FailureView::Malformed("missing results array"@),
            ),
        },
{
}

/// Every entry that is a result becomes one, in order, and no other.
pub proof fn law_results_are_kept_in_order(
    a: Seq<Option<SearxResult>>,
    b: Seq<Option<SearxResult>>,
    r: SearxResult,
)
    ensures
        results_among(a + b) == results_among(a) + results_among(b),
        results_among(seq![Some(r)]) == seq![r@],
        results_among(seq![None::<SearxResult>]).len() == 0,
        results_among(Seq::empty()).len() == 0,
    decreases b.len(),
{
    let one = seq![Some(r)];
    let none = seq![None::<SearxResult>];
    assert(one.drop_last() =~= Seq::empty() && none.drop_last() =~= Seq::empty());
    assert(results_among(Seq::<Option<SearxResult>>::empty()) =~= Seq::empty());
    assert(one.last() == Some(r) && none.last() == None::<SearxResult>);
    assert(results_among(one) =~= seq![r@]);
    if b.len() == 0 {
        assert(a + b =~= a);
        assert(results_among(a) + results_among(b) =~= results_among(a));
    } else {
        law_results_are_kept_in_order(a, b.drop_last(), r);
        assert((a + b).drop_last() =~= a + b.drop_last());
        assert((a + b).last() == b.last());
        assert(results_among(a + b) =~= results_among(a) + results_among(b));
    }
}

/// Every entry that names an engine and a reason is an engine that did not answer, in order, and
/// no other entry is.
pub proof fn law_silent_engines_are_named(
    a: Seq<JsonView>,
    b: Seq<JsonView>,
    engine: Seq<char>,
    reason: Seq<char>,
    other: JsonView,
)
    ensures
        engine_errors(a + b) == engine_errors(a) + engine_errors(b),
        engine_errors(
            seq![JsonView::Array(seq![JsonView::Text(engine), JsonView::Text(reason)])],
        ) == seq![(engine, reason)],
        other !is Array ==> engine_errors(seq![other]).len() == 0,
        engine_errors(Seq::empty()).len() == 0,
    decreases b.len(),
{
    let entry = JsonView::Array(seq![JsonView::Text(engine), JsonView::Text(reason)]);
    let one = seq![entry];
    let none = seq![other];
    assert(one.drop_last() =~= Seq::empty() && none.drop_last() =~= Seq::empty());
    assert(one.last() == entry && none.last() == other);
    assert(engine_errors(Seq::<JsonView>::empty()) =~= Seq::empty());
    assert(engine_errors(one) =~= seq![(engine, reason)]);
    if b.len() == 0 {
        assert(a + b =~= a);
        assert(engine_errors(a) + engine_errors(b) =~= engine_errors(a));
    } else {
        law_silent_engines_are_named(a, b.drop_last(), engine, reason, other);
        assert((a + b).drop_last() =~= a + b.drop_last());
        assert((a + b).last() == b.last());
        assert(engine_errors(a + b) =~= engine_errors(a) + engine_errors(b));
    }
}

/// The engines that did not answer are read from the reply's own list of them.
pub proof fn law_silent_engines_are_read_from_the_reply(body: JsonView)
    ensures
        match body.member("unresponsive_engines"@) {
            Some(JsonView::Array(entries)) => unresponsive(body) == engine_errors(entries),
            _ => unresponsive(body).len() == 0,
        },
{
}

} // verus!
