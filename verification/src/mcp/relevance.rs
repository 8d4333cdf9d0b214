//! Which search results are worth a fetch, and in which order.
use vstd::multiset::Multiset;
use vstd::prelude::*;

use crate::mcp::domain::{hit_views, HitView, SearchHit};
use crate::mcp::passages::{is_lower, score_rank};
use crate::mcp::terms::{
    domains_share_brand, overlap, preview_relevance, share_brand, term_set, terms,
    title_similarity, titles_alike,
};
use crate::mcp::urls::{normalize_url, normalized, unsafe_candidate_reason, unsafe_url_reason};
use crate::order::{in_rank_order, item_views, ordered, place, placed, text_before, text_less, text_order, Ranked};
use crate::text::{byte_len, list_has, same_text, texts, utf8_len};

verus! {

/// The bits of the floating-point number 24.
pub const MIN_CANDIDATE_SCORE: u64 = 0x4038_0000_0000_0000;

/// The bits of the floating-point number zero.
pub const ZERO_SCORE: u64 = 0;

/// A search result worth a fetch. Scores are given by their bits.
pub struct RankedCandidate {
    pub hit: SearchHit,
    pub normalized_url: String,
    pub domain: String,
    pub matched_queries: Vec<String>,
    pub search_engines: Vec<String>,
    pub score: u64,
}

/// A search result worth a fetch, as a mathematical value.
#[verifier::ext_equal]
pub struct RankedView {
    pub hit: HitView,
    pub normalized_url: Seq<char>,
    pub domain: Seq<char>,
    pub matched_queries: Seq<Seq<char>>,
    pub search_engines: Seq<Seq<char>>,
    pub score: u64,
}

impl View for RankedCandidate {
    type V = RankedView;

    open spec fn view(&self) -> RankedView {
        RankedView {
            hit: self.hit@,
            normalized_url: self.normalized_url@,
            domain: self.domain@,
            matched_queries: texts(self.matched_queries@),
            search_engines: texts(self.search_engines@),
            score: self.score,
        }
    }
}

/// A search result that is left out, and why.
pub struct CandidateRejection {
    pub url: String,
    pub stage: &'static str,
    pub reason: String,
    pub score: u64,
}

/// A search result that is left out, as a mathematical value.
#[verifier::ext_equal]
pub struct RejectionView {
    pub url: Seq<char>,
    pub stage: Seq<char>,
    pub reason: Seq<char>,
    pub score: u64,
}

impl View for CandidateRejection {
    type V = RejectionView;

    open spec fn view(&self) -> RejectionView {
        RejectionView {
            url: self.url@,
            stage: self.stage@,
            reason: self.reason@,
            score: self.score,
        }
    }
}

/// The search results worth a fetch, the best first, and those that are left out.
pub struct CandidateRanking {
    pub candidates: Vec<RankedCandidate>,
    pub rejected: Vec<CandidateRejection>,
}

/// How well a preview covers a query: its score by its bits, how many terms of the query it
/// holds, and how many the query has.
#[derive(Clone, Copy)]
pub struct Preview {
    pub score: u64,
    pub matched: usize,
    pub terms: usize,
}

/// The results of all searches for one page.
pub struct CandidateGroup {
    /// The result with the longest snippet.
    pub hit: SearchHit,
    pub normalized_url: String,
    pub domain: String,
    /// The queries that found the page.
    pub query_indices: Vec<usize>,
    /// The engines that found the page, in order.
    pub engines: Vec<String>,
    /// Every result, by query and position.
    pub members: Vec<(usize, usize)>,
    /// The best preview.
    pub best: Preview,
}

/// The results of all searches for one page, as a mathematical value.
#[verifier::ext_equal]
pub struct GroupView {
    pub hit: HitView,
    pub normalized_url: Seq<char>,
    pub domain: Seq<char>,
    pub query_indices: Seq<usize>,
    pub engines: Seq<Seq<char>>,
    pub members: Seq<(usize, usize)>,
    pub best: Preview,
}

impl View for CandidateGroup {
    type V = GroupView;

    open spec fn view(&self) -> GroupView {
        GroupView {
            hit: self.hit@,
            normalized_url: self.normalized_url@,
            domain: self.domain@,
            query_indices: self.query_indices@,
            engines: texts(self.engines@),
            members: self.members@,
            best: self.best,
        }
    }
}

/// The results of all searches, page by page, and those that are left out.
pub struct Gathering {
    pub groups: Vec<CandidateGroup>,
    pub rejected: Vec<CandidateRejection>,
}

/// The results of all searches as mathematical values.
#[verifier::ext_equal]
pub struct GatheringView {
    pub groups: Seq<GroupView>,
    pub rejected: Seq<RejectionView>,
}

impl View for Gathering {
    type V = GatheringView;

    open spec fn view(&self) -> GatheringView {
        GatheringView { groups: item_views(self.groups@), rejected: item_views(self.rejected@) }
    }
}

// ---------------------------------------------------------------------------
// Gathering
// ---------------------------------------------------------------------------
/// A result that is left out before it is scored.
pub open spec fn rejection(url: Seq<char>, reason: Seq<char>, score: u64) -> RejectionView {
    RejectionView { url, stage: "candidate"@, reason, score }
}

/// The engines in order with one more, unless it is among them.
pub open spec fn with_engine(engines: Seq<Seq<char>>, e: Seq<char>) -> Seq<Seq<char>> {
    if engines.contains(e) {
        engines
    } else {
        placed(engines, e, text_order())
    }
}

/// The engines in order with some more.
pub open spec fn with_engines(engines: Seq<Seq<char>>, more: Seq<Seq<char>>) -> Seq<Seq<char>>
    decreases more.len(),
{
    if more.len() == 0 {
        engines
    } else {
        with_engine(with_engines(engines, more.drop_last()), more.last())
    }
}

/// The engines that a result names: its list, or where that is empty the one it came from.
pub open spec fn engines_of(hit: HitView) -> Seq<Seq<char>> {
    if hit.engines.len() > 0 {
        hit.engines
    } else if hit.engine.len() > 0 {
        seq![hit.engine]
    } else {
        Seq::empty()
    }
}

/// The queries with one more, unless it is among them.
pub open spec fn with_query(indices: Seq<usize>, q: usize) -> Seq<usize> {
    if indices.contains(q) {
        indices
    } else {
        indices.push(q)
    }
}

/// A page with one more result.
pub open spec fn absorbed(
    g: GroupView,
    q: usize,
    i: usize,
    hit: HitView,
    preview: Preview,
) -> GroupView {
    GroupView {
        hit: if utf8_len(hit.snippet) > utf8_len(g.hit.snippet) {
            hit
        } else {
            g.hit
        },
        normalized_url: g.normalized_url,
        domain: g.domain,
        query_indices: with_query(g.query_indices, q),
        engines: with_engines(g.engines, engines_of(hit)),
        members: g.members.push((q, i)),
        best: if score_rank(preview.score) > score_rank(g.best.score) {
            preview
        } else {
            g.best
        },
    }
}

/// A page without results yet.
pub open spec fn fresh_group(hit: HitView, url: Seq<char>, domain: Seq<char>) -> GroupView {
    GroupView {
        hit,
        normalized_url: url,
        domain,
        query_indices: Seq::empty(),
        engines: Seq::empty(),
        members: Seq::empty(),
        best: Preview { score: ZERO_SCORE, matched: 0, terms: 0 },
    }
}

/// The position of a page among others.
pub open spec fn group_at(groups: Seq<GroupView>, url: Seq<char>, from: int) -> Option<int>
    decreases groups.len() - from,
{
    if from >= groups.len() {
        None
    } else if groups[from].normalized_url == url {
        Some(from)
    } else {
        group_at(groups, url, from + 1)
    }
}

/// The pages with one more result: it joins its page, or begins one.
pub open spec fn grouped(
    groups: Seq<GroupView>,
    url: Seq<char>,
    domain: Seq<char>,
    q: usize,
    i: usize,
    hit: HitView,
    preview: Preview,
) -> Seq<GroupView> {
    match group_at(groups, url, 0) {
        Some(k) => groups.update(k, absorbed(groups[k], q, i, hit, preview)),
        None => groups.push(absorbed(fresh_group(hit, url, domain), q, i, hit, preview)),
    }
}

/// What one more result makes of a gathering.
pub open spec fn gathered(
    g: GatheringView,
    q: usize,
    i: usize,
    hit: HitView,
    preview: Preview,
) -> GatheringView {
    match normalized(hit.url) {
        Err(reason) => GatheringView {
            groups: g.groups,
            rejected: g.rejected.push(rejection(hit.url, reason, ZERO_SCORE)),
        },
        Ok((url, domain)) => match unsafe_url_reason(hit.url) {
            Some(reason) => GatheringView {
                groups: g.groups,
                rejected: g.rejected.push(rejection(hit.url, reason, ZERO_SCORE)),
            },
            None => GatheringView {
                groups: grouped(g.groups, url, domain, q, i, hit, preview),
                rejected: g.rejected,
            },
        },
    }
}

/// What the first results of a search make of a gathering.
pub open spec fn gathered_hits(
    g: GatheringView,
    q: usize,
    hits: Seq<HitView>,
    previews: Seq<Preview>,
) -> GatheringView
    decreases hits.len(),
{
    if hits.len() == 0 {
        g
    } else {
        let n = hits.len() - 1;
        gathered(
            gathered_hits(g, q, hits.drop_last(), previews),
            q,
            n as usize,
            hits.last(),
            previews[n],
        )
    }
}

/// The results of the first searches, page by page.
pub open spec fn gathered_searches(
    searches: Seq<Seq<HitView>>,
    previews: Seq<Seq<Preview>>,
    n: nat,
) -> GatheringView
    decreases n,
{
    if n == 0 {
        GatheringView { groups: Seq::empty(), rejected: Seq::empty() }
    } else {
        gathered_hits(
            gathered_searches(searches, previews, (n - 1) as nat),
            (n - 1) as usize,
            searches[n - 1],
            previews[n - 1],
        )
    }
}

/// The views of some searches.
pub open spec fn search_views(v: Seq<Vec<SearchHit>>) -> Seq<Seq<HitView>> {
    v.map_values(|hits: Vec<SearchHit>| hit_views(hits@))
}

/// The views of some lists of scores.
pub open spec fn score_views(v: Seq<Vec<u64>>) -> Seq<Seq<u64>> {
    v.map_values(|s: Vec<u64>| s@)
}

/// How well the preview of a hit with some score covers a query.
pub open spec fn preview_of(query: Seq<char>, hit: HitView, score: u64) -> Preview {
    let found = term_set(hit.title).union(term_set(hit.snippet)).union(term_set(hit.url));
    Preview {
        score,
        matched: overlap(term_set(query), found) as usize,
        terms: term_set(query).len() as usize,
    }
}

/// How well the previews of all hits cover the queries that found them.
pub open spec fn previews_of(
    queries: Seq<Seq<char>>,
    searches: Seq<Seq<HitView>>,
    scores: Seq<Seq<u64>>,
) -> Seq<Seq<Preview>> {
    Seq::new(
        counted(queries.len(), searches.len()),
        |q: int|
            Seq::new(
                searches[q].len(),
                |i: int| preview_of(queries[q], searches[q][i], scores[q][i]),
            ),
    )
}

/// How many searches count: those that have a query.
pub open spec fn counted(queries: nat, searches: nat) -> nat {
    if searches < queries {
        searches
    } else {
        queries
    }
}

fn reject(rejected: &mut Vec<CandidateRejection>, url: &str, reason: &str, score: u64)
    ensures
        item_views(final(rejected)@) == item_views(old(rejected)@).push(
            rejection(url@, reason@, score),
        ),
{
    let ghost before = rejected@;
    let r = CandidateRejection {
        url: url.to_owned(),
        stage: "candidate",
        reason: reason.to_owned(),
        score,
    };
    rejected.push(r);
    assert(item_views(rejected@) =~= item_views(before).push(r@));
}

fn add_engine(engines: &mut Vec<String>, e: &str)
    ensures
        texts(final(engines)@) == with_engine(texts(old(engines)@), e@),
{
    if !list_has(engines, e) {
        let ghost before = engines@;
        place(engines, e.to_owned());
        proof {
            assert(item_views(before) =~= texts(before));
            assert(item_views(engines@) =~= texts(engines@));
            assert(crate::order::rank_order::<String>() =~= text_order());
        }
    }
}

fn add_engines(engines: &mut Vec<String>, more: &Vec<String>)
    ensures
        texts(final(engines)@) == with_engines(texts(old(engines)@), texts(more@)),
{
    let ghost before = texts(engines@);
    let mut i: usize = 0;
    assert(texts(more@).take(0).len() == 0);
    while i < more.len()
        invariant
            i <= more@.len(),
            texts(engines@) == with_engines(before, texts(more@).take(i as int)),
        decreases more@.len() - i,
    {
        proof {
            assert(texts(more@).take(i + 1).drop_last() =~= texts(more@).take(i as int));
            assert(texts(more@).take(i + 1).last() == more@[i as int]@);
        }
        add_engine(engines, &more[i]);
        i = i + 1;
    }
    assert(texts(more@).take(more@.len() as int) =~= texts(more@));
}

fn add_query(indices: &mut Vec<usize>, q: usize)
    ensures
        final(indices)@ == with_query(old(indices)@, q),
{
    let mut i: usize = 0;
    while i < indices.len()
        invariant
            *indices == *old(indices),
            i <= indices@.len(),
            forall|k: int| 0 <= k < i ==> indices@[k] != q,
        decreases indices@.len() - i,
    {
        if indices[i] == q {
            assert(indices@.contains(q));
            return;
        }
        i = i + 1;
    }
    indices.push(q);
}

fn absorb(group: CandidateGroup, q: usize, i: usize, hit: &SearchHit, preview: Preview) -> (res:
    CandidateGroup)
    ensures
        res@ == absorbed(group@, q, i, hit@, preview),
{
    let best_hit = if byte_len(&hit.snippet) > byte_len(&group.hit.snippet) {
        hit.copy()
    } else {
        group.hit
    };
    let mut query_indices = group.query_indices;
    add_query(&mut query_indices, q);
    let mut engines = group.engines;
    let ghost had = texts(engines@);
    if hit.engines.len() > 0 {
        add_engines(&mut engines, &hit.engines);
    } else if !hit.engine.as_str().is_empty() {
        add_engine(&mut engines, &hit.engine);
        proof {
            let one = seq![hit.engine@];
            assert(one.drop_last() =~= Seq::empty());
            assert(with_engines(had, one.drop_last()) == had);
            assert(with_engines(had, one) == with_engine(had, hit.engine@));
        }
    } else {
        assert(with_engines(had, Seq::empty()) == had);
    }
    assert(texts(hit.engines@).len() == hit.engines@.len());
    let mut members = group.members;
    members.push((q, i));
    let best = if is_lower(group.best.score, preview.score) {
        preview
    } else {
        group.best
    };
    CandidateGroup {
        hit: best_hit,
        normalized_url: group.normalized_url,
        domain: group.domain,
        query_indices,
        engines,
        members,
        best,
    }
}

fn new_group(hit: &SearchHit, url: String, domain: String) -> (res: CandidateGroup)
    ensures
        res@ == fresh_group(hit@, url@, domain@),
{
    let res = CandidateGroup {
        hit: hit.copy(),
        normalized_url: url,
        domain,
        query_indices: Vec::new(),
        engines: Vec::new(),
        members: Vec::new(),
        best: Preview { score: ZERO_SCORE, matched: 0, terms: 0 },
    };
    assert(res@ =~= fresh_group(hit@, url@, domain@));
    res
}

fn add_to_group(
    groups: &mut Vec<CandidateGroup>,
    url: String,
    domain: String,
    q: usize,
    i: usize,
    hit: &SearchHit,
    preview: Preview,
)
    ensures
        item_views(final(groups)@) == grouped(
            item_views(old(groups)@),
            url@,
            domain@,
            q,
            i,
            hit@,
            preview,
        ),
{
    let ghost all = item_views(groups@);
    let mut k: usize = 0;
    while k < groups.len()
        invariant
            *groups == *old(groups),
            all == item_views(groups@),
            k <= groups@.len(),
            group_at(all, url@, 0) == group_at(all, url@, k as int),
        decreases groups@.len() - k,
    {
        assert(all[k as int] == groups@[k as int]@);
        if same_text(&groups[k].normalized_url, &url) {
            let ghost before = groups@;
            let group = groups.remove(k);
            groups.insert(k, absorb(group, q, i, hit, preview));
            assert(item_views(groups@) =~= all.update(
                k as int,
                absorbed(all[k as int], q, i, hit@, preview),
            ));
            return;
        }
        k = k + 1;
    }
    assert(group_at(all, url@, k as int) is None);
    let ghost before = groups@;
    groups.push(absorb(new_group(hit, url, domain), q, i, hit, preview));
    assert(item_views(groups@) =~= item_views(before).push(groups@.last()@));
}

fn gather_hit(g: &mut Gathering, q: usize, i: usize, hit: &SearchHit, preview: Preview)
    ensures
        final(g)@ == gathered(old(g)@, q, i, hit@, preview),
{
    match normalize_url(&hit.url) {
        Err(reason) => {
            reject(&mut g.rejected, &hit.url, &reason, ZERO_SCORE);
        },
        Ok((url, domain)) => {
            match unsafe_candidate_reason(&hit.url) {
                Some(reason) => {
                    reject(&mut g.rejected, &hit.url, reason, ZERO_SCORE);
                },
                None => {
                    add_to_group(&mut g.groups, url, domain, q, i, hit, preview);
                },
            }
        },
    }
}

/// Gathers the results of all searches that have a query, page by page, given the scores of
/// their previews by their bits.
pub fn gather_candidates(
    queries: &Vec<String>,
    searches: &Vec<Vec<SearchHit>>,
    scores: &Vec<Vec<u64>>,
) -> (res: Gathering)
    requires
        scores@.len() >= counted(queries@.len(), searches@.len()),
        forall|q: int|
            0 <= q < counted(queries@.len(), searches@.len()) ==> (#[trigger] scores@[q])@.len()
                >= searches@[q]@.len(),
    ensures
        res@ == gathered_searches(
            search_views(searches@),
            previews_of(texts(queries@), search_views(searches@), score_views(scores@)),
            counted(queries@.len(), searches@.len()),
        ),
{
    let ghost hits = search_views(searches@);
    let ghost asked = texts(queries@);
    let ghost previews = previews_of(asked, hits, score_views(scores@));
    let mut g = Gathering { groups: Vec::new(), rejected: Vec::new() };
    let mut q: usize = 0;
    assert(asked.len() == queries@.len() && hits.len() == searches@.len());
    assert(g@ =~= gathered_searches(hits, previews, 0));
    while q < queries.len() && q < searches.len()
        invariant
            scores@.len() >= counted(queries@.len(), searches@.len()),
            forall|q: int|
                0 <= q < counted(queries@.len(), searches@.len()) ==> (
                #[trigger] scores@[q])@.len() >= searches@[q]@.len(),
            hits == search_views(searches@),
            asked == texts(queries@),
            asked.len() == queries@.len() && hits.len() == searches@.len(),
            previews == previews_of(asked, hits, score_views(scores@)),
            q <= queries@.len(),
            q <= searches@.len(),
            g@ == gathered_searches(hits, previews, q as nat),
        decreases queries@.len() - q,
    {
        let ghost start = g@;
        assert(scores@[q as int]@.len() >= searches@[q as int]@.len());
        assert(hits[q as int] == hit_views(searches@[q as int]@));
        assert(score_views(scores@)[q as int] == scores@[q as int]@);
        assert(asked[q as int] == queries@[q as int]@);
        let mut i: usize = 0;
        assert(hits[q as int].take(0).len() == 0);
        while i < searches[q].len()
            invariant
                q < queries@.len(),
                q < searches@.len(),
                q < scores@.len(),
                asked.len() == queries@.len() && hits.len() == searches@.len(),
                previews == previews_of(asked, hits, score_views(scores@)),
                scores@[q as int]@.len() >= searches@[q as int]@.len(),
                hits[q as int] == hit_views(searches@[q as int]@),
                score_views(scores@)[q as int] == scores@[q as int]@,
                asked[q as int] == queries@[q as int]@,
                i <= searches@[q as int]@.len(),
                g@ == gathered_hits(start, q, hits[q as int].take(i as int), previews[q as int]),
            decreases searches@[q as int]@.len() - i,
        {
            let hit = &searches[q][i];
            let counts = preview_relevance(&queries[q], &hit.title, &hit.snippet, &hit.url);
            let preview = Preview {
                score: scores[q][i],
                matched: counts.matched,
                terms: counts.terms,
            };
            proof {
                let all = hits[q as int];
                assert(all[i as int] == hit@);
                assert(all.take(i + 1).drop_last() =~= all.take(i as int));
                assert(all.take(i + 1).last() == hit@);
                assert(preview == previews[q as int][i as int]);
            }
            gather_hit(&mut g, q, i, hit, preview);
            i = i + 1;
        }
        assert(hits[q as int].take(hits[q as int].len() as int) =~= hits[q as int]);
        q = q + 1;
    }
    g
}

// ---------------------------------------------------------------------------
// Scoring
// ---------------------------------------------------------------------------
/// The scores of a page, by their bits: its score, and its score and that of its best preview
/// as they are shown.
#[derive(Clone, Copy)]
pub struct GroupScore {
    pub score: u64,
    pub shown: u64,
    pub preview_shown: u64,
}

/// Candidates and rejections.
#[verifier::ext_equal]
pub struct RankingView {
    pub candidates: Seq<RankedView>,
    pub rejected: Seq<RejectionView>,
}

impl View for CandidateRanking {
    type V = RankingView;

    open spec fn view(&self) -> RankingView {
        RankingView {
            candidates: item_views(self.candidates@),
            rejected: item_views(self.rejected@),
        }
    }
}

/// The queries at some positions; a position without a query is left out.
pub open spec fn queries_at(queries: Seq<Seq<char>>, indices: Seq<usize>) -> Seq<Seq<char>>
    decreases indices.len(),
{
    if indices.len() == 0 {
        Seq::empty()
    } else if indices.last() < queries.len() {
        queries_at(queries, indices.drop_last()).push(queries[indices.last() as int])
    } else {
        queries_at(queries, indices.drop_last())
    }
}

/// What becomes of a page: it is left out where the preview shows too little of the query or
/// its score is too low.
pub open spec fn scored(
    r: RankingView,
    queries: Seq<Seq<char>>,
    g: GroupView,
    s: GroupScore,
) -> RankingView {
    if g.best.terms >= 4 && g.best.matched < 2 {
        RankingView {
            candidates: r.candidates,
            rejected: r.rejected.push(
                rejection(g.hit.url, "insufficient_preview_concepts"@, s.preview_shown),
            ),
        }
    } else if score_rank(s.score) < score_rank(MIN_CANDIDATE_SCORE) {
        RankingView {
            candidates: r.candidates,
            rejected: r.rejected.push(rejection(g.hit.url, "low_preview_relevance"@, s.shown)),
        }
    } else {
        RankingView {
            candidates: r.candidates.push(
                RankedView {
                    hit: g.hit,
                    normalized_url: g.normalized_url,
                    domain: g.domain,
                    matched_queries: queries_at(queries, g.query_indices),
                    search_engines: g.engines,
                    score: s.shown,
                },
            ),
            rejected: r.rejected,
        }
    }
}

/// What becomes of the first pages.
pub open spec fn scored_groups(
    rejected: Seq<RejectionView>,
    queries: Seq<Seq<char>>,
    groups: Seq<GroupView>,
    scores: Seq<GroupScore>,
) -> RankingView
    decreases groups.len(),
{
    if groups.len() == 0 {
        RankingView { candidates: Seq::empty(), rejected }
    } else {
        scored(
            scored_groups(rejected, queries, groups.drop_last(), scores),
            queries,
            groups.last(),
            scores[groups.len() - 1],
        )
    }
}

/// The order of candidates: the highest score first, and equal scores by their URLs.
pub open spec fn candidate_order() -> spec_fn(RankedView, RankedView) -> bool {
    |a: RankedView, b: RankedView|
        score_rank(b.score) < score_rank(a.score) || (score_rank(b.score) == score_rank(a.score)
            && text_less(a.normalized_url, b.normalized_url))
}

impl Ranked for RankedCandidate {
    open spec fn precedes(a: RankedView, b: RankedView) -> bool {
        score_rank(b.score) < score_rank(a.score) || (score_rank(b.score) == score_rank(a.score)
            && text_less(a.normalized_url, b.normalized_url))
    }

    fn comes_before(&self, other: &Self) -> (res: bool) {
        if is_lower(other.score, self.score) {
            true
        } else if is_lower(self.score, other.score) {
            false
        } else {
            text_before(&self.normalized_url, &other.normalized_url)
        }
    }
}

fn queries_of(queries: &Vec<String>, indices: &Vec<usize>) -> (res: Vec<String>)
    ensures
        texts(res@) == queries_at(texts(queries@), indices@),
{
    let mut out: Vec<String> = Vec::new();
    let mut i: usize = 0;
    assert(texts(out@) =~= queries_at(texts(queries@), indices@.take(0)));
    while i < indices.len()
        invariant
            i <= indices@.len(),
            texts(out@) == queries_at(texts(queries@), indices@.take(i as int)),
        decreases indices@.len() - i,
    {
        let ghost before = out@;
        let at: usize = indices[i];
        proof {
            assert(indices@.take(i + 1).drop_last() =~= indices@.take(i as int));
            assert(indices@.take(i + 1).last() == at);
        }
        if at < queries.len() {
            out.push(queries[at].clone());
            assert(texts(out@) =~= texts(before).push(queries@[at as int]@));
        }
        i = i + 1;
    }
    assert(indices@.take(indices@.len() as int) =~= indices@);
    out
}

fn score_group(r: &mut CandidateRanking, queries: &Vec<String>, g: CandidateGroup, s: GroupScore)
    ensures
        final(r)@ == scored(old(r)@, texts(queries@), g@, s),
{
    if g.best.terms >= 4 && g.best.matched < 2 {
        reject(&mut r.rejected, &g.hit.url, "insufficient_preview_concepts", s.preview_shown);
    } else if is_lower(s.score, MIN_CANDIDATE_SCORE) {
        reject(&mut r.rejected, &g.hit.url, "low_preview_relevance", s.shown);
    } else {
        let ghost before = r.candidates@;
        let matched_queries = queries_of(queries, &g.query_indices);
        r.candidates.push(
            RankedCandidate {
                hit: g.hit,
                normalized_url: g.normalized_url,
                domain: g.domain,
                matched_queries,
                search_engines: g.engines,
                score: s.shown,
            },
        );
        assert(item_views(r.candidates@) =~= item_views(before).push(r.candidates@.last()@));
    }
}

// ---------------------------------------------------------------------------
// Choosing
// ---------------------------------------------------------------------------
/// A candidate whose title a better one on the same domain or brand has, or nearly.
pub open spec fn repeats_a_title(kept: Seq<RankedView>, c: RankedView) -> bool {
    &&& term_set(c.hit.title).len() >= 3
    &&& exists|i: int|
        0 <= i < kept.len() && same_story(#[trigger] kept[i], c)
}

/// Two candidates on the same domain or brand with titles that are alike.
pub open spec fn same_story(a: RankedView, c: RankedView) -> bool {
    (a.domain == c.domain || share_brand(a.domain, c.domain)) && titles_alike(
        term_set(c.hit.title),
        term_set(a.hit.title),
    )
}

/// The candidates without those that repeat a title.
pub open spec fn without_repeats(r: RankingView) -> RankingView
    decreases r.candidates.len(),
{
    if r.candidates.len() == 0 {
        r
    } else {
        let before = without_repeats(
            RankingView { candidates: r.candidates.drop_last(), rejected: r.rejected },
        );
        let c = r.candidates.last();
        if repeats_a_title(before.candidates, c) {
            RankingView {
                candidates: before.candidates,
                rejected: before.rejected.push(
                    rejection(c.hit.url, "near_duplicate_title"@, c.score),
                ),
            }
        } else {
            RankingView { candidates: before.candidates.push(c), rejected: before.rejected }
        }
    }
}

/// How many candidates are of a domain.
pub open spec fn domain_count(s: Seq<RankedView>, domain: Seq<char>) -> nat
    decreases s.len(),
{
    if s.len() == 0 {
        0
    } else {
        domain_count(s.drop_last(), domain) + if s.last().domain == domain {
            1nat
        } else {
            0nat
        }
    }
}

/// The candidates with at most two of a domain.
pub open spec fn without_crowds(r: RankingView) -> RankingView
    decreases r.candidates.len(),
{
    if r.candidates.len() == 0 {
        r
    } else {
        let before = without_crowds(
            RankingView { candidates: r.candidates.drop_last(), rejected: r.rejected },
        );
        let c = r.candidates.last();
        if domain_count(before.candidates, c.domain) >= 2 {
            RankingView {
                candidates: before.candidates,
                rejected: before.rejected.push(
                    rejection(c.hit.url, "domain_diversity_cap"@, c.score),
                ),
            }
        } else {
            RankingView { candidates: before.candidates.push(c), rejected: before.rejected }
        }
    }
}

/// The position of the first candidate that a query found.
pub open spec fn first_for(s: Seq<RankedView>, query: Seq<char>, from: int) -> Option<int>
    decreases s.len() - from,
{
    if from >= s.len() {
        None
    } else if s[from].matched_queries.contains(query) {
        Some(from)
    } else {
        first_for(s, query, from + 1)
    }
}

/// A round in which each query takes its best candidate that is left: those taken so far, and
/// those left.
pub open spec fn round(
    queries: Seq<Seq<char>>,
    taken: Seq<RankedView>,
    left: Seq<RankedView>,
) -> (Seq<RankedView>, Seq<RankedView>)
    decreases queries.len(),
{
    if queries.len() == 0 {
        (taken, left)
    } else {
        let (t, l) = round(queries.drop_last(), taken, left);
        match first_for(l, queries.last(), 0) {
            Some(k) => (t.push(l[k]), l.remove(k)),
            None => (t, l),
        }
    }
}

/// A round moves candidates from those left to those taken.
pub proof fn lemma_round(queries: Seq<Seq<char>>, taken: Seq<RankedView>, left: Seq<RankedView>)
    ensures
        round(queries, taken, left).0.len() + round(queries, taken, left).1.len() == taken.len()
            + left.len(),
        round(queries, taken, left).0.len() >= taken.len(),
        (round(queries, taken, left).0 + round(queries, taken, left).1).to_multiset() == (taken
            + left).to_multiset(),
        round(queries, taken, left).0.len() == taken.len() ==> round(queries, taken, left) == (
            taken,
            left,
        ),
    decreases queries.len(),
{
    if queries.len() > 0 {
        let (t, l) = round(queries.drop_last(), taken, left);
        lemma_round(queries.drop_last(), taken, left);
        lemma_first_for(l, queries.last(), 0);
        match first_for(l, queries.last(), 0) {
            Some(k) => {
                lemma_move(t, l, k);
            },
            None => {},
        }
    }
}

proof fn lemma_move(t: Seq<RankedView>, l: Seq<RankedView>, k: int)
    requires
        0 <= k < l.len(),
    ensures
        (t.push(l[k]) + l.remove(k)).to_multiset() == (t + l).to_multiset(),
{
    broadcast use vstd::seq_lib::group_to_multiset_ensures;

    vstd::seq_lib::lemma_multiset_commutative(t.push(l[k]), l.remove(k));
    vstd::seq_lib::lemma_multiset_commutative(t, l);
    assert(l.remove(k).to_multiset() =~= l.to_multiset().remove(l[k]));
    assert(t.push(l[k]).to_multiset() =~= t.to_multiset().insert(l[k]));
    assert(l.to_multiset().count(l[k]) > 0) by {
        assert(l.contains(l[k]));
    }
    assert((t.push(l[k]) + l.remove(k)).to_multiset() =~= (t + l).to_multiset());
}

proof fn lemma_first_for(s: Seq<RankedView>, query: Seq<char>, from: int)
    requires
        0 <= from,
    ensures
        match first_for(s, query, from) {
            Some(k) => from <= k < s.len() && s[k].matched_queries.contains(query) && forall|j: int|
                from <= j < k ==> !(#[trigger] s[j]).matched_queries.contains(query),
            None => forall|j: int|
                from <= j < s.len() ==> !(#[trigger] s[j]).matched_queries.contains(query),
        },
    decreases s.len() - from,
{
    if from < s.len() && !s[from].matched_queries.contains(query) {
        lemma_first_for(s, query, from + 1);
    }
}

/// The candidates in rounds, in each of which every query takes its best one that is left; those
/// that no query found come last.
pub open spec fn diversified(
    queries: Seq<Seq<char>>,
    taken: Seq<RankedView>,
    left: Seq<RankedView>,
) -> Seq<RankedView>
    decreases left.len(),
{
    let (t, l) = round(queries, taken, left);
    if t.len() == taken.len() {
        taken + left
    } else if l.len() < left.len() {
        diversified(queries, t, l)
    } else {
        taken + left
    }
}

/// The ranking of some pages.
pub open spec fn ranked(
    queries: Seq<Seq<char>>,
    g: GatheringView,
    scores: Seq<GroupScore>,
) -> RankingView {
    let first = scored_groups(g.rejected, queries, g.groups, scores);
    let chosen = without_crowds(
        without_repeats(
            RankingView {
                candidates: ordered(first.candidates, candidate_order()),
                rejected: first.rejected,
            },
        ),
    );
    RankingView {
        candidates: diversified(queries, Seq::empty(), chosen.candidates),
        rejected: chosen.rejected,
    }
}

/// The terms of some titles.
spec fn titles_known(titles: Seq<Vec<String>>, kept: Seq<RankedView>) -> bool {
    &&& titles.len() == kept.len()
    &&& forall|i: int|
        0 <= i < titles.len() ==> texts((#[trigger] titles[i])@).no_duplicates() && texts(
            titles[i]@,
        ).to_set() == term_set(kept[i].hit.title)
}

fn title_is_repeated(
    kept: &Vec<RankedCandidate>,
    titles: &Vec<Vec<String>>,
    c: &RankedCandidate,
    title: &Vec<String>,
) -> (res: bool)
    requires
        titles_known(titles@, item_views(kept@)),
        texts(title@).no_duplicates(),
        texts(title@).to_set() == term_set(c@.hit.title),
    ensures
        res == repeats_a_title(item_views(kept@), c@),
{
    proof {
        texts(title@).unique_seq_to_set();
        assert(texts(title@).len() == title@.len());
    }
    if title.len() < 3 {
        return false;
    }
    let mut i: usize = 0;
    while i < kept.len()
        invariant
            titles_known(titles@, item_views(kept@)),
            texts(title@).no_duplicates(),
            texts(title@).to_set() == term_set(c@.hit.title),
            term_set(c@.hit.title).len() >= 3,
            i <= kept@.len(),
            forall|k: int| 0 <= k < i ==> !same_story(#[trigger] item_views(kept@)[k], c@),
        decreases kept@.len() - i,
    {
        assert(item_views(kept@)[i as int] == kept@[i as int]@);
        assert(texts(titles@[i as int]@).no_duplicates());
        let related = same_text(&kept[i].domain, &c.domain) || domains_share_brand(
            &kept[i].domain,
            &c.domain,
        );
        if related && title_similarity(title, &titles[i]) {
            assert(same_story(item_views(kept@)[i as int], c@));
            return true;
        }
        i = i + 1;
    }
    false
}

fn drop_repeats(r: CandidateRanking) -> (res: CandidateRanking)
    ensures
        res@ == without_repeats(r@),
{
    let mut rest = r.candidates;
    let mut rejected = r.rejected;
    let ghost all = item_views(rest@);
    let ghost start = item_views(rejected@);
    let ghost mut done: int = 0;
    let mut kept: Vec<RankedCandidate> = Vec::new();
    let mut titles: Vec<Vec<String>> = Vec::new();
    proof {
        assert(all.skip(0) =~= all);
        assert(item_views(kept@) =~= Seq::empty());
        assert((RankingView { candidates: item_views(kept@), rejected: start }) == without_repeats(
            RankingView { candidates: all.take(0), rejected: start },
        ));
    }
    while rest.len() > 0
        invariant
            0 <= done <= all.len(),
            item_views(rest@) == all.skip(done),
            titles_known(titles@, item_views(kept@)),
            (RankingView { candidates: item_views(kept@), rejected: item_views(rejected@) })
                == without_repeats(RankingView { candidates: all.take(done), rejected: start }),
        decreases rest@.len(),
    {
        let ghost before = rest@;
        let ghost was = kept@;
        let ghost knew = titles@;
        let c = rest.remove(0);
        proof {
            assert(item_views(before)[0] == before[0]@);
            assert(item_views(rest@) =~= item_views(before).remove(0));
            assert(all.skip(done).remove(0) =~= all.skip(done + 1));
            assert(all.take(done + 1).drop_last() =~= all.take(done));
            assert(all.take(done + 1).last() == c@);
        }
        let title = terms(&c.hit.title);
        if title_is_repeated(&kept, &titles, &c, &title) {
            reject(&mut rejected, &c.hit.url, "near_duplicate_title", c.score);
        } else {
            kept.push(c);
            titles.push(title);
            proof {
                assert(item_views(kept@) =~= item_views(was).push(c@));
                assert forall|i: int| 0 <= i < titles@.len() implies texts(
                    (#[trigger] titles@[i])@,
                ).no_duplicates() && texts(titles@[i]@).to_set() == term_set(
                    item_views(kept@)[i].hit.title,
                ) by {
                    if i < knew.len() {
                        assert(titles@[i] == knew[i]);
                        assert(item_views(kept@)[i] == item_views(was)[i]);
                    }
                }
            }
        }
        proof {
            done = done + 1;
        }
    }
    proof {
        assert(item_views(rest@).len() == 0);
        assert(all.take(done) =~= all);
    }
    CandidateRanking { candidates: kept, rejected }
}

fn count_domain(kept: &Vec<RankedCandidate>, domain: &str) -> (res: usize)
    ensures
        res == domain_count(item_views(kept@), domain@),
{
    let ghost all = item_views(kept@);
    let mut n: usize = 0;
    let mut i: usize = 0;
    while i < kept.len()
        invariant
            i <= kept@.len(),
            n <= i,
            all == item_views(kept@),
            n == domain_count(all.take(i as int), domain@),
        decreases kept@.len() - i,
    {
        proof {
            assert(all.take(i + 1).drop_last() =~= all.take(i as int));
            assert(all.take(i + 1).last() == kept@[i as int]@);
        }
        if same_text(&kept[i].domain, domain) {
            n = n + 1;
        }
        i = i + 1;
    }
    assert(all.take(all.len() as int) =~= all);
    n
}

fn drop_crowds(r: CandidateRanking) -> (res: CandidateRanking)
    ensures
        res@ == without_crowds(r@),
{
    let mut rest = r.candidates;
    let mut rejected = r.rejected;
    let ghost all = item_views(rest@);
    let ghost start = item_views(rejected@);
    let ghost mut done: int = 0;
    let mut kept: Vec<RankedCandidate> = Vec::new();
    proof {
        assert(all.skip(0) =~= all);
        assert(item_views(kept@) =~= Seq::empty());
        assert((RankingView { candidates: item_views(kept@), rejected: start }) == without_crowds(
            RankingView { candidates: all.take(0), rejected: start },
        ));
    }
    while rest.len() > 0
        invariant
            0 <= done <= all.len(),
            item_views(rest@) == all.skip(done),
            (RankingView { candidates: item_views(kept@), rejected: item_views(rejected@) })
                == without_crowds(RankingView { candidates: all.take(done), rejected: start }),
        decreases rest@.len(),
    {
        let ghost before = rest@;
        let ghost was = kept@;
        let c = rest.remove(0);
        proof {
            assert(item_views(before)[0] == before[0]@);
            assert(item_views(rest@) =~= item_views(before).remove(0));
            assert(all.skip(done).remove(0) =~= all.skip(done + 1));
            assert(all.take(done + 1).drop_last() =~= all.take(done));
            assert(all.take(done + 1).last() == c@);
        }
        if count_domain(&kept, &c.domain) >= 2 {
            reject(&mut rejected, &c.hit.url, "domain_diversity_cap", c.score);
        } else {
            kept.push(c);
            assert(item_views(kept@) =~= item_views(was).push(c@));
        }
        proof {
            done = done + 1;
        }
    }
    proof {
        assert(item_views(rest@).len() == 0);
        assert(all.take(done) =~= all);
    }
    CandidateRanking { candidates: kept, rejected }
}

fn find_for(left: &Vec<RankedCandidate>, query: &str) -> (res: Option<usize>)
    ensures
        match res {
            Some(k) => first_for(item_views(left@), query@, 0) == Some(k as int) && k
                < left@.len(),
            None => first_for(item_views(left@), query@, 0) is None,
        },
{
    let ghost all = item_views(left@);
    let mut k: usize = 0;
    while k < left.len()
        invariant
            all == item_views(left@),
            k <= left@.len(),
            first_for(all, query@, 0) == first_for(all, query@, k as int),
        decreases left@.len() - k,
    {
        assert(all[k as int] == left@[k as int]@);
        if list_has(&left[k].matched_queries, query) {
            return Some(k);
        }
        k = k + 1;
    }
    assert(first_for(all, query@, k as int) is None);
    None
}

fn take_round(
    queries: &Vec<String>,
    taken: &mut Vec<RankedCandidate>,
    left: &mut Vec<RankedCandidate>,
)
    ensures
        (item_views(final(taken)@), item_views(final(left)@)) == round(
            texts(queries@),
            item_views(old(taken)@),
            item_views(old(left)@),
        ),
{
    let ghost t0 = item_views(taken@);
    let ghost l0 = item_views(left@);
    let mut i: usize = 0;
    assert(texts(queries@).take(0).len() == 0);
    while i < queries.len()
        invariant
            i <= queries@.len(),
            (item_views(taken@), item_views(left@)) == round(
                texts(queries@).take(i as int),
                t0,
                l0,
            ),
        decreases queries@.len() - i,
    {
        proof {
            assert(texts(queries@).take(i + 1).drop_last() =~= texts(queries@).take(i as int));
            assert(texts(queries@).take(i + 1).last() == queries@[i as int]@);
        }
        if let Some(k) = find_for(left, &queries[i]) {
            let ghost t = taken@;
            let ghost l = left@;
            let c = left.remove(k);
            taken.push(c);
            assert(item_views(left@) =~= item_views(l).remove(k as int));
            assert(item_views(taken@) =~= item_views(t).push(item_views(l)[k as int]));
        }
        i = i + 1;
    }
    assert(texts(queries@).take(queries@.len() as int) =~= texts(queries@));
}

/// Puts candidates in rounds, in each of which every query takes its best one that is left.
pub fn diversify_by_query(queries: &Vec<String>, candidates: Vec<RankedCandidate>) -> (res: Vec<
    RankedCandidate,
>)
    ensures
        item_views(res@) == diversified(
            texts(queries@),
            Seq::empty(),
            item_views(candidates@),
        ),
{
    let mut left = candidates;
    let mut taken: Vec<RankedCandidate> = Vec::new();
    let ghost goal = diversified(texts(queries@), Seq::empty(), item_views(candidates@));
    assert(item_views(taken@) =~= Seq::empty());
    let mut going = true;
    while going
        invariant
            going ==> goal == diversified(texts(queries@), item_views(taken@), item_views(left@)),
            !going ==> goal == item_views(taken@) + item_views(left@),
        decreases left@.len() + if going { 1nat } else { 0nat },
    {
        let before: usize = taken.len();
        let ghost t = item_views(taken@);
        let ghost l = item_views(left@);
        proof {
            lemma_round(texts(queries@), t, l);
            assert(t.len() == taken@.len() && l.len() == left@.len());
        }
        take_round(queries, &mut taken, &mut left);
        proof {
            assert(item_views(taken@).len() == taken@.len());
            assert(item_views(left@).len() == left@.len());
        }
        if taken.len() == before {
            going = false;
        }
    }
    let ghost t = taken@;
    let ghost l = left@;
    while left.len() > 0
        invariant
            item_views(taken@) + item_views(left@) == item_views(t) + item_views(l),
        decreases left@.len(),
    {
        let ghost t1 = taken@;
        let ghost l1 = left@;
        let c = left.remove(0);
        taken.push(c);
        proof {
            assert(item_views(left@) =~= item_views(l1).remove(0));
            assert(item_views(taken@) =~= item_views(t1).push(item_views(l1)[0]));
            assert(item_views(taken@) + item_views(left@) =~= item_views(t1) + item_views(l1));
        }
    }
    assert(item_views(taken@) + item_views(left@) =~= item_views(taken@));
    taken
}

/// Ranks the pages of a gathering by their scores.
pub fn rank_candidates(queries: &Vec<String>, gathering: Gathering, scores: &Vec<GroupScore>) -> (res:
    CandidateRanking)
    requires
        scores@.len() >= gathering@.groups.len(),
    ensures
        res@ == ranked(texts(queries@), gathering@, scores@),
{
    let mut rest = gathering.groups;
    let ghost all = item_views(rest@);
    let ghost start = item_views(gathering.rejected@);
    let ghost mut done: int = 0;
    let mut r = CandidateRanking { candidates: Vec::new(), rejected: gathering.rejected };
    let total: usize = scores.len();
    let mut i: usize = 0;
    proof {
        assert(all.skip(0) =~= all);
        assert(r@ =~= scored_groups(start, texts(queries@), all.take(0), scores@));
    }
    while rest.len() > 0
        invariant
            0 <= done <= all.len(),
            i == done,
            total == scores@.len(),
            all.len() <= total,
            item_views(rest@) == all.skip(done),
            r@ == scored_groups(start, texts(queries@), all.take(done), scores@),
        decreases rest@.len(),
    {
        let ghost before = rest@;
        assert(item_views(rest@).len() == rest@.len());
        let g = rest.remove(0);
        proof {
            assert(item_views(before)[0] == before[0]@);
            assert(item_views(rest@) =~= item_views(before).remove(0));
            assert(all.skip(done).remove(0) =~= all.skip(done + 1));
            assert(all.take(done + 1).drop_last() =~= all.take(done));
            assert(all.take(done + 1).last() == g@);
        }
        score_group(&mut r, queries, g, scores[i]);
        proof {
            done = done + 1;
        }
        i = i + 1;
    }
    proof {
        assert(item_views(rest@).len() == 0);
        assert(all.take(done) =~= all);
        assert(crate::order::rank_order::<RankedCandidate>() =~= candidate_order());
    }
    let in_order = CandidateRanking {
        candidates: in_rank_order(r.candidates),
        rejected: r.rejected,
    };
    let chosen = drop_crowds(drop_repeats(in_order));
    CandidateRanking {
        candidates: diversify_by_query(queries, chosen.candidates),
        rejected: chosen.rejected,
    }
}

// ---------------------------------------------------------------------------
// Laws
// ---------------------------------------------------------------------------
/// Each page stands once.
pub open spec fn pages_differ(groups: Seq<GroupView>) -> bool {
    forall|i: int, j: int|
        0 <= i < j < groups.len() ==> (#[trigger] groups[i]).normalized_url != (
        #[trigger] groups[j]).normalized_url
}

proof fn lemma_group_at(groups: Seq<GroupView>, url: Seq<char>, from: int)
    requires
        0 <= from,
    ensures
        match group_at(groups, url, from) {
            Some(k) => from <= k < groups.len() && groups[k].normalized_url == url && forall|j: int|
                from <= j < k ==> (#[trigger] groups[j]).normalized_url != url,
            None => forall|j: int|
                from <= j < groups.len() ==> (#[trigger] groups[j]).normalized_url != url,
        },
    decreases groups.len() - from,
{
    if from < groups.len() && groups[from].normalized_url != url {
        lemma_group_at(groups, url, from + 1);
    }
}

/// A URL is one of a page.
pub open spec fn is_url_of(url: Seq<char>, page: Seq<char>) -> bool {
    normalized(url) is Ok && normalized(url)->Ok_0.0 == page
}

/// The result of each page that counts has a URL of that page.
pub open spec fn pages_are_named(groups: Seq<GroupView>) -> bool {
    forall|k: int|
        0 <= k < groups.len() ==> is_url_of(
            (#[trigger] groups[k]).hit.url,
            groups[k].normalized_url,
        )
}

proof fn lemma_gathered_hits_differ(
    g: GatheringView,
    q: usize,
    hits: Seq<HitView>,
    previews: Seq<Preview>,
)
    requires
        pages_differ(g.groups),
        pages_are_named(g.groups),
    ensures
        pages_differ(gathered_hits(g, q, hits, previews).groups),
        pages_are_named(gathered_hits(g, q, hits, previews).groups),
    decreases hits.len(),
{
    if hits.len() > 0 {
        lemma_gathered_hits_differ(g, q, hits.drop_last(), previews);
        let before = gathered_hits(g, q, hits.drop_last(), previews);
        let hit = hits.last();
        if normalized(hit.url) is Ok && unsafe_url_reason(hit.url) is None {
            lemma_group_at(before.groups, normalized(hit.url)->Ok_0.0, 0);
        }
    }
}

/// However often a page is found, under whatever spelling of its URL, it is gathered once, with
/// a result whose URL is one of the page.
pub proof fn law_pages_are_gathered_once(
    searches: Seq<Seq<HitView>>,
    previews: Seq<Seq<Preview>>,
    n: nat,
)
    ensures
        pages_differ(gathered_searches(searches, previews, n).groups),
        pages_are_named(gathered_searches(searches, previews, n).groups),
    decreases n,
{
    if n > 0 {
        law_pages_are_gathered_once(searches, previews, (n - 1) as nat);
        lemma_gathered_hits_differ(
            gathered_searches(searches, previews, (n - 1) as nat),
            (n - 1) as usize,
            searches[n - 1],
            previews[n - 1],
        );
    }
}

/// The order of candidates is an order.
pub proof fn law_candidate_order_is_an_order()
    ensures
        crate::order::is_ordering(candidate_order()),
{
    let before = candidate_order();
    crate::order::law_text_order_is_total();
    let texts_before = text_order();
    assert forall|x: RankedView, y: RankedView| #[trigger] before(x, y) implies !before(y, x) by {
        assert(texts_before(x.normalized_url, y.normalized_url) == text_less(
            x.normalized_url,
            y.normalized_url,
        ));
        assert(texts_before(y.normalized_url, x.normalized_url) == text_less(
            y.normalized_url,
            x.normalized_url,
        ));
    }
    assert forall|x: RankedView, y: RankedView, z: RankedView|
        !(#[trigger] before(x, y)) && !(#[trigger] before(y, z)) implies !before(x, z) by {
        assert(texts_before(x.normalized_url, y.normalized_url) == text_less(
            x.normalized_url,
            y.normalized_url,
        ));
        assert(texts_before(y.normalized_url, z.normalized_url) == text_less(
            y.normalized_url,
            z.normalized_url,
        ));
        assert(texts_before(x.normalized_url, z.normalized_url) == text_less(
            x.normalized_url,
            z.normalized_url,
        ));
    }
}

/// Before they are put in rounds, candidates stand by falling scores.
pub proof fn law_candidates_stand_by_score(s: Seq<RankedView>, i: int, j: int)
    requires
        0 <= i < j < ordered(s, candidate_order()).len(),
    ensures
        score_rank(ordered(s, candidate_order())[i].score) >= score_rank(
            ordered(s, candidate_order())[j].score,
        ),
{
    law_candidate_order_is_an_order();
    crate::order::law_ordered(s, candidate_order());
    let before = candidate_order();
    let out = ordered(s, before);
    assert(!before(out[j], out[i]));
}

/// Putting candidates in rounds loses none and adds none.
pub proof fn law_rounds_keep_every_candidate(
    queries: Seq<Seq<char>>,
    taken: Seq<RankedView>,
    left: Seq<RankedView>,
)
    ensures
        diversified(queries, taken, left).to_multiset() == (taken + left).to_multiset(),
        diversified(queries, taken, left).len() == taken.len() + left.len(),
        taken.is_prefix_of(diversified(queries, taken, left)),
    decreases left.len(),
{
    let (t, l) = round(queries, taken, left);
    lemma_round(queries, taken, left);
    lemma_round_prefix(queries, taken, left);
    if t.len() != taken.len() && l.len() < left.len() {
        law_rounds_keep_every_candidate(queries, t, l);
        let out = diversified(queries, t, l);
        assert(out.subrange(0, taken.len() as int) =~= out.subrange(0, t.len() as int).subrange(
            0,
            taken.len() as int,
        ));
    } else {
        assert((taken + left).subrange(0, taken.len() as int) =~= taken);
    }
}

proof fn lemma_round_prefix(
    queries: Seq<Seq<char>>,
    taken: Seq<RankedView>,
    left: Seq<RankedView>,
)
    ensures
        taken.is_prefix_of(round(queries, taken, left).0),
        round(queries, taken, left).0.len() <= taken.len() + queries.len(),
    decreases queries.len(),
{
    if queries.len() > 0 {
        lemma_round_prefix(queries.drop_last(), taken, left);
        let (t, l) = round(queries.drop_last(), taken, left);
        let t2 = round(queries, taken, left).0;
        assert(t2.subrange(0, taken.len() as int) =~= t.subrange(0, taken.len() as int));
    } else {
        assert(taken.subrange(0, taken.len() as int) =~= taken);
    }
}

/// A round leaves no query out that it could serve.
proof fn lemma_round_serves(
    queries: Seq<Seq<char>>,
    left: Seq<RankedView>,
    q: int,
    c: int,
)
    requires
        0 <= q < queries.len(),
        0 <= c < left.len(),
        left[c].matched_queries.contains(queries[q]),
    ensures
        exists|i: int|
            0 <= i < round(queries, Seq::empty(), left).0.len() && (#[trigger] round(
                queries,
                Seq::empty(),
                left,
            ).0[i]).matched_queries.contains(queries[q]),
    decreases queries.len(),
{
    let none = Seq::<RankedView>::empty();
    let front = queries.drop_last();
    let (t, l) = round(front, none, left);
    let t2 = round(queries, none, left).0;
    lemma_first_for(l, queries.last(), 0);
    if q < queries.len() - 1 {
        assert(front[q] == queries[q]);
        lemma_round_serves(front, left, q, c);
        let i = choose|i: int|
            0 <= i < t.len() && (#[trigger] t[i]).matched_queries.contains(front[q]);
        assert(t2[i] == t[i]);
    } else {
        match first_for(l, queries.last(), 0) {
            Some(k) => {
                assert(t2[t.len() as int] == l[k]);
            },
            None => {
                lemma_round(front, none, left);
                let x = left[c];
                crate::order::lemma_same_items(t + l, none + left, x);
                assert((none + left)[c] == x);
                assert((t + l).contains(x));
                let m = choose|m: int| 0 <= m < (t + l).len() && (t + l)[m] == x;
                if m < t.len() {
                    assert(t2[m] == x);
                } else {
                    assert(l[m - t.len()] == x);
                }
            },
        }
    }
}

/// Every query that found a candidate has one among the first, as many as there are queries.
pub proof fn law_every_query_is_covered_first(
    queries: Seq<Seq<char>>,
    candidates: Seq<RankedView>,
    q: int,
    c: int,
)
    requires
        0 <= q < queries.len(),
        0 <= c < candidates.len(),
        candidates[c].matched_queries.contains(queries[q]),
    ensures
        exists|i: int|
            0 <= i < queries.len() && i < candidates.len() && (#[trigger] diversified(
                queries,
                Seq::empty(),
                candidates,
            )[i]).matched_queries.contains(queries[q]),
{
    let none = Seq::<RankedView>::empty();
    let (t, l) = round(queries, none, candidates);
    let out = diversified(queries, none, candidates);
    lemma_round(queries, none, candidates);
    lemma_round_prefix(queries, none, candidates);
    lemma_round_serves(queries, candidates, q, c);
    law_rounds_keep_every_candidate(queries, none, candidates);
    let i = choose|i: int|
        0 <= i < t.len() && (#[trigger] t[i]).matched_queries.contains(queries[q]);
    law_rounds_keep_every_candidate(queries, t, l);
    assert(out == diversified(queries, t, l));
    assert(out.subrange(0, t.len() as int)[i] == out[i]);
}

proof fn lemma_domain_count_remove(s: Seq<RankedView>, domain: Seq<char>, k: int)
    requires
        0 <= k < s.len(),
    ensures
        domain_count(s, domain) == domain_count(s.remove(k), domain) + if s[k].domain == domain {
            1nat
        } else {
            0nat
        },
    decreases s.len(),
{
    if k == s.len() - 1 {
        assert(s.remove(k) =~= s.drop_last());
    } else {
        lemma_domain_count_remove(s.drop_last(), domain, k);
        assert(s.remove(k).drop_last() =~= s.drop_last().remove(k));
        assert(s.remove(k).last() == s.last());
    }
}

proof fn lemma_domain_count_same(s: Seq<RankedView>, t: Seq<RankedView>, domain: Seq<char>)
    requires
        s.to_multiset() == t.to_multiset(),
    ensures
        domain_count(s, domain) == domain_count(t, domain),
    decreases s.len(),
{
    broadcast use vstd::seq_lib::group_to_multiset_ensures;

    if s.len() == 0 {
        assert(t.len() == t.to_multiset().len());
        assert(s.len() == s.to_multiset().len());
    } else {
        let x = s.last();
        crate::order::lemma_same_items(s, t, x);
        assert(s[s.len() - 1] == x);
        let k = choose|k: int| 0 <= k < t.len() && t[k] == x;
        assert(s.remove(s.len() - 1) =~= s.drop_last());
        assert(s.drop_last().to_multiset() =~= s.to_multiset().remove(x));
        assert(t.remove(k).to_multiset() =~= t.to_multiset().remove(x));
        lemma_domain_count_same(s.drop_last(), t.remove(k), domain);
        lemma_domain_count_remove(t, domain, k);
    }
}

proof fn lemma_crowds_are_gone(r: RankingView, domain: Seq<char>)
    ensures
        domain_count(without_crowds(r).candidates, domain) <= 2,
    decreases r.candidates.len(),
{
    if r.candidates.len() > 0 {
        let front = RankingView { candidates: r.candidates.drop_last(), rejected: r.rejected };
        lemma_crowds_are_gone(front, domain);
        let before = without_crowds(front);
        let c = r.candidates.last();
        if domain_count(before.candidates, c.domain) < 2 {
            assert(before.candidates.push(c).drop_last() =~= before.candidates);
        }
    }
}

/// A ranking has at most two candidates of a domain.
pub proof fn law_at_most_two_of_a_domain(
    queries: Seq<Seq<char>>,
    g: GatheringView,
    scores: Seq<GroupScore>,
    domain: Seq<char>,
)
    ensures
        domain_count(ranked(queries, g, scores).candidates, domain) <= 2,
{
    let first = scored_groups(g.rejected, queries, g.groups, scores);
    let unique = without_repeats(
        RankingView {
            candidates: ordered(first.candidates, candidate_order()),
            rejected: first.rejected,
        },
    );
    let chosen = without_crowds(unique);
    let none = Seq::<RankedView>::empty();
    lemma_crowds_are_gone(unique, domain);
    law_rounds_keep_every_candidate(queries, none, chosen.candidates);
    assert(none + chosen.candidates =~= chosen.candidates);
    lemma_domain_count_same(
        diversified(queries, none, chosen.candidates),
        chosen.candidates,
        domain,
    );
}

/// The pages of some groups.
pub open spec fn group_pages(groups: Seq<GroupView>) -> Seq<Seq<char>> {
    groups.map_values(|g: GroupView| g.normalized_url)
}

/// The pages of some candidates.
pub open spec fn candidate_pages(s: Seq<RankedView>) -> Seq<Seq<char>> {
    s.map_values(|c: RankedView| c.normalized_url)
}

/// The page that a URL is one of.
pub open spec fn page_of(url: Seq<char>) -> Seq<char> {
    normalized(url)->Ok_0.0
}

/// The pages of some rejections.
pub open spec fn rejected_pages(s: Seq<RejectionView>) -> Seq<Seq<char>> {
    s.map_values(|r: RejectionView| page_of(r.url))
}

/// The pages of a ranking's candidates, and of its rejections behind the first ones.
spec fn accounted(r: RankingView, n: int) -> Multiset<Seq<char>> {
    candidate_pages(r.candidates).to_multiset().add(
        rejected_pages(r.rejected.skip(n)).to_multiset(),
    )
}

/// Each candidate and each rejection behind the first ones has a URL of its page.
spec fn ranking_is_named(r: RankingView, n: int) -> bool {
    &&& n <= r.rejected.len()
    &&& forall|i: int|
        0 <= i < r.candidates.len() ==> is_url_of(
            (#[trigger] r.candidates[i]).hit.url,
            r.candidates[i].normalized_url,
        )
    &&& forall|i: int|
        n <= i < r.rejected.len() ==> normalized((#[trigger] r.rejected[i]).url) is Ok
}

proof fn lemma_one_more_candidate(r: RankingView, c: RankedView, n: int)
    ensures
        accounted(RankingView { candidates: r.candidates.push(c), rejected: r.rejected }, n)
            == accounted(r, n).insert(c.normalized_url),
{
    broadcast use vstd::seq_lib::group_to_multiset_ensures;

    assert(candidate_pages(r.candidates.push(c)) =~= candidate_pages(r.candidates).push(
        c.normalized_url,
    ));
    assert(accounted(RankingView { candidates: r.candidates.push(c), rejected: r.rejected }, n)
        =~= accounted(r, n).insert(c.normalized_url));
}

proof fn lemma_one_more_rejection(r: RankingView, x: RejectionView, n: int)
    requires
        0 <= n <= r.rejected.len(),
    ensures
        accounted(RankingView { candidates: r.candidates, rejected: r.rejected.push(x) }, n)
            == accounted(r, n).insert(page_of(x.url)),
{
    broadcast use vstd::seq_lib::group_to_multiset_ensures;

    let rest = r.rejected.skip(n);
    assert(r.rejected.push(x).skip(n) =~= rest.push(x));
    assert(rejected_pages(rest.push(x)) =~= rejected_pages(rest).push(page_of(x.url)));
    assert(accounted(RankingView { candidates: r.candidates, rejected: r.rejected.push(x) }, n)
        =~= accounted(r, n).insert(page_of(x.url)));
}

proof fn lemma_scored_pages(
    rejected: Seq<RejectionView>,
    queries: Seq<Seq<char>>,
    groups: Seq<GroupView>,
    scores: Seq<GroupScore>,
)
    requires
        pages_are_named(groups),
    ensures
        ({
            let r = scored_groups(rejected, queries, groups, scores);
            let n = rejected.len() as int;
            &&& ranking_is_named(r, n)
            &&& r.rejected.take(n) == rejected
            &&& accounted(r, n) == group_pages(groups).to_multiset()
        }),
    decreases groups.len(),
{
    broadcast use vstd::seq_lib::group_to_multiset_ensures;

    let r = scored_groups(rejected, queries, groups, scores);
    let n = rejected.len() as int;
    if groups.len() == 0 {
        assert(r.rejected.take(n) =~= rejected);
        assert(candidate_pages(r.candidates) =~= Seq::empty());
        assert(rejected_pages(r.rejected.skip(n)) =~= Seq::empty());
        assert(group_pages(groups) =~= Seq::empty());
        assert(accounted(r, n) =~= group_pages(groups).to_multiset());
    } else {
        let front = groups.drop_last();
        let g = groups.last();
        assert forall|k: int| 0 <= k < front.len() implies is_url_of(
            (#[trigger] front[k]).hit.url,
            front[k].normalized_url,
        ) by {
            assert(front[k] == groups[k]);
        }
        lemma_scored_pages(rejected, queries, front, scores);
        let before = scored_groups(rejected, queries, front, scores);
        assert(is_url_of(groups[groups.len() - 1].hit.url, g.normalized_url));
        assert(group_pages(groups) =~= group_pages(front).push(g.normalized_url));
        if r.rejected.len() > before.rejected.len() {
            lemma_one_more_rejection(before, r.rejected.last(), n);
            assert(r.rejected =~= before.rejected.push(r.rejected.last()));
        } else {
            lemma_one_more_candidate(before, r.candidates.last(), n);
            assert(r.candidates =~= before.candidates.push(r.candidates.last()));
        }
        assert(r.rejected.take(n) =~= before.rejected.take(n));
    }
}

/// A step of a sieve keeps a candidate or turns it into a rejection.
spec fn sieves(before: RankingView, c: RankedView, after: RankingView) -> bool {
    ||| after.candidates == before.candidates.push(c) && after.rejected == before.rejected
    ||| after.candidates == before.candidates && after.rejected.len() == before.rejected.len() + 1
        && after.rejected.drop_last() == before.rejected && after.rejected.last().url == c.hit.url
}

/// What a sieve keeps of a ranking: every page, and what was rejected before.
spec fn keeps_pages(from: RankingView, to: RankingView, n: int) -> bool {
    &&& ranking_is_named(to, n)
    &&& to.rejected.take(n) == from.rejected.take(n)
    &&& accounted(to, n) == accounted(from, n)
    &&& to.candidates.len() + to.rejected.len() == from.candidates.len() + from.rejected.len()
}

proof fn lemma_sieve_step(r: RankingView, before: RankingView, after: RankingView, n: int)
    requires
        r.candidates.len() > 0,
        0 <= n,
        ranking_is_named(r, n),
        keeps_pages(
            RankingView { candidates: r.candidates.drop_last(), rejected: r.rejected },
            before,
            n,
        ),
        sieves(before, r.candidates.last(), after),
    ensures
        keeps_pages(r, after, n),
{
    let c = r.candidates.last();
    let front = RankingView { candidates: r.candidates.drop_last(), rejected: r.rejected };
    assert(r.candidates =~= front.candidates.push(c));
    lemma_one_more_candidate(front, c, n);
    assert(is_url_of(r.candidates[r.candidates.len() - 1].hit.url, c.normalized_url));
    if after.candidates == before.candidates.push(c) && after.rejected == before.rejected {
        lemma_one_more_candidate(before, c, n);
    } else {
        let x = after.rejected.last();
        lemma_one_more_rejection(before, x, n);
        assert(after.rejected =~= before.rejected.push(x));
        assert(after.rejected.take(n) =~= before.rejected.take(n));
    }
}

proof fn lemma_sieves_keep_pages(r: RankingView, n: int)
    requires
        0 <= n,
        ranking_is_named(r, n),
    ensures
        keeps_pages(r, without_repeats(r), n),
        keeps_pages(r, without_crowds(r), n),
    decreases r.candidates.len(),
{
    if r.candidates.len() > 0 {
        let c = r.candidates.last();
        let front = RankingView { candidates: r.candidates.drop_last(), rejected: r.rejected };
        assert forall|i: int| 0 <= i < front.candidates.len() implies is_url_of(
            (#[trigger] front.candidates[i]).hit.url,
            front.candidates[i].normalized_url,
        ) by {
            assert(front.candidates[i] == r.candidates[i]);
        }
        lemma_sieves_keep_pages(front, n);
        let unique = without_repeats(front);
        assert(without_repeats(r).rejected.len() > unique.rejected.len()
            ==> without_repeats(r).rejected.drop_last() =~= unique.rejected);
        assert(sieves(unique, c, without_repeats(r)));
        lemma_sieve_step(r, unique, without_repeats(r), n);
        let sparse = without_crowds(front);
        assert(without_crowds(r).rejected.len() > sparse.rejected.len()
            ==> without_crowds(r).rejected.drop_last() =~= sparse.rejected);
        assert(sieves(sparse, c, without_crowds(r)));
        lemma_sieve_step(r, sparse, without_crowds(r), n);
    }
}

proof fn lemma_pages_of_the_same(s: Seq<RankedView>, t: Seq<RankedView>)
    requires
        s.to_multiset() == t.to_multiset(),
    ensures
        candidate_pages(s).to_multiset() == candidate_pages(t).to_multiset(),
    decreases s.len(),
{
    broadcast use vstd::seq_lib::group_to_multiset_ensures;

    if s.len() == 0 {
        assert(t.len() == t.to_multiset().len());
        assert(s.len() == s.to_multiset().len());
        assert(candidate_pages(s) =~= candidate_pages(t));
    } else {
        let x = s.last();
        crate::order::lemma_same_items(s, t, x);
        assert(s[s.len() - 1] == x);
        let k = choose|k: int| 0 <= k < t.len() && t[k] == x;
        assert(s.remove(s.len() - 1) =~= s.drop_last());
        assert(s.drop_last().to_multiset() =~= s.to_multiset().remove(x));
        assert(t.remove(k).to_multiset() =~= t.to_multiset().remove(x));
        lemma_pages_of_the_same(s.drop_last(), t.remove(k));
        assert(candidate_pages(s) =~= candidate_pages(s.drop_last()).push(x.normalized_url));
        assert(candidate_pages(t).remove(k) =~= candidate_pages(t.remove(k)));
        assert(candidate_pages(t)[k] == x.normalized_url);
        assert(candidate_pages(t).contains(x.normalized_url));
        assert(candidate_pages(t).to_multiset() =~= candidate_pages(
            t.remove(k),
        ).to_multiset().insert(x.normalized_url));
    }
}

/// Putting candidates in another order keeps every page.
proof fn lemma_reordering_keeps_pages(r: RankingView, s: Seq<RankedView>, n: int)
    requires
        ranking_is_named(r, n),
        s.to_multiset() == r.candidates.to_multiset(),
    ensures
        keeps_pages(r, RankingView { candidates: s, rejected: r.rejected }, n),
{
    lemma_pages_of_the_same(s, r.candidates);
    assert forall|i: int| 0 <= i < s.len() implies is_url_of(
        (#[trigger] s[i]).hit.url,
        s[i].normalized_url,
    ) by {
        crate::order::lemma_same_items(s, r.candidates, s[i]);
        assert(s.contains(s[i]));
        assert(r.candidates.contains(s[i]));
        let k = choose|k: int| 0 <= k < r.candidates.len() && r.candidates[k] == s[i];
        assert(is_url_of(r.candidates[k].hit.url, r.candidates[k].normalized_url));
    }
    crate::order::lemma_same_items(s, r.candidates, r.candidates[0]);
}

proof fn lemma_ranking_keeps_pages(
    queries: Seq<Seq<char>>,
    g: GatheringView,
    scores: Seq<GroupScore>,
)
    requires
        pages_are_named(g.groups),
    ensures
        keeps_pages(
            scored_groups(g.rejected, queries, g.groups, scores),
            ranked(queries, g, scores),
            g.rejected.len() as int,
        ),
{
    let n = g.rejected.len() as int;
    let first = scored_groups(g.rejected, queries, g.groups, scores);
    let start = RankingView {
        candidates: ordered(first.candidates, candidate_order()),
        rejected: first.rejected,
    };
    let unique = without_repeats(start);
    let chosen = without_crowds(unique);
    let none = Seq::<RankedView>::empty();
    lemma_scored_pages(g.rejected, queries, g.groups, scores);
    crate::order::law_ordered(first.candidates, candidate_order());
    lemma_reordering_keeps_pages(first, start.candidates, n);
    lemma_sieves_keep_pages(start, n);
    lemma_sieves_keep_pages(unique, n);
    law_rounds_keep_every_candidate(queries, none, chosen.candidates);
    assert(none + chosen.candidates =~= chosen.candidates);
    lemma_reordering_keeps_pages(chosen, diversified(queries, none, chosen.candidates), n);
}

/// A page is that of a candidate.
pub open spec fn is_candidate(r: RankingView, page: Seq<char>) -> bool {
    exists|i: int| 0 <= i < r.candidates.len() && (#[trigger] r.candidates[i]).normalized_url == page
}

/// A page is that of a rejection behind the first ones.
pub open spec fn is_left_out(r: RankingView, n: int, page: Seq<char>) -> bool {
    exists|i: int| n <= i < r.rejected.len() && is_url_of((#[trigger] r.rejected[i]).url, page)
}

proof fn lemma_where_pages_are(r: RankingView, n: int, page: Seq<char>)
    requires
        0 <= n,
        ranking_is_named(r, n),
    ensures
        is_candidate(r, page) <==> candidate_pages(r.candidates).contains(page),
        is_left_out(r, n, page) <==> rejected_pages(r.rejected.skip(n)).contains(page),
{
    let pages = candidate_pages(r.candidates);
    let rest = r.rejected.skip(n);
    let out = rejected_pages(rest);
    if is_candidate(r, page) {
        let i = choose|i: int|
            0 <= i < r.candidates.len() && (#[trigger] r.candidates[i]).normalized_url == page;
        assert(pages[i] == page);
    }
    if pages.contains(page) {
        let i = choose|i: int| 0 <= i < pages.len() && pages[i] == page;
        assert(r.candidates[i].normalized_url == page);
    }
    if is_left_out(r, n, page) {
        let i = choose|i: int|
            n <= i < r.rejected.len() && is_url_of((#[trigger] r.rejected[i]).url, page);
        assert(rest[i - n] == r.rejected[i]);
        assert(out[i - n] == page);
    }
    if out.contains(page) {
        let i = choose|i: int| 0 <= i < out.len() && out[i] == page;
        assert(rest[i] == r.rejected[i + n]);
        assert(is_url_of(r.rejected[i + n].url, page));
    }
}

/// Every page is accounted for: it is that of a candidate, or of a result that is left out with
/// a reason, and not both. What was left out before stays so, and nothing else is added.
pub proof fn law_every_page_is_accounted_for(
    queries: Seq<Seq<char>>,
    searches: Seq<Seq<HitView>>,
    previews: Seq<Seq<Preview>>,
    searched: nat,
    scores: Seq<GroupScore>,
)
    ensures
        ({
            let g = gathered_searches(searches, previews, searched);
            let r = ranked(queries, g, scores);
            let n = g.rejected.len() as int;
            &&& r.candidates.len() + r.rejected.len() == g.groups.len() + g.rejected.len()
            &&& n <= r.rejected.len() && r.rejected.take(n) == g.rejected
            &&& forall|k: int|
                0 <= k < g.groups.len() ==> (is_candidate(
                    r,
                    (#[trigger] g.groups[k]).normalized_url,
                ) <==> !is_left_out(r, n, g.groups[k].normalized_url))
        }),
{
    broadcast use vstd::seq_lib::group_to_multiset_ensures;

    let g = gathered_searches(searches, previews, searched);
    let r = ranked(queries, g, scores);
    let n = g.rejected.len() as int;
    let first = scored_groups(g.rejected, queries, g.groups, scores);
    law_pages_are_gathered_once(searches, previews, searched);
    lemma_scored_pages(g.rejected, queries, g.groups, scores);
    lemma_ranking_keeps_pages(queries, g, scores);
    let all = group_pages(g.groups);
    lemma_pages_stand_once(g.groups);
    let kept = candidate_pages(r.candidates);
    let out = rejected_pages(r.rejected.skip(n));
    assert(accounted(r, n) == all.to_multiset());
    lemma_accounted_len(first, n);
    assert forall|k: int| 0 <= k < g.groups.len() implies (is_candidate(
        r,
        (#[trigger] g.groups[k]).normalized_url,
    ) <==> !is_left_out(r, n, g.groups[k].normalized_url)) by {
        let page = g.groups[k].normalized_url;
        assert(all[k] == page);
        assert(all.contains(page));
        lemma_where_pages_are(r, n, page);
        assert(all.to_multiset().count(page) == 1);
        assert(accounted(r, n).count(page) == kept.to_multiset().count(page)
            + out.to_multiset().count(page));
    }
}

proof fn lemma_pages_stand_once(groups: Seq<GroupView>)
    requires
        pages_differ(groups),
    ensures
        forall|page: Seq<char>| #[trigger]
            group_pages(groups).to_multiset().count(page) <= 1,
        forall|page: Seq<char>|
            group_pages(groups).contains(page) ==> #[trigger] group_pages(
                groups,
            ).to_multiset().count(page) == 1,
{
    broadcast use vstd::seq_lib::group_to_multiset_ensures;

    let all = group_pages(groups);
    assert forall|i: int, j: int| 0 <= i < all.len() && 0 <= j < all.len() && i != j implies all[i]
        != all[j] by {
        if i < j {
            assert(groups[i].normalized_url != groups[j].normalized_url);
        } else {
            assert(groups[j].normalized_url != groups[i].normalized_url);
        }
    }
    assert(all.no_duplicates());
    all.lemma_multiset_has_no_duplicates();
    assert forall|page: Seq<char>| #[trigger] all.to_multiset().count(page) <= 1 by {
        if all.to_multiset().count(page) > 0 {
            assert(all.to_multiset().contains(page));
        }
    }
}

proof fn lemma_accounted_len(r: RankingView, n: int)
    requires
        0 <= n <= r.rejected.len(),
    ensures
        accounted(r, n).len() == r.candidates.len() + r.rejected.len() - n,
{
    broadcast use vstd::seq_lib::group_to_multiset_ensures;

    assert(candidate_pages(r.candidates).len() == r.candidates.len());
    assert(rejected_pages(r.rejected.skip(n)).len() == r.rejected.len() - n);
}

/// No two candidates are of one page, and each has a URL of its page.
pub proof fn law_candidates_are_different_pages(
    queries: Seq<Seq<char>>,
    searches: Seq<Seq<HitView>>,
    previews: Seq<Seq<Preview>>,
    searched: nat,
    scores: Seq<GroupScore>,
)
    ensures
        ({
            let g = gathered_searches(searches, previews, searched);
            let r = ranked(queries, g, scores);
            &&& candidate_pages(r.candidates).no_duplicates()
            &&& forall|i: int|
                0 <= i < r.candidates.len() ==> is_url_of(
                    (#[trigger] r.candidates[i]).hit.url,
                    r.candidates[i].normalized_url,
                )
        }),
{
    broadcast use vstd::seq_lib::group_to_multiset_ensures;

    let g = gathered_searches(searches, previews, searched);
    let r = ranked(queries, g, scores);
    let n = g.rejected.len() as int;
    law_pages_are_gathered_once(searches, previews, searched);
    lemma_scored_pages(g.rejected, queries, g.groups, scores);
    lemma_ranking_keeps_pages(queries, g, scores);
    lemma_pages_stand_once(g.groups);
    let kept = candidate_pages(r.candidates);
    assert(accounted(r, n) == group_pages(g.groups).to_multiset());
    assert forall|page: Seq<char>| kept.to_multiset().contains(
        page,
    ) implies kept.to_multiset().count(page) == 1 by {
        assert(accounted(r, n).count(page) >= kept.to_multiset().count(page));
        assert(group_pages(g.groups).to_multiset().count(page) <= 1);
    }
    kept.lemma_multiset_has_no_duplicates_conv();
}

/// A score that reaches the bar still does as it is shown.
pub open spec fn keeps_bar(s: GroupScore) -> bool {
    score_rank(MIN_CANDIDATE_SCORE) <= score_rank(s.score) ==> score_rank(MIN_CANDIDATE_SCORE)
        <= score_rank(s.shown)
}

proof fn lemma_scored_reach_the_bar(
    rejected: Seq<RejectionView>,
    queries: Seq<Seq<char>>,
    groups: Seq<GroupView>,
    scores: Seq<GroupScore>,
    i: int,
)
    requires
        groups.len() <= scores.len(),
        forall|k: int| 0 <= k < scores.len() ==> keeps_bar(#[trigger] scores[k]),
        0 <= i < scored_groups(rejected, queries, groups, scores).candidates.len(),
    ensures
        score_rank(MIN_CANDIDATE_SCORE) <= score_rank(
            scored_groups(rejected, queries, groups, scores).candidates[i].score,
        ),
    decreases groups.len(),
{
    if groups.len() > 0 {
        let before = scored_groups(rejected, queries, groups.drop_last(), scores);
        if i < before.candidates.len() {
            lemma_scored_reach_the_bar(rejected, queries, groups.drop_last(), scores, i);
        } else {
            assert(keeps_bar(scores[groups.len() - 1]));
        }
    }
}

proof fn lemma_sieves_only_drop(r: RankingView)
    ensures
        forall|i: int|
            0 <= i < without_repeats(r).candidates.len() ==> r.candidates.contains(
                #[trigger] without_repeats(r).candidates[i],
            ),
        forall|i: int|
            0 <= i < without_crowds(r).candidates.len() ==> r.candidates.contains(
                #[trigger] without_crowds(r).candidates[i],
            ),
    decreases r.candidates.len(),
{
    if r.candidates.len() > 0 {
        let front = RankingView { candidates: r.candidates.drop_last(), rejected: r.rejected };
        lemma_sieves_only_drop(front);
        assert(r.candidates[r.candidates.len() - 1] == r.candidates.last());
        assert forall|c: RankedView| #[trigger]
            front.candidates.contains(c) implies r.candidates.contains(c) by {
            let k = choose|k: int| 0 <= k < front.candidates.len() && front.candidates[k] == c;
            assert(r.candidates[k] == c);
        }
        assert forall|i: int|
            0 <= i < without_repeats(r).candidates.len() implies r.candidates.contains(
            #[trigger] without_repeats(r).candidates[i],
        ) by {
            if i < without_repeats(front).candidates.len() {
                assert(front.candidates.contains(without_repeats(front).candidates[i]));
            }
        }
        assert forall|i: int|
            0 <= i < without_crowds(r).candidates.len() implies r.candidates.contains(
            #[trigger] without_crowds(r).candidates[i],
        ) by {
            if i < without_crowds(front).candidates.len() {
                assert(front.candidates.contains(without_crowds(front).candidates[i]));
            }
        }
    }
}

/// Where the scores as they are shown keep the bar, every candidate's score reaches it.
pub proof fn law_candidates_reach_the_bar(
    queries: Seq<Seq<char>>,
    g: GatheringView,
    scores: Seq<GroupScore>,
)
    requires
        g.groups.len() <= scores.len(),
        forall|k: int| 0 <= k < scores.len() ==> keeps_bar(#[trigger] scores[k]),
    ensures
        forall|i: int|
            0 <= i < ranked(queries, g, scores).candidates.len() ==> score_rank(MIN_CANDIDATE_SCORE)
                <= score_rank((#[trigger] ranked(queries, g, scores).candidates[i]).score),
{
    let r = ranked(queries, g, scores);
    let first = scored_groups(g.rejected, queries, g.groups, scores);
    let start = RankingView {
        candidates: ordered(first.candidates, candidate_order()),
        rejected: first.rejected,
    };
    let unique = without_repeats(start);
    let chosen = without_crowds(unique);
    let none = Seq::<RankedView>::empty();
    crate::order::law_ordered(first.candidates, candidate_order());
    lemma_sieves_only_drop(start);
    lemma_sieves_only_drop(unique);
    law_rounds_keep_every_candidate(queries, none, chosen.candidates);
    assert(none + chosen.candidates =~= chosen.candidates);
    assert forall|i: int| 0 <= i < r.candidates.len() implies score_rank(MIN_CANDIDATE_SCORE)
        <= score_rank((#[trigger] r.candidates[i]).score) by {
        let c = r.candidates[i];
        crate::order::lemma_same_items(r.candidates, chosen.candidates, c);
        assert(r.candidates.contains(c));
        let a = choose|a: int| 0 <= a < chosen.candidates.len() && chosen.candidates[a] == c;
        assert(unique.candidates.contains(chosen.candidates[a]));
        let b = choose|b: int| 0 <= b < unique.candidates.len() && unique.candidates[b] == c;
        assert(start.candidates.contains(unique.candidates[b]));
        crate::order::lemma_same_items(start.candidates, first.candidates, c);
        let k = choose|k: int| 0 <= k < first.candidates.len() && first.candidates[k] == c;
        lemma_scored_reach_the_bar(g.rejected, queries, g.groups, scores, k);
    }
}

/// No two candidates that are kept tell the same story, where the later one's title is long
/// enough to tell.
pub proof fn law_kept_titles_differ(r: RankingView, i: int, j: int)
    requires
        0 <= i < j < without_repeats(r).candidates.len(),
        term_set(without_repeats(r).candidates[j].hit.title).len() >= 3,
    ensures
        !same_story(without_repeats(r).candidates[i], without_repeats(r).candidates[j]),
    decreases r.candidates.len(),
{
    if r.candidates.len() > 0 {
        let front = RankingView { candidates: r.candidates.drop_last(), rejected: r.rejected };
        let before = without_repeats(front);
        if j < before.candidates.len() {
            law_kept_titles_differ(front, i, j);
        }
    }
}

proof fn lemma_with_engines(engines: Seq<Seq<char>>, more: Seq<Seq<char>>, e: Seq<char>)
    ensures
        with_engines(engines, more).contains(e) <==> engines.contains(e) || more.contains(e),
    decreases more.len(),
{
    if more.len() > 0 {
        let before = with_engines(engines, more.drop_last());
        let last = more.last();
        lemma_with_engines(engines, more.drop_last(), e);
        lemma_placed_contains(before, last, e);
        if more.contains(e) {
            let k = choose|k: int| 0 <= k < more.len() && more[k] == e;
            if k < more.len() - 1 {
                assert(more.drop_last()[k] == e);
            }
        }
        if more.drop_last().contains(e) {
            let k = choose|k: int| 0 <= k < more.drop_last().len() && more.drop_last()[k] == e;
            assert(more[k] == e);
        }
        assert(more[more.len() - 1] == last);
    }
}

proof fn lemma_placed_contains(s: Seq<Seq<char>>, x: Seq<char>, e: Seq<char>)
    ensures
        placed(s, x, text_order()).contains(e) <==> s.contains(e) || e == x,
    decreases s.len(),
{
    let out = placed(s, x, text_order());
    if s.len() > 0 && text_less(x, s.last()) {
        let front = s.drop_last();
        lemma_placed_contains(front, x, e);
        let inner = placed(front, x, text_order());
        assert(out == inner.push(s.last()));
        if out.contains(e) {
            let k = choose|k: int| 0 <= k < out.len() && out[k] == e;
            if k < inner.len() {
                assert(inner[k] == e);
                if front.contains(e) {
                    let j = choose|j: int| 0 <= j < front.len() && front[j] == e;
                    assert(s[j] == e);
                }
            } else {
                assert(s[s.len() - 1] == e);
            }
        }
        if s.contains(e) || e == x {
            if s.contains(e) {
                let j = choose|j: int| 0 <= j < s.len() && s[j] == e;
                if j < front.len() {
                    assert(front[j] == e);
                } else {
                    assert(out[inner.len() as int] == e);
                }
            }
            if inner.contains(e) {
                let k = choose|k: int| 0 <= k < inner.len() && inner[k] == e;
                assert(out[k] == e);
            }
        }
    } else {
        if out.contains(e) {
            let k = choose|k: int| 0 <= k < out.len() && out[k] == e;
            if k < s.len() {
                assert(s[k] == e);
            }
        }
        if s.contains(e) {
            let k = choose|k: int| 0 <= k < s.len() && s[k] == e;
            assert(out[k] == e);
        }
        assert(out[s.len() as int] == x);
    }
}

/// A page that gets one more result keeps its address and its domain. It knows the queries and
/// the engines that it knew and those of the new result, and all its results in order. It shows
/// the result with the longest snippet and the best of the previews, in both cases the earlier
/// one of two that are equal.
pub proof fn law_pages_take_results_in(
    g: GroupView,
    q: usize,
    i: usize,
    hit: HitView,
    preview: Preview,
    e: Seq<char>,
    other: usize,
)
    ensures
        ({
            let a = absorbed(g, q, i, hit, preview);
            &&& a.normalized_url == g.normalized_url && a.domain == g.domain
            &&& a.members.len() == g.members.len() + 1 && a.members.drop_last() == g.members
                && a.members.last() == (q, i)
            &&& a.query_indices.contains(other) <==> g.query_indices.contains(other) || other == q
            &&& g.query_indices.contains(q) ==> a.query_indices == g.query_indices
            &&& !g.query_indices.contains(q) ==> a.query_indices.len() > 0
                && a.query_indices.drop_last() == g.query_indices && a.query_indices.last() == q
            &&& utf8_len(hit.snippet) > utf8_len(g.hit.snippet) ==> a.hit == hit
            &&& utf8_len(hit.snippet) <= utf8_len(g.hit.snippet) ==> a.hit == g.hit
            &&& score_rank(preview.score) > score_rank(g.best.score) ==> a.best == preview
            &&& score_rank(preview.score) <= score_rank(g.best.score) ==> a.best == g.best
            &&& hit.engines.len() > 0 ==> (a.engines.contains(e) <==> g.engines.contains(e)
                || hit.engines.contains(e))
            &&& hit.engines.len() == 0 && hit.engine.len() > 0 ==> (a.engines.contains(e)
                <==> g.engines.contains(e) || e == hit.engine)
            &&& hit.engines.len() == 0 && hit.engine.len() == 0 ==> (a.engines.contains(e)
                <==> g.engines.contains(e))
        }),
{
    let a = absorbed(g, q, i, hit, preview);
    lemma_with_engines(g.engines, engines_of(hit), e);
    assert(a.members.drop_last() =~= g.members);
    if !g.query_indices.contains(q) {
        assert(a.query_indices.drop_last() =~= g.query_indices);
        assert(a.query_indices[g.query_indices.len() as int] == q);
        if g.query_indices.contains(other) {
            let k = choose|k: int| 0 <= k < g.query_indices.len() && g.query_indices[k] == other;
            assert(a.query_indices[k] == other);
        }
        if a.query_indices.contains(other) && other != q {
            let k = choose|k: int| 0 <= k < a.query_indices.len() && a.query_indices[k] == other;
            assert(g.query_indices[k] == other);
        }
    }
    if hit.engines.len() == 0 && hit.engine.len() > 0 {
        let one = seq![hit.engine];
        assert(one.contains(e) <==> e == hit.engine) by {
            assert(one[0] == hit.engine);
        }
    }
}

/// A result joins the page of its address, and no other page changes; a result whose address is
/// new begins a page of its own behind the others.
pub proof fn law_results_join_their_page(
    groups: Seq<GroupView>,
    url: Seq<char>,
    domain: Seq<char>,
    q: usize,
    i: usize,
    hit: HitView,
    preview: Preview,
    k: int,
)
    requires
        pages_differ(groups),
    ensures
        ({
            let after = grouped(groups, url, domain, q, i, hit, preview);
            &&& 0 <= k < groups.len() && groups[k].normalized_url == url ==> {
                &&& after.len() == groups.len()
                &&& after[k] == absorbed(groups[k], q, i, hit, preview)
                &&& forall|j: int| 0 <= j < groups.len() && j != k ==> #[trigger] after[j] == groups[j]
            }
            &&& (forall|j: int|
                0 <= j < groups.len() ==> (#[trigger] groups[j]).normalized_url != url) ==> {
                &&& after.len() == groups.len() + 1
                &&& after.drop_last() == groups
                &&& after.last().hit == hit && after.last().normalized_url == url
                    && after.last().domain == domain
                &&& after.last().query_indices == seq![q] && after.last().members == seq![(q, i)]
                &&& score_rank(preview.score) > score_rank(0) ==> after.last().best == preview
                &&& score_rank(preview.score) <= score_rank(0) ==> after.last().best.score == 0
                    && after.last().best.matched == 0 && after.last().best.terms == 0
            }
        }),
{
    lemma_group_at(groups, url, 0);
    let after = grouped(groups, url, domain, q, i, hit, preview);
    if 0 <= k < groups.len() && groups[k].normalized_url == url {
        let at = group_at(groups, url, 0)->0;
        if at != k {
            if at < k {
                assert(groups[at].normalized_url != groups[k].normalized_url);
            } else {
                assert(groups[k].normalized_url != url);
            }
        }
    }
    if forall|j: int| 0 <= j < groups.len() ==> (#[trigger] groups[j]).normalized_url != url {
        assert(after.drop_last() =~= groups);
        let none = Seq::<usize>::empty();
        assert(!none.contains(q));
        assert(none.push(q) =~= seq![q]);
        assert(Seq::<(usize, usize)>::empty().push((q, i)) =~= seq![(q, i)]);
    }
}

/// A result is left out if and only if its URL has no canonical form or the page is no evidence;
/// it is told with its URL and the reason, and the pages stay as they are. Any other result
/// counts for the page of its canonical form.
pub proof fn law_results_are_gathered_or_told(
    g: GatheringView,
    q: usize,
    i: usize,
    hit: HitView,
    preview: Preview,
)
    ensures
        ({
            let after = gathered(g, q, i, hit, preview);
            let form = normalized(hit.url);
            let reason = unsafe_url_reason(hit.url);
            &&& form is Err || reason is Some ==> {
                &&& after.groups == g.groups
                &&& after.rejected.len() == g.rejected.len() + 1
                &&& after.rejected.drop_last() == g.rejected
                &&& after.rejected.last().url == hit.url
                &&& after.rejected.last().stage == "candidate"@
                &&& after.rejected.last().score == 0
            }
            &&& form is Err ==> after.rejected.last().reason == form->Err_0
            &&& form is Ok && reason is Some ==> after.rejected.last().reason == reason->0
            &&& form is Ok && reason is None ==> after.rejected == g.rejected && after.groups
                == grouped(g.groups, form->Ok_0.0, form->Ok_0.1, q, i, hit, preview)
        }),
{
    let after = gathered(g, q, i, hit, preview);
    if normalized(hit.url) is Err || unsafe_url_reason(hit.url) is Some {
        assert(after.rejected.drop_last() =~= g.rejected);
    }
}

/// The results of a search are gathered one after the other, each under its position, and the
/// searches one after the other, each under its number.
pub proof fn law_results_are_gathered_in_order(
    g: GatheringView,
    q: usize,
    hits: Seq<HitView>,
    hit: HitView,
    previews: Seq<Preview>,
    searches: Seq<Seq<HitView>>,
    all: Seq<Seq<Preview>>,
    n: nat,
)
    requires
        hits.len() <= usize::MAX,
        n < usize::MAX,
    ensures
        gathered_hits(g, q, Seq::empty(), previews) == g,
        gathered_hits(g, q, hits.push(hit), previews) == gathered(
            gathered_hits(g, q, hits, previews),
            q,
            hits.len() as usize,
            hit,
            previews[hits.len() as int],
        ),
        gathered_searches(searches, all, n + 1) == gathered_hits(
            gathered_searches(searches, all, n),
            n as usize,
            searches[n as int],
            all[n as int],
        ),
        gathered_searches(searches, all, 0).groups.len() == 0,
        gathered_searches(searches, all, 0).rejected.len() == 0,
{
    assert(hits.push(hit).drop_last() =~= hits);
}

/// How many results the pages of a gathering have.
pub open spec fn results_held(groups: Seq<GroupView>) -> nat
    decreases groups.len(),
{
    if groups.len() == 0 {
        0
    } else {
        results_held(groups.drop_last()) + groups.last().members.len()
    }
}

proof fn lemma_results_held(groups: Seq<GroupView>, k: int, g: GroupView)
    requires
        0 <= k < groups.len(),
        g.members.len() == groups[k].members.len() + 1,
    ensures
        results_held(groups.update(k, g)) == results_held(groups) + 1,
    decreases groups.len(),
{
    if k == groups.len() - 1 {
        assert(groups.update(k, g).drop_last() =~= groups.drop_last());
    } else {
        lemma_results_held(groups.drop_last(), k, g);
        assert(groups.update(k, g).drop_last() =~= groups.drop_last().update(k, g));
    }
}

/// No result is lost and none is counted twice: each one more is one more that a page holds or
/// one more that is left out.
pub proof fn law_every_result_is_held_or_left_out(
    g: GatheringView,
    q: usize,
    hits: Seq<HitView>,
    previews: Seq<Preview>,
)
    ensures
        ({
            let after = gathered_hits(g, q, hits, previews);
            results_held(after.groups) + after.rejected.len() == results_held(g.groups)
                + g.rejected.len() + hits.len()
        }),
    decreases hits.len(),
{
    if hits.len() > 0 {
        let before = gathered_hits(g, q, hits.drop_last(), previews);
        law_every_result_is_held_or_left_out(g, q, hits.drop_last(), previews);
        let hit = hits.last();
        if normalized(hit.url) is Ok && unsafe_url_reason(hit.url) is None {
            let (url, domain) = normalized(hit.url)->Ok_0;
            let preview = previews[hits.len() - 1];
            let i = (hits.len() - 1) as usize;
            lemma_group_at(before.groups, url, 0);
            match group_at(before.groups, url, 0) {
                Some(k) => {
                    lemma_results_held(
                        before.groups,
                        k,
                        absorbed(before.groups[k], q, i, hit, preview),
                    );
                },
                None => {
                    let page = absorbed(fresh_group(hit, url, domain), q, i, hit, preview);
                    assert(before.groups.push(page).drop_last() =~= before.groups);
                    assert(page.members.len() == 1);
                },
            }
        }
    }
}

/// A preview has as many terms as its query, and of these it matches those that stand in the
/// title, the snippet or the URL; it has the score that it was given.
pub proof fn law_previews_count_the_terms(query: Seq<char>, hit: HitView, score: u64)
    requires
        term_set(query).len() <= usize::MAX,
    ensures
        preview_of(query, hit, score).score == score,
        preview_of(query, hit, score).terms == term_set(query).len(),
        preview_of(query, hit, score).matched <= term_set(query).len(),
        preview_of(query, hit, score).matched == Set::new(
            |t: Seq<char>|
                term_set(query).contains(t) && (term_set(hit.title).contains(t) || term_set(
                    hit.snippet,
                ).contains(t) || term_set(hit.url).contains(t)),
        ).len(),
{
    let q = term_set(query);
    let found = term_set(hit.title).union(term_set(hit.snippet)).union(term_set(hit.url));
    vstd::seq_lib::seq_to_set_is_finite(crate::mcp::terms::tokens(query));
    vstd::set_lib::lemma_len_subset(q.intersect(found), q);
    assert(q.intersect(found) =~= Set::new(
        |t: Seq<char>|
            q.contains(t) && (term_set(hit.title).contains(t) || term_set(hit.snippet).contains(t)
                || term_set(hit.url).contains(t)),
    ));
}

/// A page becomes a candidate unless its preview shows fewer than two of four or more terms, or
/// its score is below 24. A candidate has all that is known of the page; a page that is left out
/// is told with its URL, the reason and the score that counted.
pub proof fn law_pages_become_candidates(
    r: RankingView,
    queries: Seq<Seq<char>>,
    g: GroupView,
    s: GroupScore,
)
    ensures
        ({
            let after = scored(r, queries, g, s);
            let shows_little = g.best.terms >= 4 && g.best.matched <= 1;
            let is_weak = score_rank(s.score) < score_rank(0x4038_0000_0000_0000);
            &&& !shows_little && !is_weak ==> {
                &&& after.rejected == r.rejected
                &&& after.candidates.len() == r.candidates.len() + 1
                &&& after.candidates.drop_last() == r.candidates
                &&& after.candidates.last().hit == g.hit
                &&& after.candidates.last().normalized_url == g.normalized_url
                &&& after.candidates.last().domain == g.domain
                &&& after.candidates.last().search_engines == g.engines
                &&& after.candidates.last().score == s.shown
                &&& after.candidates.last().matched_queries == queries_at(queries, g.query_indices)
            }
            &&& shows_little || is_weak ==> {
                &&& after.candidates == r.candidates
                &&& after.rejected.len() == r.rejected.len() + 1
                &&& after.rejected.drop_last() == r.rejected
                &&& after.rejected.last().url == g.hit.url
                &&& after.rejected.last().stage == "candidate"@
            }
            &&& shows_little ==> after.rejected.last().reason == "insufficient_preview_concepts"@
                && after.rejected.last().score == s.preview_shown
            &&& !shows_little && is_weak ==> after.rejected.last().reason
                == "low_preview_relevance"@ && after.rejected.last().score == s.shown
        }),
{
    let after = scored(r, queries, g, s);
    assert(after.candidates.len() > r.candidates.len() ==> after.candidates.drop_last()
        =~= r.candidates);
    assert(after.rejected.len() > r.rejected.len() ==> after.rejected.drop_last() =~= r.rejected);
}

/// The pages become candidates one after the other, each with its own score.
pub proof fn law_pages_are_scored_in_order(
    rejected: Seq<RejectionView>,
    queries: Seq<Seq<char>>,
    groups: Seq<GroupView>,
    g: GroupView,
    scores: Seq<GroupScore>,
)
    ensures
        scored_groups(rejected, queries, Seq::empty(), scores).candidates.len() == 0,
        scored_groups(rejected, queries, Seq::empty(), scores).rejected == rejected,
        scored_groups(rejected, queries, groups.push(g), scores) == scored(
            scored_groups(rejected, queries, groups, scores),
            queries,
            g,
            scores[groups.len() as int],
        ),
{
    assert(groups.push(g).drop_last() =~= groups);
}

/// The queries at some positions stand in the order of the positions; a position without a query
/// is left out.
pub proof fn law_queries_are_found_by_position(
    queries: Seq<Seq<char>>,
    a: Seq<usize>,
    b: Seq<usize>,
    i: usize,
)
    ensures
        queries_at(queries, a + b) == queries_at(queries, a) + queries_at(queries, b),
        i < queries.len() ==> queries_at(queries, seq![i]) == seq![queries[i as int]],
        i >= queries.len() ==> queries_at(queries, seq![i]).len() == 0,
    decreases b.len(),
{
    let one = seq![i];
    assert(one.drop_last() =~= Seq::<usize>::empty());
    assert(queries_at(queries, one.drop_last()) =~= Seq::<Seq<char>>::empty());
    assert(one.last() == i);
    if b.len() == 0 {
        assert(a + b =~= a);
        assert(queries_at(queries, a) + queries_at(queries, b) =~= queries_at(queries, a));
    } else {
        law_queries_are_found_by_position(queries, a, b.drop_last(), i);
        assert((a + b).drop_last() =~= a + b.drop_last());
        assert((a + b).last() == b.last());
        let x = queries_at(queries, a);
        let y = queries_at(queries, b.drop_last());
        if b.last() < queries.len() {
            assert((x + y).push(queries[b.last() as int]) =~= x + y.push(
                queries[b.last() as int],
            ));
        }
    }
}

/// A candidate behind others is kept unless its title has three terms or more and one that is
/// kept ahead of it, of the same domain or brand, has a title that is alike. What was decided of
/// those ahead of it stands, and a repeat is told with its URL and score.
pub proof fn law_repeated_titles_are_left_out(
    s: Seq<RankedView>,
    rejected: Seq<RejectionView>,
    c: RankedView,
)
    ensures
        ({
            let before = without_repeats(RankingView { candidates: s, rejected });
            let after = without_repeats(RankingView { candidates: s.push(c), rejected });
            let repeats = term_set(c.hit.title).len() >= 3 && exists|i: int|
                0 <= i < before.candidates.len() && ((#[trigger] before.candidates[i]).domain
                    == c.domain || share_brand(before.candidates[i].domain, c.domain))
                    && titles_alike(
                    term_set(c.hit.title),
                    term_set(before.candidates[i].hit.title),
                );
            &&& !repeats ==> after.candidates == before.candidates.push(c) && after.rejected
                == before.rejected
            &&& repeats ==> after.candidates == before.candidates && after.rejected
                == before.rejected.push(
                RejectionView {
                    url: c.hit.url,
                    stage: "candidate"@,
                    reason: "near_duplicate_title"@,
                    score: c.score,
                },
            )
        }),
{
    assert(s.push(c).drop_last() =~= s);
    let before = without_repeats(RankingView { candidates: s, rejected });
    assert(forall|i: int|
        0 <= i < before.candidates.len() ==> (same_story(#[trigger] before.candidates[i], c) <==> (
        before.candidates[i].domain == c.domain || share_brand(
            before.candidates[i].domain,
            c.domain,
        )) && titles_alike(term_set(c.hit.title), term_set(before.candidates[i].hit.title))));
}

/// A candidate behind others is kept unless two of those that are kept ahead of it are of its
/// domain. What was decided of those ahead of it stands, and one too many is told with its URL
/// and score.
pub proof fn law_crowds_are_left_out(
    s: Seq<RankedView>,
    rejected: Seq<RejectionView>,
    c: RankedView,
)
    ensures
        ({
            let before = without_crowds(RankingView { candidates: s, rejected });
            let after = without_crowds(RankingView { candidates: s.push(c), rejected });
            let crowded = before.candidates.filter(|x: RankedView| x.domain == c.domain).len() >= 2;
            &&& !crowded ==> after.candidates == before.candidates.push(c) && after.rejected
                == before.rejected
            &&& crowded ==> after.candidates == before.candidates && after.rejected
                == before.rejected.push(
                RejectionView {
                    url: c.hit.url,
                    stage: "candidate"@,
                    reason: "domain_diversity_cap"@,
                    score: c.score,
                },
            )
        }),
{
    assert(s.push(c).drop_last() =~= s);
    let before = without_crowds(RankingView { candidates: s, rejected });
    lemma_domain_count(before.candidates, c.domain);
}

proof fn lemma_domain_count(s: Seq<RankedView>, domain: Seq<char>)
    ensures
        domain_count(s, domain) == s.filter(|x: RankedView| x.domain == domain).len(),
    decreases s.len(),
{
    reveal(Seq::filter);
    if s.len() > 0 {
        lemma_domain_count(s.drop_last(), domain);
    }
}

/// The previews stand where their hits stand, each counted by the query that found the hit; a
/// search without a query has none.
pub proof fn law_previews_stand_with_their_hits(
    queries: Seq<Seq<char>>,
    searches: Seq<Seq<HitView>>,
    scores: Seq<Seq<u64>>,
    q: int,
    i: int,
)
    requires
        0 <= q < queries.len(),
        q < searches.len(),
        0 <= i < searches[q].len(),
    ensures
        ({
            let all = previews_of(queries, searches, scores);
            &&& all.len() <= queries.len() && all.len() <= searches.len()
            &&& all.len() == queries.len() || all.len() == searches.len()
            &&& all[q].len() == searches[q].len()
            &&& all[q][i] == preview_of(queries[q], searches[q][i], scores[q][i])
        }),
{
}

} // verus!
