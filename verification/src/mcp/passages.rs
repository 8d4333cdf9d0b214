//! Reading a fetched page: the passages that bear on a query, and a quote to check them by.
use vstd::prelude::*;

use crate::envelope::{stripped, wrap_footer, wrap_header, wrapped};
use crate::mcp::terms::{
    lemma_overlap_needs_a_letter, overlap, term_set, text_counts_of, text_relevance, tokenize,
    tokens, TextCounts,
};
use crate::mcp::urls::{unsafe_candidate_reason, unsafe_url_reason};
use crate::order::{
    in_order, in_rank_order, is_ordering, item_views, law_ordered, ordered, Ranked,
};
use crate::text::{
    ascii_lower, char_is_alphanumeric, char_is_whitespace, chars_of, contains, find_from, first_at,
    has_at, is_whitespace, join, joined, just, law_texts_are_split_at_separators,
    lemma_pieces_nonempty, list_has, occurs, pieces, same_text, slice_text, split_char, stands_at,
    text_of, texts, to_ascii_lower, trim, trim_end, trimmed, trimmed_end,
};

verus! {

/// How many characters a passage has, unless the text ends before.
pub const PASSAGE_CHARS: usize = 1600;

/// How many characters lie between the beginnings of two passages.
pub const PASSAGE_STEP_CHARS: usize = 1200;

/// How many characters an excerpt has at most, but for what joins its parts.
pub const MAX_EXCERPT_CHARS: usize = 4000;

/// The bits of the floating-point number 28.
pub const MIN_CONTENT_SCORE: u64 = 0x403c_0000_0000_0000;

/// The bits of the floating-point number 55.
pub const SURE_CONTENT_SCORE: u64 = 0x404b_8000_0000_0000;

/// The bits of the floating-point number zero.
pub const NO_SCORE: u64 = 0;

// ---------------------------------------------------------------------------
// Scores
// ---------------------------------------------------------------------------
/// The place of a floating-point number, given by its bits, in the total order of all of them:
/// the sign comes first, and a larger magnitude lies further out.
pub open spec fn score_rank(bits: u64) -> int {
    if bits < 0x8000_0000_0000_0000 {
        bits as int
    } else {
        0x7fff_ffff_ffff_ffff - bits
    }
}

/// Whether one score is lower than another.
pub fn is_lower(a: u64, b: u64) -> (res: bool)
    ensures
        res == (score_rank(a) < score_rank(b)),
{
    if a < 0x8000_0000_0000_0000 {
        if b < 0x8000_0000_0000_0000 {
            a < b
        } else {
            false
        }
    } else if b < 0x8000_0000_0000_0000 {
        true
    } else {
        a > b
    }
}

// ---------------------------------------------------------------------------
// The envelope around a text
// ---------------------------------------------------------------------------
/// The last position at or before `from` at which `p` stands in `s`.
pub open spec fn last_at(s: Seq<char>, p: Seq<char>, from: int) -> Option<int>
    decreases from + 1,
{
    if from < 0 {
        None
    } else if has_at(s, p, from) {
        Some(from)
    } else {
        last_at(s, p, from - 1)
    }
}

/// A text without the marker lines around it, where it has them.
pub open spec fn unwrapped(s: Seq<char>) -> Seq<char> {
    if !has_at(s, "<<<UNTRUSTED_WEB_CONTENT:"@, 0) {
        s
    } else {
        match first_at(s, "\n"@, 0) {
            None => s,
            Some(at) => {
                let body = s.skip(at + 1);
                match last_at(body, "\n<<<END_UNTRUSTED_WEB_CONTENT:"@, body.len() as int) {
                    Some(end) => body.take(end),
                    None => body,
                }
            },
        }
    }
}

fn find_last(v: &Vec<char>, p: &Vec<char>) -> (res: Option<usize>)
    ensures
        match res {
            Some(i) => last_at(v@, p@, v@.len() as int) == Some(i as int) && i + p@.len()
                <= v@.len(),
            None => last_at(v@, p@, v@.len() as int) is None,
        },
{
    let mut i: usize = v.len();
    loop
        invariant
            i <= v@.len(),
            last_at(v@, p@, v@.len() as int) == last_at(v@, p@, i as int),
        decreases i,
    {
        if stands_at(v, p, i) {
            return Some(i);
        }
        if i == 0 {
            assert(last_at(v@, p@, -1) is None);
            return None;
        }
        i = i - 1;
    }
}

/// A text without the marker lines around it, where it has them.
pub fn unwrap_untrusted(markdown: &str) -> (res: String)
    ensures
        res@ == unwrapped(markdown@),
{
    let v = chars_of(markdown);
    let total: usize = v.len();
    let opening = chars_of("<<<UNTRUSTED_WEB_CONTENT:");
    if !stands_at(&v, &opening, 0) {
        return text_of(&v);
    }
    let newline = chars_of("\n");
    proof {
        reveal_strlit("\n");
    }
    let at = match find_from(&v, &newline, 0) {
        Some(at) => at,
        None => {
            return text_of(&v);
        },
    };
    proof {
        crate::text::lemma_first_at(v@, newline@, 0);
    }
    let body = slice_text(&v, at + 1, total);
    assert(body@ =~= v@.skip(at + 1));
    let inner = chars_of(&body);
    let closing = chars_of("\n<<<END_UNTRUSTED_WEB_CONTENT:");
    match find_last(&inner, &closing) {
        Some(end) => {
            let out = slice_text(&inner, 0, end);
            assert(out@ =~= inner@.take(end as int));
            out
        },
        None => body,
    }
}

// ---------------------------------------------------------------------------
// Pages that are no content
// ---------------------------------------------------------------------------
/// The beginning of a text, at most some characters long.
pub open spec fn first_chars(s: Seq<char>, n: int) -> Seq<char> {
    s.take(
        if n < s.len() {
            n
        } else {
            s.len() as int
        },
    )
}

/// The beginning of a text, at most some characters long.
pub fn take_chars(value: &str, max_chars: usize) -> (res: String)
    ensures
        res@ == first_chars(value@, max_chars as int),
{
    let v = chars_of(value);
    let end: usize = if max_chars < v.len() {
        max_chars
    } else {
        v.len()
    };
    let out = slice_text(&v, 0, end);
    assert(out@ =~= value@.take(end as int));
    out
}

/// A page that asks the reader to sign in.
pub open spec fn asks_to_sign_in(body: Seq<char>) -> bool {
    let head = ascii_lower(first_chars(body, 2000));
    &&& occurs(head, "sign in"@) || occurs(head, "log in"@)
    &&& occurs(head, "password"@) || occurs(head, "forgot password"@) || occurs(
        head,
        "create account"@,
    )
}

/// Whether a page asks the reader to sign in.
pub fn looks_like_login(body: &str) -> (res: bool)
    ensures
        res == asks_to_sign_in(body@),
{
    let head = to_ascii_lower(&take_chars(body, 2000));
    (contains(&head, "sign in") || contains(&head, "log in")) && (contains(&head, "password")
        || contains(&head, "forgot password") || contains(&head, "create account"))
}

/// The text of a page that is worth reading, or why it is not.
pub open spec fn readable(markdown: Seq<char>, final_url: Seq<char>) -> Result<Seq<char>, Seq<char>> {
    let body = trimmed(unwrapped(markdown));
    if body.len() < 300 || tokens(body).len() < 60 {
        Err("content_too_short"@)
    } else if unsafe_url_reason(final_url) is Some || asks_to_sign_in(body) {
        Err("authentication_or_interstitial"@)
    } else {
        Ok(body)
    }
}

/// The text of a page that is worth reading, or why it is not.
pub fn readable_body(markdown: &str, final_url: &str) -> (res: Result<String, &'static str>)
    ensures
        readable(markdown@, final_url@) == match res {
            Ok(body) => Ok::<Seq<char>, Seq<char>>(body@),
            Err(reason) => Err::<Seq<char>, Seq<char>>(reason@),
        },
{
    let body = trim(&unwrap_untrusted(markdown));
    let v = chars_of(&body);
    let found = tokenize(&body);
    assert(texts(found@).len() == found@.len());
    if v.len() < 300 || found.len() < 60 {
        return Err("content_too_short");
    }
    if unsafe_candidate_reason(final_url).is_some() || looks_like_login(&body) {
        return Err("authentication_or_interstitial");
    }
    Ok(body)
}

// ---------------------------------------------------------------------------
// Passages
// ---------------------------------------------------------------------------
/// The passages of a text of some length from a position on, each by its ends.
pub open spec fn windows_from(n: int, start: int) -> Seq<(int, int)>
    decreases n - start,
{
    if start + PASSAGE_CHARS >= n {
        seq![(start, n)]
    } else {
        seq![(start, start + PASSAGE_CHARS)] + windows_from(n, start + PASSAGE_STEP_CHARS)
    }
}

/// The views of some ends of passages.
pub open spec fn ends_of(v: Seq<(usize, usize)>) -> Seq<(int, int)> {
    v.map_values(|w: (usize, usize)| (w.0 as int, w.1 as int))
}

/// The passages of a text of some length, by their first character and the one after the last.
pub fn passage_windows(char_count: usize) -> (res: Vec<(usize, usize)>)
    ensures
        ends_of(res@) == windows_from(char_count as int, 0),
        forall|i: int|
            0 <= i < res@.len() ==> (#[trigger] res@[i]).0 <= res@[i].1 && res@[i].1 <= char_count,
{
    let mut out: Vec<(usize, usize)> = Vec::new();
    let mut start: usize = 0;
    proof {
        assert(ends_of(out@) + windows_from(char_count as int, 0) =~= windows_from(
            char_count as int,
            0,
        ));
    }
    while char_count - start > PASSAGE_CHARS
        invariant
            start <= char_count,
            ends_of(out@) + windows_from(char_count as int, start as int) == windows_from(
                char_count as int,
                0,
            ),
            forall|i: int|
                0 <= i < out@.len() ==> (#[trigger] out@[i]).0 <= out@[i].1 && out@[i].1
                    <= char_count,
        decreases char_count - start,
    {
        let ghost before = out@;
        let end: usize = start + PASSAGE_CHARS;
        out.push((start, end));
        proof {
            let w = (start as int, end as int);
            assert(ends_of(out@) =~= ends_of(before).push(w));
            assert(ends_of(before) + (seq![w] + windows_from(
                char_count as int,
                start + PASSAGE_STEP_CHARS,
            )) =~= ends_of(before).push(w) + windows_from(
                char_count as int,
                start + PASSAGE_STEP_CHARS,
            ));
        }
        start = start + PASSAGE_STEP_CHARS;
    }
    let ghost before = out@;
    out.push((start, char_count));
    proof {
        let w = (start as int, char_count as int);
        assert(ends_of(out@) =~= ends_of(before).push(w));
        assert(ends_of(before) + seq![w] =~= ends_of(before).push(w));
    }
    out
}

/// A passage of a text and how well it covers a query.
pub struct Passage {
    pub query: usize,
    pub start: usize,
    pub end: usize,
    pub counts: TextCounts,
}

/// Every passage of a text for every query, query by query.
pub open spec fn passages_of(body: Seq<char>, queries: Seq<Seq<char>>, s: Seq<Passage>) -> bool {
    let windows = windows_from(body.len() as int, 0);
    &&& s.len() == queries.len() * windows.len()
    &&& forall|i: int|
        0 <= i < s.len() ==> {
            let p = #[trigger] s[i];
            let w = windows[i % windows.len() as int];
            &&& p.query == i / windows.len() as int
            &&& p.query < queries.len()
            &&& p.start == w.0 && p.end == w.1
            &&& p.start <= p.end <= body.len()
            &&& text_counts_of(
                queries[p.query as int],
                body.subrange(p.start as int, p.end as int),
                p.counts,
            )
        }
}

proof fn lemma_position(q: int, w: int, n: int)
    requires
        0 <= q,
        0 <= w < n,
    ensures
        (q * n + w) / n == q,
        (q * n + w) % n == w,
{
    vstd::arithmetic::div_mod::lemma_fundamental_div_mod_converse(q * n + w, n, q, w);
}

/// Every passage of a text for every query.
pub fn passages(body: &str, queries: &Vec<String>) -> (res: Vec<Passage>)
    ensures
        passages_of(body@, texts(queries@), res@),
        body@.len() <= usize::MAX,
{
    let v = chars_of(body);
    let windows = passage_windows(v.len());
    let ghost all = windows_from(body@.len() as int, 0);
    let ghost n = windows@.len() as int;
    proof {
        assert(ends_of(windows@).len() == windows@.len());
    }
    let mut out: Vec<Passage> = Vec::new();
    let mut q: usize = 0;
    proof {
        assert(0 * n == 0) by (nonlinear_arith);
    }
    while q < queries.len()
        invariant
            v@ == body@,
            n == windows@.len(),
            n == all.len(),
            all == windows_from(body@.len() as int, 0),
            all == ends_of(windows@),
            forall|i: int|
                0 <= i < windows@.len() ==> (#[trigger] windows@[i]).0 <= windows@[i].1
                    && windows@[i].1 <= v@.len(),
            q <= queries@.len(),
            out@.len() == q * n,
            forall|i: int|
                0 <= i < out@.len() ==> {
                    let p = #[trigger] out@[i];
                    let w = all[i % n];
                    &&& p.query == i / n
                    &&& p.query < queries@.len()
                    &&& p.start == w.0 && p.end == w.1
                    &&& p.start <= p.end <= body@.len()
                    &&& text_counts_of(
                        texts(queries@)[p.query as int],
                        body@.subrange(p.start as int, p.end as int),
                        p.counts,
                    )
                },
        decreases queries@.len() - q,
    {
        let mut w: usize = 0;
        while w < windows.len()
            invariant
                v@ == body@,
                n == windows@.len(),
                n == all.len(),
                all == windows_from(body@.len() as int, 0),
                all == ends_of(windows@),
                forall|i: int|
                    0 <= i < windows@.len() ==> (#[trigger] windows@[i]).0 <= windows@[i].1
                        && windows@[i].1 <= v@.len(),
                q < queries@.len(),
                w <= windows@.len(),
                out@.len() == q * n + w,
                forall|i: int|
                    0 <= i < out@.len() ==> {
                        let p = #[trigger] out@[i];
                        let w = all[i % n];
                        &&& p.query == i / n
                        &&& p.query < queries@.len()
                        &&& p.start == w.0 && p.end == w.1
                        &&& p.start <= p.end <= body@.len()
                        &&& text_counts_of(
                            texts(queries@)[p.query as int],
                            body@.subrange(p.start as int, p.end as int),
                            p.counts,
                        )
                    },
            decreases windows@.len() - w,
        {
            let (start, end) = windows[w];
            let counts = text_relevance(&queries[q], &slice_text(&v, start, end));
            proof {
                lemma_position(q as int, w as int, n);
                assert(all[w as int] == (windows@[w as int].0 as int, windows@[w as int].1 as int));
            }
            out.push(Passage { query: q, start, end, counts });
            w = w + 1;
        }
        proof {
            assert(q * n + n == (q + 1) * n) by (nonlinear_arith);
        }
        q = q + 1;
    }
    assert(texts(queries@).len() == queries@.len());
    out
}

/// The score of a passage and the score to be shown, by their bits.
#[derive(Clone, Copy)]
pub struct PassageScore {
    pub score: u64,
    pub shown: u64,
}

/// A passage with its score: the score and the score to be shown, by their bits, how many
/// terms of the query it holds, the query and its ends.
#[derive(Clone, Copy)]
pub struct ScoredPassage {
    pub score: u64,
    pub shown: u64,
    pub matched: usize,
    pub query: usize,
    pub start: usize,
    pub end: usize,
}

impl View for ScoredPassage {
    type V = ScoredPassage;

    open spec fn view(&self) -> ScoredPassage {
        *self
    }
}

impl Ranked for ScoredPassage {
    open spec fn precedes(a: ScoredPassage, b: ScoredPassage) -> bool {
        score_rank(b.score) < score_rank(a.score)
    }

    fn comes_before(&self, other: &Self) -> (res: bool) {
        is_lower(other.score, self.score)
    }
}

/// The order of scored passages: the highest score first.
pub open spec fn score_order() -> spec_fn(ScoredPassage, ScoredPassage) -> bool {
    |a: ScoredPassage, b: ScoredPassage| score_rank(b.score) < score_rank(a.score)
}

/// Every passage of a text for every query, query by query, each with its score and with how
/// many terms of the query it holds.
pub open spec fn scored_passages(
    body: Seq<char>,
    queries: Seq<Seq<char>>,
    scores: Seq<PassageScore>,
) -> Seq<ScoredPassage> {
    let windows = windows_from(body.len() as int, 0);
    Seq::new(
        queries.len() * windows.len(),
        |i: int|
            {
                let q = i / windows.len() as int;
                let w = windows[i % windows.len() as int];
                ScoredPassage {
                    score: scores[i].score,
                    shown: scores[i].shown,
                    matched: overlap(
                        term_set(queries[q]),
                        term_set(body.subrange(w.0, w.1)),
                    ) as usize,
                    query: q as usize,
                    start: w.0 as usize,
                    end: w.1 as usize,
                }
            },
    )
}

/// Joins the passages of a text with their scores.
fn with_scores(body: &str, queries: &Vec<String>, scores: &Vec<PassageScore>) -> (res: Vec<
    ScoredPassage,
>)
    requires
        scores@.len() == queries@.len() * windows_from(body@.len() as int, 0).len(),
    ensures
        res@ == scored_passages(body@, texts(queries@), scores@),
        body@.len() <= usize::MAX,
        forall|i: int| 0 <= i < res@.len() ==> fits(#[trigger] res@[i], body@, queries@.len()),
{
    let all = passages(body, queries);
    let ghost goal = scored_passages(body@, texts(queries@), scores@);
    let mut out: Vec<ScoredPassage> = Vec::new();
    let mut i: usize = 0;
    assert(texts(queries@).len() == queries@.len());
    while i < all.len()
        invariant
            passages_of(body@, texts(queries@), all@),
            texts(queries@).len() == queries@.len(),
            scores@.len() == all@.len(),
            body@.len() <= usize::MAX,
            goal == scored_passages(body@, texts(queries@), scores@),
            i <= all@.len(),
            out@.len() == i,
            forall|k: int| 0 <= k < i ==> #[trigger] out@[k] == goal[k],
            forall|k: int| 0 <= k < i ==> fits(#[trigger] out@[k], body@, queries@.len()),
        decreases all@.len() - i,
    {
        let p = &all[i];
        assert(*p == all@[i as int]);
        out.push(
            ScoredPassage {
                score: scores[i].score,
                shown: scores[i].shown,
                matched: p.counts.matched,
                query: p.query,
                start: p.start,
                end: p.end,
            },
        );
        assert(out@[i as int] == goal[i as int]);
        i = i + 1;
    }
    assert(out@ =~= goal);
    out
}

// ---------------------------------------------------------------------------
// Quotes
// ---------------------------------------------------------------------------
/// A line without the carriage return at its end.
pub open spec fn without_return(line: Seq<char>) -> Seq<char> {
    if line.len() > 0 && line.last() == '\r' {
        line.drop_last()
    } else {
        line
    }
}

/// The lines of a text. Each ends in a newline, with or without a carriage return before it,
/// and the last one may end without.
pub open spec fn line_list(s: Seq<char>) -> Seq<Seq<char>> {
    let p = pieces(s, just('\n'));
    let whole = p.drop_last().map_values(|l: Seq<char>| without_return(l));
    if p.last().len() == 0 {
        whole
    } else {
        whole.push(p.last())
    }
}

/// The first of some lines that is long enough, once it is trimmed.
pub open spec fn first_long_line(lines: Seq<Seq<char>>) -> Option<Seq<char>>
    decreases lines.len(),
{
    if lines.len() == 0 {
        None
    } else if trimmed(lines[0]).len() >= 80 {
        Some(trimmed(lines[0]))
    } else {
        first_long_line(lines.drop_first())
    }
}

/// A sentence ends at a position: with a full stop or its like, and nothing, white space or a
/// bracket after it.
pub open spec fn sentence_ends(s: Seq<char>, k: int) -> bool {
    &&& 0 <= k < s.len()
    &&& s[k] == '.' || s[k] == '!' || s[k] == '?'
    &&& k + 1 == s.len() || char_is_whitespace(s[k + 1]) || s[k + 1] == '['
}

/// The first position from one on, below another, at which a sentence ends.
pub open spec fn first_sentence_end(s: Seq<char>, from: int, limit: int) -> Option<int>
    decreases limit - from,
{
    if from >= limit {
        None
    } else if sentence_ends(s, from) {
        Some(from)
    } else {
        first_sentence_end(s, from + 1, limit)
    }
}

/// The line that a quote is taken from.
pub open spec fn quote_source(excerpt: Seq<char>) -> Seq<char> {
    match first_long_line(line_list(excerpt)) {
        Some(line) => line,
        None => trimmed(excerpt),
    }
}

/// A quote of at most 320 characters: whole sentences where one ends behind the 79th
/// character.
pub open spec fn quote_of(excerpt: Seq<char>) -> Seq<char> {
    let source = quote_source(excerpt);
    match first_sentence_end(source, 79, 320) {
        Some(k) => trimmed_end(source.take(k + 1)),
        None => trimmed_end(first_chars(source, 320)),
    }
}

fn without_carriage_return(line: &str) -> (res: String)
    ensures
        res@ == without_return(line@),
{
    let v = chars_of(line);
    if v.len() > 0 && v[v.len() - 1] == '\r' {
        let out = slice_text(&v, 0, v.len() - 1);
        assert(out@ =~= line@.drop_last());
        out
    } else {
        text_of(&v)
    }
}

/// The lines of a text.
pub fn lines_of(s: &str) -> (res: Vec<String>)
    ensures
        texts(res@) == line_list(s@),
{
    let mut parts = split_char(s, '\n');
    let ghost all = texts(parts@);
    proof {
        crate::text::lemma_pieces_nonempty(s@, just('\n'));
    }
    let last = match parts.pop() {
        Some(last) => last,
        None => String::new(),
    };
    assert(texts(parts@) =~= all.drop_last());
    assert(last@ == all.last());
    let mut out: Vec<String> = Vec::new();
    let mut i: usize = 0;
    let ghost whole = all.drop_last().map_values(|l: Seq<char>| without_return(l));
    assert(texts(out@) =~= whole.take(0));
    while i < parts.len()
        invariant
            i <= parts@.len(),
            texts(parts@) == all.drop_last(),
            whole == all.drop_last().map_values(|l: Seq<char>| without_return(l)),
            texts(out@) == whole.take(i as int),
        decreases parts@.len() - i,
    {
        let ghost before = out@;
        out.push(without_carriage_return(&parts[i]));
        proof {
            assert(all.drop_last()[i as int] == texts(parts@)[i as int]);
            assert(texts(out@) =~= texts(before).push(whole[i as int]));
            assert(whole.take(i + 1) =~= whole.take(i as int).push(whole[i as int]));
        }
        i = i + 1;
    }
    assert(texts(parts@).len() == parts@.len());
    assert(whole.take(whole.len() as int) =~= whole);
    let v = chars_of(&last);
    if v.len() > 0 {
        let ghost before = out@;
        out.push(last);
        assert(texts(out@) =~= texts(before).push(last@));
    }
    out
}

fn long_line(lines: &Vec<String>) -> (res: Option<String>)
    ensures
        match res {
            Some(line) => first_long_line(texts(lines@)) == Some(line@),
            None => first_long_line(texts(lines@)) is None,
        },
{
    let ghost all = texts(lines@);
    let mut i: usize = 0;
    assert(all.skip(0) =~= all);
    while i < lines.len()
        invariant
            all == texts(lines@),
            i <= lines@.len(),
            first_long_line(all) == first_long_line(all.skip(i as int)),
        decreases lines@.len() - i,
    {
        let line = trim(&lines[i]);
        let v = chars_of(&line);
        assert(all.skip(i as int)[0] == lines@[i as int]@);
        if v.len() >= 80 {
            return Some(line);
        }
        assert(all.skip(i as int).drop_first() =~= all.skip(i + 1));
        i = i + 1;
    }
    None
}

/// A quote of an excerpt by which it can be checked.
pub fn verification_quote(excerpt: &str) -> (res: String)
    ensures
        res@ == quote_of(excerpt@),
{
    let source = match long_line(&lines_of(excerpt)) {
        Some(line) => line,
        None => trim(excerpt),
    };
    let v = chars_of(&source);
    let mut k: usize = 79;
    while k < 320 && k < v.len()
        invariant
            v@ == source@,
            79 <= k <= 320,
            source@ == quote_source(excerpt@),
            first_sentence_end(source@, 79, 320) == first_sentence_end(source@, k as int, 320),
        decreases 320 - k,
    {
        let c = v[k];
        if c == '.' || c == '!' || c == '?' {
            let closes = k + 1 == v.len() || is_whitespace(v[k + 1]) || v[k + 1] == '[';
            if closes {
                let sentence = slice_text(&v, 0, k + 1);
                assert(sentence@ =~= source@.take(k + 1));
                return trim_end(&sentence);
            }
        }
        k = k + 1;
    }
    proof {
        lemma_no_sentence_end(source@, k as int, 320);
    }
    trim_end(&take_chars(&source, 320))
}

proof fn lemma_no_sentence_end(s: Seq<char>, from: int, limit: int)
    requires
        from >= s.len() || from >= limit,
    ensures
        first_sentence_end(s, from, limit) is None,
    decreases limit - from,
{
    if from < limit {
        lemma_no_sentence_end(s, from + 1, limit);
    }
}

// ---------------------------------------------------------------------------
// Assessment
// ---------------------------------------------------------------------------
/// What a page is worth as evidence. The score is given by its bits.
pub struct ContentAssessment {
    pub accepted: bool,
    pub reason: Option<&'static str>,
    pub relevance_score: u64,
    pub excerpt: String,
    pub verification_quote: String,
    pub matched_query: String,
}

/// An assessment as a mathematical value.
#[verifier::ext_equal]
pub struct AssessmentView {
    pub accepted: bool,
    pub reason: Option<Seq<char>>,
    pub relevance_score: u64,
    pub excerpt: Seq<char>,
    pub verification_quote: Seq<char>,
    pub matched_query: Seq<char>,
}

impl View for ContentAssessment {
    type V = AssessmentView;

    open spec fn view(&self) -> AssessmentView {
        AssessmentView {
            accepted: self.accepted,
            reason: match self.reason {
                Some(r) => Some(r@),
                None => None,
            },
            relevance_score: self.relevance_score,
            excerpt: self.excerpt@,
            verification_quote: self.verification_quote@,
            matched_query: self.matched_query@,
        }
    }
}

/// An assessment that turns a page down.
pub open spec fn turned_down(reason: Seq<char>, score: u64, query: Seq<char>) -> AssessmentView {
    AssessmentView {
        accepted: false,
        reason: Some(reason),
        relevance_score: score,
        excerpt: ""@,
        verification_quote: ""@,
        matched_query: query,
    }
}

/// The parts of an excerpt: the passages they come from, the parts, and how many characters
/// they have together.
#[verifier::ext_equal]
pub struct Picked {
    pub ranges: Seq<(int, int)>,
    pub parts: Seq<Seq<char>>,
    pub chars: int,
}

/// Two ranges have a position in common.
pub open spec fn ranges_meet(a: (int, int), b: (int, int)) -> bool {
    a.0 < b.1 && a.1 > b.0
}

/// The trimmed text of a passage.
pub open spec fn passage_text(body: Seq<char>, p: ScoredPassage) -> Seq<char> {
    trimmed(body.subrange(p.start as int, p.end as int))
}

/// A passage can be a part: it is one for the query, meets no earlier part, has text, and there
/// is room for it.
pub open spec fn can_pick(
    body: Seq<char>,
    queries: Seq<Seq<char>>,
    query: Seq<char>,
    picked: Picked,
    p: ScoredPassage,
) -> bool {
    &&& picked.parts.len() < 3
    &&& picked.chars < MAX_EXCERPT_CHARS
    &&& queries[p.query as int] == query
    &&& forall|i: int|
        0 <= i < picked.ranges.len() ==> !ranges_meet(
            (p.start as int, p.end as int),
            #[trigger] picked.ranges[i],
        )
    &&& passage_text(body, p).len() > 0
}

/// The parts that come from some passages, best first.
pub open spec fn picked_from(
    body: Seq<char>,
    queries: Seq<Seq<char>>,
    query: Seq<char>,
    s: Seq<ScoredPassage>,
) -> Picked
    decreases s.len(),
{
    if s.len() == 0 {
        Picked { ranges: Seq::empty(), parts: Seq::empty(), chars: 0 }
    } else {
        let before = picked_from(body, queries, query, s.drop_last());
        let p = s.last();
        if can_pick(body, queries, query, before, p) {
            let part = first_chars(passage_text(body, p), MAX_EXCERPT_CHARS - before.chars);
            Picked {
                ranges: before.ranges.push((p.start as int, p.end as int)),
                parts: before.parts.push(part),
                chars: before.chars + part.len(),
            }
        } else {
            before
        }
    }
}

/// The excerpt of a page for a query.
pub open spec fn excerpt_of(
    body: Seq<char>,
    queries: Seq<Seq<char>>,
    query: Seq<char>,
    s: Seq<ScoredPassage>,
) -> Seq<char> {
    joined(picked_from(body, queries, query, s).parts, "\n\n---\n\n"@)
}

/// A title and a text have a term in common, or the title has none.
pub open spec fn title_fits(title: Seq<char>, body: Seq<char>) -> bool {
    ||| tokens(title).len() == 0
    ||| exists|i: int|
        0 <= i < tokens(title).len() && tokens(body).contains(#[trigger] tokens(title)[i])
}

/// What a page with some scored passages is worth.
pub open spec fn assessed(
    body: Seq<char>,
    title: Seq<char>,
    queries: Seq<Seq<char>>,
    scored: Seq<ScoredPassage>,
) -> AssessmentView {
    let ranked = ordered(scored, score_order());
    if ranked.len() == 0 {
        turned_down("no_relevant_passage"@, NO_SCORE, ""@)
    } else {
        let best = ranked[0];
        let query = queries[best.query as int];
        let needed: int = if tokens(query).len() >= 4 {
            2
        } else {
            1
        };
        if score_rank(best.score) < score_rank(MIN_CONTENT_SCORE) || best.matched < needed {
            turned_down("low_content_relevance"@, best.shown, query)
        } else if !title_fits(title, body) && score_rank(best.score) < score_rank(
            SURE_CONTENT_SCORE,
        ) {
            turned_down("title_content_mismatch"@, best.shown, query)
        } else {
            let excerpt = excerpt_of(body, queries, query, ranked);
            AssessmentView {
                accepted: excerpt.len() > 0 && quote_of(excerpt).len() > 0,
                reason: None,
                relevance_score: best.shown,
                excerpt,
                verification_quote: quote_of(excerpt),
                matched_query: query,
            }
        }
    }
}

/// A score that reaches the bar still does as it is shown.
pub open spec fn keeps_bar(s: PassageScore) -> bool {
    score_rank(MIN_CONTENT_SCORE) <= score_rank(s.score) ==> score_rank(MIN_CONTENT_SCORE)
        <= score_rank(s.shown)
}

/// A passage of a text for one of some queries.
pub open spec fn fits(p: ScoredPassage, body: Seq<char>, queries: nat) -> bool {
    p.query < queries && p.start <= p.end <= body.len()
}

/// An assessment that turns a page down before it is read.
pub fn rejected_content(reason: &'static str) -> (res: ContentAssessment)
    ensures
        res@ == turned_down(reason@, NO_SCORE, ""@),
{
    turn_down(reason, NO_SCORE, "")
}

fn turn_down(reason: &'static str, score: u64, query: &str) -> (res: ContentAssessment)
    ensures
        res@ == turned_down(reason@, score, query@),
{
    ContentAssessment {
        accepted: false,
        reason: Some(reason),
        relevance_score: score,
        excerpt: "".to_owned(),
        verification_quote: "".to_owned(),
        matched_query: query.to_owned(),
    }
}

fn meets_any(ranges: &Vec<(usize, usize)>, start: usize, end: usize) -> (res: bool)
    ensures
        res == exists|i: int|
            0 <= i < ends_of(ranges@).len() && ranges_meet(
                (start as int, end as int),
                #[trigger] ends_of(ranges@)[i],
            ),
{
    let mut i: usize = 0;
    while i < ranges.len()
        invariant
            i <= ranges@.len(),
            forall|k: int|
                0 <= k < i ==> !ranges_meet(
                    (start as int, end as int),
                    #[trigger] ends_of(ranges@)[k],
                ),
        decreases ranges@.len() - i,
    {
        let (from, to) = ranges[i];
        assert(ends_of(ranges@)[i as int] == (from as int, to as int));
        if start < to && end > from {
            return true;
        }
        i = i + 1;
    }
    false
}

/// The excerpt of a page for a query.
fn pick_excerpt(
    body: &str,
    queries: &Vec<String>,
    query: &str,
    ranked: &Vec<ScoredPassage>,
) -> (res: String)
    requires
        forall|i: int|
            0 <= i < ranked@.len() ==> fits(#[trigger] ranked@[i], body@, queries@.len()),
    ensures
        res@ == excerpt_of(body@, texts(queries@), query@, ranked@),
{
    let v = chars_of(body);
    let mut ranges: Vec<(usize, usize)> = Vec::new();
    let mut parts: Vec<String> = Vec::new();
    let mut chars: usize = 0;
    let mut i: usize = 0;
    proof {
        let none = picked_from(body@, texts(queries@), query@, ranked@.take(0));
        assert(ends_of(ranges@) =~= none.ranges);
        assert(texts(parts@) =~= none.parts);
    }
    while i < ranked.len()
        invariant
            v@ == body@,
            forall|k: int|
                0 <= k < ranked@.len() ==> fits(#[trigger] ranked@[k], body@, queries@.len()),
            i <= ranked@.len(),
            chars <= MAX_EXCERPT_CHARS,
            (Picked { ranges: ends_of(ranges@), parts: texts(parts@), chars: chars as int })
                == picked_from(body@, texts(queries@), query@, ranked@.take(i as int)),
        decreases ranked@.len() - i,
    {
        let ghost before = picked_from(body@, texts(queries@), query@, ranked@.take(i as int));
        let p = ranked[i];
        let ghost old_ranges = ranges@;
        let ghost old_parts = parts@;
        proof {
            assert(ranked@.take(i + 1).drop_last() =~= ranked@.take(i as int));
            assert(ranked@.take(i + 1).last() == p);
            assert(fits(ranked@[i as int], body@, queries@.len()));
            assert(texts(queries@)[p.query as int] == queries@[p.query as int]@);
            assert(texts(parts@).len() == parts@.len());
        }
        if parts.len() < 3 && chars < MAX_EXCERPT_CHARS && same_text(&queries[p.query], query)
            && !meets_any(&ranges, p.start, p.end) {
            let passage = trim(&slice_text(&v, p.start, p.end));
            assert(passage@ == passage_text(body@, p));
            let length: usize = chars_of(&passage).len();
            if length > 0 {
                assert(can_pick(body@, texts(queries@), query@, before, p));
                let part = take_chars(&passage, MAX_EXCERPT_CHARS - chars);
                let taken: usize = chars_of(&part).len();
                chars = chars + taken;
                parts.push(part);
                ranges.push((p.start, p.end));
                proof {
                    assert(texts(parts@) =~= texts(old_parts).push(part@));
                    assert(ends_of(ranges@) =~= ends_of(old_ranges).push(
                        (p.start as int, p.end as int),
                    ));
                }
            } else {
                assert(!can_pick(body@, texts(queries@), query@, before, p));
            }
        } else {
            assert(!can_pick(body@, texts(queries@), query@, before, p));
        }
        i = i + 1;
    }
    assert(ranked@.take(ranked@.len() as int) =~= ranked@);
    join(&parts, "\n\n---\n\n")
}

/// Whether a title and a text have a term in common, or the title has none.
pub fn title_matches(title: &str, body: &str) -> (res: bool)
    ensures
        res == title_fits(title@, body@),
{
    let wanted = tokenize(title);
    let found = tokenize(body);
    assert(texts(wanted@).len() == wanted@.len());
    if wanted.len() == 0 {
        return true;
    }
    let mut i: usize = 0;
    while i < wanted.len()
        invariant
            i <= wanted@.len(),
            texts(wanted@) == tokens(title@),
            texts(found@) == tokens(body@),
            forall|k: int| 0 <= k < i ==> !tokens(body@).contains(#[trigger] tokens(title@)[k]),
        decreases wanted@.len() - i,
    {
        assert(tokens(title@)[i as int] == wanted@[i as int]@);
        if list_has(&found, &wanted[i]) {
            return true;
        }
        i = i + 1;
    }
    false
}

/// Says what a page is worth whose passages have some scores, in the order of `passages`.
pub fn assess_content(
    body: &str,
    title: &str,
    queries: &Vec<String>,
    scores: &Vec<PassageScore>,
) -> (res: ContentAssessment)
    requires
        scores@.len() == queries@.len() * windows_from(body@.len() as int, 0).len(),
    ensures
        res@ == assessed(body@, title@, texts(queries@), scored_passages(
            body@,
            texts(queries@),
            scores@,
        )),
        res.accepted <==> res.reason is None,
        !res.accepted ==> res.excerpt@.len() == 0 && res.verification_quote@.len() == 0,
        res.accepted ==> texts(queries@).contains(res.matched_query@),
        res.accepted ==> 0 < res.verification_quote@.len() <= 320 && occurs(
            res.excerpt@,
            res.verification_quote@,
        ),
        res.accepted && (forall|i: int| 0 <= i < scores@.len() ==> keeps_bar(#[trigger] scores@[i]))
            ==> score_rank(MIN_CONTENT_SCORE) <= score_rank(res.relevance_score),
{
    let scored = with_scores(body, queries, scores);
    let ghost given = scored@;
    let ranked = in_rank_order(scored);
    proof {
        assert(item_views(given) =~= given);
        assert(item_views(ranked@) =~= ranked@);
        assert(crate::order::rank_order::<ScoredPassage>() =~= score_order());
        lemma_ranked_fit(given, body@, queries@.len());
        assert(texts(queries@).len() == queries@.len());
        assert(queries.len() == queries@.len());
        law_assessments_are_decided(body@, title@, texts(queries@), scores@);
    }
    if ranked.len() == 0 {
        return rejected_content("no_relevant_passage");
    }
    let best = ranked[0];
    assert(fits(ranked@[0], body@, queries@.len()));
    assert(texts(queries@)[best.query as int] == queries@[best.query as int]@);
    let query = &queries[best.query];
    let words = tokenize(query);
    assert(texts(words@).len() == words@.len());
    let needed: usize = if words.len() >= 4 {
        2
    } else {
        1
    };
    if is_lower(best.score, MIN_CONTENT_SCORE) || best.matched < needed {
        return turn_down("low_content_relevance", best.shown, query);
    }
    if !title_matches(title, body) && is_lower(best.score, SURE_CONTENT_SCORE) {
        return turn_down("title_content_mismatch", best.shown, query);
    }
    let excerpt = pick_excerpt(body, queries, query, &ranked);
    let quote = verification_quote(&excerpt);
    let excerpt_length: usize = chars_of(&excerpt).len();
    let quote_length: usize = chars_of(&quote).len();
    ContentAssessment {
        accepted: excerpt_length > 0 && quote_length > 0,
        reason: None,
        relevance_score: best.shown,
        excerpt,
        verification_quote: quote,
        matched_query: query.clone(),
    }
}

proof fn lemma_ranked_fit(scored: Seq<ScoredPassage>, body: Seq<char>, queries: nat)
    requires
        forall|i: int| 0 <= i < scored.len() ==> fits(#[trigger] scored[i], body, queries),
    ensures
        forall|i: int|
            0 <= i < ordered(scored, score_order()).len() ==> fits(
                #[trigger] ordered(scored, score_order())[i],
                body,
                queries,
            ),
{
    let ranked = ordered(scored, score_order());
    crate::order::law_ordered(scored, score_order());
    assert forall|i: int| 0 <= i < ranked.len() implies fits(#[trigger] ranked[i], body, queries) by {
        crate::order::lemma_same_items(ranked, scored, ranked[i]);
        assert(ranked.contains(ranked[i]));
        let k = choose|k: int| 0 <= k < scored.len() && scored[k] == ranked[i];
        assert(fits(scored[k], body, queries));
    }
}

// ---------------------------------------------------------------------------
// Laws
// ---------------------------------------------------------------------------
/// Every character of a text stands in one of its passages.
pub proof fn law_passages_cover_the_text(n: int, start: int, k: int)
    requires
        0 <= start <= k < n,
    ensures
        exists|i: int|
            0 <= i < windows_from(n, start).len() && (#[trigger] windows_from(n, start)[i]).0 <= k
                && k < windows_from(n, start)[i].1,
    decreases n - start,
{
    let all = windows_from(n, start);
    if start + PASSAGE_CHARS >= n || k < start + PASSAGE_CHARS {
        assert(all[0].0 <= k && k < all[0].1);
    } else {
        let rest = windows_from(n, start + PASSAGE_STEP_CHARS);
        law_passages_cover_the_text(n, start + PASSAGE_STEP_CHARS, k);
        let i = choose|i: int| 0 <= i < rest.len() && (#[trigger] rest[i]).0 <= k && k < rest[i].1;
        assert(all[i + 1] == rest[i]);
    }
}

/// No passage is longer than a passage may be, and each lies in the text.
pub proof fn law_passages_are_bounded(n: int, start: int, i: int)
    requires
        0 <= start <= n,
        0 <= i < windows_from(n, start).len(),
    ensures
        start <= windows_from(n, start)[i].0 <= windows_from(n, start)[i].1 <= n,
        windows_from(n, start)[i].1 - windows_from(n, start)[i].0 <= PASSAGE_CHARS,
    decreases n - start,
{
    if start + PASSAGE_CHARS < n && i > 0 {
        law_passages_are_bounded(n, start + PASSAGE_STEP_CHARS, i - 1);
        assert(windows_from(n, start)[i] == windows_from(n, start + PASSAGE_STEP_CHARS)[i - 1]);
    }
}

proof fn lemma_sub_occurs(s: Seq<char>, i: int, j: int)
    requires
        0 <= i <= j <= s.len(),
    ensures
        occurs(s, s.subrange(i, j)),
{
    assert(s.subrange(i, i + s.subrange(i, j).len()) =~= s.subrange(i, j));
    assert(has_at(s, s.subrange(i, j), i));
}

/// What stands in a part of a text stands in the text.
pub proof fn lemma_occurs_within(s: Seq<char>, t: Seq<char>, p: Seq<char>)
    requires
        occurs(s, t),
        occurs(t, p),
    ensures
        occurs(s, p),
{
    let i = choose|i: int| has_at(s, t, i);
    let j = choose|j: int| has_at(t, p, j);
    assert(s.subrange(i + j, i + j + p.len()) =~= s.subrange(i, i + t.len()).subrange(
        j,
        j + p.len(),
    ));
    assert(has_at(s, p, i + j));
}

/// What is left of a text once white space is trimmed away stands in it.
pub proof fn lemma_trimmed_occurs(s: Seq<char>)
    ensures
        occurs(s, trimmed(s)),
        occurs(s, trimmed_end(s)),
        trimmed_end(s).len() <= s.len(),
        trimmed(s).len() <= s.len(),
{
    let front = crate::text::trimmed_start(s);
    crate::text::lemma_drop_leading(s, crate::text::white());
    crate::text::lemma_drop_trailing(front, crate::text::white());
    crate::text::lemma_drop_trailing(s, crate::text::white());
    lemma_sub_occurs(s, 0, trimmed_end(s).len() as int);
    assert(s.subrange(0, trimmed_end(s).len() as int) =~= s.take(trimmed_end(s).len() as int));
    let cut = s.len() - front.len();
    lemma_sub_occurs(s, cut, cut + trimmed(s).len());
    assert(s.subrange(cut, cut + trimmed(s).len()) =~= front.take(trimmed(s).len() as int));
}

proof fn lemma_piece_occurs(s: Seq<char>, sep: spec_fn(char) -> bool, i: int)
    requires
        0 <= i < pieces(s, sep).len(),
    ensures
        occurs(s, pieces(s, sep)[i]),
        i == pieces(s, sep).len() - 1 ==> has_at(
            s,
            pieces(s, sep)[i],
            s.len() - pieces(s, sep)[i].len(),
        ),
    decreases s.len(),
{
    crate::text::lemma_pieces_nonempty(s, sep);
    let all = pieces(s, sep);
    if s.len() == 0 {
        assert(s.subrange(0, 0) =~= all[0]);
        assert(has_at(s, all[0], 0));
    } else {
        let front = s.drop_last();
        let before = pieces(front, sep);
        crate::text::lemma_pieces_nonempty(front, sep);
        if i < all.len() - 1 {
            lemma_piece_occurs(front, sep, i);
            assert(all[i] == before[i]);
            lemma_sub_occurs(s, 0, s.len() - 1);
            assert(s.subrange(0, s.len() - 1) =~= front);
            lemma_occurs_within(s, front, all[i]);
        } else if sep(s.last()) {
            assert(s.subrange(s.len() as int, s.len() as int) =~= all[i]);
            assert(has_at(s, all[i], s.len() as int));
        } else {
            lemma_piece_occurs(front, sep, before.len() - 1);
            let piece = before.last();
            let at = front.len() - piece.len();
            assert(front.subrange(at, at + piece.len()) == piece);
            assert(s.subrange(at, at + piece.len() + 1) =~= piece.push(s.last()));
            assert(has_at(s, all[i], s.len() - all[i].len()));
        }
    }
}

proof fn lemma_line_occurs(s: Seq<char>, i: int)
    requires
        0 <= i < line_list(s).len(),
    ensures
        occurs(s, line_list(s)[i]),
{
    let p = pieces(s, just('\n'));
    crate::text::lemma_pieces_nonempty(s, just('\n'));
    lemma_piece_occurs(s, just('\n'), i);
    if i < p.len() - 1 {
        let line = p[i];
        assert(line_list(s)[i] == without_return(line));
        if line.len() > 0 && line.last() == '\r' {
            lemma_sub_occurs(line, 0, line.len() - 1);
            assert(line.subrange(0, line.len() - 1) =~= line.drop_last());
            lemma_occurs_within(s, line, line.drop_last());
        }
    }
}

proof fn lemma_long_line_occurs(s: Seq<char>, lines: Seq<Seq<char>>)
    requires
        forall|i: int| 0 <= i < lines.len() ==> occurs(s, #[trigger] lines[i]),
        first_long_line(lines) is Some,
    ensures
        occurs(s, first_long_line(lines)->0),
    decreases lines.len(),
{
    if trimmed(lines[0]).len() >= 80 {
        lemma_trimmed_occurs(lines[0]);
        lemma_occurs_within(s, lines[0], trimmed(lines[0]));
    } else {
        assert forall|i: int| 0 <= i < lines.drop_first().len() implies occurs(
            s,
            #[trigger] lines.drop_first()[i],
        ) by {
            assert(lines.drop_first()[i] == lines[i + 1]);
        }
        lemma_long_line_occurs(s, lines.drop_first());
    }
}

proof fn lemma_sentence_end_in_range(s: Seq<char>, from: int, limit: int)
    ensures
        first_sentence_end(s, from, limit) matches Some(k) ==> from <= k < limit && sentence_ends(
            s,
            k,
        ),
    decreases limit - from,
{
    if from < limit && !sentence_ends(s, from) {
        lemma_sentence_end_in_range(s, from + 1, limit);
    }
}

/// A quote stands in the excerpt letter for letter, and has at most 320 characters.
pub proof fn law_quotes_are_exact(excerpt: Seq<char>)
    ensures
        occurs(excerpt, quote_of(excerpt)),
        quote_of(excerpt).len() <= 320,
{
    let source = quote_source(excerpt);
    if first_long_line(line_list(excerpt)) is Some {
        assert forall|i: int| 0 <= i < line_list(excerpt).len() implies occurs(
            excerpt,
            #[trigger] line_list(excerpt)[i],
        ) by {
            lemma_line_occurs(excerpt, i);
        }
        lemma_long_line_occurs(excerpt, line_list(excerpt));
    } else {
        lemma_trimmed_occurs(excerpt);
    }
    assert(occurs(excerpt, source));
    lemma_sentence_end_in_range(source, 79, 320);
    let part = match first_sentence_end(source, 79, 320) {
        Some(k) => source.take(k + 1),
        None => first_chars(source, 320),
    };
    lemma_sub_occurs(source, 0, part.len() as int);
    assert(source.subrange(0, part.len() as int) =~= part);
    lemma_occurs_within(excerpt, source, part);
    lemma_trimmed_occurs(part);
    lemma_occurs_within(excerpt, part, trimmed_end(part));
}

proof fn lemma_scored_fit(body: Seq<char>, queries: Seq<Seq<char>>, scores: Seq<PassageScore>, i: int)
    requires
        body.len() <= usize::MAX,
        queries.len() <= usize::MAX,
        0 <= i < scored_passages(body, queries, scores).len(),
    ensures
        fits(scored_passages(body, queries, scores)[i], body, queries.len()),
{
    let n = windows_from(body.len() as int, 0).len() as int;
    let q = queries.len() as int;
    assert(0 <= i / n < q && 0 <= i % n < n) by (nonlinear_arith)
        requires
            0 <= i < q * n,
            0 <= q,
            0 <= n,
    ;
    law_passages_are_bounded(body.len() as int, 0, i % n);
}

proof fn lemma_first_part(
    body: Seq<char>,
    queries: Seq<Seq<char>>,
    query: Seq<char>,
    s: Seq<ScoredPassage>,
)
    requires
        s.len() > 0,
        queries[s[0].query as int] == query,
        passage_text(body, s[0]).len() > 0,
    ensures
        picked_from(body, queries, query, s).parts.len() > 0,
        picked_from(body, queries, query, s).parts[0].len() > 0,
        picked_from(body, queries, query, s).parts[0][0] == passage_text(body, s[0])[0],
    decreases s.len(),
{
    let front = s.drop_last();
    if s.len() == 1 {
        assert(front.len() == 0);
        let none = picked_from(body, queries, query, front);
        assert(can_pick(body, queries, query, none, s[0]));
    } else {
        assert(front[0] == s[0]);
        lemma_first_part(body, queries, query, front);
    }
}

proof fn lemma_joined_first(parts: Seq<Seq<char>>, sep: Seq<char>)
    requires
        parts.len() > 0,
        parts[0].len() > 0,
    ensures
        joined(parts, sep).len() > 0,
        joined(parts, sep)[0] == parts[0][0],
    decreases parts.len(),
{
    if parts.len() > 1 {
        assert(parts.drop_last()[0] == parts[0]);
        lemma_joined_first(parts.drop_last(), sep);
    }
}

proof fn lemma_long_line_begins(lines: Seq<Seq<char>>)
    requires
        first_long_line(lines) is Some,
    ensures
        first_long_line(lines)->0.len() > 0,
        !char_is_whitespace(first_long_line(lines)->0[0]),
    decreases lines.len(),
{
    if trimmed(lines[0]).len() >= 80 {
        let front = crate::text::trimmed_start(lines[0]);
        crate::text::lemma_drop_leading(lines[0], crate::text::white());
        crate::text::lemma_drop_trailing(front, crate::text::white());
        assert(!crate::text::white()(front[0]));
    } else {
        lemma_long_line_begins(lines.drop_first());
    }
}

/// An excerpt that begins with a character other than white space has a quote.
pub proof fn law_excerpts_have_quotes(excerpt: Seq<char>)
    requires
        excerpt.len() > 0,
        !char_is_whitespace(excerpt[0]),
    ensures
        quote_of(excerpt).len() > 0,
{
    let source = quote_source(excerpt);
    if first_long_line(line_list(excerpt)) is Some {
        lemma_long_line_begins(line_list(excerpt));
    } else {
        crate::text::lemma_trimmed_keeps(excerpt, 0);
    }
    assert(source.len() > 0 && !char_is_whitespace(source[0]));
    lemma_sentence_end_in_range(source, 79, 320);
    let part = match first_sentence_end(source, 79, 320) {
        Some(k) => source.take(k + 1),
        None => first_chars(source, 320),
    };
    assert(part[0] == source[0]);
    crate::text::lemma_trimmed_keeps(part, 0);
}

/// A page is accepted if and only if there is no reason against it. One that is turned down has
/// no excerpt and no quote. One that is accepted answers one of the queries, with a quote of at
/// most 320 characters that stands in the excerpt, and where the scores as they are shown keep
/// the bar, the score that it shows reaches it.
pub proof fn law_assessments_are_decided(
    body: Seq<char>,
    title: Seq<char>,
    queries: Seq<Seq<char>>,
    scores: Seq<PassageScore>,
)
    requires
        body.len() <= usize::MAX,
        queries.len() <= usize::MAX,
        scores.len() == queries.len() * windows_from(body.len() as int, 0).len(),
    ensures
        ({
            let a = assessed(body, title, queries, scored_passages(body, queries, scores));
            &&& a.accepted <==> a.reason is None
            &&& !a.accepted ==> a.excerpt.len() == 0 && a.verification_quote.len() == 0
            &&& a.accepted ==> queries.contains(a.matched_query)
            &&& a.accepted ==> 0 < a.verification_quote.len() <= 320 && occurs(
                a.excerpt,
                a.verification_quote,
            )
            &&& a.accepted && (forall|i: int|
                0 <= i < scores.len() ==> keeps_bar(#[trigger] scores[i])) ==> score_rank(
                MIN_CONTENT_SCORE,
            ) <= score_rank(a.relevance_score)
        }),
{
    reveal_strlit("");
    let scored = scored_passages(body, queries, scores);
    let ranked = ordered(scored, score_order());
    let a = assessed(body, title, queries, scored);
    if a.reason is None {
        let best = ranked[0];
        let query = queries[best.query as int];
        crate::order::law_ordered(scored, score_order());
        crate::order::lemma_same_items(ranked, scored, best);
        assert(ranked.contains(ranked[0]));
        let i = choose|i: int| 0 <= i < scored.len() && scored[i] == best;
        lemma_scored_fit(body, queries, scores, i);
        let text = body.subrange(best.start as int, best.end as int);
        assert(best.matched > 0);
        lemma_matched_is_the_overlap(body, queries, scores, i);
        lemma_overlap_needs_a_letter(query, text);
        let k = choose|k: int| 0 <= k < text.len() && char_is_alphanumeric(#[trigger] text[k]);
        crate::text::lemma_trimmed_keeps(text, k);
        lemma_first_part(body, queries, query, ranked);
        let parts = picked_from(body, queries, query, ranked).parts;
        lemma_joined_first(parts, "\n\n---\n\n"@);
        let excerpt = excerpt_of(body, queries, query, ranked);
        law_excerpts_have_quotes(excerpt);
        law_quotes_are_exact(excerpt);
        assert(queries.contains(query));
        if forall|i: int| 0 <= i < scores.len() ==> keeps_bar(#[trigger] scores[i]) {
            assert(keeps_bar(scores[i]));
        }
    }
}

proof fn lemma_matched_is_the_overlap(
    body: Seq<char>,
    queries: Seq<Seq<char>>,
    scores: Seq<PassageScore>,
    i: int,
)
    requires
        body.len() <= usize::MAX,
        queries.len() <= usize::MAX,
        0 <= i < scored_passages(body, queries, scores).len(),
        scored_passages(body, queries, scores)[i].matched > 0,
    ensures
        ({
            let p = scored_passages(body, queries, scores)[i];
            overlap(
                term_set(queries[p.query as int]),
                term_set(body.subrange(p.start as int, p.end as int)),
            ) > 0
        }),
{
    let n = windows_from(body.len() as int, 0).len() as int;
    let q = queries.len() as int;
    assert(0 <= i / n < q && 0 <= i % n < n) by (nonlinear_arith)
        requires
            0 <= i < q * n,
            0 <= q,
            0 <= n,
    ;
    law_passages_are_bounded(body.len() as int, 0, i % n);
}

/// An excerpt has at most three parts with at most 4,000 characters together, each of them
/// from the page, and no two from passages that meet.
pub proof fn law_excerpts_are_bounded(
    body: Seq<char>,
    queries: Seq<Seq<char>>,
    query: Seq<char>,
    s: Seq<ScoredPassage>,
)
    requires
        forall|i: int| 0 <= i < s.len() ==> fits(#[trigger] s[i], body, queries.len()),
    ensures
        ({
            let p = picked_from(body, queries, query, s);
            &&& p.parts.len() == p.ranges.len() <= 3
            &&& 0 <= p.chars <= MAX_EXCERPT_CHARS
            &&& forall|i: int|
                0 <= i < p.parts.len() ==> (#[trigger] p.parts[i]).len() > 0 && occurs(
                    body,
                    p.parts[i],
                )
            &&& forall|i: int, j: int|
                0 <= i < j < p.ranges.len() ==> !ranges_meet(
                    #[trigger] p.ranges[j],
                    #[trigger] p.ranges[i],
                )
        }),
    decreases s.len(),
{
    if s.len() > 0 {
        let front = s.drop_last();
        let before = picked_from(body, queries, query, front);
        assert forall|i: int| 0 <= i < front.len() implies fits(
            #[trigger] front[i],
            body,
            queries.len(),
        ) by {
            assert(front[i] == s[i]);
        }
        law_excerpts_are_bounded(body, queries, query, front);
        let p = s.last();
        assert(fits(s[s.len() - 1], body, queries.len()));
        if can_pick(body, queries, query, before, p) {
            let text = passage_text(body, p);
            let part = first_chars(text, MAX_EXCERPT_CHARS - before.chars);
            let range = body.subrange(p.start as int, p.end as int);
            lemma_sub_occurs(body, p.start as int, p.end as int);
            lemma_trimmed_occurs(range);
            lemma_occurs_within(body, range, text);
            lemma_sub_occurs(text, 0, part.len() as int);
            assert(text.subrange(0, part.len() as int) =~= part);
            lemma_occurs_within(body, text, part);
        }
    }
}

proof fn lemma_last_at_is(s: Seq<char>, p: Seq<char>, from: int, i: int)
    requires
        0 <= i <= from,
        has_at(s, p, i),
        forall|j: int| i < j <= from ==> !has_at(s, p, j),
    ensures
        last_at(s, p, from) == Some(i),
    decreases from - i,
{
    if i < from {
        assert(!has_at(s, p, from));
        lemma_last_at_is(s, p, from - 1, i);
    }
}

/// Unwrapping a text that was wrapped gives back the text as it was wrapped, for any source
/// without a line break.
pub proof fn law_unwrapping_undoes_wrapping(
    nonce: Seq<char>,
    source_url: Seq<char>,
    body: Seq<char>,
)
    requires
        crate::store::is_uuid_text(nonce),
        forall|i: int| 0 <= i < source_url.len() ==> source_url[i] != '\n',
    ensures
        unwrapped(wrapped(nonce, source_url, body)) == stripped(body),
{
    let header = wrap_header(nonce, source_url);
    let footer = wrap_footer(nonce);
    let clean = stripped(body);
    let w = wrapped(nonce, source_url, body);
    let opening = "<<<UNTRUSTED_WEB_CONTENT:"@;
    let closing = "\n<<<END_UNTRUSTED_WEB_CONTENT:"@;
    let mark = "<<<END_UNTRUSTED_WEB_CONTENT:"@;
    crate::envelope::lemma_marker_lines(nonce, source_url);
    reveal_strlit("<<<UNTRUSTED_WEB_CONTENT:");
    reveal_strlit("<<<END_UNTRUSTED_WEB_CONTENT:");
    reveal_strlit("\n<<<END_UNTRUSTED_WEB_CONTENT:");
    reveal_strlit("\n");
    reveal_strlit(">>>");
    assert(closing =~= "\n"@ + mark);
    assert(w.subrange(0, opening.len() as int) =~= opening);
    assert(has_at(w, opening, 0));
    let h = header.len() as int;
    assert(w[h] == '\n');
    assert(w.subrange(h, h + 1) =~= "\n"@);
    assert(has_at(w, "\n"@, h));
    assert forall|j: int| 0 <= j < h implies !has_at(w, "\n"@, j) by {
        assert(w[j] == header[j]);
        if has_at(w, "\n"@, j) {
            assert(w.subrange(j, j + 1)[0] == w[j]);
        }
    }
    crate::text::lemma_first_at_is(w, "\n"@, 0, h);
    let inner = w.skip(h + 1);
    let c = clean.len() as int;
    assert(inner =~= clean + "\n"@ + footer);
    assert(inner.subrange(c, c + closing.len()) =~= closing);
    assert(has_at(inner, closing, c));
    assert forall|j: int| c < j <= inner.len() implies !has_at(inner, closing, j) by {
        if has_at(inner, closing, j) {
            assert(inner.subrange(j, j + closing.len())[0] == inner[j]);
            assert(inner[j] == footer[j - c - 1]);
            assert(inner[j] == '\n');
            assert(footer =~= mark + nonce + ">>>"@);
        }
    }
    lemma_last_at_is(inner, closing, inner.len() as int, c);
    assert(inner.take(c) =~= clean);
}

/// A text that does not begin with an opening marker is its own content.
pub proof fn law_bare_text_is_its_own_content(s: Seq<char>)
    requires
        !has_at(s, "<<<UNTRUSTED_WEB_CONTENT:"@, 0),
    ensures
        unwrapped(s) == s,
{
}

/// Scores by their bits are ordered as the numbers that they stand for: of two without a sign
/// the one with the larger bits is higher, of two with a sign the one with the smaller bits, and
/// one without a sign is higher than one with.
pub proof fn law_scores_are_ordered_as_numbers(a: u64, b: u64)
    ensures
        a < 0x8000_0000_0000_0000 && b < 0x8000_0000_0000_0000 ==> (score_rank(a) < score_rank(b)
            <==> a < b),
        a >= 0x8000_0000_0000_0000 && b >= 0x8000_0000_0000_0000 ==> (score_rank(a) < score_rank(b)
            <==> b < a),
        a >= 0x8000_0000_0000_0000 && b < 0x8000_0000_0000_0000 ==> score_rank(a) < score_rank(b),
{
}

/// The beginning of a text is the text where it is short enough, and otherwise so many
/// characters of it.
pub proof fn law_beginnings_are_cut_to_length(a: Seq<char>, b: Seq<char>)
    ensures
        first_chars(a + b, a.len() as int) == a,
        forall|n: int| n >= a.len() ==> #[trigger] first_chars(a, n) == a,
{
    assert(first_chars(a + b, a.len() as int) =~= a);
    assert forall|n: int| n >= a.len() implies #[trigger] first_chars(a, n) == a by {
        assert(first_chars(a, n) =~= a);
    }
}

/// A passage begins every 1200 characters and has 1600, but for the last one, which ends with
/// the text; there is no passage behind one that reaches the end.
pub proof fn law_passages_begin_at_steps(n: int, start: int, i: int)
    requires
        0 <= start <= n,
        0 <= i < windows_from(n, start).len(),
    ensures
        ({
            let all = windows_from(n, start);
            &&& all[i].0 == start + 1200 * i
            &&& i + 1 < all.len() ==> all[i].1 == all[i].0 + 1600 && all[i].1 < n
            &&& i + 1 == all.len() ==> all[i].1 == n && all[i].0 + 1600 >= n
        }),
    decreases i,
{
    let all = windows_from(n, start);
    if start + PASSAGE_CHARS < n {
        let rest = windows_from(n, start + PASSAGE_STEP_CHARS);
        assert(rest.len() > 0) by {
            if start + PASSAGE_STEP_CHARS + PASSAGE_CHARS < n {
                assert(rest == seq![
                    (
                        start + PASSAGE_STEP_CHARS as int,
                        start + PASSAGE_STEP_CHARS + PASSAGE_CHARS,
                    ),
                ] + windows_from(n, start + PASSAGE_STEP_CHARS + PASSAGE_STEP_CHARS));
            }
        }
        assert(all.len() == rest.len() + 1);
        if i > 0 {
            law_passages_begin_at_steps(n, start + PASSAGE_STEP_CHARS, i - 1);
            assert(all[i] == rest[i - 1]);
        }
    }
}

/// A page asks the reader to sign in where its first 2000 characters, in any case, speak of
/// signing or logging in and also of a password or of creating an account; what stands behind
/// them does not count.
pub proof fn law_pages_that_ask_to_sign_in(head: Seq<char>, rest: Seq<char>)
    ensures
        head.len() <= 2000 ==> (asks_to_sign_in(head) <==> (occurs(ascii_lower(head), "sign in"@)
            || occurs(ascii_lower(head), "log in"@)) && (occurs(ascii_lower(head), "password"@)
            || occurs(ascii_lower(head), "create account"@))),
        head.len() == 2000 ==> asks_to_sign_in(head + rest) == asks_to_sign_in(head),
{
    law_beginnings_are_cut_to_length(head, rest);
    if head.len() <= 2000 {
        assert(first_chars(head, 2000) == head);
    }
    let low = ascii_lower(head);
    if occurs(low, "forgot password"@) {
        reveal_strlit("forgot password");
        reveal_strlit("password");
        let i = choose|i: int| has_at(low, "forgot password"@, i);
        assert("forgot password"@.subrange(7, 15) =~= "password"@);
        assert(low.subrange(i + 7, i + 15) =~= low.subrange(i, i + 15).subrange(7, 15));
        assert(has_at(low, "password"@, i + 7));
    }
}

/// A page is worth reading if and only if its content, without markers and space around it, has
/// 300 characters and 60 tokens at least, its address may be evidence and it does not ask the
/// reader to sign in; what is read is that content.
pub proof fn law_pages_worth_reading(markdown: Seq<char>, final_url: Seq<char>)
    ensures
        ({
            let body = trimmed(unwrapped(markdown));
            let r = readable(markdown, final_url);
            let is_long = body.len() >= 300 && tokens(body).len() >= 60;
            let is_open = unsafe_url_reason(final_url) is None && !asks_to_sign_in(body);
            &&& is_long && is_open ==> r == Ok::<Seq<char>, Seq<char>>(body)
            &&& !is_long ==> r == Err::<Seq<char>, Seq<char>>("content_too_short"@)
            &&& is_long && !is_open ==> r == Err::<Seq<char>, Seq<char>>(
                "authentication_or_interstitial"@,
            )
        }),
{
}

/// Every passage of the text stands for every query once, query by query, with its ends, with
/// the score of its position and with the number of the query's terms that it holds.
pub proof fn law_every_passage_is_scored_for_every_query(
    body: Seq<char>,
    queries: Seq<Seq<char>>,
    scores: Seq<PassageScore>,
    q: int,
    w: int,
)
    requires
        body.len() <= usize::MAX,
        queries.len() <= usize::MAX,
        0 <= q < queries.len(),
        0 <= w < windows_from(body.len() as int, 0).len(),
    ensures
        ({
            let windows = windows_from(body.len() as int, 0);
            let all = scored_passages(body, queries, scores);
            let at = q * windows.len() + w;
            &&& all.len() == queries.len() * windows.len()
            &&& 0 <= at < all.len()
            &&& all[at].query == q
            &&& all[at].start == windows[w].0 && all[at].end == windows[w].1
            &&& all[at].score == scores[at].score && all[at].shown == scores[at].shown
            &&& all[at].matched == term_set(queries[q]).intersect(
                term_set(body.subrange(windows[w].0, windows[w].1)),
            ).len() as usize
        }),
{
    let windows = windows_from(body.len() as int, 0);
    let n = windows.len() as int;
    lemma_position(q, w, n);
    law_passages_are_bounded(body.len() as int, 0, w);
    assert(q * n + w < queries.len() * n) by (nonlinear_arith)
        requires
            0 <= q < queries.len(),
            0 <= w < n,
    ;
    assert(q * n >= 0) by (nonlinear_arith)
        requires
            0 <= q,
            0 < n,
    ;
}

/// A text is its first line, without the carriage return at its end, and then the lines behind
/// the newline; a text without newlines is one line, and an empty one has none.
pub proof fn law_lines_end_in_newlines(line: Seq<char>, rest: Seq<char>)
    requires
        !line.contains('\n'),
    ensures
        line_list(line + seq!['\n'] + rest) == seq![without_return(line)] + line_list(rest),
        line.len() > 0 ==> line_list(line) == seq![line],
        line_list(Seq::empty()).len() == 0,
        !line.contains('\r') ==> without_return(line) == line && without_return(line.push('\r'))
            == line,
{
    let sep = just('\n');
    assert forall|i: int| 0 <= i < line.len() implies !sep(#[trigger] line[i]) by {}
    law_texts_are_split_at_separators(line, '\n', rest, sep);
    lemma_pieces_nonempty(rest, sep);
    let p = pieces(line + seq!['\n'] + rest, sep);
    let r = pieces(rest, sep);
    assert(p == seq![line] + r);
    assert(p.last() == r.last());
    assert(p.drop_last() =~= seq![line] + r.drop_last());
    let strip = |l: Seq<char>| without_return(l);
    let whole = r.drop_last().map_values(strip);
    assert(p.drop_last().map_values(strip) =~= seq![without_return(line)] + whole);
    assert(line_list(line + seq!['\n'] + rest) =~= seq![without_return(line)] + line_list(rest));
    let one = pieces(line, sep);
    assert(one == seq![line]);
    assert(one.drop_last().map_values(strip) =~= Seq::<Seq<char>>::empty());
    if line.len() > 0 {
        assert(one.last() == line);
        assert(line_list(line) =~= seq![line]);
    }
    let none = pieces(Seq::<char>::empty(), sep);
    assert(none.drop_last().map_values(strip) =~= Seq::<Seq<char>>::empty());
    assert(none.last().len() == 0);
    assert(line.push('\r').drop_last() =~= line);
    if line.len() > 0 && !line.contains('\r') {
        assert(line[line.len() - 1] != '\r');
    }
}

proof fn lemma_first_long_line(lines: Seq<Seq<char>>, i: int)
    ensures
        0 <= i < lines.len() && trimmed(lines[i]).len() >= 80 && (forall|j: int|
            0 <= j < i ==> trimmed(#[trigger] lines[j]).len() < 80) ==> first_long_line(lines)
            == Some(trimmed(lines[i])),
        (forall|j: int| 0 <= j < lines.len() ==> trimmed(#[trigger] lines[j]).len() < 80)
            ==> first_long_line(lines) is None,
    decreases lines.len(),
{
    if lines.len() > 0 && trimmed(lines[0]).len() < 80 {
        let rest = lines.drop_first();
        lemma_first_long_line(rest, i - 1);
        if 0 < i < lines.len() && (forall|j: int|
            0 <= j < i ==> trimmed(#[trigger] lines[j]).len() < 80) {
            assert(rest[i - 1] == lines[i]);
            assert forall|j: int| 0 <= j < i - 1 implies trimmed(#[trigger] rest[j]).len() < 80 by {
                assert(rest[j] == lines[j + 1]);
            }
        }
        if forall|j: int| 0 <= j < lines.len() ==> trimmed(#[trigger] lines[j]).len() < 80 {
            assert forall|j: int| 0 <= j < rest.len() implies trimmed(#[trigger] rest[j]).len()
                < 80 by {
                assert(rest[j] == lines[j + 1]);
            }
        }
    }
}

/// A quote is taken from the first line that has 80 characters at least without the space around
/// it, and from the whole excerpt where no line has.
pub proof fn law_quotes_come_from_the_first_long_line(excerpt: Seq<char>, i: int)
    ensures
        ({
            let lines = line_list(excerpt);
            &&& 0 <= i < lines.len() && trimmed(lines[i]).len() >= 80 && (forall|j: int|
                0 <= j < i ==> trimmed(#[trigger] lines[j]).len() < 80) ==> quote_source(excerpt)
                == trimmed(lines[i])
            &&& (forall|j: int| 0 <= j < lines.len() ==> trimmed(#[trigger] lines[j]).len() < 80)
                ==> quote_source(excerpt) == trimmed(excerpt)
        }),
{
    lemma_first_long_line(line_list(excerpt), i);
}

proof fn lemma_first_sentence_end(s: Seq<char>, from: int, limit: int, k: int)
    ensures
        from <= k < limit && sentence_ends(s, k) && (forall|j: int|
            from <= j < k ==> !sentence_ends(s, j)) ==> first_sentence_end(s, from, limit) == Some(
            k,
        ),
        (forall|j: int| from <= j < limit ==> !sentence_ends(s, j)) ==> first_sentence_end(
            s,
            from,
            limit,
        ) is None,
    decreases limit - from,
{
    if from < limit && !sentence_ends(s, from) {
        lemma_first_sentence_end(s, from + 1, limit, k);
    }
}

/// A quote ends with the first sentence that ends behind its 79th and before its 321st
/// character, and where none does after 320 characters. A sentence ends at a full stop, an
/// exclamation mark or a question mark at the end of the text or before white space or a bracket.
pub proof fn law_quotes_end_with_a_sentence(excerpt: Seq<char>, k: int)
    ensures
        ({
            let s = quote_source(excerpt);
            &&& 79 <= k < 320 && sentence_ends(s, k) && (forall|j: int|
                79 <= j < k ==> !sentence_ends(s, j)) ==> quote_of(excerpt) == trimmed_end(
                s.take(k + 1),
            )
            &&& (forall|j: int| 79 <= j < 320 ==> !sentence_ends(s, j)) ==> quote_of(excerpt)
                == trimmed_end(
                if s.len() <= 320 {
                    s
                } else {
                    s.take(320)
                },
            )
            &&& sentence_ends(s, k) <==> 0 <= k < s.len() && seq!['.', '!', '?'].contains(s[k]) && (
            k == s.len() - 1 || s[k + 1] == '[' || char_is_whitespace(s[k + 1]))
        }),
{
    let s = quote_source(excerpt);
    lemma_first_sentence_end(s, 79, 320, k);
    law_beginnings_are_cut_to_length(s, Seq::empty());
    let marks = seq!['.', '!', '?'];
    assert(marks[0] == '.' && marks[1] == '!' && marks[2] == '?');
}

/// One more passage, worse than those before, becomes a part of the excerpt if and only if there
/// are fewer than three parts with less than 4000 characters, it is for the query, it meets none
/// of the parts and has text. It is cut where there is no more room.
pub proof fn law_parts_are_picked_in_order(
    body: Seq<char>,
    queries: Seq<Seq<char>>,
    query: Seq<char>,
    s: Seq<ScoredPassage>,
    p: ScoredPassage,
)
    ensures
        picked_from(body, queries, query, Seq::empty()).parts.len() == 0,
        picked_from(body, queries, query, Seq::empty()).ranges.len() == 0,
        picked_from(body, queries, query, Seq::empty()).chars == 0,
        ({
            let before = picked_from(body, queries, query, s);
            let after = picked_from(body, queries, query, s.push(p));
            let text = trimmed(body.subrange(p.start as int, p.end as int));
            let apart = forall|i: int|
                0 <= i < before.ranges.len() ==> p.end <= (#[trigger] before.ranges[i]).0
                    || before.ranges[i].1 <= p.start;
            let picks = before.parts.len() < 3 && before.chars < 4000 && queries[p.query as int]
                == query && apart && text.len() > 0;
            &&& !picks ==> after == before
            &&& picks ==> after.ranges == before.ranges.push((p.start as int, p.end as int))
            &&& picks && text.len() <= 4000 - before.chars ==> after.parts == before.parts.push(
                text,
            ) && after.chars == before.chars + text.len()
            &&& picks && text.len() > 4000 - before.chars ==> after.parts == before.parts.push(
                text.take(4000 - before.chars),
            ) && after.chars == 4000
        }),
    decreases s.len(),
{
    assert(s.push(p).drop_last() =~= s);
    let before = picked_from(body, queries, query, s);
    let text = trimmed(body.subrange(p.start as int, p.end as int));
    law_beginnings_are_cut_to_length(text, Seq::empty());
    lemma_picked_chars(body, queries, query, s);
}

proof fn lemma_picked_chars(
    body: Seq<char>,
    queries: Seq<Seq<char>>,
    query: Seq<char>,
    s: Seq<ScoredPassage>,
)
    ensures
        0 <= picked_from(body, queries, query, s).chars <= 4000,
    decreases s.len(),
{
    if s.len() > 0 {
        lemma_picked_chars(body, queries, query, s.drop_last());
    }
}

/// A page is judged by its best passage. It is turned down without passages; where that passage
/// is below 28 or holds too few of the query's terms, which are two of four or more and
/// otherwise one; and where the title has no term in common with the text, unless the passage
/// reaches 55. Otherwise its excerpt is made of its passages for the same query.
pub proof fn law_pages_are_judged_by_their_best_passage(
    body: Seq<char>,
    title: Seq<char>,
    queries: Seq<Seq<char>>,
    scored: Seq<ScoredPassage>,
)
    ensures
        ({
            let a = assessed(body, title, queries, scored);
            let ranked = ordered(scored, score_order());
            let best = ranked[0];
            let query = queries[best.query as int];
            let weak = score_rank(best.score) < score_rank(0x403c_0000_0000_0000) || best.matched
                == 0 || (best.matched == 1 && tokens(query).len() >= 4);
            let unsure = score_rank(best.score) < score_rank(0x404b_8000_0000_0000)
                && tokens(title).len() > 0 && (forall|i: int, j: int|
                0 <= i < tokens(title).len() && 0 <= j < tokens(body).len() ==> #[trigger] tokens(
                    title,
                )[i] != #[trigger] tokens(body)[j]);
            &&& scored.len() == 0 ==> a.reason == Some("no_relevant_passage"@) && !a.accepted
                && a.relevance_score == 0 && a.matched_query.len() == 0
            &&& scored.len() > 0 ==> a.relevance_score == best.shown && a.matched_query == query
            &&& scored.len() > 0 && weak ==> a.reason == Some("low_content_relevance"@)
            &&& scored.len() > 0 && !weak && unsure ==> a.reason == Some(
                "title_content_mismatch"@,
            )
            &&& scored.len() > 0 && !weak && !unsure ==> a.reason is None && a.excerpt
                == excerpt_of(body, queries, query, ranked) && a.verification_quote == quote_of(
                a.excerpt,
            )
            &&& a.reason is Some ==> !a.accepted && a.excerpt.len() == 0
                && a.verification_quote.len() == 0
            &&& forall|i: int|
                0 <= i < scored.len() ==> score_rank((#[trigger] scored[i]).score) <= score_rank(
                    best.score,
                )
        }),
{
    reveal_strlit("");
    let ranked = ordered(scored, score_order());
    law_ordered(scored, score_order());
    assert(is_ordering(score_order()));
    assert(in_order(ranked, score_order()));
    assert forall|i: int| 0 <= i < scored.len() implies score_rank((#[trigger] scored[i]).score)
        <= score_rank(ranked[0].score) by {
        broadcast use vstd::seq_lib::group_to_multiset_ensures;

        assert(scored.contains(scored[i]));
        assert(scored.to_multiset().count(scored[i]) > 0);
        assert(ranked.to_multiset().count(scored[i]) > 0);
        assert(ranked.contains(scored[i]));
        let k = choose|k: int| 0 <= k < ranked.len() && ranked[k] == scored[i];
        if k > 0 {
            let before = score_order();
            assert(!before(ranked[k], ranked[0]));
        }
    }
    if tokens(title).len() > 0 && title_fits(title, body) {
        let i = choose|i: int|
            0 <= i < tokens(title).len() && tokens(body).contains(#[trigger] tokens(title)[i]);
        let j = choose|j: int| 0 <= j < tokens(body).len() && tokens(body)[j] == tokens(title)[i];
        assert(tokens(title)[i] == tokens(body)[j]);
    }
    if tokens(title).len() > 0 && !title_fits(title, body) {
        assert forall|i: int, j: int|
            0 <= i < tokens(title).len() && 0 <= j < tokens(body).len() implies #[trigger] tokens(
                title,
            )[i] != #[trigger] tokens(body)[j] by {
            assert(!tokens(body).contains(tokens(title)[i]));
        }
    }
}

} // verus!
