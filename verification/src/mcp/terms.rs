//! The words of a text, and how much two texts have in common.
use vstd::prelude::*;

use crate::text::{
    byte_len, char_is_alphanumeric, chars_of, ends_with, has_at, is_alphanumeric, is_one_of, just,
    law_texts_are_split_at_separators, lemma_utf8_len_bound, lemma_utf8_len_concat, list_has,
    lowered, pieces, slice_text, split_char, texts, to_lowercase, utf8_len,
};

verus! {

// ---------------------------------------------------------------------------
// Models
// ---------------------------------------------------------------------------
/// Whatever is neither a letter nor a number separates words.
pub open spec fn word_sep() -> spec_fn(char) -> bool {
    |c: char| !char_is_alphanumeric(c)
}

/// Words that say nothing about a subject.
pub open spec fn stopwords() -> Seq<Seq<char>> {
    seq![
        "about"@, "after"@, "also"@, "and"@, "are"@, "been"@, "before"@, "best"@, "but"@,
        "can"@, "does"@, "for"@, "from"@, "have"@, "how"@, "into"@, "its"@, "more"@, "most"@,
        "official"@, "primary"@, "source"@, "sources"@, "than"@, "that"@, "the"@, "their"@,
        "this"@, "using"@, "what"@, "when"@, "where"@, "which"@, "with"@,
    ]
}

/// A word without its plural ending.
pub open spec fn stemmed(t: Seq<char>) -> Seq<char> {
    if utf8_len(t) > 5 && has_at(t, "ies"@, t.len() - 3) {
        t.take(t.len() - 3).push('y')
    } else if utf8_len(t) > 4 && has_at(t, "s"@, t.len() - 1) && !has_at(t, "ss"@, t.len() - 2) {
        t.take(t.len() - 1)
    } else {
        t
    }
}

/// The token of a word in lowercase, where it has one.
pub open spec fn token_of(lower: Seq<char>) -> Option<Seq<char>> {
    if lower.len() < 2 || stopwords().contains(lower) {
        None
    } else {
        Some(stemmed(lower))
    }
}

/// The tokens of some words, in order.
pub open spec fn tokens_of(words: Seq<Seq<char>>) -> Seq<Seq<char>>
    decreases words.len(),
{
    if words.len() == 0 {
        Seq::empty()
    } else {
        match token_of(lowered(words.last())) {
            Some(t) => tokens_of(words.drop_last()).push(t),
            None => tokens_of(words.drop_last()),
        }
    }
}

/// The tokens of a text, in order.
pub open spec fn tokens(s: Seq<char>) -> Seq<Seq<char>> {
    tokens_of(pieces(s, word_sep()))
}

/// The different tokens of a text.
pub open spec fn term_set(s: Seq<char>) -> Set<Seq<char>> {
    tokens(s).to_set()
}

/// How many terms two texts share.
pub open spec fn overlap(a: Set<Seq<char>>, b: Set<Seq<char>>) -> nat {
    a.intersect(b).len()
}

/// Two titles are alike where four fifths of the shorter one stand in the other.
pub open spec fn titles_alike(a: Set<Seq<char>>, b: Set<Seq<char>>) -> bool {
    let smaller = if a.len() <= b.len() {
        a.len()
    } else {
        b.len()
    };
    smaller > 0 && 5 * overlap(a, b) >= 4 * smaller
}

/// Labels of a domain that name no brand.
pub open spec fn generic_labels() -> Seq<Seq<char>> {
    seq![
        "blog"@, "co"@, "com"@, "docs"@, "edu"@, "info"@, "io"@, "net"@, "org"@, "research"@,
        "www"@,
    ]
}

/// Two domains share a label that names a brand.
pub open spec fn share_brand(a: Seq<char>, b: Seq<char>) -> bool {
    exists|label: Seq<char>| #[trigger]
        pieces(a, just('.')).contains(label) && pieces(b, just('.')).contains(label)
            && !generic_labels().contains(label)
}

/// Words that point at academic sources.
pub open spec fn academic_words() -> Seq<Seq<char>> {
    seq![
        "academic"@, "arxiv"@, "citation"@, "doi"@, "journal"@, "paper"@, "research"@, "study"@,
        "systematic"@,
    ]
}

/// Words that point at technical sources.
pub open spec fn technical_words() -> Seq<Seq<char>> {
    seq![
        "api"@, "code"@, "crate"@, "developer"@, "documentation"@, "github"@, "protocol"@, "rust"@,
        "sdk"@, "software"@, "specification"@,
    ]
}

/// One of some words is among the tokens.
pub open spec fn mentions(tokens: Seq<Seq<char>>, words: Seq<Seq<char>>) -> bool {
    exists|i: int| 0 <= i < words.len() && tokens.contains(#[trigger] words[i])
}

/// The search categories for a query with some tokens.
pub open spec fn categories_of(tokens: Seq<Seq<char>>) -> Seq<char> {
    if mentions(tokens, academic_words()) {
        if mentions(tokens, technical_words()) {
            "general,science,it"@
        } else {
            "general,science"@
        }
    } else if mentions(tokens, technical_words()) {
        "general,it"@
    } else {
        "general"@
    }
}

/// The views of a list of words.
pub open spec fn word_views(v: Seq<&'static str>) -> Seq<Seq<char>> {
    v.map_values(|s: &'static str| s@)
}

// ---------------------------------------------------------------------------
// Tokens
// ---------------------------------------------------------------------------
/// Whether a word is in a list.
fn is_word_of(t: &str, words: &Vec<&'static str>) -> (res: bool)
    ensures
        res == word_views(words@).contains(t@),
{
    let res = is_one_of(t, words);
    proof {
        if res {
            let i = choose|i: int| 0 <= i < words@.len() && words@[i]@ == t@;
            assert(word_views(words@)[i] == t@);
        } else if word_views(words@).contains(t@) {
            let i = choose|i: int| 0 <= i < words@.len() && word_views(words@)[i] == t@;
            assert(words@[i]@ == t@);
        }
    }
    res
}

/// Whether a word says nothing about a subject.
pub fn is_stopword(token: &str) -> (res: bool)
    ensures
        res == stopwords().contains(token@),
{
    let words: Vec<&'static str> = vec![
        "about", "after", "also", "and", "are", "been", "before", "best", "but", "can", "does",
        "for", "from", "have", "how", "into", "its", "more", "most", "official", "primary",
        "source", "sources", "than", "that", "the", "their", "this", "using", "what", "when",
        "where", "which", "with",
    ];
    assert(word_views(words@) =~= stopwords());
    is_word_of(token, &words)
}

/// A word without its plural ending.
pub fn stem(token: String) -> (res: String)
    ensures
        res@ == stemmed(token@),
{
    let v = chars_of(&token);
    proof {
        reveal_strlit("ies");
        reveal_strlit("s");
        reveal_strlit("ss");
    }
    if byte_len(&token) > 5 && ends_with(&token, "ies") {
        let mut out = slice_text(&v, 0, v.len() - 3);
        out.push('y');
        assert(out@ =~= token@.take(token@.len() - 3).push('y'));
        out
    } else if byte_len(&token) > 4 && ends_with(&token, "s") && !ends_with(&token, "ss") {
        let out = slice_text(&v, 0, v.len() - 1);
        assert(out@ =~= token@.take(token@.len() - 1));
        out
    } else {
        token
    }
}

/// The token of a word in lowercase, where it has one.
pub fn token_from(lower: String) -> (res: Option<String>)
    ensures
        match res {
            Some(t) => token_of(lower@) == Some(t@),
            None => token_of(lower@) is None,
        },
{
    let v = chars_of(&lower);
    if v.len() < 2 || is_stopword(&lower) {
        None
    } else {
        Some(stem(lower))
    }
}

/// The pieces of a text between the characters that are neither letters nor numbers.
fn split_words(s: &str) -> (res: Vec<String>)
    ensures
        texts(res@) == pieces(s@, word_sep()),
{
    let v = chars_of(s);
    let mut out: Vec<String> = Vec::new();
    let mut piece = String::new();
    let mut i: usize = 0;
    assert(texts(out@).push(piece@) =~= pieces(v@.take(0), word_sep()));
    while i < v.len()
        invariant
            v@ == s@,
            i <= v@.len(),
            texts(out@).push(piece@) == pieces(v@.take(i as int), word_sep()),
        decreases v@.len() - i,
    {
        proof {
            assert(v@.take(i + 1).drop_last() =~= v@.take(i as int));
            assert(v@.take(i + 1).last() == v@[i as int]);
            assert(texts(out@).push(piece@).drop_last() =~= texts(out@));
        }
        if is_alphanumeric(v[i]) {
            piece.push(v[i]);
        } else {
            let ghost before = out@;
            let ghost last = piece;
            out.push(piece);
            piece = String::new();
            assert(texts(out@) =~= texts(before).push(last@));
        }
        i = i + 1;
    }
    assert(v@.take(v@.len() as int) =~= v@);
    let ghost before = out@;
    let ghost last = piece;
    out.push(piece);
    assert(texts(out@) =~= texts(before).push(last@));
    out
}

/// The tokens of a text, in order.
pub fn tokenize(value: &str) -> (res: Vec<String>)
    ensures
        texts(res@) == tokens(value@),
{
    let words = split_words(value);
    let mut out: Vec<String> = Vec::new();
    let mut i: usize = 0;
    assert(texts(out@) =~= tokens_of(texts(words@).take(0)));
    while i < words.len()
        invariant
            i <= words@.len(),
            texts(words@) == pieces(value@, word_sep()),
            texts(out@) == tokens_of(texts(words@).take(i as int)),
        decreases words@.len() - i,
    {
        let ghost before = out@;
        proof {
            assert(texts(words@).take(i + 1).drop_last() =~= texts(words@).take(i as int));
            assert(texts(words@).take(i + 1).last() == words@[i as int]@);
        }
        if let Some(token) = token_from(to_lowercase(&words[i])) {
            out.push(token);
            assert(texts(out@) =~= texts(before).push(token@));
        }
        i = i + 1;
    }
    assert(texts(words@).take(words@.len() as int) =~= texts(words@));
    out
}

/// The different strings of a list, in order of first occurrence.
fn distinct(list: Vec<String>) -> (res: Vec<String>)
    ensures
        texts(res@).no_duplicates(),
        texts(res@).to_set() == texts(list@).to_set(),
{
    let mut out: Vec<String> = Vec::new();
    let mut i: usize = 0;
    assert(texts(out@).to_set() =~= texts(list@).take(0).to_set());
    while i < list.len()
        invariant
            i <= list@.len(),
            texts(out@).no_duplicates(),
            texts(out@).to_set() == texts(list@).take(i as int).to_set(),
        decreases list@.len() - i,
    {
        let ghost before = texts(out@);
        let ghost all = texts(list@);
        proof {
            assert(all.take(i + 1) =~= all.take(i as int).push(all[i as int]));
            all.take(i as int).lemma_push_to_set_commute(all[i as int]);
            before.lemma_push_to_set_commute(all[i as int]);
        }
        if !list_has(&out, &list[i]) {
            let ghost was = out@;
            out.push(list[i].clone());
            assert(texts(out@) =~= texts(was).push(all[i as int]));
        } else {
            assert(before.to_set().contains(all[i as int]));
            assert(before.to_set().insert(all[i as int]) =~= before.to_set());
        }
        i = i + 1;
    }
    assert(texts(list@).take(list@.len() as int) =~= texts(list@));
    out
}

/// The different tokens of a text.
pub fn terms(value: &str) -> (res: Vec<String>)
    ensures
        texts(res@).no_duplicates(),
        texts(res@).to_set() == term_set(value@),
{
    distinct(tokenize(value))
}

// ---------------------------------------------------------------------------
// What texts have in common
// ---------------------------------------------------------------------------
/// How many strings of a list without duplicates stand in another list.
fn count_shared(list: &Vec<String>, other: &Vec<String>) -> (res: usize)
    requires
        texts(list@).no_duplicates(),
    ensures
        res == overlap(texts(list@).to_set(), texts(other@).to_set()),
{
    let ghost all = texts(list@);
    let ghost set = texts(other@).to_set();
    let mut count: usize = 0;
    let mut i: usize = 0;
    proof {
        assert(all.take(0).to_set().intersect(set) =~= Set::empty());
    }
    while i < list.len()
        invariant
            all == texts(list@),
            set == texts(other@).to_set(),
            all.no_duplicates(),
            i <= list@.len(),
            count <= i,
            count == all.take(i as int).to_set().intersect(set).len(),
        decreases list@.len() - i,
    {
        let ghost done = all.take(i as int);
        proof {
            assert(all.take(i + 1) =~= done.push(all[i as int]));
            done.lemma_push_to_set_commute(all[i as int]);
            assert(!done.contains(all[i as int]));
            assert(!done.to_set().contains(all[i as int]));
            vstd::seq_lib::seq_to_set_is_finite(done);
        }
        if list_has(other, &list[i]) {
            count = count + 1;
            assert(done.to_set().insert(all[i as int]).intersect(set) =~= done.to_set().intersect(
                set,
            ).insert(all[i as int]));
        } else {
            assert(done.to_set().insert(all[i as int]).intersect(set) =~= done.to_set().intersect(
                set,
            ));
        }
        i = i + 1;
    }
    assert(all.take(all.len() as int) =~= all);
    count
}

/// How well the preview of a hit covers a query: how many terms the query has, and how many
/// of them stand in the title, in the snippet, in the URL and in any of the three.
pub struct PreviewCounts {
    pub terms: usize,
    pub title: usize,
    pub snippet: usize,
    pub url: usize,
    pub matched: usize,
}

/// The counts of a preview.
pub open spec fn preview_counts_of(
    query: Seq<char>,
    title: Seq<char>,
    snippet: Seq<char>,
    url: Seq<char>,
    c: PreviewCounts,
) -> bool {
    let q = term_set(query);
    &&& c.terms == q.len()
    &&& c.title == overlap(q, term_set(title))
    &&& c.snippet == overlap(q, term_set(snippet))
    &&& c.url == overlap(q, term_set(url))
    &&& c.matched == overlap(q, term_set(title).union(term_set(snippet)).union(term_set(url)))
}

fn extended(list: Vec<String>, more: &Vec<String>) -> (res: Vec<String>)
    ensures
        texts(res@).to_set() == texts(list@).to_set().union(texts(more@).to_set()),
{
    let mut out = list;
    let ghost start = texts(list@);
    let mut i: usize = 0;
    assert(texts(out@) =~= start + texts(more@).take(0));
    while i < more.len()
        invariant
            i <= more@.len(),
            texts(out@) == start + texts(more@).take(i as int),
        decreases more@.len() - i,
    {
        let ghost was = out@;
        out.push(more[i].clone());
        proof {
            assert(texts(out@) =~= texts(was).push(more@[i as int]@));
            assert(texts(more@).take(i + 1) =~= texts(more@).take(i as int).push(more@[i as int]@));
        }
        i = i + 1;
    }
    proof {
        let all = texts(more@);
        assert(all.take(all.len() as int) =~= all);
        assert(texts(out@) == start + all);
        assert forall|t: Seq<char>| (start + all).to_set().contains(t) <==> start.to_set().union(
            all.to_set(),
        ).contains(t) by {
            if start.contains(t) {
                let k = choose|k: int| 0 <= k < start.len() && start[k] == t;
                assert((start + all)[k] == t);
            }
            if all.contains(t) {
                let k = choose|k: int| 0 <= k < all.len() && all[k] == t;
                assert((start + all)[start.len() + k] == t);
            }
        }
        assert((start + all).to_set() =~= start.to_set().union(all.to_set()));
    }
    out
}

/// Counts how well a preview covers a query.
pub fn preview_relevance(query: &str, title: &str, snippet: &str, url: &str) -> (res: PreviewCounts)
    ensures
        preview_counts_of(query@, title@, snippet@, url@, res),
{
    let wanted = terms(query);
    let in_title = terms(title);
    let in_snippet = terms(snippet);
    let in_url = terms(url);
    let title_count = count_shared(&wanted, &in_title);
    let snippet_count = count_shared(&wanted, &in_snippet);
    let url_count = count_shared(&wanted, &in_url);
    let all = extended(extended(in_title, &in_snippet), &in_url);
    let matched = count_shared(&wanted, &all);
    proof {
        texts(wanted@).unique_seq_to_set();
    }
    PreviewCounts {
        terms: wanted.len(),
        title: title_count,
        snippet: snippet_count,
        url: url_count,
        matched,
    }
}

/// How well a text covers a query: how many terms the query has and how many of them stand in
/// the text, how many tokens the text has and how many of those are terms of the query.
pub struct TextCounts {
    pub terms: usize,
    pub matched: usize,
    pub tokens: usize,
    pub dense: usize,
}

/// The counts of a text.
pub open spec fn text_counts_of(query: Seq<char>, text: Seq<char>, c: TextCounts) -> bool {
    let q = term_set(query);
    &&& c.terms == q.len()
    &&& c.matched == overlap(q, term_set(text))
    &&& c.tokens == tokens(text).len()
    &&& c.dense == tokens(text).filter(|t: Seq<char>| q.contains(t)).len()
}

/// Counts how well a text covers a query.
pub fn text_relevance(query: &str, text: &str) -> (res: TextCounts)
    ensures
        text_counts_of(query@, text@, res),
{
    let wanted = terms(query);
    let found = tokenize(text);
    let matched = count_shared(&wanted, &found);
    let ghost all = texts(found@);
    let ghost q = term_set(query@);
    let ghost in_query = |t: Seq<char>| q.contains(t);
    let mut dense: usize = 0;
    let mut i: usize = 0;
    proof {
        texts(wanted@).unique_seq_to_set();
        reveal(Seq::filter);
        assert(all.take(0).filter(in_query) =~= Seq::empty());
    }
    while i < found.len()
        invariant
            i <= found@.len(),
            all == texts(found@),
            texts(wanted@).to_set() == q,
            in_query == (|t: Seq<char>| q.contains(t)),
            dense <= i,
            dense == all.take(i as int).filter(in_query).len(),
        decreases found@.len() - i,
    {
        proof {
            reveal(Seq::filter);
            assert(all.take(i + 1).drop_last() =~= all.take(i as int));
            assert(all.take(i + 1).last() == all[i as int]);
        }
        if list_has(&wanted, &found[i]) {
            assert(q.contains(all[i as int]));
            dense = dense + 1;
        }
        i = i + 1;
    }
    assert(all.take(all.len() as int) =~= all);
    TextCounts { terms: wanted.len(), matched, tokens: found.len(), dense }
}

proof fn lemma_pieces_of_separators(s: Seq<char>)
    requires
        forall|i: int| 0 <= i < s.len() ==> !char_is_alphanumeric(#[trigger] s[i]),
    ensures
        forall|k: int|
            0 <= k < pieces(s, word_sep()).len() ==> (#[trigger] pieces(s, word_sep())[k]).len()
                == 0,
    decreases s.len(),
{
    if s.len() > 0 {
        assert forall|i: int| 0 <= i < s.drop_last().len() implies !char_is_alphanumeric(
            #[trigger] s.drop_last()[i],
        ) by {
            assert(s.drop_last()[i] == s[i]);
        }
        lemma_pieces_of_separators(s.drop_last());
        assert(!char_is_alphanumeric(s[s.len() - 1]));
        assert(word_sep()(s.last()));
        assert(pieces(s, word_sep()) == pieces(s.drop_last(), word_sep()).push(Seq::empty()));
    }
}

proof fn lemma_no_tokens(words: Seq<Seq<char>>)
    requires
        forall|k: int| 0 <= k < words.len() ==> (#[trigger] words[k]).len() == 0,
    ensures
        tokens_of(words).len() == 0,
    decreases words.len(),
{
    if words.len() > 0 {
        assert(words[words.len() - 1].len() == 0);
        assert(lowered(words.last()).len() == 0);
        lemma_no_tokens(words.drop_last());
    }
}

/// A text that holds a term of another holds a letter or a number.
pub proof fn lemma_overlap_needs_a_letter(query: Seq<char>, text: Seq<char>)
    requires
        overlap(term_set(query), term_set(text)) > 0,
    ensures
        exists|i: int| 0 <= i < text.len() && char_is_alphanumeric(#[trigger] text[i]),
{
    if forall|i: int| 0 <= i < text.len() ==> !char_is_alphanumeric(#[trigger] text[i]) {
        lemma_pieces_of_separators(text);
        lemma_no_tokens(pieces(text, word_sep()));
        assert(term_set(query).intersect(term_set(text)) =~= Set::empty());
    }
}

/// Whether two titles, given by their different terms, are alike.
pub fn title_similarity(left: &Vec<String>, right: &Vec<String>) -> (res: bool)
    requires
        texts(left@).no_duplicates(),
        texts(right@).no_duplicates(),
    ensures
        res == titles_alike(texts(left@).to_set(), texts(right@).to_set()),
{
    let smaller: u128 = if left.len() <= right.len() {
        left.len() as u128
    } else {
        right.len() as u128
    };
    let shared: u128 = count_shared(left, right) as u128;
    proof {
        texts(left@).unique_seq_to_set();
        texts(right@).unique_seq_to_set();
    }
    smaller > 0 && 5 * shared >= 4 * smaller
}

/// Whether two domains share a label that names a brand.
pub fn domains_share_brand(left: &str, right: &str) -> (res: bool)
    ensures
        res == share_brand(left@, right@),
{
    let ours = split_char(left, '.');
    let theirs = split_char(right, '.');
    let generic: Vec<&'static str> = vec![
        "blog", "co", "com", "docs", "edu", "info", "io", "net", "org", "research", "www",
    ];
    assert(word_views(generic@) =~= generic_labels());
    let mut i: usize = 0;
    while i < ours.len()
        invariant
            i <= ours@.len(),
            word_views(generic@) == generic_labels(),
            texts(ours@) == pieces(left@, just('.')),
            texts(theirs@) == pieces(right@, just('.')),
            forall|k: int|
                0 <= k < i ==> !(texts(theirs@).contains(#[trigger] texts(ours@)[k])
                    && !generic_labels().contains(texts(ours@)[k])),
        decreases ours@.len() - i,
    {
        if list_has(&theirs, &ours[i]) && !is_word_of(&ours[i], &generic) {
            assert(texts(ours@)[i as int] == ours@[i as int]@);
            assert(texts(ours@).contains(ours@[i as int]@));
            return true;
        }
        i = i + 1;
    }
    proof {
        if share_brand(left@, right@) {
            let label = choose|label: Seq<char>| #[trigger]
                pieces(left@, just('.')).contains(label) && pieces(right@, just('.')).contains(label)
                    && !generic_labels().contains(label);
            let k = choose|k: int| 0 <= k < texts(ours@).len() && texts(ours@)[k] == label;
            assert(texts(theirs@).contains(texts(ours@)[k]));
        }
    }
    false
}

fn any_mentioned(found: &Vec<String>, words: &Vec<&'static str>) -> (res: bool)
    ensures
        res == mentions(texts(found@), word_views(words@)),
{
    let mut i: usize = 0;
    while i < words.len()
        invariant
            i <= words@.len(),
            forall|k: int| 0 <= k < i ==> !texts(found@).contains(#[trigger] word_views(words@)[k]),
        decreases words@.len() - i,
    {
        if list_has(found, words[i]) {
            assert(word_views(words@)[i as int] == words@[i as int]@);
            return true;
        }
        i = i + 1;
    }
    false
}

/// The search categories for a query, by the words it holds.
pub fn categories_for_query(query: &str) -> (res: Option<&'static str>)
    ensures
        res is Some,
        res->0@ == categories_of(tokens(query@)),
{
    let found = tokenize(query);
    Some(categories_for_tokens(&found))
}

/// The search categories for a query with some tokens.
pub fn categories_for_tokens(found: &Vec<String>) -> (res: &'static str)
    ensures
        res@ == categories_of(texts(found@)),
{
    let academic: Vec<&'static str> = vec![
        "academic", "arxiv", "citation", "doi", "journal", "paper", "research", "study",
        "systematic",
    ];
    let technical: Vec<&'static str> = vec![
        "api", "code", "crate", "developer", "documentation", "github", "protocol", "rust", "sdk",
        "software", "specification",
    ];
    assert(word_views(academic@) =~= academic_words());
    assert(word_views(technical@) =~= technical_words());
    let is_academic = any_mentioned(found, &academic);
    let is_technical = any_mentioned(found, &technical);
    if is_academic && is_technical {
        "general,science,it"
    } else if is_academic {
        "general,science"
    } else if is_technical {
        "general,it"
    } else {
        "general"
    }
}

// ---------------------------------------------------------------------------
// Laws
// ---------------------------------------------------------------------------
/// Likeness of titles does not depend on which comes first.
pub proof fn law_title_likeness_is_symmetric(a: Set<Seq<char>>, b: Set<Seq<char>>)
    ensures
        titles_alike(a, b) == titles_alike(b, a),
{
    assert(a.intersect(b) =~= b.intersect(a));
}

/// A title is like itself, unless it has no terms.
pub proof fn law_a_title_is_like_itself(a: Set<Seq<char>>)
    ensures
        titles_alike(a, a) == (a.len() > 0),
{
    assert(a.intersect(a) =~= a);
}

/// Sharing a brand does not depend on which domain comes first.
pub proof fn law_brand_sharing_is_symmetric(a: Seq<char>, b: Seq<char>)
    ensures
        share_brand(a, b) == share_brand(b, a),
{
    if share_brand(a, b) {
        let label = choose|label: Seq<char>| #[trigger]
            pieces(a, just('.')).contains(label) && pieces(b, just('.')).contains(label)
                && !generic_labels().contains(label);
        assert(pieces(b, just('.')).contains(label));
    }
    if share_brand(b, a) {
        let label = choose|label: Seq<char>| #[trigger]
            pieces(b, just('.')).contains(label) && pieces(a, just('.')).contains(label)
                && !generic_labels().contains(label);
        assert(pieces(a, just('.')).contains(label));
    }
}

/// Stemming takes at most two characters away, and adds none.
pub proof fn law_stemming_shortens_by_at_most_two(t: Seq<char>)
    ensures
        t.len() - 2 <= stemmed(t).len() <= t.len(),
{
    reveal_strlit("ies");
    reveal_strlit("s");
    reveal_strlit("ss");
}

/// The words that say nothing about a subject, and the labels that name no brand.
pub proof fn law_words_without_a_subject(w: Seq<char>)
    ensures
        stopwords().contains(w) <==> (w == "about"@ || w == "after"@ || w == "also"@
            || w == "and"@ || w == "are"@ || w == "been"@ || w == "before"@ || w == "best"@
            || w == "but"@ || w == "can"@ || w == "does"@ || w == "for"@ || w == "from"@
            || w == "have"@ || w == "how"@ || w == "into"@ || w == "its"@ || w == "more"@
            || w == "most"@ || w == "official"@ || w == "primary"@ || w == "source"@
            || w == "sources"@ || w == "than"@ || w == "that"@ || w == "the"@
            || w == "their"@ || w == "this"@ || w == "using"@ || w == "what"@
            || w == "when"@ || w == "where"@ || w == "which"@ || w == "with"@),
        generic_labels().contains(w) <==> (w == "blog"@ || w == "co"@ || w == "com"@
            || w == "docs"@ || w == "edu"@ || w == "info"@ || w == "io"@ || w == "net"@
            || w == "org"@ || w == "research"@ || w == "www"@),
{
    assert(stopwords()[0] == "about"@);
    assert(stopwords()[1] == "after"@);
    assert(stopwords()[2] == "also"@);
    assert(stopwords()[3] == "and"@);
    assert(stopwords()[4] == "are"@);
    assert(stopwords()[5] == "been"@);
    assert(stopwords()[6] == "before"@);
    assert(stopwords()[7] == "best"@);
    assert(stopwords()[8] == "but"@);
    assert(stopwords()[9] == "can"@);
    assert(stopwords()[10] == "does"@);
    assert(stopwords()[11] == "for"@);
    assert(stopwords()[12] == "from"@);
    assert(stopwords()[13] == "have"@);
    assert(stopwords()[14] == "how"@);
    assert(stopwords()[15] == "into"@);
    assert(stopwords()[16] == "its"@);
    assert(stopwords()[17] == "more"@);
    assert(stopwords()[18] == "most"@);
    assert(stopwords()[19] == "official"@);
    assert(stopwords()[20] == "primary"@);
    assert(stopwords()[21] == "source"@);
    assert(stopwords()[22] == "sources"@);
    assert(stopwords()[23] == "than"@);
    assert(stopwords()[24] == "that"@);
    assert(stopwords()[25] == "the"@);
    assert(stopwords()[26] == "their"@);
    assert(stopwords()[27] == "this"@);
    assert(stopwords()[28] == "using"@);
    assert(stopwords()[29] == "what"@);
    assert(stopwords()[30] == "when"@);
    assert(stopwords()[31] == "where"@);
    assert(stopwords()[32] == "which"@);
    assert(stopwords()[33] == "with"@);
    assert(generic_labels()[0] == "blog"@);
    assert(generic_labels()[1] == "co"@);
    assert(generic_labels()[2] == "com"@);
    assert(generic_labels()[3] == "docs"@);
    assert(generic_labels()[4] == "edu"@);
    assert(generic_labels()[5] == "info"@);
    assert(generic_labels()[6] == "io"@);
    assert(generic_labels()[7] == "net"@);
    assert(generic_labels()[8] == "org"@);
    assert(generic_labels()[9] == "research"@);
    assert(generic_labels()[10] == "www"@);
}

proof fn lemma_tokens_of(a: Seq<Seq<char>>, b: Seq<Seq<char>>)
    ensures
        tokens_of(a + b) == tokens_of(a) + tokens_of(b),
    decreases b.len(),
{
    if b.len() == 0 {
        assert(a + b =~= a);
        assert(tokens_of(a) + tokens_of(b) =~= tokens_of(a));
    } else {
        lemma_tokens_of(a, b.drop_last());
        assert((a + b).drop_last() =~= a + b.drop_last());
        assert((a + b).last() == b.last());
        let x = tokens_of(a);
        let y = tokens_of(b.drop_last());
        match token_of(lowered(b.last())) {
            Some(t) => {
                assert((x + y).push(t) =~= x + y.push(t));
            },
            None => {},
        }
    }
}

/// The tokens of a text are those of its words, in order: a character that is neither a letter
/// nor a number parts the words before it from those behind it. A word has a token unless it is
/// a single character or says nothing about a subject.
pub proof fn law_tokens_are_those_of_the_words(a: Seq<char>, c: char, b: Seq<char>)
    requires
        !char_is_alphanumeric(c),
    ensures
        tokens(a + seq![c] + b) == tokens(a) + tokens(b),
        (forall|i: int| 0 <= i < a.len() ==> char_is_alphanumeric(#[trigger] a[i])) ==> tokens(a)
            == if lowered(a).len() >= 2 && !stopwords().contains(lowered(a)) {
            seq![stemmed(lowered(a))]
        } else {
            Seq::<Seq<char>>::empty()
        },
{
    law_texts_are_split_at_separators(a, c, b, word_sep());
    lemma_tokens_of(pieces(a, word_sep()), pieces(b, word_sep()));
    if forall|i: int| 0 <= i < a.len() ==> char_is_alphanumeric(#[trigger] a[i]) {
        assert forall|i: int| 0 <= i < a.len() implies !word_sep()(#[trigger] a[i]) by {}
        assert(pieces(a, word_sep()) == seq![a]);
        let one = seq![a];
        assert(one.drop_last() =~= Seq::<Seq<char>>::empty());
        assert(tokens_of(one.drop_last()) =~= Seq::<Seq<char>>::empty());
        assert(one.last() == a);
        assert(Seq::<Seq<char>>::empty().push(stemmed(lowered(a))) =~= seq![stemmed(lowered(a))]);
    }
}

/// A word in -ies that is long enough ends in -y, another that ends in a single s loses it, and
/// every other word stays.
pub proof fn law_plurals_lose_their_ending(w: Seq<char>)
    ensures
        utf8_len(w) > 2 ==> stemmed(w + "ies"@) == w + "y"@,
        utf8_len(w) > 3 && w.len() >= 2 && w.last() != 's' && !(w[w.len() - 2] == 'i' && w.last()
            == 'e') ==> stemmed(w + "s"@) == w,
        w.len() == 0 || w.last() != 's' ==> stemmed(w) == w,
        w.len() >= 2 && w.last() == 's' && w[w.len() - 2] == 's' ==> stemmed(w) == w,
        utf8_len(w) <= 4 ==> stemmed(w) == w,
{
    reveal_strlit("ies");
    reveal_strlit("s");
    reveal_strlit("ss");
    reveal_strlit("y");
    lemma_utf8_len_concat(w, "ies"@);
    lemma_utf8_len_concat(w, "s"@);
    lemma_utf8_len_bound("s"@);
    lemma_utf8_len_bound("ies"@);
    let p = w + "ies"@;
    let n = w.len() as int;
    assert(p.subrange(n, n + 3) =~= "ies"@);
    assert(p.take(n).push('y') =~= w + "y"@);
    let q = w + "s"@;
    assert(q.subrange(n, n + 1) =~= "s"@);
    assert(q.take(n) =~= w);
    if n >= 2 {
        assert(q.subrange(n - 2, n + 1)[0] == w[n - 2]);
        assert(q.subrange(n - 2, n + 1)[1] == w[n - 1]);
        assert(q.subrange(n - 1, n + 1)[0] == w[n - 1]);
        assert(w.subrange(n - 2, n)[0] == w[n - 2]);
        assert(w.subrange(n - 2, n)[1] == w[n - 1]);
        if w[n - 1] == 's' && w[n - 2] == 's' {
            assert(w.subrange(n - 2, n) =~= "ss"@);
        }
    }
    if n >= 1 {
        assert(w.subrange(n - 1, n)[0] == w[n - 1]);
    }
    if n >= 3 {
        assert(w.subrange(n - 3, n)[2] == w[n - 1]);
        assert(w.subrange(n - 3, n)[1] == w[n - 2]);
    }
}

/// Two titles are alike where each has terms and the terms they share are four fifths of those
/// of either title at least.
pub proof fn law_alike_titles_share_four_fifths(a: Set<Seq<char>>, b: Set<Seq<char>>)
    ensures
        titles_alike(a, b) <==> a.len() > 0 && b.len() > 0 && (a.intersect(b).len() * 5 >= a.len()
            * 4 || a.intersect(b).len() * 5 >= b.len() * 4),
{
}

/// Two domains with a label in common share a brand, unless the label names none.
pub proof fn law_common_labels_are_brands(a: Seq<char>, b: Seq<char>, i: int, j: int)
    requires
        0 <= i < pieces(a, just('.')).len(),
        0 <= j < pieces(b, just('.')).len(),
        pieces(a, just('.'))[i] == pieces(b, just('.'))[j],
        !generic_labels().contains(pieces(a, just('.'))[i]),
    ensures
        share_brand(a, b),
{
    assert(pieces(a, just('.')).contains(pieces(a, just('.'))[i]));
    assert(pieces(b, just('.')).contains(pieces(b, just('.'))[j]));
}

/// Two domains share a brand only where they have a label in common that names one.
pub proof fn law_brands_are_common_labels(a: Seq<char>, b: Seq<char>)
    requires
        forall|i: int, j: int|
            0 <= i < pieces(a, just('.')).len() && 0 <= j < pieces(b, just('.')).len()
                && #[trigger] pieces(a, just('.'))[i] == #[trigger] pieces(b, just('.'))[j]
                ==> generic_labels().contains(pieces(a, just('.'))[i]),
    ensures
        !share_brand(a, b),
{
    if share_brand(a, b) {
        let label = choose|label: Seq<char>| #[trigger]
            pieces(a, just('.')).contains(label) && pieces(b, just('.')).contains(label)
                && !generic_labels().contains(label);
        let i = choose|i: int| 0 <= i < pieces(a, just('.')).len() && pieces(a, just('.'))[i] == label;
        let j = choose|j: int| 0 <= j < pieces(b, just('.')).len() && pieces(b, just('.'))[j] == label;
        assert(pieces(a, just('.'))[i] == pieces(b, just('.'))[j]);
    }
}

/// A query is always searched for in general; also in science where it names something academic,
/// and also in computing where it names something technical.
pub proof fn law_categories_follow_the_words(found: Seq<Seq<char>>)
    ensures
        ({
            let academic = exists|i: int|
                0 <= i < found.len() && (#[trigger] found[i] == "academic"@
                    || found[i] == "arxiv"@ || found[i] == "citation"@ || found[i] == "doi"@
                    || found[i] == "journal"@ || found[i] == "paper"@
                    || found[i] == "research"@ || found[i] == "study"@
                    || found[i] == "systematic"@);
            let technical = exists|i: int|
                0 <= i < found.len() && (#[trigger] found[i] == "api"@
                    || found[i] == "code"@ || found[i] == "crate"@
                    || found[i] == "developer"@ || found[i] == "documentation"@
                    || found[i] == "github"@ || found[i] == "protocol"@
                    || found[i] == "rust"@ || found[i] == "sdk"@ || found[i] == "software"@
                    || found[i] == "specification"@);
            &&& academic && technical ==> categories_of(found) == "general,science,it"@
            &&& academic && !technical ==> categories_of(found) == "general,science"@
            &&& !academic && technical ==> categories_of(found) == "general,it"@
            &&& !academic && !technical ==> categories_of(found) == "general"@
        }),
{
    lemma_mentions(found, academic_words());
    lemma_mentions(found, technical_words());
    assert(academic_words()[0] == "academic"@);
    assert(academic_words()[1] == "arxiv"@);
    assert(academic_words()[2] == "citation"@);
    assert(academic_words()[3] == "doi"@);
    assert(academic_words()[4] == "journal"@);
    assert(academic_words()[5] == "paper"@);
    assert(academic_words()[6] == "research"@);
    assert(academic_words()[7] == "study"@);
    assert(academic_words()[8] == "systematic"@);
    assert(technical_words()[0] == "api"@);
    assert(technical_words()[1] == "code"@);
    assert(technical_words()[2] == "crate"@);
    assert(technical_words()[3] == "developer"@);
    assert(technical_words()[4] == "documentation"@);
    assert(technical_words()[5] == "github"@);
    assert(technical_words()[6] == "protocol"@);
    assert(technical_words()[7] == "rust"@);
    assert(technical_words()[8] == "sdk"@);
    assert(technical_words()[9] == "software"@);
    assert(technical_words()[10] == "specification"@);
}

proof fn lemma_mentions(found: Seq<Seq<char>>, words: Seq<Seq<char>>)
    ensures
        mentions(found, words) <==> exists|i: int, k: int|
            0 <= i < found.len() && 0 <= k < words.len() && #[trigger] found[i]
                == #[trigger] words[k],
{
    if mentions(found, words) {
        let k = choose|k: int| 0 <= k < words.len() && found.contains(#[trigger] words[k]);
        let i = choose|i: int| 0 <= i < found.len() && found[i] == words[k];
        assert(found[i] == words[k]);
    }
}

/// A text is counted by its own tokens: how many there are, how many of them are terms of the
/// query, how many different terms the query has, and how many of these the text holds.
pub proof fn law_texts_are_counted_by_their_tokens(
    query: Seq<char>,
    text: Seq<char>,
    c: TextCounts,
)
    ensures
        text_counts_of(query, text, c) <==> {
            let q = tokens(query).to_set();
            &&& c.terms == q.len()
            &&& c.tokens == tokens(text).len()
            &&& c.matched == Set::new(
                |t: Seq<char>| tokens(query).contains(t) && tokens(text).contains(t),
            ).len()
            &&& c.dense == tokens(text).filter(|t: Seq<char>| tokens(query).contains(t)).len()
        },
{
    let a = term_set(query).intersect(term_set(text));
    let b = Set::new(|t: Seq<char>| tokens(query).contains(t) && tokens(text).contains(t));
    assert(a =~= b);
    let f = |t: Seq<char>| term_set(query).contains(t);
    let g = |t: Seq<char>| tokens(query).contains(t);
    assert(f =~= g);
}

/// A preview is counted by its parts: how many terms of the query stand in the title, in the
/// snippet, in the URL and in any of the three.
pub proof fn law_previews_are_counted_by_their_parts(
    query: Seq<char>,
    title: Seq<char>,
    snippet: Seq<char>,
    url: Seq<char>,
    c: PreviewCounts,
)
    ensures
        preview_counts_of(query, title, snippet, url, c) <==> {
            &&& c.terms == tokens(query).to_set().len()
            &&& c.title == Set::new(
                |t: Seq<char>| tokens(query).contains(t) && tokens(title).contains(t),
            ).len()
            &&& c.snippet == Set::new(
                |t: Seq<char>| tokens(query).contains(t) && tokens(snippet).contains(t),
            ).len()
            &&& c.url == Set::new(
                |t: Seq<char>| tokens(query).contains(t) && tokens(url).contains(t),
            ).len()
            &&& c.matched == Set::new(
                |t: Seq<char>|
                    tokens(query).contains(t) && (tokens(title).contains(t) || tokens(
                        snippet,
                    ).contains(t) || tokens(url).contains(t)),
            ).len()
        },
{
    let q = term_set(query);
    assert(q.intersect(term_set(title)) =~= Set::new(
        |t: Seq<char>| tokens(query).contains(t) && tokens(title).contains(t),
    ));
    assert(q.intersect(term_set(snippet)) =~= Set::new(
        |t: Seq<char>| tokens(query).contains(t) && tokens(snippet).contains(t),
    ));
    assert(q.intersect(term_set(url)) =~= Set::new(
        |t: Seq<char>| tokens(query).contains(t) && tokens(url).contains(t),
    ));
    assert(q.intersect(term_set(title).union(term_set(snippet)).union(term_set(url)))
        =~= Set::new(
        |t: Seq<char>|
            tokens(query).contains(t) && (tokens(title).contains(t) || tokens(snippet).contains(t)
                || tokens(url).contains(t)),
    ));
}

} // verus!
