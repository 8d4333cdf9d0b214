//! Text as a sequence of characters.
//!
//! Every contract of this crate speaks of text as `Seq<char>`, the view of both
//! `str` and `String`. The functions here read and build text under that view.
use vstd::prelude::*;
use vstd::utf8::encode_utf8;

verus! {

// ---------------------------------------------------------------------------
// Standard library calls
// ---------------------------------------------------------------------------
/// `String::push` appends one character.
pub assume_specification[ String::push ](s: &mut String, c: char)
    ensures
        final(s)@ == old(s)@.push(c),
;

/// `String::push_str` appends a string slice.
pub assume_specification[ String::push_str ](s: &mut String, t: &str)
    ensures
        final(s)@ == old(s)@ + t@,
;

/// Whether a character is a letter or a number by its Unicode properties.
pub uninterp spec fn unicode_alphanumeric(c: char) -> bool;

/// `char::is_alphanumeric`: a fixed property of the character.
#[verifier::external_body]
pub(crate) fn is_unicode_alphanumeric(c: char) -> (res: bool)
    ensures
        res == unicode_alphanumeric(c),
{
    c.is_alphanumeric()
}

/// The Unicode lowercase mapping of a text.
pub uninterp spec fn unicode_lowercase(s: Seq<char>) -> Seq<char>;

/// `str::to_lowercase`: the Unicode lowercase mapping, a function of the text alone.
#[verifier::external_body]
pub(crate) fn to_unicode_lowercase(s: &str) -> (res: String)
    ensures
        res@ == unicode_lowercase(s@),
{
    s.to_lowercase()
}

// ---------------------------------------------------------------------------
// Models
// ---------------------------------------------------------------------------
/// `p` stands in `s` at position `i`.
pub open spec fn has_at(s: Seq<char>, p: Seq<char>, i: int) -> bool {
    &&& 0 <= i
    &&& i + p.len() <= s.len()
    &&& s.subrange(i, i + p.len()) == p
}

/// `p` stands somewhere in `s`.
pub open spec fn occurs(s: Seq<char>, p: Seq<char>) -> bool {
    exists|i: int| has_at(s, p, i)
}

/// The leftmost position at or after `from` at which `p` stands in `s`.
pub open spec fn first_at(s: Seq<char>, p: Seq<char>, from: int) -> Option<int>
    decreases s.len() + 1 - from,
{
    if from > s.len() {
        None
    } else if has_at(s, p, from) {
        Some(from)
    } else {
        first_at(s, p, from + 1)
    }
}

/// The lowercase form of an ASCII capital letter; any other character stays.
pub open spec fn ascii_lower_char(c: char) -> char {
    if 'A' <= c && c <= 'Z' {
        (c as u32 + 32) as char
    } else {
        c
    }
}

/// `s` with its ASCII capital letters in lowercase.
pub open spec fn ascii_lower(s: Seq<char>) -> Seq<char> {
    s.map_values(|c: char| ascii_lower_char(c))
}

/// An ASCII letter or digit.
pub open spec fn is_ascii_alnum(c: char) -> bool {
    ('a' <= c && c <= 'z') || ('A' <= c && c <= 'Z') || ('0' <= c && c <= '9')
}

/// White space: the characters with the Unicode property `White_Space`.
pub open spec fn char_is_whitespace(c: char) -> bool {
    ||| '\t' <= c && c <= '\r'
    ||| c == ' '
    ||| c == '\u{85}'
    ||| c == '\u{A0}'
    ||| c == '\u{1680}'
    ||| '\u{2000}' <= c && c <= '\u{200A}'
    ||| c == '\u{2028}'
    ||| c == '\u{2029}'
    ||| c == '\u{202F}'
    ||| c == '\u{205F}'
    ||| c == '\u{3000}'
}

/// An ASCII character.
pub open spec fn is_ascii_char(c: char) -> bool {
    (c as u32) < 128
}

/// A letter or a number; beyond ASCII, as Unicode has it. White space is neither.
pub open spec fn char_is_alphanumeric(c: char) -> bool {
    if is_ascii_char(c) {
        is_ascii_alnum(c)
    } else {
        !char_is_whitespace(c) && unicode_alphanumeric(c)
    }
}

/// A text that holds ASCII characters only.
pub open spec fn is_ascii_text(s: Seq<char>) -> bool {
    forall|i: int| 0 <= i < s.len() ==> is_ascii_char(#[trigger] s[i])
}

/// A text in lowercase; beyond ASCII, as Unicode has it.
pub open spec fn lowered(s: Seq<char>) -> Seq<char> {
    if is_ascii_text(s) {
        ascii_lower(s)
    } else {
        unicode_lowercase(s)
    }
}

/// `s` without the longest prefix whose characters all satisfy `p`.
pub open spec fn drop_leading(s: Seq<char>, p: spec_fn(char) -> bool) -> Seq<char>
    decreases s.len(),
{
    if s.len() > 0 && p(s[0]) {
        drop_leading(s.drop_first(), p)
    } else {
        s
    }
}

/// `s` without the longest suffix whose characters all satisfy `p`.
pub open spec fn drop_trailing(s: Seq<char>, p: spec_fn(char) -> bool) -> Seq<char>
    decreases s.len(),
{
    if s.len() > 0 && p(s.last()) {
        drop_trailing(s.drop_last(), p)
    } else {
        s
    }
}

/// The predicate of white space.
pub open spec fn white() -> spec_fn(char) -> bool {
    |c: char| char_is_whitespace(c)
}

/// The predicate of one given character.
pub open spec fn just(x: char) -> spec_fn(char) -> bool {
    |c: char| c == x
}

/// `s` without leading white space.
pub open spec fn trimmed_start(s: Seq<char>) -> Seq<char> {
    drop_leading(s, white())
}

/// `s` without trailing white space.
pub open spec fn trimmed_end(s: Seq<char>) -> Seq<char> {
    drop_trailing(s, white())
}

/// `s` without white space on either side.
pub open spec fn trimmed(s: Seq<char>) -> Seq<char> {
    trimmed_end(trimmed_start(s))
}

/// The pieces of `s` between its separators, empty pieces among them.
pub open spec fn pieces(s: Seq<char>, sep: spec_fn(char) -> bool) -> Seq<Seq<char>>
    decreases s.len(),
{
    if s.len() == 0 {
        seq![Seq::<char>::empty()]
    } else {
        let before = pieces(s.drop_last(), sep);
        if sep(s.last()) {
            before.push(Seq::<char>::empty())
        } else {
            before.drop_last().push(before.last().push(s.last()))
        }
    }
}

/// `s` with each `c` replaced by `t`.
pub open spec fn replaced(s: Seq<char>, c: char, t: Seq<char>) -> Seq<char>
    decreases s.len(),
{
    if s.len() == 0 {
        Seq::empty()
    } else {
        let before = replaced(s.drop_last(), c, t);
        if s.last() == c {
            before + t
        } else {
            before.push(s.last())
        }
    }
}

/// The parts in order with `sep` between each two.
pub open spec fn joined(parts: Seq<Seq<char>>, sep: Seq<char>) -> Seq<char>
    decreases parts.len(),
{
    if parts.len() == 0 {
        Seq::empty()
    } else if parts.len() == 1 {
        parts[0]
    } else {
        joined(parts.drop_last(), sep) + sep + parts.last()
    }
}

/// The digit character of a number below ten.
pub open spec fn digit_char(n: int) -> char {
    ('0' as u32 + n) as char
}

/// `n` in decimal digits, without leading zeros.
pub open spec fn decimal(n: nat) -> Seq<char>
    decreases n,
{
    if n < 10 {
        seq![digit_char(n as int)]
    } else {
        decimal(n / 10).push(digit_char((n % 10) as int))
    }
}

/// The number of bytes of the UTF-8 form.
pub open spec fn utf8_len(s: Seq<char>) -> nat {
    encode_utf8(s).len()
}

/// The views of a list of strings.
pub open spec fn texts(v: Seq<String>) -> Seq<Seq<char>> {
    v.map_values(|s: String| s@)
}

/// The view of an optional string.
pub open spec fn opt_text(o: Option<String>) -> Option<Seq<char>> {
    match o {
        Some(s) => Some(s@),
        None => None,
    }
}

// ---------------------------------------------------------------------------
// Facts about the models
// ---------------------------------------------------------------------------
/// What `first_at` finds: an occurrence with none before it, or that there is none.
pub proof fn lemma_first_at(s: Seq<char>, p: Seq<char>, from: int)
    requires
        0 <= from,
    ensures
        match first_at(s, p, from) {
            Some(i) => from <= i && has_at(s, p, i) && forall|j: int|
                from <= j < i ==> !has_at(s, p, j),
            None => forall|j: int| from <= j ==> !has_at(s, p, j),
        },
    decreases s.len() + 1 - from,
{
    if from <= s.len() && !has_at(s, p, from) {
        lemma_first_at(s, p, from + 1);
    }
}

/// An occurrence with none before it, counted from `from`, is what `first_at` gives.
pub proof fn lemma_first_at_is(s: Seq<char>, p: Seq<char>, from: int, i: int)
    requires
        0 <= from <= i,
        has_at(s, p, i),
        forall|j: int| from <= j < i ==> !has_at(s, p, j),
    ensures
        first_at(s, p, from) == Some(i),
    decreases i - from,
{
    if from < i {
        assert(!has_at(s, p, from));
        lemma_first_at_is(s, p, from + 1, i);
    }
}

/// What is left of a text without its leading characters is a suffix of it.
pub proof fn lemma_drop_leading(s: Seq<char>, p: spec_fn(char) -> bool)
    ensures
        drop_leading(s, p).len() <= s.len(),
        drop_leading(s, p) == s.skip(s.len() - drop_leading(s, p).len()),
        drop_leading(s, p).len() > 0 ==> !p(drop_leading(s, p)[0]),
        forall|i: int| 0 <= i < s.len() - drop_leading(s, p).len() ==> p(s[i]),
    decreases s.len(),
{
    if s.len() > 0 && p(s[0]) {
        let t = s.drop_first();
        lemma_drop_leading(t, p);
        assert(s.skip(s.len() - drop_leading(s, p).len()) =~= t.skip(
            t.len() - drop_leading(s, p).len(),
        ));
        assert forall|i: int| 0 <= i < s.len() - drop_leading(s, p).len() implies p(s[i]) by {
            if i > 0 {
                assert(t[i - 1] == s[i]);
            }
        }
    } else {
        assert(s.skip(0) =~= s);
    }
}

/// What is left of a text without its trailing characters is a prefix of it.
pub proof fn lemma_drop_trailing(s: Seq<char>, p: spec_fn(char) -> bool)
    ensures
        drop_trailing(s, p).len() <= s.len(),
        drop_trailing(s, p) == s.take(drop_trailing(s, p).len() as int),
        drop_trailing(s, p).len() > 0 ==> !p(drop_trailing(s, p).last()),
        forall|i: int| drop_trailing(s, p).len() <= i < s.len() ==> p(s[i]),
    decreases s.len(),
{
    if s.len() > 0 && p(s.last()) {
        let t = s.drop_last();
        lemma_drop_trailing(t, p);
        assert(s.take(drop_trailing(s, p).len() as int) =~= t.take(
            drop_trailing(s, p).len() as int,
        ));
        assert forall|i: int| drop_trailing(s, p).len() <= i < s.len() implies p(s[i]) by {
            if i < s.len() - 1 {
                assert(t[i] == s[i]);
            }
        }
    } else {
        assert(s.take(s.len() as int) =~= s);
    }
}

/// Dropping characters that satisfy `p` from the front does not change `drop_leading`.
pub proof fn lemma_drop_leading_skip(s: Seq<char>, p: spec_fn(char) -> bool, i: int)
    requires
        0 <= i <= s.len(),
        forall|j: int| 0 <= j < i ==> p(s[j]),
    ensures
        drop_leading(s, p) == drop_leading(s.skip(i), p),
    decreases i,
{
    if i == 0 {
        assert(s.skip(0) =~= s);
    } else {
        let t = s.drop_first();
        assert forall|j: int| 0 <= j < i - 1 implies p(t[j]) by {
            assert(t[j] == s[j + 1]);
        }
        lemma_drop_leading_skip(t, p, i - 1);
        assert(t.skip(i - 1) =~= s.skip(i));
    }
}

/// Dropping characters that satisfy `p` from the back does not change `drop_trailing`.
pub proof fn lemma_drop_trailing_take(s: Seq<char>, p: spec_fn(char) -> bool, i: int)
    requires
        0 <= i <= s.len(),
        forall|j: int| i <= j < s.len() ==> p(s[j]),
    ensures
        drop_trailing(s, p) == drop_trailing(s.take(i), p),
    decreases s.len() - i,
{
    if i == s.len() {
        assert(s.take(i) =~= s);
    } else {
        let t = s.drop_last();
        assert forall|j: int| i <= j < t.len() implies p(t[j]) by {
            assert(t[j] == s[j]);
        }
        lemma_drop_trailing_take(t, p, i);
        assert(t.take(i) =~= s.take(i));
    }
}

/// There is always at least one piece.
pub proof fn lemma_pieces_nonempty(s: Seq<char>, sep: spec_fn(char) -> bool)
    ensures
        pieces(s, sep).len() >= 1,
    decreases s.len(),
{
    if s.len() > 0 {
        lemma_pieces_nonempty(s.drop_last(), sep);
    }
}

/// The UTF-8 length of two texts in a row is the sum of theirs.
pub proof fn lemma_utf8_len_concat(a: Seq<char>, b: Seq<char>)
    ensures
        encode_utf8(a + b) == encode_utf8(a) + encode_utf8(b),
        utf8_len(a + b) == utf8_len(a) + utf8_len(b),
    decreases a.len(),
{
    if a.len() == 0 {
        assert(a + b =~= b);
        assert(encode_utf8(a) + encode_utf8(b) =~= encode_utf8(b));
    } else {
        lemma_utf8_len_concat(a.drop_first(), b);
        assert((a + b).drop_first() =~= a.drop_first() + b);
        assert((a + b)[0] == a[0]);
        assert(encode_utf8(a + b) =~= encode_utf8(a) + encode_utf8(b));
    }
}

/// Every character takes a byte at least in the UTF-8 form.
pub proof fn lemma_utf8_len_bound(s: Seq<char>)
    ensures
        utf8_len(s) >= s.len(),
    decreases s.len(),
{
    if s.len() > 0 {
        lemma_utf8_len_bound(s.drop_first());
    }
}

/// A text with a character that is not white space keeps some of it when it is trimmed, from
/// such a character on.
pub proof fn lemma_trimmed_keeps(s: Seq<char>, i: int)
    requires
        0 <= i < s.len(),
        !char_is_whitespace(s[i]),
    ensures
        trimmed(s).len() > 0,
        !char_is_whitespace(trimmed(s)[0]),
        trimmed_end(s).len() > 0,
        trimmed_end(s)[0] == s[0],
{
    let front = trimmed_start(s);
    lemma_drop_leading(s, white());
    lemma_drop_trailing(front, white());
    lemma_drop_trailing(s, white());
    if front.len() == 0 {
        assert(white()(s[i]));
    }
    assert(!white()(front[0]));
    if trimmed(s).len() == 0 {
        assert(white()(front[0]));
    }
    if trimmed_end(s).len() == 0 {
        assert(white()(s[i]));
    }
}

// ---------------------------------------------------------------------------
// Reading and building text
// ---------------------------------------------------------------------------
/// The characters of a text.
pub fn chars_of(s: &str) -> (res: Vec<char>)
    ensures
        res@ == s@,
{
    let mut out: Vec<char> = Vec::new();
    for c in it: s.chars()
        invariant
            out@ == it.seq().take(it.index() as int),
            it.seq() == s@,
    {
        out.push(c);
    }
    out
}

/// The text of the characters from `from` up to `to`.
pub fn slice_text(v: &Vec<char>, from: usize, to: usize) -> (res: String)
    requires
        from <= to <= v@.len(),
    ensures
        res@ == v@.subrange(from as int, to as int),
{
    let mut out = String::new();
    let mut i: usize = from;
    while i < to
        invariant
            from <= i <= to <= v@.len(),
            out@ == v@.subrange(from as int, i as int),
        decreases to - i,
    {
        out.push(v[i]);
        i = i + 1;
    }
    out
}

/// The text of a list of characters.
pub fn text_of(v: &Vec<char>) -> (res: String)
    ensures
        res@ == v@,
{
    let out = slice_text(v, 0, v.len());
    assert(v@.subrange(0, v@.len() as int) =~= v@);
    out
}

/// Equality of two texts.
pub fn same_text(a: &str, b: &str) -> (res: bool)
    ensures
        res == (a@ == b@),
{
    let x = chars_of(a);
    let y = chars_of(b);
    x.len() == y.len() && stands_at(&x, &y, 0)
}

/// Whether `p` stands in `v` at `at`.
pub fn stands_at(v: &Vec<char>, p: &Vec<char>, at: usize) -> (res: bool)
    ensures
        res == has_at(v@, p@, at as int),
        v@.len() == p@.len() && at == 0 ==> res == (v@ == p@),
{
    proof {
        if v@.len() == p@.len() {
            assert(v@.subrange(0, p@.len() as int) =~= v@);
        }
    }
    if at > v.len() || p.len() > v.len() - at {
        return false;
    }
    let mut i: usize = 0;
    while i < p.len()
        invariant
            at + p@.len() <= v.len(),
            i <= p@.len(),
            forall|j: int| 0 <= j < i ==> v@[at + j] == p@[j],
        decreases p@.len() - i,
    {
        if v[at + i] != p[i] {
            assert(v@.subrange(at as int, at + p@.len())[i as int] != p@[i as int]);
            return false;
        }
        i = i + 1;
    }
    assert(v@.subrange(at as int, at + p@.len()) =~= p@);
    true
}

/// The leftmost position at or after `from` at which `p` stands in `v`.
pub fn find_from(v: &Vec<char>, p: &Vec<char>, from: usize) -> (res: Option<usize>)
    ensures
        match res {
            Some(i) => first_at(v@, p@, from as int) == Some(i as int) && has_at(
                v@,
                p@,
                i as int,
            ) && from <= i,
            None => first_at(v@, p@, from as int) is None,
        },
{
    let mut i: usize = from;
    while i <= v.len()
        invariant
            from <= i,
            from <= v@.len() ==> i <= v@.len() + 1,
            first_at(v@, p@, from as int) == first_at(v@, p@, i as int),
        decreases v@.len() + 1 - i,
    {
        if stands_at(v, p, i) {
            return Some(i);
        }
        if i == v.len() {
            proof {
                reveal_with_fuel(first_at, 2);
            }
            return None;
        }
        i = i + 1;
    }
    None
}

/// Whether `p` stands somewhere in `s`.
pub fn contains(s: &str, p: &str) -> (res: bool)
    ensures
        res == occurs(s@, p@),
{
    let v = chars_of(s);
    let w = chars_of(p);
    let found = find_from(&v, &w, 0);
    proof {
        lemma_first_at(s@, p@, 0);
        if let Some(i) = first_at(s@, p@, 0) {
            assert(has_at(s@, p@, i));
        }
    }
    found.is_some()
}

/// Whether `s` begins with `p`.
pub fn starts_with(s: &str, p: &str) -> (res: bool)
    ensures
        res == has_at(s@, p@, 0),
{
    stands_at(&chars_of(s), &chars_of(p), 0)
}

/// Whether `s` ends with `p`.
pub fn ends_with(s: &str, p: &str) -> (res: bool)
    ensures
        res == has_at(s@, p@, s@.len() - p@.len()),
{
    let v = chars_of(s);
    let w = chars_of(p);
    w.len() <= v.len() && stands_at(&v, &w, v.len() - w.len())
}

/// The lowercase form of an ASCII capital letter.
pub fn lower_char(c: char) -> (res: char)
    ensures
        res == ascii_lower_char(c),
{
    if 'A' <= c && c <= 'Z' {
        let b: u8 = c as u8;
        (b + 32) as char
    } else {
        c
    }
}

/// `s` with its ASCII capital letters in lowercase.
pub fn to_ascii_lower(s: &str) -> (res: String)
    ensures
        res@ == ascii_lower(s@),
{
    let v = chars_of(s);
    let mut out = String::new();
    let mut i: usize = 0;
    while i < v.len()
        invariant
            v@ == s@,
            i <= v@.len(),
            out@ == ascii_lower(v@.take(i as int)),
        decreases v@.len() - i,
    {
        out.push(lower_char(v[i]));
        proof {
            assert(ascii_lower(v@.take(i + 1)) =~= ascii_lower(v@.take(i as int)).push(
                ascii_lower_char(v@[i as int]),
            ));
        }
        i = i + 1;
    }
    assert(v@.take(v@.len() as int) =~= v@);
    out
}

/// Whether a character is white space.
pub fn is_whitespace(c: char) -> (res: bool)
    ensures
        res == char_is_whitespace(c),
{
    ('\t' <= c && c <= '\r') || c == ' ' || c == '\u{85}' || c == '\u{A0}' || c == '\u{1680}' || (
    '\u{2000}' <= c && c <= '\u{200A}') || c == '\u{2028}' || c == '\u{2029}' || c == '\u{202F}'
        || c == '\u{205F}' || c == '\u{3000}'
}

/// Whether a character is a letter or a number.
pub fn is_alphanumeric(c: char) -> (res: bool)
    ensures
        res == char_is_alphanumeric(c),
{
    if (c as u32) < 128 {
        ('a' <= c && c <= 'z') || ('A' <= c && c <= 'Z') || ('0' <= c && c <= '9')
    } else {
        !is_whitespace(c) && is_unicode_alphanumeric(c)
    }
}

/// `s` in lowercase.
pub fn to_lowercase(s: &str) -> (res: String)
    ensures
        res@ == lowered(s@),
{
    let v = chars_of(s);
    let mut i: usize = 0;
    while i < v.len()
        invariant
            v@ == s@,
            i <= v@.len(),
            is_ascii_text(v@.take(i as int)),
        decreases v@.len() - i,
    {
        if (v[i] as u32) >= 128 {
            assert(!is_ascii_char(s@[i as int]));
            return to_unicode_lowercase(s);
        }
        proof {
            let next = v@.take(i + 1);
            assert forall|k: int| 0 <= k < next.len() implies is_ascii_char(#[trigger] next[k]) by {
                if k < i {
                    assert(v@.take(i as int)[k] == next[k]);
                }
            }
        }
        i = i + 1;
    }
    assert(v@.take(v@.len() as int) =~= v@);
    to_ascii_lower(s)
}

/// `s` without leading white space.
pub fn trim_start(s: &str) -> (res: String)
    ensures
        res@ == trimmed_start(s@),
{
    let v = chars_of(s);
    let mut i: usize = 0;
    while i < v.len() && is_whitespace(v[i])
        invariant
            v@ == s@,
            i <= v@.len(),
            forall|j: int| 0 <= j < i ==> char_is_whitespace(v@[j]),
        decreases v@.len() - i,
    {
        i = i + 1;
    }
    proof {
        lemma_drop_leading_skip(v@, white(), i as int);
        assert(v@.skip(i as int) =~= v@.subrange(i as int, v@.len() as int));
    }
    slice_text(&v, i, v.len())
}

/// `s` without trailing white space.
pub fn trim_end(s: &str) -> (res: String)
    ensures
        res@ == trimmed_end(s@),
{
    let v = chars_of(s);
    let mut n: usize = v.len();
    while n > 0 && is_whitespace(v[n - 1])
        invariant
            v@ == s@,
            n <= v@.len(),
            forall|j: int| n <= j < v@.len() ==> char_is_whitespace(v@[j]),
        decreases n,
    {
        n = n - 1;
    }
    proof {
        lemma_drop_trailing_take(v@, white(), n as int);
        assert(v@.take(n as int) =~= v@.subrange(0, n as int));
    }
    slice_text(&v, 0, n)
}

/// `s` without white space on either side.
pub fn trim(s: &str) -> (res: String)
    ensures
        res@ == trimmed(s@),
{
    let t = trim_start(s);
    trim_end(&t)
}

/// `s` without any `c` at its end.
pub fn trim_end_char(s: &str, c: char) -> (res: String)
    ensures
        res@ == drop_trailing(s@, just(c)),
{
    let v = chars_of(s);
    let mut n: usize = v.len();
    while n > 0 && v[n - 1] == c
        invariant
            v@ == s@,
            n <= v@.len(),
            forall|j: int| n <= j < v@.len() ==> v@[j] == c,
        decreases n,
    {
        n = n - 1;
    }
    proof {
        lemma_drop_trailing_take(v@, just(c), n as int);
        assert(v@.take(n as int) =~= v@.subrange(0, n as int));
    }
    slice_text(&v, 0, n)
}

/// The pieces of `s` between the occurrences of `c`, empty pieces among them.
pub fn split_char(s: &str, c: char) -> (res: Vec<String>)
    ensures
        texts(res@) == pieces(s@, just(c)),
{
    let v = chars_of(s);
    let mut out: Vec<String> = Vec::new();
    let mut piece = String::new();
    let mut i: usize = 0;
    assert(texts(out@).push(piece@) =~= pieces(v@.take(0), just(c)));
    while i < v.len()
        invariant
            v@ == s@,
            i <= v@.len(),
            texts(out@).push(piece@) == pieces(v@.take(i as int), just(c)),
        decreases v@.len() - i,
    {
        proof {
            assert(v@.take(i + 1).drop_last() =~= v@.take(i as int));
            assert(v@.take(i + 1).last() == v@[i as int]);
            assert(texts(out@).push(piece@).drop_last() =~= texts(out@));
        }
        if v[i] == c {
            let ghost before = out@;
            let ghost last = piece;
            out.push(piece);
            piece = String::new();
            assert(texts(out@) =~= texts(before).push(last@));
        } else {
            piece.push(v[i]);
        }
        i = i + 1;
    }
    assert(v@.take(v@.len() as int) =~= v@);
    let ghost before = out@;
    let ghost last = piece;
    out.push(piece);
    assert(texts(out@) =~= texts(before).push(last@));
    out
}

/// `s` with each `c` replaced by `t`.
pub fn replace_char(s: &str, c: char, t: &str) -> (res: String)
    ensures
        res@ == replaced(s@, c, t@),
{
    let v = chars_of(s);
    let mut out = String::new();
    let mut i: usize = 0;
    while i < v.len()
        invariant
            v@ == s@,
            i <= v@.len(),
            out@ == replaced(v@.take(i as int), c, t@),
        decreases v@.len() - i,
    {
        proof {
            assert(v@.take(i + 1).drop_last() =~= v@.take(i as int));
            assert(v@.take(i + 1).last() == v@[i as int]);
        }
        if v[i] == c {
            out.push_str(t);
        } else {
            out.push(v[i]);
        }
        i = i + 1;
    }
    assert(v@.take(v@.len() as int) =~= v@);
    out
}

/// The parts in order with `sep` between each two.
pub fn join(parts: &Vec<String>, sep: &str) -> (res: String)
    ensures
        res@ == joined(texts(parts@), sep@),
{
    let mut out = String::new();
    let mut i: usize = 0;
    while i < parts.len()
        invariant
            i <= parts@.len(),
            out@ == joined(texts(parts@).take(i as int), sep@),
        decreases parts@.len() - i,
    {
        proof {
            let all = texts(parts@);
            assert(all.take(i + 1).drop_last() =~= all.take(i as int));
            assert(all.take(i + 1).last() == parts@[i as int]@);
            assert(i == 0 ==> all.take(i + 1)[0] == parts@[i as int]@);
            if i == 0 {
                assert(all.take(0).len() == 0);
                assert(out@ =~= Seq::<char>::empty());
                assert(out@ + parts@[0]@ =~= parts@[0]@);
            }
        }
        if i > 0 {
            out.push_str(sep);
        }
        out.push_str(&parts[i]);
        i = i + 1;
    }
    assert(texts(parts@).take(parts@.len() as int) =~= texts(parts@));
    out
}

/// `n` in decimal digits.
pub fn decimal_text(n: u64) -> (res: String)
    ensures
        res@ == decimal(n as nat),
    decreases n,
{
    let digit: u8 = (n % 10) as u8;
    let c: char = (48 + digit) as char;
    assert(c == digit_char((n % 10) as int));
    if n < 10 {
        let mut out = String::new();
        out.push(c);
        assert(out@ =~= seq![digit_char(n as int)]);
        out
    } else {
        let mut out = decimal_text(n / 10);
        out.push(c);
        out
    }
}

/// The number of bytes of the UTF-8 form.
pub fn byte_len(s: &str) -> (res: usize)
    ensures
        res as nat == utf8_len(s@),
{
    s.as_bytes().len()
}

/// Whether `t` is one of `words`.
pub fn is_one_of(t: &str, words: &Vec<&'static str>) -> (res: bool)
    ensures
        res == exists|i: int| 0 <= i < words@.len() && words@[i]@ == t@,
{
    let mut i: usize = 0;
    while i < words.len()
        invariant
            i <= words@.len(),
            forall|j: int| 0 <= j < i ==> words@[j]@ != t@,
        decreases words@.len() - i,
    {
        if same_text(words[i], t) {
            return true;
        }
        i = i + 1;
    }
    false
}

/// Whether `t` is one of the strings of `list`.
pub fn list_has(list: &Vec<String>, t: &str) -> (res: bool)
    ensures
        res == texts(list@).contains(t@),
{
    let mut i: usize = 0;
    while i < list.len()
        invariant
            i <= list@.len(),
            forall|j: int| 0 <= j < i ==> texts(list@)[j] != t@,
        decreases list@.len() - i,
    {
        if same_text(&list[i], t) {
            assert(texts(list@)[i as int] == t@);
            return true;
        }
        i = i + 1;
    }
    false
}

/// A copy of an optional string.
pub fn copy_opt(o: &Option<String>) -> (res: Option<String>)
    ensures
        opt_text(res) == opt_text(*o),
        res == *o,
{
    match o {
        Some(s) => Some(s.clone()),
        None => None,
    }
}

/// A copy of a list of strings.
pub fn copy_texts(v: &Vec<String>) -> (res: Vec<String>)
    ensures
        texts(res@) == texts(v@),
{
    let mut out: Vec<String> = Vec::new();
    let mut i: usize = 0;
    while i < v.len()
        invariant
            i <= v@.len(),
            texts(out@) == texts(v@).take(i as int),
        decreases v@.len() - i,
    {
        let ghost before = out@;
        out.push(v[i].clone());
        assert(texts(out@) =~= texts(before).push(v@[i as int]@));
        assert(texts(v@).take(i + 1) =~= texts(v@).take(i as int).push(v@[i as int]@));
        i = i + 1;
    }
    assert(texts(v@).take(v@.len() as int) =~= texts(v@));
    out
}

// ---------------------------------------------------------------------------
// Laws
// ---------------------------------------------------------------------------
/// One text stands in another at a position where the other is made of so many characters, the
/// one text and a rest.
pub proof fn law_texts_stand_in_texts(a: Seq<char>, p: Seq<char>, b: Seq<char>, i: int)
    ensures
        has_at(a + p + b, p, a.len() as int),
        occurs(a + p + b, p),
        has_at(a, p, i) ==> a == a.take(i) + p + a.skip(i + p.len()),
{
    assert((a + p + b).subrange(a.len() as int, (a.len() + p.len()) as int) =~= p);
    assert(has_at(a + p + b, p, a.len() as int));
    if has_at(a, p, i) {
        assert(a =~= a.take(i) + a.subrange(i, i + p.len()) + a.skip(i + p.len()));
    }
}

/// Capital ASCII letters become the small ones, every other character stays, and nothing is
/// added or lost.
pub proof fn law_ascii_letters_are_lowered(s: Seq<char>, i: int)
    requires
        0 <= i < s.len(),
    ensures
        ascii_lower(s).len() == s.len(),
        65 <= s[i] as u32 <= 90 ==> ascii_lower(s)[i] as u32 == s[i] as u32 + 32,
        !(65 <= s[i] as u32 <= 90) ==> ascii_lower(s)[i] == s[i],
{
}

/// The characters that count as white space, by their code points.
pub proof fn law_white_space_by_code_points(c: char)
    ensures
        char_is_whitespace(c) <==> {
            let n = c as u32;
            9 <= n <= 13 || n == 32 || n == 133 || n == 160 || n == 5760 || 8192 <= n <= 8202 || n
                == 8232 || n == 8233 || n == 8239 || n == 8287 || n == 12288
        },
        is_ascii_alnum(c) <==> {
            let n = c as u32;
            48 <= n <= 57 || 65 <= n <= 90 || 97 <= n <= 122
        },
{
}

/// A trimmed text starts and ends with no white space, and what was taken away on its sides was
/// nothing else.
pub proof fn law_trimming_takes_white_space_alone(s: Seq<char>)
    ensures
        trimmed(s).len() > 0 ==> !char_is_whitespace(trimmed(s)[0]) && !char_is_whitespace(
            trimmed(s).last(),
        ),
        exists|a: int, b: int|
            #![trigger s.subrange(a, b)]
            0 <= a <= b <= s.len() && trimmed(s) == s.subrange(a, b) && (forall|k: int|
                0 <= k < a ==> char_is_whitespace(#[trigger] s[k])) && (forall|k: int|
                b <= k < s.len() ==> char_is_whitespace(#[trigger] s[k])),
{
    let u = trimmed_start(s);
    lemma_drop_leading(s, white());
    lemma_drop_trailing(u, white());
    let a = s.len() - u.len();
    let b = a + trimmed(s).len();
    assert(u =~= s.skip(a));
    assert(trimmed(s) =~= u.take(trimmed(s).len() as int));
    assert(trimmed(s) =~= s.subrange(a, b));
    assert forall|k: int| 0 <= k < a implies char_is_whitespace(#[trigger] s[k]) by {
        assert(white()(s[k]));
    }
    assert forall|k: int| b <= k < s.len() implies char_is_whitespace(#[trigger] s[k]) by {
        assert(s[k] == u[k - a]);
        assert(white()(u[k - a]));
    }
    if trimmed(s).len() > 0 {
        assert(!white()(u[0]));
        assert(trimmed(s)[0] == u[0]);
        assert(!white()(trimmed(s).last()));
    }
}

/// To split a text at a separator splits what stands before the separator and what stands behind
/// it; a text without separators is one piece.
pub proof fn law_texts_are_split_at_separators(
    a: Seq<char>,
    c: char,
    b: Seq<char>,
    sep: spec_fn(char) -> bool,
)
    requires
        sep(c),
    ensures
        pieces(a + seq![c] + b, sep) == pieces(a, sep) + pieces(b, sep),
        (forall|i: int| 0 <= i < a.len() ==> !sep(#[trigger] a[i])) ==> pieces(a, sep) == seq![a],
    decreases b.len(),
{
    if forall|i: int| 0 <= i < a.len() ==> !sep(#[trigger] a[i]) {
        lemma_one_piece(a, sep);
    }
    let s = a + seq![c] + b;
    if b.len() == 0 {
        assert(s.drop_last() =~= a);
        assert(s.last() == c);
        assert(pieces(b, sep) =~= seq![Seq::<char>::empty()]);
        assert(pieces(a, sep).push(Seq::<char>::empty()) =~= pieces(a, sep) + pieces(b, sep));
    } else {
        law_texts_are_split_at_separators(a, c, b.drop_last(), sep);
        assert(s.drop_last() =~= a + seq![c] + b.drop_last());
        assert(s.last() == b.last());
        lemma_pieces_nonempty(b.drop_last(), sep);
        let x = pieces(a, sep);
        let y = pieces(b.drop_last(), sep);
        assert((x + y).last() == y.last());
        assert((x + y).drop_last() =~= x + y.drop_last());
        if sep(b.last()) {
            assert((x + y).push(Seq::<char>::empty()) =~= x + y.push(Seq::<char>::empty()));
        } else {
            assert((x + y).drop_last().push(y.last().push(b.last())) =~= x
                + y.drop_last().push(y.last().push(b.last())));
        }
    }
}

proof fn lemma_one_piece(a: Seq<char>, sep: spec_fn(char) -> bool)
    requires
        forall|i: int| 0 <= i < a.len() ==> !sep(#[trigger] a[i]),
    ensures
        pieces(a, sep) == seq![a],
    decreases a.len(),
{
    if a.len() > 0 {
        let front = a.drop_last();
        assert forall|i: int| 0 <= i < front.len() implies !sep(#[trigger] front[i]) by {
            assert(a[i] == front[i]);
        }
        assert(a.last() == a[a.len() - 1]);
        lemma_one_piece(front, sep);
        assert(front.push(a.last()) =~= a);
        assert(seq![front].drop_last().push(a) =~= seq![a]);
    } else {
        assert(a =~= Seq::<char>::empty());
    }
}

/// What was split and is joined again is the text that it was.
pub proof fn law_joining_undoes_splitting(s: Seq<char>, c: char)
    ensures
        joined(pieces(s, just(c)), seq![c]) == s,
    decreases s.len(),
{
    let sep = just(c);
    let all = pieces(s, sep);
    if s.len() == 0 {
        assert(all.len() == 1 && all[0] =~= s);
    } else {
        let before = pieces(s.drop_last(), sep);
        law_joining_undoes_splitting(s.drop_last(), c);
        lemma_pieces_nonempty(s.drop_last(), sep);
        if s.last() == c {
            assert(all.drop_last() =~= before);
            assert(joined(all, seq![c]) =~= s.drop_last() + seq![c]);
            assert(s.drop_last() + seq![c] =~= s);
        } else {
            let last = before.last().push(s.last());
            assert(all.drop_last() =~= before.drop_last());
            assert(all.last() == last);
            if before.len() == 1 {
                assert(before[0] == before.last());
                assert(joined(all, seq![c]) == last);
                assert(last =~= s);
            } else {
                let front = joined(before.drop_last(), seq![c]) + seq![c];
                assert(joined(before, seq![c]) == front + before.last());
                assert(joined(all, seq![c]) == front + last);
                assert(front + last =~= (front + before.last()).push(s.last()));
                assert(s =~= s.drop_last().push(s.last()));
            }
        }
    }
}

/// Joined parts stand in order with the separator between each two, and nothing else.
pub proof fn law_joined_parts_stand_in_order(
    a: Seq<Seq<char>>,
    b: Seq<Seq<char>>,
    part: Seq<char>,
    sep: Seq<char>,
)
    ensures
        joined(Seq::<Seq<char>>::empty(), sep).len() == 0,
        joined(seq![part], sep) == part,
        a.len() > 0 && b.len() > 0 ==> joined(a + b, sep) == joined(a, sep) + sep + joined(b, sep),
    decreases b.len(),
{
    if a.len() > 0 && b.len() > 0 {
        assert((a + b).drop_last() =~= a + b.drop_last());
        assert((a + b).last() == b.last());
        if b.len() == 1 {
            assert(a + b.drop_last() =~= a);
            assert(b.last() == b[0]);
        } else {
            law_joined_parts_stand_in_order(a, b.drop_last(), part, sep);
            assert(joined(a, sep) + sep + joined(b.drop_last(), sep) + sep + b.last() =~= joined(
                a,
                sep,
            ) + sep + (joined(b.drop_last(), sep) + sep + b.last()));
        }
    }
}

/// To replace a character puts the new text in the place of each, and keeps the others in order.
pub proof fn law_replacing_is_done_one_by_one(
    a: Seq<char>,
    b: Seq<char>,
    c: char,
    x: char,
    t: Seq<char>,
)
    ensures
        replaced(a + b, c, t) == replaced(a, c, t) + replaced(b, c, t),
        replaced(seq![x], c, t) == if x == c {
            t
        } else {
            seq![x]
        },
    decreases b.len(),
{
    let one = seq![x];
    assert(one.drop_last() =~= Seq::<char>::empty());
    assert(replaced(one.drop_last(), c, t) =~= Seq::<char>::empty());
    assert(one.last() == x);
    assert(Seq::<char>::empty() + t =~= t);
    assert(Seq::<char>::empty().push(x) =~= one);
    if b.len() == 0 {
        assert(a + b =~= a);
        assert(replaced(a, c, t) + replaced(b, c, t) =~= replaced(a, c, t));
    } else {
        law_replacing_is_done_one_by_one(a, b.drop_last(), c, x, t);
        assert((a + b).drop_last() =~= a + b.drop_last());
        let r = replaced(a, c, t);
        let q = replaced(b.drop_last(), c, t);
        assert((r + q) + t =~= r + (q + t));
        assert((r + q).push(b.last()) =~= r + q.push(b.last()));
    }
}

/// Texts of ASCII characters alone, whose code points lie below 128, are lowered letter by
/// letter.
pub proof fn law_ascii_texts_are_lowered_by_letters(s: Seq<char>)
    ensures
        (forall|i: int| 0 <= i < s.len() ==> (#[trigger] s[i] as u32) < 128) ==> lowered(s)
            == ascii_lower(s),
        (exists|i: int| 0 <= i < s.len() && (#[trigger] s[i] as u32) >= 128) ==> lowered(s)
            == unicode_lowercase(s),
        forall|c: char|
            (c as u32) < 128 ==> (#[trigger] char_is_alphanumeric(c) <==> is_ascii_alnum(c)),
{
    if forall|i: int| 0 <= i < s.len() ==> (#[trigger] s[i] as u32) < 128 {
        assert(is_ascii_text(s));
    }
    if exists|i: int| 0 <= i < s.len() && (#[trigger] s[i] as u32) >= 128 {
        let i = choose|i: int| 0 <= i < s.len() && (#[trigger] s[i] as u32) >= 128;
        assert(!is_ascii_char(s[i]));
    }
}

} // verus!
