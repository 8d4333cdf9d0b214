//! Which tools a deployment offers.
use vstd::prelude::*;

use crate::text::{copy_texts, list_has, texts};

verus! {

/// A text in quotes, with what cannot stand there escaped.
pub uninterp spec fn quoted(s: Seq<char>) -> Seq<char>;

/// The `Debug` form of `str`: a function of the text alone.
#[verifier::external_body]
pub(crate) fn quoted_text(s: &str) -> (res: String)
    ensures
        res@ == quoted(s@),
{
    format!("{:?}", s)
}

/// The names of all tools.
pub open spec fn all_tools() -> Seq<Seq<char>> {
    seq![
        "web_collect_evidence"@,
        "web_search"@,
        "web_scrape_url"@,
        "web_get_fetch"@,
        "web_find_in_fetch"@,
        "web_verify_quote"@,
        "web_map_site"@,
        "web_crawl_site"@,
        "browser_open"@,
        "browser_close"@,
        "browser_snapshot"@,
        "browser_screenshot"@,
        "browser_click"@,
        "browser_type"@,
        "browser_scroll"@,
        "browser_import_cookies"@,
    ]
}

/// The names of all tools.
pub fn tool_names() -> (res: Vec<String>)
    ensures
        texts(res@) == all_tools(),
{
    let res = vec![
        "web_collect_evidence".to_owned(),
        "web_search".to_owned(),
        "web_scrape_url".to_owned(),
        "web_get_fetch".to_owned(),
        "web_find_in_fetch".to_owned(),
        "web_verify_quote".to_owned(),
        "web_map_site".to_owned(),
        "web_crawl_site".to_owned(),
        "browser_open".to_owned(),
        "browser_close".to_owned(),
        "browser_snapshot".to_owned(),
        "browser_screenshot".to_owned(),
        "browser_click".to_owned(),
        "browser_type".to_owned(),
        "browser_scroll".to_owned(),
        "browser_import_cookies".to_owned(),
    ];
    assert(texts(res@) =~= all_tools());
    res
}

/// The first name that is none of the known ones.
pub open spec fn first_unknown(known: Seq<Seq<char>>, names: Seq<Seq<char>>) -> Option<Seq<char>>
    decreases names.len(),
{
    if names.len() == 0 {
        None
    } else if !known.contains(names[0]) {
        Some(names[0])
    } else {
        first_unknown(known, names.drop_first())
    }
}

/// The known names that are among the allowed ones, in their order.
pub open spec fn allowed_of(known: Seq<Seq<char>>, allowed: Seq<Seq<char>>) -> Seq<Seq<char>> {
    known.filter(|name: Seq<char>| allowed.contains(name))
}

/// Why an unknown tool is refused, given its name in quotes.
pub open spec fn unknown_tool(shown: Seq<char>) -> Seq<char> {
    "WEB_RESEARCH_MCP_EXPOSED_TOOLS contains unknown tool "@ + shown
}

/// The tools that a deployment offers: all of them, or those that it allows; a name that is
/// none of a tool is refused.
pub open spec fn offered(known: Seq<Seq<char>>, allowed: Option<Seq<Seq<char>>>) -> Result<
    Seq<Seq<char>>,
    Seq<char>,
> {
    match allowed {
        None => Ok(known),
        Some(names) => match first_unknown(known, names) {
            Some(name) => Err(unknown_tool(quoted(name))),
            None => Ok(allowed_of(known, names)),
        },
    }
}

fn find_unknown(known: &Vec<String>, names: &Vec<String>) -> (res: Option<String>)
    ensures
        match res {
            Some(name) => first_unknown(texts(known@), texts(names@)) == Some(name@),
            None => first_unknown(texts(known@), texts(names@)) is None,
        },
{
    let ghost all = texts(names@);
    let mut i: usize = 0;
    assert(all.skip(0) =~= all);
    while i < names.len()
        invariant
            all == texts(names@),
            i <= names@.len(),
            first_unknown(texts(known@), all) == first_unknown(texts(known@), all.skip(i as int)),
        decreases names@.len() - i,
    {
        assert(all.skip(i as int)[0] == names@[i as int]@);
        if !list_has(known, &names[i]) {
            return Some(names[i].clone());
        }
        assert(all.skip(i as int).drop_first() =~= all.skip(i + 1));
        i = i + 1;
    }
    None
}

fn keep_allowed(known: &Vec<String>, allowed: &Vec<String>) -> (res: Vec<String>)
    ensures
        texts(res@) == allowed_of(texts(known@), texts(allowed@)),
{
    let ghost all = texts(known@);
    let ghost keep = |name: Seq<char>| texts(allowed@).contains(name);
    let mut out: Vec<String> = Vec::new();
    let mut i: usize = 0;
    proof {
        reveal(Seq::filter);
        assert(texts(out@) =~= all.take(0).filter(keep));
    }
    while i < known.len()
        invariant
            all == texts(known@),
            keep == (|name: Seq<char>| texts(allowed@).contains(name)),
            i <= known@.len(),
            texts(out@) == all.take(i as int).filter(keep),
        decreases known@.len() - i,
    {
        let ghost before = out@;
        proof {
            reveal(Seq::filter);
            assert(all.take(i + 1).drop_last() =~= all.take(i as int));
            assert(all.take(i + 1).last() == known@[i as int]@);
        }
        if list_has(allowed, &known[i]) {
            out.push(known[i].clone());
            assert(texts(out@) =~= texts(before).push(known@[i as int]@));
        }
        i = i + 1;
    }
    assert(all.take(all.len() as int) =~= all);
    out
}

/// The tools that a deployment offers.
pub fn select_tools(known: &Vec<String>, exposed_tools: &Option<Vec<String>>) -> (res: Result<
    Vec<String>,
    String,
>)
    ensures
        offered(
            texts(known@),
            match *exposed_tools {
                Some(names) => Some(texts(names@)),
                None => None,
            },
        ) == match res {
            Ok(tools) => Ok::<Seq<Seq<char>>, Seq<char>>(texts(tools@)),
            Err(message) => Err::<Seq<Seq<char>>, Seq<char>>(message@),
        },
{
    let names = match exposed_tools {
        Some(names) => names,
        None => {
            return Ok(copy_texts(known));
        },
    };
    match find_unknown(known, names) {
        Some(name) => Err(unknown_tool_message(&quoted_text(&name))),
        None => Ok(keep_allowed(known, names)),
    }
}

/// Why an unknown tool is refused, given its name in quotes.
pub fn unknown_tool_message(shown: &str) -> (res: String)
    ensures
        res@ == unknown_tool(shown@),
{
    let mut message = "WEB_RESEARCH_MCP_EXPOSED_TOOLS contains unknown tool ".to_owned();
    message.push_str(shown);
    message
}

// ---------------------------------------------------------------------------
// Laws
// ---------------------------------------------------------------------------
/// A tool is offered if and only if it is one and it is allowed.
pub proof fn law_hidden_tools_are_not_offered(
    known: Seq<Seq<char>>,
    allowed: Seq<Seq<char>>,
    name: Seq<char>,
)
    ensures
        allowed_of(known, allowed).contains(name) <==> known.contains(name) && allowed.contains(
            name,
        ),
{
    let keep = |n: Seq<char>| allowed.contains(n);
    let out = known.filter(keep);
    if out.contains(name) {
        known.lemma_filter_contains_rev(keep, name);
        let k = choose|k: int| 0 <= k < out.len() && out[k] == name;
        known.lemma_filter_pred(keep, k);
    }
    if known.contains(name) && allowed.contains(name) {
        let k = choose|k: int| 0 <= k < known.len() && known[k] == name;
        known.lemma_filter_contains(keep, k);
    }
}

/// A deployment that allows a name that is no tool's is refused.
pub proof fn law_unknown_names_are_refused(
    known: Seq<Seq<char>>,
    allowed: Seq<Seq<char>>,
    i: int,
)
    requires
        0 <= i < allowed.len(),
        !known.contains(allowed[i]),
    ensures
        offered(known, Some(allowed)) is Err,
    decreases allowed.len(),
{
    if i > 0 && known.contains(allowed[0]) {
        assert(allowed.drop_first()[i - 1] == allowed[i]);
        law_unknown_names_are_refused(known, allowed.drop_first(), i - 1);
    }
}

/// Without a list of its own a deployment offers every tool. With a list of known names it
/// offers the tools that are on it, in the order in which they are known; otherwise it is
/// refused for the first name that is unknown.
pub proof fn law_deployments_offer_what_they_list(
    known: Seq<Seq<char>>,
    allowed: Seq<Seq<char>>,
    i: int,
)
    ensures
        offered(known, None) == Ok::<Seq<Seq<char>>, Seq<char>>(known),
        (forall|j: int| 0 <= j < allowed.len() ==> known.contains(#[trigger] allowed[j]))
            ==> offered(known, Some(allowed)) == Ok::<Seq<Seq<char>>, Seq<char>>(
            allowed_of(known, allowed),
        ),
        0 <= i < allowed.len() && !known.contains(allowed[i]) && (forall|j: int|
            0 <= j < i ==> known.contains(#[trigger] allowed[j])) ==> offered(known, Some(allowed))
            == Err::<Seq<Seq<char>>, Seq<char>>(
            "WEB_RESEARCH_MCP_EXPOSED_TOOLS contains unknown tool "@ + quoted(allowed[i]),
        ),
{
    lemma_first_unknown(known, allowed, i);
}

proof fn lemma_first_unknown(known: Seq<Seq<char>>, names: Seq<Seq<char>>, i: int)
    ensures
        (forall|j: int| 0 <= j < names.len() ==> known.contains(#[trigger] names[j]))
            ==> first_unknown(known, names) is None,
        0 <= i < names.len() && !known.contains(names[i]) && (forall|j: int|
            0 <= j < i ==> known.contains(#[trigger] names[j])) ==> first_unknown(known, names)
            == Some(names[i]),
    decreases names.len(),
{
    if names.len() > 0 && known.contains(names[0]) {
        lemma_first_unknown(known, names.drop_first(), i - 1);
        let rest = names.drop_first();
        assert forall|j: int| 0 <= j < rest.len() && (forall|k: int|
            0 <= k < names.len() ==> known.contains(#[trigger] names[k])) implies known.contains(
            #[trigger] rest[j],
        ) by {
            assert(rest[j] == names[j + 1]);
        }
        if 0 < i < names.len() && (forall|j: int|
            0 <= j < i ==> known.contains(#[trigger] names[j])) {
            assert(rest[i - 1] == names[i]);
            assert forall|j: int| 0 <= j < i - 1 implies known.contains(#[trigger] rest[j]) by {
                assert(rest[j] == names[j + 1]);
            }
        }
    }
}

/// The tools that are offered stand in the order in which they are known.
pub proof fn law_offered_tools_stand_in_order(
    a: Seq<Seq<char>>,
    b: Seq<Seq<char>>,
    allowed: Seq<Seq<char>>,
)
    ensures
        allowed_of(a + b, allowed) == allowed_of(a, allowed) + allowed_of(b, allowed),
{
    Seq::filter_distributes_over_add(a, b, |name: Seq<char>| allowed.contains(name));
}

} // verus!
