//! The tools that fetch pages, and those that read what was fetched.
use vstd::prelude::*;

use crate::mcp::outcome::{denied, Call, CallView, Outcome, OutcomeView};
use crate::policy::{family_verdict, url_verdict, Decision, Family, Policy, PolicyView, Verdict};

pub mod crawl;
pub mod evidence;
pub mod map;
pub mod scrape;

verus! {

/// The outcome of a call whose family is disabled.
pub open spec fn family_gate(
    p: PolicyView,
    family: Family,
    detail: Seq<char>,
    call: CallView,
) -> Option<OutcomeView> {
    match family_verdict(p, family) {
        Verdict::Deny(reason) => Some(denied(call, reason, detail)),
        Verdict::Allow => None,
    }
}

/// The outcome of a call whose URL the policy does not admit.
pub open spec fn domain_gate(p: PolicyView, url: Seq<char>, call: CallView) -> Option<OutcomeView> {
    match url_verdict(p, url) {
        Verdict::Deny(reason) => Some(denied(call, reason, "domain policy"@)),
        Verdict::Allow => None,
    }
}

/// The view of an optional outcome.
pub open spec fn opt_outcome(o: Option<Outcome>) -> Option<OutcomeView> {
    match o {
        Some(x) => Some(x@),
        None => None,
    }
}

/// Holds a call to the families that are enabled.
pub fn check_family_gate(policy: &Policy, family: Family, detail: &str, call: &Call) -> (res: Option<
    Outcome,
>)
    ensures
        opt_outcome(res) == family_gate(policy@, family, detail@, call@),
{
    match policy.check_family(family) {
        Decision::Deny(reason) => Some(call.deny(&reason, detail)),
        Decision::Allow => None,
    }
}

/// Holds a call to the URLs that the policy admits.
pub fn check_domain_gate(policy: &Policy, url: &str, call: &Call) -> (res: Option<Outcome>)
    ensures
        opt_outcome(res) == domain_gate(policy@, url@, call@),
{
    match policy.check_domain(url) {
        Decision::Deny(reason) => Some(call.deny(&reason, "domain policy")),
        Decision::Allow => None,
    }
}

/// The outcome of a call for which there is no place in flight.
pub open spec fn no_place(call: CallView) -> OutcomeView {
    denied(call, "inflight_full"@, "concurrent fetch limit reached"@)
}

} // verus!
