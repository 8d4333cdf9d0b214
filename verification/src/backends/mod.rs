//! The services behind the gateway.
use vstd::prelude::*;

use crate::text::{decimal, decimal_text, digit_char, drop_trailing, just, trim_end_char};

pub mod camofox;
pub mod firecrawl;
pub mod searxng;

verus! {

/// Why a service gave no answer. A timeout is given in milliseconds.
#[derive(Debug)]
pub enum BackendError {
    Http { status: u16, body: String },
    Timeout(u64),
    Transport(String),
    Malformed(String),
}

/// Why a service gave no answer, as a mathematical value.
pub enum FailureView {
    Http { status: u16, body: Seq<char> },
    Timeout(u64),
    Transport(Seq<char>),
    Malformed(Seq<char>),
}

impl View for BackendError {
    type V = FailureView;

    open spec fn view(&self) -> FailureView {
        match *self {
            BackendError::Http { status, body } => FailureView::Http { status, body: body@ },
            BackendError::Timeout(millis) => FailureView::Timeout(millis),
            BackendError::Transport(detail) => FailureView::Transport(detail@),
            BackendError::Malformed(detail) => FailureView::Malformed(detail@),
        }
    }
}

/// The part of a second, in thousandths, as it is shown: without zeros at its end.
pub open spec fn fraction_shown(thousandths: nat) -> Seq<char> {
    if thousandths == 0 {
        ""@
    } else {
        "."@ + drop_trailing(
            seq![
                digit_char((thousandths / 100) as int),
                digit_char((thousandths / 10 % 10) as int),
                digit_char((thousandths % 10) as int),
            ],
            just('0'),
        )
    }
}

/// A span of milliseconds as it is shown: in seconds from the first one on.
pub open spec fn millis_shown(millis: nat) -> Seq<char> {
    if millis == 0 {
        "0ns"@
    } else if millis < 1000 {
        decimal(millis) + "ms"@
    } else {
        decimal(millis / 1000) + fraction_shown(millis % 1000) + "s"@
    }
}

/// A span of milliseconds as it is shown.
pub fn millis_text(millis: u64) -> (res: String)
    ensures
        res@ == millis_shown(millis as nat),
{
    if millis == 0 {
        return "0ns".to_owned();
    }
    if millis < 1000 {
        let mut out = decimal_text(millis);
        out.push_str("ms");
        return out;
    }
    let mut out = decimal_text(millis / 1000);
    let part: u64 = millis % 1000;
    if part == 0 {
        out.push_str("");
    } else {
        let mut digits = digit_text(part / 100);
        digits.push_str(&digit_text(part / 10 % 10));
        digits.push_str(&digit_text(part % 10));
        let ghost head = out@;
        proof {
            assert(digits@ =~= seq![
                digit_char((part / 100) as int),
                digit_char((part / 10 % 10) as int),
                digit_char((part % 10) as int),
            ]);
        }
        out.push_str(".");
        out.push_str(&trim_end_char(&digits, '0'));
        assert(out@ =~= head + fraction_shown(part as nat));
    }
    out.push_str("s");
    out
}

fn digit_text(digit: u64) -> (res: String)
    requires
        digit < 10,
    ensures
        res@ == seq![digit_char(digit as int)],
{
    decimal_text(digit)
}

/// The message of a failure.
pub open spec fn failure_message(e: FailureView) -> Seq<char> {
    match e {
        FailureView::Http { status, body } => "backend HTTP error: status "@ + decimal(
            status as nat,
        ) + ", body: "@ + body,
        FailureView::Timeout(millis) => "backend timeout after "@ + millis_shown(millis as nat),
        FailureView::Transport(detail) => "backend transport error: "@ + detail,
        FailureView::Malformed(detail) => "malformed backend response: "@ + detail,
    }
}

impl BackendError {
    /// The message of the failure.
    pub fn message(&self) -> (res: String)
        ensures
            res@ == failure_message(self@),
    {
        match self {
            BackendError::Http { status, body } => {
                let mut out = "backend HTTP error: status ".to_owned();
                out.push_str(&decimal_text(*status as u64));
                out.push_str(", body: ");
                out.push_str(body);
                out
            },
            BackendError::Timeout(millis) => {
                let mut out = "backend timeout after ".to_owned();
                out.push_str(&millis_text(*millis));
                out
            },
            BackendError::Transport(detail) => {
                let mut out = "backend transport error: ".to_owned();
                out.push_str(detail);
                out
            },
            BackendError::Malformed(detail) => {
                let mut out = "malformed backend response: ".to_owned();
                out.push_str(detail);
                out
            },
        }
    }
}

/// A service behind the gateway.
#[derive(Debug, Clone, Copy, PartialEq, Eq, Structural)]
pub enum BackendKind {
    Searxng,
    Firecrawl,
    Camofox,
}

impl BackendKind {
    /// The name under which responses mention the service.
    pub fn provider_label(&self) -> (res: &'static str)
        ensures
            res@ == match *self {
                BackendKind::Searxng => "searxng"@,
                BackendKind::Firecrawl => "firecrawl-selfhosted"@,
                BackendKind::Camofox => "camofox"@,
            },
    {
        match self {
            BackendKind::Searxng => "searxng",
            BackendKind::Firecrawl => "firecrawl-selfhosted",
            BackendKind::Camofox => "camofox",
        }
    }
}

/// The address of a path at an endpoint, which may or may not end in slashes.
pub open spec fn endpoint_url(endpoint: Seq<char>, path: Seq<char>) -> Seq<char> {
    drop_trailing(endpoint, just('/')) + path
}

/// The address of a path at an endpoint.
pub fn url_at(endpoint: &str, path: &str) -> (res: String)
    ensures
        res@ == endpoint_url(endpoint@, path@),
{
    let mut out = trim_end_char(endpoint, '/');
    out.push_str(path);
    out
}

// ---------------------------------------------------------------------------
// Laws
// ---------------------------------------------------------------------------
/// Slashes at the end of an endpoint do not count, and what stands before them is kept.
pub proof fn law_endpoints_may_end_in_slashes(endpoint: Seq<char>, path: Seq<char>)
    ensures
        endpoint_url(endpoint.push('/'), path) == endpoint_url(endpoint, path),
        endpoint.len() > 0 && endpoint.last() != '/' ==> endpoint_url(endpoint, path) == endpoint
            + path,
{
    assert(endpoint.push('/').drop_last() =~= endpoint);
}

/// The message of a failure ends in what the service or the transport said, whole; an HTTP
/// failure also tells its status, and each kind of failure has its own words.
pub proof fn law_failures_tell_what_was_said(status: u16, millis: u64, detail: Seq<char>)
    ensures
        failure_message(FailureView::Http { status, body: detail })
            == "backend HTTP error: status "@ + decimal(status as nat) + ", body: "@ + detail,
        failure_message(FailureView::Transport(detail)) == "backend transport error: "@ + detail,
        failure_message(FailureView::Malformed(detail)) == "malformed backend response: "@
            + detail,
        millis < 1000 && millis > 0 ==> failure_message(FailureView::Timeout(millis))
            == "backend timeout after "@ + (decimal(millis as nat) + "ms"@),
        millis % 1000 == 0 && millis > 0 ==> failure_message(FailureView::Timeout(millis))
            == "backend timeout after "@ + (decimal((millis / 1000) as nat) + "s"@),
{
    reveal_strlit("");
    if millis % 1000 == 0 && millis > 0 {
        assert(millis_shown(millis as nat) =~= decimal((millis / 1000) as nat) + "s"@);
    }
}

/// The part of a second is shown by its tenths, hundredths and thousandths, as far as the last
/// of them that is not zero.
pub proof fn law_parts_of_a_second_are_shown(a: nat, b: nat, c: nat)
    requires
        a < 10,
        b < 10,
        c < 10,
    ensures
        ({
            let shown = fraction_shown(100 * a + 10 * b + c);
            let x = digit_char(a as int);
            let y = digit_char(b as int);
            let z = digit_char(c as int);
            &&& c > 0 ==> shown == "."@ + seq![x, y, z]
            &&& c == 0 && b > 0 ==> shown == "."@ + seq![x, y]
            &&& c == 0 && b == 0 && a > 0 ==> shown == "."@ + seq![x]
            &&& c == 0 && b == 0 && a == 0 ==> shown.len() == 0
        }),
{
    reveal_strlit("");
    let n = 100 * a + 10 * b + c;
    assert(n / 100 == a && n / 10 % 10 == b && n % 10 == c);
    let x = digit_char(a as int);
    let y = digit_char(b as int);
    let z = digit_char(c as int);
    assert(x == '0' <==> a == 0);
    assert(y == '0' <==> b == 0);
    assert(z == '0' <==> c == 0);
    let three = seq![x, y, z];
    assert(three.last() == z);
    assert(three.drop_last() =~= seq![x, y]);
    assert(seq![x, y].last() == y);
    assert(seq![x, y].drop_last() =~= seq![x]);
    assert(seq![x].last() == x);
    let p = just('0');
    assert(a > 0 ==> drop_trailing(seq![x], p) == seq![x]);
    assert(b > 0 ==> drop_trailing(seq![x, y], p) == seq![x, y]);
    assert(b == 0 ==> drop_trailing(seq![x, y], p) == drop_trailing(seq![x], p));
    assert(c == 0 ==> drop_trailing(three, p) == drop_trailing(seq![x, y], p));
    assert(c > 0 ==> drop_trailing(three, p) == three);
}

} // verus!
