//! Internet addresses, their text forms, and blocks of them.
use vstd::arithmetic::power2::pow2;
use vstd::prelude::*;

use crate::text::{
    chars_of, decimal, digit_char, find_from, first_at, has_at, just,
    law_texts_are_split_at_separators, lemma_first_at, lemma_first_at_is, occurs, pieces,
    slice_text, split_char, texts,
};

verus! {

/// An address by its number.
#[derive(Clone, Copy)]
pub enum IpAddr {
    V4(u32),
    V6(u128),
}

// ---------------------------------------------------------------------------
// Text forms
// ---------------------------------------------------------------------------
/// A decimal digit.
pub open spec fn is_digit(c: char) -> bool {
    '0' <= c && c <= '9'
}

/// The value of a hexadecimal digit in either case.
pub open spec fn hex_value(c: char) -> Option<int> {
    if '0' <= c && c <= '9' {
        Some(c as int - '0' as int)
    } else if 'a' <= c && c <= 'f' {
        Some(c as int - 'a' as int + 10)
    } else if 'A' <= c && c <= 'F' {
        Some(c as int - 'A' as int + 10)
    } else {
        None
    }
}

/// The number that a row of decimal digits denotes.
pub open spec fn digits_value(s: Seq<char>) -> int
    decreases s.len(),
{
    if s.len() == 0 {
        0
    } else {
        digits_value(s.drop_last()) * 10 + (s.last() as int - '0' as int)
    }
}

/// All characters are decimal digits.
pub open spec fn all_digits(s: Seq<char>) -> bool {
    forall|i: int| 0 <= i < s.len() ==> is_digit(#[trigger] s[i])
}

/// The number that a text denotes: decimal digits, with at most a plus sign before them.
pub open spec fn unsigned_value(s: Seq<char>) -> Option<int> {
    let digits = if s.len() > 0 && s[0] == '+' {
        s.skip(1)
    } else {
        s
    };
    if digits.len() > 0 && all_digits(digits) {
        Some(digits_value(digits))
    } else {
        None
    }
}

/// One of the four numbers of a dotted address: up to three digits, no leading zero, at
/// most 255.
pub open spec fn octet_value(s: Seq<char>) -> Option<int> {
    if 1 <= s.len() <= 3 && all_digits(s) && (s[0] != '0' || s.len() == 1) && digits_value(s)
        <= 255 {
        Some(digits_value(s))
    } else {
        None
    }
}

/// The number of a dotted address.
pub open spec fn v4_value(s: Seq<char>) -> Option<int> {
    let parts = pieces(s, just('.'));
    if parts.len() == 4 && octet_value(parts[0]) is Some && octet_value(parts[1]) is Some
        && octet_value(parts[2]) is Some && octet_value(parts[3]) is Some {
        Some(
            octet_value(parts[0])->0 * 0x100_0000 + octet_value(parts[1])->0 * 0x1_0000
                + octet_value(parts[2])->0 * 0x100 + octet_value(parts[3])->0,
        )
    } else {
        None
    }
}

/// The number that a row of hexadecimal digits denotes, where all are digits.
pub open spec fn hex_row_value(s: Seq<char>) -> Option<int>
    decreases s.len(),
{
    if s.len() == 0 {
        Some(0)
    } else {
        match (hex_row_value(s.drop_last()), hex_value(s.last())) {
            (Some(high), Some(low)) => Some(high * 16 + low),
            _ => None,
        }
    }
}

/// A group of an IPv6 address: one to four hexadecimal digits.
pub open spec fn group_value(s: Seq<char>) -> Option<int> {
    if 1 <= s.len() <= 4 {
        hex_row_value(s)
    } else {
        None
    }
}

/// The groups of a list of pieces, where each is one.
pub open spec fn hex_groups(parts: Seq<Seq<char>>) -> Option<Seq<int>>
    decreases parts.len(),
{
    if parts.len() == 0 {
        Some(Seq::empty())
    } else {
        match (hex_groups(parts.drop_last()), group_value(parts.last())) {
            (Some(before), Some(g)) => Some(before.push(g)),
            _ => None,
        }
    }
}

/// The groups of a list of pieces, whose last may be a dotted address that counts for two.
pub open spec fn end_groups(parts: Seq<Seq<char>>) -> Option<Seq<int>> {
    match hex_groups(parts) {
        Some(groups) => Some(groups),
        None => if parts.len() == 0 {
            None
        } else {
            match (hex_groups(parts.drop_last()), v4_value(parts.last())) {
                (Some(before), Some(v)) => Some(before.push(v / 0x1_0000).push(v % 0x1_0000)),
                _ => None,
            }
        },
    }
}

/// The number of a row of groups.
pub open spec fn groups_value(groups: Seq<int>) -> int
    decreases groups.len(),
{
    if groups.len() == 0 {
        0
    } else {
        groups_value(groups.drop_last()) * 0x1_0000 + groups.last()
    }
}

/// `n` groups of zero.
pub open spec fn zeros(n: nat) -> Seq<int> {
    Seq::new(n, |i: int| 0)
}

/// The groups of a part beside the double colon, which may be empty.
pub open spec fn side_groups(s: Seq<char>, last: bool) -> Option<Seq<int>> {
    if s.len() == 0 {
        Some(Seq::empty())
    } else if last {
        end_groups(pieces(s, just(':')))
    } else {
        hex_groups(pieces(s, just(':')))
    }
}

/// The number of an IPv6 address: eight groups, or fewer with one double colon that stands
/// for at least one group of zero; the last two groups may be a dotted address.
pub open spec fn v6_value(s: Seq<char>) -> Option<int> {
    match first_at(s, "::"@, 0) {
        None => match end_groups(pieces(s, just(':'))) {
            Some(groups) => if groups.len() == 8 {
                Some(groups_value(groups))
            } else {
                None
            },
            None => None,
        },
        Some(at) => match (side_groups(s.take(at), false), side_groups(s.skip(at + 2), true)) {
            (Some(head), Some(tail)) => if head.len() + tail.len() <= 7 {
                Some(
                    groups_value(head + zeros((8 - head.len() - tail.len()) as nat) + tail),
                )
            } else {
                None
            },
            _ => None,
        },
    }
}

/// The address that a text denotes.
pub open spec fn ip_value(s: Seq<char>) -> Option<IpAddr> {
    match v4_value(s) {
        Some(v) => Some(IpAddr::V4(v as u32)),
        None => match v6_value(s) {
            Some(v) => Some(IpAddr::V6(v as u128)),
            None => None,
        },
    }
}

proof fn lemma_digits_bound(s: Seq<char>)
    requires
        all_digits(s),
    ensures
        0 <= digits_value(s),
        s.len() <= 1 ==> digits_value(s) <= 9,
        s.len() <= 2 ==> digits_value(s) <= 99,
        s.len() <= 3 ==> digits_value(s) <= 999,
    decreases s.len(),
{
    if s.len() > 0 {
        let t = s.drop_last();
        assert forall|i: int| 0 <= i < t.len() implies is_digit(#[trigger] t[i]) by {
            assert(t[i] == s[i]);
        }
        assert(is_digit(s[s.len() - 1]));
        lemma_digits_bound(t);
    }
}

/// The number that a text denotes, up to a limit.
pub fn parse_unsigned(text: &str, limit: u64) -> (res: Option<u64>)
    ensures
        match res {
            Some(n) => unsigned_value(text@) == Some(n as int) && n <= limit,
            None => unsigned_value(text@) is None || unsigned_value(text@)->0 > limit,
        },
{
    let v = chars_of(text);
    let start: usize = if v.len() > 0 && v[0] == '+' {
        1
    } else {
        0
    };
    let ghost digits = if text@.len() > 0 && text@[0] == '+' {
        text@.skip(1)
    } else {
        text@
    };
    assert(digits =~= v@.skip(start as int));
    if start == v.len() {
        return None;
    }
    let mut n: u64 = 0;
    let mut i: usize = start;
    let mut over: bool = false;
    assert(digits.take(0).len() == 0);
    while i < v.len()
        invariant
            start <= i <= v@.len(),
            v@ == text@,
            digits == v@.skip(start as int),
            digits == if text@.len() > 0 && text@[0] == '+' {
                text@.skip(1)
            } else {
                text@
            },
            all_digits(digits.take(i - start)),
            !over ==> n == digits_value(digits.take(i - start)) && n <= limit,
            over ==> digits_value(digits.take(i - start)) > limit,
        decreases v@.len() - i,
    {
        let c = v[i];
        proof {
            assert(digits[i - start] == c);
            assert(digits.take(i - start + 1).drop_last() =~= digits.take(i - start));
            assert(digits.take(i - start + 1).last() == c);
        }
        if !('0' <= c && c <= '9') {
            assert(!is_digit(digits[i - start]));
            return None;
        }
        proof {
            assert forall|k: int| 0 <= k < i - start + 1 implies is_digit(
                #[trigger] digits.take(i - start + 1)[k],
            ) by {
                if k < i - start {
                    assert(digits.take(i - start)[k] == digits.take(i - start + 1)[k]);
                }
            }
            lemma_digits_bound(digits.take(i - start));
        }
        let d: u64 = (c as u8 - 48) as u64;
        if !over {
            if n > limit / 10 || d > limit - n * 10 {
                over = true;
            } else {
                n = n * 10 + d;
            }
        }
        i = i + 1;
    }
    assert(digits.take(v@.len() - start) =~= digits);
    if over {
        None
    } else {
        Some(n)
    }
}

fn parse_octet(text: &str) -> (res: Option<u32>)
    ensures
        match res {
            Some(n) => octet_value(text@) == Some(n as int) && n <= 255,
            None => octet_value(text@) is None,
        },
{
    let v = chars_of(text);
    if v.len() < 1 || v.len() > 3 {
        return None;
    }
    if v[0] == '0' && v.len() != 1 {
        return None;
    }
    let mut n: u32 = 0;
    let mut i: usize = 0;
    assert(v@.take(0).len() == 0);
    while i < v.len()
        invariant
            v@ == text@,
            i <= v@.len() <= 3,
            all_digits(v@.take(i as int)),
            n == digits_value(v@.take(i as int)),
            i == 0 ==> n == 0,
            i <= 1 ==> n <= 9,
            i <= 2 ==> n <= 99,
            n <= 999,
        decreases v@.len() - i,
    {
        let c = v[i];
        if !('0' <= c && c <= '9') {
            assert(!is_digit(v@[i as int]));
            return None;
        }
        proof {
            assert(v@.take(i + 1).drop_last() =~= v@.take(i as int));
            assert(v@.take(i + 1).last() == c);
            assert forall|k: int| 0 <= k < i + 1 implies is_digit(#[trigger] v@.take(i + 1)[k]) by {
                if k < i {
                    assert(v@.take(i as int)[k] == v@.take(i + 1)[k]);
                }
            }
        }
        n = n * 10 + (c as u8 - 48) as u32;
        i = i + 1;
    }
    assert(v@.take(v@.len() as int) =~= v@);
    if n <= 255 {
        Some(n)
    } else {
        None
    }
}

fn parse_v4(text: &str) -> (res: Option<u32>)
    ensures
        match res {
            Some(n) => v4_value(text@) == Some(n as int),
            None => v4_value(text@) is None,
        },
{
    let parts = split_char(text, '.');
    let ghost views = pieces(text@, just('.'));
    assert(texts(parts@) == views);
    if parts.len() != 4 {
        return None;
    }
    assert(parts@[0]@ == views[0] && parts@[1]@ == views[1] && parts@[2]@ == views[2]
        && parts@[3]@ == views[3]) by {
        assert(texts(parts@)[0] == parts@[0]@);
        assert(texts(parts@)[1] == parts@[1]@);
        assert(texts(parts@)[2] == parts@[2]@);
        assert(texts(parts@)[3] == parts@[3]@);
    }
    match (
        parse_octet(&parts[0]),
        parse_octet(&parts[1]),
        parse_octet(&parts[2]),
        parse_octet(&parts[3]),
    ) {
        (Some(a), Some(b), Some(c), Some(d)) => Some(
            a * 0x100_0000 + b * 0x1_0000 + c * 0x100 + d,
        ),
        _ => None,
    }
}

fn parse_group(text: &str) -> (res: Option<u32>)
    ensures
        match res {
            Some(n) => group_value(text@) == Some(n as int) && n <= 0xffff,
            None => group_value(text@) is None,
        },
{
    let v = chars_of(text);
    if v.len() < 1 || v.len() > 4 {
        return None;
    }
    let mut n: u32 = 0;
    let mut i: usize = 0;
    assert(v@.take(0).len() == 0);
    while i < v.len()
        invariant
            v@ == text@,
            i <= v@.len() <= 4,
            hex_row_value(v@.take(i as int)) == Some(n as int),
            i == 0 ==> n == 0,
            i <= 1 ==> n <= 0xf,
            i <= 2 ==> n <= 0xff,
            i <= 3 ==> n <= 0xfff,
            n <= 0xffff,
        decreases v@.len() - i,
    {
        let c = v[i];
        proof {
            assert(v@.take(i + 1).drop_last() =~= v@.take(i as int));
            assert(v@.take(i + 1).last() == c);
        }
        let d: u32 = if '0' <= c && c <= '9' {
            (c as u8 - 48) as u32
        } else if 'a' <= c && c <= 'f' {
            (c as u8 - 87) as u32
        } else if 'A' <= c && c <= 'F' {
            (c as u8 - 55) as u32
        } else {
            proof {
                assert(hex_row_value(v@.take(i + 1)) is None);
                lemma_hex_row_none(v@, i + 1);
            }
            return None;
        };
        n = n * 16 + d;
        i = i + 1;
    }
    assert(v@.take(v@.len() as int) =~= v@);
    Some(n)
}

proof fn lemma_hex_row_none(s: Seq<char>, i: int)
    requires
        0 <= i <= s.len(),
        hex_row_value(s.take(i)) is None,
    ensures
        hex_row_value(s) is None,
    decreases s.len() - i,
{
    if i == s.len() {
        assert(s.take(i) =~= s);
    } else {
        assert(s.take(i + 1).drop_last() =~= s.take(i));
        lemma_hex_row_none(s, i + 1);
    }
}

proof fn lemma_hex_groups_none(parts: Seq<Seq<char>>, i: int)
    requires
        0 <= i <= parts.len(),
        hex_groups(parts.take(i)) is None,
    ensures
        hex_groups(parts) is None,
    decreases parts.len() - i,
{
    if i == parts.len() {
        assert(parts.take(i) =~= parts);
    } else {
        assert(parts.take(i + 1).drop_last() =~= parts.take(i));
        lemma_hex_groups_none(parts, i + 1);
    }
}

/// The groups of a row of numbers.
spec fn group_seq(v: Seq<u32>) -> Seq<int> {
    v.map_values(|g: u32| g as int)
}

spec fn small(v: Seq<u32>) -> bool {
    forall|i: int| 0 <= i < v.len() ==> #[trigger] v[i] <= 0xffff
}

fn parse_groups(text: &str, last: bool) -> (res: Option<Vec<u32>>)
    ensures
        match res {
            Some(v) => small(v@) && Some(group_seq(v@)) == if last {
                end_groups(pieces(text@, just(':')))
            } else {
                hex_groups(pieces(text@, just(':')))
            },
            None => if last {
                end_groups(pieces(text@, just(':'))) is None
            } else {
                hex_groups(pieces(text@, just(':'))) is None
            },
        },
{
    let parts = split_char(text, ':');
    let ghost views = pieces(text@, just(':'));
    let mut out: Vec<u32> = Vec::new();
    let mut i: usize = 0;
    assert(group_seq(out@) =~= Seq::<int>::empty());
    while i < parts.len()
        invariant
            texts(parts@) == views,
            views == pieces(text@, just(':')),
            i <= parts@.len(),
            small(out@),
            hex_groups(views.take(i as int)) == Some(group_seq(out@)),
        decreases parts@.len() - i,
    {
        proof {
            assert(views[i as int] == parts@[i as int]@);
            assert(views.take(i + 1).drop_last() =~= views.take(i as int));
            assert(views.take(i + 1).last() == parts@[i as int]@);
        }
        let ghost before = out@;
        match parse_group(&parts[i]) {
            Some(g) => {
                out.push(g);
                assert(group_seq(out@) =~= group_seq(before).push(g as int));
            },
            None => {
                proof {
                    assert(hex_groups(views.take(i + 1)) is None);
                    lemma_hex_groups_none(views, i + 1);
                }
                if last && i + 1 == parts.len() {
                    assert(views.drop_last() =~= views.take(i as int));
                    assert(views.last() == parts@[i as int]@);
                    match parse_v4(&parts[i]) {
                        Some(v) => {
                            out.push(v / 0x1_0000);
                            out.push(v % 0x1_0000);
                            assert(group_seq(out@) =~= group_seq(before).push(
                                (v / 0x1_0000) as int,
                            ).push((v % 0x1_0000) as int));
                            return Some(out);
                        },
                        None => {
                            return None;
                        },
                    }
                }
                proof {
                    if i + 1 < views.len() {
                        assert(views.drop_last().take(i + 1) =~= views.take(i + 1));
                        lemma_hex_groups_none(views.drop_last(), i + 1);
                    }
                }
                return None;
            },
        }
        i = i + 1;
    }
    assert(views.take(parts@.len() as int) =~= views);
    Some(out)
}

fn parse_side(text: &str, last: bool) -> (res: Option<Vec<u32>>)
    ensures
        match res {
            Some(v) => small(v@) && side_groups(text@, last) == Some(group_seq(v@)),
            None => side_groups(text@, last) is None,
        },
{
    if text.is_empty() {
        let none: Vec<u32> = Vec::new();
        assert(group_seq(none@) =~= Seq::<int>::empty());
        Some(none)
    } else {
        parse_groups(text, last)
    }
}

spec fn cap(n: nat) -> int
    decreases n,
{
    if n == 0 {
        1
    } else {
        0x1_0000 * cap((n - 1) as nat)
    }
}

proof fn lemma_cap(n: nat)
    requires
        n <= 8,
    ensures
        1 <= cap(n) <= 0x1_0000_0000_0000_0000_0000_0000_0000_0000int,
{
    reveal_with_fuel(cap, 9);
}

/// The number of eight groups.
fn number_of(groups: &Vec<u32>) -> (res: u128)
    requires
        small(groups@),
        groups@.len() <= 8,
    ensures
        res == groups_value(group_seq(groups@)),
{
    let mut n: u128 = 0;
    let mut i: usize = 0;
    let ghost all = group_seq(groups@);
    assert(all.take(0).len() == 0);
    while i < groups.len()
        invariant
            small(groups@),
            all == group_seq(groups@),
            i <= groups@.len() <= 8,
            n == groups_value(all.take(i as int)),
            n < cap(i as nat),
        decreases groups@.len() - i,
    {
        proof {
            assert(all.take(i + 1).drop_last() =~= all.take(i as int));
            assert(all.take(i + 1).last() == groups@[i as int]);
            lemma_cap((i + 1) as nat);
            assert(n * 0x1_0000 + groups@[i as int] < cap((i + 1) as nat));
        }
        n = n * 0x1_0000 + groups[i] as u128;
        i = i + 1;
    }
    assert(all.take(groups@.len() as int) =~= all);
    n
}

fn parse_v6(text: &str) -> (res: Option<u128>)
    ensures
        match res {
            Some(n) => v6_value(text@) == Some(n as int),
            None => v6_value(text@) is None,
        },
{
    let v = chars_of(text);
    let total: usize = v.len();
    let colons = chars_of("::");
    proof {
        reveal_strlit("::");
    }
    match find_from(&v, &colons, 0) {
        None => match parse_groups(text, true) {
            Some(groups) => if groups.len() == 8 {
                Some(number_of(&groups))
            } else {
                None
            },
            None => None,
        },
        Some(at) => {
            let before = slice_text(&v, 0, at);
            let after = slice_text(&v, at + 2, total);
            proof {
                assert(before@ =~= text@.take(at as int));
                assert(after@ =~= text@.skip(at + 2));
            }
            match (parse_side(&before, false), parse_side(&after, true)) {
                (Some(head), Some(tail)) => {
                    if head.len() > 7 || tail.len() > 7 - head.len() {
                        return None;
                    }
                    let mut groups = head;
                    let fill: usize = 8 - groups.len() - tail.len();
                    let ghost first = groups@;
                    let mut k: usize = 0;
                    while k < fill
                        invariant
                            small(first),
                            small(groups@),
                            k <= fill <= 8,
                            groups@.len() == first.len() + k,
                            group_seq(groups@) == group_seq(first) + zeros(k as nat),
                        decreases fill - k,
                    {
                        let ghost prior = groups@;
                        groups.push(0);
                        assert(group_seq(groups@) =~= group_seq(prior).push(0));
                        assert(group_seq(first) + zeros((k + 1) as nat) =~= (group_seq(first)
                            + zeros(k as nat)).push(0));
                        k = k + 1;
                    }
                    let ghost second = groups@;
                    let mut j: usize = 0;
                    assert(group_seq(second) + group_seq(tail@).take(0) =~= group_seq(second));
                    while j < tail.len()
                        invariant
                            small(tail@),
                            small(groups@),
                            j <= tail@.len(),
                            groups@.len() == second.len() + j,
                            group_seq(groups@) == group_seq(second) + group_seq(tail@).take(
                                j as int,
                            ),
                        decreases tail@.len() - j,
                    {
                        let ghost prior = groups@;
                        groups.push(tail[j]);
                        assert(group_seq(groups@) =~= group_seq(prior).push(tail@[j as int] as int));
                        assert(group_seq(second) + group_seq(tail@).take(j + 1) =~= (group_seq(
                            second,
                        ) + group_seq(tail@).take(j as int)).push(tail@[j as int] as int));
                        j = j + 1;
                    }
                    assert(group_seq(tail@).take(tail@.len() as int) =~= group_seq(tail@));
                    Some(number_of(&groups))
                },
                _ => None,
            }
        },
    }
}

/// The address that a text denotes.
pub fn parse_ip(text: &str) -> (res: Option<IpAddr>)
    ensures
        res == ip_value(text@),
{
    match parse_v4(text) {
        Some(v) => Some(IpAddr::V4(v)),
        None => match parse_v6(text) {
            Some(v) => Some(IpAddr::V6(v)),
            None => None,
        },
    }
}

// ---------------------------------------------------------------------------
// Blocks
// ---------------------------------------------------------------------------
/// Two numbers of `width` bits agree in their first `bits` bits.
pub open spec fn same_prefix(width: nat, a: int, b: int, bits: int) -> bool {
    0 <= bits <= width && a / pow2((width - bits) as nat) as int == b / pow2(
        (width - bits) as nat,
    ) as int
}

/// An address lies in the block of an address and a prefix length.
pub open spec fn in_block(net: IpAddr, bits: int, ip: IpAddr) -> bool {
    match (net, ip) {
        (IpAddr::V4(net), IpAddr::V4(ip)) => same_prefix(32, net as int, ip as int, bits),
        (IpAddr::V6(net), IpAddr::V6(ip)) => same_prefix(128, net as int, ip as int, bits),
        _ => false,
    }
}

/// The block that a text denotes: an address, a slash and a prefix length.
pub open spec fn block_value(s: Seq<char>) -> Option<(IpAddr, int)> {
    match first_at(s, "/"@, 0) {
        Some(at) => match (unsigned_value(s.skip(at + 1)), ip_value(s.take(at))) {
            (Some(bits), Some(net)) => if bits <= 255 {
                Some((net, bits))
            } else {
                None
            },
            _ => None,
        },
        None => None,
    }
}

/// Whether an address lies in the block that a text denotes; none where the text denotes
/// no block.
pub open spec fn block_match(pattern: Seq<char>, ip: IpAddr) -> Option<bool> {
    match block_value(pattern) {
        Some((net, bits)) => Some(in_block(net, bits, ip)),
        None => None,
    }
}

fn same_prefix_32(a: u32, b: u32, bits: u32) -> (res: bool)
    requires
        bits <= 32,
    ensures
        res == same_prefix(32, a as int, b as int, bits as int),
{
    if bits == 0 {
        proof {
            vstd::arithmetic::power2::lemma2_to64();
            vstd::arithmetic::div_mod::lemma_basic_div(a as int, pow2(32) as int);
            vstd::arithmetic::div_mod::lemma_basic_div(b as int, pow2(32) as int);
        }
        true
    } else {
        let shift: u32 = 32 - bits;
        proof {
            vstd::bits::lemma_u32_shr_is_div(a, shift);
            vstd::bits::lemma_u32_shr_is_div(b, shift);
        }
        (a >> shift) == (b >> shift)
    }
}

fn same_prefix_128(a: u128, b: u128, bits: u32) -> (res: bool)
    requires
        bits <= 128,
    ensures
        res == same_prefix(128, a as int, b as int, bits as int),
{
    if bits == 0 {
        proof {
            vstd::arithmetic::power2::lemma2_to64();
            vstd::arithmetic::power2::lemma_pow2_adds(64, 64);
            assert(pow2(128) == 0x1_0000_0000_0000_0000_0000_0000_0000_0000);
            vstd::arithmetic::div_mod::lemma_basic_div(a as int, pow2(128) as int);
            vstd::arithmetic::div_mod::lemma_basic_div(b as int, pow2(128) as int);
        }
        true
    } else {
        let shift: u128 = (128 - bits) as u128;
        proof {
            vstd::bits::lemma_u128_shr_is_div(a, shift);
            vstd::bits::lemma_u128_shr_is_div(b, shift);
        }
        (a >> shift) == (b >> shift)
    }
}

/// Whether an address lies in the block that a text denotes; none where the text denotes
/// no block.
pub fn cidr_match(pattern: &str, ip: IpAddr) -> (res: Option<bool>)
    ensures
        res == block_match(pattern@, ip),
{
    let v = chars_of(pattern);
    let total: usize = v.len();
    let slash = chars_of("/");
    proof {
        reveal_strlit("/");
    }
    let at = match find_from(&v, &slash, 0) {
        Some(at) => at,
        None => {
            return None;
        },
    };
    let net_text = slice_text(&v, 0, at);
    let bits_text = slice_text(&v, at + 1, total);
    proof {
        assert(net_text@ =~= pattern@.take(at as int));
        assert(bits_text@ =~= pattern@.skip(at + 1));
    }
    let bits: u32 = match parse_unsigned(&bits_text, 255) {
        Some(bits) => bits as u32,
        None => {
            return None;
        },
    };
    let net = match parse_ip(&net_text) {
        Some(net) => net,
        None => {
            return None;
        },
    };
    match (net, ip) {
        (IpAddr::V4(net), IpAddr::V4(ip)) => Some(bits <= 32 && same_prefix_32(net, ip, bits)),
        (IpAddr::V6(net), IpAddr::V6(ip)) => Some(bits <= 128 && same_prefix_128(net, ip, bits)),
        _ => Some(false),
    }
}

// ---------------------------------------------------------------------------
// Public addresses
// ---------------------------------------------------------------------------
/// The address with these four numbers.
pub open spec fn dotted(a: int, b: int, c: int, d: int) -> IpAddr {
    IpAddr::V4((a * 0x100_0000 + b * 0x1_0000 + c * 0x100 + d) as u32)
}

/// The IPv6 address with these two leading groups and zeros.
pub open spec fn led_by(a: int, b: int) -> IpAddr {
    IpAddr::V6(
        (a * 0x1_0000_0000_0000_0000_0000_0000_0000 + b
            * 0x1_0000_0000_0000_0000_0000_0000) as u128,
    )
}

/// Private and special-use addresses are not public, whether or not they can be reached: this
/// network, private, shared, loopback, link-local, protocol, documentation, name service, relay,
/// benchmarking, multicast, reserved and broadcast.
pub open spec fn public_v4(ip: u32) -> bool {
    let a = ip / 0x100_0000;
    let b = ip / 0x1_0000 % 0x100;
    let c = ip / 0x100 % 0x100;
    !(a == 0 || a == 10 || a == 127 || (a == 100 && 64 <= b <= 127) || (a == 169 && b == 254) || (a
        == 172 && 16 <= b <= 31) || (a == 192 && b == 0 && (c == 0 || c == 2)) || (a == 192 && b
        == 31 && c == 196) || (a == 192 && b == 52 && c == 193) || (a == 192 && b == 88 && c == 99)
        || (a == 192 && b == 175 && c == 48) || (a == 192 && b == 168) || (a == 198 && 18 <= b <= 19)
        || (a == 198 && b == 51 && c == 100) || (a == 203 && b == 0 && c == 113) || 224 <= a)
}

/// An IPv4-mapped address is public where the IPv4 address in it is. Of the others, private
/// and special-use addresses are not: unspecified, loopback and IPv4-compatible, translated,
/// discard-only and dummy, protocol, documentation, 6to4, name service, segment routing,
/// unique-local, link-local, site-local and multicast.
pub open spec fn public_v6(ip: u128) -> bool {
    let lead = ip / 0x1_0000_0000_0000_0000_0000_0000_0000;
    let two = ip / 0x1_0000_0000_0000_0000_0000_0000;
    let three = ip / 0x1_0000_0000_0000_0000_0000;
    let four = ip / 0x1_0000_0000_0000_0000;
    let six = ip / 0x1_0000_0000;
    if six == 0xffff {
        public_v4((ip % 0x1_0000_0000) as u32)
    } else {
        !(six == 0 || six == 0x64_ff9b_0000_0000_0000_0000 || three == 0x64_ff9b_0001 || 0x100_0000_0000_0000
            <= four <= 0x100_0000_0000_0001 || three == 0x2620_004f_8000 || 0x2001_0000 <= two <= 0x2001_01ff || two == 0x2001_0db8
            || lead == 0x2002 || 0x3fff_0000 <= two <= 0x3fff_0fff || lead == 0x5f00 || 0xfc00
            <= lead <= 0xfdff || 0xfe80 <= lead <= 0xfeff || 0xff00 <= lead)
    }
}

/// An address of the public internet.
pub open spec fn is_public(ip: IpAddr) -> bool {
    match ip {
        IpAddr::V4(ip) => public_v4(ip),
        IpAddr::V6(ip) => public_v6(ip),
    }
}

fn is_public_v4(ip: u32) -> (res: bool)
    ensures
        res == public_v4(ip),
{
    let a: u32 = ip / 0x100_0000;
    let b: u32 = ip / 0x1_0000 % 0x100;
    let c: u32 = ip / 0x100 % 0x100;
    let this_network = a == 0;
    let private = a == 10 || (a == 172 && 16 <= b && b <= 31) || (a == 192 && b == 168);
    let loopback = a == 127;
    let link_local = a == 169 && b == 254;
    let shared = a == 100 && 64 <= b && b <= 127;
    let protocol = a == 192 && b == 0 && c == 0;
    let documentation = (a == 192 && b == 0 && c == 2) || (a == 198 && b == 51 && c == 100) || (a
        == 203 && b == 0 && c == 113);
    let relay = a == 192 && ((b == 52 && c == 193) || (b == 88 && c == 99));
    let names = a == 192 && ((b == 31 && c == 196) || (b == 175 && c == 48));
    let benchmarking = a == 198 && 18 <= b && b <= 19;
    let multicast_or_reserved = 224 <= a;
    !(this_network || private || loopback || link_local || shared || protocol || documentation
        || relay || names || benchmarking || multicast_or_reserved)
}

fn is_public_v6(ip: u128) -> (res: bool)
    ensures
        res == public_v6(ip),
{
    let lead: u128 = ip / 0x1_0000_0000_0000_0000_0000_0000_0000;
    let two: u128 = ip / 0x1_0000_0000_0000_0000_0000_0000;
    let three: u128 = ip / 0x1_0000_0000_0000_0000_0000;
    let four: u128 = ip / 0x1_0000_0000_0000_0000;
    let six: u128 = ip / 0x1_0000_0000;
    if six == 0xffff {
        return is_public_v4((ip % 0x1_0000_0000) as u32);
    }
    let compatible = six == 0;
    let translated = six == 0x64_ff9b_0000_0000_0000_0000 || three == 0x64_ff9b_0001;
    let discard = 0x100_0000_0000_0000 <= four && four <= 0x100_0000_0000_0001;
    let names = three == 0x2620_004f_8000;
    let protocol = 0x2001_0000 <= two && two <= 0x2001_01ff;
    let documentation = two == 0x2001_0db8 || (0x3fff_0000 <= two && two <= 0x3fff_0fff);
    let six_to_four = lead == 0x2002;
    let routing = lead == 0x5f00;
    let unique_local = 0xfc00 <= lead && lead <= 0xfdff;
    let local = 0xfe80 <= lead && lead <= 0xfeff;
    let multicast = 0xff00 <= lead;
    !(compatible || translated || discard || protocol || documentation || six_to_four || names
        || routing || unique_local || local || multicast)
}

/// Whether an address is one of the public internet.
pub fn is_public_ip(ip: IpAddr) -> (res: bool)
    ensures
        res == is_public(ip),
{
    match ip {
        IpAddr::V4(ip) => is_public_v4(ip),
        IpAddr::V6(ip) => is_public_v6(ip),
    }
}

/// The addresses of a block are those from its first on, as many as the block is wide.
proof fn lemma_block_range(width: nat, net: int, ip: int, bits: int, size: int)
    requires
        0 <= bits <= width,
        size == pow2((width - bits) as nat),
        net % size == 0,
        same_prefix(width, net, ip, bits),
    ensures
        net <= ip < net + size,
{
    vstd::arithmetic::power2::lemma_pow2_pos((width - bits) as nat);
    vstd::arithmetic::div_mod::lemma_fundamental_div_mod(net, size);
    vstd::arithmetic::div_mod::lemma_fundamental_div_mod(ip, size);
    vstd::arithmetic::div_mod::lemma_mod_division_less_than_divisor(ip, size);
}

/// No address of these private and special-use blocks is public.
pub proof fn law_special_v4_blocks_are_not_public(ip: u32)
    ensures
        in_block(dotted(0, 0, 0, 0), 8, IpAddr::V4(ip)) ==> !is_public(IpAddr::V4(ip)),
        in_block(dotted(10, 0, 0, 0), 8, IpAddr::V4(ip)) ==> !is_public(IpAddr::V4(ip)),
        in_block(dotted(100, 64, 0, 0), 10, IpAddr::V4(ip)) ==> !is_public(IpAddr::V4(ip)),
        in_block(dotted(127, 0, 0, 0), 8, IpAddr::V4(ip)) ==> !is_public(IpAddr::V4(ip)),
        in_block(dotted(169, 254, 0, 0), 16, IpAddr::V4(ip)) ==> !is_public(IpAddr::V4(ip)),
        in_block(dotted(172, 16, 0, 0), 12, IpAddr::V4(ip)) ==> !is_public(IpAddr::V4(ip)),
        in_block(dotted(192, 0, 0, 0), 24, IpAddr::V4(ip)) ==> !is_public(IpAddr::V4(ip)),
        in_block(dotted(192, 0, 2, 0), 24, IpAddr::V4(ip)) ==> !is_public(IpAddr::V4(ip)),
        in_block(dotted(192, 31, 196, 0), 24, IpAddr::V4(ip)) ==> !is_public(IpAddr::V4(ip)),
        in_block(dotted(192, 52, 193, 0), 24, IpAddr::V4(ip)) ==> !is_public(IpAddr::V4(ip)),
        in_block(dotted(192, 88, 99, 0), 24, IpAddr::V4(ip)) ==> !is_public(IpAddr::V4(ip)),
        in_block(dotted(192, 168, 0, 0), 16, IpAddr::V4(ip)) ==> !is_public(IpAddr::V4(ip)),
        in_block(dotted(192, 175, 48, 0), 24, IpAddr::V4(ip)) ==> !is_public(IpAddr::V4(ip)),
        in_block(dotted(198, 18, 0, 0), 15, IpAddr::V4(ip)) ==> !is_public(IpAddr::V4(ip)),
        in_block(dotted(198, 51, 100, 0), 24, IpAddr::V4(ip)) ==> !is_public(IpAddr::V4(ip)),
        in_block(dotted(203, 0, 113, 0), 24, IpAddr::V4(ip)) ==> !is_public(IpAddr::V4(ip)),
        in_block(dotted(224, 0, 0, 0), 4, IpAddr::V4(ip)) ==> !is_public(IpAddr::V4(ip)),
        in_block(dotted(240, 0, 0, 0), 4, IpAddr::V4(ip)) ==> !is_public(IpAddr::V4(ip)),
{
    vstd::arithmetic::power2::lemma2_to64();
    vstd::arithmetic::power2::lemma2_to64_rest();
    if in_block(dotted(0, 0, 0, 0), 8, IpAddr::V4(ip)) {
        lemma_block_range(32, 0x0, ip as int, 8, 0x1000000);
    }
    if in_block(dotted(10, 0, 0, 0), 8, IpAddr::V4(ip)) {
        lemma_block_range(32, 0xa000000, ip as int, 8, 0x1000000);
    }
    if in_block(dotted(100, 64, 0, 0), 10, IpAddr::V4(ip)) {
        lemma_block_range(32, 0x64400000, ip as int, 10, 0x400000);
    }
    if in_block(dotted(127, 0, 0, 0), 8, IpAddr::V4(ip)) {
        lemma_block_range(32, 0x7f000000, ip as int, 8, 0x1000000);
    }
    if in_block(dotted(169, 254, 0, 0), 16, IpAddr::V4(ip)) {
        lemma_block_range(32, 0xa9fe0000, ip as int, 16, 0x10000);
    }
    if in_block(dotted(172, 16, 0, 0), 12, IpAddr::V4(ip)) {
        lemma_block_range(32, 0xac100000, ip as int, 12, 0x100000);
    }
    if in_block(dotted(192, 0, 0, 0), 24, IpAddr::V4(ip)) {
        lemma_block_range(32, 0xc0000000, ip as int, 24, 0x100);
    }
    if in_block(dotted(192, 0, 2, 0), 24, IpAddr::V4(ip)) {
        lemma_block_range(32, 0xc0000200, ip as int, 24, 0x100);
    }
    if in_block(dotted(192, 31, 196, 0), 24, IpAddr::V4(ip)) {
        lemma_block_range(32, 0xc01fc400, ip as int, 24, 0x100);
    }
    if in_block(dotted(192, 52, 193, 0), 24, IpAddr::V4(ip)) {
        lemma_block_range(32, 0xc034c100, ip as int, 24, 0x100);
    }
    if in_block(dotted(192, 88, 99, 0), 24, IpAddr::V4(ip)) {
        lemma_block_range(32, 0xc0586300, ip as int, 24, 0x100);
    }
    if in_block(dotted(192, 168, 0, 0), 16, IpAddr::V4(ip)) {
        lemma_block_range(32, 0xc0a80000, ip as int, 16, 0x10000);
    }
    if in_block(dotted(192, 175, 48, 0), 24, IpAddr::V4(ip)) {
        lemma_block_range(32, 0xc0af3000, ip as int, 24, 0x100);
    }
    if in_block(dotted(198, 18, 0, 0), 15, IpAddr::V4(ip)) {
        lemma_block_range(32, 0xc6120000, ip as int, 15, 0x20000);
    }
    if in_block(dotted(198, 51, 100, 0), 24, IpAddr::V4(ip)) {
        lemma_block_range(32, 0xc6336400, ip as int, 24, 0x100);
    }
    if in_block(dotted(203, 0, 113, 0), 24, IpAddr::V4(ip)) {
        lemma_block_range(32, 0xcb007100, ip as int, 24, 0x100);
    }
    if in_block(dotted(224, 0, 0, 0), 4, IpAddr::V4(ip)) {
        lemma_block_range(32, 0xe0000000, ip as int, 4, 0x10000000);
    }
    if in_block(dotted(240, 0, 0, 0), 4, IpAddr::V4(ip)) {
        lemma_block_range(32, 0xf0000000, ip as int, 4, 0x10000000);
    }
}

/// No address of these private and special-use blocks is public, and of the IPv4-mapped addresses
/// only those are whose IPv4 address is.
#[verifier::spinoff_prover]
pub proof fn law_special_v6_blocks_are_not_public(ip: u128)
    ensures
        in_block(IpAddr::V6(0xffff_0000_0000), 96, IpAddr::V6(ip)) ==> is_public(IpAddr::V6(ip))
            == is_public(IpAddr::V4((ip - 0xffff_0000_0000) as u32)),
        in_block(led_by(0, 0), 96, IpAddr::V6(ip)) ==> !is_public(IpAddr::V6(ip)),
        in_block(led_by(0x64, 0xff9b), 96, IpAddr::V6(ip)) ==> !is_public(IpAddr::V6(ip)),
        in_block(IpAddr::V6(0x64_ff9b_0001_0000_0000_0000_0000_0000), 48, IpAddr::V6(ip)) ==> !is_public(IpAddr::V6(ip)),
        in_block(led_by(0x100, 0x0), 64, IpAddr::V6(ip)) ==> !is_public(IpAddr::V6(ip)),
        in_block(IpAddr::V6(0x100_0000_0000_0001_0000_0000_0000_0000), 64, IpAddr::V6(ip)) ==> !is_public(IpAddr::V6(ip)),
        in_block(led_by(0x2001, 0x0), 23, IpAddr::V6(ip)) ==> !is_public(IpAddr::V6(ip)),
        in_block(led_by(0x2001, 0xdb8), 32, IpAddr::V6(ip)) ==> !is_public(IpAddr::V6(ip)),
        in_block(led_by(0x2002, 0x0), 16, IpAddr::V6(ip)) ==> !is_public(IpAddr::V6(ip)),
        in_block(IpAddr::V6(0x2620_004f_8000_0000_0000_0000_0000_0000), 48, IpAddr::V6(ip)) ==> !is_public(IpAddr::V6(ip)),
        in_block(led_by(0x3fff, 0x0), 20, IpAddr::V6(ip)) ==> !is_public(IpAddr::V6(ip)),
        in_block(led_by(0x5f00, 0x0), 16, IpAddr::V6(ip)) ==> !is_public(IpAddr::V6(ip)),
        in_block(led_by(0xfc00, 0x0), 7, IpAddr::V6(ip)) ==> !is_public(IpAddr::V6(ip)),
        in_block(led_by(0xfe80, 0x0), 10, IpAddr::V6(ip)) ==> !is_public(IpAddr::V6(ip)),
        in_block(led_by(0xfec0, 0x0), 10, IpAddr::V6(ip)) ==> !is_public(IpAddr::V6(ip)),
        in_block(led_by(0xff00, 0x0), 8, IpAddr::V6(ip)) ==> !is_public(IpAddr::V6(ip)),
{
    vstd::arithmetic::power2::lemma2_to64();
    vstd::arithmetic::power2::lemma2_to64_rest();
    vstd::arithmetic::power2::lemma_pow2_adds(64, 16);
    vstd::arithmetic::power2::lemma_pow2_adds(64, 32);
    vstd::arithmetic::power2::lemma_pow2_adds(64, 41);
    vstd::arithmetic::power2::lemma_pow2_adds(64, 44);
    vstd::arithmetic::power2::lemma_pow2_adds(64, 48);
    vstd::arithmetic::power2::lemma_pow2_adds(64, 54);
    vstd::arithmetic::power2::lemma_pow2_adds(64, 56);
    vstd::arithmetic::power2::lemma_pow2_adds(64, 57);
    if in_block(IpAddr::V6(0xffff_0000_0000), 96, IpAddr::V6(ip)) {
        lemma_block_range(128, 0xffff_0000_0000, ip as int, 96, 0x1_0000_0000);
    }
    if in_block(led_by(0, 0), 96, IpAddr::V6(ip)) {
        lemma_block_range(128, 0x0, ip as int, 96, 0x100000000);
    }
    if in_block(led_by(0x64, 0xff9b), 96, IpAddr::V6(ip)) {
        lemma_block_range(128, 0x64ff9b000000000000000000000000, ip as int, 96, 0x100000000);
    }
    if in_block(IpAddr::V6(0x64_ff9b_0001_0000_0000_0000_0000_0000), 48, IpAddr::V6(ip)) {
        lemma_block_range(128, 0x64ff9b000100000000000000000000, ip as int, 48, 0x100000000000000000000);
    }
    if in_block(led_by(0x100, 0x0), 64, IpAddr::V6(ip)) {
        lemma_block_range(128, 0x1000000000000000000000000000000, ip as int, 64, 0x10000000000000000);
    }
    if in_block(IpAddr::V6(0x100_0000_0000_0001_0000_0000_0000_0000), 64, IpAddr::V6(ip)) {
        lemma_block_range(128, 0x1000000000000010000000000000000, ip as int, 64, 0x10000000000000000);
    }
    if in_block(led_by(0x2001, 0x0), 23, IpAddr::V6(ip)) {
        lemma_block_range(128, 0x20010000000000000000000000000000, ip as int, 23, 0x200000000000000000000000000);
        assert(0x2001_0000 <= ip / 0x1_0000_0000_0000_0000_0000_0000 <= 0x2001_01ff);
        assert(ip / 0x1_0000_0000 != 0xffff);
        assert(!public_v6(ip));
    }
    if in_block(led_by(0x2001, 0xdb8), 32, IpAddr::V6(ip)) {
        lemma_block_range(128, 0x20010db8000000000000000000000000, ip as int, 32, 0x1000000000000000000000000);
    }
    if in_block(led_by(0x2002, 0x0), 16, IpAddr::V6(ip)) {
        lemma_block_range(128, 0x20020000000000000000000000000000, ip as int, 16, 0x10000000000000000000000000000);
    }
    if in_block(IpAddr::V6(0x2620_004f_8000_0000_0000_0000_0000_0000), 48, IpAddr::V6(ip)) {
        lemma_block_range(128, 0x2620004f800000000000000000000000, ip as int, 48, 0x100000000000000000000);
    }
    if in_block(led_by(0x3fff, 0x0), 20, IpAddr::V6(ip)) {
        lemma_block_range(128, 0x3fff0000000000000000000000000000, ip as int, 20, 0x1000000000000000000000000000);
        assert(0x3fff_0000 <= ip / 0x1_0000_0000_0000_0000_0000_0000 <= 0x3fff_0fff);
        assert(ip / 0x1_0000_0000 != 0xffff);
        assert(!public_v6(ip));
    }
    if in_block(led_by(0x5f00, 0x0), 16, IpAddr::V6(ip)) {
        lemma_block_range(128, 0x5f000000000000000000000000000000, ip as int, 16, 0x10000000000000000000000000000);
    }
    if in_block(led_by(0xfc00, 0x0), 7, IpAddr::V6(ip)) {
        lemma_block_range(128, 0xfc000000000000000000000000000000, ip as int, 7, 0x2000000000000000000000000000000);
        assert(0xfc00 <= ip / 0x1_0000_0000_0000_0000_0000_0000_0000 <= 0xfdff);
        assert(ip / 0x1_0000_0000 != 0xffff);
        assert(!public_v6(ip));
    }
    if in_block(led_by(0xfe80, 0x0), 10, IpAddr::V6(ip)) {
        lemma_block_range(128, 0xfe800000000000000000000000000000, ip as int, 10, 0x400000000000000000000000000000);
        assert(0xfe80 <= ip / 0x1_0000_0000_0000_0000_0000_0000_0000 <= 0xfeff);
        assert(ip / 0x1_0000_0000 != 0xffff);
        assert(!public_v6(ip));
    }
    if in_block(led_by(0xfec0, 0x0), 10, IpAddr::V6(ip)) {
        lemma_block_range(128, 0xfec00000000000000000000000000000, ip as int, 10, 0x400000000000000000000000000000);
        assert(0xfe80 <= ip / 0x1_0000_0000_0000_0000_0000_0000_0000 <= 0xfeff);
        assert(ip / 0x1_0000_0000 != 0xffff);
        assert(!public_v6(ip));
    }
    if in_block(led_by(0xff00, 0x0), 8, IpAddr::V6(ip)) {
        lemma_block_range(128, 0xff000000000000000000000000000000, ip as int, 8, 0x1000000000000000000000000000000);
    }
}

proof fn lemma_decimal_digits(n: nat)
    ensures
        decimal(n).len() > 0,
        all_digits(decimal(n)),
        digits_value(decimal(n)) == n,
        n > 0 ==> decimal(n)[0] != '0',
        decimal(0) == seq!['0'],
        n < 10 ==> decimal(n).len() == 1,
        10 <= n < 100 ==> decimal(n).len() == 2,
        100 <= n < 1000 ==> decimal(n).len() == 3,
    decreases n,
{
    if n < 10 {
        let s = decimal(n);
        assert(digits_value(s.drop_last()) == 0);
        assert(s.last() as int - '0' as int == n);
        assert(is_digit(s[0]));
    } else {
        lemma_decimal_digits(n / 10);
        let s = decimal(n);
        assert(s.drop_last() =~= decimal(n / 10));
        assert(s.last() as int - '0' as int == n % 10);
        assert forall|i: int| 0 <= i < s.len() implies is_digit(#[trigger] s[i]) by {
            if i < s.len() - 1 {
                assert(s[i] == decimal(n / 10)[i]);
            }
        }
        assert(s[0] == decimal(n / 10)[0]);
    }
    assert(decimal(0) =~= seq!['0']);
}

/// A number in decimal digits is read back, with a plus sign before it or without; a text that
/// holds anything else, or no digit, denotes no number.
pub proof fn law_numbers_are_read_back(n: nat, s: Seq<char>, i: int)
    ensures
        unsigned_value(decimal(n)) == Some(n as int),
        unsigned_value(seq!['+'] + decimal(n)) == Some(n as int),
        0 <= i < s.len() && !('0' <= s[i] && s[i] <= '9') && !(i == 0 && s[i] == '+')
            ==> unsigned_value(s) is None,
        s.len() == 0 ==> unsigned_value(s) is None,
        s.len() == 1 && s[0] == '+' ==> unsigned_value(s) is None,
{
    lemma_decimal_digits(n);
    let d = decimal(n);
    assert(is_digit(d[0]));
    assert((seq!['+'] + d).skip(1) =~= d);
    if 0 <= i < s.len() && !('0' <= s[i] && s[i] <= '9') && !(i == 0 && s[i] == '+') {
        if s[0] == '+' {
            assert(s.skip(1)[i - 1] == s[i]);
            assert(!is_digit(s.skip(1)[i - 1]));
        } else {
            assert(!is_digit(s[i]));
        }
    }
}

/// A part of a dotted address is a number up to 255 in decimal digits, and nothing else is.
pub proof fn law_octets_are_numbers(s: Seq<char>, n: int)
    ensures
        octet_value(s) == Some(n) <==> 0 <= n <= 255 && s == decimal(n as nat),
{
    if 0 <= n <= 255 && s == decimal(n as nat) {
        lemma_decimal_digits(n as nat);
    }
    if octet_value(s) == Some(n) {
        lemma_digits_bound(s);
        lemma_digits_are_decimal(s);
    }
}

proof fn lemma_digits_are_decimal(s: Seq<char>)
    requires
        s.len() > 0,
        all_digits(s),
        s[0] != '0' || s.len() == 1,
    ensures
        digits_value(s) >= 0,
        s.len() > 1 ==> digits_value(s) >= 10,
        s == decimal(digits_value(s) as nat),
    decreases s.len(),
{
    let t = s.drop_last();
    let last = s.last();
    assert(is_digit(s[s.len() - 1]));
    let v = last as int - '0' as int;
    assert(0 <= v < 10);
    assert(digit_char(v) == last);
    if s.len() == 1 {
        assert(digits_value(t) == 0);
        assert(digits_value(s) == v);
        assert(s =~= seq![digit_char(v)]);
    } else {
        assert(t[0] == s[0]);
        assert forall|i: int| 0 <= i < t.len() implies is_digit(#[trigger] t[i]) by {
            assert(t[i] == s[i]);
        }
        lemma_digits_are_decimal(t);
        let high = digits_value(t);
        if t.len() == 1 {
            assert(digits_value(t.drop_last()) == 0);
            assert(high == t.last() as int - '0' as int);
            assert(t.last() == t[0]);
            assert(high > 0);
        }
        let n = (high * 10 + v) as nat;
        assert(n / 10 == high as nat);
        assert(n % 10 == v as nat);
        assert(decimal(n) == decimal(high as nat).push(digit_char(v)));
        assert(s =~= t.push(last));
    }
}

/// A dotted address denotes the number that its four parts make, the first of them the highest;
/// a text that is no four such parts with dots between them is no dotted address.
pub proof fn law_dotted_addresses_are_read_back(a: nat, b: nat, c: nat, d: nat, s: Seq<char>)
    requires
        a <= 255,
        b <= 255,
        c <= 255,
        d <= 255,
    ensures
        v4_value(
            decimal(a) + seq!['.'] + (decimal(b) + seq!['.'] + (decimal(c) + seq!['.'] + decimal(
                d,
            ))),
        ) == Some((a * 0x100_0000 + b * 0x1_0000 + c * 0x100 + d) as int),
        v4_value(s) is Some ==> {
            let p = pieces(s, just('.'));
            &&& p.len() == 4
            &&& forall|i: int|
                0 <= i < 4 ==> octet_value(#[trigger] p[i]) is Some && p[i] == decimal(
                    octet_value(p[i])->0 as nat,
                )
        },
{
    let dot = just('.');
    lemma_decimal_digits(a);
    lemma_decimal_digits(b);
    lemma_decimal_digits(c);
    lemma_decimal_digits(d);
    let x = decimal(a);
    let y = decimal(b);
    let z = decimal(c);
    let w = decimal(d);
    assert forall|i: int| 0 <= i < x.len() implies !dot(#[trigger] x[i]) by {
        assert(is_digit(x[i]));
    }
    assert forall|i: int| 0 <= i < y.len() implies !dot(#[trigger] y[i]) by {
        assert(is_digit(y[i]));
    }
    assert forall|i: int| 0 <= i < z.len() implies !dot(#[trigger] z[i]) by {
        assert(is_digit(z[i]));
    }
    assert forall|i: int| 0 <= i < w.len() implies !dot(#[trigger] w[i]) by {
        assert(is_digit(w[i]));
    }
    let cd = z + seq!['.'] + w;
    let bcd = y + seq!['.'] + cd;
    law_texts_are_split_at_separators(x, '.', bcd, dot);
    law_texts_are_split_at_separators(y, '.', cd, dot);
    law_texts_are_split_at_separators(z, '.', w, dot);
    law_texts_are_split_at_separators(w, '.', w, dot);
    let p = pieces(x + seq!['.'] + bcd, dot);
    assert(p =~= seq![x, y, z, w]);
    law_octets_are_numbers(x, a as int);
    law_octets_are_numbers(y, b as int);
    law_octets_are_numbers(z, c as int);
    law_octets_are_numbers(w, d as int);
    if v4_value(s) is Some {
        let q = pieces(s, dot);
        law_octets_are_numbers(q[0], octet_value(q[0])->0);
        law_octets_are_numbers(q[1], octet_value(q[1])->0);
        law_octets_are_numbers(q[2], octet_value(q[2])->0);
        law_octets_are_numbers(q[3], octet_value(q[3])->0);
        assert forall|i: int| 0 <= i < 4 implies octet_value(#[trigger] q[i]) is Some && q[i]
            == decimal(octet_value(q[i])->0 as nat) by {
            assert(i == 0 || i == 1 || i == 2 || i == 3);
        }
    }
}

/// The digits of a group, and the groups of an address, count from the highest to the lowest;
/// digits are the ten figures and the letters from a to f in either case.
pub proof fn law_groups_count_from_the_highest(
    s: Seq<char>,
    c: char,
    groups: Seq<int>,
    g: int,
)
    ensures
        hex_value(c) == if 48 <= c as u32 <= 57 {
            Some(c as u32 - 48)
        } else if 97 <= c as u32 <= 102 {
            Some(c as u32 - 87)
        } else if 65 <= c as u32 <= 70 {
            Some(c as u32 - 55)
        } else {
            None
        },
        hex_row_value(s) is Some && hex_value(c) is Some ==> hex_row_value(s.push(c)) == Some(
            16 * hex_row_value(s)->0 + hex_value(c)->0,
        ),
        hex_row_value(s) is None || hex_value(c) is None ==> hex_row_value(s.push(c)) is None,
        hex_row_value(Seq::empty()) == Some(0int),
        group_value(s) is Some ==> 1 <= s.len() <= 4 && group_value(s) == hex_row_value(s),
        1 <= s.len() <= 4 && hex_row_value(s) is Some ==> group_value(s) is Some,
        groups_value(groups.push(g)) == groups_value(groups) * 65536 + g,
        groups_value(Seq::empty()) == 0,
{
    assert(s.push(c).drop_last() =~= s);
    assert(groups.push(g).drop_last() =~= groups);
}

/// The groups of pieces in a row are those of the first pieces and then those of the others, and
/// each piece is a group.
pub proof fn law_groups_stand_in_order(a: Seq<Seq<char>>, b: Seq<Seq<char>>, part: Seq<char>)
    ensures
        hex_groups(a) is Some && hex_groups(b) is Some ==> hex_groups(a + b) == Some(
            hex_groups(a)->0 + hex_groups(b)->0,
        ),
        hex_groups(a) is None || hex_groups(b) is None ==> hex_groups(a + b) is None,
        group_value(part) is Some ==> hex_groups(seq![part]) == Some(seq![group_value(part)->0]),
        group_value(part) is None ==> hex_groups(seq![part]) is None,
    decreases b.len(),
{
    let one = seq![part];
    assert(one.drop_last() =~= Seq::<Seq<char>>::empty());
    assert(hex_groups(one.drop_last()) == Some(Seq::<int>::empty()));
    assert(one.last() == part);
    if group_value(part) is Some {
        assert(Seq::<int>::empty().push(group_value(part)->0) =~= seq![group_value(part)->0]);
    }
    if b.len() == 0 {
        assert(a + b =~= a);
        assert(hex_groups(b) == Some(Seq::<int>::empty()));
        if hex_groups(a) is Some {
            assert(hex_groups(a)->0 + Seq::<int>::empty() =~= hex_groups(a)->0);
        }
    } else {
        law_groups_stand_in_order(a, b.drop_last(), part);
        assert((a + b).drop_last() =~= a + b.drop_last());
        assert((a + b).last() == b.last());
        if hex_groups(a) is Some && hex_groups(b) is Some {
            let x = hex_groups(a)->0;
            let y = hex_groups(b.drop_last())->0;
            let g = group_value(b.last())->0;
            assert((x + y).push(g) =~= x + y.push(g));
        }
    }
}

/// An address with eight groups is the number that they make. One with a double colon is the
/// number of the groups before it and behind it, with groups of zero between them that make up
/// eight; there is one such group at least.
pub proof fn law_double_colons_stand_for_zeros(
    s: Seq<char>,
    head: Seq<char>,
    tail: Seq<char>,
    n: nat,
)
    ensures
        !occurs(s, "::"@) && hex_groups(pieces(s, just(':'))) is Some && hex_groups(
            pieces(s, just(':')),
        )->0.len() == 8 ==> v6_value(s) == Some(
            groups_value(hex_groups(pieces(s, just(':')))->0),
        ),
        ({
            let h = hex_groups(pieces(head, just(':')));
            let t = hex_groups(pieces(tail, just(':')));
            head.len() > 0 && tail.len() > 0 && h is Some && t is Some && n >= 1 && h->0.len() + n
                + t->0.len() == 8 && first_at(head + "::"@ + tail, "::"@, 0) == Some(
                head.len() as int,
            ) ==> v6_value(head + "::"@ + tail) == Some(
                groups_value(h->0 + Seq::new(n, |i: int| 0int) + t->0),
            )
        }),
{
    reveal_strlit("::");
    lemma_first_at(s, "::"@, 0);
    let whole = head + "::"@ + tail;
    assert(whole.take(head.len() as int) =~= head);
    assert(whole.skip((head.len() + 2) as int) =~= tail);
    let h = hex_groups(pieces(head, just(':')));
    let t = hex_groups(pieces(tail, just(':')));
    if head.len() > 0 && tail.len() > 0 && h is Some && t is Some && h->0.len() + n + t->0.len()
        == 8 {
        assert(zeros((8 - h->0.len() - t->0.len()) as nat) =~= Seq::new(n, |i: int| 0int));
    }
}

/// A block of as many bits as an address has holds the one address, a block of no bits holds
/// every address of its kind, and each bit more makes a block that lies in the one before.
/// Addresses of two kinds lie in no common block.
pub proof fn law_blocks_narrow_bit_by_bit(net: u32, ip: u32, long: u128, bits: int)
    ensures
        in_block(IpAddr::V4(net), 32, IpAddr::V4(ip)) <==> net == ip,
        in_block(IpAddr::V4(net), 0, IpAddr::V4(ip)),
        in_block(IpAddr::V4(net), bits, IpAddr::V4(ip)) && bits > 0 ==> in_block(
            IpAddr::V4(net),
            bits - 1,
            IpAddr::V4(ip),
        ),
        in_block(IpAddr::V4(net), 24, IpAddr::V4(ip)) <==> net / 0x100 == ip / 0x100,
        in_block(IpAddr::V4(net), 8, IpAddr::V4(ip)) <==> net / 0x100_0000 == ip / 0x100_0000,
        !in_block(IpAddr::V4(net), bits, IpAddr::V6(long)),
        !in_block(IpAddr::V6(long), bits, IpAddr::V4(ip)),
        in_block(IpAddr::V6(long), 128, IpAddr::V6(ip as u128)) <==> long == ip as u128,
        bits < 0 || bits > 32 ==> !in_block(IpAddr::V4(net), bits, IpAddr::V4(ip)),
{
    vstd::arithmetic::power2::lemma2_to64();
    vstd::arithmetic::div_mod::lemma_basic_div(net as int, pow2(32) as int);
    vstd::arithmetic::div_mod::lemma_basic_div(ip as int, pow2(32) as int);
    vstd::arithmetic::div_mod::lemma_div_basics(net as int);
    vstd::arithmetic::div_mod::lemma_div_basics(ip as int);
    vstd::arithmetic::div_mod::lemma_div_basics(long as int);
    if 0 < bits <= 32 {
        let k = (32 - bits) as nat;
        vstd::arithmetic::power2::lemma_pow2_pos(k);
        vstd::arithmetic::power2::lemma_pow2_unfold(k + 1);
        let p = pow2(k) as int;
        vstd::arithmetic::div_mod::lemma_div_denominator(net as int, p, 2);
        vstd::arithmetic::div_mod::lemma_div_denominator(ip as int, p, 2);
        assert(pow2(k + 1) as int == p * 2) by (nonlinear_arith)
            requires
                pow2(k + 1) as int == 2 * p,
        ;
    }
}

/// A block is written as an address, a slash and a number of bits; it is read back as both.
pub proof fn law_blocks_are_read_back(a: Seq<char>, bits: nat, ip: IpAddr)
    requires
        ip_value(a) is Some,
        !a.contains('/'),
        bits <= 255,
    ensures
        block_value(a + "/"@ + decimal(bits)) == Some((ip_value(a)->0, bits as int)),
        block_match(a + "/"@ + decimal(bits), ip) == Some(in_block(ip_value(a)->0, bits as int, ip)),
        block_value(a) is None,
{
    reveal_strlit("/");
    let s = a + "/"@ + decimal(bits);
    let at = a.len() as int;
    assert(s.subrange(at, at + 1) =~= "/"@);
    assert(has_at(s, "/"@, at));
    assert forall|j: int| 0 <= j < at implies !has_at(s, "/"@, j) by {
        assert(s.subrange(j, j + 1)[0] == a[j]);
    }
    lemma_first_at_is(s, "/"@, 0, at);
    assert(s.take(at) =~= a);
    assert(s.skip(at + 1) =~= decimal(bits));
    law_numbers_are_read_back(bits, a, 0);
    lemma_first_at(a, "/"@, 0);
    if first_at(a, "/"@, 0) is Some {
        let k = first_at(a, "/"@, 0)->0;
        assert(a.subrange(k, k + 1)[0] == a[k]);
    }
}

/// A double colon may stand at the beginning of an address, where all that is missing is zero.
pub proof fn law_leading_double_colons_stand_for_zeros(tail: Seq<char>, n: nat)
    ensures
        tail.len() == 0 ==> v6_value("::"@ + tail) == Some(groups_value(zeros(8))),
        ({
            let t = hex_groups(pieces(tail, just(':')));
            tail.len() > 0 && t is Some && n >= 1 && n + t->0.len() == 8 ==> v6_value(
                "::"@ + tail,
            ) == Some(groups_value(Seq::new(n, |i: int| 0int) + t->0))
        }),
{
    reveal_strlit("::");
    let s = "::"@ + tail;
    assert(s.subrange(0, 2) =~= "::"@);
    assert(has_at(s, "::"@, 0));
    assert(first_at(s, "::"@, 0) == Some(0int));
    assert(s.take(0).len() == 0);
    assert(s.skip(2) =~= tail);
    let none = Seq::<int>::empty();
    let t = hex_groups(pieces(tail, just(':')));
    if tail.len() == 0 {
        assert(none + zeros(8) + none =~= zeros(8));
    } else if t is Some && n >= 1 && n + t->0.len() == 8 {
        assert(none + zeros(n) + t->0 =~= Seq::new(n, |i: int| 0int) + t->0);
    }
}

} // verus!
