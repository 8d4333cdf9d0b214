//! Orders, and lists in order.
use vstd::prelude::*;

use crate::text::chars_of;

verus! {

// ---------------------------------------------------------------------------
// Models
// ---------------------------------------------------------------------------
/// One text comes before another in the order of their characters.
pub open spec fn text_less(a: Seq<char>, b: Seq<char>) -> bool
    decreases a.len(),
{
    if b.len() == 0 {
        false
    } else if a.len() == 0 {
        true
    } else if a[0] == b[0] {
        text_less(a.drop_first(), b.drop_first())
    } else {
        a[0] < b[0]
    }
}

/// One pair of texts comes before another: by the first text, then by the second.
pub open spec fn pair_less(a: (Seq<char>, Seq<char>), b: (Seq<char>, Seq<char>)) -> bool {
    text_less(a.0, b.0) || (a.0 == b.0 && text_less(a.1, b.1))
}

/// The order of texts.
pub open spec fn text_order() -> spec_fn(Seq<char>, Seq<char>) -> bool {
    |a: Seq<char>, b: Seq<char>| text_less(a, b)
}

/// A list in order with one more item: it stands behind all that it does not come before.
pub open spec fn placed<A>(s: Seq<A>, x: A, before: spec_fn(A, A) -> bool) -> Seq<A>
    decreases s.len(),
{
    if s.len() > 0 && before(x, s.last()) {
        placed(s.drop_last(), x, before).push(s.last())
    } else {
        s.push(x)
    }
}

/// The items of a list in order; those of which none comes before the other stay as they were.
pub open spec fn ordered<A>(s: Seq<A>, before: spec_fn(A, A) -> bool) -> Seq<A>
    decreases s.len(),
{
    if s.len() == 0 {
        s
    } else {
        placed(ordered(s.drop_last(), before), s.last(), before)
    }
}

/// No item of a list comes before one that stands ahead of it.
pub open spec fn in_order<A>(s: Seq<A>, before: spec_fn(A, A) -> bool) -> bool {
    forall|i: int, j: int| 0 <= i < j < s.len() ==> !before(#[trigger] s[j], #[trigger] s[i])
}

/// An order: what comes before is not come before, and what is not come before adds up.
pub open spec fn is_ordering<A>(before: spec_fn(A, A) -> bool) -> bool {
    &&& forall|x: A, y: A| #[trigger] before(x, y) ==> !before(y, x)
    &&& forall|x: A, y: A, z: A|
        !(#[trigger] before(x, y)) && !(#[trigger] before(y, z)) ==> !before(x, z)
}

/// An order in which of two different items one comes before the other.
pub open spec fn is_total<A>(before: spec_fn(A, A) -> bool) -> bool {
    &&& is_ordering(before)
    &&& forall|x: A, y: A| x != y ==> #[trigger] before(x, y) || before(y, x)
}

/// The views of some items.
pub open spec fn item_views<T: View>(s: Seq<T>) -> Seq<T::V> {
    s.map_values(|x: T| x@)
}

// ---------------------------------------------------------------------------
// Code
// ---------------------------------------------------------------------------
/// Whether one text comes before another.
pub fn text_before(a: &str, b: &str) -> (res: bool)
    ensures
        res == text_less(a@, b@),
{
    let u = chars_of(a);
    let v = chars_of(b);
    let mut i: usize = 0;
    assert(u@.skip(0) =~= u@);
    assert(v@.skip(0) =~= v@);
    while i < u.len() && i < v.len() && u[i] == v[i]
        invariant
            u@ == a@,
            v@ == b@,
            i <= u@.len(),
            i <= v@.len(),
            text_less(a@, b@) == text_less(u@.skip(i as int), v@.skip(i as int)),
        decreases u@.len() - i,
    {
        assert(u@.skip(i as int).drop_first() =~= u@.skip(i + 1));
        assert(v@.skip(i as int).drop_first() =~= v@.skip(i + 1));
        i = i + 1;
    }
    if i >= v.len() {
        false
    } else if i >= u.len() {
        true
    } else {
        u[i] < v[i]
    }
}

/// An item that has its place among others of its kind.
pub trait Ranked: View + Sized {
    /// One item comes before another.
    spec fn precedes(a: Self::V, b: Self::V) -> bool;

    /// Whether this item comes before another.
    fn comes_before(&self, other: &Self) -> (res: bool)
        ensures
            res == Self::precedes(self@, other@),
    ;
}

/// The order of a kind of items.
pub open spec fn rank_order<T: Ranked>() -> spec_fn(T::V, T::V) -> bool {
    |a: T::V, b: T::V| T::precedes(a, b)
}

impl Ranked for (String, String) {
    open spec fn precedes(a: (Seq<char>, Seq<char>), b: (Seq<char>, Seq<char>)) -> bool {
        pair_less(a, b)
    }

    fn comes_before(&self, other: &Self) -> (res: bool) {
        text_before(&self.0, &other.0) || (self.0 == other.0 && text_before(&self.1, &other.1))
    }
}

impl Ranked for String {
    open spec fn precedes(a: Seq<char>, b: Seq<char>) -> bool {
        text_less(a, b)
    }

    fn comes_before(&self, other: &Self) -> (res: bool) {
        text_before(self, other)
    }
}

/// Puts an item in its place.
pub fn place<T: Ranked>(list: &mut Vec<T>, x: T)
    ensures
        item_views(final(list)@) == placed(item_views(old(list)@), x@, rank_order::<T>()),
{
    let ghost all = item_views(list@);
    let ghost order = rank_order::<T>();
    let mut i: usize = list.len();
    assert(all.take(i as int) =~= all);
    assert(all.skip(i as int) =~= Seq::empty());
    assert(placed(all, x@, order) =~= placed(all.take(i as int), x@, order) + all.skip(i as int));
    while i > 0 && x.comes_before(&list[i - 1])
        invariant
            all == item_views(list@),
            order == rank_order::<T>(),
            i <= list@.len(),
            placed(all, x@, order) == placed(all.take(i as int), x@, order) + all.skip(i as int),
        decreases i,
    {
        proof {
            assert(all.take(i as int).drop_last() =~= all.take(i - 1));
            assert(all.take(i as int).last() == list@[i - 1]@);
            assert(all.skip(i - 1) =~= seq![all[i - 1]] + all.skip(i as int));
            assert(placed(all.take(i as int), x@, order) + all.skip(i as int) =~= placed(
                all.take(i - 1),
                x@,
                order,
            ) + all.skip(i - 1));
        }
        i = i - 1;
    }
    proof {
        if i > 0 {
            assert(all.take(i as int).last() == list@[i - 1]@);
        }
        assert(placed(all.take(i as int), x@, order) == all.take(i as int).push(x@));
    }
    list.insert(i, x);
    assert(item_views(list@) =~= all.take(i as int).push(x@) + all.skip(i as int));
}

/// Puts a list in order.
pub fn in_rank_order<T: Ranked>(list: Vec<T>) -> (res: Vec<T>)
    ensures
        item_views(res@) == ordered(item_views(list@), rank_order::<T>()),
{
    let mut rest = list;
    let ghost all = item_views(list@);
    let ghost mut done: int = 0;
    let mut out: Vec<T> = Vec::new();
    proof {
        assert(all.skip(0) =~= all);
        assert(item_views(out@) =~= ordered(all.take(0), rank_order::<T>()));
    }
    while rest.len() > 0
        invariant
            0 <= done <= all.len(),
            item_views(rest@) == all.skip(done),
            item_views(out@) == ordered(all.take(done), rank_order::<T>()),
        decreases rest@.len(),
    {
        let ghost before = rest@;
        let x = rest.remove(0);
        proof {
            assert(item_views(before)[0] == before[0]@);
            assert(item_views(rest@) =~= item_views(before).remove(0));
            assert(all.skip(done).remove(0) =~= all.skip(done + 1));
            assert(all.take(done + 1).drop_last() =~= all.take(done));
            assert(all.take(done + 1).last() == x@);
        }
        place(&mut out, x);
        proof {
            done = done + 1;
        }
    }
    proof {
        assert(item_views(rest@).len() == 0);
        assert(all.take(done) =~= all);
    }
    out
}

// ---------------------------------------------------------------------------
// Laws
// ---------------------------------------------------------------------------
proof fn lemma_text_less_asymmetric(a: Seq<char>, b: Seq<char>)
    ensures
        text_less(a, b) ==> !text_less(b, a),
        a != b ==> text_less(a, b) || text_less(b, a),
    decreases a.len(),
{
    if a.len() > 0 && b.len() > 0 && a[0] == b[0] {
        lemma_text_less_asymmetric(a.drop_first(), b.drop_first());
        if a.drop_first() == b.drop_first() {
            assert(a =~= seq![a[0]] + a.drop_first());
            assert(b =~= seq![b[0]] + b.drop_first());
        }
    } else if a.len() == 0 && b.len() == 0 {
        assert(a =~= b);
    }
}

proof fn lemma_text_less_transitive(a: Seq<char>, b: Seq<char>, c: Seq<char>)
    ensures
        !text_less(a, b) && !text_less(b, c) ==> !text_less(a, c),
    decreases a.len(),
{
    if a.len() > 0 && b.len() > 0 && c.len() > 0 && a[0] == b[0] && b[0] == c[0] {
        lemma_text_less_transitive(a.drop_first(), b.drop_first(), c.drop_first());
    }
}

/// The order of texts is an order, and tells every two of them apart.
pub proof fn law_text_order_is_total()
    ensures
        is_total(text_order()),
{
    let before = text_order();
    assert forall|x: Seq<char>, y: Seq<char>| #[trigger] before(x, y) implies !before(y, x) by {
        lemma_text_less_asymmetric(x, y);
    }
    assert forall|x: Seq<char>, y: Seq<char>, z: Seq<char>|
        !(#[trigger] before(x, y)) && !(#[trigger] before(y, z)) implies !before(x, z) by {
        lemma_text_less_transitive(x, y, z);
    }
    assert forall|x: Seq<char>, y: Seq<char>| x != y implies #[trigger] before(x, y) || before(
        y,
        x,
    ) by {
        lemma_text_less_asymmetric(x, y);
    }
}

/// The order of pairs is an order, and tells every two of them apart.
pub proof fn law_pair_order_is_total()
    ensures
        is_total(rank_order::<(String, String)>()),
{
    let before = rank_order::<(String, String)>();
    assert forall|x: (Seq<char>, Seq<char>), y: (Seq<char>, Seq<char>)| #[trigger]
        before(x, y) implies !before(y, x) by {
        lemma_text_less_asymmetric(x.0, y.0);
        lemma_text_less_asymmetric(x.1, y.1);
    }
    assert forall|x: (Seq<char>, Seq<char>), y: (Seq<char>, Seq<char>), z: (Seq<char>, Seq<char>)|
        !(#[trigger] before(x, y)) && !(#[trigger] before(y, z)) implies !before(x, z) by {
        lemma_text_less_transitive(x.0, y.0, z.0);
        lemma_text_less_transitive(x.1, y.1, z.1);
        lemma_text_less_asymmetric(x.0, y.0);
        lemma_text_less_asymmetric(y.0, z.0);
        lemma_text_less_asymmetric(x.0, z.0);
    }
    assert forall|x: (Seq<char>, Seq<char>), y: (Seq<char>, Seq<char>)| x != y implies #[trigger] before(
        x,
        y,
    ) || before(y, x) by {
        lemma_text_less_asymmetric(x.0, y.0);
        lemma_text_less_asymmetric(x.1, y.1);
    }
}

/// Lists with the same items hold the same, and are equally long.
pub(crate) proof fn lemma_same_items<A>(s: Seq<A>, t: Seq<A>, y: A)
    requires
        s.to_multiset() == t.to_multiset(),
    ensures
        s.contains(y) == t.contains(y),
        s.len() == t.len(),
{
    broadcast use vstd::seq_lib::group_to_multiset_ensures;

    assert(s.contains(y) <==> s.to_multiset().count(y) > 0);
    assert(t.contains(y) <==> t.to_multiset().count(y) > 0);
    assert(s.len() == s.to_multiset().len());
    assert(t.len() == t.to_multiset().len());
}

proof fn lemma_placed<A>(s: Seq<A>, x: A, before: spec_fn(A, A) -> bool)
    ensures
        placed(s, x, before).to_multiset() == s.push(x).to_multiset(),
        is_ordering(before) && in_order(s, before) ==> in_order(placed(s, x, before), before),
    decreases s.len(),
{
    broadcast use vstd::seq_lib::group_to_multiset_ensures;

    let t = placed(s, x, before);
    if s.len() > 0 && before(x, s.last()) {
        let front = s.drop_last();
        let rest = placed(front, x, before);
        lemma_placed(front, x, before);
        assert(s =~= front.push(s.last()));
        assert(t.to_multiset() =~= s.push(x).to_multiset());
        if is_ordering(before) && in_order(s, before) {
            assert(in_order(front, before)) by {
                assert forall|i: int, j: int| 0 <= i < j < front.len() implies !before(
                    #[trigger] front[j],
                    #[trigger] front[i],
                ) by {
                    assert(front[j] == s[j] && front[i] == s[i]);
                }
            }
            assert forall|i: int, j: int| 0 <= i < j < t.len() implies !before(
                #[trigger] t[j],
                #[trigger] t[i],
            ) by {
                if j == t.len() - 1 {
                    let y = rest[i];
                    lemma_same_items(rest, front.push(x), y);
                    assert(rest.contains(y));
                    let m = choose|m: int| 0 <= m < front.push(x).len() && front.push(x)[m] == y;
                    if m < front.len() {
                        assert(s[m] == y);
                        assert(!before(s[s.len() - 1], s[m]));
                    } else {
                        assert(y == x);
                    }
                } else {
                    assert(t[j] == rest[j] && t[i] == rest[i]);
                }
            }
        }
    } else {
        if is_ordering(before) && in_order(s, before) {
            assert forall|i: int, j: int| 0 <= i < j < t.len() implies !before(
                #[trigger] t[j],
                #[trigger] t[i],
            ) by {
                if j == s.len() {
                    if i < s.len() - 1 {
                        assert(!before(s[s.len() - 1], s[i]));
                    }
                } else {
                    assert(t[j] == s[j] && t[i] == s[i]);
                }
            }
        }
    }
}

/// Putting a list in order keeps every item as often as it was there, and no item then comes
/// before one that stands ahead of it.
pub proof fn law_ordered<A>(s: Seq<A>, before: spec_fn(A, A) -> bool)
    ensures
        ordered(s, before).to_multiset() == s.to_multiset(),
        ordered(s, before).len() == s.len(),
        is_ordering(before) ==> in_order(ordered(s, before), before),
    decreases s.len(),
{
    broadcast use vstd::seq_lib::group_to_multiset_ensures;

    if s.len() > 0 {
        let front = s.drop_last();
        law_ordered(front, before);
        lemma_placed(ordered(front, before), s.last(), before);
        assert(s =~= front.push(s.last()));
        assert(ordered(s, before).to_multiset() =~= s.to_multiset());
        lemma_same_items(ordered(s, before), s, s.last());
    }
}

/// Where an order tells every two items apart, lists with the same items are the same once
/// they are in order.
pub proof fn law_order_forgets_the_order_before<A>(
    s: Seq<A>,
    t: Seq<A>,
    before: spec_fn(A, A) -> bool,
)
    requires
        is_total(before),
        s.to_multiset() == t.to_multiset(),
    ensures
        ordered(s, before) == ordered(t, before),
{
    let leq = |x: A, y: A| !before(y, x);
    law_ordered(s, before);
    law_ordered(t, before);
    let a = ordered(s, before);
    let b = ordered(t, before);
    assert forall|x: A| #[trigger] leq(x, x) by {
        if before(x, x) {
            assert(!before(x, x));
        }
    }
    assert(vstd::relations::total_ordering(leq)) by {
        assert forall|x: A, y: A| #[trigger] leq(x, y) && #[trigger] leq(y, x) implies x == y by {
            if x != y {
                assert(before(x, y) || before(y, x));
            }
        }
        assert forall|x: A, y: A, z: A| #[trigger] leq(x, y) && #[trigger] leq(y, z) implies leq(
            x,
            z,
        ) by {
            assert(!before(z, y) && !before(y, x));
        }
        assert forall|x: A, y: A| #[trigger] leq(x, y) || #[trigger] leq(y, x) by {
            if before(y, x) {
                assert(!before(x, y));
            }
        }
    }
    assert(vstd::relations::sorted_by(a, leq)) by {
        assert forall|i: int, j: int| 0 <= i < j < a.len() implies #[trigger] leq(a[i], a[j]) by {
            assert(!before(a[j], a[i]));
        }
    }
    assert(vstd::relations::sorted_by(b, leq)) by {
        assert forall|i: int, j: int| 0 <= i < j < b.len() implies #[trigger] leq(b[i], b[j]) by {
            assert(!before(b[j], b[i]));
        }
    }
    vstd::seq_lib::lemma_sorted_unique(a, b, leq);
}

/// One text comes before another where it is the beginning of the other, or where at the first
/// place at which they differ its character is the smaller one.
pub proof fn law_texts_compare_by_their_first_difference(
    common: Seq<char>,
    a: Seq<char>,
    b: Seq<char>,
)
    ensures
        text_less(common + a, common + b) == text_less(a, b),
        a.len() > 0 && b.len() > 0 && a[0] != b[0] ==> (text_less(a, b) <==> a[0] < b[0]),
        text_less(Seq::empty(), b) <==> b.len() > 0,
        !text_less(a, Seq::empty()),
    decreases common.len(),
{
    if common.len() > 0 {
        law_texts_compare_by_their_first_difference(common.drop_first(), a, b);
        assert((common + a).drop_first() =~= common.drop_first() + a);
        assert((common + b).drop_first() =~= common.drop_first() + b);
    } else {
        assert(common + a =~= a);
        assert(common + b =~= b);
    }
}

/// A list that is in order stays as it is, equal items among them.
pub proof fn law_lists_in_order_stay<A>(s: Seq<A>, before: spec_fn(A, A) -> bool)
    requires
        in_order(s, before),
    ensures
        ordered(s, before) == s,
    decreases s.len(),
{
    if s.len() > 0 {
        let front = s.drop_last();
        assert forall|i: int, j: int| 0 <= i < j < front.len() implies !before(
            #[trigger] front[j],
            #[trigger] front[i],
        ) by {
            assert(front[j] == s[j] && front[i] == s[i]);
        }
        law_lists_in_order_stay(front, before);
        if front.len() > 0 {
            let n = s.len() as int;
            assert(!before(s[n - 1], s[n - 2]));
        }
        assert(front.push(s.last()) =~= s);
    }
}

} // verus!
