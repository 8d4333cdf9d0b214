//! The browser sessions that are open, and when they end.
use vstd::prelude::*;

use crate::text::{same_text, texts};

verus! {

/// A browser session. Times and spans are in nanoseconds on one clock that never goes back.
#[derive(Debug)]
pub struct Session {
    pub session_id: String,
    pub created_at: u128,
    pub last_used_at: u128,
    pub ttl: u128,
    pub idle: u128,
}

/// A session as a mathematical value.
pub struct SessionView {
    pub session_id: Seq<char>,
    pub created_at: u128,
    pub last_used_at: u128,
    pub ttl: u128,
    pub idle: u128,
}

impl View for Session {
    type V = SessionView;

    open spec fn view(&self) -> SessionView {
        SessionView {
            session_id: self.session_id@,
            created_at: self.created_at,
            last_used_at: self.last_used_at,
            ttl: self.ttl,
            idle: self.idle,
        }
    }
}

/// The open sessions and how many there may be.
pub struct SessionRegistry {
    sessions: Vec<Session>,
    max_concurrent: usize,
}

#[derive(Debug, PartialEq, Eq, Structural, Clone, Copy)]
pub enum AllocError {
    AtCapacity,
}

#[derive(Debug, PartialEq, Eq, Structural, Clone, Copy)]
pub enum LookupError {
    NotFound,
    Expired,
}

// ---------------------------------------------------------------------------
// Models
// ---------------------------------------------------------------------------
/// The time from one instant to another, nothing where the other is not later.
pub open spec fn elapsed(from: u128, now: u128) -> int {
    if now >= from {
        now - from
    } else {
        0
    }
}

/// A session ends when it is as old as its lifetime, or unused as long as it may be idle.
pub open spec fn is_expired(s: SessionView, now: u128) -> bool {
    elapsed(s.created_at, now) >= s.ttl || elapsed(s.last_used_at, now) >= s.idle
}

/// The sessions that have not ended.
pub open spec fn live(s: Seq<SessionView>, now: u128) -> Seq<SessionView> {
    s.filter(|x: SessionView| !is_expired(x, now))
}

/// The identifiers of the sessions that have ended.
pub open spec fn ended(s: Seq<SessionView>, now: u128) -> Seq<Seq<char>> {
    s.filter(|x: SessionView| is_expired(x, now)).map_values(|x: SessionView| x.session_id)
}

/// The sessions without those of an identifier.
pub open spec fn without(s: Seq<SessionView>, id: Seq<char>) -> Seq<SessionView> {
    s.filter(|x: SessionView| x.session_id != id)
}

/// Whether an identifier is among the sessions.
pub open spec fn is_open(s: Seq<SessionView>, id: Seq<char>) -> bool {
    exists|i: int| 0 <= i < s.len() && (#[trigger] s[i]).session_id == id
}

/// Each identifier stands for one session.
pub open spec fn unique_ids(s: Seq<SessionView>) -> bool {
    forall|i: int, j: int|
        0 <= i < j < s.len() ==> (#[trigger] s[i]).session_id != (#[trigger] s[j]).session_id
}

/// The sessions after a request for a new one, and the answer to it.
pub open spec fn allocated(
    s: Seq<SessionView>,
    max: usize,
    id: Seq<char>,
    ttl: u128,
    idle: u128,
    now: u128,
) -> (Seq<SessionView>, Result<(), AllocError>) {
    if live(s, now).len() >= max {
        (live(s, now), Err(AllocError::AtCapacity))
    } else {
        (
            without(live(s, now), id).push(
                SessionView { session_id: id, created_at: now, last_used_at: now, ttl, idle },
            ),
            Ok(()),
        )
    }
}

/// The sessions with the one at a position used at a time.
pub open spec fn used_at(s: Seq<SessionView>, i: int, now: u128) -> Seq<SessionView> {
    s.update(i, SessionView { last_used_at: now, ..s[i] })
}

/// The first position of an identifier.
pub open spec fn is_first(s: Seq<SessionView>, id: Seq<char>, i: int) -> bool {
    &&& 0 <= i < s.len()
    &&& s[i].session_id == id
    &&& forall|j: int| 0 <= j < i ==> (#[trigger] s[j]).session_id != id
}

/// What a use of a session does: nothing where it is not open, its end where it has ended, and
/// otherwise the time of its last use moves.
pub open spec fn touched(
    s: Seq<SessionView>,
    id: Seq<char>,
    now: u128,
    after: Seq<SessionView>,
    res: Result<(), LookupError>,
) -> bool {
    if !is_open(s, id) {
        res == Err::<(), LookupError>(LookupError::NotFound) && after == s
    } else {
        exists|i: int| #[trigger]
            is_first(s, id, i) && if is_expired(s[i], now) {
                res == Err::<(), LookupError>(LookupError::Expired) && after == without(s, id)
            } else {
                res == Ok::<(), LookupError>(()) && after == used_at(s, i, now)
            }
    }
}

/// The views of some sessions.
pub open spec fn session_views(s: Seq<Session>) -> Seq<SessionView> {
    s.map_values(|x: Session| x@)
}

// ---------------------------------------------------------------------------
// Code
// ---------------------------------------------------------------------------
fn time_since(from: u128, now: u128) -> (res: u128)
    ensures
        res == elapsed(from, now),
{
    if now >= from {
        now - from
    } else {
        0
    }
}

fn has_expired(s: &Session, now: u128) -> (res: bool)
    ensures
        res == is_expired(s@, now),
{
    time_since(s.created_at, now) >= s.ttl || time_since(s.last_used_at, now) >= s.idle
}

/// One more item in a sequence that is filtered.
proof fn lemma_filter_step(s: Seq<SessionView>, j: int, p: spec_fn(SessionView) -> bool)
    requires
        0 <= j < s.len(),
    ensures
        s.take(j + 1).filter(p) == if p(s[j]) {
            s.take(j).filter(p).push(s[j])
        } else {
            s.take(j).filter(p)
        },
{
    reveal(Seq::filter);
    assert(s.take(j + 1).drop_last() =~= s.take(j));
    assert(s.take(j + 1).last() == s[j]);
}

/// What a removed element leaves of a filtered front and an unread rest.
proof fn lemma_rest(s: Seq<SessionView>, j: int, kept: Seq<SessionView>)
    requires
        0 <= j < s.len(),
    ensures
        (kept + s.skip(j)).remove(kept.len() as int) == kept + s.skip(j + 1),
        kept + s.skip(j) == kept.push(s[j]) + s.skip(j + 1),
        (kept + s.skip(j))[kept.len() as int] == s[j],
{
    assert((kept + s.skip(j)).remove(kept.len() as int) =~= kept + s.skip(j + 1));
    assert(kept + s.skip(j) =~= kept.push(s[j]) + s.skip(j + 1));
}

/// Takes the sessions that have ended out, and names them.
fn evict(sessions: &mut Vec<Session>, now: u128) -> (res: Vec<String>)
    ensures
        session_views(final(sessions)@) == live(session_views(old(sessions)@), now),
        texts(res@) == ended(session_views(old(sessions)@), now),
{
    let ghost all = session_views(sessions@);
    let ghost alive = |x: SessionView| !is_expired(x, now);
    let ghost dead = |x: SessionView| is_expired(x, now);
    let ghost mut j: int = 0;
    let mut gone: Vec<String> = Vec::new();
    let mut i: usize = 0;
    proof {
        reveal(Seq::filter);
        assert(all.take(0).filter(alive) =~= Seq::empty());
        assert(all.take(0).filter(dead) =~= Seq::empty());
        assert(all.skip(0) =~= all);
        assert(session_views(sessions@) =~= all.take(0).filter(alive) + all.skip(0));
    }
    while i < sessions.len()
        invariant
            alive == (|x: SessionView| !is_expired(x, now)),
            dead == (|x: SessionView| is_expired(x, now)),
            0 <= j <= all.len(),
            i == all.take(j).filter(alive).len(),
            i <= sessions@.len(),
            session_views(sessions@) == all.take(j).filter(alive) + all.skip(j),
            texts(gone@) == all.take(j).filter(dead).map_values(|x: SessionView| x.session_id),
        decreases sessions@.len() - i,
    {
        let ghost kept = all.take(j).filter(alive);
        let ghost before = sessions@;
        proof {
            assert(sessions@.len() == session_views(sessions@).len());
            assert(j < all.len());
            lemma_filter_step(all, j, alive);
            lemma_filter_step(all, j, dead);
            lemma_rest(all, j, kept);
            assert(session_views(before)[i as int] == before[i as int]@);
        }
        if has_expired(&sessions[i], now) {
            let session = sessions.remove(i);
            let ghost named = gone@;
            gone.push(session.session_id);
            proof {
                assert(session_views(sessions@) =~= session_views(before).remove(i as int));
                assert(texts(gone@) =~= texts(named).push(session.session_id@));
                assert(all.take(j + 1).filter(dead).map_values(|x: SessionView| x.session_id)
                    =~= all.take(j).filter(dead).map_values(|x: SessionView| x.session_id).push(
                    all[j].session_id,
                ));
            }
        } else {
            i = i + 1;
        }
        proof {
            j = j + 1;
        }
    }
    proof {
        assert(session_views(sessions@).len() == sessions@.len());
        assert(all.skip(j).len() == 0);
        assert(all.take(j) =~= all);
        assert(session_views(sessions@) =~= all.filter(alive));
    }
    gone
}

/// Takes the sessions of an identifier out.
fn discard(sessions: &mut Vec<Session>, session_id: &str) -> (res: bool)
    ensures
        session_views(final(sessions)@) == without(session_views(old(sessions)@), session_id@),
        res == is_open(session_views(old(sessions)@), session_id@),
{
    let ghost all = session_views(sessions@);
    let ghost other = |x: SessionView| x.session_id != session_id@;
    let ghost mut j: int = 0;
    let mut found = false;
    let mut i: usize = 0;
    proof {
        reveal(Seq::filter);
        assert(all.take(0).filter(other) =~= Seq::empty());
        assert(all.skip(0) =~= all);
        assert(session_views(sessions@) =~= all.take(0).filter(other) + all.skip(0));
    }
    while i < sessions.len()
        invariant
            other == (|x: SessionView| x.session_id != session_id@),
            0 <= j <= all.len(),
            i == all.take(j).filter(other).len(),
            i <= sessions@.len(),
            session_views(sessions@) == all.take(j).filter(other) + all.skip(j),
            found == exists|k: int| 0 <= k < j && (#[trigger] all[k]).session_id == session_id@,
        decreases sessions@.len() - i,
    {
        let ghost kept = all.take(j).filter(other);
        let ghost before = sessions@;
        proof {
            assert(sessions@.len() == session_views(sessions@).len());
            assert(j < all.len());
            lemma_filter_step(all, j, other);
            lemma_rest(all, j, kept);
            assert(session_views(before)[i as int] == before[i as int]@);
        }
        if same_text(&sessions[i].session_id, session_id) {
            let _gone = sessions.remove(i);
            found = true;
            proof {
                assert(session_views(sessions@) =~= session_views(before).remove(i as int));
                assert(all[j].session_id == session_id@);
            }
        } else {
            i = i + 1;
        }
        proof {
            j = j + 1;
        }
    }
    proof {
        assert(session_views(sessions@).len() == sessions@.len());
        assert(all.skip(j).len() == 0);
        assert(all.take(j) =~= all);
        assert(session_views(sessions@) =~= all.filter(other));
    }
    found
}

impl SessionRegistry {
    /// The open sessions, in the order in which they came.
    pub closed spec fn sessions(&self) -> Seq<SessionView> {
        session_views(self.sessions@)
    }

    /// How many sessions there may be.
    pub closed spec fn cap(&self) -> usize {
        self.max_concurrent
    }

    /// No sessions yet.
    pub fn new(max_concurrent: usize) -> (res: Self)
        ensures
            res.sessions() == Seq::<SessionView>::empty(),
            res.cap() == max_concurrent,
    {
        let res = SessionRegistry { sessions: Vec::new(), max_concurrent };
        assert(res.sessions() =~= Seq::empty());
        res
    }

    /// Opens a session, once the sessions that have ended are gone.
    pub fn allocate(&mut self, session_id: String, ttl: u128, idle: u128, now: u128) -> (res: Result<
        (),
        AllocError,
    >)
        ensures
            final(self).cap() == old(self).cap(),
            (final(self).sessions(), res) == allocated(
                old(self).sessions(),
                old(self).cap(),
                session_id@,
                ttl,
                idle,
                now,
            ),
    {
        let _gone = evict(&mut self.sessions, now);
        assert(session_views(self.sessions@).len() == self.sessions@.len());
        if self.sessions.len() >= self.max_concurrent {
            return Err(AllocError::AtCapacity);
        }
        let _replaced = discard(&mut self.sessions, &session_id);
        let ghost kept = self.sessions@;
        self.sessions.push(
            Session { session_id, created_at: now, last_used_at: now, ttl, idle },
        );
        proof {
            assert(session_views(self.sessions@) =~= session_views(kept).push(
                self.sessions@.last()@,
            ));
        }
        Ok(())
    }

    /// Uses a session.
    pub fn touch(&mut self, session_id: &str, now: u128) -> (res: Result<(), LookupError>)
        ensures
            final(self).cap() == old(self).cap(),
            touched(old(self).sessions(), session_id@, now, final(self).sessions(), res),
    {
        let ghost all = self.sessions();
        let mut i: usize = 0;
        while i < self.sessions.len()
            invariant
                *self == *old(self),
                all == self.sessions(),
                i <= self.sessions@.len(),
                forall|j: int| 0 <= j < i ==> (#[trigger] all[j]).session_id != session_id@,
            decreases self.sessions@.len() - i,
        {
            assert(all[i as int] == self.sessions@[i as int]@);
            if same_text(&self.sessions[i].session_id, session_id) {
                assert(is_first(all, session_id@, i as int));
                assert(is_open(all, session_id@));
                if has_expired(&self.sessions[i], now) {
                    let _found = discard(&mut self.sessions, session_id);
                    return Err(LookupError::Expired);
                }
                let ghost before = self.sessions@;
                self.sessions[i].last_used_at = now;
                assert(session_views(self.sessions@) =~= used_at(all, i as int, now));
                return Ok(());
            }
            i = i + 1;
        }
        assert(all.len() == self.sessions@.len());
        assert(!is_open(all, session_id@));
        Err(LookupError::NotFound)
    }

    /// Closes a session; whether it was open.
    pub fn remove(&mut self, session_id: &str) -> (res: bool)
        ensures
            final(self).cap() == old(self).cap(),
            final(self).sessions() == without(old(self).sessions(), session_id@),
            res == is_open(old(self).sessions(), session_id@),
    {
        discard(&mut self.sessions, session_id)
    }

    /// How many sessions are kept.
    pub fn count(&self) -> (res: usize)
        ensures
            res == self.sessions().len(),
    {
        self.sessions.len()
    }

    /// Takes the sessions that have ended out; returns their identifiers.
    pub fn sweep(&mut self, now: u128) -> (res: Vec<String>)
        ensures
            final(self).cap() == old(self).cap(),
            final(self).sessions() == live(old(self).sessions(), now),
            texts(res@) == ended(old(self).sessions(), now),
    {
        evict(&mut self.sessions, now)
    }
}

// ---------------------------------------------------------------------------
// Laws
// ---------------------------------------------------------------------------
proof fn lemma_filter_properties(s: Seq<SessionView>, p: spec_fn(SessionView) -> bool)
    ensures
        s.filter(p).len() <= s.len(),
        forall|i: int| 0 <= i < s.filter(p).len() ==> p(#[trigger] s.filter(p)[i]) && s.contains(s.filter(p)[i]),
        forall|i: int| 0 <= i < s.len() && p(#[trigger] s[i]) ==> s.filter(p).contains(s[i]),
        unique_ids(s) ==> unique_ids(s.filter(p)),
    decreases s.len(),
{
    reveal(Seq::filter);
    if s.len() > 0 {
        let front = s.drop_last();
        lemma_filter_properties(front, p);
        assert forall|i: int| 0 <= i < s.filter(p).len() implies p(#[trigger] s.filter(p)[i])
            && s.contains(s.filter(p)[i]) by {
            if i < front.filter(p).len() {
                let x = front.filter(p)[i];
                let k = choose|k: int| 0 <= k < front.len() && front[k] == x;
                assert(s[k] == x);
            } else {
                assert(s[s.len() - 1] == s.last());
            }
        }
        assert forall|i: int| 0 <= i < s.len() && p(#[trigger] s[i]) implies s.filter(p).contains(
            s[i],
        ) by {
            if i < s.len() - 1 {
                assert(front[i] == s[i]);
                let k = choose|k: int| 0 <= k < front.filter(p).len() && front.filter(p)[k] == s[i];
                assert(s.filter(p)[k] == s[i]);
            } else {
                assert(s.filter(p).last() == s[i]);
            }
        }
        if unique_ids(s) {
            assert(unique_ids(front)) by {
                assert forall|i: int, j: int| 0 <= i < j < front.len() implies (#[trigger] front[i]).session_id
                    != (#[trigger] front[j]).session_id by {
                    assert(s[i] == front[i] && s[j] == front[j]);
                }
            }
            assert forall|i: int, j: int| 0 <= i < j < s.filter(p).len() implies (#[trigger] s.filter(
                p,
            )[i]).session_id != (#[trigger] s.filter(p)[j]).session_id by {
                if j == front.filter(p).len() {
                    let x = front.filter(p)[i];
                    let k = choose|k: int| 0 <= k < front.len() && front[k] == x;
                    assert(s[k] == x);
                    assert(s[s.len() - 1] == s.filter(p)[j]);
                }
            }
        }
    }
}

/// However sessions come and go, there are never more of them than there may be.
pub proof fn law_sessions_stay_capped(
    s: Seq<SessionView>,
    max: usize,
    id: Seq<char>,
    ttl: u128,
    idle: u128,
    now: u128,
    after: Seq<SessionView>,
    res: Result<(), LookupError>,
)
    requires
        s.len() <= max,
    ensures
        allocated(s, max, id, ttl, idle, now).0.len() <= max,
        touched(s, id, now, after, res) ==> after.len() <= max,
        without(s, id).len() <= max,
        live(s, now).len() <= max,
{
    lemma_filter_properties(s, |x: SessionView| !is_expired(x, now));
    lemma_filter_properties(s, |x: SessionView| x.session_id != id);
    lemma_filter_properties(live(s, now), |x: SessionView| x.session_id != id);
}

/// However sessions come and go, each identifier stands for one session.
pub proof fn law_ids_stay_unique(
    s: Seq<SessionView>,
    max: usize,
    id: Seq<char>,
    ttl: u128,
    idle: u128,
    now: u128,
    after: Seq<SessionView>,
    res: Result<(), LookupError>,
)
    requires
        unique_ids(s),
    ensures
        unique_ids(allocated(s, max, id, ttl, idle, now).0),
        touched(s, id, now, after, res) ==> unique_ids(after),
        unique_ids(without(s, id)),
        unique_ids(live(s, now)),
{
    lemma_filter_properties(s, |x: SessionView| !is_expired(x, now));
    lemma_filter_properties(s, |x: SessionView| x.session_id != id);
    lemma_filter_properties(live(s, now), |x: SessionView| x.session_id != id);
    if touched(s, id, now, after, res) && after != s && after != without(s, id) {
        let i = choose|i: int| #[trigger] is_first(s, id, i) && after == used_at(s, i, now);
        assert forall|k: int, j: int| 0 <= k < j < after.len() implies (#[trigger] after[k]).session_id
            != (#[trigger] after[j]).session_id by {
            assert(after[k].session_id == s[k].session_id);
            assert(after[j].session_id == s[j].session_id);
        }
    }
}

/// A session that was opened is found until its lifetime or its idle time is over, and not
/// from that moment on.
pub proof fn law_opened_sessions_last(
    s: Seq<SessionView>,
    max: usize,
    id: Seq<char>,
    ttl: u128,
    idle: u128,
    now: u128,
    later: u128,
    after: Seq<SessionView>,
    res: Result<(), LookupError>,
)
    requires
        now <= later,
        allocated(s, max, id, ttl, idle, now).1 is Ok,
        touched(allocated(s, max, id, ttl, idle, now).0, id, later, after, res),
    ensures
        res == if later - now >= ttl || later - now >= idle {
            Err::<(), LookupError>(LookupError::Expired)
        } else {
            Ok::<(), LookupError>(())
        },
        later - now >= ttl || later - now >= idle ==> !is_open(after, id),
{
    let kept = without(live(s, now), id);
    let opened = allocated(s, max, id, ttl, idle, now).0;
    lemma_filter_properties(live(s, now), |x: SessionView| x.session_id != id);
    lemma_filter_properties(opened, |x: SessionView| x.session_id != id);
    assert(opened[kept.len() as int].session_id == id);
    assert(is_open(opened, id));
    assert forall|i: int| is_first(opened, id, i) implies i == kept.len() by {
        if i < kept.len() {
            assert(kept[i] == opened[i]);
        }
    }
}

/// A session that was closed, or has ended and was swept out, is found no more.
pub proof fn law_closed_sessions_are_gone(s: Seq<SessionView>, id: Seq<char>, now: u128)
    ensures
        !is_open(without(s, id), id),
        forall|i: int| 0 <= i < live(s, now).len() ==> !is_expired(#[trigger] live(s, now)[i], now),
{
    lemma_filter_properties(s, |x: SessionView| x.session_id != id);
    lemma_filter_properties(s, |x: SessionView| !is_expired(x, now));
}

/// A session is over once it has lasted its lifetime or been idle as long as it may, and not
/// before.
pub proof fn law_sessions_end_in_time(s: SessionView, now: u128)
    requires
        s.created_at <= now,
        s.last_used_at <= now,
    ensures
        is_expired(s, now) <==> now >= s.created_at + s.ttl || now >= s.last_used_at + s.idle,
{
}

proof fn lemma_filter_of_one(x: SessionView, p: spec_fn(SessionView) -> bool)
    ensures
        p(x) ==> seq![x].filter(p) == seq![x],
        !p(x) ==> seq![x].filter(p) == Seq::<SessionView>::empty(),
{
    let s = seq![x];
    assert(s.drop_last() =~= Seq::<SessionView>::empty());
    reveal_with_fuel(Seq::filter, 2);
    assert(Seq::<SessionView>::empty().push(x) =~= s);
}

/// What becomes of a session does not hang on the others: of two groups of sessions, those of
/// the one group that go on, end or are left stand before those of the other, in order.
pub proof fn law_sessions_end_one_by_one(
    s: Seq<SessionView>,
    t: Seq<SessionView>,
    x: SessionView,
    id: Seq<char>,
    now: u128,
)
    ensures
        live(s + t, now) == live(s, now) + live(t, now),
        ended(s + t, now) == ended(s, now) + ended(t, now),
        without(s + t, id) == without(s, id) + without(t, id),
        live(seq![x], now) == if is_expired(x, now) {
            Seq::<SessionView>::empty()
        } else {
            seq![x]
        },
        ended(seq![x], now) == if is_expired(x, now) {
            seq![x.session_id]
        } else {
            Seq::<Seq<char>>::empty()
        },
        without(seq![x], id) == if x.session_id == id {
            Seq::<SessionView>::empty()
        } else {
            seq![x]
        },
{
    let goes_on = |y: SessionView| !is_expired(y, now);
    let is_over = |y: SessionView| is_expired(y, now);
    let is_other = |y: SessionView| y.session_id != id;
    Seq::filter_distributes_over_add(s, t, goes_on);
    Seq::filter_distributes_over_add(s, t, is_over);
    Seq::filter_distributes_over_add(s, t, is_other);
    lemma_filter_of_one(x, goes_on);
    lemma_filter_of_one(x, is_over);
    lemma_filter_of_one(x, is_other);
    assert(ended(s + t, now) =~= ended(s, now) + ended(t, now));
    assert(is_expired(x, now) ==> ended(seq![x], now) =~= seq![x.session_id]);
    assert(!is_expired(x, now) ==> ended(seq![x], now) =~= Seq::<Seq<char>>::empty());
}

/// A new session is granted if and only if fewer sessions go on than there may be. It is new at
/// the time of the request, and the other sessions that go on stay as they are, in order, before
/// it.
pub proof fn law_new_sessions_join_the_others(
    s: Seq<SessionView>,
    max: usize,
    id: Seq<char>,
    ttl: u128,
    idle: u128,
    now: u128,
)
    ensures
        ({
            let (after, granted) = allocated(s, max, id, ttl, idle, now);
            &&& granted is Ok <==> live(s, now).len() < max
            &&& granted is Err ==> after == live(s, now)
            &&& granted is Ok ==> after.len() > 0 && after.drop_last() == without(
                live(s, now),
                id,
            ) && after.last().session_id == id && after.last().created_at == now
                && after.last().last_used_at == now && after.last().ttl == ttl
                && after.last().idle == idle
        }),
{
    let kept = without(live(s, now), id);
    let x = SessionView { session_id: id, created_at: now, last_used_at: now, ttl, idle };
    assert(kept.push(x).drop_last() =~= kept);
}

/// To use a session moves the time of its last use, and nothing else of it or of any other. One
/// that has ended is taken out, and one that is not open changes nothing.
pub proof fn law_used_sessions_stay_the_same(
    s: Seq<SessionView>,
    id: Seq<char>,
    now: u128,
    after: Seq<SessionView>,
    res: Result<(), LookupError>,
    i: int,
)
    requires
        unique_ids(s),
        touched(s, id, now, after, res),
        0 <= i < s.len(),
        s[i].session_id == id,
    ensures
        is_expired(s[i], now) ==> res == Err::<(), LookupError>(LookupError::Expired) && after
            == without(s, id),
        !is_expired(s[i], now) ==> {
            &&& res == Ok::<(), LookupError>(())
            &&& after.len() == s.len()
            &&& after[i].last_used_at == now
            &&& after[i].session_id == id && after[i].created_at == s[i].created_at
            &&& after[i].ttl == s[i].ttl && after[i].idle == s[i].idle
            &&& forall|j: int| 0 <= j < s.len() && j != i ==> #[trigger] after[j] == s[j]
        },
{
    assert(is_open(s, id));
    assert forall|k: int| is_first(s, id, k) implies k == i by {
        if k < i {
            assert(s[k].session_id != s[i].session_id);
        }
    }
}

/// A session that is not open is not found, and the sessions stay as they are.
pub proof fn law_unknown_sessions_are_not_found(
    s: Seq<SessionView>,
    id: Seq<char>,
    now: u128,
    after: Seq<SessionView>,
    res: Result<(), LookupError>,
)
    requires
        touched(s, id, now, after, res),
        forall|i: int| 0 <= i < s.len() ==> (#[trigger] s[i]).session_id != id,
    ensures
        res == Err::<(), LookupError>(LookupError::NotFound),
        after == s,
{
}

} // verus!
