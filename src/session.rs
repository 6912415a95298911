//! The running games of one kind, keyed by the chat and the message that
//! announced each game, and their collection once their lifetime is over.

use vstd::prelude::*;

verus! {

/// Identifies a game: the chat it runs in and the message that announced it.
#[derive(Clone, Copy, Debug, PartialEq, Eq, Structural)]
pub struct SessionKey {
    pub chat: i64,
    pub message: i64,
}

/// A running game and the time it was created at.
#[derive(Clone, Debug)]
pub struct Session<G> {
    pub key: SessionKey,
    pub game: G,
    pub created_at: u64,
}

/// A session created at `created_at` is still alive at `now`: its lifetime
/// has not run out. A session created after `now` is alive.
pub open spec fn alive(created_at: u64, now: u64, lifetime: u64) -> bool {
    now < created_at + lifetime
}

/// The sessions `after` a sweep at `now` of the sessions `before`: those
/// alive stay as they were, the others are gone.
pub open spec fn swept<G>(
    before: Map<SessionKey, Session<G>>,
    after: Map<SessionKey, Session<G>>,
    now: u64,
    lifetime: u64,
) -> bool {
    &&& forall|k: SessionKey|
        #[trigger] after.contains_key(k) <==> before.contains_key(k) && alive(
            before[k].created_at,
            now,
            lifetime,
        )
    &&& forall|k: SessionKey| #[trigger] after.contains_key(k) ==> after[k] == before[k]
}

/// Why a move on a stored game was refused.
#[derive(Clone, Copy, Debug, PartialEq, Eq, Structural)]
pub enum MoveError<E> {
    /// No game runs under the key: it ended, or it was collected.
    SessionNotFound,
    /// The move lies outside the board.
    OutOfBoard,
    /// The game refused the move.
    Game(E),
}

/// The answer of a move without the game it may hand back.
pub open spec fn answer_of<S, T, E>(r: Result<(S, Option<T>), E>) -> Result<S, E> {
    match r {
        Ok((s, _)) => Ok(s),
        Err(e) => Err(e),
    }
}

/// The games of one kind. Keys are unique.
pub struct SessionStore<G> {
    sessions: Vec<Session<G>>,
}

pub open spec fn keys_unique<G>(s: Seq<Session<G>>) -> bool {
    forall|i: int, j: int| 0 <= i < j < s.len() ==> #[trigger] s[i].key != #[trigger] s[j].key
}

pub open spec fn has_key<G>(s: Seq<Session<G>>, k: SessionKey) -> bool {
    exists|i: int| 0 <= i < s.len() && #[trigger] s[i].key == k
}

/// The sessions as a map from key to session.
pub open spec fn as_map<G>(s: Seq<Session<G>>) -> Map<SessionKey, Session<G>> {
    Map::new(
        |k: SessionKey| has_key(s, k),
        |k: SessionKey| s[choose|i: int| 0 <= i < s.len() && #[trigger] s[i].key == k],
    )
}

proof fn lemma_map_at<G>(s: Seq<Session<G>>, i: int)
    requires
        keys_unique(s),
        0 <= i < s.len(),
    ensures
        as_map(s).contains_key(s[i].key),
        as_map(s)[s[i].key] == s[i],
{
    let k = s[i].key;
    assert(has_key(s, k));
    let j = choose|j: int| 0 <= j < s.len() && #[trigger] s[j].key == k;
    if j != i {
        if i < j {
            assert(s[i].key != s[j].key);
        } else {
            assert(s[j].key != s[i].key);
        }
    }
}

/// Two session lists with the same keys and the same session under each
/// key give the same map.
proof fn lemma_map_eq<G>(s: Seq<Session<G>>, t: Seq<Session<G>>, m: Map<SessionKey, Session<G>>)
    requires
        keys_unique(t),
        forall|k: SessionKey| #[trigger] has_key(t, k) <==> m.contains_key(k),
        forall|i: int| 0 <= i < t.len() ==> m[#[trigger] t[i].key] == t[i],
    ensures
        as_map(t) == m,
{
    assert forall|k: SessionKey| #[trigger] as_map(t).contains_key(k) implies as_map(t)[k] == m[k] by {
        let i = choose|i: int| 0 <= i < t.len() && #[trigger] t[i].key == k;
        lemma_map_at(t, i);
    }
    assert(as_map(t) =~= m);
}

impl<G> SessionStore<G> {
    pub closed spec fn wf(&self) -> bool {
        keys_unique(self.sessions@)
    }

    pub closed spec fn view(&self) -> Map<SessionKey, Session<G>> {
        as_map(self.sessions@)
    }

    /// An empty store.
    pub fn new() -> (r: Self)
        ensures
            r.wf(),
            r.view() == Map::<SessionKey, Session<G>>::empty(),
    {
        let r = SessionStore { sessions: Vec::new() };
        proof {
            assert(r.view() =~= Map::<SessionKey, Session<G>>::empty());
        }
        r
    }

    /// Where the session of `key` is stored.
    fn find(&self, key: SessionKey) -> (r: Option<usize>)
        requires
            self.wf(),
        ensures
            match r {
                Some(i) => i < self.sessions@.len() && self.sessions@[i as int].key == key,
                None => !has_key(self.sessions@, key),
            },
    {
        let mut i: usize = 0;
        while i < self.sessions.len()
            invariant
                i <= self.sessions@.len(),
                forall|j: int| 0 <= j < i ==> #[trigger] self.sessions@[j].key != key,
            decreases self.sessions@.len() - i,
        {
            if self.sessions[i].key == key {
                return Some(i);
            }
            i += 1;
        }
        None
    }

    /// Whether a game runs under `key`.
    pub fn contains(&self, key: SessionKey) -> (r: bool)
        requires
            self.wf(),
        ensures
            r == self.view().contains_key(key),
    {
        self.find(key).is_some()
    }

    /// The session under `key`.
    pub fn get(&self, key: SessionKey) -> (r: Option<&Session<G>>)
        requires
            self.wf(),
        ensures
            match r {
                Some(s) => self.view().contains_key(key) && *s == self.view()[key],
                None => !self.view().contains_key(key),
            },
    {
        match self.find(key) {
            Some(i) => {
                proof {
                    lemma_map_at(self.sessions@, i as int);
                }
                Some(&self.sessions[i])
            },
            None => None,
        }
    }

    /// Stores a new game under `key`, created at `now`, unless a game runs
    /// under `key` already; returns whether it was stored.
    pub fn get_or_create(&mut self, key: SessionKey, game: G, now: u64) -> (created: bool)
        requires
            old(self).wf(),
        ensures
            final(self).wf(),
            created == !old(self).view().contains_key(key),
            final(self).view() == if created {
                old(self).view().insert(key, Session { key, game, created_at: now })
            } else {
                old(self).view()
            },
    {
        match self.find(key) {
            Some(_) => false,
            None => {
                let ghost s0 = self.sessions@;
                self.sessions.push(Session { key, game, created_at: now });
                proof {
                    let t = self.sessions@;
                    let m = as_map(s0).insert(key, Session { key, game, created_at: now });
                    assert forall|i: int, j: int| 0 <= i < j < t.len() implies #[trigger] t[i].key
                        != #[trigger] t[j].key by {
                        if j == t.len() - 1 {
                            assert(s0[i] == t[i]);
                        } else {
                            assert(s0[i] == t[i] && s0[j] == t[j]);
                        }
                    }
                    assert forall|k: SessionKey| #[trigger] has_key(t, k) <==> m.contains_key(k) by {
                        if has_key(t, k) {
                            let i = choose|i: int| 0 <= i < t.len() && #[trigger] t[i].key == k;
                            if i < s0.len() {
                                assert(s0[i] == t[i]);
                            }
                        }
                        if has_key(s0, k) {
                            let i = choose|i: int| 0 <= i < s0.len() && #[trigger] s0[i].key == k;
                            assert(t[i] == s0[i]);
                        }
                        if k == key {
                            assert(t[t.len() - 1].key == key);
                        }
                    }
                    assert forall|i: int| 0 <= i < t.len() implies m[#[trigger] t[i].key] == t[i] by {
                        if i < s0.len() {
                            assert(t[i] == s0[i]);
                            lemma_map_at(s0, i);
                        }
                    }
                    lemma_map_eq(s0, t, m);
                }
                true
            },
        }
    }

    /// Removes the game under `key` and returns it.
    pub fn remove(&mut self, key: SessionKey) -> (r: Option<Session<G>>)
        requires
            old(self).wf(),
        ensures
            final(self).wf(),
            final(self).view() == old(self).view().remove(key),
            match r {
                Some(s) => old(self).view().contains_key(key) && s == old(self).view()[key],
                None => !old(self).view().contains_key(key),
            },
    {
        match self.find(key) {
            None => {
                proof {
                    assert(self.view() =~= self.view().remove(key));
                }
                None
            },
            Some(i) => {
                let ghost s0 = self.sessions@;
                proof {
                    lemma_map_at(s0, i as int);
                }
                let s = self.sessions.remove(i);
                proof {
                    let t = self.sessions@;
                    let m = as_map(s0).remove(key);
                    assert forall|a: int| 0 <= a < t.len() implies #[trigger] t[a] == if a < i {
                        s0[a]
                    } else {
                        s0[a + 1]
                    } by {}
                    assert forall|a: int, b: int| 0 <= a < b < t.len() implies #[trigger] t[a].key
                        != #[trigger] t[b].key by {
                        let a0 = if a < i { a } else { a + 1 };
                        let b0 = if b < i { b } else { b + 1 };
                        assert(t[a] == s0[a0] && t[b] == s0[b0]);
                        assert(s0[a0].key != s0[b0].key);
                    }
                    assert forall|k: SessionKey| #[trigger] has_key(t, k) <==> m.contains_key(k) by {
                        if has_key(t, k) {
                            let a = choose|a: int| 0 <= a < t.len() && #[trigger] t[a].key == k;
                            let a0 = if a < i { a } else { a + 1 };
                            assert(t[a] == s0[a0]);
                            assert(s0[a0].key != s0[i as int].key);
                        }
                        if m.contains_key(k) {
                            let a0 = choose|a0: int| 0 <= a0 < s0.len() && #[trigger] s0[a0].key == k;
                            assert(a0 != i);
                            let a = if a0 < i { a0 } else { a0 - 1 };
                            assert(t[a] == s0[a0]);
                        }
                    }
                    assert forall|a: int| 0 <= a < t.len() implies m[#[trigger] t[a].key] == t[a] by {
                        let a0 = if a < i { a } else { a + 1 };
                        assert(t[a] == s0[a0]);
                        assert(s0[a0].key != s0[i as int].key);
                        lemma_map_at(s0, a0);
                    }
                    lemma_map_eq(s0, t, m);
                }
                Some(s)
            },
        }
    }

    /// Removes every session whose lifetime is over at `now`.
    pub fn collect_garbage(&mut self, now: u64, lifetime: u64)
        requires
            old(self).wf(),
        ensures
            final(self).wf(),
            swept(old(self).view(), final(self).view(), now, lifetime),
    {
        let mut kept: Vec<Session<G>> = Vec::new();
        let mut rest: Vec<Session<G>> = Vec::new();
        std::mem::swap(&mut rest, &mut self.sessions);
        let ghost src = rest@;
        let ghost mut idx: Seq<int> = Seq::empty();
        // The sessions are taken from the back; `kept` gathers the live ones
        // and `idx` records where each stood.
        while rest.len() > 0
            invariant
                keys_unique(src),
                rest@ == src.subrange(0, rest@.len() as int),
                rest@.len() <= src.len(),
                idx.len() == kept@.len(),
                forall|a: int|
                    0 <= a < kept@.len() ==> rest@.len() <= #[trigger] idx[a] < src.len()
                        && kept@[a] == src[idx[a]] && alive(src[idx[a]].created_at, now, lifetime),
                forall|a: int, c: int| 0 <= a < c < idx.len() ==> #[trigger] idx[a] > #[trigger] idx[c],
                forall|b: int|
                    rest@.len() <= b < src.len() && alive(src[b].created_at, now, lifetime) ==> exists|
                        a: int,
                    | 0 <= a < idx.len() && #[trigger] idx[a] == b,
            decreases rest@.len(),
        {
            let s = rest.pop().unwrap();
            let ghost b = rest@.len() as int;
            let ghost idx_before = idx;
            proof {
                assert(src[b] == s);
            }
            if (now as u128) < (s.created_at as u128) + (lifetime as u128) {
                kept.push(s);
                proof {
                    idx = idx.push(b);
                }
            }
            proof {
                assert forall|b2: int|
                    rest@.len() <= b2 < src.len() && alive(src[b2].created_at, now, lifetime) implies exists|
                    a: int,
                | 0 <= a < idx.len() && #[trigger] idx[a] == b2 by {
                    if b2 == b {
                        assert(idx[idx.len() - 1] == b2);
                    } else {
                        let a = choose|a: int| 0 <= a < idx_before.len() && #[trigger] idx_before[a] == b2;
                        assert(idx[a] == idx_before[a]);
                    }
                }
            }
        }
        proof {
            lemma_swept(src, kept@, idx, now, lifetime);
        }
        self.sessions = kept;
    }
}

/// The live sessions of `src`, gathered at the places `idx`, make the
/// store after a sweep.
proof fn lemma_swept<G>(src: Seq<Session<G>>, t: Seq<Session<G>>, idx: Seq<int>, now: u64, lifetime: u64)
    requires
        keys_unique(src),
        idx.len() == t.len(),
        forall|a: int|
            0 <= a < t.len() ==> 0 <= #[trigger] idx[a] < src.len() && t[a] == src[idx[a]] && alive(
                src[idx[a]].created_at,
                now,
                lifetime,
            ),
        forall|a: int, c: int| 0 <= a < c < idx.len() ==> #[trigger] idx[a] > #[trigger] idx[c],
        forall|b: int|
            0 <= b < src.len() && alive(src[b].created_at, now, lifetime) ==> exists|a: int|
                0 <= a < idx.len() && #[trigger] idx[a] == b,
    ensures
        keys_unique(t),
        swept(as_map(src), as_map(t), now, lifetime),
{
    let m0 = as_map(src);
    assert forall|a: int, c: int| 0 <= a < c < t.len() implies #[trigger] t[a].key != #[trigger] t[c].key by {
        assert(idx[a] > idx[c]);
        assert(src[idx[c]].key != src[idx[a]].key);
    }
    assert forall|k: SessionKey| #[trigger] has_key(t, k) <==> (m0.contains_key(k) && alive(
        m0[k].created_at,
        now,
        lifetime,
    )) by {
        if has_key(t, k) {
            let a = choose|a: int| 0 <= a < t.len() && #[trigger] t[a].key == k;
            lemma_map_at(src, idx[a]);
        }
        if m0.contains_key(k) && alive(m0[k].created_at, now, lifetime) {
            let b = choose|b: int| 0 <= b < src.len() && #[trigger] src[b].key == k;
            lemma_map_at(src, b);
            let a = choose|a: int| 0 <= a < idx.len() && #[trigger] idx[a] == b;
            assert(t[a].key == k);
        }
    }
    assert forall|a: int| 0 <= a < t.len() implies m0[#[trigger] t[a].key] == t[a] by {
        lemma_map_at(src, idx[a]);
    }
    assert forall|k: SessionKey| #[trigger] as_map(t).contains_key(k) implies as_map(t)[k] == m0[k] by {
        let a = choose|a: int| 0 <= a < t.len() && #[trigger] t[a].key == k;
        lemma_map_at(t, a);
        lemma_map_at(src, idx[a]);
    }
}

/// A sweep at `created_at + lifetime - eps` keeps a session created at
/// `created_at`, a sweep at `created_at + lifetime + eps` removes it, and
/// a sweep never removes a session created after it.
pub proof fn lemma_sweep_window<G>(
    before: Map<SessionKey, Session<G>>,
    after: Map<SessionKey, Session<G>>,
    key: SessionKey,
    now: u64,
    lifetime: u64,
    eps: u64,
)
    requires
        swept(before, after, now, lifetime),
        before.contains_key(key),
        0 < eps,
    ensures
        now + eps == before[key].created_at + lifetime ==> after.contains_key(key),
        now == before[key].created_at + lifetime + eps ==> !after.contains_key(key),
        before[key].created_at > now ==> after.contains_key(key),
{
}

} // verus!
