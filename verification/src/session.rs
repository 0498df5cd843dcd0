use vstd::prelude::*;

use crate::net::Endpoint;

verus! {

/// One UDP session as the table sees it: the downstream peer it
/// serves, and the handle under which the surrounding runtime keeps the
/// session's upstream socket and tasks.
#[derive(Debug, Clone, Copy, PartialEq, Eq, Structural)]
pub struct Session {
    pub key: Endpoint,
    pub handle: usize,
}

/// The UDP session table: a mapping from downstream peer endpoint to
/// session, owned by the listener loop alone.  Entries are inserted on
/// the first datagram of a peer and removed when the reaper asks;
/// removal is idempotent.
pub struct SessionTable {
    entries: Vec<Session>,
}

impl SessionTable {
    pub closed spec fn view(self) -> Seq<Session> {
        self.entries@
    }

    /// No two entries share a peer endpoint.
    pub open spec fn wf(self) -> bool {
        forall|i: int, j: int|
            0 <= i < j < self@.len() ==> (#[trigger] self@[i]).key != (#[trigger] self@[j]).key
    }

    pub open spec fn spec_index_of(self, k: Endpoint) -> Option<int> {
        if exists|i: int| 0 <= i < self@.len() && self@[i].key == k {
            Some(choose|i: int| 0 <= i < self@.len() && self@[i].key == k)
        } else {
            None
        }
    }

    pub open spec fn spec_contains(self, k: Endpoint) -> bool {
        exists|i: int| 0 <= i < self@.len() && (#[trigger] self@[i]).key == k
    }

    /// The handle stored for a peer, if a session exists.
    pub open spec fn spec_get(self, k: Endpoint) -> Option<usize> {
        match self.spec_index_of(k) {
            Some(i) => Some(self@[i].handle),
            None => None,
        }
    }

    pub fn new() -> (r: Self)
        ensures
            r@.len() == 0,
            r.wf(),
            forall|k: Endpoint| !r.spec_contains(k),
    {
        SessionTable { entries: Vec::new() }
    }

    pub fn len(&self) -> (n: usize)
        ensures
            n == self@.len(),
    {
        self.entries.len()
    }

    /// Looks a peer up.
    pub fn get(&self, k: &Endpoint) -> (r: Option<usize>)
        requires
            self.wf(),
        ensures
            r == self.spec_get(*k),
            r is Some <==> self.spec_contains(*k),
    {
        let n = self.entries.len();
        let mut i: usize = 0;
        while i < n
            invariant
                self.wf(),
                i <= n == self@.len(),
                forall|j: int| 0 <= j < i ==> (#[trigger] self@[j]).key != *k,
            decreases n - i,
        {
            if self.entries[i].key == *k {
                proof {
                    assert(self.spec_contains(*k));
                    let w = choose|x: int| 0 <= x < self@.len() && self@[x].key == *k;
                    lemma_unique_session_per_peer(*self, w, i as int);
                }
                return Some(self.entries[i].handle);
            }
            i = i + 1;
        }
        proof {
            if self.spec_contains(*k) {
                let w = choose|x: int| 0 <= x < self@.len() && self@[x].key == *k;
                assert(self@[w].key == *k);
            }
        }
        None
    }

    /// Inserts or updates the session for a peer.  Afterwards the peer
    /// maps to `handle`; every other peer is unaffected; a new entry is
    /// added only when the peer had none, so the table keeps at most
    /// one entry per peer.
    pub fn insert(&mut self, k: Endpoint, handle: usize)
        requires
            old(self).wf(),
        ensures
            final(self).wf(),
            final(self).spec_get(k) == Some(handle),
            final(self).spec_contains(k),
            forall|k2: Endpoint|
                k2 != k ==> #[trigger] final(self).spec_get(k2) == old(self).spec_get(k2),
            forall|k2: Endpoint|
                k2 != k ==> (#[trigger] final(self).spec_contains(k2) == old(self).spec_contains(
                    k2,
                )),
            final(self)@.len() == old(self)@.len() + (if old(self).spec_contains(k) {
                0int
            } else {
                1int
            }),
    {
        let n = self.entries.len();
        let mut i: usize = 0;
        while i < n
            invariant
                old(self).wf(),
                i <= n == self@.len(),
                self@ == old(self)@,
                forall|j: int| 0 <= j < i ==> (#[trigger] self@[j]).key != k,
            decreases n - i,
        {
            if self.entries[i].key == k {
                self.entries.set(i, Session { key: k, handle });
                proof {
                    let se = *self;
                    let ol = *old(self);
                    assert(se@ =~= ol@.update(i as int, Session { key: k, handle }));
                    assert forall|a: int, b: int| 0 <= a < b < se@.len() implies (
                    #[trigger] se@[a]).key != (#[trigger] se@[b]).key by {
                        assert(ol@[a].key != ol@[b].key);
                        assert(se@[a].key == ol@[a].key && se@[b].key == ol@[b].key);
                    }
                    lemma_index_unique(se, k, i as int);
                    lemma_index_unique(ol, k, i as int);
                    assert forall|k2: Endpoint| k2 != k implies #[trigger] se.spec_get(k2)
                        == ol.spec_get(k2) by {
                        lemma_get_other(ol, se, k2);
                    }
                    assert forall|k2: Endpoint| k2 != k implies #[trigger] se.spec_contains(k2)
                        == ol.spec_contains(k2) by {
                        lemma_get_other(ol, se, k2);
                    }
                }
                return ;
            }
            i = i + 1;
        }
        self.entries.push(Session { key: k, handle });
        proof {
            let se = *self;
            let ol = *old(self);
            assert(se@ =~= ol@.push(Session { key: k, handle }));
            assert(!ol.spec_contains(k)) by {
                if ol.spec_contains(k) {
                    let w = choose|x: int| 0 <= x < ol@.len() && ol@[x].key == k;
                    assert(ol@[w].key == k);
                }
            }
            assert forall|a: int, b: int| 0 <= a < b < se@.len() implies (#[trigger] se@[a]).key
                != (#[trigger] se@[b]).key by {
                if b < ol@.len() {
                    assert(ol@[a].key != ol@[b].key);
                } else {
                    assert(se@[b].key == k);
                    assert(se@[a] == ol@[a]);
                    assert(ol@[a].key != k);
                }
            }
            lemma_index_unique(se, k, ol@.len() as int);
            assert forall|k2: Endpoint| k2 != k implies #[trigger] se.spec_get(k2) == ol.spec_get(
                k2,
            ) by {
                lemma_get_other_push(ol, se, k, k2);
            }
            assert forall|k2: Endpoint| k2 != k implies #[trigger] se.spec_contains(k2)
                == ol.spec_contains(k2) by {
                lemma_get_other_push(ol, se, k, k2);
            }
        }
    }

    /// Removes the session of a peer if it has one; removing an absent
    /// peer changes nothing, so a second removal for the same peer is a
    /// no-op.
    pub fn remove(&mut self, k: &Endpoint) -> (removed: Option<usize>)
        requires
            old(self).wf(),
        ensures
            final(self).wf(),
            removed == old(self).spec_get(*k),
            !final(self).spec_contains(*k),
            final(self).spec_get(*k) is None,
            forall|k2: Endpoint|
                k2 != *k ==> #[trigger] final(self).spec_get(k2) == old(self).spec_get(k2),
            forall|k2: Endpoint|
                k2 != *k ==> (#[trigger] final(self).spec_contains(k2) == old(
                    self,
                ).spec_contains(k2)),
            final(self)@.len() == old(self)@.len() - (if old(self).spec_contains(*k) {
                1int
            } else {
                0int
            }),
    {
        let n = self.entries.len();
        let mut i: usize = 0;
        while i < n
            invariant
                old(self).wf(),
                i <= n == self@.len(),
                self@ == old(self)@,
                forall|j: int| 0 <= j < i ==> (#[trigger] self@[j]).key != *k,
            decreases n - i,
        {
            if self.entries[i].key == *k {
                let e = self.entries.remove(i);
                proof {
                    let se = *self;
                    let ol = *old(self);
                    assert(se@ =~= ol@.subrange(0, i as int) + ol@.subrange(
                        i + 1,
                        ol@.len() as int,
                    ));
                    assert forall|a: int, b: int| 0 <= a < b < se@.len() implies (
                    #[trigger] se@[a]).key != (#[trigger] se@[b]).key by {
                        let a0 = if a < i {
                            a
                        } else {
                            a + 1
                        };
                        let b0 = if b < i {
                            b
                        } else {
                            b + 1
                        };
                        assert(se@[a] == ol@[a0] && se@[b] == ol@[b0]);
                        assert(ol@[a0].key != ol@[b0].key);
                    }
                    lemma_index_unique(ol, *k, i as int);
                    assert(!se.spec_contains(*k)) by {
                        if se.spec_contains(*k) {
                            let w = choose|x: int| 0 <= x < se@.len() && se@[x].key == *k;
                            let w0 = if w < i {
                                w
                            } else {
                                w + 1
                            };
                            assert(se@[w] == ol@[w0]);
                            assert(ol@[w0].key == *k);
                            assert(w0 != i);
                        }
                    }
                    assert forall|k2: Endpoint| k2 != *k implies #[trigger] se.spec_get(k2)
                        == ol.spec_get(k2) by {
                        lemma_get_other_remove(ol, se, *k, k2, i as int);
                    }
                    assert forall|k2: Endpoint| k2 != *k implies #[trigger] se.spec_contains(k2)
                        == ol.spec_contains(k2) by {
                        lemma_get_other_remove(ol, se, *k, k2, i as int);
                    }
                }
                return Some(e.handle);
            }
            i = i + 1;
        }
        proof {
            if self.spec_contains(*k) {
                let w = choose|x: int| 0 <= x < self@.len() && self@[x].key == *k;
                assert(self@[w].key == *k);
            }
        }
        None
    }
}

/// In a well-formed table, the entry holding a key is the only one: at
/// no time does the table hold two sessions for one downstream peer.
pub proof fn lemma_unique_session_per_peer(t: SessionTable, i: int, j: int)
    requires
        t.wf(),
        0 <= i < t@.len(),
        0 <= j < t@.len(),
        t@[i].key == t@[j].key,
    ensures
        i == j,
{
    if i < j {
        assert(t@[i].key != t@[j].key);
    } else if j < i {
        assert(t@[j].key != t@[i].key);
    }
}

/// In a well-formed table, any index holding `k` is the index that
/// `spec_index_of` picks.
proof fn lemma_index_unique(t: SessionTable, k: Endpoint, i: int)
    requires
        t.wf(),
        0 <= i < t@.len(),
        t@[i].key == k,
    ensures
        t.spec_index_of(k) == Some(i),
        t.spec_get(k) == Some(t@[i].handle),
{
    assert(t.spec_contains(k));
    let w = choose|x: int| 0 <= x < t@.len() && t@[x].key == k;
    lemma_unique_session_per_peer(t, w, i);
}

/// An update at the key's own slot leaves every other key's view
/// unchanged.
proof fn lemma_get_other(ol: SessionTable, se: SessionTable, k2: Endpoint)
    requires
        ol.wf(),
        se.wf(),
        ol@.len() == se@.len(),
        forall|x: int|
            0 <= x < ol@.len() && (#[trigger] ol@[x]).key == k2 ==> se@[x] == ol@[x],
        forall|x: int|
            0 <= x < se@.len() && (#[trigger] se@[x]).key == k2 ==> se@[x] == ol@[x],
    ensures
        se.spec_get(k2) == ol.spec_get(k2),
        se.spec_contains(k2) == ol.spec_contains(k2),
{
    if ol.spec_contains(k2) {
        let w = choose|x: int| 0 <= x < ol@.len() && ol@[x].key == k2;
        assert(se@[w] == ol@[w]);
        lemma_index_unique(ol, k2, w);
        lemma_index_unique(se, k2, w);
    } else if se.spec_contains(k2) {
        let w = choose|x: int| 0 <= x < se@.len() && se@[x].key == k2;
        assert(se@[w] == ol@[w]);
        assert(ol@[w].key == k2);
    }
}

/// A push of a fresh key leaves every other key's view unchanged.
proof fn lemma_get_other_push(ol: SessionTable, se: SessionTable, k: Endpoint, k2: Endpoint)
    requires
        ol.wf(),
        se.wf(),
        k2 != k,
        se@.len() == ol@.len() + 1,
        forall|x: int| 0 <= x < ol@.len() ==> #[trigger] se@[x] == ol@[x],
        se@[ol@.len() as int].key == k,
    ensures
        se.spec_get(k2) == ol.spec_get(k2),
        se.spec_contains(k2) == ol.spec_contains(k2),
{
    if ol.spec_contains(k2) {
        let w = choose|x: int| 0 <= x < ol@.len() && ol@[x].key == k2;
        assert(se@[w] == ol@[w]);
        lemma_index_unique(ol, k2, w);
        lemma_index_unique(se, k2, w);
    } else if se.spec_contains(k2) {
        let w = choose|x: int| 0 <= x < se@.len() && se@[x].key == k2;
        assert(se@[w].key == k2);
        if w < ol@.len() {
            assert(ol@[w].key == k2);
        }
    }
}

/// A removal at the key's own slot leaves every other key's view
/// unchanged.
proof fn lemma_get_other_remove(
    ol: SessionTable,
    se: SessionTable,
    k: Endpoint,
    k2: Endpoint,
    i: int,
)
    requires
        ol.wf(),
        se.wf(),
        k2 != k,
        0 <= i < ol@.len(),
        ol@[i].key == k,
        se@.len() == ol@.len() - 1,
        forall|x: int| 0 <= x < i ==> #[trigger] se@[x] == ol@[x],
        forall|x: int| i <= x < se@.len() ==> #[trigger] se@[x] == ol@[x + 1],
    ensures
        se.spec_get(k2) == ol.spec_get(k2),
        se.spec_contains(k2) == ol.spec_contains(k2),
{
    if ol.spec_contains(k2) {
        let w = choose|x: int| 0 <= x < ol@.len() && ol@[x].key == k2;
        assert(ol@[w].key == k2);
        assert(w != i);
        let w2 = if w < i {
            w
        } else {
            w - 1
        };
        assert(se@[w2] == ol@[w]);
        lemma_index_unique(ol, k2, w);
        lemma_index_unique(se, k2, w2);
    } else if se.spec_contains(k2) {
        let w = choose|x: int| 0 <= x < se@.len() && se@[x].key == k2;
        assert(se@[w].key == k2);
        let w0 = if w < i {
            w
        } else {
            w + 1
        };
        assert(se@[w] == ol@[w0]);
        assert(ol@[w0].key == k2);
    }
}

/// What a session's inactivity watcher does at a wake: with the counter
/// unchanged since the last wake it asks for the session's removal,
/// otherwise it adopts the new value and waits another round.
#[derive(Debug, Clone, Copy, PartialEq, Eq, Structural)]
pub enum WatcherStep {
    /// No activity for a whole interval: post the session's removal.
    Close,
    /// Activity was seen: carry this baseline into the next interval.
    Continue(u64),
}

/// One wake of the inactivity watcher.  It decides `Close` exactly when
/// the activity counter still holds the value sampled at the previous
/// wake, that is, when no datagram moved in either direction for the
/// whole interval.
pub fn watcher_step(baseline: u64, current: u64) -> (r: WatcherStep)
    ensures
        (r == WatcherStep::Close) <==> current == baseline,
        current != baseline ==> r == WatcherStep::Continue(current),
{
    if current == baseline {
        WatcherStep::Close
    } else {
        WatcherStep::Continue(current)
    }
}

} // verus!
