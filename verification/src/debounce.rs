//! Debouncing of filesystem notifications: events for the same path
//! that arrive within a fixed window are coalesced into one logical
//! event, so an editor's save sequence reindexes a document once, not
//! once per intermediate write.  The watcher feeds raw events in with
//! [`Debouncer::observe`] and drains ripe ones with
//! [`Debouncer::due`]; each handler re-reads the file's full content,
//! so only the last state before the window closes needs to become
//! visible.

use vstd::prelude::*;

use crate::text::str_eq;

verus! {

/// The net effect of a burst of events on one path: its current
/// content must be (re)indexed, or it is gone.
#[derive(Clone, Copy, PartialEq, Eq, Debug, Structural)]
pub enum ChangeKind {
    Sync,
    Removed,
}

/// One coalesced event waiting for its window to close.
pub struct Pending {
    pub path: String,
    pub kind: ChangeKind,
    pub deadline_ms: u64,
}

/// Pending events in first-arrival order, at most one per path.
pub struct Debouncer {
    window_ms: u64,
    pending: Vec<Pending>,
}

/// The entries of `s` whose window has closed by `now`.
pub open spec fn ripe(s: Seq<Pending>, now: u64) -> Seq<Pending> {
    s.filter(|p: Pending| p.deadline_ms <= now)
}

/// The entries of `s` still waiting after `now`.
pub open spec fn waiting(s: Seq<Pending>, now: u64) -> Seq<Pending> {
    s.filter(|p: Pending| p.deadline_ms > now)
}

/// What a drained entry hands to the dispatcher.
pub open spec fn pairs_of(s: Seq<Pending>) -> Seq<(String, ChangeKind)> {
    s.map_values(|p: Pending| (p.path, p.kind))
}

/// The paths of `q` are pairwise distinct.
pub open spec fn distinct_paths(q: Seq<Pending>) -> bool {
    forall|i: int, j: int| 0 <= i < j < q.len() ==> q[i].path@ != q[j].path@
}

/// Some entry of `q` stands for `path`.
pub open spec fn has_entry(q: Seq<Pending>, path: Seq<char>) -> bool {
    exists|i: int| 0 <= i < q.len() && q[i].path@ == path
}

/// `q1` is `q0` with the entry for `path` overwritten in place by
/// `kind` and `deadline`.
pub open spec fn coalesced(
    q0: Seq<Pending>,
    q1: Seq<Pending>,
    path: Seq<char>,
    kind: ChangeKind,
    deadline: u64,
) -> bool {
    &&& q1.len() == q0.len()
    &&& forall|i: int|
        0 <= i < q0.len() ==> (if q0[i].path@ == path {
            q1[i].path@ == path && q1[i].kind == kind && q1[i].deadline_ms == deadline
        } else {
            q1[i] == q0[i]
        })
}

/// `q1` is `q0` with a fresh entry for `path` appended.
pub open spec fn appended(
    q0: Seq<Pending>,
    q1: Seq<Pending>,
    path: Seq<char>,
    kind: ChangeKind,
    deadline: u64,
) -> bool {
    &&& q1.len() == q0.len() + 1
    &&& q1.drop_last() == q0
    &&& q1.last().path@ == path
    &&& q1.last().kind == kind
    &&& q1.last().deadline_ms == deadline
}

/// Keeping only the still-waiting entries keeps the paths pairwise
/// distinct.
proof fn lemma_waiting_distinct(q: Seq<Pending>, now: u64)
    requires
        distinct_paths(q),
    ensures
        distinct_paths(waiting(q, now)),
    decreases q.len(),
{
    reveal(Seq::filter);
    if q.len() > 0 {
        let d = q.drop_last();
        assert(distinct_paths(d));
        lemma_waiting_distinct(d, now);
        let w = waiting(q, now);
        let wd = waiting(d, now);
        if q.last().deadline_ms > now {
            assert(w == wd.push(q.last()));
            assert forall|i: int, j: int| 0 <= i < j < w.len() implies w[i].path@ != w[j].path@ by {
                if j == w.len() - 1 {
                    assert(w[i] == wd[i]);
                    assert(wd.contains(wd[i]));
                    lemma_waiting_contains(d, now, wd[i]);
                    let v = choose|v: int| 0 <= v < d.len() && d[v] == w[i];
                    assert(q[v] == w[i]);
                    assert(q[v].path@ != q[q.len() - 1].path@);
                } else {
                    assert(w[i] == wd[i] && w[j] == wd[j]);
                }
            }
        } else {
            assert(w == wd);
        }
    }
}

/// Every still-waiting entry is one of the queue's entries.
proof fn lemma_waiting_contains(q: Seq<Pending>, now: u64, x: Pending)
    requires
        waiting(q, now).contains(x),
    ensures
        q.contains(x),
    decreases q.len(),
{
    reveal(Seq::filter);
    if q.len() > 0 {
        let d = q.drop_last();
        let w = waiting(q, now);
        let wd = waiting(d, now);
        if q.last().deadline_ms > now && w.last() == x && wd.len() == w.len() - 1 {
            assert(q[q.len() - 1] == x);
        } else {
            let v = choose|v: int| 0 <= v < w.len() && w[v] == x;
            if q.last().deadline_ms > now {
                if v < w.len() - 1 {
                    assert(wd[v] == x);
                    lemma_waiting_contains(d, now, x);
                    let u = choose|u: int| 0 <= u < d.len() && d[u] == x;
                    assert(q[u] == x);
                } else {
                    assert(q[q.len() - 1] == x);
                }
            } else {
                assert(wd[v] == x);
                lemma_waiting_contains(d, now, x);
                let u = choose|u: int| 0 <= u < d.len() && d[u] == x;
                assert(q[u] == x);
            }
        }
    }
}

impl Debouncer {
    /// The coalescing window.
    pub closed spec fn window(self) -> u64 {
        self.window_ms
    }

    /// The queue of coalesced events, in first-arrival order.
    pub closed spec fn queue(self) -> Seq<Pending> {
        self.pending@
    }

    /// At most one pending entry per path.
    pub open spec fn wf(self) -> bool {
        distinct_paths(self.queue())
    }

    /// An empty debouncer with the given window.
    pub fn new(window_ms: u64) -> (d: Debouncer)
        ensures
            d.wf(),
            d.window() == window_ms,
            d.queue().len() == 0,
    {
        Debouncer { window_ms, pending: Vec::new() }
    }

    /// Record one raw event: an entry for the same path is
    /// overwritten with the new kind and a pushed-out deadline, so a
    /// burst collapses to its last event; a new path is appended.
    pub fn observe(&mut self, path: &str, kind: ChangeKind, now_ms: u64)
        requires
            old(self).wf(),
            now_ms + old(self).window() <= u64::MAX,
        ensures
            final(self).wf(),
            final(self).window() == old(self).window(),
            has_entry(old(self).queue(), path@) ==> coalesced(
                old(self).queue(),
                final(self).queue(),
                path@,
                kind,
                (now_ms + old(self).window()) as u64,
            ),
            !has_entry(old(self).queue(), path@) ==> appended(
                old(self).queue(),
                final(self).queue(),
                path@,
                kind,
                (now_ms + old(self).window()) as u64,
            ),
    {
        let deadline_ms = now_ms + self.window_ms;
        let n = self.pending.len();
        let mut i: usize = 0;
        while i < n
            invariant
                *self == *old(self),
                old(self).wf(),
                deadline_ms == (now_ms + old(self).window()) as u64,
                now_ms + old(self).window() <= u64::MAX,
                n == self.pending@.len(),
                i <= n,
                forall|k: int| 0 <= k < i ==> self.pending@[k].path@ != path@,
            decreases n - i,
        {
            if str_eq(self.pending[i].path.as_str(), path) {
                self.pending[i] = Pending { path: String::from_str(path), kind, deadline_ms };
                proof {
                    let q0 = old(self).queue();
                    let q1 = self.queue();
                    assert(deadline_ms == (now_ms + old(self).window()) as u64);
                    assert(q0[i as int].path@ == path@);
                    assert(has_entry(q0, path@));
                    assert forall|j: int| 0 <= j < q0.len() implies q1[j].path@ == q0[j].path@ by {
                        if j != i as int {
                            assert(q1[j] == q0[j]);
                        }
                    }
                    assert forall|j: int|
                        0 <= j < q0.len() && j != i as int implies q0[j].path@ != path@ by {
                        if j < i as int {
                        } else {
                            assert(q0[i as int].path@ != q0[j].path@);
                        }
                    }
                    assert(coalesced(q0, q1, path@, kind, deadline_ms));
                    assert forall|a: int, b: int|
                        0 <= a < b < q1.len() implies q1[a].path@ != q1[b].path@ by {
                        assert(q0[a].path@ != q0[b].path@);
                    }
                    assert(distinct_paths(q1));
                }
                return ;
            }
            i += 1;
        }
        self.pending.push(Pending { path: String::from_str(path), kind, deadline_ms });
        proof {
            assert(self.pending@.drop_last() =~= old(self).pending@);
        }
    }

    /// Drain every event whose window has closed: they come out as
    /// (path, kind) pairs in first-arrival order, and exactly the
    /// still-waiting entries stay, in order.
    pub fn due(&mut self, now_ms: u64) -> (out: Vec<(String, ChangeKind)>)
        requires
            old(self).wf(),
        ensures
            final(self).wf(),
            final(self).window() == old(self).window(),
            out@ == pairs_of(ripe(old(self).queue(), now_ms)),
            final(self).queue() == waiting(old(self).queue(), now_ms),
    {
        let ghost q = self.pending@;
        let mut out: Vec<(String, ChangeKind)> = Vec::new();
        let mut kept: Vec<Pending> = Vec::new();
        let n = self.pending.len();
        let mut i: usize = 0;
        proof {
            assert(q.take(0) =~= Seq::<Pending>::empty());
            reveal_with_fuel(Seq::filter, 1);
            assert(out@ =~= pairs_of(ripe(q.take(0), now_ms)));
            assert(kept@ =~= waiting(q.take(0), now_ms));
        }
        while i < n
            invariant
                n == q.len(),
                self.pending@ == q,
                self.window_ms == old(self).window_ms,
                i <= n,
                out@ == pairs_of(ripe(q.take(i as int), now_ms)),
                kept@ == waiting(q.take(i as int), now_ms),
            decreases n - i,
        {
            proof {
                assert(q.take(i + 1).drop_last() =~= q.take(i as int));
                assert(q.take(i + 1).last() == q[i as int]);
                reveal_with_fuel(Seq::filter, 2);
            }
            let expired = self.pending[i].deadline_ms <= now_ms;
            if expired {
                let path = self.pending[i].path.clone();
                let kind = self.pending[i].kind;
                out.push((path, kind));
                proof {
                    assert(out@ =~= pairs_of(ripe(q.take(i + 1), now_ms)));
                }
            } else {
                let path = self.pending[i].path.clone();
                let kind = self.pending[i].kind;
                let deadline_ms = self.pending[i].deadline_ms;
                kept.push(Pending { path, kind, deadline_ms });
                proof {
                    assert(kept@.last() == q[i as int]);
                    assert(kept@ =~= waiting(q.take(i + 1), now_ms));
                }
            }
            i += 1;
        }
        proof {
            assert(q.take(n as int) =~= q);
        }
        self.pending = kept;
        proof {
            lemma_waiting_distinct(q, now_ms);
        }
        out
    }
}

} // verus!
