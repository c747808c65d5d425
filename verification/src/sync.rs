//! The shared store: the single-threaded [`State`] behind a
//! reader/writer lock.  Any number of readers may hold the lock
//! together; every mutation runs under the exclusive write side, so a
//! reader can never observe a half-updated index.  The lock's
//! invariant is the store's well-formedness, so every state a reader
//! borrows satisfies it.

use vstd::prelude::*;
use vstd::rwlock::{ReadHandle, RwLock, RwLockPredicate, WriteHandle};

use crate::data::State;
use crate::page::Page;

verus! {

/// The lock invariant: only well-formed stores go in.
pub struct StorePred;

impl RwLockPredicate<State> for StorePred {
    open spec fn inv(self, s: State) -> bool {
        s.wf()
    }
}

/// A store behind shared/exclusive locking.  Wrap it in a
/// reference-counted handle to share it between request handlers and
/// the change watcher.
pub struct SyncState {
    inner: RwLock<State, StorePred>,
}

impl SyncState {
    /// A fresh, empty shared store.
    pub fn new() -> (s: SyncState) {
        SyncState { inner: RwLock::new(State::new(), Ghost(StorePred)) }
    }

    /// Shared read access: the borrowed store is well-formed.  The
    /// handle must be released with `release_read`.
    pub fn read(&self) -> (h: ReadHandle<'_, State, StorePred>)
        ensures
            h.view().wf(),
    {
        let h = self.inner.acquire_read();
        proof {
            assert(self.inner.inv(h.view()));
        }
        h
    }

    /// Exclusive write access: the store moves out well-formed, and
    /// only a well-formed store can be put back with `release_write`.
    pub fn write(&self) -> (r: (State, WriteHandle<'_, State, StorePred>))
        ensures
            r.0.wf(),
            forall|s: State| r.1.rwlock().inv(s) == s.wf(),
    {
        let r = self.inner.acquire_write();
        proof {
            assert(r.1.rwlock() == self.inner);
        }
        r
    }

    /// Apply a "create"/"modify" notification for `path` under one
    /// exclusive section: remove whatever is indexed at that path,
    /// then insert the freshly parsed page.  `false` only when the id
    /// space is exhausted, in which case the index is unchanged.
    pub fn handle_create(&self, path: &str, page: Page) -> (ok: bool) {
        let (mut s, h) = self.inner.acquire_write();
        let ok = s.apply_create(page, path);
        h.release_write(s);
        ok
    }

    /// Apply a "remove" notification for `path` under one exclusive
    /// section; a path with nothing indexed is a no-op.
    pub fn handle_remove(&self, path: &str) {
        let (mut s, h) = self.inner.acquire_write();
        s.apply_remove(path);
        h.release_write(s);
    }

    /// Apply a rename notification from `src` to `dst` under one
    /// exclusive section: records indexed at either path are removed,
    /// and the page now at `dst` is inserted.  `false` only when the
    /// id space is exhausted, in which case the index is unchanged.
    pub fn handle_rename(&self, src: &str, dst: &str, page: Page) -> (ok: bool) {
        let (mut s, h) = self.inner.acquire_write();
        let ok = s.apply_rename(src, dst, page);
        h.release_write(s);
        ok
    }
}

} // verus!
