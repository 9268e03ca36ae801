//! A readers-writer lock for borrowing subslices of a vector.
use core::ops::Range;
use vstd::prelude::*;

use crate::rwcore::frame::{
    lemma_complete_nonempty, lemma_lock_frame, lemma_lock_progress, lemma_progress_holds, lemma_progress_id,
    lemma_same_lock, lemma_try_lock_complete, lemma_try_lock_frame, lemma_unlock_progress,
    lock_complete, lock_progress,
};
use crate::rwcore::laws::{law_failed_try_lock_changes_nothing, law_lock_completes_iff_try_lock_succeeds};
use crate::rwcore::model::{is_pending, lock_spec, try_lock_spec, unlock_spec, CoreView};
use crate::rwcore::rbtree::{
    RbTreeIntervalRwLockCore, ReadLockState, TryReadLockState, TryWriteLockState, WriteLockState,
};

verus! {

/// Indicates a failure of a non-blocking lock operation.
#[derive(Debug, PartialEq, Eq, Clone, Copy, Structural)]
pub enum TryLockError {
    /// The lock could not be acquired at this time because the operation would
    /// otherwise block.
    WouldBlock,
}

/// A borrow that a guard stands for: the lock `id` of the given kind on
/// `start..end`.
#[derive(Debug, PartialEq, Eq, Clone, Copy, Structural)]
pub struct Borrow {
    pub id: u64,
    pub write: bool,
    pub start: usize,
    pub end: usize,
}

/// The result of polling a pending lock.
#[derive(Debug)]
pub enum LockPoll<Guard, Future> {
    /// The lock completed.
    Ready(Guard),
    /// The lock still waits.
    Pending(Future),
}

/// [`SliceIntervalRwLock`]'s lock guard for a non-blocking reader lock.
#[derive(Debug)]
pub struct TryReadLockGuard {
    state: TryReadLockState,
    borrow: Borrow,
}

/// [`SliceIntervalRwLock`]'s lock guard for a non-blocking writer lock.
#[derive(Debug)]
pub struct TryWriteLockGuard {
    state: TryWriteLockState,
    borrow: Borrow,
}

/// [`SliceIntervalRwLock`]'s lock guard for a reader lock.
#[derive(Debug)]
pub struct ReadLockGuard {
    state: ReadLockState,
    borrow: Borrow,
}

/// [`SliceIntervalRwLock`]'s lock guard for a writer lock.
#[derive(Debug)]
pub struct WriteLockGuard {
    state: WriteLockState,
    borrow: Borrow,
}

/// A pending reader lock of [`SliceIntervalRwLock`], which becomes a
/// [`ReadLockGuard`] when the lock has been acquired.
#[derive(Debug)]
pub struct ReadLockFuture {
    guard: ReadLockGuard,
}

/// A pending writer lock of [`SliceIntervalRwLock`], which becomes a
/// [`WriteLockGuard`] when the lock has been acquired.
#[derive(Debug)]
pub struct WriteLockFuture {
    guard: WriteLockGuard,
}

impl TryReadLockGuard {
    /// The interval lock that granted the guard.
    pub closed spec fn origin(&self) -> u64 {
        self.state.origin()
    }

    /// The instance of the lock that granted the guard.
    pub fn origin_id(&self) -> (r: u64)
        ensures
            r == self.origin(),
    {
        self.state.origin_id()
    }

    #[verifier::type_invariant]
    spec fn inv(self) -> bool {
        self.state@ == Some(self.borrow.id) && !self.borrow.write
    }
}

impl TryWriteLockGuard {
    /// The interval lock that granted the guard.
    pub closed spec fn origin(&self) -> u64 {
        self.state.origin()
    }

    /// The instance of the lock that granted the guard.
    pub fn origin_id(&self) -> (r: u64)
        ensures
            r == self.origin(),
    {
        self.state.origin_id()
    }

    #[verifier::type_invariant]
    spec fn inv(self) -> bool {
        self.state@ == Some(self.borrow.id) && self.borrow.write
    }
}

impl ReadLockGuard {
    /// The interval lock that granted the guard.
    pub closed spec fn origin(&self) -> u64 {
        self.state.origin()
    }

    /// The instance of the lock that granted the guard.
    pub fn origin_id(&self) -> (r: u64)
        ensures
            r == self.origin(),
    {
        self.state.origin_id()
    }

    #[verifier::type_invariant]
    spec fn inv(self) -> bool {
        self.state@ == Some(self.borrow.id) && !self.borrow.write
    }
}

impl WriteLockGuard {
    /// The interval lock that granted the guard.
    pub closed spec fn origin(&self) -> u64 {
        self.state.origin()
    }

    /// The instance of the lock that granted the guard.
    pub fn origin_id(&self) -> (r: u64)
        ensures
            r == self.origin(),
    {
        self.state.origin_id()
    }

    #[verifier::type_invariant]
    spec fn inv(self) -> bool {
        self.state@ == Some(self.borrow.id) && self.borrow.write
    }
}

impl View for TryReadLockGuard {
    type V = Borrow;

    closed spec fn view(&self) -> Borrow {
        self.borrow
    }
}

impl View for TryWriteLockGuard {
    type V = Borrow;

    closed spec fn view(&self) -> Borrow {
        self.borrow
    }
}

impl View for ReadLockGuard {
    type V = Borrow;

    closed spec fn view(&self) -> Borrow {
        self.borrow
    }
}

impl View for WriteLockGuard {
    type V = Borrow;

    closed spec fn view(&self) -> Borrow {
        self.borrow
    }
}

impl ReadLockFuture {
    /// The interval lock that the future waits on.
    pub closed spec fn origin(&self) -> u64 {
        self.guard.origin()
    }

    /// The instance of the lock that the future waits on.
    pub fn origin_id(&self) -> (r: u64)
        ensures
            r == self.origin(),
    {
        self.guard.origin_id()
    }
}

impl View for ReadLockFuture {
    type V = Borrow;

    closed spec fn view(&self) -> Borrow {
        self.guard.borrow
    }
}

impl WriteLockFuture {
    /// The interval lock that the future waits on.
    pub closed spec fn origin(&self) -> u64 {
        self.guard.origin()
    }

    /// The instance of the lock that the future waits on.
    pub fn origin_id(&self) -> (r: u64)
        ensures
            r == self.origin(),
    {
        self.guard.origin_id()
    }
}

impl View for WriteLockFuture {
    type V = Borrow;

    closed spec fn view(&self) -> Borrow {
        self.guard.borrow
    }
}

impl TryReadLockGuard {
    /// The borrow that this guard stands for.
    pub fn borrow(&self) -> (b: Borrow)
        ensures
            b == self@,
            !b.write,
    {
        proof {
            use_type_invariant(self);
        }
        self.borrow
    }
}

impl TryWriteLockGuard {
    /// The borrow that this guard stands for.
    pub fn borrow(&self) -> (b: Borrow)
        ensures
            b == self@,
            b.write,
    {
        proof {
            use_type_invariant(self);
        }
        self.borrow
    }
}

impl ReadLockGuard {
    /// The borrow that this guard stands for.
    pub fn borrow(&self) -> (b: Borrow)
        ensures
            b == self@,
            !b.write,
    {
        proof {
            use_type_invariant(self);
        }
        self.borrow
    }
}

impl WriteLockGuard {
    /// The borrow that this guard stands for.
    pub fn borrow(&self) -> (b: Borrow)
        ensures
            b == self@,
            b.write,
    {
        proof {
            use_type_invariant(self);
        }
        self.borrow
    }
}

impl ReadLockFuture {
    /// The borrow that this pending lock stands for.
    pub fn borrow(&self) -> (b: Borrow)
        ensures
            b == self@,
            !b.write,
    {
        self.guard.borrow()
    }
}

impl WriteLockFuture {
    /// The borrow that this pending lock stands for.
    pub fn borrow(&self) -> (b: Borrow)
        ensures
            b == self@,
            b.write,
    {
        self.guard.borrow()
    }
}

/// The lock state `v` holds the borrow `b` in full, within `len` elements.
pub open spec fn grants_in(v: CoreView<u64>, len: int, b: Borrow) -> bool {
    &&& lock_complete(v, b.id, b.write, b.start as int, b.end as int)
    &&& b.end <= len
}

/// The lock state `v` holds the borrow `b` in full, or a prefix of it while
/// the lock waits for the rest, within `len` elements.
pub open spec fn tracks_in(v: CoreView<u64>, len: int, b: Borrow) -> bool {
    &&& lock_progress(v, b.id, b.write, b.start as int, b.end as int)
    &&& b.end <= len
}

/// A lock holds at most one borrow of each kind.
proof fn lemma_region_unique(v: CoreView<u64>, id: u64, write: bool)
    requires
        v.wf(),
    ensures
        forall|j: int, k: int|
            0 <= j < v.regions(write).len() && 0 <= k < v.regions(write).len() && (
            #[trigger] v.regions(write)[j]).owner == id && (#[trigger] v.regions(write)[k]).owner
                == id ==> j == k,
{
    assert forall|j: int, k: int|
        0 <= j < v.regions(write).len() && 0 <= k < v.regions(write).len() && (
        #[trigger] v.regions(write)[j]).owner == id && (#[trigger] v.regions(write)[k]).owner
            == id implies j == k by {
        if write {
            assert(v.writes[j] == v.regions(write)[j] && v.writes[k] == v.regions(write)[k]);
        } else {
            assert(v.reads[j] == v.regions(write)[j] && v.reads[k] == v.regions(write)[k]);
        }
    }
}

/// A lock has at most one pending borrow.
proof fn lemma_pending_unique(v: CoreView<u64>, id: u64)
    requires
        v.wf(),
    ensures
        forall|j: int, k: int|
            0 <= j < v.pendings.len() && 0 <= k < v.pendings.len() && (#[trigger] v.pendings[j]).owner
                == id && (#[trigger] v.pendings[k]).owner == id ==> j == k,
{
}

/// A non-blocking lock keeps every existing borrow.
proof fn lemma_try_keeps(v: CoreView<u64>, write: bool, s: int, e: int, len: int)
    requires
        v.wf(),
    ensures
        forall|b: Borrow| #[trigger] grants_in(v, len, b) ==> grants_in(try_lock_spec(v, write, s, e).0, len, b),
        forall|b: Borrow| #[trigger] tracks_in(v, len, b) ==> tracks_in(try_lock_spec(v, write, s, e).0, len, b),
{
    assert forall|b: Borrow| #[trigger] tracks_in(v, len, b) implies tracks_in(try_lock_spec(v, write, s, e).0, len, b) by {
        lemma_progress_id(v, b.id, b.write, b.start as int, b.end as int);
        lemma_try_lock_frame(v, write, s, e, b.id);
        lemma_same_lock(v, try_lock_spec(v, write, s, e).0, b.id, b.write, b.start as int, b.end as int);
    }
    assert forall|b: Borrow| #[trigger] grants_in(v, len, b) implies grants_in(try_lock_spec(v, write, s, e).0, len, b) by {
        lemma_progress_id(v, b.id, b.write, b.start as int, b.end as int);
        lemma_try_lock_frame(v, write, s, e, b.id);
        lemma_same_lock(v, try_lock_spec(v, write, s, e).0, b.id, b.write, b.start as int, b.end as int);
    }
}

/// A blocking lock keeps every existing borrow.
proof fn lemma_lock_keeps(v: CoreView<u64>, write: bool, s: int, e: int, priority: u64, ip: u64, len: int)
    requires
        v.wf(),
    ensures
        forall|b: Borrow| #[trigger] grants_in(v, len, b) ==> grants_in(lock_spec(v, write, s, e, priority, ip).0, len, b),
        forall|b: Borrow| #[trigger] tracks_in(v, len, b) ==> tracks_in(lock_spec(v, write, s, e, priority, ip).0, len, b),
{
    let v2 = lock_spec(v, write, s, e, priority, ip).0;
    assert forall|b: Borrow| #[trigger] tracks_in(v, len, b) implies tracks_in(v2, len, b) by {
        lemma_progress_id(v, b.id, b.write, b.start as int, b.end as int);
        lemma_lock_frame(v, write, s, e, priority, ip, b.id);
        lemma_same_lock(v, v2, b.id, b.write, b.start as int, b.end as int);
    }
    assert forall|b: Borrow| #[trigger] grants_in(v, len, b) implies grants_in(v2, len, b) by {
        lemma_progress_id(v, b.id, b.write, b.start as int, b.end as int);
        lemma_lock_frame(v, write, s, e, priority, ip, b.id);
        lemma_same_lock(v, v2, b.id, b.write, b.start as int, b.end as int);
    }
}

/// Releasing a lock keeps every borrow of the other locks.
proof fn lemma_unlock_keeps(v: CoreView<u64>, id: u64, write: bool, len: int)
    requires
        v.wf(),
    ensures
        forall|b: Borrow| b.id != id && #[trigger] grants_in(v, len, b) ==> grants_in(unlock_spec(v, id, write).0, len, b),
        forall|b: Borrow| b.id != id && #[trigger] tracks_in(v, len, b) ==> tracks_in(unlock_spec(v, id, write).0, len, b),
{
    let v2 = unlock_spec(v, id, write).0;
    assert forall|b: Borrow| b.id != id && #[trigger] tracks_in(v, len, b) implies tracks_in(v2, len, b) by {
        lemma_unlock_progress(v, id, write, b.id, b.write, b.start as int, b.end as int);
    }
    assert forall|b: Borrow| b.id != id && #[trigger] grants_in(v, len, b) implies grants_in(v2, len, b) by {
        lemma_unlock_progress(v, id, write, b.id, b.write, b.start as int, b.end as int);
    }
}

/// A specialized readers-writer lock for borrowing subslices of a vector.
///
/// Reader locks may share elements with each other; a writer lock shares no
/// element with any other lock.
#[derive(Debug)]
pub struct SliceIntervalRwLock<Element> {
    container: Vec<Element>,
    /// The pending borrows carry the identifier of their lock, which the
    /// releases that complete them hand back.
    raw: RbTreeIntervalRwLockCore<u64>,
}

impl<Element> SliceIntervalRwLock<Element> {
    /// The state of the interval lock.
    pub closed spec fn raw(&self) -> CoreView<u64> {
        self.raw@
    }

    /// What tells this lock apart from others; guards carry it.
    pub closed spec fn instance(&self) -> u64 {
        self.raw.instance()
    }

    /// The instance of this lock.
    pub fn instance_id(&self) -> (r: u64)
        ensures
            r == self.instance(),
    {
        self.raw.instance_id()
    }

    /// The elements of the underlying vector.
    pub closed spec fn elements(&self) -> Seq<Element> {
        self.container@
    }

    /// The search trees of the interval lock hold its borrows.
    pub closed spec fn indexed(&self) -> bool {
        self.raw.inv()
    }

    pub open spec fn wf(&self) -> bool {
        self.raw().wf() && self.indexed()
    }

    /// No borrow is held or pending.
    pub open spec fn unlocked(&self) -> bool {
        &&& self.raw().reads.len() == 0
        &&& self.raw().writes.len() == 0
        &&& self.raw().pendings.len() == 0
    }

    /// The borrow `b` is held in full.
    pub open spec fn grants(&self, b: Borrow) -> bool {
        grants_in(self.raw(), self.elements().len() as int, b)
    }

    /// The borrow `b` is held in full, or a prefix of it is held and the lock
    /// waits for the rest.
    pub open spec fn tracks(&self, b: Borrow) -> bool {
        tracks_in(self.raw(), self.elements().len() as int, b)
    }

    /// Every borrow of a lock other than `except` that `self` holds or
    /// tracks, `new` still holds or tracks.
    pub open spec fn keeps(self, new: Self, except: Option<u64>) -> bool {
        &&& forall|b: Borrow| Some(b.id) != except && #[trigger] self.grants(b) ==> new.grants(b)
        &&& forall|b: Borrow| Some(b.id) != except && #[trigger] self.tracks(b) ==> new.tracks(b)
    }

    /// A lock over `container`. `instance` tells it apart from other locks:
    /// give each one its own.
    pub fn new(container: Vec<Element>, instance: u64) -> (s: Self)
        ensures
            s.elements() == container@,
            s.unlocked(),
            s.raw().next_id == 0,
            s.wf(),
            s.instance() == instance,
    {
        SliceIntervalRwLock { container, raw: RbTreeIntervalRwLockCore::new(instance) }
    }

    /// Replace the contained vector with another one, returning the old one.
    pub fn replace_container(&mut self, container: Vec<Element>) -> (r: Vec<Element>)
        requires
            old(self).unlocked(),
        ensures
            final(self).instance() == old(self).instance(),
            r@ == old(self).elements(),
            final(self).elements() == container@,
            final(self).raw() == old(self).raw(),
            final(self).wf() == old(self).wf(),
    {
        let mut old_container = container;
        core::mem::swap(&mut self.container, &mut old_container);
        old_container
    }

    /// Replace the contained vector with an empty one, returning the old one.
    pub fn take_container(&mut self) -> (r: Vec<Element>)
        requires
            old(self).unlocked(),
        ensures
            final(self).instance() == old(self).instance(),
            r@ == old(self).elements(),
            final(self).elements() == Seq::<Element>::empty(),
            final(self).raw() == old(self).raw(),
            final(self).wf() == old(self).wf(),
    {
        self.replace_container(Vec::new())
    }

    /// Return a mutable reference to the underlying slice.
    pub fn get_mut(&mut self) -> (r: &mut [Element])
        requires
            old(self).unlocked(),
        ensures
            final(self).instance() == old(self).instance(),
            r@ == old(self).elements(),
            final(self).elements() == final(r)@,
            final(self).raw() == old(self).raw(),
            final(self).wf() == old(self).wf(),
    {
        self.container.as_mut_slice()
    }

    /// Whether any borrow is held or pending. Dropping a locked lock is an
    /// error.
    pub fn is_locked(&self) -> (r: bool)
        ensures
            r == !self.unlocked(),
    {
        self.raw.is_locked()
    }

    /// Get the number of elements in the underlying slice.
    pub fn len(&self) -> (r: usize)
        ensures
            r == self.elements().len(),
    {
        self.container.len()
    }

    /// Get a flag indicating whether the underlying slice has no elements.
    pub fn is_empty(&self) -> (r: bool)
        ensures
            r == (self.elements().len() == 0),
    {
        self.len() == 0
    }

    /// Whether another lock can be created and wait.
    pub fn can_lock(&self) -> (r: bool)
        ensures
            r == (self.raw().next_id < u64::MAX && self.raw().reads.len() + self.raw().writes.len()
                + self.raw().pendings.len() < usize::MAX / 4),
    {
        self.raw.can_lock()
    }

    /// Attempt to acquire a reader lock on the specified range.
    pub fn try_read(&mut self, range: Range<usize>, state: TryReadLockState) -> (r: Result<
        TryReadLockGuard,
        TryLockError,
    >)
        requires
            old(self).wf(),
            range.start < range.end <= old(self).elements().len(),
            state@ is None,
            old(self).raw().next_id < u64::MAX,
            old(self).raw().reads.len() + old(self).raw().writes.len() + old(self).raw().pendings.len()
                < usize::MAX / 4,
        ensures
            r is Err ==> final(self).raw() == old(self).raw(),
            r matches Ok(g) ==> g.origin() == old(self).instance(),
            final(self).instance() == old(self).instance(),
            final(self).wf(),
            final(self).elements() == old(self).elements(),
            final(self).raw() == try_lock_spec(old(self).raw(), false, range.start as int, range.end as int).0,
            r is Ok <==> try_lock_spec(old(self).raw(), false, range.start as int, range.end as int).1,
            r matches Ok(g) ==> g@ == (Borrow {
                id: old(self).raw().next_id,
                write: false,
                start: range.start,
                end: range.end,
            }) && final(self).grants(g@),
            r matches Err(err) ==> err == TryLockError::WouldBlock,
            old(self).keeps(*final(self), None),
    {
        proof {
            if !try_lock_spec(self.raw(), false, range.start as int, range.end as int).1 {
                law_failed_try_lock_changes_nothing(self.raw(), false, range.start as int, range.end as int);
            }
        }
        let ghost v = self.raw@;
        let id = self.raw.next_id();
        let start = range.start;
        let end = range.end;
        let mut state = state;
        let ok = self.raw.try_lock_read(range, &mut state);
        proof {
            lemma_try_keeps(v, false, start as int, end as int, self.container@.len() as int);
        }
        if ok {
            proof {
                lemma_try_lock_complete(v, false, start as int, end as int);
            }
            Ok(TryReadLockGuard { state, borrow: Borrow { id, write: false, start, end } })
        } else {
            Err(TryLockError::WouldBlock)
        }
    }

    /// Acquire a reader lock on the specified range. The range must be free of
    /// conflicting borrows: a lock that may have to wait is started with
    /// `async_*`, polled with `poll_*`, and the waiting itself (blocking a
    /// thread or a task) is left to the caller.
    pub fn read(&mut self, range: Range<usize>, priority: u64, state: ReadLockState) -> (g: ReadLockGuard)
        requires
            old(self).wf(),
            range.start < range.end <= old(self).elements().len(),
            state@ is None,
            old(self).raw().next_id < u64::MAX,
            old(self).raw().reads.len() + old(self).raw().writes.len() + old(self).raw().pendings.len()
                < usize::MAX / 4,
            try_lock_spec(old(self).raw(), false, range.start as int, range.end as int).1,
        ensures
            g.origin() == old(self).instance(),
            final(self).instance() == old(self).instance(),
            final(self).wf(),
            final(self).elements() == old(self).elements(),
            final(self).raw() == try_lock_spec(old(self).raw(), false, range.start as int, range.end as int).0,
            g@ == (Borrow { id: old(self).raw().next_id, write: false, start: range.start, end: range.end }),
            final(self).grants(g@),
            old(self).keeps(*final(self), None),
    {
        let ghost v = self.raw@;
        let id = self.raw.next_id();
        let start = range.start;
        let end = range.end;
        let mut state = state;
        proof {
            law_lock_completes_iff_try_lock_succeeds(v, false, start as int, end as int, priority, id);
            lemma_lock_progress(v, false, start as int, end as int, priority, id);
            lemma_lock_keeps(v, false, start as int, end as int, priority, id, self.container@.len() as int);
        }
        self.raw.lock_read(range, priority, &mut state, id);
        ReadLockGuard { state, borrow: Borrow { id, write: false, start, end } }
    }

    /// Start acquiring a reader lock on the specified range. The lock borrows
    /// the range up to the first conflicting borrow and waits there.
    pub fn async_read(&mut self, range: Range<usize>, priority: u64, state: ReadLockState) -> (f: ReadLockFuture)
        requires
            old(self).wf(),
            range.start < range.end <= old(self).elements().len(),
            state@ is None,
            old(self).raw().next_id < u64::MAX,
            old(self).raw().reads.len() + old(self).raw().writes.len() + old(self).raw().pendings.len()
                < usize::MAX / 4,
        ensures
            f.origin() == old(self).instance(),
            final(self).instance() == old(self).instance(),
            final(self).wf(),
            final(self).elements() == old(self).elements(),
            final(self).raw() == lock_spec(
                old(self).raw(),
                false,
                range.start as int,
                range.end as int,
                priority,
                old(self).raw().next_id,
            ).0,
            f@ == (Borrow { id: old(self).raw().next_id, write: false, start: range.start, end: range.end }),
            final(self).tracks(f@),
            old(self).keeps(*final(self), None),
    {
        let ghost v = self.raw@;
        let id = self.raw.next_id();
        let start = range.start;
        let end = range.end;
        let mut state = state;
        proof {
            lemma_lock_progress(v, false, start as int, end as int, priority, id);
            lemma_lock_keeps(v, false, start as int, end as int, priority, id, self.container@.len() as int);
        }
        self.raw.lock_read(range, priority, &mut state, id);
        ReadLockFuture { guard: ReadLockGuard { state, borrow: Borrow { id, write: false, start, end } } }
    }

    /// Check whether a pending reader lock has been acquired.
    pub fn poll_read(&self, f: ReadLockFuture) -> (r: LockPoll<ReadLockGuard, ReadLockFuture>)
        requires
            self.wf(),
            self.tracks(f@),
        ensures
            match r {
                LockPoll::Ready(g) => g@ == f@ && g.origin() == f.origin() && self.grants(g@),
                LockPoll::Pending(f2) => f2@ == f@ && f2.origin() == f.origin() && is_pending(
                    self.raw(),
                    f@.id,
                ),
            },
    {
        let id = f.guard.borrow.id;
        if self.raw.is_pending(id) {
            LockPoll::Pending(f)
        } else {
            LockPoll::Ready(f.guard)
        }
    }

    /// Release a non-blocking reader lock. Returns the identifiers of the
    /// pending locks that the release completed.
    pub fn unlock_try_read(&mut self, guard: TryReadLockGuard) -> (done: Vec<u64>)
        requires
            guard.origin() == old(self).instance(),
            old(self).wf(),
            old(self).grants(guard@),
            guard@.write == false,
        ensures
            final(self).instance() == old(self).instance(),
            final(self).wf(),
            final(self).elements() == old(self).elements(),
            final(self).raw() == unlock_spec(old(self).raw(), guard@.id, false).0,
            done@ == unlock_spec(old(self).raw(), guard@.id, false).2,
            old(self).keeps(*final(self), Some(guard@.id)),
    {
        proof {
            use_type_invariant(&guard);
            let b = guard@;
            lemma_progress_holds(self.raw@, b.id, b.write, b.start as int, b.end as int);
            lemma_unlock_keeps(self.raw@, b.id, false, self.container@.len() as int);
        }
        let mut state = guard.state;
        self.raw.unlock_try_read(&mut state)
    }

    /// Release a reader lock. Returns the identifiers of the pending locks
    /// that the release completed.
    pub fn unlock_read(&mut self, guard: ReadLockGuard) -> (done: Vec<u64>)
        requires
            guard.origin() == old(self).instance(),
            old(self).wf(),
            old(self).grants(guard@),
            guard@.write == false,
        ensures
            final(self).instance() == old(self).instance(),
            final(self).wf(),
            final(self).elements() == old(self).elements(),
            final(self).raw() == unlock_spec(old(self).raw(), guard@.id, false).0,
            done@ == unlock_spec(old(self).raw(), guard@.id, false).2,
            old(self).keeps(*final(self), Some(guard@.id)),
    {
        proof {
            use_type_invariant(&guard);
            let b = guard@;
            lemma_progress_holds(self.raw@, b.id, b.write, b.start as int, b.end as int);
            lemma_unlock_keeps(self.raw@, b.id, false, self.container@.len() as int);
        }
        let mut state = guard.state;
        let (_cancelled, done) = self.raw.unlock_read(&mut state);
        done
    }

    /// Cancel a possibly pending reader lock and release what it borrowed.
    /// Returns the identifiers of the pending locks that the release
    /// completed.
    pub fn cancel_read(&mut self, f: ReadLockFuture) -> (done: Vec<u64>)
        requires
            f.origin() == old(self).instance(),
            old(self).wf(),
            old(self).tracks(f@),
            f@.write == false,
        ensures
            final(self).instance() == old(self).instance(),
            final(self).wf(),
            final(self).elements() == old(self).elements(),
            final(self).raw() == unlock_spec(old(self).raw(), f@.id, false).0,
            done@ == unlock_spec(old(self).raw(), f@.id, false).2,
            old(self).keeps(*final(self), Some(f@.id)),
    {
        let guard = f.guard;
        proof {
            use_type_invariant(&guard);
            let b = guard@;
            lemma_progress_holds(self.raw@, b.id, b.write, b.start as int, b.end as int);
            lemma_unlock_keeps(self.raw@, b.id, false, self.container@.len() as int);
        }
        let mut state = guard.state;
        let (_cancelled, done) = self.raw.unlock_read(&mut state);
        done
    }

    /// Attempt to acquire a writer lock on the specified range.
    pub fn try_write(&mut self, range: Range<usize>, state: TryWriteLockState) -> (r: Result<
        TryWriteLockGuard,
        TryLockError,
    >)
        requires
            old(self).wf(),
            range.start < range.end <= old(self).elements().len(),
            state@ is None,
            old(self).raw().next_id < u64::MAX,
            old(self).raw().reads.len() + old(self).raw().writes.len() + old(self).raw().pendings.len()
                < usize::MAX / 4,
        ensures
            r is Err ==> final(self).raw() == old(self).raw(),
            r matches Ok(g) ==> g.origin() == old(self).instance(),
            final(self).instance() == old(self).instance(),
            final(self).wf(),
            final(self).elements() == old(self).elements(),
            final(self).raw() == try_lock_spec(old(self).raw(), true, range.start as int, range.end as int).0,
            r is Ok <==> try_lock_spec(old(self).raw(), true, range.start as int, range.end as int).1,
            r matches Ok(g) ==> g@ == (Borrow {
                id: old(self).raw().next_id,
                write: true,
                start: range.start,
                end: range.end,
            }) && final(self).grants(g@),
            r matches Err(err) ==> err == TryLockError::WouldBlock,
            old(self).keeps(*final(self), None),
    {
        proof {
            if !try_lock_spec(self.raw(), true, range.start as int, range.end as int).1 {
                law_failed_try_lock_changes_nothing(self.raw(), true, range.start as int, range.end as int);
            }
        }
        let ghost v = self.raw@;
        let id = self.raw.next_id();
        let start = range.start;
        let end = range.end;
        let mut state = state;
        let ok = self.raw.try_lock_write(range, &mut state);
        proof {
            lemma_try_keeps(v, true, start as int, end as int, self.container@.len() as int);
        }
        if ok {
            proof {
                lemma_try_lock_complete(v, true, start as int, end as int);
            }
            Ok(TryWriteLockGuard { state, borrow: Borrow { id, write: true, start, end } })
        } else {
            Err(TryLockError::WouldBlock)
        }
    }

    /// Acquire a writer lock on the specified range. The range must be free of
    /// conflicting borrows: a lock that may have to wait is started with
    /// `async_*`, polled with `poll_*`, and the waiting itself (blocking a
    /// thread or a task) is left to the caller.
    pub fn write(&mut self, range: Range<usize>, priority: u64, state: WriteLockState) -> (g: WriteLockGuard)
        requires
            old(self).wf(),
            range.start < range.end <= old(self).elements().len(),
            state@ is None,
            old(self).raw().next_id < u64::MAX,
            old(self).raw().reads.len() + old(self).raw().writes.len() + old(self).raw().pendings.len()
                < usize::MAX / 4,
            try_lock_spec(old(self).raw(), true, range.start as int, range.end as int).1,
        ensures
            g.origin() == old(self).instance(),
            final(self).instance() == old(self).instance(),
            final(self).wf(),
            final(self).elements() == old(self).elements(),
            final(self).raw() == try_lock_spec(old(self).raw(), true, range.start as int, range.end as int).0,
            g@ == (Borrow { id: old(self).raw().next_id, write: true, start: range.start, end: range.end }),
            final(self).grants(g@),
            old(self).keeps(*final(self), None),
    {
        let ghost v = self.raw@;
        let id = self.raw.next_id();
        let start = range.start;
        let end = range.end;
        let mut state = state;
        proof {
            law_lock_completes_iff_try_lock_succeeds(v, true, start as int, end as int, priority, id);
            lemma_lock_progress(v, true, start as int, end as int, priority, id);
            lemma_lock_keeps(v, true, start as int, end as int, priority, id, self.container@.len() as int);
        }
        self.raw.lock_write(range, priority, &mut state, id);
        WriteLockGuard { state, borrow: Borrow { id, write: true, start, end } }
    }

    /// Start acquiring a writer lock on the specified range. The lock borrows
    /// the range up to the first conflicting borrow and waits there.
    pub fn async_write(&mut self, range: Range<usize>, priority: u64, state: WriteLockState) -> (f: WriteLockFuture)
        requires
            old(self).wf(),
            range.start < range.end <= old(self).elements().len(),
            state@ is None,
            old(self).raw().next_id < u64::MAX,
            old(self).raw().reads.len() + old(self).raw().writes.len() + old(self).raw().pendings.len()
                < usize::MAX / 4,
        ensures
            f.origin() == old(self).instance(),
            final(self).instance() == old(self).instance(),
            final(self).wf(),
            final(self).elements() == old(self).elements(),
            final(self).raw() == lock_spec(
                old(self).raw(),
                true,
                range.start as int,
                range.end as int,
                priority,
                old(self).raw().next_id,
            ).0,
            f@ == (Borrow { id: old(self).raw().next_id, write: true, start: range.start, end: range.end }),
            final(self).tracks(f@),
            old(self).keeps(*final(self), None),
    {
        let ghost v = self.raw@;
        let id = self.raw.next_id();
        let start = range.start;
        let end = range.end;
        let mut state = state;
        proof {
            lemma_lock_progress(v, true, start as int, end as int, priority, id);
            lemma_lock_keeps(v, true, start as int, end as int, priority, id, self.container@.len() as int);
        }
        self.raw.lock_write(range, priority, &mut state, id);
        WriteLockFuture { guard: WriteLockGuard { state, borrow: Borrow { id, write: true, start, end } } }
    }

    /// Check whether a pending writer lock has been acquired.
    pub fn poll_write(&self, f: WriteLockFuture) -> (r: LockPoll<WriteLockGuard, WriteLockFuture>)
        requires
            self.wf(),
            self.tracks(f@),
        ensures
            match r {
                LockPoll::Ready(g) => g@ == f@ && g.origin() == f.origin() && self.grants(g@),
                LockPoll::Pending(f2) => f2@ == f@ && f2.origin() == f.origin() && is_pending(
                    self.raw(),
                    f@.id,
                ),
            },
    {
        let id = f.guard.borrow.id;
        if self.raw.is_pending(id) {
            LockPoll::Pending(f)
        } else {
            LockPoll::Ready(f.guard)
        }
    }

    /// Release a non-blocking writer lock. Returns the identifiers of the
    /// pending locks that the release completed.
    pub fn unlock_try_write(&mut self, guard: TryWriteLockGuard) -> (done: Vec<u64>)
        requires
            guard.origin() == old(self).instance(),
            old(self).wf(),
            old(self).grants(guard@),
            guard@.write == true,
        ensures
            final(self).instance() == old(self).instance(),
            final(self).wf(),
            final(self).elements() == old(self).elements(),
            final(self).raw() == unlock_spec(old(self).raw(), guard@.id, true).0,
            done@ == unlock_spec(old(self).raw(), guard@.id, true).2,
            old(self).keeps(*final(self), Some(guard@.id)),
    {
        proof {
            use_type_invariant(&guard);
            let b = guard@;
            lemma_progress_holds(self.raw@, b.id, b.write, b.start as int, b.end as int);
            lemma_unlock_keeps(self.raw@, b.id, true, self.container@.len() as int);
        }
        let mut state = guard.state;
        self.raw.unlock_try_write(&mut state)
    }

    /// Release a writer lock. Returns the identifiers of the pending locks
    /// that the release completed.
    pub fn unlock_write(&mut self, guard: WriteLockGuard) -> (done: Vec<u64>)
        requires
            guard.origin() == old(self).instance(),
            old(self).wf(),
            old(self).grants(guard@),
            guard@.write == true,
        ensures
            final(self).instance() == old(self).instance(),
            final(self).wf(),
            final(self).elements() == old(self).elements(),
            final(self).raw() == unlock_spec(old(self).raw(), guard@.id, true).0,
            done@ == unlock_spec(old(self).raw(), guard@.id, true).2,
            old(self).keeps(*final(self), Some(guard@.id)),
    {
        proof {
            use_type_invariant(&guard);
            let b = guard@;
            lemma_progress_holds(self.raw@, b.id, b.write, b.start as int, b.end as int);
            lemma_unlock_keeps(self.raw@, b.id, true, self.container@.len() as int);
        }
        let mut state = guard.state;
        let (_cancelled, done) = self.raw.unlock_write(&mut state);
        done
    }

    /// Cancel a possibly pending writer lock and release what it borrowed.
    /// Returns the identifiers of the pending locks that the release
    /// completed.
    pub fn cancel_write(&mut self, f: WriteLockFuture) -> (done: Vec<u64>)
        requires
            f.origin() == old(self).instance(),
            old(self).wf(),
            old(self).tracks(f@),
            f@.write == true,
        ensures
            final(self).instance() == old(self).instance(),
            final(self).wf(),
            final(self).elements() == old(self).elements(),
            final(self).raw() == unlock_spec(old(self).raw(), f@.id, true).0,
            done@ == unlock_spec(old(self).raw(), f@.id, true).2,
            old(self).keeps(*final(self), Some(f@.id)),
    {
        let guard = f.guard;
        proof {
            use_type_invariant(&guard);
            let b = guard@;
            lemma_progress_holds(self.raw@, b.id, b.write, b.start as int, b.end as int);
            lemma_unlock_keeps(self.raw@, b.id, true, self.container@.len() as int);
        }
        let mut state = guard.state;
        let (_cancelled, done) = self.raw.unlock_write(&mut state);
        done
    }

    /// Whether the lock holds the borrow `b` in full. Releasing a borrow that
    /// the lock does not hold is an error.
    pub fn is_held(&self, b: Borrow) -> (r: bool)
        requires
            self.wf(),
        ensures
            r == self.grants(b),
    {
        if b.end > self.container.len() || self.raw.is_pending(b.id) {
            return false;
        }
        match self.raw.region(b.id, b.write) {
            Some(reg) => {
                proof {
                    lemma_region_unique(self.raw(), b.id, b.write);
                }
                reg.start == b.start && reg.end == b.end
            },
            None => false,
        }
    }

    /// Whether the lock holds the borrow `b` in full, or a prefix of it while
    /// it waits for the rest. Cancelling a borrow that the lock does not track
    /// is an error.
    pub fn is_tracked(&self, b: Borrow) -> (r: bool)
        requires
            self.wf(),
        ensures
            r == self.tracks(b),
    {
        if b.end > self.container.len() {
            return false;
        }
        proof {
            lemma_region_unique(self.raw(), b.id, b.write);
            lemma_region_unique(self.raw(), b.id, !b.write);
            lemma_pending_unique(self.raw(), b.id);
        }
        match self.raw.pending(b.id) {
            None => match self.raw.region(b.id, b.write) {
                Some(reg) => reg.start == b.start && reg.end == b.end,
                None => false,
            },
            Some((pos, end, write)) => {
                if write != b.write || end != b.end {
                    return false;
                }
                let reg = self.raw.region(b.id, b.write);
                let other = self.raw.region(b.id, !b.write);
                if b.start < pos {
                    match reg {
                        Some(reg) => reg.start == b.start && reg.end == pos,
                        None => false,
                    }
                } else {
                    pos == b.start && reg.is_none() && other.is_none()
                }
            },
        }
    }

    /// The elements that the borrow `b` covers.
    pub fn slice(&self, b: Borrow) -> (r: &[Element])
        requires
            self.wf(),
            self.grants(b),
        ensures
            r@ == self.elements().subrange(b.start as int, b.end as int),
    {
        proof {
            lemma_complete_nonempty(self.raw(), b.id, b.write, b.start as int, b.end as int);
        }
        &self.container.as_slice()[b.start..b.end]
    }

    /// Replace the element at `i`, which the write borrow `b` covers.
    pub fn set(&mut self, b: Borrow, i: usize, value: Element)
        requires
            old(self).grants(b),
            b.write,
            b.start <= i < b.end,
        ensures
            final(self).instance() == old(self).instance(),
            final(self).elements() == old(self).elements().update(i as int, value),
            final(self).raw() == old(self).raw(),
            final(self).wf() == old(self).wf(),
    {
        self.container.set(i, value);
    }
}

/// Mutual exclusion of the borrows that guards stand for: two borrows of
/// different locks that the lock holds in full at the same time share no
/// element if either of them is a write borrow.
pub proof fn law_granted_borrows_exclusive<Element>(
    lock: &SliceIntervalRwLock<Element>,
    b1: Borrow,
    b2: Borrow,
)
    requires
        lock.wf(),
        lock.grants(b1),
        lock.grants(b2),
        b1.id != b2.id,
        b1.write || b2.write,
    ensures
        b1.end <= b2.start || b2.end <= b1.start,
{
    let v = lock.raw();
    let r1 = v.regions(b1.write);
    let r2 = v.regions(b2.write);
    let j1 = choose|j: int|
        0 <= j < r1.len() && (#[trigger] r1[j]).owner == b1.id && r1[j].start == b1.start
            && r1[j].end == b1.end;
    let j2 = choose|j: int|
        0 <= j < r2.len() && (#[trigger] r2[j]).owner == b2.id && r2[j].start == b2.start
            && r2[j].end == b2.end;
    if b1.write && b2.write {
        assert(crate::rwcore::model::disjoint(v.writes[j1], v.writes[j2]));
    } else if b1.write {
        assert(crate::rwcore::model::disjoint(v.writes[j1], v.reads[j2]));
    } else {
        assert(crate::rwcore::model::disjoint(v.writes[j2], v.reads[j1]));
    }
}

} // verus!
