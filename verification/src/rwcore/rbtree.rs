//! The interval lock itself: the borrowed regions, the pending borrows in
//! wait order, and the operations that lock and release intervals.
use core::ops::Range;
use vstd::prelude::*;

use super::frame::lemma_cancel_clears;
use super::live::{
    is_live, lemma_live_bounds, lemma_live_subset, lemma_lock_live, lemma_remove_live,
    lemma_resume_live, live_owners,
};
use super::laws::{law_failed_try_lock_changes_nothing, law_try_lock_succeeds_iff_no_conflict};
use super::model::{
    cancel_spec, disjoint, extend_region, find_owner, find_owner_from, find_pending, lemma_find_pending_from,
    first_conflict, first_cover, holds_lock, is_pending, lemma_find_owner, lemma_find_pending,
    lemma_lock_wf, lemma_lower_bound_from, lemma_remove_region_wf, lemma_resume_wf,
    lemma_lower_bound, lemma_try_lock_wf, lemma_unlock_wf, lock_spec, lower_bound,
    opt_int, pendings_sorted, key_lt, release_spec, resume_range_spec,
    resume_spec, try_lock_spec, unlock_spec, CoreView, Pending, Region,
};
use super::index::{
    add_read, add_write, first_read_cover, first_write_cover, read_index_ok,
    reads_ok, remove_read, remove_write, write_index_ok, writes_ok, Endpoint,
};
use crate::utils::rbtree::{partitioned, RbTree, Weighted};

verus! {

/// Stores the identifier of a blocking reader lock while it is held or
/// pending. `None` while the state is not in use.
#[derive(Debug)]
pub struct ReadLockState {
    id: Option<u64>,
    /// The instance of the interval lock that the state was used with.
    origin: u64,
}

/// Ditto for blocking writer locks.
#[derive(Debug)]
pub struct WriteLockState {
    id: Option<u64>,
    /// The instance of the interval lock that the state was used with.
    origin: u64,
}

/// Ditto for non-blocking reader locks.
#[derive(Debug)]
pub struct TryReadLockState {
    id: Option<u64>,
    /// The instance of the interval lock that the state was used with.
    origin: u64,
}

/// Ditto for non-blocking writer locks.
#[derive(Debug)]
pub struct TryWriteLockState {
    id: Option<u64>,
    /// The instance of the interval lock that the state was used with.
    origin: u64,
}

impl View for ReadLockState {
    type V = Option<u64>;

    closed spec fn view(&self) -> Option<u64> {
        self.id
    }
}

impl View for WriteLockState {
    type V = Option<u64>;

    closed spec fn view(&self) -> Option<u64> {
        self.id
    }
}

impl View for TryReadLockState {
    type V = Option<u64>;

    closed spec fn view(&self) -> Option<u64> {
        self.id
    }
}

impl View for TryWriteLockState {
    type V = Option<u64>;

    closed spec fn view(&self) -> Option<u64> {
        self.id
    }
}

impl ReadLockState {
    /// The interval lock that the state was last used with.
    pub closed spec fn origin(&self) -> u64 {
        self.origin
    }

    /// The instance of the interval lock that the state was last used with.
    pub fn origin_id(&self) -> (r: u64)
        ensures
            r == self.origin(),
    {
        self.origin
    }

    pub fn new() -> (s: Self)
        ensures
            s@ is None,
    {
        ReadLockState { id: None, origin: 0 }
    }

    /// The identifier of the lock that uses this state, if any.
    pub fn id(&self) -> (r: Option<u64>)
        ensures
            r == self@,
    {
        self.id
    }
}

impl WriteLockState {
    /// The interval lock that the state was last used with.
    pub closed spec fn origin(&self) -> u64 {
        self.origin
    }

    /// The instance of the interval lock that the state was last used with.
    pub fn origin_id(&self) -> (r: u64)
        ensures
            r == self.origin(),
    {
        self.origin
    }

    pub fn new() -> (s: Self)
        ensures
            s@ is None,
    {
        WriteLockState { id: None, origin: 0 }
    }

    /// The identifier of the lock that uses this state, if any.
    pub fn id(&self) -> (r: Option<u64>)
        ensures
            r == self@,
    {
        self.id
    }
}

impl TryReadLockState {
    /// The interval lock that the state was last used with.
    pub closed spec fn origin(&self) -> u64 {
        self.origin
    }

    /// The instance of the interval lock that the state was last used with.
    pub fn origin_id(&self) -> (r: u64)
        ensures
            r == self.origin(),
    {
        self.origin
    }

    pub fn new() -> (s: Self)
        ensures
            s@ is None,
    {
        TryReadLockState { id: None, origin: 0 }
    }

    /// The identifier of the lock that uses this state, if any.
    pub fn id(&self) -> (r: Option<u64>)
        ensures
            r == self@,
    {
        self.id
    }
}

impl TryWriteLockState {
    /// The interval lock that the state was last used with.
    pub closed spec fn origin(&self) -> u64 {
        self.origin
    }

    /// The instance of the interval lock that the state was last used with.
    pub fn origin_id(&self) -> (r: u64)
        ensures
            r == self.origin(),
    {
        self.origin
    }

    pub fn new() -> (s: Self)
        ensures
            s@ is None,
    {
        TryWriteLockState { id: None, origin: 0 }
    }

    /// The identifier of the lock that uses this state, if any.
    pub fn id(&self) -> (r: Option<u64>)
        ensures
            r == self@,
    {
        self.id
    }
}

impl Default for ReadLockState {
    fn default() -> (s: Self)
        ensures
            s@ is None,
    {
        Self::new()
    }
}

impl Default for WriteLockState {
    fn default() -> (s: Self)
        ensures
            s@ is None,
    {
        Self::new()
    }
}

impl Default for TryReadLockState {
    fn default() -> (s: Self)
        ensures
            s@ is None,
    {
        Self::new()
    }
}

impl Default for TryWriteLockState {
    fn default() -> (s: Self)
        ensures
            s@ is None,
    {
        Self::new()
    }
}

/// Pending borrows carry no weight: their tree is searched by key only.
impl<InProgress> Weighted for Pending<InProgress> {
    open spec fn weight_spec(&self) -> int {
        0
    }

    fn weight(&self) -> (w: i64) {
        0
    }
}

/// A readers-writer lock optimized for interval locks.
///
/// Reader locks may share indices with each other; a writer lock shares no
/// index with any other lock. A blocking lock borrows the prefix of its
/// interval up to the first conflict and waits there; releasing a lock
/// resumes the pending borrows that wait inside the released region.
#[derive(Debug)]
pub struct RbTreeIntervalRwLockCore<InProgress> {
    reads: Vec<Region>,
    writes: Vec<Region>,
    /// The endpoints of `reads`, ordered by position.
    read_index: RbTree<Endpoint>,
    /// The regions of `writes`, ordered by start.
    write_index: RbTree<Region>,
    /// Ordered by `(start, priority)`; among equal keys the newest first.
    pendings: RbTree<Pending<InProgress>>,
    next_id: u64,
    /// Tells this interval lock apart from others: lock states carry it.
    instance: u64,
}

impl<InProgress> View for RbTreeIntervalRwLockCore<InProgress> {
    type V = CoreView<InProgress>;

    closed spec fn view(&self) -> CoreView<InProgress> {
        CoreView {
            reads: self.reads@,
            writes: self.writes@,
            pendings: self.pendings@,
            next_id: self.next_id,
        }
    }
}

/// A pending borrow that waits before the key `(start, priority)` comes
/// before every one that does not.
proof fn lemma_sorted_partitioned<P>(ps: Seq<Pending<P>>, start: int, priority: int)
    requires
        pendings_sorted(ps),
    ensures
        partitioned(ps, |p: Pending<P>| key_lt(p, start, priority)),
{
    let f = |p: Pending<P>| key_lt(p, start, priority);
    assert forall|i: int, j: int| 0 <= i < j < ps.len() && #[trigger] f(ps[j]) implies #[trigger] f(
        ps[i],
    ) by {
        assert(!key_lt(ps[j], ps[i].start as int, ps[i].priority as int));
    }
}

/// Removing a pending borrow keeps the others in order.
proof fn lemma_sorted_remove<P>(ps: Seq<Pending<P>>, i: int)
    requires
        pendings_sorted(ps),
        0 <= i < ps.len(),
    ensures
        pendings_sorted(ps.remove(i)),
{
    let qs = ps.remove(i);
    assert forall|a: int, b: int| 0 <= a < b < qs.len() implies !key_lt(
        #[trigger] qs[b],
        #[trigger] qs[a].start as int,
        qs[a].priority as int,
    ) by {
        let a2 = if a < i {
            a
        } else {
            a + 1
        };
        let b2 = if b < i {
            b
        } else {
            b + 1
        };
        assert(qs[a] == ps[a2] && qs[b] == ps[b2]);
        assert(!key_lt(ps[b2], ps[a2].start as int, ps[a2].priority as int));
    }
}

/// Where a pending borrow with the key `(start, priority)` goes.
fn lower_bound_exec<InProgress>(ps: &RbTree<Pending<InProgress>>, start: usize, priority: u64) -> (r:
    usize)
    requires
        pendings_sorted(ps@),
    ensures
        r == lower_bound(ps@, start as int, priority as int),
{
    proof {
        lemma_sorted_partitioned(ps@, start as int, priority as int);
        lemma_lower_bound(ps@, start as int, priority as int);
    }
    let ghost key = |p: Pending<InProgress>| key_lt(p, start as int, priority as int);
    let before = |p: &Pending<InProgress>| -> (b: bool)
        ensures
            b == key(*p),
        { p.start < start || (p.start == start && p.priority < priority) };
    let r = ps.partition_point(before, Ghost(key));
    proof {
        let lb = lower_bound(ps@, start as int, priority as int);
        if r < lb {
            assert(key_lt(ps@[r as int], start as int, priority as int));
        }
        if lb < r {
            assert(key_lt(ps@[lb], start as int, priority as int));
        }
    }
    r
}

/// The index of the region of `id`, or the length if there is none.
fn find_owner_exec(rs: &Vec<Region>, id: u64) -> (r: usize)
    ensures
        r == find_owner(rs@, id),
{
    let mut i: usize = 0;
    while i < rs.len() && rs[i].owner != id
        invariant
            i <= rs.len(),
            find_owner_from(rs@, id, i as int) == find_owner(rs@, id),
        decreases rs.len() - i,
    {
        i += 1;
    }
    i
}

/// The index of the pending borrow of `id`, or the length if there is none.
fn find_pending_exec<InProgress>(ps: &RbTree<Pending<InProgress>>, id: u64) -> (r: usize)
    ensures
        r == find_pending(ps@, id),
{
    let ghost owned = |p: Pending<InProgress>| p.owner == id;
    let is_owned = |p: &Pending<InProgress>| -> (b: bool)
        ensures
            b == owned(*p),
        { p.owner == id };
    let r = ps.position(is_owned, Ghost(owned));
    proof {
        lemma_find_pending_from(ps@, id, 0);
        let fp = find_pending(ps@, id);
        if r < fp {
            assert(ps@[r as int].owner == id);
        }
        if fp < r {
            assert(ps@[fp].owner != id);
        }
    }
    r
}

/// Well-formed borrows meet what the indexes need.
proof fn lemma_regions_ok<P>(v: CoreView<P>)
    requires
        v.regions_wf(),
    ensures
        writes_ok(v.writes),
        reads_ok(v.reads),
{
    assert forall|i: int, j: int|
        0 <= i < v.writes.len() && 0 <= j < v.writes.len() && i != j implies v.writes[i].end
        <= v.writes[j].start || v.writes[j].end <= v.writes[i].start by {
        assert(disjoint(v.writes[i], v.writes[j]));
    }
}

impl<InProgress> RbTreeIntervalRwLockCore<InProgress> {
    /// What tells this interval lock apart from others: the creator picks a
    /// value that no other live interval lock has, and lock states carry it.
    pub closed spec fn instance(&self) -> u64 {
        self.instance
    }

    /// The instance of this interval lock.
    pub fn instance_id(&self) -> (r: u64)
        ensures
            r == self.instance(),
    {
        self.instance
    }

    /// The indexes hold the held borrows.
    pub closed spec fn indexed(&self) -> bool {
        &&& read_index_ok(self.read_index@, self.reads@)
        &&& write_index_ok(self.write_index@, self.writes@)
    }

    /// The indexes hold the held borrows, and the locks that hold or wait
    /// for a borrow are few enough for every structure to fit in `usize`.
    pub closed spec fn inv(&self) -> bool {
        &&& self.indexed()
        &&& live_owners(self@).finite()
        &&& live_owners(self@).len() <= usize::MAX / 4
    }

    /// Add the borrow `r` of the given kind.
    fn push_region(&mut self, write: bool, r: Region)
        requires
            old(self).indexed(),
            old(self)@.reads.len() <= usize::MAX / 4,
            old(self)@.writes.len() <= usize::MAX / 4,
            old(self)@.regions_wf(),
            old(self)@.with_regions(write, old(self)@.regions(write).push(r)).regions_wf(),
        ensures
            final(self).instance() == old(self).instance(),
            final(self)@ == old(self)@.with_regions(write, old(self)@.regions(write).push(r)),
            final(self).indexed(),
    {
        let ghost v = self@;
        let ghost v2 = v.with_regions(write, v.regions(write).push(r));
        proof {
            lemma_regions_ok(v);
            lemma_regions_ok(v2);
            super::index::lemma_index_len(self.write_index@, v.writes, self.read_index@, v.reads);
            let n = v.regions(write).len() as int;
            assert(v2.regions(write)[n] == r);
            assert forall|j: int| 0 <= j < v.regions(write).len() implies v2.regions(write)[j] == v.regions(write)[j] by {}
        }
        if write {
            let ghost ws = self.writes@;
            proof {
                assert forall|j: int| 0 <= j < ws.len() implies r.end <= (#[trigger] ws[j]).start || ws[j].end <= r.start by {
                    assert(v2.writes[j] == ws[j]);
                    assert(v2.writes[ws.len() as int] == r);
                }
            }
            self.writes.push(r);
            add_write(&mut self.write_index, Ghost(ws), r);
        } else {
            let ghost rs = self.reads@;
            proof {
                assert forall|j: int| 0 <= j < rs.len() implies (#[trigger] rs[j]).owner != r.owner by {
                    assert(v2.reads[j] == rs[j]);
                    assert(v2.reads[rs.len() as int] == r);
                }
            }
            self.reads.push(r);
            add_read(&mut self.read_index, Ghost(rs), r);
        }
    }

    /// Remove the borrow at index `k` of the given kind and return it.
    fn remove_region(&mut self, write: bool, k: usize) -> (r: Region)
        requires
            old(self).indexed(),
            old(self)@.reads.len() <= usize::MAX / 4,
            old(self)@.writes.len() <= usize::MAX / 4,
            old(self)@.regions_wf(),
            k < old(self)@.regions(write).len(),
        ensures
            final(self).instance() == old(self).instance(),
            r == old(self)@.regions(write)[k as int],
            final(self)@ == old(self)@.with_regions(write, old(self)@.regions(write).remove(k as int)),
            final(self).indexed(),
    {
        proof {
            lemma_regions_ok(self@);
        }
        if write {
            let ghost ws = self.writes@;
            let r = self.writes.remove(k);
            remove_write(&mut self.write_index, Ghost(ws), k, r);
            r
        } else {
            let ghost rs = self.reads@;
            let r = self.reads.remove(k);
            remove_read(&mut self.read_index, Ghost(rs), k, r);
            r
        }
    }

    /// Extend the borrow of `owner` of the given kind to end at `end`, or
    /// add `start..end`.
    fn extend_region_in(&mut self, write: bool, owner: u64, start: usize, end: usize)
        requires
            old(self).indexed(),
            old(self)@.reads.len() <= usize::MAX / 4,
            old(self)@.writes.len() <= usize::MAX / 4,
            old(self)@.regions_wf(),
            old(self)@.with_regions(
                write,
                extend_region(old(self)@.regions(write), owner, start as int, end as int),
            ).regions_wf(),
        ensures
            final(self).instance() == old(self).instance(),
            final(self)@ == old(self)@.with_regions(
                write,
                extend_region(old(self)@.regions(write), owner, start as int, end as int),
            ),
            final(self).indexed(),
    {
        let ghost v = self@;
        let k = if write {
            find_owner_exec(&self.writes, owner)
        } else {
            find_owner_exec(&self.reads, owner)
        };
        let len = if write {
            self.writes.len()
        } else {
            self.reads.len()
        };
        if k < len {
            let ghost rs = v.regions(write);
            let ghost v2 = v.with_regions(write, extend_region(rs, owner, start as int, end as int));
            proof {
                lemma_find_owner(rs, owner);
                lemma_regions_ok(v);
                lemma_regions_ok(v2);
                super::index::lemma_index_len(self.write_index@, v.writes, self.read_index@, v.reads);
            }
            if write {
                let ghost ws = self.writes@;
                let old_r = self.writes[k];
                let n = Region { owner, start: old_r.start, end };
                proof {
                    assert(v2.writes == ws.update(k as int, n));
                    assert(v2.writes[k as int] == n);
                    assert(v2.writes[k as int].start < v2.writes[k as int].end);
                }
                self.writes.set(k, n);
                remove_write(&mut self.write_index, Ghost(ws), k, old_r);
                proof {
                    let ws1 = ws.remove(k as int);
                    assert forall|j: int| 0 <= j < ws1.len() implies n.end <= (#[trigger] ws1[j]).start
                        || ws1[j].end <= n.start by {
                        let j2 = if j < k { j } else { j + 1 };
                        assert(ws1[j] == ws[j2] && v2.writes[j2] == ws[j2] && v2.writes[k as int] == n);
                    }
                    super::index::lemma_index_len(self.write_index@, ws1, self.read_index@, v.reads);
                }
                add_write(&mut self.write_index, Ghost(ws.remove(k as int)), n);
                proof {
                    super::index::lemma_update_same(ws, k as int, n);
                }
            } else {
                let ghost rs0 = self.reads@;
                let old_r = self.reads[k];
                let n = Region { owner, start: old_r.start, end };
                proof {
                    assert(v2.reads == rs0.update(k as int, n));
                    assert(v2.reads[k as int] == n);
                    assert(v2.reads[k as int].start < v2.reads[k as int].end);
                }
                self.reads.set(k, n);
                remove_read(&mut self.read_index, Ghost(rs0), k, old_r);
                proof {
                    let rs1 = rs0.remove(k as int);
                    assert forall|j: int| 0 <= j < rs1.len() implies (#[trigger] rs1[j]).owner != n.owner by {
                        let j2 = if j < k { j } else { j + 1 };
                        assert(rs1[j] == rs0[j2] && v2.reads[j2] == rs0[j2] && v2.reads[k as int] == n);
                    }
                    super::index::lemma_index_len(self.write_index@, v.writes, self.read_index@, rs1);
                }
                add_read(&mut self.read_index, Ghost(rs0.remove(k as int)), n);
                proof {
                    super::index::lemma_update_same(rs0, k as int, n);
                }
            }
        } else {
            self.push_region(write, Region { owner, start, end });
        }
    }
}

impl<InProgress> RbTreeIntervalRwLockCore<InProgress> {
    /// An unlocked interval lock. `instance` tells it apart from other
    /// interval locks: give each one its own.
    pub fn new(instance: u64) -> (s: Self)
        ensures
            s@.reads == Seq::<Region>::empty(),
            s@.writes == Seq::<Region>::empty(),
            s@.pendings == Seq::<Pending<InProgress>>::empty(),
            s@.next_id == 0,
            s@.wf(),
            s.inv(),
            s.instance() == instance,
    {
        proof {
            lemma_live_bounds(CoreView::<InProgress> {
                reads: Seq::empty(),
                writes: Seq::empty(),
                pendings: Seq::empty(),
                next_id: 0,
            });
        }
        RbTreeIntervalRwLockCore {
            reads: Vec::new(),
            writes: Vec::new(),
            read_index: RbTree::new(),
            write_index: RbTree::new(),
            pendings: RbTree::new(),
            next_id: 0,
            instance,
        }
    }

    /// Find the lowest mutably borrowed index in the specified range.
    fn first_write_borrow_in_range(&self, range: &Range<usize>) -> (r: Option<usize>)
        requires
            self.indexed(),
            self@.regions_wf(),
            range.start < range.end,
        ensures
            opt_int(r) == first_cover(self@.writes, range.start as int, range.end as int),
    {
        proof {
            lemma_regions_ok(self@);
        }
        first_write_cover(&self.write_index, Ghost(self.writes@), range.start, range.end)
    }

    /// Find the lowest immutably borrowed index in the specified range.
    fn first_read_borrow_in_range(&self, range: &Range<usize>) -> (r: Option<usize>)
        requires
            self.indexed(),
            self@.regions_wf(),
            range.start < range.end,
        ensures
            opt_int(r) == first_cover(self@.reads, range.start as int, range.end as int),
    {
        proof {
            lemma_regions_ok(self@);
        }
        first_read_cover(&self.read_index, Ghost(self.reads@), range.start, range.end)
    }

    /// The first index of the range at which a lock of the given kind would
    /// conflict with an existing borrow.
    fn first_conflict_in_range(&self, write: bool, range: &Range<usize>) -> (r: Option<usize>)
        requires
            self.indexed(),
            self@.regions_wf(),
            range.start < range.end,
        ensures
            opt_int(r) == first_conflict(self@, write, range.start as int, range.end as int),
    {
        let w = self.first_write_borrow_in_range(range);
        if write {
            let rd = self.first_read_borrow_in_range(range);
            match (w, rd) {
                (None, None) => None,
                (Some(i0), None) => Some(i0),
                (None, Some(i1)) => Some(i1),
                (Some(i0), Some(i1)) => Some(
                    if i0 < i1 {
                        i0
                    } else {
                        i1
                    },
                ),
            }
        } else {
            w
        }
    }

    /// Cancel the pending borrow of the lock `id`, if any.
    fn cancel_borrow(&mut self, id: u64) -> (r: Option<InProgress>)
        requires
            old(self).inv(),
        ensures
            final(self).instance() == old(self).instance(),
            (final(self)@, r) == cancel_spec(old(self)@, id),
            final(self).inv(),
    {
        let pi = find_pending_exec(&self.pendings, id);
        if pi < self.pendings.len() {
            proof {
                lemma_remove_live(self@, false, pi as int, -1);
                lemma_live_subset(self@, self@.with_pendings(self@.pendings.remove(pi as int)), None);
            }
            let p = self.pendings.remove(pi);
            Some(p.in_progress)
        } else {
            None
        }
    }

    /// Attempt to resume and potentially complete the pending borrow at index
    /// `i`. Returns its `in_progress` if it completed.
    fn resume_borrow(&mut self, i: usize) -> (r: Option<InProgress>)
        requires
            i < old(self)@.pendings.len(),
            old(self).indexed(),
            old(self)@.reads.len() <= usize::MAX / 4,
            old(self)@.writes.len() <= usize::MAX / 4,
            old(self)@.regions_wf(),
            old(self)@.pendings_wf(),
            resume_spec(old(self)@, i as int).0.regions_wf(),
        ensures
            final(self).instance() == old(self).instance(),
            (final(self)@, r) == resume_spec(old(self)@, i as int),
            final(self).indexed(),
    {
        let p_start = self.pendings.get(i).start;
        let p_end = self.pendings.get(i).end;
        let owner = self.pendings.get(i).owner;
        let write = self.pendings.get(i).write;
        let priority = self.pendings.get(i).priority;
        let c = self.first_conflict_in_range(write, &(p_start..p_end));
        if let Some(x) = c {
            if x == p_start {
                // No progress
                return None;
            }
        }
        let new_end = match c {
            Some(x) => x,
            None => p_end,
        };
        proof {
            lemma_sorted_remove(self@.pendings, i as int);
        }
        let p = self.pendings.remove(i);
        self.extend_region_in(write, owner, p_start, new_end);
        match c {
            Some(x) => {
                let pos = lower_bound_exec(&self.pendings, x, priority);
                proof {
                    lemma_lower_bound_from(self.pendings@, x as int, priority as int, 0);
                }
                self.pendings.insert(
                    pos,
                    Pending { owner, write, start: x, end: p_end, priority, in_progress: p.in_progress },
                );
                None
            },
            None => Some(p.in_progress),
        }
    }
}


impl<InProgress> RbTreeIntervalRwLockCore<InProgress> {
    /// Resume the pending borrows at the indices `lo..hi`, from the last to
    /// the first. Returns the `in_progress` of those that completed.
    fn resume_range(&mut self, lo: usize, hi: usize) -> (done: Vec<InProgress>)
        requires
            lo <= hi <= old(self)@.pendings.len(),
            old(self)@.regions_wf(),
            old(self)@.pendings_wf(),
            old(self)@.blocked_except(lo as int, hi as int),
            old(self).inv(),
        ensures
            final(self).instance() == old(self).instance(),
            (final(self)@, done@) == resume_range_spec(old(self)@, lo as int, hi as int),
            final(self).inv(),
    {
        let mut done: Vec<InProgress> = Vec::new();
        let mut idx = hi;
        proof {
            assert(Seq::<InProgress>::empty() + resume_range_spec(self@, lo as int, hi as int).1
                =~= resume_range_spec(self@, lo as int, hi as int).1);
        }
        while idx > lo
            invariant
                lo <= idx <= self@.pendings.len(),
                self@.regions_wf(),
                self@.pendings_wf(),
                self@.blocked_except(lo as int, idx as int),
                self.indexed(),
                live_owners(old(self)@).finite(),
                live_owners(old(self)@).len() <= usize::MAX / 4,
                forall|o: int| is_live(self@, o) ==> is_live(old(self)@, o),
                self.instance() == old(self).instance(),
                resume_range_spec(old(self)@, lo as int, hi as int).0 == resume_range_spec(
                    self@,
                    lo as int,
                    idx as int,
                ).0,
                resume_range_spec(old(self)@, lo as int, hi as int).1 == done@
                    + resume_range_spec(self@, lo as int, idx as int).1,
            decreases idx,
        {
            proof {
                lemma_resume_wf(self@, lo as int, idx - 1);
                lemma_live_bounds(self@);
                lemma_live_subset(old(self)@, self@, None);
                lemma_resume_live(self@, idx - 1);
            }
            let ghost before = self@;
            let o = self.resume_borrow(idx - 1);
            proof {
                assert forall|x: int| is_live(self@, x) implies is_live(old(self)@, x) by {
                    assert(is_live(resume_spec(before, idx - 1).0, x));
                    assert(is_live(before, x));
                }
            }
            let ghost rest = resume_range_spec(self@, lo as int, idx - 1).1;
            match o {
                Some(x) => {
                    proof {
                        assert(done@ + (seq![x] + rest) =~= done@.push(x) + rest);
                    }
                    done.push(x);
                },
                None => {},
            }
            idx -= 1;
        }
        proof {
            lemma_live_subset(old(self)@, self@, None);
        }
        done
    }

    /// Remove the borrow of the lock `id` of the given kind and resume the
    /// pending borrows that wait inside the released region.
    fn unlock_inner(&mut self, id: u64, write: bool) -> (done: Vec<InProgress>)
        requires
            old(self)@.wf(),
            old(self).inv(),
            !is_pending(old(self)@, id),
        ensures
            final(self).instance() == old(self).instance(),
            (final(self)@, done@) == release_spec(old(self)@, id, write),
            final(self).inv(),
    {
        let k = if write {
            find_owner_exec(&self.writes, id)
        } else {
            find_owner_exec(&self.reads, id)
        };
        let len = if write {
            self.writes.len()
        } else {
            self.reads.len()
        };
        if k < len {
            let ghost v = self@;
            proof {
                lemma_find_owner(v.regions(write), id);
                assert forall|t: int| 0 <= t < v.pendings.len() implies (
                #[trigger] v.pendings[t]).owner != v.regions(write)[k as int].owner by {}
                lemma_remove_region_wf(v, write, k as int);
                lemma_live_bounds(v);
                lemma_remove_live(v, write, -1, k as int);
                lemma_live_subset(v, v.with_regions(write, v.regions(write).remove(k as int)), None);
            }
            let r = self.remove_region(write, k);
            let lo = lower_bound_exec(&self.pendings, r.start, 0);
            let hi = lower_bound_exec(&self.pendings, r.end, 0);
            self.resume_range(lo, hi)
        } else {
            Vec::new()
        }
    }

    /// Release a reader lock. This is an internal function that assumes the
    /// lock has no pending borrow.
    fn unlock_read_inner(&mut self, id: u64) -> (done: Vec<InProgress>)
        requires
            old(self)@.wf(),
            old(self).inv(),
            !is_pending(old(self)@, id),
        ensures
            final(self).instance() == old(self).instance(),
            (final(self)@, done@) == release_spec(old(self)@, id, false),
            final(self).inv(),
    {
        self.unlock_inner(id, false)
    }

    /// Release a writer lock. This is an internal function that assumes the
    /// lock has no pending borrow.
    fn unlock_write_inner(&mut self, id: u64) -> (done: Vec<InProgress>)
        requires
            old(self)@.wf(),
            old(self).inv(),
            !is_pending(old(self)@, id),
        ensures
            final(self).instance() == old(self).instance(),
            (final(self)@, done@) == release_spec(old(self)@, id, true),
            final(self).inv(),
    {
        self.unlock_inner(id, true)
    }
}


impl<InProgress> RbTreeIntervalRwLockCore<InProgress> {
    /// Borrow `range.start..first_conflict` and, if there is a conflict,
    /// remember a pending borrow there.
    fn lock_inner(&mut self, write: bool, range: Range<usize>, priority: u64, in_progress: InProgress) -> (r: bool)
        requires
            old(self).inv(),
            old(self)@.wf(),
            range.start < range.end,
            old(self)@.next_id < u64::MAX,
            old(self)@.reads.len() + old(self)@.writes.len() + old(self)@.pendings.len() < usize::MAX / 4,
        ensures
            final(self).instance() == old(self).instance(),
            final(self).inv(),
            (final(self)@, r) == lock_spec(
                old(self)@,
                write,
                range.start as int,
                range.end as int,
                priority,
                in_progress,
            ),
            final(self)@.wf(),
    {
        proof {
            lemma_lock_wf(self@, write, range.start as int, range.end as int, priority, in_progress);
            lemma_live_bounds(self@);
            lemma_lock_live(self@, write, range.start as int, range.end as int, priority, in_progress);
            lemma_live_subset(
                self@,
                lock_spec(self@, write, range.start as int, range.end as int, priority, in_progress).0,
                Some(self@.next_id as int),
            );
        }
        let ghost v = self@;
        let ghost fin = lock_spec(v, write, range.start as int, range.end as int, priority, in_progress).0;
        let id = self.next_id;
        let c = self.first_conflict_in_range(write, &range);
        let held_end = match c {
            Some(x) => x,
            None => range.end,
        };
        self.next_id = id + 1;
        if range.start < held_end {
            let region = Region { owner: id, start: range.start, end: held_end };
            proof {
                assert(fin.regions(write) == v.regions(write).push(region));
                assert(fin.regions(!write) == v.regions(!write));
                assert(self@.with_regions(write, self@.regions(write).push(region)).regions_wf()) by {
                    assert(self@.with_regions(write, self@.regions(write).push(region)).reads == fin.reads);
                    assert(self@.with_regions(write, self@.regions(write).push(region)).writes == fin.writes);
                }
            }
            self.push_region(write, region);
        }
        match c {
            Some(x) => {
                let pos = lower_bound_exec(&self.pendings, x, priority);
                proof {
                    lemma_lower_bound_from(self.pendings@, x as int, priority as int, 0);
                }
                self.pendings.insert(
                    pos,
                    Pending { owner: id, write, start: x, end: range.end, priority, in_progress },
                );
            },
            None => {},
        }
        c.is_none()
    }

    /// Acquire a reader lock. Returns `true` if the lock completed at once;
    /// otherwise the lock waits, and its `in_progress` is handed back by the
    /// release that completes it.
    pub fn lock_read(
        &mut self,
        range: Range<usize>,
        priority: u64,
        state: &mut ReadLockState,
        in_progress: InProgress,
    ) -> (r: bool)
        requires
            old(self).inv(),
            old(self)@.wf(),
            range.start < range.end,
            old(state)@ is None,
            old(self)@.next_id < u64::MAX,
            old(self)@.reads.len() + old(self)@.writes.len() + old(self)@.pendings.len() < usize::MAX / 4,
        ensures
            final(state).origin() == old(self).instance(),
            final(self).instance() == old(self).instance(),
            final(self).inv(),
            (final(self)@, r) == lock_spec(
                old(self)@,
                false,
                range.start as int,
                range.end as int,
                priority,
                in_progress,
            ),
            final(state)@ == Some(old(self)@.next_id),
            final(self)@.wf(),
    {
        state.id = Some(self.next_id);
        state.origin = self.instance;
        self.lock_inner(false, range, priority, in_progress)
    }

    /// Acquire a writer lock. Returns `true` if the lock completed at once;
    /// otherwise the lock waits, and its `in_progress` is handed back by the
    /// release that completes it.
    pub fn lock_write(
        &mut self,
        range: Range<usize>,
        priority: u64,
        state: &mut WriteLockState,
        in_progress: InProgress,
    ) -> (r: bool)
        requires
            old(self).inv(),
            old(self)@.wf(),
            range.start < range.end,
            old(state)@ is None,
            old(self)@.next_id < u64::MAX,
            old(self)@.reads.len() + old(self)@.writes.len() + old(self)@.pendings.len() < usize::MAX / 4,
        ensures
            final(state).origin() == old(self).instance(),
            final(self).instance() == old(self).instance(),
            final(self).inv(),
            (final(self)@, r) == lock_spec(
                old(self)@,
                true,
                range.start as int,
                range.end as int,
                priority,
                in_progress,
            ),
            final(state)@ == Some(old(self)@.next_id),
            final(self)@.wf(),
    {
        state.id = Some(self.next_id);
        state.origin = self.instance;
        self.lock_inner(true, range, priority, in_progress)
    }

    /// Borrow the whole range if no existing borrow conflicts.
    fn try_lock_inner(&mut self, write: bool, range: Range<usize>) -> (r: bool)
        requires
            old(self).inv(),
            old(self)@.wf(),
            range.start < range.end,
            old(self)@.next_id < u64::MAX,
            old(self)@.reads.len() + old(self)@.writes.len() + old(self)@.pendings.len() < usize::MAX / 4,
        ensures
            final(self).instance() == old(self).instance(),
            final(self).inv(),
            (final(self)@, r) == try_lock_spec(old(self)@, write, range.start as int, range.end as int),
            final(self)@.wf(),
    {
        proof {
            lemma_try_lock_wf(self@, write, range.start as int, range.end as int);
            lemma_live_bounds(self@);
            lemma_lock_live(self@, write, range.start as int, range.end as int, 0, arbitrary());
            lemma_live_subset(
                self@,
                try_lock_spec(self@, write, range.start as int, range.end as int).0,
                Some(self@.next_id as int),
            );
        }
        if self.first_conflict_in_range(write, &range).is_some() {
            // Failure - borrow conflict
            return false;
        }
        let ghost v = self@;
        let ghost fin = try_lock_spec(v, write, range.start as int, range.end as int).0;
        let region = Region { owner: self.next_id, start: range.start, end: range.end };
        self.next_id = self.next_id + 1;
        proof {
            assert(self@.with_regions(write, self@.regions(write).push(region)).regions_wf()) by {
                assert(self@.with_regions(write, self@.regions(write).push(region)).reads == fin.reads);
                assert(self@.with_regions(write, self@.regions(write).push(region)).writes == fin.writes);
            }
        }
        self.push_region(write, region);
        true
    }

    /// Attempt to acquire a reader lock. (Non-blocking)
    pub fn try_lock_read(&mut self, range: Range<usize>, state: &mut TryReadLockState) -> (r: bool)
        requires
            old(self).inv(),
            old(self)@.wf(),
            range.start < range.end,
            old(state)@ is None,
            old(self)@.next_id < u64::MAX,
            old(self)@.reads.len() + old(self)@.writes.len() + old(self)@.pendings.len() < usize::MAX / 4,
        ensures
            r <==> ((forall|i: int|
                0 <= i < old(self)@.writes.len() ==> !(#[trigger] old(self)@.writes[i]).overlaps(
                    range.start as int,
                    range.end as int,
                )) && (false ==> forall|i: int|
                0 <= i < old(self)@.reads.len() ==> !(#[trigger] old(self)@.reads[i]).overlaps(
                    range.start as int,
                    range.end as int,
                ))),
            !r ==> final(self)@ == old(self)@,
            final(state).origin() == old(self).instance(),
            final(self).instance() == old(self).instance(),
            final(self).inv(),
            (final(self)@, r) == try_lock_spec(
                old(self)@,
                false,
                range.start as int,
                range.end as int,
            ),
            final(state)@ == (if r {
                Some(old(self)@.next_id)
            } else {
                None
            }),
            final(self)@.wf(),
    {
        proof {
            law_try_lock_succeeds_iff_no_conflict(self@, false, range.start as int, range.end as int);
            if !try_lock_spec(self@, false, range.start as int, range.end as int).1 {
                law_failed_try_lock_changes_nothing(self@, false, range.start as int, range.end as int);
            }
        }
        let id = self.next_id;
        state.origin = self.instance;
        let ok = self.try_lock_inner(false, range);
        if ok {
            state.id = Some(id);
        }
        ok
    }

    /// Attempt to acquire a writer lock. (Non-blocking)
    pub fn try_lock_write(&mut self, range: Range<usize>, state: &mut TryWriteLockState) -> (r: bool)
        requires
            old(self).inv(),
            old(self)@.wf(),
            range.start < range.end,
            old(state)@ is None,
            old(self)@.next_id < u64::MAX,
            old(self)@.reads.len() + old(self)@.writes.len() + old(self)@.pendings.len() < usize::MAX / 4,
        ensures
            r <==> ((forall|i: int|
                0 <= i < old(self)@.writes.len() ==> !(#[trigger] old(self)@.writes[i]).overlaps(
                    range.start as int,
                    range.end as int,
                )) && (true ==> forall|i: int|
                0 <= i < old(self)@.reads.len() ==> !(#[trigger] old(self)@.reads[i]).overlaps(
                    range.start as int,
                    range.end as int,
                ))),
            !r ==> final(self)@ == old(self)@,
            final(state).origin() == old(self).instance(),
            final(self).instance() == old(self).instance(),
            final(self).inv(),
            (final(self)@, r) == try_lock_spec(
                old(self)@,
                true,
                range.start as int,
                range.end as int,
            ),
            final(state)@ == (if r {
                Some(old(self)@.next_id)
            } else {
                None
            }),
            final(self)@.wf(),
    {
        proof {
            law_try_lock_succeeds_iff_no_conflict(self@, true, range.start as int, range.end as int);
            if !try_lock_spec(self@, true, range.start as int, range.end as int).1 {
                law_failed_try_lock_changes_nothing(self@, true, range.start as int, range.end as int);
            }
        }
        let id = self.next_id;
        state.origin = self.instance;
        let ok = self.try_lock_inner(true, range);
        if ok {
            state.id = Some(id);
        }
        ok
    }

    /// Cancel the pending borrow of `id`, then release its borrow.
    fn unlock_lock(&mut self, id: u64, write: bool) -> (r: (Option<InProgress>, Vec<InProgress>))
        requires
            old(self).inv(),
            old(self)@.wf(),
        ensures
            final(self).instance() == old(self).instance(),
            final(self).inv(),
            (final(self)@, r.0, r.1@) == unlock_spec(old(self)@, id, write),
            final(self)@.wf(),
    {
        proof {
            lemma_unlock_wf(self@, id, write);
            lemma_cancel_clears(self@, id);
        }
        let cancelled = self.cancel_borrow(id);
        let done = if write {
            self.unlock_write_inner(id)
        } else {
            self.unlock_read_inner(id)
        };
        (cancelled, done)
    }

    /// Release a reader lock. Returns the `in_progress` of its pending borrow
    /// if it was still waiting, and those of the pending borrows that the
    /// release completed, in the order in which they completed.
    pub fn unlock_read(&mut self, state: &mut ReadLockState) -> (r: (Option<InProgress>, Vec<InProgress>))
        requires
            old(self).inv(),
            old(self)@.wf(),
            old(state)@ matches Some(id) && holds_lock(old(self)@, id, false),
            old(state).origin() == old(self).instance(),
        ensures
            final(self).instance() == old(self).instance(),
            final(self).inv(),
            (final(self)@, r.0, r.1@) == unlock_spec(old(self)@, old(state)@->Some_0, false),
            final(state)@ is None,
            final(self)@.wf(),
    {
        let id = state.id.unwrap();
        state.id = None;
        self.unlock_lock(id, false)
    }

    /// Release a writer lock. Returns the `in_progress` of its pending borrow
    /// if it was still waiting, and those of the pending borrows that the
    /// release completed, in the order in which they completed.
    pub fn unlock_write(&mut self, state: &mut WriteLockState) -> (r: (Option<InProgress>, Vec<InProgress>))
        requires
            old(self).inv(),
            old(self)@.wf(),
            old(state)@ matches Some(id) && holds_lock(old(self)@, id, true),
            old(state).origin() == old(self).instance(),
        ensures
            final(self).instance() == old(self).instance(),
            final(self).inv(),
            (final(self)@, r.0, r.1@) == unlock_spec(old(self)@, old(state)@->Some_0, true),
            final(state)@ is None,
            final(self)@.wf(),
    {
        let id = state.id.unwrap();
        state.id = None;
        self.unlock_lock(id, true)
    }

    /// Release a non-blocking reader lock. Returns the `in_progress` of the
    /// pending borrows that the release completed.
    pub fn unlock_try_read(&mut self, state: &mut TryReadLockState) -> (done: Vec<InProgress>)
        requires
            old(self).inv(),
            old(self)@.wf(),
            old(state)@ matches Some(id) && holds_lock(old(self)@, id, false),
            old(state).origin() == old(self).instance(),
        ensures
            final(self).instance() == old(self).instance(),
            final(self).inv(),
            final(self)@ == unlock_spec(old(self)@, old(state)@->Some_0, false).0,
            done@ == unlock_spec(old(self)@, old(state)@->Some_0, false).2,
            final(state)@ is None,
            final(self)@.wf(),
    {
        let id = state.id.unwrap();
        state.id = None;
        let (_cancelled, done) = self.unlock_lock(id, false);
        done
    }

    /// Release a non-blocking writer lock. Returns the `in_progress` of the
    /// pending borrows that the release completed.
    pub fn unlock_try_write(&mut self, state: &mut TryWriteLockState) -> (done: Vec<InProgress>)
        requires
            old(self).inv(),
            old(self)@.wf(),
            old(state)@ matches Some(id) && holds_lock(old(self)@, id, true),
            old(state).origin() == old(self).instance(),
        ensures
            final(self).instance() == old(self).instance(),
            final(self).inv(),
            final(self)@ == unlock_spec(old(self)@, old(state)@->Some_0, true).0,
            done@ == unlock_spec(old(self)@, old(state)@->Some_0, true).2,
            final(state)@ is None,
            final(self)@.wf(),
    {
        let id = state.id.unwrap();
        state.id = None;
        let (_cancelled, done) = self.unlock_lock(id, true);
        done
    }
}

impl<InProgress> RbTreeIntervalRwLockCore<InProgress> {
    /// Whether the lock `id` is waiting for a borrow.
    pub fn is_pending(&self, id: u64) -> (r: bool)
        ensures
            r == is_pending(self@, id),
    {
        let pi = find_pending_exec(&self.pendings, id);
        proof {
            lemma_find_pending(self@.pendings, id);
        }
        pi < self.pendings.len()
    }

    /// Whether the lock `id` holds a borrow of the given kind or waits for
    /// one. Releasing a lock that this does not hold is an error.
    pub fn holds(&self, id: u64, write: bool) -> (r: bool)
        ensures
            r == holds_lock(self@, id, write),
    {
        let k = if write {
            find_owner_exec(&self.writes, id)
        } else {
            find_owner_exec(&self.reads, id)
        };
        let len = if write {
            self.writes.len()
        } else {
            self.reads.len()
        };
        proof {
            lemma_find_owner(self@.regions(write), id);
        }
        if k < len {
            proof {
                assert(self@.regions(write)[k as int].owner == id);
            }
            return true;
        }
        let ghost matching = |p: Pending<InProgress>| p.owner == id && p.write == write;
        let is_matching = |p: &Pending<InProgress>| -> (b: bool)
            ensures
                b == matching(*p),
            { p.owner == id && p.write == write };
        let t = self.pendings.position(is_matching, Ghost(matching));
        if t < self.pendings.len() {
            proof {
                assert(self@.pendings[t as int].owner == id);
            }
            return true;
        }
        false
    }

    /// Whether another lock can be created: identifiers are not reused, and
    /// the held and pending borrows stay few enough for every structure to
    /// fit in `usize`.
    pub fn can_lock(&self) -> (r: bool)
        ensures
            r == (self@.next_id < u64::MAX && self@.reads.len() + self@.writes.len()
                + self@.pendings.len() < usize::MAX / 4),
    {
        let a = self.reads.len();
        let b = self.writes.len();
        let c = self.pendings.len();
        self.next_id < u64::MAX && a < usize::MAX / 4 && b < usize::MAX / 4 && c < usize::MAX / 4
            && a + b + c < usize::MAX / 4
    }

    /// Whether any borrow is held or pending. Dropping a locked interval lock
    /// is an error.
    pub fn is_locked(&self) -> (r: bool)
        ensures
            r == (self@.reads.len() > 0 || self@.writes.len() > 0 || self@.pendings.len() > 0),
    {
        self.reads.len() > 0 || self.writes.len() > 0 || self.pendings.len() > 0
    }

    /// The identifier that the next lock receives.
    pub fn next_id(&self) -> (r: u64)
        ensures
            r == self@.next_id,
    {
        self.next_id
    }
}

impl<InProgress> RbTreeIntervalRwLockCore<InProgress> {
    /// The borrow of the given kind that the lock `id` holds, if any.
    pub fn region(&self, id: u64, write: bool) -> (r: Option<Region>)
        ensures
            match r {
                Some(reg) => reg.owner == id && exists|j: int|
                    0 <= j < self@.regions(write).len() && #[trigger] self@.regions(write)[j] == reg,
                None => forall|j: int|
                    0 <= j < self@.regions(write).len() ==> (#[trigger] self@.regions(write)[j]).owner != id,
            },
    {
        let k = if write {
            find_owner_exec(&self.writes, id)
        } else {
            find_owner_exec(&self.reads, id)
        };
        proof {
            lemma_find_owner(self@.regions(write), id);
        }
        if write {
            if k < self.writes.len() {
                proof {
                    assert(self@.regions(write)[k as int] == self.writes@[k as int]);
                }
                return Some(self.writes[k]);
            }
        } else {
            if k < self.reads.len() {
                proof {
                    assert(self@.regions(write)[k as int] == self.reads@[k as int]);
                }
                return Some(self.reads[k]);
            }
        }
        None
    }

    /// The position, end and kind of the pending borrow of the lock `id`, if
    /// it has one.
    pub fn pending(&self, id: u64) -> (r: Option<(usize, usize, bool)>)
        ensures
            match r {
                Some((start, end, write)) => exists|t: int|
                    0 <= t < self@.pendings.len() && (#[trigger] self@.pendings[t]).owner == id
                        && self@.pendings[t].start == start && self@.pendings[t].end == end
                        && self@.pendings[t].write == write,
                None => !is_pending(self@, id),
            },
    {
        let pi = find_pending_exec(&self.pendings, id);
        proof {
            lemma_find_pending(self@.pendings, id);
        }
        if pi < self.pendings.len() {
            let p = self.pendings.get(pi);
            Some((p.start, p.end, p.write))
        } else {
            None
        }
    }
}

} // verus!
