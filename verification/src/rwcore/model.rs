//! The mathematical model of the interval lock: the borrowed regions, the
//! pending borrows, and the operations on them.
use vstd::prelude::*;

verus! {

/// A borrowed region: the lock `owner` holds the indices `start..end`.
#[derive(Clone, Copy, Debug, PartialEq, Eq, Structural)]
pub struct Region {
    pub owner: u64,
    pub start: usize,
    pub end: usize,
}

impl Region {
    /// The region contains the index `x`.
    pub open spec fn covers(self, x: int) -> bool {
        self.start <= x < self.end
    }

    /// The region shares an index with `s..e`.
    pub open spec fn overlaps(self, s: int, e: int) -> bool {
        self.start < e && s < self.end
    }
}


pub open spec fn max_int(a: int, b: int) -> int {
    if a < b { b } else { a }
}

pub open spec fn min_opt(a: Option<int>, b: Option<int>) -> Option<int> {
    match (a, b) {
        (None, None) => None,
        (Some(x), None) => Some(x),
        (None, Some(y)) => Some(y),
        (Some(x), Some(y)) => Some(if x < y { x } else { y }),
    }
}

/// The lowest index of `s..e` that a region of `rs` covers: the minimum of
/// `max(r.start, s)` over the regions `r` that overlap `s..e`.
pub open spec fn first_cover(rs: Seq<Region>, s: int, e: int) -> Option<int>
    decreases rs.len(),
{
    if rs.len() == 0 {
        None
    } else {
        let rest = first_cover(rs.drop_last(), s, e);
        let r = rs.last();
        if r.overlaps(s, e) {
            min_opt(rest, Some(max_int(r.start as int, s)))
        } else {
            rest
        }
    }
}

/// Some region of `rs` contains `x`.
pub open spec fn seq_covers(rs: Seq<Region>, x: int) -> bool {
    exists|i: int| 0 <= i < rs.len() && #[trigger] rs[i].covers(x)
}

pub proof fn lemma_first_cover(rs: Seq<Region>, s: int, e: int)
    requires
        s < e,
        forall|i: int| 0 <= i < rs.len() ==> #[trigger] rs[i].start < rs[i].end,
    ensures
        match first_cover(rs, s, e) {
            None => forall|i: int| 0 <= i < rs.len() ==> !(#[trigger] rs[i]).overlaps(s, e),
            Some(c) => {
                &&& s <= c < e
                &&& seq_covers(rs, c)
                &&& forall|i: int| 0 <= i < rs.len() && (#[trigger] rs[i]).overlaps(s, e)
                    ==> c <= max_int(rs[i].start as int, s)
            },
        },
    decreases rs.len(),
{
    if rs.len() > 0 {
        let rest = rs.drop_last();
        lemma_first_cover(rest, s, e);
        assert forall|i: int| 0 <= i < rest.len() implies rest[i] == rs[i] by {}
        let r = rs.last();
        let n = rs.len() - 1;
        assert(rs[n] == r);
        match first_cover(rs, s, e) {
            None => {
                assert forall|i: int| 0 <= i < rs.len() implies !(#[trigger] rs[i]).overlaps(s, e) by {
                    if i < n {
                        assert(rest[i] == rs[i]);
                    }
                }
            }
            Some(c) => {
                if r.overlaps(s, e) && c == max_int(r.start as int, s) {
                    assert(rs[n].covers(c));
                } else {
                    let w = choose|i: int| 0 <= i < rest.len() && #[trigger] rest[i].covers(c);
                    assert(rs[w].covers(c));
                }
                assert forall|i: int| 0 <= i < rs.len() && (#[trigger] rs[i]).overlaps(s, e)
                    implies c <= max_int(rs[i].start as int, s) by {
                    if i < n {
                        assert(rest[i] == rs[i]);
                    }
                }

            }
        }
    }
}

/// A pending borrow: the lock `owner` waits at `start` to extend its borrow
/// up to `end`.
#[derive(Debug)]
pub struct Pending<InProgress> {
    pub owner: u64,
    pub write: bool,
    pub start: usize,
    pub end: usize,
    pub priority: u64,
    /// Handed back when the borrow completes or is cancelled.
    pub in_progress: InProgress,
}

/// The state of an interval lock: the read borrows, the write borrows, the
/// pending borrows ordered by position, and the identifier that the next lock
/// will receive.
pub struct CoreView<InProgress> {
    pub reads: Seq<Region>,
    pub writes: Seq<Region>,
    pub pendings: Seq<Pending<InProgress>>,
    pub next_id: u64,
}

/// `p` comes before the key `(start, priority)` in the wait order.
pub open spec fn key_lt<P>(p: Pending<P>, start: int, priority: int) -> bool {
    p.start < start || (p.start == start && p.priority < priority)
}

/// The first index at or after `i` whose entry does not come before the key.
pub open spec fn lower_bound_from<P>(ps: Seq<Pending<P>>, start: int, priority: int, i: int) -> int
    decreases ps.len() - i,
{
    if 0 <= i < ps.len() {
        if key_lt(ps[i], start, priority) {
            lower_bound_from(ps, start, priority, i + 1)
        } else {
            i
        }
    } else {
        ps.len() as int
    }
}

/// Where an entry with the key `(start, priority)` is inserted: before every
/// entry that does not come before it, so that among equal keys the newest
/// comes first.
pub open spec fn lower_bound<P>(ps: Seq<Pending<P>>, start: int, priority: int) -> int {
    lower_bound_from(ps, start, priority, 0)
}

/// The first index at or after `i` of a region owned by `id`, or the length.
pub open spec fn find_owner_from(rs: Seq<Region>, id: u64, i: int) -> int
    decreases rs.len() - i,
{
    if 0 <= i < rs.len() {
        if rs[i].owner == id {
            i
        } else {
            find_owner_from(rs, id, i + 1)
        }
    } else {
        rs.len() as int
    }
}

pub open spec fn find_owner(rs: Seq<Region>, id: u64) -> int {
    find_owner_from(rs, id, 0)
}

/// The first index at or after `i` of a pending borrow of `id`, or the length.
pub open spec fn find_pending_from<P>(ps: Seq<Pending<P>>, id: u64, i: int) -> int
    decreases ps.len() - i,
{
    if 0 <= i < ps.len() {
        if ps[i].owner == id {
            i
        } else {
            find_pending_from(ps, id, i + 1)
        }
    } else {
        ps.len() as int
    }
}

pub open spec fn find_pending<P>(ps: Seq<Pending<P>>, id: u64) -> int {
    find_pending_from(ps, id, 0)
}

/// The first index of `s..e` at which a lock of the given kind conflicts with
/// an existing borrow: writers conflict with every borrow, readers only with
/// write borrows.
pub open spec fn first_conflict<P>(v: CoreView<P>, write: bool, s: int, e: int) -> Option<int> {
    if write {
        min_opt(first_cover(v.writes, s, e), first_cover(v.reads, s, e))
    } else {
        first_cover(v.writes, s, e)
    }
}

/// Extend the region of `owner` to end at `end`, or add the region
/// `start..end` if `owner` has none.
pub open spec fn extend_region(rs: Seq<Region>, owner: u64, start: int, end: int) -> Seq<Region> {
    let k = find_owner(rs, owner);
    if k < rs.len() {
        rs.update(k, Region { owner, start: rs[k].start, end: end as usize })
    } else {
        rs.push(Region { owner, start: start as usize, end: end as usize })
    }
}

impl<P> CoreView<P> {
    pub open spec fn with_reads(self, reads: Seq<Region>) -> Self {
        CoreView { reads, writes: self.writes, pendings: self.pendings, next_id: self.next_id }
    }

    pub open spec fn with_writes(self, writes: Seq<Region>) -> Self {
        CoreView { reads: self.reads, writes, pendings: self.pendings, next_id: self.next_id }
    }

    pub open spec fn with_pendings(self, pendings: Seq<Pending<P>>) -> Self {
        CoreView { reads: self.reads, writes: self.writes, pendings, next_id: self.next_id }
    }

    /// The borrows of the given kind.
    pub open spec fn regions(self, write: bool) -> Seq<Region> {
        if write { self.writes } else { self.reads }
    }

    pub open spec fn with_regions(self, write: bool, rs: Seq<Region>) -> Self {
        if write { self.with_writes(rs) } else { self.with_reads(rs) }
    }

    /// Insert `p` into the pending borrows at its place in the wait order.
    pub open spec fn with_pending_inserted(self, p: Pending<P>) -> Self {
        self.with_pendings(
            self.pendings.insert(lower_bound(self.pendings, p.start as int, p.priority as int), p),
        )
    }
}

/// A new lock of the given kind on `s..e`: it borrows `s..c` where `c` is the
/// first conflicting index, and waits at `c` if there is one. Returns whether
/// the lock completed at once.
pub open spec fn lock_spec<P>(
    v: CoreView<P>,
    write: bool,
    s: int,
    e: int,
    priority: u64,
    in_progress: P,
) -> (CoreView<P>, bool) {
    let id = v.next_id;
    let c = first_conflict(v, write, s, e);
    let held_end = match c {
        Some(x) => x,
        None => e,
    };
    let v1 = if s < held_end {
        v.with_regions(
            write,
            v.regions(write).push(Region { owner: id, start: s as usize, end: held_end as usize }),
        )
    } else {
        v
    };
    let v2 = match c {
        Some(x) => v1.with_pending_inserted(
            Pending {
                owner: id,
                write,
                start: x as usize,
                end: e as usize,
                priority,
                in_progress,
            },
        ),
        None => v1,
    };
    (CoreView { next_id: (id + 1) as u64, ..v2 }, c is None)
}

/// A non-blocking lock of the given kind on `s..e`: it borrows `s..e` if no
/// existing borrow conflicts, and changes nothing otherwise.
pub open spec fn try_lock_spec<P>(v: CoreView<P>, write: bool, s: int, e: int) -> (CoreView<P>, bool) {
    if first_conflict(v, write, s, e) is None {
        let id = v.next_id;
        let v1 = v.with_regions(
            write,
            v.regions(write).push(Region { owner: id, start: s as usize, end: e as usize }),
        );
        (CoreView { next_id: (id + 1) as u64, ..v1 }, true)
    } else {
        (v, false)
    }
}

/// Resume the pending borrow at index `i`: extend its owner's borrow up to the
/// next conflict, and move it there or complete it. Returns the completed
/// borrow's `in_progress`.
pub open spec fn resume_spec<P>(v: CoreView<P>, i: int) -> (CoreView<P>, Option<P>) {
    let p = v.pendings[i];
    let c = first_conflict(v, p.write, p.start as int, p.end as int);
    if c == Some(p.start as int) {
        (v, None)
    } else {
        let new_end = match c {
            Some(x) => x,
            None => p.end as int,
        };
        let v1 = v.with_pendings(v.pendings.remove(i));
        let v2 = v1.with_regions(
            p.write,
            extend_region(v1.regions(p.write), p.owner, p.start as int, new_end),
        );
        match c {
            Some(x) => (
                v2.with_pending_inserted(
                    Pending {
                        owner: p.owner,
                        write: p.write,
                        start: x as usize,
                        end: p.end,
                        priority: p.priority,
                        in_progress: p.in_progress,
                    },
                ),
                None,
            ),
            None => (v2, Some(p.in_progress)),
        }
    }
}

/// Resume the pending borrows at the indices `lo..hi`, from the last to the
/// first. Returns the `in_progress` of those that completed, in the order in
/// which they completed.
pub open spec fn resume_range_spec<P>(v: CoreView<P>, lo: int, hi: int) -> (CoreView<P>, Seq<P>)
    decreases hi - lo,
{
    if hi <= lo {
        (v, Seq::empty())
    } else {
        let (v1, o) = resume_spec(v, hi - 1);
        let (v2, done) = resume_range_spec(v1, lo, hi - 1);
        (
            v2,
            match o {
                Some(x) => seq![x] + done,
                None => done,
            },
        )
    }
}

/// Cancel the pending borrow of the lock `id`, if it has one. Returns its
/// `in_progress`.
pub open spec fn cancel_spec<P>(v: CoreView<P>, id: u64) -> (CoreView<P>, Option<P>) {
    let pi = find_pending(v.pendings, id);
    if pi < v.pendings.len() {
        (v.with_pendings(v.pendings.remove(pi)), Some(v.pendings[pi].in_progress))
    } else {
        (v, None)
    }
}

/// Remove the borrow of the lock `id` of the given kind and resume the
/// pending borrows that wait inside the released region, from the last to
/// the first in the wait order. Returns the `in_progress` of those that
/// completed.
pub open spec fn release_spec<P>(v: CoreView<P>, id: u64, write: bool) -> (CoreView<P>, Seq<P>) {
    let rs = v.regions(write);
    let k = find_owner(rs, id);
    if k < rs.len() {
        let r = rs[k];
        let v2 = v.with_regions(write, rs.remove(k));
        let lo = lower_bound(v2.pendings, r.start as int, 0);
        let hi = lower_bound(v2.pendings, r.end as int, 0);
        resume_range_spec(v2, lo, hi)
    } else {
        (v, Seq::empty())
    }
}

/// Release the lock `id` of the given kind: cancel its pending borrow, then
/// remove its borrow and resume the pending borrows that wait inside the
/// released region. Returns the cancelled borrow's `in_progress` and those of
/// the borrows that completed.
pub open spec fn unlock_spec<P>(v: CoreView<P>, id: u64, write: bool) -> (CoreView<P>, Option<P>, Seq<P>) {
    let (v1, cancelled) = cancel_spec(v, id);
    let (v2, done) = release_spec(v1, id, write);
    (v2, cancelled, done)
}

/// The lock `id` holds a borrow of the given kind or waits for one.
pub open spec fn holds_lock<P>(v: CoreView<P>, id: u64, write: bool) -> bool {
    ||| exists|j: int| 0 <= j < v.regions(write).len() && #[trigger] v.regions(write)[j].owner == id
    ||| exists|t: int|
        0 <= t < v.pendings.len() && (#[trigger] v.pendings[t]).owner == id && v.pendings[t].write
            == write
}

/// The lock `id` waits for a borrow.
pub open spec fn is_pending<P>(v: CoreView<P>, id: u64) -> bool {
    exists|t: int| 0 <= t < v.pendings.len() && (#[trigger] v.pendings[t]).owner == id
}

pub open spec fn opt_int(o: Option<usize>) -> Option<int> {
    match o {
        Some(x) => Some(x as int),
        None => None,
    }
}


/// The two regions share no index.
pub open spec fn disjoint(a: Region, b: Region) -> bool {
    a.end <= b.start || b.end <= a.start
}

/// A lock of the given kind would conflict with an existing borrow at `x`.
pub open spec fn conflicts_at<P>(v: CoreView<P>, write: bool, x: int) -> bool {
    seq_covers(v.writes, x) || (write && seq_covers(v.reads, x))
}

/// The pending borrow cannot make progress: a conflicting borrow holds the
/// index it waits at.
pub open spec fn blocked<P>(v: CoreView<P>, p: Pending<P>) -> bool {
    conflicts_at(v, p.write, p.start as int)
}

/// The entries are ordered by `(start, priority)`.
pub open spec fn pendings_sorted<P>(ps: Seq<Pending<P>>) -> bool {
    forall|i: int, j: int|
        #![trigger ps[i], ps[j]]
        0 <= i < j < ps.len() ==> !key_lt(ps[j], ps[i].start as int, ps[i].priority as int)
}

/// Every region is non-empty and no two regions have the same owner.
pub open spec fn regions_ok(rs: Seq<Region>, next_id: u64) -> bool {
    &&& forall|i: int| 0 <= i < rs.len() ==> #[trigger] rs[i].start < rs[i].end
    &&& forall|i: int| 0 <= i < rs.len() ==> #[trigger] rs[i].owner < next_id
    &&& forall|i: int, j: int|
        #![trigger rs[i], rs[j]]
        0 <= i < rs.len() && 0 <= j < rs.len() && i != j ==> rs[i].owner != rs[j].owner
}

impl<P> CoreView<P> {
    /// The borrows are well formed and mutually exclusive: no write borrow
    /// shares an index with another borrow.
    pub open spec fn regions_wf(self) -> bool {
        &&& regions_ok(self.reads, self.next_id)
        &&& regions_ok(self.writes, self.next_id)
        &&& forall|i: int, j: int|
            #![trigger self.reads[i], self.writes[j]]
            0 <= i < self.reads.len() && 0 <= j < self.writes.len()
                ==> self.reads[i].owner != self.writes[j].owner
        &&& forall|i: int, j: int|
            #![trigger self.writes[i], self.writes[j]]
            0 <= i < self.writes.len() && 0 <= j < self.writes.len() && i != j
                ==> disjoint(self.writes[i], self.writes[j])
        &&& forall|i: int, j: int|
            #![trigger self.writes[i], self.reads[j]]
            0 <= i < self.writes.len() && 0 <= j < self.reads.len()
                ==> disjoint(self.writes[i], self.reads[j])
    }

    /// The pending borrows are well formed and ordered, each lock has at most
    /// one, and a lock's borrow ends where its pending borrow waits.
    pub open spec fn pendings_wf(self) -> bool {
        &&& forall|i: int|
            0 <= i < self.pendings.len() ==> #[trigger] self.pendings[i].start
                < self.pendings[i].end
        &&& forall|i: int|
            0 <= i < self.pendings.len() ==> #[trigger] self.pendings[i].owner < self.next_id
        &&& forall|i: int, j: int|
            #![trigger self.pendings[i], self.pendings[j]]
            0 <= i < self.pendings.len() && 0 <= j < self.pendings.len() && i != j
                ==> self.pendings[i].owner != self.pendings[j].owner
        &&& pendings_sorted(self.pendings)
        &&& forall|i: int, j: int|
            #![trigger self.pendings[i], self.reads[j]]
            0 <= i < self.pendings.len() && 0 <= j < self.reads.len() && self.reads[j].owner
                == self.pendings[i].owner ==> !self.pendings[i].write && self.reads[j].end
                == self.pendings[i].start
        &&& forall|i: int, j: int|
            #![trigger self.pendings[i], self.writes[j]]
            0 <= i < self.pendings.len() && 0 <= j < self.writes.len() && self.writes[j].owner
                == self.pendings[i].owner ==> self.pendings[i].write && self.writes[j].end
                == self.pendings[i].start
    }

    /// Every pending borrow outside the indices `a..b` is blocked.
    pub open spec fn blocked_except(self, a: int, b: int) -> bool {
        forall|i: int|
            0 <= i < self.pendings.len() && !(a <= i < b) ==> blocked(self, #[trigger] self.pendings[i])
    }

    /// The invariant of the interval lock.
    pub open spec fn wf(self) -> bool {
        &&& self.regions_wf()
        &&& self.pendings_wf()
        &&& self.blocked_except(0, 0)
    }
}


pub proof fn lemma_min_opt(a: Option<int>, b: Option<int>)
    ensures
        min_opt(a, b) is None <==> (a is None && b is None),
        a matches Some(x) ==> min_opt(a, b) matches Some(m) && m <= x,
        b matches Some(y) ==> min_opt(a, b) matches Some(m) && m <= y,
        min_opt(a, b) matches Some(m) ==> (a == Some(m) || b == Some(m)),
{
}

/// Covering an index survives adding a region.
pub proof fn lemma_covers_push(rs: Seq<Region>, r: Region)
    ensures
        forall|x: int| seq_covers(rs, x) ==> #[trigger] seq_covers(rs.push(r), x),
        seq_covers(rs.push(r), r.start as int) || r.end <= r.start,
{
    assert forall|x: int| seq_covers(rs, x) implies #[trigger] seq_covers(rs.push(r), x) by {
        let w = choose|i: int| 0 <= i < rs.len() && #[trigger] rs[i].covers(x);
        assert(rs.push(r)[w] == rs[w]);
    }
    if r.start < r.end {
        assert(rs.push(r)[rs.len() as int] == r);
        assert(rs.push(r)[rs.len() as int].covers(r.start as int));
    }
}

/// The regions of `v2` cover every index that those of `v` cover.
pub open spec fn regions_grow<P>(v: CoreView<P>, v2: CoreView<P>) -> bool {
    &&& forall|x: int| seq_covers(v.writes, x) ==> #[trigger] seq_covers(v2.writes, x)
    &&& forall|x: int| seq_covers(v.reads, x) ==> #[trigger] seq_covers(v2.reads, x)
}

/// The first conflict of a lock on `s..e` is an index of `s..e` at which a
/// conflicting borrow is held, and every conflicting borrow lies at or after
/// it, or before `s`.
pub proof fn lemma_first_conflict<P>(v: CoreView<P>, write: bool, s: int, e: int)
    requires
        s < e,
        v.regions_wf(),
    ensures
        match first_conflict(v, write, s, e) {
            None => {
                &&& forall|i: int|
                    0 <= i < v.writes.len() ==> !(#[trigger] v.writes[i]).overlaps(s, e)
                &&& write ==> forall|i: int|
                    0 <= i < v.reads.len() ==> !(#[trigger] v.reads[i]).overlaps(s, e)
            },
            Some(c) => {
                &&& s <= c < e
                &&& conflicts_at(v, write, c)
                &&& forall|i: int|
                    0 <= i < v.writes.len() ==> (#[trigger] v.writes[i]).end <= s || c
                        <= v.writes[i].start || (c == s && v.writes[i].start <= s)
                &&& write ==> forall|i: int|
                    0 <= i < v.reads.len() ==> (#[trigger] v.reads[i]).end <= s || c
                        <= v.reads[i].start || (c == s && v.reads[i].start <= s)
            },
        },
{
    lemma_first_cover(v.writes, s, e);
    lemma_first_cover(v.reads, s, e);
    lemma_min_opt(first_cover(v.writes, s, e), first_cover(v.reads, s, e));
    match first_conflict(v, write, s, e) {
        None => {}
        Some(c) => {
            assert forall|i: int| 0 <= i < v.writes.len() implies (#[trigger] v.writes[i]).end <= s
                || c <= v.writes[i].start || (c == s && v.writes[i].start <= s) by {
                if v.writes[i].overlaps(s, e) {
                }
            }
            if write {
                assert forall|i: int| 0 <= i < v.reads.len() implies (#[trigger] v.reads[i]).end
                    <= s || c <= v.reads[i].start || (c == s && v.reads[i].start <= s) by {
                    if v.reads[i].overlaps(s, e) {
                    }
                }
            }
        }
    }
}


/// Adding a region `r` of a fresh owner that is disjoint from the conflicting
/// borrows keeps the borrows well formed.
pub proof fn lemma_add_region<P>(v: CoreView<P>, write: bool, r: Region)
    requires
        v.regions_wf(),
        r.start < r.end,
        r.owner == v.next_id,
        v.next_id < u64::MAX,
        forall|i: int| 0 <= i < v.writes.len() ==> disjoint(#[trigger] v.writes[i], r),
        write ==> forall|i: int| 0 <= i < v.reads.len() ==> disjoint(#[trigger] v.reads[i], r),
    ensures
        ({
            let v2 = v.with_regions(write, v.regions(write).push(r));
            &&& (CoreView { next_id: (v.next_id + 1) as u64, ..v2 }).regions_wf()
            &&& regions_grow(v, v2)
            &&& seq_covers(v2.regions(write), r.start as int)
        }),
{
    let v2 = v.with_regions(write, v.regions(write).push(r));
    let v3 = CoreView { next_id: (v.next_id + 1) as u64, ..v2 };
    lemma_covers_push(v.regions(write), r);
    let n = v.regions(write).len() as int;
    assert(v3.regions(write)[n] == r);
    assert forall|i: int| 0 <= i < n implies v3.regions(write)[i] == v.regions(write)[i] by {}
}

/// Adding a pending borrow of a fresh owner at its place keeps the pending
/// borrows well formed.
pub proof fn lemma_add_pending<P>(v: CoreView<P>, p: Pending<P>)
    requires
        v.pendings_wf(),
        v.blocked_except(0, 0),
        p.start < p.end,
        p.owner < v.next_id,
        forall|i: int| 0 <= i < v.pendings.len() ==> (#[trigger] v.pendings[i]).owner != p.owner,
        forall|j: int|
            0 <= j < v.reads.len() && (#[trigger] v.reads[j]).owner == p.owner ==> !p.write
                && v.reads[j].end == p.start,
        forall|j: int|
            0 <= j < v.writes.len() && (#[trigger] v.writes[j]).owner == p.owner ==> p.write
                && v.writes[j].end == p.start,
        blocked(v, p),
    ensures
        v.with_pending_inserted(p).pendings_wf(),
        v.with_pending_inserted(p).blocked_except(0, 0),
{
    let ps = v.pendings;
    let pos = lower_bound(ps, p.start as int, p.priority as int);
    lemma_lower_bound(ps, p.start as int, p.priority as int);
    lemma_sorted_insert(ps, p);
    let v2 = v.with_pending_inserted(p);
    let qs = v2.pendings;
    assert(qs == ps.insert(pos, p));
    assert forall|i: int| 0 <= i < qs.len() implies #[trigger] qs[i] == (if i < pos {
        ps[i]
    } else if i == pos {
        p
    } else {
        ps[i - 1]
    }) by {}
}

/// A new lock keeps the invariant.
pub proof fn lemma_lock_wf<P>(
    v: CoreView<P>,
    write: bool,
    s: int,
    e: int,
    priority: u64,
    in_progress: P,
)
    requires
        v.wf(),
        s < e,
        0 <= s,
        e <= usize::MAX,
        v.next_id < u64::MAX,
    ensures
        lock_spec(v, write, s, e, priority, in_progress).0.wf(),
{
    let id = v.next_id;
    let c = first_conflict(v, write, s, e);
    lemma_first_conflict(v, write, s, e);
    let held_end = match c {
        Some(x) => x,
        None => e,
    };
    let r = Region { owner: id, start: s as usize, end: held_end as usize };
    let vb = CoreView { next_id: (id + 1) as u64, ..v };
    assert(vb.wf());
    let v1 = if s < held_end {
        vb.with_regions(write, vb.regions(write).push(r))
    } else {
        vb
    };
    if s < held_end {
        assert forall|i: int| 0 <= i < vb.writes.len() implies disjoint(
            #[trigger] vb.writes[i],
            r,
        ) by {}
        if write {
            assert forall|i: int| 0 <= i < vb.reads.len() implies disjoint(
                #[trigger] vb.reads[i],
                r,
            ) by {}
        }
        lemma_add_region(v, write, r);
        assert(v1.regions_wf());
        assert forall|i: int| 0 <= i < v1.pendings.len() implies blocked(
            v1,
            #[trigger] v1.pendings[i],
        ) by {
            assert(blocked(v, v.pendings[i]));
        }
        assert(v1.pendings_wf());
    }
    assert(v1.wf());
    match c {
        Some(x) => {
            let p = Pending {
                owner: id,
                write,
                start: x as usize,
                end: e as usize,
                priority,
                in_progress,
            };
            assert(blocked(v1, p)) by {
                if s < held_end {
                    assert(regions_grow(vb, v1));
                }
            }
            lemma_add_pending(v1, p);
            assert(v1.with_pending_inserted(p).regions_wf());
        }
        None => {}
    }
}

/// A non-blocking lock keeps the invariant.
pub proof fn lemma_try_lock_wf<P>(v: CoreView<P>, write: bool, s: int, e: int)
    requires
        v.wf(),
        s < e,
        0 <= s,
        e <= usize::MAX,
        v.next_id < u64::MAX,
    ensures
        try_lock_spec(v, write, s, e).0.wf(),
{
    lemma_first_conflict(v, write, s, e);
    if first_conflict(v, write, s, e) is None {
        let r = Region { owner: v.next_id, start: s as usize, end: e as usize };
        assert forall|i: int| 0 <= i < v.writes.len() implies disjoint(#[trigger] v.writes[i], r) by {}
        if write {
            assert forall|i: int| 0 <= i < v.reads.len() implies disjoint(
                #[trigger] v.reads[i],
                r,
            ) by {}
        }
        lemma_add_region(v, write, r);
        let v1 = v.with_regions(write, v.regions(write).push(r));
        let v3 = CoreView { next_id: (v.next_id + 1) as u64, ..v1 };
        assert forall|i: int| 0 <= i < v3.pendings.len() implies blocked(
            v3,
            #[trigger] v3.pendings[i],
        ) by {
            assert(blocked(v, v.pendings[i]));
        }
    }
}


/// Extending the region of the lock that owns the pending borrow `p` (or
/// adding one) up to `new_end` keeps the borrows well formed, provided that
/// no conflicting borrow lies in `p.start..new_end`.
pub proof fn lemma_extend<P>(v: CoreView<P>, i: int, new_end: int)
    requires
        v.regions_wf(),
        v.pendings_wf(),
        0 <= i < v.pendings.len(),
        v.pendings[i].start < new_end <= usize::MAX,
        forall|j: int|
            0 <= j < v.writes.len() ==> (#[trigger] v.writes[j]).end <= v.pendings[i].start
                || new_end <= v.writes[j].start,
        v.pendings[i].write ==> forall|j: int|
            0 <= j < v.reads.len() ==> (#[trigger] v.reads[j]).end <= v.pendings[i].start
                || new_end <= v.reads[j].start,
    ensures
        ({
            let p = v.pendings[i];
            let rs2 = extend_region(v.regions(p.write), p.owner, p.start as int, new_end);
            let v2 = v.with_regions(p.write, rs2);
            &&& v2.regions_wf()
            &&& regions_grow(v, v2)
            &&& v.regions(p.write).len() <= rs2.len()
            &&& forall|j: int|
                0 <= j < rs2.len() && (#[trigger] rs2[j]).owner == p.owner ==> rs2[j].end
                    == new_end
            &&& forall|j: int|
                0 <= j < rs2.len() && (#[trigger] rs2[j]).owner != p.owner ==> j < v.regions(
                    p.write,
                ).len() && rs2[j] == v.regions(p.write)[j]
        }),
{
    let p = v.pendings[i];
    let rs = v.regions(p.write);
    let other = v.regions(!p.write);
    let k = find_owner(rs, p.owner);
    lemma_find_owner(rs, p.owner);
    let rs2 = extend_region(rs, p.owner, p.start as int, new_end);
    let v2 = v.with_regions(p.write, rs2);
    // The owner holds no borrow of the other kind.
    assert forall|j: int| 0 <= j < other.len() implies (#[trigger] other[j]).owner != p.owner by {
        if p.write {
            assert(v.reads[j] == other[j]);
        } else {
            assert(v.writes[j] == other[j]);
        }
    }
    let nr = rs2[if k < rs.len() { k } else { rs.len() as int }];
    if k < rs.len() {
        assert(rs[k].end == p.start) by {
            if p.write {
                assert(v.writes[k] == rs[k]);
            } else {
                assert(v.reads[k] == rs[k]);
            }
        }
        assert forall|j: int| 0 <= j < rs2.len() && j != k implies #[trigger] rs2[j] == rs[j] by {}
    } else {
        assert forall|j: int| 0 <= j < rs.len() implies #[trigger] rs2[j] == rs[j] by {}
    }
    // The new region is disjoint from every conflicting borrow.
    assert forall|j: int| 0 <= j < v.writes.len() && (!p.write || v.writes[j] != rs[k] || k
        >= rs.len()) implies disjoint(#[trigger] v.writes[j], nr) || v.writes[j].owner
        == p.owner by {
        if k < rs.len() && v.writes[j].owner != p.owner {
            if p.write {
                assert(disjoint(v.writes[j], v.writes[k]));
            } else {
                assert(disjoint(v.writes[j], v.reads[k]));
            }
        }
    }
    if p.write {
        assert forall|j: int| 0 <= j < v.reads.len() implies disjoint(nr, #[trigger] v.reads[j]) by {
            if k < rs.len() {
                assert(disjoint(v.writes[k], v.reads[j]));
            }
        }
    }
    assert(regions_grow(v, v2)) by {
        assert forall|x: int| seq_covers(rs, x) implies #[trigger] seq_covers(rs2, x) by {
            let w = choose|j: int| 0 <= j < rs.len() && #[trigger] rs[j].covers(x);
            assert(rs2[w].covers(x));
        }
    }
}


/// Resuming the pending borrow at index `i` keeps the invariant, marks `i` as
/// handled, and leaves the entries before `i` in place.
#[verifier::spinoff_prover]
#[verifier::rlimit(40)]
pub proof fn lemma_resume_wf<P>(v: CoreView<P>, lo: int, i: int)
    requires
        v.regions_wf(),
        v.pendings_wf(),
        v.blocked_except(lo, i + 1),
        0 <= lo <= i < v.pendings.len(),
    ensures
        ({
            let v2 = resume_spec(v, i).0;
            &&& v2.regions_wf()
            &&& v2.pendings_wf()
            &&& v2.blocked_except(lo, i)
            &&& regions_grow(v, v2)
            &&& i <= v2.pendings.len()
            &&& v2.next_id == v.next_id
            &&& forall|t: int| 0 <= t < i ==> #[trigger] v2.pendings[t] == v.pendings[t]
        }),
{
    let p = v.pendings[i];
    let c = first_conflict(v, p.write, p.start as int, p.end as int);
    lemma_first_conflict(v, p.write, p.start as int, p.end as int);
    if c == Some(p.start as int) {
        return;
    }
    let new_end = match c {
        Some(x) => x,
        None => p.end as int,
    };
    let rest = v.pendings.remove(i);
    let v1 = v.with_pendings(rest);
    lemma_extend(v, i, new_end);
    let rs2 = extend_region(v1.regions(p.write), p.owner, p.start as int, new_end);
    let v2 = v1.with_regions(p.write, rs2);
    assert(v1.regions(p.write) == v.regions(p.write));
    assert forall|t: int| 0 <= t < rest.len() implies #[trigger] rest[t] == (if t < i {
        v.pendings[t]
    } else {
        v.pendings[t + 1]
    }) by {}
    // The pending borrows other than `p` keep their properties.
    assert(v2.pendings_wf()) by {
        assert forall|t: int, j: int|
            0 <= t < rest.len() && 0 <= j < v2.reads.len() && v2.reads[j].owner
                == rest[t].owner implies !rest[t].write && v2.reads[j].end == rest[t].start by {
            let tt = if t < i { t } else { t + 1 };
            assert(v.pendings[tt] == rest[t]);
            if !p.write {
                assert(rs2[j] == v.reads[j]);
            }
        }
        assert forall|t: int, j: int|
            0 <= t < rest.len() && 0 <= j < v2.writes.len() && v2.writes[j].owner
                == rest[t].owner implies rest[t].write && v2.writes[j].end == rest[t].start by {
            let tt = if t < i { t } else { t + 1 };
            assert(v.pendings[tt] == rest[t]);
            if p.write {
                assert(rs2[j] == v.writes[j]);
            }
        }
    }
    assert forall|t: int|
        0 <= t < rest.len() && !(lo <= t < i) implies blocked(v2, #[trigger] rest[t]) by {
        let tt = if t < i { t } else { t + 1 };
        assert(blocked(v, v.pendings[tt]));
    }
    match c {
        Some(x) => {
            let q = Pending {
                owner: p.owner,
                write: p.write,
                start: x as usize,
                end: p.end,
                priority: p.priority,
                in_progress: p.in_progress,
            };
            let pos = lower_bound(rest, x, p.priority as int);
            lemma_lower_bound(rest, x, p.priority as int);
            assert(pendings_sorted(rest));
            assert(i <= pos) by {
                if pos < i {
                    assert(v.pendings[pos] == rest[pos]);
                    assert(!key_lt(v.pendings[i], rest[pos].start as int, rest[pos].priority as int));
                }
            }
            assert forall|t: int| 0 <= t < rest.len() implies (#[trigger] rest[t]).owner
                != q.owner by {
                let tt = if t < i { t } else { t + 1 };
                assert(v.pendings[tt] == rest[t]);
            }
            assert(blocked(v2, q));
            let v3 = v2.with_pending_inserted(q);
            let qs = v3.pendings;
            assert(qs == rest.insert(pos, q));
            lemma_sorted_insert(rest, q);
            assert forall|t: int| 0 <= t < qs.len() implies #[trigger] qs[t] == (if t < pos {
                rest[t]
            } else if t == pos {
                q
            } else {
                rest[t - 1]
            }) by {}
            assert(v3.pendings_wf());
            assert(v3.blocked_except(lo, i));
        }
        None => {}
    }
}


/// Resuming the pending borrows at `lo..hi`, from the last to the first,
/// restores the invariant.
pub proof fn lemma_resume_range_wf<P>(v: CoreView<P>, lo: int, hi: int)
    requires
        v.regions_wf(),
        v.pendings_wf(),
        v.blocked_except(lo, hi),
        0 <= lo <= hi <= v.pendings.len(),
    ensures
        resume_range_spec(v, lo, hi).0.wf(),
        regions_grow(v, resume_range_spec(v, lo, hi).0),
        resume_range_spec(v, lo, hi).0.next_id == v.next_id,
    decreases hi - lo,
{
    if hi <= lo {
        assert forall|t: int| 0 <= t < v.pendings.len() && !(0 <= t < 0) implies blocked(
            v,
            #[trigger] v.pendings[t],
        ) by {}
    } else {
        lemma_resume_wf(v, lo, hi - 1);
        let v1 = resume_spec(v, hi - 1).0;
        lemma_resume_range_wf(v1, lo, hi - 1);
    }
}

/// Removing a pending borrow keeps the invariant.
pub proof fn lemma_cancel_wf<P>(v: CoreView<P>, pi: int)
    requires
        v.wf(),
        0 <= pi < v.pendings.len(),
    ensures
        v.with_pendings(v.pendings.remove(pi)).wf(),
{
    let rest = v.pendings.remove(pi);
    let v1 = v.with_pendings(rest);
    assert forall|t: int| 0 <= t < rest.len() implies #[trigger] rest[t] == (if t < pi {
        v.pendings[t]
    } else {
        v.pendings[t + 1]
    }) by {}
    assert forall|t: int| 0 <= t < rest.len() implies blocked(v1, #[trigger] rest[t]) by {
        let tt = if t < pi { t } else { t + 1 };
        assert(blocked(v, v.pendings[tt]));
    }
}

/// Removing the borrow at index `k` of a lock without a pending borrow keeps
/// the invariant, except for the pending borrows that wait inside it.
pub proof fn lemma_remove_region_wf<P>(v: CoreView<P>, write: bool, k: int)
    requires
        v.wf(),
        0 <= k < v.regions(write).len(),
        forall|t: int|
            0 <= t < v.pendings.len() ==> (#[trigger] v.pendings[t]).owner != v.regions(
                write,
            )[k].owner,
    ensures
        ({
            let r = v.regions(write)[k];
            let v2 = v.with_regions(write, v.regions(write).remove(k));
            let lo = lower_bound(v2.pendings, r.start as int, 0);
            let hi = lower_bound(v2.pendings, r.end as int, 0);
            &&& v2.regions_wf()
            &&& v2.pendings_wf()
            &&& 0 <= lo <= hi <= v2.pendings.len()
            &&& v2.blocked_except(lo, hi)
        }),
{
    let rs = v.regions(write);
    let r = rs[k];
    let rs2 = rs.remove(k);
    let v2 = v.with_regions(write, rs2);
    assert forall|t: int| 0 <= t < rs2.len() implies #[trigger] rs2[t] == (if t < k {
        rs[t]
    } else {
        rs[t + 1]
    }) by {}
    assert(v2.regions_wf());
    assert(v2.pendings_wf()) by {
        assert forall|t: int, j: int|
            0 <= t < v2.pendings.len() && 0 <= j < v2.reads.len() && v2.reads[j].owner
                == v2.pendings[t].owner implies !v2.pendings[t].write && v2.reads[j].end
                == v2.pendings[t].start by {
            if !write {
                let jj = if j < k { j } else { j + 1 };
                assert(v.reads[jj] == v2.reads[j]);
            }
        }
        assert forall|t: int, j: int|
            0 <= t < v2.pendings.len() && 0 <= j < v2.writes.len() && v2.writes[j].owner
                == v2.pendings[t].owner implies v2.pendings[t].write && v2.writes[j].end
                == v2.pendings[t].start by {
            if write {
                let jj = if j < k { j } else { j + 1 };
                assert(v.writes[jj] == v2.writes[j]);
            }
        }
    }
    let ps = v2.pendings;
    let lo = lower_bound(ps, r.start as int, 0);
    let hi = lower_bound(ps, r.end as int, 0);
    lemma_lower_bound(ps, r.start as int, 0);
    lemma_lower_bound(ps, r.end as int, 0);
    assert(r.start < r.end) by {
        if write {
            assert(v.writes[k] == r);
        } else {
            assert(v.reads[k] == r);
        }
    }
    assert(lo <= hi) by {
        if hi < lo {
            assert(key_lt(ps[hi], r.start as int, 0));
        }
    }
    // The pending borrows outside the released region stay blocked: the
    // borrow that blocks them is not the released one.
    assert forall|x: int| seq_covers(rs, x) && !r.covers(x) implies #[trigger] seq_covers(
        rs2,
        x,
    ) by {
        let w = choose|j: int| 0 <= j < rs.len() && #[trigger] rs[j].covers(x);
        let ww = if w < k { w } else { w - 1 };
        assert(rs2[ww].covers(x));
    }
    assert forall|t: int| 0 <= t < ps.len() && !(lo <= t < hi) implies blocked(
        v2,
        #[trigger] ps[t],
    ) by {
        let q = ps[t];
        assert(blocked(v, q));
        assert(!r.covers(q.start as int));
        if write {
            assert(v2.reads == v.reads);
        } else {
            assert(v2.writes == v.writes);
        }
    }
}

/// Releasing a lock keeps the invariant.
pub proof fn lemma_unlock_wf<P>(v: CoreView<P>, id: u64, write: bool)
    requires
        v.wf(),
    ensures
        unlock_spec(v, id, write).0.wf(),
        unlock_spec(v, id, write).0.next_id == v.next_id,
{
    let pi = find_pending(v.pendings, id);
    lemma_find_pending(v.pendings, id);
    let v1 = if pi < v.pendings.len() {
        v.with_pendings(v.pendings.remove(pi))
    } else {
        v
    };
    if pi < v.pendings.len() {
        lemma_cancel_wf(v, pi);
        let rest = v.pendings.remove(pi);
        assert forall|t: int| 0 <= t < rest.len() implies (#[trigger] rest[t]).owner != id by {
            if t < pi {
                assert(rest[t] == v.pendings[t]);
            } else {
                assert(rest[t] == v.pendings[t + 1]);
            }
        }
    }
    let rs = v1.regions(write);
    let k = find_owner(rs, id);
    lemma_find_owner(rs, id);
    if k < rs.len() {
        let r = rs[k];
        lemma_remove_region_wf(v1, write, k);
        let v2 = v1.with_regions(write, rs.remove(k));
        let lo = lower_bound(v2.pendings, r.start as int, 0);
        let hi = lower_bound(v2.pendings, r.end as int, 0);
        lemma_resume_range_wf(v2, lo, hi);
    }
}

pub proof fn lemma_lower_bound_from<P>(ps: Seq<Pending<P>>, start: int, priority: int, i: int)
    requires
        0 <= i <= ps.len(),
    ensures
        i <= lower_bound_from(ps, start, priority, i) <= ps.len(),
        forall|t: int|
            i <= t < lower_bound_from(ps, start, priority, i) ==> key_lt(
                #[trigger] ps[t],
                start,
                priority,
            ),
        lower_bound_from(ps, start, priority, i) < ps.len() ==> !key_lt(
            ps[lower_bound_from(ps, start, priority, i)],
            start,
            priority,
        ),
    decreases ps.len() - i,
{
    if i < ps.len() && key_lt(ps[i], start, priority) {
        lemma_lower_bound_from(ps, start, priority, i + 1);
    }
}

/// In an ordered sequence, the insertion point splits the entries that come
/// before the key from the rest.
pub proof fn lemma_lower_bound<P>(ps: Seq<Pending<P>>, start: int, priority: int)
    requires
        pendings_sorted(ps),
    ensures
        0 <= lower_bound(ps, start, priority) <= ps.len(),
        forall|t: int|
            0 <= t < ps.len() ==> (t < lower_bound(ps, start, priority) <==> key_lt(
                #[trigger] ps[t],
                start,
                priority,
            )),
{
    lemma_lower_bound_from(ps, start, priority, 0);
    let r = lower_bound(ps, start, priority);
    assert forall|t: int| 0 <= t < ps.len() implies (t < r <==> key_lt(
        #[trigger] ps[t],
        start,
        priority,
    )) by {
        if t > r {
            assert(!key_lt(ps[t], ps[r].start as int, ps[r].priority as int));
        }
    }
}

/// Inserting at the insertion point keeps the sequence ordered.
pub proof fn lemma_sorted_insert<P>(ps: Seq<Pending<P>>, p: Pending<P>)
    requires
        pendings_sorted(ps),
    ensures
        pendings_sorted(ps.insert(lower_bound(ps, p.start as int, p.priority as int), p)),
{
    lemma_lower_bound(ps, p.start as int, p.priority as int);
    let r = lower_bound(ps, p.start as int, p.priority as int);
    let qs = ps.insert(r, p);
    assert forall|i: int, j: int|
        #![trigger qs[i], qs[j]]
        0 <= i < j < qs.len() implies !key_lt(qs[j], qs[i].start as int, qs[i].priority as int) by {
        if i < r {
            assert(qs[i] == ps[i]);
        }
        if j > r {
            assert(qs[j] == ps[j - 1]);
        }
        if i > r {
            assert(qs[i] == ps[i - 1]);
        }
        if j < r {
            assert(qs[j] == ps[j]);
        }
    }
}

pub proof fn lemma_find_owner_from(rs: Seq<Region>, id: u64, i: int)
    requires
        0 <= i <= rs.len(),
    ensures
        i <= find_owner_from(rs, id, i) <= rs.len(),
        find_owner_from(rs, id, i) < rs.len() ==> rs[find_owner_from(rs, id, i)].owner == id,
        forall|t: int| i <= t < find_owner_from(rs, id, i) ==> (#[trigger] rs[t]).owner != id,
    decreases rs.len() - i,
{
    if i < rs.len() && rs[i].owner != id {
        lemma_find_owner_from(rs, id, i + 1);
    }
}

/// `find_owner` finds the region of `id`, or reports that there is none.
pub proof fn lemma_find_owner(rs: Seq<Region>, id: u64)
    ensures
        0 <= find_owner(rs, id) <= rs.len(),
        find_owner(rs, id) < rs.len() ==> rs[find_owner(rs, id)].owner == id,
        find_owner(rs, id) == rs.len() ==> forall|t: int|
            0 <= t < rs.len() ==> (#[trigger] rs[t]).owner != id,
{
    lemma_find_owner_from(rs, id, 0);
}

pub proof fn lemma_find_pending_from<P>(ps: Seq<Pending<P>>, id: u64, i: int)
    requires
        0 <= i <= ps.len(),
    ensures
        i <= find_pending_from(ps, id, i) <= ps.len(),
        find_pending_from(ps, id, i) < ps.len() ==> ps[find_pending_from(ps, id, i)].owner == id,
        forall|t: int| i <= t < find_pending_from(ps, id, i) ==> (#[trigger] ps[t]).owner != id,
    decreases ps.len() - i,
{
    if i < ps.len() && ps[i].owner != id {
        lemma_find_pending_from(ps, id, i + 1);
    }
}

/// `find_pending` finds the pending borrow of `id`, or reports that there is
/// none.
pub proof fn lemma_find_pending<P>(ps: Seq<Pending<P>>, id: u64)
    ensures
        0 <= find_pending(ps, id) <= ps.len(),
        find_pending(ps, id) < ps.len() ==> ps[find_pending(ps, id)].owner == id,
        find_pending(ps, id) == ps.len() ==> forall|t: int|
            0 <= t < ps.len() ==> (#[trigger] ps[t]).owner != id,
{
    lemma_find_pending_from(ps, id, 0);
}

} // verus!
