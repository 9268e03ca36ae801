//! The properties that the interval lock promises of all its states and
//! operations.
use vstd::prelude::*;

use super::frame::{lemma_resume_range_frame, lemma_same_lock, no_region};
use super::model::{
    blocked, cancel_spec, conflicts_at, find_owner, find_pending, first_conflict, holds_lock,
    is_pending, lemma_cancel_wf, lemma_find_owner, lemma_find_pending, lemma_first_conflict,
    lemma_first_cover, lemma_lower_bound, lemma_remove_region_wf, lock_spec, lower_bound,
    resume_range_spec, resume_spec, try_lock_spec, unlock_spec, CoreView, Region,
};

verus! {

/// Mutual exclusion: in a well-formed state, an index that a write borrow
/// holds is held by no other borrow, neither a read borrow nor another write
/// borrow.
pub proof fn law_mutual_exclusion<P>(v: CoreView<P>, x: int)
    requires
        v.wf(),
    ensures
        forall|i: int, j: int|
            #![trigger v.writes[i], v.writes[j]]
            0 <= i < v.writes.len() && 0 <= j < v.writes.len() && v.writes[i].covers(x)
                && v.writes[j].covers(x) ==> i == j,
        forall|i: int, j: int|
            #![trigger v.writes[i], v.reads[j]]
            0 <= i < v.writes.len() && 0 <= j < v.reads.len() && v.writes[i].covers(x) ==> !v.reads[j].covers(x),
{
}

/// No pending borrow can make progress: every pending borrow waits at an
/// index that a conflicting borrow holds.
pub proof fn law_pending_is_blocked<P>(v: CoreView<P>)
    requires
        v.wf(),
    ensures
        forall|t: int|
            0 <= t < v.pendings.len() ==> conflicts_at(v, (#[trigger] v.pendings[t]).write, v.pendings[t].start as int),
{
    assert forall|t: int| 0 <= t < v.pendings.len() implies conflicts_at(
        v,
        (#[trigger] v.pendings[t]).write,
        v.pendings[t].start as int,
    ) by {
        assert(blocked(v, v.pendings[t]));
    }
}

/// A non-blocking reader lock succeeds exactly when no write borrow shares an
/// index with the interval; a non-blocking writer lock succeeds exactly when
/// no borrow at all does.
pub proof fn law_try_lock_succeeds_iff_no_conflict<P>(v: CoreView<P>, write: bool, s: int, e: int)
    requires
        v.wf(),
        s < e,
    ensures
        try_lock_spec(v, write, s, e).1 <==> ((forall|i: int|
            0 <= i < v.writes.len() ==> !(#[trigger] v.writes[i]).overlaps(s, e)) && (write
            ==> forall|i: int| 0 <= i < v.reads.len() ==> !(#[trigger] v.reads[i]).overlaps(s, e))),
{
    lemma_first_conflict(v, write, s, e);
    match first_conflict(v, write, s, e) {
        None => {},
        Some(c) => {
            if seq_covers_w(v, c) {
                let i = choose|i: int| 0 <= i < v.writes.len() && #[trigger] v.writes[i].covers(c);
                assert(v.writes[i].overlaps(s, e));
            } else {
                let i = choose|i: int| 0 <= i < v.reads.len() && #[trigger] v.reads[i].covers(c);
                assert(v.reads[i].overlaps(s, e));
            }
        },
    }
}

spec fn seq_covers_w<P>(v: CoreView<P>, c: int) -> bool {
    exists|i: int| 0 <= i < v.writes.len() && #[trigger] v.writes[i].covers(c)
}

/// A failed non-blocking lock leaves the state as it was.
pub proof fn law_failed_try_lock_changes_nothing<P>(v: CoreView<P>, write: bool, s: int, e: int)
    requires
        !try_lock_spec(v, write, s, e).1,
    ensures
        try_lock_spec(v, write, s, e).0 == v,
{
}

/// A blocking lock completes at once exactly when the non-blocking lock of
/// the same kind on the same interval would succeed, and then both leave the
/// same state.
pub proof fn law_lock_completes_iff_try_lock_succeeds<P>(
    v: CoreView<P>,
    write: bool,
    s: int,
    e: int,
    priority: u64,
    in_progress: P,
)
    requires
        s < e,
    ensures
        lock_spec(v, write, s, e, priority, in_progress).1 == try_lock_spec(v, write, s, e).1,
        lock_spec(v, write, s, e, priority, in_progress).1 ==> lock_spec(
            v,
            write,
            s,
            e,
            priority,
            in_progress,
        ).0 == try_lock_spec(v, write, s, e).0,
{
}

/// Resuming a blocked pending borrow changes nothing.
pub proof fn lemma_resume_blocked<P>(v: CoreView<P>, i: int)
    requires
        v.regions_wf(),
        v.pendings_wf(),
        0 <= i < v.pendings.len(),
        blocked(v, v.pendings[i]),
    ensures
        resume_spec(v, i) == (v, Option::<P>::None),
{
    let p = v.pendings[i];
    let s = p.start as int;
    let e = p.end as int;
    lemma_first_cover(v.writes, s, e);
    lemma_first_cover(v.reads, s, e);
    crate::rwcore::model::lemma_min_opt(first_cover_w(v, s, e), first_cover_r(v, s, e));
    if exists|j: int| 0 <= j < v.writes.len() && #[trigger] v.writes[j].covers(s) {
        let j = choose|j: int| 0 <= j < v.writes.len() && #[trigger] v.writes[j].covers(s);
        assert(v.writes[j].overlaps(s, e));
    } else {
        let j = choose|j: int| 0 <= j < v.reads.len() && #[trigger] v.reads[j].covers(s);
        assert(v.reads[j].overlaps(s, e));
    }
}

spec fn first_cover_w<P>(v: CoreView<P>, s: int, e: int) -> Option<int> {
    crate::rwcore::model::first_cover(v.writes, s, e)
}

spec fn first_cover_r<P>(v: CoreView<P>, s: int, e: int) -> Option<int> {
    crate::rwcore::model::first_cover(v.reads, s, e)
}

/// Resuming pending borrows that are all blocked changes nothing.
pub proof fn lemma_resume_range_blocked<P>(v: CoreView<P>, lo: int, hi: int)
    requires
        v.wf(),
        0 <= lo <= hi <= v.pendings.len(),
    ensures
        resume_range_spec(v, lo, hi) == (v, Seq::<P>::empty()),
    decreases hi - lo,
{
    if lo < hi {
        lemma_resume_blocked(v, hi - 1);
        lemma_resume_range_blocked(v, lo, hi - 1);
    }
}

/// Releasing a lock that completed at once restores the state from before
/// the lock (but for the identifier counter), completes no pending borrow,
/// and cancels nothing.
pub proof fn law_release_undoes_lock<P>(v: CoreView<P>, write: bool, s: int, e: int)
    requires
        v.wf(),
        0 <= s < e <= usize::MAX,
        v.next_id < u64::MAX,
        try_lock_spec(v, write, s, e).1,
    ensures
        unlock_spec(try_lock_spec(v, write, s, e).0, v.next_id, write) == (
            CoreView { next_id: (v.next_id + 1) as u64, ..v },
            Option::<P>::None,
            Seq::<P>::empty(),
        ),
{
    let id = v.next_id;
    let v1 = try_lock_spec(v, write, s, e).0;
    let vb = CoreView { next_id: (v.next_id + 1) as u64, ..v };
    lemma_find_pending(v1.pendings, id);
    assert(v1.pendings == v.pendings);
    if find_pending(v1.pendings, id) < v1.pendings.len() {
        assert(v.pendings[find_pending(v1.pendings, id)].owner < v.next_id);
    }
    assert(cancel_spec(v1, id) == (v1, Option::<P>::None));
    let rs = v1.regions(write);
    let r = Region { owner: id, start: s as usize, end: e as usize };
    assert(rs == v.regions(write).push(r));
    lemma_find_owner(rs, id);
    let k = find_owner(rs, id);
    let n = v.regions(write).len() as int;
    assert(rs[n] == r);
    assert(k == n) by {
        if k < n {
            if write {
                assert(v.writes[k].owner < v.next_id);
            } else {
                assert(v.reads[k].owner < v.next_id);
            }
        }
    }
    assert(rs.remove(k) =~= v.regions(write));
    let v2 = v1.with_regions(write, rs.remove(k));
    assert(v2 == vb);
    crate::rwcore::model::lemma_try_lock_wf(v, write, s, e);
    assert(vb.wf()) by {
        assert forall|t: int| 0 <= t < vb.pendings.len() implies blocked(vb, #[trigger] vb.pendings[t]) by {
            assert(blocked(v, v.pendings[t]));
        }
    }
    let lo = lower_bound(v2.pendings, r.start as int, 0);
    let hi = lower_bound(v2.pendings, r.end as int, 0);
    lemma_lower_bound(v2.pendings, r.start as int, 0);
    lemma_lower_bound(v2.pendings, r.end as int, 0);
    assert(lo <= hi) by {
        if hi < lo {
            assert(crate::rwcore::model::key_lt(v2.pendings[hi], r.start as int, 0));
        }
    }
    lemma_resume_range_blocked(vb, lo, hi);
}

/// A released lock holds no borrow and waits for none.
pub proof fn law_release_removes_lock<P>(v: CoreView<P>, id: u64, write: bool)
    requires
        v.wf(),
        holds_lock(v, id, write),
    ensures
        no_region(unlock_spec(v, id, write).0, id),
        !is_pending(unlock_spec(v, id, write).0, id),
{
    let (v1, _c) = cancel_spec(v, id);
    let pi = find_pending(v.pendings, id);
    lemma_find_pending(v.pendings, id);
    // The lock holds no borrow of the other kind.
    let other = v.regions(!write);
    assert forall|j: int| 0 <= j < other.len() implies (#[trigger] other[j]).owner != id by {
        if other[j].owner == id {
            if exists|j2: int| 0 <= j2 < v.regions(write).len() && #[trigger] v.regions(write)[j2].owner == id {
                let j2 = choose|j2: int| 0 <= j2 < v.regions(write).len() && #[trigger] v.regions(write)[j2].owner == id;
                if write {
                    assert(v.reads[j].owner != v.writes[j2].owner);
                } else {
                    assert(v.reads[j2].owner != v.writes[j].owner);
                }
            } else {
                let t = choose|t: int|
                    0 <= t < v.pendings.len() && (#[trigger] v.pendings[t]).owner == id && v.pendings[t].write == write;
                if write {
                    assert(v.reads[j].owner == v.pendings[t].owner);
                } else {
                    assert(v.writes[j].owner == v.pendings[t].owner);
                }
            }
        }
    }
    if pi < v.pendings.len() {
        lemma_cancel_wf(v, pi);
        let rest = v.pendings.remove(pi);
        assert forall|t: int| 0 <= t < rest.len() implies (#[trigger] rest[t]).owner != id by {
            if t < pi {
                assert(rest[t] == v.pendings[t]);
            } else {
                assert(rest[t] == v.pendings[t + 1]);
            }
        }
    }
    assert(v1.wf());
    assert(!is_pending(v1, id));
    assert(v1.regions(!write) == v.regions(!write));
    let rs = v1.regions(write);
    let k = find_owner(rs, id);
    lemma_find_owner(rs, id);
    if k < rs.len() {
        let r = rs[k];
        lemma_remove_region_wf(v1, write, k);
        let rs2 = rs.remove(k);
        let v2 = v1.with_regions(write, rs2);
        assert forall|j: int| 0 <= j < rs2.len() implies (#[trigger] rs2[j]).owner != id by {
            let jj = if j < k { j } else { j + 1 };
            assert(rs2[j] == rs[jj]);
            if write {
                assert(v1.writes[jj].owner != v1.writes[k].owner);
            } else {
                assert(v1.reads[jj].owner != v1.reads[k].owner);
            }
        }
        assert(v2.regions(!write) == v.regions(!write));
        assert(no_region(v2, id));
        let lo = lower_bound(v2.pendings, r.start as int, 0);
        let hi = lower_bound(v2.pendings, r.end as int, 0);
        lemma_resume_range_frame(v2, lo, hi, id);
        lemma_same_lock(v2, resume_range_spec(v2, lo, hi).0, id, write, 0, 0);
    } else {
        assert(v1.regions(!write) == v.regions(!write));
        assert(no_region(v1, id));
    }
}

} // verus!
