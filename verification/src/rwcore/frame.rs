//! What each operation leaves alone: the progress of every other lock.
use vstd::prelude::*;

use super::model::{
    cancel_spec, extend_region, find_owner, find_pending, first_conflict, holds_lock, is_pending,
    lemma_cancel_wf, lemma_find_owner, lemma_find_pending, lemma_first_conflict,
    lemma_remove_region_wf, lemma_resume_wf, lock_spec, lower_bound, release_spec,
    resume_range_spec, resume_spec, try_lock_spec, unlock_spec, CoreView, Pending, Region,
};

verus! {

/// `rs` holds the region `s..e` of `id`.
pub open spec fn region_of(rs: Seq<Region>, id: u64, s: int, e: int) -> bool {
    exists|j: int|
        0 <= j < rs.len() && (#[trigger] rs[j]).owner == id && rs[j].start == s && rs[j].end == e
}

/// `id` holds no borrow.
pub open spec fn no_region<P>(v: CoreView<P>, id: u64) -> bool {
    &&& forall|j: int| 0 <= j < v.reads.len() ==> (#[trigger] v.reads[j]).owner != id
    &&& forall|j: int| 0 <= j < v.writes.len() ==> (#[trigger] v.writes[j]).owner != id
}

/// The lock `id` of the given kind on `s..e` has borrowed all of `s..e`.
pub open spec fn lock_complete<P>(v: CoreView<P>, id: u64, write: bool, s: int, e: int) -> bool {
    !is_pending(v, id) && region_of(v.regions(write), id, s, e)
}

/// The lock `id` of the given kind on `s..e` has borrowed all of `s..e`, or
/// has borrowed a prefix of it and waits at the rest.
pub open spec fn lock_progress<P>(v: CoreView<P>, id: u64, write: bool, s: int, e: int) -> bool {
    ||| lock_complete(v, id, write, s, e)
    ||| exists|t: int|
        #![trigger v.pendings[t]]
        0 <= t < v.pendings.len() && v.pendings[t].owner == id && v.pendings[t].write == write
            && v.pendings[t].end == e && ((s < v.pendings[t].start && region_of(
            v.regions(write),
            id,
            s,
            v.pendings[t].start as int,
        )) || (v.pendings[t].start == s && no_region(v, id)))
}

/// Every region of `id` in `rs` is also in `rs2`, and the other way round.
#[verifier::opaque]
pub open spec fn regions_agree(rs: Seq<Region>, rs2: Seq<Region>, id: u64) -> bool {
    &&& forall|j: int|
        0 <= j < rs.len() && (#[trigger] rs[j]).owner == id ==> exists|j2: int|
            0 <= j2 < rs2.len() && #[trigger] rs2[j2] == rs[j]
    &&& forall|j: int|
        0 <= j < rs2.len() && (#[trigger] rs2[j]).owner == id ==> exists|j2: int|
            0 <= j2 < rs.len() && #[trigger] rs[j2] == rs2[j]
}

/// Every pending borrow of `id` in `ps` is also in `ps2`, and the other way
/// round.
#[verifier::opaque]
pub open spec fn pendings_agree<P>(ps: Seq<Pending<P>>, ps2: Seq<Pending<P>>, id: u64) -> bool {
    &&& forall|t: int|
        0 <= t < ps.len() && (#[trigger] ps[t]).owner == id ==> exists|t2: int|
            0 <= t2 < ps2.len() && #[trigger] ps2[t2] == ps[t]
    &&& forall|t: int|
        0 <= t < ps2.len() && (#[trigger] ps2[t]).owner == id ==> exists|t2: int|
            0 <= t2 < ps.len() && #[trigger] ps[t2] == ps2[t]
}

/// The two states agree on everything that the lock `id` owns.
pub open spec fn same_lock<P>(v: CoreView<P>, v2: CoreView<P>, id: u64) -> bool {
    &&& regions_agree(v.reads, v2.reads, id)
    &&& regions_agree(v.writes, v2.writes, id)
    &&& pendings_agree(v.pendings, v2.pendings, id)
}

pub proof fn lemma_regions_agree_refl(rs: Seq<Region>, id: u64)
    ensures
        regions_agree(rs, rs, id),
{
    reveal(regions_agree);
    reveal(pendings_agree);
    assert forall|j: int| 0 <= j < rs.len() && (#[trigger] rs[j]).owner == id implies exists|j2: int|
        0 <= j2 < rs.len() && #[trigger] rs[j2] == rs[j] by {
        assert(rs[j] == rs[j]);
    }
}

pub proof fn lemma_pendings_agree_refl<P>(ps: Seq<Pending<P>>, id: u64)
    ensures
        pendings_agree(ps, ps, id),
{
    reveal(regions_agree);
    reveal(pendings_agree);
    assert forall|t: int| 0 <= t < ps.len() && (#[trigger] ps[t]).owner == id implies exists|t2: int|
        0 <= t2 < ps.len() && #[trigger] ps[t2] == ps[t] by {
        assert(ps[t] == ps[t]);
    }
}

pub proof fn lemma_same_lock_refl<P>(v: CoreView<P>, id: u64)
    ensures
        same_lock(v, v, id),
{
    lemma_regions_agree_refl(v.reads, id);
    lemma_regions_agree_refl(v.writes, id);
    lemma_pendings_agree_refl(v.pendings, id);
}

pub proof fn lemma_same_lock_trans<P>(v1: CoreView<P>, v2: CoreView<P>, v3: CoreView<P>, id: u64)
    requires
        same_lock(v1, v2, id),
        same_lock(v2, v3, id),
    ensures
        same_lock(v1, v3, id),
{
    reveal(regions_agree);
    reveal(pendings_agree);
    assert forall|j: int| 0 <= j < v1.reads.len() && (#[trigger] v1.reads[j]).owner == id implies exists|j2: int|
        0 <= j2 < v3.reads.len() && #[trigger] v3.reads[j2] == v1.reads[j] by {
        let a = choose|j2: int| 0 <= j2 < v2.reads.len() && #[trigger] v2.reads[j2] == v1.reads[j];
        let b = choose|j2: int| 0 <= j2 < v3.reads.len() && #[trigger] v3.reads[j2] == v2.reads[a];
    }
    assert forall|j: int| 0 <= j < v3.reads.len() && (#[trigger] v3.reads[j]).owner == id implies exists|j2: int|
        0 <= j2 < v1.reads.len() && #[trigger] v1.reads[j2] == v3.reads[j] by {
        let a = choose|j2: int| 0 <= j2 < v2.reads.len() && #[trigger] v2.reads[j2] == v3.reads[j];
        let b = choose|j2: int| 0 <= j2 < v1.reads.len() && #[trigger] v1.reads[j2] == v2.reads[a];
    }
    assert forall|j: int| 0 <= j < v1.writes.len() && (#[trigger] v1.writes[j]).owner == id implies exists|j2: int|
        0 <= j2 < v3.writes.len() && #[trigger] v3.writes[j2] == v1.writes[j] by {
        let a = choose|j2: int| 0 <= j2 < v2.writes.len() && #[trigger] v2.writes[j2] == v1.writes[j];
        let b = choose|j2: int| 0 <= j2 < v3.writes.len() && #[trigger] v3.writes[j2] == v2.writes[a];
    }
    assert forall|j: int| 0 <= j < v3.writes.len() && (#[trigger] v3.writes[j]).owner == id implies exists|j2: int|
        0 <= j2 < v1.writes.len() && #[trigger] v1.writes[j2] == v3.writes[j] by {
        let a = choose|j2: int| 0 <= j2 < v2.writes.len() && #[trigger] v2.writes[j2] == v3.writes[j];
        let b = choose|j2: int| 0 <= j2 < v1.writes.len() && #[trigger] v1.writes[j2] == v2.writes[a];
    }
    assert forall|t: int| 0 <= t < v1.pendings.len() && (#[trigger] v1.pendings[t]).owner == id implies exists|t2: int|
        0 <= t2 < v3.pendings.len() && #[trigger] v3.pendings[t2] == v1.pendings[t] by {
        let a = choose|t2: int| 0 <= t2 < v2.pendings.len() && #[trigger] v2.pendings[t2] == v1.pendings[t];
        let b = choose|t2: int| 0 <= t2 < v3.pendings.len() && #[trigger] v3.pendings[t2] == v2.pendings[a];
    }
    assert forall|t: int| 0 <= t < v3.pendings.len() && (#[trigger] v3.pendings[t]).owner == id implies exists|t2: int|
        0 <= t2 < v1.pendings.len() && #[trigger] v1.pendings[t2] == v3.pendings[t] by {
        let a = choose|t2: int| 0 <= t2 < v2.pendings.len() && #[trigger] v2.pendings[t2] == v3.pendings[t];
        let b = choose|t2: int| 0 <= t2 < v1.pendings.len() && #[trigger] v1.pendings[t2] == v2.pendings[a];
    }
}

/// Two states that agree on everything the lock `id` owns agree on its
/// progress.
pub proof fn lemma_same_lock<P>(v: CoreView<P>, v2: CoreView<P>, id: u64, write: bool, s: int, e: int)
    requires
        same_lock(v, v2, id),
    ensures
        lock_progress(v, id, write, s, e) ==> lock_progress(v2, id, write, s, e),
        lock_complete(v, id, write, s, e) ==> lock_complete(v2, id, write, s, e),
        is_pending(v, id) == is_pending(v2, id),
        no_region(v, id) ==> no_region(v2, id),
{
    reveal(regions_agree);
    reveal(pendings_agree);
    assert(is_pending(v, id) ==> is_pending(v2, id)) by {
        if is_pending(v, id) {
            let t = choose|t: int| 0 <= t < v.pendings.len() && (#[trigger] v.pendings[t]).owner == id;
            let t2 = choose|t2: int| 0 <= t2 < v2.pendings.len() && #[trigger] v2.pendings[t2] == v.pendings[t];
            assert(v2.pendings[t2].owner == id);
        }
    }
    assert(is_pending(v2, id) ==> is_pending(v, id)) by {
        if is_pending(v2, id) {
            let t = choose|t: int| 0 <= t < v2.pendings.len() && (#[trigger] v2.pendings[t]).owner == id;
            let t2 = choose|t2: int| 0 <= t2 < v.pendings.len() && #[trigger] v.pendings[t2] == v2.pendings[t];
            assert(v.pendings[t2].owner == id);
        }
    }
    let rs = v.regions(write);
    let rs2 = v2.regions(write);
    assert(regions_agree(rs, rs2, id));
    assert forall|a: int, b: int| region_of(rs, id, a, b) implies region_of(rs2, id, a, b) by {
        let j = choose|j: int|
            0 <= j < rs.len() && (#[trigger] rs[j]).owner == id && rs[j].start == a && rs[j].end == b;
        let j2 = choose|j2: int| 0 <= j2 < rs2.len() && #[trigger] rs2[j2] == rs[j];
    }
    assert(no_region(v, id) ==> no_region(v2, id)) by {
        if no_region(v, id) {
            assert forall|j: int| 0 <= j < v2.reads.len() implies (#[trigger] v2.reads[j]).owner != id by {
                if v2.reads[j].owner == id {
                    let j2 = choose|j2: int| 0 <= j2 < v.reads.len() && #[trigger] v.reads[j2] == v2.reads[j];
                    assert(v.reads[j2].owner == id);
                }
            }
            assert forall|j: int| 0 <= j < v2.writes.len() implies (#[trigger] v2.writes[j]).owner != id by {
                if v2.writes[j].owner == id {
                    let j2 = choose|j2: int| 0 <= j2 < v.writes.len() && #[trigger] v.writes[j2] == v2.writes[j];
                    assert(v.writes[j2].owner == id);
                }
            }
        }
    }
    if lock_progress(v, id, write, s, e) && !lock_complete(v, id, write, s, e) {
        let t = choose|t: int|
            #![trigger v.pendings[t]]
            0 <= t < v.pendings.len() && v.pendings[t].owner == id && v.pendings[t].write == write
                && v.pendings[t].end == e && ((s < v.pendings[t].start && region_of(
                v.regions(write),
                id,
                s,
                v.pendings[t].start as int,
            )) || (v.pendings[t].start == s && no_region(v, id)));
        let t2 = choose|t2: int| 0 <= t2 < v2.pendings.len() && #[trigger] v2.pendings[t2] == v.pendings[t];
        assert(v2.pendings[t2] == v.pendings[t]);
    }
}

/// Adding a region of another lock leaves the regions of `id` alone.
pub proof fn lemma_regions_agree_push(rs: Seq<Region>, r: Region, id: u64)
    requires
        r.owner != id,
    ensures
        regions_agree(rs, rs.push(r), id),
{
    reveal(regions_agree);
    reveal(pendings_agree);
    let rs2 = rs.push(r);
    assert forall|j: int| 0 <= j < rs.len() && (#[trigger] rs[j]).owner == id implies exists|j2: int|
        0 <= j2 < rs2.len() && #[trigger] rs2[j2] == rs[j] by {
        assert(rs2[j] == rs[j]);
    }
    assert forall|j: int| 0 <= j < rs2.len() && (#[trigger] rs2[j]).owner == id implies exists|j2: int|
        0 <= j2 < rs.len() && #[trigger] rs[j2] == rs2[j] by {
        assert(rs[j] == rs2[j]);
    }
}

/// Removing a region of another lock leaves the regions of `id` alone.
pub proof fn lemma_regions_agree_remove(rs: Seq<Region>, k: int, id: u64)
    requires
        0 <= k < rs.len(),
        rs[k].owner != id,
    ensures
        regions_agree(rs, rs.remove(k), id),
{
    reveal(regions_agree);
    reveal(pendings_agree);
    let rs2 = rs.remove(k);
    assert forall|j: int| 0 <= j < rs.len() && (#[trigger] rs[j]).owner == id implies exists|j2: int|
        0 <= j2 < rs2.len() && #[trigger] rs2[j2] == rs[j] by {
        if j < k {
            assert(rs2[j] == rs[j]);
        } else {
            assert(rs2[j - 1] == rs[j]);
        }
    }
    assert forall|j: int| 0 <= j < rs2.len() && (#[trigger] rs2[j]).owner == id implies exists|j2: int|
        0 <= j2 < rs.len() && #[trigger] rs[j2] == rs2[j] by {
        if j < k {
            assert(rs[j] == rs2[j]);
        } else {
            assert(rs[j + 1] == rs2[j]);
        }
    }
}

/// Replacing a region of another lock leaves the regions of `id` alone.
pub proof fn lemma_regions_agree_update(rs: Seq<Region>, k: int, r: Region, id: u64)
    requires
        0 <= k < rs.len(),
        rs[k].owner != id,
        r.owner != id,
    ensures
        regions_agree(rs, rs.update(k, r), id),
{
    reveal(regions_agree);
    reveal(pendings_agree);
    let rs2 = rs.update(k, r);
    assert forall|j: int| 0 <= j < rs.len() && (#[trigger] rs[j]).owner == id implies exists|j2: int|
        0 <= j2 < rs2.len() && #[trigger] rs2[j2] == rs[j] by {
        assert(rs2[j] == rs[j]);
    }
    assert forall|j: int| 0 <= j < rs2.len() && (#[trigger] rs2[j]).owner == id implies exists|j2: int|
        0 <= j2 < rs.len() && #[trigger] rs[j2] == rs2[j] by {
        assert(rs[j] == rs2[j]);
    }
}

/// Adding a pending borrow of another lock leaves those of `id` alone.
pub proof fn lemma_pendings_agree_insert<P>(ps: Seq<Pending<P>>, k: int, p: Pending<P>, id: u64)
    requires
        0 <= k <= ps.len(),
        p.owner != id,
    ensures
        pendings_agree(ps, ps.insert(k, p), id),
{
    reveal(regions_agree);
    reveal(pendings_agree);
    let ps2 = ps.insert(k, p);
    assert forall|t: int| 0 <= t < ps.len() && (#[trigger] ps[t]).owner == id implies exists|t2: int|
        0 <= t2 < ps2.len() && #[trigger] ps2[t2] == ps[t] by {
        if t < k {
            assert(ps2[t] == ps[t]);
        } else {
            assert(ps2[t + 1] == ps[t]);
        }
    }
    assert forall|t: int| 0 <= t < ps2.len() && (#[trigger] ps2[t]).owner == id implies exists|t2: int|
        0 <= t2 < ps.len() && #[trigger] ps[t2] == ps2[t] by {
        if t < k {
            assert(ps[t] == ps2[t]);
        } else {
            assert(ps[t - 1] == ps2[t]);
        }
    }
}

/// Removing a pending borrow of another lock leaves those of `id` alone.
pub proof fn lemma_pendings_agree_remove<P>(ps: Seq<Pending<P>>, k: int, id: u64)
    requires
        0 <= k < ps.len(),
        ps[k].owner != id,
    ensures
        pendings_agree(ps, ps.remove(k), id),
{
    reveal(regions_agree);
    reveal(pendings_agree);
    let ps2 = ps.remove(k);
    assert forall|t: int| 0 <= t < ps.len() && (#[trigger] ps[t]).owner == id implies exists|t2: int|
        0 <= t2 < ps2.len() && #[trigger] ps2[t2] == ps[t] by {
        if t < k {
            assert(ps2[t] == ps[t]);
        } else {
            assert(ps2[t - 1] == ps[t]);
        }
    }
    assert forall|t: int| 0 <= t < ps2.len() && (#[trigger] ps2[t]).owner == id implies exists|t2: int|
        0 <= t2 < ps.len() && #[trigger] ps[t2] == ps2[t] by {
        if t < k {
            assert(ps[t] == ps2[t]);
        } else {
            assert(ps[t + 1] == ps2[t]);
        }
    }
}

/// A state whose regions of one kind and pending borrows agree with those of
/// `v` on `id`, and whose regions of the other kind are those of `v`, agrees
/// with `v` on `id`.
pub proof fn lemma_same_lock_parts<P>(v: CoreView<P>, v2: CoreView<P>, write: bool, id: u64)
    requires
        regions_agree(v.regions(write), v2.regions(write), id),
        v2.regions(!write) == v.regions(!write),
        pendings_agree(v.pendings, v2.pendings, id),
    ensures
        same_lock(v, v2, id),
{
    lemma_regions_agree_refl(v.reads, id);
    lemma_regions_agree_refl(v.writes, id);
}

/// A new lock leaves every other lock alone.
pub proof fn lemma_lock_frame<P>(
    v: CoreView<P>,
    write: bool,
    s: int,
    e: int,
    priority: u64,
    in_progress: P,
    x: u64,
)
    requires
        x != v.next_id,
    ensures
        same_lock(v, lock_spec(v, write, s, e, priority, in_progress).0, x),
{
    let id = v.next_id;
    let v2 = lock_spec(v, write, s, e, priority, in_progress).0;
    let c = first_conflict(v, write, s, e);
    let held_end = match c {
        Some(xx) => xx,
        None => e,
    };
    let rs = v.regions(write);
    let r = Region { owner: id, start: s as usize, end: held_end as usize };
    if s < held_end {
        lemma_regions_agree_push(rs, r, x);
        assert(v2.regions(write) == rs.push(r));
    } else {
        lemma_regions_agree_refl(rs, x);
        assert(v2.regions(write) == rs);
    }
    match c {
        Some(xx) => {
            let p = Pending { owner: id, write, start: xx as usize, end: e as usize, priority, in_progress };
            let pos = lower_bound(v.pendings, p.start as int, p.priority as int);
            crate::rwcore::model::lemma_lower_bound_from(v.pendings, p.start as int, p.priority as int, 0);
            lemma_pendings_agree_insert(v.pendings, pos, p, x);
            assert(v2.pendings == v.pendings.insert(pos, p));
        },
        None => {
            lemma_pendings_agree_refl(v.pendings, x);
        },
    }
    lemma_same_lock_parts(v, v2, write, x);
}

/// A non-blocking lock leaves every other lock alone.
pub proof fn lemma_try_lock_frame<P>(v: CoreView<P>, write: bool, s: int, e: int, x: u64)
    requires
        x != v.next_id,
    ensures
        same_lock(v, try_lock_spec(v, write, s, e).0, x),
{
    let rs = v.regions(write);
    let v2 = try_lock_spec(v, write, s, e).0;
    lemma_pendings_agree_refl(v.pendings, x);
    if first_conflict(v, write, s, e) is None {
        let r = Region { owner: v.next_id, start: s as usize, end: e as usize };
        lemma_regions_agree_push(rs, r, x);
        assert(v2.regions(write) == rs.push(r));
    } else {
        lemma_regions_agree_refl(rs, x);
    }
    lemma_same_lock_parts(v, v2, write, x);
}

/// Resuming the pending borrow of another lock leaves `x` alone.
#[verifier::spinoff_prover]
pub proof fn lemma_resume_frame<P>(v: CoreView<P>, i: int, x: u64)
    requires
        0 <= i < v.pendings.len(),
        v.pendings[i].owner != x,
    ensures
        same_lock(v, resume_spec(v, i).0, x),
{
    let p = v.pendings[i];
    let c = first_conflict(v, p.write, p.start as int, p.end as int);
    let v3 = resume_spec(v, i).0;
    if c == Some(p.start as int) {
        lemma_same_lock_refl(v, x);
        return;
    }
    let new_end = match c {
        Some(xx) => xx,
        None => p.end as int,
    };
    let rest = v.pendings.remove(i);
    let rs = v.regions(p.write);
    let rs2 = extend_region(rs, p.owner, p.start as int, new_end);
    lemma_find_owner(rs, p.owner);
    let k = find_owner(rs, p.owner);
    if k < rs.len() {
        lemma_regions_agree_update(rs, k, Region { owner: p.owner, start: rs[k].start, end: new_end as usize }, x);
    } else {
        lemma_regions_agree_push(rs, Region { owner: p.owner, start: p.start, end: new_end as usize }, x);
    }
    assert(v3.regions(p.write) == rs2);
    lemma_pendings_agree_remove(v.pendings, i, x);
    match c {
        Some(xx) => {
            let q = Pending {
                owner: p.owner,
                write: p.write,
                start: xx as usize,
                end: p.end,
                priority: p.priority,
                in_progress: p.in_progress,
            };
            let pos = lower_bound(rest, q.start as int, q.priority as int);
            crate::rwcore::model::lemma_lower_bound_from(rest, q.start as int, q.priority as int, 0);
            lemma_pendings_agree_insert(rest, pos, q, x);
            assert(v3.pendings == rest.insert(pos, q));
            let mid = v.with_pendings(rest);
            lemma_regions_agree_refl(rs, x);
            lemma_same_lock_parts(v, mid, p.write, x);
            lemma_same_lock_parts(mid, v3, p.write, x);
            lemma_same_lock_trans(v, mid, v3, x);
        },
        None => {
            assert(v3.pendings == rest);
            lemma_same_lock_parts(v, v3, p.write, x);
        },
    }
}

/// Cancelling the pending borrow of another lock leaves `x` alone.
pub proof fn lemma_cancel_frame<P>(v: CoreView<P>, id: u64, x: u64)
    requires
        x != id,
    ensures
        same_lock(v, cancel_spec(v, id).0, x),
{
    let pi = find_pending(v.pendings, id);
    lemma_find_pending(v.pendings, id);
    if pi < v.pendings.len() {
        lemma_pendings_agree_remove(v.pendings, pi, x);
        lemma_regions_agree_refl(v.reads, x);
        lemma_same_lock_parts(v, cancel_spec(v, id).0, false, x);
    } else {
        lemma_same_lock_refl(v, x);
    }
}

/// Resuming a pending borrow keeps every lock's progress: the lock that
/// resumes borrows more of its interval or completes, and the others are left
/// alone.
#[verifier::spinoff_prover]
pub proof fn lemma_resume_progress<P>(v: CoreView<P>, i: int, x: u64, write: bool, s: int, e: int)
    requires
        v.regions_wf(),
        v.pendings_wf(),
        0 <= i < v.pendings.len(),
    ensures
        lock_progress(v, x, write, s, e) ==> lock_progress(resume_spec(v, i).0, x, write, s, e),
        lock_complete(v, x, write, s, e) ==> lock_complete(resume_spec(v, i).0, x, write, s, e),
{
    let p = v.pendings[i];
    if p.owner != x {
        lemma_resume_frame(v, i, x);
        lemma_same_lock(v, resume_spec(v, i).0, x, write, s, e);
        return;
    }
    if !lock_progress(v, x, write, s, e) {
        return;
    }
    assert(is_pending(v, x));
    let t = choose|t: int|
        #![trigger v.pendings[t]]
        0 <= t < v.pendings.len() && v.pendings[t].owner == x && v.pendings[t].write == write
            && v.pendings[t].end == e && ((s < v.pendings[t].start && region_of(
            v.regions(write),
            x,
            s,
            v.pendings[t].start as int,
        )) || (v.pendings[t].start == s && no_region(v, x)));
    assert(t == i);
    let c = first_conflict(v, p.write, p.start as int, p.end as int);
    lemma_first_conflict(v, p.write, p.start as int, p.end as int);
    if c == Some(p.start as int) {
        return;
    }
    let new_end = match c {
        Some(xx) => xx,
        None => p.end as int,
    };
    let v3 = resume_spec(v, i).0;
    let rest = v.pendings.remove(i);
    let rs = v.regions(write);
    let rs2 = extend_region(rs, x, p.start as int, new_end);
    lemma_find_owner(rs, x);
    let k = find_owner(rs, x);
    assert(v3.regions(write) == rs2);
    assert(region_of(rs2, x, s, new_end)) by {
        if k < rs.len() {
            let j = choose|j: int|
                0 <= j < rs.len() && (#[trigger] rs[j]).owner == x && rs[j].start == s && rs[j].end
                    == p.start as int;
            if write {
                assert(v.writes[j] == rs[j] && v.writes[k] == rs[k]);
            } else {
                assert(v.reads[j] == rs[j] && v.reads[k] == rs[k]);
            }
            assert(j == k);
            assert(rs2[k].owner == x && rs2[k].start == s && rs2[k].end == new_end);
        } else {
            if s < p.start {
                let j = choose|j: int|
                    0 <= j < rs.len() && (#[trigger] rs[j]).owner == x && rs[j].start == s
                        && rs[j].end == p.start as int;
                assert(rs[j].owner != x);
            }
            assert(rs2[rs.len() as int].owner == x);
        }
    }
    assert forall|u: int| 0 <= u < rest.len() implies (#[trigger] rest[u]).owner != x by {
        if u < i {
            assert(rest[u] == v.pendings[u]);
        } else {
            assert(rest[u] == v.pendings[u + 1]);
        }
    }
    match c {
        Some(xx) => {
            let q = Pending {
                owner: p.owner,
                write: p.write,
                start: xx as usize,
                end: p.end,
                priority: p.priority,
                in_progress: p.in_progress,
            };
            let pos = lower_bound(rest, q.start as int, q.priority as int);
            crate::rwcore::model::lemma_lower_bound_from(rest, q.start as int, q.priority as int, 0);
            assert(v3.pendings == rest.insert(pos, q));
            assert(v3.pendings[pos] == q);
            assert(region_of(v3.regions(write), x, s, v3.pendings[pos].start as int));
        },
        None => {
            assert(v3.pendings == rest);
            assert(!is_pending(v3, x));
        },
    }
}

/// Resuming the pending borrows at `lo..hi` keeps every lock's progress.
pub proof fn lemma_resume_range_progress<P>(
    v: CoreView<P>,
    lo: int,
    hi: int,
    x: u64,
    write: bool,
    s: int,
    e: int,
)
    requires
        v.regions_wf(),
        v.pendings_wf(),
        v.blocked_except(lo, hi),
        0 <= lo <= hi <= v.pendings.len(),
    ensures
        lock_progress(v, x, write, s, e) ==> lock_progress(resume_range_spec(v, lo, hi).0, x, write, s, e),
        lock_complete(v, x, write, s, e) ==> lock_complete(resume_range_spec(v, lo, hi).0, x, write, s, e),
    decreases hi - lo,
{
    if lo < hi {
        lemma_resume_wf(v, lo, hi - 1);
        lemma_resume_progress(v, hi - 1, x, write, s, e);
        lemma_resume_range_progress(resume_spec(v, hi - 1).0, lo, hi - 1, x, write, s, e);
    }
}

/// Resuming the pending borrows at `lo..hi` leaves alone a lock that waits
/// for nothing.
pub proof fn lemma_resume_range_frame<P>(v: CoreView<P>, lo: int, hi: int, x: u64)
    requires
        v.regions_wf(),
        v.pendings_wf(),
        v.blocked_except(lo, hi),
        0 <= lo <= hi <= v.pendings.len(),
        !is_pending(v, x),
    ensures
        same_lock(v, resume_range_spec(v, lo, hi).0, x),
    decreases hi - lo,
{
    if lo < hi {
        lemma_resume_wf(v, lo, hi - 1);
        assert(v.pendings[hi - 1].owner != x);
        lemma_resume_frame(v, hi - 1, x);
        let v1 = resume_spec(v, hi - 1).0;
        lemma_same_lock(v, v1, x, false, 0, 0);
        lemma_resume_range_frame(v1, lo, hi - 1, x);
        lemma_same_lock_trans(v, v1, resume_range_spec(v, lo, hi).0, x);
    } else {
        lemma_same_lock_refl(v, x);
    }
}

/// Cancelling the pending borrow of a lock keeps the invariant and leaves the
/// lock waiting for nothing.
pub proof fn lemma_cancel_clears<P>(v: CoreView<P>, id: u64)
    requires
        v.wf(),
    ensures
        cancel_spec(v, id).0.wf(),
        !is_pending(cancel_spec(v, id).0, id),
        cancel_spec(v, id).0.reads == v.reads,
        cancel_spec(v, id).0.writes == v.writes,
        cancel_spec(v, id).0.next_id == v.next_id,
{
    let pi = find_pending(v.pendings, id);
    lemma_find_pending(v.pendings, id);
    if pi < v.pendings.len() {
        lemma_cancel_wf(v, pi);
        let rest = v.pendings.remove(pi);
        assert forall|t: int| 0 <= t < rest.len() implies (#[trigger] rest[t]).owner != id by {
            if t < pi {
                assert(rest[t] == v.pendings[t]);
            } else {
                assert(rest[t] == v.pendings[t + 1]);
            }
        }
    }
}

/// Removing the borrow of a lock that waits for nothing keeps the progress of
/// every other lock.
#[verifier::spinoff_prover]
pub proof fn lemma_release_progress<P>(
    v1: CoreView<P>,
    id: u64,
    unlock_write: bool,
    x: u64,
    write: bool,
    s: int,
    e: int,
)
    requires
        v1.wf(),
        !is_pending(v1, id),
        x != id,
    ensures
        lock_progress(v1, x, write, s, e) ==> lock_progress(release_spec(v1, id, unlock_write).0, x, write, s, e),
        lock_complete(v1, x, write, s, e) ==> lock_complete(release_spec(v1, id, unlock_write).0, x, write, s, e),
{
    let rs = v1.regions(unlock_write);
    let k = find_owner(rs, id);
    lemma_find_owner(rs, id);
    if k < rs.len() {
        let r = rs[k];
        assert forall|t: int| 0 <= t < v1.pendings.len() implies (#[trigger] v1.pendings[t]).owner != r.owner by {}
        lemma_remove_region_wf(v1, unlock_write, k);
        let v2 = v1.with_regions(unlock_write, rs.remove(k));
        lemma_regions_agree_remove(rs, k, x);
        lemma_pendings_agree_refl(v1.pendings, x);
        lemma_same_lock_parts(v1, v2, unlock_write, x);
        lemma_same_lock(v1, v2, x, write, s, e);
        let lo = lower_bound(v2.pendings, r.start as int, 0);
        let hi = lower_bound(v2.pendings, r.end as int, 0);
        lemma_resume_range_progress(v2, lo, hi, x, write, s, e);
    }
}

/// Releasing a lock keeps the progress of every other lock: their borrows
/// are kept, and a pending one only advances.
pub proof fn lemma_unlock_progress<P>(
    v: CoreView<P>,
    id: u64,
    unlock_write: bool,
    x: u64,
    write: bool,
    s: int,
    e: int,
)
    requires
        v.wf(),
        x != id,
    ensures
        lock_progress(v, x, write, s, e) ==> lock_progress(unlock_spec(v, id, unlock_write).0, x, write, s, e),
        lock_complete(v, x, write, s, e) ==> lock_complete(unlock_spec(v, id, unlock_write).0, x, write, s, e),
{
    let v1 = cancel_spec(v, id).0;
    lemma_cancel_frame(v, id, x);
    lemma_same_lock(v, v1, x, write, s, e);
    lemma_cancel_clears(v, id);
    lemma_release_progress(v1, id, unlock_write, x, write, s, e);
}

/// The progress of a lock means that it holds a lock of its kind.
pub proof fn lemma_progress_holds<P>(v: CoreView<P>, x: u64, write: bool, s: int, e: int)
    requires
        lock_progress(v, x, write, s, e),
    ensures
        holds_lock(v, x, write),
{
    if lock_complete(v, x, write, s, e) {
        let j = choose|j: int|
            0 <= j < v.regions(write).len() && (#[trigger] v.regions(write)[j]).owner == x
                && v.regions(write)[j].start == s && v.regions(write)[j].end == e;
    } else {
        let t = choose|t: int|
            #![trigger v.pendings[t]]
            0 <= t < v.pendings.len() && v.pendings[t].owner == x && v.pendings[t].write == write
                && v.pendings[t].end == e && ((s < v.pendings[t].start && region_of(
                v.regions(write),
                x,
                s,
                v.pendings[t].start as int,
            )) || (v.pendings[t].start == s && no_region(v, x)));
    }
}

/// Every lock that makes progress has an identifier below `next_id`.
pub proof fn lemma_progress_id<P>(v: CoreView<P>, x: u64, write: bool, s: int, e: int)
    requires
        v.wf(),
        lock_progress(v, x, write, s, e),
    ensures
        x < v.next_id,
{
    lemma_progress_holds(v, x, write, s, e);
    if exists|j: int| 0 <= j < v.regions(write).len() && #[trigger] v.regions(write)[j].owner == x {
        let j = choose|j: int| 0 <= j < v.regions(write).len() && #[trigger] v.regions(write)[j].owner == x;
        if write {
            assert(v.writes[j].owner < v.next_id);
        } else {
            assert(v.reads[j].owner < v.next_id);
        }
    } else {
        let t = choose|t: int|
            0 <= t < v.pendings.len() && (#[trigger] v.pendings[t]).owner == x && v.pendings[t].write == write;
    }
}

/// A new lock starts making progress on its interval, and has borrowed all of
/// it if it completed at once.
pub proof fn lemma_lock_progress<P>(
    v: CoreView<P>,
    write: bool,
    s: int,
    e: int,
    priority: u64,
    in_progress: P,
)
    requires
        v.wf(),
        0 <= s < e <= usize::MAX,
        v.next_id < u64::MAX,
    ensures
        lock_progress(lock_spec(v, write, s, e, priority, in_progress).0, v.next_id, write, s, e),
        lock_spec(v, write, s, e, priority, in_progress).1 ==> lock_complete(
            lock_spec(v, write, s, e, priority, in_progress).0,
            v.next_id,
            write,
            s,
            e,
        ),
{
    let id = v.next_id;
    let (v2, done) = lock_spec(v, write, s, e, priority, in_progress);
    let c = first_conflict(v, write, s, e);
    lemma_first_conflict(v, write, s, e);
    let held_end = match c {
        Some(xx) => xx,
        None => e,
    };
    let rs = v.regions(write);
    let r = Region { owner: id, start: s as usize, end: held_end as usize };
    // No existing lock has the new identifier.
    assert forall|j: int| 0 <= j < v.reads.len() implies (#[trigger] v.reads[j]).owner != id by {}
    assert forall|j: int| 0 <= j < v.writes.len() implies (#[trigger] v.writes[j]).owner != id by {}
    assert forall|t: int| 0 <= t < v.pendings.len() implies (#[trigger] v.pendings[t]).owner != id by {}
    if s < held_end {
        assert(v2.regions(write) == rs.push(r));
        assert(v2.regions(write)[rs.len() as int] == r);
        assert(region_of(v2.regions(write), id, s, held_end));
    } else {
        assert(v2.reads == v.reads && v2.writes == v.writes);
        assert(no_region(v2, id));
    }
    match c {
        Some(xx) => {
            let p = Pending { owner: id, write, start: xx as usize, end: e as usize, priority, in_progress };
            let pos = lower_bound(v.pendings, p.start as int, p.priority as int);
            crate::rwcore::model::lemma_lower_bound_from(v.pendings, p.start as int, p.priority as int, 0);
            assert(v2.pendings == v.pendings.insert(pos, p));
            assert(v2.pendings[pos] == p);
        },
        None => {
            assert(v2.pendings == v.pendings);
            assert(!is_pending(v2, id));
        },
    }
}

/// A non-blocking lock that succeeds has borrowed all of its interval.
pub proof fn lemma_try_lock_complete<P>(v: CoreView<P>, write: bool, s: int, e: int)
    requires
        v.wf(),
        0 <= s < e <= usize::MAX,
        v.next_id < u64::MAX,
        try_lock_spec(v, write, s, e).1,
    ensures
        lock_complete(try_lock_spec(v, write, s, e).0, v.next_id, write, s, e),
{
    let id = v.next_id;
    let v2 = try_lock_spec(v, write, s, e).0;
    let rs = v.regions(write);
    let r = Region { owner: id, start: s as usize, end: e as usize };
    assert(v2.regions(write) == rs.push(r));
    assert(v2.regions(write)[rs.len() as int] == r);
    assert forall|t: int| 0 <= t < v2.pendings.len() implies (#[trigger] v2.pendings[t]).owner != id by {
        assert(v2.pendings[t] == v.pendings[t]);
    }
}

/// A borrow held in full is a non-empty interval.
pub proof fn lemma_complete_nonempty<P>(v: CoreView<P>, x: u64, write: bool, s: int, e: int)
    requires
        v.wf(),
        lock_complete(v, x, write, s, e),
    ensures
        0 <= s < e <= usize::MAX,
{
    let rs = v.regions(write);
    let j = choose|j: int| 0 <= j < rs.len() && (#[trigger] rs[j]).owner == x && rs[j].start == s && rs[j].end == e;
    if write {
        assert(v.writes[j] == rs[j]);
    } else {
        assert(v.reads[j] == rs[j]);
    }
}

} // verus!
