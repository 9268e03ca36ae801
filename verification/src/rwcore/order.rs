//! The wait order of pending borrows: by index, then by priority compared as
//! whole numbers, and what a release keeps of every waiting lock.
use vstd::prelude::*;

use super::live::lemma_resume_live;
use super::model::{
    cancel_spec, find_owner, find_pending, first_conflict, lemma_find_pending,
    lemma_first_conflict, lemma_lower_bound,
    lemma_lower_bound_from, lock_spec, lower_bound, release_spec, resume_range_spec, resume_spec,
    unlock_spec, CoreView, Pending,
};

verus! {

/// `q` is one of the pending borrows `ps`, possibly moved to another index:
/// the same lock, kind, end, priority and `in_progress`.
pub open spec fn carried_from<P>(ps: Seq<Pending<P>>, q: Pending<P>) -> bool {
    exists|s: int|
        0 <= s < ps.len() && (#[trigger] ps[s]).owner == q.owner && ps[s].write == q.write
            && ps[s].end == q.end && ps[s].priority == q.priority && ps[s].in_progress
            == q.in_progress
}

/// Every pending borrow of `w` is one of those of `v`, possibly moved.
pub open spec fn all_carried<P>(v: CoreView<P>, w: CoreView<P>) -> bool {
    forall|t: int| 0 <= t < w.pendings.len() ==> carried_from(v.pendings, #[trigger] w.pendings[t])
}

/// The wait order: a pending borrow that waits at a lower index comes first,
/// and of two that wait at the same index the one with the lower priority,
/// compared as a whole `u64`, comes first. A release resumes from the last
/// down, so the higher priority goes first.
pub proof fn law_wait_order<P>(v: CoreView<P>)
    requires
        v.wf(),
    ensures
        forall|i: int, j: int|
            #![trigger v.pendings[i], v.pendings[j]]
            0 <= i < j < v.pendings.len() ==> v.pendings[i].start < v.pendings[j].start || (
            v.pendings[i].start == v.pendings[j].start && v.pendings[i].priority
                <= v.pendings[j].priority),
{
}

/// A blocking lock that has to wait takes its place in the wait order at the
/// index where it waits: behind every lock waiting there with a lower
/// priority and ahead of every one with the same or a higher priority; it
/// keeps the priority it was requested with.
pub proof fn law_lock_takes_place_by_priority<P>(
    v: CoreView<P>,
    write: bool,
    s: int,
    e: int,
    priority: u64,
    ip: P,
)
    requires
        v.wf(),
        0 <= s < e <= usize::MAX,
        first_conflict(v, write, s, e) is Some,
    ensures
        ({
            let w = lock_spec(v, write, s, e, priority, ip).0;
            let x = first_conflict(v, write, s, e)->0;
            &&& exists|k: int|
                0 <= k < w.pendings.len() && (#[trigger] w.pendings[k]).owner == v.next_id
                    && w.pendings[k].priority == priority && w.pendings[k].start == x
                    && w.pendings[k].end == e && w.pendings[k].write == write
            &&& forall|k: int, u: int|
                #![trigger w.pendings[k], w.pendings[u]]
                0 <= k < w.pendings.len() && 0 <= u < w.pendings.len() && u != k
                    && w.pendings[k].owner == v.next_id && w.pendings[u].start == x ==> (
                w.pendings[u].priority < priority ==> u < k) && (w.pendings[u].priority
                    >= priority ==> k < u)
        }),
{
    lemma_first_conflict(v, write, s, e);
    let x = first_conflict(v, write, s, e)->0;
    let w = lock_spec(v, write, s, e, priority, ip).0;
    let ps = v.pendings;
    let q = Pending { owner: v.next_id, write, start: x as usize, end: e as usize, priority, in_progress: ip };
    let l = lower_bound(ps, q.start as int, priority as int);
    lemma_lower_bound(ps, q.start as int, priority as int);
    assert(w.pendings == ps.insert(l, q));
    assert(w.pendings[l] == q);
    assert forall|k: int| 0 <= k < w.pendings.len() && (#[trigger] w.pendings[k]).owner == v.next_id implies k == l by {
        if k < l {
            assert(w.pendings[k] == ps[k]);
        } else if k > l {
            assert(w.pendings[k] == ps[k - 1]);
        }
    }
    assert forall|k: int, u: int|
        #![trigger w.pendings[k], w.pendings[u]]
        0 <= k < w.pendings.len() && 0 <= u < w.pendings.len() && u != k && w.pendings[k].owner
            == v.next_id && w.pendings[u].start == x implies (w.pendings[u].priority < priority
        ==> u < k) && (w.pendings[u].priority >= priority ==> k < u) by {
        assert(k == l);
        if u < l {
            assert(w.pendings[u] == ps[u]);
        } else {
            assert(w.pendings[u] == ps[u - 1]);
        }
    }
}

proof fn lemma_carried_trans<P>(a: CoreView<P>, b: CoreView<P>, c: CoreView<P>)
    requires
        all_carried(a, b),
        all_carried(b, c),
    ensures
        all_carried(a, c),
{
    assert forall|t: int| 0 <= t < c.pendings.len() implies carried_from(a.pendings, #[trigger] c.pendings[t]) by {
        let s = choose|s: int|
            0 <= s < b.pendings.len() && (#[trigger] b.pendings[s]).owner == c.pendings[t].owner
                && b.pendings[s].write == c.pendings[t].write && b.pendings[s].end == c.pendings[t].end
                && b.pendings[s].priority == c.pendings[t].priority && b.pendings[s].in_progress
                == c.pendings[t].in_progress;
        assert(carried_from(a.pendings, b.pendings[s]));
    }
}

proof fn lemma_carried_remove<P>(v: CoreView<P>, i: int)
    requires
        0 <= i < v.pendings.len(),
    ensures
        all_carried(v, v.with_pendings(v.pendings.remove(i))),
{
    let w = v.with_pendings(v.pendings.remove(i));
    assert forall|t: int| 0 <= t < w.pendings.len() implies carried_from(v.pendings, #[trigger] w.pendings[t]) by {
        let t2 = if t < i { t } else { t + 1 };
        assert(v.pendings[t2] == w.pendings[t]);
    }
}

proof fn lemma_carried_same<P>(v: CoreView<P>, w: CoreView<P>)
    requires
        w.pendings == v.pendings,
    ensures
        all_carried(v, w),
{
    assert forall|t: int| 0 <= t < w.pendings.len() implies carried_from(v.pendings, #[trigger] w.pendings[t]) by {
        assert(v.pendings[t] == w.pendings[t]);
    }
}

/// Resuming a pending borrow moves it, if at all, with everything but its
/// index kept.
proof fn lemma_resume_carried<P>(v: CoreView<P>, i: int)
    requires
        0 <= i < v.pendings.len(),
    ensures
        all_carried(v, resume_spec(v, i).0),
{
    let p = v.pendings[i];
    let w = resume_spec(v, i).0;
    let c = first_conflict(v, p.write, p.start as int, p.end as int);
    if c == Some(p.start as int) {
        lemma_carried_same(v, w);
        return;
    }
    let v1 = v.with_pendings(v.pendings.remove(i));
    let ps = v1.pendings;
    lemma_carried_remove(v, i);
    match c {
        Some(x) => {
            let q = Pending {
                owner: p.owner,
                write: p.write,
                start: x as usize,
                end: p.end,
                priority: p.priority,
                in_progress: p.in_progress,
            };
            let l = lower_bound(ps, q.start as int, q.priority as int);
            lemma_lower_bound_from(ps, q.start as int, q.priority as int, 0);
            assert(w.pendings == ps.insert(l, q));
            assert forall|t: int| 0 <= t < w.pendings.len() implies carried_from(v.pendings, #[trigger] w.pendings[t]) by {
                if t < l {
                    assert(w.pendings[t] == ps[t]);
                    assert(carried_from(v.pendings, ps[t]));
                } else if t > l {
                    assert(w.pendings[t] == ps[t - 1]);
                    assert(carried_from(v.pendings, ps[t - 1]));
                } else {
                    assert(w.pendings[t] == q);
                    assert(v.pendings[i] == p);
                }
            }
        },
        None => {
            assert(w.pendings == ps);
            lemma_carried_same(v1, w);
            lemma_carried_trans(v, v1, w);
        },
    }
}

proof fn lemma_resume_range_carried<P>(v: CoreView<P>, lo: int, hi: int)
    requires
        0 <= lo,
        hi <= v.pendings.len(),
    ensures
        all_carried(v, resume_range_spec(v, lo, hi).0),
    decreases hi - lo,
{
    if lo < hi {
        let v1 = resume_spec(v, hi - 1).0;
        lemma_resume_carried(v, hi - 1);
        lemma_resume_live(v, hi - 1);
        lemma_resume_range_carried(v1, lo, hi - 1);
        lemma_carried_trans(v, v1, resume_range_spec(v1, lo, hi - 1).0);
    } else {
        lemma_carried_same(v, v);
    }
}

/// Releasing or cancelling a lock keeps every other waiting lock's kind,
/// end, priority and `in_progress`: a release only moves pending borrows to
/// later indices or completes them, and never changes their priority.
pub proof fn law_release_keeps_waiters<P>(v: CoreView<P>, id: u64, write: bool)
    ensures
        all_carried(v, unlock_spec(v, id, write).0),
        all_carried(v, release_spec(v, id, write).0),
{
    let (v1, _) = cancel_spec(v, id);
    let pi = find_pending(v.pendings, id);
    lemma_find_pending(v.pendings, id);
    if pi < v.pendings.len() {
        lemma_carried_remove(v, pi);
    } else {
        lemma_carried_same(v, v1);
    }
    lemma_release_carried(v, id, write);
    lemma_release_carried(v1, id, write);
    lemma_carried_trans(v, v1, release_spec(v1, id, write).0);
}

proof fn lemma_release_carried<P>(v: CoreView<P>, id: u64, write: bool)
    ensures
        all_carried(v, release_spec(v, id, write).0),
{
    let rs = v.regions(write);
    let k = find_owner(rs, id);
    if k < rs.len() {
        let r = rs[k];
        let v2 = v.with_regions(write, rs.remove(k));
        let lo = lower_bound(v2.pendings, r.start as int, 0);
        let hi = lower_bound(v2.pendings, r.end as int, 0);
        lemma_lower_bound_from(v2.pendings, r.start as int, 0, 0);
        lemma_lower_bound_from(v2.pendings, r.end as int, 0, 0);
        lemma_carried_same(v, v2);
        lemma_resume_range_carried(v2, lo, hi);
        lemma_carried_trans(v, v2, resume_range_spec(v2, lo, hi).0);
    } else {
        lemma_carried_same(v, v);
    }
}

} // verus!
