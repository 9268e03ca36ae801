//! The locks that hold or wait for a borrow, and how many there are. Their
//! number bounds the size of every structure of the interval lock: each lock
//! holds at most one borrow and waits for at most one.
use vstd::prelude::*;
use vstd::seq_lib::seq_to_set_is_finite;
use vstd::set_lib::{lemma_len_subset, lemma_len_union};

use super::model::{
    extend_region, find_owner, lemma_find_owner, lock_spec, resume_range_spec, resume_spec,
    try_lock_spec, CoreView, Pending, Region,
};

verus! {

pub open spec fn region_owners(rs: Seq<Region>) -> Seq<int> {
    Seq::new(rs.len(), |i: int| rs[i].owner as int)
}

pub open spec fn pending_owners<P>(ps: Seq<Pending<P>>) -> Seq<int> {
    Seq::new(ps.len(), |i: int| ps[i].owner as int)
}

/// The identifiers of the locks that hold or wait for a borrow.
pub open spec fn live_owners<P>(v: CoreView<P>) -> Set<int> {
    region_owners(v.reads).to_set().union(region_owners(v.writes).to_set()).union(
        pending_owners(v.pendings).to_set(),
    )
}

/// The lock `o` holds or waits for a borrow.
pub open spec fn is_live<P>(v: CoreView<P>, o: int) -> bool {
    ||| exists|i: int| 0 <= i < v.reads.len() && #[trigger] v.reads[i].owner == o
    ||| exists|i: int| 0 <= i < v.writes.len() && #[trigger] v.writes[i].owner == o
    ||| exists|i: int| 0 <= i < v.pendings.len() && #[trigger] v.pendings[i].owner == o
}

pub proof fn lemma_live_contains<P>(v: CoreView<P>)
    ensures
        forall|o: int| live_owners(v).contains(o) <==> is_live(v, o),
{
    assert forall|o: int| live_owners(v).contains(o) <==> is_live(v, o) by {
        let a = region_owners(v.reads);
        let b = region_owners(v.writes);
        let c = pending_owners(v.pendings);
        if a.contains(o) {
            let i = choose|i: int| 0 <= i < a.len() && a[i] == o;
            assert(v.reads[i].owner == o);
        }
        if b.contains(o) {
            let i = choose|i: int| 0 <= i < b.len() && b[i] == o;
            assert(v.writes[i].owner == o);
        }
        if c.contains(o) {
            let i = choose|i: int| 0 <= i < c.len() && c[i] == o;
            assert(v.pendings[i].owner == o);
        }
        if exists|i: int| 0 <= i < v.reads.len() && #[trigger] v.reads[i].owner == o {
            let i = choose|i: int| 0 <= i < v.reads.len() && #[trigger] v.reads[i].owner == o;
            assert(a[i] == o);
        }
        if exists|i: int| 0 <= i < v.writes.len() && #[trigger] v.writes[i].owner == o {
            let i = choose|i: int| 0 <= i < v.writes.len() && #[trigger] v.writes[i].owner == o;
            assert(b[i] == o);
        }
        if exists|i: int| 0 <= i < v.pendings.len() && #[trigger] v.pendings[i].owner == o {
            let i = choose|i: int| 0 <= i < v.pendings.len() && #[trigger] v.pendings[i].owner == o;
            assert(c[i] == o);
        }
    }
}

/// There are no more live locks than borrows, and no more borrows of one
/// kind than live locks.
pub proof fn lemma_live_bounds<P>(v: CoreView<P>)
    requires
        v.regions_wf(),
        v.pendings_wf(),
    ensures
        live_owners(v).finite(),
        live_owners(v).len() <= v.reads.len() + v.writes.len() + v.pendings.len(),
        v.reads.len() <= live_owners(v).len(),
        v.writes.len() <= live_owners(v).len(),
        v.pendings.len() <= live_owners(v).len(),
{
    broadcast use vstd::set::group_set_axioms;

    let a = region_owners(v.reads);
    let b = region_owners(v.writes);
    let c = pending_owners(v.pendings);
    seq_to_set_is_finite(a);
    seq_to_set_is_finite(b);
    seq_to_set_is_finite(c);
    a.lemma_cardinality_of_set();
    b.lemma_cardinality_of_set();
    c.lemma_cardinality_of_set();
    lemma_len_union(a.to_set(), b.to_set());
    lemma_len_union(a.to_set().union(b.to_set()), c.to_set());
    let o = live_owners(v);
    assert(a.no_duplicates()) by {
        assert forall|i: int, j: int| 0 <= i < a.len() && 0 <= j < a.len() && i != j implies a[i]
            != a[j] by {
            assert(v.reads[i].owner != v.reads[j].owner);
        }
    }
    assert(b.no_duplicates()) by {
        assert forall|i: int, j: int| 0 <= i < b.len() && 0 <= j < b.len() && i != j implies b[i]
            != b[j] by {
            assert(v.writes[i].owner != v.writes[j].owner);
        }
    }
    assert(c.no_duplicates()) by {
        assert forall|i: int, j: int| 0 <= i < c.len() && 0 <= j < c.len() && i != j implies c[i]
            != c[j] by {
            assert(v.pendings[i].owner != v.pendings[j].owner);
        }
    }
    a.unique_seq_to_set();
    b.unique_seq_to_set();
    c.unique_seq_to_set();
    lemma_len_subset(a.to_set(), o);
    lemma_len_subset(b.to_set(), o);
    lemma_len_subset(c.to_set(), o);
}

/// If every lock live in `w` is live in `v`, or is `extra`, then `w` has at
/// most one live lock more than `v`, and none more without `extra`.
pub proof fn lemma_live_subset<P>(v: CoreView<P>, w: CoreView<P>, extra: Option<int>)
    requires
        live_owners(v).finite(),
        forall|o: int| is_live(w, o) ==> is_live(v, o) || extra == Some(o),
    ensures
        live_owners(w).finite(),
        live_owners(w).len() <= live_owners(v).len() + if extra is Some {
            1int
        } else {
            0int
        },
{
    broadcast use vstd::set::group_set_axioms;

    lemma_live_contains(v);
    lemma_live_contains(w);
    match extra {
        Some(x) => {
            assert forall|y: int| live_owners(w).contains(y) implies live_owners(v).insert(x).contains(y) by {
                assert(is_live(w, y));
            }
            assert(live_owners(w).subset_of(live_owners(v).insert(x)));
            lemma_len_subset(live_owners(w), live_owners(v).insert(x));
        },
        None => {
            assert forall|y: int| live_owners(w).contains(y) implies live_owners(v).contains(y) by {
                assert(is_live(w, y));
            }
            assert(live_owners(w).subset_of(live_owners(v)));
            lemma_len_subset(live_owners(w), live_owners(v));
        },
    }
}

/// Every owner of `rs` with a region extended or added for `owner` is an
/// owner of `rs` or `owner`.
proof fn lemma_extend_owners(rs: Seq<Region>, owner: u64, s: int, e: int)
    ensures
        forall|j: int| 0 <= j < extend_region(rs, owner, s, e).len() ==> (#[trigger] extend_region(rs, owner, s, e)[j]).owner == owner
            || (0 <= j < rs.len() && extend_region(rs, owner, s, e)[j].owner == rs[j].owner),
{
    lemma_find_owner(rs, owner);
}

/// Every owner of a pending borrow after inserting `q` at `l` into `ps` is
/// `q`'s owner or an owner from `ps`.
proof fn lemma_insert_owner<P>(ps: Seq<Pending<P>>, l: int, q: Pending<P>, j: int)
    requires
        0 <= l <= ps.len(),
        0 <= j < ps.len() + 1,
    ensures
        ps.insert(l, q)[j].owner == q.owner || exists|t: int| 0 <= t < ps.len() && #[trigger] ps[t].owner == ps.insert(l, q)[j].owner,
{
    if j < l {
        assert(ps.insert(l, q)[j] == ps[j]);
    } else if j > l {
        assert(ps.insert(l, q)[j] == ps[j - 1]);
    }
}

/// Resuming a pending borrow makes no lock live.
pub proof fn lemma_resume_live<P>(v: CoreView<P>, i: int)
    requires
        0 <= i < v.pendings.len(),
    ensures
        forall|o: int| is_live(resume_spec(v, i).0, o) ==> is_live(v, o),
        resume_spec(v, i).0.pendings.len() + 1 >= v.pendings.len(),
{
    let p = v.pendings[i];
    let w = resume_spec(v, i).0;
    let c = super::model::first_conflict(v, p.write, p.start as int, p.end as int);
    if c == Some(p.start as int) {
        return;
    }
    let new_end = match c {
        Some(x) => x,
        None => p.end as int,
    };
    let v1 = v.with_pendings(v.pendings.remove(i));
    let ps = v1.pendings;
    let ext = extend_region(v.regions(p.write), p.owner, p.start as int, new_end);
    lemma_extend_owners(v.regions(p.write), p.owner, p.start as int, new_end);
    assert(w.regions(p.write) == ext);
    assert(w.regions(!p.write) == v.regions(!p.write));
    assert(v.pendings[i].owner == p.owner);
    match c {
        Some(x) => {
            let q = Pending {
                owner: p.owner,
                write: p.write,
                start: x as usize,
                end: p.end,
                priority: p.priority,
                in_progress: p.in_progress,
            };
            super::model::lemma_lower_bound_from(ps, q.start as int, q.priority as int, 0);
        },
        None => {
            assert(w.pendings == ps);
        },
    }
    assert forall|o: int| is_live(w, o) implies is_live(v, o) by {
        if o != p.owner {
            if exists|j: int| 0 <= j < w.reads.len() && #[trigger] w.reads[j].owner == o {
                let j = choose|j: int| 0 <= j < w.reads.len() && #[trigger] w.reads[j].owner == o;
                if p.write {
                    assert(v.reads[j].owner == o);
                } else {
                    assert(ext[j].owner == o);
                    assert(v.reads[j].owner == o);
                }
            }
            if exists|j: int| 0 <= j < w.writes.len() && #[trigger] w.writes[j].owner == o {
                let j = choose|j: int| 0 <= j < w.writes.len() && #[trigger] w.writes[j].owner == o;
                if !p.write {
                    assert(v.writes[j].owner == o);
                } else {
                    assert(ext[j].owner == o);
                    assert(v.writes[j].owner == o);
                }
            }
            if exists|j: int| 0 <= j < w.pendings.len() && #[trigger] w.pendings[j].owner == o {
                let j = choose|j: int| 0 <= j < w.pendings.len() && #[trigger] w.pendings[j].owner == o;
                match c {
                    Some(x) => {
                        let q = Pending {
                            owner: p.owner,
                            write: p.write,
                            start: x as usize,
                            end: p.end,
                            priority: p.priority,
                            in_progress: p.in_progress,
                        };
                        let l = super::model::lower_bound(ps, q.start as int, q.priority as int);
                        super::model::lemma_lower_bound_from(ps, q.start as int, q.priority as int, 0);
                        assert(w.pendings == ps.insert(l, q));
                        lemma_insert_owner(ps, l, q, j);
                        let t = choose|t: int| 0 <= t < ps.len() && #[trigger] ps[t].owner == o;
                        let t2 = if t < i { t } else { t + 1 };
                        assert(v.pendings[t2].owner == o);
                    },
                    None => {
                        let j2 = if j < i { j } else { j + 1 };
                        assert(v.pendings[j2].owner == o);
                    },
                }
            }
        }
    }
}

/// Resuming a range of pending borrows makes no lock live.
pub proof fn lemma_resume_range_live<P>(v: CoreView<P>, lo: int, hi: int)
    requires
        0 <= lo,
        hi <= v.pendings.len(),
    ensures
        forall|o: int| is_live(resume_range_spec(v, lo, hi).0, o) ==> is_live(v, o),
    decreases hi - lo,
{
    if lo < hi {
        let v1 = resume_spec(v, hi - 1).0;
        lemma_resume_live(v, hi - 1);
        lemma_resume_range_live(v1, lo, hi - 1);
    }
}

/// Removing a pending borrow or a held borrow makes no lock live.
pub proof fn lemma_remove_live<P>(v: CoreView<P>, write: bool, i: int, k: int)
    ensures
        0 <= i < v.pendings.len() ==> forall|o: int| is_live(v.with_pendings(v.pendings.remove(i)), o) ==> is_live(v, o),
        0 <= k < v.regions(write).len() ==> forall|o: int|
            is_live(v.with_regions(write, v.regions(write).remove(k)), o) ==> is_live(v, o),
{
    if 0 <= i < v.pendings.len() {
        let w = v.with_pendings(v.pendings.remove(i));
        assert forall|o: int| is_live(w, o) implies is_live(v, o) by {
            if exists|j: int| 0 <= j < w.pendings.len() && #[trigger] w.pendings[j].owner == o {
                let j = choose|j: int| 0 <= j < w.pendings.len() && #[trigger] w.pendings[j].owner == o;
                let j2 = if j < i { j } else { j + 1 };
                assert(v.pendings[j2].owner == o);
            }
        }
    }
    if 0 <= k < v.regions(write).len() {
        let w = v.with_regions(write, v.regions(write).remove(k));
        assert forall|o: int| is_live(w, o) implies is_live(v, o) by {
            if exists|j: int| 0 <= j < w.reads.len() && #[trigger] w.reads[j].owner == o {
                let j = choose|j: int| 0 <= j < w.reads.len() && #[trigger] w.reads[j].owner == o;
                let j2 = if write || j < k { j } else { j + 1 };
                assert(v.reads[j2].owner == o);
            }
            if exists|j: int| 0 <= j < w.writes.len() && #[trigger] w.writes[j].owner == o {
                let j = choose|j: int| 0 <= j < w.writes.len() && #[trigger] w.writes[j].owner == o;
                let j2 = if !write || j < k { j } else { j + 1 };
                assert(v.writes[j2].owner == o);
            }
        }
    }
}

/// A new lock makes only itself live.
pub proof fn lemma_lock_live<P>(v: CoreView<P>, write: bool, s: int, e: int, priority: u64, ip: P)
    ensures
        forall|o: int| is_live(lock_spec(v, write, s, e, priority, ip).0, o) ==> is_live(v, o) || o
            == v.next_id,
        forall|o: int| is_live(try_lock_spec(v, write, s, e).0, o) ==> is_live(v, o) || o
            == v.next_id,
{
    let w = lock_spec(v, write, s, e, priority, ip).0;
    let c = super::model::first_conflict(v, write, s, e);
    let held_end = match c {
        Some(x) => x,
        None => e,
    };
    let id = v.next_id;
    let v1 = if s < held_end {
        v.with_regions(write, v.regions(write).push(Region { owner: id, start: s as usize, end: held_end as usize }))
    } else {
        v
    };
    let ps = v1.pendings;
    assert(ps == v.pendings);
    assert forall|o: int| is_live(w, o) && o != id implies is_live(v, o) by {
        if exists|j: int| 0 <= j < w.reads.len() && #[trigger] w.reads[j].owner == o {
            let j = choose|j: int| 0 <= j < w.reads.len() && #[trigger] w.reads[j].owner == o;
            assert(v.reads[j].owner == o);
        }
        if exists|j: int| 0 <= j < w.writes.len() && #[trigger] w.writes[j].owner == o {
            let j = choose|j: int| 0 <= j < w.writes.len() && #[trigger] w.writes[j].owner == o;
            assert(v.writes[j].owner == o);
        }
        if exists|j: int| 0 <= j < w.pendings.len() && #[trigger] w.pendings[j].owner == o {
            let j = choose|j: int| 0 <= j < w.pendings.len() && #[trigger] w.pendings[j].owner == o;
            match c {
                Some(x) => {
                    let q = Pending { owner: id, write, start: x as usize, end: e as usize, priority, in_progress: ip };
                    let l = super::model::lower_bound(ps, q.start as int, q.priority as int);
                    super::model::lemma_lower_bound_from(ps, q.start as int, q.priority as int, 0);
                    assert(w.pendings == ps.insert(l, q));
                    lemma_insert_owner(ps, l, q, j);
                    let t = choose|t: int| 0 <= t < ps.len() && #[trigger] ps[t].owner == o;
                    assert(v.pendings[t].owner == o);
                },
                None => {
                    assert(v.pendings[j].owner == o);
                },
            }
        }
    }
    let w2 = try_lock_spec(v, write, s, e).0;
    assert forall|o: int| is_live(w2, o) && o != id implies is_live(v, o) by {
        if exists|j: int| 0 <= j < w2.reads.len() && #[trigger] w2.reads[j].owner == o {
            let j = choose|j: int| 0 <= j < w2.reads.len() && #[trigger] w2.reads[j].owner == o;
            assert(v.reads[j].owner == o);
        }
        if exists|j: int| 0 <= j < w2.writes.len() && #[trigger] w2.writes[j].owner == o {
            let j = choose|j: int| 0 <= j < w2.writes.len() && #[trigger] w2.writes[j].owner == o;
            assert(v.writes[j].owner == o);
        }
        if exists|j: int| 0 <= j < w2.pendings.len() && #[trigger] w2.pendings[j].owner == o {
            let j = choose|j: int| 0 <= j < w2.pendings.len() && #[trigger] w2.pendings[j].owner == o;
            assert(v.pendings[j].owner == o);
        }
    }
}

} // verus!
