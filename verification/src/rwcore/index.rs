//! Search trees over the held borrows. The write borrows are kept ordered by
//! start; the read borrows are kept as their endpoints ordered by position,
//! each start weighing `+1` and each end `-1`, so that the number of read
//! borrows that contain an index is a prefix sum.
use vstd::prelude::*;

use super::model::{first_cover, lemma_first_cover, opt_int, seq_covers, Region};
use crate::utils::rbtree::{partitioned, sum_weights, RbTree, Weighted};

verus! {

/// One end of a read borrow: its start, or its end (exclusive).
#[derive(Debug)]
pub struct Endpoint {
    pub pos: usize,
    pub owner: u64,
    pub is_end: bool,
}

impl Weighted for Endpoint {
    open spec fn weight_spec(&self) -> int {
        if self.is_end {
            -1
        } else {
            1
        }
    }

    fn weight(&self) -> (w: i64) {
        if self.is_end {
            -1
        } else {
            1
        }
    }
}

/// Write borrows carry no weight: their tree is searched by position only.
impl Weighted for Region {
    open spec fn weight_spec(&self) -> int {
        0
    }

    fn weight(&self) -> (w: i64) {
        0
    }
}

pub open spec fn start_of(r: Region) -> Endpoint {
    Endpoint { pos: r.start, owner: r.owner, is_end: false }
}

pub open spec fn end_of(r: Region) -> Endpoint {
    Endpoint { pos: r.end, owner: r.owner, is_end: true }
}

/// The order of endpoints: by position, then owner, a start before an end.
pub open spec fn ep_lt(a: Endpoint, b: Endpoint) -> bool {
    a.pos < b.pos || (a.pos == b.pos && (a.owner < b.owner || (a.owner == b.owner && !a.is_end
        && b.is_end)))
}

pub open spec fn is_endpoint_of(rs: Seq<Region>, p: Endpoint) -> bool {
    exists|j: int| 0 <= j < rs.len() && (p == start_of(#[trigger] rs[j]) || p == end_of(rs[j]))
}

/// Every region is non-empty and owned by a lock of its own.
pub open spec fn reads_ok(rs: Seq<Region>) -> bool {
    &&& forall|i: int| 0 <= i < rs.len() ==> #[trigger] rs[i].start < rs[i].end
    &&& forall|i: int, j: int|
        #![trigger rs[i], rs[j]]
        0 <= i < rs.len() && 0 <= j < rs.len() && i != j ==> rs[i].owner != rs[j].owner
}

/// Every region is non-empty and no two regions share an index.
pub open spec fn writes_ok(rs: Seq<Region>) -> bool {
    &&& forall|i: int| 0 <= i < rs.len() ==> #[trigger] rs[i].start < rs[i].end
    &&& forall|i: int, j: int|
        #![trigger rs[i], rs[j]]
        0 <= i < rs.len() && 0 <= j < rs.len() && i != j ==> rs[i].end <= rs[j].start || rs[j].end
            <= rs[i].start
}

/// `es` holds exactly the endpoints of the regions `rs`, in order.
pub open spec fn read_index_ok(es: Seq<Endpoint>, rs: Seq<Region>) -> bool {
    &&& forall|i: int, j: int| 0 <= i < j < es.len() ==> ep_lt(#[trigger] es[i], #[trigger] es[j])
    &&& forall|p: Endpoint| es.contains(p) <==> is_endpoint_of(rs, p)
}

/// `ws` holds exactly the regions `rs`, ordered by start.
pub open spec fn write_index_ok(ws: Seq<Region>, rs: Seq<Region>) -> bool {
    &&& forall|i: int, j: int|
        0 <= i < j < ws.len() ==> (#[trigger] ws[i]).start < (#[trigger] ws[j]).start
    &&& forall|r: Region| ws.contains(r) <==> rs.contains(r)
}

// ---------------------------------------------------------------------------
// Sums over sequences

pub open spec fn gsum<A>(s: Seq<A>, g: spec_fn(A) -> int) -> int
    decreases s.len(),
{
    if s.len() == 0 {
        0
    } else {
        gsum(s.drop_last(), g) + g(s.last())
    }
}

proof fn lemma_gsum_remove<A>(s: Seq<A>, i: int, g: spec_fn(A) -> int)
    requires
        0 <= i < s.len(),
    ensures
        gsum(s.remove(i), g) == gsum(s, g) - g(s[i]),
    decreases s.len(),
{
    if i == s.len() - 1 {
        assert(s.remove(i) =~= s.drop_last());
    } else {
        assert(s.remove(i).drop_last() =~= s.drop_last().remove(i));
        lemma_gsum_remove(s.drop_last(), i, g);
    }
}

/// Two sequences without duplicates that hold the same elements have the
/// same sum.
proof fn lemma_gsum_perm<A>(a: Seq<A>, b: Seq<A>, g: spec_fn(A) -> int)
    requires
        a.no_duplicates(),
        b.no_duplicates(),
        forall|x: A| a.contains(x) <==> b.contains(x),
    ensures
        gsum(a, g) == gsum(b, g),
    decreases a.len(),
{
    if a.len() == 0 {
        if b.len() > 0 {
            assert(b.contains(b[0]));
        }
        assert(b =~= Seq::<A>::empty());
    } else {
        let x = a.last();
        assert(a.contains(a[a.len() - 1]));
        let i = choose|i: int| 0 <= i < b.len() && b[i] == x;
        lemma_gsum_remove(b, i, g);
        let a2 = a.drop_last();
        let b2 = b.remove(i);
        assert forall|y: A| a2.contains(y) <==> b2.contains(y) by {
            if a2.contains(y) {
                let k = choose|k: int| 0 <= k < a2.len() && a2[k] == y;
                assert(a[k] == y);
                assert(y != x);
                assert(a.contains(y));
                let m = choose|m: int| 0 <= m < b.len() && b[m] == y;
                if m < i {
                    assert(b2[m] == y);
                } else {
                    assert(b2[m - 1] == y);
                }
            }
            if b2.contains(y) {
                let k = choose|k: int| 0 <= k < b2.len() && b2[k] == y;
                let m = if k < i {
                    k
                } else {
                    k + 1
                };
                assert(b[m] == y);
                assert(y != x);
                assert(b.contains(y));
                let n = choose|n: int| 0 <= n < a.len() && a[n] == y;
                assert(a2[n] == y);
            }
        }
        assert forall|p: int, q: int| 0 <= p < b2.len() && 0 <= q < b2.len() && p != q implies b2[p]
            != b2[q] by {
            let p2 = if p < i {
                p
            } else {
                p + 1
            };
            let q2 = if q < i {
                q
            } else {
                q + 1
            };
            assert(b2[p] == b[p2] && b2[q] == b[q2]);
        }
        lemma_gsum_perm(a2, b2, g);
    }
}

proof fn lemma_gsum_concat<A>(a: Seq<A>, b: Seq<A>, g: spec_fn(A) -> int)
    ensures
        gsum(a + b, g) == gsum(a, g) + gsum(b, g),
    decreases b.len(),
{
    if b.len() > 0 {
        assert((a + b).drop_last() =~= a + b.drop_last());
        lemma_gsum_concat(a, b.drop_last(), g);
    } else {
        assert(a + b =~= a);
    }
}

/// A sum whose terms all equal the weights is the sum of the weights; one
/// whose terms are all zero is zero.
proof fn lemma_gsum_weights(s: Seq<Endpoint>, g: spec_fn(Endpoint) -> int)
    ensures
        (forall|i: int| 0 <= i < s.len() ==> g(#[trigger] s[i]) == s[i].weight_spec()) ==> gsum(
            s,
            g,
        ) == sum_weights(s),
        (forall|i: int| 0 <= i < s.len() ==> g(#[trigger] s[i]) == 0) ==> gsum(s, g) == 0,
    decreases s.len(),
{
    if s.len() > 0 {
        let t = s.drop_last();
        assert forall|i: int| 0 <= i < t.len() implies t[i] == s[i] by {}
        lemma_gsum_weights(t, g);
        assert(s[s.len() - 1] == s.last());
    }
}

// ---------------------------------------------------------------------------
// The endpoints of the read borrows, and how many contain an index

pub open spec fn endpoints(rs: Seq<Region>) -> Seq<Endpoint>
    decreases rs.len(),
{
    if rs.len() == 0 {
        Seq::empty()
    } else {
        endpoints(rs.drop_last()) + seq![start_of(rs.last()), end_of(rs.last())]
    }
}

/// The number of regions of `rs` that contain `x`.
pub open spec fn cover_count(rs: Seq<Region>, x: int) -> int
    decreases rs.len(),
{
    if rs.len() == 0 {
        0
    } else {
        cover_count(rs.drop_last(), x) + if rs.last().covers(x) {
            1int
        } else {
            0int
        }
    }
}

/// The weight of an endpoint at or before `x`, and zero after `x`.
pub open spec fn weight_upto(x: int) -> spec_fn(Endpoint) -> int {
    |p: Endpoint| if p.pos <= x {
        p.weight_spec()
    } else {
        0
    }
}

proof fn lemma_endpoints(rs: Seq<Region>, x: int)
    requires
        reads_ok(rs),
    ensures
        endpoints(rs).no_duplicates(),
        endpoints(rs).len() == 2 * rs.len(),
        forall|p: Endpoint| endpoints(rs).contains(p) <==> is_endpoint_of(rs, p),
        forall|p: Endpoint| #[trigger] endpoints(rs).contains(p) ==> exists|j: int|
            0 <= j < rs.len() && rs[j].owner == p.owner,
        gsum(endpoints(rs), weight_upto(x)) == cover_count(rs, x),
        cover_count(rs, x) >= 0,
        cover_count(rs, x) > 0 <==> seq_covers(rs, x),
    decreases rs.len(),
{
    if rs.len() > 0 {
        let t = rs.drop_last();
        let r = rs.last();
        let n = rs.len() - 1;
        assert(rs[n] == r);
        assert forall|i: int| 0 <= i < t.len() implies t[i] == rs[i] by {}
        assert(reads_ok(t)) by {
            assert forall|i: int, j: int|
                0 <= i < t.len() && 0 <= j < t.len() && i != j implies t[i].owner != t[j].owner by {
                assert(t[i] == rs[i] && t[j] == rs[j]);
            }
        }
        lemma_endpoints(t, x);
        let et = endpoints(t);
        let tail = seq![start_of(r), end_of(r)];
        let er = endpoints(rs);
        assert(er == et + tail);
        lemma_gsum_concat(et, tail, weight_upto(x));
        assert(tail.drop_last() =~= seq![start_of(r)]);
        assert(seq![start_of(r)].drop_last() =~= Seq::<Endpoint>::empty());
        assert(tail.last() == end_of(r));
        assert(seq![start_of(r)].last() == start_of(r));
        assert(gsum(seq![start_of(r)], weight_upto(x)) == weight_upto(x)(start_of(r))) by {
            reveal_with_fuel(gsum, 2);
        }
        assert(gsum(tail, weight_upto(x)) == weight_upto(x)(start_of(r)) + weight_upto(x)(end_of(r)));
        assert(rs[n].start < rs[n].end);
        assert forall|p: Endpoint| er.contains(p) <==> is_endpoint_of(rs, p) by {
            if er.contains(p) {
                let k = choose|k: int| 0 <= k < er.len() && er[k] == p;
                if k < et.len() {
                    assert(et[k] == p);
                    assert(et.contains(p));
                    assert(is_endpoint_of(t, p));
                    let j = choose|j: int|
                        0 <= j < t.len() && (p == start_of(#[trigger] t[j]) || p == end_of(t[j]));
                    assert(rs[j] == t[j]);
                } else if k == et.len() {
                    assert(p == start_of(rs[n]));
                } else {
                    assert(p == end_of(rs[n]));
                }
            }
            if is_endpoint_of(rs, p) {
                let j = choose|j: int|
                    0 <= j < rs.len() && (p == start_of(#[trigger] rs[j]) || p == end_of(rs[j]));
                if j < n {
                    assert(t[j] == rs[j]);
                    assert(is_endpoint_of(t, p));
                    assert(et.contains(p));
                    let k = choose|k: int| 0 <= k < et.len() && et[k] == p;
                    assert(er[k] == p);
                } else if p == start_of(r) {
                    assert(er[et.len() as int] == p);
                } else {
                    assert(er[et.len() + 1int] == p);
                }
            }
        }
        assert forall|p: Endpoint| #[trigger] er.contains(p) implies exists|j: int|
            0 <= j < rs.len() && rs[j].owner == p.owner by {
            assert(is_endpoint_of(rs, p));
            let j = choose|j: int|
                0 <= j < rs.len() && (p == start_of(#[trigger] rs[j]) || p == end_of(rs[j]));
            assert(rs[j].owner == p.owner);
        }
        assert forall|a: int, b: int| 0 <= a < er.len() && 0 <= b < er.len() && a != b implies er[a]
            != er[b] by {
            if a < et.len() && b >= et.len() {
                assert(et.contains(er[a]));
                let j = choose|j: int| 0 <= j < t.len() && t[j].owner == er[a].owner;
                assert(rs[j].owner != rs[n].owner);
            } else if b < et.len() && a >= et.len() {
                assert(et.contains(er[b]));
                let j = choose|j: int| 0 <= j < t.len() && t[j].owner == er[b].owner;
                assert(rs[j].owner != rs[n].owner);
            } else if a < et.len() && b < et.len() {
                assert(er[a] == et[a] && er[b] == et[b]);
            }
        }
        if seq_covers(t, x) {
            let i = choose|i: int| 0 <= i < t.len() && #[trigger] t[i].covers(x);
            assert(rs[i].covers(x));
        }
        if seq_covers(rs, x) && !r.covers(x) {
            let i = choose|i: int| 0 <= i < rs.len() && #[trigger] rs[i].covers(x);
            assert(t[i].covers(x));
        }
        if r.covers(x) {
            assert(rs[n].covers(x));
        }
    } else {
        assert(endpoints(rs) =~= Seq::<Endpoint>::empty());
    }
}

/// The number of read borrows that contain `x` is the sum of the weights of
/// the endpoints at or before `x`.
proof fn lemma_prefix_count(es: Seq<Endpoint>, rs: Seq<Region>, x: int, k: int)
    requires
        reads_ok(rs),
        read_index_ok(es, rs),
        0 <= k <= es.len(),
        forall|i: int| 0 <= i < k ==> (#[trigger] es[i]).pos <= x,
        forall|i: int| k <= i < es.len() ==> (#[trigger] es[i]).pos > x,
    ensures
        sum_weights(es.subrange(0, k)) == cover_count(rs, x),
        es.len() == 2 * rs.len(),
{
    lemma_endpoints(rs, x);
    assert(es.no_duplicates()) by {
        assert forall|a: int, b: int| 0 <= a < es.len() && 0 <= b < es.len() && a != b implies es[a]
            != es[b] by {
            if a < b {
                assert(ep_lt(es[a], es[b]));
            } else {
                assert(ep_lt(es[b], es[a]));
            }
        }
    }
    let g = weight_upto(x);
    lemma_gsum_perm(es, endpoints(rs), g);
    lemma_gsum_perm(es, endpoints(rs), one());
    lemma_gsum_len(es);
    lemma_gsum_len(endpoints(rs));
    let pre = es.subrange(0, k);
    let post = es.subrange(k, es.len() as int);
    assert(es =~= pre + post);
    lemma_gsum_concat(pre, post, g);
    lemma_gsum_weights(pre, g);
    lemma_gsum_weights(post, g);
}

pub open spec fn one() -> spec_fn(Endpoint) -> int {
    |p: Endpoint| 1int
}

proof fn lemma_gsum_len(s: Seq<Endpoint>)
    ensures
        gsum(s, one()) == s.len(),
    decreases s.len(),
{
    if s.len() > 0 {
        lemma_gsum_len(s.drop_last());
    }
}

// ---------------------------------------------------------------------------
// Searches

/// The first index of `s..e` that a write borrow holds.
pub fn first_write_cover(ws: &RbTree<Region>, Ghost(rs): Ghost<Seq<Region>>, s: usize, e: usize) -> (r:
    Option<usize>)
    requires
        s < e,
        writes_ok(rs),
        write_index_ok(ws@, rs),
    ensures
        opt_int(r) == first_cover(rs, s as int, e as int),
{
    let ghost w = ws@;
    let ghost ends_before = |r: Region| r.end <= s;
    proof {
        lemma_first_cover(rs, s as int, e as int);
        assert forall|i: int| 0 <= i < w.len() implies #[trigger] w[i].start < w[i].end by {
            assert(w.contains(w[i]));
        }
        assert forall|i: int, j: int| 0 <= i < w.len() && 0 <= j < w.len() && i < j implies (
        #[trigger] w[i]).end <= (#[trigger] w[j]).start by {
            assert(w.contains(w[i]) && w.contains(w[j]));
            let a = choose|a: int| 0 <= a < rs.len() && rs[a] == w[i];
            let b = choose|b: int| 0 <= b < rs.len() && rs[b] == w[j];
            assert(a != b);
        }
        assert(partitioned(w, ends_before));
    }
    let before = |r: &Region| -> (b: bool)
        ensures
            b == ends_before(*r),
        { r.end <= s };
    let k = ws.partition_point(before, Ghost(ends_before));
    if k < ws.len() && ws.get(k).start < e {
        let st = ws.get(k).start;
        let c = if st < s {
            s
        } else {
            st
        };
        proof {
            let rk = w[k as int];
            assert(w.contains(rk));
            let a = choose|a: int| 0 <= a < rs.len() && rs[a] == rk;
            assert(seq_covers(rs, c as int)) by {
                assert(rs[a].covers(c as int));
            }
            let c2 = first_cover(rs, s as int, e as int)->0;
            let b = choose|b: int| 0 <= b < rs.len() && #[trigger] rs[b].covers(c2);
            assert(rs.contains(rs[b]));
            assert(w.contains(rs[b]));
            let m = choose|m: int| 0 <= m < w.len() && w[m] == rs[b];
            assert(!ends_before(w[m]));
            assert(m >= k);
        }
        Some(c)
    } else {
        proof {
            if first_cover(rs, s as int, e as int) is Some {
                let c2 = first_cover(rs, s as int, e as int)->0;
                let b = choose|b: int| 0 <= b < rs.len() && #[trigger] rs[b].covers(c2);
                assert(rs.contains(rs[b]));
                assert(w.contains(rs[b]));
                let m = choose|m: int| 0 <= m < w.len() && w[m] == rs[b];
                assert(!ends_before(w[m]));
                if m > k {
                    assert(w[k as int].start < w[m].start);
                }
            }
        }
        None
    }
}

/// The first index of `s..e` that a read borrow holds.
pub fn first_read_cover(es: &RbTree<Endpoint>, Ghost(rs): Ghost<Seq<Region>>, s: usize, e: usize) -> (r:
    Option<usize>)
    requires
        s < e,
        reads_ok(rs),
        read_index_ok(es@, rs),
    ensures
        opt_int(r) == first_cover(rs, s as int, e as int),
{
    let ghost q = es@;
    let ghost at_or_before = |p: Endpoint| p.pos <= s;
    proof {
        lemma_first_cover(rs, s as int, e as int);
        assert(partitioned(q, at_or_before)) by {
            assert forall|i: int, j: int| 0 <= i < j < q.len() && #[trigger] at_or_before(q[j]) implies #[trigger] at_or_before(q[i]) by {
                assert(ep_lt(q[i], q[j]));
            }
        }
    }
    let upto = |p: &Endpoint| -> (b: bool)
        ensures
            b == at_or_before(*p),
        { p.pos <= s };
    let k = es.partition_point(upto, Ghost(at_or_before));
    let count = es.prefix_sum(k);
    proof {
        lemma_prefix_count(q, rs, s as int, k as int);
        lemma_endpoints(rs, s as int);
    }
    if count > 0 {
        proof {
            let i = choose|i: int| 0 <= i < rs.len() && #[trigger] rs[i].covers(s as int);
            assert(rs[i].overlaps(s as int, e as int));
        }
        return Some(s);
    }
    // No read borrow contains `s`: the next endpoint, if any, starts one.
    proof {
        // Every region that contains an index of `s..` starts after `s`, at
        // an endpoint from `k` on.
        assert forall|j: int, x: int| 0 <= j < rs.len() && s <= x && #[trigger] rs[j].covers(x)
            implies k < q.len() && q[k as int].pos <= rs[j].start && s < rs[j].start by {
            if rs[j].start <= s {
                assert(rs[j].covers(s as int));
            }
            assert(is_endpoint_of(rs, start_of(rs[j])));
            assert(q.contains(start_of(rs[j])));
            let m = choose|m: int| 0 <= m < q.len() && q[m] == start_of(rs[j]);
            assert(!at_or_before(q[m]));
            if m > k {
                assert(ep_lt(q[k as int], q[m]));
            }
        }
    }
    if k < es.len() && es.get(k).pos < e {
        let p = es.get(k).pos;
        proof {
            let ep = q[k as int];
            assert(q.contains(ep));
            let j = choose|j: int|
                0 <= j < rs.len() && (ep == start_of(#[trigger] rs[j]) || ep == end_of(rs[j]));
            if ep == end_of(rs[j]) {
                if rs[j].start <= s {
                    assert(rs[j].covers(s as int));
                }
                assert(rs[j].covers(rs[j].start as int));
            }
            assert(ep == start_of(rs[j]));
            assert(rs[j].covers(p as int));
            assert(seq_covers(rs, p as int));
            assert(rs[j].overlaps(s as int, e as int));
            let c2 = first_cover(rs, s as int, e as int)->0;
            let b = choose|b: int| 0 <= b < rs.len() && #[trigger] rs[b].covers(c2);
            assert(rs[b].covers(c2));
        }
        Some(p)
    } else {
        proof {
            if first_cover(rs, s as int, e as int) is Some {
                let c2 = first_cover(rs, s as int, e as int)->0;
                let b = choose|b: int| 0 <= b < rs.len() && #[trigger] rs[b].covers(c2);
                assert(rs[b].covers(c2));
            }
        }
        None
    }
}

// ---------------------------------------------------------------------------
// Keeping the trees in step with the borrows

/// A region list without two equal regions.
proof fn lemma_writes_distinct(rs: Seq<Region>)
    requires
        writes_ok(rs),
    ensures
        rs.no_duplicates(),
{
    assert forall|i: int, j: int| 0 <= i < rs.len() && 0 <= j < rs.len() && i != j implies rs[i]
        != rs[j] by {
        assert(rs[i].start < rs[i].end);
    }
}

/// The number of entries of the indexes.
pub proof fn lemma_index_len(ws: Seq<Region>, wr: Seq<Region>, es: Seq<Endpoint>, rr: Seq<Region>)
    requires
        writes_ok(wr),
        write_index_ok(ws, wr),
        reads_ok(rr),
        read_index_ok(es, rr),
    ensures
        ws.len() == wr.len(),
        es.len() == 2 * rr.len(),
{
    lemma_writes_distinct(wr);
    assert(ws.no_duplicates()) by {
        assert forall|a: int, b: int| 0 <= a < ws.len() && 0 <= b < ws.len() && a != b implies ws[a]
            != ws[b] by {
            if a < b {
                assert(ws[a].start < ws[b].start);
            } else {
                assert(ws[b].start < ws[a].start);
            }
        }
    }
    lemma_gsum_perm(ws, wr, |r: Region| 1int);
    lemma_gsum_len_regions(ws);
    lemma_gsum_len_regions(wr);
    lemma_prefix_count_len(es, rr);
}

proof fn lemma_gsum_len_regions(s: Seq<Region>)
    ensures
        gsum(s, |r: Region| 1int) == s.len(),
    decreases s.len(),
{
    if s.len() > 0 {
        lemma_gsum_len_regions(s.drop_last());
    }
}

proof fn lemma_prefix_count_len(es: Seq<Endpoint>, rs: Seq<Region>)
    requires
        reads_ok(rs),
        read_index_ok(es, rs),
    ensures
        es.len() == 2 * rs.len(),
{
    lemma_endpoints(rs, 0);
    assert(es.no_duplicates()) by {
        assert forall|a: int, b: int| 0 <= a < es.len() && 0 <= b < es.len() && a != b implies es[a]
            != es[b] by {
            if a < b {
                assert(ep_lt(es[a], es[b]));
            } else {
                assert(ep_lt(es[b], es[a]));
            }
        }
    }
    lemma_gsum_perm(es, endpoints(rs), one());
    lemma_gsum_len(es);
    lemma_gsum_len(endpoints(rs));
}

/// The position in `ws` of the first region that starts at or after `start`.
fn write_position(ws: &RbTree<Region>, start: usize) -> (k: usize)
    requires
        forall|i: int, j: int|
            0 <= i < j < ws@.len() ==> (#[trigger] ws@[i]).start < (#[trigger] ws@[j]).start,
    ensures
        k <= ws@.len(),
        forall|i: int| 0 <= i < k ==> (#[trigger] ws@[i]).start < start,
        forall|i: int| k <= i < ws@.len() ==> (#[trigger] ws@[i]).start >= start,
{
    let ghost before = |r: Region| r.start < start;
    assert(partitioned(ws@, before));
    let f = |r: &Region| -> (b: bool)
        ensures
            b == before(*r),
        { r.start < start };
    ws.partition_point(f, Ghost(before))
}

/// Add the write borrow `r` to the index of the write borrows `rs`.
pub fn add_write(ws: &mut RbTree<Region>, Ghost(rs): Ghost<Seq<Region>>, r: Region)
    requires
        write_index_ok(old(ws)@, rs),
        writes_ok(rs),
        r.start < r.end,
        forall|j: int| 0 <= j < rs.len() ==> r.end <= (#[trigger] rs[j]).start || rs[j].end <= r.start,
        old(ws)@.len() < usize::MAX,
    ensures
        write_index_ok(final(ws)@, rs.push(r)),
        writes_ok(rs.push(r)),
{
    let ghost w = ws@;
    let k = write_position(ws, r.start);
    ws.insert(k, r);
    proof {
        let w2 = ws@;
        let rs2 = rs.push(r);
        assert forall|i: int| 0 <= i < w.len() implies #[trigger] w[i].start != r.start by {
            assert(w.contains(w[i]));
            let j = choose|j: int| 0 <= j < rs.len() && rs[j] == w[i];
        }
        assert forall|i: int, j: int| 0 <= i < j < w2.len() implies (#[trigger] w2[i]).start < (
        #[trigger] w2[j]).start by {
            if j < k {
            } else if j == k {
            } else if i < k {
                assert(w2[j] == w[j - 1]);
            } else if i == k {
                assert(w2[j] == w[j - 1]);
            } else {
                assert(w2[i] == w[i - 1] && w2[j] == w[j - 1]);
            }
        }
        assert forall|x: Region| w2.contains(x) <==> rs2.contains(x) by {
            if w2.contains(x) {
                let m = choose|m: int| 0 <= m < w2.len() && w2[m] == x;
                if m < k {
                    assert(w[m] == x && w.contains(x));
                } else if m > k {
                    assert(w[m - 1] == x && w.contains(x));
                } else {
                    assert(rs2[rs.len() as int] == x);
                }
                if x != r {
                    let j = choose|j: int| 0 <= j < rs.len() && rs[j] == x;
                    assert(rs2[j] == x);
                } else {
                    assert(rs2[rs.len() as int] == x);
                }
            }
            if rs2.contains(x) {
                let m = choose|m: int| 0 <= m < rs2.len() && rs2[m] == x;
                if m < rs.len() {
                    assert(rs[m] == x && rs.contains(x));
                    let i = choose|i: int| 0 <= i < w.len() && w[i] == x;
                    if i < k {
                        assert(w2[i] == x);
                    } else {
                        assert(w2[i + 1] == x);
                    }
                } else {
                    assert(w2[k as int] == x);
                }
            }
        }
        assert forall|i: int, j: int|
            0 <= i < rs2.len() && 0 <= j < rs2.len() && i != j implies rs2[i].end <= rs2[j].start
            || rs2[j].end <= rs2[i].start by {
            if i < rs.len() && j < rs.len() {
                assert(rs2[i] == rs[i] && rs2[j] == rs[j]);
            } else if i < rs.len() {
                assert(rs2[i] == rs[i]);
            } else {
                assert(rs2[j] == rs[j]);
            }
        }
        assert forall|i: int| 0 <= i < rs2.len() implies #[trigger] rs2[i].start < rs2[i].end by {
            if i < rs.len() {
                assert(rs2[i] == rs[i]);
            }
        }
    }
}

/// Remove the write borrow `rs[k]`, which is `r`, from the index.
pub fn remove_write(ws: &mut RbTree<Region>, Ghost(rs): Ghost<Seq<Region>>, k: usize, r: Region)
    requires
        write_index_ok(old(ws)@, rs),
        writes_ok(rs),
        k < rs.len(),
        rs[k as int] == r,
    ensures
        write_index_ok(final(ws)@, rs.remove(k as int)),
        writes_ok(rs.remove(k as int)),
{
    let ghost w = ws@;
    let p = write_position(ws, r.start);
    proof {
        lemma_writes_distinct(rs);
        assert(rs.contains(r));
        assert(w.contains(r));
        let m = choose|m: int| 0 <= m < w.len() && w[m] == r;
        if m > p {
            assert(w[p as int].start < w[m].start);
        }
        assert(w[p as int] == r);
    }
    ws.remove(p);
    proof {
        let w2 = ws@;
        let rs2 = rs.remove(k as int);
        assert forall|i: int, j: int| 0 <= i < j < w2.len() implies (#[trigger] w2[i]).start < (
        #[trigger] w2[j]).start by {
            let i2 = if i < p {
                i
            } else {
                i + 1
            };
            let j2 = if j < p {
                j
            } else {
                j + 1
            };
            assert(w2[i] == w[i2] && w2[j] == w[j2]);
        }
        assert forall|x: Region| w2.contains(x) <==> rs2.contains(x) by {
            if w2.contains(x) {
                let m = choose|m: int| 0 <= m < w2.len() && w2[m] == x;
                let m2 = if m < p {
                    m
                } else {
                    m + 1
                };
                assert(w[m2] == x);
                assert(w.contains(x));
                assert(x != r) by {
                    if m2 < p {
                        assert(w[m2].start < w[p as int].start);
                    } else {
                        assert(w[p as int].start < w[m2].start);
                    }
                }
                let j = choose|j: int| 0 <= j < rs.len() && rs[j] == x;
                if j < k {
                    assert(rs2[j] == x);
                } else {
                    assert(j != k);
                    assert(rs2[j - 1] == x);
                }
            }
            if rs2.contains(x) {
                let m = choose|m: int| 0 <= m < rs2.len() && rs2[m] == x;
                let m2 = if m < k {
                    m
                } else {
                    m + 1
                };
                assert(rs[m2] == x);
                assert(rs.contains(x));
                assert(x != r);
                let i = choose|i: int| 0 <= i < w.len() && w[i] == x;
                assert(i != p);
                if i < p {
                    assert(w2[i] == x);
                } else {
                    assert(w2[i - 1] == x);
                }
            }
        }
        assert forall|i: int, j: int|
            0 <= i < rs2.len() && 0 <= j < rs2.len() && i != j implies rs2[i].end <= rs2[j].start
            || rs2[j].end <= rs2[i].start by {
            let i2 = if i < k {
                i
            } else {
                i + 1
            };
            let j2 = if j < k {
                j
            } else {
                j + 1
            };
            assert(rs2[i] == rs[i2] && rs2[j] == rs[j2]);
        }
        assert forall|i: int| 0 <= i < rs2.len() implies #[trigger] rs2[i].start < rs2[i].end by {
            let i2 = if i < k {
                i
            } else {
                i + 1
            };
            assert(rs2[i] == rs[i2]);
        }
    }
}

proof fn lemma_insert_contains<A>(s: Seq<A>, k: int, v: A)
    requires
        0 <= k <= s.len(),
    ensures
        forall|x: A| s.insert(k, v).contains(x) <==> (s.contains(x) || x == v),
{
    let t = s.insert(k, v);
    assert forall|x: A| t.contains(x) <==> (s.contains(x) || x == v) by {
        if t.contains(x) {
            let m = choose|m: int| 0 <= m < t.len() && t[m] == x;
            if m < k {
                assert(s[m] == x);
            } else if m > k {
                assert(s[m - 1] == x);
            }
        }
        if s.contains(x) {
            let m = choose|m: int| 0 <= m < s.len() && s[m] == x;
            if m < k {
                assert(t[m] == x);
            } else {
                assert(t[m + 1] == x);
            }
        }
        if x == v {
            assert(t[k] == x);
        }
    }
}

proof fn lemma_remove_contains<A>(s: Seq<A>, k: int)
    requires
        0 <= k < s.len(),
        s.no_duplicates(),
    ensures
        forall|x: A| s.remove(k).contains(x) <==> (s.contains(x) && x != s[k]),
        s.remove(k).no_duplicates(),
{
    let t = s.remove(k);
    assert forall|x: A| t.contains(x) <==> (s.contains(x) && x != s[k]) by {
        if t.contains(x) {
            let m = choose|m: int| 0 <= m < t.len() && t[m] == x;
            let m2 = if m < k {
                m
            } else {
                m + 1
            };
            assert(s[m2] == x);
        }
        if s.contains(x) && x != s[k] {
            let m = choose|m: int| 0 <= m < s.len() && s[m] == x;
            if m < k {
                assert(t[m] == x);
            } else {
                assert(t[m - 1] == x);
            }
        }
    }
    assert forall|a: int, b: int| 0 <= a < t.len() && 0 <= b < t.len() && a != b implies t[a]
        != t[b] by {
        let a2 = if a < k {
            a
        } else {
            a + 1
        };
        let b2 = if b < k {
            b
        } else {
            b + 1
        };
        assert(t[a] == s[a2] && t[b] == s[b2]);
    }
}

pub open spec fn eps_sorted(es: Seq<Endpoint>) -> bool {
    forall|i: int, j: int| 0 <= i < j < es.len() ==> ep_lt(#[trigger] es[i], #[trigger] es[j])
}

proof fn lemma_eps_distinct(es: Seq<Endpoint>)
    requires
        eps_sorted(es),
    ensures
        es.no_duplicates(),
{
    assert forall|a: int, b: int| 0 <= a < es.len() && 0 <= b < es.len() && a != b implies es[a]
        != es[b] by {
        if a < b {
            assert(ep_lt(es[a], es[b]));
        } else {
            assert(ep_lt(es[b], es[a]));
        }
    }
}

/// The position in `es` of the first endpoint that does not come before `t`.
fn read_position(es: &RbTree<Endpoint>, t: &Endpoint) -> (k: usize)
    requires
        eps_sorted(es@),
    ensures
        k <= es@.len(),
        forall|i: int| 0 <= i < k ==> ep_lt(#[trigger] es@[i], *t),
        forall|i: int| k <= i < es@.len() ==> !ep_lt(#[trigger] es@[i], *t),
{
    let ghost target = *t;
    let ghost before = |p: Endpoint| ep_lt(p, target);
    assert(partitioned(es@, before)) by {
        assert forall|i: int, j: int| 0 <= i < j < es@.len() && #[trigger] before(es@[j]) implies #[trigger] before(es@[i]) by {
            assert(ep_lt(es@[i], es@[j]));
        }
    }
    let f = |p: &Endpoint| -> (b: bool)
        ensures
            b == before(*p),
        {
            p.pos < t.pos || (p.pos == t.pos && (p.owner < t.owner || (p.owner == t.owner && !p.is_end
                && t.is_end)))
        };
    es.partition_point(f, Ghost(before))
}

/// Insert the endpoint `p`, which `es` does not hold, at its place.
fn insert_endpoint(es: &mut RbTree<Endpoint>, p: Endpoint)
    requires
        eps_sorted(old(es)@),
        !old(es)@.contains(p),
        old(es)@.len() < usize::MAX,
    ensures
        eps_sorted(final(es)@),
        forall|x: Endpoint| final(es)@.contains(x) <==> (old(es)@.contains(x) || x == p),
        final(es)@.len() == old(es)@.len() + 1,
{
    let ghost e0 = es@;
    let ghost pv = p;
    let k = read_position(es, &p);
    es.insert(k, p);
    proof {
        lemma_insert_contains(e0, k as int, pv);
        let e1 = es@;
        assert forall|i: int| k <= i < e0.len() implies ep_lt(pv, #[trigger] e0[i]) by {
            assert(e0.contains(e0[i]));
            assert(e0[i] != pv);
        }
        assert forall|i: int, j: int| 0 <= i < j < e1.len() implies ep_lt(#[trigger] e1[i], #[trigger] e1[j]) by {
            if j < k {
            } else if j == k {
                assert(e1[i] == e0[i]);
            } else if i < k {
                assert(e1[j] == e0[j - 1] && e1[i] == e0[i]);
                assert(ep_lt(e0[i], pv));
                assert(ep_lt(pv, e0[j - 1]));
            } else if i == k {
                assert(e1[j] == e0[j - 1]);
            } else {
                assert(e1[i] == e0[i - 1] && e1[j] == e0[j - 1]);
            }
        }
    }
}

/// Remove the endpoint `p`, which `es` holds.
fn remove_endpoint(es: &mut RbTree<Endpoint>, p: Endpoint)
    requires
        eps_sorted(old(es)@),
        old(es)@.contains(p),
    ensures
        eps_sorted(final(es)@),
        forall|x: Endpoint| final(es)@.contains(x) <==> (old(es)@.contains(x) && x != p),
        final(es)@.len() + 1 == old(es)@.len(),
{
    let ghost e0 = es@;
    let ghost pv = p;
    let k = read_position(es, &p);
    proof {
        let m = choose|m: int| 0 <= m < e0.len() && e0[m] == pv;
        if m > k {
            assert(ep_lt(e0[k as int], e0[m]));
        }
        assert(e0[k as int] == pv);
        lemma_eps_distinct(e0);
        lemma_remove_contains(e0, k as int);
    }
    es.remove(k);
    proof {
        let e1 = es@;
        assert forall|i: int, j: int| 0 <= i < j < e1.len() implies ep_lt(#[trigger] e1[i], #[trigger] e1[j]) by {
            let i2 = if i < k {
                i
            } else {
                i + 1
            };
            let j2 = if j < k {
                j
            } else {
                j + 1
            };
            assert(e1[i] == e0[i2] && e1[j] == e0[j2]);
        }
    }
}

/// Add the read borrow `r` to the index of the read borrows `rs`.
pub fn add_read(es: &mut RbTree<Endpoint>, Ghost(rs): Ghost<Seq<Region>>, r: Region)
    requires
        read_index_ok(old(es)@, rs),
        reads_ok(rs),
        r.start < r.end,
        forall|j: int| 0 <= j < rs.len() ==> (#[trigger] rs[j]).owner != r.owner,
        old(es)@.len() + 2 <= usize::MAX,
    ensures
        read_index_ok(final(es)@, rs.push(r)),
        reads_ok(rs.push(r)),
{
    let ghost e0 = es@;
    proof {
        assert forall|x: Endpoint| e0.contains(x) implies x.owner != r.owner by {
            assert(is_endpoint_of(rs, x));
            let j = choose|j: int| 0 <= j < rs.len() && (x == start_of(#[trigger] rs[j]) || x == end_of(rs[j]));
        }
    }
    insert_endpoint(es, Endpoint { pos: r.start, owner: r.owner, is_end: false });
    insert_endpoint(es, Endpoint { pos: r.end, owner: r.owner, is_end: true });
    proof {
        let rs2 = rs.push(r);
        let n = rs.len() as int;
        assert(rs2[n] == r);
        assert forall|x: Endpoint| es@.contains(x) <==> is_endpoint_of(rs2, x) by {
            if is_endpoint_of(rs2, x) {
                let j = choose|j: int| 0 <= j < rs2.len() && (x == start_of(#[trigger] rs2[j]) || x == end_of(rs2[j]));
                if j < n {
                    assert(rs2[j] == rs[j]);
                    assert(is_endpoint_of(rs, x));
                }
            }
            if es@.contains(x) && x != start_of(r) && x != end_of(r) {
                assert(is_endpoint_of(rs, x));
                let j = choose|j: int| 0 <= j < rs.len() && (x == start_of(#[trigger] rs[j]) || x == end_of(rs[j]));
                assert(rs2[j] == rs[j]);
            }
        }
        assert forall|i: int, j: int|
            0 <= i < rs2.len() && 0 <= j < rs2.len() && i != j implies rs2[i].owner != rs2[j].owner by {
            if i < n && j < n {
                assert(rs2[i] == rs[i] && rs2[j] == rs[j]);
            } else if i < n {
                assert(rs2[i] == rs[i]);
            } else {
                assert(rs2[j] == rs[j]);
            }
        }
        assert forall|i: int| 0 <= i < rs2.len() implies #[trigger] rs2[i].start < rs2[i].end by {
            if i < n {
                assert(rs2[i] == rs[i]);
            }
        }
    }
}

/// Remove the read borrow `rs[k]`, which is `r`, from the index.
pub fn remove_read(es: &mut RbTree<Endpoint>, Ghost(rs): Ghost<Seq<Region>>, k: usize, r: Region)
    requires
        read_index_ok(old(es)@, rs),
        reads_ok(rs),
        k < rs.len(),
        rs[k as int] == r,
    ensures
        read_index_ok(final(es)@, rs.remove(k as int)),
        reads_ok(rs.remove(k as int)),
{
    proof {
        assert(is_endpoint_of(rs, start_of(r)));
        assert(is_endpoint_of(rs, end_of(r)));
    }
    remove_endpoint(es, Endpoint { pos: r.start, owner: r.owner, is_end: false });
    remove_endpoint(es, Endpoint { pos: r.end, owner: r.owner, is_end: true });
    proof {
        let rs2 = rs.remove(k as int);
        assert forall|x: Endpoint| es@.contains(x) <==> is_endpoint_of(rs2, x) by {
            if is_endpoint_of(rs2, x) {
                let j = choose|j: int| 0 <= j < rs2.len() && (x == start_of(#[trigger] rs2[j]) || x == end_of(rs2[j]));
                let j2 = if j < k {
                    j
                } else {
                    j + 1
                };
                assert(rs2[j] == rs[j2]);
                assert(rs[j2].owner != rs[k as int].owner);
                assert(is_endpoint_of(rs, x));
            }
            if es@.contains(x) {
                assert(is_endpoint_of(rs, x));
                let j = choose|j: int| 0 <= j < rs.len() && (x == start_of(#[trigger] rs[j]) || x == end_of(rs[j]));
                assert(j != k);
                if j < k {
                    assert(rs2[j] == rs[j]);
                } else {
                    assert(rs2[j - 1] == rs[j]);
                }
            }
        }
        assert forall|i: int, j: int|
            0 <= i < rs2.len() && 0 <= j < rs2.len() && i != j implies rs2[i].owner != rs2[j].owner by {
            let i2 = if i < k {
                i
            } else {
                i + 1
            };
            let j2 = if j < k {
                j
            } else {
                j + 1
            };
            assert(rs2[i] == rs[i2] && rs2[j] == rs[j2]);
        }
        assert forall|i: int| 0 <= i < rs2.len() implies #[trigger] rs2[i].start < rs2[i].end by {
            let i2 = if i < k {
                i
            } else {
                i + 1
            };
            assert(rs2[i] == rs[i2]);
        }
    }
}

/// Replacing the element at `k` by `n` gives the same elements, and the same
/// endpoints, as removing it and adding `n` at the end.
pub proof fn lemma_update_same(rs: Seq<Region>, k: int, n: Region)
    requires
        0 <= k < rs.len(),
    ensures
        forall|x: Region| rs.remove(k).push(n).contains(x) <==> rs.update(k, n).contains(x),
        forall|p: Endpoint| is_endpoint_of(rs.remove(k).push(n), p) <==> is_endpoint_of(rs.update(k, n), p),
{
    let a = rs.remove(k).push(n);
    let b = rs.update(k, n);
    let m = rs.len() - 1;
    assert(a[m] == n && b[k] == n);
    assert forall|j: int| 0 <= j < m implies #[trigger] a[j] == b[if j < k { j } else { j + 1 }] by {}
    assert forall|j: int| 0 <= j < b.len() && j != k implies #[trigger] b[j] == a[if j < k { j } else { j - 1 }] by {}
    assert forall|x: Region| a.contains(x) <==> b.contains(x) by {
        if a.contains(x) {
            let j = choose|j: int| 0 <= j < a.len() && a[j] == x;
            if j == m {
                assert(b[k] == x);
            } else {
                let j2 = if j < k { j } else { j + 1 };
                assert(b[j2] == x);
            }
        }
        if b.contains(x) {
            let j = choose|j: int| 0 <= j < b.len() && b[j] == x;
            if j == k {
                assert(a[m] == x);
            } else {
                let j2 = if j < k { j } else { j - 1 };
                assert(a[j2] == x);
            }
        }
    }
    assert forall|p: Endpoint| is_endpoint_of(a, p) <==> is_endpoint_of(b, p) by {
        if is_endpoint_of(a, p) {
            let j = choose|j: int| 0 <= j < a.len() && (p == start_of(#[trigger] a[j]) || p == end_of(a[j]));
            if j == m {
                assert(b[k] == a[j]);
            } else {
                let j2 = if j < k { j } else { j + 1 };
                assert(b[j2] == a[j]);
            }
        }
        if is_endpoint_of(b, p) {
            let j = choose|j: int| 0 <= j < b.len() && (p == start_of(#[trigger] b[j]) || p == end_of(b[j]));
            if j == k {
                assert(a[m] == b[j]);
            } else {
                let j2 = if j < k { j } else { j - 1 };
                assert(a[j2] == b[j]);
            }
        }
    }
}

} // verus!
