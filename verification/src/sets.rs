//! Ordered sequences of vertices and of vertex pairs, and the verified
//! routines that build them.
use vstd::prelude::*;

use crate::dag::Vx;

verus! {

/// Non-decreasing by vertex number.
pub open spec fn sorted(s: Seq<Vx>) -> bool {
    forall|i: int, j: int| 0 <= i <= j < s.len() ==> s[i].0 <= s[j].0
}

/// Strictly increasing by vertex number (sorted, without repetition).
pub open spec fn strictly_sorted(s: Seq<Vx>) -> bool {
    forall|i: int, j: int| 0 <= i < j < s.len() ==> s[i].0 < s[j].0
}

/// The one strictly increasing sequence whose elements are exactly `s`
/// (for a finite `s`).
pub open spec fn canon(s: Set<Vx>) -> Seq<Vx> {
    choose|q: Seq<Vx>| strictly_sorted(q) && q.to_set() == s
}

/// Lexicographic order on vertex pairs.
pub open spec fn pair_le(a: (Vx, Vx), b: (Vx, Vx)) -> bool {
    a.0.0 < b.0.0 || (a.0.0 == b.0.0 && a.1.0 <= b.1.0)
}

/// Lexicographically non-decreasing.
pub open spec fn pairs_sorted(s: Seq<(Vx, Vx)>) -> bool {
    forall|i: int, j: int| #![trigger s[i], s[j]] 0 <= i <= j < s.len() ==> pair_le(s[i], s[j])
}

/// Each pair with its two vertices exchanged.
pub open spec fn swap_pairs(s: Seq<(Vx, Vx)>) -> Seq<(Vx, Vx)> {
    s.map_values(|p: (Vx, Vx)| (p.1, p.0))
}

pub proof fn lemma_strictly_sorted_unique(a: Seq<Vx>, b: Seq<Vx>)
    requires
        strictly_sorted(a),
        strictly_sorted(b),
        a.to_set() == b.to_set(),
    ensures
        a == b,
    decreases a.len(),
{
    if a.len() == 0 {
        if b.len() > 0 {
            assert(b.to_set().contains(b[0]));
            assert(!a.to_set().contains(b[0]));
        }
        assert(a =~= b);
    } else {
        if b.len() == 0 {
            assert(a.to_set().contains(a[0]));
            assert(!b.to_set().contains(a[0]));
        }
        assert(a.to_set().contains(a[0]));
        assert(b.to_set().contains(b[0]));
        let k = choose|k: int| 0 <= k < b.len() && b[k] == a[0];
        let m = choose|m: int| 0 <= m < a.len() && a[m] == b[0];
        assert(a[0] == b[0]);
        let a1 = a.subrange(1, a.len() as int);
        let b1 = b.subrange(1, b.len() as int);
        assert forall|x: Vx| a1.to_set().contains(x) implies b1.to_set().contains(x) by {
            let i = choose|i: int| 0 <= i < a1.len() && a1[i] == x;
            assert(a.to_set().contains(a[i + 1]));
            let j = choose|j: int| 0 <= j < b.len() && b[j] == x;
            if j == 0 {
                assert(a[0].0 < a[i + 1].0);
            }
            assert(b1[j - 1] == x);
        }
        assert forall|x: Vx| b1.to_set().contains(x) implies a1.to_set().contains(x) by {
            let i = choose|i: int| 0 <= i < b1.len() && b1[i] == x;
            assert(b.to_set().contains(b[i + 1]));
            let j = choose|j: int| 0 <= j < a.len() && a[j] == x;
            if j == 0 {
                assert(b[0].0 < b[i + 1].0);
            }
            assert(a1[j - 1] == x);
        }
        assert(a1.to_set() =~= b1.to_set());
        lemma_strictly_sorted_unique(a1, b1);
        assert(a =~= seq![a[0]] + a1);
        assert(b =~= seq![b[0]] + b1);
    }
}

/// A strictly increasing sequence is the canonical sequence of its elements.
pub proof fn lemma_canon(q: Seq<Vx>)
    requires
        strictly_sorted(q),
    ensures
        canon(q.to_set()) == q,
{
    let c = canon(q.to_set());
    assert(strictly_sorted(c) && c.to_set() == q.to_set());
    lemma_strictly_sorted_unique(c, q);
}

/// The canonical sequence of a finite set exists.
pub proof fn lemma_canon_finite(s: Set<Vx>)
    requires
        s.finite(),
    ensures
        strictly_sorted(canon(s)),
        canon(s).to_set() == s,
    decreases s.len(),
{
    if s.len() == 0 {
        assert(s =~= Set::<Vx>::empty());
        let e = Seq::<Vx>::empty();
        assert(e.to_set() =~= s);
        assert(strictly_sorted(e));
    } else {
        // remove the largest element and extend the canonical sequence of the rest
        lemma_max_of(s);
        let m = max_of(s);
        let r = s.remove(m);
        lemma_canon_finite(r);
        let q = canon(r).push(m);
        assert forall|i: int, j: int| 0 <= i < j < q.len() implies q[i].0 < q[j].0 by {
            if j == q.len() - 1 {
                assert(canon(r).to_set().contains(q[i]));
                assert(r.contains(q[i]));
            }
        }
        assert(q.to_set() =~= s) by {
            assert forall|x: Vx| q.to_set().contains(x) implies s.contains(x) by {
                let i = choose|i: int| 0 <= i < q.len() && q[i] == x;
                if i < q.len() - 1 {
                    assert(canon(r).to_set().contains(canon(r)[i]));
                }
            }
            assert forall|x: Vx| s.contains(x) implies q.to_set().contains(x) by {
                if x != m {
                    assert(r.contains(x));
                    assert(canon(r).to_set().contains(x));
                    let i = choose|i: int| 0 <= i < canon(r).len() && canon(r)[i] == x;
                    assert(q[i] == x);
                } else {
                    assert(q[q.len() - 1] == x);
                }
            }
        }
        assert(strictly_sorted(q) && q.to_set() == s);
    }
}

/// The largest vertex of a non-empty finite set.
pub open spec fn max_of(s: Set<Vx>) -> Vx
    recommends
        s.finite(),
        s.len() > 0,
{
    choose|m: Vx| s.contains(m) && forall|x: Vx| s.contains(x) ==> x.0 <= m.0
}

pub proof fn lemma_max_of(s: Set<Vx>)
    requires
        s.finite(),
        s.len() > 0,
    ensures
        s.contains(max_of(s)),
        forall|x: Vx| s.contains(x) ==> x.0 <= max_of(s).0,
    decreases s.len(),
{
    let a = s.choose();
    assert(s.contains(a));
    let r = s.remove(a);
    if r.len() == 0 {
        assert forall|x: Vx| s.contains(x) implies x.0 <= a.0 by {
            if x != a {
                assert(r.contains(x));
            }
        }
    } else {
        lemma_max_of(r);
        let mr = max_of(r);
        if mr.0 <= a.0 {
            assert forall|x: Vx| s.contains(x) implies x.0 <= a.0 by {
                if x != a {
                    assert(r.contains(x));
                }
            }
        } else {
            assert forall|x: Vx| s.contains(x) implies x.0 <= mr.0 by {
                if x != a {
                    assert(r.contains(x));
                }
            }
        }
    }
}

/// Position of the first element not below `x` in a sorted sequence.
pub fn lower_bound(v: &Vec<Vx>, x: Vx) -> (p: usize)
    requires
        sorted(v@),
    ensures
        p <= v.len(),
        forall|i: int| 0 <= i < p ==> v@[i].0 < x.0,
        forall|i: int| p <= i < v.len() ==> v@[i].0 >= x.0,
{
    let mut lo: usize = 0;
    let mut hi: usize = v.len();
    while lo < hi
        invariant
            lo <= hi <= v.len(),
            sorted(v@),
            forall|i: int| 0 <= i < lo ==> v@[i].0 < x.0,
            forall|i: int| hi <= i < v.len() ==> v@[i].0 >= x.0,
        decreases hi - lo,
    {
        let mid = lo + (hi - lo) / 2;
        if v[mid].0 < x.0 {
            lo = mid + 1;
        } else {
            hi = mid;
        }
    }
    lo
}

/// Adds `x` to a strictly increasing vector, keeping it strictly increasing.
pub fn insert_unique(v: &mut Vec<Vx>, x: Vx)
    requires
        strictly_sorted(old(v)@),
    ensures
        strictly_sorted(final(v)@),
        final(v)@.to_set() == old(v)@.to_set().insert(x),
{
    let p = lower_bound(v, x);
    if p < v.len() && v[p].0 == x.0 {
        proof {
            assert(v@[p as int] == x);
            assert(v@.to_set().insert(x) =~= v@.to_set());
        }
        return;
    }
    let ghost old_v = v@;
    v.insert(p, x);
    proof {
        assert(v@ == old_v.insert(p as int, x));
        old_v.insert_ensures(p as int, x);
        assert forall|i: int, j: int| 0 <= i < j < v@.len() implies v@[i].0 < v@[j].0 by {
            if j < p {
            } else if j == p {
            } else if i < p {
                assert(v@[j] == old_v[j - 1]);
            } else if i == p {
                assert(v@[j] == old_v[j - 1]);
            } else {
                assert(v@[i] == old_v[i - 1]);
                assert(v@[j] == old_v[j - 1]);
            }
        }
        assert forall|y: Vx| v@.to_set().contains(y) <==> old_v.to_set().insert(x).contains(y) by {
            if v@.to_set().contains(y) {
                let i = choose|i: int| 0 <= i < v@.len() && v@[i] == y;
                if i < p {
                    assert(old_v[i] == y);
                } else if i > p {
                    assert(old_v[i - 1] == y);
                }
            }
            if old_v.to_set().contains(y) {
                let i = choose|i: int| 0 <= i < old_v.len() && old_v[i] == y;
                if i < p {
                    assert(v@[i] == y);
                } else {
                    assert(v@[i + 1] == y);
                }
            }
            if y == x {
                assert(v@[p as int] == x);
            }
        }
        assert(v@.to_set() =~= old_v.to_set().insert(x));
    }
}

/// The elements of `v`, in increasing order, each once.
pub fn sort_dedup(v: &Vec<Vx>) -> (r: Vec<Vx>)
    ensures
        strictly_sorted(r@),
        r@.to_set() == v@.to_set(),
        r@ == canon(v@.to_set()),
{
    let mut r: Vec<Vx> = Vec::new();
    let mut i: usize = 0;
    while i < v.len()
        invariant
            i <= v.len(),
            strictly_sorted(r@),
            r@.to_set() == v@.subrange(0, i as int).to_set(),
        decreases v.len() - i,
    {
        insert_unique(&mut r, v[i]);
        proof {
            assert(v@.subrange(0, i + 1) =~= v@.subrange(0, i as int).push(v@[i as int]));
            v@.subrange(0, i as int).lemma_push_to_set_commute(v@[i as int]);
        }
        i = i + 1;
    }
    proof {
        assert(v@.subrange(0, v.len() as int) =~= v@);
        lemma_canon(r@);
    }
    r
}

/// Position after the last pair not above `x` in a sorted sequence of pairs.
pub fn pair_upper_bound(v: &Vec<(Vx, Vx)>, x: (Vx, Vx)) -> (p: usize)
    requires
        pairs_sorted(v@),
    ensures
        p <= v.len(),
        forall|i: int| 0 <= i < p ==> pair_le(v@[i], x),
        forall|i: int| p <= i < v.len() ==> !pair_le(v@[i], x),
{
    let mut lo: usize = 0;
    let mut hi: usize = v.len();
    while lo < hi
        invariant
            lo <= hi <= v.len(),
            pairs_sorted(v@),
            forall|i: int| 0 <= i < lo ==> pair_le(v@[i], x),
            forall|i: int| hi <= i < v.len() ==> !pair_le(v@[i], x),
        decreases hi - lo,
    {
        let mid = lo + (hi - lo) / 2;
        let m = v[mid];
        if m.0.0 < x.0.0 || (m.0.0 == x.0.0 && m.1.0 <= x.1.0) {
            proof {
                assert forall|i: int| 0 <= i < mid + 1 implies pair_le(v@[i], x) by {
                    assert(pair_le(v@[i], v@[mid as int]));
                }
            }
            lo = mid + 1;
        } else {
            proof {
                assert forall|i: int| mid <= i < v.len() implies !pair_le(v@[i], x) by {
                    assert(pair_le(v@[mid as int], v@[i]));
                }
            }
            hi = mid;
        }
    }
    lo
}

/// The pairs of `v`, sorted, with repetitions kept.
pub fn sort_pairs(v: &Vec<(Vx, Vx)>) -> (r: Vec<(Vx, Vx)>)
    ensures
        pairs_sorted(r@),
        r@.to_multiset() == v@.to_multiset(),
{
    broadcast use vstd::seq_lib::to_multiset_insert, vstd::seq_lib::to_multiset_build;

    let mut r: Vec<(Vx, Vx)> = Vec::new();
    let mut i: usize = 0;
    proof {
        assert(v@.subrange(0, 0) =~= Seq::<(Vx, Vx)>::empty());
        assert(r@ =~= Seq::<(Vx, Vx)>::empty());
    }
    while i < v.len()
        invariant
            i <= v.len(),
            pairs_sorted(r@),
            r@.to_multiset() == v@.subrange(0, i as int).to_multiset(),
        decreases v.len() - i,
    {
        let x = v[i];
        let p = pair_upper_bound(&r, x);
        let ghost old_r = r@;
        r.insert(p, x);
        proof {
            old_r.insert_ensures(p as int, x);
            assert forall|a: int, b: int| 0 <= a <= b < r@.len() implies pair_le(r@[a], r@[b]) by {
                if b < p {
                } else if b == p {
                    if a < p {
                    }
                } else if a < p {
                    assert(r@[b] == old_r[b - 1]);
                } else if a == p {
                    assert(r@[b] == old_r[b - 1]);
                } else {
                    assert(r@[a] == old_r[a - 1]);
                    assert(r@[b] == old_r[b - 1]);
                }
            }
            assert(v@.subrange(0, i + 1) =~= v@.subrange(0, i as int).push(x));
            vstd::seq_lib::to_multiset_insert(old_r, p as int, x);
            vstd::seq_lib::to_multiset_build(v@.subrange(0, i as int), x);
        }
        i = i + 1;
    }
    proof {
        assert(v@.subrange(0, v.len() as int) =~= v@);
    }
    r
}

/// The elements of `a` that belong to `b`, in the order of `a`, repetitions kept.
pub open spec fn keep_in(a: Seq<Vx>, b: Set<Vx>) -> Seq<Vx>
    decreases a.len(),
{
    if a.len() == 0 {
        a
    } else {
        let r = keep_in(a.drop_last(), b);
        if b.contains(a.last()) {
            r.push(a.last())
        } else {
            r
        }
    }
}

pub proof fn lemma_keep_in(a: Seq<Vx>, b: Set<Vx>)
    ensures
        keep_in(a, b).to_set() == a.to_set().intersect(b),
        sorted(a) ==> sorted(keep_in(a, b)),
        strictly_sorted(a) ==> strictly_sorted(keep_in(a, b)),
        keep_in(a, b).len() <= a.len(),
        forall|x: Vx| keep_in(a, b).contains(x) ==> a.contains(x) && b.contains(x),
    decreases a.len(),
{
    if a.len() > 0 {
        let a0 = a.drop_last();
        let l = a.last();
        lemma_keep_in(a0, b);
        let r = keep_in(a0, b);
        assert(a =~= a0.push(l));
        a0.lemma_push_to_set_commute(l);
        assert forall|k: int| 0 <= k < a0.len() implies a0[k] == a[k] by {}
        assert forall|i: int| 0 <= i < r.len() implies a0.contains(#[trigger] r[i]) by {
            assert(r.contains(r[i]));
        }
        if b.contains(l) {
            let res = r.push(l);
            assert(keep_in(a, b) == res);
            r.lemma_push_to_set_commute(l);
            assert(res.to_set() =~= a.to_set().intersect(b));
            if sorted(a) {
                assert forall|i: int, j: int| 0 <= i <= j < res.len() implies res[i].0 <= res[j].0 by {
                    if j == r.len() && i < j {
                        let k = choose|k: int| 0 <= k < a0.len() && a0[k] == r[i];
                        assert(a[k].0 <= a[a.len() - 1].0);
                    } else if j < r.len() {
                        assert(res[i] == r[i] && res[j] == r[j]);
                    }
                }
            }
            if strictly_sorted(a) {
                assert forall|i: int, j: int| 0 <= i < j < res.len() implies res[i].0 < res[j].0 by {
                    if j == r.len() {
                        let k = choose|k: int| 0 <= k < a0.len() && a0[k] == r[i];
                        assert(a[k].0 < a[a.len() - 1].0);
                    } else {
                        assert(res[i] == r[i] && res[j] == r[j]);
                    }
                }
            }
            assert forall|x: Vx| res.contains(x) implies a.contains(x) && b.contains(x) by {
                let i = choose|i: int| 0 <= i < res.len() && res[i] == x;
                if i < r.len() {
                    assert(r[i] == x);
                    let k = choose|k: int| 0 <= k < a0.len() && a0[k] == r[i];
                    assert(a[k] == x);
                } else {
                    assert(a[a.len() - 1] == x);
                }
            }
        } else {
            assert(keep_in(a, b) == r);
            assert(r.to_set() =~= a.to_set().intersect(b));
            assert forall|x: Vx| r.contains(x) implies a.contains(x) && b.contains(x) by {
                let k = choose|k: int| 0 <= k < a0.len() && a0[k] == x;
                assert(a[k] == x);
            }
        }
    }
}

/// The elements of `a` found in the sorted vector `b`, in the order of `a`.
pub fn retain_in(a: &Vec<Vx>, b: &Vec<Vx>) -> (r: Vec<Vx>)
    requires
        sorted(b@),
    ensures
        r@ == keep_in(a@, b@.to_set()),
{
    let mut r: Vec<Vx> = Vec::new();
    let mut i: usize = 0;
    proof {
        assert(a@.subrange(0, 0) =~= Seq::<Vx>::empty());
    }
    while i < a.len()
        invariant
            i <= a.len(),
            sorted(b@),
            r@ == keep_in(a@.subrange(0, i as int), b@.to_set()),
        decreases a.len() - i,
    {
        let x = a[i];
        let p = lower_bound(b, x);
        let found = p < b.len() && b[p].0 == x.0;
        proof {
            let pre = a@.subrange(0, i + 1);
            assert(pre.drop_last() =~= a@.subrange(0, i as int));
            assert(pre.last() == x);
            if found {
                assert(b@[p as int] == x);
                assert(b@.to_set().contains(x));
            } else {
                if b@.to_set().contains(x) {
                    let k = choose|k: int| 0 <= k < b@.len() && b@[k] == x;
                }
            }
        }
        if found {
            r.push(x);
        }
        i = i + 1;
    }
    proof {
        assert(a@.subrange(0, a.len() as int) =~= a@);
    }
    r
}

/// The elements of two sorted vectors, in increasing order, each once.
pub fn merge_union(a: &Vec<Vx>, b: &Vec<Vx>) -> (r: Vec<Vx>)
    requires
        sorted(a@),
        sorted(b@),
    ensures
        strictly_sorted(r@),
        r@.to_set() == a@.to_set().union(b@.to_set()),
{
    let mut r: Vec<Vx> = Vec::new();
    let mut i: usize = 0;
    let mut j: usize = 0;
    proof {
        assert(r@.to_set() =~= a@.subrange(0, 0).to_set().union(b@.subrange(0, 0).to_set()));
    }
    while i < a.len() || j < b.len()
        invariant
            i <= a.len(),
            j <= b.len(),
            sorted(a@),
            sorted(b@),
            strictly_sorted(r@),
            r@.to_set() == a@.subrange(0, i as int).to_set().union(b@.subrange(0, j as int).to_set()),
            r@.len() > 0 ==> (i < a.len() ==> r@.last().0 <= a@[i as int].0),
            r@.len() > 0 ==> (j < b.len() ==> r@.last().0 <= b@[j as int].0),
        decreases a.len() + b.len() - i - j,
    {
        let ghost old_r = r@;
        let ghost oi = i;
        let ghost oj = j;
        let x: Vx;
        if j >= b.len() || (i < a.len() && a[i].0 <= b[j].0) {
            x = a[i];
            i = i + 1;
        } else {
            x = b[j];
            j = j + 1;
        }
        proof {
            if i > oi {
                assert(a@.subrange(0, i as int) =~= a@.subrange(0, oi as int).push(x));
                a@.subrange(0, oi as int).lemma_push_to_set_commute(x);
                assert(b@.subrange(0, j as int) =~= b@.subrange(0, oj as int));
            } else {
                assert(b@.subrange(0, j as int) =~= b@.subrange(0, oj as int).push(x));
                b@.subrange(0, oj as int).lemma_push_to_set_commute(x);
                assert(a@.subrange(0, i as int) =~= a@.subrange(0, oi as int));
            }
        }
        if r.len() == 0 || r[r.len() - 1].0 < x.0 {
            r.push(x);
            proof {
                old_r.lemma_push_to_set_commute(x);
                assert forall|p: int, q: int| 0 <= p < q < r@.len() implies r@[p].0 < r@[q].0 by {
                    if q == r@.len() - 1 && p < q {
                        assert(old_r[p].0 <= old_r.last().0);
                    }
                }
            }
        } else {
            proof {
                assert(r@.last() == x);
                assert(r@.to_set().contains(x));
            }
        }
        proof {
            assert(r@.to_set() =~= a@.subrange(0, i as int).to_set().union(b@.subrange(0, j as int).to_set()));
        }
    }
    proof {
        assert(a@.subrange(0, a.len() as int) =~= a@);
        assert(b@.subrange(0, b.len() as int) =~= b@);
    }
    r
}

} // verus!
