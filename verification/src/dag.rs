//! The commit graph: vertices, edge relations, annotation relations, and the
//! builder that assembles them.
use vstd::prelude::*;

use crate::sets::{swap_pairs, canon, sort_dedup, insert_unique, lemma_canon, lemma_keep_in, keep_in, merge_union, pair_le, pairs_sorted, retain_in, sort_pairs, sorted, strictly_sorted};

verus! {

/// A vertex of the graph. The builder hands them out in increasing order.
#[derive(Debug, Copy, Clone, PartialEq, Eq, Structural, PartialOrd, Ord, Hash, Default)]
pub struct Vx(pub usize);

impl Vx {
    fn next(&self) -> (r: Vx)
        requires
            self.0 < usize::MAX,
        ensures
            r.0 == self.0 + 1,
    {
        Vx(self.0 + 1)
    }
}

/// A binary relation between vertices and values, kept ordered on its first
/// coordinate.
#[derive(Debug)]
pub struct Relation<T> {
    data: Vec<(Vx, T)>,
}

/// The annotation pairs of a sequence, with each string taken by its characters.
pub open spec fn str_pairs(s: Seq<(Vx, String)>) -> Set<(Vx, Seq<char>)> {
    Set::new(|p: (Vx, Seq<char>)| exists|i: int| 0 <= i < s.len() && s[i].0 == p.0 && s[i].1@ == p.1)
}

/// Ordered on the first coordinate.
pub open spec fn key_sorted(s: Seq<(Vx, String)>) -> bool {
    forall|i: int, j: int| 0 <= i <= j < s.len() ==> s[i].0.0 <= s[j].0.0
}

/// No pair occurs twice.
pub open spec fn no_dup_pairs(s: Seq<(Vx, String)>) -> bool {
    forall|i: int, j: int| 0 <= i < j < s.len() ==> !(s[i].0 == s[j].0 && s[i].1@ == s[j].1@)
}

/// The targets of the edges whose source lies in `s`.
pub open spec fn succ(edges: Seq<(Vx, Vx)>, s: Set<Vx>) -> Set<Vx> {
    Set::new(|t: Vx| exists|i: int| 0 <= i < edges.len() && edges[i].1 == t && s.contains(edges[i].0))
}

/// The sources of the edges whose target lies in `s`.
pub open spec fn pred(edges: Seq<(Vx, Vx)>, s: Set<Vx>) -> Set<Vx> {
    Set::new(|f: Vx| exists|i: int| 0 <= i < edges.len() && edges[i].0 == f && s.contains(edges[i].1))
}

impl Relation<Vx> {
    /// The relation holding the given pairs, sorted, each once.
    fn new(data: Vec<(Vx, Vx)>) -> (r: Relation<Vx>)
        ensures
            pairs_sorted(r.data@),
            r.data@.to_set() == data@.to_set(),
    {
        let sorted = sort_pairs(&data);
        let mut out: Vec<(Vx, Vx)> = Vec::new();
        let mut i: usize = 0;
        proof {
            lemma_multiset_to_set(sorted@, data@);
            assert(sorted@.subrange(0, 0).to_set() =~= out@.to_set());
        }
        while i < sorted.len()
            invariant
                i <= sorted.len(),
                pairs_sorted(sorted@),
                pairs_sorted(out@),
                out@.to_set() == sorted@.subrange(0, i as int).to_set(),
                out@.len() > 0 ==> i > 0 && out@.last() == sorted@[i - 1],
            decreases sorted.len() - i,
        {
            let x = sorted[i];
            let ghost old_out = out@;
            proof {
                assert(sorted@.subrange(0, i + 1) =~= sorted@.subrange(0, i as int).push(x));
                sorted@.subrange(0, i as int).lemma_push_to_set_commute(x);
            }
            if out.len() == 0 || !(out[out.len() - 1].0.0 == x.0.0 && out[out.len() - 1].1.0 == x.1.0) {
                out.push(x);
                proof {
                    old_out.lemma_push_to_set_commute(x);
                    assert forall|a: int, b: int| 0 <= a <= b < out@.len() implies pair_le(out@[a], out@[b]) by {
                        if b == out@.len() - 1 && a < b {
                            assert(pair_le(old_out[a], old_out.last()));
                            assert(pair_le(sorted@[i - 1], sorted@[i as int]));
                        }
                    }
                }
            } else {
                proof {
                    assert(out@.to_set().contains(x));
                    assert(out@.to_set().insert(x) =~= out@.to_set());
                }
            }
            i = i + 1;
        }
        proof {
            assert(sorted@.subrange(0, sorted.len() as int) =~= sorted@);
        }
        Relation { data: out }
    }
}

pub proof fn lemma_multiset_to_set<A>(a: Seq<A>, b: Seq<A>)
    requires
        a.to_multiset() == b.to_multiset(),
    ensures
        a.to_set() == b.to_set(),
{
    assert forall|x: A| a.to_set().contains(x) <==> b.to_set().contains(x) by {
        vstd::seq_lib::to_multiset_contains(a, x);
        vstd::seq_lib::to_multiset_contains(b, x);
        assert(a.to_set().contains(x) <==> a.contains(x));
        assert(b.to_set().contains(x) <==> b.contains(x));
    }
    assert(a.to_set() =~= b.to_set());
}

impl Relation<String> {
    /// The relation holding the given annotation pairs, ordered on the vertex,
    /// each pair once.
    fn new(data: Vec<(Vx, String)>) -> (r: Relation<String>)
        ensures
            key_sorted(r.data@),
            no_dup_pairs(r.data@),
            str_pairs(r.data@) == str_pairs(data@),
    {
        let mut out: Vec<(Vx, String)> = Vec::new();
        let mut i: usize = 0;
        proof {
            assert(str_pairs(out@) =~= str_pairs(data@.subrange(0, 0)));
        }
        while i < data.len()
            invariant
                i <= data.len(),
                key_sorted(out@),
                no_dup_pairs(out@),
                str_pairs(out@) == str_pairs(data@.subrange(0, i as int)),
            decreases data.len() - i,
        {
            let vx = data[i].0;
            let s = data[i].1.clone();
            let ghost old_out = out@;
            let ghost pre = data@.subrange(0, i as int);
            let ghost pre1 = data@.subrange(0, i + 1);
            proof {
                assert(pre1 =~= pre.push(data@[i as int]));
            }
            // look for the same pair
            let mut k: usize = 0;
            let mut found = false;
            while k < out.len()
                invariant
                    k <= out.len(),
                    !found ==> forall|m: int| 0 <= m < k ==> !(out@[m].0 == vx && out@[m].1@ == s@),
                    found ==> exists|m: int| 0 <= m < out@.len() && out@[m].0 == vx && out@[m].1@ == s@,
                decreases out.len() - k,
            {
                if !found && out[k].0.0 == vx.0 && out[k].1 == s {
                    found = true;
                }
                k = k + 1;
            }
            if !found {
                // insert after the last pair with a vertex not above `vx`
                let mut p: usize = out.len();
                while p > 0 && out[p - 1].0.0 > vx.0
                    invariant
                        p <= out.len(),
                        forall|m: int| p <= m < out@.len() ==> out@[m].0.0 > vx.0,
                    decreases p,
                {
                    p = p - 1;
                }
                out.insert(p, (vx, s));
                proof {
                    old_out.insert_ensures(p as int, (vx, s));
                    assert forall|a: int, b: int| 0 <= a <= b < out@.len() implies out@[a].0.0 <= out@[b].0.0 by {
                        if a < p && b > p {
                            assert(out@[b] == old_out[b - 1]);
                        } else if a > p {
                            assert(out@[a] == old_out[a - 1]);
                            assert(out@[b] == old_out[b - 1]);
                        } else if a == p && b > p {
                            assert(out@[b] == old_out[b - 1]);
                        } else if a < p && b == p {
                            if p > 0 {
                                assert(old_out[p - 1].0.0 <= vx.0);
                            }
                        }
                    }
                    assert forall|a: int, b: int| 0 <= a < b < out@.len() implies !(out@[a].0 == out@[b].0 && out@[a].1@ == out@[b].1@) by {
                        if a < p && b > p {
                            assert(out@[b] == old_out[b - 1]);
                        } else if a > p {
                            assert(out@[a] == old_out[a - 1]);
                            assert(out@[b] == old_out[b - 1]);
                        } else if a == p {
                            assert(out@[b] == old_out[b - 1]);
                        } else if b == p {
                        }
                    }
                    assert forall|q: (Vx, Seq<char>)| str_pairs(out@).contains(q) <==> str_pairs(pre1).contains(q) by {
                        if str_pairs(out@).contains(q) {
                            let m = choose|m: int| 0 <= m < out@.len() && out@[m].0 == q.0 && out@[m].1@ == q.1;
                            if m < p {
                                assert(str_pairs(old_out).contains(q));
                            } else if m > p {
                                assert(out@[m] == old_out[m - 1]);
                                assert(str_pairs(old_out).contains(q));
                            } else {
                                assert(pre1[i as int] == data@[i as int]);
                            }
                            if m != p {
                                let n = choose|n: int| 0 <= n < pre.len() && pre[n].0 == q.0 && pre[n].1@ == q.1;
                                assert(pre1[n] == pre[n]);
                            }
                        }
                        if str_pairs(pre1).contains(q) {
                            let n = choose|n: int| 0 <= n < pre1.len() && pre1[n].0 == q.0 && pre1[n].1@ == q.1;
                            if n < i {
                                assert(pre[n] == pre1[n]);
                                assert(str_pairs(pre).contains(q));
                                assert(str_pairs(old_out).contains(q));
                                let m = choose|m: int| 0 <= m < old_out.len() && old_out[m].0 == q.0 && old_out[m].1@ == q.1;
                                if m < p {
                                    assert(out@[m] == old_out[m]);
                                } else {
                                    assert(out@[m + 1] == old_out[m]);
                                }
                            } else {
                                assert(out@[p as int] == (vx, s));
                            }
                        }
                    }
                    assert(str_pairs(out@) =~= str_pairs(pre1));
                }
            } else {
                proof {
                    assert forall|q: (Vx, Seq<char>)| str_pairs(out@).contains(q) <==> str_pairs(pre1).contains(q) by {
                        if str_pairs(out@).contains(q) {
                            assert(str_pairs(pre).contains(q));
                            let n = choose|n: int| 0 <= n < pre.len() && pre[n].0 == q.0 && pre[n].1@ == q.1;
                            assert(pre1[n] == pre[n]);
                        }
                        if str_pairs(pre1).contains(q) {
                            let n = choose|n: int| 0 <= n < pre1.len() && pre1[n].0 == q.0 && pre1[n].1@ == q.1;
                            if n < i {
                                assert(pre[n] == pre1[n]);
                                assert(str_pairs(pre).contains(q));
                            } else {
                                let m = choose|m: int| 0 <= m < out@.len() && out@[m].0 == vx && out@[m].1@ == s@;
                                assert(str_pairs(out@).contains((out@[m].0, out@[m].1@)));
                            }
                        }
                    }
                    assert(str_pairs(out@) =~= str_pairs(pre1));
                }
            }
            i = i + 1;
        }
        proof {
            assert(data@.subrange(0, data.len() as int) =~= data@);
        }
        Relation { data: out }
    }
}

/// An ordered set of vertices: the result of evaluating a query.
#[derive(Debug)]
pub struct Batch {
    data: Vec<Vx>,
}

impl View for Batch {
    type V = Seq<Vx>;

    closed spec fn view(&self) -> Seq<Vx> {
        self.data@
    }
}

impl Batch {
    #[verifier::type_invariant]
    closed spec fn ordered(self) -> bool {
        strictly_sorted(self.data@)
    }

    fn new(data: Vec<Vx>) -> (b: Batch)
        requires
            strictly_sorted(data@),
        ensures
            b@ == data@,
    {
        Batch { data }
    }

    pub(crate) fn from_sorted(data: Vec<Vx>) -> (b: Batch)
        requires
            strictly_sorted(data@),
        ensures
            b@ == data@,
    {
        Batch { data }
    }

    pub(crate) fn is_empty(&self) -> (r: bool)
        ensures
            r == (self@.len() == 0),
    {
        self.data.len() == 0
    }

    /// The number of vertices in the batch.
    pub fn len(&self) -> (n: usize)
        ensures
            n == self@.len(),
    {
        self.data.len()
    }

    /// The vertices of the batch, in order.
    pub fn data(self) -> (v: Vec<Vx>)
        ensures
            v@ == self@,
    {
        self.data
    }

    pub(crate) fn as_vec(&self) -> (v: &Vec<Vx>)
        ensures
            v@ == self@,
            sorted(v@),
            strictly_sorted(v@),
    {
        proof {
            use_type_invariant(self);
        }
        &self.data
    }

    /// The vertices of this batch that carry the annotation `value` in `r`.
    fn filter(&self, value: &String, r: &Relation<String>) -> (res: Batch)
        requires
            key_sorted(r.data@),
        ensures
            res@ == canon(self@.to_set().filter(|v: Vx| str_pairs(r.data@).contains((v, value@)))),
    {
        proof {
            use_type_invariant(self);
        }
        let b = &self.data;
        let d = &r.data;
        let ghost carries = |v: Vx| str_pairs(d@).contains((v, value@));
        let mut res: Vec<Vx> = Vec::new();
        let mut bi: usize = 0;
        let mut ri: usize = 0;
        proof {
            assert(res@.to_set() =~= b@.subrange(0, 0).to_set().filter(carries));
        }
        while bi < b.len() && ri < d.len()
            invariant
                bi <= b.len(),
                ri <= d.len(),
                sorted(b@),
                key_sorted(d@),
                carries == |v: Vx| str_pairs(d@).contains((v, value@)),
                strictly_sorted(res@),
                res@.to_set() == b@.subrange(0, bi as int).to_set().filter(carries),
                forall|k: int| 0 <= k < bi ==> (ri < d.len() ==> b@[k].0 < d@[ri as int].0.0),
                forall|j: int| 0 <= j < ri ==> (b@.to_set().contains(d@[j].0) ==> b@.subrange(0, bi as int).to_set().contains(d@[j].0)),
            decreases b.len() - bi + d.len() - ri,
        {
            let bv = b[bi];
            let rk = d[ri].0;
            proof {
                assert(b@.subrange(0, bi + 1) =~= b@.subrange(0, bi as int).push(bv));
                b@.subrange(0, bi as int).lemma_push_to_set_commute(bv);
            }
            if bv.0 < rk.0 {
                proof {
                    assert(carries(bv) ==> b@.subrange(0, bi as int).to_set().contains(bv)) by {
                        if carries(bv) {
                            let j = choose|j: int| 0 <= j < d@.len() && d@[j].0 == bv && d@[j].1@ == value@;
                            if j >= ri {
                                assert(d@[ri as int].0.0 <= d@[j].0.0);
                            } else {
                                assert(b@.to_set().contains(b@[bi as int]));
                            }
                        }
                    }
                    assert(b@.subrange(0, bi + 1).to_set().filter(carries) =~= b@.subrange(0, bi as int).to_set().filter(carries));
                }
                bi = bi + 1;
            } else if bv.0 > rk.0 {
                proof {
                    if b@.to_set().contains(rk) {
                        let m = choose|m: int| 0 <= m < b@.len() && b@[m] == rk;
                        if m >= bi {
                            assert(b@[bi as int].0 <= b@[m].0);
                        }
                        assert(b@.subrange(0, bi as int)[m] == rk);
                    }
                }
                ri = ri + 1;
            } else {
                let mut matched = false;
                let ghost ri0 = ri;
                while ri < d.len() && d[ri].0.0 == bv.0
                    invariant
                        ri0 <= ri <= d.len(),
                        key_sorted(d@),
                        forall|j: int| ri0 <= j < ri ==> d@[j].0 == bv,
                        matched <==> exists|j: int| ri0 <= j < ri && d@[j].1@ == value@,
                    decreases d.len() - ri,
                {
                    if d[ri].1 == *value {
                        matched = true;
                    }
                    ri = ri + 1;
                }
                proof {
                    assert(matched == carries(bv)) by {
                        if carries(bv) {
                            let j = choose|j: int| 0 <= j < d@.len() && d@[j].0 == bv && d@[j].1@ == value@;
                            if j < ri0 {
                                assert(b@.to_set().contains(b@[bi as int]));
                                assert(b@.subrange(0, bi as int).to_set().contains(bv));
                                let m = choose|m: int| 0 <= m < bi && b@.subrange(0, bi as int)[m] == bv;
                                assert(b@[m] == bv);
                            } else if j >= ri {
                                assert(d@[ri as int].0.0 <= d@[j].0.0);
                                assert(d@[ri0 as int].0.0 <= d@[ri as int].0.0);
                            } else {
                                assert(d@[j].0 == bv);
                            }
                        }
                        if matched {
                            let j = choose|j: int| ri0 <= j < ri && d@[j].1@ == value@;
                            assert(str_pairs(d@).contains((d@[j].0, d@[j].1@)));
                        }
                    }
                    assert forall|j: int| 0 <= j < ri && b@.to_set().contains(d@[j].0) implies b@.subrange(0, bi + 1).to_set().contains(d@[j].0) by {
                        if j >= ri0 {
                            assert(b@.subrange(0, bi + 1)[bi as int] == bv);
                        } else {
                            assert(b@.subrange(0, bi as int).to_set().contains(d@[j].0));
                            let m = choose|m: int| 0 <= m < bi && b@.subrange(0, bi as int)[m] == d@[j].0;
                            assert(b@.subrange(0, bi + 1)[m] == d@[j].0);
                        }
                    }
                }
                if matched {
                    let ghost old_res = res@;
                    res.push(bv);
                    proof {
                        old_res.lemma_push_to_set_commute(bv);
                        assert forall|p: int, q: int| 0 <= p < q < res@.len() implies res@[p].0 < res@[q].0 by {
                            if q == res@.len() - 1 {
                                assert(old_res.to_set().contains(old_res[p]));
                                let m = choose|m: int| 0 <= m < bi && b@.subrange(0, bi as int)[m] == old_res[p];
                                assert(b@[m] == old_res[p]);
                            }
                        }
                    }
                }
                bi = bi + 1;
                proof {
                    assert(res@.to_set() =~= b@.subrange(0, bi as int).to_set().filter(carries));
                    if ri < d.len() {
                        assert(d@[ri as int].0.0 != bv.0);
                        assert(d@[ri0 as int].0.0 <= d@[ri as int].0.0);
                        assert forall|k: int| 0 <= k < bi implies b@[k].0 < d@[ri as int].0.0 by {
                            assert(b@[k].0 <= b@[bi - 1].0);
                        }
                    }
                }
            }
        }
        proof {
            assert forall|v: Vx| b@.to_set().contains(v) && carries(v) implies res@.to_set().contains(v) by {
                let k = choose|k: int| 0 <= k < b@.len() && b@[k] == v;
                if k < bi {
                    assert(b@.subrange(0, bi as int)[k] == v);
                } else {
                    let j = choose|j: int| 0 <= j < d@.len() && d@[j].0 == v && d@[j].1@ == value@;
                    if ri < d.len() {
                        // then bi == b.len(), contradicting k >= bi
                    } else {
                        assert(b@.subrange(0, bi as int).to_set().contains(v));
                    }
                }
            }
            assert forall|v: Vx| res@.to_set().contains(v) implies b@.to_set().contains(v) && carries(v) by {
                let k = choose|k: int| 0 <= k < bi && b@.subrange(0, bi as int)[k] == v;
                assert(b@[k] == v);
            }
            assert(res@.to_set() =~= self@.to_set().filter(|v: Vx| str_pairs(r.data@).contains((v, value@))));
            lemma_canon(res@);
        }
        Batch::new(res)
    }

    /// The targets of the pairs of `r` whose source lies in this batch, in
    /// increasing order, each once.
    fn join(&self, r: &Relation<Vx>) -> (res: Vec<Vx>)
        requires
            pairs_sorted(r.data@),
        ensures
            strictly_sorted(res@),
            res@.to_set() == succ(r.data@, self@.to_set()),
    {
        proof {
            use_type_invariant(self);
        }
        let b = &self.data;
        let d = &r.data;
        let mut res: Vec<Vx> = Vec::new();
        let mut bi: usize = 0;
        let mut ri: usize = 0;
        proof {
            assert(res@.to_set() =~= succ(d@.subrange(0, 0), b@.to_set()));
        }
        while bi < b.len() && ri < d.len()
            invariant
                bi <= b.len(),
                ri <= d.len(),
                sorted(b@),
                pairs_sorted(d@),
                strictly_sorted(res@),
                res@.to_set() == succ(d@.subrange(0, ri as int), b@.to_set()),
                forall|k: int| 0 <= k < bi ==> (ri < d.len() ==> b@[k].0 < d@[ri as int].0.0),
            decreases b.len() - bi + d.len() - ri,
        {
            let bv = b[bi];
            let rk = d[ri].0;
            if bv.0 < rk.0 {
                bi = bi + 1;
            } else if bv.0 > rk.0 {
                proof {
                    lemma_succ_step(d@, b@, ri as int, bi as int);
                }
                ri = ri + 1;
            } else {
                while ri < d.len() && d[ri].0.0 == bv.0
                    invariant
                        ri <= d.len(),
                        bi < b.len(),
                        b@[bi as int] == bv,
                        sorted(b@),
                        pairs_sorted(d@),
                        strictly_sorted(res@),
                        res@.to_set() == succ(d@.subrange(0, ri as int), b@.to_set()),
                        forall|k: int| 0 <= k < bi ==> b@[k].0 < bv.0,
                        ri < d.len() ==> d@[ri as int].0.0 >= bv.0,
                    decreases d.len() - ri,
                {
                    let t = d[ri].1;
                    insert_unique(&mut res, t);
                    proof {
                        assert(b@.to_set().contains(bv));
                        lemma_succ_push(d@, b@.to_set(), ri as int);
                    }
                    ri = ri + 1;
                }
                proof {
                    if ri < d.len() {
                        assert forall|k: int| 0 <= k < bi + 1 implies b@[k].0 < d@[ri as int].0.0 by {
                            assert(b@[k].0 <= b@[bi as int].0);
                        }
                    }
                }
                bi = bi + 1;
            }
        }
        proof {
            if ri < d.len() {
                // every key left in `d` is above every vertex of `b`
                assert forall|t: Vx| succ(d@, b@.to_set()).contains(t) implies succ(d@.subrange(0, ri as int), b@.to_set()).contains(t) by {
                    let j = choose|j: int| 0 <= j < d@.len() && d@[j].1 == t && b@.to_set().contains(d@[j].0);
                    let k = choose|k: int| 0 <= k < b@.len() && b@[k] == d@[j].0;
                    if j >= ri {
                        assert(pair_le(d@[ri as int], d@[j]));
                    }
                    assert(d@.subrange(0, ri as int)[j] == d@[j]);
                }
                assert forall|t: Vx| succ(d@.subrange(0, ri as int), b@.to_set()).contains(t) implies succ(d@, b@.to_set()).contains(t) by {
                    let j = choose|j: int| #![auto] 0 <= j < ri && d@.subrange(0, ri as int)[j].1 == t && b@.to_set().contains(d@.subrange(0, ri as int)[j].0);
                    assert(d@[j] == d@.subrange(0, ri as int)[j]);
                }
                assert(succ(d@, b@.to_set()) =~= succ(d@.subrange(0, ri as int), b@.to_set()));
            } else {
                assert(d@.subrange(0, ri as int) =~= d@);
            }
        }
        res
    }

    /// The vertices that are in every batch: those of the first batch that the
    /// others all hold, in the order of the first (empty for no batches).
    pub(crate) fn intersection_all(batches: Vec<Batch>) -> (res: Batch)
        ensures
            res@ == (if batches@.len() == 0 {
                Seq::<Vx>::empty()
            } else {
                inter_fold(batches@[0]@, batches@.subrange(1, batches@.len() as int).map_values(|b: Batch| b@))
            }),
    {
        if batches.len() == 0 {
            return Batch::new(Vec::new());
        }
        let first = batches[0].as_vec();
        let mut acc: Vec<Vx> = first.clone();
        let mut k: usize = 1;
        let ghost rest = batches@.subrange(1, batches@.len() as int).map_values(|b: Batch| b@);
        proof {
            assert(acc@ == batches@[0]@);
            assert(rest.subrange(0, 0) =~= Seq::<Seq<Vx>>::empty());
        }
        while k < batches.len()
            invariant
                1 <= k <= batches.len(),
                rest == batches@.subrange(1, batches@.len() as int).map_values(|b: Batch| b@),
                strictly_sorted(acc@),
                acc@ == inter_fold(batches@[0]@, rest.subrange(0, k - 1)),
            decreases batches.len() - k,
        {
            let other = batches[k].as_vec();
            let next = retain_in(&acc, other);
            proof {
                lemma_keep_in(acc@, other@.to_set());
                assert(rest.subrange(0, k as int) =~= rest.subrange(0, k - 1).push(other@));
                lemma_inter_fold_push(batches@[0]@, rest.subrange(0, k - 1), other@);
            }
            acc = next;
            k = k + 1;
        }
        proof {
            assert(rest.subrange(0, batches.len() - 1) =~= rest);
        }
        Batch::new(acc)
    }

    /// The vertices of all batches, in increasing order, each once.
    pub(crate) fn union_all(batches: Vec<Batch>) -> (res: Batch)
        ensures
            strictly_sorted(res@),
            res@.to_set() == union_of(batches@.map_values(|b: Batch| b@)),
    {
        let mut acc: Vec<Vx> = Vec::new();
        let mut k: usize = 0;
        let ghost all = batches@.map_values(|b: Batch| b@);
        proof {
            assert(all.subrange(0, 0) =~= Seq::<Seq<Vx>>::empty());
            assert(acc@.to_set() =~= Set::<Vx>::empty());
        }
        while k < batches.len()
            invariant
                k <= batches.len(),
                all == batches@.map_values(|b: Batch| b@),
                strictly_sorted(acc@),
                acc@.to_set() == union_of(all.subrange(0, k as int)),
            decreases batches.len() - k,
        {
            let other = batches[k].as_vec();
            let next = merge_union(&acc, other);
            proof {
                assert(all.subrange(0, k + 1) =~= all.subrange(0, k as int).push(other@));
                assert(union_of(all.subrange(0, k + 1)) =~= union_of(all.subrange(0, k as int)).union(other@.to_set())) by {
                    assert(all.subrange(0, k + 1).drop_last() =~= all.subrange(0, k as int));
                }
            }
            acc = next;
            k = k + 1;
        }
        proof {
            assert(all.subrange(0, batches.len() as int) =~= all);
        }
        Batch::new(acc)
    }
}

/// Filters `acc` by membership in each sequence of `rest` in turn.
pub open spec fn inter_fold(acc: Seq<Vx>, rest: Seq<Seq<Vx>>) -> Seq<Vx>
    decreases rest.len(),
{
    if rest.len() == 0 {
        acc
    } else {
        keep_in(inter_fold(acc, rest.drop_last()), rest.last().to_set())
    }
}

pub proof fn lemma_inter_fold_push(acc: Seq<Vx>, rest: Seq<Seq<Vx>>, b: Seq<Vx>)
    ensures
        inter_fold(acc, rest.push(b)) == keep_in(inter_fold(acc, rest), b.to_set()),
{
    assert(rest.push(b).drop_last() =~= rest);
}

/// Every vertex of any of the sequences.
pub open spec fn union_of(bs: Seq<Seq<Vx>>) -> Set<Vx>
    decreases bs.len(),
{
    if bs.len() == 0 {
        Set::empty()
    } else {
        union_of(bs.drop_last()).union(bs.last().to_set())
    }
}

proof fn lemma_succ_step(d: Seq<(Vx, Vx)>, b: Seq<Vx>, ri: int, bi: int)
    requires
        0 <= ri < d.len(),
        0 <= bi < b.len(),
        sorted(b),
        d[ri].0.0 < b[bi].0,
        forall|k: int| 0 <= k < bi ==> b[k].0 < d[ri].0.0,
    ensures
        succ(d.subrange(0, ri + 1), b.to_set()) == succ(d.subrange(0, ri), b.to_set()),
{
    assert(!b.to_set().contains(d[ri].0)) by {
        if b.to_set().contains(d[ri].0) {
            let k = choose|k: int| 0 <= k < b.len() && b[k] == d[ri].0;
            if k >= bi {
                assert(b[bi].0 <= b[k].0);
            }
        }
    }
    let d1 = d.subrange(0, ri + 1);
    assert forall|t: Vx| succ(d1, b.to_set()).contains(t) implies succ(d.subrange(0, ri), b.to_set()).contains(t) by {
        let j = choose|j: int| #![auto] 0 <= j < d1.len() && d1[j].1 == t && b.to_set().contains(d1[j].0);
        assert(d.subrange(0, ri)[j] == d[j]);
    }
    assert forall|t: Vx| succ(d.subrange(0, ri), b.to_set()).contains(t) implies succ(d.subrange(0, ri + 1), b.to_set()).contains(t) by {
        let j = choose|j: int| #![auto] 0 <= j < ri && d.subrange(0, ri)[j].1 == t && b.to_set().contains(d.subrange(0, ri)[j].0);
        assert(d.subrange(0, ri + 1)[j] == d[j]);
    }
    assert(succ(d.subrange(0, ri + 1), b.to_set()) =~= succ(d.subrange(0, ri), b.to_set()));
}

proof fn lemma_succ_push(d: Seq<(Vx, Vx)>, s: Set<Vx>, ri: int)
    requires
        0 <= ri < d.len(),
        s.contains(d[ri].0),
    ensures
        succ(d.subrange(0, ri + 1), s) == succ(d.subrange(0, ri), s).insert(d[ri].1),
{
    let d1 = d.subrange(0, ri + 1);
    assert forall|t: Vx| succ(d1, s).contains(t) <==> succ(d.subrange(0, ri), s).insert(d[ri].1).contains(t) by {
        if succ(d1, s).contains(t) {
            let j = choose|j: int| #![auto] 0 <= j < d1.len() && d1[j].1 == t && s.contains(d1[j].0);
            if j < ri {
                assert(d.subrange(0, ri)[j] == d[j]);
            }
        }
        if succ(d.subrange(0, ri), s).contains(t) {
            let j = choose|j: int| #![auto] 0 <= j < ri && d.subrange(0, ri)[j].1 == t && s.contains(d.subrange(0, ri)[j].0);
            assert(d.subrange(0, ri + 1)[j] == d[j]);
        }
        if t == d[ri].1 {
            assert(d.subrange(0, ri + 1)[ri] == d[ri]);
        }
    }
    assert(succ(d.subrange(0, ri + 1), s) =~= succ(d.subrange(0, ri), s).insert(d[ri].1));
}

/// Every edge climbs a rank bounded by the number of edges: the edges have no
/// cycle.
pub open spec fn ranked(edges: Seq<(Vx, Vx)>, rank: spec_fn(Vx) -> nat) -> bool {
    forall|i: int|
        0 <= i < edges.len() ==> rank(#[trigger] edges[i].0) < rank(edges[i].1) && rank(edges[i].1)
            <= edges.len()
}

/// The graph has no cycle (a longest-path ranking exists).
pub open spec fn acyclic(edges: Seq<(Vx, Vx)>) -> bool {
    exists|rank: spec_fn(Vx) -> nat| ranked(edges, rank)
}

/// Every edge leads from a lower-numbered vertex to a higher-numbered one.
pub open spec fn ascending(edges: Seq<(Vx, Vx)>) -> bool {
    forall|i: int| 0 <= i < edges.len() ==> (#[trigger] edges[i]).0.0 < edges[i].1.0
}

/// How many edges start below `x`.
spec fn starts_below(edges: Seq<(Vx, Vx)>, x: usize) -> nat
    decreases edges.len(),
{
    if edges.len() == 0 {
        0
    } else {
        starts_below(edges.drop_last(), x) + if edges.last().0.0 < x { 1nat } else { 0nat }
    }
}

proof fn lemma_starts_below(edges: Seq<(Vx, Vx)>, x: usize, y: usize, k: int)
    requires
        x <= y,
    ensures
        starts_below(edges, x) <= starts_below(edges, y),
        starts_below(edges, y) <= edges.len(),
        0 <= k < edges.len() && x <= edges[k].0.0 < y ==> starts_below(edges, x) < starts_below(edges, y),
    decreases edges.len(),
{
    if edges.len() > 0 {
        let d = edges.drop_last();
        if 0 <= k < d.len() {
            assert(d[k] == edges[k]);
        }
        lemma_starts_below(d, x, y, k);
    }
}

/// A graph whose edges all ascend has no cycle: rank each vertex by how many
/// edges start below it.
pub proof fn law_ascending_acyclic(edges: Seq<(Vx, Vx)>)
    requires
        ascending(edges),
    ensures
        acyclic(edges),
{
    let rank = |v: Vx| starts_below(edges, v.0);
    assert forall|i: int| 0 <= i < edges.len() implies rank(#[trigger] edges[i].0) < rank(edges[i].1) && rank(edges[i].1) <= edges.len() by {
        assert(edges[i].0.0 < edges[i].1.0);
        lemma_starts_below(edges, edges[i].0.0, edges[i].1.0, i);
    }
    assert(ranked(edges, rank));
}

/// Position `i` holds the first occurrence of `label` among the labels of `anns`.
pub open spec fn first_label<R>(anns: Seq<(String, R)>, label: Seq<char>, i: int) -> bool {
    0 <= i < anns.len() && anns[i].0@ == label && forall|k: int| 0 <= k < i ==> anns[k].0@ != label
}

/// The entry of the first occurrence of `label` among the labels of `anns`, if any.
pub open spec fn lookup_label<R>(anns: Seq<(String, R)>, label: Seq<char>) -> Option<R> {
    if exists|i: int| first_label(anns, label, i) {
        Some(anns[choose|i: int| first_label(anns, label, i)].1)
    } else {
        None
    }
}

pub proof fn lemma_lookup_at<R>(anns: Seq<(String, R)>, i: int)
    requires
        first_label(anns, anns[i].0@, i),
    ensures
        lookup_label(anns, anns[i].0@) == Some(anns[i].1),
{
    let label = anns[i].0@;
    let k = choose|k: int| first_label(anns, label, k);
    if k < i {
        assert(anns[k].0@ != label);
    } else if k > i {
        assert(anns[i].0@ != label);
    }
}

pub proof fn lemma_lookup_none<R>(anns: Seq<(String, R)>, label: Seq<char>)
    requires
        forall|k: int| 0 <= k < anns.len() ==> anns[k].0@ != label,
    ensures
        lookup_label(anns, label) is None,
{
}

/// Two annotation tables with the same labels in the same places find a label
/// at the same place.
pub proof fn lemma_lookup_same_labels<R1, R2>(a: Seq<(String, R1)>, b: Seq<(String, R2)>, l: Seq<char>)
    requires
        a.len() == b.len(),
        forall|k: int| 0 <= k < a.len() ==> #[trigger] a[k].0@ == b[k].0@,
    ensures
        lookup_label(a, l) is None <==> lookup_label(b, l) is None,
        lookup_label(a, l) is Some ==> exists|k: int|
            first_label(a, l, k) && first_label(b, l, k) && lookup_label(a, l) == Some(a[k].1)
                && lookup_label(b, l) == Some(b[k].1),
{
    if exists|i: int| first_label(a, l, i) {
        let i = choose|i: int| first_label(a, l, i);
        assert(first_label(b, l, i)) by {
            assert forall|k: int| 0 <= k < i implies b[k].0@ != l by {
                assert(a[k].0@ == b[k].0@);
            }
        }
        lemma_lookup_at(a, i);
        lemma_lookup_at(b, i);
    } else {
        assert forall|i: int| !first_label(b, l, i) by {
            if first_label(b, l, i) {
                assert forall|k: int| 0 <= k < i implies a[k].0@ != l by {
                    assert(a[k].0@ == b[k].0@);
                }
                assert(first_label(a, l, i));
            }
        }
    }
}

/// Finds the first position of `label` among the labels of `anns`.
fn find_label<R>(anns: &Vec<(String, R)>, label: &String) -> (r: Option<usize>)
    ensures
        match r {
            Some(i) => first_label(anns@, label@, i as int),
            None => forall|i: int| 0 <= i < anns.len() ==> anns@[i].0@ != label@,
        },
{
    let mut i: usize = 0;
    while i < anns.len()
        invariant
            i <= anns.len(),
            forall|k: int| 0 <= k < i ==> anns@[k].0@ != label@,
        decreases anns.len() - i,
    {
        if anns[i].0 == *label {
            return Some(i);
        }
        i = i + 1;
    }
    None
}

/// The commit graph: its edges, the same edges reversed, and the annotation
/// relations by label.
#[derive(Debug)]
pub struct Dag {
    root: Vx,
    edges: Relation<Vx>,
    rev_edges: Relation<Vx>,
    annotations: Vec<(String, Relation<String>)>,
}

impl Dag {
    #[verifier::type_invariant]
    closed spec fn well_formed(self) -> bool {
        &&& self.root == Vx(0)
        &&& pairs_sorted(self.edges.data@)
        &&& pairs_sorted(self.rev_edges.data@)
        &&& self.rev_edges.data@.to_multiset() == swap_pairs(self.edges.data@).to_multiset()
        &&& forall|i: int|
            0 <= i < self.annotations@.len() ==> key_sorted(#[trigger] self.annotations@[i].1.data@)
    }

    /// The edges, sorted.
    pub closed spec fn edge_seq(&self) -> Seq<(Vx, Vx)> {
        self.edges.data@
    }

    /// A graph holds at most `usize::MAX` edges.
    pub proof fn lemma_edge_len(&self)
        ensures
            self.edge_seq().len() <= usize::MAX,
    {
        assert(self.edges.data.len() == self.edges.data@.len());
    }

    /// The edges with their ends exchanged, sorted.
    pub closed spec fn rev_seq(&self) -> Seq<(Vx, Vx)> {
        self.rev_edges.data@
    }

    /// The annotation pairs recorded under `label`, if any were.
    pub closed spec fn annotation(&self, label: Seq<char>) -> Option<Set<(Vx, Seq<char>)>> {
        match lookup_label(self.annotations@, label) {
            Some(r) => Some(str_pairs(r.data@)),
            None => None,
        }
    }

    /// The vertices of the graph: the root and both ends of every edge.
    pub open spec fn vertices(&self) -> Set<Vx> {
        Set::new(|v: Vx| v == Vx(0) || has_end(self.edge_seq(), self.edge_seq().len() as int, v))
    }

    /// Every vertex of the graph, once each, in increasing order.
    pub open spec fn all_seq(&self) -> Seq<Vx> {
        canon(self.vertices())
    }

    /// Every vertex of the graph (the root and both ends of every edge),
    /// once each, in increasing order.
    pub fn all(&self) -> (r: Batch)
        ensures
            r@ == self.all_seq(),
    {
        proof {
            use_type_invariant(self);
        }
        let d = &self.edges.data;
        let mut out: Vec<Vx> = Vec::new();
        out.push(self.root);
        proof {
            assert forall|v: Vx| #[trigger] out@.contains(v) <==> (v == Vx(0) || has_end(d@, 0, v)) by {
                if out@.contains(v) {
                    let m = choose|m: int| 0 <= m < out@.len() && out@[m] == v;
                }
                if v == Vx(0) {
                    assert(out@[0] == v);
                }
            }
        }
        let mut i: usize = 0;
        while i < d.len()
            invariant
                i <= d.len(),
                d@ == self.edge_seq(),
                forall|v: Vx| #[trigger] out@.contains(v) <==> (v == Vx(0) || has_end(d@, i as int, v)),
            decreases d.len() - i,
        {
            let ghost o = out@;
            out.push(d[i].0);
            out.push(d[i].1);
            proof {
                assert forall|v: Vx| #[trigger] out@.contains(v) <==> (v == Vx(0) || has_end(d@, i + 1, v)) by {
                    assert(o.contains(v) <==> (v == Vx(0) || has_end(d@, i as int, v)));
                    if out@.contains(v) {
                        let m = choose|m: int| 0 <= m < out@.len() && out@[m] == v;
                        if m < o.len() {
                            assert(o[m] == v);
                            if has_end(d@, i as int, v) {
                                let k = choose|k: int| 0 <= k < i && (d@[k].0 == v || d@[k].1 == v);
                                assert(0 <= k < i + 1 && (d@[k].0 == v || d@[k].1 == v));
                            }
                        } else {
                            assert(0 <= i < i + 1 && (d@[i as int].0 == v || d@[i as int].1 == v));
                        }
                    }
                    if has_end(d@, i + 1, v) {
                        let k = choose|k: int| 0 <= k < i + 1 && (d@[k].0 == v || d@[k].1 == v);
                        if k < i {
                            assert(has_end(d@, i as int, v));
                            let m = choose|m: int| 0 <= m < o.len() && o[m] == v;
                            assert(out@[m] == v);
                        } else if d@[i as int].0 == v {
                            assert(out@[o.len() as int] == v);
                        } else {
                            assert(out@[o.len() as int + 1] == v);
                        }
                    }
                    if v == Vx(0) {
                        let m = choose|m: int| 0 <= m < o.len() && o[m] == v;
                        assert(out@[m] == v);
                    }
                }
            }
            i = i + 1;
        }
        let r = sort_dedup(&out);
        proof {
            assert(out@.to_set() =~= self.vertices()) by {
                assert forall|v: Vx| out@.to_set().contains(v) == self.vertices().contains(v) by {
                    assert(out@.contains(v) == out@.to_set().contains(v));
                }
            }
        }
        Batch::new(r)
    }

    /// The root vertex.
    pub fn root(&self) -> (r: Vx)
        ensures
            r == Vx(0),
    {
        proof {
            use_type_invariant(self);
        }
        self.root
    }

    /// The children of the batch's vertices.
    pub fn iter_up(&self, vxs: Batch) -> (r: Batch)
        ensures
            r@ == canon(succ(self.edge_seq(), vxs@.to_set())),
    {
        proof {
            use_type_invariant(self);
        }
        let v = vxs.join(&self.edges);
        proof {
            lemma_canon(v@);
        }
        Batch::new(v)
    }

    /// The parents of the batch's vertices.
    pub fn iter_down(&self, vxs: Batch) -> (r: Batch)
        ensures
            r@ == canon(pred(self.edge_seq(), vxs@.to_set())),
    {
        proof {
            use_type_invariant(self);
        }
        let v = vxs.join(&self.rev_edges);
        proof {
            lemma_canon(v@);
            lemma_succ_swapped(self.rev_edges.data@, self.edges.data@, vxs@.to_set());
        }
        Batch::new(v)
    }

    /// The relation recorded under `label`, if any.
    fn relation(&self, label: &String) -> (r: Option<&Relation<String>>)
        ensures
            match r {
                Some(rel) => self.annotation(label@) == Some(str_pairs(rel.data@)) && key_sorted(rel.data@),
                None => self.annotation(label@) is None,
            },
    {
        proof {
            use_type_invariant(self);
        }
        match find_label(&self.annotations, label) {
            Some(i) => {
                proof {
                    lemma_lookup_at(self.annotations@, i as int);
                }
                Some(&self.annotations[i].1)
            },
            None => {
                proof {
                    lemma_lookup_none(self.annotations@, label@);
                }
                None
            },
        }
    }

    /// The vertices of `vxs` that carry annotation `value` under `label`
    /// (none when the label was never used).
    pub fn filter_label(&self, vxs: &Batch, label: &String, value: &String) -> (r: Batch)
        ensures
            r@ == match self.annotation(label@) {
                Some(pairs) => canon(vxs@.to_set().filter(|v: Vx| pairs.contains((v, value@)))),
                None => Seq::<Vx>::empty(),
            },
    {
        match self.relation(label) {
            Some(rel) => vxs.filter(value, rel),
            None => Batch::new(Vec::new()),
        }
    }
}

proof fn lemma_succ_swapped(rev: Seq<(Vx, Vx)>, edges: Seq<(Vx, Vx)>, s: Set<Vx>)
    requires
        rev.to_multiset() == swap_pairs(edges).to_multiset(),
    ensures
        succ(rev, s) == pred(edges, s),
{
    lemma_multiset_to_set(rev, swap_pairs(edges));
    assert forall|x: Vx| succ(rev, s).contains(x) <==> pred(edges, s).contains(x) by {
        if succ(rev, s).contains(x) {
            let i = choose|i: int| 0 <= i < rev.len() && rev[i].1 == x && s.contains(rev[i].0);
            assert(rev.to_set().contains(rev[i]));
            assert(swap_pairs(edges).to_set().contains(rev[i]));
            let j = choose|j: int| 0 <= j < swap_pairs(edges).len() && swap_pairs(edges)[j] == rev[i];
            assert(edges[j].0 == x);
        }
        if pred(edges, s).contains(x) {
            let j = choose|j: int| 0 <= j < edges.len() && edges[j].0 == x && s.contains(edges[j].1);
            assert(swap_pairs(edges)[j] == (edges[j].1, edges[j].0));
            assert(swap_pairs(edges).to_set().contains(swap_pairs(edges)[j]));
            assert(rev.to_set().contains(swap_pairs(edges)[j]));
            let i = choose|i: int| 0 <= i < rev.len() && rev[i] == swap_pairs(edges)[j];
        }
    }
    assert(succ(rev, s) =~= pred(edges, s));
}

/// Assembles a graph: hands out vertices, records edges and annotations.
pub struct DagBuilder {
    last_vx: Vx,
    edges: Relation<Vx>,
    annotations: Vec<(String, Vec<(Vx, String)>)>,
}

impl DagBuilder {
    /// The last vertex handed out (the root, 0, before any).
    pub closed spec fn last(&self) -> usize {
        self.last_vx.0
    }

    /// The edges recorded so far, in the order they were added.
    pub closed spec fn edge_seq(&self) -> Seq<(Vx, Vx)> {
        self.edges.data@
    }

    /// The annotation pairs recorded under `label`, if any were.
    pub closed spec fn annotation(&self, label: Seq<char>) -> Option<Set<(Vx, Seq<char>)>> {
        match lookup_label(self.annotations@, label) {
            Some(v) => Some(str_pairs(v@)),
            None => None,
        }
    }

    /// The root vertex, which every graph has.
    pub fn root(&self) -> (r: Vx)
        ensures
            r == Vx(0),
    {
        Vx(0)
    }

    /// A fresh vertex, numbered one above the last one.
    pub fn vx(&mut self) -> (r: Vx)
        requires
            old(self).last() < usize::MAX,
        ensures
            r.0 == old(self).last() + 1,
            r != Vx(0),
            final(self).last() == r.0,
            final(self).edge_seq() == old(self).edge_seq(),
            forall|l: Seq<char>| final(self).annotation(l) == old(self).annotation(l),
            grows(*old(self), *final(self)),
    {
        let n = self.last_vx.next();
        self.last_vx = n;
        proof {
            assert(self.edge_seq() =~= old(self).edge_seq() + Seq::<(Vx, Vx)>::empty());
            lemma_grows(*old(self), *self, Seq::<(Vx, Vx)>::empty());
        }
        n
    }

    /// Records an edge from `from` to `to`.
    pub fn edge(&mut self, from: Vx, to: Vx)
        ensures
            final(self).last() == old(self).last(),
            final(self).edge_seq() == old(self).edge_seq().push((from, to)),
            forall|l: Seq<char>| final(self).annotation(l) == old(self).annotation(l),
            grows(*old(self), *final(self)),
    {
        self.edges.data.push((from, to));
        proof {
            assert(self.edge_seq() =~= old(self).edge_seq() + seq![(from, to)]);
            lemma_grows(*old(self), *self, seq![(from, to)]);
        }
    }

    /// Records that `vx` carries `annotation` under `label`.
    pub fn annotate(&mut self, vx: Vx, label: &str, annotation: &str)
        ensures
            final(self).last() == old(self).last(),
            final(self).edge_seq() == old(self).edge_seq(),
            final(self).annotation(label@) == Some(
                match old(self).annotation(label@) {
                    Some(pairs) => pairs,
                    None => Set::<(Vx, Seq<char>)>::empty(),
                }.insert((vx, annotation@)),
            ),
            forall|l: Seq<char>| l != label@ ==> final(self).annotation(l) == old(self).annotation(l),
            grows(*old(self), *final(self)),
    {
        let label: String = label.to_owned();
        let value: String = annotation.to_owned();
        let ghost old_anns = self.annotations@;
        match find_label(&self.annotations, &label) {
            Some(i) => {
                let mut entry = self.annotations.remove(i);
                let ghost old_pairs = entry.1@;
                entry.1.push((vx, value));
                self.annotations.insert(i, entry);
                proof {
                    let anns = self.annotations@;
                    assert(anns.len() == old_anns.len());
                    assert forall|k: int| 0 <= k < anns.len() && k != i implies anns[k] == old_anns[k] by {}
                    assert(anns[i as int].0 == old_anns[i as int].0);
                    assert(first_label(anns, label@, i as int));
                    lemma_lookup_at(anns, i as int);
                    lemma_lookup_at(old_anns, i as int);
                    assert(str_pairs(entry.1@) =~= str_pairs(old_pairs).insert((vx, annotation@))) by {
                        assert(entry.1@ == old_pairs.push((vx, value)));
                        assert forall|q: (Vx, Seq<char>)| str_pairs(entry.1@).contains(q) <==> str_pairs(old_pairs).insert((vx, annotation@)).contains(q) by {
                            if str_pairs(entry.1@).contains(q) {
                                let m = choose|m: int| 0 <= m < entry.1@.len() && entry.1@[m].0 == q.0 && entry.1@[m].1@ == q.1;
                                if m < old_pairs.len() {
                                    assert(entry.1@[m] == old_pairs[m]);
                                }
                            }
                            if str_pairs(old_pairs).contains(q) {
                                let m = choose|m: int| 0 <= m < old_pairs.len() && old_pairs[m].0 == q.0 && old_pairs[m].1@ == q.1;
                                assert(entry.1@[m] == old_pairs[m]);
                            }
                            if q == (vx, annotation@) {
                                assert(entry.1@[old_pairs.len() as int] == (vx, value));
                            }
                        }
                    }
                    assert forall|l: Seq<char>| l != label@ implies lookup_label(anns, l) == lookup_label(old_anns, l) by {
                        assert forall|k: int| 0 <= k < anns.len() implies #[trigger] anns[k].0@ == old_anns[k].0@ by {}
                        lemma_lookup_same_labels(anns, old_anns, l);
                        if lookup_label(anns, l) is Some {
                            let k = choose|k: int| first_label(anns, l, k) && first_label(old_anns, l, k) && lookup_label(anns, l) == Some(anns[k].1) && lookup_label(old_anns, l) == Some(old_anns[k].1);
                            assert(k != i);
                        }
                    }
                }
            },
            None => {
                let mut pairs: Vec<(Vx, String)> = Vec::new();
                pairs.push((vx, value));
                self.annotations.push((label, pairs));
                proof {
                    let anns = self.annotations@;
                    assert(anns == old_anns.push((label, pairs)));
                    assert(first_label(anns, label@, old_anns.len() as int));
                    lemma_lookup_at(anns, old_anns.len() as int);
                    lemma_lookup_none(old_anns, label@);
                    assert(str_pairs(pairs@) =~= Set::<(Vx, Seq<char>)>::empty().insert((vx, annotation@))) by {
                        assert forall|q: (Vx, Seq<char>)| str_pairs(pairs@).contains(q) <==> q == (vx, annotation@) by {
                            if q == (vx, annotation@) {
                                assert(pairs@[0] == (vx, value));
                            }
                        }
                    }
                    assert forall|l: Seq<char>| l != label@ implies lookup_label(anns, l) == lookup_label(old_anns, l) by {
                        if exists|k: int| first_label(old_anns, l, k) {
                            let k = choose|k: int| first_label(old_anns, l, k);
                            assert(first_label(anns, l, k));
                            lemma_lookup_at(anns, k);
                            lemma_lookup_at(old_anns, k);
                        } else {
                            assert forall|k: int| !first_label(anns, l, k) by {
                                if first_label(anns, l, k) {
                                    assert(k < old_anns.len());
                                    assert(anns[k] == old_anns[k]);
                                    assert forall|j: int| 0 <= j < k implies old_anns[j].0@ != l by {
                                        assert(anns[j] == old_anns[j]);
                                    }
                                    assert(first_label(old_anns, l, k));
                                }
                            }
                        }
                    }
                }
            },
        }
        proof {
            assert(self.edge_seq() =~= old(self).edge_seq() + Seq::<(Vx, Vx)>::empty());
            assert forall|l: Seq<char>, p: (Vx, Seq<char>)| #[trigger] has_ann(*old(self), l, p) implies has_ann(*self, l, p) by {
                if l != label@ {
                    assert(self.annotation(l) == old(self).annotation(l));
                }
            }
            lemma_grows(*old(self), *self, Seq::<(Vx, Vx)>::empty());
        }
    }

    /// A fresh vertex with an edge into it from each of `vxs`.
    pub fn m<const N: usize>(&mut self, vxs: [Vx; N]) -> (c: Vx)
        requires
            old(self).last() < usize::MAX,
        ensures
            c.0 == old(self).last() + 1,
            c != Vx(0),
            final(self).last() == c.0,
            final(self).edge_seq() == old(self).edge_seq() + vxs@.map_values(|v: Vx| (v, c)),
            ascending(old(self).edge_seq()) && (forall|i: int| 0 <= i < N ==> (#[trigger] vxs@[i]).0 <= old(self).last())
                ==> ascending(final(self).edge_seq()),
            forall|l: Seq<char>| final(self).annotation(l) == old(self).annotation(l),
            grows(*old(self), *final(self)),
    {
        let c = self.vx();
        let ghost e0 = self.edge_seq();
        let mut i: usize = 0;
        while i < N
            invariant
                i <= N,
                vxs@.len() == N,
                self.last() == c.0,
                self.edge_seq() == e0 + vxs@.subrange(0, i as int).map_values(|v: Vx| (v, c)),
                forall|l: Seq<char>| self.annotation(l) == old(self).annotation(l),
            decreases N - i,
        {
            self.edge(vxs[i], c);
            proof {
                assert(vxs@.subrange(0, i + 1).map_values(|v: Vx| (v, c)) =~= vxs@.subrange(0, i as int).map_values(|v: Vx| (v, c)).push((vxs@[i as int], c)));
            }
            i = i + 1;
        }
        proof {
            assert(vxs@.subrange(0, N as int) =~= vxs@);
            let e = self.edge_seq();
            lemma_grows(*old(self), *self, vxs@.map_values(|v: Vx| (v, c)));
            if ascending(e0) && (forall|i: int| 0 <= i < N ==> (#[trigger] vxs@[i]).0 <= old(self).last()) {
                assert forall|i: int| 0 <= i < e.len() implies (#[trigger] e[i]).0.0 < e[i].1.0 by {
                    if i >= e0.len() {
                        assert(e[i] == (vxs@[i - e0.len()], c));
                    } else {
                        assert(e[i] == e0[i]);
                    }
                }
            }
        }
        c
    }

    /// The finished graph: edges sorted (repetitions kept), reversed edges
    /// sorted, and each label's annotation pairs as a relation.
    pub fn build(self) -> (d: Dag)
        ensures
            built_from(&d, &self),
            pairs_sorted(d.edge_seq()),
            d.edge_seq().to_multiset() == self.edge_seq().to_multiset(),
            pairs_sorted(d.rev_seq()),
            d.rev_seq().to_multiset() == swap_pairs(d.edge_seq()).to_multiset(),
            forall|l: Seq<char>| d.annotation(l) == self.annotation(l),
    {
        let edges = sort_pairs(&self.edges.data);
        let mut swapped: Vec<(Vx, Vx)> = Vec::new();
        let mut i: usize = 0;
        while i < edges.len()
            invariant
                i <= edges.len(),
                swapped@ == swap_pairs(edges@.subrange(0, i as int)),
            decreases edges.len() - i,
        {
            swapped.push((edges[i].1, edges[i].0));
            proof {
                assert(swap_pairs(edges@.subrange(0, i + 1)) =~= swap_pairs(edges@.subrange(0, i as int)).push((edges@[i as int].1, edges@[i as int].0)));
            }
            i = i + 1;
        }
        proof {
            assert(edges@.subrange(0, edges.len() as int) =~= edges@);
        }
        let rev = sort_pairs(&swapped);
        let mut anns: Vec<(String, Relation<String>)> = Vec::new();
        let src = &self.annotations;
        let mut k: usize = 0;
        while k < src.len()
            invariant
                k <= src.len(),
                anns@.len() == k,
                forall|j: int| 0 <= j < k ==> #[trigger] anns@[j].0 == src@[j].0,
                forall|j: int| 0 <= j < k ==> str_pairs(#[trigger] anns@[j].1.data@) == str_pairs(src@[j].1@),
                forall|j: int| 0 <= j < k ==> key_sorted(#[trigger] anns@[j].1.data@),
            decreases src.len() - k,
        {
            let label = src[k].0.clone();
            let pairs = clone_pairs(&src[k].1);
            let rel = Relation::<String>::new(pairs);
            let ghost a0 = anns@;
            anns.push((label, rel));
            proof {
                assert forall|j: int| 0 <= j < k + 1 implies str_pairs(#[trigger] anns@[j].1.data@) == str_pairs(src@[j].1@)
                    && key_sorted(anns@[j].1.data@) && anns@[j].0 == src@[j].0 by {
                    if j < k {
                        assert(anns@[j] == a0[j]);
                        assert(str_pairs(a0[j].1.data@) == str_pairs(src@[j].1@));
                        assert(key_sorted(a0[j].1.data@));
                    }
                }
                assert(anns@[k as int] == (label, rel));
                assert(key_sorted(anns@[k as int].1.data@));
                assert(str_pairs(anns@[k as int].1.data@) == str_pairs(src@[k as int].1@));
            }
            k = k + 1;
        }
        let d = Dag {
            root: Vx(0),
            edges: Relation { data: edges },
            rev_edges: Relation { data: rev },
            annotations: anns,
        };
        proof {
            assert forall|l: Seq<char>| d.annotation(l) == self.annotation(l) by {
                assert forall|j: int| 0 <= j < anns@.len() implies #[trigger] anns@[j].0@ == src@[j].0@ by {}
                lemma_lookup_same_labels(anns@, src@, l);
            }
        }
        d
    }
}

/// A copy of the annotation pairs.
fn clone_pairs(v: &Vec<(Vx, String)>) -> (r: Vec<(Vx, String)>)
    ensures
        str_pairs(r@) == str_pairs(v@),
{
    let mut r: Vec<(Vx, String)> = Vec::new();
    let mut i: usize = 0;
    while i < v.len()
        invariant
            i <= v.len(),
            r@.len() == i,
            forall|j: int| 0 <= j < i ==> #[trigger] r@[j].0 == v@[j].0 && r@[j].1@ == v@[j].1@,
        decreases v.len() - i,
    {
        let s = v[i].1.clone();
        r.push((v[i].0, s));
        i = i + 1;
    }
    proof {
        assert forall|q: (Vx, Seq<char>)| str_pairs(r@).contains(q) <==> str_pairs(v@).contains(q) by {
            if str_pairs(r@).contains(q) {
                let m = choose|m: int| 0 <= m < r@.len() && r@[m].0 == q.0 && r@[m].1@ == q.1;
                assert(r@[m].0 == v@[m].0);
            }
            if str_pairs(v@).contains(q) {
                let m = choose|m: int| 0 <= m < v@.len() && v@[m].0 == q.0 && v@[m].1@ == q.1;
                assert(r@[m].0 == v@[m].0);
            }
        }
        assert(str_pairs(r@) =~= str_pairs(v@));
    }
    r
}

/// One of the first `n` edges starts or ends at `v`.
pub open spec fn has_end(edges: Seq<(Vx, Vx)>, n: int, v: Vx) -> bool {
    exists|k: int| 0 <= k < n && (edges[k].0 == v || edges[k].1 == v)
}

/// `b` recorded the pair `p` under `label`.
pub open spec fn has_ann(b: DagBuilder, label: Seq<char>, p: (Vx, Seq<char>)) -> bool {
    b.annotation(label) matches Some(pairs) && pairs.contains(p)
}

/// `b` holds everything that `a` recorded: `a`'s edges first, in order,
/// each of `a`'s annotation pairs, and a last vertex no lower. Every
/// builder call keeps what was recorded before it in this sense.
pub open spec fn grows(a: DagBuilder, b: DagBuilder) -> bool {
    &&& a.edge_seq().is_prefix_of(b.edge_seq())
    &&& a.last() <= b.last()
    &&& forall|l: Seq<char>, p: (Vx, Seq<char>)| #[trigger] has_ann(a, l, p) ==> has_ann(b, l, p)
}

proof fn lemma_grows(a: DagBuilder, b: DagBuilder, extra: Seq<(Vx, Vx)>)
    requires
        b.edge_seq() == a.edge_seq() + extra,
        a.last() <= b.last(),
        forall|l: Seq<char>, p: (Vx, Seq<char>)| #[trigger] has_ann(a, l, p) ==> has_ann(b, l, p),
    ensures
        grows(a, b),
{
    assert(a.edge_seq() =~= b.edge_seq().subrange(0, a.edge_seq().len() as int));
}

/// A builder grown from a grown builder is grown from the first: the calls
/// made one after another keep what was recorded before them.
pub proof fn law_grows_trans(a: DagBuilder, b: DagBuilder, c: DagBuilder)
    requires
        grows(a, b),
        grows(b, c),
    ensures
        grows(a, c),
{
    assert(a.edge_seq() =~= c.edge_seq().subrange(0, a.edge_seq().len() as int)) by {
        assert(b.edge_seq() =~= c.edge_seq().subrange(0, b.edge_seq().len() as int));
        assert(a.edge_seq() =~= b.edge_seq().subrange(0, a.edge_seq().len() as int));
    }
}

/// `d` holds the edges that `b` recorded, each as often, and the same
/// annotation pairs under each label.
pub open spec fn built_from(d: &Dag, b: &DagBuilder) -> bool {
    &&& d.edge_seq().to_multiset() == b.edge_seq().to_multiset()
    &&& forall|l: Seq<char>| #[trigger] d.annotation(l) == b.annotation(l)
}

impl Default for DagBuilder {
    /// A builder holding only the root.
    fn default() -> (r: DagBuilder)
        ensures
            r.last() == 0,
            r.edge_seq() == Seq::<(Vx, Vx)>::empty(),
            forall|l: Seq<char>| r.annotation(l) is None,
    {
        DagBuilder { last_vx: Vx(0), edges: Relation { data: Vec::new() }, annotations: Vec::new() }
    }
}

} // verus!
