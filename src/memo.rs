use vstd::prelude::*;
use crate::error::SourceLocation;
use crate::eval::{eval_expr_spec, eval_region_spec, first_index, lemma_path_shorter_map};
use crate::expr::{expr_size, BooleanExpr};
use crate::ir::EntryView;

verus! {

// Why a cache of evaluated regions gives the same results as evaluating
// afresh: once every region a cached region depends on is cached as well, the
// evaluation of a cached region never meets a region that is being evaluated
// and not cached, so the regions under evaluation do not change its result.

/// Every region named in `e` is in `c`.
pub open spec fn refs_in(e: BooleanExpr, c: Set<Seq<char>>) -> bool
    decreases e,
{
    match e {
        BooleanExpr::RegionRef(n) => c.contains(n@),
        BooleanExpr::Union(l, r) => refs_in(*l, c) && refs_in(*r, c),
        BooleanExpr::Difference(l, r) => refs_in(*l, c) && refs_in(*r, c),
        BooleanExpr::Intersection(l, r) => refs_in(*l, c) && refs_in(*r, c),
        BooleanExpr::Xor(l, r) => refs_in(*l, c) && refs_in(*r, c),
    }
}

/// Every key of `c` is a region of `m`, and every region that a defined
/// region of `c` names is in `c` too.
pub open spec fn deps_closed(m: Map<Seq<char>, EntryView>, c: Set<Seq<char>>) -> bool {
    forall|k: Seq<char>|
        #[trigger] c.contains(k) ==> m.contains_key(k) && (m[k] matches EntryView::Defined(e, _)
            ==> refs_in(e, c))
}

pub proof fn lemma_refs_in_grow(e: BooleanExpr, c1: Set<Seq<char>>, c2: Set<Seq<char>>)
    requires
        refs_in(e, c1),
        c1.subset_of(c2),
    ensures
        refs_in(e, c2),
    decreases e,
{
    match e {
        BooleanExpr::RegionRef(_) => {},
        BooleanExpr::Union(l, r) => {
            lemma_refs_in_grow(*l, c1, c2);
            lemma_refs_in_grow(*r, c1, c2);
        },
        BooleanExpr::Difference(l, r) => {
            lemma_refs_in_grow(*l, c1, c2);
            lemma_refs_in_grow(*r, c1, c2);
        },
        BooleanExpr::Intersection(l, r) => {
            lemma_refs_in_grow(*l, c1, c2);
            lemma_refs_in_grow(*r, c1, c2);
        },
        BooleanExpr::Xor(l, r) => {
            lemma_refs_in_grow(*l, c1, c2);
            lemma_refs_in_grow(*r, c1, c2);
        },
    }
}

/// The path is `p` (regions not in `c`) followed by `q` (regions in `c`), all
/// distinct regions of `m`.
pub open spec fn split_path(m: Map<Seq<char>, EntryView>, c: Set<Seq<char>>, p: Seq<Seq<char>>, q: Seq<Seq<char>>) -> bool {
    &&& m.dom().finite()
    &&& forall|i: int| 0 <= i < q.len() ==> c.contains(#[trigger] q[i])
    &&& forall|i: int| 0 <= i < p.len() ==> !c.contains(#[trigger] p[i])
    &&& (p + q).no_duplicates()
    &&& forall|i: int| 0 <= i < (p + q).len() ==> m.contains_key(#[trigger] (p + q)[i])
}

proof fn lemma_first_index_concat(p: Seq<Seq<char>>, q: Seq<Seq<char>>, k: Seq<char>)
    requires
        !p.contains(k),
    ensures
        first_index(p + q, k) == p.len() + first_index(q, k),
    decreases p.len(),
{
    if p.len() > 0 {
        assert((p + q)[0] == p[0]);
        assert(p[0] != k);
        assert((p + q).drop_first() =~= p.drop_first() + q);
        assert(!p.drop_first().contains(k)) by {
            if p.drop_first().contains(k) {
                let i = choose|i: int| 0 <= i < p.drop_first().len() && p.drop_first()[i] == k;
                assert(p[i + 1] == k);
            }
        }
        lemma_first_index_concat(p.drop_first(), q, k);
    } else {
        assert(p + q =~= q);
    }
}

proof fn lemma_first_index_bound(q: Seq<Seq<char>>, k: Seq<char>)
    requires
        q.contains(k),
    ensures
        0 <= first_index(q, k) < q.len(),
    decreases q.len(),
{
    if q[0] != k {
        assert(q.drop_first().contains(k)) by {
            let i = choose|i: int| 0 <= i < q.len() && q[i] == k;
            assert(q.drop_first()[i - 1] == k);
        }
        lemma_first_index_bound(q.drop_first(), k);
    }
}

/// A region of `c` evaluates the same under `p + q` as under `q`.
pub proof fn lemma_region_path(
    m: Map<Seq<char>, EntryView>,
    c: Set<Seq<char>>,
    k: Seq<char>,
    p: Seq<Seq<char>>,
    q: Seq<Seq<char>>,
)
    requires
        deps_closed(m, c),
        c.contains(k),
        split_path(m, c, p, q),
    ensures
        eval_region_spec(m, k, p + q) == eval_region_spec(m, k, q),
    decreases m.dom().len() - q.len(), 0nat, 0nat,
{
    let pq = p + q;
    assert(!p.contains(k)) by {
        if p.contains(k) {
            let i = choose|i: int| 0 <= i < p.len() && p[i] == k;
            assert(!c.contains(p[i]));
        }
    }
    assert(pq.contains(k) == q.contains(k)) by {
        if pq.contains(k) {
            let i = choose|i: int| 0 <= i < pq.len() && pq[i] == k;
            if i < p.len() {
                assert(pq[i] == p[i]);
            } else {
                assert(q[i - p.len()] == k);
            }
        }
        if q.contains(k) {
            let i = choose|i: int| 0 <= i < q.len() && q[i] == k;
            assert(pq[p.len() + i] == k);
        }
    }
    if q.contains(k) {
        lemma_first_index_concat(p, q, k);
        lemma_first_index_bound(q, k);
        let f = first_index(q, k);
        assert(pq.subrange(p.len() + f, pq.len() as int) =~= q.subrange(f, q.len() as int));
    } else {
        assert(m.contains_key(k));
        lemma_path_shorter_map(m, pq, k);
        if let EntryView::Defined(e, src) = m[k] {
            assert(pq.push(k) =~= p + q.push(k));
            let q2 = q.push(k);
            assert(split_path(m, c, p, q2)) by {
                assert forall|i: int| 0 <= i < q2.len() implies c.contains(#[trigger] q2[i]) by {
                    if i < q.len() {
                        assert(q2[i] == q[i]);
                    }
                }
                assert((p + q2) =~= pq.push(k));
                assert forall|i: int, j: int|
                    0 <= i < (p + q2).len() && 0 <= j < (p + q2).len() && i != j implies (p + q2)[i]
                    != (p + q2)[j] by {
                    if i < pq.len() && j < pq.len() {
                        assert((p + q2)[i] == pq[i] && (p + q2)[j] == pq[j]);
                    } else if i < pq.len() {
                        assert((p + q2)[i] == pq[i]);
                        assert(pq.contains(pq[i]));
                    } else if j < pq.len() {
                        assert((p + q2)[j] == pq[j]);
                        assert(pq.contains(pq[j]));
                    }
                }
                assert forall|i: int| 0 <= i < (p + q2).len() implies m.contains_key(#[trigger] (p + q2)[i]) by {
                    if i < pq.len() {
                        assert((p + q2)[i] == pq[i]);
                    }
                }
            }
            lemma_expr_path(m, c, e, k, src, p, q2);
        }
    }
}

/// An expression naming only regions of `c` evaluates the same under `p + q`
/// as under `q`.
pub proof fn lemma_expr_path(
    m: Map<Seq<char>, EntryView>,
    c: Set<Seq<char>>,
    e: BooleanExpr,
    cur: Seq<char>,
    src: SourceLocation,
    p: Seq<Seq<char>>,
    q: Seq<Seq<char>>,
)
    requires
        deps_closed(m, c),
        refs_in(e, c),
        split_path(m, c, p, q),
    ensures
        eval_expr_spec(m, e, cur, src, p + q) == eval_expr_spec(m, e, cur, src, q),
    decreases m.dom().len() - q.len(), 1nat, expr_size(e),
{
    match e {
        BooleanExpr::RegionRef(r) => {
            if r@ != cur {
                lemma_region_path(m, c, r@, p, q);
            }
        },
        BooleanExpr::Union(l, r) => {
            lemma_expr_path(m, c, *l, cur, src, p, q);
            lemma_expr_path(m, c, *r, cur, src, p, q);
        },
        BooleanExpr::Difference(l, r) => {
            lemma_expr_path(m, c, *l, cur, src, p, q);
            lemma_expr_path(m, c, *r, cur, src, p, q);
        },
        BooleanExpr::Intersection(l, r) => {
            lemma_expr_path(m, c, *l, cur, src, p, q);
            lemma_expr_path(m, c, *r, cur, src, p, q);
        },
        BooleanExpr::Xor(l, r) => {
            lemma_expr_path(m, c, *l, cur, src, p, q);
            lemma_expr_path(m, c, *r, cur, src, p, q);
        },
    }
}

} // verus!
