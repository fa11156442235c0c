use vstd::prelude::*;
use crate::boxes::{
    all_in_bounds, all_normalized, box_in_bounds, is_normalized, lemma_difference_normalized,
    lemma_intersection_normalized, lemma_union_normalized, lemma_xor_normalized, BoxPair, Vec3,
};
use crate::error::SourceLocation;
use crate::error::Error;
use crate::eval::{combine, eval_expr_spec, eval_region_spec, region_value};
use crate::expr::{expr_size, BooleanExpr};
use crate::geom_grammar::{expr_view, name_view, stmt_view};
use crate::geom_parser::{box_computable, box_of, region_of, GeometryStatement};
use crate::ir::{
    anchor_of, assemble_spec, geom_key, geometry_update, table_boxes_normalized, EntryView, GeomStmt,
    GeomUpdate,
};
use crate::meta_parser::meta_view;
use crate::metadata::{
    apply_meta_spec, assign_spec, data_or_empty, fan_out, last_geom_key, meta_step, DataView, MetaStmt,
};
use crate::output::{dsl_view, is_anon_key, shape_spec, DslMap};
use crate::eval::{failing, first_failing};
use crate::ir::{asm_err, update_err};
use crate::keymap::key_lt;
use crate::metadata::{pass_err, step_err};
use crate::pipeline::{
    compile_err, compile_err_is, CompileErr,
    all_regions_evaluate, boxes_table, compile_from, compiled, geom_views, meta_views, units_spec,
};

verus! {

// ---------------------------------------------------------------------------
// Union is associative
// ---------------------------------------------------------------------------

proof fn lemma_bounds_concat(x: Seq<BoxPair>, y: Seq<BoxPair>)
    ensures
        all_in_bounds(x + y) <==> all_in_bounds(x) && all_in_bounds(y),
{
    if all_in_bounds(x + y) {
        assert forall|i: int| 0 <= i < x.len() implies box_in_bounds(#[trigger] x[i]) by {
            assert((x + y)[i] == x[i]);
        }
        assert forall|i: int| 0 <= i < y.len() implies box_in_bounds(#[trigger] y[i]) by {
            assert((x + y)[x.len() + i] == y[i]);
        }
    }
    if all_in_bounds(x) && all_in_bounds(y) {
        assert forall|i: int| 0 <= i < (x + y).len() implies box_in_bounds(#[trigger] (x + y)[i]) by {
            if i >= x.len() {
                assert((x + y)[i] == y[i - x.len()]);
            }
        }
    }
}

/// Union is associative: `(a+b)+c` and `a+(b+c)` evaluate to the same boxes,
/// in the same order, whenever either of them succeeds.
pub proof fn lemma_union_associative(
    m: Map<Seq<char>, EntryView>,
    a: BooleanExpr,
    b: BooleanExpr,
    c: BooleanExpr,
    cur: Seq<char>,
    src: SourceLocation,
    path: Seq<Seq<char>>,
)
    ensures
        ({
            let l = eval_expr_spec(
                m,
                BooleanExpr::Union(Box::new(BooleanExpr::Union(Box::new(a), Box::new(b))), Box::new(c)),
                cur,
                src,
                path,
            );
            let r = eval_expr_spec(
                m,
                BooleanExpr::Union(Box::new(a), Box::new(BooleanExpr::Union(Box::new(b), Box::new(c)))),
                cur,
                src,
                path,
            );
            (l is Ok <==> r is Ok) && (l is Ok ==> l == r)
        }),
{
    let ea = eval_expr_spec(m, a, cur, src, path);
    let eb = eval_expr_spec(m, b, cur, src, path);
    let ec = eval_expr_spec(m, c, cur, src, path);
    let ab = BooleanExpr::Union(Box::new(a), Box::new(b));
    let bc = BooleanExpr::Union(Box::new(b), Box::new(c));
    let eab = eval_expr_spec(m, ab, cur, src, path);
    let ebc = eval_expr_spec(m, bc, cur, src, path);
    let l = eval_expr_spec(m, BooleanExpr::Union(Box::new(ab), Box::new(c)), cur, src, path);
    let r = eval_expr_spec(m, BooleanExpr::Union(Box::new(a), Box::new(bc)), cur, src, path);
    assert(eab == combine(ea, eb, |x: Seq<BoxPair>, y: Seq<BoxPair>| x + y));
    assert(ebc == combine(eb, ec, |x: Seq<BoxPair>, y: Seq<BoxPair>| x + y));
    assert(l == combine(eab, ec, |x: Seq<BoxPair>, y: Seq<BoxPair>| x + y));
    assert(r == combine(ea, ebc, |x: Seq<BoxPair>, y: Seq<BoxPair>| x + y));
    if ea is Ok && eb is Ok && ec is Ok {
        let x = ea->Ok_0;
        let y = eb->Ok_0;
        let z = ec->Ok_0;
        lemma_bounds_concat(x, y);
        lemma_bounds_concat(y, z);
        lemma_bounds_concat(x + y, z);
        lemma_bounds_concat(x, y + z);
        assert((x + y) + z =~= x + (y + z));
    }
}

// ---------------------------------------------------------------------------
// Every output box is normalized
// ---------------------------------------------------------------------------

proof fn lemma_eval_region_normalized(m: Map<Seq<char>, EntryView>, k: Seq<char>, path: Seq<Seq<char>>)
    requires
        table_boxes_normalized(m),
    ensures
        eval_region_spec(m, k, path) matches Ok(bs) ==> all_normalized(bs),
    decreases m.dom().len() - path.len(), 0nat, 0nat,
{
    if !path.contains(k) && m.contains_key(k) && path.len() < m.dom().len() {
        match m[k] {
            EntryView::Defined(e, s) => {
                lemma_eval_expr_normalized(m, e, k, s, path.push(k));
            },
            EntryView::Anonymous(b, _) => {
                assert(is_normalized(b));
                assert(all_normalized(seq![b]));
            },
            _ => {},
        }
    }
}

proof fn lemma_eval_expr_normalized(
    m: Map<Seq<char>, EntryView>,
    e: BooleanExpr,
    cur: Seq<char>,
    src: SourceLocation,
    path: Seq<Seq<char>>,
)
    requires
        table_boxes_normalized(m),
    ensures
        eval_expr_spec(m, e, cur, src, path) matches Ok(bs) ==> all_normalized(bs),
    decreases m.dom().len() - path.len(), 1nat, expr_size(e),
{
    match e {
        BooleanExpr::RegionRef(r) => {
            if r@ != cur {
                lemma_eval_region_normalized(m, r@, path);
            }
        },
        BooleanExpr::Union(l, r) => {
            lemma_eval_expr_normalized(m, *l, cur, src, path);
            lemma_eval_expr_normalized(m, *r, cur, src, path);
            let el = eval_expr_spec(m, *l, cur, src, path);
            let er = eval_expr_spec(m, *r, cur, src, path);
            if el is Ok && er is Ok {
                lemma_union_normalized(el->Ok_0, er->Ok_0);
            }
        },
        BooleanExpr::Difference(l, r) => {
            lemma_eval_expr_normalized(m, *l, cur, src, path);
            lemma_eval_expr_normalized(m, *r, cur, src, path);
            let el = eval_expr_spec(m, *l, cur, src, path);
            let er = eval_expr_spec(m, *r, cur, src, path);
            if el is Ok && er is Ok {
                lemma_difference_normalized(el->Ok_0, er->Ok_0);
            }
        },
        BooleanExpr::Intersection(l, r) => {
            lemma_eval_expr_normalized(m, *l, cur, src, path);
            lemma_eval_expr_normalized(m, *r, cur, src, path);
            let el = eval_expr_spec(m, *l, cur, src, path);
            let er = eval_expr_spec(m, *r, cur, src, path);
            if el is Ok && er is Ok {
                lemma_intersection_normalized(el->Ok_0, er->Ok_0);
            }
        },
        BooleanExpr::Xor(l, r) => {
            lemma_eval_expr_normalized(m, *l, cur, src, path);
            lemma_eval_expr_normalized(m, *r, cur, src, path);
            let el = eval_expr_spec(m, *l, cur, src, path);
            let er = eval_expr_spec(m, *r, cur, src, path);
            if el is Ok && er is Ok {
                lemma_xor_normalized(el->Ok_0, er->Ok_0);
            }
        },
    }
}

proof fn lemma_assemble_normalized(gs: Seq<GeomStmt>, units: Seq<(Vec3, String)>, n: int)
    ensures
        assemble_spec(gs, units, n) matches Some(m) ==> table_boxes_normalized(m),
    decreases n,
{
    if n > 0 {
        lemma_assemble_normalized(gs, units, n - 1);
        if let Some(m) = assemble_spec(gs, units, n - 1) {
            let g = gs[n - 1];
            let off = anchor_of(units, g.tuple_idx as int);
            if let GeomUpdate::Assign(k, e) = geometry_update(m, g, off) {
                let m2 = m.insert(k, e);
                if !(g.statement is Expression) {
                    let b = box_of(g.statement, off)->0;
                    assert(is_normalized(b));
                }
                assert forall|q: Seq<char>| #![trigger m2[q]] m2.contains_key(q) implies match m2[q] {
                    EntryView::Accumulator(bs, _) => forall|i: int|
                        0 <= i < bs.len() ==> is_normalized(#[trigger] bs[i]),
                    EntryView::Anonymous(b, _) => is_normalized(b),
                    EntryView::Defined(_, _) => true,
                } by {
                    if q != k {
                        assert(m2[q] == m[q]);
                    } else if let EntryView::Accumulator(bs, _) = e {
                        let b = box_of(g.statement, off)->0;
                        if m.contains_key(k) {
                            if let EntryView::Accumulator(obs, _) = m[k] {
                                assert forall|i: int| 0 <= i < bs.len() implies is_normalized(#[trigger] bs[i]) by {
                                    if i < obs.len() {
                                        assert(bs[i] == obs[i]);
                                    } else {
                                        assert(bs[i] == b);
                                    }
                                }
                            }
                        } else {
                            assert forall|i: int| 0 <= i < bs.len() implies is_normalized(#[trigger] bs[i]) by {
                                assert(bs[i] == b);
                            }
                        }
                    }
                }
            }
        }
    }
}

/// Every region's boxes are normalized (`None` boxes included trivially).
pub open spec fn data_boxes_normalized(t: Map<Seq<char>, DataView>) -> bool {
    forall|k: Seq<char>|
        #![trigger t[k]]
        t.contains_key(k) ==> (t[k].boxes matches Some(bs) ==> all_normalized(bs))
}

proof fn lemma_assign_keeps_normalized(
    t: Map<Seq<char>, DataView>,
    region: Seq<char>,
    key: Seq<char>,
    value: Seq<char>,
    src: SourceLocation,
)
    requires
        data_boxes_normalized(t),
    ensures
        assign_spec(t, region, key, value, src) matches Some(t2) ==> data_boxes_normalized(t2),
{
    if let Some(t2) = assign_spec(t, region, key, value, src) {
        assert forall|k: Seq<char>| #![trigger t2[k]] t2.contains_key(k) implies (t2[k].boxes matches Some(
            bs,
        ) ==> all_normalized(bs)) by {
            if k != region {
                assert(t2[k] == t[k]);
            } else {
                assert(t2[k].boxes == data_or_empty(t, region).boxes);
            }
        }
    }
}

proof fn lemma_meta_step_keeps_normalized(t: Map<Seq<char>, DataView>, gs: Seq<GeomStmt>, m: MetaStmt)
    requires
        data_boxes_normalized(t),
    ensures
        meta_step(t, gs, m) matches Some(t2) ==> data_boxes_normalized(t2),
{
    let src = SourceLocation { tuple_idx: m.tuple_idx, stmt_idx: m.stmt_idx };
    match m.statement {
        crate::meta_parser::MetadataStatement::Current { key, value } => {
            if let Some(target) = crate::metadata::last_geom_key(gs, m.tuple_idx) {
                lemma_assign_keeps_normalized(t, target, key@, value@, src);
            }
        },
        crate::meta_parser::MetadataStatement::Targeted { target, key, value } => {
            lemma_assign_keeps_normalized(t, target@, key@, value@, src);
            if target@.contains('*') {
                if let Some(t1) = assign_spec(t, target@, key@, value@, src) {
                    if let Some(t2) = fan_out(t1, target@, key@, value@, src) {
                        assert forall|k: Seq<char>| #![trigger t2[k]] t2.contains_key(k) implies (
                        t2[k].boxes matches Some(bs) ==> all_normalized(bs)) by {
                            assert(t2[k].boxes == t1[k].boxes);
                        }
                    }
                }
            }
        },
    }
}

proof fn lemma_apply_keeps_normalized(t: Map<Seq<char>, DataView>, gs: Seq<GeomStmt>, ms: Seq<MetaStmt>, n: int)
    requires
        data_boxes_normalized(t),
    ensures
        apply_meta_spec(t, gs, ms, n) matches Some(t2) ==> data_boxes_normalized(t2),
    decreases n,
{
    if n > 0 {
        lemma_apply_keeps_normalized(t, gs, ms, n - 1);
        if let Some(t1) = apply_meta_spec(t, gs, ms, n - 1) {
            lemma_meta_step_keeps_normalized(t1, gs, ms[n - 1]);
        }
    }
}

/// Every box of a compiled output is normalized: `min[i] <= max[i]` on all axes.
pub proof fn lemma_output_boxes_normalized(
    gs: Seq<GeomStmt>,
    ms: Seq<MetaStmt>,
    units: Seq<(Vec3, String)>,
    k: Seq<char>,
)
    requires
        compile_from(gs, ms, units) is Some,
        compile_from(gs, ms, units)->0.contains_key(k),
    ensures
        compile_from(gs, ms, units)->0[k].boxes matches Some(bs) ==> all_normalized(bs),
{
    lemma_assemble_normalized(gs, units, gs.len() as int);
    let m = assemble_spec(gs, units, gs.len() as int)->0;
    let t0 = boxes_table(m);
    assert forall|q: Seq<char>| #![trigger t0[q]] t0.contains_key(q) implies (t0[q].boxes matches Some(
        bs,
    ) ==> all_normalized(bs)) by {
        lemma_eval_region_normalized(m, q, Seq::empty());
    }
    lemma_apply_keeps_normalized(t0, gs, ms, ms.len() as int);
    let t = apply_meta_spec(t0, gs, ms, ms.len() as int)->0;
    assert(shape_spec(t)[k].boxes == t[k].boxes);
}

// ---------------------------------------------------------------------------
// The laws on what `compile` returns
// ---------------------------------------------------------------------------

/// Every box in a successful compilation's output is normalized.
pub proof fn lemma_compiled_boxes_normalized(
    units: Seq<(Vec3, String)>,
    ops: bool,
    r: Result<DslMap, Error>,
    k: Seq<char>,
)
    requires
        compiled(units, ops, r),
        r matches Ok(m) && dsl_view(m@).contains_key(k),
    ensures
        r matches Ok(m) && (dsl_view(m@)[k].boxes matches Some(bs) ==> all_normalized(bs)),
{
    let (gv, mv) = units_spec(units, ops, units.len() as int)->0;
    let (gs, ms) = choose|gs: Seq<GeomStmt>, ms: Seq<MetaStmt>|
        geom_views(gs) == gv && meta_views(ms) == mv && match compile_from(gs, ms, units) {
            Some(out) => r matches Ok(m) && dsl_view(m@) == out,
            None => r is Err,
        };
    lemma_output_boxes_normalized(gs, ms, units, k);
}

/// A successful compilation's output holds an anonymous region only when that
/// region has metadata.
pub proof fn lemma_compiled_anonymous_elided(
    units: Seq<(Vec3, String)>,
    ops: bool,
    r: Result<DslMap, Error>,
    k: Seq<char>,
)
    requires
        compiled(units, ops, r),
        r matches Ok(m) && dsl_view(m@).contains_key(k),
        is_anon_key(k),
    ensures
        r matches Ok(m) && dsl_view(m@)[k].meta.dom() != Set::<Seq<char>>::empty(),
{
    let (gv, mv) = units_spec(units, ops, units.len() as int)->0;
    let (gs, ms) = choose|gs: Seq<GeomStmt>, ms: Seq<MetaStmt>|
        geom_views(gs) == gv && meta_views(ms) == mv && match compile_from(gs, ms, units) {
            Some(out) => r matches Ok(m) && dsl_view(m@) == out,
            None => r is Err,
        };
    let m0 = assemble_spec(gs, units, gs.len() as int)->0;
    let t = apply_meta_spec(boxes_table(m0), gs, ms, ms.len() as int)->0;
    assert(shape_spec(t).contains_key(k));
    assert(shape_spec(t)[k].meta.dom() =~= t[k].meta.dom());
}

// ---------------------------------------------------------------------------
// Compilation depends on the statements' views alone
// ---------------------------------------------------------------------------

/// Two table entries that hold the same plain values.
pub open spec fn entry_agree(a: EntryView, b: EntryView) -> bool {
    match (a, b) {
        (EntryView::Accumulator(x1, y1), EntryView::Accumulator(x2, y2)) => x1 == x2 && y1 == y2,
        (EntryView::Anonymous(x1, y1), EntryView::Anonymous(x2, y2)) => x1 == x2 && y1 == y2,
        (EntryView::Defined(e1, s1), EntryView::Defined(e2, s2)) => expr_view(e1) == expr_view(e2) && s1 == s2,
        _ => false,
    }
}

/// Two tables with the same keys whose entries hold the same plain values.
pub open spec fn maps_agree(m1: Map<Seq<char>, EntryView>, m2: Map<Seq<char>, EntryView>) -> bool {
    &&& m1.dom() == m2.dom()
    &&& forall|k: Seq<char>| #[trigger] m1.contains_key(k) ==> entry_agree(m1[k], m2[k])
}

proof fn lemma_eval_region_agree(
    m1: Map<Seq<char>, EntryView>,
    m2: Map<Seq<char>, EntryView>,
    k: Seq<char>,
    path: Seq<Seq<char>>,
)
    requires
        maps_agree(m1, m2),
    ensures
        eval_region_spec(m1, k, path) == eval_region_spec(m2, k, path),
    decreases m1.dom().len() - path.len(), 0nat, 0nat,
{
    if !path.contains(k) && m1.contains_key(k) && path.len() < m1.dom().len() {
        assert(m2.contains_key(k));
        assert(entry_agree(m1[k], m2[k]));
        if let EntryView::Defined(e1, s1) = m1[k] {
            if let EntryView::Defined(e2, s2) = m2[k] {
                lemma_eval_expr_agree(m1, m2, e1, e2, k, s1, path.push(k));
            }
        }
    }
}

proof fn lemma_eval_expr_agree(
    m1: Map<Seq<char>, EntryView>,
    m2: Map<Seq<char>, EntryView>,
    e1: BooleanExpr,
    e2: BooleanExpr,
    cur: Seq<char>,
    src: SourceLocation,
    path: Seq<Seq<char>>,
)
    requires
        maps_agree(m1, m2),
        expr_view(e1) == expr_view(e2),
    ensures
        eval_expr_spec(m1, e1, cur, src, path) == eval_expr_spec(m2, e2, cur, src, path),
    decreases m1.dom().len() - path.len(), 1nat, expr_size(e1),
{
    match e1 {
        BooleanExpr::RegionRef(r1) => {
            if let BooleanExpr::RegionRef(r2) = e2 {
                lemma_eval_region_agree(m1, m2, r1@, path);
            }
        },
        BooleanExpr::Union(l1, r1) => {
            if let BooleanExpr::Union(l2, r2) = e2 {
                lemma_eval_expr_agree(m1, m2, *l1, *l2, cur, src, path);
                lemma_eval_expr_agree(m1, m2, *r1, *r2, cur, src, path);
            }
        },
        BooleanExpr::Difference(l1, r1) => {
            if let BooleanExpr::Difference(l2, r2) = e2 {
                lemma_eval_expr_agree(m1, m2, *l1, *l2, cur, src, path);
                lemma_eval_expr_agree(m1, m2, *r1, *r2, cur, src, path);
            }
        },
        BooleanExpr::Intersection(l1, r1) => {
            if let BooleanExpr::Intersection(l2, r2) = e2 {
                lemma_eval_expr_agree(m1, m2, *l1, *l2, cur, src, path);
                lemma_eval_expr_agree(m1, m2, *r1, *r2, cur, src, path);
            }
        },
        BooleanExpr::Xor(l1, r1) => {
            if let BooleanExpr::Xor(l2, r2) = e2 {
                lemma_eval_expr_agree(m1, m2, *l1, *l2, cur, src, path);
                lemma_eval_expr_agree(m1, m2, *r1, *r2, cur, src, path);
            }
        },
    }
}

proof fn lemma_assemble_agree(gs1: Seq<GeomStmt>, gs2: Seq<GeomStmt>, units: Seq<(Vec3, String)>, n: int)
    requires
        geom_views(gs1) == geom_views(gs2),
        0 <= n <= gs1.len(),
    ensures
        assemble_spec(gs1, units, n) is Some <==> assemble_spec(gs2, units, n) is Some,
        assemble_spec(gs1, units, n) is Some ==> maps_agree(
            assemble_spec(gs1, units, n)->0,
            assemble_spec(gs2, units, n)->0,
        ),
    decreases n,
{
    if n > 0 {
        lemma_assemble_agree(gs1, gs2, units, n - 1);
        assert(gs1.len() == geom_views(gs1).len());
        assert(geom_views(gs1)[n - 1] == geom_views(gs2)[n - 1]);
        let g1 = gs1[n - 1];
        let g2 = gs2[n - 1];
        assert(g1.tuple_idx == g2.tuple_idx && g1.stmt_idx == g2.stmt_idx);
        assert(stmt_view(g1.statement) == stmt_view(g2.statement));
        if let Some(m1) = assemble_spec(gs1, units, n - 1) {
            let m2 = assemble_spec(gs2, units, n - 1)->0;
            let off = anchor_of(units, g1.tuple_idx as int);
            assert(region_of(g1.statement) == region_of(g2.statement)) by {
                match g1.statement {
                    GeometryStatement::RelativeCoordinate { region, .. } => {
                        assert(name_view(region) == region_of(g1.statement));
                    },
                    GeometryStatement::AbsoluteCoordinate { region, .. } => {
                        assert(name_view(region) == region_of(g1.statement));
                    },
                    _ => {},
                }
                match g2.statement {
                    GeometryStatement::RelativeCoordinate { region, .. } => {
                        assert(name_view(region) == region_of(g2.statement));
                    },
                    GeometryStatement::AbsoluteCoordinate { region, .. } => {
                        assert(name_view(region) == region_of(g2.statement));
                    },
                    _ => {},
                }
            }
            let key = geom_key(g1);
            assert(geom_key(g2) == key);
            let u1 = geometry_update(m1, g1, off);
            let u2 = geometry_update(m2, g2, off);
            assert(m1.contains_key(key) == m2.contains_key(key));
            if m1.contains_key(key) {
                assert(entry_agree(m1[key], m2[key]));
            }
            assert(box_computable(g1.statement, off) == box_computable(g2.statement, off));
            assert(box_of(g1.statement, off) == box_of(g2.statement, off));
            match (u1, u2) {
                (GeomUpdate::Assign(k1, e1), GeomUpdate::Assign(k2, e2)) => {
                    assert(k1 == k2);
                    assert(entry_agree(e1, e2));
                    let n1 = m1.insert(k1, e1);
                    let n2 = m2.insert(k2, e2);
                    assert(n1.dom() =~= n2.dom());
                    assert forall|q: Seq<char>| #[trigger] n1.contains_key(q) implies entry_agree(n1[q], n2[q]) by {
                        if q != k1 {
                            assert(n1[q] == m1[q] && n2[q] == m2[q]);
                        }
                    }
                },
                _ => {},
            }
        }
    }
}

proof fn lemma_last_geom_key_agree(gs1: Seq<GeomStmt>, gs2: Seq<GeomStmt>, t: usize)
    requires
        geom_views(gs1) == geom_views(gs2),
    ensures
        last_geom_key(gs1, t) == last_geom_key(gs2, t),
    decreases gs1.len(),
{
    assert(gs1.len() == geom_views(gs1).len() && gs2.len() == geom_views(gs2).len());
    if gs1.len() > 0 {
        assert(geom_views(gs1.drop_last()) =~= geom_views(gs1).drop_last());
        assert(geom_views(gs2.drop_last()) =~= geom_views(gs2).drop_last());
        lemma_last_geom_key_agree(gs1.drop_last(), gs2.drop_last(), t);
        let g1 = gs1.last();
        let g2 = gs2.last();
        assert(geom_views(gs1)[gs1.len() - 1] == geom_views(gs2)[gs2.len() - 1]);
        assert(stmt_view(g1.statement) == stmt_view(g2.statement));
        assert(region_of(g1.statement) == region_of(g2.statement)) by {
            match g1.statement {
                GeometryStatement::RelativeCoordinate { region, .. } => {},
                GeometryStatement::AbsoluteCoordinate { region, .. } => {},
                _ => {},
            }
        }
    }
}

proof fn lemma_apply_agree(
    t: Map<Seq<char>, DataView>,
    gs1: Seq<GeomStmt>,
    gs2: Seq<GeomStmt>,
    ms1: Seq<MetaStmt>,
    ms2: Seq<MetaStmt>,
    n: int,
)
    requires
        geom_views(gs1) == geom_views(gs2),
        meta_views(ms1) == meta_views(ms2),
        0 <= n <= ms1.len(),
    ensures
        apply_meta_spec(t, gs1, ms1, n) == apply_meta_spec(t, gs2, ms2, n),
    decreases n,
{
    if n > 0 {
        lemma_apply_agree(t, gs1, gs2, ms1, ms2, n - 1);
        assert(ms1.len() == meta_views(ms1).len());
        assert(meta_views(ms1)[n - 1] == meta_views(ms2)[n - 1]);
        let m1 = ms1[n - 1];
        let m2 = ms2[n - 1];
        assert(meta_view(m1.statement) == meta_view(m2.statement));
        lemma_last_geom_key_agree(gs1, gs2, m1.tuple_idx);
        if let Some(t1) = apply_meta_spec(t, gs1, ms1, n - 1) {
            assert(meta_step(t1, gs1, m1) == meta_step(t1, gs2, m2));
        }
    }
}

/// Compilation depends on the statements only through their plain values.
pub proof fn lemma_compile_from_views(
    gs1: Seq<GeomStmt>,
    ms1: Seq<MetaStmt>,
    gs2: Seq<GeomStmt>,
    ms2: Seq<MetaStmt>,
    units: Seq<(Vec3, String)>,
)
    requires
        geom_views(gs1) == geom_views(gs2),
        meta_views(ms1) == meta_views(ms2),
    ensures
        compile_from(gs1, ms1, units) == compile_from(gs2, ms2, units),
{
    assert(gs1.len() == geom_views(gs1).len() && gs2.len() == geom_views(gs2).len());
    assert(ms1.len() == meta_views(ms1).len() && ms2.len() == meta_views(ms2).len());
    lemma_assemble_agree(gs1, gs2, units, gs1.len() as int);
    if let Some(a1) = assemble_spec(gs1, units, gs1.len() as int) {
        let a2 = assemble_spec(gs2, units, gs2.len() as int)->0;
        assert forall|k: Seq<char>| #[trigger] region_value(a1, k) == region_value(a2, k) by {
            lemma_eval_region_agree(a1, a2, k, Seq::empty());
        }
        assert(a1.dom() == a2.dom());
        assert forall|k: Seq<char>| a1.contains_key(k) == a2.contains_key(k) by {
            assert(a1.dom().contains(k) == a2.dom().contains(k));
        }
        if all_regions_evaluate(a1) {
            assert forall|k: Seq<char>| a2.contains_key(k) implies (#[trigger] region_value(a2, k)) is Ok by {
                assert(region_value(a1, k) == region_value(a2, k));
            }
        }
        if all_regions_evaluate(a2) {
            assert forall|k: Seq<char>| a1.contains_key(k) implies (#[trigger] region_value(a1, k)) is Ok by {
                assert(region_value(a1, k) == region_value(a2, k));
            }
        }
        assert(all_regions_evaluate(a1) == all_regions_evaluate(a2));
        assert(boxes_table(a1) =~= boxes_table(a2));
        lemma_apply_agree(boxes_table(a1), gs1, gs2, ms1, ms2, ms1.len() as int);
    }
}

proof fn lemma_asm_err_agree(gs1: Seq<GeomStmt>, gs2: Seq<GeomStmt>, units: Seq<(Vec3, String)>, n: int)
    requires
        geom_views(gs1) == geom_views(gs2),
        0 <= n <= gs1.len(),
    ensures
        asm_err(gs1, units, n) == asm_err(gs2, units, n),
    decreases n,
{
    if n > 0 {
        lemma_asm_err_agree(gs1, gs2, units, n - 1);
        lemma_assemble_agree(gs1, gs2, units, n - 1);
        assert(gs1.len() == geom_views(gs1).len());
        assert(geom_views(gs1)[n - 1] == geom_views(gs2)[n - 1]);
        let g1 = gs1[n - 1];
        let g2 = gs2[n - 1];
        assert(g1.tuple_idx == g2.tuple_idx && g1.stmt_idx == g2.stmt_idx);
        assert(stmt_view(g1.statement) == stmt_view(g2.statement));
        if let Some(m1) = assemble_spec(gs1, units, n - 1) {
            let m2 = assemble_spec(gs2, units, n - 1)->0;
            let off = anchor_of(units, g1.tuple_idx as int);
            assert(region_of(g1.statement) == region_of(g2.statement)) by {
                match g1.statement {
                    GeometryStatement::RelativeCoordinate { region, .. } => {
                        assert(name_view(region) == region_of(g1.statement));
                    },
                    GeometryStatement::AbsoluteCoordinate { region, .. } => {
                        assert(name_view(region) == region_of(g1.statement));
                    },
                    _ => {},
                }
                match g2.statement {
                    GeometryStatement::RelativeCoordinate { region, .. } => {
                        assert(name_view(region) == region_of(g2.statement));
                    },
                    GeometryStatement::AbsoluteCoordinate { region, .. } => {
                        assert(name_view(region) == region_of(g2.statement));
                    },
                    _ => {},
                }
            }
            let key = geom_key(g1);
            assert(geom_key(g2) == key);
            assert(m1.contains_key(key) == m2.contains_key(key));
            if m1.contains_key(key) {
                assert(entry_agree(m1[key], m2[key]));
            }
            assert(box_computable(g1.statement, off) == box_computable(g2.statement, off));
            assert(box_of(g1.statement, off) == box_of(g2.statement, off));
            assert(update_err(m1, g1, off) == update_err(m2, g2, off));
        }
    }
}

proof fn lemma_pass_err_agree(
    t: Map<Seq<char>, DataView>,
    gs1: Seq<GeomStmt>,
    gs2: Seq<GeomStmt>,
    ms1: Seq<MetaStmt>,
    ms2: Seq<MetaStmt>,
    n: int,
)
    requires
        geom_views(gs1) == geom_views(gs2),
        meta_views(ms1) == meta_views(ms2),
        0 <= n <= ms1.len(),
    ensures
        pass_err(t, gs1, ms1, n) == pass_err(t, gs2, ms2, n),
    decreases n,
{
    if n > 0 {
        lemma_pass_err_agree(t, gs1, gs2, ms1, ms2, n - 1);
        lemma_apply_agree(t, gs1, gs2, ms1, ms2, n - 1);
        assert(ms1.len() == meta_views(ms1).len());
        assert(meta_views(ms1)[n - 1] == meta_views(ms2)[n - 1]);
        let m1 = ms1[n - 1];
        let m2 = ms2[n - 1];
        assert(meta_view(m1.statement) == meta_view(m2.statement));
        lemma_last_geom_key_agree(gs1, gs2, m1.tuple_idx);
        if let Some(t1) = apply_meta_spec(t, gs1, ms1, n - 1) {
            assert(step_err(t1, gs1, m1) == step_err(t1, gs2, m2));
        }
    }
}

/// The error of compiling parsed statements depends on their plain values alone.
pub proof fn lemma_compile_err_views(
    gs1: Seq<GeomStmt>,
    ms1: Seq<MetaStmt>,
    gs2: Seq<GeomStmt>,
    ms2: Seq<MetaStmt>,
    units: Seq<(Vec3, String)>,
)
    requires
        geom_views(gs1) == geom_views(gs2),
        meta_views(ms1) == meta_views(ms2),
    ensures
        compile_err(gs1, ms1, units) == compile_err(gs2, ms2, units),
{
    assert(gs1.len() == geom_views(gs1).len() && gs2.len() == geom_views(gs2).len());
    assert(ms1.len() == meta_views(ms1).len() && ms2.len() == meta_views(ms2).len());
    lemma_assemble_agree(gs1, gs2, units, gs1.len() as int);
    lemma_asm_err_agree(gs1, gs2, units, gs1.len() as int);
    if let Some(a1) = assemble_spec(gs1, units, gs1.len() as int) {
        let a2 = assemble_spec(gs2, units, gs2.len() as int)->0;
        lemma_first_failing_agree(a1, a2);
        if all_regions_evaluate(a1) {
            assert(boxes_table(a1) =~= boxes_table(a2)) by {
                assert forall|k: Seq<char>| #[trigger] region_value(a1, k) == region_value(a2, k) by {
                    lemma_eval_region_agree(a1, a2, k, Seq::empty());
                }
            }
            lemma_pass_err_agree(boxes_table(a1), gs1, gs2, ms1, ms2, ms1.len() as int);
        }
    }
}

proof fn lemma_first_failing_agree(a1: Map<Seq<char>, EntryView>, a2: Map<Seq<char>, EntryView>)
    requires
        maps_agree(a1, a2),
    ensures
        all_regions_evaluate(a1) == all_regions_evaluate(a2),
        first_failing(a1) == first_failing(a2),
        region_value(a1, first_failing(a1)) == region_value(a2, first_failing(a2)),
{
    assert forall|k: Seq<char>| #[trigger] region_value(a1, k) == region_value(a2, k) by {
        lemma_eval_region_agree(a1, a2, k, Seq::empty());
    }
    assert forall|k: Seq<char>| a1.contains_key(k) == a2.contains_key(k) by {
        assert(a1.dom().contains(k) == a2.dom().contains(k));
    }
    assert(failing(a1) =~= failing(a2));
    if all_regions_evaluate(a1) {
        assert forall|k: Seq<char>| a2.contains_key(k) implies (#[trigger] region_value(a2, k)) is Ok by {
            assert(region_value(a1, k) == region_value(a2, k));
        }
    }
    if all_regions_evaluate(a2) {
        assert forall|k: Seq<char>| a1.contains_key(k) implies (#[trigger] region_value(a1, k)) is Ok by {
            assert(region_value(a1, k) == region_value(a2, k));
        }
    }
}

/// Compiling the same units twice gives the same outcome: both succeed with
/// the same output, or both fail; when the units parse, both failures are the
/// error that `compile_err` describes.
pub proof fn lemma_compile_deterministic_output(
    units: Seq<(Vec3, String)>,
    ops: bool,
    r1: Result<DslMap, Error>,
    r2: Result<DslMap, Error>,
)
    requires
        compiled(units, ops, r1),
        compiled(units, ops, r2),
    ensures
        r1 is Ok <==> r2 is Ok,
        r1 matches Ok(m1) ==> r2 matches Ok(m2) && dsl_view(m1@) == dsl_view(m2@),
        units_spec(units, ops, units.len() as int) is Some ==> (r1 matches Err(Error::Parser(e1))
            ==> r2 matches Err(Error::Parser(e2)) && exists|d: CompileErr| compile_err_is(e1, d)
            && compile_err_is(e2, d)),
{
    if let Some((gv, mv)) = units_spec(units, ops, units.len() as int) {
        let (gs1, ms1) = choose|gs: Seq<GeomStmt>, ms: Seq<MetaStmt>|
            geom_views(gs) == gv && meta_views(ms) == mv && match compile_from(gs, ms, units) {
                Some(out) => r1 matches Ok(m) && dsl_view(m@) == out,
                None => r1 matches Err(Error::Parser(e)) && compile_err_is(e, compile_err(gs, ms, units)),
            };
        let (gs2, ms2) = choose|gs: Seq<GeomStmt>, ms: Seq<MetaStmt>|
            geom_views(gs) == gv && meta_views(ms) == mv && match compile_from(gs, ms, units) {
                Some(out) => r2 matches Ok(m) && dsl_view(m@) == out,
                None => r2 matches Err(Error::Parser(e)) && compile_err_is(e, compile_err(gs, ms, units)),
            };
        lemma_compile_from_views(gs1, ms1, gs2, ms2, units);
        lemma_compile_err_views(gs1, ms1, gs2, ms2, units);
    }
}

} // verus!
