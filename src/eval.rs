use vstd::prelude::*;
use crate::boxes::{
    all_in_bounds, boxes_in_bounds, compute_difference, compute_intersection, compute_xor,
    difference_spec, intersection_spec, xor_spec, BoxPair,
};
use crate::error::{ParseError, SourceLocation};
use crate::expr::{expr_size, BooleanExpr};
use crate::ir::{table_map, EntryView, RegionEntry, RegionTable};
use crate::keymap::{keys_of, key_lt, lemma_lookup_at, lemma_lookup_some, lookup, sorted_keys, KeyMap};
use crate::memo::{deps_closed, lemma_refs_in_grow, lemma_region_path, refs_in, split_path};
use crate::text::str_equal;

verus! {

/// Why evaluating a region failed.
pub enum EvalError {
    /// A name that is not in the table.
    Unknown(Seq<char>),
    /// A defined region whose expression names the region itself, with its source.
    SelfRef(Seq<char>, SourceLocation),
    /// A dependency cycle: the evaluation path from the repeated region on.
    Cycle(Seq<Seq<char>>),
    /// A coordinate at the extreme of the 32-bit range reached an operator.
    Overflow,
}

/// Index of the first occurrence of `k` in `p`.
pub open spec fn first_index(p: Seq<Seq<char>>, k: Seq<char>) -> int
    decreases p.len(),
{
    if p.len() == 0 || p[0] == k {
        0
    } else {
        1 + first_index(p.drop_first(), k)
    }
}

/// Applies an operator to two evaluated operands: any error of the left, then
/// of the right, is passed on; an operand with an extreme coordinate is an
/// overflow; otherwise `f` combines them.
pub open spec fn combine(
    a: Result<Seq<BoxPair>, EvalError>,
    b: Result<Seq<BoxPair>, EvalError>,
    f: spec_fn(Seq<BoxPair>, Seq<BoxPair>) -> Seq<BoxPair>,
) -> Result<Seq<BoxPair>, EvalError> {
    match a {
        Err(x) => Err(x),
        Ok(l) => match b {
            Err(x) => Err(x),
            Ok(r) => if !all_in_bounds(l) || !all_in_bounds(r) {
                Err(EvalError::Overflow)
            } else {
                Ok(f(l, r))
            },
        },
    }
}

/// The boxes of region `k` in table `m`, evaluated while the regions of
/// `path` are being evaluated.
pub open spec fn eval_region_spec(
    m: Map<Seq<char>, EntryView>,
    k: Seq<char>,
    path: Seq<Seq<char>>,
) -> Result<Seq<BoxPair>, EvalError>
    decreases m.dom().len() - path.len(), 0nat, 0nat,
{
    if path.contains(k) {
        Err(EvalError::Cycle(path.subrange(first_index(path, k), path.len() as int)))
    } else if !m.contains_key(k) {
        Err(EvalError::Unknown(k))
    } else if path.len() >= m.dom().len() {
        // Not reached: a path holds distinct keys of the table.
        Err(EvalError::Overflow)
    } else {
        match m[k] {
            EntryView::Accumulator(bs, _) => Ok(bs),
            EntryView::Anonymous(b, _) => Ok(seq![b]),
            EntryView::Defined(e, src) => eval_expr_spec(m, e, k, src, path.push(k)),
        }
    }
}

/// The boxes of expression `e`, part of the definition of region `cur` (made
/// at `src`).
pub open spec fn eval_expr_spec(
    m: Map<Seq<char>, EntryView>,
    e: BooleanExpr,
    cur: Seq<char>,
    src: SourceLocation,
    path: Seq<Seq<char>>,
) -> Result<Seq<BoxPair>, EvalError>
    decreases m.dom().len() - path.len(), 1nat, expr_size(e),
{
    match e {
        BooleanExpr::RegionRef(r) => if r@ == cur {
            Err(EvalError::SelfRef(cur, src))
        } else {
            eval_region_spec(m, r@, path)
        },
        BooleanExpr::Union(l, r) => combine(
            eval_expr_spec(m, *l, cur, src, path),
            eval_expr_spec(m, *r, cur, src, path),
            |a: Seq<BoxPair>, b: Seq<BoxPair>| a + b,
        ),
        BooleanExpr::Difference(l, r) => combine(
            eval_expr_spec(m, *l, cur, src, path),
            eval_expr_spec(m, *r, cur, src, path),
            |a: Seq<BoxPair>, b: Seq<BoxPair>| difference_spec(a, b),
        ),
        BooleanExpr::Intersection(l, r) => combine(
            eval_expr_spec(m, *l, cur, src, path),
            eval_expr_spec(m, *r, cur, src, path),
            |a: Seq<BoxPair>, b: Seq<BoxPair>| intersection_spec(a, b),
        ),
        BooleanExpr::Xor(l, r) => combine(
            eval_expr_spec(m, *l, cur, src, path),
            eval_expr_spec(m, *r, cur, src, path),
            |a: Seq<BoxPair>, b: Seq<BoxPair>| xor_spec(a, b),
        ),
    }
}

/// The boxes of region `k`, evaluated on its own.
pub open spec fn region_value(m: Map<Seq<char>, EntryView>, k: Seq<char>) -> Result<
    Seq<BoxPair>,
    EvalError,
> {
    eval_region_spec(m, k, Seq::empty())
}

/// The least key of a set in key order.
pub open spec fn least_key(ks: Set<Seq<char>>) -> Seq<char> {
    choose|k: Seq<char>| ks.contains(k) && forall|k2: Seq<char>| #[trigger] ks.contains(k2) ==> !key_lt(k2, k)
}

/// The regions of `m` that fail to evaluate.
pub open spec fn failing(m: Map<Seq<char>, EntryView>) -> Set<Seq<char>> {
    Set::new(|k: Seq<char>| m.contains_key(k) && region_value(m, k) is Err)
}

/// The first region in key order that fails to evaluate.
pub open spec fn first_failing(m: Map<Seq<char>, EntryView>) -> Seq<char> {
    least_key(failing(m))
}

/// A region that fails, before which in key order every region evaluates, is
/// the first failing one.
pub proof fn lemma_first_failing(m: Map<Seq<char>, EntryView>, k: Seq<char>)
    requires
        m.contains_key(k),
        region_value(m, k) is Err,
        forall|k2: Seq<char>| m.contains_key(k2) && #[trigger] key_lt(k2, k) ==> region_value(m, k2) is Ok,
    ensures
        first_failing(m) == k,
{
    let fs = failing(m);
    assert(fs.contains(k));
    assert forall|k2: Seq<char>| #[trigger] fs.contains(k2) implies !key_lt(k2, k) by {}
    let f = least_key(fs);
    assert(fs.contains(f));
    crate::keymap::lemma_key_lt_trichotomy(f, k);
}

/// An executable result agrees with the specified one.
pub open spec fn agrees(r: Result<Vec<BoxPair>, ParseError>, s: Result<Seq<BoxPair>, EvalError>) -> bool {
    match s {
        Ok(bs) => r matches Ok(v) && v@ == bs,
        Err(EvalError::Unknown(k)) => r matches Err(ParseError::UnknownRegion { region, source })
            && region@ == k && source == (SourceLocation { tuple_idx: 0, stmt_idx: 0 }),
        Err(EvalError::SelfRef(k, src)) => r matches Err(ParseError::SelfReference { region, source })
            && region@ == k && source == src,
        Err(EvalError::Cycle(p)) => r matches Err(ParseError::CycleDetected { cycle }) && cycle@.map_values(
            |s: String| s@,
        ) == p,
        Err(EvalError::Overflow) => r matches Err(ParseError::Internal { message, position })
            && message@ == "Coordinate overflow detected"@ && position == 0,
    }
}

/// A table's key set is finite.
pub proof fn lemma_table_dom_finite(es: Seq<(Seq<char>, RegionEntry)>)
    requires
        sorted_keys(es),
    ensures
        table_map(es).dom().finite(),
{
    broadcast use vstd::seq_lib::seq_to_set_is_finite;
    let d = table_map(es).dom();
    let ks = keys_of(es);
    assert forall|q: Seq<char>| d.contains(q) <==> ks.to_set().contains(q) by {
        lemma_lookup_some(es, q);
        if d.contains(q) {
            let i = choose|i: int| 0 <= i < es.len() && (#[trigger] es[i]).0 == q;
            assert(ks[i] == q);
        }
        if ks.to_set().contains(q) {
            let i = choose|i: int| 0 <= i < ks.len() && ks[i] == q;
            assert(es[i].0 == q);
        }
    }
    assert(d =~= ks.to_set());
}

/// A path of distinct table keys that misses key `k` is shorter than the table.
pub proof fn lemma_path_shorter_map(m: Map<Seq<char>, EntryView>, path: Seq<Seq<char>>, k: Seq<char>)
    requires
        m.dom().finite(),
        path.no_duplicates(),
        forall|i: int| 0 <= i < path.len() ==> m.contains_key(#[trigger] path[i]),
        m.contains_key(k),
        !path.contains(k),
    ensures
        path.len() < m.dom().len(),
{
    let d = m.dom();
    let p2 = path.push(k);
    assert(p2.no_duplicates()) by {
        assert forall|i: int, j: int| 0 <= i < p2.len() && 0 <= j < p2.len() && i != j implies p2[i]
            != p2[j] by {
            if i < path.len() && j < path.len() {
                assert(p2[i] == path[i] && p2[j] == path[j]);
            } else if i < path.len() {
                assert(p2[i] == path[i]);
            } else if j < path.len() {
                assert(p2[j] == path[j]);
            }
        }
    }
    p2.unique_seq_to_set();
    assert forall|q: Seq<char>| p2.to_set().contains(q) implies d.contains(q) by {
        let i = choose|i: int| 0 <= i < p2.len() && p2[i] == q;
        if i < path.len() {
            assert(p2[i] == path[i]);
        }
    }
    vstd::set_lib::lemma_len_subset(p2.to_set(), d);
}

proof fn lemma_path_shorter(es: Seq<(Seq<char>, RegionEntry)>, path: Seq<Seq<char>>, k: Seq<char>)
    requires
        sorted_keys(es),
        path.no_duplicates(),
        forall|i: int| 0 <= i < path.len() ==> table_map(es).contains_key(#[trigger] path[i]),
        table_map(es).contains_key(k),
        !path.contains(k),
    ensures
        path.len() < table_map(es).dom().len(),
{
    lemma_table_dom_finite(es);
    lemma_path_shorter_map(table_map(es), path, k);
}

/// A cached evaluation result.
#[derive(Debug, PartialEq)]
pub struct EvaluatedRegion {
    /// The region's boxes
    pub boxes: Vec<BoxPair>,
    /// Whether the region has been evaluated
    pub evaluated: bool,
}

/// Evaluation state: the table, the regions already evaluated, and the stack
/// of regions being evaluated.
struct EvaluationContext<'a> {
    table: &'a RegionTable,
    cache: KeyMap<EvaluatedRegion>,
    evaluation_path: Vec<String>,
}

impl<'a> EvaluationContext<'a> {
    spec fn m(&self) -> Map<Seq<char>, EntryView> {
        self.table.view_map()
    }

    spec fn path(&self) -> Seq<Seq<char>> {
        self.evaluation_path@.map_values(|s: String| s@)
    }

    /// The regions in the cache.
    spec fn cset(&self) -> Set<Seq<char>> {
        Set::new(|k: Seq<char>| lookup(self.cache@, k) is Some)
    }

    /// The cached boxes of `k`.
    spec fn cached(&self, k: Seq<char>) -> Seq<BoxPair> {
        lookup(self.cache@, k)->0.boxes@
    }

    spec fn ok(&self) -> bool {
        &&& self.table.wf()
        &&& self.m().dom().finite()
        &&& self.path().no_duplicates()
        &&& forall|i: int| 0 <= i < self.path().len() ==> self.m().contains_key(#[trigger] self.path()[i])
        &&& self.cache.wf()
        &&& deps_closed(self.m(), self.cset())
        &&& forall|k: Seq<char>|
            #[trigger] self.cset().contains(k) ==> region_value(self.m(), k) == Ok::<
                Seq<BoxPair>,
                EvalError,
            >(self.cached(k))
        &&& forall|i: int| 0 <= i < self.path().len() ==> !self.cset().contains(#[trigger] self.path()[i])
    }

    fn new(table: &'a RegionTable) -> (r: Self)
        requires
            table.wf(),
        ensures
            r.table == table,
            r.path() == Seq::<Seq<char>>::empty(),
            r.ok(),
    {
        let r = EvaluationContext { table, cache: KeyMap::new(), evaluation_path: Vec::new() };
        assert(r.path() =~= Seq::<Seq<char>>::empty());
        proof {
            lemma_table_dom_finite(table.regions@);
            assert(r.cset() =~= Set::<Seq<char>>::empty());
        }
        r
    }

    /// The index of `name` on the evaluation path, if it is there.
    fn path_position(&self, name: &str) -> (r: Option<usize>)
        ensures
            match r {
                Some(i) => self.path().contains(name@) && i == first_index(self.path(), name@) && i
                    < self.path().len(),
                None => !self.path().contains(name@),
            },
    {
        let mut i: usize = 0;
        while i < self.evaluation_path.len()
            invariant
                0 <= i <= self.path().len(),
                self.path().len() == self.evaluation_path@.len(),
                forall|j: int| 0 <= j < i ==> self.path()[j] != name@,
            decreases self.path().len() - i,
        {
            if str_equal(self.evaluation_path[i].as_str(), name) {
                proof {
                    lemma_first_index(self.path(), name@, i as int);
                }
                return Some(i);
            }
            i = i + 1;
        }
        None
    }

    /// Evaluate a region and return its boxes.
    fn evaluate_region(&mut self, region_name: &str) -> (r: Result<Vec<BoxPair>, ParseError>)
        requires
            old(self).ok(),
        ensures
            final(self).table == old(self).table,
            final(self).path() == old(self).path(),
            final(self).ok(),
            old(self).cset().subset_of(final(self).cset()),
            r is Ok ==> final(self).cset().contains(region_name@),
            agrees(r, eval_region_spec(old(self).m(), region_name@, old(self).path())),
        decreases old(self).m().dom().len() - old(self).path().len(), 0nat, 0nat,
    {
        let ghost m = self.m();
        let ghost p = self.path();
        match self.cache.get(region_name) {
            Some(entry) => {
                let boxes = crate::ir::copy_boxes(&entry.boxes);
                proof {
                    assert(self.cset().contains(region_name@));
                    assert(p + Seq::<Seq<char>>::empty() =~= p);
                    lemma_region_path(m, self.cset(), region_name@, p, Seq::empty());
                }
                return Ok(boxes);
            },
            None => {},
        }
        if let Some(cycle_start) = self.path_position(region_name) {
            let mut cycle: Vec<String> = Vec::new();
            let mut j: usize = cycle_start;
            while j < self.evaluation_path.len()
                invariant
                    cycle_start <= j <= self.path().len(),
                    self.path().len() == self.evaluation_path@.len(),
                    self.path() == p,
                    cycle@.map_values(|s: String| s@) == p.subrange(cycle_start as int, j as int),
                decreases self.path().len() - j,
            {
                let ghost prev = cycle@;
                assert(self.path()[j as int] == self.evaluation_path@[j as int]@);
                let item = self.evaluation_path[j].clone();
                cycle.push(item);
                assert(cycle@ == prev.push(item));
                assert(cycle@.map_values(|s: String| s@) =~= prev.map_values(|s: String| s@).push(
                    item@,
                ));
                assert(cycle@.map_values(|s: String| s@) =~= p.subrange(cycle_start as int, j + 1));
                j = j + 1;
            }
            return Err(ParseError::CycleDetected { cycle });
        }
        let entry_index = self.table.regions.index_of(region_name);
        if entry_index.is_none() {
            proof {
                lemma_lookup_some(self.table.regions@, region_name@);
            }
            return Err(
                ParseError::UnknownRegion { region: region_name.to_owned(), source: SourceLocation::new(0, 0) },
            );
        }
        proof {
            lemma_lookup_at(self.table.regions@, entry_index->0 as int);
            lemma_path_shorter(self.table.regions@, p, region_name@);
        }
        self.evaluation_path.push(region_name.to_owned());
        proof {
            assert(self.path() =~= p.push(region_name@));
            assert(self.path().no_duplicates()) by {
                assert forall|i: int, j: int|
                    0 <= i < self.path().len() && 0 <= j < self.path().len() && i != j implies self.path()[i]
                    != self.path()[j] by {
                    if i < p.len() && j < p.len() {
                    } else if i < p.len() {
                        assert(p.contains(p[i]));
                    } else if j < p.len() {
                        assert(p.contains(p[j]));
                    }
                }
            }
        }
        let result = self.evaluate_region_impl(region_name);
        let ghost before_pop = self.evaluation_path@;
        self.evaluation_path.pop();
        proof {
            assert(self.evaluation_path@ == before_pop.drop_last());
            assert(before_pop.map_values(|s: String| s@) == p.push(region_name@));
            assert(self.path() =~= before_pop.map_values(|s: String| s@).drop_last());
            assert(self.path() =~= p);
        }
        if let Ok(boxes) = &result {
            let copy = crate::ir::copy_boxes(boxes);
            let ghost c1 = self.cset();
            let ghost c2 = c1.insert(region_name@);
            proof {
                assert forall|k: Seq<char>| #[trigger] c2.contains(k) implies m.contains_key(k) && (
                m[k] matches EntryView::Defined(e, _) ==> refs_in(e, c2)) by {
                    if c1.contains(k) {
                        if let EntryView::Defined(e, _) = m[k] {
                            lemma_refs_in_grow(e, c1, c2);
                        }
                    } else {
                        if let EntryView::Defined(e, _) = m[k] {
                            lemma_refs_in_grow(e, c1, c2);
                        }
                    }
                }
                assert(split_path(m, c2, p, Seq::empty())) by {
                    assert(p + Seq::<Seq<char>>::empty() =~= p);
                }
                lemma_region_path(m, c2, region_name@, p, Seq::empty());
                assert(p + Seq::<Seq<char>>::empty() =~= p);
            }
            self.cache.insert(region_name.to_owned(), EvaluatedRegion { boxes: copy, evaluated: true });
            proof {
                assert(self.cset() =~= c2);
                assert forall|i: int| 0 <= i < self.path().len() implies !self.cset().contains(
                    #[trigger] self.path()[i],
                ) by {
                    assert(self.path()[i] != region_name@);
                }
            }
        }
        result
    }

    /// Dispatch on the entry of a region that has just been pushed on the path.
    fn evaluate_region_impl(&mut self, region_name: &str) -> (r: Result<Vec<BoxPair>, ParseError>)
        requires
            old(self).ok(),
            old(self).path().len() > 0,
            old(self).path().last() == region_name@,
            old(self).m().contains_key(region_name@),
            old(self).path().len() <= old(self).m().dom().len(),
        ensures
            final(self).table == old(self).table,
            final(self).path() == old(self).path(),
            final(self).ok(),
            old(self).cset().subset_of(final(self).cset()),
            r is Ok ==> (old(self).m()[region_name@] matches EntryView::Defined(e, _) ==> refs_in(
                e,
                final(self).cset(),
            )),
            agrees(
                r,
                match old(self).m()[region_name@] {
                    EntryView::Accumulator(bs, _) => Ok(bs),
                    EntryView::Anonymous(b, _) => Ok(seq![b]),
                    EntryView::Defined(e, src) => eval_expr_spec(
                        old(self).m(),
                        e,
                        region_name@,
                        src,
                        old(self).path(),
                    ),
                },
            ),
        decreases old(self).m().dom().len() - old(self).path().len(), 2nat, 0nat,
    {
        let table = self.table;
        match table.regions.get(region_name) {
            Some(RegionEntry::Accumulator { boxes, .. }) => {
                let mut out: Vec<BoxPair> = Vec::new();
                let mut i: usize = 0;
                while i < boxes.len()
                    invariant
                        0 <= i <= boxes@.len(),
                        out@ == boxes@.subrange(0, i as int),
                    decreases boxes@.len() - i,
                {
                    out.push(boxes[i]);
                    assert(out@ =~= boxes@.subrange(0, i + 1));
                    i = i + 1;
                }
                assert(out@ =~= boxes@);
                Ok(out)
            },
            Some(RegionEntry::Defined { expr, source }) => {
                self.evaluate_expression(expr, region_name, *source)
            },
            Some(RegionEntry::Anonymous { box_pair, .. }) => {
                let v = vec![*box_pair];
                assert(v@ =~= seq![*box_pair]);
                Ok(v)
            },
            None => {
                Err(ParseError::UnknownRegion { region: region_name.to_owned(), source: SourceLocation::new(0, 0) })
            },
        }
    }

    /// Evaluate a boolean expression that is part of the definition of `current_region`.
    #[verifier::rlimit(60)]
    fn evaluate_expression(
        &mut self,
        expr: &BooleanExpr,
        current_region: &str,
        source: SourceLocation,
    ) -> (r: Result<Vec<BoxPair>, ParseError>)
        requires
            old(self).ok(),
            old(self).path().len() <= old(self).m().dom().len(),
        ensures
            final(self).table == old(self).table,
            final(self).path() == old(self).path(),
            final(self).ok(),
            old(self).cset().subset_of(final(self).cset()),
            r is Ok ==> refs_in(*expr, final(self).cset()),
            agrees(r, eval_expr_spec(old(self).m(), *expr, current_region@, source, old(self).path())),
        decreases old(self).m().dom().len() - old(self).path().len(), 1nat, expr_size(*expr),
    {
        match expr {
            BooleanExpr::RegionRef(ref_name) => {
                if str_equal(ref_name.as_str(), current_region) {
                    return Err(ParseError::SelfReference { region: current_region.to_owned(), source });
                }
                self.evaluate_region(ref_name.as_str())
            },
            BooleanExpr::Union(left, right) => {
                let mut left_boxes = self.evaluate_expression(left, current_region, source)?;
                let ghost c_mid = self.cset();
                let mut right_boxes = self.evaluate_expression(right, current_region, source)?;
                proof {
                    lemma_refs_in_grow(**left, c_mid, self.cset());
                }
                check_boxes_bounds(left_boxes.as_slice())?;
                check_boxes_bounds(right_boxes.as_slice())?;
                left_boxes.append(&mut right_boxes);
                Ok(left_boxes)
            },
            BooleanExpr::Difference(left, right) => {
                let left_boxes = self.evaluate_expression(left, current_region, source)?;
                let ghost c_mid = self.cset();
                let right_boxes = self.evaluate_expression(right, current_region, source)?;
                proof {
                    lemma_refs_in_grow(**left, c_mid, self.cset());
                }
                check_boxes_bounds(left_boxes.as_slice())?;
                check_boxes_bounds(right_boxes.as_slice())?;
                Ok(compute_difference(left_boxes.as_slice(), right_boxes.as_slice()))
            },
            BooleanExpr::Intersection(left, right) => {
                let left_boxes = self.evaluate_expression(left, current_region, source)?;
                let ghost c_mid = self.cset();
                let right_boxes = self.evaluate_expression(right, current_region, source)?;
                proof {
                    lemma_refs_in_grow(**left, c_mid, self.cset());
                }
                check_boxes_bounds(left_boxes.as_slice())?;
                check_boxes_bounds(right_boxes.as_slice())?;
                Ok(compute_intersection(left_boxes.as_slice(), right_boxes.as_slice()))
            },
            BooleanExpr::Xor(left, right) => {
                let left_boxes = self.evaluate_expression(left, current_region, source)?;
                let ghost c_mid = self.cset();
                let right_boxes = self.evaluate_expression(right, current_region, source)?;
                proof {
                    lemma_refs_in_grow(**left, c_mid, self.cset());
                }
                check_boxes_bounds(left_boxes.as_slice())?;
                check_boxes_bounds(right_boxes.as_slice())?;
                Ok(compute_xor(left_boxes.as_slice(), right_boxes.as_slice()))
            },
        }
    }
}

proof fn lemma_first_index(p: Seq<Seq<char>>, k: Seq<char>, i: int)
    requires
        0 <= i < p.len(),
        p[i] == k,
        forall|j: int| 0 <= j < i ==> p[j] != k,
    ensures
        first_index(p, k) == i,
        p.contains(k),
    decreases i,
{
    if i > 0 {
        assert forall|j: int| 0 <= j < i - 1 implies p.drop_first()[j] != k by {
            assert(p.drop_first()[j] == p[j + 1]);
        }
        lemma_first_index(p.drop_first(), k, i - 1);
    }
}

/// Fail with an internal error when a coordinate sits at either extreme of
/// the 32-bit range.
pub fn check_boxes_bounds(boxes: &[BoxPair]) -> (r: Result<(), ParseError>)
    ensures
        r is Ok <==> all_in_bounds(boxes@),
        r matches Err(e) ==> (e matches ParseError::Internal { message, position } && message@
            == "Coordinate overflow detected"@ && position == 0),
{
    if boxes_in_bounds(boxes) {
        Ok(())
    } else {
        Err(ParseError::Internal { message: "Coordinate overflow detected", position: 0 })
    }
}

/// Evaluate one region of the table on its own.
pub fn evaluate_region_boxes(table: &RegionTable, region_name: &str) -> (r: Result<Vec<BoxPair>, ParseError>)
    requires
        table.wf(),
    ensures
        agrees(r, region_value(table.view_map(), region_name@)),
{
    let mut context = EvaluationContext::new(table);
    context.evaluate_region(region_name)
}

/// Evaluate every region of the table, in key order. The first region that
/// fails to evaluate stops the evaluation with its error.
pub fn evaluate_geometry(table: &RegionTable) -> (r: Result<KeyMap<Vec<BoxPair>>, ParseError>)
    requires
        table.wf(),
    ensures
        r is Ok <==> forall|i: int|
            0 <= i < table.regions@.len() ==> region_value(table.view_map(), #[trigger] table.regions@[i].0) is Ok,
        r matches Ok(res) ==> res.wf() && res@.len() == table.regions@.len() && forall|i: int|
            0 <= i < res@.len() ==> (#[trigger] res@[i]).0 == table.regions@[i].0 && region_value(
                table.view_map(),
                res@[i].0,
            ) == Ok::<Seq<BoxPair>, EvalError>(res@[i].1@),
        r matches Err(e) ==> exists|i: int|
            0 <= i < table.regions@.len() && agrees(
                Err(e),
                region_value(table.view_map(), #[trigger] table.regions@[i].0),
            ) && forall|j: int| 0 <= j < i ==> region_value(table.view_map(), #[trigger] table.regions@[j].0) is Ok,
{
    let mut context = EvaluationContext::new(table);
    let mut results: KeyMap<Vec<BoxPair>> = KeyMap::new();
    let n = table.regions.len();
    let mut i: usize = 0;
    while i < n
        invariant
            0 <= i <= n,
            n == table.regions@.len(),
            context.table == table,
            context.ok(),
            context.path() == Seq::<Seq<char>>::empty(),
            results.wf(),
            results@.len() == i,
            forall|j: int|
                0 <= j < i ==> (#[trigger] results@[j]).0 == table.regions@[j].0 && region_value(
                    table.view_map(),
                    results@[j].0,
                ) == Ok::<Seq<BoxPair>, EvalError>(results@[j].1@),
        decreases n - i,
    {
        let name = table.regions.key_at(i).clone();
        let boxes = context.evaluate_region(name.as_str());
        match boxes {
            Ok(b) => {
                let ghost old_results = results@;
                proof {
                    assert forall|j: int| 0 <= j < old_results.len() implies key_lt(
                        #[trigger] old_results[j].0,
                        name@,
                    ) by {
                        assert(old_results[j].0 == table.regions@[j].0);
                    }
                }
                results.push_last(name, b);
            },
            Err(e) => {
                assert(agrees(Err(e), region_value(table.view_map(), table.regions@[i as int].0)));
                assert forall|j: int| 0 <= j < i implies region_value(table.view_map(), #[trigger] table.regions@[j].0) is Ok by {
                    assert(results@[j].0 == table.regions@[j].0);
                }
                return Err(e);
            },
        }
        i = i + 1;
    }
    assert forall|j: int| 0 <= j < table.regions@.len() implies region_value(
        table.view_map(),
        #[trigger] table.regions@[j].0,
    ) is Ok by {
        assert(results@[j].0 == table.regions@[j].0);
    }
    Ok(results)
}

} // verus!
