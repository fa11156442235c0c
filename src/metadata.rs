use vstd::prelude::*;
use crate::boxes::BoxPair;
use crate::error::{ParseError, SourceLocation};
use crate::ir::{geom_key, GeomStmt};
use crate::json_value::{same_json, JsonValue};
use crate::keymap::{key_lt, lemma_lookup_at, lemma_lookup_some, lookup, KeyMap};
use crate::meta_parser::MetadataStatement;
use crate::text::{chars_of, str_equal};

verus! {

// ---------------------------------------------------------------------------
// Metadata statements with their source
// ---------------------------------------------------------------------------

/// A metadata statement with the unit and statement index it came from.
#[derive(Debug, Clone, PartialEq)]
pub struct MetaStmt {
    /// The placement unit this statement belongs to
    pub tuple_idx: usize,
    /// The statement index within the unit
    pub stmt_idx: usize,
    /// The parsed statement
    pub statement: MetadataStatement,
}

impl MetaStmt {
    /// Create a new metadata statement.
    pub fn new(tuple_idx: usize, stmt_idx: usize, statement: MetadataStatement) -> (r: Self)
        ensures
            r == (MetaStmt { tuple_idx, stmt_idx, statement }),
    {
        MetaStmt { tuple_idx, stmt_idx, statement }
    }

    /// The explicit target; `None` for current-region metadata.
    pub fn target(&self) -> (r: Option<&str>)
        ensures
            match self.statement {
                MetadataStatement::Current { .. } => r is None,
                MetadataStatement::Targeted { target, .. } => r matches Some(t) && t@ == target@,
            },
    {
        match &self.statement {
            MetadataStatement::Current { .. } => None,
            MetadataStatement::Targeted { target, .. } => Some(target.as_str()),
        }
    }

    /// Whether this is current-region metadata (`#key=value`).
    pub fn is_current_region(&self) -> (r: bool)
        ensures
            r == self.statement is Current,
    {
        match &self.statement {
            MetadataStatement::Current { .. } => true,
            MetadataStatement::Targeted { .. } => false,
        }
    }
}

// ---------------------------------------------------------------------------
// Evaluated region table
// ---------------------------------------------------------------------------

/// A metadata value with where it was assigned.
#[derive(Debug, PartialEq)]
pub struct MetadataAssignment {
    /// The value
    pub value: JsonValue,
    /// Where it was assigned
    pub source: SourceLocation,
}

impl Clone for MetadataAssignment {
    fn clone(&self) -> (r: Self)
        ensures
            r == *self,
    {
        MetadataAssignment { value: self.value.clone(), source: self.source }
    }
}

/// Boxes and metadata of one region.
#[derive(Debug)]
pub struct EvaluatedRegionData {
    /// The boxes; `None` for entries that carry metadata only (`$global`,
    /// wildcard patterns, unknown targets)
    pub boxes: Option<Vec<BoxPair>>,
    /// Metadata by key
    pub metadata: KeyMap<MetadataAssignment>,
}

/// Region key to boxes and metadata.
#[derive(Debug)]
pub struct EvaluatedRegionTable {
    /// Map from region name to boxes and metadata
    pub regions: KeyMap<EvaluatedRegionData>,
}

/// A region's data as plain values: boxes, and metadata key to (value text, source).
pub struct DataView {
    pub boxes: Option<Seq<BoxPair>>,
    pub meta: Map<Seq<char>, (Seq<char>, SourceLocation)>,
}

pub open spec fn meta_map(es: Seq<(Seq<char>, MetadataAssignment)>) -> Map<Seq<char>, (Seq<char>, SourceLocation)> {
    Map::new(
        |k: Seq<char>| lookup(es, k) is Some,
        |k: Seq<char>| (lookup(es, k)->0.value@, lookup(es, k)->0.source),
    )
}

pub open spec fn data_view(d: EvaluatedRegionData) -> DataView {
    DataView {
        boxes: match d.boxes {
            Some(v) => Some(v@),
            None => None,
        },
        meta: meta_map(d.metadata@),
    }
}

pub open spec fn etable_map(es: Seq<(Seq<char>, EvaluatedRegionData)>) -> Map<Seq<char>, DataView> {
    Map::new(|k: Seq<char>| lookup(es, k) is Some, |k: Seq<char>| data_view(lookup(es, k)->0))
}

/// A region's data, or an entry without boxes or metadata when it is absent.
pub open spec fn data_or_empty(t: Map<Seq<char>, DataView>, region: Seq<char>) -> DataView {
    if t.contains_key(region) {
        t[region]
    } else {
        DataView { boxes: None, meta: Map::empty() }
    }
}

/// `d` with `key` set to `value` unless the key is already there.
pub open spec fn with_key(d: DataView, key: Seq<char>, value: Seq<char>, src: SourceLocation) -> DataView {
    if d.meta.contains_key(key) {
        d
    } else {
        DataView { boxes: d.boxes, meta: d.meta.insert(key, (value, src)) }
    }
}

/// Assigning `key = value` to `region` conflicts with a different value already there.
pub open spec fn conflicts(t: Map<Seq<char>, DataView>, region: Seq<char>, key: Seq<char>, value: Seq<char>) -> bool {
    let d = data_or_empty(t, region);
    d.meta.contains_key(key) && !same_json(d.meta[key].0, value)
}

/// Assign `key = value` (from `src`) to `region`, creating the region without
/// boxes if absent; an equal value already there is kept with its source;
/// `None` on a conflict.
pub open spec fn assign_spec(
    t: Map<Seq<char>, DataView>,
    region: Seq<char>,
    key: Seq<char>,
    value: Seq<char>,
    src: SourceLocation,
) -> Option<Map<Seq<char>, DataView>> {
    if conflicts(t, region, key, value) {
        None
    } else {
        Some(t.insert(region, with_key(data_or_empty(t, region), key, value, src)))
    }
}

proof fn lemma_insert_after_remove<V>(a: Map<Seq<char>, V>, b: Map<Seq<char>, V>, k: Seq<char>, v: V)
    requires
        a.remove(k) == b.remove(k),
    ensures
        a.insert(k, v) == b.insert(k, v),
{
    assert forall|q: Seq<char>| #[trigger] a.insert(k, v).contains_key(q) == b.insert(k, v).contains_key(q) by {
        if q != k {
            assert(a.remove(k).contains_key(q) == a.contains_key(q));
            assert(b.remove(k).contains_key(q) == b.contains_key(q));
        }
    }
    assert forall|q: Seq<char>| a.insert(k, v).contains_key(q) implies #[trigger] a.insert(k, v)[q] == b.insert(k, v)[q] by {
        if q != k {
            assert(a.remove(k)[q] == a[q]);
            assert(b.remove(k)[q] == b[q]);
        }
    }
    assert(a.insert(k, v) =~= b.insert(k, v));
}

impl EvaluatedRegionData {
    fn empty() -> (r: Self)
        ensures
            data_view(r) == (DataView { boxes: None, meta: Map::empty() }),
            r.metadata.wf(),
    {
        let r = EvaluatedRegionData { boxes: None, metadata: KeyMap::new() };
        assert(meta_map(r.metadata@) =~= Map::<Seq<char>, (Seq<char>, SourceLocation)>::empty());
        r
    }
}

impl EvaluatedRegionTable {
    pub open spec fn view_map(&self) -> Map<Seq<char>, DataView> {
        etable_map(self.regions@)
    }

    /// Every map in the table keeps its keys in order.
    pub open spec fn wf(&self) -> bool {
        &&& self.regions.wf()
        &&& forall|i: int| 0 <= i < self.regions@.len() ==> (#[trigger] self.regions@[i]).1.metadata.wf()
    }

    /// An empty table.
    pub fn new() -> (r: Self)
        ensures
            r.wf(),
            r.view_map() == Map::<Seq<char>, DataView>::empty(),
    {
        let r = EvaluatedRegionTable { regions: KeyMap::new() };
        assert(r.view_map() =~= Map::<Seq<char>, DataView>::empty());
        r
    }

    /// Put `d` under `region`.
    fn put(&mut self, region: String, d: EvaluatedRegionData)
        requires
            old(self).wf(),
            d.metadata.wf(),
        ensures
            final(self).wf(),
            final(self).view_map() == old(self).view_map().insert(region@, data_view(d)),
    {
        let ghost k = region@;
        let ghost dv = data_view(d);
        self.regions.insert(region, d);
        proof {
            assert forall|i: int| 0 <= i < self.regions@.len() implies (
            #[trigger] self.regions@[i]).1.metadata.wf() by {
                lemma_lookup_at(self.regions@, i);
                lemma_lookup_some(old(self).regions@, self.regions@[i].0);
            }
        }
        assert(self.view_map() =~= old(self).view_map().insert(k, dv));
    }

    /// Set a region's boxes, creating the region if needed.
    pub fn set_region_boxes(&mut self, region: String, boxes: Option<Vec<BoxPair>>)
        requires
            old(self).wf(),
        ensures
            final(self).wf(),
            final(self).view_map() == old(self).view_map().insert(
                region@,
                DataView {
                    boxes: match boxes {
                        Some(v) => Some(v@),
                        None => None,
                    },
                    meta: data_or_empty(old(self).view_map(), region@).meta,
                },
            ),
    {
        let ghost mid_before = self.view_map();
        let mut d = self.take_or_empty(&region);
        let ghost mid = self.view_map();
        d.boxes = boxes;
        let ghost dv = data_view(d);
        let ghost k = region@;
        self.put(region, d);
        proof {
            lemma_insert_after_remove(mid, mid_before, k, dv);
        }
    }

    /// Take a region's data out of the table (an empty entry when absent),
    /// leaving an empty entry in its place.
    fn take_or_empty(&mut self, region: &String) -> (r: EvaluatedRegionData)
        requires
            old(self).wf(),
        ensures
            final(self).wf(),
            r.metadata.wf(),
            data_view(r) == data_or_empty(old(self).view_map(), region@),
            final(self).view_map().remove(region@) == old(self).view_map().remove(region@),
    {
        match self.regions.index_of(region.as_str()) {
            Some(i) => {
                proof {
                    lemma_lookup_at(self.regions@, i as int);
                }
                let ghost ov = self.regions@;
                let d = self.regions.swap_value_at(i, EvaluatedRegionData::empty());
                proof {
                    assert forall|j: int| 0 <= j < self.regions@.len() implies (
                    #[trigger] self.regions@[j]).1.metadata.wf() by {
                        if j != i {
                            assert(self.regions@[j] == ov[j]);
                        }
                    }
                    assert(self.view_map().remove(region@) =~= old(self).view_map().remove(region@));
                }
                d
            },
            None => {
                proof {
                    crate::keymap::lemma_lookup_absent(self.regions@, region@);
                }
                EvaluatedRegionData::empty()
            },
        }
    }

    /// Add metadata to a region, creating the region without boxes if needed.
    /// An equal value already there is kept; a different one is a conflict.
    pub fn add_metadata(&mut self, region: String, key: String, assignment: MetadataAssignment) -> (r:
        Result<(), ParseError>)
        requires
            old(self).wf(),
        ensures
            final(self).wf(),
            add_metadata_result(old(self).view_map(), region@, key@, assignment, r, final(self).view_map()),
    {
        let ghost t = self.view_map();
        let mut d = self.take_or_empty(&region);
        let ghost mid = self.view_map();
        proof {
            lemma_lookup_some(d.metadata@, key@);
        }
        let existing = match d.metadata.get(key.as_str()) {
            Some(e) => Some(e.clone()),
            None => None,
        };
        match existing {
            Some(existing) => {
                if !existing.value.same_value(&assignment.value) {
                    let region_name = region.clone();
                    let ghost k = region@;
                    let ghost dv = data_view(d);
                    self.put(region, d);
                    proof {
                        lemma_insert_after_remove(mid, t, k, dv);
                        assert(meta_map(d.metadata@).contains_key(key@));
                        assert(data_or_empty(t, k).meta.contains_key(key@));
                        assert(t.contains_key(k));
                        assert(t.insert(k, t[k]) =~= t);
                    }
                    return Err(ParseError::MetadataConflict {
                        region: region_name,
                        key,
                        first_value: existing.value,
                        first_source: existing.source,
                        conflict_value: assignment.value,
                        conflict_source: assignment.source,
                    });
                }
                let ghost k = region@;
                let ghost dv = data_view(d);
                self.put(region, d);
                proof {
                    lemma_insert_after_remove(mid, t, k, dv);
                }
                Ok(())
            },
            None => {
                let ghost dm = d.metadata@;
                let ghost kv = key@;
                d.metadata.insert(key, assignment);
                assert(meta_map(d.metadata@) =~= meta_map(dm).insert(kv, (assignment.value@, assignment.source)));
                let ghost k = region@;
                let ghost dv = data_view(d);
                self.put(region, d);
                proof {
                    lemma_insert_after_remove(mid, t, k, dv);
                }
                Ok(())
            },
        }
    }
}

/// `r` and `t2` are what adding `key = a` to `region` of `t` gives: the table
/// of `assign_spec`, or a conflict error naming both values and sources.
pub open spec fn add_metadata_result(
    t: Map<Seq<char>, DataView>,
    region: Seq<char>,
    key: Seq<char>,
    a: MetadataAssignment,
    r: Result<(), ParseError>,
    t2: Map<Seq<char>, DataView>,
) -> bool {
    match assign_spec(t, region, key, a.value@, a.source) {
        Some(t3) => r is Ok && t2 == t3,
        None => r matches Err(
            ParseError::MetadataConflict {
                region: rg,
                key: k,
                first_value,
                first_source,
                conflict_value,
                conflict_source,
            },
        ) && rg@ == region && k@ == key && (first_value@, first_source) == data_or_empty(t, region).meta[key]
            && conflict_value == a.value && conflict_source == a.source && t2 == t,
    }
}

// ---------------------------------------------------------------------------
// Resolving targets
// ---------------------------------------------------------------------------

/// The key of the last geometry statement of unit `t`.
pub open spec fn last_geom_key(gs: Seq<GeomStmt>, t: usize) -> Option<Seq<char>>
    decreases gs.len(),
{
    if gs.len() == 0 {
        None
    } else if gs.last().tuple_idx == t {
        Some(geom_key(gs.last()))
    } else {
        last_geom_key(gs.drop_last(), t)
    }
}

/// Find the key of the last geometry statement in a given unit.
pub fn find_last_geometry_in_tuple(geom_stmts: &[GeomStmt], tuple_idx: usize) -> (r: Option<String>)
    ensures
        match r {
            Some(k) => last_geom_key(geom_stmts@, tuple_idx) == Some(k@),
            None => last_geom_key(geom_stmts@, tuple_idx) is None,
        },
{
    let mut last_region: Option<String> = None;
    let mut i: usize = 0;
    while i < geom_stmts.len()
        invariant
            0 <= i <= geom_stmts@.len(),
            match last_region {
                Some(k) => last_geom_key(geom_stmts@.subrange(0, i as int), tuple_idx) == Some(k@),
                None => last_geom_key(geom_stmts@.subrange(0, i as int), tuple_idx) is None,
            },
        decreases geom_stmts@.len() - i,
    {
        assert(geom_stmts@.subrange(0, i + 1).drop_last() =~= geom_stmts@.subrange(0, i as int));
        if geom_stmts[i].tuple_idx == tuple_idx {
            last_region = Some(geom_stmts[i].key());
        }
        i = i + 1;
    }
    assert(geom_stmts@.subrange(0, i as int) =~= geom_stmts@);
    last_region
}

/// Whether a target is a wildcard pattern: it holds a `*`.
pub fn is_wildcard_pattern(target: &str) -> (r: bool)
    ensures
        r == target@.contains('*'),
{
    let cs = chars_of(target);
    let mut i: usize = 0;
    while i < cs.len()
        invariant
            0 <= i <= cs@.len(),
            cs@ == target@,
            forall|j: int| 0 <= j < i ==> cs@[j] != '*',
        decreases cs@.len() - i,
    {
        if cs[i] == '*' {
            assert(target@[i as int] == '*');
            return true;
        }
        i = i + 1;
    }
    false
}

/// `p*` matches names starting with `p`; `*s` matches names ending with `s`;
/// a pattern without a leading or trailing `*` matches only itself.
pub open spec fn wildcard_match(name: Seq<char>, pattern: Seq<char>) -> bool {
    if pattern.len() > 0 && pattern.last() == '*' {
        let prefix = pattern.drop_last();
        prefix.len() <= name.len() && name.subrange(0, prefix.len() as int) == prefix
    } else if pattern.len() > 0 && pattern[0] == '*' {
        let suffix = pattern.drop_first();
        suffix.len() <= name.len() && name.subrange(name.len() - suffix.len(), name.len() as int)
            == suffix
    } else {
        name == pattern
    }
}

/// Whether a region name matches a wildcard pattern.
pub fn matches_wildcard(region_name: &str, pattern: &str) -> (r: bool)
    ensures
        r == wildcard_match(region_name@, pattern@),
{
    let name = chars_of(region_name);
    let pat = chars_of(pattern);
    let n = name.len();
    let p = pat.len();
    if p > 0 && pat[p - 1] == '*' {
        if p - 1 > n {
            return false;
        }
        let mut i: usize = 0;
        while i < p - 1
            invariant
                p == pat@.len(),
                n == name@.len(),
                pat@ == pattern@,
                name@ == region_name@,
                pat@[p - 1] == '*',
                p > 0,
                p - 1 <= n,
                0 <= i <= p - 1,
                forall|j: int| 0 <= j < i ==> name@[j] == pat@[j],
            decreases p - 1 - i,
        {
            if name[i] != pat[i] {
                assert(name@.subrange(0, p - 1)[i as int] != pat@.drop_last()[i as int]);
                assert(name@.subrange(0, p - 1) != pat@.drop_last());
                assert(pattern@.len() > 0 && pattern@.last() == '*');
                assert(pattern@.drop_last().len() == p - 1);
                assert(!wildcard_match(region_name@, pattern@));
                return false;
            }
            i = i + 1;
        }
        assert(name@.subrange(0, p - 1) =~= pat@.drop_last());
        true
    } else if p > 0 && pat[0] == '*' {
        if p - 1 > n {
            return false;
        }
        let off = n - (p - 1);
        let mut i: usize = 0;
        while i < p - 1
            invariant
                p == pat@.len(),
                n == name@.len(),
                pat@ == pattern@,
                name@ == region_name@,
                pat@[p - 1] != '*',
                pat@[0] == '*',
                p > 0,
                p - 1 <= n,
                off == n - (p - 1),
                0 <= i <= p - 1,
                forall|j: int| 0 <= j < i ==> name@.subrange(off as int, n as int)[j] == #[trigger] pat@.drop_first()[j],
            decreases p - 1 - i,
        {
            assert(name@.subrange(off as int, n as int)[i as int] == name@[off + i]);
            assert(pat@.drop_first()[i as int] == pat@[i + 1]);
            if name[off + i] != pat[i + 1] {
                assert(name@.subrange(off as int, n as int) != pat@.drop_first());
                assert(!(pattern@.len() > 0 && pattern@.last() == '*'));
                assert(pattern@.drop_first().len() == p - 1);
                assert(!wildcard_match(region_name@, pattern@));
                return false;
            }
            i = i + 1;
        }
        assert(name@.subrange(off as int, n as int) =~= pat@.drop_first());
        true
    } else {
        str_equal(region_name, pattern)
    }
}

// ---------------------------------------------------------------------------
// The metadata pass
// ---------------------------------------------------------------------------

/// Assign `key = value` to every region of `t` matching `pat` other than `pat`
/// itself; `None` when any of them conflicts.
pub open spec fn fan_out(
    t: Map<Seq<char>, DataView>,
    pat: Seq<char>,
    key: Seq<char>,
    value: Seq<char>,
    src: SourceLocation,
) -> Option<Map<Seq<char>, DataView>> {
    if exists|r: Seq<char>|
        t.contains_key(r) && wildcard_match(r, pat) && r != pat && #[trigger] conflicts(t, r, key, value) {
        None
    } else {
        Some(fan_map(t, |r: Seq<char>| true, pat, key, value, src))
    }
}

/// `t` with `key = value` assigned to the regions matching `pat` (other than
/// `pat`) that `chosen` selects.
pub open spec fn fan_map(
    t: Map<Seq<char>, DataView>,
    chosen: spec_fn(Seq<char>) -> bool,
    pat: Seq<char>,
    key: Seq<char>,
    value: Seq<char>,
    src: SourceLocation,
) -> Map<Seq<char>, DataView> {
    Map::new(
        |r: Seq<char>| t.contains_key(r),
        |r: Seq<char>|
            if chosen(r) && wildcard_match(r, pat) && r != pat {
                with_key(t[r], key, value, src)
            } else {
                t[r]
            },
    )
}

/// The effect of one metadata statement on the table, or `None` on an error.
pub open spec fn meta_step(t: Map<Seq<char>, DataView>, gs: Seq<GeomStmt>, m: MetaStmt) -> Option<
    Map<Seq<char>, DataView>,
> {
    let src = SourceLocation { tuple_idx: m.tuple_idx, stmt_idx: m.stmt_idx };
    match m.statement {
        MetadataStatement::Current { key, value } => match last_geom_key(gs, m.tuple_idx) {
            None => None,
            Some(target) => assign_spec(t, target, key@, value@, src),
        },
        MetadataStatement::Targeted { target, key, value } => if target@.contains('*') {
            match assign_spec(t, target@, key@, value@, src) {
                None => None,
                Some(t1) => fan_out(t1, target@, key@, value@, src),
            }
        } else {
            assign_spec(t, target@, key@, value@, src)
        },
    }
}

/// The table after the first `n` metadata statements, or `None` after an error.
pub open spec fn apply_meta_spec(
    t: Map<Seq<char>, DataView>,
    gs: Seq<GeomStmt>,
    ms: Seq<MetaStmt>,
    n: int,
) -> Option<Map<Seq<char>, DataView>>
    decreases n,
{
    if n <= 0 {
        Some(t)
    } else {
        match apply_meta_spec(t, gs, ms, n - 1) {
            None => None,
            Some(t1) => meta_step(t1, gs, ms[n - 1]),
        }
    }
}

/// Region `r` of `t` matches `pat`, is not `pat`, and conflicts with `key = value`.
pub open spec fn fan_conflict(
    t: Map<Seq<char>, DataView>,
    pat: Seq<char>,
    key: Seq<char>,
    value: Seq<char>,
    r: Seq<char>,
) -> bool {
    t.contains_key(r) && wildcard_match(r, pat) && r != pat && conflicts(t, r, key, value)
}

/// The first region in key order that conflicts in a fan-out.
pub open spec fn first_fan_conflict(
    t: Map<Seq<char>, DataView>,
    pat: Seq<char>,
    key: Seq<char>,
    value: Seq<char>,
) -> Seq<char> {
    choose|r: Seq<char>|
        fan_conflict(t, pat, key, value, r) && forall|r2: Seq<char>|
            #[trigger] fan_conflict(t, pat, key, value, r2) ==> !key_lt(r2, r)
}

/// Why a metadata statement fails.
pub enum MetaErr {
    /// A `#key=value` statement in a unit without geometry.
    NoCurrent(SourceLocation),
    /// Region, key, the value there and its source, the new value and its source.
    Conflict(Seq<char>, Seq<char>, Seq<char>, SourceLocation, Seq<char>, SourceLocation),
}

/// The conflict of assigning `key = value` (from `src`) to `region` of `t`.
pub open spec fn conflict_err(
    t: Map<Seq<char>, DataView>,
    region: Seq<char>,
    key: Seq<char>,
    value: Seq<char>,
    src: SourceLocation,
) -> MetaErr {
    let d = data_or_empty(t, region);
    MetaErr::Conflict(region, key, d.meta[key].0, d.meta[key].1, value, src)
}

/// The error of a metadata statement that `meta_step` rejects.
pub open spec fn step_err(t: Map<Seq<char>, DataView>, gs: Seq<GeomStmt>, m: MetaStmt) -> MetaErr {
    let src = SourceLocation { tuple_idx: m.tuple_idx, stmt_idx: m.stmt_idx };
    match m.statement {
        MetadataStatement::Current { key, value } => match last_geom_key(gs, m.tuple_idx) {
            None => MetaErr::NoCurrent(src),
            Some(target) => conflict_err(t, target, key@, value@, src),
        },
        MetadataStatement::Targeted { target, key, value } => if target@.contains('*') && !conflicts(
            t,
            target@,
            key@,
            value@,
        ) {
            let t1 = assign_spec(t, target@, key@, value@, src)->0;
            conflict_err(t1, first_fan_conflict(t1, target@, key@, value@), key@, value@, src)
        } else {
            conflict_err(t, target@, key@, value@, src)
        },
    }
}

/// The error of the first of the first `n` statements that fails.
pub open spec fn pass_err(t: Map<Seq<char>, DataView>, gs: Seq<GeomStmt>, ms: Seq<MetaStmt>, n: int) -> MetaErr
    decreases n,
{
    if n <= 0 {
        MetaErr::NoCurrent(SourceLocation { tuple_idx: 0, stmt_idx: 0 })
    } else {
        match apply_meta_spec(t, gs, ms, n - 1) {
            None => pass_err(t, gs, ms, n - 1),
            Some(t1) => step_err(t1, gs, ms[n - 1]),
        }
    }
}

/// `e` is the error that `d` describes.
pub open spec fn meta_err_is(e: ParseError, d: MetaErr) -> bool {
    match d {
        MetaErr::NoCurrent(src) => e matches ParseError::NoCurrentRegion { source } && source == src,
        MetaErr::Conflict(rg, k, fv, fs, cv, cs) => e matches ParseError::MetadataConflict {
            region,
            key,
            first_value,
            first_source,
            conflict_value,
            conflict_source,
        } && region@ == rg && key@ == k && first_value@ == fv && first_source == fs && conflict_value@
            == cv && conflict_source == cs,
    }
}

proof fn lemma_first_fan_conflict(
    t: Map<Seq<char>, DataView>,
    pat: Seq<char>,
    key: Seq<char>,
    value: Seq<char>,
    r: Seq<char>,
)
    requires
        fan_conflict(t, pat, key, value, r),
        forall|r2: Seq<char>| #[trigger] fan_conflict(t, pat, key, value, r2) ==> !key_lt(r2, r),
    ensures
        first_fan_conflict(t, pat, key, value) == r,
{
    let f = first_fan_conflict(t, pat, key, value);
    assert(fan_conflict(t, pat, key, value, f));
    crate::keymap::lemma_key_lt_trichotomy(f, r);
}

proof fn lemma_prefix_push_contains(ks: Seq<Seq<char>>, j: int, q: Seq<char>)
    requires
        0 <= j < ks.len(),
    ensures
        ks.subrange(0, j + 1).contains(q) <==> (ks.subrange(0, j).contains(q) || q == ks[j]),
{
    let a = ks.subrange(0, j);
    let b = ks.subrange(0, j + 1);
    assert(b =~= a.push(ks[j]));
    if b.contains(q) {
        let i = choose|i: int| 0 <= i < b.len() && #[trigger] b[i] == q;
        if i < j {
            assert(a[i] == q);
        }
    }
    if a.contains(q) {
        let i = choose|i: int| 0 <= i < a.len() && #[trigger] a[i] == q;
        assert(b[i] == q);
    }
    if q == ks[j] {
        assert(b[j] == q);
    }
}

impl EvaluatedRegionTable {
    /// Assign to every region matching `pattern` other than `pattern` itself.
    fn fan_out_metadata(&mut self, pattern: &String, key: &String, assignment: &MetadataAssignment) -> (r: Result<
        (),
        ParseError,
    >)
        requires
            old(self).wf(),
        ensures
            final(self).wf(),
            match fan_out(old(self).view_map(), pattern@, key@, assignment.value@, assignment.source) {
                Some(t2) => r is Ok && final(self).view_map() == t2,
                None => r matches Err(e) && meta_err_is(
                    e,
                    conflict_err(
                        old(self).view_map(),
                        first_fan_conflict(old(self).view_map(), pattern@, key@, assignment.value@),
                        key@,
                        assignment.value@,
                        assignment.source,
                    ),
                ),
            },
    {
        let ghost t1 = self.view_map();
        let ghost pat = pattern@;
        let ghost kk = key@;
        let ghost vv = assignment.value@;
        let ghost src = assignment.source;
        let keys = self.regions.keys();
        let ghost ks = keys@.map_values(|s: String| s@);
        proof {
            assert forall|q: Seq<char>| t1.contains_key(q) <==> ks.contains(q) by {
                lemma_lookup_some(self.regions@, q);
                if t1.contains_key(q) {
                    let i = choose|i: int| 0 <= i < self.regions@.len() && (#[trigger] self.regions@[i]).0 == q;
                    assert(ks[i] == q);
                }
                if ks.contains(q) {
                    let i = choose|i: int| 0 <= i < ks.len() && ks[i] == q;
                    assert(self.regions@[i].0 == q);
                }
            }
            assert(fan_map(t1, |r: Seq<char>| ks.subrange(0, 0).contains(r), pat, kk, vv, src) =~= t1);
            assert forall|a: int, b: int| 0 <= a < ks.len() && 0 <= b < ks.len() && a != b implies ks[a] != ks[b] by {
                assert(ks[a] == self.regions@[a].0);
                assert(ks[b] == self.regions@[b].0);
                crate::keymap::lemma_key_lt_irreflexive(ks[a]);
                if a < b {
                    assert(crate::keymap::key_lt(self.regions@[a].0, self.regions@[b].0));
                } else {
                    assert(crate::keymap::key_lt(self.regions@[b].0, self.regions@[a].0));
                }
            }
        }
        let mut j: usize = 0;
        while j < keys.len()
            invariant
                0 <= j <= keys@.len(),
                ks == keys@.map_values(|s: String| s@),
                ks.no_duplicates(),
                forall|a: int, b: int| 0 <= a < b < ks.len() ==> key_lt(#[trigger] ks[a], #[trigger] ks[b]),
                t1 == old(self).view_map(),
                forall|q: Seq<char>| t1.contains_key(q) <==> ks.contains(q),
                self.wf(),
                pat == pattern@,
                kk == key@,
                vv == assignment.value@,
                src == assignment.source,
                self.view_map() == fan_map(t1, |r: Seq<char>| ks.subrange(0, j as int).contains(r), pat, kk, vv, src),
                forall|i: int| 0 <= i < j && wildcard_match(ks[i], pat) && ks[i] != pat ==> !#[trigger] conflicts(t1, ks[i], kk, vv),
            decreases keys@.len() - j,
        {
            let ghost r = ks[j as int];
            let ghost before = self.view_map();
            proof {
                assert(keys@[j as int]@ == r);
                assert(!ks.subrange(0, j as int).contains(r)) by {
                    if ks.subrange(0, j as int).contains(r) {
                        let i = choose|i: int| 0 <= i < j && ks.subrange(0, j as int)[i] == r;
                        assert(ks[i] == ks[j as int]);
                    }
                }
                assert(ks.contains(r));
                assert(t1.contains_key(r));
                assert(before.contains_key(r) && before[r] == t1[r]);
                assert(data_or_empty(before, r) == t1[r]);
            }
            if matches_wildcard(keys[j].as_str(), pattern.as_str()) && !str_equal(keys[j].as_str(), pattern.as_str()) {
                let res = self.add_metadata(keys[j].clone(), key.clone(), assignment.clone());
                if res.is_err() {
                    proof {
                        assert(conflicts(t1, r, kk, vv));
                        assert(wildcard_match(r, pat) && r != pat);
                        assert(t1.contains_key(r) && wildcard_match(r, pat) && r != pat && conflicts(t1, r, kk, vv));
                        assert(fan_out(t1, pat, kk, vv, src) is None);
                        assert forall|r2: Seq<char>| #[trigger] fan_conflict(t1, pat, kk, vv, r2) implies !key_lt(r2, r) by {
                            if key_lt(r2, r) {
                                assert(ks.contains(r2));
                                let i = choose|i: int| 0 <= i < ks.len() && ks[i] == r2;
                                crate::keymap::lemma_key_lt_irreflexive(r);
                                if i > j {
                                    crate::keymap::lemma_key_lt_trichotomy(ks[j as int], ks[i]);
                                }
                                assert(i < j);
                                assert(!conflicts(t1, ks[i], kk, vv));
                            }
                        }
                        lemma_first_fan_conflict(t1, pat, kk, vv, r);
                        assert(data_or_empty(before, r) == data_or_empty(t1, r));
                    }
                    return Err(res.unwrap_err());
                }
                proof {
                    assert(!conflicts(t1, r, kk, vv));
                    assert(self.view_map() =~= fan_map(t1, |q: Seq<char>| ks.subrange(0, j + 1).contains(q), pat, kk, vv, src)) by {
                        assert forall|q: Seq<char>| ks.subrange(0, j + 1).contains(q) <==> (ks.subrange(0, j as int).contains(q) || q == r) by {
                            lemma_prefix_push_contains(ks, j as int, q);
                        }
                    }
                }
            } else {
                proof {
                    assert(self.view_map() =~= fan_map(t1, |q: Seq<char>| ks.subrange(0, j + 1).contains(q), pat, kk, vv, src)) by {
                        assert forall|q: Seq<char>| ks.subrange(0, j + 1).contains(q) <==> (ks.subrange(0, j as int).contains(q) || q == r) by {
                            lemma_prefix_push_contains(ks, j as int, q);
                        }
                    }
                }
            }
            j = j + 1;
        }
        proof {
            assert(ks.subrange(0, j as int) =~= ks);
            assert(self.view_map() =~= fan_map(t1, |r: Seq<char>| true, pat, kk, vv, src));
            assert(!exists|r: Seq<char>|
                t1.contains_key(r) && wildcard_match(r, pat) && r != pat && #[trigger] conflicts(t1, r, kk, vv)) by {
                if exists|r: Seq<char>|
                    t1.contains_key(r) && wildcard_match(r, pat) && r != pat && #[trigger] conflicts(t1, r, kk, vv) {
                    let r = choose|r: Seq<char>|
                        t1.contains_key(r) && wildcard_match(r, pat) && r != pat && #[trigger] conflicts(t1, r, kk, vv);
                    assert(ks.contains(r));
                }
            }
        }
        Ok(())
    }
}

/// `r` and `t2` are what `meta_step` gives for `m` on `t`; a current-region
/// statement in a unit without geometry fails with `NoCurrentRegion`.
pub open spec fn statement_applied(
    t: Map<Seq<char>, DataView>,
    gs: Seq<GeomStmt>,
    m: MetaStmt,
    r: Result<(), ParseError>,
    t2: Map<Seq<char>, DataView>,
) -> bool {
    &&& match meta_step(t, gs, m) {
        Some(t3) => r is Ok && t2 == t3,
        None => r matches Err(e) && meta_err_is(e, step_err(t, gs, m)),
    }
    &&& (m.statement is Current && last_geom_key(gs, m.tuple_idx) is None) ==> (r matches Err(
        ParseError::NoCurrentRegion { source },
    ) && source.tuple_idx == m.tuple_idx && source.stmt_idx == m.stmt_idx)
}

/// `r` and `t2` are what `apply_meta_spec` gives for all of `ms` on `t`.
pub open spec fn pass_applied(
    t: Map<Seq<char>, DataView>,
    gs: Seq<GeomStmt>,
    ms: Seq<MetaStmt>,
    r: Result<(), ParseError>,
    t2: Map<Seq<char>, DataView>,
) -> bool {
    match apply_meta_spec(t, gs, ms, ms.len() as int) {
        Some(t3) => r is Ok && t2 == t3,
        None => r matches Err(e) && meta_err_is(e, pass_err(t, gs, ms, ms.len() as int)),
    }
}

impl EvaluatedRegionTable {
    /// Apply one metadata statement.
    fn apply_statement(&mut self, geom_stmts: &[GeomStmt], meta_stmt: &MetaStmt) -> (r: Result<(), ParseError>)
        requires
            old(self).wf(),
        ensures
            final(self).wf(),
            statement_applied(old(self).view_map(), geom_stmts@, *meta_stmt, r, final(self).view_map()),
    {
        let source = SourceLocation::new(meta_stmt.tuple_idx, meta_stmt.stmt_idx);
        match &meta_stmt.statement {
            MetadataStatement::Current { key, value } => {
                match find_last_geometry_in_tuple(geom_stmts, meta_stmt.tuple_idx) {
                    None => Err(ParseError::NoCurrentRegion { source }),
                    Some(target) => {
                        let assignment = MetadataAssignment { value: value.clone(), source };
                        self.add_metadata(target, key.clone(), assignment)
                    },
                }
            },
            MetadataStatement::Targeted { target, key, value } => {
                let assignment = MetadataAssignment { value: value.clone(), source };
                if is_wildcard_pattern(target.as_str()) {
                    self.add_metadata(target.clone(), key.clone(), assignment.clone())?;
                    self.fan_out_metadata(target, key, &assignment)
                } else {
                    self.add_metadata(target.clone(), key.clone(), assignment)
                }
            },
        }
    }
}

/// Apply the metadata statements in order to the evaluated table. The first
/// failing statement stops the pass with its error.
pub fn apply_metadata_pass(
    evaluated_table: &mut EvaluatedRegionTable,
    geom_stmts: &[GeomStmt],
    meta_stmts: &[MetaStmt],
) -> (r: Result<(), ParseError>)
    requires
        old(evaluated_table).wf(),
    ensures
        final(evaluated_table).wf(),
        pass_applied(old(evaluated_table).view_map(), geom_stmts@, meta_stmts@, r, final(evaluated_table).view_map()),
{
    let mut i: usize = 0;
    while i < meta_stmts.len()
        invariant
            0 <= i <= meta_stmts@.len(),
            evaluated_table.wf(),
            apply_meta_spec(old(evaluated_table).view_map(), geom_stmts@, meta_stmts@, i as int) == Some(
                evaluated_table.view_map(),
            ),
        decreases meta_stmts@.len() - i,
    {
        let res = evaluated_table.apply_statement(geom_stmts, &meta_stmts[i]);
        if res.is_err() {
            proof {
                lemma_apply_stays_none(
                    old(evaluated_table).view_map(),
                    geom_stmts@,
                    meta_stmts@,
                    i + 1,
                    meta_stmts@.len() as int,
                );
                lemma_pass_err_stays(
                    old(evaluated_table).view_map(),
                    geom_stmts@,
                    meta_stmts@,
                    i + 1,
                    meta_stmts@.len() as int,
                );
            }
            return res;
        }
        i = i + 1;
    }
    Ok(())
}

proof fn lemma_pass_err_stays(
    t: Map<Seq<char>, DataView>,
    gs: Seq<GeomStmt>,
    ms: Seq<MetaStmt>,
    a: int,
    b: int,
)
    requires
        0 < a <= b,
        apply_meta_spec(t, gs, ms, a) is None,
    ensures
        pass_err(t, gs, ms, b) == pass_err(t, gs, ms, a),
    decreases b - a,
{
    if a < b {
        lemma_pass_err_stays(t, gs, ms, a, b - 1);
        lemma_apply_stays_none(t, gs, ms, a, b - 1);
    }
}

proof fn lemma_apply_stays_none(
    t: Map<Seq<char>, DataView>,
    gs: Seq<GeomStmt>,
    ms: Seq<MetaStmt>,
    a: int,
    b: int,
)
    requires
        0 < a <= b,
        apply_meta_spec(t, gs, ms, a) is None,
    ensures
        apply_meta_spec(t, gs, ms, b) is None,
    decreases b - a,
{
    if a < b {
        lemma_apply_stays_none(t, gs, ms, a, b - 1);
    }
}

/// Assigning the same value to the same region key a second time, from any
/// source, changes nothing: repeated assignment is the same as one.
pub proof fn lemma_assign_idempotent(
    t: Map<Seq<char>, DataView>,
    region: Seq<char>,
    key: Seq<char>,
    value: Seq<char>,
    src1: SourceLocation,
    src2: SourceLocation,
)
    requires
        assign_spec(t, region, key, value, src1) is Some,
    ensures
        assign_spec(assign_spec(t, region, key, value, src1)->0, region, key, value, src2)
            == assign_spec(t, region, key, value, src1),
{
    let t1 = assign_spec(t, region, key, value, src1)->0;
    let d1 = data_or_empty(t1, region);
    assert(t1.contains_key(region));
    assert(d1.meta.contains_key(key) && same_json(d1.meta[key].0, value));
    assert(t1.insert(region, d1) =~= t1);
}

} // verus!
