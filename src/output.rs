use vstd::prelude::*;
use crate::boxes::BoxPair;
use crate::error::SourceLocation;
use crate::json_value::JsonValue;
use crate::keymap::{key_lt, lemma_lookup_at, lemma_lookup_some, lookup, KeyMap};
use crate::metadata::{etable_map, meta_map, DataView, EvaluatedRegionData, EvaluatedRegionTable, MetadataAssignment};
use crate::text::{chars_of, str_equal};

verus! {

/// One region of the compiled output.
#[derive(Debug, PartialEq)]
pub struct DslEntry {
    /// The region's boxes; `None` for entries that carry metadata only
    pub bounding_boxes: Option<Vec<BoxPair>>,
    /// Metadata key to value
    pub metadata: KeyMap<JsonValue>,
}

/// The compiled output: region key to entry, in byte-wise key order.
pub type DslMap = KeyMap<DslEntry>;

/// An output entry as plain values.
pub struct EntryOut {
    pub boxes: Option<Seq<BoxPair>>,
    pub meta: Map<Seq<char>, Seq<char>>,
}

pub open spec fn json_map(es: Seq<(Seq<char>, JsonValue)>) -> Map<Seq<char>, Seq<char>> {
    Map::new(|k: Seq<char>| lookup(es, k) is Some, |k: Seq<char>| lookup(es, k)->0@)
}

pub open spec fn entry_out(e: DslEntry) -> EntryOut {
    EntryOut {
        boxes: match e.bounding_boxes {
            Some(v) => Some(v@),
            None => None,
        },
        meta: json_map(e.metadata@),
    }
}

/// The output as a map from keys to entries.
pub open spec fn dsl_view(es: Seq<(Seq<char>, DslEntry)>) -> Map<Seq<char>, EntryOut> {
    Map::new(|k: Seq<char>| lookup(es, k) is Some, |k: Seq<char>| entry_out(lookup(es, k)->0))
}

/// Keys synthesized for anonymous regions start with `__anon_`.
pub open spec fn is_anon_key(k: Seq<char>) -> bool {
    "__anon_"@.len() <= k.len() && k.subrange(0, "__anon_"@.len() as int) == "__anon_"@
}

/// The output entry of a region's data: its boxes and its metadata values.
pub open spec fn out_of(d: DataView) -> EntryOut {
    EntryOut { boxes: d.boxes, meta: d.meta.map_values(|p: (Seq<char>, SourceLocation)| p.0) }
}

/// The final output of an evaluated table: every region except anonymous
/// regions without metadata.
pub open spec fn shape_spec(t: Map<Seq<char>, DataView>) -> Map<Seq<char>, EntryOut> {
    Map::new(
        |k: Seq<char>| t.contains_key(k) && !(is_anon_key(k) && t[k].meta.dom() == Set::<Seq<char>>::empty()),
        |k: Seq<char>| out_of(t[k]),
    )
}

/// An anonymous region appears in the output exactly when it has metadata.
pub proof fn lemma_anonymous_elision(t: Map<Seq<char>, DataView>, k: Seq<char>)
    requires
        t.contains_key(k),
        is_anon_key(k),
    ensures
        shape_spec(t).contains_key(k) <==> t[k].meta.dom() != Set::<Seq<char>>::empty(),
{
}

/// Whether a key starts with `__anon_`.
pub fn is_anonymous_key(k: &str) -> (r: bool)
    ensures
        r == is_anon_key(k@),
{
    let cs = chars_of(k);
    let p = chars_of("__anon_");
    if p.len() > cs.len() {
        return false;
    }
    let mut i: usize = 0;
    while i < p.len()
        invariant
            0 <= i <= p@.len(),
            p@.len() <= cs@.len(),
            cs@ == k@,
            p@ == "__anon_"@,
            forall|j: int| 0 <= j < i ==> cs@[j] == p@[j],
        decreases p@.len() - i,
    {
        if cs[i] != p[i] {
            assert(cs@.subrange(0, p@.len() as int)[i as int] != p@[i as int]);
            return false;
        }
        i = i + 1;
    }
    assert(cs@.subrange(0, p@.len() as int) =~= p@);
    true
}

proof fn lemma_lookup_project(es: Seq<(Seq<char>, MetadataAssignment)>, js: Seq<(Seq<char>, JsonValue)>, k: Seq<char>)
    requires
        es.len() == js.len(),
        forall|j: int| 0 <= j < es.len() ==> (#[trigger] js[j]).0 == es[j].0 && js[j].1 == es[j].1.value,
    ensures
        lookup(js, k) is Some <==> lookup(es, k) is Some,
        lookup(js, k) is Some ==> lookup(js, k)->0 == lookup(es, k)->0.value,
    decreases es.len(),
{
    if es.len() > 0 {
        assert(js.last() == js[js.len() - 1]);
        assert forall|j: int| 0 <= j < es.drop_last().len() implies (#[trigger] js.drop_last()[j]).0
            == es.drop_last()[j].0 && js.drop_last()[j].1 == es.drop_last()[j].1.value by {
            assert(js.drop_last()[j] == js[j]);
        }
        lemma_lookup_project(es.drop_last(), js.drop_last(), k);
    }
}

/// The metadata values of an assignment map, in the same key order.
fn metadata_values(m: &KeyMap<MetadataAssignment>) -> (r: KeyMap<JsonValue>)
    requires
        m.wf(),
    ensures
        r.wf(),
        json_map(r@) == meta_map(m@).map_values(|p: (Seq<char>, SourceLocation)| p.0),
{
    let mut out: KeyMap<JsonValue> = KeyMap::new();
    let mut i: usize = 0;
    while i < m.len()
        invariant
            0 <= i <= m@.len(),
            m.wf(),
            out.wf(),
            out@.len() == i,
            forall|j: int| 0 <= j < i ==> (#[trigger] out@[j]).0 == m@[j].0 && out@[j].1 == m@[j].1.value,
        decreases m@.len() - i,
    {
        let k = m.key_at(i).clone();
        let v = m.value_at(i).value.clone();
        proof {
            assert forall|j: int| 0 <= j < out@.len() implies key_lt(#[trigger] out@[j].0, k@) by {
                assert(out@[j].0 == m@[j].0);
            }
        }
        let ghost before = out@;
        out.push_last(k, v);
        proof {
            assert forall|j: int| 0 <= j < i + 1 implies (#[trigger] out@[j]).0 == m@[j].0 && out@[j].1
                == m@[j].1.value by {
                if j < i {
                    assert(out@[j] == before[j]);
                }
            }
        }
        i = i + 1;
    }
    proof {
        assert forall|k: Seq<char>| #[trigger] json_map(out@).contains_key(k) == meta_map(m@).contains_key(k) by {
            lemma_lookup_project(m@, out@, k);
        }
        assert forall|k: Seq<char>| json_map(out@).contains_key(k) implies #[trigger] json_map(out@)[k]
            == meta_map(m@).map_values(|p: (Seq<char>, SourceLocation)| p.0)[k] by {
            lemma_lookup_project(m@, out@, k);
        }
        assert(json_map(out@) =~= meta_map(m@).map_values(|p: (Seq<char>, SourceLocation)| p.0));
    }
    out
}

/// The first `i` entries of `es` that are kept in the output, as a map.
pub open spec fn shaped_prefix(es: Seq<(Seq<char>, EvaluatedRegionData)>, i: int) -> Map<Seq<char>, EntryOut> {
    Map::new(
        |k: Seq<char>|
            exists|j: int| 0 <= j < i && (#[trigger] es[j]).0 == k && shape_spec(etable_map(es)).contains_key(k),
        |k: Seq<char>| out_of(etable_map(es)[k]),
    )
}

/// Convert the evaluated table to the output: each region's boxes and
/// metadata values, leaving out anonymous regions without metadata.
pub fn build_dsl_map(evaluated_table: EvaluatedRegionTable) -> (r: DslMap)
    requires
        evaluated_table.wf(),
    ensures
        r.wf(),
        dsl_view(r@) == shape_spec(evaluated_table.view_map()),
{
    let ghost es = evaluated_table.regions@;
    let ghost t = evaluated_table.view_map();
    let mut out: DslMap = KeyMap::new();
    let n = evaluated_table.regions.len();
    proof {
        assert(dsl_view(out@) =~= shaped_prefix(es, 0));
    }
    let mut i: usize = 0;
    while i < n
        invariant
            0 <= i <= n,
            n == es.len(),
            es == evaluated_table.regions@,
            t == etable_map(es),
            evaluated_table.wf(),
            out.wf(),
            forall|j: int| 0 <= j < out@.len() ==> exists|m: int| 0 <= m < i && (#[trigger] out@[j]).0 == #[trigger] es[m].0,
            dsl_view(out@) == shaped_prefix(es, i as int),
        decreases n - i,
    {
        let key = evaluated_table.regions.key_at(i);
        let data = evaluated_table.regions.value_at(i);
        proof {
            lemma_lookup_at(es, i as int);
        }
        let metadata = metadata_values(&data.metadata);
        proof {
            lemma_lookup_some(data.metadata@, Seq::empty());
            if data.metadata@.len() > 0 {
                lemma_lookup_at(data.metadata@, 0);
                assert(meta_map(data.metadata@).contains_key(data.metadata@[0].0));
            } else {
                assert forall|q: Seq<char>| !meta_map(data.metadata@).contains_key(q) by {
                    lemma_lookup_some(data.metadata@, q);
                }
            }
            assert((data.metadata@.len() == 0) == (meta_map(data.metadata@).dom() =~= Set::<Seq<char>>::empty()));
        }
        let ghost before = out@;
        if is_anonymous_key(key.as_str()) && data.metadata.is_empty() {
            proof {
                assert(!shape_spec(t).contains_key(key@));
                assert(shaped_prefix(es, i + 1) =~= shaped_prefix(es, i as int)) by {
                    assert forall|k: Seq<char>| #[trigger] shaped_prefix(es, i + 1).contains_key(k) implies shaped_prefix(es, i as int).contains_key(k) by {
                        let j = choose|j: int| 0 <= j < i + 1 && (#[trigger] es[j]).0 == k && shape_spec(etable_map(es)).contains_key(k);
                        assert(j < i);
                    }
                    assert forall|k: Seq<char>| #[trigger] shaped_prefix(es, i as int).contains_key(k) implies shaped_prefix(es, i + 1).contains_key(k) by {
                        let j = choose|j: int| 0 <= j < i && (#[trigger] es[j]).0 == k && shape_spec(etable_map(es)).contains_key(k);
                        assert(0 <= j < i + 1);
                    }
                }
            }
        } else {
            let boxes = match &data.boxes {
                Some(v) => Some(crate::ir::copy_boxes(v)),
                None => None,
            };
            let entry = DslEntry { bounding_boxes: boxes, metadata };
            proof {
                assert forall|j: int| 0 <= j < out@.len() implies key_lt(#[trigger] out@[j].0, key@) by {
                    let m = choose|m: int| 0 <= m < i && out@[j].0 == #[trigger] es[m].0;
                }
            }
            let ghost ev = entry_out(entry);
            out.push_last(key.clone(), entry);
            proof {
                assert(shape_spec(t).contains_key(key@));
                assert(ev == out_of(t[key@]));
                assert forall|q: Seq<char>| #[trigger] lookup(out@, q) == lookup(before.push((key@, entry)), q) by {
                }
                assert forall|q: Seq<char>| #[trigger] lookup(out@, q) == (if key@ == q { Some(entry) } else { lookup(before, q) }) by {
                    crate::keymap::lemma_lookup_push(before, (key@, entry), q);
                }
                assert(dsl_view(out@) =~= dsl_view(before).insert(key@, ev));
                assert(shaped_prefix(es, i + 1) =~= shaped_prefix(es, i as int).insert(key@, ev)) by {
                    assert forall|k: Seq<char>| #[trigger] shaped_prefix(es, i + 1).contains_key(k) implies shaped_prefix(es, i as int).insert(key@, ev).contains_key(k) by {
                        let j = choose|j: int| 0 <= j < i + 1 && (#[trigger] es[j]).0 == k && shape_spec(etable_map(es)).contains_key(k);
                        if j < i {
                        }
                    }
                    assert forall|k: Seq<char>| #[trigger] shaped_prefix(es, i as int).insert(key@, ev).contains_key(k) implies shaped_prefix(es, i + 1).contains_key(k) by {
                        if k != key@ {
                            let j = choose|j: int| 0 <= j < i && (#[trigger] es[j]).0 == k && shape_spec(etable_map(es)).contains_key(k);
                            assert(0 <= j < i + 1);
                        } else {
                            assert(es[i as int].0 == k);
                        }
                    }
                }
                assert forall|j: int| 0 <= j < out@.len() implies exists|m: int| 0 <= m < i + 1 && (#[trigger] out@[j]).0 == #[trigger] es[m].0 by {
                    if j < before.len() {
                        assert(out@[j] == before[j]);
                        let m = choose|m: int| 0 <= m < i && before[j].0 == #[trigger] es[m].0;
                        assert(0 <= m < i + 1);
                    } else {
                        assert(out@[j].0 == es[i as int].0);
                    }
                }
            }
        }
        i = i + 1;
    }
    proof {
        assert(shaped_prefix(es, n as int) =~= shape_spec(t)) by {
            assert forall|k: Seq<char>| #[trigger] shape_spec(t).contains_key(k) implies shaped_prefix(es, n as int).contains_key(k) by {
                lemma_lookup_some(es, k);
                let j = choose|j: int| 0 <= j < es.len() && (#[trigger] es[j]).0 == k;
            }
        }
    }
    out
}

/// Whether an output entry is kept: not an anonymous region without metadata.
pub open spec fn kept(k: Seq<char>, e: EntryOut) -> bool {
    !(is_anon_key(k) && e.meta.dom() == Set::<Seq<char>>::empty())
}

/// The entries of `es` among the first `i` that are kept, as a map.
pub open spec fn kept_prefix(es: Seq<(Seq<char>, DslEntry)>, i: int) -> Map<Seq<char>, EntryOut> {
    Map::new(
        |k: Seq<char>|
            exists|j: int| 0 <= j < i && (#[trigger] es[j]).0 == k && kept(k, dsl_view(es)[k]),
        |k: Seq<char>| dsl_view(es)[k],
    )
}

impl DslEntry {
    fn placeholder() -> (r: Self) {
        DslEntry { bounding_boxes: None, metadata: KeyMap::new() }
    }
}

/// Leave out anonymous regions without metadata.
pub fn shape_final_output(dsl_map: DslMap) -> (r: DslMap)
    requires
        dsl_map.wf(),
    ensures
        r.wf(),
        dsl_view(r@) == kept_prefix(dsl_map@, dsl_map@.len() as int),
{
    let ghost es = dsl_map@;
    let mut src = dsl_map;
    let mut out: DslMap = KeyMap::new();
    let n = src.len();
    proof {
        assert(dsl_view(out@) =~= kept_prefix(es, 0));
    }
    let mut i: usize = 0;
    while i < n
        invariant
            0 <= i <= n,
            n == src@.len(),
            n == es.len(),
            crate::keymap::sorted_keys(es),
            src.wf(),
            forall|j: int| 0 <= j < n ==> (#[trigger] src@[j]).0 == es[j].0,
            forall|j: int| i <= j < n ==> (#[trigger] src@[j]) == es[j],
            out.wf(),
            forall|j: int| 0 <= j < out@.len() ==> exists|m: int| 0 <= m < i && (#[trigger] out@[j]).0 == #[trigger] es[m].0,
            dsl_view(out@) == kept_prefix(es, i as int),
        decreases n - i,
    {
        let key = src.key_at(i).clone();
        let ghost before_src = src@;
        let entry = src.swap_value_at(i, DslEntry::placeholder());
        proof {
            assert(entry == es[i as int].1);
            lemma_lookup_at(es, i as int);
            assert forall|j: int| 0 <= j < n implies (#[trigger] src@[j]).0 == es[j].0 by {
                if j != i {
                    assert(src@[j] == before_src[j]);
                }
            }
            assert forall|j: int| i + 1 <= j < n implies (#[trigger] src@[j]) == es[j] by {
                assert(src@[j] == before_src[j]);
            }
            if entry.metadata@.len() > 0 {
                lemma_lookup_at_any(entry.metadata@, 0);
                assert(json_map(entry.metadata@).contains_key(entry.metadata@[0].0));
            } else {
                assert forall|q: Seq<char>| !json_map(entry.metadata@).contains_key(q) by {
                    lemma_lookup_none_empty(entry.metadata@, q);
                }
            }
            assert((entry.metadata@.len() == 0) == (json_map(entry.metadata@).dom() =~= Set::<Seq<char>>::empty()));
        }
        let ghost before = out@;
        if is_anonymous_key(key.as_str()) && entry.metadata.is_empty() {
            proof {
                assert(!kept(key@, dsl_view(es)[key@]));
                assert(kept_prefix(es, i + 1) =~= kept_prefix(es, i as int)) by {
                    assert forall|k: Seq<char>| #[trigger] kept_prefix(es, i + 1).contains_key(k) implies kept_prefix(es, i as int).contains_key(k) by {
                        let j = choose|j: int| 0 <= j < i + 1 && (#[trigger] es[j]).0 == k && kept(k, dsl_view(es)[k]);
                        assert(j < i);
                    }
                    assert forall|k: Seq<char>| #[trigger] kept_prefix(es, i as int).contains_key(k) implies kept_prefix(es, i + 1).contains_key(k) by {
                        let j = choose|j: int| 0 <= j < i && (#[trigger] es[j]).0 == k && kept(k, dsl_view(es)[k]);
                        assert(0 <= j < i + 1);
                    }
                }
            }
        } else {
            proof {
                assert forall|j: int| 0 <= j < out@.len() implies key_lt(#[trigger] out@[j].0, key@) by {
                    let m = choose|m: int| 0 <= m < i && out@[j].0 == #[trigger] es[m].0;
                }
            }
            let ghost ev = entry_out(entry);
            out.push_last(key, entry);
            proof {
                assert(kept(es[i as int].0, dsl_view(es)[es[i as int].0]));
                assert forall|q: Seq<char>| #[trigger] lookup(out@, q) == (if key@ == q { Some(entry) } else { lookup(before, q) }) by {
                    crate::keymap::lemma_lookup_push(before, (key@, entry), q);
                }
                assert(dsl_view(out@) =~= dsl_view(before).insert(es[i as int].0, ev));
                assert(kept_prefix(es, i + 1) =~= kept_prefix(es, i as int).insert(es[i as int].0, ev)) by {
                    assert forall|k: Seq<char>| #[trigger] kept_prefix(es, i as int).insert(es[i as int].0, ev).contains_key(k) implies kept_prefix(es, i + 1).contains_key(k) by {
                        if k != es[i as int].0 {
                            let j = choose|j: int| 0 <= j < i && (#[trigger] es[j]).0 == k && kept(k, dsl_view(es)[k]);
                            assert(0 <= j < i + 1);
                        }
                    }
                }
                assert forall|j: int| 0 <= j < out@.len() implies exists|m: int| 0 <= m < i + 1 && (#[trigger] out@[j]).0 == #[trigger] es[m].0 by {
                    if j < before.len() {
                        assert(out@[j] == before[j]);
                        let m = choose|m: int| 0 <= m < i && before[j].0 == #[trigger] es[m].0;
                        assert(0 <= m < i + 1);
                    } else {
                        assert(out@[j].0 == es[i as int].0);
                    }
                }
            }
        }
        i = i + 1;
    }
    out
}

proof fn lemma_lookup_at_any<V>(es: Seq<(Seq<char>, V)>, i: int)
    requires
        0 <= i < es.len(),
    ensures
        lookup(es, es[i].0) is Some,
    decreases es.len(),
{
    if es.last().0 != es[i].0 {
        assert(i < es.len() - 1);
        assert(es.drop_last()[i] == es[i]);
        lemma_lookup_at_any(es.drop_last(), i);
    }
}

proof fn lemma_lookup_none_empty<V>(es: Seq<(Seq<char>, V)>, q: Seq<char>)
    requires
        es.len() == 0,
    ensures
        lookup(es, q) is None,
{
}

/// The output is already in key order; ordering is a function of the keys alone.
pub fn apply_deterministic_ordering(dsl_map: DslMap) -> (r: DslMap)
    requires
        dsl_map.wf(),
    ensures
        r@ == dsl_map@,
        r.wf(),
{
    dsl_map
}

/// Categories of region keys.
#[derive(Debug, Clone, PartialEq, Eq, PartialOrd, Ord)]
pub enum RegionCategory {
    /// `$global`
    Global,
    /// Wildcard patterns (holding `*`)
    Wildcard(String),
    /// Named regions
    Region(String),
    /// Anonymous regions
    Anonymous(String),
}

impl RegionCategory {
    /// The category of a region key.
    pub fn from_region_name(name: &str) -> (r: Self)
        ensures
            name@ == "$global"@ ==> r is Global,
            name@ != "$global"@ && name@.contains('*') ==> (r matches RegionCategory::Wildcard(n)
                && n@ == name@),
            name@ != "$global"@ && !name@.contains('*') && is_anon_key(name@) ==> (
            r matches RegionCategory::Anonymous(n) && n@ == name@),
            name@ != "$global"@ && !name@.contains('*') && !is_anon_key(name@) ==> (
            r matches RegionCategory::Region(n) && n@ == name@),
    {
        if str_equal(name, "$global") {
            RegionCategory::Global
        } else if crate::metadata::is_wildcard_pattern(name) {
            RegionCategory::Wildcard(name.to_owned())
        } else if is_anonymous_key(name) {
            RegionCategory::Anonymous(name.to_owned())
        } else {
            RegionCategory::Region(name.to_owned())
        }
    }
}

} // verus!
