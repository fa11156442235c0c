use vstd::prelude::*;
use crate::boxes::{BoxPair, Vec3};
use crate::error::{Error, ParseError};
use crate::eval::{agrees, evaluate_geometry, first_failing, lemma_first_failing, region_value, EvalError};
use crate::ir::{asm_err, asm_err_is, AsmErr};
use crate::keymap::key_lt;
use crate::metadata::{meta_err_is, pass_err, MetaErr};
use crate::geom_parser::{statement_ok, GeometryParser};
use crate::ir::{assemble_region_table, assemble_spec, EntryView, GeomStmt};
use crate::keymap::{lemma_lookup_some, KeyMap};
use crate::geom_grammar::{geom_outcome, geom_spec, stmt_view, StmtOutcome, StmtView};
use crate::lexer::{filter_comments, filter_comments_spec, slice_texts, split_statements};
use crate::meta_parser::{meta_spec, meta_view, MetaView};
use crate::split::split_spec;
use crate::text::trim_spec;
use crate::meta_parser::{meta_statement_ok, MetadataParser};
use crate::metadata::{apply_meta_spec, apply_metadata_pass, DataView, EvaluatedRegionTable, MetaStmt};
use crate::output::{build_dsl_map, dsl_view, kept_prefix, shape_final_output, shape_spec, DslMap, EntryOut};
use crate::text::{chars_of, string_from_chars, trim_chars};

verus! {

/// Every region of the table evaluates without error.
pub open spec fn all_regions_evaluate(m: Map<Seq<char>, EntryView>) -> bool {
    forall|k: Seq<char>| m.contains_key(k) ==> (#[trigger] region_value(m, k)) is Ok
}

/// The evaluated table before metadata: every region with its boxes and no metadata.
pub open spec fn boxes_table(m: Map<Seq<char>, EntryView>) -> Map<Seq<char>, DataView> {
    Map::new(
        |k: Seq<char>| m.contains_key(k),
        |k: Seq<char>| DataView { boxes: Some(region_value(m, k)->Ok_0), meta: Map::empty() },
    )
}

/// The output compiled from parsed statements: assemble the region table,
/// evaluate every region, apply the metadata, shape the result; `None` when
/// any stage fails.
pub open spec fn compile_from(gs: Seq<GeomStmt>, ms: Seq<MetaStmt>, units: Seq<(Vec3, String)>) -> Option<
    Map<Seq<char>, EntryOut>,
> {
    match assemble_spec(gs, units, gs.len() as int) {
        None => None,
        Some(m) => if !all_regions_evaluate(m) {
            None
        } else {
            match apply_meta_spec(boxes_table(m), gs, ms, ms.len() as int) {
                None => None,
                Some(t) => Some(shape_spec(t)),
            }
        },
    }
}

/// Why compiling parsed statements fails: at assembly, at evaluation (the
/// error of the first failing region in key order), or in the metadata pass.
pub enum CompileErr {
    Assembly(AsmErr),
    Evaluation(EvalError),
    Metadata(MetaErr),
}

/// The error of compiling parsed statements, when `compile_from` gives none.
pub open spec fn compile_err(gs: Seq<GeomStmt>, ms: Seq<MetaStmt>, units: Seq<(Vec3, String)>) -> CompileErr {
    match assemble_spec(gs, units, gs.len() as int) {
        None => CompileErr::Assembly(asm_err(gs, units, gs.len() as int)),
        Some(m) => if !all_regions_evaluate(m) {
            CompileErr::Evaluation(region_value(m, first_failing(m))->Err_0)
        } else {
            CompileErr::Metadata(pass_err(boxes_table(m), gs, ms, ms.len() as int))
        },
    }
}

/// `e` is the error that `d` describes.
pub open spec fn compile_err_is(e: ParseError, d: CompileErr) -> bool {
    match d {
        CompileErr::Assembly(a) => asm_err_is(e, a),
        CompileErr::Evaluation(x) => agrees(Err(e), Err(x)),
        CompileErr::Metadata(x) => meta_err_is(e, x),
    }
}

/// The output when it is `Ok`, otherwise `None`.
pub open spec fn output_of(r: Result<DslMap, ParseError>) -> Option<Map<Seq<char>, EntryOut>> {
    match r {
        Ok(m) => Some(dsl_view(m@)),
        Err(_) => None,
    }
}

/// Compile parsed statements: the geometry statements in order, the metadata
/// statements in order, and the placement units for their anchors.
pub fn compile_statements(
    geom_stmts: &Vec<GeomStmt>,
    meta_stmts: &Vec<MetaStmt>,
    units: &[(Vec3, String)],
) -> (r: Result<DslMap, ParseError>)
    ensures
        output_of(r) == compile_from(geom_stmts@, meta_stmts@, units@),
        r matches Ok(m) ==> m.wf(),
        r matches Err(e) ==> compile_err_is(e, compile_err(geom_stmts@, meta_stmts@, units@)),
{
    let region_table = assemble_region_table(geom_stmts, units)?;
    let ghost m = region_table.view_map();
    let evaluated_boxes = match evaluate_geometry(&region_table) {
        Ok(b) => b,
        Err(e) => {
            proof {
                let es = region_table.regions@;
                let i = choose|i: int|
                    0 <= i < es.len() && crate::eval::agrees(
                        Err(e),
                        region_value(m, #[trigger] es[i].0),
                    ) && forall|j: int| 0 <= j < i ==> region_value(m, #[trigger] es[j].0) is Ok;
                let k = es[i].0;
                lemma_lookup_some(es, k);
                assert(m.contains_key(k));
                assert(region_value(m, k) is Err);
                assert(!all_regions_evaluate(m));
                assert forall|k2: Seq<char>| m.contains_key(k2) && #[trigger] key_lt(k2, k) implies region_value(m, k2) is Ok by {
                    lemma_lookup_some(es, k2);
                    let j = choose|j: int| 0 <= j < es.len() && (#[trigger] es[j]).0 == k2;
                    crate::keymap::lemma_key_lt_irreflexive(k);
                    if j > i {
                        assert(key_lt(es[i].0, es[j].0));
                        crate::keymap::lemma_key_lt_trichotomy(k, k2);
                    }
                    assert(j < i);
                }
                lemma_first_failing(m, k);
            }
            return Err(e);
        },
    };
    proof {
        assert forall|k: Seq<char>| m.contains_key(k) implies (#[trigger] region_value(m, k)) is Ok by {
            lemma_lookup_some(region_table.regions@, k);
            let i = choose|i: int| 0 <= i < region_table.regions@.len() && (#[trigger] region_table.regions@[i]).0 == k;
            assert(evaluated_boxes@[i].0 == k);
        }
    }
    let mut evaluated_table = EvaluatedRegionTable::new();
    let n = evaluated_boxes.len();
    let mut i: usize = 0;
    while i < n
        invariant
            0 <= i <= n,
            n == evaluated_boxes@.len(),
            n == region_table.regions@.len(),
            m == region_table.view_map(),
            region_table.wf(),
            forall|j: int|
                0 <= j < n ==> (#[trigger] evaluated_boxes@[j]).0 == region_table.regions@[j].0 && region_value(
                    m,
                    evaluated_boxes@[j].0,
                ) == Ok::<Seq<BoxPair>, EvalError>(evaluated_boxes@[j].1@),
            evaluated_table.wf(),
            evaluated_table.view_map() == Map::new(
                |k: Seq<char>| exists|j: int| 0 <= j < i && (#[trigger] evaluated_boxes@[j]).0 == k,
                |k: Seq<char>| boxes_table(m)[k],
            ),
        decreases n - i,
    {
        let name = evaluated_boxes.key_at(i).clone();
        let src = evaluated_boxes.value_at(i);
        let mut boxes: Vec<BoxPair> = Vec::new();
        let mut k: usize = 0;
        while k < src.len()
            invariant
                0 <= k <= src@.len(),
                boxes@ == src@.subrange(0, k as int),
            decreases src@.len() - k,
        {
            boxes.push(src[k]);
            assert(boxes@ =~= src@.subrange(0, k + 1));
            k = k + 1;
        }
        assert(boxes@ =~= src@);
        let ghost before = evaluated_table.view_map();
        evaluated_table.set_region_boxes(name, Some(boxes));
        proof {
            let kn = evaluated_boxes@[i as int].0;
            lemma_lookup_some(region_table.regions@, kn);
            crate::keymap::lemma_lookup_at(region_table.regions@, i as int);
            assert(m.contains_key(kn));
            let target = Map::new(
                |k: Seq<char>| exists|j: int| 0 <= j < i + 1 && (#[trigger] evaluated_boxes@[j]).0 == k,
                |k: Seq<char>| boxes_table(m)[k],
            );
            assert(crate::metadata::data_or_empty(before, kn).meta == Map::<Seq<char>, (Seq<char>, crate::error::SourceLocation)>::empty()) by {
                if before.contains_key(kn) {
                    let j = choose|j: int| 0 <= j < i && (#[trigger] evaluated_boxes@[j]).0 == kn;
                    assert(boxes_table(m)[kn].meta == Map::<Seq<char>, (Seq<char>, crate::error::SourceLocation)>::empty());
                }
            }
            assert forall|k: Seq<char>| #[trigger] evaluated_table.view_map().contains_key(k) == target.contains_key(k) by {
                if target.contains_key(k) && k != kn {
                    let j = choose|j: int| 0 <= j < i + 1 && (#[trigger] evaluated_boxes@[j]).0 == k;
                    assert(j < i);
                }
                if before.contains_key(k) {
                    let j = choose|j: int| 0 <= j < i && (#[trigger] evaluated_boxes@[j]).0 == k;
                    assert(0 <= j < i + 1);
                }
                if k == kn {
                    assert(evaluated_boxes@[i as int].0 == k);
                }
            }
            assert(evaluated_table.view_map() =~= target);
        }
        i = i + 1;
    }
    proof {
        assert(evaluated_table.view_map() =~= boxes_table(m)) by {
            assert forall|k: Seq<char>| #[trigger] boxes_table(m).contains_key(k) implies evaluated_table.view_map().contains_key(k) by {
                lemma_lookup_some(region_table.regions@, k);
                let j = choose|j: int| 0 <= j < region_table.regions@.len() && (#[trigger] region_table.regions@[j]).0 == k;
                assert(evaluated_boxes@[j].0 == k);
            }
            assert forall|k: Seq<char>| #[trigger] evaluated_table.view_map().contains_key(k) implies boxes_table(m).contains_key(k) by {
                let j = choose|j: int| 0 <= j < i && (#[trigger] evaluated_boxes@[j]).0 == k;
                crate::keymap::lemma_lookup_at(region_table.regions@, j);
            }
        }
    }
    match apply_metadata_pass(&mut evaluated_table, geom_stmts.as_slice(), meta_stmts.as_slice()) {
        Ok(()) => {},
        Err(e) => {
            return Err(e);
        },
    }
    let ghost t = evaluated_table.view_map();
    let dsl_map = build_dsl_map(evaluated_table);
    let final_map = shape_final_output(dsl_map);
    proof {
        assert(kept_prefix(dsl_map@, dsl_map@.len() as int) =~= dsl_view(dsl_map@)) by {
            assert forall|k: Seq<char>| #[trigger] dsl_view(dsl_map@).contains_key(k) implies kept_prefix(dsl_map@, dsl_map@.len() as int).contains_key(k) by {
                lemma_lookup_some(dsl_map@, k);
                let j = choose|j: int| 0 <= j < dsl_map@.len() && (#[trigger] dsl_map@[j]).0 == k;
                assert(shape_spec(t).contains_key(k));
                assert(dsl_view(dsl_map@)[k].meta.dom() =~= t[k].meta.dom());
                assert(crate::output::kept(k, dsl_view(dsl_map@)[k]));
            }
            assert forall|k: Seq<char>| #[trigger] kept_prefix(dsl_map@, dsl_map@.len() as int).contains_key(k) implies dsl_view(dsl_map@).contains_key(k) by {
                let j = choose|j: int| 0 <= j < dsl_map@.len() && (#[trigger] dsl_map@[j]).0 == k && crate::output::kept(k, dsl_view(dsl_map@)[k]);
                crate::keymap::lemma_lookup_at(dsl_map@, j);
            }
        }
    }
    Ok(final_map)
}

/// A geometry statement with its place, as plain values.
pub type GeomView = (usize, usize, StmtView);

/// A metadata statement with its place, as plain values.
pub type MetaStmtView = (usize, usize, MetaView);

pub open spec fn geom_views(gs: Seq<GeomStmt>) -> Seq<GeomView> {
    gs.map_values(|g: GeomStmt| (g.tuple_idx, g.stmt_idx, stmt_view(g.statement)))
}

pub open spec fn meta_views(ms: Seq<MetaStmt>) -> Seq<MetaStmtView> {
    ms.map_values(|m: MetaStmt| (m.tuple_idx, m.stmt_idx, meta_view(m.statement)))
}

/// What one statement text becomes once trimmed: a geometry statement when
/// it starts with `@`, a metadata statement when it starts with `#`, nothing
/// when it is blank or starts otherwise; `None` on a syntax error.
pub open spec fn slice_spec(text: Seq<char>, ops: bool) -> Option<(Option<StmtView>, Option<MetaView>)> {
    let x = trim_spec(text);
    if x.len() == 0 {
        Some((None, None))
    } else if x[0] == '@' {
        match geom_spec(x, ops, 0) {
            Some(v) => Some((Some(v), None)),
            None => None,
        }
    } else if x[0] == '#' {
        match meta_spec(x, 0) {
            Some(v) => Some((None, Some(v))),
            None => None,
        }
    } else {
        Some((None, None))
    }
}

/// The statements of the first `n` texts of unit `t`.
pub open spec fn unit_spec(t: usize, ts: Seq<Seq<char>>, ops: bool, n: int) -> Option<
    (Seq<GeomView>, Seq<MetaStmtView>),
>
    decreases n,
{
    if n <= 0 {
        Some((Seq::empty(), Seq::empty()))
    } else {
        match unit_spec(t, ts, ops, n - 1) {
            None => None,
            Some((g, m)) => match slice_spec(ts[n - 1], ops) {
                None => None,
                Some((Some(v), _)) => Some((g.push((t, (n - 1) as usize, v)), m)),
                Some((None, Some(v))) => Some((g, m.push((t, (n - 1) as usize, v)))),
                Some((None, None)) => Some((g, m)),
            },
        }
    }
}

/// The disabled operator, with its position in the trimmed text, at which a
/// geometry statement text stops, when that is why it does not parse.
pub open spec fn slice_unsupported(text: Seq<char>, ops: bool) -> Option<(char, int)> {
    let x = trim_spec(text);
    if x.len() > 0 && x[0] == '@' {
        match geom_outcome(x, ops, 0) {
            StmtOutcome::Unsupported(c, q) => Some((c, q)),
            _ => None,
        }
    } else {
        None
    }
}

/// `slice_unsupported` of the first of the first `n` texts that fails.
pub open spec fn unit_unsupported(t: usize, ts: Seq<Seq<char>>, ops: bool, n: int) -> Option<(char, int)>
    decreases n,
{
    if n <= 0 {
        None
    } else {
        match unit_spec(t, ts, ops, n - 1) {
            None => unit_unsupported(t, ts, ops, n - 1),
            Some(_) => slice_unsupported(ts[n - 1], ops),
        }
    }
}

/// `e` names the disabled operator and its position, when `u` gives one.
pub open spec fn unsupported_err_is(e: ParseError, u: Option<(char, int)>) -> bool {
    u matches Some((c, q)) ==> (e matches ParseError::UnsupportedOperator { operator, position }
        && operator@ == seq![c] && position == q)
}

proof fn lemma_unit_unsupported_stays(t: usize, ts: Seq<Seq<char>>, ops: bool, a: int, b: int)
    requires
        0 < a <= b,
        unit_spec(t, ts, ops, a) is None,
    ensures
        unit_unsupported(t, ts, ops, b) == unit_unsupported(t, ts, ops, a),
    decreases b - a,
{
    if a < b {
        lemma_unit_unsupported_stays(t, ts, ops, a, b - 1);
        lemma_unit_spec_none(t, ts, ops, a, b - 1);
    }
}

/// The statement texts of a unit's text: comment lines dropped, then split.
pub open spec fn unit_texts(text: Seq<char>) -> Seq<Seq<char>> {
    split_spec(filter_comments_spec(text))
}

/// The statements of the first `n` units, in order.
pub open spec fn units_spec(units: Seq<(Vec3, String)>, ops: bool, n: int) -> Option<
    (Seq<GeomView>, Seq<MetaStmtView>),
>
    decreases n,
{
    if n <= 0 {
        Some((Seq::empty(), Seq::empty()))
    } else {
        match units_spec(units, ops, n - 1) {
            None => None,
            Some((g, m)) => {
                let ts = unit_texts(units[n - 1].1@);
                match unit_spec((n - 1) as usize, ts, ops, ts.len() as int) {
                    None => None,
                    Some((g2, m2)) => Some((g + g2, m + m2)),
                }
            },
        }
    }
}

/// `unit_unsupported` of the first unit that fails, among the first `n`.
pub open spec fn units_unsupported(units: Seq<(Vec3, String)>, ops: bool, n: int) -> Option<(char, int)>
    decreases n,
{
    if n <= 0 {
        None
    } else {
        match units_spec(units, ops, n - 1) {
            None => units_unsupported(units, ops, n - 1),
            Some(_) => {
                let ts = unit_texts(units[n - 1].1@);
                unit_unsupported((n - 1) as usize, ts, ops, ts.len() as int)
            },
        }
    }
}

proof fn lemma_units_unsupported_stays(units: Seq<(Vec3, String)>, ops: bool, a: int, b: int)
    requires
        0 < a <= b,
        units_spec(units, ops, a) is None,
    ensures
        units_unsupported(units, ops, b) == units_unsupported(units, ops, a),
    decreases b - a,
{
    if a < b {
        lemma_units_unsupported_stays(units, ops, a, b - 1);
        lemma_units_spec_none(units, ops, a, b - 1);
    }
}

proof fn lemma_unit_spec_none(t: usize, ts: Seq<Seq<char>>, ops: bool, a: int, b: int)
    requires
        0 < a <= b,
        unit_spec(t, ts, ops, a) is None,
    ensures
        unit_spec(t, ts, ops, b) is None,
    decreases b - a,
{
    if a < b {
        lemma_unit_spec_none(t, ts, ops, a, b - 1);
    }
}

proof fn lemma_units_spec_none(units: Seq<(Vec3, String)>, ops: bool, a: int, b: int)
    requires
        0 < a <= b,
        units_spec(units, ops, a) is None,
    ensures
        units_spec(units, ops, b) is None,
    decreases b - a,
{
    if a < b {
        lemma_units_spec_none(units, ops, a, b - 1);
    }
}

/// The statements of one unit satisfy what the parsers promise and carry the
/// unit's index.
pub open spec fn parsed_ok(gs: Seq<GeomStmt>, ms: Seq<MetaStmt>, tuple_idx: usize, boolean_ops: bool) -> bool {
    &&& forall|j: int| 0 <= j < gs.len() ==> (#[trigger] gs[j]).tuple_idx == tuple_idx && statement_ok(gs[j].statement, boolean_ops)
    &&& forall|j: int| 0 <= j < ms.len() ==> (#[trigger] ms[j]).tuple_idx == tuple_idx && meta_statement_ok(ms[j].statement)
}

/// Parse the statements of one unit into geometry and metadata statements.
/// Comment lines are dropped first; blank slices are skipped; a slice is
/// geometry when its text starts with `@` and metadata when it starts with `#`.
fn parse_tuple_statements(tuple_idx: usize, text: &str, boolean_ops: bool) -> (r: Result<
    (Vec<GeomStmt>, Vec<MetaStmt>),
    ParseError,
>)
    ensures
        r matches Err(e) ==> crate::error::is_syntax_error(e),
        r matches Ok((gs, ms)) ==> parsed_ok(gs@, ms@, tuple_idx, boolean_ops),
        match unit_spec(tuple_idx, unit_texts(text@), boolean_ops, unit_texts(text@).len() as int) {
            Some((gv, mv)) => r matches Ok((gs, ms)) && geom_views(gs@) == gv && meta_views(ms@) == mv,
            None => r matches Err(e) && unsupported_err_is(
                e,
                unit_unsupported(tuple_idx, unit_texts(text@), boolean_ops, unit_texts(text@).len() as int),
            ),
        },
{
    let filtered_text = filter_comments(text);
    let statement_slices = split_statements(filtered_text.as_str());
    let ghost ts = slice_texts(statement_slices@);
    proof {
        crate::split::lemma_split_is_split_spec(filtered_text@, ts);
    }
    let mut geom_stmts: Vec<GeomStmt> = Vec::new();
    let mut meta_stmts: Vec<MetaStmt> = Vec::new();
    let mut stmt_idx: usize = 0;
    proof {
        assert(geom_views(geom_stmts@) =~= Seq::<GeomView>::empty());
        assert(meta_views(meta_stmts@) =~= Seq::<MetaStmtView>::empty());
    }
    while stmt_idx < statement_slices.len()
        invariant
            0 <= stmt_idx <= statement_slices@.len(),
            ts == slice_texts(statement_slices@),
            ts == unit_texts(text@),
            parsed_ok(geom_stmts@, meta_stmts@, tuple_idx, boolean_ops),
            unit_spec(tuple_idx, ts, boolean_ops, stmt_idx as int) == Some(
                (geom_views(geom_stmts@), meta_views(meta_stmts@)),
            ),
        decreases statement_slices@.len() - stmt_idx,
    {
        let cs = chars_of(statement_slices[stmt_idx].text.as_str());
        assert(cs@ == ts[stmt_idx as int]);
        let trimmed = trim_chars(cs.as_slice());
        let ghost gv = geom_views(geom_stmts@);
        let ghost mv = meta_views(meta_stmts@);
        if trimmed.len() > 0 {
            let stmt_text = string_from_chars(trimmed.as_slice());
            if trimmed[0] == '@' {
                let mut geom_parser = GeometryParser::with_boolean_ops(stmt_text.as_str(), boolean_ops);
                let parsed_stmt = match geom_parser.parse() {
                    Ok(g) => g,
                    Err(e) => {
                        proof {
                            lemma_unit_spec_none(tuple_idx, ts, boolean_ops, stmt_idx + 1, ts.len() as int);
                            lemma_unit_unsupported_stays(tuple_idx, ts, boolean_ops, stmt_idx + 1, ts.len() as int);
                        }
                        return Err(e);
                    },
                };
                let g = GeomStmt::new(tuple_idx, stmt_idx, parsed_stmt);
                geom_stmts.push(g);
                assert(geom_views(geom_stmts@) =~= gv.push((tuple_idx, stmt_idx, stmt_view(g.statement))));
            } else if trimmed[0] == '#' {
                let mut meta_parser = MetadataParser::new(stmt_text.as_str());
                let parsed_stmt = match meta_parser.parse() {
                    Ok(m) => m,
                    Err(e) => {
                        proof {
                            lemma_unit_spec_none(tuple_idx, ts, boolean_ops, stmt_idx + 1, ts.len() as int);
                            lemma_unit_unsupported_stays(tuple_idx, ts, boolean_ops, stmt_idx + 1, ts.len() as int);
                        }
                        return Err(e);
                    },
                };
                let m = MetaStmt::new(tuple_idx, stmt_idx, parsed_stmt);
                meta_stmts.push(m);
                assert(meta_views(meta_stmts@) =~= mv.push((tuple_idx, stmt_idx, meta_view(m.statement))));
            }
        }
        stmt_idx = stmt_idx + 1;
    }
    Ok((geom_stmts, meta_stmts))
}

/// Parse every unit's text, in order, into geometry and metadata statements.
pub fn parse_units(units: &[(Vec3, String)], boolean_ops: bool) -> (r: Result<(Vec<GeomStmt>, Vec<MetaStmt>), ParseError>)
    ensures
        r matches Err(e) ==> crate::error::is_syntax_error(e),
        r matches Ok((gs, ms)) ==> (forall|j: int| 0 <= j < gs@.len() ==> statement_ok(#[trigger] gs@[j].statement, boolean_ops))
            && (forall|j: int| 0 <= j < ms@.len() ==> meta_statement_ok(#[trigger] ms@[j].statement)),
        match units_spec(units@, boolean_ops, units@.len() as int) {
            Some((gv, mv)) => r matches Ok((gs, ms)) && geom_views(gs@) == gv && meta_views(ms@) == mv,
            None => r matches Err(e) && unsupported_err_is(e, units_unsupported(units@, boolean_ops, units@.len() as int)),
        },
{
    let mut all_geom_stmts: Vec<GeomStmt> = Vec::new();
    let mut all_meta_stmts: Vec<MetaStmt> = Vec::new();
    let mut tuple_idx: usize = 0;
    proof {
        assert(geom_views(all_geom_stmts@) =~= Seq::<GeomView>::empty());
        assert(meta_views(all_meta_stmts@) =~= Seq::<MetaStmtView>::empty());
    }
    while tuple_idx < units.len()
        invariant
            0 <= tuple_idx <= units@.len(),
            units_spec(units@, boolean_ops, tuple_idx as int) == Some(
                (geom_views(all_geom_stmts@), meta_views(all_meta_stmts@)),
            ),
            forall|j: int| 0 <= j < all_geom_stmts@.len() ==> statement_ok(#[trigger] all_geom_stmts@[j].statement, boolean_ops),
            forall|j: int| 0 <= j < all_meta_stmts@.len() ==> meta_statement_ok(#[trigger] all_meta_stmts@[j].statement),
        decreases units@.len() - tuple_idx,
    {
        let (mut geom_stmts, mut meta_stmts) = match parse_tuple_statements(
            tuple_idx,
            units[tuple_idx].1.as_str(),
            boolean_ops,
        ) {
            Ok(p) => p,
            Err(e) => {
                proof {
                    lemma_units_spec_none(units@, boolean_ops, tuple_idx + 1, units@.len() as int);
                    lemma_units_unsupported_stays(units@, boolean_ops, tuple_idx + 1, units@.len() as int);
                }
                return Err(e);
            },
        };
        let ghost og = all_geom_stmts@;
        let ghost om = all_meta_stmts@;
        let ghost ng = geom_stmts@;
        let ghost nm = meta_stmts@;
        all_geom_stmts.append(&mut geom_stmts);
        all_meta_stmts.append(&mut meta_stmts);
        proof {
            assert(geom_views(all_geom_stmts@) =~= geom_views(og) + geom_views(ng));
            assert(meta_views(all_meta_stmts@) =~= meta_views(om) + meta_views(nm));
            assert forall|j: int| 0 <= j < all_geom_stmts@.len() implies statement_ok(#[trigger] all_geom_stmts@[j].statement, boolean_ops) by {
                if j >= og.len() {
                    assert(all_geom_stmts@[j] == ng[j - og.len()]);
                }
            }
            assert forall|j: int| 0 <= j < all_meta_stmts@.len() implies meta_statement_ok(#[trigger] all_meta_stmts@[j].statement) by {
                if j >= om.len() {
                    assert(all_meta_stmts@[j] == nm[j - om.len()]);
                }
            }
        }
        tuple_idx = tuple_idx + 1;
    }
    Ok((all_geom_stmts, all_meta_stmts))
}

/// `r` is the outcome of compiling `units`: a syntax error when a statement
/// does not parse; otherwise what `compile_from` gives for the parsed
/// statements, or, exactly when it gives no output, the error `compile_err`
/// describes.
pub open spec fn compiled(units: Seq<(Vec3, String)>, ops: bool, r: Result<DslMap, Error>) -> bool {
    match units_spec(units, ops, units.len() as int) {
        None => r matches Err(Error::Parser(e)) && crate::error::is_syntax_error(e) && unsupported_err_is(
            e,
            units_unsupported(units, ops, units.len() as int),
        ),
        Some((gv, mv)) => exists|gs: Seq<GeomStmt>, ms: Seq<MetaStmt>|
            geom_views(gs) == gv && meta_views(ms) == mv && match compile_from(gs, ms, units) {
                Some(out) => r matches Ok(m) && dsl_view(m@) == out,
                None => r matches Err(Error::Parser(e)) && compile_err_is(e, compile_err(gs, ms, units)),
            },
    }
}

/// The full pipeline: parse every unit, then compile the statements.
pub fn compile_pipeline(units: &[(Vec3, String)], boolean_ops: bool) -> (r: Result<DslMap, Error>)
    ensures
        units@.len() == 0 ==> (r matches Ok(m) && m@.len() == 0),
        r matches Ok(m) ==> m.wf(),
        compiled(units@, boolean_ops, r),
{
    if units.len() == 0 {
        let empty: DslMap = KeyMap::new();
        proof {
            let gs = Seq::<GeomStmt>::empty();
            let ms = Seq::<MetaStmt>::empty();
            assert(geom_views(gs) =~= Seq::<GeomView>::empty());
            assert(meta_views(ms) =~= Seq::<MetaStmtView>::empty());
            let m0 = Map::<Seq<char>, EntryView>::empty();
            assert(assemble_spec(gs, units@, 0) == Some(m0));
            assert(all_regions_evaluate(m0));
            assert(shape_spec(boxes_table(m0)) =~= dsl_view(empty@));
            assert(compile_from(gs, ms, units@) == Some(dsl_view(empty@)));
        }
        return Ok(empty);
    }
    let (all_geom_stmts, all_meta_stmts) = match parse_units(units, boolean_ops) {
        Ok(p) => p,
        Err(e) => {
            return Err(Error::Parser(e));
        },
    };
    let r = match compile_statements(&all_geom_stmts, &all_meta_stmts, units) {
        Ok(m) => Ok(m),
        Err(e) => Err(Error::Parser(e)),
    };
    proof {
        let gs = all_geom_stmts@;
        let ms = all_meta_stmts@;
        assert(geom_views(gs) == geom_views(all_geom_stmts@));
    }
    r
}

} // verus!
