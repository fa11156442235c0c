//! Compiler for a small language of labelled, axis-aligned 3D regions and
//! their metadata. Input is a sequence of placement units (an anchor and a
//! text fragment); output is an ordered map from region key to boxes and
//! metadata.

use vstd::prelude::*;

pub mod boxes;
pub mod text;
pub mod lexer;
pub mod split;
pub mod error;
pub mod json_value;
pub mod expr;
pub mod geom_parser;
pub mod geom_grammar;
pub mod keymap;
pub mod ir;
pub mod eval;
pub mod memo;
pub mod meta_parser;
pub mod metadata;
pub mod output;
pub mod pipeline;
pub mod laws;

pub use boxes::{normalize_box, BoxPair, Vec3};
pub use error::{Error, ParseError, SourceLocation};
pub use eval::{check_boxes_bounds, evaluate_geometry, evaluate_region_boxes, EvaluatedRegion};
pub use expr::BooleanExpr;
pub use geom_parser::{GeometryParser, GeometryStatement};
pub use ir::{assemble_region_table, GeomStmt, RegionEntry, RegionTable};
pub use json_value::{JsonValue, JsonValueParser};
pub use keymap::KeyMap;
pub use lexer::{filter_comments, split_statements, StatementSlice};
pub use meta_parser::{MetadataParser, MetadataStatement};
pub use metadata::{
    apply_metadata_pass, find_last_geometry_in_tuple, is_wildcard_pattern, matches_wildcard, EvaluatedRegionData, EvaluatedRegionTable, MetaStmt, MetadataAssignment,
};
pub use output::{
    apply_deterministic_ordering, build_dsl_map, shape_final_output, DslEntry, DslMap,
    RegionCategory,
};
pub use pipeline::compile_pipeline;

verus! {

/// Compile placement units (anchor, text) into the region map, with boolean
/// operations other than `+` off.
pub fn compile(units: &[(Vec3, String)]) -> (r: Result<DslMap, Error>)
    ensures
        units@.len() == 0 ==> (r matches Ok(m) && m@.len() == 0),
        r matches Ok(m) ==> m.wf(),
        pipeline::compiled(units@, false, r),
{
    compile_pipeline(units, false)
}

/// Compile placement units with `-`, `&` and `^` available as well.
pub fn compile_with_boolean_ops(units: &[(Vec3, String)]) -> (r: Result<DslMap, Error>)
    ensures
        units@.len() == 0 ==> (r matches Ok(m) && m@.len() == 0),
        r matches Ok(m) ==> m.wf(),
        pipeline::compiled(units@, true, r),
{
    compile_pipeline(units, true)
}

} // verus!
