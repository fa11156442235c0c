use vstd::prelude::*;
use crate::ir::{decimal, push_decimal};
use crate::json_value::JsonValue;
use crate::text::push_str;

verus! {

/// Where a statement came from: its placement unit and its index in that unit.
#[derive(Debug, Clone, Copy, PartialEq, Eq, Structural)]
pub struct SourceLocation {
    pub tuple_idx: usize,
    pub stmt_idx: usize,
}

impl SourceLocation {
    pub fn new(tuple_idx: usize, stmt_idx: usize) -> (r: Self)
        ensures
            r.tuple_idx == tuple_idx,
            r.stmt_idx == stmt_idx,
    {
        SourceLocation { tuple_idx, stmt_idx }
    }
}

/// Errors raised while parsing, assembling and evaluating a DSL batch.
#[derive(Debug, Clone, PartialEq)]
pub enum ParseError {
    /// A required token was not found.
    Expected { expected: &'static str, found: String, position: usize },
    /// The input ended while a token was expected.
    UnexpectedEnd { expected: &'static str, position: usize },
    /// An integer literal that does not fit in 32 bits.
    InvalidInteger { position: usize },
    /// An expression with nothing in it.
    EmptyExpression { position: usize },
    /// A boolean operator used while boolean operations are not enabled.
    UnsupportedOperator { position: usize, operator: String },
    /// A region name used both as an accumulator and as a defined region.
    MixedRegionMode {
        region: String,
        accumulator_sources: Vec<SourceLocation>,
        defined_source: SourceLocation,
    },
    /// A defined region given a second expression.
    DuplicateRegionDefinition {
        region: String,
        first_source: SourceLocation,
        duplicate_source: SourceLocation,
    },
    /// Coordinate overflow or a broken internal invariant.
    Internal { message: &'static str, position: usize },
    /// An expression names a region that does not exist.
    UnknownRegion { region: String, source: SourceLocation },
    /// A defined region's expression names the region itself.
    SelfReference { region: String, source: SourceLocation },
    /// Defined regions that depend on each other in a cycle.
    CycleDetected { cycle: Vec<String> },
    /// One region key assigned two different values.
    MetadataConflict {
        region: String,
        key: String,
        first_value: JsonValue,
        first_source: SourceLocation,
        conflict_value: JsonValue,
        conflict_source: SourceLocation,
    },
    /// A `#key=value` statement in a unit that has no geometry statement.
    NoCurrentRegion { source: SourceLocation },
}

/// An error that parsing a statement can give.
pub open spec fn is_syntax_error(e: ParseError) -> bool {
    ||| e is Expected
    ||| e is UnexpectedEnd
    ||| e is InvalidInteger
    ||| e is EmptyExpression
    ||| e is UnsupportedOperator
}

/// Errors returned by the compiler.
#[derive(Debug, Clone, PartialEq)]
pub enum Error {
    Parser(ParseError),
    NotImplemented,
}

/// `SourceLocation { tuple_idx: T, stmt_idx: S }`, as `{:?}` writes it.
pub open spec fn loc_debug(l: SourceLocation) -> Seq<char> {
    "SourceLocation { tuple_idx: "@ + decimal(l.tuple_idx as nat) + ", stmt_idx: "@ + decimal(
        l.stmt_idx as nat,
    ) + " }"@
}

/// `tuple T statement S`.
pub open spec fn loc_text(l: SourceLocation) -> Seq<char> {
    "tuple "@ + decimal(l.tuple_idx as nat) + " statement "@ + decimal(l.stmt_idx as nat)
}

/// The items of a list of locations, separated by `, `.
pub open spec fn locs_debug(ls: Seq<SourceLocation>) -> Seq<char>
    decreases ls.len(),
{
    if ls.len() == 0 {
        Seq::empty()
    } else if ls.len() == 1 {
        loc_debug(ls[0])
    } else {
        locs_debug(ls.drop_last()) + ", "@ + loc_debug(ls.last())
    }
}

/// The quoted names of a list, separated by `, `.
pub open spec fn names_debug(ns: Seq<Seq<char>>) -> Seq<char>
    decreases ns.len(),
{
    if ns.len() == 0 {
        Seq::empty()
    } else if ns.len() == 1 {
        "\""@ + ns[0] + "\""@
    } else {
        names_debug(ns.drop_last()) + ", \""@ + ns.last() + "\""@
    }
}

fn push_loc_debug(s: &mut String, l: SourceLocation)
    ensures
        final(s)@ == old(s)@ + loc_debug(l),
{
    push_str(s, "SourceLocation { tuple_idx: ");
    push_decimal(s, l.tuple_idx);
    push_str(s, ", stmt_idx: ");
    push_decimal(s, l.stmt_idx);
    push_str(s, " }");
    assert(s@ =~= old(s)@ + loc_debug(l));
}

fn push_loc_text(s: &mut String, l: SourceLocation)
    ensures
        final(s)@ == old(s)@ + loc_text(l),
{
    push_str(s, "tuple ");
    push_decimal(s, l.tuple_idx);
    push_str(s, " statement ");
    push_decimal(s, l.stmt_idx);
    assert(s@ =~= old(s)@ + loc_text(l));
}

fn push_locs_debug(s: &mut String, ls: &Vec<SourceLocation>)
    ensures
        final(s)@ == old(s)@ + "["@ + locs_debug(ls@) + "]"@,
{
    push_str(s, "[");
    let ghost start = s@;
    let mut i: usize = 0;
    while i < ls.len()
        invariant
            0 <= i <= ls@.len(),
            start == old(s)@ + "["@,
            s@ == start + locs_debug(ls@.subrange(0, i as int)),
        decreases ls@.len() - i,
    {
        let ghost prev = ls@.subrange(0, i as int);
        assert(ls@.subrange(0, i + 1).drop_last() =~= prev);
        if i > 0 {
            push_str(s, ", ");
        }
        push_loc_debug(s, ls[i]);
        assert(s@ =~= start + locs_debug(ls@.subrange(0, i + 1)));
        i = i + 1;
    }
    assert(ls@.subrange(0, i as int) =~= ls@);
    push_str(s, "]");
}

fn push_names_debug(s: &mut String, ns: &Vec<String>)
    ensures
        final(s)@ == old(s)@ + "["@ + names_debug(ns@.map_values(|n: String| n@)) + "]"@,
{
    push_str(s, "[");
    let ghost start = s@;
    let ghost all = ns@.map_values(|n: String| n@);
    let mut i: usize = 0;
    while i < ns.len()
        invariant
            0 <= i <= ns@.len(),
            all == ns@.map_values(|n: String| n@),
            start == old(s)@ + "["@,
            s@ == start + names_debug(all.subrange(0, i as int)),
        decreases ns@.len() - i,
    {
        assert(all.subrange(0, i + 1).drop_last() =~= all.subrange(0, i as int));
        assert(all.subrange(0, i + 1).last() == ns@[i as int]@);
        if i > 0 {
            push_str(s, ", \"");
        } else {
            push_str(s, "\"");
        }
        push_str(s, ns[i].as_str());
        push_str(s, "\"");
        assert(s@ =~= start + names_debug(all.subrange(0, i + 1)));
        i = i + 1;
    }
    assert(all.subrange(0, i as int) =~= all);
    push_str(s, "]");
}

impl ParseError {
    /// A human-readable description of the error.
    pub fn message(&self) -> (r: String)
        ensures
            self matches ParseError::UnsupportedOperator { position, operator } ==> r@
                == "Phase 0 supports only '+' operator at position "@ + decimal(position as nat)
                + ". Found '"@ + operator@ + "'"@,
            self matches ParseError::MixedRegionMode { region, accumulator_sources, defined_source }
                ==> r@ == "Region '"@ + region@ + "' cannot be both accumulator and defined. Accumulator sources: "@
                + "["@ + locs_debug(accumulator_sources@) + "]"@ + ", defined source: "@ + loc_debug(*defined_source),
            self matches ParseError::CycleDetected { cycle } ==> r@ == "Cycle detected in region dependencies: "@ + "["@
                + names_debug(cycle@.map_values(|n: String| n@)) + "]"@,
            self matches ParseError::NoCurrentRegion { source } ==> r@
                == "No current region found for metadata statement at "@ + loc_text(*source)
                + ". Hint: Metadata statements like '#key=value' must be placed after a geometry statement (@rc, @ac, or @region=expr) in the same tuple."@,
    {
        let mut s = String::new();
        match self {
            ParseError::Expected { expected, found, position } => {
                push_str(&mut s, "Expected ");
                push_str(&mut s, expected);
                push_str(&mut s, " at position ");
                push_decimal(&mut s, *position);
                push_str(&mut s, ", but found '");
                push_str(&mut s, found.as_str());
                push_str(&mut s, "'");
            },
            ParseError::UnexpectedEnd { expected, position } => {
                push_str(&mut s, "Expected ");
                push_str(&mut s, expected);
                push_str(&mut s, " at position ");
                push_decimal(&mut s, *position);
                push_str(&mut s, ", but reached end of input");
            },
            ParseError::InvalidInteger { position } => {
                push_str(&mut s, "Invalid integer at position ");
                push_decimal(&mut s, *position);
                push_str(&mut s, ": number does not fit in 32 bits");
            },
            ParseError::EmptyExpression { position } => {
                push_str(&mut s, "Empty expression at position ");
                push_decimal(&mut s, *position);
            },
            ParseError::UnsupportedOperator { position, operator } => {
                push_str(&mut s, "Phase 0 supports only '+' operator at position ");
                push_decimal(&mut s, *position);
                push_str(&mut s, ". Found '");
                push_str(&mut s, operator.as_str());
                push_str(&mut s, "'");
                assert(s@ =~= "Phase 0 supports only '+' operator at position "@ + decimal(*position as nat)
                    + ". Found '"@ + operator@ + "'"@);
            },
            ParseError::MixedRegionMode { region, accumulator_sources, defined_source } => {
                push_str(&mut s, "Region '");
                push_str(&mut s, region.as_str());
                push_str(&mut s, "' cannot be both accumulator and defined. Accumulator sources: ");
                push_locs_debug(&mut s, accumulator_sources);
                push_str(&mut s, ", defined source: ");
                push_loc_debug(&mut s, *defined_source);
                assert(s@ =~= "Region '"@ + region@ + "' cannot be both accumulator and defined. Accumulator sources: "@
                    + "["@ + locs_debug(accumulator_sources@) + "]"@ + ", defined source: "@ + loc_debug(*defined_source));
            },
            ParseError::DuplicateRegionDefinition { region, first_source, duplicate_source } => {
                push_str(&mut s, "Region '");
                push_str(&mut s, region.as_str());
                push_str(&mut s, "' defined multiple times. First at ");
                push_loc_debug(&mut s, *first_source);
                push_str(&mut s, ", duplicate at ");
                push_loc_debug(&mut s, *duplicate_source);
            },
            ParseError::Internal { message, .. } => {
                push_str(&mut s, "Internal error: ");
                push_str(&mut s, message);
            },
            ParseError::UnknownRegion { region, source } => {
                push_str(&mut s, "Unknown region '");
                push_str(&mut s, region.as_str());
                push_str(&mut s, "' referenced in expression at ");
                push_loc_debug(&mut s, *source);
            },
            ParseError::SelfReference { region, source } => {
                push_str(&mut s, "Self-reference detected: region '");
                push_str(&mut s, region.as_str());
                push_str(&mut s, "' references itself at ");
                push_loc_debug(&mut s, *source);
            },
            ParseError::CycleDetected { cycle } => {
                push_str(&mut s, "Cycle detected in region dependencies: ");
                push_names_debug(&mut s, cycle);
                assert(s@ =~= "Cycle detected in region dependencies: "@ + "["@ + names_debug(
                    cycle@.map_values(|n: String| n@),
                ) + "]"@);
            },
            ParseError::MetadataConflict {
                region,
                key,
                first_value,
                first_source,
                conflict_value,
                conflict_source,
            } => {
                push_str(&mut s, "Metadata conflict for region '");
                push_str(&mut s, region.as_str());
                push_str(&mut s, "' key '");
                push_str(&mut s, key.as_str());
                push_str(&mut s, "': different values across tuples. First: ");
                push_str(&mut s, first_value.as_text());
                push_str(&mut s, " at ");
                push_loc_text(&mut s, *first_source);
                push_str(&mut s, ", Conflict: ");
                push_str(&mut s, conflict_value.as_text());
                push_str(&mut s, " at ");
                push_loc_text(&mut s, *conflict_source);
            },
            ParseError::NoCurrentRegion { source } => {
                push_str(&mut s, "No current region found for metadata statement at ");
                push_loc_text(&mut s, *source);
                push_str(
                    &mut s,
                    ". Hint: Metadata statements like '#key=value' must be placed after a geometry statement (@rc, @ac, or @region=expr) in the same tuple.",
                );
                assert(s@ =~= "No current region found for metadata statement at "@ + loc_text(*source)
                    + ". Hint: Metadata statements like '#key=value' must be placed after a geometry statement (@rc, @ac, or @region=expr) in the same tuple."@);
            },
        }
        s
    }
}

impl Error {
    /// A human-readable description of the error.
    pub fn message(&self) -> (r: String)
        ensures
            self matches Error::Parser(e) ==> r@.len() >= "Parser error: "@.len() && r@.subrange(0, "Parser error: "@.len() as int) == "Parser error: "@,
    {
        match self {
            Error::Parser(e) => {
                let mut s = "Parser error: ".to_owned();
                let ghost p = s@;
                let m = e.message();
                push_str(&mut s, m.as_str());
                assert(s@.subrange(0, p.len() as int) =~= p);
                s
            },
            Error::NotImplemented => "Not implemented yet".to_owned(),
        }
    }
}

} // verus!
