use vstd::prelude::*;
use crate::boxes::{is_normalized, BoxPair, Vec3};
use crate::error::{ParseError, SourceLocation};
use crate::expr::BooleanExpr;
use crate::geom_parser::{box_computable, box_of, region_of, GeometryStatement};
use crate::keymap::{lemma_lookup_some, lookup, KeyMap};
use crate::text::push_str;

verus! {

// ---------------------------------------------------------------------------
// Decimal numbers and anonymous keys
// ---------------------------------------------------------------------------

pub open spec fn digit_char(d: nat) -> char {
    if d == 0 {
        '0'
    } else if d == 1 {
        '1'
    } else if d == 2 {
        '2'
    } else if d == 3 {
        '3'
    } else if d == 4 {
        '4'
    } else if d == 5 {
        '5'
    } else if d == 6 {
        '6'
    } else if d == 7 {
        '7'
    } else if d == 8 {
        '8'
    } else {
        '9'
    }
}

/// The decimal digits of `n`, most significant first.
pub open spec fn decimal(n: nat) -> Seq<char>
    decreases n,
{
    if n < 10 {
        seq![digit_char(n)]
    } else {
        decimal(n / 10).push(digit_char(n % 10))
    }
}

/// The key of the anonymous region made by statement `stmt` of unit `tuple`:
/// `__anon_<tuple>_<stmt>`.
pub open spec fn anon_key(tuple: nat, stmt: nat) -> Seq<char> {
    "__anon_"@ + decimal(tuple) + "_"@ + decimal(stmt)
}

fn digit(d: usize) -> (r: char)
    requires
        d < 10,
    ensures
        r == digit_char(d as nat),
{
    if d == 0 {
        '0'
    } else if d == 1 {
        '1'
    } else if d == 2 {
        '2'
    } else if d == 3 {
        '3'
    } else if d == 4 {
        '4'
    } else if d == 5 {
        '5'
    } else if d == 6 {
        '6'
    } else if d == 7 {
        '7'
    } else if d == 8 {
        '8'
    } else {
        '9'
    }
}

fn decimal_chars(n: usize) -> (r: Vec<char>)
    ensures
        r@ == decimal(n as nat),
    decreases n,
{
    if n < 10 {
        vec![digit(n)]
    } else {
        let mut v = decimal_chars(n / 10);
        v.push(digit(n % 10));
        v
    }
}

/// Appends the decimal digits of `n`.
pub fn push_decimal(s: &mut String, n: usize)
    ensures
        final(s)@ == old(s)@ + decimal(n as nat),
{
    let ds = decimal_chars(n);
    let t = crate::text::string_from_chars(ds.as_slice());
    push_str(s, t.as_str());
}

// ---------------------------------------------------------------------------
// Geometry statements with their source
// ---------------------------------------------------------------------------

/// A geometry statement with the unit and statement index it came from.
#[derive(Debug, Clone, PartialEq)]
pub struct GeomStmt {
    /// The placement unit this statement belongs to
    pub tuple_idx: usize,
    /// The statement index within the unit
    pub stmt_idx: usize,
    /// The parsed statement
    pub statement: GeometryStatement,
}

/// The table key a geometry statement writes to: its name, or the synthesized
/// anonymous key.
pub open spec fn geom_key(g: GeomStmt) -> Seq<char> {
    match region_of(g.statement) {
        Some(n) => n,
        None => anon_key(g.tuple_idx as nat, g.stmt_idx as nat),
    }
}

impl GeomStmt {
    /// Create a new geometry statement.
    pub fn new(tuple_idx: usize, stmt_idx: usize, statement: GeometryStatement) -> (r: Self)
        ensures
            r == (GeomStmt { tuple_idx, stmt_idx, statement }),
    {
        GeomStmt { tuple_idx, stmt_idx, statement }
    }

    /// The region name, if this is a named statement.
    pub fn region(&self) -> (r: Option<&str>)
        ensures
            match r {
                Some(n) => region_of(self.statement) == Some(n@),
                None => region_of(self.statement) is None,
            },
    {
        self.statement.region()
    }

    /// Whether this statement has no region name.
    pub fn is_anonymous(&self) -> (r: bool)
        ensures
            r == region_of(self.statement) is None,
    {
        self.statement.region().is_none()
    }

    /// The key `__anon_<tuple_idx>_<stmt_idx>`.
    pub fn anonymous_key(&self) -> (r: String)
        ensures
            r@ == anon_key(self.tuple_idx as nat, self.stmt_idx as nat),
    {
        let mut s = "__anon_".to_owned();
        push_decimal(&mut s, self.tuple_idx);
        push_str(&mut s, "_");
        push_decimal(&mut s, self.stmt_idx);
        s
    }

    /// The table key this statement writes to.
    pub fn key(&self) -> (r: String)
        ensures
            r@ == geom_key(*self),
    {
        match self.statement.region() {
            Some(n) => n.to_owned(),
            None => self.anonymous_key(),
        }
    }
}

// ---------------------------------------------------------------------------
// Region table
// ---------------------------------------------------------------------------

/// An entry of the region table.
#[derive(Debug, PartialEq)]
pub enum RegionEntry {
    /// A named region collecting the boxes of its `rc`/`ac` statements
    Accumulator {
        /// The boxes, in statement order
        boxes: Vec<BoxPair>,
        /// Where each box came from
        sources: Vec<SourceLocation>,
    },
    /// A named region given by one expression
    Defined {
        /// The expression
        expr: BooleanExpr,
        /// Where it was defined
        source: SourceLocation,
    },
    /// An unnamed `rc`/`ac` statement
    Anonymous {
        /// Its box
        box_pair: BoxPair,
        /// Where it came from
        source: SourceLocation,
    },
}

/// What a table entry holds, as plain values.
pub enum EntryView {
    Accumulator(Seq<BoxPair>, Seq<SourceLocation>),
    Defined(BooleanExpr, SourceLocation),
    Anonymous(BoxPair, SourceLocation),
}

pub open spec fn entry_view(e: RegionEntry) -> EntryView {
    match e {
        RegionEntry::Accumulator { boxes, sources } => EntryView::Accumulator(boxes@, sources@),
        RegionEntry::Defined { expr, source } => EntryView::Defined(expr, source),
        RegionEntry::Anonymous { box_pair, source } => EntryView::Anonymous(box_pair, source),
    }
}

/// The table as a map from keys to entry views.
pub open spec fn table_map(es: Seq<(Seq<char>, RegionEntry)>) -> Map<Seq<char>, EntryView> {
    Map::new(|k: Seq<char>| lookup(es, k) is Some, |k: Seq<char>| entry_view(lookup(es, k)->0))
}

/// Every box the table holds is normalized.
pub open spec fn table_boxes_normalized(m: Map<Seq<char>, EntryView>) -> bool {
    forall|k: Seq<char>|
        #![trigger m[k]]
        m.contains_key(k) ==> match m[k] {
            EntryView::Accumulator(bs, _) => forall|i: int|
                0 <= i < bs.len() ==> is_normalized(#[trigger] bs[i]),
            EntryView::Anonymous(b, _) => is_normalized(b),
            EntryView::Defined(_, _) => true,
        }
}

/// The outcome of adding one geometry statement to a table: the key and its
/// new entry, or the error.
pub enum GeomUpdate {
    Assign(Seq<char>, EntryView),
    MixedMode,
    Duplicate,
    Overflow,
    Internal,
}

pub open spec fn geometry_update(m: Map<Seq<char>, EntryView>, g: GeomStmt, offset: Vec3) -> GeomUpdate {
    let src = SourceLocation { tuple_idx: g.tuple_idx, stmt_idx: g.stmt_idx };
    let key = geom_key(g);
    match g.statement {
        GeometryStatement::Expression { expr, .. } => if !m.contains_key(key) {
            GeomUpdate::Assign(key, EntryView::Defined(expr, src))
        } else {
            match m[key] {
                EntryView::Accumulator(_, _) => GeomUpdate::MixedMode,
                EntryView::Defined(_, _) => GeomUpdate::Duplicate,
                EntryView::Anonymous(_, _) => GeomUpdate::Internal,
            }
        },
        _ => if !box_computable(g.statement, offset) {
            GeomUpdate::Overflow
        } else {
            let b = box_of(g.statement, offset)->0;
            if region_of(g.statement) is None {
                GeomUpdate::Assign(key, EntryView::Anonymous(b, src))
            } else if !m.contains_key(key) {
                GeomUpdate::Assign(key, EntryView::Accumulator(seq![b], seq![src]))
            } else {
                match m[key] {
                    EntryView::Accumulator(bs, ss) => GeomUpdate::Assign(
                        key,
                        EntryView::Accumulator(bs.push(b), ss.push(src)),
                    ),
                    EntryView::Defined(_, _) => GeomUpdate::MixedMode,
                    EntryView::Anonymous(_, _) => GeomUpdate::Internal,
                }
            }
        },
    }
}

pub open spec fn src_of(g: GeomStmt) -> SourceLocation {
    SourceLocation { tuple_idx: g.tuple_idx, stmt_idx: g.stmt_idx }
}

/// The result of adding `g` to the table `m` (giving `m2`), as `geometry_update`
/// says; a mode conflict or a duplicate definition carries the sources involved.
pub open spec fn add_geometry_result(
    m: Map<Seq<char>, EntryView>,
    g: GeomStmt,
    offset: Vec3,
    r: Result<(), ParseError>,
    m2: Map<Seq<char>, EntryView>,
) -> bool {
    &&& match geometry_update(m, g, offset) {
        GeomUpdate::Assign(k, e) => r is Ok && m2 == m.insert(k, e),
        GeomUpdate::MixedMode => r matches Err(ParseError::MixedRegionMode { .. }),
        GeomUpdate::Duplicate => r matches Err(ParseError::DuplicateRegionDefinition { .. }),
        _ => r matches Err(ParseError::Internal { .. }),
    }
    &&& r is Err ==> m2 == m
    &&& r matches Err(e) ==> asm_err_is(e, update_err(m, g, offset))
    &&& r matches Err(ParseError::MixedRegionMode { region, accumulator_sources, defined_source })
        ==> region@ == geom_key(g) && match m[geom_key(g)] {
        EntryView::Accumulator(_, ss) => accumulator_sources@ == ss && defined_source == src_of(g),
        EntryView::Defined(_, s) => accumulator_sources@ == seq![src_of(g)] && defined_source == s,
        _ => false,
    }
    &&& r matches Err(
        ParseError::DuplicateRegionDefinition { region, first_source, duplicate_source },
    ) ==> region@ == geom_key(g) && (m[geom_key(g)] matches EntryView::Defined(_, s)
        && first_source == s) && duplicate_source == src_of(g)
}

/// The anchor of unit `i`, or the origin when there is no such unit.
pub open spec fn anchor_of(units: Seq<(Vec3, String)>, i: int) -> Vec3 {
    if 0 <= i < units.len() {
        units[i].0
    } else {
        [0i32, 0i32, 0i32]
    }
}

/// The table built from the first `n` statements, or `None` after an error.
pub open spec fn assemble_spec(gs: Seq<GeomStmt>, units: Seq<(Vec3, String)>, n: int) -> Option<
    Map<Seq<char>, EntryView>,
>
    decreases n,
{
    if n <= 0 {
        Some(Map::empty())
    } else {
        match assemble_spec(gs, units, n - 1) {
            Some(m) => match geometry_update(m, gs[n - 1], anchor_of(units, gs[n - 1].tuple_idx as int)) {
                GeomUpdate::Assign(k, e) => Some(m.insert(k, e)),
                _ => None,
            },
            None => None,
        }
    }
}

/// Why adding a geometry statement fails.
pub enum AsmErr {
    /// Region, accumulator sources, defined source.
    Mixed(Seq<char>, Seq<SourceLocation>, SourceLocation),
    /// Region, first and duplicate source.
    Duplicate(Seq<char>, SourceLocation, SourceLocation),
    /// An internal error with its message.
    Internal(Seq<char>),
}

/// The error of adding `g` to `m`, when `geometry_update` rejects it.
pub open spec fn update_err(m: Map<Seq<char>, EntryView>, g: GeomStmt, offset: Vec3) -> AsmErr {
    let key = geom_key(g);
    match geometry_update(m, g, offset) {
        GeomUpdate::Overflow => AsmErr::Internal("Coordinate overflow"@),
        GeomUpdate::MixedMode => match m[key] {
            EntryView::Accumulator(_, ss) => AsmErr::Mixed(key, ss, src_of(g)),
            EntryView::Defined(_, s) => AsmErr::Mixed(key, seq![src_of(g)], s),
            _ => AsmErr::Internal("Anonymous region with named key"@),
        },
        GeomUpdate::Duplicate => match m[key] {
            EntryView::Defined(_, s) => AsmErr::Duplicate(key, s, src_of(g)),
            _ => AsmErr::Internal("Anonymous region with named key"@),
        },
        _ => AsmErr::Internal("Anonymous region with named key"@),
    }
}

/// `e` is the error that `d` describes.
pub open spec fn asm_err_is(e: ParseError, d: AsmErr) -> bool {
    match d {
        AsmErr::Mixed(k, ss, s) => e matches ParseError::MixedRegionMode {
            region,
            accumulator_sources,
            defined_source,
        } && region@ == k && accumulator_sources@ == ss && defined_source == s,
        AsmErr::Duplicate(k, s1, s2) => e matches ParseError::DuplicateRegionDefinition {
            region,
            first_source,
            duplicate_source,
        } && region@ == k && first_source == s1 && duplicate_source == s2,
        AsmErr::Internal(msg) => e matches ParseError::Internal { message, position } && message@ == msg
            && position == 0,
    }
}

/// The error of the first of the first `n` statements that fails.
pub open spec fn asm_err(gs: Seq<GeomStmt>, units: Seq<(Vec3, String)>, n: int) -> AsmErr
    decreases n,
{
    if n <= 0 {
        AsmErr::Internal(Seq::empty())
    } else {
        match assemble_spec(gs, units, n - 1) {
            None => asm_err(gs, units, n - 1),
            Some(m) => update_err(m, gs[n - 1], anchor_of(units, gs[n - 1].tuple_idx as int)),
        }
    }
}

/// `r` is the table that `assemble_spec` builds from all of `gs`, or, exactly
/// when that fails, the error of the first failing statement.
pub open spec fn assembled(gs: Seq<GeomStmt>, units: Seq<(Vec3, String)>, r: Result<RegionTable, ParseError>) -> bool {
    &&& (r is Ok <==> (assemble_spec(gs, units, gs.len() as int) is Some))
    &&& r matches Ok(t) ==> t.wf() && Some(t.view_map()) == assemble_spec(gs, units, gs.len() as int)
    &&& r matches Err(e) ==> asm_err_is(e, asm_err(gs, units, gs.len() as int))
}

/// A copy of a list of boxes.
pub fn copy_boxes(v: &Vec<BoxPair>) -> (r: Vec<BoxPair>)
    ensures
        r@ == v@,
{
    let mut out: Vec<BoxPair> = Vec::new();
    let mut i: usize = 0;
    while i < v.len()
        invariant
            0 <= i <= v@.len(),
            out@ == v@.subrange(0, i as int),
        decreases v@.len() - i,
    {
        out.push(v[i]);
        assert(out@ =~= v@.subrange(0, i + 1));
        i = i + 1;
    }
    assert(out@ =~= v@);
    out
}

fn copy_sources(v: &Vec<SourceLocation>) -> (r: Vec<SourceLocation>)
    ensures
        r@ == v@,
{
    let mut out: Vec<SourceLocation> = Vec::new();
    let mut i: usize = 0;
    while i < v.len()
        invariant
            0 <= i <= v@.len(),
            out@ == v@.subrange(0, i as int),
        decreases v@.len() - i,
    {
        out.push(v[i]);
        assert(out@ =~= v@.subrange(0, i + 1));
        i = i + 1;
    }
    assert(out@ =~= v@);
    out
}

impl RegionEntry {
    /// All source locations of this entry.
    pub fn sources(&self) -> (r: Vec<SourceLocation>)
        ensures
            r@ == match entry_view(*self) {
                EntryView::Accumulator(_, ss) => ss,
                EntryView::Defined(_, s) => seq![s],
                EntryView::Anonymous(_, s) => seq![s],
            },
    {
        match self {
            RegionEntry::Accumulator { sources, .. } => copy_sources(sources),
            RegionEntry::Defined { source, .. } => vec![*source],
            RegionEntry::Anonymous { source, .. } => vec![*source],
        }
    }
}

/// The region table: region key to entry.
pub struct RegionTable {
    /// Map from region key to region entry
    pub regions: KeyMap<RegionEntry>,
}

impl RegionTable {
    pub open spec fn view_map(&self) -> Map<Seq<char>, EntryView> {
        table_map(self.regions@)
    }

    pub open spec fn wf(&self) -> bool {
        self.regions.wf()
    }

    /// An empty table.
    pub fn new() -> (r: Self)
        ensures
            r.wf(),
            r.view_map() == Map::<Seq<char>, EntryView>::empty(),
    {
        let r = RegionTable { regions: KeyMap::new() };
        assert(r.view_map() =~= Map::<Seq<char>, EntryView>::empty());
        r
    }

    /// Sets `key` to `entry`.
    fn set_entry(&mut self, key: String, entry: RegionEntry)
        requires
            old(self).wf(),
        ensures
            final(self).wf(),
            final(self).view_map() == old(self).view_map().insert(key@, entry_view(entry)),
    {
        let ghost k = key@;
        let ghost ev = entry_view(entry);
        self.regions.insert(key, entry);
        assert(self.view_map() =~= old(self).view_map().insert(k, ev));
    }

    /// Add a geometry statement, with `offset` the anchor of its unit.
    pub fn add_geometry(&mut self, stmt: &GeomStmt, offset: Vec3) -> (r: Result<(), ParseError>)
        requires
            old(self).wf(),
        ensures
            final(self).wf(),
            add_geometry_result(old(self).view_map(), *stmt, offset, r, final(self).view_map()),
    {
        let source = SourceLocation::new(stmt.tuple_idx, stmt.stmt_idx);
        let key = stmt.key();
        proof {
            lemma_lookup_some(self.regions@, key@);
        }
        match &stmt.statement {
            GeometryStatement::Expression { region, expr } => {
                match self.regions.get(key.as_str()) {
                    Some(RegionEntry::Accumulator { sources, .. }) => {
                        return Err(ParseError::MixedRegionMode {
                            region: key,
                            accumulator_sources: copy_sources(sources),
                            defined_source: source,
                        });
                    },
                    Some(RegionEntry::Defined { source: existing_source, .. }) => {
                        return Err(ParseError::DuplicateRegionDefinition {
                            region: key,
                            first_source: *existing_source,
                            duplicate_source: source,
                        });
                    },
                    Some(RegionEntry::Anonymous { .. }) => {
                        return Err(
                            ParseError::Internal {
                                message: "Anonymous region with named key",
                                position: 0,
                            },
                        );
                    },
                    None => {
                        self.set_entry(key, RegionEntry::Defined { expr: expr.duplicate(), source });
                        Ok(())
                    },
                }
            },
            geom_stmt => {
                if !geom_stmt.box_fits(offset) {
                    return Err(ParseError::Internal { message: "Coordinate overflow", position: 0 });
                }
                let box_pair = match geom_stmt.to_box_pair(offset) {
                    Some(b) => b,
                    None => {
                        return Err(
                            ParseError::Internal {
                                message: "Geometry statement should produce a box pair",
                                position: 0,
                            },
                        );
                    },
                };
                if stmt.is_anonymous() {
                    self.set_entry(key, RegionEntry::Anonymous { box_pair, source });
                    return Ok(());
                }
                match self.regions.index_of(key.as_str()) {
                    None => {
                        proof {
                            crate::keymap::lemma_lookup_absent(self.regions@, key@);
                        }
                        let boxes = vec![box_pair];
                        let sources = vec![source];
                        assert(boxes@ =~= seq![box_pair]);
                        assert(sources@ =~= seq![source]);
                        self.set_entry(key, RegionEntry::Accumulator { boxes, sources });
                        Ok(())
                    },
                    Some(i) => {
                        proof {
                            crate::keymap::lemma_lookup_at(self.regions@, i as int);
                        }
                        match self.regions.value_at(i) {
                            RegionEntry::Accumulator { boxes, sources } => {
                                let mut nb = copy_boxes(boxes);
                                let mut ns = copy_sources(sources);
                                nb.push(box_pair);
                                ns.push(source);
                                self.set_entry(key, RegionEntry::Accumulator { boxes: nb, sources: ns });
                                Ok(())
                            },
                            RegionEntry::Defined { source: defined_source, .. } => {
                                let accumulator_sources = vec![source];
                                assert(accumulator_sources@ =~= seq![source]);
                                Err(ParseError::MixedRegionMode {
                                    region: key,
                                    accumulator_sources,
                                    defined_source: *defined_source,
                                })
                            },
                            RegionEntry::Anonymous { .. } => {
                                Err(
                                    ParseError::Internal {
                                        message: "Anonymous region with named key",
                                        position: 0,
                                    },
                                )
                            },
                        }
                    },
                }
            },
        }
    }
}

/// Assemble the region table from geometry statements, in order, using the
/// anchor of each statement's unit.
pub fn assemble_region_table(geom_stmts: &Vec<GeomStmt>, units: &[(Vec3, String)]) -> (r: Result<
    RegionTable,
    ParseError,
>)
    ensures
        assembled(geom_stmts@, units@, r),
{
    let mut table = RegionTable::new();
    let mut i: usize = 0;
    while i < geom_stmts.len()
        invariant
            0 <= i <= geom_stmts@.len(),
            table.wf(),
            assemble_spec(geom_stmts@, units@, i as int) == Some(table.view_map()),
        decreases geom_stmts@.len() - i,
    {
        let stmt = &geom_stmts[i];
        let offset = if stmt.tuple_idx < units.len() {
            units[stmt.tuple_idx].0
        } else {
            [0, 0, 0]
        };
        assert(offset == anchor_of(units@, stmt.tuple_idx as int));
        match table.add_geometry(stmt, offset) {
            Ok(()) => {},
            Err(e) => {
                proof {
                    lemma_assemble_stays_none(geom_stmts@, units@, i + 1, geom_stmts@.len() as int);
                    lemma_asm_err_stays(geom_stmts@, units@, i + 1, geom_stmts@.len() as int);
                }
                return Err(e);
            },
        }
        i = i + 1;
    }
    Ok(table)
}

proof fn lemma_asm_err_stays(gs: Seq<GeomStmt>, units: Seq<(Vec3, String)>, a: int, b: int)
    requires
        0 < a <= b,
        assemble_spec(gs, units, a) is None,
    ensures
        asm_err(gs, units, b) == asm_err(gs, units, a),
    decreases b - a,
{
    if a < b {
        lemma_asm_err_stays(gs, units, a, b - 1);
        lemma_assemble_stays_none(gs, units, a, b - 1);
    }
}

proof fn lemma_assemble_stays_none(gs: Seq<GeomStmt>, units: Seq<(Vec3, String)>, a: int, b: int)
    requires
        0 < a <= b,
        assemble_spec(gs, units, a) is None,
    ensures
        assemble_spec(gs, units, b) is None,
    decreases b - a,
{
    if a < b {
        lemma_assemble_stays_none(gs, units, a, b - 1);
    }
}

} // verus!
