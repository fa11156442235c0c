use vstd::prelude::*;
use crate::boxes::{normalize_box, normalize_spec, BoxPair, Vec3};
use crate::error::ParseError;
use crate::expr::{union_only, BooleanExpr};
use crate::geom_grammar::{
    at, lemma_find_char, body_outcome, geom_outcome, stmt_result, ExprOutcome, box_spec, diff_rest, diff_spec, digits_end, expr_result, expr_spec, expr_view,
    find_char, geom_spec, ident_end, int_spec, inter_rest, inter_spec, name_spec, name_view, ref_spec,
    starts_at, stmt_view, term_spec, union_rest, union_spec, vec3_spec, xor_rest, xor_spec,
};
use crate::text::{is_identifier, lemma_skip_ws_bounds, 
    chars_of, copy_range, is_ident, is_ident_char, is_ident_continue_char, is_ident_start_char,
    is_whitespace, skip_ws, string_from_chars, string_from_range, trim_chars, trim_spec,
};

verus! {

/// A parsed `@...` statement.
#[derive(Debug, PartialEq)]
pub enum GeometryStatement {
    /// Relative coordinate box: `rc([x1,y1,z1],[x2,y2,z2])`
    RelativeCoordinate {
        /// The region name, for `@region=rc(...)`
        region: Option<String>,
        /// The two corners
        corners: (Vec3, Vec3),
    },
    /// Absolute coordinate box: `ac([x1,y1,z1],[x2,y2,z2])`
    AbsoluteCoordinate {
        /// The region name, for `@region=ac(...)`
        region: Option<String>,
        /// The two corners
        corners: (Vec3, Vec3),
    },
    /// Boolean expression: `@region=expr`
    Expression {
        /// The region name (required for expressions)
        region: String,
        /// The expression
        expr: BooleanExpr,
    },
}

fn copy_name(n: &Option<String>) -> (r: Option<String>)
    ensures
        r == *n,
{
    match n {
        Some(s) => Some(s.clone()),
        None => None,
    }
}

impl Clone for GeometryStatement {
    fn clone(&self) -> (r: Self)
        ensures
            r == *self,
    {
        match self {
            GeometryStatement::RelativeCoordinate { region, corners } => {
                GeometryStatement::RelativeCoordinate { region: copy_name(region), corners: *corners }
            },
            GeometryStatement::AbsoluteCoordinate { region, corners } => {
                GeometryStatement::AbsoluteCoordinate { region: copy_name(region), corners: *corners }
            },
            GeometryStatement::Expression { region, expr } => {
                GeometryStatement::Expression { region: region.clone(), expr: expr.duplicate() }
            },
        }
    }
}

/// Every coordinate of `c` plus `o` fits in 32 bits.
pub open spec fn offset_fits(c: Vec3, o: Vec3) -> bool {
    &&& i32::MIN <= c[0] + o[0] <= i32::MAX
    &&& i32::MIN <= c[1] + o[1] <= i32::MAX
    &&& i32::MIN <= c[2] + o[2] <= i32::MAX
}

pub open spec fn shifted(c: Vec3, o: Vec3) -> Vec3 {
    [(c[0] + o[0]) as i32, (c[1] + o[1]) as i32, (c[2] + o[2]) as i32]
}

/// The statement's box can be computed under the anchor `offset`.
pub open spec fn box_computable(s: GeometryStatement, offset: Vec3) -> bool {
    match s {
        GeometryStatement::RelativeCoordinate { corners, .. } => offset_fits(corners.0, offset)
            && offset_fits(corners.1, offset),
        _ => true,
    }
}

/// The normalized box of an `rc`/`ac` statement; `None` for an expression.
pub open spec fn box_of(s: GeometryStatement, offset: Vec3) -> Option<BoxPair> {
    match s {
        GeometryStatement::RelativeCoordinate { corners, .. } => Some(
            normalize_spec(shifted(corners.0, offset), shifted(corners.1, offset)),
        ),
        GeometryStatement::AbsoluteCoordinate { corners, .. } => Some(
            normalize_spec(corners.0, corners.1),
        ),
        GeometryStatement::Expression { .. } => None,
    }
}

/// The region name of a statement, if it has one.
pub open spec fn region_of(s: GeometryStatement) -> Option<Seq<char>> {
    match s {
        GeometryStatement::RelativeCoordinate { region, .. } => match region {
            Some(n) => Some(n@),
            None => None,
        },
        GeometryStatement::AbsoluteCoordinate { region, .. } => match region {
            Some(n) => Some(n@),
            None => None,
        },
        GeometryStatement::Expression { region, .. } => Some(region@),
    }
}

/// Every region name in the expression is an identifier.
pub open spec fn refs_are_idents(e: BooleanExpr) -> bool
    decreases e,
{
    match e {
        BooleanExpr::RegionRef(n) => is_ident(n@),
        BooleanExpr::Union(l, r) => refs_are_idents(*l) && refs_are_idents(*r),
        BooleanExpr::Difference(l, r) => refs_are_idents(*l) && refs_are_idents(*r),
        BooleanExpr::Intersection(l, r) => refs_are_idents(*l) && refs_are_idents(*r),
        BooleanExpr::Xor(l, r) => refs_are_idents(*l) && refs_are_idents(*r),
    }
}

/// An expression the parser may produce: identifiers only, and only `+` when
/// boolean operations are off.
pub open spec fn expr_ok(e: BooleanExpr, boolean_ops: bool) -> bool {
    refs_are_idents(e) && (boolean_ops || union_only(e))
}

/// A statement the parser may produce: a region name is an identifier, and an
/// expression is `expr_ok`.
pub open spec fn statement_ok(s: GeometryStatement, boolean_ops: bool) -> bool {
    &&& region_of(s) matches Some(n) ==> is_ident(n) && trim_spec(n) == n
    &&& s matches GeometryStatement::Expression { expr, .. } ==> expr_ok(expr, boolean_ops)
}

impl GeometryStatement {
    /// The normalized box of an `rc`/`ac` statement, with the anchor `offset`
    /// added to relative corners. Expressions have no direct box.
    pub fn to_box_pair(&self, offset: Vec3) -> (r: Option<BoxPair>)
        requires
            box_computable(*self, offset),
        ensures
            r == box_of(*self, offset),
    {
        match self {
            GeometryStatement::RelativeCoordinate { corners, .. } => {
                let (c1, c2) = *corners;
                let corner1 = [c1[0] + offset[0], c1[1] + offset[1], c1[2] + offset[2]];
                let corner2 = [c2[0] + offset[0], c2[1] + offset[1], c2[2] + offset[2]];
                assert(corner1 == shifted(c1, offset));
                assert(corner2 == shifted(c2, offset));
                Some(normalize_box(corner1, corner2))
            },
            GeometryStatement::AbsoluteCoordinate { corners, .. } => {
                Some(normalize_box(corners.0, corners.1))
            },
            GeometryStatement::Expression { .. } => None,
        }
    }

    /// Whether adding `offset` to the corners of this statement stays in range.
    pub fn box_fits(&self, offset: Vec3) -> (r: bool)
        ensures
            r == box_computable(*self, offset),
    {
        match self {
            GeometryStatement::RelativeCoordinate { corners, .. } => {
                let (c1, c2) = *corners;
                fits(c1[0], offset[0]) && fits(c1[1], offset[1]) && fits(c1[2], offset[2]) && fits(
                    c2[0],
                    offset[0],
                ) && fits(c2[1], offset[1]) && fits(c2[2], offset[2])
            },
            _ => true,
        }
    }

    /// The region name, if this is a named statement.
    pub fn region(&self) -> (r: Option<&str>)
        ensures
            match r {
                Some(n) => region_of(*self) == Some(n@),
                None => region_of(*self) is None,
            },
    {
        match self {
            GeometryStatement::RelativeCoordinate { region, .. } => match region {
                Some(n) => Some(n.as_str()),
                None => None,
            },
            GeometryStatement::AbsoluteCoordinate { region, .. } => match region {
                Some(n) => Some(n.as_str()),
                None => None,
            },
            GeometryStatement::Expression { region, .. } => Some(region.as_str()),
        }
    }
}

fn fits(a: i32, b: i32) -> (r: bool)
    ensures
        r == (i32::MIN <= a + b <= i32::MAX),
{
    let s = a as i64 + b as i64;
    -2147483648i64 <= s && s <= 2147483647i64
}

/// Numeric value of a run of decimal digits.
pub open spec fn digits_value(s: Seq<char>) -> int
    decreases s.len(),
{
    if s.len() == 0 {
        0
    } else {
        digits_value(s.drop_last()) * 10 + (s.last() as int - '0' as int)
    }
}

pub open spec fn is_digit(c: char) -> bool {
    '0' <= c && c <= '9'
}

/// Parser for geometry statements.
pub struct GeometryParser {
    chars: Vec<char>,
    position: usize,
    boolean_ops: bool,
}

impl GeometryParser {
    /// The text being parsed.
    pub closed spec fn text(&self) -> Seq<char> {
        self.chars@
    }

    /// The current position, in characters.
    pub closed spec fn pos(&self) -> int {
        self.position as int
    }

    /// Whether `-`, `&` and `^` are accepted.
    pub closed spec fn ops_enabled(&self) -> bool {
        self.boolean_ops
    }

    pub closed spec fn wf(&self) -> bool {
        self.position <= self.chars@.len()
    }

    closed spec fn same_input(&self, other: &Self) -> bool {
        self.chars@ == other.chars@ && self.boolean_ops == other.boolean_ops && self.wf()
    }

    closed spec fn advanced(&self, other: &Self) -> bool {
        self.same_input(other) && other.position <= self.position
    }

    /// A parser with boolean operations off: only `+` joins regions.
    pub fn new(input: &str) -> (r: Self)
        ensures
            r.text() == input@,
            r.pos() == 0,
            !r.ops_enabled(),
            r.wf(),
    {
        GeometryParser { chars: chars_of(input), position: 0, boolean_ops: false }
    }

    /// A parser that accepts `-`, `&` and `^` exactly when `boolean_ops` holds.
    pub fn with_boolean_ops(input: &str, boolean_ops: bool) -> (r: Self)
        ensures
            r.text() == input@,
            r.pos() == 0,
            r.ops_enabled() == boolean_ops,
            r.wf(),
    {
        GeometryParser { chars: chars_of(input), position: 0, boolean_ops }
    }

    /// Parse a geometry statement.
    pub fn parse(&mut self) -> (r: Result<GeometryStatement, ParseError>)
        requires
            old(self).wf(),
        ensures
            r matches Err(e) ==> crate::error::is_syntax_error(e),
            final(self).text() == old(self).text(),
            final(self).ops_enabled() == old(self).ops_enabled(),
            final(self).wf(),
            r matches Ok(s) ==> statement_ok(s, old(self).ops_enabled()),
            r is Ok <==> geom_spec(old(self).text(), old(self).ops_enabled(), old(self).pos()) is Some,
            r matches Ok(s) ==> geom_spec(old(self).text(), old(self).ops_enabled(), old(self).pos())
                == Some(stmt_view(s)),
            stmt_result(r, geom_outcome(old(self).text(), old(self).ops_enabled(), old(self).pos())),
    {
        let ghost s = self.chars@;
        let ghost ops = self.boolean_ops;
        let ghost p0 = skip_ws(s, self.position as int);
        proof {
            reveal_strlit("rc(");
            reveal_strlit("ac(");
            lemma_skip_ws_bounds(s, self.position as int);
            if p0 + 1 <= s.len() {
                lemma_find_char(s, p0 + 1, '=');
            }
        }
        self.skip_whitespace();
        if !self.consume_char('@') {
            return Err(self.expected_here("'@'"));
        }
        let region_name = self.parse_optional_region_name()?;
        if region_name.is_some() {
            self.skip_whitespace();
            if !self.consume_char('=') {
                return Err(self.expected_here("'='"));
            }
            self.skip_whitespace();
        }
        let ghost name = name_view(region_name);
        let ghost p2 = self.position as int;
        assert(geom_outcome(s, ops, old(self).position as int) == body_outcome(s, ops, name, p2));
        if self.consume_str("rc(") {
            let corners = self.parse_box()?;
            self.skip_whitespace();
            if !self.consume_char(')') {
                return Err(self.expected_here("')'"));
            }
            Ok(GeometryStatement::RelativeCoordinate { region: region_name, corners })
        } else if self.consume_str("ac(") {
            let corners = self.parse_box()?;
            self.skip_whitespace();
            if !self.consume_char(')') {
                return Err(self.expected_here("')'"));
            }
            Ok(GeometryStatement::AbsoluteCoordinate { region: region_name, corners })
        } else {
            match region_name {
                Some(region) => {
                    let expr = self.parse_expression()?;
                    Ok(GeometryStatement::Expression { region, expr })
                },
                None => Err(ParseError::Expected {
                    expected: "'rc(' or 'ac(' or expression",
                    found: self.peek_str(10),
                    position: self.position,
                }),
            }
        }
    }

    /// An `Expected` error naming the current character (`'\0'` at the end).
    fn expected_here(&self, expected: &'static str) -> (r: ParseError)
        requires
            self.wf(),
        ensures
            r is Expected,
    {
        let found = match self.current_char() {
            Some(c) => string_from_chars(&[c]),
            None => string_from_chars(&['\0']),
        };
        ParseError::Expected { expected, found, position: self.position }
    }

    /// Parse an optional region name: everything up to the first `=`, trimmed.
    /// `rc(` or `ac(` right at the start means an anonymous statement.
    fn parse_optional_region_name(&mut self) -> (r: Result<Option<String>, ParseError>)
        requires
            old(self).wf(),
        ensures
            r matches Err(e) ==> crate::error::is_syntax_error(e),
            final(self).advanced(old(self)),
            r matches Ok(Some(n)) ==> is_ident(n@) && trim_spec(n@) == n@,
            match name_spec(old(self).chars@, old(self).position as int) {
                None => r is Err,
                Some(None) => r matches Ok(None) && final(self).position == old(self).position,
                Some(Some(n)) => r matches Ok(Some(x)) && x@ == n && final(self).position == find_char(
                    old(self).chars@,
                    old(self).position as int,
                    '=',
                ),
            },
    {
        let ghost s = self.chars@;
        let start_pos = self.position;
        let n = self.chars.len();
        if self.peek_is("rc(") || self.peek_is("ac(") {
            return Ok(None);
        }
        while self.position < n
            invariant
                self.same_input(old(self)),
                n == self.chars@.len(),
                s == self.chars@,
                start_pos <= self.position,
                start_pos == old(self).position,
                find_char(s, start_pos as int, '=') == find_char(s, self.position as int, '='),
                !(starts_at(s, start_pos as int, "rc("@) || starts_at(s, start_pos as int, "ac("@)),
            decreases n - self.position,
        {
            let ch = self.chars[self.position];
            if ch == '=' {
                let raw = copy_range(self.chars.as_slice(), start_pos, self.position);
                let name = trim_chars(raw.as_slice());
                if !is_identifier(name.as_slice()) {
                    return Err(ParseError::Expected {
                        expected: "region name",
                        found: string_from_chars(name.as_slice()),
                        position: start_pos,
                    });
                }
                proof {
                    crate::text::lemma_trim_idempotent(raw@);
                }
                return Ok(Some(string_from_chars(name.as_slice())));
            }
            self.advance();
        }
        self.position = start_pos;
        Ok(None)
    }

    /// Parse a box: two vec3 separated by a comma.
    fn parse_box(&mut self) -> (r: Result<(Vec3, Vec3), ParseError>)
        requires
            old(self).wf(),
        ensures
            r matches Err(e) ==> crate::error::is_syntax_error(e),
            final(self).advanced(old(self)),
            match box_spec(old(self).chars@, old(self).position as int) {
                Some((c, q)) => r matches Ok(x) && x == c && final(self).position == q,
                None => r is Err,
            },
    {
        self.skip_whitespace();
        let vec1 = self.parse_vec3()?;
        self.skip_whitespace();
        if !self.consume_char(',') {
            return Err(self.expected_here("','"));
        }
        self.skip_whitespace();
        let vec2 = self.parse_vec3()?;
        Ok((vec1, vec2))
    }

    /// Parse a vec3: `[x,y,z]`.
    fn parse_vec3(&mut self) -> (r: Result<Vec3, ParseError>)
        requires
            old(self).wf(),
        ensures
            r matches Err(e) ==> crate::error::is_syntax_error(e),
            final(self).advanced(old(self)),
            match vec3_spec(old(self).chars@, old(self).position as int) {
                Some((v, q)) => r matches Ok(x) && x == v && final(self).position == q,
                None => r is Err,
            },
    {
        self.skip_whitespace();
        if !self.consume_char('[') {
            return Err(self.expected_here("'['"));
        }
        self.skip_whitespace();
        let x = self.parse_integer()?;
        self.skip_whitespace();
        if !self.consume_char(',') {
            return Err(self.expected_here("','"));
        }
        self.skip_whitespace();
        let y = self.parse_integer()?;
        self.skip_whitespace();
        if !self.consume_char(',') {
            return Err(self.expected_here("','"));
        }
        self.skip_whitespace();
        let z = self.parse_integer()?;
        self.skip_whitespace();
        if !self.consume_char(']') {
            return Err(self.expected_here("']'"));
        }
        Ok([x, y, z])
    }

    /// Parse an integer with an optional leading `-`. Fails when there is no
    /// digit, or when the value does not fit in 32 bits.
    fn parse_integer(&mut self) -> (r: Result<i32, ParseError>)
        requires
            old(self).wf(),
        ensures
            r matches Err(e) ==> crate::error::is_syntax_error(e),
            final(self).advanced(old(self)),
            match int_spec(old(self).chars@, old(self).position as int) {
                Some((v, q)) => r matches Ok(x) && x == v && final(self).position == q,
                None => r is Err,
            },
    {
        let ghost s = self.chars@;
        let start_pos = self.position;
        let neg = self.consume_char('-');
        let first = self.position;
        let n = self.chars.len();
        match self.current_char() {
            Some(c) => {
                if !('0' <= c && c <= '9') {
                    return Err(self.expected_here("digit"));
                }
            },
            None => {
                return Err(self.expected_here("digit"));
            },
        }
        let mut acc: i64 = 0;
        let mut too_big = false;
        while self.position < n && '0' <= self.chars[self.position] && self.chars[self.position]
            <= '9'
            invariant
                self.advanced(old(self)),
                n == self.chars@.len(),
                s == self.chars@,
                first <= self.position <= n,
                first < n,
                digits_end(s, first as int) == digits_end(s, self.position as int),
                forall|k: int| first <= k < self.position ==> is_digit(#[trigger] self.chars@[k]),
                0 <= acc <= 2147483648,
                !too_big ==> acc == digits_value(self.chars@.subrange(first as int, self.position as int)),
                too_big ==> digits_value(self.chars@.subrange(first as int, self.position as int))
                    > 2147483648,
            decreases n - self.position,
        {
            let d = (self.chars[self.position] as u32 - '0' as u32) as i64;
            let ghost prev = self.chars@.subrange(first as int, self.position as int);
            proof {
                assert(self.chars@.subrange(first as int, self.position + 1).drop_last() =~= prev);
                lemma_digits_value_nonneg(prev);
            }
            if !too_big {
                let next = acc * 10 + d;
                if next > 2147483648 {
                    too_big = true;
                } else {
                    acc = next;
                }
            }
            self.position = self.position + 1;
        }
        if too_big {
            return Err(ParseError::InvalidInteger { position: start_pos });
        }
        if neg {
            Ok((-acc) as i32)
        } else if acc <= 2147483647 {
            Ok(acc as i32)
        } else {
            Err(ParseError::InvalidInteger { position: start_pos })
        }
    }

    /// Parse a boolean expression: `&` binds tighter than `+`, then `-`, then
    /// `^`; each level associates to the left.
    fn parse_expression(&mut self) -> (r: Result<BooleanExpr, ParseError>)
        requires
            old(self).wf(),
        ensures
            r matches Err(e) ==> crate::error::is_syntax_error(e),
            final(self).advanced(old(self)),
            r matches Ok(e) ==> expr_ok(e, old(self).ops_enabled()),
            expr_result(r, final(self).position as int, expr_spec(old(self).chars@, old(self).boolean_ops, old(self).position as int)),
        decreases old(self).chars@.len() - old(self).position, 5nat,
    {
        self.parse_xor()
    }

    /// Parse `difference ( '^' difference )*`.
    fn parse_xor(&mut self) -> (r: Result<BooleanExpr, ParseError>)
        requires
            old(self).wf(),
        ensures
            r matches Err(e) ==> crate::error::is_syntax_error(e),
            final(self).advanced(old(self)),
            r matches Ok(e) ==> expr_ok(e, old(self).ops_enabled()),
            expr_result(r, final(self).position as int, xor_spec(old(self).chars@, old(self).boolean_ops, old(self).position as int)),
        decreases old(self).chars@.len() - old(self).position, 4nat,
    {
        let ghost s = self.chars@;
        let ghost ops = self.boolean_ops;
        let ghost p0 = self.position as int;
        let mut left = self.parse_difference()?;
        loop
            invariant_except_break
                xor_spec(s, ops, p0) == xor_rest(s, ops, expr_view(left), self.position as int),
            invariant
                self.advanced(old(self)),
                s == self.chars@,
                ops == self.boolean_ops,
                p0 == old(self).position as int,
                expr_ok(left, self.boolean_ops),
            ensures
                xor_spec(s, ops, p0) == ExprOutcome::Done(expr_view(left), self.position as int),
            decreases self.chars@.len() - self.position,
        {
            let ghost q = self.position as int;
            self.skip_whitespace();
            if self.at_char('^') {
                if !self.boolean_ops {
                    assert(xor_rest(s, ops, expr_view(left), q) == ExprOutcome::Unsupported('^', self.position as int));
                    let operator = "^".to_owned();
                    proof {
                        reveal_strlit("^");
                        assert(operator@ =~= seq!['^']);
                    }
                    return Err(ParseError::UnsupportedOperator { position: self.position, operator });
                }
                self.advance();
                self.skip_whitespace();
                proof {
                    lemma_skip_ws_bounds(s, q);
                    lemma_skip_ws_bounds(s, skip_ws(s, q) + 1);
                }
                let ghost p2 = self.position as int;
                let right = match self.parse_difference() {
                    Ok(r) => r,
                    Err(e) => {
                        assert(xor_rest(s, ops, expr_view(left), q) == diff_spec(s, ops, p2));
                        return Err(e);
                    },
                };
                left = BooleanExpr::xor(left, right);
            } else {
                break;
            }
        }
        Ok(left)
    }

    /// Parse `union ( '-' union )*`.
    fn parse_difference(&mut self) -> (r: Result<BooleanExpr, ParseError>)
        requires
            old(self).wf(),
        ensures
            r matches Err(e) ==> crate::error::is_syntax_error(e),
            final(self).advanced(old(self)),
            r matches Ok(e) ==> expr_ok(e, old(self).ops_enabled()),
            expr_result(r, final(self).position as int, diff_spec(old(self).chars@, old(self).boolean_ops, old(self).position as int)),
        decreases old(self).chars@.len() - old(self).position, 3nat,
    {
        let ghost s = self.chars@;
        let ghost ops = self.boolean_ops;
        let ghost p0 = self.position as int;
        let mut left = self.parse_union()?;
        loop
            invariant_except_break
                diff_spec(s, ops, p0) == diff_rest(s, ops, expr_view(left), self.position as int),
            invariant
                self.advanced(old(self)),
                s == self.chars@,
                ops == self.boolean_ops,
                p0 == old(self).position as int,
                expr_ok(left, self.boolean_ops),
            ensures
                diff_spec(s, ops, p0) == ExprOutcome::Done(expr_view(left), self.position as int),
            decreases self.chars@.len() - self.position,
        {
            let ghost q = self.position as int;
            self.skip_whitespace();
            if self.at_char('-') {
                if !self.boolean_ops {
                    assert(diff_rest(s, ops, expr_view(left), q) == ExprOutcome::Unsupported('-', self.position as int));
                    let operator = "-".to_owned();
                    proof {
                        reveal_strlit("-");
                        assert(operator@ =~= seq!['-']);
                    }
                    return Err(ParseError::UnsupportedOperator { position: self.position, operator });
                }
                self.advance();
                self.skip_whitespace();
                proof {
                    lemma_skip_ws_bounds(s, q);
                    lemma_skip_ws_bounds(s, skip_ws(s, q) + 1);
                }
                let ghost p2 = self.position as int;
                let right = match self.parse_union() {
                    Ok(r) => r,
                    Err(e) => {
                        assert(diff_rest(s, ops, expr_view(left), q) == union_spec(s, ops, p2));
                        return Err(e);
                    },
                };
                left = BooleanExpr::difference(left, right);
            } else {
                break;
            }
        }
        Ok(left)
    }

    /// Parse `intersect ( '+' intersect )*`.
    fn parse_union(&mut self) -> (r: Result<BooleanExpr, ParseError>)
        requires
            old(self).wf(),
        ensures
            r matches Err(e) ==> crate::error::is_syntax_error(e),
            final(self).advanced(old(self)),
            r matches Ok(e) ==> expr_ok(e, old(self).ops_enabled()),
            expr_result(r, final(self).position as int, union_spec(old(self).chars@, old(self).boolean_ops, old(self).position as int)),
        decreases old(self).chars@.len() - old(self).position, 2nat,
    {
        let ghost s = self.chars@;
        let ghost ops = self.boolean_ops;
        let ghost p0 = self.position as int;
        let mut left = self.parse_intersection()?;
        loop
            invariant_except_break
                union_spec(s, ops, p0) == union_rest(s, ops, expr_view(left), self.position as int),
            invariant
                self.advanced(old(self)),
                s == self.chars@,
                ops == self.boolean_ops,
                p0 == old(self).position as int,
                expr_ok(left, self.boolean_ops),
            ensures
                union_spec(s, ops, p0) == ExprOutcome::Done(expr_view(left), self.position as int),
            decreases self.chars@.len() - self.position,
        {
            let ghost q = self.position as int;
            self.skip_whitespace();
            if self.at_char('+') {
                self.advance();
                self.skip_whitespace();
                proof {
                    lemma_skip_ws_bounds(s, q);
                    lemma_skip_ws_bounds(s, skip_ws(s, q) + 1);
                }
                let ghost p2 = self.position as int;
                let right = match self.parse_intersection() {
                    Ok(r) => r,
                    Err(e) => {
                        assert(union_rest(s, ops, expr_view(left), q) == inter_spec(s, ops, p2));
                        return Err(e);
                    },
                };
                left = BooleanExpr::union(left, right);
            } else {
                break;
            }
        }
        Ok(left)
    }

    /// Parse `term ( '&' term )*`.
    fn parse_intersection(&mut self) -> (r: Result<BooleanExpr, ParseError>)
        requires
            old(self).wf(),
        ensures
            r matches Err(e) ==> crate::error::is_syntax_error(e),
            final(self).advanced(old(self)),
            r matches Ok(e) ==> expr_ok(e, old(self).ops_enabled()),
            expr_result(r, final(self).position as int, inter_spec(old(self).chars@, old(self).boolean_ops, old(self).position as int)),
        decreases old(self).chars@.len() - old(self).position, 1nat,
    {
        let ghost s = self.chars@;
        let ghost ops = self.boolean_ops;
        let ghost p0 = self.position as int;
        let mut left = self.parse_term()?;
        loop
            invariant_except_break
                inter_spec(s, ops, p0) == inter_rest(s, ops, expr_view(left), self.position as int),
            invariant
                self.advanced(old(self)),
                s == self.chars@,
                ops == self.boolean_ops,
                p0 == old(self).position as int,
                expr_ok(left, self.boolean_ops),
            ensures
                inter_spec(s, ops, p0) == ExprOutcome::Done(expr_view(left), self.position as int),
            decreases self.chars@.len() - self.position,
        {
            let ghost q = self.position as int;
            self.skip_whitespace();
            if self.at_char('&') {
                if !self.boolean_ops {
                    assert(inter_rest(s, ops, expr_view(left), q) == ExprOutcome::Unsupported('&', self.position as int));
                    let operator = "&".to_owned();
                    proof {
                        reveal_strlit("&");
                        assert(operator@ =~= seq!['&']);
                    }
                    return Err(ParseError::UnsupportedOperator { position: self.position, operator });
                }
                self.advance();
                self.skip_whitespace();
                proof {
                    lemma_skip_ws_bounds(s, q);
                    lemma_skip_ws_bounds(s, skip_ws(s, q) + 1);
                }
                let ghost p2 = self.position as int;
                let right = match self.parse_term() {
                    Ok(r) => r,
                    Err(e) => {
                        assert(inter_rest(s, ops, expr_view(left), q) == term_spec(s, ops, p2));
                        return Err(e);
                    },
                };
                left = BooleanExpr::intersection(left, right);
            } else {
                break;
            }
        }
        Ok(left)
    }

    /// Parse a term: `( expression )` or a region reference.
    fn parse_term(&mut self) -> (r: Result<BooleanExpr, ParseError>)
        requires
            old(self).wf(),
        ensures
            r matches Err(e) ==> crate::error::is_syntax_error(e),
            final(self).advanced(old(self)),
            r matches Ok(e) ==> expr_ok(e, old(self).ops_enabled()),
            expr_result(r, final(self).position as int, term_spec(old(self).chars@, old(self).boolean_ops, old(self).position as int)),
        decreases old(self).chars@.len() - old(self).position, 0nat,
    {
        let ghost s = self.chars@;
        let ghost p = self.position as int;
        self.skip_whitespace();
        if self.at_char('(') {
            self.advance();
            self.skip_whitespace();
            proof {
                lemma_skip_ws_bounds(s, p);
                lemma_skip_ws_bounds(s, skip_ws(s, p) + 1);
            }
            let expr = self.parse_expression()?;
            self.skip_whitespace();
            if !self.consume_char(')') {
                return Err(self.expected_here("')'"));
            }
            Ok(expr)
        } else {
            self.parse_region_ref()
        }
    }

    /// Parse a region reference: an identifier.
    fn parse_region_ref(&mut self) -> (r: Result<BooleanExpr, ParseError>)
        requires
            old(self).wf(),
        ensures
            r matches Err(e) ==> crate::error::is_syntax_error(e),
            final(self).advanced(old(self)),
            r matches Ok(e) ==> expr_ok(e, old(self).ops_enabled()),
            match ref_spec(old(self).chars@, old(self).position as int) {
                Some((v, q)) => r matches Ok(e) && expr_view(e) == v && final(self).position == q,
                None => r matches Err(ParseError::Expected { .. }),
            },
    {
        let ghost s = self.chars@;
        let start_pos = self.position;
        let n = self.chars.len();
        if !(start_pos < n && is_ident_start_char(self.chars[start_pos])) {
            return Err(self.expected_here("region name"));
        }
        while self.position < n && is_ident_continue_char(self.chars[self.position])
            invariant
                self.advanced(old(self)),
                n == self.chars@.len(),
                s == self.chars@,
                start_pos == old(self).position,
                start_pos < n,
                crate::text::is_ident_start(self.chars@[start_pos as int]),
                forall|k: int| start_pos <= k < self.position ==> is_ident_char(#[trigger] self.chars@[k]),
                self.position == start_pos || ident_end(s, start_pos + 1) == ident_end(s, self.position as int),
            decreases n - self.position,
        {
            self.position = self.position + 1;
        }
        if self.position == start_pos {
            return Err(ParseError::EmptyExpression { position: start_pos });
        }
        let name = string_from_range(self.chars.as_slice(), start_pos, self.position);
        proof {
            assert forall|i: int| 0 <= i < name@.len() implies is_ident_char(#[trigger] name@[i]) by {
                assert(name@[i] == self.chars@[start_pos + i]);
            }
        }
        Ok(BooleanExpr::RegionRef(name))
    }

    /// Skip whitespace characters.
    fn skip_whitespace(&mut self)
        requires
            old(self).wf(),
        ensures
            final(self).advanced(old(self)),
            final(self).position == skip_ws(old(self).chars@, old(self).position as int),
    {
        while self.position < self.chars.len() && is_whitespace(self.chars[self.position])
            invariant
                self.advanced(old(self)),
                skip_ws(self.chars@, self.position as int) == skip_ws(
                    old(self).chars@,
                    old(self).position as int,
                ),
            decreases self.chars@.len() - self.position,
        {
            self.position = self.position + 1;
        }
    }

    /// Whether the current character is `c`.
    fn at_char(&self, c: char) -> (r: bool)
        requires
            self.wf(),
        ensures
            r == at(self.chars@, self.position as int, c),
    {
        self.position < self.chars.len() && self.chars[self.position] == c
    }

    /// The current character, if any.
    fn current_char(&self) -> (r: Option<char>)
        requires
            self.wf(),
        ensures
            r == (if self.position < self.chars@.len() {
                Some(self.chars@[self.position as int])
            } else {
                None::<char>
            }),
    {
        if self.position < self.chars.len() {
            Some(self.chars[self.position])
        } else {
            None
        }
    }

    /// Advance the position by one character, staying within the input.
    fn advance(&mut self)
        requires
            old(self).wf(),
        ensures
            final(self).advanced(old(self)),
            final(self).position == if old(self).position < old(self).chars@.len() {
                old(self).position + 1
            } else {
                old(self).position as int
            },
    {
        if self.position < self.chars.len() {
            self.position = self.position + 1;
        }
    }

    /// Consume `expected` if it is the current character.
    fn consume_char(&mut self, expected: char) -> (r: bool)
        requires
            old(self).wf(),
        ensures
            final(self).advanced(old(self)),
            r == (old(self).position < old(self).chars@.len() && old(self).chars@[old(
                self,
            ).position as int] == expected),
            r ==> final(self).position == old(self).position + 1,
            !r ==> final(self).position == old(self).position,
    {
        if self.current_char() == Some(expected) {
            self.advance();
            true
        } else {
            false
        }
    }

    /// Whether the input continues with `expected` at the current position.
    fn peek_is(&self, expected: &str) -> (r: bool)
        requires
            self.wf(),
        ensures
            r == (self.position + expected@.len() <= self.chars@.len() && self.chars@.subrange(
                self.position as int,
                self.position + expected@.len(),
            ) == expected@),
    {
        let e = chars_of(expected);
        let n = self.chars.len();
        if e.len() > n - self.position {
            return false;
        }
        let mut k: usize = 0;
        while k < e.len()
            invariant
                self.wf(),
                n == self.chars@.len(),
                e@ == expected@,
                self.position + e@.len() <= n,
                0 <= k <= e@.len(),
                forall|j: int| 0 <= j < k ==> self.chars@[self.position + j] == e@[j],
            decreases e@.len() - k,
        {
            if self.chars[self.position + k] != e[k] {
                assert(self.chars@.subrange(self.position as int, self.position + expected@.len())[k as int]
                    != expected@[k as int]);
                return false;
            }
            k = k + 1;
        }
        assert(self.chars@.subrange(self.position as int, self.position + expected@.len()) =~= expected@);
        true
    }

    /// Consume `expected` if the input continues with it.
    fn consume_str(&mut self, expected: &str) -> (r: bool)
        requires
            old(self).wf(),
        ensures
            final(self).advanced(old(self)),
            r ==> final(self).position == old(self).position + expected@.len(),
            !r ==> final(self).position == old(self).position,
            r == starts_at(old(self).chars@, old(self).position as int, expected@),
    {
        if self.peek_is(expected) {
            let k = expected.unicode_len();
            let n = self.chars.len();
            assert(self.position + k <= n);
            self.position = self.position + k;
            true
        } else {
            false
        }
    }

    /// Up to `len` characters from the current position.
    fn peek_str(&self, len: usize) -> (r: String)
        requires
            self.wf(),
    {
        let n = self.chars.len();
        let end = if len <= n - self.position { self.position + len } else { n };
        string_from_range(self.chars.as_slice(), self.position, end)
    }
}

proof fn lemma_digits_value_nonneg(s: Seq<char>)
    requires
        forall|k: int| 0 <= k < s.len() ==> is_digit(#[trigger] s[k]),
    ensures
        digits_value(s) >= 0,
    decreases s.len(),
{
    if s.len() > 0 {
        lemma_digits_value_nonneg(s.drop_last());
    }
}

} // verus!
