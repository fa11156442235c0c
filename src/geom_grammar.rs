use vstd::prelude::*;
use crate::boxes::Vec3;
use crate::expr::BooleanExpr;
use crate::geom_parser::{digits_value, is_digit, GeometryStatement};
use crate::text::{is_ident, is_ident_char, is_ident_start, skip_ws, trim_spec};

verus! {

// The grammar of geometry statements, over character positions. Each rule
// gives the parsed value and the position after it, or `None` on a syntax
// error.
//
//   stmt       ::= WS '@' ( name '=' )? ( 'rc(' box ')' | 'ac(' box ')' | expr )
//   box        ::= vec3 ',' vec3
//   vec3       ::= '[' int ',' int ',' int ']'
//   expr       ::= xor
//   xor        ::= difference ( '^' difference )*
//   difference ::= union ( '-' union )*
//   union      ::= intersect ( '+' intersect )*
//   intersect  ::= term ( '&' term )*
//   term       ::= '(' expr ')' | ident
//
// Whitespace is allowed around every token; `-`, `&` and `^` are accepted only
// when boolean operations are enabled.

/// An expression as plain values.
pub enum ExprView {
    Ref(Seq<char>),
    Union(Box<ExprView>, Box<ExprView>),
    Difference(Box<ExprView>, Box<ExprView>),
    Intersection(Box<ExprView>, Box<ExprView>),
    Xor(Box<ExprView>, Box<ExprView>),
}

pub open spec fn expr_view(e: BooleanExpr) -> ExprView
    decreases e,
{
    match e {
        BooleanExpr::RegionRef(n) => ExprView::Ref(n@),
        BooleanExpr::Union(l, r) => ExprView::Union(Box::new(expr_view(*l)), Box::new(expr_view(*r))),
        BooleanExpr::Difference(l, r) => ExprView::Difference(
            Box::new(expr_view(*l)),
            Box::new(expr_view(*r)),
        ),
        BooleanExpr::Intersection(l, r) => ExprView::Intersection(
            Box::new(expr_view(*l)),
            Box::new(expr_view(*r)),
        ),
        BooleanExpr::Xor(l, r) => ExprView::Xor(Box::new(expr_view(*l)), Box::new(expr_view(*r))),
    }
}

/// A geometry statement as plain values.
pub enum StmtView {
    Relative(Option<Seq<char>>, (Vec3, Vec3)),
    Absolute(Option<Seq<char>>, (Vec3, Vec3)),
    Expression(Seq<char>, ExprView),
}

pub open spec fn name_view(n: Option<String>) -> Option<Seq<char>> {
    match n {
        Some(s) => Some(s@),
        None => None,
    }
}

pub open spec fn stmt_view(g: GeometryStatement) -> StmtView {
    match g {
        GeometryStatement::RelativeCoordinate { region, corners } => StmtView::Relative(
            name_view(region),
            corners,
        ),
        GeometryStatement::AbsoluteCoordinate { region, corners } => StmtView::Absolute(
            name_view(region),
            corners,
        ),
        GeometryStatement::Expression { region, expr } => StmtView::Expression(region@, expr_view(expr)),
    }
}

/// `s[p]` is `c`.
pub open spec fn at(s: Seq<char>, p: int, c: char) -> bool {
    0 <= p < s.len() && s[p] == c
}

/// `s` continues with `t` at `p`.
pub open spec fn starts_at(s: Seq<char>, p: int, t: Seq<char>) -> bool {
    0 <= p && p + t.len() <= s.len() && s.subrange(p, p + t.len()) == t
}

/// End of the run of decimal digits starting at `p`.
pub open spec fn digits_end(s: Seq<char>, p: int) -> int
    decreases s.len() - p,
{
    if 0 <= p < s.len() && is_digit(s[p]) {
        digits_end(s, p + 1)
    } else {
        p
    }
}

/// End of the run of identifier characters starting at `p`.
pub open spec fn ident_end(s: Seq<char>, p: int) -> int
    decreases s.len() - p,
{
    if 0 <= p < s.len() && is_ident_char(s[p]) {
        ident_end(s, p + 1)
    } else {
        p
    }
}

/// Index of the first `c` at or after `p`, or the length.
pub open spec fn find_char(s: Seq<char>, p: int, c: char) -> int
    decreases s.len() - p,
{
    if p < 0 || p >= s.len() {
        s.len() as int
    } else if s[p] == c {
        p
    } else {
        find_char(s, p + 1, c)
    }
}

pub proof fn lemma_find_char(s: Seq<char>, p: int, c: char)
    requires
        0 <= p <= s.len(),
    ensures
        p <= find_char(s, p, c) <= s.len(),
        find_char(s, p, c) < s.len() ==> s[find_char(s, p, c)] == c,
        forall|k: int| p <= k < find_char(s, p, c) ==> s[k] != c,
    decreases s.len() - p,
{
    if p < s.len() && s[p] != c {
        lemma_find_char(s, p + 1, c);
    }
}

/// An optionally negative decimal integer that fits in 32 bits.
pub open spec fn int_spec(s: Seq<char>, p: int) -> Option<(i32, int)> {
    let neg = at(s, p, '-');
    let q = if neg { p + 1 } else { p };
    if !(0 <= q < s.len() && is_digit(s[q])) {
        None
    } else {
        let e = digits_end(s, q);
        let v = digits_value(s.subrange(q, e));
        let sv = if neg { -v } else { v };
        if i32::MIN <= sv <= i32::MAX {
            Some((sv as i32, e))
        } else {
            None
        }
    }
}

/// `[x, y, z]`, whitespace allowed around each token.
pub open spec fn vec3_spec(s: Seq<char>, p: int) -> Option<(Vec3, int)> {
    let p1 = skip_ws(s, p);
    if !at(s, p1, '[') {
        None
    } else {
        match int_spec(s, skip_ws(s, p1 + 1)) {
            None => None,
            Some((x, p3)) => {
                let p4 = skip_ws(s, p3);
                if !at(s, p4, ',') {
                    None
                } else {
                    match int_spec(s, skip_ws(s, p4 + 1)) {
                        None => None,
                        Some((y, p6)) => {
                            let p7 = skip_ws(s, p6);
                            if !at(s, p7, ',') {
                                None
                            } else {
                                match int_spec(s, skip_ws(s, p7 + 1)) {
                                    None => None,
                                    Some((z, p9)) => {
                                        let p10 = skip_ws(s, p9);
                                        if !at(s, p10, ']') {
                                            None
                                        } else {
                                            Some(([x, y, z], p10 + 1))
                                        }
                                    },
                                }
                            }
                        },
                    }
                }
            },
        }
    }
}

/// Two corners separated by a comma.
pub open spec fn box_spec(s: Seq<char>, p: int) -> Option<((Vec3, Vec3), int)> {
    match vec3_spec(s, skip_ws(s, p)) {
        None => None,
        Some((a, q)) => {
            let q1 = skip_ws(s, q);
            if !at(s, q1, ',') {
                None
            } else {
                match vec3_spec(s, skip_ws(s, q1 + 1)) {
                    None => None,
                    Some((b, q3)) => Some(((a, b), q3)),
                }
            }
        },
    }
}

/// The optional region name after `@`: the trimmed text up to the first `=`,
/// unless the statement starts with `rc(` or `ac(`. `None` when that text is
/// not an identifier.
pub open spec fn name_spec(s: Seq<char>, p: int) -> Option<Option<Seq<char>>> {
    if starts_at(s, p, "rc("@) || starts_at(s, p, "ac("@) {
        Some(None)
    } else {
        let e = find_char(s, p, '=');
        if e >= s.len() {
            Some(None)
        } else {
            let n = trim_spec(s.subrange(p, e));
            if !is_ident(n) {
                None
            } else {
                Some(Some(n))
            }
        }
    }
}

/// A region reference: an identifier.
pub open spec fn ref_spec(s: Seq<char>, p: int) -> Option<(ExprView, int)> {
    if 0 <= p < s.len() && is_ident_start(s[p]) {
        let e = ident_end(s, p + 1);
        Some((ExprView::Ref(s.subrange(p, e)), e))
    } else {
        None
    }
}

/// The outcome of an expression rule: the expression and the position after
/// it, an operator that boolean operations being off rules out (with its
/// position), or another syntax error.
pub enum ExprOutcome {
    Done(ExprView, int),
    Unsupported(char, int),
    Failed,
}

pub open spec fn expr_spec(s: Seq<char>, ops: bool, p: int) -> ExprOutcome
    decreases s.len() - p, 5nat, 1nat,
{
    xor_spec(s, ops, p)
}

pub open spec fn term_spec(s: Seq<char>, ops: bool, p: int) -> ExprOutcome
    decreases s.len() - p, 0nat, 1nat,
{
    let p1 = skip_ws(s, p);
    if at(s, p1, '(') {
        let p2 = skip_ws(s, p1 + 1);
        if p2 <= p || p2 > s.len() {
            ExprOutcome::Failed
        } else {
            match expr_spec(s, ops, p2) {
                ExprOutcome::Done(e, q) => {
                    let q1 = skip_ws(s, q);
                    if at(s, q1, ')') {
                        ExprOutcome::Done(e, q1 + 1)
                    } else {
                        ExprOutcome::Failed
                    }
                },
                other => other,
            }
        }
    } else {
        match ref_spec(s, p1) {
            Some((e, q)) => ExprOutcome::Done(e, q),
            None => ExprOutcome::Failed,
        }
    }
}

pub open spec fn inter_spec(s: Seq<char>, ops: bool, p: int) -> ExprOutcome
    decreases s.len() - p, 1nat, 1nat,
{
    match term_spec(s, ops, p) {
        ExprOutcome::Done(l, q) => if q < p || q > s.len() {
            ExprOutcome::Failed
        } else {
            inter_rest(s, ops, l, q)
        },
        other => other,
    }
}

pub open spec fn inter_rest(s: Seq<char>, ops: bool, l: ExprView, q: int) -> ExprOutcome
    decreases s.len() - q, 1nat, 0nat,
{
    let q1 = skip_ws(s, q);
    if at(s, q1, '&') {
        if !ops {
            ExprOutcome::Unsupported('&', q1)
        } else {
            let p2 = skip_ws(s, q1 + 1);
            if p2 <= q || p2 > s.len() {
                ExprOutcome::Failed
            } else {
                match term_spec(s, ops, p2) {
                    ExprOutcome::Done(r, q2) => if q2 < p2 || q2 > s.len() {
                        ExprOutcome::Failed
                    } else {
                        inter_rest(s, ops, ExprView::Intersection(Box::new(l), Box::new(r)), q2)
                    },
                    other => other,
                }
            }
        }
    } else {
        ExprOutcome::Done(l, q1)
    }
}

pub open spec fn union_spec(s: Seq<char>, ops: bool, p: int) -> ExprOutcome
    decreases s.len() - p, 2nat, 1nat,
{
    match inter_spec(s, ops, p) {
        ExprOutcome::Done(l, q) => if q < p || q > s.len() {
            ExprOutcome::Failed
        } else {
            union_rest(s, ops, l, q)
        },
        other => other,
    }
}

pub open spec fn union_rest(s: Seq<char>, ops: bool, l: ExprView, q: int) -> ExprOutcome
    decreases s.len() - q, 2nat, 0nat,
{
    let q1 = skip_ws(s, q);
    if at(s, q1, '+') {
            let p2 = skip_ws(s, q1 + 1);
            if p2 <= q || p2 > s.len() {
                ExprOutcome::Failed
            } else {
                match inter_spec(s, ops, p2) {
                    ExprOutcome::Done(r, q2) => if q2 < p2 || q2 > s.len() {
                        ExprOutcome::Failed
                    } else {
                        union_rest(s, ops, ExprView::Union(Box::new(l), Box::new(r)), q2)
                    },
                    other => other,
                }
            }
    } else {
        ExprOutcome::Done(l, q1)
    }
}

pub open spec fn diff_spec(s: Seq<char>, ops: bool, p: int) -> ExprOutcome
    decreases s.len() - p, 3nat, 1nat,
{
    match union_spec(s, ops, p) {
        ExprOutcome::Done(l, q) => if q < p || q > s.len() {
            ExprOutcome::Failed
        } else {
            diff_rest(s, ops, l, q)
        },
        other => other,
    }
}

pub open spec fn diff_rest(s: Seq<char>, ops: bool, l: ExprView, q: int) -> ExprOutcome
    decreases s.len() - q, 3nat, 0nat,
{
    let q1 = skip_ws(s, q);
    if at(s, q1, '-') {
        if !ops {
            ExprOutcome::Unsupported('-', q1)
        } else {
            let p2 = skip_ws(s, q1 + 1);
            if p2 <= q || p2 > s.len() {
                ExprOutcome::Failed
            } else {
                match union_spec(s, ops, p2) {
                    ExprOutcome::Done(r, q2) => if q2 < p2 || q2 > s.len() {
                        ExprOutcome::Failed
                    } else {
                        diff_rest(s, ops, ExprView::Difference(Box::new(l), Box::new(r)), q2)
                    },
                    other => other,
                }
            }
        }
    } else {
        ExprOutcome::Done(l, q1)
    }
}

pub open spec fn xor_spec(s: Seq<char>, ops: bool, p: int) -> ExprOutcome
    decreases s.len() - p, 4nat, 1nat,
{
    match diff_spec(s, ops, p) {
        ExprOutcome::Done(l, q) => if q < p || q > s.len() {
            ExprOutcome::Failed
        } else {
            xor_rest(s, ops, l, q)
        },
        other => other,
    }
}

pub open spec fn xor_rest(s: Seq<char>, ops: bool, l: ExprView, q: int) -> ExprOutcome
    decreases s.len() - q, 4nat, 0nat,
{
    let q1 = skip_ws(s, q);
    if at(s, q1, '^') {
        if !ops {
            ExprOutcome::Unsupported('^', q1)
        } else {
            let p2 = skip_ws(s, q1 + 1);
            if p2 <= q || p2 > s.len() {
                ExprOutcome::Failed
            } else {
                match diff_spec(s, ops, p2) {
                    ExprOutcome::Done(r, q2) => if q2 < p2 || q2 > s.len() {
                        ExprOutcome::Failed
                    } else {
                        xor_rest(s, ops, ExprView::Xor(Box::new(l), Box::new(r)), q2)
                    },
                    other => other,
                }
            }
        }
    } else {
        ExprOutcome::Done(l, q1)
    }
}

/// The outcome of a whole statement.
pub enum StmtOutcome {
    Statement(StmtView),
    Unsupported(char, int),
    Failed,
}

/// The statement body after the optional name, starting at `p`.
pub open spec fn body_outcome(s: Seq<char>, ops: bool, name: Option<Seq<char>>, p: int) -> StmtOutcome {
    if starts_at(s, p, "rc("@) {
        match box_spec(s, p + 3) {
            None => StmtOutcome::Failed,
            Some((c, q)) => if at(s, skip_ws(s, q), ')') {
                StmtOutcome::Statement(StmtView::Relative(name, c))
            } else {
                StmtOutcome::Failed
            },
        }
    } else if starts_at(s, p, "ac("@) {
        match box_spec(s, p + 3) {
            None => StmtOutcome::Failed,
            Some((c, q)) => if at(s, skip_ws(s, q), ')') {
                StmtOutcome::Statement(StmtView::Absolute(name, c))
            } else {
                StmtOutcome::Failed
            },
        }
    } else {
        match name {
            Some(n) => match expr_spec(s, ops, p) {
                ExprOutcome::Done(e, _) => StmtOutcome::Statement(StmtView::Expression(n, e)),
                ExprOutcome::Unsupported(c, q) => StmtOutcome::Unsupported(c, q),
                ExprOutcome::Failed => StmtOutcome::Failed,
            },
            None => StmtOutcome::Failed,
        }
    }
}

/// A whole geometry statement starting at `p`; what follows the statement is
/// not examined.
pub open spec fn geom_outcome(s: Seq<char>, ops: bool, p: int) -> StmtOutcome {
    let p0 = skip_ws(s, p);
    if !at(s, p0, '@') {
        StmtOutcome::Failed
    } else {
        match name_spec(s, p0 + 1) {
            None => StmtOutcome::Failed,
            Some(name) => {
                let p2 = match name {
                    Some(_) => skip_ws(s, find_char(s, p0 + 1, '=') + 1),
                    None => p0 + 1,
                };
                body_outcome(s, ops, name, p2)
            },
        }
    }
}

/// The statement, when the text parses as one.
pub open spec fn geom_spec(s: Seq<char>, ops: bool, p: int) -> Option<StmtView> {
    match geom_outcome(s, ops, p) {
        StmtOutcome::Statement(v) => Some(v),
        _ => None,
    }
}

/// An executable result agrees with a statement outcome.
pub open spec fn stmt_result(r: Result<GeometryStatement, crate::error::ParseError>, o: StmtOutcome) -> bool {
    match o {
        StmtOutcome::Statement(v) => r matches Ok(g) && stmt_view(g) == v,
        StmtOutcome::Unsupported(c, q) => r matches Err(crate::error::ParseError::UnsupportedOperator { position, operator })
            && operator@ == seq![c] && position == q,
        StmtOutcome::Failed => r is Err,
    }
}

/// An executable expression result agrees with a grammar rule's outcome,
/// ending at position `pos`.
pub open spec fn expr_result(
    r: Result<BooleanExpr, crate::error::ParseError>,
    pos: int,
    sp: ExprOutcome,
) -> bool {
    match sp {
        ExprOutcome::Done(v, q) => r matches Ok(e) && expr_view(e) == v && pos == q,
        ExprOutcome::Unsupported(c, q) => r matches Err(crate::error::ParseError::UnsupportedOperator { position, operator })
            && operator@ == seq![c] && position == q,
        ExprOutcome::Failed => r is Err,
    }
}

} // verus!
