use vstd::prelude::*;

verus! {

/// Boolean expression over region names, as in `@name=<expr>`.
#[derive(Debug, PartialEq)]
pub enum BooleanExpr {
    /// Reference to a region by name (e.g. `dataloop`, `cpu.core`)
    RegionRef(String),
    /// Union of two expressions (`a + b`)
    Union(Box<BooleanExpr>, Box<BooleanExpr>),
    /// Difference of two expressions (`a - b`)
    Difference(Box<BooleanExpr>, Box<BooleanExpr>),
    /// Intersection of two expressions (`a & b`)
    Intersection(Box<BooleanExpr>, Box<BooleanExpr>),
    /// Symmetric difference of two expressions (`a ^ b`)
    Xor(Box<BooleanExpr>, Box<BooleanExpr>),
}

impl Clone for BooleanExpr {
    fn clone(&self) -> (r: Self)
        ensures
            r == *self,
    {
        self.duplicate()
    }
}

/// The region names in an expression, left to right.
pub open spec fn refs_spec(e: BooleanExpr) -> Seq<Seq<char>>
    decreases e,
{
    match e {
        BooleanExpr::RegionRef(name) => seq![name@],
        BooleanExpr::Union(l, r) => refs_spec(*l) + refs_spec(*r),
        BooleanExpr::Difference(l, r) => refs_spec(*l) + refs_spec(*r),
        BooleanExpr::Intersection(l, r) => refs_spec(*l) + refs_spec(*r),
        BooleanExpr::Xor(l, r) => refs_spec(*l) + refs_spec(*r),
    }
}

/// An expression built from region references and `+` alone.
pub open spec fn union_only(e: BooleanExpr) -> bool
    decreases e,
{
    match e {
        BooleanExpr::RegionRef(_) => true,
        BooleanExpr::Union(l, r) => union_only(*l) && union_only(*r),
        _ => false,
    }
}

/// Number of nodes in an expression.
pub open spec fn expr_size(e: BooleanExpr) -> nat
    decreases e,
{
    match e {
        BooleanExpr::RegionRef(_) => 1,
        BooleanExpr::Union(l, r) => 1 + expr_size(*l) + expr_size(*r),
        BooleanExpr::Difference(l, r) => 1 + expr_size(*l) + expr_size(*r),
        BooleanExpr::Intersection(l, r) => 1 + expr_size(*l) + expr_size(*r),
        BooleanExpr::Xor(l, r) => 1 + expr_size(*l) + expr_size(*r),
    }
}

impl BooleanExpr {
    /// Create a union of two expressions.
    pub fn union(left: BooleanExpr, right: BooleanExpr) -> (r: Self)
        ensures
            r == BooleanExpr::Union(Box::new(left), Box::new(right)),
    {
        BooleanExpr::Union(Box::new(left), Box::new(right))
    }

    /// Create a difference of two expressions.
    pub fn difference(left: BooleanExpr, right: BooleanExpr) -> (r: Self)
        ensures
            r == BooleanExpr::Difference(Box::new(left), Box::new(right)),
    {
        BooleanExpr::Difference(Box::new(left), Box::new(right))
    }

    /// Create an intersection of two expressions.
    pub fn intersection(left: BooleanExpr, right: BooleanExpr) -> (r: Self)
        ensures
            r == BooleanExpr::Intersection(Box::new(left), Box::new(right)),
    {
        BooleanExpr::Intersection(Box::new(left), Box::new(right))
    }

    /// Create a symmetric difference of two expressions.
    pub fn xor(left: BooleanExpr, right: BooleanExpr) -> (r: Self)
        ensures
            r == BooleanExpr::Xor(Box::new(left), Box::new(right)),
    {
        BooleanExpr::Xor(Box::new(left), Box::new(right))
    }

    /// Create a region reference.
    pub fn region_ref(name: &str) -> (r: Self)
        ensures
            r matches BooleanExpr::RegionRef(n) && n@ == name@,
    {
        BooleanExpr::RegionRef(name.to_owned())
    }

    /// A copy of the expression.
    pub fn duplicate(&self) -> (r: Self)
        ensures
            r == *self,
        decreases self,
    {
        match self {
            BooleanExpr::RegionRef(n) => BooleanExpr::RegionRef(n.clone()),
            BooleanExpr::Union(l, r) => BooleanExpr::union(l.duplicate(), r.duplicate()),
            BooleanExpr::Difference(l, r) => BooleanExpr::difference(l.duplicate(), r.duplicate()),
            BooleanExpr::Intersection(l, r) => BooleanExpr::intersection(
                l.duplicate(),
                r.duplicate(),
            ),
            BooleanExpr::Xor(l, r) => BooleanExpr::xor(l.duplicate(), r.duplicate()),
        }
    }

    /// All region names mentioned in this expression, left to right.
    pub fn region_refs(&self) -> (r: Vec<String>)
        ensures
            r@.map_values(|s: String| s@) == refs_spec(*self),
    {
        let mut refs: Vec<String> = Vec::new();
        self.collect_region_refs(&mut refs);
        assert(refs@.map_values(|s: String| s@) =~= refs_spec(*self));
        refs
    }

    fn collect_region_refs(&self, refs: &mut Vec<String>)
        ensures
            final(refs)@.map_values(|s: String| s@) == old(refs)@.map_values(|s: String| s@)
                + refs_spec(*self),
        decreases self,
    {
        match self {
            BooleanExpr::RegionRef(name) => {
                refs.push(name.clone());
                assert(refs@.map_values(|s: String| s@) =~= old(refs)@.map_values(|s: String| s@)
                    + refs_spec(*self));
            },
            BooleanExpr::Union(left, right) | BooleanExpr::Difference(left, right)
            | BooleanExpr::Intersection(left, right) | BooleanExpr::Xor(left, right) => {
                left.collect_region_refs(refs);
                right.collect_region_refs(refs);
                assert(refs@.map_values(|s: String| s@) =~= old(refs)@.map_values(|s: String| s@)
                    + refs_spec(*self));
            },
        }
    }
}

} // verus!
