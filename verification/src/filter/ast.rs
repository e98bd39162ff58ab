//! The parsed form of a filter expression.

use vstd::prelude::*;

use crate::expr::ast::{add_new, lemma_add_new_concat, push_new};
use crate::text::{clone_string, from_str, push_str};

verus! {

#[derive(Debug)]
pub enum BoolExpr {
    /// A named filter block.
    Name(String),
    Not(Box<BoolExpr>),
    And(Box<BoolExpr>, Box<BoolExpr>),
    Or(Box<BoolExpr>, Box<BoolExpr>),
}

/// The mathematical form of a filter expression.
pub enum BoolExprV {
    Name(Seq<char>),
    Not(Box<BoolExprV>),
    And(Box<BoolExprV>, Box<BoolExprV>),
    Or(Box<BoolExprV>, Box<BoolExprV>),
}

pub open spec fn bool_expr_view(e: &BoolExpr) -> BoolExprV
    decreases e,
{
    match e {
        BoolExpr::Name(n) => BoolExprV::Name(n@),
        BoolExpr::Not(inner) => BoolExprV::Not(Box::new(bool_expr_view(inner))),
        BoolExpr::And(l, r) => BoolExprV::And(
            Box::new(bool_expr_view(l)),
            Box::new(bool_expr_view(r)),
        ),
        BoolExpr::Or(l, r) => BoolExprV::Or(
            Box::new(bool_expr_view(l)),
            Box::new(bool_expr_view(r)),
        ),
    }
}

impl View for BoolExpr {
    type V = BoolExprV;

    open spec fn view(&self) -> BoolExprV {
        bool_expr_view(self)
    }
}

/// Every name leaf, left to right, repeats included.
pub open spec fn bool_name_leaves(e: BoolExprV) -> Seq<Seq<char>>
    decreases e,
{
    match e {
        BoolExprV::Name(n) => seq![n],
        BoolExprV::Not(inner) => bool_name_leaves(*inner),
        BoolExprV::And(l, r) => bool_name_leaves(*l) + bool_name_leaves(*r),
        BoolExprV::Or(l, r) => bool_name_leaves(*l) + bool_name_leaves(*r),
    }
}

/// Every filter name referenced, in order of first appearance.
pub open spec fn bool_names(e: BoolExprV) -> Seq<Seq<char>> {
    add_new(seq![], bool_name_leaves(e))
}

/// Fully bracketed rendering.
pub open spec fn bool_canonical(e: BoolExprV) -> Seq<char>
    decreases e,
{
    match e {
        BoolExprV::Name(n) => n,
        BoolExprV::Not(inner) => "(not "@ + bool_canonical(*inner) + ")"@,
        BoolExprV::And(l, r) => "("@ + bool_canonical(*l) + " and "@ + bool_canonical(*r) + ")"@,
        BoolExprV::Or(l, r) => "("@ + bool_canonical(*l) + " or "@ + bool_canonical(*r) + ")"@,
    }
}

impl BoolExpr {
    pub fn and(lhs: BoolExpr, rhs: BoolExpr) -> (r: BoolExpr)
        ensures
            r@ == BoolExprV::And(Box::new(lhs@), Box::new(rhs@)),
    {
        BoolExpr::And(Box::new(lhs), Box::new(rhs))
    }

    pub fn or(lhs: BoolExpr, rhs: BoolExpr) -> (r: BoolExpr)
        ensures
            r@ == BoolExprV::Or(Box::new(lhs@), Box::new(rhs@)),
    {
        BoolExpr::Or(Box::new(lhs), Box::new(rhs))
    }

    pub fn negate(inner: BoolExpr) -> (r: BoolExpr)
        ensures
            r@ == BoolExprV::Not(Box::new(inner@)),
    {
        BoolExpr::Not(Box::new(inner))
    }

    /// Every filter name referenced, in order of first appearance.
    pub fn names(&self) -> (r: Vec<String>)
        ensures
            r@.map_values(|x: String| x@) == bool_names(self@),
    {
        let mut out: Vec<String> = Vec::new();
        assert(out@.map_values(|x: String| x@) =~= Seq::<Seq<char>>::empty());
        self.collect_names(&mut out);
        out
    }

    fn collect_names(&self, out: &mut Vec<String>)
        ensures
            final(out)@.map_values(|x: String| x@) == add_new(
                old(out)@.map_values(|x: String| x@),
                bool_name_leaves(self@),
            ),
        decreases self,
    {
        match self {
            BoolExpr::Name(name) => {
                push_new(out, name);
            },
            BoolExpr::Not(inner) => {
                inner.collect_names(out);
            },
            BoolExpr::And(lhs, rhs) => {
                let ghost before = out@.map_values(|x: String| x@);
                lhs.collect_names(out);
                rhs.collect_names(out);
                proof {
                    lemma_add_new_concat(before, bool_name_leaves(lhs@), bool_name_leaves(rhs@));
                }
            },
            BoolExpr::Or(lhs, rhs) => {
                let ghost before = out@.map_values(|x: String| x@);
                lhs.collect_names(out);
                rhs.collect_names(out);
                proof {
                    lemma_add_new_concat(before, bool_name_leaves(lhs@), bool_name_leaves(rhs@));
                }
            },
        }
    }

    /// Fully bracketed rendering, used in error messages and tests.
    pub fn to_canonical_string(&self) -> (r: String)
        ensures
            r@ == bool_canonical(self@),
        decreases self,
    {
        match self {
            BoolExpr::Name(name) => clone_string(name),
            BoolExpr::Not(inner) => {
                let mut s = from_str("(not ");
                let i = inner.to_canonical_string();
                push_str(&mut s, i.as_str());
                push_str(&mut s, ")");
                s
            },
            BoolExpr::And(lhs, rhs) => {
                let mut s = from_str("(");
                let l = lhs.to_canonical_string();
                push_str(&mut s, l.as_str());
                push_str(&mut s, " and ");
                let r = rhs.to_canonical_string();
                push_str(&mut s, r.as_str());
                push_str(&mut s, ")");
                s
            },
            BoolExpr::Or(lhs, rhs) => {
                let mut s = from_str("(");
                let l = lhs.to_canonical_string();
                push_str(&mut s, l.as_str());
                push_str(&mut s, " or ");
                let r = rhs.to_canonical_string();
                push_str(&mut s, r.as_str());
                push_str(&mut s, ")");
                s
            },
        }
    }
}

} // verus!
