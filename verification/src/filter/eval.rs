//! Turning a parsed filter expression into something that can be run per item.
//!
//! Names are resolved once, at config-compile time, into a tree that holds the
//! filter blocks directly. Evaluation then allocates nothing and cannot fail,
//! which matters because it runs once per item per request.

use vstd::prelude::*;

use super::ast::{BoolExpr, BoolExprV};
use super::attr::Attribute;
use super::cond::{block_holds, conditions_view, ConditionV, FilterDef, UnknownPolicy};
use crate::model::{Item, ItemView};
use crate::text::{clone_string, from_str, push_str, string_eq};

verus! {

/// A filter expression names a block that is not defined.
#[derive(Debug)]
pub struct UnknownFilter(pub String);

pub open spec fn unknown_filter_message(name: Seq<char>) -> Seq<char> {
    "filter expression references `"@ + name + "`, which is not a defined filter"@
}

impl UnknownFilter {
    pub fn message(&self) -> (r: String)
        ensures
            r@ == unknown_filter_message(self.0@),
    {
        let mut m = from_str("filter expression references `");
        push_str(&mut m, self.0.as_str());
        push_str(&mut m, "`, which is not a defined filter");
        m
    }
}

#[derive(Debug)]
pub enum Program {
    Leaf(FilterDef),
    Not(Box<Program>),
    And(Box<Program>, Box<Program>),
    Or(Box<Program>, Box<Program>),
}

/// A filter block as the program sees it: its conditions and its policy.
pub struct BlockV {
    pub conditions: Seq<ConditionV>,
    pub unknown: UnknownPolicy,
}

pub open spec fn block_view(f: FilterDef) -> BlockV {
    BlockV { conditions: conditions_view(f.conditions@), unknown: f.unknown }
}

pub enum ProgramV {
    Leaf(BlockV),
    Not(Box<ProgramV>),
    And(Box<ProgramV>, Box<ProgramV>),
    Or(Box<ProgramV>, Box<ProgramV>),
}

pub open spec fn program_view(p: &Program) -> ProgramV
    decreases p,
{
    match p {
        Program::Leaf(f) => ProgramV::Leaf(block_view(*f)),
        Program::Not(inner) => ProgramV::Not(Box::new(program_view(inner))),
        Program::And(l, r) => ProgramV::And(Box::new(program_view(l)), Box::new(program_view(r))),
        Program::Or(l, r) => ProgramV::Or(Box::new(program_view(l)), Box::new(program_view(r))),
    }
}

impl View for Program {
    type V = ProgramV;

    open spec fn view(&self) -> ProgramV {
        program_view(self)
    }
}

/// Whether a program accepts an item.
pub open spec fn accepts(p: ProgramV, item: ItemView) -> bool
    decreases p,
{
    match p {
        ProgramV::Leaf(b) => block_holds(b.conditions, item, b.unknown),
        ProgramV::Not(inner) => !accepts(*inner, item),
        ProgramV::And(l, r) => accepts(*l, item) && accepts(*r, item),
        ProgramV::Or(l, r) => accepts(*l, item) || accepts(*r, item),
    }
}

/// The first defined block with the name `name`.
pub open spec fn find_block(filters: Seq<FilterDef>, name: Seq<char>) -> Option<int>
    decreases filters.len(),
{
    if filters.len() == 0 {
        None
    } else if filters[0].name@ == name {
        Some(0)
    } else {
        match find_block(filters.drop_first(), name) {
            Some(i) => Some(i + 1),
            None => None,
        }
    }
}

pub proof fn lemma_find_block(filters: Seq<FilterDef>, name: Seq<char>)
    ensures
        find_block(filters, name) matches Some(i) ==> 0 <= i < filters.len() && filters[i].name@
            == name && forall|j: int| 0 <= j < i ==> (#[trigger] filters[j]).name@ != name,
        find_block(filters, name) is None ==> forall|j: int|
            0 <= j < filters.len() ==> (#[trigger] filters[j]).name@ != name,
    decreases filters.len(),
{
    if filters.len() > 0 {
        lemma_find_block(filters.drop_first(), name);
        assert forall|j: int| 1 <= j < filters.len() implies filters[j] == filters.drop_first()[j
            - 1] by {}
    }
}

/// The program a filter expression compiles to against the defined blocks,
/// or the first name, left to right, that no block has.
pub open spec fn compile_spec(e: BoolExprV, filters: Seq<FilterDef>) -> Result<ProgramV, Seq<char>>
    decreases e,
{
    match e {
        BoolExprV::Name(n) => match find_block(filters, n) {
            Some(i) => Ok(ProgramV::Leaf(block_view(filters[i]))),
            None => Err(n),
        },
        BoolExprV::Not(inner) => match compile_spec(*inner, filters) {
            Ok(p) => Ok(ProgramV::Not(Box::new(p))),
            Err(n) => Err(n),
        },
        BoolExprV::And(l, r) => match compile_spec(*l, filters) {
            Err(n) => Err(n),
            Ok(lp) => match compile_spec(*r, filters) {
                Err(n) => Err(n),
                Ok(rp) => Ok(ProgramV::And(Box::new(lp), Box::new(rp))),
            },
        },
        BoolExprV::Or(l, r) => match compile_spec(*l, filters) {
            Err(n) => Err(n),
            Ok(lp) => match compile_spec(*r, filters) {
                Err(n) => Err(n),
                Ok(rp) => Ok(ProgramV::Or(Box::new(lp), Box::new(rp))),
            },
        },
    }
}

/// Whether every filter name an expression references is among `names`.
pub open spec fn filter_known(e: BoolExprV, names: Seq<Seq<char>>) -> bool
    decreases e,
{
    match e {
        BoolExprV::Name(n) => names.contains(n),
        BoolExprV::Not(inner) => filter_known(*inner, names),
        BoolExprV::And(l, r) => filter_known(*l, names) && filter_known(*r, names),
        BoolExprV::Or(l, r) => filter_known(*l, names) && filter_known(*r, names),
    }
}

/// The names of the defined blocks.
pub open spec fn block_names(filters: Seq<FilterDef>) -> Seq<Seq<char>> {
    filters.map_values(|d: FilterDef| d.name@)
}

/// A filter expression compiles exactly when every name it references is
/// defined.
pub proof fn lemma_compile_ok(e: BoolExprV, filters: Seq<FilterDef>)
    ensures
        compile_spec(e, filters) is Ok <==> filter_known(e, block_names(filters)),
    decreases e,
{
    match e {
        BoolExprV::Name(n) => {
            lemma_find_block(filters, n);
            if block_names(filters).contains(n) {
                let j = choose|j: int| 0 <= j < block_names(filters).len() && block_names(filters)[j] == n;
                assert(filters[j].name@ == n);
            }
            if let Some(i) = find_block(filters, n) {
                assert(block_names(filters)[i] == n);
            }
        },
        BoolExprV::Not(inner) => lemma_compile_ok(*inner, filters),
        BoolExprV::And(l, r) => {
            lemma_compile_ok(*l, filters);
            lemma_compile_ok(*r, filters);
        },
        BoolExprV::Or(l, r) => {
            lemma_compile_ok(*l, filters);
            lemma_compile_ok(*r, filters);
        },
    }
}

/// Every attribute a program reads, repeats included, left to right.
pub open spec fn attribute_leaves(p: ProgramV) -> Seq<Attribute>
    decreases p,
{
    match p {
        ProgramV::Leaf(b) => b.conditions.map_values(|c: ConditionV| c.attribute),
        ProgramV::Not(inner) => attribute_leaves(*inner),
        ProgramV::And(l, r) => attribute_leaves(*l) + attribute_leaves(*r),
        ProgramV::Or(l, r) => attribute_leaves(*l) + attribute_leaves(*r),
    }
}

/// The position of an attribute in its declaration order, which is the order
/// the derived `Ord` sorts by.
pub open spec fn attribute_rank(a: Attribute) -> nat {
    match a {
        Attribute::Country => 0,
        Attribute::OriginalLanguage => 1,
        Attribute::SpokenLanguage => 2,
        Attribute::Genre => 3,
        Attribute::ContentRating => 4,
        Attribute::Status => 5,
        Attribute::Runtime => 6,
        Attribute::Year => 7,
        Attribute::Release => 8,
        Attribute::Title => 9,
        Attribute::Type => 10,
    }
}

fn find_filter(filters: &Vec<FilterDef>, name: &String) -> (r: Option<usize>)
    ensures
        match r {
            Some(i) => find_block(filters@, name@) == Some(i as int),
            None => find_block(filters@, name@) is None,
        },
{
    proof {
        lemma_find_block(filters@, name@);
    }
    let mut i: usize = 0;
    while i < filters.len()
        invariant
            0 <= i <= filters@.len(),
            forall|j: int| 0 <= j < i ==> (#[trigger] filters@[j]).name@ != name@,
            find_block(filters@, name@) matches Some(m) ==> i <= m && 0 <= m < filters@.len()
                && filters@[m].name@ == name@ && forall|j: int|
                0 <= j < m ==> (#[trigger] filters@[j]).name@ != name@,
            find_block(filters@, name@) is None ==> forall|j: int|
                0 <= j < filters@.len() ==> (#[trigger] filters@[j]).name@ != name@,
        decreases filters.len() - i,
    {
        if string_eq(&filters[i].name, name) {
            return Some(i);
        }
        i += 1;
    }
    None
}

impl Program {
    pub fn compile(expr: &BoolExpr, filters: &Vec<FilterDef>) -> (r: Result<Program, UnknownFilter>)
        ensures
            match (r, compile_spec(expr@, filters@)) {
                (Ok(p), Ok(m)) => p@ == m,
                (Err(e), Err(n)) => e.0@ == n,
                _ => false,
            },
        decreases expr,
    {
        match expr {
            BoolExpr::Name(name) => {
                proof {
                    lemma_find_block(filters@, name@);
                }
                match find_filter(filters, name) {
                Some(i) => {
                    let block = filters[i].duplicate();
                    Ok(Program::Leaf(block))
                },
                None => Err(UnknownFilter(clone_string(name))),
            }},
            BoolExpr::Not(inner) => match Program::compile(inner, filters) {
                Ok(p) => Ok(Program::Not(Box::new(p))),
                Err(e) => Err(e),
            },
            BoolExpr::And(lhs, rhs) => {
                let l = match Program::compile(lhs, filters) {
                    Ok(p) => p,
                    Err(e) => return Err(e),
                };
                let r = match Program::compile(rhs, filters) {
                    Ok(p) => p,
                    Err(e) => return Err(e),
                };
                Ok(Program::And(Box::new(l), Box::new(r)))
            },
            BoolExpr::Or(lhs, rhs) => {
                let l = match Program::compile(lhs, filters) {
                    Ok(p) => p,
                    Err(e) => return Err(e),
                };
                let r = match Program::compile(rhs, filters) {
                    Ok(p) => p,
                    Err(e) => return Err(e),
                };
                Ok(Program::Or(Box::new(l), Box::new(r)))
            },
        }
    }

    pub fn matches(&self, item: &Item) -> (r: bool)
        ensures
            r == accepts(self@, item@),
        decreases self,
    {
        match self {
            Program::Leaf(filter) => filter.matches(item),
            Program::Not(inner) => !inner.matches(item),
            Program::And(lhs, rhs) => lhs.matches(item) && rhs.matches(item),
            Program::Or(lhs, rhs) => lhs.matches(item) || rhs.matches(item),
        }
    }

    fn collect_attributes(&self, out: &mut Vec<Attribute>)
        ensures
            final(out)@ == old(out)@ + attribute_leaves(self@),
        decreases self,
    {
        match self {
            Program::Leaf(filter) => {
                let found = filter.attributes();
                let ghost before = out@;
                let mut i: usize = 0;
                while i < found.len()
                    invariant
                        0 <= i <= found@.len(),
                        out@ == before + found@.subrange(0, i as int),
                    decreases found.len() - i,
                {
                    out.push(found[i]);
                    assert(out@ =~= before + found@.subrange(0, i + 1));
                    i += 1;
                }
                assert(found@.subrange(0, found@.len() as int) =~= found@);
                assert(found@ =~= conditions_view(filter.conditions@).map_values(
                    |c: ConditionV| c.attribute,
                ));
            },
            Program::Not(inner) => inner.collect_attributes(out),
            Program::And(lhs, rhs) | Program::Or(lhs, rhs) => {
                let ghost before = out@;
                lhs.collect_attributes(out);
                rhs.collect_attributes(out);
                assert(out@ =~= before + attribute_leaves(self@));
            },
        }
    }

    /// Every attribute this program reads, once each, in `Attribute`'s order.
    /// The enricher uses it to fetch only what is actually going to be looked at.
    pub fn attributes(&self) -> (r: Vec<Attribute>)
        ensures
            forall|a: Attribute| r@.contains(a) <==> attribute_leaves(self@).contains(a),
            forall|i: int, j: int|
                0 <= i < j < r@.len() ==> attribute_rank(r@[i]) < attribute_rank(r@[j]),
    {
        let mut seen: Vec<Attribute> = Vec::new();
        self.collect_attributes(&mut seen);
        assert(seen@ =~= attribute_leaves(self@));
        let order = vec![
            Attribute::Country,
            Attribute::OriginalLanguage,
            Attribute::SpokenLanguage,
            Attribute::Genre,
            Attribute::ContentRating,
            Attribute::Status,
            Attribute::Runtime,
            Attribute::Year,
            Attribute::Release,
            Attribute::Title,
            Attribute::Type,
        ];
        assert forall|a: Attribute| order@.contains(a) by {
            match a {
                Attribute::Country => assert(order@[0] == a),
                Attribute::OriginalLanguage => assert(order@[1] == a),
                Attribute::SpokenLanguage => assert(order@[2] == a),
                Attribute::Genre => assert(order@[3] == a),
                Attribute::ContentRating => assert(order@[4] == a),
                Attribute::Status => assert(order@[5] == a),
                Attribute::Runtime => assert(order@[6] == a),
                Attribute::Year => assert(order@[7] == a),
                Attribute::Release => assert(order@[8] == a),
                Attribute::Title => assert(order@[9] == a),
                Attribute::Type => assert(order@[10] == a),
            }
        }
        assert(forall|k: int| 0 <= k < 11 ==> attribute_rank(#[trigger] order@[k]) == k);
        let mut out: Vec<Attribute> = Vec::new();
        let mut k: usize = 0;
        while k < order.len()
            invariant
                0 <= k <= order@.len(),
                order@.len() == 11,
                forall|m: int| 0 <= m < 11 ==> attribute_rank(#[trigger] order@[m]) == m,
                forall|a: Attribute| order@.contains(a),
                forall|a: Attribute|
                    out@.contains(a) <==> (seen@.contains(a) && attribute_rank(a) < k),
                forall|i: int, j: int|
                    0 <= i < j < out@.len() ==> attribute_rank(out@[i]) < attribute_rank(out@[j]),
                forall|i: int| 0 <= i < out@.len() ==> attribute_rank(#[trigger] out@[i]) < k,
            decreases order.len() - k,
        {
            let a = order[k];
            let mut present = false;
            let mut m: usize = 0;
            while m < seen.len()
                invariant
                    0 <= m <= seen@.len(),
                    present == exists|t: int| 0 <= t < m && seen@[t] == a,
                decreases seen.len() - m,
            {
                if seen[m] == a {
                    present = true;
                }
                m += 1;
            }
            let ghost before = out@;
            if present {
                out.push(a);
            }
            assert forall|b: Attribute|
                out@.contains(b) <==> (seen@.contains(b) && attribute_rank(b) < k + 1) by {
                if attribute_rank(b) == k {
                    assert(b == a) by {
                        assert(attribute_rank(order@[k as int]) == k);
                        match b {
                            _ => {},
                        }
                    }
                }
                if out@.contains(b) && !before.contains(b) {
                    let t = choose|t: int| 0 <= t < out@.len() && out@[t] == b;
                    assert(t == before.len());
                }
                if before.contains(b) {
                    let t = choose|t: int| 0 <= t < before.len() && before[t] == b;
                    assert(out@[t] == b);
                }
                if present && b == a {
                    assert(out@[before.len() as int] == b);
                }
            }
            k += 1;
        }
        out
    }
}

} // verus!
