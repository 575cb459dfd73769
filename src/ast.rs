use vstd::prelude::*;

verus! {

/// A propositional-logic expression tree.
#[derive(Debug, PartialEq, Eq)]
pub enum ASTNode {
    Variable(char),
    Literal(bool),
    Not(Box<ASTNode>),
    And(Box<ASTNode>, Box<ASTNode>),
    Or(Box<ASTNode>, Box<ASTNode>),
    Implies(Box<ASTNode>, Box<ASTNode>),
    Equivalent(Box<ASTNode>, Box<ASTNode>),
    /// Explicit grouping from the source text; semantically transparent.
    Paren(Box<ASTNode>),
}

/// A structural copy of `e`.
pub fn copy_tree(e: &ASTNode) -> (r: ASTNode)
    ensures
        r == *e,
    decreases e,
{
    match e {
        ASTNode::Variable(s) => ASTNode::Variable(*s),
        ASTNode::Literal(v) => ASTNode::Literal(*v),
        ASTNode::Not(x) => ASTNode::Not(Box::new(copy_tree(x))),
        ASTNode::And(l, r) => ASTNode::And(Box::new(copy_tree(l)), Box::new(copy_tree(r))),
        ASTNode::Or(l, r) => ASTNode::Or(Box::new(copy_tree(l)), Box::new(copy_tree(r))),
        ASTNode::Implies(l, r) => ASTNode::Implies(Box::new(copy_tree(l)), Box::new(copy_tree(r))),
        ASTNode::Equivalent(l, r) => ASTNode::Equivalent(
            Box::new(copy_tree(l)),
            Box::new(copy_tree(r)),
        ),
        ASTNode::Paren(x) => ASTNode::Paren(Box::new(copy_tree(x))),
    }
}

impl Clone for ASTNode {
    fn clone(&self) -> (r: ASTNode)
        ensures
            r == *self,
    {
        copy_tree(self)
    }
}

/// Every variable occurrence of `e`, left to right.
pub open spec fn occurrences(e: ASTNode) -> Seq<char>
    decreases e,
{
    match e {
        ASTNode::Variable(s) => seq![s],
        ASTNode::Literal(_) => seq![],
        ASTNode::Not(x) => occurrences(*x),
        ASTNode::And(l, r) => occurrences(*l) + occurrences(*r),
        ASTNode::Or(l, r) => occurrences(*l) + occurrences(*r),
        ASTNode::Implies(l, r) => occurrences(*l) + occurrences(*r),
        ASTNode::Equivalent(l, r) => occurrences(*l) + occurrences(*r),
        ASTNode::Paren(x) => occurrences(*x),
    }
}

/// The number of operator nodes on the longest path from the root of `e` to
/// a leaf.
pub open spec fn height(e: ASTNode) -> nat
    decreases e,
{
    match e {
        ASTNode::Variable(_) => 0,
        ASTNode::Literal(_) => 0,
        ASTNode::Not(x) => 1 + height(*x),
        ASTNode::Paren(x) => 1 + height(*x),
        ASTNode::And(l, r) => 1 + max_nat(height(*l), height(*r)),
        ASTNode::Or(l, r) => 1 + max_nat(height(*l), height(*r)),
        ASTNode::Implies(l, r) => 1 + max_nat(height(*l), height(*r)),
        ASTNode::Equivalent(l, r) => 1 + max_nat(height(*l), height(*r)),
    }
}

/// The larger of `a` and `b`.
pub open spec fn max_nat(a: nat, b: nat) -> nat {
    if a >= b {
        a
    } else {
        b
    }
}

/// A variable symbol of the grammar: one lowercase ASCII letter.
pub open spec fn is_symbol(c: char) -> bool {
    'a' <= c <= 'z'
}

/// Well-formed: every variable symbol is a lowercase ASCII letter.
pub open spec fn well_formed(e: ASTNode) -> bool {
    forall|i: int| 0 <= i < occurrences(e).len() ==> is_symbol(#[trigger] occurrences(e)[i])
}

/// A node is well formed exactly when its leaf symbol, or each of its
/// children, is.
pub proof fn lemma_well_formed_parts(e: ASTNode)
    ensures
        match e {
            ASTNode::Variable(s) => well_formed(e) == is_symbol(s),
            ASTNode::Literal(_) => well_formed(e),
            ASTNode::Not(x) => well_formed(e) == well_formed(*x),
            ASTNode::Paren(x) => well_formed(e) == well_formed(*x),
            ASTNode::And(l, r) => well_formed(e) == (well_formed(*l) && well_formed(*r)),
            ASTNode::Or(l, r) => well_formed(e) == (well_formed(*l) && well_formed(*r)),
            ASTNode::Implies(l, r) => well_formed(e) == (well_formed(*l) && well_formed(*r)),
            ASTNode::Equivalent(l, r) => well_formed(e) == (well_formed(*l) && well_formed(*r)),
        },
{
    match e {
        ASTNode::Variable(c) => {
            assert(occurrences(e)[0] == c);
            assert(occurrences(e).len() == 1);
            if well_formed(e) {
                assert(is_symbol(occurrences(e)[0]));
            }
            if is_symbol(c) {
                assert forall|i: int| 0 <= i < occurrences(e).len() implies is_symbol(
                    #[trigger] occurrences(e)[i],
                ) by {
                    assert(i == 0);
                }
            }
            assert(well_formed(e) == is_symbol(c));
        },
        ASTNode::Not(x) | ASTNode::Paren(x) => {
            assert(occurrences(e) == occurrences(*x));
        },
        ASTNode::Literal(_) => {
            assert(occurrences(e).len() == 0);
        },
        ASTNode::And(l, r) | ASTNode::Or(l, r) | ASTNode::Implies(l, r) | ASTNode::Equivalent(l, r) => {
            let ol = occurrences(*l);
            let or = occurrences(*r);
            if well_formed(e) {
                assert forall|i: int| 0 <= i < ol.len() implies is_symbol(#[trigger] ol[i]) by {
                    assert(occurrences(e)[i] == ol[i]);
                }
                assert forall|i: int| 0 <= i < or.len() implies is_symbol(#[trigger] or[i]) by {
                    assert(occurrences(e)[ol.len() + i] == or[i]);
                }
            }
            if well_formed(*l) && well_formed(*r) {
                assert forall|i: int| 0 <= i < occurrences(e).len() implies is_symbol(
                    #[trigger] occurrences(e)[i],
                ) by {
                    if i < ol.len() {
                        assert(occurrences(e)[i] == ol[i]);
                    } else {
                        assert(occurrences(e)[i] == or[i - ol.len()]);
                    }
                }
            }
        },
    }
}

} // verus!
