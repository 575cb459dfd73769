use vstd::prelude::*;
use vstd::arithmetic::power2::pow2;

use crate::assignments::Assignments;
use crate::ast::{is_symbol, occurrences, well_formed, ASTNode};
use crate::collect::{collect_into, distinct_variables, lemma_symbols_bound};
use crate::error::Error;
use crate::parser::{accepts, parse, parse_spec, syntax_error_within};
use crate::rows::{assignment_row, row, row_count, row_entries};
use crate::semantics::{
    covers, is_contingency, is_contradiction, is_tautology, lemma_distinct_variables,
    lemma_eval_agree, lemma_eval_total, lemma_row_covers, lemma_row_represents,
};

verus! {

/// The value of `e` under `a`, evaluated left to right with short-circuiting:
/// the right operand of `And`, `Or` and `Implies` is consulted only when the
/// left one does not already decide the result.
pub open spec fn eval_spec(e: ASTNode, a: Map<char, bool>) -> Result<bool, Error>
    decreases e,
{
    match e {
        ASTNode::Variable(s) => if a.contains_key(s) {
            Ok(a[s])
        } else {
            Err(Error::UnboundVariable { symbol: s })
        },
        ASTNode::Literal(v) => Ok(v),
        ASTNode::Not(x) => match eval_spec(*x, a) {
            Ok(v) => Ok(!v),
            Err(err) => Err(err),
        },
        ASTNode::And(l, r) => match eval_spec(*l, a) {
            Ok(false) => Ok(false),
            Ok(true) => eval_spec(*r, a),
            Err(err) => Err(err),
        },
        ASTNode::Or(l, r) => match eval_spec(*l, a) {
            Ok(true) => Ok(true),
            Ok(false) => eval_spec(*r, a),
            Err(err) => Err(err),
        },
        ASTNode::Implies(l, r) => match eval_spec(*l, a) {
            Ok(false) => Ok(true),
            Ok(true) => eval_spec(*r, a),
            Err(err) => Err(err),
        },
        ASTNode::Equivalent(l, r) => match eval_spec(*l, a) {
            Ok(x) => match eval_spec(*r, a) {
                Ok(y) => Ok(x == y),
                Err(err) => Err(err),
            },
            Err(err) => Err(err),
        },
        ASTNode::Paren(x) => eval_spec(*x, a),
    }
}

/// The entry point of the library: parsing, evaluation and classification.
#[derive(Debug)]
pub struct Engine {}

impl Default for Engine {
    fn default() -> (r: Engine)
        ensures
            r == (Engine {}),
    {
        Engine {}
    }
}

impl Engine {
    /// Parses `input` as an expression.
    pub fn parse(&self, input: &str) -> (r: Result<ASTNode, Error>)
        ensures
            r is Ok <==> accepts(input@),
            r is Ok ==> r == Ok::<ASTNode, Error>(parse_spec(input@)->Some_0),
            r is Ok ==> well_formed(r->Ok_0),
            r is Err ==> syntax_error_within(r->Err_0, input@.len()),
    {
        parse(input)
    }

    /// Parses `input` and evaluates it under `assignments`.
    pub fn eval_str(&self, input: &str, assignments: &Assignments) -> (r: Result<bool, Error>)
        requires
            assignments.wf(),
        ensures
            accepts(input@) ==> r == eval_spec(parse_spec(input@)->Some_0, assignments@),
            !accepts(input@) ==> r is Err && syntax_error_within(r->Err_0, input@.len()),
    {
        match self.parse(input) {
            Ok(e) => self.eval(&e, assignments),
            Err(err) => Err(err),
        }
    }

    /// Evaluates `expr` under `assignments`.
    pub fn eval(&self, expr: &ASTNode, assignments: &Assignments) -> (r: Result<bool, Error>)
        requires
            assignments.wf(),
        ensures
            r == eval_spec(*expr, assignments@),
        decreases expr,
    {
        match expr {
            ASTNode::Variable(s) => match assignments.get(*s) {
                Some(v) => Ok(v),
                None => Err(Error::UnboundVariable { symbol: *s }),
            },
            ASTNode::Literal(v) => Ok(*v),
            ASTNode::Not(x) => match self.eval(x, assignments) {
                Ok(v) => Ok(!v),
                Err(err) => Err(err),
            },
            ASTNode::And(l, r) => match self.eval(l, assignments) {
                Ok(false) => Ok(false),
                Ok(true) => self.eval(r, assignments),
                Err(err) => Err(err),
            },
            ASTNode::Or(l, r) => match self.eval(l, assignments) {
                Ok(true) => Ok(true),
                Ok(false) => self.eval(r, assignments),
                Err(err) => Err(err),
            },
            ASTNode::Implies(l, r) => match self.eval(l, assignments) {
                Ok(false) => Ok(true),
                Ok(true) => self.eval(r, assignments),
                Err(err) => Err(err),
            },
            ASTNode::Equivalent(l, r) => match self.eval(l, assignments) {
                Ok(x) => match self.eval(r, assignments) {
                    Ok(y) => Ok(x == y),
                    Err(err) => Err(err),
                },
                Err(err) => Err(err),
            },
            ASTNode::Paren(x) => self.eval(x, assignments),
        }
    }

    /// The distinct variables of `expr`, in order of first occurrence.
    pub fn collect_variables(&self, expr: &ASTNode) -> (r: Vec<char>)
        ensures
            r@ == distinct_variables(*expr),
            r@.no_duplicates(),
            forall|c: char| #[trigger] r@.contains(c) <==> occurrences(*expr).contains(c),
    {
        let mut acc: Vec<char> = Vec::new();
        collect_into(expr, &mut acc);
        proof {
            lemma_distinct_variables(*expr);
        }
        acc
    }

    /// Every assignment of `variables`, `2^n` rows: in row `i` the variable
    /// at position `p` is bound to bit `p` of `i`.
    pub fn compute_assignments(&self, variables: Vec<char>) -> (r: Vec<Assignments>)
        requires
            variables@.no_duplicates(),
            variables@.len() < 64,
        ensures
            r@.len() == pow2(variables@.len()),
            forall|i: int|
                0 <= i < r@.len() ==> {
                    &&& (#[trigger] r@[i]).wf()
                    &&& r@[i].entries() == row_entries(variables@, i as nat)
                    &&& r@[i]@ == row(variables@, i as nat)
                },
    {
        let rows = row_count(variables.len());
        let mut out: Vec<Assignments> = Vec::new();
        let mut i: u64 = 0;
        while i < rows
            invariant
                i <= rows,
                rows == pow2(variables@.len()),
                variables@.no_duplicates(),
                out@.len() == i,
                forall|j: int|
                    0 <= j < i ==> {
                        &&& (#[trigger] out@[j]).wf()
                        &&& out@[j].entries() == row_entries(variables@, j as nat)
                    },
            decreases rows - i,
        {
            let a = assignment_row(&variables, i);
            out.push(a);
            i = i + 1;
        }
        out
    }

    /// Whether `expr` evaluates to `target` under every row of the
    /// enumeration over its variables; stops at the first row that does not.
    fn holds_everywhere(&self, expr: &ASTNode, target: bool) -> (r: bool)
        requires
            well_formed(*expr),
        ensures
            r == forall|a: Map<char, bool>|
                covers(a, *expr) ==> eval_spec(*expr, a) == Ok::<bool, Error>(target),
    {
        let vars = self.collect_variables(expr);
        proof {
            assert forall|i: int| 0 <= i < vars@.len() implies is_symbol(#[trigger] vars@[i]) by {
                assert(vars@.contains(vars@[i]));
                let k = choose|k: int| 0 <= k < occurrences(*expr).len() && occurrences(*expr)[k] == vars@[i];
            }
            lemma_symbols_bound(vars@);
        }
        let rows = row_count(vars.len());
        let mut i: u64 = 0;
        while i < rows
            invariant
                i <= rows,
                rows == pow2(vars@.len()),
                vars@ == distinct_variables(*expr),
                vars@.no_duplicates(),
                forall|j: nat| j < i ==> eval_spec(*expr, #[trigger] row(vars@, j)) == Ok::<bool, Error>(target),
            decreases rows - i,
        {
            let a = assignment_row(&vars, i);
            proof {
                lemma_row_covers(*expr, i as nat);
                lemma_eval_total(*expr, a@);
            }
            let v = self.eval(expr, &a);
            match v {
                Ok(value) => {
                    if value != target {
                        return false;
                    }
                },
                Err(_) => {
                    return false;
                },
            }
            i = i + 1;
        }
        proof {
            assert forall|a: Map<char, bool>| covers(a, *expr) implies eval_spec(*expr, a) == Ok::<bool, Error>(target) by {
                let j = lemma_row_represents(*expr, a);
                lemma_eval_agree(*expr, a, row(vars@, j));
            }
        }
        true
    }

    /// Whether `expr` is true under every assignment of its variables.
    pub fn check_tautology(&self, expr: &ASTNode) -> (r: Result<bool, Error>)
        requires
            well_formed(*expr),
        ensures
            r == Ok::<bool, Error>(is_tautology(*expr)),
    {
        Ok(self.holds_everywhere(expr, true))
    }

    /// Whether `expr` is false under every assignment of its variables.
    pub fn check_contradiction(&self, expr: &ASTNode) -> (r: Result<bool, Error>)
        requires
            well_formed(*expr),
        ensures
            r == Ok::<bool, Error>(is_contradiction(*expr)),
    {
        Ok(self.holds_everywhere(expr, false))
    }

    /// Whether `expr` is neither a tautology nor a contradiction.
    pub fn check_contingency(&self, expr: &ASTNode) -> (r: Result<bool, Error>)
        requires
            well_formed(*expr),
        ensures
            r == Ok::<bool, Error>(is_contingency(*expr)),
    {
        let tautology = self.holds_everywhere(expr, true);
        let contradiction = self.holds_everywhere(expr, false);
        Ok(!tautology && !contradiction)
    }

    /// Every row of the enumeration over the variables of `expr`, with the
    /// value of `expr` under it, in enumeration order.
    pub fn compute_truth_table(&self, expr: &ASTNode) -> (r: Vec<(Assignments, bool)>)
        requires
            well_formed(*expr),
        ensures
            r@.len() == pow2(distinct_variables(*expr).len()),
            forall|i: int|
                0 <= i < r@.len() ==> {
                    &&& (#[trigger] r@[i]).0.wf()
                    &&& r@[i].0.entries() == row_entries(distinct_variables(*expr), i as nat)
                    &&& eval_spec(*expr, r@[i].0@) == Ok::<bool, Error>(r@[i].1)
                },
    {
        let vars = self.collect_variables(expr);
        proof {
            assert forall|i: int| 0 <= i < vars@.len() implies is_symbol(#[trigger] vars@[i]) by {
                assert(vars@.contains(vars@[i]));
                let k = choose|k: int| 0 <= k < occurrences(*expr).len() && occurrences(*expr)[k] == vars@[i];
            }
            lemma_symbols_bound(vars@);
        }
        let rows = row_count(vars.len());
        let mut table: Vec<(Assignments, bool)> = Vec::new();
        let mut i: u64 = 0;
        while i < rows
            invariant
                i <= rows,
                rows == pow2(vars@.len()),
                vars@ == distinct_variables(*expr),
                vars@.no_duplicates(),
                table@.len() == i,
                forall|j: int|
                    0 <= j < i ==> {
                        &&& (#[trigger] table@[j]).0.wf()
                        &&& table@[j].0.entries() == row_entries(vars@, j as nat)
                        &&& eval_spec(*expr, table@[j].0@) == Ok::<bool, Error>(table@[j].1)
                    },
            decreases rows - i,
        {
            let a = assignment_row(&vars, i);
            proof {
                lemma_row_covers(*expr, i as nat);
                lemma_eval_total(*expr, a@);
            }
            let value = match self.eval(expr, &a) {
                Ok(v) => v,
                Err(_) => false,
            };
            table.push((a, value));
            i = i + 1;
        }
        table
    }
}

} // verus!
