use vstd::arithmetic::power2::{lemma2_to64, lemma_pow2_unfold, pow2};
use vstd::prelude::*;

use crate::assignments::{keys_unique, lemma_to_map};
use crate::ast::{occurrences, ASTNode};
use crate::engine::eval_spec;
use crate::collect::{distinct_variables, lemma_dedup_props};
use crate::rows::{bit, row, row_entries};

verus! {

/// `a` binds every variable that occurs in `e`.
pub open spec fn covers(a: Map<char, bool>, e: ASTNode) -> bool {
    forall|i: int| 0 <= i < occurrences(e).len() ==> a.contains_key(#[trigger] occurrences(e)[i])
}

/// `a` and `b` bind every variable of `e`, and to the same values.
pub open spec fn agree_on(a: Map<char, bool>, b: Map<char, bool>, e: ASTNode) -> bool {
    forall|i: int|
        0 <= i < occurrences(e).len() ==> {
            let c = #[trigger] occurrences(e)[i];
            a.contains_key(c) && b.contains_key(c) && a[c] == b[c]
        }
}

/// True under every assignment that binds all its variables.
pub open spec fn is_tautology(e: ASTNode) -> bool {
    forall|a: Map<char, bool>| covers(a, e) ==> eval_spec(e, a) == Ok::<bool, crate::error::Error>(true)
}

/// False under every assignment that binds all its variables.
pub open spec fn is_contradiction(e: ASTNode) -> bool {
    forall|a: Map<char, bool>| covers(a, e) ==> eval_spec(e, a) == Ok::<bool, crate::error::Error>(false)
}

/// Neither a tautology nor a contradiction.
pub open spec fn is_contingency(e: ASTNode) -> bool {
    !is_tautology(e) && !is_contradiction(e)
}

/// The occurrences of a node are those of its children, left to right.
proof fn lemma_covers_parts(e: ASTNode)
    ensures
        match e {
            ASTNode::Not(x) => occurrences(e) == occurrences(*x),
            ASTNode::Paren(x) => occurrences(e) == occurrences(*x),
            ASTNode::And(l, r) => occurrences(e) == occurrences(*l) + occurrences(*r),
            ASTNode::Or(l, r) => occurrences(e) == occurrences(*l) + occurrences(*r),
            ASTNode::Implies(l, r) => occurrences(e) == occurrences(*l) + occurrences(*r),
            ASTNode::Equivalent(l, r) => occurrences(e) == occurrences(*l) + occurrences(*r),
            _ => true,
        },
{
}

/// Evaluation reads only the variables of the expression.
pub proof fn lemma_eval_agree(e: ASTNode, a: Map<char, bool>, b: Map<char, bool>)
    requires
        agree_on(a, b, e),
    ensures
        eval_spec(e, a) == eval_spec(e, b),
        eval_spec(e, a) is Ok,
    decreases e,
{
    lemma_covers_parts(e);
    match e {
        ASTNode::Variable(s) => {
            assert(occurrences(e)[0] == s);
        },
        ASTNode::Literal(_) => {},
        ASTNode::Not(x) => lemma_eval_agree(*x, a, b),
        ASTNode::Paren(x) => lemma_eval_agree(*x, a, b),
        ASTNode::And(l, r) | ASTNode::Or(l, r) | ASTNode::Implies(l, r) | ASTNode::Equivalent(l, r) => {
            let ol = occurrences(*l);
            let or = occurrences(*r);
            assert forall|i: int| 0 <= i < ol.len() implies {
                let c = #[trigger] ol[i];
                a.contains_key(c) && b.contains_key(c) && a[c] == b[c]
            } by {
                assert(occurrences(e)[i] == ol[i]);
            }
            assert forall|i: int| 0 <= i < or.len() implies {
                let c = #[trigger] or[i];
                a.contains_key(c) && b.contains_key(c) && a[c] == b[c]
            } by {
                assert(occurrences(e)[ol.len() + i] == or[i]);
            }
            lemma_eval_agree(*l, a, b);
            lemma_eval_agree(*r, a, b);
        },
    }
}

/// Some row of the enumeration over `vars` agrees with `m` on every variable
/// of `vars`; the index of one such row.
pub proof fn lemma_row_complete(vars: Seq<char>, m: Map<char, bool>) -> (i: nat)
    ensures
        i < pow2(vars.len()),
        forall|p: int| 0 <= p < vars.len() ==> #[trigger] bit(i, p as nat) == m[vars[p]],
    decreases vars.len(),
{
    if vars.len() == 0 {
        lemma2_to64();
        0
    } else {
        let rest = vars.drop_first();
        let j = lemma_row_complete(rest, m);
        let low: nat = if m[vars[0]] {
            1
        } else {
            0
        };
        let i: nat = 2 * j + low;
        lemma_pow2_unfold(vars.len());
        assert(i / 2 == j);
        assert forall|p: int| 0 <= p < vars.len() implies #[trigger] bit(i, p as nat) == m[vars[p]] by {
            if p > 0 {
                assert(bit(j, (p - 1) as nat) == m[rest[p - 1]]);
            }
        }
        i
    }
}

/// Two different indices below `2^n` differ in one of their lowest `n` bits.
pub proof fn lemma_bits_differ(i: nat, j: nat, n: nat) -> (p: nat)
    requires
        i != j,
        i < pow2(n),
        j < pow2(n),
    ensures
        p < n,
        bit(i, p) != bit(j, p),
    decreases n,
{
    if n == 0 {
        lemma2_to64();
        0
    } else if i % 2 != j % 2 {
        0
    } else {
        lemma_pow2_unfold(n);
        let q = lemma_bits_differ(i / 2, j / 2, (n - 1) as nat);
        q + 1
    }
}

/// Row `i` binds each variable of `vars` to its bit, and nothing else.
pub proof fn lemma_row_lookup(vars: Seq<char>, i: nat)
    requires
        vars.no_duplicates(),
    ensures
        keys_unique(row_entries(vars, i)),
        forall|p: int| 0 <= p < vars.len() ==> row(vars, i).contains_key(#[trigger] vars[p]),
        forall|p: int| 0 <= p < vars.len() ==> row(vars, i)[#[trigger] vars[p]] == bit(i, p as nat),
        forall|c: char| #[trigger] row(vars, i).contains_key(c) ==> vars.contains(c),
{
    let s = row_entries(vars, i);
    lemma_to_map(s);
    assert forall|p: int| 0 <= p < vars.len() implies row(vars, i).contains_key(#[trigger] vars[p]) by {
        assert(s[p].0 == vars[p]);
    }
    assert forall|p: int| 0 <= p < vars.len() implies row(vars, i)[#[trigger] vars[p]] == bit(i, p as nat) by {
        assert(s[p].0 == vars[p]);
    }
    assert forall|c: char| #[trigger] row(vars, i).contains_key(c) implies vars.contains(c) by {
        let k = choose|k: int| 0 <= k < s.len() && #[trigger] s[k].0 == c;
        assert(vars[k] == c);
    }
}

/// The distinct variables of `e` are listed once each and are exactly the
/// symbols that occur in `e`.
pub proof fn lemma_distinct_variables(e: ASTNode)
    ensures
        distinct_variables(e).no_duplicates(),
        forall|c: char| #[trigger] distinct_variables(e).contains(c) <==> occurrences(e).contains(c),
{
    lemma_dedup_props(Seq::empty(), occurrences(e));
}

/// Every row of the enumeration over the variables of `e` binds all of them.
pub proof fn lemma_row_covers(e: ASTNode, i: nat)
    ensures
        covers(row(distinct_variables(e), i), e),
{
    let vars = distinct_variables(e);
    lemma_distinct_variables(e);
    lemma_row_lookup(vars, i);
    assert forall|k: int| 0 <= k < occurrences(e).len() implies row(vars, i).contains_key(
        #[trigger] occurrences(e)[k],
    ) by {
        let c = occurrences(e)[k];
        assert(occurrences(e).contains(c));
        assert(distinct_variables(e).contains(c));
        assert(vars.contains(c));
        let p = choose|p: int| 0 <= p < vars.len() && vars[p] == c;
    }
}

/// Any assignment that binds all variables of `e` agrees on them with some
/// row of the enumeration over those variables; the index of one such row.
pub proof fn lemma_row_represents(e: ASTNode, a: Map<char, bool>) -> (i: nat)
    requires
        covers(a, e),
    ensures
        i < pow2(distinct_variables(e).len()),
        agree_on(a, row(distinct_variables(e), i), e),
{
    let vars = distinct_variables(e);
    lemma_distinct_variables(e);
    let i = lemma_row_complete(vars, a);
    lemma_row_lookup(vars, i);
    assert forall|k: int| 0 <= k < occurrences(e).len() implies {
        let c = #[trigger] occurrences(e)[k];
        a.contains_key(c) && row(vars, i).contains_key(c) && a[c] == row(vars, i)[c]
    } by {
        let c = occurrences(e)[k];
        assert(occurrences(e).contains(c));
        assert(distinct_variables(e).contains(c));
        assert(vars.contains(c));
        let p = choose|p: int| 0 <= p < vars.len() && vars[p] == c;
        assert(bit(i, p as nat) == a[vars[p]]);
    }
    i
}

/// Under an assignment that binds all its variables, evaluation succeeds.
pub proof fn lemma_eval_total(e: ASTNode, a: Map<char, bool>)
    requires
        covers(a, e),
    ensures
        eval_spec(e, a) is Ok,
{
    assert(agree_on(a, a, e));
    lemma_eval_agree(e, a, a);
}

/// Grouping is semantically transparent: a parenthesized expression has the
/// value of the expression inside, under every assignment.
pub proof fn lemma_paren_transparent(e: ASTNode, a: Map<char, bool>)
    ensures
        eval_spec(ASTNode::Paren(Box::new(e)), a) == eval_spec(e, a),
{
}

/// The enumeration over `n` distinct variables has `2^n` rows, no two of
/// them equal, and every assignment of exactly those variables is one of
/// its rows.
pub proof fn lemma_enumeration_exact(vars: Seq<char>)
    requires
        vars.no_duplicates(),
    ensures
        forall|i: nat, j: nat| i < j < pow2(vars.len()) ==> #[trigger] row(vars, i) != #[trigger] row(vars, j),
        forall|m: Map<char, bool>|
            m.dom() == vars.to_set() ==> exists|i: nat| i < pow2(vars.len()) && #[trigger] row(vars, i) == m,
{
    assert forall|i: nat, j: nat| i < j < pow2(vars.len()) implies #[trigger] row(vars, i) != #[trigger] row(vars, j) by {
        let p = lemma_bits_differ(i, j, vars.len());
        lemma_row_lookup(vars, i);
        lemma_row_lookup(vars, j);
        assert(row(vars, i)[vars[p as int]] != row(vars, j)[vars[p as int]]);
    }
    assert forall|m: Map<char, bool>| m.dom() == vars.to_set() implies exists|i: nat|
        i < pow2(vars.len()) && #[trigger] row(vars, i) == m by {
        let i = lemma_row_complete(vars, m);
        lemma_row_lookup(vars, i);
        assert forall|c: char| #[trigger] row(vars, i).contains_key(c) == m.contains_key(c) by {
            if m.contains_key(c) {
                assert(vars.to_set().contains(c));
                let p = choose|p: int| 0 <= p < vars.len() && vars[p] == c;
            }
        }
        assert forall|c: char| #[trigger] row(vars, i).contains_key(c) implies row(vars, i)[c] == m[c] by {
            let p = choose|p: int| 0 <= p < vars.len() && vars[p] == c;
            assert(bit(i, p as nat) == m[vars[p]]);
        }
        assert(row(vars, i) =~= m);
    }
}

} // verus!
