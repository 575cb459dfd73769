use vstd::prelude::*;

use crate::ast::{height, lemma_well_formed_parts, well_formed, ASTNode};
use crate::error::Error;
use crate::lexer::{lex, tokenize, tokens_wf, Token};

verus! {

/// The greatest `height` of a tree that `parse` accepts. Deeper input is
/// rejected, which bounds the recursion of parsing and of every traversal
/// of a parsed tree.
pub const MAX_DEPTH: usize = 256;

/// How a token changes the parenthesis nesting.
pub open spec fn delta(t: Token) -> int {
    match t {
        Token::LParen => 1,
        Token::RParen => -1,
        _ => 0,
    }
}

/// The nesting depth just before position `m`, counted from `lo`.
pub open spec fn depth(t: Seq<Token>, lo: int, m: int) -> int
    decreases m - lo,
{
    if m <= lo {
        0
    } else {
        depth(t, lo, m - 1) + delta(t[m - 1])
    }
}

/// Position `m` holds `op` outside every parenthesis opened from `lo` on.
pub open spec fn is_top(t: Seq<Token>, lo: int, m: int, op: Token) -> bool {
    t[m] == op && depth(t, lo, m) == 0
}

/// The last position of `[lo, hi)` that holds `op` at the top level, or -1.
pub open spec fn last_top(t: Seq<Token>, lo: int, hi: int, op: Token) -> int
    decreases hi - lo,
{
    if hi <= lo {
        -1
    } else if is_top(t, lo, hi - 1, op) {
        hi - 1
    } else {
        last_top(t, lo, hi - 1, op)
    }
}

/// The first position of `[lo, hi)` that holds `op` at the top level, or -1.
pub open spec fn first_top(t: Seq<Token>, lo: int, hi: int, op: Token) -> int
    decreases hi - lo,
{
    if hi <= lo {
        -1
    } else {
        let f = first_top(t, lo, hi - 1, op);
        if f != -1 {
            f
        } else if is_top(t, lo, hi - 1, op) {
            hi - 1
        } else {
            -1
        }
    }
}

/// An equivalence chain, the loosest level; `==` associates to the left, so
/// the last top-level `==` splits the range.
pub open spec fn parse_equiv(t: Seq<Token>, lo: int, hi: int) -> Option<ASTNode>
    decreases hi - lo, 5int,
{
    let m = last_top(t, lo, hi, Token::Equiv);
    if lo <= m < hi {
        match (parse_equiv(t, lo, m), parse_implies(t, m + 1, hi)) {
            (Some(l), Some(r)) => Some(ASTNode::Equivalent(Box::new(l), Box::new(r))),
            _ => None,
        }
    } else {
        parse_implies(t, lo, hi)
    }
}

/// An implication chain; `=>` associates to the right, so the first
/// top-level `=>` splits the range.
pub open spec fn parse_implies(t: Seq<Token>, lo: int, hi: int) -> Option<ASTNode>
    decreases hi - lo, 4int,
{
    let m = first_top(t, lo, hi, Token::Implies);
    if lo <= m < hi {
        match (parse_or(t, lo, m), parse_implies(t, m + 1, hi)) {
            (Some(l), Some(r)) => Some(ASTNode::Implies(Box::new(l), Box::new(r))),
            _ => None,
        }
    } else {
        parse_or(t, lo, hi)
    }
}

/// A disjunction chain; `||` associates to the left.
pub open spec fn parse_or(t: Seq<Token>, lo: int, hi: int) -> Option<ASTNode>
    decreases hi - lo, 3int,
{
    let m = last_top(t, lo, hi, Token::Or);
    if lo <= m < hi {
        match (parse_or(t, lo, m), parse_and(t, m + 1, hi)) {
            (Some(l), Some(r)) => Some(ASTNode::Or(Box::new(l), Box::new(r))),
            _ => None,
        }
    } else {
        parse_and(t, lo, hi)
    }
}

/// A conjunction chain; `&&` associates to the left.
pub open spec fn parse_and(t: Seq<Token>, lo: int, hi: int) -> Option<ASTNode>
    decreases hi - lo, 2int,
{
    let m = last_top(t, lo, hi, Token::And);
    if lo <= m < hi {
        match (parse_and(t, lo, m), parse_not(t, m + 1, hi)) {
            (Some(l), Some(r)) => Some(ASTNode::And(Box::new(l), Box::new(r))),
            _ => None,
        }
    } else {
        parse_not(t, lo, hi)
    }
}

/// Prefix negations in front of an atom.
pub open spec fn parse_not(t: Seq<Token>, lo: int, hi: int) -> Option<ASTNode>
    decreases hi - lo, 1int,
{
    if lo < hi && t[lo] == Token::Not {
        match parse_not(t, lo + 1, hi) {
            Some(x) => Some(ASTNode::Not(Box::new(x))),
            None => None,
        }
    } else {
        parse_atom(t, lo, hi)
    }
}

/// A literal, a variable, or a parenthesized expression.
pub open spec fn parse_atom(t: Seq<Token>, lo: int, hi: int) -> Option<ASTNode>
    decreases hi - lo, 0int,
{
    if hi == lo + 1 {
        match t[lo] {
            Token::Var(c) => Some(ASTNode::Variable(c)),
            Token::True => Some(ASTNode::Literal(true)),
            Token::False => Some(ASTNode::Literal(false)),
            _ => None,
        }
    } else if hi >= lo + 2 && t[lo] == Token::LParen && t[hi - 1] == Token::RParen {
        match parse_equiv(t, lo + 1, hi - 1) {
            Some(x) => Some(ASTNode::Paren(Box::new(x))),
            None => None,
        }
    } else {
        None
    }
}

/// The expression that the whole of `s` spells, if any.
pub open spec fn parse_spec(s: Seq<char>) -> Option<ASTNode> {
    match lex(s) {
        Some(t) => parse_equiv(t, 0, t.len() as int),
        None => None,
    }
}

/// The position that `last_top` finds, if any.
fn find_last_top(t: &Vec<Token>, lo: usize, hi: usize, op: Token) -> (r: Option<usize>)
    requires
        lo <= hi <= t@.len(),
    ensures
        match r {
            Some(m) => lo <= m < hi && m as int == last_top(t@, lo as int, hi as int, op),
            None => last_top(t@, lo as int, hi as int, op) == -1,
        },
{
    let mut opens: usize = 0;
    let mut closes: usize = 0;
    let mut found: Option<usize> = None;
    let mut m: usize = lo;
    while m < hi
        invariant
            lo <= m <= hi <= t@.len(),
            opens + closes <= m - lo,
            opens - closes == depth(t@, lo as int, m as int),
            match found {
                Some(f) => lo <= f < m && f as int == last_top(t@, lo as int, m as int, op),
                None => last_top(t@, lo as int, m as int, op) == -1,
            },
        decreases hi - m,
    {
        if t[m] == op && opens == closes {
            found = Some(m);
        }
        match t[m] {
            Token::LParen => {
                opens = opens + 1;
            },
            Token::RParen => {
                closes = closes + 1;
            },
            _ => {},
        }
        m = m + 1;
    }
    found
}

/// The position that `first_top` finds, if any.
fn find_first_top(t: &Vec<Token>, lo: usize, hi: usize, op: Token) -> (r: Option<usize>)
    requires
        lo <= hi <= t@.len(),
    ensures
        match r {
            Some(m) => lo <= m < hi && m as int == first_top(t@, lo as int, hi as int, op),
            None => first_top(t@, lo as int, hi as int, op) == -1,
        },
{
    let mut opens: usize = 0;
    let mut closes: usize = 0;
    let mut m: usize = lo;
    while m < hi
        invariant
            lo <= m <= hi <= t@.len(),
            opens + closes <= m - lo,
            opens - closes == depth(t@, lo as int, m as int),
            first_top(t@, lo as int, m as int, op) == -1,
        decreases hi - m,
    {
        if t[m] == op && opens == closes {
            proof {
                assert(first_top(t@, lo as int, hi as int, op) == m) by {
                    lemma_first_top_stable(t@, lo as int, m as int + 1, hi as int, op);
                }
            }
            return Some(m);
        }
        match t[m] {
            Token::LParen => {
                opens = opens + 1;
            },
            Token::RParen => {
                closes = closes + 1;
            },
            _ => {},
        }
        m = m + 1;
    }
    None
}

/// Once found, the first top-level position stays the same as the range grows.
proof fn lemma_first_top_stable(t: Seq<Token>, lo: int, m: int, hi: int, op: Token)
    requires
        lo <= m <= hi,
        first_top(t, lo, m, op) != -1,
    ensures
        first_top(t, lo, hi, op) == first_top(t, lo, m, op),
    decreases hi - m,
{
    if m < hi {
        lemma_first_top_stable(t, lo, m, hi - 1, op);
    }
}

/// Parses `t[lo..hi)` as an equivalence chain.
fn parse_equiv_at(t: &Vec<Token>, lo: usize, hi: usize, budget: usize) -> (r: Result<ASTNode, usize>)
    requires
        lo <= hi <= t@.len(),
        tokens_wf(t@),
    ensures
        r is Ok <==> (parse_equiv(t@, lo as int, hi as int) is Some && height(
            parse_equiv(t@, lo as int, hi as int)->Some_0,
        ) <= budget),
        r is Ok ==> r == Ok::<ASTNode, usize>(parse_equiv(t@, lo as int, hi as int)->Some_0),
        r is Err ==> r->Err_0 <= t@.len(),
        r is Ok ==> well_formed(r->Ok_0),
    decreases hi - lo, 5int,
{
    match find_last_top(t, lo, hi, Token::Equiv) {
        Some(m) => {
            if budget == 0 {
                return Err(m);
            }
            let left = match parse_equiv_at(t, lo, m, budget - 1) {
                Ok(x) => x,
                Err(k) => {
                    return Err(k);
                },
            };
            let right = match parse_implies_at(t, m + 1, hi, budget - 1) {
                Ok(x) => x,
                Err(k) => {
                    return Err(k);
                },
            };
            let node = ASTNode::Equivalent(Box::new(left), Box::new(right));
            proof {
                lemma_well_formed_parts(node);
            }
            Ok(node)
        },
        None => parse_implies_at(t, lo, hi, budget),
    }
}

/// Parses `t[lo..hi)` as an implication chain.
fn parse_implies_at(t: &Vec<Token>, lo: usize, hi: usize, budget: usize) -> (r: Result<ASTNode, usize>)
    requires
        lo <= hi <= t@.len(),
        tokens_wf(t@),
    ensures
        r is Ok <==> (parse_implies(t@, lo as int, hi as int) is Some && height(
            parse_implies(t@, lo as int, hi as int)->Some_0,
        ) <= budget),
        r is Ok ==> r == Ok::<ASTNode, usize>(parse_implies(t@, lo as int, hi as int)->Some_0),
        r is Err ==> r->Err_0 <= t@.len(),
        r is Ok ==> well_formed(r->Ok_0),
    decreases hi - lo, 4int,
{
    match find_first_top(t, lo, hi, Token::Implies) {
        Some(m) => {
            if budget == 0 {
                return Err(m);
            }
            let left = match parse_or_at(t, lo, m, budget - 1) {
                Ok(x) => x,
                Err(k) => {
                    return Err(k);
                },
            };
            let right = match parse_implies_at(t, m + 1, hi, budget - 1) {
                Ok(x) => x,
                Err(k) => {
                    return Err(k);
                },
            };
            let node = ASTNode::Implies(Box::new(left), Box::new(right));
            proof {
                lemma_well_formed_parts(node);
            }
            Ok(node)
        },
        None => parse_or_at(t, lo, hi, budget),
    }
}

/// Parses `t[lo..hi)` as a disjunction chain.
fn parse_or_at(t: &Vec<Token>, lo: usize, hi: usize, budget: usize) -> (r: Result<ASTNode, usize>)
    requires
        lo <= hi <= t@.len(),
        tokens_wf(t@),
    ensures
        r is Ok <==> (parse_or(t@, lo as int, hi as int) is Some && height(
            parse_or(t@, lo as int, hi as int)->Some_0,
        ) <= budget),
        r is Ok ==> r == Ok::<ASTNode, usize>(parse_or(t@, lo as int, hi as int)->Some_0),
        r is Err ==> r->Err_0 <= t@.len(),
        r is Ok ==> well_formed(r->Ok_0),
    decreases hi - lo, 3int,
{
    match find_last_top(t, lo, hi, Token::Or) {
        Some(m) => {
            if budget == 0 {
                return Err(m);
            }
            let left = match parse_or_at(t, lo, m, budget - 1) {
                Ok(x) => x,
                Err(k) => {
                    return Err(k);
                },
            };
            let right = match parse_and_at(t, m + 1, hi, budget - 1) {
                Ok(x) => x,
                Err(k) => {
                    return Err(k);
                },
            };
            let node = ASTNode::Or(Box::new(left), Box::new(right));
            proof {
                lemma_well_formed_parts(node);
            }
            Ok(node)
        },
        None => parse_and_at(t, lo, hi, budget),
    }
}

/// Parses `t[lo..hi)` as a conjunction chain.
fn parse_and_at(t: &Vec<Token>, lo: usize, hi: usize, budget: usize) -> (r: Result<ASTNode, usize>)
    requires
        lo <= hi <= t@.len(),
        tokens_wf(t@),
    ensures
        r is Ok <==> (parse_and(t@, lo as int, hi as int) is Some && height(
            parse_and(t@, lo as int, hi as int)->Some_0,
        ) <= budget),
        r is Ok ==> r == Ok::<ASTNode, usize>(parse_and(t@, lo as int, hi as int)->Some_0),
        r is Err ==> r->Err_0 <= t@.len(),
        r is Ok ==> well_formed(r->Ok_0),
    decreases hi - lo, 2int,
{
    match find_last_top(t, lo, hi, Token::And) {
        Some(m) => {
            if budget == 0 {
                return Err(m);
            }
            let left = match parse_and_at(t, lo, m, budget - 1) {
                Ok(x) => x,
                Err(k) => {
                    return Err(k);
                },
            };
            let right = match parse_not_at(t, m + 1, hi, budget - 1) {
                Ok(x) => x,
                Err(k) => {
                    return Err(k);
                },
            };
            let node = ASTNode::And(Box::new(left), Box::new(right));
            proof {
                lemma_well_formed_parts(node);
            }
            Ok(node)
        },
        None => parse_not_at(t, lo, hi, budget),
    }
}

/// Parses `t[lo..hi)` as prefix negations in front of an atom.
fn parse_not_at(t: &Vec<Token>, lo: usize, hi: usize, budget: usize) -> (r: Result<ASTNode, usize>)
    requires
        lo <= hi <= t@.len(),
        tokens_wf(t@),
    ensures
        r is Ok <==> (parse_not(t@, lo as int, hi as int) is Some && height(
            parse_not(t@, lo as int, hi as int)->Some_0,
        ) <= budget),
        r is Ok ==> r == Ok::<ASTNode, usize>(parse_not(t@, lo as int, hi as int)->Some_0),
        r is Err ==> r->Err_0 <= t@.len(),
        r is Ok ==> well_formed(r->Ok_0),
    decreases hi - lo, 1int,
{
    if lo < hi && t[lo] == Token::Not {
        if budget == 0 {
            return Err(lo);
        }
        match parse_not_at(t, lo + 1, hi, budget - 1) {
            Ok(x) => {
                let node = ASTNode::Not(Box::new(x));
                proof {
                    lemma_well_formed_parts(node);
                }
                Ok(node)
            },
            Err(k) => Err(k),
        }
    } else {
        parse_atom_at(t, lo, hi, budget)
    }
}

/// Parses `t[lo..hi)` as a literal, a variable or a parenthesized expression.
fn parse_atom_at(t: &Vec<Token>, lo: usize, hi: usize, budget: usize) -> (r: Result<ASTNode, usize>)
    requires
        lo <= hi <= t@.len(),
        tokens_wf(t@),
    ensures
        r is Ok <==> (parse_atom(t@, lo as int, hi as int) is Some && height(
            parse_atom(t@, lo as int, hi as int)->Some_0,
        ) <= budget),
        r is Ok ==> r == Ok::<ASTNode, usize>(parse_atom(t@, lo as int, hi as int)->Some_0),
        r is Err ==> r->Err_0 <= t@.len(),
        r is Ok ==> well_formed(r->Ok_0),
    decreases hi - lo, 0int,
{
    if hi - lo == 1 {
        let node = match t[lo] {
            Token::Var(c) => ASTNode::Variable(c),
            Token::True => ASTNode::Literal(true),
            Token::False => ASTNode::Literal(false),
            _ => {
                return Err(lo);
            },
        };
        proof {
            lemma_well_formed_parts(node);
        }
        Ok(node)
    } else if hi - lo >= 2 && t[lo] == Token::LParen && t[hi - 1] == Token::RParen {
        if budget == 0 {
            return Err(lo);
        }
        match parse_equiv_at(t, lo + 1, hi - 1, budget - 1) {
            Ok(x) => {
                let node = ASTNode::Paren(Box::new(x));
                proof {
                    lemma_well_formed_parts(node);
                }
                Ok(node)
            },
            Err(k) => Err(k),
        }
    } else {
        Err(lo)
    }
}

/// Parses `input` as an expression. Whitespace may stand between tokens,
/// and the whole input must form one expression no higher than `MAX_DEPTH`.
pub fn parse(input: &str) -> (r: Result<ASTNode, Error>)
    ensures
        r is Ok <==> accepts(input@),
        r is Ok ==> r == Ok::<ASTNode, Error>(parse_spec(input@)->Some_0),
        r is Ok ==> well_formed(r->Ok_0),
        r is Err ==> syntax_error_within(r->Err_0, input@.len()),
{
    match tokenize(input) {
        Err(p) => Err(Error::Syntax { position: p }),
        Ok((toks, pos)) => match parse_equiv_at(&toks, 0, toks.len(), MAX_DEPTH) {
            Ok(e) => Ok(e),
            Err(k) => Err(Error::Syntax { position: pos[k] }),
        },
    }
}

/// `s` spells an expression no higher than `MAX_DEPTH`.
pub open spec fn accepts(s: Seq<char>) -> bool {
    parse_spec(s) is Some && height(parse_spec(s)->Some_0) <= MAX_DEPTH
}

/// `err` is a syntax error at an offset no greater than `len`.
pub open spec fn syntax_error_within(err: Error, len: nat) -> bool {
    match err {
        Error::Syntax { position } => position <= len,
        _ => false,
    }
}

} // verus!
