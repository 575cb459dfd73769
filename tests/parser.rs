use russell::{parse, ASTNode};

#[test]
fn test_variables() {
    for c in 'a'..='z' {
        assert_eq!(parse(&c.to_string()).unwrap(), ASTNode::Variable(c));
    }
}

#[test]
fn test_literals() {
    assert_eq!(parse("true").unwrap(), ASTNode::Literal(true));
    assert_eq!(parse("false").unwrap(), ASTNode::Literal(false));
}

#[test]
fn test_paren() {
    assert_eq!(
        parse("(true)").unwrap(),
        ASTNode::Paren(Box::new(ASTNode::Literal(true)))
    );
    assert_eq!(
        parse("(false)").unwrap(),
        ASTNode::Paren(Box::new(ASTNode::Literal(false)))
    );

    assert_eq!(
        parse("(x)").unwrap(),
        ASTNode::Paren(Box::new(ASTNode::Variable('x')))
    );
    assert_eq!(
        parse("((x))").unwrap(),
        ASTNode::Paren(Box::new(ASTNode::Paren(Box::new(ASTNode::Variable('x')))))
    );
}

#[test]
fn test_not() {
    assert_eq!(
        parse("!x").unwrap(),
        ASTNode::Not(Box::new(ASTNode::Variable('x')))
    );

    assert_eq!(
        parse("!!x").unwrap(),
        ASTNode::Not(Box::new(ASTNode::Not(Box::new(ASTNode::Variable('x')))))
    );
}

#[test]
fn test_and() {
    assert_eq!(
        parse("x && y").unwrap(),
        ASTNode::And(
            Box::new(ASTNode::Variable('x')),
            Box::new(ASTNode::Variable('y'))
        )
    );

    assert_eq!(
        parse("x && (y && z)").unwrap(),
        ASTNode::And(
            Box::new(ASTNode::Variable('x')),
            Box::new(ASTNode::Paren(Box::new(ASTNode::And(
                Box::new(ASTNode::Variable('y')),
                Box::new(ASTNode::Variable('z'))
            ))))
        )
    );
}

#[test]
fn test_or() {
    assert_eq!(
        parse("x || y").unwrap(),
        ASTNode::Or(
            Box::new(ASTNode::Variable('x')),
            Box::new(ASTNode::Variable('y'))
        )
    );

    assert_eq!(
        parse("x || (y || z)").unwrap(),
        ASTNode::Or(
            Box::new(ASTNode::Variable('x')),
            Box::new(ASTNode::Paren(Box::new(ASTNode::Or(
                Box::new(ASTNode::Variable('y')),
                Box::new(ASTNode::Variable('z'))
            ))))
        )
    );
}

#[test]
fn test_implies() {
    assert_eq!(
        parse("x => y").unwrap(),
        ASTNode::Implies(
            Box::new(ASTNode::Variable('x')),
            Box::new(ASTNode::Variable('y'))
        )
    );

    assert_eq!(
        parse("x => (y => z)").unwrap(),
        ASTNode::Implies(
            Box::new(ASTNode::Variable('x')),
            Box::new(ASTNode::Paren(Box::new(ASTNode::Implies(
                Box::new(ASTNode::Variable('y')),
                Box::new(ASTNode::Variable('z'))
            ))))
        )
    );
}

#[test]
fn test_not_has_higher_precedence_than_and() {
    assert_eq!(
        parse("!p && q").unwrap(),
        ASTNode::And(
            Box::new(ASTNode::Not(Box::new(ASTNode::Variable('p')))),
            Box::new(ASTNode::Variable('q'))
        )
    );
}

#[test]
fn test_and_has_higher_precedence_than_or() {
    assert_eq!(
        parse("p || q && r").unwrap(),
        ASTNode::Or(
            Box::new(ASTNode::Variable('p')),
            Box::new(ASTNode::And(
                Box::new(ASTNode::Variable('q')),
                Box::new(ASTNode::Variable('r'))
            ))
        )
    );
}

#[test]
fn test_or_has_higher_precedence_than_implies() {
    assert_eq!(
        parse("p => q || r").unwrap(),
        ASTNode::Implies(
            Box::new(ASTNode::Variable('p')),
            Box::new(ASTNode::Or(
                Box::new(ASTNode::Variable('q')),
                Box::new(ASTNode::Variable('r'))
            ))
        )
    );
}

#[test]
fn test_parentheses_override_precedence() {
    assert_eq!(
        parse("(p || q) && r").unwrap(),
        ASTNode::And(
            Box::new(ASTNode::Paren(Box::new(ASTNode::Or(
                Box::new(ASTNode::Variable('p')),
                Box::new(ASTNode::Variable('q'))
            )))),
            Box::new(ASTNode::Variable('r'))
        )
    );
}

#[test]
fn test_whitespace_handling() {
    assert_eq!(
        parse("  p   &&   q  ").unwrap(),
        ASTNode::And(
            Box::new(ASTNode::Variable('p')),
            Box::new(ASTNode::Variable('q'))
        )
    );
}

#[test]
fn test_equivalent() {
    assert_eq!(
        parse("x == y").unwrap(),
        ASTNode::Equivalent(
            Box::new(ASTNode::Variable('x')),
            Box::new(ASTNode::Variable('y'))
        )
    );

    assert_eq!(
        parse("x == (y == z)").unwrap(),
        ASTNode::Equivalent(
            Box::new(ASTNode::Variable('x')),
            Box::new(ASTNode::Paren(Box::new(ASTNode::Equivalent(
                Box::new(ASTNode::Variable('y')),
                Box::new(ASTNode::Variable('z'))
            ))))
        )
    );
}

#[test]
fn test_implies_has_higher_precedence_than_equivalent() {
    assert_eq!(
        parse("p => q == r => s").unwrap(),
        ASTNode::Equivalent(
            Box::new(ASTNode::Implies(
                Box::new(ASTNode::Variable('p')),
                Box::new(ASTNode::Variable('q'))
            )),
            Box::new(ASTNode::Implies(
                Box::new(ASTNode::Variable('r')),
                Box::new(ASTNode::Variable('s'))
            ))
        )
    );
}

#[test]
fn test_or_has_higher_precedence_than_equivalent() {
    assert_eq!(
        parse("p || q == r || s").unwrap(),
        ASTNode::Equivalent(
            Box::new(ASTNode::Or(
                Box::new(ASTNode::Variable('p')),
                Box::new(ASTNode::Variable('q'))
            )),
            Box::new(ASTNode::Or(
                Box::new(ASTNode::Variable('r')),
                Box::new(ASTNode::Variable('s'))
            ))
        )
    );
}

#[test]
fn test_complex_equivalent_expression() {
    assert_eq!(
        parse("!(p => q) == p || !q").unwrap(),
        ASTNode::Equivalent(
            Box::new(ASTNode::Not(Box::new(ASTNode::Paren(Box::new(
                ASTNode::Implies(
                    Box::new(ASTNode::Variable('p')),
                    Box::new(ASTNode::Variable('q'))
                )
            ))))),
            Box::new(ASTNode::Or(
                Box::new(ASTNode::Variable('p')),
                Box::new(ASTNode::Not(Box::new(ASTNode::Variable('q'))))
            ))
        )
    );
}

#[test]
fn test_nested_parentheses() {
    assert_eq!(
        parse("((x))").unwrap(),
        ASTNode::Paren(Box::new(ASTNode::Paren(Box::new(ASTNode::Variable('x')))))
    );
}

#[test]
fn test_multiple_not_operators() {
    assert_eq!(
        parse("!!!x").unwrap(),
        ASTNode::Not(Box::new(ASTNode::Not(Box::new(ASTNode::Not(Box::new(
            ASTNode::Variable('x')
        ))))))
    );
}

#[test]
fn test_parenthesized_equivalent() {
    assert_eq!(
        parse("(p == q)").unwrap(),
        ASTNode::Paren(Box::new(ASTNode::Equivalent(
            Box::new(ASTNode::Variable('p')),
            Box::new(ASTNode::Variable('q'))
        )))
    );
}

#[test]
fn test_and_left_associativity() {
    assert_eq!(
        parse("p && q && r").unwrap(),
        ASTNode::And(
            Box::new(ASTNode::And(
                Box::new(ASTNode::Variable('p')),
                Box::new(ASTNode::Variable('q'))
            )),
            Box::new(ASTNode::Variable('r'))
        )
    );
}

#[test]
fn test_or_left_associativity() {
    assert_eq!(
        parse("p || q || r").unwrap(),
        ASTNode::Or(
            Box::new(ASTNode::Or(
                Box::new(ASTNode::Variable('p')),
                Box::new(ASTNode::Variable('q'))
            )),
            Box::new(ASTNode::Variable('r'))
        )
    );
}

#[test]
fn test_implies_right_associativity() {
    assert_eq!(
        parse("p => q => r").unwrap(),
        ASTNode::Implies(
            Box::new(ASTNode::Variable('p')),
            Box::new(ASTNode::Implies(
                Box::new(ASTNode::Variable('q')),
                Box::new(ASTNode::Variable('r'))
            ))
        )
    );
}

#[test]
fn test_equivalent_left_associativity() {
    assert_eq!(
        parse("p == q == r").unwrap(),
        ASTNode::Equivalent(
            Box::new(ASTNode::Equivalent(
                Box::new(ASTNode::Variable('p')),
                Box::new(ASTNode::Variable('q'))
            )),
            Box::new(ASTNode::Variable('r'))
        )
    );
}

#[test]
fn test_single_variable() {
    assert_eq!(parse("x").unwrap(), ASTNode::Variable('x'));
}

#[test]
fn test_single_literal_true() {
    assert_eq!(parse("true").unwrap(), ASTNode::Literal(true));
}

#[test]
fn test_single_literal_false() {
    assert_eq!(parse("false").unwrap(), ASTNode::Literal(false));
}

#[test]
fn test_not_with_parentheses() {
    assert_eq!(
        parse("!(x)").unwrap(),
        ASTNode::Not(Box::new(ASTNode::Paren(Box::new(ASTNode::Variable('x')))))
    );
}

#[test]
fn test_equivalent_with_literals() {
    assert_eq!(
        parse("true == false").unwrap(),
        ASTNode::Equivalent(
            Box::new(ASTNode::Literal(true)),
            Box::new(ASTNode::Literal(false))
        )
    );
}

#[test]
fn test_mixed_operators_precedence() {
    assert_eq!(
        parse("!p && q || r => s == t").unwrap(),
        ASTNode::Equivalent(
            Box::new(ASTNode::Implies(
                Box::new(ASTNode::Or(
                    Box::new(ASTNode::And(
                        Box::new(ASTNode::Not(Box::new(ASTNode::Variable('p')))),
                        Box::new(ASTNode::Variable('q'))
                    )),
                    Box::new(ASTNode::Variable('r'))
                )),
                Box::new(ASTNode::Variable('s'))
            )),
            Box::new(ASTNode::Variable('t'))
        )
    );
}

#[test]
fn test_all_operators_with_parentheses() {
    assert_eq!(
        parse("(p && q) || (r => s) == (t)").unwrap(),
        ASTNode::Equivalent(
            Box::new(ASTNode::Or(
                Box::new(ASTNode::Paren(Box::new(ASTNode::And(
                    Box::new(ASTNode::Variable('p')),
                    Box::new(ASTNode::Variable('q'))
                )))),
                Box::new(ASTNode::Paren(Box::new(ASTNode::Implies(
                    Box::new(ASTNode::Variable('r')),
                    Box::new(ASTNode::Variable('s'))
                ))))
            )),
            Box::new(ASTNode::Paren(Box::new(ASTNode::Variable('t'))))
        )
    );
}
