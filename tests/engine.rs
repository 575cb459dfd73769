use std::collections::HashSet;

use russell::{parse, ASTNode, Assignments, Engine, Error};

fn var(c: char) -> Box<ASTNode> {
    Box::new(ASTNode::Variable(c))
}

fn lit(v: bool) -> Box<ASTNode> {
    Box::new(ASTNode::Literal(v))
}

#[test]
fn test_collect_variables() {
    let engine = Engine::default();

    let mut actual = engine.collect_variables(
        &engine
            .parse("(a) && (b && c || ((((((d) || e)))))) => f == g")
            .unwrap(),
    );
    actual.sort();

    let expected = vec!['a', 'b', 'c', 'd', 'e', 'f', 'g'];

    assert_eq!(actual, expected);
}

#[test]
fn test_tautology() {
    let engine = Engine::default();

    // a || !a is a tautology
    let expr = engine.parse("a || !a").unwrap();
    assert!(engine.check_tautology(&expr).unwrap());

    // (a => b) => ((!b) => (!a)) is a tautology (contrapositive)
    let expr = engine.parse("(a => b) => ((!b) => (!a))").unwrap();
    assert!(engine.check_tautology(&expr).unwrap());

    // a && !a is not a tautology
    let expr = engine.parse("a && !a").unwrap();
    assert!(!engine.check_tautology(&expr).unwrap());

    // a is not a tautology
    let expr = engine.parse("a").unwrap();
    assert!(!engine.check_tautology(&expr).unwrap());
}

#[test]
fn test_contradiction() {
    let engine = Engine::default();

    // a && !a is a contradiction
    let expr = engine.parse("a && !a").unwrap();
    assert!(engine.check_contradiction(&expr).unwrap());

    // (a && b) && (!a || !b) is a contradiction
    let expr = engine.parse("(a && b) && (!a || !b)").unwrap();
    assert!(engine.check_contradiction(&expr).unwrap());

    // a || !a is not a contradiction
    let expr = engine.parse("a || !a").unwrap();
    assert!(!engine.check_contradiction(&expr).unwrap());

    // a is not a contradiction
    let expr = engine.parse("a").unwrap();
    assert!(!engine.check_contradiction(&expr).unwrap());
}

#[test]
fn test_contingency() {
    let engine = Engine::default();

    // a is a contingency (neither tautology nor contradiction)
    let expr = engine.parse("a").unwrap();
    assert!(engine.check_contingency(&expr).unwrap());

    // a && b is a contingency
    let expr = engine.parse("a && b").unwrap();
    assert!(engine.check_contingency(&expr).unwrap());

    // a || b is a contingency
    let expr = engine.parse("a || b").unwrap();
    assert!(engine.check_contingency(&expr).unwrap());

    // a => b is a contingency
    let expr = engine.parse("a => b").unwrap();
    assert!(engine.check_contingency(&expr).unwrap());

    // a || !a is not a contingency (it's a tautology)
    let expr = engine.parse("a || !a").unwrap();
    assert!(!engine.check_contingency(&expr).unwrap());

    // a && !a is not a contingency (it's a contradiction)
    let expr = engine.parse("a && !a").unwrap();
    assert!(!engine.check_contingency(&expr).unwrap());
}

#[test]
fn collect_variables_first_occurrence_order() {
    let engine = Engine::default();
    let expr = engine.parse("c && a || c => b == a").unwrap();
    assert_eq!(engine.collect_variables(&expr), vec!['c', 'a', 'b']);
    let expr = engine.parse("true || !false").unwrap();
    assert_eq!(engine.collect_variables(&expr), Vec::<char>::new());
}

#[test]
fn short_circuit_and_skips_unbound_right() {
    let engine = Engine::default();
    let expr = ASTNode::And(lit(false), var('z'));
    assert_eq!(engine.eval(&expr, &Assignments::new()), Ok(false));
}

#[test]
fn short_circuit_or_skips_unbound_right() {
    let engine = Engine::default();
    let expr = ASTNode::Or(lit(true), var('z'));
    assert_eq!(engine.eval(&expr, &Assignments::new()), Ok(true));
}

#[test]
fn short_circuit_implies_skips_unbound_right() {
    let engine = Engine::default();
    let expr = ASTNode::Implies(lit(false), var('z'));
    assert_eq!(engine.eval(&expr, &Assignments::new()), Ok(true));
}

#[test]
fn unbound_variable_is_reported() {
    let engine = Engine::default();
    let expr = ASTNode::And(lit(true), var('z'));
    assert_eq!(
        engine.eval(&expr, &Assignments::new()),
        Err(Error::UnboundVariable { symbol: 'z' })
    );
    // equivalence evaluates both sides
    let expr = ASTNode::Equivalent(lit(false), var('q'));
    assert_eq!(
        engine.eval(&expr, &Assignments::new()),
        Err(Error::UnboundVariable { symbol: 'q' })
    );
}

#[test]
fn eval_each_connective() {
    let engine = Engine::default();
    let mut a = Assignments::new();
    a.insert('p', true);
    a.insert('q', false);
    let cases = [
        ("p && q", false),
        ("p || q", true),
        ("p => q", false),
        ("q => p", true),
        ("p == q", false),
        ("!q == p", true),
        ("(p)", true),
        ("!p", false),
    ];
    for (text, expected) in cases {
        assert_eq!(engine.eval_str(text, &a), Ok(expected), "{}", text);
    }
}

#[test]
fn paren_is_transparent() {
    let engine = Engine::default();
    let mut a = Assignments::new();
    a.insert('x', false);
    a.insert('y', true);
    for text in ["x", "x || y", "x => y && !x", "x == y"] {
        let e = engine.parse(text).unwrap();
        let wrapped = ASTNode::Paren(Box::new(e.clone()));
        assert_eq!(engine.eval(&wrapped, &a), engine.eval(&e, &a));
    }
}

#[test]
fn eval_str_reports_syntax_error() {
    let engine = Engine::default();
    let a = Assignments::new();
    assert!(matches!(
        engine.eval_str("a &&", &a),
        Err(Error::Syntax { .. })
    ));
}

#[test]
fn syntax_errors() {
    for text in [
        "", "(a", "a)", "a b", "a &", "a & b", "&& a", "truex", "tru", "A", "a ==", "()", "!",
        "(a) (b)", "a => => b",
    ] {
        match parse(text) {
            Err(Error::Syntax { position }) => {
                assert!(position <= text.chars().count(), "{}", text)
            }
            other => panic!("{:?} parsed as {:?}", text, other),
        }
    }
    assert_eq!(parse("a # b"), Err(Error::Syntax { position: 2 }));
}

#[test]
fn precedence_scenarios() {
    assert_eq!(
        parse("p => q == r => s").unwrap(),
        ASTNode::Equivalent(
            Box::new(ASTNode::Implies(var('p'), var('q'))),
            Box::new(ASTNode::Implies(var('r'), var('s')))
        )
    );
    assert_eq!(
        parse("p||q&&r").unwrap(),
        ASTNode::Or(var('p'), Box::new(ASTNode::And(var('q'), var('r'))))
    );
    assert_eq!(
        parse("\tp\n=>\r\nq").unwrap(),
        ASTNode::Implies(var('p'), var('q'))
    );
}

#[test]
fn enumeration_has_all_distinct_rows() {
    let engine = Engine::default();
    for n in 0..6usize {
        let vars: Vec<char> = ('a'..='z').take(n).collect();
        let rows = engine.compute_assignments(vars.clone());
        assert_eq!(rows.len(), 1 << n);
        let mut seen: HashSet<Vec<(char, bool)>> = HashSet::new();
        for row in &rows {
            let bindings = row.bindings().to_vec();
            assert_eq!(bindings.len(), n);
            assert!(seen.insert(bindings));
        }
        assert_eq!(seen.len(), 1 << n);
    }
}

#[test]
fn enumeration_row_bits() {
    let engine = Engine::default();
    let rows = engine.compute_assignments(vec!['x', 'y', 'z']);
    assert_eq!(rows.len(), 8);
    // row 6 = 0b110: x is bit 0, y bit 1, z bit 2
    assert_eq!(rows[6].bindings(), &[('x', false), ('y', true), ('z', true)]);
    assert_eq!(rows[1].get('x'), Some(true));
    assert_eq!(rows[1].get('y'), Some(false));
    assert_eq!(rows[1].get('w'), None);
}

#[test]
fn enumeration_over_no_variables() {
    let engine = Engine::default();
    let rows = engine.compute_assignments(Vec::new());
    assert_eq!(rows.len(), 1);
    assert!(rows[0].bindings().is_empty());
}

#[test]
fn closed_expressions_are_classified() {
    let engine = Engine::default();
    let t = engine.parse("!false").unwrap();
    assert!(engine.check_tautology(&t).unwrap());
    assert!(!engine.check_contingency(&t).unwrap());
    let f = engine.parse("true && false").unwrap();
    assert!(engine.check_contradiction(&f).unwrap());
}

#[test]
fn truth_table_rows() {
    let engine = Engine::default();
    let expr = engine.parse("a => b").unwrap();
    let table = engine.compute_truth_table(&expr);
    let rows: Vec<(Vec<(char, bool)>, bool)> = table
        .iter()
        .map(|(a, v)| (a.bindings().to_vec(), *v))
        .collect();
    assert_eq!(
        rows,
        vec![
            (vec![('a', false), ('b', false)], true),
            (vec![('a', true), ('b', false)], false),
            (vec![('a', false), ('b', true)], true),
            (vec![('a', true), ('b', true)], true),
        ]
    );
}

#[test]
fn assignments_insert_replaces() {
    let mut a = Assignments::default();
    a.insert('k', true);
    a.insert('m', false);
    a.insert('k', false);
    assert_eq!(a.bindings(), &[('k', false), ('m', false)]);
    assert_eq!(a.get('k'), Some(false));
}

#[test]
fn tokenize_offsets() {
    let (tokens, offsets) = russell::tokenize(" true&&x").unwrap();
    assert_eq!(
        tokens,
        vec![russell::Token::True, russell::Token::And, russell::Token::Var('x')]
    );
    assert_eq!(offsets, vec![1, 5, 7, 8]);
    assert_eq!(russell::tokenize("a ? b"), Err(2));
}

#[test]
fn nesting_depth_is_bounded() {
    let max = russell::parser::MAX_DEPTH;
    let deep_ok = format!("{}x{}", "(".repeat(max), ")".repeat(max));
    assert!(parse(&deep_ok).is_ok());
    let too_deep = format!("{}x{}", "(".repeat(max + 1), ")".repeat(max + 1));
    assert!(matches!(parse(&too_deep), Err(Error::Syntax { .. })));
    let negations = format!("{}x", "!".repeat(max + 1));
    assert!(matches!(parse(&negations), Err(Error::Syntax { .. })));
    let chain = vec!["a"; max + 1].join(" && ");
    assert!(parse(&chain).is_ok());
    let chain = vec!["a"; max + 2].join(" && ");
    assert!(parse(&chain).is_err());
}
