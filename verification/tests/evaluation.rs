use bool_formula::formula::{MyError, Node, Op, Oper};
use bool_formula::set_eval::{checked_eval_set, eval_set, SetFormulaError};
use bool_formula::stack_eval::{checked_eval_formula, eval, eval_formula, ParsingError};

#[test]
fn boolean_evaluation_test_eval_formula() {
    assert!(!eval_formula("10&"));
    assert!(eval_formula("10|"));
    assert!(eval_formula("101|&"));
    assert!(eval_formula("1011||="));
    assert!(!eval_formula("010&1|&"));
}

#[test]
fn ex03_boolean_evaluation_test_eval_formula() {
    assert!(!eval_formula("10&"));
    assert!(eval_formula("10|"));
    assert!(eval_formula("101|&"));
    assert!(eval_formula("1011||="));
    assert!(!eval_formula("010&1|&"));
    assert!(!eval_formula("1!"));

    assert!(!eval_formula("10>"));
    assert!(eval_formula("11>"));
    assert!(eval_formula("01>"));

    assert!(eval_formula("11="));
    assert!(!eval_formula("01="));

    assert!(!eval_formula("11^"));
    assert!(eval_formula("10^"));

    assert!(checked_eval_formula("1&").is_err());
}

#[test]
fn stack_evaluation_reports_each_error() {
    assert_eq!(checked_eval_formula("1&"), Err(ParsingError::MissingValue('&')));
    assert_eq!(checked_eval_formula("&"), Err(ParsingError::MissingValue('&')));
    assert_eq!(checked_eval_formula("!"), Err(ParsingError::MissingValue('!')));
    assert_eq!(checked_eval_formula("1A&"), Err(ParsingError::InvalidChar('A')));
    assert_eq!(checked_eval_formula("10"), Err(ParsingError::TooManyValues));
    assert_eq!(checked_eval_formula(""), Err(ParsingError::TooManyValues));
    // the first failure is the one that is reported
    assert_eq!(checked_eval_formula("1|x"), Err(ParsingError::MissingValue('|')));
    // bytes, not characters, are the tokens
    assert_eq!(checked_eval_formula("\u{e9}"), Err(ParsingError::InvalidChar('\u{c3}')));
    assert_eq!(checked_eval_formula("0!1&"), Ok(true));
}

#[test]
fn stack_evaluation_messages() {
    assert_eq!(ParsingError::InvalidChar('x').to_string(), "invalid character: 'x'");
    assert_eq!(ParsingError::MissingValue('&').to_string(), "missing value for operator: &");
    assert_eq!(ParsingError::TooManyValues.to_string(), "formula returns multiple values");
}

#[test]
fn connectives_by_their_bytes() {
    for a in [false, true] {
        for b in [false, true] {
            assert_eq!(eval(a, b, b'&'), a && b);
            assert_eq!(eval(a, b, b'|'), a || b);
            assert_eq!(eval(a, b, b'^'), a != b);
            assert_eq!(eval(a, b, b'>'), !a || b);
            assert_eq!(eval(a, b, b'='), a == b);
        }
    }
}

#[test]
fn stack_evaluation_agrees_with_the_tree() {
    for formula in ["10&", "1011||=", "010&1|&", "1!0!^", "01>1=!", "1!!0|"] {
        let tree = Node::parse(formula).unwrap();
        assert_eq!(Ok(tree.evaluate().unwrap()), checked_eval_formula(formula));
    }
}

#[test]
fn evaluate_applies_each_connective() {
    let value = |formula: &str| Node::parse(formula).unwrap().evaluate();
    assert_eq!(value("1"), Ok(true));
    assert_eq!(value("0!"), Ok(true));
    assert_eq!(value("10&"), Ok(false));
    assert_eq!(value("10|"), Ok(true));
    assert_eq!(value("11^"), Ok(false));
    assert_eq!(value("10>"), Ok(false));
    assert_eq!(value("01>"), Ok(true));
    assert_eq!(value("00="), Ok(true));
}

#[test]
fn evaluate_fails_on_the_first_variable() {
    let value = |formula: &str| Node::parse(formula).unwrap().evaluate();
    assert_eq!(value("A"), Err(MyError::UnsetVariable('A')));
    assert_eq!(value("0B&"), Err(MyError::UnsetVariable('B')));
    assert_eq!(value("CD|!"), Err(MyError::UnsetVariable('C')));
    assert_eq!(value("1X!Y^&"), Err(MyError::UnsetVariable('X')));
}

#[test]
fn partial_evaluation_folds_what_is_decided() {
    let partial = |formula: &str, var: char, value: bool| {
        let mut tree = Node::parse(formula).unwrap();
        tree.partial_evaluate(var, value);
        tree.to_string()
    };
    // a false operand decides a conjunction, a true one a disjunction
    assert_eq!(partial("AB&", 'A', false), "0");
    assert_eq!(partial("AB&", 'A', true), "1B&");
    assert_eq!(partial("AB|", 'B', true), "1");
    assert_eq!(partial("AB|", 'B', false), "A0|");
    // the other connectives wait for both operands
    assert_eq!(partial("AB^", 'A', true), "1B^");
    assert_eq!(partial("AB>", 'A', false), "0B>");
    assert_eq!(partial("AA=", 'A', false), "1");
    // negations fold, and a double negation collapses
    assert_eq!(partial("A!", 'A', true), "0");
    assert_eq!(partial("AB&!", 'C', true), "AB&!");
    assert_eq!(partial("A", 'B', true), "A");
    let mut nested = Node::Neg(Box::new(Node::Neg(Box::new(Node::Variable('A')))));
    nested.partial_evaluate('B', true);
    assert_eq!(nested, Node::Variable('A'));
}

#[test]
fn op_new_builds_the_node() {
    let op = Op::new(Oper::Equivalence, Node::Value(true), Node::Variable('Z'));
    assert_eq!(op.char, Oper::Equivalence);
    assert_eq!(*op.left, Node::Value(true));
    assert_eq!(*op.right, Node::Variable('Z'));
}

#[test]
fn test_eval_set() {
    assert_eq!(eval_set("AB&", &[&[0, 1, 2], &[0, 3, 4]]), vec![0]);
    assert_eq!(
        eval_set("AB|", &[&[0, 1, 2], &[3, 4, 5]]),
        vec![0, 1, 2, 3, 4, 5]
    );
    assert_eq!(eval_set("A!", &[&[0, 1, 2]]), vec![]);
}

#[test]
fn set_evaluation_sorts_its_sets() {
    assert_eq!(eval_set("A", &[&[3, -1, 2, 2]]), vec![-1, 2, 2, 3]);
    assert_eq!(eval_set("AB&", &[&[9, 4, 1], &[4, 9, 7]]), vec![4, 9]);
}

#[test]
fn set_union_keeps_duplicates() {
    assert_eq!(eval_set("AB|", &[&[0, 1, 2], &[1, 2, 3]]), vec![0, 1, 2, 1, 2, 3]);
    // the intersection walks both lists as if they were ascending
    assert_eq!(eval_set("AB|C&", &[&[5], &[1], &[1, 5]]), vec![5]);
}

#[test]
fn set_evaluation_rewrites_the_derived_connectives() {
    // A > B is !A | B, and a negated set is empty
    assert_eq!(eval_set("AB>", &[&[1, 2], &[2, 3]]), vec![2, 3]);
    // A = B is (!A | B) & (!B | A)
    assert_eq!(eval_set("AB=", &[&[1, 2], &[2, 3]]), vec![2]);
    // A ^ B is (A | B) & !(A & B)
    assert_eq!(eval_set("AB^", &[&[1, 2], &[2, 3]]), Vec::<i32>::new());
    // the negation that a material condition brings in collapses
    assert_eq!(eval_set("A!B>", &[&[1, 2], &[2, 3]]), vec![1, 2, 2, 3]);
}

#[test]
fn a_negation_marker_empties_what_it_stands_behind() {
    assert_eq!(eval_set("AB&!", &[&[1], &[1]]), Vec::<i32>::new());
    assert_eq!(eval_set("AB|!", &[&[1], &[2]]), Vec::<i32>::new());
    // negations are not pushed down to the variables
    assert_eq!(eval_set("AB!&!", &[&[1], &[2]]), Vec::<i32>::new());
    assert_eq!(eval_set("A!B&!", &[&[1, 2], &[2, 3]]), Vec::<i32>::new());
    assert_eq!(eval_set("AB!|", &[&[1, 2], &[2, 3]]), vec![1, 2]);
    assert_eq!(eval_set("A!!", &[&[1, 2]]), vec![1, 2]);
}

#[test]
fn set_evaluation_reports_each_error() {
    let sets: [&[i32]; 2] = [&[0, 1], &[1, 2]];
    assert_eq!(checked_eval_set("AC&", &sets), Err(SetFormulaError::MissingSet('C')));
    assert_eq!(checked_eval_set("A1&", &sets), Err(SetFormulaError::InvalidChar('1')));
    assert_eq!(
        checked_eval_set("A&", &sets),
        Err(SetFormulaError::ParsingError(MyError::Eof))
    );
    assert_eq!(
        checked_eval_set("Ab&", &sets),
        Err(SetFormulaError::ParsingError(MyError::InvalidChar('b')))
    );
    assert_eq!(checked_eval_set("AB&", &sets), Ok(vec![1]));
}

#[test]
fn set_evaluation_messages() {
    assert_eq!(SetFormulaError::InvalidChar('1').to_string(), "invalid character: '1'");
    assert_eq!(SetFormulaError::MissingValue('&').to_string(), "missing value for operator: &");
    assert_eq!(SetFormulaError::MissingSet('C').to_string(), "missing set: C");
    assert_eq!(SetFormulaError::TooManyValues().to_string(), "more than one result");
    assert_eq!(
        SetFormulaError::from(MyError::Eof).to_string(),
        "parsing error: premature end of formula"
    );
}
