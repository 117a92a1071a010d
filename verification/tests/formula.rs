use bool_formula::formula::{Node, Op, Oper};

#[test]
fn parse() {
    assert_eq!(
        Node::parse("AB|!").unwrap(),
        Node::Neg(Box::new(Node::Operator(Op::new(
            Oper::Disjunction,
            Node::Variable('A'),
            Node::Variable('B')
        ))))
    );
}

#[test]
fn parse_and_dump() {
    let regurgitate = |inp: &str| Node::parse(inp).unwrap().to_string();

    assert_eq!(regurgitate("AB|!"), "AB|!");
    assert_eq!(
        regurgitate("A!B&!C&!D!&!E!&!A>B>!C>!!!F=G!&"),
        "A!B&!C&!D!&!E!&!A>B>!C>!F=G!&"
    );
    assert_eq!(regurgitate("A!!"), "A");
    assert_eq!(regurgitate("A!!!"), "A!");
    assert!(Node::parse("óë&³&!!!").is_err());
    assert_eq!(regurgitate("ABCD&&&"), "ABCD&&&");
}

#[test]
fn partial_evaluation() {
    let raw_formula = "AB>C&!D|A^B=";
    let mut partialy_evaluated = Node::parse(raw_formula).unwrap();
    partialy_evaluated.partial_evaluate('A', false);
    partialy_evaluated.partial_evaluate('B', true);
    partialy_evaluated.partial_evaluate('C', true);
    partialy_evaluated.partial_evaluate('D', false);
    assert_eq!(partialy_evaluated, Node::Value(false));
}

#[test]
fn neg() {
    let doit = |formula: &str| {
        let mut tree = Node::parse(formula).unwrap();
        tree.neg();
        tree.to_string()
    };

    assert_eq!(doit("AB|"), "AB|!");
    assert_eq!(doit("A!"), "A");
}
