use bool_formula::formula::{MyError, Node, Op, Oper};

fn var(name: char) -> Node {
    Node::Variable(name)
}

fn op(char: Oper, left: Node, right: Node) -> Node {
    Node::Operator(Op::new(char, left, right))
}

fn not(child: Node) -> Node {
    Node::Neg(Box::new(child))
}

#[test]
fn operands_are_read_from_the_end() {
    // the right operand stands behind the left one
    assert_eq!(
        Node::parse("AB>").unwrap(),
        op(Oper::MaterialCondition, var('A'), var('B'))
    );
    assert_eq!(
        Node::parse("AB&C|").unwrap(),
        op(Oper::Disjunction, op(Oper::Conjunction, var('A'), var('B')), var('C'))
    );
    assert_eq!(
        Node::parse("ABC^=").unwrap(),
        op(
            Oper::Equivalence,
            var('A'),
            op(Oper::ExclusiveDisjunction, var('B'), var('C'))
        )
    );
    assert_eq!(Node::parse("0").unwrap(), Node::Value(false));
    assert_eq!(Node::parse("1").unwrap(), Node::Value(true));
    assert_eq!(Node::parse("Z!").unwrap(), not(var('Z')));
}

#[test]
fn negation_markers_toggle() {
    assert_eq!(Node::parse("A!!").unwrap(), var('A'));
    assert_eq!(Node::parse("A!!!").unwrap(), not(var('A')));
    assert_eq!(Node::parse("A!!!!").unwrap(), var('A'));
    assert_eq!(
        Node::parse("A!B!!&!!!").unwrap(),
        not(op(Oper::Conjunction, not(var('A')), var('B')))
    );
}

#[test]
fn parse_reports_each_error() {
    assert_eq!(Node::parse(""), Err(MyError::Eof));
    assert_eq!(Node::parse("!"), Err(MyError::Eof));
    assert_eq!(Node::parse("!!!"), Err(MyError::Eof));
    assert_eq!(Node::parse("&"), Err(MyError::Eof));
    assert_eq!(Node::parse("A&"), Err(MyError::Eof));
    assert_eq!(Node::parse("AB&C|&"), Err(MyError::Eof));
    assert_eq!(Node::parse("a"), Err(MyError::InvalidChar('a')));
    assert_eq!(Node::parse("A2&"), Err(MyError::InvalidChar('2')));
    assert_eq!(Node::parse("A B&"), Err(MyError::InvalidChar(' ')));
    assert_eq!(Node::parse("\u{f3}\u{eb}&\u{b3}&!!!"), Err(MyError::InvalidChar('\u{b3}')));
    // the right operand is read first, so its error is the one reported
    assert_eq!(Node::parse("x?&"), Err(MyError::InvalidChar('?')));
}

#[test]
fn parse_rejects_what_is_left_over() {
    assert_eq!(Node::parse("AB"), Err(MyError::Eof));
    assert_eq!(Node::parse("AB&C"), Err(MyError::Eof));
    assert_eq!(Node::parse("!A"), Err(MyError::Eof));
    assert_eq!(Node::parse("x1"), Err(MyError::Eof));
}

#[test]
fn error_messages() {
    assert_eq!(MyError::InvalidChar('x').to_string(), "invalid character: 'x'");
    assert_eq!(MyError::InvalidOperator('!').to_string(), "invalid operator: '!'");
    assert_eq!(MyError::Eof.to_string(), "premature end of formula");
    assert_eq!(
        MyError::UnsetVariable('Q').to_string(),
        "value for variable 'Q' is not set"
    );
}

#[test]
fn printing_is_inverted_by_parsing() {
    for formula in [
        "A",
        "0!",
        "AB|!",
        "AB&C|",
        "A!B&!C&!D!&!E!&!A>B>!C>!F=G!&",
        "AB=C=A=E=A=A=A=A=D=B=B=B=A^B&!C>",
        "ABCD&&&",
        "10^Z!=",
    ] {
        let tree = Node::parse(formula).unwrap();
        assert_eq!(tree.to_string(), formula);
        assert_eq!(Node::parse(&tree.to_string()).unwrap(), tree);
    }
}

#[test]
fn two_markers_change_nothing() {
    for formula in ["A", "A!", "AB|", "AB|!", "01&C>!", "A!!!"] {
        let doubled = format!("{formula}!!");
        assert_eq!(
            Node::parse(&doubled).unwrap().to_string(),
            Node::parse(formula).unwrap().to_string()
        );
    }
    assert_eq!(Node::parse("A&!!"), Node::parse("A&"));
    assert_eq!(Node::parse("a!!"), Node::parse("a"));
    assert_eq!(Node::parse("AB!!"), Node::parse("AB"));
}

#[test]
fn printing_renders_every_node() {
    assert_eq!(var('q').to_string(), "q");
    assert_eq!(not(not(Node::Value(true))).to_string(), "1!!");
    assert_eq!(
        op(Oper::ExclusiveDisjunction, Node::Value(false), not(var('A'))).to_string(),
        "0A!^"
    );
}

#[test]
fn tokens_of_the_connectives() {
    let all = [
        (Oper::Conjunction, '&', '\u{2227}'),
        (Oper::Disjunction, '|', '\u{2228}'),
        (Oper::ExclusiveDisjunction, '^', '\u{2295}'),
        (Oper::MaterialCondition, '>', '\u{21d2}'),
        (Oper::Equivalence, '=', '\u{21d4}'),
    ];
    for (oper, ascii, utf8) in all {
        assert_eq!(oper.ascii_char(), ascii);
        assert_eq!(oper.utf8_char(), utf8);
        assert_eq!(Oper::from_ascii(ascii), Ok(oper));
    }
    assert_eq!(Oper::from_ascii('!'), Err(MyError::InvalidChar('!')));
    assert_eq!(Oper::from_ascii('A'), Err(MyError::InvalidChar('A')));
}

#[test]
fn tokens_of_the_nodes() {
    assert_eq!(Node::Value(true).char(), '1');
    assert_eq!(Node::Value(false).char(), '0');
    assert_eq!(var('K').char(), 'K');
    assert_eq!(not(var('K')).char(), '!');
    assert_eq!(op(Oper::Equivalence, var('A'), var('B')).char(), '=');
}

#[test]
fn negation_toggles_in_place() {
    let mut tree = var('A');
    tree.neg();
    assert_eq!(tree, not(var('A')));
    tree.neg();
    assert_eq!(tree, var('A'));
    let mut nested = not(not(var('A')));
    nested.neg();
    assert_eq!(nested, not(var('A')));
}

#[test]
fn clone_and_default() {
    let tree = Node::parse("AB&C|!").unwrap();
    assert_eq!(tree.clone(), tree);
    let connective = Op::new(Oper::Disjunction, var('A'), Node::Value(true));
    assert_eq!(connective.clone(), connective);
    assert_eq!(Node::default(), Node::Value(false));
}

#[test]
fn the_walk_visits_the_right_operand_first() {
    let tree = Node::parse("AB&C!|").unwrap();
    let mut walk = tree.into_iter();
    let mut seen = Vec::new();
    while let Some(node) = walk.next() {
        seen.push(node.to_string());
    }
    assert_eq!(seen, ["AB&C!|", "C!", "C", "AB&", "B", "A"]);
    assert!(walk.next().is_none());
}
