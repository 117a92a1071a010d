use bool_formula::cnf::conjunctive_normal_form;
use bool_formula::formula::{Node, Op, Oper};
use bool_formula::nnf::negation_normal_form;
use bool_formula::truth_table::TruthTable;

/// The negation normal form of `formula`, checked for its shape and for its
/// truth table.
fn assert_correct_nnf(formula: &str) -> String {
    let nnf = negation_normal_form(formula);
    println!("{formula} -> {nnf}");
    let parsed_nnf = Node::parse(&nnf).unwrap();
    let mut nodes = parsed_nnf.into_iter();
    while let Some(n) = nodes.next() {
        match n {
            Node::Operator(Op { char: op, .. }) => {
                assert!(
                    matches!(op, Oper::Conjunction | Oper::Disjunction),
                    "In NNF, only & and | are allowed"
                );
            }
            Node::Variable(v) => {
                assert!(v.is_ascii_uppercase(), "Invalid variable: {v}");
            }
            Node::Value(_) => (),
            Node::Neg(child) => {
                assert!(
                    matches!(&**child, Node::Value(_) | Node::Variable(_)),
                    "In NNF, only values can be negated"
                );
            }
        }
    }
    assert_eq!(
        TruthTable::compute(&nnf).unwrap().to_string(),
        TruthTable::compute(formula).unwrap().to_string(),
    );
    nnf
}

#[test]
fn de_morgans_laws() {
    assert_eq!(negation_normal_form("AB&!"), "A!B!|");
    assert_eq!(negation_normal_form("AB|!"), "A!B!&");
}

#[test]
fn material_conditions() {
    assert_eq!(negation_normal_form("AB>"), "A!B|");
}

#[test]
fn equivalence() {
    assert_eq!(assert_correct_nnf("AB="), "A!B|B!A|&");
}

#[test]
fn exclusive_or() {
    assert_eq!(negation_normal_form("AB^"), "AB|A!B!|&");
    assert_eq!(negation_normal_form("A!B^"), "A!B|AB!|&");
    assert_eq!(negation_normal_form("AB!^"), "AB!|A!B|&");
    assert_eq!(negation_normal_form("A!B!^"), "A!B!|AB|&");
}

#[test]
fn smoke_test() {
    assert_eq!(assert_correct_nnf("AB|C&!"), "A!B!&C!|");
    assert_correct_nnf("A!B&!C&!D!&!E!&!");
    assert_correct_nnf("A!B&!C&!D!&!E!&!A>B>!C>!!!F=G!&");
    assert_correct_nnf("AB=C=A=E=A=A=A=A=D=B=B=B=A^B&!C>");
}

#[test]
fn test() {
    assert_eq!(negation_normal_form("AB&!"), "A!B!|");
}

#[test]
fn subject_examples() {
    assert_eq!(conjunctive_normal_form("AB&!"), "A!B!|");
    assert_eq!(conjunctive_normal_form("AB|!"), "A!B!&");
    assert_eq!(conjunctive_normal_form("AB|C&"), "AB|C&");
    assert_eq!(conjunctive_normal_form("AB|C|D|"), "ABCD|||");
    assert_eq!(conjunctive_normal_form("AB&C&D&"), "ABCD&&&");
    assert_eq!(conjunctive_normal_form("AB&!C!|"), "A!B!C!||");
    assert_eq!(conjunctive_normal_form("AB|!C!&"), "A!B!C!&&");
}

#[test]
fn primitive_connectives_of_each_connective() {
    let reduced = |formula: &str| {
        let mut tree = Node::parse(formula).unwrap();
        tree.to_primitive_connectives_mut();
        tree.to_string()
    };
    assert_eq!(reduced("AB&"), "AB&");
    assert_eq!(reduced("AB|"), "AB|");
    assert_eq!(reduced("AB^"), "AB|AB&!&");
    assert_eq!(reduced("AB>"), "A!B|");
    assert_eq!(reduced("AB="), "A!B|B!A|&");
    assert_eq!(reduced("AB>!"), "A!B|!");
    // what a reduction brings in is reduced as well
    assert_eq!(reduced("AB^C>"), "AB|AB&!&!C|");
    assert_eq!(reduced("AB=C^"), "A!B|B!A|&C|A!B|B!A|&C&!&");
}

#[test]
fn a_material_condition_collapses_a_double_negation() {
    let mut tree = Node::parse("A!B>").unwrap();
    tree.to_primitive_connectives_mut();
    assert_eq!(tree.to_string(), "AB|");
    assert_eq!(negation_normal_form("A!B>"), "AB|");
    assert_eq!(negation_normal_form("A!B!="), "AB!|BA!|&");
    assert_eq!(negation_normal_form("AB&!C>"), "AB&C|");
}

#[test]
fn negation_normal_form_pushes_through_every_level() {
    assert_eq!(negation_normal_form("AB&C|!"), "A!B!|C!&");
    assert_eq!(negation_normal_form("AB|C&!D|!"), "AB|C&D!&");
    assert_eq!(negation_normal_form("A"), "A");
    assert_eq!(negation_normal_form("1!"), "1!");
    assert_eq!(negation_normal_form("01&!"), "0!1!|");
}

#[test]
fn normal_forms_of_invalid_formulas_are_the_error_messages() {
    assert_eq!(negation_normal_form("AB"), "premature end of formula");
    assert_eq!(negation_normal_form("A&"), "premature end of formula");
    assert_eq!(conjunctive_normal_form("Ab&"), "invalid character: 'b'");
    assert_eq!(conjunctive_normal_form(""), "premature end of formula");
}

#[test]
fn disjunction_is_distributed_over_conjunction() {
    // a | (b & c)
    assert_eq!(conjunctive_normal_form("ABC&|"), "AB|AC|&");
    // (a & b) | c
    assert_eq!(conjunctive_normal_form("AB&C|"), "AC|BC|&");
    // (a & b) | (c & d)
    assert_eq!(conjunctive_normal_form("AB&CD&|"), "AC|BC|AD|BD|&&&");
    // the new disjunctions are distributed in turn
    assert_eq!(conjunctive_normal_form("ABCD&&|"), "AB|AC|AD|&&");
    assert_eq!(conjunctive_normal_form("AB&C&D|"), "AD|BD|CD|&&");
}

#[test]
fn chains_are_nested_to_the_right_in_order() {
    assert_eq!(conjunctive_normal_form("AB&CD&&"), "ABCD&&&");
    assert_eq!(conjunctive_normal_form("AB|CD||"), "ABCD|||");
    assert_eq!(conjunctive_normal_form("AB&C&DE&&"), "ABCDE&&&&");
    assert_eq!(conjunctive_normal_form("AB|C&DE|&"), "AB|CDE|&&");
}

#[test]
fn conjunctive_normal_form_is_recognised() {
    let is_cnf = |formula: &str, accept: bool| {
        let mut tree = Node::parse(formula).unwrap();
        let before = tree.clone();
        let answer = tree.is_conjunctive_normal_form(accept);
        assert_eq!(tree, before);
        answer
    };
    assert!(is_cnf("A", true));
    assert!(is_cnf("A!", false));
    assert!(is_cnf("AB|", false));
    assert!(is_cnf("AB|C|", true));
    assert!(is_cnf("ABC&&", true));
    assert!(is_cnf("AB|CD|&", true));
    // a conjunction is accepted only where conjunctions are
    assert!(!is_cnf("AB&", false));
    // and only nested to the right
    assert!(!is_cnf("AB&C&", true));
    // never below a disjunction
    assert!(!is_cnf("AB&C|", true));
    assert!(!is_cnf("ABC&|", true));
    // the other connectives are not part of the form
    assert!(!is_cnf("AB^", true));
    assert!(!is_cnf("AB>", true));
    assert!(!is_cnf("AB=", true));
    // a negation is accepted over a variable or a value only
    assert!(is_cnf("A!", true));
    assert!(is_cnf("1!", false));
    assert!(is_cnf("A!B!|C!&", true));
    assert!(!is_cnf("AB&!", true));
    assert!(!is_cnf("AB|!", true));
    assert!(!is_cnf("AB|!C&", true));
    assert!(!is_cnf("AB^!", false));
    let mut doubled = Node::Neg(Box::new(Node::Neg(Box::new(Node::Variable('A')))));
    assert!(!doubled.is_conjunctive_normal_form(true));
}

#[test]
fn conjunctive_normal_forms_have_the_shape_and_the_table() {
    for formula in [
        "AB^",
        "AB=",
        "AB>C>",
        "AB&CD&|EF&|",
        "AB|C&!D|A^B=",
        "AB=C=A=E=",
        "A!B&!C&!D!&!E!&!",
        "10&A|",
    ] {
        let res = conjunctive_normal_form(formula);
        let mut res_tree = Node::parse(&res).unwrap();
        assert!(res_tree.is_conjunctive_normal_form(true), "{formula} -> {res}");
        let table = TruthTable::compute(formula).unwrap();
        let cnf_table =
            TruthTable::compute_with_given_vars(&res, table.variables().to_vec()).unwrap();
        assert_eq!(table.to_string(), cnf_table.to_string());
    }
}

fn operator(formula: &str) -> Op {
    match Node::parse(formula).unwrap() {
        Node::Operator(op) => op,
        other => panic!("{} is no operator node", other.to_string()),
    }
}

#[test]
fn operands_of_an_operator() {
    let (left, right) = Node::parse("AB!>").unwrap().into_operands();
    assert_eq!(left.to_string(), "A");
    assert_eq!(right.to_string(), "B!");
    assert!(Node::parse("AB&").unwrap().is_operator(Oper::Conjunction));
    assert!(!Node::parse("AB&").unwrap().is_operator(Oper::Disjunction));
    assert!(!Node::parse("A!").unwrap().is_operator(Oper::Conjunction));
}

#[test]
fn the_operands_of_a_chain_are_moved_out_in_order() {
    let mut chain = operator("AB&CD|E&&");
    let operands = chain.op_depth_first_search_chained();
    let texts: Vec<String> = operands.iter().map(|node| node.to_string()).collect();
    assert_eq!(texts, ["A", "B", "CD|", "E"]);
    assert_eq!(chain.char, Oper::Conjunction);
    assert_eq!(*chain.left, Node::Value(false));
    assert_eq!(*chain.right, Node::Value(false));

    // a node whose operands do not continue the chain keeps them
    let mut single = operator("AB|C!&");
    assert!(single.op_depth_first_search_chained().is_empty());
    assert_eq!(Node::Operator(single).to_string(), "AB|C!&");

    // below the top the operands are moved out in any case
    let mut lower = operator("AB|");
    let mut operands = vec![Node::Value(true)];
    lower.op_depth_first_search(false, &mut operands);
    let texts: Vec<String> = operands.iter().map(|node| node.to_string()).collect();
    assert_eq!(texts, ["1", "A", "B"]);
}

#[test]
fn a_list_of_nodes_becomes_a_chain() {
    let nodes = |texts: &[&str]| -> Vec<Node> {
        texts.iter().map(|text| Node::parse(text).unwrap()).collect()
    };
    let mut op = operator("XY|");
    op.build_right_handed_tree_from_node_list(nodes(&["A", "B!", "CD&", "E"]), Oper::Disjunction);
    assert_eq!(Node::Operator(op).to_string(), "AB!CD&E|||");

    let mut op = operator("XY&");
    op.build_right_handed_tree_from_node_list(nodes(&["A", "B"]), Oper::Conjunction);
    assert_eq!(Node::Operator(op).to_string(), "AB&");

    // the connective of the node is its own, that of the chain is given
    let mut op = operator("XY&");
    op.build_right_handed_tree_from_node_list(nodes(&["A", "B", "C"]), Oper::Disjunction);
    assert_eq!(Node::Operator(op).to_string(), "ABC|&");

    let mut op = operator("XY^");
    op.build_right_handed_tree_from_node_list(Vec::new(), Oper::Conjunction);
    assert_eq!(Node::Operator(op).to_string(), "XY^");
}

#[test]
fn distribution_on_a_single_node() {
    let distributed = |formula: &str| {
        let mut op = operator(formula);
        op.apply_distributive_equivalence();
        Node::Operator(op).to_string()
    };
    assert_eq!(distributed("AB|"), "AB|");
    assert_eq!(distributed("AB^C|"), "AB^C|");
    assert_eq!(distributed("ABC&|"), "AB|AC|&");
    assert_eq!(distributed("AB&C|"), "AC|BC|&");
    assert_eq!(distributed("AB&CD&|"), "AC|BC|AD|BD|&&&");
    assert_eq!(distributed("AB&C&D|"), "AD|BD|&CD|&");
}

#[test]
fn conjunctive_normal_form_in_place() {
    let mut tree = Node::parse("AB&C!|").unwrap();
    tree.to_conjunctive_normal_form_mut();
    assert_eq!(tree.to_string(), "AC!|BC!|&");
    let mut leaf = Node::parse("A!").unwrap();
    leaf.to_conjunctive_normal_form_mut();
    assert_eq!(leaf.to_string(), "A!");
}
