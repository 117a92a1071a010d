use bool_formula::cnf::conjunctive_normal_form;
use bool_formula::formula::{Node, Op, Oper};
use bool_formula::nnf::negation_normal_form;
use bool_formula::truth_table::TruthTable;

/// The negation normal form of `formula`, checked for its shape and for its
/// truth table.
fn assert_correct_nnf(formula: &str) -> String {
    let nnf = negation_normal_form(formula);
    println!("{formula} -> {nnf}");
    let parsed_nnf = Node::parse(&nnf).unwrap();
    let mut nodes = parsed_nnf.into_iter();
    while let Some(n) = nodes.next() {
        match n {
            Node::Operator(Op { char: op, .. }) => {
                assert!(
                    matches!(op, Oper::Conjunction | Oper::Disjunction),
                    "In NNF, only & and | are allowed"
                );
            }
            Node::Variable(v) => {
                assert!(v.is_ascii_uppercase(), "Invalid variable: {v}");
            }
            Node::Value(_) => (),
            Node::Neg(child) => {
                assert!(
                    matches!(&**child, Node::Value(_) | Node::Variable(_)),
                    "In NNF, only values can be negated"
                );
            }
        }
    }
    assert_eq!(
        TruthTable::compute(&nnf).unwrap().to_string(),
        TruthTable::compute(formula).unwrap().to_string(),
    );
    nnf
}

#[test]
fn ex05_negation_normal_form_smoke_test_random() {
    for _ in 0..100 {
        let tree = Node::new_random(&['A', 'B', 'C', 'D', 'E']);
        let formula = tree.to_string();
        assert_correct_nnf(&formula);
    }
}

#[test]
fn ex06_conjunctive_normal_form_smoke_test_random() {
    for _ in 0..100 {
        let mut tree = Node::new_random(&['A', 'B', 'C', 'D', 'E']);
        tree.to_primitive_connectives_mut();
        tree.to_negation_normal_form_mut();
        let formula = tree.to_string();
        if formula.len() > 100 {
            // That's a tad big
            continue;
        }

        let res = conjunctive_normal_form(&formula);
        let mut res_tree = Node::parse(&res).unwrap();
        println!("{formula} -> {res}");
        assert!(res_tree.is_conjunctive_normal_form(true),);
        let orig_truth_table = TruthTable::compute(&formula).unwrap();
        let cnf_truth_table =
            TruthTable::compute_with_given_vars(&res, orig_truth_table.variables().to_vec())
                .unwrap();
        assert_eq!(orig_truth_table.to_string(), cnf_truth_table.to_string());
    }
}

#[test]
fn random_formulas_use_the_given_variables() {
    for _ in 0..200 {
        let tree = Node::new_random(&['P', 'Q']);
        let mut walk = tree.into_iter();
        while let Some(node) = walk.next() {
            if let Node::Variable(name) = node {
                assert!(*name == 'P' || *name == 'Q');
            }
        }
    }
}

#[test]
fn random_formulas_differ() {
    let first = Node::new_random(&['A', 'B', 'C']).to_string();
    let mut all_equal = true;
    for _ in 0..200 {
        if Node::new_random(&['A', 'B', 'C']).to_string() != first {
            all_equal = false;
        }
    }
    assert!(!all_equal);
}
