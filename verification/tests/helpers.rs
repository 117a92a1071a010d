use bool_formula::formula::{MyError, Node, Oper};
use bool_formula::parser::{inner_parse, to_chars};
use bool_formula::random::{pick_connective, pick_kind, pick_variable, NodeKind};
use bool_formula::set_eval::{intersection, sorted};
use bool_formula::truth_table::{
    insert_sorted, recursive_truth_table_results, row_cells, sorted_letters,
};

#[test]
fn letters_are_kept_in_ascending_order() {
    let mut names = vec!['B', 'D'];
    insert_sorted(&mut names, 'C');
    assert_eq!(names, ['B', 'C', 'D']);
    insert_sorted(&mut names, 'A');
    assert_eq!(names, ['A', 'B', 'C', 'D']);
    insert_sorted(&mut names, 'Z');
    assert_eq!(names, ['A', 'B', 'C', 'D', 'Z']);
    insert_sorted(&mut names, 'C');
    assert_eq!(names, ['A', 'B', 'C', 'D', 'Z']);
    let mut empty = Vec::new();
    insert_sorted(&mut empty, 'Q');
    assert_eq!(empty, ['Q']);
}

#[test]
fn the_letters_of_a_text() {
    assert_eq!(sorted_letters("CA&B|A!^"), ['A', 'B', 'C']);
    assert_eq!(sorted_letters("zaZ 10 a&"), ['Z', 'a', 'z']);
    assert_eq!(sorted_letters("10&!"), [] as [char; 0]);
    assert_eq!(sorted_letters("\u{e9}A"), ['A']);
}

#[test]
fn the_cells_of_a_row() {
    assert_eq!(row_cells(0, 0), b"");
    assert_eq!(row_cells(1, 0), b"0");
    assert_eq!(row_cells(1, 1), b"1");
    assert_eq!(row_cells(3, 5), b"101");
    assert_eq!(row_cells(4, 5), b"0101");
    assert_eq!(row_cells(8, 200), b"11001000");
    // digits above the width of the table are left out
    assert_eq!(row_cells(2, 5), b"01");
    let wide = row_cells(70, 3);
    assert_eq!(wide.len(), 70);
    assert_eq!(&wide[..68], [b'0'; 68]);
    assert_eq!(&wide[68..], b"11");
}

#[test]
fn the_result_column_of_a_tree() {
    let tree = Node::parse("AB^").unwrap();
    assert_eq!(
        recursive_truth_table_results(&tree, &['A', 'B']),
        Ok(vec![false, true, true, false])
    );
    assert_eq!(
        recursive_truth_table_results(&tree, &['B', 'A', 'C']),
        Ok(vec![false, false, true, true, true, true, false, false])
    );
    assert_eq!(
        recursive_truth_table_results(&tree, &['A']),
        Err(MyError::UnsetVariable('B'))
    );
    assert_eq!(
        recursive_truth_table_results(&Node::Value(true), &[]),
        Ok(vec![true])
    );
    // the first row that is left with a variable is the one reported
    let tree = Node::parse("AB&C|").unwrap();
    assert_eq!(
        recursive_truth_table_results(&tree, &['A']),
        Err(MyError::UnsetVariable('C'))
    );
}

#[test]
fn lists_in_ascending_order() {
    assert_eq!(sorted(&[3, 1, 2]), [1, 2, 3]);
    assert_eq!(sorted(&[]), [] as [i32; 0]);
    assert_eq!(sorted(&[5, -5, 5, i32::MIN, i32::MAX, 0]), [i32::MIN, -5, 0, 5, 5, i32::MAX]);
}

#[test]
fn common_elements_of_two_lists() {
    assert_eq!(intersection(&vec![1, 2, 3, 5], &vec![2, 3, 4, 5]), [2, 3, 5]);
    assert_eq!(intersection(&vec![1, 2], &vec![3, 4]), [] as [i32; 0]);
    assert_eq!(intersection(&vec![], &vec![1]), [] as [i32; 0]);
    assert_eq!(intersection(&vec![1, 1, 2], &vec![1, 1, 1]), [1, 1]);
    // lists that do not ascend are walked all the same
    assert_eq!(intersection(&vec![3, 1], &vec![1, 3]), [3]);
}

#[test]
fn draws_select_variables_and_connectives() {
    let variables = ['X', 'Y', 'Z'];
    assert_eq!(pick_variable(&variables, 0), 'X');
    assert_eq!(pick_variable(&variables, 4), 'Y');
    assert_eq!(pick_variable(&variables, usize::MAX), variables[usize::MAX % 3]);
    assert_eq!(pick_connective(0), Oper::Conjunction);
    assert_eq!(pick_connective(1), Oper::Disjunction);
    assert_eq!(pick_connective(2), Oper::ExclusiveDisjunction);
    assert_eq!(pick_connective(3), Oper::MaterialCondition);
    assert_eq!(pick_connective(4), Oper::Equivalence);
    assert_eq!(pick_connective(10), Oper::Conjunction);
}

#[test]
fn draws_select_the_kind_of_a_node() {
    for room in [false, true] {
        assert_eq!(pick_kind(0, room), NodeKind::Variable);
        assert_eq!(pick_kind(1, room), NodeKind::Value);
        assert_eq!(pick_kind(8, room), NodeKind::Variable);
        assert_eq!(pick_kind(13, room), NodeKind::Value);
    }
    assert_eq!(pick_kind(2, true), NodeKind::Operator);
    assert_eq!(pick_kind(3, true), NodeKind::Negation);
    assert_eq!(pick_kind(usize::MAX, true), NodeKind::Negation);
    // without room below the node every draw selects a leaf
    assert_eq!(pick_kind(2, false), NodeKind::Variable);
    assert_eq!(pick_kind(3, false), NodeKind::Value);
    assert_eq!(pick_kind(usize::MAX - 1, false), NodeKind::Variable);
}

#[test]
fn one_formula_is_read_from_the_end() {
    assert_eq!(to_chars("A\u{e9}!"), ['A', '\u{e9}', '!']);
    let mut text = to_chars("ABC&D!|");
    let tree = inner_parse(&mut text).unwrap();
    assert_eq!(tree.to_string(), "BC&D!|");
    assert_eq!(text, ['A']);
    let mut text = to_chars("xA!!!");
    assert_eq!(inner_parse(&mut text).unwrap().to_string(), "A!");
    assert_eq!(text, ['x']);
    let mut text = to_chars("A?&");
    assert_eq!(inner_parse(&mut text), Err(MyError::InvalidChar('?')));
}

#[test]
fn text_is_appended_to_text() {
    let mut out = String::from("so: ");
    Node::parse("AB>!").unwrap().write_postfix(&mut out);
    assert_eq!(out, "so: AB>!");
}
