use bool_formula::formula::MyError;
use bool_formula::sat::sat;
use bool_formula::truth_table::TruthTable;

#[test]
fn test_truth_table() {
    let res = TruthTable::compute("AB&C|").unwrap().to_string();
    assert_eq!(
        res,
        "| A | B | C | = |\n|---|---|---|---|\n| 0 | 0 | 0 | 0 |\n| 0 | 0 | 1 | 1 |\n| 0 | 1 | 0 | 0 |\n| 0 | 1 | 1 | 1 |\n| 1 | 0 | 0 | 0 |\n| 1 | 0 | 1 | 1 |\n| 1 | 1 | 0 | 1 |\n| 1 | 1 | 1 | 1 |\n"
    );
    assert!(TruthTable::compute("AB&C|&").is_err());
}

#[test]
fn test_truth_table_no_var() {
    let res = TruthTable::compute("0!").unwrap().to_string();
    assert_eq!(res, "| = |\n|---|\n| 1 |\n");
}

#[test]
fn subject() {
    assert!(sat("AB|"));
    assert!(sat("AB&"));
    assert!(!sat("AA!&"));
    assert!(!sat("AA^"));
}

#[test]
fn rows_come_in_ascending_binary_order() {
    let table = TruthTable::compute("AB>").unwrap();
    assert_eq!(table.variables(), ['A', 'B']);
    let mut walk = table.entries();
    let mut rows = Vec::new();
    while let Some(row) = walk.next() {
        rows.push(row);
    }
    assert_eq!(
        rows,
        vec![
            (b"00".to_vec(), true),
            (b"01".to_vec(), true),
            (b"10".to_vec(), false),
            (b"11".to_vec(), true),
        ]
    );
    assert!(walk.next().is_none());
}

#[test]
fn variables_are_sorted_and_listed_once() {
    let table = TruthTable::compute("ZA&A|M^").unwrap();
    assert_eq!(table.variables(), ['A', 'M', 'Z']);
    assert_eq!(TruthTable::compute("10&").unwrap().variables(), [] as [char; 0]);
}

#[test]
fn the_table_of_a_given_list_of_variables() {
    // a variable that the formula does not mention doubles the rows
    let table = TruthTable::compute_with_given_vars("A", vec!['A', 'B']).unwrap();
    assert_eq!(
        table.to_string(),
        "| A | B | = |\n|---|---|---|\n| 0 | 0 | 0 |\n| 0 | 1 | 0 |\n| 1 | 0 | 1 |\n| 1 | 1 | 1 |\n"
    );
    // the order of the list is the order of the columns
    let table = TruthTable::compute_with_given_vars("AB>", vec!['B', 'A']).unwrap();
    assert_eq!(
        table.to_string(),
        "| B | A | = |\n|---|---|---|\n| 0 | 0 | 1 |\n| 0 | 1 | 0 |\n| 1 | 0 | 1 |\n| 1 | 1 | 1 |\n"
    );
}

#[test]
fn a_variable_without_a_column() {
    assert_eq!(
        TruthTable::compute_with_given_vars("AB|", vec!['A']),
        Err(MyError::UnsetVariable('B'))
    );
    assert_eq!(
        TruthTable::compute_with_given_vars("AB|", vec![]),
        Err(MyError::UnsetVariable('A'))
    );
    // a row that the listed variables decide needs no more
    assert!(TruthTable::compute_with_given_vars("A0&", vec!['B']).is_ok());
    assert_eq!(
        TruthTable::compute_with_given_vars("a", vec![]),
        Err(MyError::InvalidChar('a'))
    );
}

#[test]
fn the_empty_table() {
    let table = TruthTable::default();
    assert_eq!(table.variables(), [] as [char; 0]);
    assert!(table.entries().next().is_none());
    assert_eq!(table.to_string(), "| = |\n|---|\n");
}

#[test]
fn satisfiable_formulas_have_a_true_row() {
    for (formula, expected) in [
        ("AB|", true),
        ("AA!&", false),
        ("AA^", false),
        ("AB&A!&", false),
        ("AB>BA>&AB^&", false),
        ("AB=C^", true),
        ("0", false),
        ("1", true),
    ] {
        let table = TruthTable::compute(formula).unwrap();
        let mut walk = table.entries();
        let mut some_row = false;
        while let Some((_, result)) = walk.next() {
            some_row = some_row || result;
        }
        assert_eq!(sat(formula), some_row);
        assert_eq!(sat(formula), expected);
    }
}
