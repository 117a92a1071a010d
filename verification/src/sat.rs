//! Satisfiability by enumeration of the truth table.
use crate::formula::{lemma_uppercase_variables, Node};
use crate::parser::{lemma_parse_tail, parse_spec};
use crate::truth_table::{
    is_letters_of, lemma_holds_depends_on_mentioned, lemma_table_rows, row_assignment, row_value,
    table_rows, TruthTable,
};
use vstd::arithmetic::power2::{lemma_pow2_pos, lemma_pow2_unfold, pow2};
use vstd::prelude::*;

verus! {

/// Whether some row of a result column is true.
pub open spec fn some_row_holds(rows: Seq<bool>) -> bool {
    exists|row: int| 0 <= row < rows.len() && rows[row]
}

/// Whether some assignment makes the formula true.
pub open spec fn satisfiable(tree: Node) -> bool {
    exists|assignment: spec_fn(char) -> bool| tree.holds(assignment)
}

/// The number of the row of a table over `variables` that gives each of
/// them the value it has under `assignment`.
pub open spec fn row_of(variables: Seq<char>, assignment: spec_fn(char) -> bool) -> nat
    decreases variables.len(),
{
    if variables.len() == 0 {
        0
    } else {
        let half = pow2((variables.len() - 1) as nat);
        let rest = row_of(variables.drop_first(), assignment);
        if assignment(variables[0]) {
            half + rest
        } else {
            rest
        }
    }
}

/// Every assignment is the assignment of a row, as far as the variables of
/// the table go.
pub proof fn lemma_row_of(variables: Seq<char>, assignment: spec_fn(char) -> bool)
    ensures
        row_of(variables, assignment) < pow2(variables.len()),
        forall|name: char|
            variables.contains(name) ==> #[trigger] row_value(
                variables,
                row_of(variables, assignment),
                name,
            ) == assignment(name),
    decreases variables.len(),
{
    if variables.len() == 0 {
        lemma_pow2_pos(0);
    } else {
        let rest = variables.drop_first();
        let half = pow2(rest.len());
        let low = row_of(rest, assignment);
        let row = row_of(variables, assignment);
        lemma_row_of(rest, assignment);
        lemma_pow2_pos(rest.len());
        lemma_pow2_unfold(variables.len());
        assert(row % half == low) by {
            vstd::arithmetic::div_mod::lemma_fundamental_div_mod_converse(
                row as int,
                half as int,
                if assignment(variables[0]) {
                    1
                } else {
                    0
                },
                low as int,
            );
        }
        assert forall|name: char| variables.contains(name) implies #[trigger] row_value(
            variables,
            row,
            name,
        ) == assignment(name) by {
            if variables[0] != name {
                let i = choose|i: int| 0 <= i < variables.len() && variables[i] == name;
                assert(rest[i - 1] == name);
                assert(rest.contains(name));
                assert(row_value(rest, low, name) == assignment(name));
                assert(row_value(variables, row, name) == row_value(rest, row % half, name));
            } else {
                assert(low < half);
                assert(row_value(variables, row, name) == (row >= half));
            }
        }
    }
}

/// Satisfiability and the truth table: where every variable of a formula
/// has a column, some assignment makes the formula true exactly if some row
/// of its table is true.
pub proof fn lemma_satisfiable_is_some_row(tree: Node, variables: Seq<char>)
    requires
        forall|name: char| tree.mentions(name) ==> variables.contains(name),
    ensures
        table_rows(tree, variables) is Ok,
        some_row_holds(table_rows(tree, variables)->Ok_0) == satisfiable(tree),
{
    lemma_table_rows(tree, variables);
    let rows = table_rows(tree, variables)->Ok_0;
    if some_row_holds(rows) {
        let row = choose|row: int| 0 <= row < rows.len() && rows[row];
        assert(tree.holds(row_assignment(variables, row as nat)));
    }
    if satisfiable(tree) {
        let assignment = choose|assignment: spec_fn(char) -> bool| tree.holds(assignment);
        let row = row_of(variables, assignment);
        lemma_row_of(variables, assignment);
        lemma_holds_depends_on_mentioned(tree, row_assignment(variables, row), assignment);
        assert(rows[row as int]);
    }
}

/// Satisfiability of a formula in text: the truth table that is computed
/// over the letters of the text has a true row exactly if some assignment
/// makes the formula true.
pub proof fn lemma_sat_is_some_row(text: Seq<char>, names: Seq<char>)
    requires
        parse_spec(text) is Ok,
        is_letters_of(names, text),
    ensures
        table_rows(parse_spec(text)->Ok_0, names) is Ok,
        some_row_holds(table_rows(parse_spec(text)->Ok_0, names)->Ok_0) == satisfiable(
            parse_spec(text)->Ok_0,
        ),
{
    let tree = parse_spec(text)->Ok_0;
    lemma_parse_tail(text);
    assert forall|name: char| tree.mentions(name) implies names.contains(name) by {
        lemma_uppercase_variables(tree, name);
        assert(text.contains(name));
    }
    lemma_satisfiable_is_some_row(tree, names);
}

/// Whether `formula` is satisfiable: whether its truth table has a row with
/// the result true.
pub fn sat(formula: &str) -> (found: bool)
    requires
        parse_spec(formula@) is Ok,
    ensures
        found == satisfiable(parse_spec(formula@)->Ok_0),
{
    let table = match TruthTable::compute(formula) {
        Ok(table) => table,
        Err(_) => {
            return false;
        },
    };
    proof {
        lemma_sat_is_some_row(formula@, table.names());
    }
    let mut walk = table.entries();
    let mut found = false;
    loop
        invariant
            walk.table() == table,
            walk.position() <= table.rows().len(),
            found == some_row_holds(table.rows().take(walk.position() as int)),
        ensures
            found == some_row_holds(table.rows()),
        decreases table.rows().len() - walk.position(),
    {
        let ghost row = walk.position() as int;
        match walk.next() {
            None => {
                assert(table.rows().take(row) == table.rows());
                break ;
            },
            Some((_, result)) => {
                proof {
                    let before = table.rows().take(row);
                    let after = table.rows().take(row + 1);
                    assert(after[row] == result);
                    if some_row_holds(before) {
                        let k = choose|k: int| 0 <= k < before.len() && before[k];
                        assert(after[k]);
                    }
                    if some_row_holds(after) && !result {
                        let k = choose|k: int| 0 <= k < after.len() && after[k];
                        assert(before[k]);
                    }
                }
                found = found || result;
            },
        }
    }
    found
}

} // verus!
