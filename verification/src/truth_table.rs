//! Truth tables: the value of a formula under every assignment of its
//! variables.
use crate::evaluator::{lemma_closed_value, lemma_substituted_holds, lemma_substituted_mentions};
use crate::formula::{lemma_uppercase_variables, MyError, Node};
use crate::parser::{lemma_parse_tail, parse_spec};
use crate::printer::push_char;
use vstd::arithmetic::div_mod::{lemma_fundamental_div_mod, lemma_fundamental_div_mod_converse};
use vstd::arithmetic::power2::{lemma_pow2_adds, lemma_pow2_pos, lemma_pow2_unfold, pow2};
use vstd::prelude::*;
use vstd::slice::slice_subrange;
use vstd::string::StringExecFns;

verus! {

/// The result column of the truth table of `tree` over `variables`: the rows
/// in which the first variable is false, then those in which it is true,
/// each half ordered in the same way by the variables that follow. A row is
/// the value of what is left of the formula once every variable of the list
/// has been replaced; a variable that is not in the list makes it fail.
pub open spec fn table_rows(tree: Node, variables: Seq<char>) -> Result<Seq<bool>, MyError>
    decreases variables.len(),
{
    if variables.len() == 0 {
        match tree.value() {
            Ok(b) => Ok(seq![b]),
            Err(e) => Err(e),
        }
    } else {
        let rest = variables.drop_first();
        match table_rows(tree.substituted(variables[0], false), rest) {
            Err(e) => Err(e),
            Ok(low) => match table_rows(tree.substituted(variables[0], true), rest) {
                Err(e) => Err(e),
                Ok(high) => Ok(low + high),
            },
        }
    }
}

/// The value that row `row` of a table over `variables` gives to the
/// variable `name`: the bits of the row number, the most significant first,
/// are the values of the variables in the order of the list.
pub open spec fn row_value(variables: Seq<char>, row: nat, name: char) -> bool
    decreases variables.len(),
{
    if variables.len() == 0 {
        false
    } else {
        let half = pow2((variables.len() - 1) as nat);
        if variables[0] == name {
            row >= half
        } else {
            row_value(variables.drop_first(), row % half, name)
        }
    }
}

/// The assignment of row `row` of a table over `variables`.
pub open spec fn row_assignment(variables: Seq<char>, row: nat) -> spec_fn(char) -> bool {
    |name: char| row_value(variables, row, name)
}

/// An ASCII letter.
pub open spec fn is_letter(c: char) -> bool {
    ('A' <= c <= 'Z') || ('a' <= c <= 'z')
}

/// Each character is less than the one that follows it.
pub open spec fn strictly_increasing(chars: Seq<char>) -> bool {
    forall|i: int, j: int| 0 <= i < j < chars.len() ==> chars[i] < chars[j]
}

/// `names` holds the letters of `text`, each once, in ascending order.
pub open spec fn is_letters_of(names: Seq<char>, text: Seq<char>) -> bool {
    &&& strictly_increasing(names)
    &&& forall|c: char|
        #![trigger names.contains(c)]
        #![trigger text.contains(c)]
        names.contains(c) <==> text.contains(c) && is_letter(c)
}

/// Whether row number `row` of a table with `width` variables shows a one in
/// column `column`: the columns hold the binary digits of the row number,
/// the most significant first.
pub open spec fn row_bit(width: nat, row: nat, column: nat) -> bool {
    (row / pow2((width - 1 - column) as nat)) % 2 == 1
}

/// The digit that stands for a truth value.
pub open spec fn digit(value: bool) -> u8 {
    if value {
        49u8
    } else {
        48u8
    }
}

/// The cells of row number `row` in a table with `width` variables, as the
/// ASCII digits `0` and `1`.
pub open spec fn row_digits(width: nat, row: nat) -> Seq<u8> {
    Seq::new(width, |column: int| digit(row_bit(width, row, column as nat)))
}

/// Each cell as `| c `.
pub open spec fn cells_text(cells: Seq<char>) -> Seq<char>
    decreases cells.len(),
{
    if cells.len() == 0 {
        Seq::empty()
    } else {
        cells_text(cells.drop_last()) + "| "@.push(cells.last()).push(' ')
    }
}

/// `|---` for each of `columns` columns.
pub open spec fn rules_text(columns: nat) -> Seq<char>
    decreases columns,
{
    if columns == 0 {
        Seq::empty()
    } else {
        rules_text((columns - 1) as nat) + "|---"@
    }
}

/// The line of row number `row`: its cells, then its result.
pub open spec fn row_text(width: nat, row: nat, result: bool) -> Seq<char> {
    cells_text(row_digits(width, row).map_values(|cell: u8| cell as char)) + "| "@.push(
        digit(result) as char,
    ) + " |\n"@
}

/// The lines of the rows with the results `results`, from row zero on.
pub open spec fn rows_text(width: nat, results: Seq<bool>) -> Seq<char>
    decreases results.len(),
{
    if results.len() == 0 {
        Seq::empty()
    } else {
        rows_text(width, results.drop_last()) + row_text(
            width,
            (results.len() - 1) as nat,
            results.last(),
        )
    }
}

/// The table as text: a header with a column for each variable and one
/// named `=` for the result, a rule, and a line for each row.
pub open spec fn table_text(names: Seq<char>, results: Seq<bool>) -> Seq<char> {
    cells_text(names) + "| = |\n"@ + rules_text(names.len()) + "|---|\n"@ + rows_text(
        names.len(),
        results,
    )
}

/// The truth table of a formula.
#[derive(Debug, PartialEq)]
pub struct TruthTable {
    variables: Vec<char>,
    results: Vec<bool>,
}

impl Default for TruthTable {
    fn default() -> (table: Self)
        ensures
            table.names().len() == 0,
            table.rows().len() == 0,
    {
        TruthTable { variables: Vec::new(), results: Vec::new() }
    }
}

impl TruthTable {
    /// The variables of the table, in the order of its columns.
    pub closed spec fn names(&self) -> Seq<char> {
        self.variables@
    }

    /// The result column of the table.
    pub closed spec fn rows(&self) -> Seq<bool> {
        self.results@
    }

    /// The truth table of `formula` over the letters that occur in it, in
    /// ascending order. Every row is the truth value of the formula under
    /// the assignment of that row, and the cells of the row show that
    /// assignment.
    pub fn compute(formula: &str) -> (r: Result<Self, MyError>)
        ensures
            match parse_spec(formula@) {
                Err(e) => r matches Err(error) && error == e,
                Ok(tree) => {
                    &&& r matches Ok(table)
                    &&& is_letters_of(table.names(), formula@)
                    &&& table_rows(tree, table.names()) == Ok::<Seq<bool>, MyError>(table.rows())
                    &&& table.rows().len() == pow2(table.names().len())
                    &&& forall|row: int|
                        0 <= row < table.rows().len() ==> #[trigger] table.rows()[row]
                            == tree.holds(row_assignment(table.names(), row as nat))
                    &&& forall|row: int, column: int|
                        0 <= row < table.rows().len() && 0 <= column < table.names().len()
                            ==> #[trigger] row_bit(
                            table.names().len(),
                            row as nat,
                            column as nat,
                        ) == row_value(table.names(), row as nat, table.names()[column])
                },
            },
    {
        let vars = sorted_letters(formula);
        proof {
            if let Ok(tree) = parse_spec(formula@) {
                lemma_parse_tail(formula@);
                assert forall|name: char| tree.mentions(name) implies vars@.contains(name) by {
                    lemma_uppercase_variables(tree, name);
                    assert(formula@.contains(name) && is_letter(name));
                }
                lemma_table_rows(tree, vars@);
                lemma_increasing_no_duplicates(vars@);
                let width = vars@.len();
                assert forall|row: int, column: int|
                    0 <= row < pow2(width) && 0 <= column < width implies #[trigger] row_bit(
                    width,
                    row as nat,
                    column as nat,
                ) == row_value(vars@, row as nat, vars@[column]) by {
                    lemma_cells_show_assignment(vars@, row as nat, column);
                }
            }
        }
        Self::compute_with_given_vars(formula, vars)
    }

    /// The truth table of `formula` over `variables`, each of which makes
    /// a column, whether the formula mentions it or not. The table fails
    /// where a row is left with a variable once the listed ones have been
    /// replaced; without a list the formula is evaluated as it stands.
    pub fn compute_with_given_vars(formula: &str, variables: Vec<char>) -> (r: Result<
        Self,
        MyError,
    >)
        ensures
            match parse_spec(formula@) {
                Err(e) => r matches Err(error) && error == e,
                Ok(tree) => match table_rows(tree, variables@) {
                    Err(e) => r matches Err(error) && error == e,
                    Ok(rows) => r matches Ok(table) && table.names() == variables@ && table.rows()
                        == rows,
                },
            },
    {
        let formula = match Node::parse(formula) {
            Ok(tree) => tree,
            Err(e) => {
                return Err(e);
            },
        };
        let results = match recursive_truth_table_results(&formula, variables.as_slice()) {
            Ok(rows) => rows,
            Err(e) => {
                return Err(e);
            },
        };
        Ok(Self { variables, results })
    }

    /// The names of the variables, in the order of the columns.
    pub fn variables(&self) -> (names: &[char])
        ensures
            names@ == self.names(),
    {
        self.variables.as_slice()
    }
}

/// A walk over the rows of a truth table, from row zero on.
pub struct TruthTableEntriesIterator<'a> {
    truth_table: &'a TruthTable,
    i: usize,
}

impl<'a> TruthTableEntriesIterator<'a> {
    /// The table that is walked over.
    pub closed spec fn table(&self) -> TruthTable {
        *self.truth_table
    }

    /// The number of the row that comes next.
    pub closed spec fn position(&self) -> nat {
        self.i as nat
    }

    /// The next row of the table: its cells as the ASCII digits `0` and
    /// `1`, and its result. `None` behind the last row.
    pub fn next(&mut self) -> (entry: Option<(Vec<u8>, bool)>)
        ensures
            final(self).table() == old(self).table(),
            old(self).position() < old(self).table().rows().len() ==> {
                &&& entry matches Some((cells, result))
                &&& cells@ == row_digits(old(self).table().names().len(), old(self).position())
                &&& result == old(self).table().rows()[old(self).position() as int]
                &&& final(self).position() == old(self).position() + 1
            },
            old(self).position() >= old(self).table().rows().len() ==> {
                &&& entry is None
                &&& final(self).position() == old(self).position()
            },
    {
        if self.i >= self.truth_table.results.len() {
            return None;
        }
        let result = self.truth_table.results[self.i];
        let values = row_cells(self.truth_table.variables.len(), self.i);
        self.i += 1;
        Some((values, result))
    }
}

impl TruthTable {
    /// A walk over the rows of the table that starts at row zero.
    pub fn entries(&self) -> (walk: TruthTableEntriesIterator<'_>)
        ensures
            walk.table() == *self,
            walk.position() == 0,
    {
        TruthTableEntriesIterator { i: 0, truth_table: self }
    }

    /// The table as text.
    pub fn to_string(&self) -> (text: String)
        ensures
            text@ == table_text(self.names(), self.rows()),
    {
        let mut text = String::new();
        let mut column: usize = 0;
        while column < self.variables.len()
            invariant
                column <= self.variables@.len(),
                text@ == cells_text(self.variables@.take(column as int)),
            decreases self.variables@.len() - column,
        {
            assert(self.variables@.take(column + 1).drop_last() == self.variables@.take(
                column as int,
            ));
            text.append("| ");
            push_char(&mut text, self.variables[column]);
            push_char(&mut text, ' ');
            column += 1;
        }
        assert(self.variables@.take(column as int) == self.variables@);
        text.append("| = |\n");
        let ghost header = text@;
        column = 0;
        while column < self.variables.len()
            invariant
                column <= self.variables@.len(),
                text@ == header + rules_text(column as nat),
            decreases self.variables@.len() - column,
        {
            text.append("|---");
            column += 1;
        }
        text.append("|---|\n");
        let ghost head = text@;
        let width = self.variables.len();
        let mut walk = self.entries();
        loop
            invariant
                walk.table() == *self,
                walk.position() <= self.results@.len(),
                width == self.variables@.len(),
                text@ == head + rows_text(
                    width as nat,
                    self.results@.take(walk.position() as int),
                ),
            ensures
                text@ == head + rows_text(width as nat, self.results@),
            decreases self.results@.len() - walk.position(),
        {
            let ghost row = walk.position();
            let (values, result) = match walk.next() {
                Some(entry) => entry,
                None => {
                    assert(self.results@.take(row as int) == self.results@);
                    break ;
                },
            };
            let ghost start = text@;
            let ghost shown = values@.map_values(|cell: u8| cell as char);
            let mut cell: usize = 0;
            while cell < values.len()
                invariant
                    cell <= values@.len(),
                    shown == values@.map_values(|cell: u8| cell as char),
                    text@ == start + cells_text(shown.take(cell as int)),
                decreases values@.len() - cell,
            {
                assert(shown.take(cell + 1).drop_last() == shown.take(cell as int));
                text.append("| ");
                push_char(&mut text, values[cell] as char);
                push_char(&mut text, ' ');
                cell += 1;
            }
            assert(shown.take(cell as int) == shown);
            text.append("| ");
            push_char(&mut text, if result { '1' } else { '0' });
            text.append(" |\n");
            proof {
                let more = self.results@.take((row + 1) as int);
                assert(more.drop_last() == self.results@.take(row as int));
                assert(more.last() == result);
                assert(text@ == start + row_text(width as nat, row, result));
            }
        }
        text
    }
}

/// The result column of the truth table of `formula` over `vars`.
pub fn recursive_truth_table_results(formula: &Node, vars: &[char]) -> (r: Result<
    Vec<bool>,
    MyError,
>)
    ensures
        match table_rows(*formula, vars@) {
            Ok(rows) => r matches Ok(results) && results@ == rows,
            Err(e) => r matches Err(error) && error == e,
        },
    decreases vars@.len(),
{
    if vars.len() == 0 {
        return match formula.evaluate() {
            Ok(b) => {
                let mut result = Vec::new();
                result.push(b);
                Ok(result)
            },
            Err(e) => Err(e),
        };
    }
    let var = vars[0];
    let rest = slice_subrange(vars, 1, vars.len());
    assert(rest@ == vars@.drop_first());
    let mut low_formula = formula.clone();
    low_formula.partial_evaluate(var, false);
    let mut result = match recursive_truth_table_results(&low_formula, rest) {
        Ok(rows) => rows,
        Err(e) => {
            return Err(e);
        },
    };
    let mut high_formula = formula.clone();
    high_formula.partial_evaluate(var, true);
    let mut high = match recursive_truth_table_results(&high_formula, rest) {
        Ok(rows) => rows,
        Err(e) => {
            return Err(e);
        },
    };
    result.append(&mut high);
    Ok(result)
}

/// Puts `c` at its place in the ascending list `names`, unless it is
/// there already.
pub fn insert_sorted(names: &mut Vec<char>, c: char)
    requires
        strictly_increasing(old(names)@),
    ensures
        strictly_increasing(final(names)@),
        forall|x: char| final(names)@.contains(x) <==> old(names)@.contains(x) || x == c,
{
    let mut at: usize = 0;
    while at < names.len() && names[at] < c
        invariant
            names@ == old(names)@,
            at <= names@.len(),
            forall|i: int| 0 <= i < at ==> names@[i] < c,
        decreases names@.len() - at,
    {
        at += 1;
    }
    if at < names.len() && names[at] == c {
        assert(names@.contains(c));
        return ;
    }
    let ghost before = names@;
    names.insert(at, c);
    proof {
        let after = names@;
        assert(after[at as int] == c);
        assert forall|i: int, j: int| 0 <= i < j < after.len() implies after[i] < after[j] by {
            let source_i = if i < at {
                i
            } else {
                i - 1
            };
            let source_j = if j < at {
                j
            } else {
                j - 1
            };
            if i != at {
                assert(after[i] == before[source_i]);
            }
            if j != at {
                assert(after[j] == before[source_j]);
            }
            if j == at {
            } else if i == at {
                assert(before[at as int] <= before[source_j]) by {
                    if (at as int) < source_j {
                    }
                }
            } else {
            }
        }
        assert forall|x: char| after.contains(x) <==> before.contains(x) || x == c by {
            if after.contains(x) {
                let i = choose|i: int| 0 <= i < after.len() && after[i] == x;
                if i < at {
                    assert(before[i] == x);
                } else if i > at {
                    assert(before[i - 1] == x);
                }
            }
            if before.contains(x) {
                let i = choose|i: int| 0 <= i < before.len() && before[i] == x;
                if i < at {
                    assert(after[i] == x);
                } else {
                    assert(after[i + 1] == x);
                }
            }
        }
    }
}

/// The letters of `text`, each once, in ascending order.
pub fn sorted_letters(text: &str) -> (names: Vec<char>)
    ensures
        is_letters_of(names@, text@),
{
    let mut names: Vec<char> = Vec::new();
    for c in it: text.chars()
        invariant
            it.seq() == text@,
            is_letters_of(names@, text@.take(it.index())),
    {
        let ghost seen = text@.take(it.index());
        let ghost more = text@.take(it.index() + 1);
        proof {
            assert(more.drop_last() == seen);
            assert(more.last() == c);
            assert forall|x: char| more.contains(x) <==> seen.contains(x) || x == c by {
                if more.contains(x) {
                    let i = choose|i: int| 0 <= i < more.len() && more[i] == x;
                    if i < seen.len() {
                        assert(seen[i] == x);
                    }
                }
                if seen.contains(x) {
                    let i = choose|i: int| 0 <= i < seen.len() && seen[i] == x;
                    assert(more[i] == x);
                }
                if x == c {
                    assert(more[more.len() - 1] == x);
                }
            }
        }
        let ghost known = names@;
        if ('A' <= c && c <= 'Z') || ('a' <= c && c <= 'z') {
            insert_sorted(&mut names, c);
        }
        assert forall|x: char| names@.contains(x) <==> more.contains(x) && is_letter(x) by {
            assert(known.contains(x) <==> seen.contains(x) && is_letter(x));
            assert(more.contains(x) <==> seen.contains(x) || x == c);
        }
    }
    assert(text@.take(text@.len() as int) == text@);
    names
}

/// The cells of row number `row` in a table with `width` variables.
pub fn row_cells(width: usize, row: usize) -> (cells: Vec<u8>)
    ensures
        cells@ == row_digits(width as nat, row as nat),
{
    let mut backwards: Vec<u8> = Vec::new();
    let mut quotient = row;
    let mut place: usize = 0;
    proof {
        vstd::arithmetic::power2::lemma2_to64();
    }
    while place < width
        invariant
            place <= width,
            backwards@.len() == place,
            quotient == row as nat / pow2(place as nat),
            forall|k: int|
                0 <= k < place ==> #[trigger] backwards@[k] == digit(
                    (row as nat / pow2(k as nat)) % 2 == 1,
                ),
        decreases width - place,
    {
        proof {
            lemma_pow2_pos(place as nat);
            lemma_pow2_unfold((place + 1) as nat);
            vstd::arithmetic::div_mod::lemma_div_denominator(
                row as int,
                pow2(place as nat) as int,
                2,
            );
        }
        backwards.push(if quotient % 2 == 1 { 49u8 } else { 48u8 });
        quotient = quotient / 2;
        place += 1;
    }
    let mut cells: Vec<u8> = Vec::new();
    let mut left = width;
    while left > 0
        invariant
            left <= width,
            backwards@.len() == width,
            cells@.len() == width - left,
            forall|k: int|
                0 <= k < width ==> #[trigger] backwards@[k] == digit(
                    (row as nat / pow2(k as nat)) % 2 == 1,
                ),
            forall|column: int|
                0 <= column < cells@.len() ==> #[trigger] cells@[column] == digit(
                    row_bit(width as nat, row as nat, column as nat),
                ),
        decreases left,
    {
        left -= 1;
        cells.push(backwards[left]);
    }
    assert(cells@ =~= row_digits(width as nat, row as nat));
    cells
}

/// The truth value of a formula depends on the variables that it mentions
/// only.
pub proof fn lemma_holds_depends_on_mentioned(
    tree: Node,
    first: spec_fn(char) -> bool,
    second: spec_fn(char) -> bool,
)
    requires
        forall|name: char| tree.mentions(name) ==> first(name) == second(name),
    ensures
        tree.holds(first) == tree.holds(second),
    decreases tree,
{
    match tree {
        Node::Value(_) => {},
        Node::Variable(c) => {
            assert(tree.mentions(c));
        },
        Node::Neg(child) => {
            assert forall|name: char| child.mentions(name) implies first(name) == second(name) by {
                assert(tree.mentions(name));
            }
            lemma_holds_depends_on_mentioned(*child, first, second);
        },
        Node::Operator(op) => {
            assert forall|name: char|
                op.left.mentions(name) || op.right.mentions(name) implies first(name) == second(
                name,
            ) by {
                assert(tree.mentions(name));
            }
            lemma_holds_depends_on_mentioned(*op.left, first, second);
            lemma_holds_depends_on_mentioned(*op.right, first, second);
        },
    }
}

/// Where every variable of the formula is in the list, the table has a row
/// for each of the `2^k` assignments of the `k` listed variables, and each
/// row is the truth value of the formula under the assignment of that row.
pub proof fn lemma_table_rows(tree: Node, variables: Seq<char>)
    requires
        forall|name: char| tree.mentions(name) ==> variables.contains(name),
    ensures
        table_rows(tree, variables) is Ok,
        table_rows(tree, variables)->Ok_0.len() == pow2(variables.len()),
        forall|row: int|
            0 <= row < pow2(variables.len()) ==> #[trigger] table_rows(tree, variables)->Ok_0[row]
                == tree.holds(row_assignment(variables, row as nat)),
    decreases variables.len(),
{
    if variables.len() == 0 {
        assert forall|name: char| !tree.mentions(name) by {
            if tree.mentions(name) {
                assert(variables.contains(name));
            }
        }
        lemma_closed_value(tree, row_assignment(variables, 0));
        assert(pow2(0) == 1) by {
            lemma_pow2_unfold(1);
            vstd::arithmetic::power2::lemma2_to64();
        }
    } else {
        let first = variables[0];
        let rest = variables.drop_first();
        let half = pow2(rest.len());
        lemma_pow2_pos(rest.len());
        lemma_pow2_unfold(variables.len());
        assert(pow2(variables.len()) == 2 * half);
        let low_tree = tree.substituted(first, false);
        let high_tree = tree.substituted(first, true);
        assert forall|name: char|
            (low_tree.mentions(name) ==> rest.contains(name)) && (high_tree.mentions(name)
                ==> rest.contains(name)) by {
            lemma_substituted_mentions(tree, first, false, name);
            lemma_substituted_mentions(tree, first, true, name);
            if tree.mentions(name) && name != first {
                assert(variables.contains(name));
                let i = choose|i: int| 0 <= i < variables.len() && variables[i] == name;
                assert(rest[i - 1] == name);
            }
        }
        lemma_table_rows(low_tree, rest);
        lemma_table_rows(high_tree, rest);
        let low = table_rows(low_tree, rest)->Ok_0;
        let high = table_rows(high_tree, rest)->Ok_0;
        let rows = table_rows(tree, variables)->Ok_0;
        assert(rows == low + high);
        assert forall|row: int| 0 <= row < pow2(variables.len()) implies #[trigger] rows[row]
            == tree.holds(row_assignment(variables, row as nat)) by {
            let whole = row_assignment(variables, row as nat);
            let value = row >= half;
            let sub_row = if value {
                row - half
            } else {
                row
            };
            let sub_tree = if value {
                high_tree
            } else {
                low_tree
            };
            assert(sub_row == row % (half as int)) by {
                vstd::arithmetic::div_mod::lemma_fundamental_div_mod_converse(
                    row,
                    half as int,
                    if value {
                        1
                    } else {
                        0
                    },
                    sub_row,
                );
            }
            let part = row_assignment(rest, sub_row as nat);
            assert(rows[row] == sub_tree.holds(part));
            assert forall|name: char| sub_tree.mentions(name) implies part(name) == whole(name) by {
                lemma_substituted_mentions(tree, first, value, name);
            }
            lemma_holds_depends_on_mentioned(sub_tree, part, whole);
            assert(whole(first) == value);
            lemma_substituted_holds(tree, first, value, whole);
        }
    }
}

/// Two formulas that have the same truth value under every assignment
/// have the same truth table over every list that holds the variables of
/// both.
pub proof fn lemma_same_table(first: Node, second: Node, variables: Seq<char>)
    requires
        forall|name: char| first.mentions(name) ==> variables.contains(name),
        forall|name: char| second.mentions(name) ==> variables.contains(name),
        forall|assignment: spec_fn(char) -> bool|
            #[trigger] first.holds(assignment) == second.holds(assignment),
    ensures
        table_rows(first, variables) is Ok,
        table_rows(first, variables) == table_rows(second, variables),
{
    lemma_table_rows(first, variables);
    lemma_table_rows(second, variables);
    let one = table_rows(first, variables)->Ok_0;
    let other = table_rows(second, variables)->Ok_0;
    assert forall|row: int| 0 <= row < one.len() implies one[row] == other[row] by {
        assert(first.holds(row_assignment(variables, row as nat)) == second.holds(
            row_assignment(variables, row as nat),
        ));
    }
    assert(one =~= other);
}

/// Two ascending lists that hold the same characters are one list.
pub proof fn lemma_increasing_unique(first: Seq<char>, second: Seq<char>)
    requires
        strictly_increasing(first),
        strictly_increasing(second),
        forall|c: char| first.contains(c) <==> second.contains(c),
    ensures
        first == second,
    decreases first.len(),
{
    if first.len() == 0 {
        if second.len() > 0 {
            assert(second.contains(second[0]));
        }
        assert(first =~= second);
    } else {
        assert(first.contains(first[0]));
        let j = choose|j: int| 0 <= j < second.len() && second[j] == first[0];
        assert(second.contains(second[0]));
        let i = choose|i: int| 0 <= i < first.len() && first[i] == second[0];
        assert(first[0] == second[0]) by {
            if i > 0 {
                assert(first[0] < first[i]);
            }
            if j > 0 {
                assert(second[0] < second[j]);
            }
        }
        let rest_first = first.drop_first();
        let rest_second = second.drop_first();
        assert forall|c: char| rest_first.contains(c) <==> rest_second.contains(c) by {
            if rest_first.contains(c) {
                let k = choose|k: int| 0 <= k < rest_first.len() && rest_first[k] == c;
                assert(first[0] < first[k + 1]);
                assert(first.contains(c));
                let m = choose|m: int| 0 <= m < second.len() && second[m] == c;
                assert(rest_second[m - 1] == c);
            }
            if rest_second.contains(c) {
                let k = choose|k: int| 0 <= k < rest_second.len() && rest_second[k] == c;
                assert(second[0] < second[k + 1]);
                assert(second.contains(c));
                let m = choose|m: int| 0 <= m < first.len() && first[m] == c;
                assert(rest_first[m - 1] == c);
            }
        }
        assert(strictly_increasing(rest_first)) by {
            assert forall|a: int, b: int| 0 <= a < b < rest_first.len() implies rest_first[a]
                < rest_first[b] by {
                assert(first[a + 1] < first[b + 1]);
            }
        }
        assert(strictly_increasing(rest_second)) by {
            assert forall|a: int, b: int| 0 <= a < b < rest_second.len() implies rest_second[a]
                < rest_second[b] by {
                assert(second[a + 1] < second[b + 1]);
            }
        }
        lemma_increasing_unique(rest_first, rest_second);
        assert(first =~= seq![first[0]] + rest_first);
        assert(second =~= seq![second[0]] + rest_second);
    }
}

/// A text has one list of letters: the columns of its truth table are
/// determined by the text.
pub proof fn lemma_letters_unique(first: Seq<char>, second: Seq<char>, text: Seq<char>)
    requires
        is_letters_of(first, text),
        is_letters_of(second, text),
    ensures
        first == second,
{
    assert forall|c: char| first.contains(c) <==> second.contains(c) by {
        assert(first.contains(c) <==> text.contains(c) && is_letter(c));
        assert(second.contains(c) <==> text.contains(c) && is_letter(c));
    }
    lemma_increasing_unique(first, second);
}

/// An ascending list holds no character twice.
pub proof fn lemma_increasing_no_duplicates(names: Seq<char>)
    requires
        strictly_increasing(names),
    ensures
        names.no_duplicates(),
{
    assert forall|i: int, j: int|
        0 <= i < names.len() && 0 <= j < names.len() && i != j implies names[i] != names[j] by {
        if i < j {
            assert(names[i] < names[j]);
        } else {
            assert(names[j] < names[i]);
        }
    }
}

/// The binary digit at an upper place of a number is a digit of the rest
/// that the number leaves above a lower place.
proof fn lemma_digit_of_rest(row: nat, low: nat, high: nat)
    requires
        low < high,
    ensures
        (row / pow2(low)) % 2 == ((row % pow2(high)) / pow2(low)) % 2,
{
    let unit = pow2(low) as int;
    let span = pow2(high) as int;
    let ratio = pow2((high - low) as nat) as int;
    let lower = pow2((high - low - 1) as nat) as int;
    lemma_pow2_pos(low);
    lemma_pow2_pos(high);
    lemma_pow2_adds(low, (high - low) as nat);
    lemma_pow2_unfold((high - low) as nat);
    assert(span == unit * ratio);
    assert(ratio == 2 * lower);
    let rest = row as int % span;
    let above = row as int / span;
    lemma_fundamental_div_mod(row as int, span);
    let digits = rest / unit;
    let below = rest % unit;
    lemma_fundamental_div_mod(rest, unit);
    assert(row as int == (above * ratio + digits) * unit + below) by (nonlinear_arith)
        requires
            row as int == span * above + rest,
            rest == unit * digits + below,
            span == unit * ratio,
    ;
    lemma_fundamental_div_mod_converse(row as int, unit, above * ratio + digits, below);
    assert(above * ratio == 2 * (above * lower)) by (nonlinear_arith)
        requires
            ratio == 2 * lower,
    ;
}

/// The cells of a row show its assignment: in a table without a repeated
/// variable, the cell of a row in the column of a variable shows a one
/// exactly if the assignment of the row makes the variable true.
pub proof fn lemma_cells_show_assignment(names: Seq<char>, row: nat, column: int)
    requires
        names.no_duplicates(),
        row < pow2(names.len()),
        0 <= column < names.len(),
    ensures
        row_bit(names.len(), row, column as nat) == row_value(names, row, names[column]),
    decreases names.len(),
{
    let width = names.len();
    let half = pow2((width - 1) as nat);
    let rest = names.drop_first();
    lemma_pow2_pos((width - 1) as nat);
    lemma_pow2_unfold(width);
    if column == 0 {
        lemma_fundamental_div_mod_converse(
            row as int,
            half as int,
            if row >= half {
                1
            } else {
                0
            },
            if row >= half {
                row - half
            } else {
                row as int
            },
        );
    } else {
        assert(names[0] != names[column]);
        assert(rest[column - 1] == names[column]);
        assert(rest.no_duplicates()) by {
            assert forall|i: int, j: int|
                0 <= i < rest.len() && 0 <= j < rest.len() && i != j implies rest[i]
                != rest[j] by {
                assert(names[i + 1] != names[j + 1]);
            }
        }
        lemma_fundamental_div_mod(row as int, half as int);
        lemma_cells_show_assignment(rest, row % half, column - 1);
        lemma_digit_of_rest(row, (width - 1 - column) as nat, (width - 1) as nat);
    }
}

} // verus!
