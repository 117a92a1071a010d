//! Evaluation of a formula over sets of integers: a variable stands for a
//! set, conjunction for intersection, disjunction for union, and a negation
//! for the empty set. The other connectives are rewritten over these
//! first.
use crate::formula::{MyError, Node, Oper};
use crate::nnf::lemma_primitive_connectives_well_formed;
use crate::parser::{lemma_parse_tail, parse_spec};
use crate::parser::to_chars;
use crate::printer::push_char;
use vstd::prelude::*;
use vstd::relations::sorted_by;
use vstd::seq_lib::{lemma_sorted_unique, to_multiset_build, to_multiset_insert};
use vstd::string::StringExecFns;

verus! {

/// Why a formula has no value over the given sets.
#[derive(Debug, Clone, Copy, PartialEq, Eq)]
pub enum SetFormulaError {
    /// A token that stands for no set and no operation on sets.
    InvalidChar(char),
    /// An operation that finds too few sets on the stack.
    MissingValue(char),
    /// A variable without a set of its own.
    MissingSet(char),
    /// The formula leaves no set, or more than one.
    TooManyValues(),
    /// The formula could not be parsed.
    ParsingError(MyError),
}

impl SetFormulaError {
    /// The message that describes the error.
    pub open spec fn message(self) -> Seq<char> {
        match self {
            SetFormulaError::InvalidChar(c) => "invalid character: '"@.push(c).push('\''),
            SetFormulaError::MissingValue(c) => "missing value for operator: "@.push(c),
            SetFormulaError::MissingSet(c) => "missing set: "@.push(c),
            SetFormulaError::TooManyValues() => "more than one result"@,
            SetFormulaError::ParsingError(e) => "parsing error: "@ + e.message(),
        }
    }

    /// The message that describes the error.
    pub fn to_string(&self) -> (text: String)
        ensures
            text@ == self.message(),
    {
        match self {
            SetFormulaError::InvalidChar(c) => {
                let mut text = String::from_str("invalid character: '");
                push_char(&mut text, *c);
                push_char(&mut text, '\'');
                text
            },
            SetFormulaError::MissingValue(c) => {
                let mut text = String::from_str("missing value for operator: ");
                push_char(&mut text, *c);
                text
            },
            SetFormulaError::MissingSet(c) => {
                let mut text = String::from_str("missing set: ");
                push_char(&mut text, *c);
                text
            },
            SetFormulaError::TooManyValues() => String::from_str("more than one result"),
            SetFormulaError::ParsingError(e) => {
                let mut text = String::from_str("parsing error: ");
                let inner = e.to_string();
                text.append(inner.as_str());
                text
            },
        }
    }
}

impl From<MyError> for SetFormulaError {
    fn from(error: MyError) -> (wrapped: Self) {
        SetFormulaError::ParsingError(error)
    }
}

impl vstd::std_specs::convert::FromSpecImpl<MyError> for SetFormulaError {
    open spec fn obeys_from_spec() -> bool {
        true
    }

    open spec fn from_spec(error: MyError) -> Self {
        SetFormulaError::ParsingError(error)
    }
}

/// The order of the integers.
pub open spec fn at_most() -> spec_fn(i32, i32) -> bool {
    |a: i32, b: i32| a <= b
}

/// The elements of `set` in ascending order.
pub open spec fn ascending(set: Seq<i32>) -> Seq<i32> {
    set.sort_by(at_most())
}

/// The common elements of two lists, found by walking both from their first
/// elements on and always leaving the smaller first element behind. For
/// ascending lists these are all the common elements.
pub open spec fn merged_intersection(a: Seq<i32>, b: Seq<i32>) -> Seq<i32>
    decreases a.len() + b.len(),
{
    if a.len() == 0 || b.len() == 0 {
        Seq::empty()
    } else if a[0] == b[0] {
        seq![a[0]] + merged_intersection(a.drop_first(), b.drop_first())
    } else if a[0] < b[0] {
        merged_intersection(a.drop_first(), b)
    } else {
        merged_intersection(a, b.drop_first())
    }
}

/// The stack after the token `token`. A variable pushes its set, the one at
/// the place of its letter in the alphabet. A negation marker empties the
/// set on top. `&` replaces the two topmost sets by their intersection, `|`
/// by the upper one appended to the lower one.
pub open spec fn set_step(stack: Seq<Seq<i32>>, token: char, sets: Seq<Seq<i32>>) -> Result<
    Seq<Seq<i32>>,
    SetFormulaError,
> {
    if 'A' <= token <= 'Z' {
        if token as int - 'A' as int >= sets.len() {
            Err(SetFormulaError::MissingSet(token))
        } else {
            Ok(stack.push(sets[token as int - 'A' as int]))
        }
    } else if token == '!' {
        if stack.len() == 0 {
            Err(SetFormulaError::MissingValue('!'))
        } else {
            Ok(stack.drop_last().push(Seq::empty()))
        }
    } else if token == '&' || token == '|' {
        if stack.len() < 2 {
            Err(SetFormulaError::MissingValue(token))
        } else {
            let a = stack[stack.len() - 2];
            let b = stack.last();
            Ok(
                stack.drop_last().drop_last().push(
                    if token == '&' {
                        merged_intersection(a, b)
                    } else {
                        a + b
                    },
                ),
            )
        }
    } else {
        Err(SetFormulaError::InvalidChar(token))
    }
}

/// The stack after the tokens `tokens`, read from left to right and
/// starting from an empty stack; the first token that fails ends the
/// evaluation.
pub open spec fn set_stack_after(tokens: Seq<char>, sets: Seq<Seq<i32>>) -> Result<
    Seq<Seq<i32>>,
    SetFormulaError,
>
    decreases tokens.len(),
{
    if tokens.len() == 0 {
        Ok(Seq::empty())
    } else {
        match set_stack_after(tokens.drop_last(), sets) {
            Ok(stack) => set_step(stack, tokens.last(), sets),
            Err(e) => Err(e),
        }
    }
}

/// The set that the postfix text `tokens` denotes over `sets`: the one set
/// that is left on the stack.
pub open spec fn set_value(tokens: Seq<char>, sets: Seq<Seq<i32>>) -> Result<
    Seq<i32>,
    SetFormulaError,
> {
    match set_stack_after(tokens, sets) {
        Err(e) => Err(e),
        Ok(stack) => if stack.len() == 1 {
            Ok(stack[0])
        } else {
            Err(SetFormulaError::TooManyValues())
        },
    }
}

/// The value of the formula `text` over `sets`: the formula is reduced to
/// the primitive connectives, and its postfix text is evaluated over the
/// sets in ascending order. A negation marker empties the set of what it
/// stands behind, whatever that is.
pub open spec fn eval_set_spec(text: Seq<char>, sets: Seq<Seq<i32>>) -> Result<
    Seq<i32>,
    SetFormulaError,
> {
    match parse_spec(text) {
        Err(e) => Err(SetFormulaError::ParsingError(e)),
        Ok(tree) => set_value(
            tree.to_primitive_connectives().postfix(),
            sets.map_values(|set: Seq<i32>| ascending(set)),
        ),
    }
}

impl Node {
    /// The set that the formula denotes over `sets`: a variable denotes the
    /// set at the place of its letter in the alphabet, a conjunction the
    /// common elements of its operands, a disjunction the elements of the
    /// left operand followed by those of the right one, and a negation the
    /// empty set. Truth values and the other connectives denote nothing;
    /// of several failures, the first one in postfix order is reported.
    pub open spec fn set_of(self, sets: Seq<Seq<i32>>) -> Result<Seq<i32>, SetFormulaError>
        decreases self,
    {
        match self {
            Node::Value(_) => Err(SetFormulaError::InvalidChar(self.symbol())),
            Node::Variable(c) => if c as int - 'A' as int >= sets.len() {
                Err(SetFormulaError::MissingSet(c))
            } else {
                Ok(sets[c as int - 'A' as int])
            },
            Node::Neg(child) => match child.set_of(sets) {
                Ok(_) => Ok(Seq::empty()),
                Err(e) => Err(e),
            },
            Node::Operator(op) => match op.left.set_of(sets) {
                Err(e) => Err(e),
                Ok(a) => match op.right.set_of(sets) {
                    Err(e) => Err(e),
                    Ok(b) => if op.char == Oper::Conjunction {
                        Ok(merged_intersection(a, b))
                    } else if op.char == Oper::Disjunction {
                        Ok(a + b)
                    } else {
                        Err(SetFormulaError::InvalidChar(op.char.symbol()))
                    },
                },
            },
        }
    }
}

/// The elements of each slice.
pub open spec fn slice_views(sets: Seq<&[i32]>) -> Seq<Seq<i32>> {
    sets.map_values(|set: &[i32]| set@)
}

/// The elements of each vector.
pub open spec fn vec_views(sets: Seq<Vec<i32>>) -> Seq<Seq<i32>> {
    sets.map_values(|set: Vec<i32>| set@)
}

/// The elements of `set` in ascending order.
pub fn sorted(set: &[i32]) -> (list: Vec<i32>)
    ensures
        list@ == ascending(set@),
{
    let mut list: Vec<i32> = Vec::new();
    let mut taken: usize = 0;
    assert(list@ == set@.take(0));
    while taken < set.len()
        invariant
            taken <= set@.len(),
            sorted_by(list@, at_most()),
            list@.to_multiset() == set@.take(taken as int).to_multiset(),
        decreases set@.len() - taken,
    {
        let x = set[taken];
        let mut at: usize = 0;
        while at < list.len() && list[at] <= x
            invariant
                at <= list@.len(),
                forall|i: int| 0 <= i < at ==> list@[i] <= x,
            decreases list@.len() - at,
        {
            at += 1;
        }
        let ghost before = list@;
        list.insert(at, x);
        proof {
            let after = list@;
            to_multiset_insert(before, at as int, x);
            assert(set@.take(taken + 1) == set@.take(taken as int).push(x));
            to_multiset_build(set@.take(taken as int), x);
            assert forall|i: int, j: int| 0 <= i < j < after.len() implies #[trigger] at_most()(
                after[i],
                after[j],
            ) by {
                if i != at && j != at {
                    let source_i = if i < at {
                        i
                    } else {
                        i - 1
                    };
                    let source_j = if j < at {
                        j
                    } else {
                        j - 1
                    };
                    assert(at_most()(before[source_i], before[source_j]));
                } else if i == at {
                    assert(at_most()(before[at as int], before[j - 1]) || j - 1 == at);
                }
            }
        }
        taken += 1;
    }
    proof {
        assert(set@.take(taken as int) == set@);
        lemma_ascending(set@);
        lemma_sorted_unique(list@, ascending(set@), at_most());
    }
    list
}

/// The common elements of two lists: see `merged_intersection`.
pub fn intersection(a: &Vec<i32>, b: &Vec<i32>) -> (common: Vec<i32>)
    ensures
        common@ == merged_intersection(a@, b@),
{
    let mut new: Vec<i32> = Vec::new();
    let mut i: usize = 0;
    let mut j: usize = 0;
    assert(a@.skip(0) == a@ && b@.skip(0) == b@);
    assert(new@ + merged_intersection(a@, b@) == merged_intersection(a@, b@));
    while i < a.len() && j < b.len()
        invariant
            i <= a@.len(),
            j <= b@.len(),
            merged_intersection(a@, b@) == new@ + merged_intersection(
                a@.skip(i as int),
                b@.skip(j as int),
            ),
        decreases a@.len() - i + b@.len() - j,
    {
        proof {
            assert(a@.skip(i as int).drop_first() == a@.skip(i + 1));
            assert(b@.skip(j as int).drop_first() == b@.skip(j + 1));
            assert(a@.skip(i as int)[0] == a@[i as int]);
            assert(b@.skip(j as int)[0] == b@[j as int]);
        }
        if a[i] == b[j] {
            let ghost rest = merged_intersection(a@.skip(i + 1), b@.skip(j + 1));
            assert(new@ + (seq![a@[i as int]] + rest) == new@.push(a@[i as int]) + rest);
            new.push(a[i]);
            i += 1;
            j += 1;
        } else if a[i] < b[j] {
            i += 1;
        } else {
            j += 1;
        }
    }
    assert(new@ + Seq::<i32>::empty() == new@);
    new
}

/// Evaluates `formula` over `sets`, the set of the variable `A` first.
pub fn checked_eval_set(formula: &str, sets: &[&[i32]]) -> (r: Result<Vec<i32>, SetFormulaError>)
    ensures
        match eval_set_spec(formula@, slice_views(sets@)) {
            Ok(set) => r matches Ok(list) && list@ == set,
            Err(e) => r matches Err(error) && error == e,
        },
{
    let mut tree = match Node::parse(formula) {
        Ok(tree) => tree,
        Err(e) => {
            return Err(SetFormulaError::from(e));
        },
    };
    let ghost parsed = tree;
    tree.to_primitive_connectives_mut();
    let text = tree.to_string();
    let tokens = to_chars(text.as_str());

    let ghost given = slice_views(sets@).map_values(|set: Seq<i32>| ascending(set));
    let mut ordered: Vec<Vec<i32>> = Vec::new();
    let mut k: usize = 0;
    while k < sets.len()
        invariant
            k <= sets@.len(),
            given == slice_views(sets@).map_values(|set: Seq<i32>| ascending(set)),
            vec_views(ordered@) == given.take(k as int),
        decreases sets@.len() - k,
    {
        let ghost before = ordered@;
        let list = sorted(sets[k]);
        ordered.push(list);
        assert(vec_views(ordered@) == vec_views(before).push(list@));
        assert(given.take(k + 1) == given.take(k as int).push(given[k as int]));
        k += 1;
    }
    assert(given.take(k as int) == given);

    let mut val_stack: Vec<Vec<i32>> = Vec::new();
    assert(vec_views(val_stack@) == Seq::<Seq<i32>>::empty());
    let mut at: usize = 0;
    while at < tokens.len()
        invariant
            tokens@ == tree.postfix(),
            parse_spec(formula@) == Ok::<Node, MyError>(parsed),
            tree == parsed.to_primitive_connectives(),
            given == slice_views(sets@).map_values(|set: Seq<i32>| ascending(set)),
            vec_views(ordered@) == given,
            at <= tokens@.len(),
            set_stack_after(tokens@.take(at as int), given) == Ok::<
                Seq<Seq<i32>>,
                SetFormulaError,
            >(vec_views(val_stack@)),
        decreases tokens@.len() - at,
    {
        let val = tokens[at];
        let ghost before = vec_views(val_stack@);
        let ghost old_stack = val_stack@;
        proof {
            assert(tokens@.take(at + 1).drop_last() == tokens@.take(at as int));
            assert(tokens@.take(at + 1).last() == val);
            assert(set_stack_after(tokens@.take(at + 1), given) == set_step(before, val, given));
            if set_step(before, val, given) is Err {
                lemma_first_set_failure(tokens@, given, at + 1);
            }
        }
        if 'A' <= val && val <= 'Z' {
            let index = (val as u32 - 'A' as u32) as usize;
            if index >= ordered.len() {
                return Err(SetFormulaError::MissingSet(val));
            }
            let set = ordered[index].clone();
            assert(set@ == given[index as int]) by {
                assert(vec_views(ordered@)[index as int] == ordered@[index as int]@);
            }
            val_stack.push(set);
            assert(vec_views(val_stack@) == before.push(set@));
        } else if val == '!' {
            let mut a = match val_stack.pop() {
                Some(a) => a,
                None => {
                    return Err(SetFormulaError::MissingValue('!'));
                },
            };
            assert(vec_views(val_stack@) == before.drop_last());
            a.clear();
            let ghost lower = vec_views(val_stack@);
            val_stack.push(a);
            assert(vec_views(val_stack@) == lower.push(Seq::<i32>::empty()));
        } else if val == '&' || val == '|' {
            let b = match val_stack.pop() {
                Some(b) => b,
                None => {
                    return Err(SetFormulaError::MissingValue(val));
                },
            };
            assert(vec_views(val_stack@) == before.drop_last());
            let mut a = match val_stack.pop() {
                Some(a) => a,
                None => {
                    return Err(SetFormulaError::MissingValue(val));
                },
            };
            assert(vec_views(val_stack@) == before.drop_last().drop_last());
            assert(a@ == before[before.len() - 2] && b@ == before.last()) by {
                assert(before[before.len() - 2] == old_stack[old_stack.len() - 2]@);
                assert(before.last() == old_stack.last()@);
            }
            if val == '&' {
                a = intersection(&a, &b);
            } else {
                let mut b = b;
                a.append(&mut b);
            }
            let ghost lower = vec_views(val_stack@);
            val_stack.push(a);
            assert(vec_views(val_stack@) == lower.push(a@));
        } else {
            return Err(SetFormulaError::InvalidChar(val));
        }
        at += 1;
    }
    assert(tokens@.take(at as int) == tokens@);
    let ghost left = val_stack@;
    if val_stack.len() == 1 {
        match val_stack.pop() {
            Some(set) => {
                assert(set@ == vec_views(left)[0]);
                Ok(set)
            },
            None => Err(SetFormulaError::TooManyValues()),
        }
    } else {
        Err(SetFormulaError::TooManyValues())
    }
}

/// The value of `formula` over `sets`, for a formula that has one.
pub fn eval_set(formula: &str, sets: &[&[i32]]) -> (list: Vec<i32>)
    requires
        eval_set_spec(formula@, slice_views(sets@)) is Ok,
    ensures
        eval_set_spec(formula@, slice_views(sets@)) == Ok::<Seq<i32>, SetFormulaError>(list@),
{
    match checked_eval_set(formula, sets) {
        Ok(list) => list,
        Err(_) => Vec::new(),
    }
}

/// The ascending order of a list: the same elements, each as often as in the
/// list, and none before a smaller one.
pub proof fn lemma_ascending(set: Seq<i32>)
    ensures
        sorted_by(ascending(set), at_most()),
        ascending(set).to_multiset() == set.to_multiset(),
{
    set.lemma_sort_by_ensures(at_most());
}

/// A failure at one token is the failure of every text that goes on behind
/// it.
pub proof fn lemma_first_set_failure(tokens: Seq<char>, sets: Seq<Seq<i32>>, upto: int)
    requires
        0 <= upto <= tokens.len(),
        set_stack_after(tokens.take(upto), sets) is Err,
    ensures
        set_stack_after(tokens, sets) == set_stack_after(tokens.take(upto), sets),
    decreases tokens.len(),
{
    if upto < tokens.len() {
        assert(tokens.drop_last().take(upto) == tokens.take(upto));
        lemma_first_set_failure(tokens.drop_last(), sets, upto);
    } else {
        assert(tokens.take(upto) == tokens);
    }
}

/// Behind any tokens that leave a stack, the postfix text of a formula
/// with uppercase variables puts the set of the formula on top of that
/// stack, or fails as the formula does.
pub proof fn lemma_postfix_pushes_set(
    front: Seq<char>,
    stack: Seq<Seq<i32>>,
    tree: Node,
    sets: Seq<Seq<i32>>,
)
    requires
        tree.uppercase_variables(),
        set_stack_after(front, sets) == Ok::<Seq<Seq<i32>>, SetFormulaError>(stack),
    ensures
        set_stack_after(front + tree.postfix(), sets) == match tree.set_of(sets) {
            Ok(set) => Ok::<Seq<Seq<i32>>, SetFormulaError>(stack.push(set)),
            Err(e) => Err(e),
        },
    decreases tree,
{
    let text = front + tree.postfix();
    match tree {
        Node::Value(_) => {
            assert(text.drop_last() == front);
        },
        Node::Variable(_) => {
            assert(text.drop_last() == front);
        },
        Node::Neg(child) => {
            lemma_postfix_pushes_set(front, stack, *child, sets);
            assert(text.drop_last() == front + child.postfix());
            if let Ok(set) = child.set_of(sets) {
                assert(stack.push(set).drop_last() == stack);
            }
        },
        Node::Operator(op) => {
            let middle = front + op.left.postfix();
            let rest = middle + op.right.postfix();
            assert(text.drop_last() == rest);
            assert(text.last() == op.char.symbol());
            lemma_postfix_pushes_set(front, stack, *op.left, sets);
            if let Ok(a) = op.left.set_of(sets) {
                lemma_postfix_pushes_set(middle, stack.push(a), *op.right, sets);
                if let Ok(b) = op.right.set_of(sets) {
                    let full = stack.push(a).push(b);
                    assert(full.drop_last().drop_last() == stack);
                    assert(full[full.len() - 2] == a);
                }
            } else {
                assert(middle == rest.take(middle.len() as int));
                lemma_first_set_failure(rest, sets, middle.len() as int);
            }
        },
    }
}

/// The value of a formula over sets, by its tree: the postfix text of a
/// formula with uppercase variables denotes the set of the formula.
pub proof fn lemma_set_value_of_postfix(tree: Node, sets: Seq<Seq<i32>>)
    requires
        tree.uppercase_variables(),
    ensures
        set_value(tree.postfix(), sets) == tree.set_of(sets),
{
    lemma_postfix_pushes_set(Seq::empty(), Seq::empty(), tree, sets);
    assert(Seq::<char>::empty() + tree.postfix() == tree.postfix());
}

/// The value of a formula over sets, by its tree: a formula that parses
/// has the value that it denotes, reduced to the primitive connectives,
/// over the sets in ascending order.
pub proof fn lemma_eval_set_by_tree(text: Seq<char>, sets: Seq<Seq<i32>>)
    requires
        parse_spec(text) is Ok,
    ensures
        eval_set_spec(text, sets) == parse_spec(text)->Ok_0.to_primitive_connectives().set_of(
            sets.map_values(|set: Seq<i32>| ascending(set)),
        ),
{
    let tree = parse_spec(text)->Ok_0;
    lemma_parse_tail(text);
    lemma_primitive_connectives_well_formed(tree);
    lemma_set_value_of_postfix(
        tree.to_primitive_connectives(),
        sets.map_values(|set: Seq<i32>| ascending(set)),
    );
}

/// A formula fails over sets for a truth value, for a connective without a
/// meaning over sets, or for a variable without a set: its text never
/// leaves the stack short of a set or with one too many.
pub proof fn lemma_set_of_errors(tree: Node, sets: Seq<Seq<i32>>)
    ensures
        tree.set_of(sets) matches Err(e) ==> e is InvalidChar || e is MissingSet,
    decreases tree,
{
    match tree {
        Node::Value(_) => {},
        Node::Variable(_) => {},
        Node::Neg(child) => {
            lemma_set_of_errors(*child, sets);
        },
        Node::Operator(op) => {
            lemma_set_of_errors(*op.left, sets);
            lemma_set_of_errors(*op.right, sets);
        },
    }
}

/// The failures of an evaluation over sets: the formula does not parse, it
/// holds a truth value, or one of its variables has no set.
pub proof fn lemma_eval_set_errors(text: Seq<char>, sets: Seq<Seq<i32>>)
    ensures
        eval_set_spec(text, sets) matches Err(e) ==> e is ParsingError || e is InvalidChar
            || e is MissingSet,
{
    if parse_spec(text) is Ok {
        lemma_eval_set_by_tree(text, sets);
        lemma_set_of_errors(
            parse_spec(text)->Ok_0.to_primitive_connectives(),
            sets.map_values(|set: Seq<i32>| ascending(set)),
        );
    }
}

/// The intersection of ascending lists: it is ascending, and holds what
/// both lists hold.
pub proof fn lemma_merged_intersection(a: Seq<i32>, b: Seq<i32>)
    requires
        sorted_by(a, at_most()),
        sorted_by(b, at_most()),
    ensures
        sorted_by(merged_intersection(a, b), at_most()),
        forall|x: i32|
            #![trigger merged_intersection(a, b).contains(x)]
            merged_intersection(a, b).contains(x) <==> a.contains(x) && b.contains(x),
    decreases a.len() + b.len(),
{
    let common = merged_intersection(a, b);
    if a.len() == 0 || b.len() == 0 {
        assert forall|x: i32| !(a.contains(x) && b.contains(x)) by {}
    } else {
        let shorter_a = a.drop_first();
        let shorter_b = b.drop_first();
        assert(sorted_by(shorter_a, at_most())) by {
            assert forall|i: int, j: int| 0 <= i < j < shorter_a.len() implies #[trigger] at_most()(
                shorter_a[i],
                shorter_a[j],
            ) by {
                assert(at_most()(a[i + 1], a[j + 1]));
            }
        }
        assert(sorted_by(shorter_b, at_most())) by {
            assert forall|i: int, j: int| 0 <= i < j < shorter_b.len() implies #[trigger] at_most()(
                shorter_b[i],
                shorter_b[j],
            ) by {
                assert(at_most()(b[i + 1], b[j + 1]));
            }
        }
        assert forall|x: i32| a.contains(x) <==> x == a[0] || shorter_a.contains(x) by {
            if a.contains(x) {
                let i = choose|i: int| 0 <= i < a.len() && a[i] == x;
                if i > 0 {
                    assert(shorter_a[i - 1] == x);
                }
            }
            if shorter_a.contains(x) {
                let i = choose|i: int| 0 <= i < shorter_a.len() && shorter_a[i] == x;
                assert(a[i + 1] == x);
            }
            assert(a[0] == a[0]);
        }
        assert forall|x: i32| b.contains(x) <==> x == b[0] || shorter_b.contains(x) by {
            if b.contains(x) {
                let i = choose|i: int| 0 <= i < b.len() && b[i] == x;
                if i > 0 {
                    assert(shorter_b[i - 1] == x);
                }
            }
            if shorter_b.contains(x) {
                let i = choose|i: int| 0 <= i < shorter_b.len() && shorter_b[i] == x;
                assert(b[i + 1] == x);
            }
            assert(b[0] == b[0]);
        }
        assert forall|x: i32| shorter_a.contains(x) implies a[0] <= x by {
            let i = choose|i: int| 0 <= i < shorter_a.len() && shorter_a[i] == x;
            assert(at_most()(a[0], a[i + 1]));
        }
        assert forall|x: i32| shorter_b.contains(x) implies b[0] <= x by {
            let i = choose|i: int| 0 <= i < shorter_b.len() && shorter_b[i] == x;
            assert(at_most()(b[0], b[i + 1]));
        }
        if a[0] == b[0] {
            let rest = merged_intersection(shorter_a, shorter_b);
            lemma_merged_intersection(shorter_a, shorter_b);
            assert(common == seq![a[0]] + rest);
            assert forall|x: i32| common.contains(x) <==> x == a[0] || rest.contains(x) by {
                if common.contains(x) {
                    let i = choose|i: int| 0 <= i < common.len() && common[i] == x;
                    if i > 0 {
                        assert(rest[i - 1] == x);
                    }
                }
                if rest.contains(x) {
                    let i = choose|i: int| 0 <= i < rest.len() && rest[i] == x;
                    assert(common[i + 1] == x);
                }
                assert(common[0] == a[0]);
            }
            assert forall|i: int, j: int| 0 <= i < j < common.len() implies #[trigger] at_most()(
                common[i],
                common[j],
            ) by {
                assert(rest.contains(rest[j - 1]));
                if i > 0 {
                    assert(at_most()(rest[i - 1], rest[j - 1]));
                }
            }
        } else if a[0] < b[0] {
            lemma_merged_intersection(shorter_a, b);
        } else {
            lemma_merged_intersection(a, shorter_b);
        }
    }
}

} // verus!
