//! Evaluation of a closed formula straight from its postfix text, with a
//! stack of truth values.
use crate::formula::Oper;
use crate::parser::{lemma_parse_tail, lemma_parsed_tokens_are_ascii, parse_spec, parse_tail};
use crate::printer::push_char;
use vstd::prelude::*;
use vstd::string::{StringExecFns, StringSliceAdditionalSpecFns};
use vstd::utf8::{is_ascii_chars, is_ascii_chars_encode_utf8};

verus! {

/// Why a postfix text has no truth value.
#[derive(Debug, Clone, Copy, PartialEq, Eq, Structural)]
pub enum ParsingError {
    /// A token that is neither a truth value nor an operator.
    InvalidChar(char),
    /// An operator that finds too few values on the stack.
    MissingValue(char),
    /// The text leaves no value, or more than one.
    TooManyValues,
}

impl ParsingError {
    /// The message that describes the error.
    pub open spec fn message(self) -> Seq<char> {
        match self {
            ParsingError::InvalidChar(c) => "invalid character: '"@.push(c).push('\''),
            ParsingError::MissingValue(c) => "missing value for operator: "@.push(c),
            ParsingError::TooManyValues => "formula returns multiple values"@,
        }
    }

    /// The message that describes the error.
    pub fn to_string(&self) -> (text: String)
        ensures
            text@ == self.message(),
    {
        match self {
            ParsingError::InvalidChar(c) => {
                let mut text = String::from_str("invalid character: '");
                push_char(&mut text, *c);
                push_char(&mut text, '\'');
                text
            },
            ParsingError::MissingValue(c) => {
                let mut text = String::from_str("missing value for operator: ");
                push_char(&mut text, *c);
                text
            },
            ParsingError::TooManyValues => String::from_str("formula returns multiple values"),
        }
    }
}

/// The byte of the token `0`.
pub const ZERO: u8 = 48;

/// The byte of the token `1`.
pub const ONE: u8 = 49;

/// The byte of the token `!`.
pub const NOT: u8 = 33;

/// The byte of the token `&`.
pub const AND: u8 = 38;

/// The byte of the token `|`.
pub const OR: u8 = 124;

/// The byte of the token `^`.
pub const XOR: u8 = 94;

/// The byte of the token `>`.
pub const IMPLIES: u8 = 62;

/// The byte of the token `=`.
pub const EQUALS: u8 = 61;

/// The connective that the byte `token` stands for, if any.
pub open spec fn connective(token: u8) -> Option<Oper> {
    if token == AND {
        Some(Oper::Conjunction)
    } else if token == OR {
        Some(Oper::Disjunction)
    } else if token == XOR {
        Some(Oper::ExclusiveDisjunction)
    } else if token == IMPLIES {
        Some(Oper::MaterialCondition)
    } else if token == EQUALS {
        Some(Oper::Equivalence)
    } else {
        None
    }
}

/// The stack after the token `token`: a truth value is pushed, a negation
/// marker inverts the top of the stack, and a connective replaces the two
/// topmost values, the upper one its right operand, by its result.
pub open spec fn stack_step(stack: Seq<bool>, token: u8) -> Result<Seq<bool>, ParsingError> {
    if token == ZERO || token == ONE {
        Ok(stack.push(token == ONE))
    } else if token == NOT {
        if stack.len() == 0 {
            Err(ParsingError::MissingValue('!'))
        } else {
            Ok(stack.drop_last().push(!stack.last()))
        }
    } else {
        match connective(token) {
            None => Err(ParsingError::InvalidChar(token as char)),
            Some(op) => if stack.len() < 2 {
                Err(ParsingError::MissingValue(token as char))
            } else {
                Ok(
                    stack.drop_last().drop_last().push(
                        op.apply(stack[stack.len() - 2], stack.last()),
                    ),
                )
            },
        }
    }
}

/// The stack after the tokens `tokens`, read from left to right and
/// starting from an empty stack; the first token that fails ends the
/// evaluation.
pub open spec fn stack_after(tokens: Seq<u8>) -> Result<Seq<bool>, ParsingError>
    decreases tokens.len(),
{
    if tokens.len() == 0 {
        Ok(Seq::empty())
    } else {
        match stack_after(tokens.drop_last()) {
            Ok(stack) => stack_step(stack, tokens.last()),
            Err(e) => Err(e),
        }
    }
}

/// The truth value of the postfix text `tokens`: the one value that is left
/// on the stack.
pub open spec fn postfix_value(tokens: Seq<u8>) -> Result<bool, ParsingError> {
    match stack_after(tokens) {
        Err(e) => Err(e),
        Ok(stack) => if stack.len() == 1 {
            Ok(stack[0])
        } else {
            Err(ParsingError::TooManyValues)
        },
    }
}

/// The bytes of an ASCII text.
pub open spec fn bytes_of(text: Seq<char>) -> Seq<u8> {
    text.map_values(|c: char| c as u8)
}

/// Applies the connective that the byte `op` stands for.
pub fn eval(a: bool, b: bool, op: u8) -> (r: bool)
    requires
        connective(op) is Some,
    ensures
        r == connective(op)->Some_0.apply(a, b),
{
    if op == AND {
        a && b
    } else if op == OR {
        a || b
    } else if op == XOR {
        a ^ b
    } else if op == IMPLIES {
        !a || b
    } else {
        a == b
    }
}

/// Evaluates a formula without variables that is given in postfix
/// notation.
pub fn checked_eval_formula(formula: &str) -> (r: Result<bool, ParsingError>)
    ensures
        r == postfix_value(formula.spec_bytes()),
{
    let tokens = formula.as_bytes();
    let mut val_stack: Vec<bool> = Vec::new();
    let mut at: usize = 0;
    while at < tokens.len()
        invariant
            tokens@ == formula.spec_bytes(),
            at <= tokens@.len(),
            stack_after(tokens@.take(at as int)) == Ok::<Seq<bool>, ParsingError>(val_stack@),
        decreases tokens@.len() - at,
    {
        let val = tokens[at];
        let ghost before = val_stack@;
        proof {
            assert(tokens@.take(at + 1).drop_last() == tokens@.take(at as int));
            assert(tokens@.take(at + 1).last() == val);
            assert(stack_after(tokens@.take(at + 1)) == stack_step(before, val));
            if stack_step(before, val) is Err {
                lemma_first_failure(tokens@, at + 1);
            }
        }
        if val == ZERO || val == ONE {
            val_stack.push(val != ZERO);
        } else if val == NOT {
            let a = match val_stack.pop() {
                Some(a) => a,
                None => {
                    return Err(ParsingError::MissingValue('!'));
                },
            };
            val_stack.push(a ^ true);
        } else if val == AND || val == OR || val == XOR || val == IMPLIES || val == EQUALS {
            let b = match val_stack.pop() {
                Some(b) => b,
                None => {
                    return Err(ParsingError::MissingValue(val as char));
                },
            };
            let a = match val_stack.pop() {
                Some(a) => a,
                None => {
                    return Err(ParsingError::MissingValue(val as char));
                },
            };
            val_stack.push(eval(a, b, val));
        } else {
            return Err(ParsingError::InvalidChar(val as char));
        }
        at += 1;
        assert(val_stack@ == stack_step(before, val)->Ok_0);
    }
    assert(tokens@.take(at as int) == tokens@);
    if val_stack.len() == 1 {
        Ok(val_stack[0])
    } else {
        Err(ParsingError::TooManyValues)
    }
}

/// The truth value of a formula without variables that is given in postfix
/// notation and has one.
pub fn eval_formula(formula: &str) -> (value: bool)
    requires
        postfix_value(formula.spec_bytes()) is Ok,
    ensures
        postfix_value(formula.spec_bytes()) == Ok::<bool, ParsingError>(value),
{
    match checked_eval_formula(formula) {
        Ok(value) => value,
        Err(_) => false,
    }
}

/// A failure at one token is the failure of every text that goes on behind
/// it.
pub proof fn lemma_first_failure(tokens: Seq<u8>, upto: int)
    requires
        0 <= upto <= tokens.len(),
        stack_after(tokens.take(upto)) is Err,
    ensures
        stack_after(tokens) == stack_after(tokens.take(upto)),
    decreases tokens.len(),
{
    if upto < tokens.len() {
        assert(tokens.drop_last().take(upto) == tokens.take(upto));
        lemma_first_failure(tokens.drop_last(), upto);
    } else {
        assert(tokens.take(upto) == tokens);
    }
}

/// A formula without variables at the end of a text leaves its truth value
/// on top of the stack that the text in front of it leaves.
pub proof fn lemma_stack_reads_formula(text: Seq<char>)
    requires
        parse_tail(text) matches Ok((tree, front)) && tree.value() is Ok && stack_after(
            bytes_of(text.take(front as int)),
        ) is Ok,
    ensures
        parse_tail(text) matches Ok((tree, front)) && stack_after(bytes_of(text)) == Ok::<
            Seq<bool>,
            ParsingError,
        >(stack_after(bytes_of(text.take(front as int)))->Ok_0.push(tree.value()->Ok_0)),
    decreases text.len(),
{
    let c = text.last();
    let rest = text.drop_last();
    let (tree, front) = parse_tail(text)->Ok_0;
    let below = stack_after(bytes_of(text.take(front as int)))->Ok_0;
    lemma_parse_tail(text);
    assert(bytes_of(text).drop_last() == bytes_of(rest));
    assert(bytes_of(text).last() == c as u8);
    if c == '!' {
        let (child, _) = parse_tail(rest)->Ok_0;
        assert(rest.take(front as int) == text.take(front as int));
        assert(child.value() is Ok);
        lemma_stack_reads_formula(rest);
        assert(below.push(child.value()->Ok_0).drop_last() == below);
    } else if c == '0' || c == '1' {
        assert(text.take(front as int) == rest);
    } else if 'A' <= c <= 'Z' {
    } else {
        let op = Oper::of_symbol(c)->Some_0;
        assert(connective(c as u8) == Some(op));
        lemma_parse_tail(rest);
        let (right, middle) = parse_tail(rest)->Ok_0;
        let head = rest.take(middle as int);
        let (left, _) = parse_tail(head)->Ok_0;
        lemma_parse_tail(head);
        assert(head.take(front as int) == text.take(front as int));
        lemma_stack_reads_formula(head);
        lemma_stack_reads_formula(rest);
        let full = below.push(left.value()->Ok_0).push(right.value()->Ok_0);
        assert(full.drop_last().drop_last() == below);
        assert(full[full.len() - 2] == left.value()->Ok_0);
    }
}

/// The two evaluators agree: a text that denotes a formula without
/// variables has, as a sequence of tokens for the stack, the truth value of
/// that formula.
pub proof fn lemma_stack_evaluation_agrees(text: Seq<char>)
    requires
        parse_spec(text) matches Ok(tree) && tree.value() is Ok,
    ensures
        is_ascii_chars(text),
        postfix_value(bytes_of(text)) == Ok::<bool, ParsingError>(
            parse_spec(text)->Ok_0.value()->Ok_0,
        ),
{
    assert(text.take(0) == Seq::<char>::empty());
    assert(bytes_of(Seq::<char>::empty()) == Seq::<u8>::empty());
    lemma_stack_reads_formula(text);
    lemma_parsed_tokens_are_ascii(text);
}

/// The two evaluators agree on formula text: where `formula` denotes a
/// formula without variables, its bytes evaluate to the truth value of
/// that formula.
pub proof fn lemma_eval_formula_agrees(formula: &str)
    requires
        parse_spec(formula@) matches Ok(tree) && tree.value() is Ok,
    ensures
        postfix_value(formula.spec_bytes()) == Ok::<bool, ParsingError>(
            parse_spec(formula@)->Ok_0.value()->Ok_0,
        ),
{
    lemma_stack_evaluation_agrees(formula@);
    is_ascii_chars_encode_utf8(formula@);
    assert(formula.spec_bytes() =~= bytes_of(formula@));
}

} // verus!
