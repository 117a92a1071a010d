//! Rendering a formula tree as postfix text.
use crate::formula::{MyError, Node};
use vstd::prelude::*;
use vstd::string::StringExecFns;

verus! {

/// `String::push`: the text grows by the one character `c` at its end.
#[verifier::external_body]
pub(crate) fn push_char(text: &mut String, c: char)
    ensures
        final(text)@ == old(text)@.push(c),
{
    text.push(c)
}

impl Node {
    /// The postfix text of the formula: the operands from left to right,
    /// then the token of the node itself.
    pub open spec fn postfix(self) -> Seq<char>
        decreases self,
    {
        match self {
            Node::Value(_) => seq![self.symbol()],
            Node::Variable(_) => seq![self.symbol()],
            Node::Neg(child) => child.postfix().push('!'),
            Node::Operator(op) => (op.left.postfix() + op.right.postfix()).push(op.char.symbol()),
        }
    }

    /// Appends the postfix text of the formula to `out`.
    pub fn write_postfix(&self, out: &mut String)
        ensures
            final(out)@ == old(out)@ + self.postfix(),
        decreases *self,
    {
        match self {
            Node::Operator(op) => {
                op.left.write_postfix(out);
                op.right.write_postfix(out);
            },
            Node::Neg(child) => {
                child.write_postfix(out);
            },
            Node::Value(_) | Node::Variable(_) => (),
        }
        push_char(out, self.char());
    }

    /// The postfix text of the formula.
    pub fn to_string(&self) -> (text: String)
        ensures
            text@ == self.postfix(),
    {
        let mut text = String::new();
        self.write_postfix(&mut text);
        text
    }
}

impl MyError {
    /// The message that describes the error.
    pub open spec fn message(self) -> Seq<char> {
        match self {
            MyError::InvalidChar(c) => "invalid character: '"@.push(c).push('\''),
            MyError::InvalidOperator(c) => "invalid operator: '"@.push(c).push('\''),
            MyError::Eof => "premature end of formula"@,
            MyError::UnsetVariable(c) => "value for variable '"@.push(c) + "' is not set"@,
        }
    }

    /// The message that describes the error.
    pub fn to_string(&self) -> (text: String)
        ensures
            text@ == self.message(),
    {
        match self {
            MyError::InvalidChar(c) => {
                let mut text = String::from_str("invalid character: '");
                push_char(&mut text, *c);
                push_char(&mut text, '\'');
                text
            },
            MyError::InvalidOperator(c) => {
                let mut text = String::from_str("invalid operator: '");
                push_char(&mut text, *c);
                push_char(&mut text, '\'');
                text
            },
            MyError::Eof => String::from_str("premature end of formula"),
            MyError::UnsetVariable(c) => {
                let mut text = String::from_str("value for variable '");
                push_char(&mut text, *c);
                text.append("' is not set");
                text
            },
        }
    }
}

} // verus!
