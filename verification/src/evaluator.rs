//! Evaluating formulas: the meaning of a formula under an assignment,
//! evaluation of closed formulas, and partial evaluation.
use crate::formula::{MyError, Node, Oper};
use vstd::prelude::*;

verus! {

impl Node {
    /// The truth value of the formula when each variable `c` has the value
    /// `assignment(c)`.
    pub open spec fn holds(self, assignment: spec_fn(char) -> bool) -> bool
        decreases self,
    {
        match self {
            Node::Value(b) => b,
            Node::Variable(c) => assignment(c),
            Node::Neg(child) => !child.holds(assignment),
            Node::Operator(op) => op.char.apply(
                op.left.holds(assignment),
                op.right.holds(assignment),
            ),
        }
    }

    /// The truth value of a formula without variables. A variable makes the
    /// evaluation fail; with several, the first one in postfix order is
    /// reported.
    pub open spec fn value(self) -> Result<bool, MyError>
        decreases self,
    {
        match self {
            Node::Value(b) => Ok(b),
            Node::Variable(c) => Err(MyError::UnsetVariable(c)),
            Node::Neg(child) => match child.value() {
                Ok(b) => Ok(!b),
                Err(e) => Err(e),
            },
            Node::Operator(op) => match op.left.value() {
                Err(e) => Err(e),
                Ok(left) => match op.right.value() {
                    Err(e) => Err(e),
                    Ok(right) => Ok(op.char.apply(left, right)),
                },
            },
        }
    }

    /// The connective `op` over two operands that were already partially
    /// evaluated. A false operand makes a conjunction false and a true one
    /// a disjunction true, whatever the other operand is; two truth values
    /// give the result of any connective; every other node stays.
    pub open spec fn folded(op: Oper, left: Node, right: Node) -> Node {
        if op == Oper::Conjunction && (left == Node::Value(false) || right == Node::Value(false)) {
            Node::Value(false)
        } else if op == Oper::Disjunction && (left == Node::Value(true) || right == Node::Value(
            true,
        )) {
            Node::Value(true)
        } else {
            match (left, right) {
                (Node::Value(a), Node::Value(b)) => Node::Value(op.apply(a, b)),
                _ => Node::binary(op, left, right),
            }
        }
    }

    /// The negation of an operand that was already partially evaluated: a
    /// truth value is inverted and a double negation collapses.
    pub open spec fn folded_neg(child: Node) -> Node {
        match child {
            Node::Value(b) => Node::Value(!b),
            Node::Neg(inner) => *inner,
            _ => Node::not(child),
        }
    }

    /// The formula with `value` in place of the variable `var`, simplified
    /// from the leaves up.
    pub open spec fn substituted(self, var: char, value: bool) -> Node
        decreases self,
    {
        match self {
            Node::Value(b) => Node::Value(b),
            Node::Variable(c) => if c == var {
                Node::Value(value)
            } else {
                Node::Variable(c)
            },
            Node::Neg(child) => Node::folded_neg(child.substituted(var, value)),
            Node::Operator(op) => Node::folded(
                op.char,
                op.left.substituted(var, value),
                op.right.substituted(var, value),
            ),
        }
    }

    /// Evaluates a formula that holds no variable.
    pub fn evaluate(&self) -> (r: Result<bool, MyError>)
        ensures
            r == self.value(),
        decreases *self,
    {
        match self {
            Node::Value(b) => Ok(*b),
            Node::Variable(c) => Err(MyError::UnsetVariable(*c)),
            Node::Neg(child) => match child.evaluate() {
                Ok(b) => Ok(!b),
                Err(e) => Err(e),
            },
            Node::Operator(op) => {
                let left = match op.left.evaluate() {
                    Ok(b) => b,
                    Err(e) => {
                        return Err(e);
                    },
                };
                let right = match op.right.evaluate() {
                    Ok(b) => b,
                    Err(e) => {
                        return Err(e);
                    },
                };
                Ok(op.char.eval(left, right))
            },
        }
    }

    /// Whether the node is the truth value `value`.
    fn is_value(&self, value: bool) -> (r: bool)
        ensures
            r == (*self == Node::Value(value)),
    {
        match self {
            Node::Value(b) => *b == value,
            _ => false,
        }
    }

    /// Replaces the variable `var` by `value` and simplifies the formula in
    /// place.
    pub fn partial_evaluate(&mut self, var: char, value: bool)
        ensures
            *final(self) == old(self).substituted(var, value),
        decreases *old(self),
    {
        let mut taken = Node::Value(false);
        std::mem::swap(self, &mut taken);
        match taken {
            Node::Variable(c) => {
                if var == c {
                    *self = Node::Value(value);
                } else {
                    *self = Node::Variable(c);
                }
            },
            Node::Operator(mut op) => {
                op.left.partial_evaluate(var, value);
                op.right.partial_evaluate(var, value);
                if op.char == Oper::Conjunction && (op.left.is_value(false) || op.right.is_value(
                    false,
                )) {
                    *self = Node::Value(false);
                } else if op.char == Oper::Disjunction && (op.left.is_value(true)
                    || op.right.is_value(true)) {
                    *self = Node::Value(true);
                } else {
                    match (&*op.left, &*op.right) {
                        (Node::Value(left), Node::Value(right)) => {
                            *self = Node::Value(op.char.eval(*left, *right));
                        },
                        _ => {
                            *self = Node::Operator(op);
                        },
                    }
                }
            },
            Node::Neg(mut child) => {
                child.partial_evaluate(var, value);
                match *child {
                    Node::Value(val) => {
                        *self = Node::Value(!val);
                    },
                    Node::Neg(grand_child) => {
                        *self = *grand_child;
                    },
                    other => {
                        *self = Node::Neg(Box::new(other));
                    },
                }
            },
            Node::Value(b) => {
                *self = Node::Value(b);
            },
        }
    }
}

/// Partial evaluation keeps the meaning of a formula under every assignment
/// that gives the variable the substituted value.
pub proof fn lemma_substituted_holds(
    tree: Node,
    var: char,
    value: bool,
    assignment: spec_fn(char) -> bool,
)
    requires
        assignment(var) == value,
    ensures
        tree.substituted(var, value).holds(assignment) == tree.holds(assignment),
    decreases tree,
{
    match tree {
        Node::Value(_) => {},
        Node::Variable(_) => {},
        Node::Neg(child) => {
            lemma_substituted_holds(*child, var, value, assignment);
        },
        Node::Operator(op) => {
            lemma_substituted_holds(*op.left, var, value, assignment);
            lemma_substituted_holds(*op.right, var, value, assignment);
        },
    }
}

/// Partial evaluation removes the substituted variable and brings in no
/// other.
pub proof fn lemma_substituted_mentions(tree: Node, var: char, value: bool, name: char)
    ensures
        tree.substituted(var, value).mentions(name) ==> tree.mentions(name) && name != var,
    decreases tree,
{
    match tree {
        Node::Value(_) => {},
        Node::Variable(_) => {},
        Node::Neg(child) => {
            lemma_substituted_mentions(*child, var, value, name);
        },
        Node::Operator(op) => {
            lemma_substituted_mentions(*op.left, var, value, name);
            lemma_substituted_mentions(*op.right, var, value, name);
        },
    }
}

/// A formula without variables evaluates to the truth value that it has
/// under every assignment.
pub proof fn lemma_closed_value(tree: Node, assignment: spec_fn(char) -> bool)
    requires
        forall|name: char| !tree.mentions(name),
    ensures
        tree.value() == Ok::<bool, MyError>(tree.holds(assignment)),
    decreases tree,
{
    match tree {
        Node::Value(_) => {},
        Node::Variable(c) => {
            assert(tree.mentions(c));
        },
        Node::Neg(child) => {
            assert forall|name: char| !child.mentions(name) by {
                assert(!tree.mentions(name));
            }
            lemma_closed_value(*child, assignment);
        },
        Node::Operator(op) => {
            assert forall|name: char| !op.left.mentions(name) && !op.right.mentions(name) by {
                assert(!tree.mentions(name));
            }
            lemma_closed_value(*op.left, assignment);
            lemma_closed_value(*op.right, assignment);
        },
    }
}

/// Evaluation fails exactly on the formulas that mention a variable.
pub proof fn lemma_value_fails_on_variables(tree: Node)
    ensures
        tree.value() is Err <==> exists|name: char| tree.mentions(name),
        tree.value() matches Err(e) ==> e matches MyError::UnsetVariable(name) && tree.mentions(
            name,
        ),
    decreases tree,
{
    match tree {
        Node::Value(_) => {},
        Node::Variable(c) => {
            assert(tree.mentions(c));
        },
        Node::Neg(child) => {
            lemma_value_fails_on_variables(*child);
            if exists|name: char| tree.mentions(name) {
                let name = choose|name: char| tree.mentions(name);
                assert(child.mentions(name));
            }
            if child.value() is Err {
                let name = choose|name: char| child.mentions(name);
                assert(tree.mentions(name));
            }
        },
        Node::Operator(op) => {
            lemma_value_fails_on_variables(*op.left);
            lemma_value_fails_on_variables(*op.right);
            if exists|name: char| tree.mentions(name) {
                let name = choose|name: char| tree.mentions(name);
                assert(op.left.mentions(name) || op.right.mentions(name));
            }
            if op.left.value() is Err {
                let name = choose|name: char| op.left.mentions(name);
                assert(tree.mentions(name));
            }
            if op.right.value() is Err {
                let name = choose|name: char| op.right.mentions(name);
                assert(tree.mentions(name));
            }
        },
    }
}

/// What partial evaluation leaves is folded as far as it goes: if it can be
/// evaluated, it is a truth value already.
pub proof fn lemma_substituted_is_folded(tree: Node, var: char, value: bool)
    ensures
        tree.substituted(var, value).value() matches Ok(b) ==> tree.substituted(var, value)
            == Node::Value(b),
    decreases tree,
{
    match tree {
        Node::Value(_) => {},
        Node::Variable(_) => {},
        Node::Neg(child) => {
            lemma_substituted_is_folded(*child, var, value);
        },
        Node::Operator(op) => {
            lemma_substituted_is_folded(*op.left, var, value);
            lemma_substituted_is_folded(*op.right, var, value);
        },
    }
}

} // verus!
