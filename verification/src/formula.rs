//! The formula tree: connectives, nodes, and the structural predicates that
//! the rest of the library states its contracts over.
use vstd::prelude::*;

verus! {

/// Why a formula could not be parsed or evaluated.
#[derive(Debug, Clone, Copy, PartialEq, Eq, Structural)]
pub enum MyError {
    /// A token outside the accepted alphabet.
    InvalidChar(char),
    /// An operator in a place where none may stand. The parser has no use
    /// for it: a negation marker with nothing to negate is an `Eof`.
    InvalidOperator(char),
    /// The text is no complete formula: an operand is missing, or a
    /// connective that would join the formulas in it.
    Eof,
    /// Evaluation reached a variable that has no value.
    UnsetVariable(char),
}

/// A binary connective.
#[derive(Debug, Clone, Copy, PartialEq, Eq, Structural)]
pub enum Oper {
    Conjunction,
    Disjunction,
    ExclusiveDisjunction,
    MaterialCondition,
    Equivalence,
}

impl Oper {
    /// The token that stands for this connective in formula text.
    pub open spec fn symbol(self) -> char {
        match self {
            Oper::Conjunction => '&',
            Oper::Disjunction => '|',
            Oper::ExclusiveDisjunction => '^',
            Oper::MaterialCondition => '>',
            Oper::Equivalence => '=',
        }
    }

    /// The truth table of this connective.
    pub open spec fn apply(self, left: bool, right: bool) -> bool {
        match self {
            Oper::Conjunction => left && right,
            Oper::Disjunction => left || right,
            Oper::ExclusiveDisjunction => left != right,
            Oper::MaterialCondition => !left || right,
            Oper::Equivalence => left == right,
        }
    }

    /// The connective that `c` stands for, if any.
    pub open spec fn of_symbol(c: char) -> Option<Oper> {
        if c == '&' {
            Some(Oper::Conjunction)
        } else if c == '|' {
            Some(Oper::Disjunction)
        } else if c == '^' {
            Some(Oper::ExclusiveDisjunction)
        } else if c == '>' {
            Some(Oper::MaterialCondition)
        } else if c == '=' {
            Some(Oper::Equivalence)
        } else {
            None
        }
    }

    /// Conjunction and disjunction are the connectives every other one is
    /// reduced to.
    pub open spec fn is_primitive(self) -> bool {
        self == Oper::Conjunction || self == Oper::Disjunction
    }

    /// The sign of this connective in mathematical notation.
    pub open spec fn glyph(self) -> char {
        match self {
            Oper::Conjunction => '\u{2227}',
            Oper::Disjunction => '\u{2228}',
            Oper::ExclusiveDisjunction => '\u{2295}',
            Oper::MaterialCondition => '\u{21d2}',
            Oper::Equivalence => '\u{21d4}',
        }
    }

    /// The token that stands for this connective in formula text.
    pub fn ascii_char(&self) -> (c: char)
        ensures
            c == self.symbol(),
    {
        match self {
            Oper::Conjunction => '&',
            Oper::Disjunction => '|',
            Oper::ExclusiveDisjunction => '^',
            Oper::MaterialCondition => '>',
            Oper::Equivalence => '=',
        }
    }

    /// The sign of this connective in mathematical notation.
    pub fn utf8_char(&self) -> (c: char)
        ensures
            c == self.glyph(),
    {
        match self {
            Oper::Conjunction => '\u{2227}',
            Oper::Disjunction => '\u{2228}',
            Oper::ExclusiveDisjunction => '\u{2295}',
            Oper::MaterialCondition => '\u{21d2}',
            Oper::Equivalence => '\u{21d4}',
        }
    }

    /// The connective that the token `char` stands for; any other character
    /// is rejected as invalid.
    pub fn from_ascii(char: char) -> (r: Result<Self, MyError>)
        ensures
            r == match Oper::of_symbol(char) {
                Some(op) => Ok::<Oper, MyError>(op),
                None => Err(MyError::InvalidChar(char)),
            },
    {
        match char {
            '&' => Ok(Oper::Conjunction),
            '|' => Ok(Oper::Disjunction),
            '^' => Ok(Oper::ExclusiveDisjunction),
            '>' => Ok(Oper::MaterialCondition),
            '=' => Ok(Oper::Equivalence),
            _ => Err(MyError::InvalidChar(char)),
        }
    }

    /// Evaluates the connective on two truth values.
    pub fn eval(&self, left: bool, right: bool) -> (r: bool)
        ensures
            r == self.apply(left, right),
    {
        match self {
            Oper::Conjunction => left && right,
            Oper::Disjunction => left || right,
            Oper::ExclusiveDisjunction => left != right,
            Oper::MaterialCondition => !left || right,
            Oper::Equivalence => left == right,
        }
    }
}

/// A connective applied to its two operands.
#[derive(Debug, PartialEq)]
pub struct Op {
    pub char: Oper,
    pub left: Box<Node>,
    pub right: Box<Node>,
}

impl Op {
    /// The connective `char` over the operands `left` and `right`.
    #[inline]
    pub fn new(char: Oper, left: Node, right: Node) -> (op: Self)
        ensures
            op == (Op { char, left: Box::new(left), right: Box::new(right) }),
    {
        Op { char, left: Box::new(left), right: Box::new(right) }
    }
}

/// A formula.
#[derive(Debug, PartialEq)]
pub enum Node {
    Value(bool),
    Variable(char),
    Neg(Box<Node>),
    Operator(Op),
}

impl Node {
    /// The formula `Operator(op, left, right)`.
    pub open spec fn binary(op: Oper, left: Node, right: Node) -> Node {
        Node::Operator(Op { char: op, left: Box::new(left), right: Box::new(right) })
    }

    /// The formula `Neg(child)`.
    pub open spec fn not(child: Node) -> Node {
        Node::Neg(Box::new(child))
    }

    /// Number of nodes.
    pub open spec fn size(self) -> nat
        decreases self,
    {
        match self {
            Node::Value(_) => 1,
            Node::Variable(_) => 1,
            Node::Neg(child) => 1 + child.size(),
            Node::Operator(op) => 1 + op.left.size() + op.right.size(),
        }
    }

    /// A value or a variable.
    pub open spec fn is_leaf(self) -> bool {
        self is Value || self is Variable
    }

    /// The negation of `self` with a double negation collapsed: a negated
    /// formula loses its marker, any other formula gains one.
    pub open spec fn negated(self) -> Node {
        match self {
            Node::Neg(child) => *child,
            other => Node::not(other),
        }
    }

    /// No negation directly wraps another negation.
    pub open spec fn no_double_neg(self) -> bool
        decreases self,
    {
        match self {
            Node::Value(_) => true,
            Node::Variable(_) => true,
            Node::Neg(child) => !(*child is Neg) && child.no_double_neg(),
            Node::Operator(op) => op.left.no_double_neg() && op.right.no_double_neg(),
        }
    }

    /// Whether the variable `name` occurs in the formula.
    pub open spec fn mentions(self, name: char) -> bool
        decreases self,
    {
        match self {
            Node::Value(_) => false,
            Node::Variable(c) => c == name,
            Node::Neg(child) => child.mentions(name),
            Node::Operator(op) => op.left.mentions(name) || op.right.mentions(name),
        }
    }

    /// Every variable is an uppercase letter `A`..`Z`.
    pub open spec fn uppercase_variables(self) -> bool
        decreases self,
    {
        match self {
            Node::Value(_) => true,
            Node::Variable(c) => 'A' <= c <= 'Z',
            Node::Neg(child) => child.uppercase_variables(),
            Node::Operator(op) => op.left.uppercase_variables() && op.right.uppercase_variables(),
        }
    }

    /// The trees that formula text denotes: variables are uppercase letters
    /// and double negations are collapsed.
    pub open spec fn well_formed(self) -> bool {
        self.no_double_neg() && self.uppercase_variables()
    }

    /// Only conjunction and disjunction occur as connectives.
    pub open spec fn primitive_only(self) -> bool
        decreases self,
    {
        match self {
            Node::Value(_) => true,
            Node::Variable(_) => true,
            Node::Neg(child) => child.primitive_only(),
            Node::Operator(op) => op.char.is_primitive() && op.left.primitive_only()
                && op.right.primitive_only(),
        }
    }

    /// The token of the root node.
    pub open spec fn symbol(self) -> char {
        match self {
            Node::Operator(op) => op.char.symbol(),
            Node::Variable(c) => c,
            Node::Value(b) => if b { '1' } else { '0' },
            Node::Neg(_) => '!',
        }
    }

    /// The token of the root node.
    pub fn char(&self) -> (c: char)
        ensures
            c == self.symbol(),
    {
        match self {
            Node::Operator(op) => op.char.ascii_char(),
            Node::Variable(c) => *c,
            Node::Value(b) => if *b { '1' } else { '0' },
            Node::Neg(_) => '!',
        }
    }

    /// Negates the formula in place, collapsing a double negation.
    pub fn neg(&mut self)
        ensures
            *final(self) == old(self).negated(),
    {
        let mut taken = Node::Value(false);
        std::mem::swap(self, &mut taken);
        match taken {
            Node::Neg(child) => {
                *self = *child;
            },
            other => {
                *self = Node::Neg(Box::new(other));
            },
        }
    }
}

impl Clone for Node {
    fn clone(&self) -> (copy: Self)
        ensures
            copy == *self,
        decreases *self,
    {
        match self {
            Node::Value(b) => Node::Value(*b),
            Node::Variable(c) => Node::Variable(*c),
            Node::Neg(child) => Node::Neg(Box::new((&**child).clone())),
            Node::Operator(op) => Node::Operator(
                Op::new(op.char, (&*op.left).clone(), (&*op.right).clone()),
            ),
        }
    }
}

impl Clone for Op {
    fn clone(&self) -> (copy: Self)
        ensures
            copy == *self,
    {
        Op::new(self.char, (&*self.left).clone(), (&*self.right).clone())
    }
}

impl Default for Node {
    fn default() -> (node: Self)
        ensures
            node == Node::Value(false),
    {
        Node::Value(false)
    }
}

/// A variable of a formula with uppercase variables is an uppercase letter.
pub proof fn lemma_uppercase_variables(tree: Node, name: char)
    requires
        tree.uppercase_variables(),
        tree.mentions(name),
    ensures
        'A' <= name <= 'Z',
    decreases tree,
{
    match tree {
        Node::Value(_) => {},
        Node::Variable(_) => {},
        Node::Neg(child) => {
            lemma_uppercase_variables(*child, name);
        },
        Node::Operator(op) => {
            if op.left.mentions(name) {
                lemma_uppercase_variables(*op.left, name);
            } else {
                lemma_uppercase_variables(*op.right, name);
            }
        },
    }
}

} // verus!
