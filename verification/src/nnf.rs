//! Reduction to the primitive connectives and negation normal form.
use crate::formula::{lemma_uppercase_variables, MyError, Node, Op, Oper};
use crate::parser::parse_spec;
use crate::truth_table::{lemma_same_table, table_rows};
use vstd::prelude::*;

verus! {

impl Oper {
    /// Conjunction for disjunction and disjunction for conjunction.
    pub open spec fn dual(self) -> Oper {
        match self {
            Oper::Conjunction => Oper::Disjunction,
            Oper::Disjunction => Oper::Conjunction,
            other => other,
        }
    }

    /// What a node with this connective adds to the weight of a formula.
    pub open spec fn weight(self) -> nat {
        match self {
            Oper::Conjunction => 1,
            Oper::Disjunction => 1,
            Oper::MaterialCondition => 2,
            Oper::ExclusiveDisjunction => 3,
            Oper::Equivalence => 3,
        }
    }
}

impl Node {
    /// The formula rewritten over conjunction, disjunction and negation:
    /// `a ^ b` is `(a | b) & !(a & b)`, `a > b` is `!a | b`, and `a = b` is
    /// `(a > b) & (b > a)`. The negation that a material condition brings in
    /// collapses with a negation that is already there.
    pub open spec fn to_primitive_connectives(self) -> Node
        decreases self,
    {
        match self {
            Node::Value(_) => self,
            Node::Variable(_) => self,
            Node::Neg(child) => Node::not(child.to_primitive_connectives()),
            Node::Operator(op) => {
                let a = op.left.to_primitive_connectives();
                let b = op.right.to_primitive_connectives();
                match op.char {
                    Oper::Conjunction => Node::binary(Oper::Conjunction, a, b),
                    Oper::Disjunction => Node::binary(Oper::Disjunction, a, b),
                    Oper::ExclusiveDisjunction => Node::binary(
                        Oper::Conjunction,
                        Node::binary(Oper::Disjunction, a, b),
                        Node::not(Node::binary(Oper::Conjunction, a, b)),
                    ),
                    Oper::MaterialCondition => Node::binary(Oper::Disjunction, a.negated(), b),
                    Oper::Equivalence => Node::binary(
                        Oper::Conjunction,
                        Node::binary(Oper::Disjunction, a.negated(), b),
                        Node::binary(Oper::Disjunction, b.negated(), a),
                    ),
                }
            },
        }
    }

    /// The formula with every negation of a conjunction or disjunction
    /// pushed down to the operands by De Morgan's laws.
    pub open spec fn to_negation_normal_form(self) -> Node
        decreases self.size(),
    {
        match self {
            Node::Value(_) => self,
            Node::Variable(_) => self,
            Node::Operator(op) => Node::binary(
                op.char,
                op.left.to_negation_normal_form(),
                op.right.to_negation_normal_form(),
            ),
            Node::Neg(child) => match *child {
                Node::Operator(op) => if op.char.is_primitive() {
                    proof {
                        reveal_with_fuel(Node::size, 3);
                        lemma_negated_size(*op.left);
                        lemma_negated_size(*op.right);
                    }
                    Node::binary(
                        op.char.dual(),
                        op.left.negated().to_negation_normal_form(),
                        op.right.negated().to_negation_normal_form(),
                    )
                } else {
                    Node::not(child.to_negation_normal_form())
                },
                _ => Node::not(child.to_negation_normal_form()),
            },
        }
    }

    /// Negation normal form: the connectives are conjunction and disjunction,
    /// and a negation wraps a variable or a value only.
    pub open spec fn is_nnf(self) -> bool
        decreases self,
    {
        match self {
            Node::Value(_) => true,
            Node::Variable(_) => true,
            Node::Neg(child) => child.is_leaf(),
            Node::Operator(op) => op.char.is_primitive() && op.left.is_nnf() && op.right.is_nnf(),
        }
    }

    /// A measure that falls from a node to the operands of its rewriting
    /// over the primitive connectives.
    pub open spec fn weight(self) -> nat
        decreases self,
    {
        match self {
            Node::Value(_) => 1,
            Node::Variable(_) => 1,
            Node::Neg(child) => 1 + child.weight(),
            Node::Operator(op) => op.char.weight() + op.left.weight() + op.right.weight(),
        }
    }

    /// Rewrites the formula over conjunction, disjunction and negation.
    pub fn to_primitive_connectives_mut(&mut self)
        ensures
            *final(self) == old(self).to_primitive_connectives(),
            final(self).primitive_only(),
        decreases old(self).weight(),
    {
        proof {
            lemma_primitive_connectives_only(*old(self));
            reveal_with_fuel(Node::to_primitive_connectives, 3);
            reveal_with_fuel(Node::weight, 3);
        }
        let mut taken = Node::Value(false);
        std::mem::swap(self, &mut taken);
        match taken {
            Node::Neg(mut child) => {
                child.to_primitive_connectives_mut();
                *self = Node::Neg(child);
            },
            Node::Operator(op) => {
                let Op { char, left, right } = op;
                proof {
                    lemma_weight_positive(*left);
                    lemma_weight_positive(*right);
                    lemma_negated_commutes_with_primitive(*left);
                    lemma_negated_commutes_with_primitive(*right);
                }
                let mut rewritten = match char {
                    Oper::ExclusiveDisjunction => Op::new(
                        Oper::Conjunction,
                        Node::Operator(
                            Op::new(Oper::Disjunction, (&*left).clone(), (&*right).clone()),
                        ),
                        Node::Neg(
                            Box::new(Node::Operator(Op { char: Oper::Conjunction, left, right })),
                        ),
                    ),
                    Oper::Equivalence => Op::new(
                        Oper::Conjunction,
                        Node::Operator(
                            Op::new(Oper::MaterialCondition, (&*left).clone(), (&*right).clone()),
                        ),
                        Node::Operator(
                            Op { char: Oper::MaterialCondition, left: right, right: left },
                        ),
                    ),
                    Oper::MaterialCondition => {
                        let mut negated = *left;
                        negated.neg();
                        Op { char: Oper::Disjunction, left: Box::new(negated), right }
                    },
                    Oper::Conjunction | Oper::Disjunction => Op { char, left, right },
                };
                rewritten.left.to_primitive_connectives_mut();
                rewritten.right.to_primitive_connectives_mut();
                *self = Node::Operator(rewritten);
            },
            leaf => {
                *self = leaf;
            },
        }
    }

    /// Pushes the negations of a formula over the primitive connectives down
    /// to its variables and values.
    pub fn to_negation_normal_form_mut(&mut self)
        ensures
            *final(self) == old(self).to_negation_normal_form(),
            old(self).primitive_only() && old(self).no_double_neg() ==> final(self).is_nnf(),
        decreases old(self).size(),
    {
        proof {
            if old(self).primitive_only() && old(self).no_double_neg() {
                lemma_negation_normal_form_shape(*old(self));
            }
            if let Node::Neg(child) = *old(self) {
                if let Node::Operator(op) = *child {
                    reveal_with_fuel(Node::size, 3);
                    lemma_negated_size(*op.left);
                    lemma_negated_size(*op.right);
                }
            }
        }
        let mut taken = Node::Value(false);
        std::mem::swap(self, &mut taken);
        match taken {
            Node::Neg(child) => {
                let ghost inner = *child;
                match *child {
                    Node::Operator(mut op) => {
                        if op.char == Oper::Conjunction || op.char == Oper::Disjunction {
                            op.left.neg();
                            op.right.neg();
                            if op.char == Oper::Conjunction {
                                op.char = Oper::Disjunction;
                            } else {
                                op.char = Oper::Conjunction;
                            }
                            op.left.to_negation_normal_form_mut();
                            op.right.to_negation_normal_form_mut();
                            *self = Node::Operator(op);
                        } else {
                            op.left.to_negation_normal_form_mut();
                            op.right.to_negation_normal_form_mut();
                            assert(Node::Operator(op) == inner.to_negation_normal_form());
                            *self = Node::Neg(Box::new(Node::Operator(op)));
                        }
                    },
                    mut other => {
                        other.to_negation_normal_form_mut();
                        assert(other == inner.to_negation_normal_form());
                        *self = Node::Neg(Box::new(other));
                    },
                }
            },
            Node::Operator(mut op) => {
                op.left.to_negation_normal_form_mut();
                op.right.to_negation_normal_form_mut();
                *self = Node::Operator(op);
            },
            leaf => {
                *self = leaf;
            },
        }
    }
}

/// The negation normal form of the formula that `text` denotes.
pub open spec fn nnf_spec(text: Seq<char>) -> Result<Node, MyError> {
    match parse_spec(text) {
        Ok(tree) => Ok(tree.to_primitive_connectives().to_negation_normal_form()),
        Err(e) => Err(e),
    }
}

/// Parses a formula and brings it into negation normal form.
pub fn nnf(formula: &str) -> (r: Result<Node, MyError>)
    ensures
        r == nnf_spec(formula@),
        r matches Ok(tree) ==> tree.is_nnf() && tree.well_formed(),
{
    let mut tree = match Node::parse(formula) {
        Ok(tree) => tree,
        Err(e) => {
            return Err(e);
        },
    };
    proof {
        lemma_nnf_shape(tree);
        lemma_nnf_well_formed(tree);
    }
    tree.to_primitive_connectives_mut();
    tree.to_negation_normal_form_mut();
    Ok(tree)
}

/// The negation normal form of a formula as postfix text, or the message of
/// the error that the formula is rejected with.
pub fn negation_normal_form(formula: &str) -> (text: String)
    ensures
        text@ == match nnf_spec(formula@) {
            Ok(tree) => tree.postfix(),
            Err(e) => e.message(),
        },
{
    match nnf(formula) {
        Ok(tree) => tree.to_string(),
        Err(e) => e.to_string(),
    }
}

/// Negating a formula adds at most one node.
pub proof fn lemma_negated_size(tree: Node)
    ensures
        tree.size() >= 1,
        tree.negated().size() <= tree.size() + 1,
{
}

/// Negating a formula without double negation over the primitive connectives
/// gives such a formula again.
pub proof fn lemma_negated_shape(tree: Node)
    ensures
        tree.primitive_only() ==> tree.negated().primitive_only(),
        tree.no_double_neg() ==> tree.negated().no_double_neg(),
{
}

/// Every formula has a positive weight.
pub proof fn lemma_weight_positive(tree: Node)
    ensures
        tree.weight() >= 1,
        tree.negated().weight() <= tree.weight() + 1,
    decreases tree,
{
    match tree {
        Node::Value(_) => {},
        Node::Variable(_) => {},
        Node::Neg(child) => {
            lemma_weight_positive(*child);
        },
        Node::Operator(op) => {
            lemma_weight_positive(*op.left);
            lemma_weight_positive(*op.right);
        },
    }
}

/// Negating a formula and reducing it to the primitive connectives can be
/// done in either order.
pub proof fn lemma_negated_commutes_with_primitive(tree: Node)
    ensures
        tree.negated().to_primitive_connectives() == tree.to_primitive_connectives().negated(),
{
    match tree {
        Node::Neg(child) => {},
        _ => {
            assert(tree.negated() == Node::not(tree));
        },
    }
}

/// A negated formula holds exactly where the formula does not.
pub proof fn lemma_negated_holds(tree: Node, assignment: spec_fn(char) -> bool)
    ensures
        tree.negated().holds(assignment) == !tree.holds(assignment),
{
}

/// Toggling the negation of a formula changes none of its variables.
pub proof fn lemma_negated_mentions(tree: Node, name: char)
    ensures
        tree.negated().mentions(name) == tree.mentions(name),
{
}

/// After the reduction only conjunction and disjunction are left.
pub proof fn lemma_primitive_connectives_only(tree: Node)
    ensures
        tree.to_primitive_connectives().primitive_only(),
    decreases tree,
{
    match tree {
        Node::Value(_) => {},
        Node::Variable(_) => {},
        Node::Neg(child) => {
            lemma_primitive_connectives_only(*child);
        },
        Node::Operator(op) => {
            reveal_with_fuel(Node::primitive_only, 3);
            lemma_primitive_connectives_only(*op.left);
            lemma_primitive_connectives_only(*op.right);
            lemma_negated_shape(op.left.to_primitive_connectives());
            lemma_negated_shape(op.right.to_primitive_connectives());
        },
    }
}

/// The reduction to the primitive connectives brings in no double negation.
pub proof fn lemma_primitive_connectives_no_double_neg(tree: Node)
    requires
        tree.no_double_neg(),
    ensures
        tree.to_primitive_connectives().no_double_neg(),
        tree.to_primitive_connectives() is Neg <==> tree is Neg,
    decreases tree,
{
    match tree {
        Node::Value(_) => {},
        Node::Variable(_) => {},
        Node::Neg(child) => {
            lemma_primitive_connectives_no_double_neg(*child);
        },
        Node::Operator(op) => {
            reveal_with_fuel(Node::no_double_neg, 3);
            lemma_primitive_connectives_no_double_neg(*op.left);
            lemma_primitive_connectives_no_double_neg(*op.right);
            lemma_negated_shape(op.left.to_primitive_connectives());
            lemma_negated_shape(op.right.to_primitive_connectives());
        },
    }
}

/// The reduction to the primitive connectives keeps the meaning of a formula
/// under every assignment.
pub proof fn lemma_primitive_connectives_holds(tree: Node, assignment: spec_fn(char) -> bool)
    ensures
        tree.to_primitive_connectives().holds(assignment) == tree.holds(assignment),
    decreases tree,
{
    match tree {
        Node::Value(_) => {},
        Node::Variable(_) => {},
        Node::Neg(child) => {
            lemma_primitive_connectives_holds(*child, assignment);
        },
        Node::Operator(op) => {
            reveal_with_fuel(Node::holds, 3);
            lemma_primitive_connectives_holds(*op.left, assignment);
            lemma_primitive_connectives_holds(*op.right, assignment);
            lemma_negated_holds(op.left.to_primitive_connectives(), assignment);
            lemma_negated_holds(op.right.to_primitive_connectives(), assignment);
        },
    }
}

/// The reduction to the primitive connectives keeps the variables of a
/// formula.
pub proof fn lemma_primitive_connectives_mentions(tree: Node, name: char)
    ensures
        tree.to_primitive_connectives().mentions(name) == tree.mentions(name),
    decreases tree,
{
    match tree {
        Node::Value(_) => {},
        Node::Variable(_) => {},
        Node::Neg(child) => {
            lemma_primitive_connectives_mentions(*child, name);
        },
        Node::Operator(op) => {
            reveal_with_fuel(Node::mentions, 4);
            lemma_primitive_connectives_mentions(*op.left, name);
            lemma_primitive_connectives_mentions(*op.right, name);
            lemma_negated_mentions(op.left.to_primitive_connectives(), name);
            lemma_negated_mentions(op.right.to_primitive_connectives(), name);
        },
    }
}

/// Negation normal form shape: the negation normal form of a formula over
/// the primitive connectives, without double negation, is built from
/// variables, values, negated variables and values, and conjunctions and
/// disjunctions of such formulas.
pub proof fn lemma_negation_normal_form_shape(tree: Node)
    requires
        tree.primitive_only(),
        tree.no_double_neg(),
    ensures
        tree.to_negation_normal_form().is_nnf(),
    decreases tree.size(),
{
    reveal_with_fuel(Node::size, 3);
    reveal_with_fuel(Node::primitive_only, 3);
    reveal_with_fuel(Node::no_double_neg, 3);
    match tree {
        Node::Value(_) => {},
        Node::Variable(_) => {},
        Node::Operator(op) => {
            lemma_negation_normal_form_shape(*op.left);
            lemma_negation_normal_form_shape(*op.right);
        },
        Node::Neg(child) => match *child {
            Node::Operator(op) => {
                lemma_negated_size(*op.left);
                lemma_negated_size(*op.right);
                lemma_negated_shape(*op.left);
                lemma_negated_shape(*op.right);
                lemma_negation_normal_form_shape(op.left.negated());
                lemma_negation_normal_form_shape(op.right.negated());
            },
            Node::Neg(_) => {},
            leaf => {
                assert(leaf.to_negation_normal_form() == leaf);
            },
        },
    }
}

/// Pushing negations down brings in no connective besides conjunction and
/// disjunction.
pub proof fn lemma_negation_normal_form_primitive(tree: Node)
    requires
        tree.primitive_only(),
    ensures
        tree.to_negation_normal_form().primitive_only(),
    decreases tree.size(),
{
    reveal_with_fuel(Node::size, 3);
    reveal_with_fuel(Node::primitive_only, 3);
    match tree {
        Node::Value(_) => {},
        Node::Variable(_) => {},
        Node::Operator(op) => {
            lemma_negation_normal_form_primitive(*op.left);
            lemma_negation_normal_form_primitive(*op.right);
        },
        Node::Neg(child) => match *child {
            Node::Operator(op) => {
                lemma_negated_size(*op.left);
                lemma_negated_size(*op.right);
                lemma_negated_shape(*op.left);
                lemma_negated_shape(*op.right);
                lemma_negation_normal_form_primitive(op.left.negated());
                lemma_negation_normal_form_primitive(op.right.negated());
            },
            _ => {
                lemma_negation_normal_form_primitive(*child);
            },
        },
    }
}

/// Negation normal form keeps the meaning of a formula under every
/// assignment.
pub proof fn lemma_negation_normal_form_holds(tree: Node, assignment: spec_fn(char) -> bool)
    ensures
        tree.to_negation_normal_form().holds(assignment) == tree.holds(assignment),
    decreases tree.size(),
{
    match tree {
        Node::Value(_) => {},
        Node::Variable(_) => {},
        Node::Operator(op) => {
            lemma_negation_normal_form_holds(*op.left, assignment);
            lemma_negation_normal_form_holds(*op.right, assignment);
        },
        Node::Neg(child) => match *child {
            Node::Operator(op) => {
                reveal_with_fuel(Node::size, 3);
                reveal_with_fuel(Node::holds, 3);
                lemma_negated_size(*op.left);
                lemma_negated_size(*op.right);
                lemma_negated_holds(*op.left, assignment);
                lemma_negated_holds(*op.right, assignment);
                if op.char.is_primitive() {
                    lemma_negation_normal_form_holds(op.left.negated(), assignment);
                    lemma_negation_normal_form_holds(op.right.negated(), assignment);
                } else {
                    lemma_negation_normal_form_holds(*child, assignment);
                }
            },
            _ => {
                lemma_negation_normal_form_holds(*child, assignment);
            },
        },
    }
}

/// Pushing negations down keeps the variables of a formula.
pub proof fn lemma_negation_normal_form_mentions(tree: Node, name: char)
    ensures
        tree.to_negation_normal_form().mentions(name) == tree.mentions(name),
    decreases tree.size(),
{
    reveal_with_fuel(Node::size, 3);
    reveal_with_fuel(Node::mentions, 3);
    match tree {
        Node::Value(_) => {},
        Node::Variable(_) => {},
        Node::Operator(op) => {
            lemma_negation_normal_form_mentions(*op.left, name);
            lemma_negation_normal_form_mentions(*op.right, name);
        },
        Node::Neg(child) => match *child {
            Node::Operator(op) => {
                lemma_negated_size(*op.left);
                lemma_negated_size(*op.right);
                lemma_negated_mentions(*op.left, name);
                lemma_negated_mentions(*op.right, name);
                if op.char.is_primitive() {
                    lemma_negation_normal_form_mentions(op.left.negated(), name);
                    lemma_negation_normal_form_mentions(op.right.negated(), name);
                } else {
                    lemma_negation_normal_form_mentions(*child, name);
                }
            },
            _ => {
                lemma_negation_normal_form_mentions(*child, name);
            },
        },
    }
}

/// A formula in negation normal form has no double negation and no
/// connective besides conjunction and disjunction.
pub proof fn lemma_nnf_has_no_double_neg(tree: Node)
    requires
        tree.is_nnf(),
    ensures
        tree.no_double_neg(),
        tree.primitive_only(),
    decreases tree,
{
    reveal_with_fuel(Node::no_double_neg, 2);
    reveal_with_fuel(Node::primitive_only, 2);
    match tree {
        Node::Value(_) => {},
        Node::Variable(_) => {},
        Node::Neg(child) => {},
        Node::Operator(op) => {
            lemma_nnf_has_no_double_neg(*op.left);
            lemma_nnf_has_no_double_neg(*op.right);
        },
    }
}

/// A formula that mentions uppercase letters only has uppercase variables.
pub proof fn lemma_uppercase_by_mentions(tree: Node)
    requires
        forall|name: char| tree.mentions(name) ==> 'A' <= name <= 'Z',
    ensures
        tree.uppercase_variables(),
    decreases tree,
{
    match tree {
        Node::Value(_) => {},
        Node::Variable(c) => {
            assert(tree.mentions(c));
        },
        Node::Neg(child) => {
            assert forall|name: char| child.mentions(name) implies 'A' <= name <= 'Z' by {
                assert(tree.mentions(name));
            }
            lemma_uppercase_by_mentions(*child);
        },
        Node::Operator(op) => {
            assert forall|name: char|
                op.left.mentions(name) || op.right.mentions(name) implies 'A' <= name
                <= 'Z' by {
                assert(tree.mentions(name));
            }
            lemma_uppercase_by_mentions(*op.left);
            lemma_uppercase_by_mentions(*op.right);
        },
    }
}

/// Negation normal form shape: reducing a formula without double negation
/// to the primitive connectives and pushing its negations down leaves only
/// variables, values, negated variables and values, and conjunctions and
/// disjunctions of such formulas.
pub proof fn lemma_nnf_shape(tree: Node)
    requires
        tree.no_double_neg(),
    ensures
        tree.to_primitive_connectives().to_negation_normal_form().is_nnf(),
{
    lemma_primitive_connectives_only(tree);
    lemma_primitive_connectives_no_double_neg(tree);
    lemma_negation_normal_form_shape(tree.to_primitive_connectives());
}

/// Negation normal form equivalence: under every assignment the negation
/// normal form of a formula has the truth value of the formula.
pub proof fn lemma_nnf_holds(tree: Node, assignment: spec_fn(char) -> bool)
    ensures
        tree.to_primitive_connectives().to_negation_normal_form().holds(assignment) == tree.holds(
            assignment,
        ),
{
    lemma_primitive_connectives_holds(tree, assignment);
    lemma_negation_normal_form_holds(tree.to_primitive_connectives(), assignment);
}

/// The reduction to the primitive connectives keeps a well-formed formula
/// well formed, so that its postfix text denotes it.
pub proof fn lemma_primitive_connectives_well_formed(tree: Node)
    requires
        tree.well_formed(),
    ensures
        tree.to_primitive_connectives().well_formed(),
{
    let reduced = tree.to_primitive_connectives();
    lemma_primitive_connectives_no_double_neg(tree);
    assert forall|name: char| reduced.mentions(name) implies 'A' <= name <= 'Z' by {
        lemma_primitive_connectives_mentions(tree, name);
        lemma_uppercase_variables(tree, name);
    }
    lemma_uppercase_by_mentions(reduced);
}

/// The negation normal form of a well-formed formula is well formed, so
/// that its postfix text denotes it.
pub proof fn lemma_nnf_well_formed(tree: Node)
    requires
        tree.well_formed(),
    ensures
        tree.to_primitive_connectives().to_negation_normal_form().well_formed(),
{
    let normal = tree.to_primitive_connectives().to_negation_normal_form();
    lemma_nnf_shape(tree);
    lemma_nnf_has_no_double_neg(normal);
    assert forall|name: char| normal.mentions(name) implies 'A' <= name <= 'Z' by {
        lemma_negation_normal_form_mentions(tree.to_primitive_connectives(), name);
        lemma_primitive_connectives_mentions(tree, name);
        lemma_uppercase_variables(tree, name);
    }
    lemma_uppercase_by_mentions(normal);
}

/// Negation normal form equivalence, by truth tables: over every list that
/// holds the variables of a formula, the formula and its negation normal
/// form have the same truth table.
pub proof fn lemma_nnf_table(tree: Node, variables: Seq<char>)
    requires
        forall|name: char| tree.mentions(name) ==> variables.contains(name),
    ensures
        table_rows(tree, variables) is Ok,
        table_rows(tree.to_primitive_connectives().to_negation_normal_form(), variables)
            == table_rows(tree, variables),
{
    let normal = tree.to_primitive_connectives().to_negation_normal_form();
    assert forall|name: char| normal.mentions(name) implies variables.contains(name) by {
        lemma_negation_normal_form_mentions(tree.to_primitive_connectives(), name);
        lemma_primitive_connectives_mentions(tree, name);
    }
    assert forall|assignment: spec_fn(char) -> bool| #[trigger]
        tree.holds(assignment) == normal.holds(assignment) by {
        lemma_nnf_holds(tree, assignment);
    }
    lemma_same_table(tree, normal, variables);
}

} // verus!
