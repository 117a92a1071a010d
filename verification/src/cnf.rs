//! Conjunctive normal form: distribution of disjunction over conjunction,
//! and chains of one connective brought into a right-nested shape.
use crate::formula::{lemma_uppercase_variables, MyError, Node, Op, Oper};
use crate::nnf::{
    lemma_negation_normal_form_mentions, lemma_negation_normal_form_primitive,
    lemma_nnf_has_no_double_neg, lemma_nnf_holds, lemma_nnf_shape,
    lemma_primitive_connectives_mentions, lemma_primitive_connectives_only,
    lemma_uppercase_by_mentions,
};
use crate::parser::parse_spec;
use crate::truth_table::{lemma_same_table, table_rows};
use vstd::prelude::*;

verus! {

impl Node {
    /// Whether the node is an operator node with the connective `op`.
    pub open spec fn has_connective(self, op: Oper) -> bool {
        self matches Node::Operator(o) && o.char == op
    }

    /// The disjunction of `left` and `right` with the disjunction
    /// distributed over their conjunctions: `a | (b & c)` becomes
    /// `(a | b) & (a | c)`, `(a & b) | c` becomes `(a | c) & (b | c)`, and
    /// `(a & b) | (c & d)` becomes `(a | c) & (b | c) & (a | d) & (b | d)`;
    /// the new disjunctions are distributed in turn.
    pub open spec fn distributed(left: Node, right: Node) -> Node
        decreases left, right,
    {
        if left.has_connective(Oper::Conjunction) && right.has_connective(Oper::Conjunction) {
            let l = left->Operator_0;
            let r = right->Operator_0;
            Node::binary(
                Oper::Conjunction,
                Node::distributed(*l.left, *r.left),
                Node::binary(
                    Oper::Conjunction,
                    Node::distributed(*l.right, *r.left),
                    Node::binary(
                        Oper::Conjunction,
                        Node::distributed(*l.left, *r.right),
                        Node::distributed(*l.right, *r.right),
                    ),
                ),
            )
        } else if right.has_connective(Oper::Conjunction) {
            let r = right->Operator_0;
            Node::binary(
                Oper::Conjunction,
                Node::distributed(left, *r.left),
                Node::distributed(left, *r.right),
            )
        } else if left.has_connective(Oper::Conjunction) {
            let l = left->Operator_0;
            Node::binary(
                Oper::Conjunction,
                Node::distributed(*l.left, right),
                Node::distributed(*l.right, right),
            )
        } else {
            Node::binary(Oper::Disjunction, left, right)
        }
    }

    /// The operands of a chain of the connective `op`, from left to right: a
    /// node with another connective, or none, is its own single operand.
    pub open spec fn operands(self, op: Oper) -> Seq<Node>
        decreases self,
    {
        match self {
            Node::Operator(o) => if o.char == op {
                o.left.operands(op) + o.right.operands(op)
            } else {
                seq![self]
            },
            _ => seq![self],
        }
    }

    /// The right-nested chain of `op` over `operands`: the first operand is
    /// the left operand of the root, the last one the right operand of the
    /// deepest node.
    pub open spec fn right_chain(op: Oper, operands: Seq<Node>) -> Node
        recommends
            operands.len() >= 1,
        decreases operands.len(),
    {
        if operands.len() <= 1 {
            operands[0]
        } else {
            Node::binary(op, operands[0], Node::right_chain(op, operands.drop_first()))
        }
    }

    /// An operator node with the operands of its chain nested to the right.
    pub open spec fn rechained(self) -> Node {
        match self {
            Node::Operator(op) => Node::right_chain(op.char, self.operands(op.char)),
            _ => self,
        }
    }

    /// The conjunctive normal form of a formula in negation normal form:
    /// from the leaves up, each disjunction is distributed over the
    /// conjunctions below it, and each chain of one connective is nested to
    /// the right.
    pub open spec fn to_conjunctive_normal_form(self) -> Node
        decreases self,
    {
        match self {
            Node::Operator(op) => {
                let left = op.left.to_conjunctive_normal_form();
                let right = op.right.to_conjunctive_normal_form();
                if op.char == Oper::Disjunction {
                    Node::distributed(left, right).rechained()
                } else {
                    Node::binary(op.char, left, right).rechained()
                }
            },
            _ => self,
        }
    }

    /// The shape of a conjunctive normal form. A conjunction is accepted
    /// only where `accept_conjunctions` is set; its left operand is then a
    /// clause and its right operand the rest of the conjunction. A
    /// disjunction holds no conjunction. Below them stand literals: a
    /// variable, a value, or the negation of one of the two. No other
    /// connective is accepted, and no negation of a connective or of a
    /// negation.
    pub open spec fn is_cnf(self, accept_conjunctions: bool) -> bool
        decreases self,
    {
        match self {
            Node::Operator(op) => match op.char {
                Oper::Conjunction => accept_conjunctions && op.left.is_cnf(false)
                    && op.right.is_cnf(true),
                Oper::Disjunction => op.left.is_cnf(false) && op.right.is_cnf(false),
                _ => false,
            },
            Node::Neg(child) => child.is_leaf(),
            Node::Value(_) => true,
            Node::Variable(_) => true,
        }
    }

    /// A tree of conjunctions whose operands, where they are no
    /// conjunctions themselves, are clauses: literals, or disjunctions
    /// without a conjunction in them.
    pub open spec fn conjunction_of_clauses(self) -> bool
        decreases self,
    {
        match self {
            Node::Operator(op) => if op.char == Oper::Conjunction {
                op.left.conjunction_of_clauses() && op.right.conjunction_of_clauses()
            } else {
                self.is_cnf(false)
            },
            _ => self.is_cnf(false),
        }
    }

    /// The formula after the three passes: reduced to the primitive
    /// connectives, brought into negation normal form, and from there into
    /// conjunctive normal form.
    pub open spec fn normalized(self) -> Node {
        self.to_primitive_connectives().to_negation_normal_form().to_conjunctive_normal_form()
    }
}

/// The conjunctive normal form of the formula that `text` denotes.
pub open spec fn cnf_spec(text: Seq<char>) -> Result<Node, MyError> {
    match parse_spec(text) {
        Ok(tree) => Ok(tree.normalized()),
        Err(e) => Err(e),
    }
}

/// Whether one of `operands` mentions the variable `name`.
pub open spec fn some_mentions(operands: Seq<Node>, name: char) -> bool {
    exists|i: int| 0 <= i < operands.len() && (#[trigger] operands[i]).mentions(name)
}

impl Op {
    /// Whether one of the operands continues the chain of this node: whether
    /// it is an operator node with the same connective.
    pub open spec fn continues(self) -> bool {
        self.left.has_connective(self.char) || self.right.has_connective(self.char)
    }

    /// Moves the operands of the chain of `self.char` below this node into
    /// `ops`, from left to right, and leaves the value `false` in the place
    /// of both operands of the node. At the top of a chain that neither
    /// operand continues, nothing is moved.
    pub fn op_depth_first_search(&mut self, is_top_level_call: bool, ops: &mut Vec<Node>)
        ensures
            final(self).char == old(self).char,
            is_top_level_call && !old(self).continues() ==> {
                &&& *final(self) == *old(self)
                &&& final(ops)@ == old(ops)@
            },
            !is_top_level_call || old(self).continues() ==> {
                &&& final(ops)@ == old(ops)@ + Node::Operator(*old(self)).operands(old(self).char)
                &&& *final(self).left == Node::Value(false)
                &&& *final(self).right == Node::Value(false)
            },
        decreases *old(self),
    {
        if is_top_level_call && !self.left.is_operator(self.char) && !self.right.is_operator(
            self.char,
        ) {
            return ;
        }
        let ghost before = ops@;
        let mut left = Node::Value(false);
        std::mem::swap(&mut *self.left, &mut left);
        match left {
            Node::Operator(mut child_op) => {
                if child_op.char == self.char {
                    child_op.op_depth_first_search(false, ops);
                } else {
                    ops.push(Node::Operator(child_op));
                }
            },
            child => {
                ops.push(child);
            },
        }
        assert(ops@ == before + old(self).left.operands(self.char));
        let mut right = Node::Value(false);
        std::mem::swap(&mut *self.right, &mut right);
        match right {
            Node::Operator(mut child_op) => {
                if child_op.char == self.char {
                    child_op.op_depth_first_search(false, ops);
                } else {
                    ops.push(Node::Operator(child_op));
                }
            },
            child => {
                ops.push(child);
            },
        }
        assert(ops@ == before + old(self).left.operands(self.char) + old(self).right.operands(
            self.char,
        ));
    }

    /// The operands of the chain below this node, moved out of it; none
    /// where neither operand continues the chain.
    pub fn op_depth_first_search_chained(&mut self) -> (operands: Vec<Node>)
        ensures
            final(self).char == old(self).char,
            !old(self).continues() ==> *final(self) == *old(self) && operands@.len() == 0,
            old(self).continues() ==> {
                &&& operands@ == Node::Operator(*old(self)).operands(old(self).char)
                &&& *final(self).left == Node::Value(false)
                &&& *final(self).right == Node::Value(false)
            },
    {
        let mut ops: Vec<Node> = Vec::with_capacity(100);
        self.op_depth_first_search(true, &mut ops);
        ops
    }

    /// Makes `nodes` the operands of this node: the first one its left
    /// operand, the right-nested chain of `op` over the others its right
    /// operand. Without nodes the operands stay as they are.
    pub fn build_right_handed_tree_from_node_list(&mut self, nodes: Vec<Node>, op: Oper)
        requires
            nodes@.len() != 1,
        ensures
            final(self).char == old(self).char,
            nodes@.len() == 0 ==> *final(self) == *old(self),
            nodes@.len() >= 2 ==> *final(self).left == nodes@[0] && *final(self).right
                == Node::right_chain(op, nodes@.drop_first()),
    {
        let ghost all = nodes@;
        let mut nodes = nodes;
        let mut new_right = match nodes.pop() {
            Some(node) => node,
            None => {
                return ;
            },
        };
        assert(all.subrange(nodes@.len() as int, all.len() as int) =~= seq![new_right]);
        while nodes.len() > 1
            invariant
                1 <= nodes@.len() < all.len(),
                nodes@ == all.take(nodes@.len() as int),
                new_right == Node::right_chain(
                    op,
                    all.subrange(nodes@.len() as int, all.len() as int),
                ),
            decreases nodes@.len(),
        {
            let ghost tail = all.subrange(nodes@.len() as int, all.len() as int);
            let node = match nodes.pop() {
                Some(node) => node,
                None => {
                    return ;
                },
            };
            proof {
                let longer = all.subrange(nodes@.len() as int, all.len() as int);
                assert(longer.drop_first() =~= tail);
                assert(longer[0] == node);
            }
            new_right = Node::Operator(Op::new(op, node, new_right));
        }
        assert(all.subrange(1, all.len() as int) =~= all.drop_first());
        let first = match nodes.pop() {
            Some(node) => node,
            None => {
                return ;
            },
        };
        self.right = Box::new(new_right);
        self.left = Box::new(first);
    }

    /// Distributes this disjunction over the conjunctions among its
    /// operands; the node becomes a conjunction of disjunctions where there
    /// is one, and stays as it is where there is none.
    pub fn apply_distributive_equivalence(&mut self)
        requires
            old(self).char == Oper::Disjunction,
        ensures
            Node::Operator(*final(self)) == Node::distributed(*old(self).left, *old(self).right),
        decreases *old(self).left, *old(self).right,
    {
        let left_is_conjunction = self.left.is_operator(Oper::Conjunction);
        let right_is_conjunction = self.right.is_operator(Oper::Conjunction);
        if !left_is_conjunction && !right_is_conjunction {
            return ;
        }
        let mut left = Node::Value(false);
        std::mem::swap(&mut *self.left, &mut left);
        let mut right = Node::Value(false);
        std::mem::swap(&mut *self.right, &mut right);
        let mut new_operands: Vec<Node> = Vec::new();
        if left_is_conjunction && right_is_conjunction {
            let (l0, l1) = left.into_operands();
            let (r0, r1) = right.into_operands();
            let mut first = Op::new(Oper::Disjunction, l0.clone(), r0.clone());
            let mut second = Op::new(Oper::Disjunction, l1.clone(), r0);
            let mut third = Op::new(Oper::Disjunction, l0, r1.clone());
            let mut fourth = Op::new(Oper::Disjunction, l1, r1);
            first.apply_distributive_equivalence();
            second.apply_distributive_equivalence();
            third.apply_distributive_equivalence();
            fourth.apply_distributive_equivalence();
            new_operands.push(Node::Operator(first));
            new_operands.push(Node::Operator(second));
            new_operands.push(Node::Operator(third));
            new_operands.push(Node::Operator(fourth));
        } else if right_is_conjunction {
            let (r0, r1) = right.into_operands();
            let mut first = Op::new(Oper::Disjunction, left.clone(), r0);
            let mut second = Op::new(Oper::Disjunction, left, r1);
            first.apply_distributive_equivalence();
            second.apply_distributive_equivalence();
            new_operands.push(Node::Operator(first));
            new_operands.push(Node::Operator(second));
        } else {
            let (l0, l1) = left.into_operands();
            let mut first = Op::new(Oper::Disjunction, l0, right.clone());
            let mut second = Op::new(Oper::Disjunction, l1, right);
            first.apply_distributive_equivalence();
            second.apply_distributive_equivalence();
            new_operands.push(Node::Operator(first));
            new_operands.push(Node::Operator(second));
        }
        proof {
            let nodes = new_operands@;
            reveal_with_fuel(Node::right_chain, 4);
            assert(nodes.len() >= 2);
            assert(nodes.drop_first().len() == nodes.len() - 1);
            if nodes.len() == 4 {
                assert(nodes.drop_first()[0] == nodes[1]);
                assert(nodes.drop_first().drop_first()[0] == nodes[2]);
                assert(nodes.drop_first().drop_first().drop_first()[0] == nodes[3]);
            } else {
                assert(nodes.drop_first()[0] == nodes[1]);
            }
        }
        self.char = Oper::Conjunction;
        self.build_right_handed_tree_from_node_list(new_operands, Oper::Conjunction);
    }
}

impl Node {
    /// Whether the node is an operator node with the connective `op`.
    pub fn is_operator(&self, op: Oper) -> (r: bool)
        ensures
            r == self.has_connective(op),
    {
        match self {
            Node::Operator(o) => o.char == op,
            _ => false,
        }
    }

    /// The two operands of an operator node.
    pub fn into_operands(self) -> (operands: (Node, Node))
        requires
            self is Operator,
        ensures
            operands.0 == *self->Operator_0.left,
            operands.1 == *self->Operator_0.right,
    {
        match self {
            Node::Operator(op) => (*op.left, *op.right),
            other => (other, Node::Value(false)),
        }
    }

    /// Whether the formula has the shape of a conjunctive normal form over
    /// literals, with a conjunction at its root only where
    /// `accept_conjunctions` is set. The formula is left as it is.
    pub fn is_conjunctive_normal_form(&mut self, accept_conjunctions: bool) -> (r: bool)
        ensures
            r == old(self).is_cnf(accept_conjunctions),
            *final(self) == *old(self),
        decreases *old(self),
    {
        match self {
            Node::Operator(op) => match op.char {
                Oper::Conjunction => {
                    if accept_conjunctions {
                        op.left.is_conjunctive_normal_form(false)
                            && op.right.is_conjunctive_normal_form(true)
                    } else {
                        false
                    }
                },
                Oper::Disjunction => {
                    op.left.is_conjunctive_normal_form(false)
                        && op.right.is_conjunctive_normal_form(false)
                },
                _ => false,
            },
            Node::Neg(child) => match &**child {
                Node::Variable(_) | Node::Value(_) => true,
                _ => false,
            },
            Node::Variable(_) | Node::Value(_) => true,
        }
    }

    /// Brings a formula in negation normal form into conjunctive normal
    /// form.
    pub fn to_conjunctive_normal_form_mut(&mut self)
        ensures
            *final(self) == old(self).to_conjunctive_normal_form(),
        decreases *old(self),
    {
        match self {
            Node::Operator(op) => {
                op.left.to_conjunctive_normal_form_mut();
                op.right.to_conjunctive_normal_form_mut();
                if op.char == Oper::Disjunction {
                    op.apply_distributive_equivalence();
                }
                let ghost node = Node::Operator(*op);
                proof {
                    lemma_operands_of_operator(node);
                }
                let operands = op.op_depth_first_search_chained();
                op.build_right_handed_tree_from_node_list(operands, op.char);
            },
            _ => {},
        }
    }
}

/// Parses a formula and brings it into conjunctive normal form.
pub fn cnf(formula: &str) -> (r: Result<Node, MyError>)
    ensures
        r == cnf_spec(formula@),
        r matches Ok(tree) ==> tree.is_cnf(true) && tree.is_nnf() && tree.well_formed(),
{
    let mut tree = match Node::parse(formula) {
        Ok(tree) => tree,
        Err(e) => {
            return Err(e);
        },
    };
    proof {
        lemma_cnf_shape(tree);
        lemma_cnf_well_formed(tree);
    }
    tree.to_primitive_connectives_mut();
    tree.to_negation_normal_form_mut();
    tree.to_conjunctive_normal_form_mut();
    Ok(tree)
}

/// The conjunctive normal form of a formula as postfix text, or the message
/// of the error that the formula is rejected with.
pub fn conjunctive_normal_form(formula: &str) -> (text: String)
    ensures
        text@ == match cnf_spec(formula@) {
            Ok(tree) => tree.postfix(),
            Err(e) => e.message(),
        },
{
    match cnf(formula) {
        Ok(tree) => tree.to_string(),
        Err(e) => e.to_string(),
    }
}

/// A node is the right-nested chain of its own operands where neither of
/// its operands continues the chain, and has at least two operands where it
/// is an operator node of the connective.
pub proof fn lemma_operands_of_operator(node: Node)
    ensures
        node matches Node::Operator(op) ==> {
            &&& node.operands(op.char).len() >= 2
            &&& node.operands(op.char) == op.left.operands(op.char) + op.right.operands(op.char)
            &&& !op.continues() ==> node.rechained() == node
            &&& node.rechained() == Node::binary(
                op.char,
                node.operands(op.char)[0],
                Node::right_chain(op.char, node.operands(op.char).drop_first()),
            )
        },
        forall|op: Oper| (#[trigger] node.operands(op)).len() >= 1,
    decreases node,
{
    match node {
        Node::Operator(op) => {
            lemma_operands_of_operator(*op.left);
            lemma_operands_of_operator(*op.right);
            let all = node.operands(op.char);
            assert(op.left.operands(op.char).len() >= 1);
            assert(op.right.operands(op.char).len() >= 1);
            assert(all.len() >= 2);
            if !op.continues() {
                assert(all =~= seq![*op.left, *op.right]);
                assert(all.drop_first() =~= seq![*op.right]);
                reveal_with_fuel(Node::right_chain, 2);
            }
        },
        _ => {},
    }
}

/// What is accepted as a clause is accepted as a conjunctive normal form,
/// and every conjunctive normal form is a conjunction of clauses.
pub proof fn lemma_cnf_is_conjunction_of_clauses(tree: Node)
    ensures
        tree.is_cnf(false) ==> tree.is_cnf(true),
        tree.is_cnf(true) ==> tree.conjunction_of_clauses(),
    decreases tree,
{
    match tree {
        Node::Operator(op) => {
            lemma_cnf_is_conjunction_of_clauses(*op.left);
            lemma_cnf_is_conjunction_of_clauses(*op.right);
        },
        _ => {},
    }
}

/// A formula with the shape of a conjunctive normal form is in negation
/// normal form.
pub proof fn lemma_cnf_is_nnf(tree: Node, accept_conjunctions: bool)
    requires
        tree.is_cnf(accept_conjunctions),
    ensures
        tree.is_nnf(),
    decreases tree,
{
    match tree {
        Node::Operator(op) => {
            lemma_cnf_is_nnf(*op.left, false);
            lemma_cnf_is_nnf(*op.right, accept_conjunctions && op.char == Oper::Conjunction);
        },
        _ => {},
    }
}

/// Distribution keeps conjunctions of clauses, and formulas in negation
/// normal form, what they are.
pub proof fn lemma_distributed_shape(left: Node, right: Node)
    ensures
        left.conjunction_of_clauses() && right.conjunction_of_clauses() ==> Node::distributed(
            left,
            right,
        ).conjunction_of_clauses(),
        left.is_nnf() && right.is_nnf() ==> Node::distributed(left, right).is_nnf(),
        Node::distributed(left, right) matches Node::Operator(op) && op.char.is_primitive(),
    decreases left, right,
{
    reveal_with_fuel(Node::conjunction_of_clauses, 4);
    reveal_with_fuel(Node::is_nnf, 4);
    reveal_with_fuel(Node::is_cnf, 2);
    let left_conjunction = left.has_connective(Oper::Conjunction);
    let right_conjunction = right.has_connective(Oper::Conjunction);
    if left_conjunction && right_conjunction {
        let l = left->Operator_0;
        let r = right->Operator_0;
        lemma_distributed_shape(*l.left, *r.left);
        lemma_distributed_shape(*l.right, *r.left);
        lemma_distributed_shape(*l.left, *r.right);
        lemma_distributed_shape(*l.right, *r.right);
    } else if right_conjunction {
        let r = right->Operator_0;
        lemma_distributed_shape(left, *r.left);
        lemma_distributed_shape(left, *r.right);
    } else if left_conjunction {
        let l = left->Operator_0;
        lemma_distributed_shape(*l.left, right);
        lemma_distributed_shape(*l.right, right);
    } else {
    }
}

/// The operands of a chain are the nodes below it that do not continue it;
/// they inherit the shape of the chain.
pub proof fn lemma_operands_shape(tree: Node, op: Oper, i: int)
    requires
        0 <= i < tree.operands(op).len(),
    ensures
        !tree.operands(op)[i].has_connective(op),
        tree.is_nnf() ==> tree.operands(op)[i].is_nnf(),
        op == Oper::Conjunction && tree.conjunction_of_clauses() ==> tree.operands(op)[i].is_cnf(
            false,
        ),
        op == Oper::Disjunction && tree.is_cnf(false) ==> tree.operands(op)[i].is_cnf(false),
    decreases tree,
{
    match tree {
        Node::Operator(o) => {
            if o.char == op {
                let left = o.left.operands(op);
                if i < left.len() {
                    lemma_operands_shape(*o.left, op, i);
                } else {
                    lemma_operands_shape(*o.right, op, i - left.len());
                }
            }
        },
        _ => {},
    }
}

/// A right-nested chain of conjunctions over clauses is a conjunctive
/// normal form, one of disjunctions over clauses is a clause, and a chain
/// over formulas in negation normal form is in negation normal form.
pub proof fn lemma_right_chain_shape(op: Oper, operands: Seq<Node>)
    requires
        operands.len() >= 1,
        op.is_primitive(),
    ensures
        (forall|i: int| 0 <= i < operands.len() ==> (#[trigger] operands[i]).is_cnf(false)) ==> {
            if op == Oper::Conjunction {
                Node::right_chain(op, operands).is_cnf(true)
            } else {
                Node::right_chain(op, operands).is_cnf(false)
            }
        },
        (forall|i: int| 0 <= i < operands.len() ==> (#[trigger] operands[i]).is_nnf())
            ==> Node::right_chain(op, operands).is_nnf(),
    decreases operands.len(),
{
    if operands.len() > 1 {
        let rest = operands.drop_first();
        lemma_right_chain_shape(op, rest);
        assert(forall|i: int| 0 <= i < rest.len() ==> rest[i] == operands[i + 1]);
    } else {
        lemma_cnf_is_conjunction_of_clauses(operands[0]);
    }
}

/// Nesting a chain to the right turns a conjunction of clauses, or a
/// clause, into a conjunctive normal form, and keeps negation normal form.
pub proof fn lemma_rechained_shape(tree: Node)
    requires
        tree matches Node::Operator(op) && op.char.is_primitive(),
    ensures
        tree.conjunction_of_clauses() ==> tree.rechained().is_cnf(true),
        tree.is_nnf() ==> tree.rechained().is_nnf(),
{
    let op = tree->Operator_0.char;
    let operands = tree.operands(op);
    lemma_operands_of_operator(tree);
    lemma_right_chain_shape(op, operands);
    assert forall|i: int| 0 <= i < operands.len() implies (tree.is_nnf()
        ==> (#[trigger] operands[i]).is_nnf()) && (tree.conjunction_of_clauses()
        ==> operands[i].is_cnf(false)) by {
        lemma_operands_shape(tree, op, i);
    }
    lemma_cnf_is_conjunction_of_clauses(Node::right_chain(op, operands));
}

/// Conjunctive normal form shape: the conjunctive normal form of a formula
/// in negation normal form is a right-nested conjunction of clauses, and
/// still in negation normal form.
pub proof fn lemma_conjunctive_normal_form_shape(tree: Node)
    requires
        tree.is_nnf(),
    ensures
        tree.to_conjunctive_normal_form().is_cnf(true),
        tree.to_conjunctive_normal_form().is_nnf(),
    decreases tree,
{
    match tree {
        Node::Operator(op) => {
            lemma_conjunctive_normal_form_shape(*op.left);
            lemma_conjunctive_normal_form_shape(*op.right);
            let left = op.left.to_conjunctive_normal_form();
            let right = op.right.to_conjunctive_normal_form();
            lemma_cnf_is_conjunction_of_clauses(left);
            lemma_cnf_is_conjunction_of_clauses(right);
            if op.char == Oper::Disjunction {
                lemma_distributed_shape(left, right);
                lemma_rechained_shape(Node::distributed(left, right));
            } else {
                lemma_rechained_shape(Node::binary(op.char, left, right));
            }
        },
        _ => {},
    }
}

/// A distributed disjunction holds where one of its operands holds.
pub proof fn lemma_distributed_holds(left: Node, right: Node, assignment: spec_fn(char) -> bool)
    ensures
        Node::distributed(left, right).holds(assignment) == (left.holds(assignment) || right.holds(
            assignment,
        )),
    decreases left, right,
{
    reveal_with_fuel(Node::holds, 4);
    let left_conjunction = left.has_connective(Oper::Conjunction);
    let right_conjunction = right.has_connective(Oper::Conjunction);
    if left_conjunction && right_conjunction {
        let l = left->Operator_0;
        let r = right->Operator_0;
        lemma_distributed_holds(*l.left, *r.left, assignment);
        lemma_distributed_holds(*l.right, *r.left, assignment);
        lemma_distributed_holds(*l.left, *r.right, assignment);
        lemma_distributed_holds(*l.right, *r.right, assignment);
    } else if right_conjunction {
        let r = right->Operator_0;
        lemma_distributed_holds(left, *r.left, assignment);
        lemma_distributed_holds(left, *r.right, assignment);
    } else if left_conjunction {
        let l = left->Operator_0;
        lemma_distributed_holds(*l.left, right, assignment);
        lemma_distributed_holds(*l.right, right, assignment);
    } else {
    }
}

/// A chain of conjunctions or disjunctions over two runs of operands holds
/// as the connective of the chains over either run does.
pub proof fn lemma_right_chain_holds(
    op: Oper,
    front: Seq<Node>,
    back: Seq<Node>,
    assignment: spec_fn(char) -> bool,
)
    requires
        op.is_primitive(),
        front.len() >= 1,
        back.len() >= 1,
    ensures
        Node::right_chain(op, front + back).holds(assignment) == op.apply(
            Node::right_chain(op, front).holds(assignment),
            Node::right_chain(op, back).holds(assignment),
        ),
    decreases front.len(),
{
    let all = front + back;
    assert(all.drop_first() == front.drop_first() + back);
    assert(all[0] == front[0]);
    if front.len() > 1 {
        lemma_right_chain_holds(op, front.drop_first(), back, assignment);
    } else {
        assert(front.drop_first() + back == back);
    }
}

/// Nesting the operands of a chain of conjunctions or disjunctions to the
/// right keeps the meaning of the chain.
pub proof fn lemma_operands_holds(tree: Node, op: Oper, assignment: spec_fn(char) -> bool)
    requires
        op.is_primitive(),
    ensures
        Node::right_chain(op, tree.operands(op)).holds(assignment) == tree.holds(assignment),
    decreases tree,
{
    match tree {
        Node::Operator(o) => {
            if o.char == op {
                lemma_operands_holds(*o.left, op, assignment);
                lemma_operands_holds(*o.right, op, assignment);
                lemma_operands_of_operator(*o.left);
                lemma_operands_of_operator(*o.right);
                assert(o.left.operands(op).len() >= 1);
                assert(o.right.operands(op).len() >= 1);
                lemma_right_chain_holds(
                    op,
                    o.left.operands(op),
                    o.right.operands(op),
                    assignment,
                );
            }
        },
        _ => {},
    }
}

/// Conjunctive normal form keeps the meaning of a formula over the
/// primitive connectives under every assignment.
pub proof fn lemma_conjunctive_normal_form_holds(tree: Node, assignment: spec_fn(char) -> bool)
    requires
        tree.primitive_only(),
    ensures
        tree.to_conjunctive_normal_form().holds(assignment) == tree.holds(assignment),
    decreases tree,
{
    match tree {
        Node::Operator(op) => {
            lemma_conjunctive_normal_form_holds(*op.left, assignment);
            lemma_conjunctive_normal_form_holds(*op.right, assignment);
            let left = op.left.to_conjunctive_normal_form();
            let right = op.right.to_conjunctive_normal_form();
            if op.char == Oper::Disjunction {
                let node = Node::distributed(left, right);
                lemma_distributed_holds(left, right, assignment);
                lemma_distributed_shape(left, right);
                lemma_operands_holds(node, node->Operator_0.char, assignment);
            } else {
                let node = Node::binary(op.char, left, right);
                lemma_operands_holds(node, op.char, assignment);
            }
        },
        _ => {},
    }
}

/// A distributed disjunction mentions what its operands mention.
pub proof fn lemma_distributed_mentions(left: Node, right: Node, name: char)
    ensures
        Node::distributed(left, right).mentions(name) == (left.mentions(name) || right.mentions(
            name,
        )),
    decreases left, right,
{
    reveal_with_fuel(Node::mentions, 4);
    let left_conjunction = left.has_connective(Oper::Conjunction);
    let right_conjunction = right.has_connective(Oper::Conjunction);
    if left_conjunction && right_conjunction {
        let l = left->Operator_0;
        let r = right->Operator_0;
        lemma_distributed_mentions(*l.left, *r.left, name);
        lemma_distributed_mentions(*l.right, *r.left, name);
        lemma_distributed_mentions(*l.left, *r.right, name);
        lemma_distributed_mentions(*l.right, *r.right, name);
    } else if right_conjunction {
        let r = right->Operator_0;
        lemma_distributed_mentions(left, *r.left, name);
        lemma_distributed_mentions(left, *r.right, name);
    } else if left_conjunction {
        let l = left->Operator_0;
        lemma_distributed_mentions(*l.left, right, name);
        lemma_distributed_mentions(*l.right, right, name);
    } else {
    }
}

/// A chain mentions what its operands mention.
pub proof fn lemma_right_chain_mentions(op: Oper, operands: Seq<Node>, name: char)
    requires
        operands.len() >= 1,
    ensures
        Node::right_chain(op, operands).mentions(name) == some_mentions(operands, name),
    decreases operands.len(),
{
    if operands.len() > 1 {
        let rest = operands.drop_first();
        lemma_right_chain_mentions(op, rest, name);
        if some_mentions(rest, name) {
            let i = choose|i: int| 0 <= i < rest.len() && (#[trigger] rest[i]).mentions(name);
            assert(operands[i + 1].mentions(name));
        }
        if some_mentions(operands, name) {
            let i = choose|i: int|
                0 <= i < operands.len() && (#[trigger] operands[i]).mentions(name);
            if i > 0 {
                assert(rest[i - 1].mentions(name));
            }
        }
    } else {
        if some_mentions(operands, name) {
            let i = choose|i: int|
                0 <= i < operands.len() && (#[trigger] operands[i]).mentions(name);
            assert(i == 0);
        }
        if operands[0].mentions(name) {
            assert(some_mentions(operands, name));
        }
    }
}

/// The operands of a chain mention what the chain mentions.
pub proof fn lemma_operands_mentions(tree: Node, op: Oper, name: char)
    ensures
        some_mentions(tree.operands(op), name) == tree.mentions(name),
    decreases tree,
{
    let all = tree.operands(op);
    if tree.has_connective(op) {
        let o = tree->Operator_0;
        let front = o.left.operands(op);
        let back = o.right.operands(op);
        lemma_operands_mentions(*o.left, op, name);
        lemma_operands_mentions(*o.right, op, name);
        if some_mentions(front, name) {
            let i = choose|i: int| 0 <= i < front.len() && (#[trigger] front[i]).mentions(name);
            assert(all[i].mentions(name));
        }
        if some_mentions(back, name) {
            let i = choose|i: int| 0 <= i < back.len() && (#[trigger] back[i]).mentions(name);
            assert(all[front.len() + i].mentions(name));
        }
        if some_mentions(all, name) {
            let i = choose|i: int| 0 <= i < all.len() && (#[trigger] all[i]).mentions(name);
            if i < front.len() {
                assert(front[i].mentions(name));
            } else {
                assert(back[i - front.len()].mentions(name));
            }
        }
    } else {
        assert(all == seq![tree]);
        if some_mentions(all, name) {
            let i = choose|i: int| 0 <= i < all.len() && (#[trigger] all[i]).mentions(name);
            assert(i == 0);
        }
        if tree.mentions(name) {
            assert(all[0].mentions(name));
        }
    }
}

/// Conjunctive normal form keeps the variables of a formula.
pub proof fn lemma_conjunctive_normal_form_mentions(tree: Node, name: char)
    ensures
        tree.to_conjunctive_normal_form().mentions(name) == tree.mentions(name),
    decreases tree,
{
    match tree {
        Node::Operator(op) => {
            lemma_conjunctive_normal_form_mentions(*op.left, name);
            lemma_conjunctive_normal_form_mentions(*op.right, name);
            let left = op.left.to_conjunctive_normal_form();
            let right = op.right.to_conjunctive_normal_form();
            let node = if op.char == Oper::Disjunction {
                Node::distributed(left, right)
            } else {
                Node::binary(op.char, left, right)
            };
            lemma_distributed_mentions(left, right, name);
            lemma_distributed_shape(left, right);
            let root = node->Operator_0.char;
            lemma_operands_of_operator(node);
            lemma_operands_mentions(node, root, name);
            lemma_right_chain_mentions(root, node.operands(root), name);
        },
        _ => {},
    }
}

/// The three passes keep the variables of a formula.
pub proof fn lemma_normalized_mentions(tree: Node, name: char)
    ensures
        tree.normalized().mentions(name) == tree.mentions(name),
{
    lemma_conjunctive_normal_form_mentions(
        tree.to_primitive_connectives().to_negation_normal_form(),
        name,
    );
    lemma_negation_normal_form_mentions(tree.to_primitive_connectives(), name);
    lemma_primitive_connectives_mentions(tree, name);
}

/// Conjunctive normal form shape: the three passes bring every formula
/// without double negation into a right-nested conjunction of clauses over
/// variables, values and their negations.
pub proof fn lemma_cnf_shape(tree: Node)
    requires
        tree.no_double_neg(),
    ensures
        tree.normalized().is_cnf(true),
        tree.normalized().is_nnf(),
{
    lemma_nnf_shape(tree);
    lemma_conjunctive_normal_form_shape(tree.to_primitive_connectives().to_negation_normal_form());
}

/// Conjunctive normal form equivalence: under every assignment the
/// conjunctive normal form of a formula has the truth value of the formula.
pub proof fn lemma_cnf_holds(tree: Node, assignment: spec_fn(char) -> bool)
    ensures
        tree.normalized().holds(assignment) == tree.holds(assignment),
{
    lemma_nnf_holds(tree, assignment);
    lemma_primitive_connectives_only(tree);
    lemma_negation_normal_form_primitive(tree.to_primitive_connectives());
    lemma_conjunctive_normal_form_holds(
        tree.to_primitive_connectives().to_negation_normal_form(),
        assignment,
    );
}

/// The conjunctive normal form of a well-formed formula is well formed, so
/// that its postfix text denotes it.
pub proof fn lemma_cnf_well_formed(tree: Node)
    requires
        tree.well_formed(),
    ensures
        tree.normalized().well_formed(),
{
    let normal = tree.normalized();
    lemma_cnf_shape(tree);
    lemma_nnf_has_no_double_neg(normal);
    assert forall|name: char| normal.mentions(name) implies 'A' <= name <= 'Z' by {
        lemma_normalized_mentions(tree, name);
        lemma_uppercase_variables(tree, name);
    }
    lemma_uppercase_by_mentions(normal);
}

/// Conjunctive normal form equivalence, by truth tables: over every list
/// that holds the variables of a formula, the formula and its conjunctive
/// normal form have the same truth table.
pub proof fn lemma_cnf_table(tree: Node, variables: Seq<char>)
    requires
        forall|name: char| tree.mentions(name) ==> variables.contains(name),
    ensures
        table_rows(tree, variables) is Ok,
        table_rows(tree.normalized(), variables) == table_rows(tree, variables),
{
    let normal = tree.normalized();
    assert forall|name: char| normal.mentions(name) implies variables.contains(name) by {
        lemma_normalized_mentions(tree, name);
    }
    assert forall|assignment: spec_fn(char) -> bool| #[trigger]
        tree.holds(assignment) == normal.holds(assignment) by {
        lemma_cnf_holds(tree, assignment);
    }
    lemma_same_table(tree, normal, variables);
}

} // verus!
