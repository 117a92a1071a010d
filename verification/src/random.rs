//! Random formulas.
use crate::formula::{Node, Op, Oper};
use vstd::prelude::*;

verus! {

/// `rand::random::<usize>()`: a number drawn from the generator of the
/// thread. Nothing is promised of its value. The call panics where the
/// operating system gives the generator no seed.
#[verifier::external_body]
fn random_number() -> usize {
    rand::random::<usize>()
}

/// `rand::random::<bool>()`: a truth value drawn from the generator of the
/// thread. Nothing is promised of its value. The call panics where the
/// operating system gives the generator no seed.
#[verifier::external_body]
fn random_flag() -> bool {
    rand::random::<bool>()
}

/// The depth up to which `Node::new_random` lets a formula grow before it
/// closes every branch with a variable or a value.
pub const RANDOM_DEPTH: usize = 1024;

/// The depth of a formula: the number of nodes on its longest branch.
pub open spec fn depth(tree: Node) -> nat
    decreases tree,
{
    match tree {
        Node::Value(_) => 1,
        Node::Variable(_) => 1,
        Node::Neg(child) => 1 + depth(*child),
        Node::Operator(op) => 1 + if depth(*op.left) >= depth(*op.right) {
            depth(*op.left)
        } else {
            depth(*op.right)
        },
    }
}

/// The connective that the draw `draw` selects.
pub open spec fn connective_of_draw(draw: usize) -> Oper {
    if draw % 5 == 0 {
        Oper::Conjunction
    } else if draw % 5 == 1 {
        Oper::Disjunction
    } else if draw % 5 == 2 {
        Oper::ExclusiveDisjunction
    } else if draw % 5 == 3 {
        Oper::MaterialCondition
    } else {
        Oper::Equivalence
    }
}

/// The connective that the draw `draw` selects: each of the five is
/// selected by one draw in five.
pub fn pick_connective(draw: usize) -> (op: Oper)
    ensures
        op == connective_of_draw(draw),
{
    let choice = draw % 5;
    if choice == 0 {
        Oper::Conjunction
    } else if choice == 1 {
        Oper::Disjunction
    } else if choice == 2 {
        Oper::ExclusiveDisjunction
    } else if choice == 3 {
        Oper::MaterialCondition
    } else {
        Oper::Equivalence
    }
}

/// The variable that the draw `draw` selects from `variables`.
pub fn pick_variable(variables: &[char], draw: usize) -> (name: char)
    requires
        variables@.len() > 0,
    ensures
        name == variables@[draw as int % variables@.len() as int],
        variables@.contains(name),
{
    variables[draw % variables.len()]
}

/// What a node of a random formula is to be.
#[derive(Debug, Clone, Copy, PartialEq, Eq, Structural)]
pub enum NodeKind {
    Variable,
    Value,
    Operator,
    Negation,
}

/// The kind of node that the draw `draw` selects: each of the four kinds is
/// selected by one draw in four. Where there is no `room` for a formula
/// below the node, the draws of a connective select a variable and those of
/// a negation a value.
pub open spec fn kind_of_draw(draw: usize, room: bool) -> NodeKind {
    if draw % 4 == 0 {
        NodeKind::Variable
    } else if draw % 4 == 1 {
        NodeKind::Value
    } else if draw % 4 == 2 {
        if room {
            NodeKind::Operator
        } else {
            NodeKind::Variable
        }
    } else {
        if room {
            NodeKind::Negation
        } else {
            NodeKind::Value
        }
    }
}

/// The kind of node that the draw `draw` selects.
pub fn pick_kind(draw: usize, room: bool) -> (kind: NodeKind)
    ensures
        kind == kind_of_draw(draw, room),
{
    let choice = draw % 4;
    if choice == 0 {
        NodeKind::Variable
    } else if choice == 1 {
        NodeKind::Value
    } else if choice == 2 {
        if room {
            NodeKind::Operator
        } else {
            NodeKind::Variable
        }
    } else {
        if room {
            NodeKind::Negation
        } else {
            NodeKind::Value
        }
    }
}

/// What the generator gave at one call: a number or a truth value.
pub enum Draw {
    Number(usize),
    Flag(bool),
}

/// The number at place `at` of `draws`.
pub open spec fn number_at(draws: Seq<Draw>, at: int) -> usize {
    if 0 <= at < draws.len() && draws[at] is Number {
        draws[at]->Number_0
    } else {
        0
    }
}

/// The truth value at place `at` of `draws`.
pub open spec fn flag_at(draws: Seq<Draw>, at: int) -> bool {
    0 <= at < draws.len() && draws[at] is Flag && draws[at]->Flag_0
}

/// The formula that grows from `draws`, and the number of draws that it
/// takes. The first draw selects the kind of the root. The second one
/// selects the variable, is the value, or selects the connective, whose
/// left operand grows from the draws that follow and whose right operand
/// from those behind the left one. A negation has no draw of its own: what
/// it negates grows from the draws behind the first. With a `budget` of one
/// there is no room below the root.
pub open spec fn grown(variables: Seq<char>, draws: Seq<Draw>, budget: nat) -> (Node, nat)
    decreases budget,
{
    if budget == 0 {
        (Node::Value(false), 0)
    } else {
        let below = (budget - 1) as nat;
        match kind_of_draw(number_at(draws, 0), budget > 1) {
            NodeKind::Variable => (
                Node::Variable(variables[number_at(draws, 1) as int % variables.len() as int]),
                2,
            ),
            NodeKind::Value => (Node::Value(flag_at(draws, 1)), 2),
            NodeKind::Operator => {
                let (left, left_draws) = grown(variables, draws.skip(2), below);
                let behind = draws.skip(2 + left_draws as int);
                let (right, right_draws) = grown(variables, behind, below);
                (
                    Node::binary(connective_of_draw(number_at(draws, 1)), left, right),
                    2 + left_draws + right_draws,
                )
            },
            NodeKind::Negation => {
                let (child, child_draws) = grown(variables, draws.skip(1), below);
                (Node::not(child), 1 + child_draws)
            },
        }
    }
}

/// A formula grows from the draws that it takes: draws behind them change
/// nothing.
pub proof fn lemma_grown_ignores_more(
    variables: Seq<char>,
    draws: Seq<Draw>,
    more: Seq<Draw>,
    budget: nat,
)
    requires
        grown(variables, draws, budget).1 <= draws.len(),
    ensures
        grown(variables, draws + more, budget) == grown(variables, draws, budget),
    decreases budget,
{
    if budget > 0 {
        let all = draws + more;
        let below = (budget - 1) as nat;
        assert(draws.len() >= 1);
        assert(all[0] == draws[0]);
        match kind_of_draw(number_at(draws, 0), budget > 1) {
            NodeKind::Variable => {
                assert(all[1] == draws[1]);
            },
            NodeKind::Value => {
                assert(all[1] == draws[1]);
            },
            NodeKind::Operator => {
                assert(all[1] == draws[1]);
                let left_draws = grown(variables, draws.skip(2), below).1;
                assert(all.skip(2) == draws.skip(2) + more);
                lemma_grown_ignores_more(variables, draws.skip(2), more, below);
                assert(all.skip(2 + left_draws as int) == draws.skip(2 + left_draws as int) + more);
                lemma_grown_ignores_more(variables, draws.skip(2 + left_draws as int), more, below);
            },
            NodeKind::Negation => {
                assert(all.skip(1) == draws.skip(1) + more);
                lemma_grown_ignores_more(variables, draws.skip(1), more, below);
            },
        }
    }
}

/// A random formula over `variables` whose depth is at most `budget`: the
/// formula that grows from the draws that the generator gives.
fn random_tree(variables: &[char], budget: usize) -> (tree: Node)
    requires
        variables@.len() > 0,
        budget >= 1,
    ensures
        exists|draws: Seq<Draw>| #[trigger]
            grown(variables@, draws, budget as nat) == (tree, draws.len()),
        depth(tree) <= budget,
        forall|name: char| tree.mentions(name) ==> variables@.contains(name),
    decreases budget,
{
    let kind_draw = random_number();
    match pick_kind(kind_draw, budget > 1) {
        NodeKind::Variable => {
            let draw = random_number();
            let tree = Node::Variable(pick_variable(variables, draw));
            proof {
                let draws = seq![Draw::Number(kind_draw), Draw::Number(draw)];
                assert(grown(variables@, draws, budget as nat) == (tree, draws.len()));
            }
            tree
        },
        NodeKind::Value => {
            let flag = random_flag();
            let tree = Node::Value(flag);
            proof {
                let draws = seq![Draw::Number(kind_draw), Draw::Flag(flag)];
                assert(grown(variables@, draws, budget as nat) == (tree, draws.len()));
            }
            tree
        },
        NodeKind::Operator => {
            let draw = random_number();
            let op = pick_connective(draw);
            let left = random_tree(variables, budget - 1);
            let right = random_tree(variables, budget - 1);
            let tree = Node::Operator(Op::new(op, left, right));
            proof {
                let below = (budget - 1) as nat;
                let left_draws = choose|draws: Seq<Draw>| #[trigger]
                    grown(variables@, draws, below) == (left, draws.len());
                let right_draws = choose|draws: Seq<Draw>| #[trigger]
                    grown(variables@, draws, below) == (right, draws.len());
                let first = seq![Draw::Number(kind_draw), Draw::Number(draw)];
                let draws = first + left_draws + right_draws;
                assert(draws.skip(2) == left_draws + right_draws);
                lemma_grown_ignores_more(variables@, left_draws, right_draws, below);
                assert(draws.skip(2 + left_draws.len() as int) == right_draws);
                assert(grown(variables@, draws, budget as nat) == (tree, draws.len()));
            }
            assert forall|name: char| tree.mentions(name) implies variables@.contains(name) by {
                assert(left.mentions(name) || right.mentions(name));
            }
            tree
        },
        NodeKind::Negation => {
            let child = random_tree(variables, budget - 1);
            let tree = Node::Neg(Box::new(child));
            proof {
                let below = (budget - 1) as nat;
                let child_draws = choose|draws: Seq<Draw>| #[trigger]
                    grown(variables@, draws, below) == (child, draws.len());
                let draws = seq![Draw::Number(kind_draw)] + child_draws;
                assert(draws.skip(1) == child_draws);
                assert(grown(variables@, draws, budget as nat) == (tree, draws.len()));
            }
            assert forall|name: char| tree.mentions(name) implies variables@.contains(name) by {
                assert(child.mentions(name));
            }
            tree
        },
    }
}

impl Node {
    /// A random formula over `variables`: the formula that grows from the
    /// numbers and truth values that the generator gives, one after the
    /// other. Each node is, with equal chance, a variable, a value, a
    /// connective over two random formulas, or the negation of a random
    /// formula, until the depth `RANDOM_DEPTH` is reached.
    pub fn new_random(variables: &[char]) -> (tree: Node)
        requires
            variables@.len() > 0,
        ensures
            exists|draws: Seq<Draw>| #[trigger]
                grown(variables@, draws, RANDOM_DEPTH as nat) == (tree, draws.len()),
            depth(tree) <= RANDOM_DEPTH,
            forall|name: char| tree.mentions(name) ==> variables@.contains(name),
    {
        random_tree(variables, RANDOM_DEPTH)
    }
}

} // verus!
