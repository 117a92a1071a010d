//! A walk over all nodes of a formula.
use crate::formula::Node;
use vstd::prelude::*;

verus! {

impl Node {
    /// The nodes of the formula in the order of the walk: a node comes
    /// before the nodes below it, and the right operand of a connective
    /// with all its nodes before the left one.
    pub open spec fn walk(self) -> Seq<Node>
        decreases self,
    {
        match self {
            Node::Value(_) => seq![self],
            Node::Variable(_) => seq![self],
            Node::Neg(child) => seq![self] + child.walk(),
            Node::Operator(op) => seq![self] + op.right.walk() + op.left.walk(),
        }
    }
}

/// The nodes that a stack of formulas still yields: those of the topmost
/// formula first.
pub open spec fn pending(stack: Seq<&Node>) -> Seq<Node>
    decreases stack.len(),
{
    if stack.len() == 0 {
        Seq::empty()
    } else {
        stack.last().walk() + pending(stack.drop_last())
    }
}

/// A walk over the nodes of a formula.
pub struct NodeIterator<'a> {
    stack: Vec<&'a Node>,
}

impl<'a> NodeIterator<'a> {
    /// The nodes that are still to come, in their order.
    pub closed spec fn remaining(&self) -> Seq<Node> {
        pending(self.stack@)
    }

    /// The next node of the walk; `None` when every node has been visited.
    pub fn next(&mut self) -> (node: Option<&'a Node>)
        ensures
            old(self).remaining().len() == 0 ==> node is None && final(self).remaining().len()
                == 0,
            old(self).remaining().len() > 0 ==> {
                &&& node matches Some(visited)
                &&& *visited == old(self).remaining()[0]
                &&& final(self).remaining() == old(self).remaining().drop_first()
            },
    {
        let node = match self.stack.pop() {
            Some(node) => node,
            None => {
                return None;
            },
        };
        let ghost below = self.stack@;
        assert(old(self).stack@.drop_last() == below);
        match node {
            Node::Operator(op) => {
                self.stack.push(&*op.left);
                self.stack.push(&*op.right);
                proof {
                    let one = below.push(&*op.left);
                    assert(self.stack@.drop_last() == one);
                    assert(one.drop_last() == below);
                    assert(pending(one) == op.left.walk() + pending(below));
                    assert(pending(self.stack@) == op.right.walk() + (op.left.walk() + pending(
                        below,
                    )));
                    assert(old(self).remaining().drop_first() == op.right.walk() + op.left.walk()
                        + pending(below));
                }
            },
            Node::Neg(child) => {
                self.stack.push(&**child);
                proof {
                    assert(self.stack@.drop_last() == below);
                    assert(old(self).remaining().drop_first() == child.walk() + pending(below));
                }
            },
            _ => {
                assert(old(self).remaining().drop_first() == pending(below));
            },
        }
        Some(node)
    }
}

impl Node {
    /// A walk over the nodes of the formula that starts at its root.
    pub fn into_iter(&self) -> (walk: NodeIterator<'_>)
        ensures
            walk.remaining() == self.walk(),
    {
        let mut stack: Vec<&Node> = Vec::new();
        stack.push(self);
        assert(stack@.drop_last() == Seq::<&Node>::empty());
        assert(pending(stack@.drop_last()) == Seq::<Node>::empty());
        assert(pending(stack@) == self.walk() + pending(stack@.drop_last()));
        assert(self.walk() + Seq::<Node>::empty() == self.walk());
        NodeIterator { stack }
    }
}

/// The walk visits every node once: it is as long as the formula is large.
pub proof fn lemma_walk_len(tree: Node)
    ensures
        tree.walk().len() == tree.size(),
        tree.walk()[0] == tree,
    decreases tree,
{
    match tree {
        Node::Value(_) => {},
        Node::Variable(_) => {},
        Node::Neg(child) => {
            lemma_walk_len(*child);
        },
        Node::Operator(op) => {
            lemma_walk_len(*op.left);
            lemma_walk_len(*op.right);
        },
    }
}

} // verus!
