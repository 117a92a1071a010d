//! Parsing postfix text into a formula tree.
//!
//! The text is read from its end: the last token is the root, the formula in
//! front of it the right operand, the one before that the left operand.
use crate::formula::{MyError, Node, Op, Oper};
use vstd::prelude::*;

verus! {

/// Reads one formula from the end of `text`. On success the result holds the
/// tree and the number of characters of `text` that stand in front of it.
pub open spec fn parse_tail(text: Seq<char>) -> Result<(Node, nat), MyError>
    decreases text.len(),
{
    if text.len() == 0 {
        Err(MyError::Eof)
    } else {
        let c = text.last();
        let rest = text.drop_last();
        if c == '!' {
            match parse_tail(rest) {
                Ok((child, front)) => Ok((child.negated(), front)),
                Err(e) => Err(e),
            }
        } else if c == '0' || c == '1' {
            Ok((Node::Value(c == '1'), rest.len()))
        } else if 'A' <= c <= 'Z' {
            Ok((Node::Variable(c), rest.len()))
        } else {
            match Oper::of_symbol(c) {
                None => Err(MyError::InvalidChar(c)),
                Some(op) => match parse_tail(rest) {
                    Err(e) => Err(e),
                    Ok((right, middle)) => if middle <= rest.len() {
                        match parse_tail(rest.take(middle as int)) {
                            Err(e) => Err(e),
                            Ok((left, front)) => Ok((Node::binary(op, left, right), front)),
                        }
                    } else {
                        // never taken: see `lemma_parse_tail`
                        Err(MyError::Eof)
                    },
                },
            }
        }
    }
}

/// The tree that `text` denotes. The whole text has to be one formula:
/// where text is left over in front of the formula at its end, the formula
/// that would hold both has ended too early.
pub open spec fn parse_spec(text: Seq<char>) -> Result<Node, MyError> {
    match parse_tail(text) {
        Err(e) => Err(e),
        Ok((tree, front)) => if front == 0 {
            Ok(tree)
        } else {
            Err(MyError::Eof)
        },
    }
}

/// `result` with its tree negated where `negate` is set.
pub open spec fn toggled(negate: bool, result: Result<(Node, nat), MyError>) -> Result<
    (Node, nat),
    MyError,
> {
    match result {
        Ok((tree, front)) => Ok((if negate { tree.negated() } else { tree }, front)),
        Err(e) => Err(e),
    }
}

/// The characters of `s`, in order.
pub fn to_chars(s: &str) -> (chars: Vec<char>)
    ensures
        chars@ == s@,
{
    let mut chars: Vec<char> = Vec::new();
    for c in it: s.chars()
        invariant
            chars@ == s@.take(it.index()),
            it.seq() == s@,
    {
        chars.push(c);
        assert(s@.take(it.index() + 1) =~= s@.take(it.index()).push(c));
    }
    assert(s@.take(s@.len() as int) =~= s@);
    chars
}

/// Reads one formula from the end of `s` and removes it from `s`: negation
/// markers are counted off first, then the token in front of them is the
/// root of the formula, a connective with its right operand read before its
/// left one.
pub fn inner_parse(s: &mut Vec<char>) -> (r: Result<Node, MyError>)
    ensures
        final(s)@ == old(s)@.take(final(s)@.len() as int),
        final(s)@.len() <= old(s)@.len(),
        match parse_tail(old(s)@) {
            Ok((tree, front)) => r == Ok::<Node, MyError>(tree) && final(s)@.len() == front,
            Err(e) => r == Err::<Node, MyError>(e),
        },
    decreases old(s)@.len(),
{
    let ghost text = s@;
    let mut negate = false;
    let mut val = match s.pop() {
        Some(c) => c,
        None => {
            return Err(MyError::Eof);
        },
    };
    assert(s@ == text.drop_last());
    assert(s@.push(val) == text);
    while val == '!'
        invariant
            text == old(s)@,
            s@.len() < text.len(),
            s@ == text.take(s@.len() as int),
            val == text[s@.len() as int],
            parse_tail(text) == toggled(negate, parse_tail(s@.push(val))),
        decreases s@.len(),
    {
        let ghost before = s@.push(val);
        proof {
            assert(before.drop_last() == s@);
            lemma_parse_tail(s@);
            assert(parse_tail(before) == toggled(true, parse_tail(s@)));
            assert(s@.len() == 0 ==> parse_tail(s@) == Err::<(Node, nat), MyError>(MyError::Eof));
        }
        negate = !negate;
        val = match s.pop() {
            Some(c) => c,
            None => {
                return Err(MyError::Eof);
            },
        };
        assert(s@.push(val) == before.drop_last());
    }
    let ghost here = s@.push(val);
    assert(here.drop_last() == s@);
    let mut node = match val {
        '&' | '^' | '|' | '>' | '=' => {
            let right = match inner_parse(s) {
                Ok(node) => node,
                Err(e) => {
                    return Err(e);
                },
            };
            proof {
                lemma_parse_tail(here.drop_last());
                assert(s@ == here.drop_last().take(s@.len() as int));
            }
            let left = match inner_parse(s) {
                Ok(node) => node,
                Err(e) => {
                    return Err(e);
                },
            };
            let op = match Oper::from_ascii(val) {
                Ok(op) => op,
                Err(e) => {
                    return Err(e);
                },
            };
            Node::Operator(Op::new(op, left, right))
        },
        'A'..='Z' => Node::Variable(val),
        '0' | '1' => Node::Value(val == '1'),
        _ => {
            return Err(MyError::InvalidChar(val));
        },
    };
    if negate {
        node.neg();
    }
    Ok(node)
}

impl Node {
    /// Parses a formula in postfix notation. The text has to be one formula
    /// from its first character to its last.
    pub fn parse(s: &str) -> (r: Result<Node, MyError>)
        ensures
            r == parse_spec(s@),
            r matches Ok(tree) ==> tree.well_formed(),
    {
        let mut chars = to_chars(s);
        proof {
            lemma_parse_tail(s@);
        }
        let tree = match inner_parse(&mut chars) {
            Ok(tree) => tree,
            Err(e) => {
                return Err(e);
            },
        };
        if chars.len() == 0 {
            Ok(tree)
        } else {
            Err(MyError::Eof)
        }
    }
}

/// A formula read from the end of a text leaves a proper prefix of it, is
/// well formed, and mentions only variables that occur in the text.
pub proof fn lemma_parse_tail(text: Seq<char>)
    ensures
        parse_tail(text) matches Ok((tree, front)) ==> {
            &&& front < text.len()
            &&& tree.well_formed()
            &&& forall|c: char| tree.mentions(c) ==> text.contains(c)
        },
    decreases text.len(),
{
    if text.len() > 0 {
        let c = text.last();
        let rest = text.drop_last();
        assert(text.contains(c));
        assert forall|x: char| rest.contains(x) implies text.contains(x) by {
            let i = choose|i: int| 0 <= i < rest.len() && rest[i] == x;
            assert(text[i] == x);
        }
        if c == '!' {
            lemma_parse_tail(rest);
        } else if c == '0' || c == '1' {
        } else if 'A' <= c <= 'Z' {
        } else if Oper::of_symbol(c) is Some {
            lemma_parse_tail(rest);
            if let Ok((right, middle)) = parse_tail(rest) {
                let head = rest.take(middle as int);
                lemma_parse_tail(head);
                assert forall|x: char| head.contains(x) implies rest.contains(x) by {
                    let i = choose|i: int| 0 <= i < head.len() && head[i] == x;
                    assert(rest[i] == x);
                }
            }
        }
    }
}

/// The characters of a formula that was read from the end of a text are
/// ASCII characters.
pub proof fn lemma_parsed_tokens_are_ascii(text: Seq<char>)
    ensures
        parse_tail(text) matches Ok((_, front)) ==> forall|i: int|
            front <= i < text.len() ==> '\0' <= #[trigger] text[i] <= '\u{7f}',
    decreases text.len(),
{
    if let Ok((_, front)) = parse_tail(text) {
        let c = text.last();
        let rest = text.drop_last();
        lemma_parse_tail(text);
        assert('\0' <= c <= '\u{7f}');
        if c == '!' {
            lemma_parsed_tokens_are_ascii(rest);
            assert forall|i: int| front <= i < text.len() implies '\0' <= #[trigger] text[i]
                <= '\u{7f}' by {
                if i < rest.len() {
                    assert(rest[i] == text[i]);
                }
            }
        } else if c == '0' || c == '1' || 'A' <= c <= 'Z' {
        } else {
            lemma_parsed_tokens_are_ascii(rest);
            lemma_parse_tail(rest);
            let middle = parse_tail(rest)->Ok_0.1;
            let head = rest.take(middle as int);
            lemma_parsed_tokens_are_ascii(head);
            assert forall|i: int| front <= i < text.len() implies '\0' <= #[trigger] text[i]
                <= '\u{7f}' by {
                if i < middle {
                    assert(head[i] == text[i]);
                } else if i < rest.len() {
                    assert(rest[i] == text[i]);
                }
            }
        }
    }
}

/// A well-formed tree printed behind any text is read back from the end of
/// that text unchanged, and the text in front of it is left over.
pub proof fn lemma_parse_tail_of_postfix(front: Seq<char>, tree: Node)
    requires
        tree.well_formed(),
    ensures
        parse_tail(front + tree.postfix()) == Ok::<(Node, nat), MyError>((tree, front.len())),
    decreases tree,
{
    let text = front + tree.postfix();
    match tree {
        Node::Value(b) => {
            assert(text.drop_last() == front);
        },
        Node::Variable(c) => {
            assert(text.drop_last() == front);
        },
        Node::Neg(child) => {
            lemma_parse_tail_of_postfix(front, *child);
            assert(text.drop_last() == front + child.postfix());
        },
        Node::Operator(op) => {
            let rest = front + op.left.postfix() + op.right.postfix();
            assert(text.drop_last() == rest);
            lemma_parse_tail_of_postfix(front + op.left.postfix(), *op.right);
            lemma_parse_tail_of_postfix(front, *op.left);
            assert(rest.take((front + op.left.postfix()).len() as int) == front
                + op.left.postfix());
        },
    }
}

/// Round trip: parsing the postfix text of a well-formed tree gives the tree
/// back.
pub proof fn lemma_parse_inverts_print(tree: Node)
    requires
        tree.well_formed(),
    ensures
        parse_spec(tree.postfix()) == Ok::<Node, MyError>(tree),
{
    lemma_parse_tail_of_postfix(Seq::empty(), tree);
    assert(Seq::<char>::empty() + tree.postfix() == tree.postfix());
}

/// Round trip: every tree that the parser produces is the tree that its own
/// postfix text denotes.
pub proof fn lemma_round_trip(text: Seq<char>)
    requires
        parse_spec(text) is Ok,
    ensures
        parse_spec(parse_spec(text)->Ok_0.postfix()) == parse_spec(text),
{
    lemma_parse_tail(text);
    lemma_parse_inverts_print(parse_spec(text)->Ok_0);
}

/// Double negation collapse: two negation markers behind a text change
/// neither the tree it denotes nor the error it is rejected with.
pub proof fn lemma_double_negation_collapses(text: Seq<char>)
    ensures
        parse_spec(text + seq!['!', '!']) == parse_spec(text),
        parse_spec(text) matches Ok(tree) ==> parse_spec(text + seq!['!', '!'])->Ok_0.postfix()
            == tree.postfix(),
{
    let twice = text + seq!['!', '!'];
    let once = text.push('!');
    assert(twice.drop_last() == once);
    assert(once.drop_last() == text);
    lemma_parse_tail(text);
    assert(parse_tail(once) == toggled(true, parse_tail(text)));
    assert(parse_tail(twice) == toggled(true, parse_tail(once)));
    if let Ok((tree, front)) = parse_tail(text) {
        assert(tree.negated().negated() == tree);
    }
}

} // verus!
