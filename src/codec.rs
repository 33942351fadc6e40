use vstd::prelude::*;
use crate::node::{IsolationNode, height, splits_within};

verus! {

/// Tag word that opens a split node.
pub const DECISION_TAG: i128 = 1;
/// Tag word that opens a leaf.
pub const LEAF_TAG: i128 = 0;

/// The words of one node in preorder: a leaf is its tag and size; a split is
/// its tag, column and threshold, then its left and its right subtree.
pub open spec fn node_words(n: IsolationNode) -> Seq<i128>
    decreases n,
{
    match n {
        IsolationNode::Decision { left, right, split_att, split_val } =>
            seq![DECISION_TAG, split_att as i128, split_val as i128] + node_words(*left) + node_words(*right),
        IsolationNode::Leaf { size } => seq![LEAF_TAG, size as i128],
    }
}

/// The words of a sequence of trees, one after another.
pub open spec fn trees_words(ts: Seq<IsolationNode>) -> Seq<i128>
    decreases ts.len(),
{
    if ts.len() == 0 {
        Seq::empty()
    } else {
        node_words(ts[0]) + trees_words(ts.drop_first())
    }
}

/// The node that opens `s`, with the number of words it takes.
pub open spec fn parse_node(s: Seq<i128>) -> Option<(IsolationNode, nat)>
    decreases s.len(),
{
    if s.len() < 2 {
        None
    } else if s[0] == LEAF_TAG {
        if 0 <= s[1] <= usize::MAX {
            Some((IsolationNode::Leaf { size: s[1] as usize }, 2))
        } else {
            None
        }
    } else if s[0] == DECISION_TAG && s.len() >= 3 && 0 <= s[1] <= usize::MAX && i64::MIN <= s[2] <= i64::MAX {
        match parse_node(s.subrange(3, s.len() as int)) {
            Some((l, cl)) => if cl <= s.len() - 3 {
                match parse_node(s.subrange((3 + cl) as int, s.len() as int)) {
                    Some((r, cr)) => if 3 + cl + cr <= s.len() {
                        Some((IsolationNode::Decision {
                            left: Box::new(l),
                            right: Box::new(r),
                            split_att: s[1] as usize,
                            split_val: s[2] as i64,
                        }, 3 + cl + cr))
                    } else {
                        None
                    },
                    None => None,
                }
            } else {
                None
            },
            None => None,
        }
    } else {
        None
    }
}

/// `k` trees read one after another from the front of `s`, with the number of
/// words they take.
pub open spec fn parse_trees(s: Seq<i128>, k: nat) -> Option<(Seq<IsolationNode>, nat)>
    decreases k,
{
    if k == 0 {
        Some((Seq::empty(), 0))
    } else {
        match parse_node(s) {
            Some((n, c)) => if c <= s.len() {
                match parse_trees(s.subrange(c as int, s.len() as int), (k - 1) as nat) {
                    Some((ns, c2)) => Some((seq![n] + ns, c + c2)),
                    None => None,
                }
            } else {
                None
            },
            None => None,
        }
    }
}

/// Reading a node back from its words, whatever follows them, gives the
/// node and the length of its words.
pub proof fn lemma_node_round_trip(n: IsolationNode, rest: Seq<i128>)
    ensures
        parse_node(node_words(n) + rest) == Some((n, node_words(n).len())),
    decreases n,
{
    match n {
        IsolationNode::Decision { left, right, split_att, split_val } => {
            let wl = node_words(*left);
            let wr = node_words(*right);
            let s = node_words(n) + rest;
            lemma_node_round_trip(*left, wr + rest);
            lemma_node_round_trip(*right, rest);
            assert(s.subrange(3, s.len() as int) =~= wl + (wr + rest));
            assert(s.subrange((3 + wl.len()) as int, s.len() as int) =~= wr + rest);
        },
        IsolationNode::Leaf { size } => {
            let s = node_words(n) + rest;
            assert(s[0] == LEAF_TAG && s[1] == size as i128);
        },
    }
}

/// Reading trees back from their words, whatever follows them, gives the
/// trees and the length of their words.
pub proof fn lemma_trees_round_trip(ts: Seq<IsolationNode>, rest: Seq<i128>)
    ensures
        parse_trees(trees_words(ts) + rest, ts.len()) == Some((ts, trees_words(ts).len())),
    decreases ts.len(),
{
    if ts.len() > 0 {
        let s = trees_words(ts) + rest;
        let w0 = node_words(ts[0]);
        let tail = trees_words(ts.drop_first()) + rest;
        assert(s =~= w0 + tail);
        lemma_node_round_trip(ts[0], tail);
        assert(s.subrange(w0.len() as int, s.len() as int) =~= tail);
        lemma_trees_round_trip(ts.drop_first(), rest);
        assert(seq![ts[0]] + ts.drop_first() =~= ts);
    }
}

/// Appending one tree appends its words.
pub proof fn lemma_trees_words_push(ts: Seq<IsolationNode>, n: IsolationNode)
    ensures
        trees_words(ts.push(n)) == trees_words(ts) + node_words(n),
    decreases ts.len(),
{
    if ts.len() == 0 {
        assert(ts.push(n).drop_first() =~= Seq::<IsolationNode>::empty());
        assert(ts.push(n)[0] == n);
        assert(trees_words(Seq::<IsolationNode>::empty()) == Seq::<i128>::empty());
        assert(trees_words(ts) == Seq::<i128>::empty());
        assert(trees_words(ts.push(n)) =~= trees_words(ts) + node_words(n));
    } else {
        lemma_trees_words_push(ts.drop_first(), n);
        assert(ts.push(n).drop_first() =~= ts.drop_first().push(n));
        assert(ts.push(n)[0] == ts[0]);
        assert(trees_words(ts.push(n)) == node_words(ts[0]) + (trees_words(ts.drop_first()) + node_words(n)));
        assert(trees_words(ts.push(n)) =~= trees_words(ts) + node_words(n));
    }
}

/// Appends the words of `n` to `out`.
pub fn write_node(n: &IsolationNode, out: &mut Vec<i128>)
    ensures
        final(out)@ == old(out)@ + node_words(*n),
    decreases *n,
{
    match n {
        IsolationNode::Decision { left, right, split_att, split_val } => {
            let ghost before = out@;
            out.push(DECISION_TAG);
            out.push(*split_att as i128);
            out.push(*split_val as i128);
            write_node(left, out);
            write_node(right, out);
            assert(out@ =~= before + node_words(*n));
        },
        IsolationNode::Leaf { size } => {
            let ghost before = out@;
            out.push(LEAF_TAG);
            out.push(*size as i128);
            assert(out@ =~= before + node_words(*n));
        },
    }
}

/// Reads the node that starts at `pos`; returns it with the position just
/// after its words, or `None` where the words there hold no node.
pub fn read_node(words: &Vec<i128>, pos: usize) -> (r: Option<(Box<IsolationNode>, usize)>)
    requires
        pos <= words@.len(),
    ensures
        match parse_node(words@.subrange(pos as int, words@.len() as int)) {
            Some((n, c)) => r matches Some((b, e)) && *b == n && e == pos + c,
            None => r is None,
        },
    decreases words@.len() - pos,
{
    let ghost s = words@.subrange(pos as int, words@.len() as int);
    let len = words.len();
    if len - pos < 2 {
        return None;
    }
    let tag = words[pos];
    let first = words[pos + 1];
    if tag == LEAF_TAG {
        if 0 <= first && first <= usize::MAX as i128 {
            return Some((IsolationNode::new_leaf(first as usize), pos + 2));
        }
        return None;
    }
    if tag != DECISION_TAG || len - pos < 3 {
        return None;
    }
    let second = words[pos + 2];
    if !(0 <= first && first <= usize::MAX as i128 && i64::MIN as i128 <= second && second <= i64::MAX as i128) {
        return None;
    }
    assert(s.subrange(3, s.len() as int) =~= words@.subrange(pos + 3, words@.len() as int));
    match read_node(words, pos + 3) {
        Some((left, after_left)) => {
            let ghost cl = (after_left - pos - 3) as nat;
            assert(s.subrange((3 + cl) as int, s.len() as int) =~= words@.subrange(after_left as int, words@.len() as int));
            match read_node(words, after_left) {
                Some((right, after_right)) => {
                    Some((IsolationNode::new_decision(left, right, first as usize, second as i64), after_right))
                },
                None => None,
            }
        },
        None => None,
    }
}

/// Whether every split of `n` names a column below `width` and its height is
/// at most `budget`.
pub fn fits(n: &IsolationNode, width: usize, budget: u32) -> (r: bool)
    ensures
        r == (splits_within(*n, width as nat) && height(*n) <= budget),
    decreases *n,
{
    match n {
        IsolationNode::Decision { left, right, split_att, .. } => {
            if budget == 0 {
                return false;
            }
            *split_att < width && fits(left, width, budget - 1) && fits(right, width, budget - 1)
        },
        IsolationNode::Leaf { .. } => true,
    }
}

} // verus!
