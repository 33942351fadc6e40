use vstd::prelude::*;

verus! {

/// A node of an isolation tree: a split on one column, or a leaf that keeps
/// only the number of sample rows that ended there.
#[derive(Debug)]
pub enum IsolationNode {
    /// Rows whose value in column `split_att` is below `split_val` go left,
    /// the others go right.
    Decision {
        left: Box<IsolationNode>,
        right: Box<IsolationNode>,
        split_att: usize,
        split_val: i64,
    },
    /// The number of sample rows that reached this leaf.
    Leaf {
        size: usize,
    },
}

/// The number of edges on the longest path from `n` down to a leaf.
pub open spec fn height(n: IsolationNode) -> nat
    decreases n,
{
    match n {
        IsolationNode::Decision { left, right, .. } => {
            let hl = height(*left);
            let hr = height(*right);
            1 + if hl >= hr { hl } else { hr }
        },
        IsolationNode::Leaf { .. } => 0,
    }
}

/// Every split of the tree names a column below `ncols`.
pub open spec fn splits_within(n: IsolationNode, ncols: nat) -> bool
    decreases n,
{
    match n {
        IsolationNode::Decision { left, right, split_att, .. } => {
            &&& split_att < ncols
            &&& splits_within(*left, ncols)
            &&& splits_within(*right, ncols)
        },
        IsolationNode::Leaf { .. } => true,
    }
}

/// Every leaf of `n` that stands less than `budget` levels down holds at most
/// one row: splitting stops only at isolation or at the depth limit.
pub open spec fn settled(n: IsolationNode, budget: nat) -> bool
    decreases n,
{
    match n {
        IsolationNode::Decision { left, right, .. } => {
            &&& budget > 0
            &&& settled(*left, (budget - 1) as nat)
            &&& settled(*right, (budget - 1) as nat)
        },
        IsolationNode::Leaf { size } => size <= 1 || budget == 0,
    }
}

/// The sum of the sizes of all leaves.
pub open spec fn leaf_total(n: IsolationNode) -> nat
    decreases n,
{
    match n {
        IsolationNode::Decision { left, right, .. } => leaf_total(*left) + leaf_total(*right),
        IsolationNode::Leaf { size } => size as nat,
    }
}

/// The number of nodes visited by `row` from `n` down to a leaf, inclusive.
pub open spec fn path_depth(n: IsolationNode, row: Seq<i64>) -> nat
    decreases n,
{
    match n {
        IsolationNode::Decision { left, right, split_att, split_val } => {
            1 + if row[split_att as int] < split_val {
                path_depth(*left, row)
            } else {
                path_depth(*right, row)
            }
        },
        IsolationNode::Leaf { .. } => 1,
    }
}

/// The size of the leaf that `row` reaches from `n`.
pub open spec fn path_leaf_size(n: IsolationNode, row: Seq<i64>) -> nat
    decreases n,
{
    match n {
        IsolationNode::Decision { left, right, split_att, split_val } => {
            if row[split_att as int] < split_val {
                path_leaf_size(*left, row)
            } else {
                path_leaf_size(*right, row)
            }
        },
        IsolationNode::Leaf { size } => size as nat,
    }
}

/// A walk visits at least one node and at most one more than the tree's
/// height.
pub proof fn lemma_path_depth_bounds(n: IsolationNode, row: Seq<i64>)
    ensures
        1 <= path_depth(n, row) <= height(n) + 1,
    decreases n,
{
    match n {
        IsolationNode::Decision { left, right, .. } => {
            lemma_path_depth_bounds(*left, row);
            lemma_path_depth_bounds(*right, row);
        },
        IsolationNode::Leaf { .. } => {},
    }
}

impl IsolationNode {
    /// A split node owning both children.
    pub fn new_decision(left: Box<IsolationNode>, right: Box<IsolationNode>, split_att: usize, split_val: i64) -> (r: Box<IsolationNode>)
        ensures
            *r == (IsolationNode::Decision { left, right, split_att, split_val }),
    {
        Box::new(IsolationNode::Decision { left, right, split_att, split_val })
    }

    /// A leaf recording `size` rows.
    pub fn new_leaf(size: usize) -> (r: Box<IsolationNode>)
        ensures
            *r == (IsolationNode::Leaf { size }),
    {
        Box::new(IsolationNode::Leaf { size })
    }
}

} // verus!
