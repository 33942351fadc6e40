use vstd::prelude::*;
use crate::matrix::Matrix;
use crate::node::{IsolationNode, height, settled, splits_within, leaf_total, path_depth, path_leaf_size};
use crate::random::{random_index, random_between};

verus! {

/// Every row of `s` equals its first row.
pub open spec fn uniform(s: Seq<Seq<i64>>) -> bool {
    forall|i: int| 0 <= i < s.len() ==> #[trigger] s[i] == s[0]
}

/// The rows of `s` whose value in column `att` is below `v`, in order.
pub open spec fn rows_below(s: Seq<Seq<i64>>, att: int, v: i64) -> Seq<Seq<i64>>
    decreases s.len(),
{
    if s.len() == 0 {
        s
    } else {
        rows_below(s.drop_last(), att, v) + if s.last()[att] < v { seq![s.last()] } else { Seq::empty() }
    }
}

/// The rows of `s` whose value in column `att` is not below `v`, in order.
pub open spec fn rows_rest(s: Seq<Seq<i64>>, att: int, v: i64) -> Seq<Seq<i64>>
    decreases s.len(),
{
    if s.len() == 0 {
        s
    } else {
        rows_rest(s.drop_last(), att, v) + if s.last()[att] < v { Seq::empty() } else { seq![s.last()] }
    }
}

/// `v` is a threshold the splitter may pick for column `att` of `s`: in
/// `[min, max)` of the column, or the column's value when it is constant.
pub open spec fn split_in_range(s: Seq<Seq<i64>>, att: int, v: i64) -> bool {
    &&& exists|i: int| 0 <= i < s.len() && #[trigger] s[i][att] <= v
    &&& (exists|i: int| 0 <= i < s.len() && v < #[trigger] s[i][att])
        || forall|i: int| 0 <= i < s.len() ==> #[trigger] s[i][att] == v
}

/// `n` is a tree the builder may produce from the rows `s` with `budget`
/// levels left: a leaf records how many rows reached it, and stands only
/// where at most one row is left or the budget is spent; a split received
/// at least two rows, picks a threshold in range, and its children are
/// built from the rows below the threshold and from the others.
pub open spec fn built_from(n: IsolationNode, s: Seq<Seq<i64>>, budget: nat) -> bool
    decreases n,
{
    match n {
        IsolationNode::Decision { left, right, split_att, split_val } => {
            &&& s.len() >= 2
            &&& budget > 0
            &&& split_in_range(s, split_att as int, split_val)
            &&& built_from(*left, rows_below(s, split_att as int, split_val), (budget - 1) as nat)
            &&& built_from(*right, rows_rest(s, split_att as int, split_val), (budget - 1) as nat)
        },
        IsolationNode::Leaf { size } => size == s.len() && (s.len() <= 1 || budget == 0),
    }
}

/// A walk through a tree built with `budget` levels left visits between one
/// node and `budget + 1` nodes, for every row.
pub proof fn lemma_built_tree_depth(n: IsolationNode, s: Seq<Seq<i64>>, budget: nat, row: Seq<i64>)
    requires
        built_from(n, s, budget),
    ensures
        1 <= path_depth(n, row) <= budget + 1,
    decreases n,
{
    match n {
        IsolationNode::Decision { left, right, split_att, split_val } => {
            let a = split_att as int;
            lemma_built_tree_depth(*left, rows_below(s, a, split_val), (budget - 1) as nat, row);
            lemma_built_tree_depth(*right, rows_rest(s, a, split_val), (budget - 1) as nat, row);
        },
        IsolationNode::Leaf { .. } => {},
    }
}

/// Every row of `s` is a row of `x`.
pub open spec fn rows_in(s: Seq<Seq<i64>>, x: Seq<Seq<i64>>) -> bool {
    forall|i: int| 0 <= i < s.len() ==> x.contains(#[trigger] s[i])
}

/// Both sides of a split hold only rows of the split sample.
pub proof fn lemma_split_sides_in(s: Seq<Seq<i64>>, att: int, v: i64)
    ensures
        rows_in(rows_below(s, att, v), s),
        rows_in(rows_rest(s, att, v), s),
    decreases s.len(),
{
    if s.len() > 0 {
        let p = s.drop_last();
        lemma_split_sides_in(p, att, v);
        assert(s[s.len() - 1] == s.last());
        assert forall|i: int| 0 <= i < rows_below(s, att, v).len() implies s.contains(#[trigger] rows_below(s, att, v)[i]) by {
            let b = rows_below(p, att, v);
            if i < b.len() {
                assert(rows_below(s, att, v)[i] == b[i]);
                assert(p.contains(b[i]));
                let k = choose|k: int| 0 <= k < p.len() && p[k] == b[i];
                assert(s[k] == p[k]);
            } else {
                assert(rows_below(s, att, v)[i] == s.last());
            }
        }
        assert forall|i: int| 0 <= i < rows_rest(s, att, v).len() implies s.contains(#[trigger] rows_rest(s, att, v)[i]) by {
            let b = rows_rest(p, att, v);
            if i < b.len() {
                assert(rows_rest(s, att, v)[i] == b[i]);
                assert(p.contains(b[i]));
                let k = choose|k: int| 0 <= k < p.len() && p[k] == b[i];
                assert(s[k] == p[k]);
            } else {
                assert(rows_rest(s, att, v)[i] == s.last());
            }
        }
    }
}

/// Every split of `n` has a threshold between the smallest and the largest
/// value of its column over the rows of `x`.
pub open spec fn splits_in_range(n: IsolationNode, x: Seq<Seq<i64>>) -> bool
    decreases n,
{
    match n {
        IsolationNode::Decision { left, right, split_att, split_val } => {
            &&& exists|i: int| 0 <= i < x.len() && #[trigger] x[i][split_att as int] <= split_val
            &&& exists|i: int| 0 <= i < x.len() && split_val <= #[trigger] x[i][split_att as int]
            &&& splits_in_range(*left, x)
            &&& splits_in_range(*right, x)
        },
        IsolationNode::Leaf { .. } => true,
    }
}

/// A tree built from rows of `x` splits within the column ranges of `x`.
pub proof fn lemma_built_from_in_range(n: IsolationNode, s: Seq<Seq<i64>>, budget: nat, x: Seq<Seq<i64>>)
    requires
        built_from(n, s, budget),
        rows_in(s, x),
    ensures
        splits_in_range(n, x),
    decreases n,
{
    match n {
        IsolationNode::Decision { left, right, split_att, split_val } => {
            let a = split_att as int;
            let i0 = choose|i: int| 0 <= i < s.len() && #[trigger] s[i][a] <= split_val;
            assert(x.contains(s[i0]));
            let j0 = choose|j: int| 0 <= j < x.len() && x[j] == s[i0];
            assert(x[j0][a] <= split_val);
            if exists|i: int| 0 <= i < s.len() && split_val < #[trigger] s[i][a] {
                let i1 = choose|i: int| 0 <= i < s.len() && split_val < #[trigger] s[i][a];
                assert(x.contains(s[i1]));
                let j1 = choose|j: int| 0 <= j < x.len() && x[j] == s[i1];
                assert(split_val <= x[j1][a]);
            } else {
                assert(s[0][a] == split_val);
                assert(x.contains(s[0]));
                let j1 = choose|j: int| 0 <= j < x.len() && x[j] == s[0];
                assert(split_val <= x[j1][a]);
            }
            lemma_split_sides_in(s, a, split_val);
            let sl = rows_below(s, a, split_val);
            let sr = rows_rest(s, a, split_val);
            assert forall|i: int| 0 <= i < sl.len() implies x.contains(#[trigger] sl[i]) by {
                assert(s.contains(sl[i]));
                let k = choose|k: int| 0 <= k < s.len() && s[k] == sl[i];
                assert(x.contains(s[k]));
            }
            assert forall|i: int| 0 <= i < sr.len() implies x.contains(#[trigger] sr[i]) by {
                assert(s.contains(sr[i]));
                let k = choose|k: int| 0 <= k < s.len() && s[k] == sr[i];
                assert(x.contains(s[k]));
            }
            lemma_built_from_in_range(*left, sl, (budget - 1) as nat, x);
            lemma_built_from_in_range(*right, sr, (budget - 1) as nat, x);
        },
        IsolationNode::Leaf { .. } => {},
    }
}

/// The largest height a tree built at `depth` under `limit` may have.
pub open spec fn height_budget(depth: u32, limit: u32) -> nat {
    if depth < limit { (limit - depth) as nat } else { 0 }
}

/// The builder of one isolation tree: the depth it starts at and the depth at
/// which it stops splitting.
pub struct IsolationTree {
    height: u32,
    height_limit: u32,
}

/// The smallest and largest value of column `att` over the rows of `x`.
fn column_range(x: &Matrix, att: usize) -> (r: (i64, i64))
    requires
        x.wf(),
        x@.len() > 0,
        att < x.width(),
    ensures
        exists|i: int| 0 <= i < x@.len() && #[trigger] x@[i][att as int] == r.0,
        exists|i: int| 0 <= i < x@.len() && #[trigger] x@[i][att as int] == r.1,
        forall|i: int| 0 <= i < x@.len() ==> r.0 <= #[trigger] x@[i][att as int] <= r.1,
{
    let first = x.row(0);
    let mut lo: i64 = first[att];
    let mut hi: i64 = first[att];
    let n = x.nrows();
    let mut i: usize = 1;
    while i < n
        invariant
            x.wf(),
            n == x@.len(),
            att < x.width(),
            1 <= i <= n,
            exists|k: int| 0 <= k < i && #[trigger] x@[k][att as int] == lo,
            exists|k: int| 0 <= k < i && #[trigger] x@[k][att as int] == hi,
            forall|k: int| 0 <= k < i ==> lo <= #[trigger] x@[k][att as int] <= hi,
        decreases n - i,
    {
        let row = x.row(i);
        assert(x@[i as int].len() == x.width());
        let v = row[att];
        if v < lo {
            lo = v;
        }
        if v > hi {
            hi = v;
        }
        i = i + 1;
    }
    (lo, hi)
}

/// Splits the rows of `x` by column `att`: those below `v` go to the first
/// matrix, the others to the second, each in the order they had in `x`.
fn partition(x: &Matrix, att: usize, v: i64) -> (r: (Matrix, Matrix))
    requires
        x.wf(),
        att < x.width(),
    ensures
        r.0.wf() && r.0.width() == x.width(),
        r.1.wf() && r.1.width() == x.width(),
        r.0@ == rows_below(x@, att as int, v),
        r.1@ == rows_rest(x@, att as int, v),
        r.0@.len() + r.1@.len() == x@.len(),
        uniform(x@) && x@.len() > 0 && !(x@[0][att as int] < v) ==> r.0@.len() == 0 && uniform(r.1@)
            && r.1@.len() == x@.len() && r.1@[0] == x@[0],
{
    let n = x.nrows();
    let w = x.ncols();
    let mut left = x.empty_like();
    let mut right = x.empty_like();
    let mut i: usize = 0;
    while i < n
        invariant
            x.wf(),
            n == x@.len(),
            w == x.width(),
            att < w,
            0 <= i <= n,
            left.wf() && left.width() == w,
            right.wf() && right.width() == w,
            left@ == rows_below(x@.take(i as int), att as int, v),
            right@ == rows_rest(x@.take(i as int), att as int, v),
            left@.len() + right@.len() == i,
            uniform(x@) && !(x@[0][att as int] < v) ==> left@.len() == 0
                && forall|k: int| 0 <= k < right@.len() ==> #[trigger] right@[k] == x@[0],
        decreases n - i,
    {
        let row = x.row(i);
        assert(x@.take(i + 1).drop_last() =~= x@.take(i as int));
        assert(x@.take(i + 1).last() == x@[i as int]);
        assert(x@[i as int].len() == w);
        let ghost (l0, r0) = (left@, right@);
        if row[att] < v {
            let _ = left.push_row(row);
            assert(left@ =~= l0 + seq![x@[i as int]]);
            assert(right@ =~= r0 + Seq::<Seq<i64>>::empty());
        } else {
            let _ = right.push_row(row);
            assert(right@ =~= r0 + seq![x@[i as int]]);
            assert(left@ =~= l0 + Seq::<Seq<i64>>::empty());
        }
        i = i + 1;
    }
    assert(x@.take(n as int) =~= x@);
    (left, right)
}

impl IsolationTree {
    /// The depth this builder starts at.
    pub closed spec fn depth(&self) -> u32 {
        self.height
    }

    /// The depth at which this builder stops splitting.
    pub closed spec fn limit(&self) -> u32 {
        self.height_limit
    }

    /// A builder starting at depth `height` that stops at `height_limit`.
    pub fn new(height: u32, height_limit: u32) -> (r: Self)
        ensures
            r.depth() == height,
            r.limit() == height_limit,
    {
        IsolationTree { height, height_limit }
    }

    /// Builds a tree over the rows of `x` by recursive random splitting.
    ///
    /// A sample of at most one row, or one that arrives at the depth limit,
    /// becomes a leaf holding its row count. Otherwise a column is picked at
    /// random and a threshold in `[min, max)` of that column (the minimum
    /// itself when the column is constant); rows below the threshold go left,
    /// the rest right, and both sides are built one level deeper.
    pub fn fit(&mut self, x: Matrix) -> (r: Box<IsolationNode>)
        requires
            x.wf(),
        ensures
            *final(self) == *old(self),
            x@.len() <= 1 || old(self).depth() >= old(self).limit() ==> *r == (IsolationNode::Leaf { size: x@.len() as usize }),
            x@.len() > 1 && old(self).depth() < old(self).limit() ==> (*r) is Decision,
            built_from(*r, x@, height_budget(old(self).depth(), old(self).limit())),
            height(*r) <= height_budget(old(self).depth(), old(self).limit()),
            settled(*r, height_budget(old(self).depth(), old(self).limit())),
            splits_within(*r, x.width()),
            leaf_total(*r) == x@.len(),
            uniform(x@) && x@.len() > 0 ==> path_leaf_size(*r, x@[0]) == x@.len(),
        decreases old(self).limit() - old(self).depth(),
    {
        let n = x.nrows();
        if n <= 1 || self.height >= self.height_limit {
            return IsolationNode::new_leaf(n);
        }
        let att = random_index(x.ncols());
        let (lo, hi) = column_range(&x, att);
        let split_val: i64 = if lo == hi {
            lo
        } else {
            random_between(lo, hi)
        };
        proof {
            let k_lo = choose|i: int| 0 <= i < x@.len() && #[trigger] x@[i][att as int] == lo;
            assert(x@[k_lo][att as int] <= split_val);
            if lo != hi {
                let k_hi = choose|i: int| 0 <= i < x@.len() && #[trigger] x@[i][att as int] == hi;
                assert(split_val < x@[k_hi][att as int]);
            }
            if lo == hi {
                assert forall|i: int| 0 <= i < x@.len() implies #[trigger] x@[i][att as int] == split_val by {}
            }
            if uniform(x@) {
                let k0 = choose|i: int| 0 <= i < x@.len() && #[trigger] x@[i][att as int] == lo;
                assert(x@[k0] == x@[0]);
                let k1 = choose|i: int| 0 <= i < x@.len() && #[trigger] x@[i][att as int] == hi;
                assert(x@[k1] == x@[0]);
            }
        }
        let (x_left, x_right) = partition(&x, att, split_val);
        let mut left = IsolationTree::new(self.height + 1, self.height_limit);
        let mut right = IsolationTree::new(self.height + 1, self.height_limit);
        let left_node = left.fit(x_left);
        let right_node = right.fit(x_right);
        IsolationNode::new_decision(left_node, right_node, att, split_val)
    }
}

} // verus!
