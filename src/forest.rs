use vstd::prelude::*;
use vstd::arithmetic::power2::{pow2, lemma_pow2_unfold, lemma2_to64_rest};
use crate::error::ForestError;
use crate::matrix::Matrix;
use crate::node::{IsolationNode, height, settled, splits_within, leaf_total, path_depth, path_leaf_size, lemma_path_depth_bounds};
use crate::random::random_indices;
use crate::tree::{IsolationTree, built_from, rows_in, splits_in_range, lemma_built_from_in_range};
use crate::codec::{trees_words, parse_trees, write_node, read_node, fits, lemma_trees_round_trip, lemma_trees_words_push};

verus! {

/// `ceil(log2(n))`, with zero for `n <= 1`.
pub open spec fn ceil_log2(n: nat) -> nat
    decreases n,
{
    if n <= 1 {
        0
    } else {
        1 + ceil_log2(((n + 1) / 2) as nat)
    }
}

/// `ceil(log2(n))` is at most `k` whenever `n <= 2^k`.
pub proof fn lemma_ceil_log2_bound(n: nat, k: nat)
    requires
        n <= pow2(k),
    ensures
        ceil_log2(n) <= k,
    decreases k,
{
    if n > 1 {
        if k == 0 {
            assert(pow2(0) == 1) by { vstd::arithmetic::power2::lemma2_to64(); }
        } else {
            lemma_pow2_unfold(k);
            lemma_ceil_log2_bound(((n + 1) / 2) as nat, (k - 1) as nat);
        }
    }
}

/// The tree depth limit for samples of `n` rows: `ceil(log2(n))`.
pub fn height_limit_for(n: usize) -> (r: u32)
    ensures
        r == ceil_log2(n as nat),
        r <= 64,
{
    proof {
        lemma2_to64_rest();
        lemma_ceil_log2_bound(n as nat, 64);
    }
    let mut m: usize = n;
    let mut r: u32 = 0;
    while m > 1
        invariant
            ceil_log2(n as nat) == r + ceil_log2(m as nat),
            ceil_log2(n as nat) <= 64,
        decreases m,
    {
        m = m / 2 + m % 2;
        r = r + 1;
    }
    r
}

/// Every tree of `ts` splits on columns below `width` and is at most `limit`
/// high.
pub open spec fn trees_valid(ts: Seq<IsolationNode>, width: nat, limit: nat) -> bool {
    forall|t: int| 0 <= t < ts.len() ==> {
        &&& splits_within(#[trigger] ts[t], width)
        &&& height(ts[t]) <= limit
    }
}

/// A value a `usize` can hold.
pub open spec fn in_usize(v: i128) -> bool {
    0 <= v <= usize::MAX
}

/// The words of a forest with the given parameters and trees.
pub open spec fn forest_words(samples: nat, count: nat, width: nat, ts: Seq<IsolationNode>) -> Seq<i128> {
    seq![samples as i128, count as i128, width as i128, ts.len() as i128] + trees_words(ts)
}

/// The parameters and trees that `s` holds, when it holds exactly a header
/// and as many trees as the header announces.
pub open spec fn parse_forest(s: Seq<i128>) -> Option<(nat, nat, nat, Seq<IsolationNode>)> {
    if s.len() >= 4 && in_usize(s[0]) && in_usize(s[1]) && in_usize(s[2]) && in_usize(s[3]) {
        match parse_trees(s.subrange(4, s.len() as int), s[3] as nat) {
            Some((ts, c)) => if 4 + c == s.len() {
                Some((s[0] as nat, s[1] as nat, s[2] as nat, ts))
            } else {
                None
            },
            None => None,
        }
    } else {
        None
    }
}

/// What `s` decodes to: its parameters and trees, when every tree fits the
/// width and the depth limit of its sample size.
pub open spec fn decoded(s: Seq<i128>) -> Option<(nat, nat, nat, Seq<IsolationNode>)> {
    match parse_forest(s) {
        Some((sm, nt, w, ts)) => if trees_valid(ts, w, ceil_log2(sm)) {
            Some((sm, nt, w, ts))
        } else {
            None
        },
        None => None,
    }
}

/// A forest of isolation trees, each built on its own bootstrap sample.
pub struct IsolationTreeEnsembleThread {
    sample_size: usize,
    n_trees: usize,
    n_features: usize,
    tree_set: Vec<IsolationNode>,
}

/// The depth-and-leaf-size pair that `row` reaches in `n`.
pub open spec fn path_of(n: IsolationNode, row: Seq<i64>) -> (nat, nat) {
    (path_depth(n, row), path_leaf_size(n, row))
}

impl IsolationTreeEnsembleThread {
    /// Rows drawn per tree (zero until the first fit resolves it).
    pub closed spec fn samples(&self) -> nat {
        self.sample_size as nat
    }

    /// How many trees a fit builds.
    pub closed spec fn tree_count(&self) -> nat {
        self.n_trees as nat
    }

    /// The column count the trees were trained on.
    pub closed spec fn width(&self) -> nat {
        self.n_features as nat
    }

    /// The trained trees, in the order they were built.
    pub closed spec fn trees(&self) -> Seq<IsolationNode> {
        self.tree_set@
    }

    /// The depth limit the trees were built under.
    pub open spec fn height_limit(&self) -> nat {
        ceil_log2(self.samples())
    }

    /// Every tree splits on trained columns only and respects the depth limit.
    pub open spec fn wf(&self) -> bool {
        &&& self.height_limit() <= 64
        &&& self.trees().len() <= usize::MAX
        &&& trees_valid(self.trees(), self.width(), self.height_limit())
    }

    /// The forest written as words: sample size, tree count, width and the
    /// number of trained trees, then each trained tree.
    pub open spec fn words(&self) -> Seq<i128> {
        forest_words(self.samples(), self.tree_count(), self.width(), self.trees())
    }

    /// A forest that will draw `sample_size` rows per tree (zero: as many as
    /// the training matrix has) and build `n_trees` trees. It holds no tree
    /// yet.
    pub fn new(sample_size: usize, n_trees: usize) -> (r: Self)
        ensures
            r.wf(),
            r.samples() == sample_size,
            r.tree_count() == n_trees,
            r.trees() == Seq::<IsolationNode>::empty(),
    {
        proof {
            lemma2_to64_rest();
            lemma_ceil_log2_bound(sample_size as nat, 64);
        }
        IsolationTreeEnsembleThread { sample_size, n_trees, n_features: 0, tree_set: Vec::new() }
    }

    /// Rows drawn per tree.
    pub fn sample_size(&self) -> (r: usize)
        ensures
            r == self.samples(),
    {
        self.sample_size
    }

    /// How many trees a fit builds.
    pub fn n_trees(&self) -> (r: usize)
        ensures
            r == self.tree_count(),
    {
        self.n_trees
    }

    /// The column count the trees were trained on.
    pub fn n_features(&self) -> (r: usize)
        ensures
            r == self.width(),
    {
        self.n_features
    }

    /// The trained trees.
    pub fn tree_set(&self) -> (r: &Vec<IsolationNode>)
        ensures
            r@ == self.trees(),
    {
        &self.tree_set
    }

    /// The forest written as words (see `words`).
    pub fn to_words(&self) -> (r: Vec<i128>)
        requires
            self.wf(),
        ensures
            r@ == self.words(),
    {
        let mut out: Vec<i128> = Vec::new();
        out.push(self.sample_size as i128);
        out.push(self.n_trees as i128);
        out.push(self.n_features as i128);
        out.push(self.tree_set.len() as i128);
        let ghost header = out@;
        let mut i: usize = 0;
        while i < self.tree_set.len()
            invariant
                0 <= i <= self.trees().len(),
                header == seq![self.samples() as i128, self.tree_count() as i128, self.width() as i128, self.trees().len() as i128],
                out@ == header + trees_words(self.trees().take(i as int)),
            decreases self.trees().len() - i,
        {
            let ghost before = out@;
            write_node(&self.tree_set[i], &mut out);
            proof {
                lemma_trees_words_push(self.trees().take(i as int), self.trees()[i as int]);
                assert(self.trees().take(i + 1) =~= self.trees().take(i as int).push(self.trees()[i as int]));
            }
            assert(out@ =~= header + trees_words(self.trees().take(i + 1)));
            i = i + 1;
        }
        assert(self.trees().take(i as int) =~= self.trees());
        assert(out@ =~= header + trees_words(self.trees()));
        out
    }

    /// Reads a forest back from words written by `to_words`; `None` where the
    /// words hold no forest, or one whose trees do not fit its width and
    /// depth limit.
    pub fn from_words(words: &Vec<i128>) -> (r: Option<Self>)
        ensures
            r is Some <==> decoded(words@) is Some,
            r matches Some(f) ==> f.wf() && decoded(words@) == Some((f.samples(), f.tree_count(), f.width(), f.trees())),
    {
        let len = words.len();
        if len < 4 {
            return None;
        }
        let max = usize::MAX as i128;
        let (w0, w1, w2, w3) = (words[0], words[1], words[2], words[3]);
        if !(0 <= w0 && w0 <= max && 0 <= w1 && w1 <= max && 0 <= w2 && w2 <= max && 0 <= w3 && w3 <= max) {
            return None;
        }
        let sample_size = w0 as usize;
        let n_trees = w1 as usize;
        let width = w2 as usize;
        let k = w3 as usize;
        let limit = height_limit_for(sample_size);
        let ghost s4 = words@.subrange(4, len as int);
        let mut decoded_trees: Vec<IsolationNode> = Vec::new();
        let mut pos: usize = 4;
        let mut i: usize = 0;
        while i < k
            invariant
                len == words@.len(),
                s4 == words@.subrange(4, len as int),
                words@[0] == sample_size as i128 && words@[1] == n_trees as i128,
                words@[2] == width as i128 && words@[3] == k as i128,
                4 <= pos <= len,
                0 <= i <= k,
                limit == ceil_log2(sample_size as nat),
                decoded_trees@.len() == i,
                trees_valid(decoded_trees@, width as nat, limit as nat),
                parse_trees(s4, k as nat) == match parse_trees(words@.subrange(pos as int, len as int), (k - i) as nat) {
                    Some((ns, c)) => Some((decoded_trees@ + ns, ((pos - 4) + c) as nat)),
                    None => None::<(Seq<IsolationNode>, nat)>,
                },
            decreases k - i,
        {
            let ghost sp = words@.subrange(pos as int, len as int);
            match read_node(words, pos) {
                Some((node, after)) => {
                    if after > len {
                        return None;
                    }
                    let ghost c = (after - pos) as nat;
                    let ghost rest = parse_trees(words@.subrange(after as int, len as int), (k - i - 1) as nat);
                    assert(sp.subrange(c as int, sp.len() as int) =~= words@.subrange(after as int, len as int));
                    assert(parse_trees(sp, (k - i) as nat) == match rest {
                        Some((ns, c2)) => Some((seq![*node] + ns, c + c2)),
                        None => None::<(Seq<IsolationNode>, nat)>,
                    });
                    let ok = fits(&node, width, limit);
                    proof {
                        if let Some((ns, c2)) = rest {
                            assert(decoded_trees@ + (seq![*node] + ns) =~= decoded_trees@.push(*node) + ns);
                            assert((decoded_trees@ + (seq![*node] + ns))[i as int] == *node);
                        }
                    }
                    if !ok {
                        proof {
                            assert(words@.subrange(4, words@.len() as int) == s4);
                            if let Some((ns, c2)) = rest {
                                let ts = decoded_trees@ + (seq![*node] + ns);
                                assert(ts[i as int] == *node);
                                assert(!trees_valid(ts, width as nat, limit as nat));
                            }
                        }
                        return None;
                    }
                    decoded_trees.push(*node);
                    pos = after;
                },
                None => {
                    proof {
                        assert(words@.subrange(4, words@.len() as int) == s4);
                        assert(parse_trees(sp, (k - i) as nat) is None);
                    }
                    return None;
                },
            }
            i = i + 1;
        }
        assert(decoded_trees@ + Seq::<IsolationNode>::empty() =~= decoded_trees@);
        assert(words@.subrange(4, words@.len() as int) == s4);
        if pos != len {
            return None;
        }
        proof {
            lemma2_to64_rest();
            lemma_ceil_log2_bound(sample_size as nat, 64);
        }
        Some(IsolationTreeEnsembleThread { sample_size, n_trees, n_features: width, tree_set: decoded_trees })
    }

    /// Draws `sample_size` rows of `x` with replacement and builds one tree
    /// on them, starting at depth zero.
    fn make_isotree(x: &Matrix, sample_size: usize, height_limit: u32) -> (r: IsolationNode)
        requires
            x.wf(),
            x@.len() > 0,
        ensures
            splits_within(r, x.width()),
            height(r) <= height_limit,
            settled(r, height_limit as nat),
            leaf_total(r) == sample_size,
            sample_size > 1 && height_limit > 0 ==> r is Decision,
            splits_in_range(r, x@),
            exists|s: Seq<Seq<i64>>| s.len() == sample_size && rows_in(s, x@) && #[trigger] built_from(r, s, height_limit as nat),
    {
        let data_rows = random_indices(x.nrows(), sample_size);
        let mut random_data = x.empty_like();
        let mut j: usize = 0;
        while j < sample_size
            invariant
                x.wf(),
                x@.len() > 0,
                data_rows@.len() == sample_size,
                forall|i: int| 0 <= i < sample_size ==> #[trigger] data_rows@[i] < x@.len(),
                0 <= j <= sample_size,
                random_data.wf(),
                random_data.width() == x.width(),
                random_data@.len() == j,
                rows_in(random_data@, x@),
            decreases sample_size - j,
        {
            let k = data_rows[j];
            assert(data_rows@[j as int] < x@.len());
            assert(x@[k as int].len() == x.width());
            let ghost before = random_data@;
            let _ = random_data.push_row(x.row(k));
            assert(random_data@ == before.push(x@[k as int]));
            assert(x@.contains(x@[k as int]));
            j = j + 1;
        }
        let ghost sample = random_data@;
        let mut isotree = IsolationTree::new(0, height_limit);
        let node = isotree.fit(random_data);
        proof {
            lemma_built_from_in_range(*node, sample, height_limit as nat, x@);
            assert(built_from(*node, sample, height_limit as nat));
        }
        *node
    }

    /// Trains the forest on `x`.
    ///
    /// A sample size of zero is first resolved to the number of rows of `x`.
    /// Each of the `n_trees` trees is then built on its own bootstrap sample
    /// of that many rows, under the depth limit `ceil(log2(sample_size))`, and
    /// the new trees replace the old ones. A matrix without rows fails with
    /// `EmptyInput` and leaves the forest unchanged.
    pub fn fit(&mut self, x: Matrix) -> (r: Result<(), ForestError>)
        requires
            old(self).wf(),
            x.wf(),
        ensures
            final(self).wf(),
            x@.len() == 0 <==> r == Err::<(), ForestError>(ForestError::EmptyInput),
            x@.len() > 0 <==> r is Ok,
            r is Err ==> *final(self) == *old(self),
            r is Ok ==> {
                &&& final(self).samples() == if old(self).samples() == 0 { x@.len() } else { old(self).samples() }
                &&& final(self).tree_count() == old(self).tree_count()
                &&& final(self).width() == x.width()
                &&& final(self).trees().len() == old(self).tree_count()
                &&& forall|t: int| 0 <= t < final(self).trees().len() ==> {
                    &&& leaf_total(#[trigger] final(self).trees()[t]) == final(self).samples()
                    &&& settled(final(self).trees()[t], final(self).height_limit())
                    &&& final(self).samples() > 1 ==> final(self).trees()[t] is Decision
                    &&& splits_in_range(final(self).trees()[t], x@)
                    &&& exists|s: Seq<Seq<i64>>| s.len() == final(self).samples() && rows_in(s, x@)
                        && #[trigger] built_from(final(self).trees()[t], s, final(self).height_limit())
                }
            },
    {
        let n = x.nrows();
        if n == 0 {
            return Err(ForestError::EmptyInput);
        }
        if self.sample_size == 0 {
            self.sample_size = n;
        }
        let sample_size = self.sample_size;
        let height_limit = height_limit_for(sample_size);
        assert(sample_size > 1 ==> height_limit > 0);
        let n_trees = self.n_trees;
        let mut trees: Vec<IsolationNode> = Vec::new();
        let mut i: usize = 0;
        while i < n_trees
            invariant
                x.wf(),
                x@.len() > 0,
                height_limit == ceil_log2(sample_size as nat),
                0 <= i <= n_trees,
                trees@.len() == i,
                forall|t: int| 0 <= t < i ==> {
                    &&& splits_within(#[trigger] trees@[t], x.width())
                    &&& height(trees@[t]) <= height_limit
                    &&& settled(trees@[t], height_limit as nat)
                    &&& leaf_total(trees@[t]) == sample_size
                    &&& sample_size > 1 ==> trees@[t] is Decision
                    &&& splits_in_range(trees@[t], x@)
                    &&& exists|s: Seq<Seq<i64>>| s.len() == sample_size && rows_in(s, x@)
                        && #[trigger] built_from(trees@[t], s, height_limit as nat)
                },
            decreases n_trees - i,
        {
            let tree = Self::make_isotree(&x, sample_size, height_limit);
            trees.push(tree);
            i = i + 1;
        }
        self.n_features = x.ncols();
        self.tree_set = trees;
        Ok(())
    }

    /// Walks `node` with `x`: returns the number of nodes visited, leaf
    /// included, and the size recorded at the leaf reached. A value below a
    /// split's threshold goes left, any other right.
    pub fn tree_path_length(node: &IsolationNode, x: &Vec<i64>) -> (r: (usize, usize))
        requires
            splits_within(*node, x@.len()),
            height(*node) < usize::MAX,
        ensures
            r.0 == path_depth(*node, x@),
            r.1 == path_leaf_size(*node, x@),
        decreases *node,
    {
        match node {
            IsolationNode::Decision { left, right, split_att, split_val } => {
                let direction: &IsolationNode = if x[*split_att] < *split_val {
                    left
                } else {
                    right
                };
                proof {
                    lemma_path_depth_bounds(*direction, x@);
                }
                let result = Self::tree_path_length(direction, x);
                (result.0 + 1, result.1)
            },
            IsolationNode::Leaf { size } => (1, *size),
        }
    }

    /// For each tree in order, the depth and leaf size that `row` reaches.
    /// Fails with `NotFitted` when the forest holds no tree, and with
    /// `IndexOutOfRange` when `row` is not as long as the training rows.
    pub fn path_lengths(&self, row: &Vec<i64>) -> (r: Result<Vec<(usize, usize)>, ForestError>)
        requires
            self.wf(),
        ensures
            self.trees().len() == 0 <==> r == Err::<Vec<(usize, usize)>, ForestError>(ForestError::NotFitted),
            self.trees().len() > 0 ==> (row@.len() != self.width()
                <==> r == Err::<Vec<(usize, usize)>, ForestError>(ForestError::IndexOutOfRange)),
            r is Ok <==> self.trees().len() > 0 && row@.len() == self.width(),
            r matches Ok(v) ==> v@.len() == self.trees().len()
                && forall|t: int| 0 <= t < v@.len() ==>
                    (#[trigger] v@[t].0 as nat, v@[t].1 as nat) == path_of(self.trees()[t], row@),
    {
        if self.tree_set.len() == 0 {
            return Err(ForestError::NotFitted);
        }
        if row.len() != self.n_features {
            return Err(ForestError::IndexOutOfRange);
        }
        let mut path: Vec<(usize, usize)> = Vec::new();
        let mut t: usize = 0;
        while t < self.tree_set.len()
            invariant
                self.wf(),
                row@.len() == self.width(),
                0 <= t <= self.trees().len(),
                path@.len() == t,
                forall|k: int| 0 <= k < t ==>
                    (#[trigger] path@[k].0 as nat, path@[k].1 as nat) == path_of(self.trees()[k], row@),
            decreases self.trees().len() - t,
        {
            assert(splits_within(self.trees()[t as int], self.width()));
            let result = Self::tree_path_length(&self.tree_set[t], row);
            path.push(result);
            t = t + 1;
        }
        Ok(path)
    }

    /// `path_lengths` for every row of `x`, in row order. Fails with
    /// `NotFitted` when the forest holds no tree, `EmptyInput` when `x` has
    /// no row, and `IndexOutOfRange` when its width is not the trained one.
    pub fn path_length_table(&self, x: &Matrix) -> (r: Result<Vec<Vec<(usize, usize)>>, ForestError>)
        requires
            self.wf(),
            x.wf(),
        ensures
            self.trees().len() == 0 <==> r == Err::<Vec<Vec<(usize, usize)>>, ForestError>(ForestError::NotFitted),
            self.trees().len() > 0 ==> (x@.len() == 0
                <==> r == Err::<Vec<Vec<(usize, usize)>>, ForestError>(ForestError::EmptyInput)),
            self.trees().len() > 0 && x@.len() > 0 ==> (x.width() != self.width()
                <==> r == Err::<Vec<Vec<(usize, usize)>>, ForestError>(ForestError::IndexOutOfRange)),
            r is Ok <==> self.trees().len() > 0 && x@.len() > 0 && x.width() == self.width(),
            r matches Ok(v) ==> v@.len() == x@.len()
                && forall|i: int| 0 <= i < v@.len() ==> (#[trigger] v@[i])@.len() == self.trees().len()
                && forall|i: int, t: int| 0 <= i < v@.len() && 0 <= t < self.trees().len() ==>
                    (#[trigger] v@[i]@[t].0 as nat, v@[i]@[t].1 as nat) == path_of(self.trees()[t], x@[i]),
    {
        if self.tree_set.len() == 0 {
            return Err(ForestError::NotFitted);
        }
        if x.nrows() == 0 {
            return Err(ForestError::EmptyInput);
        }
        if x.ncols() != self.n_features {
            return Err(ForestError::IndexOutOfRange);
        }
        let mut table: Vec<Vec<(usize, usize)>> = Vec::new();
        let mut i: usize = 0;
        while i < x.nrows()
            invariant
                self.wf(),
                self.trees().len() > 0,
                x.wf(),
                x.width() == self.width(),
                0 <= i <= x@.len(),
                table@.len() == i,
                forall|k: int| 0 <= k < i ==> (#[trigger] table@[k])@.len() == self.trees().len(),
                forall|k: int, t: int| 0 <= k < i && 0 <= t < self.trees().len() ==>
                    (#[trigger] table@[k]@[t].0 as nat, table@[k]@[t].1 as nat) == path_of(self.trees()[t], x@[k]),
            decreases x@.len() - i,
        {
            assert(x@[i as int].len() == x.width());
            match self.path_lengths(x.row(i)) {
                Ok(p) => {
                    table.push(p);
                },
                Err(e) => {
                    return Err(e);
                },
            }
            i = i + 1;
        }
        Ok(table)
    }
}

/// Writing a forest out as words and decoding them gives back its sample
/// size, tree count, width and trees; so every row walks the decoded trees
/// exactly as it walks the trees that were written.
pub proof fn lemma_forest_round_trip(f: &IsolationTreeEnsembleThread)
    requires
        f.wf(),
    ensures
        decoded(f.words()) == Some((f.samples(), f.tree_count(), f.width(), f.trees())),
{
    let s = f.words();
    let ts = f.trees();
    lemma_trees_round_trip(ts, Seq::empty());
    assert(s.subrange(4, s.len() as int) =~= trees_words(ts) + Seq::<i128>::empty());
}

/// Every walk through a trained tree visits between one node and one more
/// than the forest's depth limit.
pub proof fn lemma_traversal_depth_within_limit(f: &IsolationTreeEnsembleThread, t: int, row: Seq<i64>)
    requires
        f.wf(),
        0 <= t < f.trees().len(),
    ensures
        1 <= path_depth(f.trees()[t], row) <= f.height_limit() + 1,
{
    lemma_path_depth_bounds(f.trees()[t], row);
}

} // verus!
