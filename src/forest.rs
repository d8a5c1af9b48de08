//! Training a forest of trees on bootstrap resamples, and prediction by
//! majority vote.
use vstd::prelude::*;
use crate::dataset::Dataset;
use crate::error::ForestError;
use crate::rng::{next_below, output, step, stream_seed, stream_start};
use crate::tree::{
    classify, eval, grow, grow_tree, indices_wf, matrix, node_wf, rows_wf, Node, Tree,
};

verus! {

/// Hyperparameters of training.
#[derive(Debug, Clone, Copy, PartialEq, Eq, Structural)]
pub struct ForestConfig {
    pub tree_count: u32,
    pub features_per_split: u32,
    pub max_depth: u32,
    pub seed: u64,
}

/// At least one tree, between one and `width` features per split, and a
/// depth budget of at least one.
pub open spec fn config_valid(c: ForestConfig, width: nat) -> bool {
    c.tree_count >= 1 && 1 <= c.features_per_split <= width && c.max_depth >= 1
}

/// `k` row indices drawn uniformly with replacement from `0..n`, and the state after.
pub open spec fn bootstrap(n: nat, k: nat, s: u64) -> (Seq<usize>, u64)
    decreases k,
{
    if k == 0 {
        (seq![], s)
    } else {
        let (p, s1) = bootstrap(n, (k - 1) as nat, s);
        (p.push((output(s1) % (n as u64)) as usize), step(s1))
    }
}

/// Tree `t` of the forest: grown from a resample of the rows as large as the
/// data, on the stream that `t` and the seed select.
pub open spec fn trained_tree(rows: Seq<Seq<u64>>, labels: Seq<u64>, width: nat, c: ForestConfig, t: nat) -> Node {
    let n = rows.len();
    let (idx, s) = bootstrap(n, n, stream_seed(c.seed, t as u64));
    grow(rows, labels, idx, width, c.features_per_split as nat, 0, c.max_depth as nat, s).0
}

pub open spec fn trained_trees(rows: Seq<Seq<u64>>, labels: Seq<u64>, width: nat, c: ForestConfig) -> Seq<Tree> {
    Seq::new(c.tree_count as nat, |t: int| Tree { root: trained_tree(rows, labels, width, c, t as nat) })
}

/// What training `d` under `c` gives: the trees, or the error.
pub open spec fn train_outcome(d: Dataset, c: ForestConfig) -> Result<Seq<Tree>, ForestError> {
    if !config_valid(c, d.width()) || d.labels() is None {
        Err(ForestError::Configuration)
    } else if d.rows().len() == 0 {
        Err(ForestError::EmptyDataset)
    } else {
        Ok(trained_trees(d.rows(), d.labels()->0, d.width(), c))
    }
}

/// An ordered sequence of trees over rows of `width` features.
pub struct Forest {
    width: usize,
    trees: Vec<Tree>,
}

pub open spec fn trees_wf(trees: Seq<Tree>, width: nat) -> bool {
    forall|i: int| 0 <= i < trees.len() ==> node_wf(#[trigger] trees[i].root, width)
}

pub open spec fn forest_view(r: Result<Forest, ForestError>) -> Result<Seq<Tree>, ForestError> {
    match r {
        Ok(f) => Ok(f.trees()),
        Err(e) => Err(e),
    }
}

/// How many trees classify `row` as 1.
pub open spec fn votes_for_one(trees: Seq<Tree>, row: Seq<u64>) -> nat
    decreases trees.len(),
{
    if trees.len() == 0 {
        0
    } else {
        votes_for_one(trees.drop_last(), row) + if eval(trees.last().root, row) == 1 {
            1nat
        } else {
            0nat
        }
    }
}

/// The majority vote of `trees` on `row`; a tie goes to 0.
pub open spec fn vote(trees: Seq<Tree>, row: Seq<u64>) -> u64 {
    if 2 * votes_for_one(trees, row) > trees.len() {
        1
    } else {
        0
    }
}

fn node_is_wf(n: &Node, width: usize) -> (r: bool)
    ensures
        r == node_wf(*n, width as nat),
    decreases n,
{
    match n {
        Node::Leaf { class } => *class <= 1,
        Node::Split { feature, left, right, .. } => *feature < width && node_is_wf(left, width)
            && node_is_wf(right, width),
    }
}

impl Forest {
    /// Number of features of the rows the forest classifies.
    pub closed spec fn width(&self) -> nat {
        self.width as nat
    }

    pub closed spec fn trees(&self) -> Seq<Tree> {
        self.trees@
    }

    pub open spec fn wf(&self) -> bool {
        trees_wf(self.trees(), self.width())
    }

    /// A forest of hand-built trees. A split on a feature at or above
    /// `width`, or a leaf class other than 0 or 1, is a configuration error.
    pub fn new(width: usize, trees: Vec<Tree>) -> (r: Result<Forest, ForestError>)
        ensures
            trees_wf(trees@, width as nat) ==> (r matches Ok(f) && f.wf() && f.width() == width
                && f.trees() == trees@),
            !trees_wf(trees@, width as nat) ==> r == Err::<Forest, ForestError>(ForestError::Configuration),
    {
        let mut i: usize = 0;
        while i < trees.len()
            invariant
                i <= trees@.len(),
                forall|j: int| 0 <= j < i ==> node_wf(#[trigger] trees@[j].root, width as nat),
            decreases trees@.len() - i,
        {
            if !node_is_wf(&trees[i].root, width) {
                return Err(ForestError::Configuration);
            }
            i = i + 1;
        }
        Ok(Forest { width, trees })
    }

    /// Number of features of the rows the forest classifies.
    pub fn feature_count(&self) -> (r: usize)
        ensures
            r == self.width(),
    {
        self.width
    }

    pub fn tree_count(&self) -> (r: usize)
        ensures
            r == self.trees().len(),
    {
        self.trees.len()
    }

    pub fn tree_values(&self) -> (r: &Vec<Tree>)
        ensures
            r@ == self.trees(),
    {
        &self.trees
    }
}

/// Draws a resample of `n` row indices with replacement.
pub fn bootstrap_sample(n: usize, state: &mut u64) -> (r: Vec<usize>)
    requires
        n > 0,
    ensures
        (r@, *final(state)) == bootstrap(n as nat, n as nat, *old(state)),
        indices_wf(r@, n as nat),
        r@.len() == n,
{
    let ghost s0 = *state;
    let mut r: Vec<usize> = Vec::new();
    let mut i: usize = 0;
    while i < n
        invariant
            i <= n,
            r@.len() == i,
            (r@, *state) == bootstrap(n as nat, i as nat, s0),
            indices_wf(r@, n as nat),
        decreases n - i,
    {
        let x = next_below(state, n as u64);
        r.push(x as usize);
        i = i + 1;
    }
    r
}

/// Grows one tree on the rows `idx` of `dataset`, with `m` features drawn
/// at random for each split and at most `max_depth` levels of splits. Asking
/// for no features, for more features than the rows have, or growing on a
/// dataset without labels, is a configuration error and draws nothing.
pub fn build_tree(dataset: &Dataset, idx: Vec<usize>, m: usize, max_depth: u32, state: &mut u64) -> (r: Result<Node, ForestError>)
    requires
        dataset.wf(),
        indices_wf(idx@, dataset.rows().len()),
    ensures
        m < 1 || m > dataset.width() || dataset.labels() is None ==> r == Err::<Node, ForestError>(
            ForestError::Configuration,
        ) && *final(state) == *old(state),
        1 <= m <= dataset.width() && dataset.labels() is Some ==> ({
            let g = grow(
                dataset.rows(),
                dataset.labels()->0,
                idx@,
                dataset.width(),
                m as nat,
                0,
                max_depth as nat,
                *old(state),
            );
            r == Ok::<Node, ForestError>(g.0) && *final(state) == g.1
        }),
{
    let width = dataset.feature_count();
    if m < 1 || m > width {
        return Err(ForestError::Configuration);
    }
    match dataset.label_values() {
        Some(labels) => Ok(grow_tree(dataset.row_values(), labels, idx, width, m, 0, max_depth, state)),
        None => Err(ForestError::Configuration),
    }
}

/// Trains a forest. Invalid hyperparameters, or data without labels, are a
/// configuration error raised before any tree is built; data without rows is
/// an empty-dataset error. Each tree draws from its own stream, so the result
/// depends on the data, the configuration and the seed alone.
pub fn train(dataset: &Dataset, config: ForestConfig) -> (r: Result<Forest, ForestError>)
    requires
        dataset.wf(),
    ensures
        forest_view(r) == train_outcome(*dataset, config),
        !config_valid(config, dataset.width()) ==> r == Err::<Forest, ForestError>(ForestError::Configuration),
        r matches Ok(f) ==> f.wf() && f.width() == dataset.width() && f.trees().len() == config.tree_count,
{
    let width = dataset.feature_count();
    if config.tree_count < 1 || config.features_per_split < 1 || config.features_per_split as usize > width
        || config.max_depth < 1 {
        return Err(ForestError::Configuration);
    }
    let labels = match dataset.label_values() {
        Some(l) => l,
        None => {
            return Err(ForestError::Configuration);
        },
    };
    let n = dataset.row_count();
    if n == 0 {
        return Err(ForestError::EmptyDataset);
    }
    let rows = dataset.row_values();
    let m = config.features_per_split as usize;
    let ghost lv = labels@;
    let mut trees: Vec<Tree> = Vec::new();
    let mut t: u32 = 0;
    while t < config.tree_count
        invariant
            t <= config.tree_count,
            config_valid(config, width as nat),
            width == dataset.width(),
            matrix(rows@) == dataset.rows(),
            Some(lv) == dataset.labels(),
            lv == labels@,
            n == rows@.len(),
            0 < n,
            m == config.features_per_split,
            rows_wf(matrix(rows@), width as nat),
            labels@.len() == n,
            trees@.len() == t,
            forall|i: int| 0 <= i < t ==> #[trigger] trees@[i] == (Tree {
                root: trained_tree(matrix(rows@), lv, width as nat, config, i as nat),
            }),
            trees_wf(trees@, width as nat),
        decreases config.tree_count - t,
    {
        let mut state = stream_start(config.seed, t as u64);
        let idx = bootstrap_sample(n, &mut state);
        let root = grow_tree(rows, labels, idx, width, m, 0, config.max_depth, &mut state);
        trees.push(Tree { root });
        t = t + 1;
    }
    proof {
        assert(trees@ =~= trained_trees(matrix(rows@), lv, width as nat, config));
    }
    Ok(Forest { width, trees })
}

/// The majority vote of `trees` on `row`.
fn vote_row(trees: &Vec<Tree>, width: usize, row: &Vec<u64>) -> (r: u64)
    requires
        trees_wf(trees@, width as nat),
        row@.len() == width,
    ensures
        r == vote(trees@, row@),
{
    let mut ones: usize = 0;
    let mut i: usize = 0;
    while i < trees.len()
        invariant
            i <= trees@.len(),
            trees_wf(trees@, width as nat),
            row@.len() == width,
            ones == votes_for_one(trees@.take(i as int), row@),
            ones <= i,
        decreases trees@.len() - i,
    {
        proof {
            assert(trees@.take(i + 1).drop_last() =~= trees@.take(i as int));
            assert(trees@.take(i + 1).last() == trees@[i as int]);
        }
        if classify(&trees[i].root, row) == 1 {
            ones = ones + 1;
        }
        i = i + 1;
    }
    proof {
        assert(trees@.take(trees@.len() as int) =~= trees@);
    }
    if 2 * (ones as u128) > trees.len() as u128 {
        1
    } else {
        0
    }
}

/// Classifies every row of `dataset` by majority vote of the forest's trees,
/// in row order. An empty forest is a configuration error; rows of another
/// feature count than the forest's are a shape mismatch.
pub fn predict(forest: &Forest, dataset: &Dataset) -> (r: Result<Vec<u64>, ForestError>)
    requires
        forest.wf(),
        dataset.wf(),
    ensures
        forest.trees().len() == 0 ==> r == Err::<Vec<u64>, ForestError>(ForestError::Configuration),
        forest.trees().len() > 0 && dataset.width() != forest.width() ==> r == Err::<Vec<u64>, ForestError>(
            ForestError::ShapeMismatch {
                expected: forest.width() as usize,
                found: dataset.width() as usize,
            },
        ),
        forest.trees().len() > 0 && dataset.width() == forest.width() ==> (r matches Ok(p)
            && p@.len() == dataset.rows().len() && forall|i: int|
            0 <= i < p@.len() ==> #[trigger] p@[i] == vote(forest.trees(), dataset.rows()[i])),
{
    let trees = forest.tree_values();
    let width = forest.feature_count();
    if trees.len() == 0 {
        return Err(ForestError::Configuration);
    }
    if dataset.feature_count() != width {
        return Err(ForestError::ShapeMismatch { expected: width, found: dataset.feature_count() });
    }
    let rows = dataset.row_values();
    let mut out: Vec<u64> = Vec::new();
    let mut i: usize = 0;
    while i < rows.len()
        invariant
            i <= rows@.len(),
            matrix(rows@) == dataset.rows(),
            trees@ == forest.trees(),
            rows_wf(matrix(rows@), width as nat),
            trees_wf(trees@, width as nat),
            out@.len() == i,
            forall|j: int| 0 <= j < i ==> #[trigger] out@[j] == vote(trees@, matrix(rows@)[j]),
        decreases rows@.len() - i,
    {
        proof {
            assert(matrix(rows@)[i as int].len() == width);
        }
        let v = vote_row(trees, width, &rows[i]);
        out.push(v);
        i = i + 1;
    }
    Ok(out)
}

/// Training is a function of its inputs: datasets with the same contents
/// and the same configuration (seed included) give the same outcome, split
/// for split and leaf for leaf.
pub proof fn lemma_training_is_deterministic(a: Dataset, b: Dataset, config: ForestConfig)
    requires
        a.wf(),
        b.wf(),
        a.width() == b.width(),
        a.rows() == b.rows(),
        a.labels() == b.labels(),
    ensures
        train_outcome(a, config) == train_outcome(b, config),
{
}

} // verus!
