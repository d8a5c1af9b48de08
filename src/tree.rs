//! Decision trees: the node type, evaluation, and growing one tree from a
//! subset of rows by Gini-impurity splits over randomly drawn features.
use vstd::prelude::*;
use crate::rng::{next_below, output, step};

verus! {

/// Subsets smaller than this become leaves.
pub const MIN_SPLIT: usize = 2;

/// A decision-tree node: a leaf holding a class, or a split that sends a row
/// left when `row[feature] <= threshold` and right otherwise.
#[derive(Debug, PartialEq, Eq)]
pub enum Node {
    Leaf { class: u64 },
    Split { feature: usize, threshold: u64, left: Box<Node>, right: Box<Node> },
}

/// One tree of a forest.
#[derive(Debug, PartialEq, Eq)]
pub struct Tree {
    pub root: Node,
}

/// Every split reads a feature below `width` and every leaf holds 0 or 1.
pub open spec fn node_wf(n: Node, width: nat) -> bool
    decreases n,
{
    match n {
        Node::Leaf { class } => class <= 1,
        Node::Split { feature, left, right, .. } => feature < width && node_wf(*left, width)
            && node_wf(*right, width),
    }
}

/// The class that `n` gives to `row`.
pub open spec fn eval(n: Node, row: Seq<u64>) -> u64
    decreases n,
{
    match n {
        Node::Leaf { class } => class,
        Node::Split { feature, threshold, left, right } => if row[feature as int] <= threshold {
            eval(*left, row)
        } else {
            eval(*right, row)
        },
    }
}

/// Classifies `row` with the tree under `node`.
pub fn classify(node: &Node, row: &Vec<u64>) -> (r: u64)
    requires
        node_wf(*node, row@.len()),
    ensures
        r == eval(*node, row@),
    decreases node,
{
    match node {
        Node::Leaf { class } => *class,
        Node::Split { feature, threshold, left, right } => {
            if row[*feature] <= *threshold {
                classify(left, row)
            } else {
                classify(right, row)
            }
        },
    }
}

/// The contents of the rows.
pub open spec fn matrix(rows: Seq<Vec<u64>>) -> Seq<Seq<u64>> {
    rows.map_values(|r: Vec<u64>| r@)
}

/// All rows have `width` features.
pub open spec fn rows_wf(rows: Seq<Seq<u64>>, width: nat) -> bool {
    forall|i: int| 0 <= i < rows.len() ==> (#[trigger] rows[i]).len() == width
}

/// Every index of `idx` names a row.
pub open spec fn indices_wf(idx: Seq<usize>, n: nat) -> bool {
    forall|j: int| 0 <= j < idx.len() ==> (#[trigger] idx[j]) < n
}

/// All labels are 0 or 1.
pub open spec fn labels_wf(labels: Seq<u64>) -> bool {
    forall|i: int| 0 <= i < labels.len() ==> #[trigger] labels[i] <= 1
}

/// How many rows of `idx` are labelled 1.
pub open spec fn ones(labels: Seq<u64>, idx: Seq<usize>) -> nat
    decreases idx.len(),
{
    if idx.len() == 0 {
        0
    } else {
        ones(labels, idx.drop_last()) + if labels[idx.last() as int] == 1 {
            1nat
        } else {
            0nat
        }
    }
}

/// The majority label of `idx`; a tie goes to 0.
pub open spec fn majority(labels: Seq<u64>, idx: Seq<usize>) -> u64 {
    if 2 * ones(labels, idx) > idx.len() {
        1
    } else {
        0
    }
}

/// All rows of `idx` carry the same label.
pub open spec fn is_pure(labels: Seq<u64>, idx: Seq<usize>) -> bool {
    ones(labels, idx) == 0 || ones(labels, idx) == idx.len()
}

/// The rows of `idx` whose feature `f` is at most `t`, in order.
pub open spec fn left_part(rows: Seq<Seq<u64>>, idx: Seq<usize>, f: usize, t: u64) -> Seq<usize>
    decreases idx.len(),
{
    if idx.len() == 0 {
        seq![]
    } else {
        let p = left_part(rows, idx.drop_last(), f, t);
        if rows[idx.last() as int][f as int] <= t {
            p.push(idx.last())
        } else {
            p
        }
    }
}

/// The rows of `idx` whose feature `f` is above `t`, in order.
pub open spec fn right_part(rows: Seq<Seq<u64>>, idx: Seq<usize>, f: usize, t: u64) -> Seq<usize>
    decreases idx.len(),
{
    if idx.len() == 0 {
        seq![]
    } else {
        let p = right_part(rows, idx.drop_last(), f, t);
        if rows[idx.last() as int][f as int] <= t {
            p
        } else {
            p.push(idx.last())
        }
    }
}

/// Gini impurity of a part with `n` rows of which `k` are labelled 1 is
/// `2k(n-k)/n^2`. The weighted impurity of a split, times `n/2`, is
/// `kl(nl-kl)/nl + kr(nr-kr)/nr`; this is its numerator over `nl * nr`.
pub open spec fn score_num(nl: int, kl: int, nr: int, kr: int) -> int {
    kl * (nl - kl) * nr + kr * (nr - kr) * nl
}

pub open spec fn score_den(nl: int, nr: int) -> int {
    nl * nr
}

pub open spec fn split_num(rows: Seq<Seq<u64>>, labels: Seq<u64>, idx: Seq<usize>, f: usize, t: u64) -> int {
    let l = left_part(rows, idx, f, t);
    let r = right_part(rows, idx, f, t);
    score_num(l.len() as int, ones(labels, l) as int, r.len() as int, ones(labels, r) as int)
}

pub open spec fn split_den(rows: Seq<Seq<u64>>, idx: Seq<usize>, f: usize, t: u64) -> int {
    score_den(left_part(rows, idx, f, t).len() as int, right_part(rows, idx, f, t).len() as int)
}

/// Both sides of the split are non-empty.
pub open spec fn proper(rows: Seq<Seq<u64>>, idx: Seq<usize>, f: usize, t: u64) -> bool {
    left_part(rows, idx, f, t).len() > 0 && right_part(rows, idx, f, t).len() > 0
}

/// Splitting on (f, t) is proper and scores strictly lower than `best`.
pub open spec fn beats(
    rows: Seq<Seq<u64>>,
    labels: Seq<u64>,
    idx: Seq<usize>,
    f: usize,
    t: u64,
    best: Option<(usize, u64)>,
) -> bool {
    proper(rows, idx, f, t) && match best {
        None => true,
        Some((bf, bt)) => split_num(rows, labels, idx, f, t) * split_den(rows, idx, bf, bt)
            < split_num(rows, labels, idx, bf, bt) * split_den(rows, idx, f, t),
    }
}

/// The best split after trying feature `f` with the thresholds taken from
/// the first `j` rows of `idx`, starting from `acc`; earlier candidates win ties.
pub open spec fn scan_feature(
    rows: Seq<Seq<u64>>,
    labels: Seq<u64>,
    idx: Seq<usize>,
    f: usize,
    j: nat,
    acc: Option<(usize, u64)>,
) -> Option<(usize, u64)>
    decreases j,
{
    if j == 0 {
        acc
    } else {
        let prev = scan_feature(rows, labels, idx, f, (j - 1) as nat, acc);
        let t = rows[idx[j - 1] as int][f as int];
        if beats(rows, labels, idx, f, t, prev) {
            Some((f, t))
        } else {
            prev
        }
    }
}

/// The best split over the candidate features `feats`, each tried with
/// every row value of `idx` as threshold.
pub open spec fn best_split(rows: Seq<Seq<u64>>, labels: Seq<u64>, idx: Seq<usize>, feats: Seq<usize>) -> Option<(usize, u64)>
    decreases feats.len(),
{
    if feats.len() == 0 {
        None
    } else {
        scan_feature(rows, labels, idx, feats.last(), idx.len(), best_split(rows, labels, idx, feats.drop_last()))
    }
}

/// The split (f, t) has lower weighted impurity than `idx` unsplit:
/// `num/den < k(n-k)/n` after scaling both by `n/2`.
pub open spec fn improves(rows: Seq<Seq<u64>>, labels: Seq<u64>, idx: Seq<usize>, f: usize, t: u64) -> bool {
    let n = idx.len() as int;
    let k = ones(labels, idx) as int;
    split_num(rows, labels, idx, f, t) * n < k * (n - k) * split_den(rows, idx, f, t)
}

/// `0, 1, ..., n-1`.
pub open spec fn identity(n: nat) -> Seq<usize> {
    Seq::new(n, |i: int| i as usize)
}

/// The first `k` steps of a Fisher-Yates shuffle of `p`, from state `s`:
/// step `i` swaps position `i` with a position drawn from `i..len`.
pub open spec fn partial_shuffle(p: Seq<usize>, k: nat, s: u64) -> (Seq<usize>, u64)
    decreases k,
{
    if k == 0 {
        (p, s)
    } else {
        let (q, s1) = partial_shuffle(p, (k - 1) as nat, s);
        let i = k - 1;
        let j = i + (output(s1) % ((p.len() - i) as u64)) as int;
        (q.update(i, q[j]).update(j, q[i]), step(s1))
    }
}

/// `m` distinct features drawn from `0..width`, and the state after.
pub open spec fn draw_features(width: nat, m: nat, s: u64) -> (Seq<usize>, u64) {
    let (p, s1) = partial_shuffle(identity(width), m, s);
    (p.take(m as int), s1)
}

/// The tree grown from the rows `idx` at `depth`, and the generator state after.
pub open spec fn grow(
    rows: Seq<Seq<u64>>,
    labels: Seq<u64>,
    idx: Seq<usize>,
    width: nat,
    m: nat,
    depth: nat,
    max_depth: nat,
    s: u64,
) -> (Node, u64)
    decreases max_depth - depth,
{
    let leaf = Node::Leaf { class: majority(labels, idx) };
    if depth >= max_depth || is_pure(labels, idx) || idx.len() < MIN_SPLIT {
        (leaf, s)
    } else {
        let (feats, s1) = draw_features(width, m, s);
        match best_split(rows, labels, idx, feats) {
            None => (leaf, s1),
            Some((f, t)) => if !improves(rows, labels, idx, f, t) {
                (leaf, s1)
            } else {
                let (l, s2) = grow(rows, labels, left_part(rows, idx, f, t), width, m, depth + 1, max_depth, s1);
                let (r, s3) = grow(rows, labels, right_part(rows, idx, f, t), width, m, depth + 1, max_depth, s2);
                (Node::Split { feature: f, threshold: t, left: Box::new(l), right: Box::new(r) }, s3)
            },
        }
    }
}


/// For `x = q1*y + r1` and `u = q2*v + r2` with remainders below their
/// divisors, the quotients order `x/y` against `u/v` unless they are equal,
/// and then the remainders do.
proof fn lemma_quotient_order(q1: int, r1: int, y: int, q2: int, r2: int, v: int)
    requires
        y > 0,
        v > 0,
        0 <= r1 < y,
        0 <= r2 < v,
    ensures
        q1 < q2 ==> (q1 * y + r1) * v < (q2 * v + r2) * y,
        q2 < q1 ==> (q2 * v + r2) * y < (q1 * y + r1) * v,
        q1 == q2 ==> ((q1 * y + r1) * v < (q2 * v + r2) * y <==> r1 * v < r2 * y),
{
    let p = y * v;
    assert(p > 0) by (nonlinear_arith)
        requires
            y > 0,
            v > 0,
            p == y * v,
    ;
    assert((q1 * y + r1) * v == q1 * p + r1 * v) by (nonlinear_arith)
        requires
            p == y * v,
    ;
    assert((q2 * v + r2) * y == q2 * p + r2 * y) by (nonlinear_arith)
        requires
            p == y * v,
    ;
    assert(0 <= r1 * v < p) by (nonlinear_arith)
        requires
            0 <= r1 < y,
            v > 0,
            p == y * v,
    ;
    assert(0 <= r2 * y < p) by (nonlinear_arith)
        requires
            0 <= r2 < v,
            y > 0,
            p == y * v,
    ;
    if q1 < q2 {
        assert(q1 * p + p <= q2 * p) by (nonlinear_arith)
            requires
                q1 + 1 <= q2,
                p > 0,
        ;
    }
    if q2 < q1 {
        assert(q2 * p + p <= q1 * p) by (nonlinear_arith)
            requires
                q2 + 1 <= q1,
                p > 0,
        ;
    }
}

proof fn lemma_div_parts(x: int, d: int)
    requires
        x >= 0,
        d > 0,
    ensures
        x == (x / d) * d + x % d,
        0 <= x % d < d,
        x / d >= 0,
{
    vstd::arithmetic::div_mod::lemma_fundamental_div_mod(x, d);
    vstd::arithmetic::div_mod::lemma_mod_pos_bound(x, d);
    vstd::arithmetic::div_mod::lemma_div_pos_is_pos(x, d);
    assert(d * (x / d) == (x / d) * d) by (nonlinear_arith);
}

/// Whether `x/y < u/v`, decided exactly without forming a product: compare
/// the integer parts, then the reciprocals of the remainders.
fn frac_lt(x: u128, y: u128, u: u128, v: u128) -> (r: bool)
    requires
        y > 0,
        v > 0,
    ensures
        r == (x * v < u * y),
    decreases y + v,
{
    let q1 = x / y;
    let r1 = x % y;
    let q2 = u / v;
    let r2 = u % v;
    proof {
        lemma_div_parts(x as int, y as int);
        lemma_div_parts(u as int, v as int);
        lemma_quotient_order(q1 as int, r1 as int, y as int, q2 as int, r2 as int, v as int);
    }
    if q1 != q2 {
        return q1 < q2;
    }
    proof {
        assert(x as int == q1 as int * y as int + r1 as int);
        assert(u as int == q2 as int * v as int + r2 as int);
        assert(x * v == (q1 * y + r1) * v);
        assert(u * y == (q2 * v + r2) * y);
    }
    if r2 == 0 {
        proof {
            assert(r1 * v >= 0) by (nonlinear_arith)
                requires
                    r1 >= 0,
                    v > 0,
            ;
            assert(r2 * y == 0) by (nonlinear_arith)
                requires
                    r2 == 0,
            ;
        }
        return false;
    }
    if r1 == 0 {
        proof {
            assert(r2 * y > 0) by (nonlinear_arith)
                requires
                    r2 > 0,
                    y > 0,
            ;
            assert(r1 * v == 0) by (nonlinear_arith)
                requires
                    r1 == 0,
            ;
        }
        return true;
    }
    let r = frac_lt(v, r2, y, r1);
    proof {
        assert(v * r1 == r1 * v && y * r2 == r2 * y) by (nonlinear_arith);
    }
    r
}

/// A non-negative fraction held as `q + a/b`, with `a < b`.
#[derive(Clone, Copy)]
struct Score {
    q: u128,
    a: u128,
    b: u128,
}

spec fn score_ok(s: Score) -> bool {
    s.b > 0 && s.a < s.b
}

/// The numerator of the fraction over `s.b`.
spec fn score_value(s: Score) -> int {
    s.q * s.b + s.a
}

/// Whether `s < t` as fractions.
fn score_lt(s: &Score, t: &Score) -> (r: bool)
    requires
        score_ok(*s),
        score_ok(*t),
    ensures
        r == (score_value(*s) * t.b < score_value(*t) * s.b),
{
    proof {
        lemma_quotient_order(s.q as int, s.a as int, s.b as int, t.q as int, t.a as int, t.b as int);
    }
    if s.q != t.q {
        s.q < t.q
    } else {
        frac_lt(s.a, s.b, t.a, t.b)
    }
}

/// `k(n-k)/n`, the Gini impurity of `n` rows with `k` labelled 1, times `n/2`.
fn parent_score(n: usize, k: usize) -> (r: Score)
    requires
        0 < n,
        k <= n,
    ensures
        score_ok(r),
        r.b == n,
        score_value(r) == k * (n - k),
{
    proof {
        assert(usize::MAX <= 0xFFFF_FFFF_FFFF_FFFFint);
        lemma_mul_le(k as int, (n - k) as int, 0xFFFF_FFFF_FFFF_FFFFint, 0xFFFF_FFFF_FFFF_FFFFint);
    }
    let t = (k as u128) * ((n - k) as u128);
    proof {
        lemma_div_parts(t as int, n as int);
    }
    Score { q: t / (n as u128), a: t % (n as u128), b: n as u128 }
}

proof fn lemma_mul_le(a: int, b: int, c: int, d: int)
    requires
        0 <= a <= c,
        0 <= b <= d,
    ensures
        a * b <= c * d,
        0 <= a * b,
{
    assert(a * b <= c * d && 0 <= a * b) by (nonlinear_arith)
        requires
            0 <= a <= c,
            0 <= b <= d,
    ;
}

/// `t/n` for one side of a split, `t = k(n-k)`: the quotient is at most `k`.
proof fn lemma_side_quotient(t: int, k: int, n: int, q: int, r: int)
    requires
        0 <= k <= n,
        n > 0,
        t == k * (n - k),
        t == q * n + r,
        0 <= r < n,
        q >= 0,
    ensures
        q <= k,
{
    assert(q * n <= k * n) by (nonlinear_arith)
        requires
            t == k * (n - k),
            t == q * n + r,
            0 <= r,
            0 <= k <= n,
    ;
    assert(q <= k) by (nonlinear_arith)
        requires
            q * n <= k * n,
            n > 0,
    ;
}

proof fn lemma_parts(rows: Seq<Seq<u64>>, idx: Seq<usize>, f: usize, t: u64, n: nat)
    requires
        indices_wf(idx, n),
    ensures
        left_part(rows, idx, f, t).len() + right_part(rows, idx, f, t).len() == idx.len(),
        indices_wf(left_part(rows, idx, f, t), n),
        indices_wf(right_part(rows, idx, f, t), n),
    decreases idx.len(),
{
    if idx.len() > 0 {
        let d = idx.drop_last();
        assert(indices_wf(d, n)) by {
            assert forall|j: int| 0 <= j < d.len() implies #[trigger] d[j] < n by {
                assert(d[j] == idx[j]);
            }
        }
        lemma_parts(rows, d, f, t, n);
        let x = idx.last();
        assert(x == idx[idx.len() - 1]);
        let l = left_part(rows, d, f, t);
        let r = right_part(rows, d, f, t);
        assert forall|j: int| 0 <= j < l.len() + 1 implies #[trigger] l.push(x)[j] < n by {
            if j < l.len() {
                assert(l.push(x)[j] == l[j]);
            }
        }
        assert forall|j: int| 0 <= j < r.len() + 1 implies #[trigger] r.push(x)[j] < n by {
            if j < r.len() {
                assert(r.push(x)[j] == r[j]);
            }
        }
    }
}

proof fn lemma_take_step<T>(s: Seq<T>, i: int)
    requires
        0 <= i < s.len(),
    ensures
        s.take(i + 1).drop_last() == s.take(i),
        s.take(i + 1).last() == s[i],
        s.take(i + 1).len() == i + 1,
{
    assert(s.take(i + 1).drop_last() =~= s.take(i));
}

proof fn lemma_ones_push(labels: Seq<u64>, p: Seq<usize>, x: usize)
    ensures
        ones(labels, p.push(x)) == ones(labels, p) + if labels[x as int] == 1 {
            1nat
        } else {
            0nat
        },
{
    assert(p.push(x).drop_last() =~= p);
}

/// Counts the rows of `idx` labelled 1.
pub fn count_ones(labels: &Vec<u64>, idx: &Vec<usize>) -> (r: usize)
    requires
        indices_wf(idx@, labels@.len()),
    ensures
        r == ones(labels@, idx@),
        r <= idx@.len(),
{
    let mut k: usize = 0;
    let mut i: usize = 0;
    while i < idx.len()
        invariant
            i <= idx@.len(),
            indices_wf(idx@, labels@.len()),
            k == ones(labels@, idx@.take(i as int)),
            k <= i,
        decreases idx@.len() - i,
    {
        let x = idx[i];
        proof {
            lemma_take_step(idx@, i as int);
        }
        if labels[x] == 1 {
            k = k + 1;
        }
        i = i + 1;
    }
    proof {
        assert(idx@.take(idx@.len() as int) =~= idx@);
    }
    k
}

/// Sizes and label-1 counts of both sides of the split (f, t) of `idx`.
fn count_split(rows: &Vec<Vec<u64>>, labels: &Vec<u64>, idx: &Vec<usize>, width: usize, f: usize, t: u64) -> (r: (
    usize,
    usize,
    usize,
    usize,
))
    requires
        rows_wf(matrix(rows@), width as nat),
        labels@.len() == matrix(rows@).len(),
        indices_wf(idx@, matrix(rows@).len()),
        f < width,
    ensures
        r.0 == left_part(matrix(rows@), idx@, f, t).len(),
        r.1 == ones(labels@, left_part(matrix(rows@), idx@, f, t)),
        r.2 == right_part(matrix(rows@), idx@, f, t).len(),
        r.3 == ones(labels@, right_part(matrix(rows@), idx@, f, t)),
        r.1 <= r.0,
        r.3 <= r.2,
        r.0 + r.2 == idx@.len(),
{
    let mut nl: usize = 0;
    let mut kl: usize = 0;
    let mut nr: usize = 0;
    let mut kr: usize = 0;
    let mut i: usize = 0;
    while i < idx.len()
        invariant
            i <= idx@.len(),
            rows_wf(matrix(rows@), width as nat),
            labels@.len() == matrix(rows@).len(),
            indices_wf(idx@, matrix(rows@).len()),
            f < width,
            nl == left_part(matrix(rows@), idx@.take(i as int), f, t).len(),
            kl == ones(labels@, left_part(matrix(rows@), idx@.take(i as int), f, t)),
            nr == right_part(matrix(rows@), idx@.take(i as int), f, t).len(),
            kr == ones(labels@, right_part(matrix(rows@), idx@.take(i as int), f, t)),
            kl <= nl,
            kr <= nr,
            nl + nr == i,
        decreases idx@.len() - i,
    {
        let x = idx[i];
        proof {
            lemma_take_step(idx@, i as int);
            lemma_ones_push(labels@, left_part(matrix(rows@), idx@.take(i as int), f, t), x);
            lemma_ones_push(labels@, right_part(matrix(rows@), idx@.take(i as int), f, t), x);
            assert(matrix(rows@)[x as int].len() == width);
        }
        if rows[x][f] <= t {
            nl = nl + 1;
            if labels[x] == 1 {
                kl = kl + 1;
            }
        } else {
            nr = nr + 1;
            if labels[x] == 1 {
                kr = kr + 1;
            }
        }
        i = i + 1;
    }
    proof {
        assert(idx@.take(idx@.len() as int) =~= idx@);
    }
    (nl, kl, nr, kr)
}

/// Splits `idx` into the rows going left and right at (f, t), keeping order.
fn partition(rows: &Vec<Vec<u64>>, idx: &Vec<usize>, width: usize, f: usize, t: u64) -> (r: (Vec<usize>, Vec<usize>))
    requires
        rows_wf(matrix(rows@), width as nat),
        indices_wf(idx@, matrix(rows@).len()),
        f < width,
    ensures
        r.0@ == left_part(matrix(rows@), idx@, f, t),
        r.1@ == right_part(matrix(rows@), idx@, f, t),
{
    let mut l: Vec<usize> = Vec::new();
    let mut r: Vec<usize> = Vec::new();
    let mut i: usize = 0;
    while i < idx.len()
        invariant
            i <= idx@.len(),
            rows_wf(matrix(rows@), width as nat),
            indices_wf(idx@, matrix(rows@).len()),
            f < width,
            l@ == left_part(matrix(rows@), idx@.take(i as int), f, t),
            r@ == right_part(matrix(rows@), idx@.take(i as int), f, t),
        decreases idx@.len() - i,
    {
        let x = idx[i];
        proof {
            lemma_take_step(idx@, i as int);
            assert(matrix(rows@)[x as int].len() == width);
        }
        if rows[x][f] <= t {
            l.push(x);
        } else {
            r.push(x);
        }
        i = i + 1;
    }
    proof {
        assert(idx@.take(idx@.len() as int) =~= idx@);
    }
    (l, r)
}


/// The weighted Gini score of a proper split, as a fraction over `nl * nr`.
fn score(nl: usize, kl: usize, nr: usize, kr: usize) -> (r: Score)
    requires
        0 < nl,
        0 < nr,
        kl <= nl,
        kr <= nr,
        nl + nr <= usize::MAX,
    ensures
        score_ok(r),
        score_value(r) == score_num(nl as int, kl as int, nr as int, kr as int),
        r.b == score_den(nl as int, nr as int),
{
    let ghost m = 0xFFFF_FFFF_FFFF_FFFFint;
    assert(usize::MAX <= m);
    proof {
        lemma_mul_le(kl as int, (nl - kl) as int, m, m);
        lemma_mul_le(kr as int, (nr - kr) as int, m, m);
    }
    let tl = (kl as u128) * ((nl - kl) as u128);
    let tr = (kr as u128) * ((nr - kr) as u128);
    let ql = tl / (nl as u128);
    let rl = tl % (nl as u128);
    let qr = tr / (nr as u128);
    let rr = tr % (nr as u128);
    let ghost (a, b, c, d) = (nl as int, nr as int, kl as int, kr as int);
    proof {
        lemma_div_parts(tl as int, a);
        lemma_div_parts(tr as int, b);
        lemma_side_quotient(tl as int, c, a, ql as int, rl as int);
        lemma_side_quotient(tr as int, d, b, qr as int, rr as int);
        // 4ab <= (a+b)^2 < 2^128, so ab < 2^126
        assert(4 * (a * b) <= (a + b) * (a + b)) by (nonlinear_arith);
        lemma_mul_le(a + b, a + b, m, m);
        assert(rl * b <= a * b) by (nonlinear_arith)
            requires
                0 <= rl < a,
                b > 0,
        ;
        assert(rr * a <= a * b) by (nonlinear_arith)
            requires
                0 <= rr < b,
                a > 0,
        ;
        assert(rl * b < a * b || rr * a < a * b) by (nonlinear_arith)
            requires
                0 <= rl < a,
                b > 0,
        ;
        assert(0 <= rl * b && 0 <= rr * a) by (nonlinear_arith)
            requires
                0 <= rl,
                0 <= rr,
                a > 0,
                b > 0,
        ;
        assert(score_num(a, c, b, d) == (ql + qr) * (a * b) + (rl * b + rr * a)) by (nonlinear_arith)
            requires
                tl == c * (a - c),
                tr == d * (b - d),
                tl == ql * a + rl,
                tr == qr * b + rr,
        ;
    }
    let den = (nl as u128) * (nr as u128);
    let frac = rl * (nr as u128) + rr * (nl as u128);
    let q = ql + qr;
    if frac >= den {
        proof {
            assert((q + 1) * den + (frac - den) == q * den + frac) by (nonlinear_arith);
        }
        Score { q: q + 1, a: frac - den, b: den }
    } else {
        Score { q, a: frac, b: den }
    }
}

/// Draws `m` distinct features from `0..width` by a partial Fisher-Yates shuffle.
pub fn draw_feature_set(width: usize, m: usize, state: &mut u64) -> (r: Vec<usize>)
    requires
        1 <= m <= width,
    ensures
        (r@, *final(state)) == draw_features(width as nat, m as nat, *old(state)),
        r@.len() == m,
        forall|k: int| 0 <= k < r@.len() ==> #[trigger] r@[k] < width,
{
    let mut p: Vec<usize> = Vec::new();
    let mut i: usize = 0;
    while i < width
        invariant
            i <= width,
            p@ =~= identity(i as nat),
        decreases width - i,
    {
        p.push(i);
        i = i + 1;
    }
    let ghost s0 = *state;
    let mut i: usize = 0;
    while i < m
        invariant
            i <= m <= width,
            p@.len() == width,
            identity(width as nat).len() == width,
            (p@, *state) == partial_shuffle(identity(width as nat), i as nat, s0),
            forall|k: int| 0 <= k < p@.len() ==> #[trigger] p@[k] < width,
        decreases m - i,
    {
        let r = next_below(state, (width - i) as u64);
        let j = i + r as usize;
        let a = p[i];
        let b = p[j];
        p.set(i, b);
        p.set(j, a);
        i = i + 1;
    }
    p.truncate(m);
    p
}

/// A candidate split with its score, or nothing yet.
type Best = Option<(usize, u64, Score)>;

spec fn best_view(b: Best) -> Option<(usize, u64)> {
    match b {
        None => None,
        Some((f, t, _)) => Some((f, t)),
    }
}

spec fn best_ok(rows: Seq<Seq<u64>>, labels: Seq<u64>, idx: Seq<usize>, width: nat, b: Best) -> bool {
    match b {
        None => true,
        Some((f, t, sc)) => f < width && score_value(sc) == split_num(rows, labels, idx, f, t) && sc.b
            == split_den(rows, idx, f, t) && score_ok(sc) && proper(rows, idx, f, t),
    }
}

/// The best split of `idx` over the features `feats`.
fn find_best_split(rows: &Vec<Vec<u64>>, labels: &Vec<u64>, idx: &Vec<usize>, width: usize, feats: &Vec<usize>) -> (r: Best)
    requires
        rows_wf(matrix(rows@), width as nat),
        labels@.len() == matrix(rows@).len(),
        indices_wf(idx@, matrix(rows@).len()),
        forall|k: int| 0 <= k < feats@.len() ==> #[trigger] feats@[k] < width,
    ensures
        best_view(r) == best_split(matrix(rows@), labels@, idx@, feats@),
        best_ok(matrix(rows@), labels@, idx@, width as nat, r),
{
    let mut best: Best = None;
    let mut q: usize = 0;
    while q < feats.len()
        invariant
            q <= feats@.len(),
            rows_wf(matrix(rows@), width as nat),
            labels@.len() == matrix(rows@).len(),
            indices_wf(idx@, matrix(rows@).len()),
                forall|k: int| 0 <= k < feats@.len() ==> #[trigger] feats@[k] < width,
            best_view(best) == best_split(matrix(rows@), labels@, idx@, feats@.take(q as int)),
            best_ok(matrix(rows@), labels@, idx@, width as nat, best),
        decreases feats@.len() - q,
    {
        let f = feats[q];
        proof {
            lemma_take_step(feats@, q as int);
        }
        let ghost acc = best_view(best);
        let mut j: usize = 0;
        while j < idx.len()
            invariant
                j <= idx@.len(),
                rows_wf(matrix(rows@), width as nat),
                labels@.len() == matrix(rows@).len(),
                indices_wf(idx@, matrix(rows@).len()),
                        f < width,
                best_view(best) == scan_feature(matrix(rows@), labels@, idx@, f, j as nat, acc),
                best_ok(matrix(rows@), labels@, idx@, width as nat, best),
            decreases idx@.len() - j,
        {
            let x = idx[j];
            proof {
                assert(matrix(rows@)[x as int].len() == width);
            }
            let t = rows[x][f];
            let (nl, kl, nr, kr) = count_split(rows, labels, idx, width, f, t);
            if nl > 0 && nr > 0 {
                let sc = score(nl, kl, nr, kr);
                let better = match &best {
                    None => true,
                    Some((_, _, bs)) => score_lt(&sc, bs),
                };
                if better {
                    best = Some((f, t, sc));
                }
            }
            j = j + 1;
        }
        q = q + 1;
    }
    proof {
        assert(feats@.take(feats@.len() as int) =~= feats@);
    }
    best
}

/// Grows the tree for the rows `idx` at `depth`, drawing from `state`.
pub fn grow_tree(
    rows: &Vec<Vec<u64>>,
    labels: &Vec<u64>,
    idx: Vec<usize>,
    width: usize,
    m: usize,
    depth: u32,
    max_depth: u32,
    state: &mut u64,
) -> (r: Node)
    requires
        rows_wf(matrix(rows@), width as nat),
        labels@.len() == matrix(rows@).len(),
        indices_wf(idx@, matrix(rows@).len()),
        1 <= m <= width,
        depth <= max_depth,
    ensures
        (r, *final(state)) == grow(matrix(rows@), labels@, idx@, width as nat, m as nat, depth as nat, max_depth as nat, *old(state)),
        node_wf(r, width as nat),
    decreases max_depth - depth,
{
    let n = idx.len();
    let k = count_ones(labels, &idx);
    let class: u64 = if k > n - k {
        1
    } else {
        0
    };
    if depth >= max_depth || k == 0 || k == n || n < MIN_SPLIT {
        return Node::Leaf { class };
    }
    let feats = draw_feature_set(width, m, state);
    let best = find_best_split(rows, labels, &idx, width, &feats);
    match best {
        None => Node::Leaf { class },
        Some((f, t, sc)) => {
            let parent = parent_score(n, k);
            if !score_lt(&sc, &parent) {
                Node::Leaf { class }
            } else {
                let (li, ri) = partition(rows, &idx, width, f, t);
                proof {
                    lemma_parts(matrix(rows@), idx@, f, t, matrix(rows@).len());
                }
                let l = grow_tree(rows, labels, li, width, m, depth + 1, max_depth, state);
                let r = grow_tree(rows, labels, ri, width, m, depth + 1, max_depth, state);
                Node::Split { feature: f, threshold: t, left: Box::new(l), right: Box::new(r) }
            }
        },
    }
}


proof fn lemma_ones_constant(labels: Seq<u64>, idx: Seq<usize>, c: u64)
    requires
        c <= 1,
        forall|j: int| 0 <= j < idx.len() ==> labels[#[trigger] idx[j] as int] == c,
    ensures
        ones(labels, idx) == if c == 1 {
            idx.len()
        } else {
            0
        },
    decreases idx.len(),
{
    if idx.len() > 0 {
        let d = idx.drop_last();
        assert forall|j: int| 0 <= j < d.len() implies labels[#[trigger] d[j] as int] == c by {
            assert(d[j] == idx[j]);
        }
        lemma_ones_constant(labels, d, c);
        assert(labels[idx[idx.len() - 1] as int] == c);
    }
}

/// A subset whose rows all carry the same label becomes a leaf holding that
/// label at once, whatever depth budget is left, and draws nothing from the
/// generator.
pub proof fn lemma_pure_subset_is_leaf(
    rows: Seq<Seq<u64>>,
    labels: Seq<u64>,
    idx: Seq<usize>,
    width: nat,
    m: nat,
    depth: nat,
    max_depth: nat,
    s: u64,
)
    requires
        labels_wf(labels),
        indices_wf(idx, labels.len()),
        idx.len() > 0,
        forall|j: int| 0 <= j < idx.len() ==> labels[#[trigger] idx[j] as int] == labels[idx[0] as int],
    ensures
        grow(rows, labels, idx, width, m, depth, max_depth, s) == (Node::Leaf { class: labels[idx[0] as int] }, s),
{
    let c = labels[idx[0] as int];
    assert(c <= 1);
    lemma_ones_constant(labels, idx, c);
}

} // verus!
