//! The SED lower bound: bounded string edit distance of two traversals.

use vstd::prelude::*;

use crate::base::{
    lemma_nonempty_within_prefix, lemma_nonempty_within_suffix, lemma_nonempty_within_trees, nonempty_within, AlgorithmFactory, LowerBoundMethod,
    TraversalKind, TraversalSelection,
};
use crate::index_gram::{accepted, index_of, lengths_sorted, posted, postings_sorted, strings_view, IndexGram};
use crate::edit_distance::{
    edit_distance, lemma_edit_distance_self, lemma_edit_distance_symmetric,
    lemma_prefix_distance_bound,
    lemma_prefix_distance_shrink, lemma_prefix_distance_steps, max_int, min_int, prefix_distance,
};
use crate::tree::{
    copy_vec, lemma_traversal_len, reversed, traversal, traverse, tree_size, trees_view,
    ParsedTree, SpecTree, TreeNode, preorder, postorder,
};

verus! {

/// The two selected traversal label sequences of a tree and its size.
#[derive(Debug, Clone)]
pub struct SEDIndex {
    pub first_traversal: Vec<i32>,
    pub second_traversal: Vec<i32>,
    pub tree_size: usize,
}

/// Parameters of the q-gram index.
#[derive(Debug, Clone)]
pub struct IndexParams {
    /// q-gram size.
    pub q: usize,
}

/// The SED algorithm with its selected pair of traversals.
pub struct SedAlgorithm {
    pub traversal_selection: TraversalSelection,
}

impl SedAlgorithm {
    /// An algorithm over the traversals `first` and `second`.
    pub fn new(first: TraversalKind, second: TraversalKind) -> (r: Self)
        ensures
            r.traversal_selection == (TraversalSelection { first, second }),
    {
        SedAlgorithm { traversal_selection: TraversalSelection { first, second } }
    }

    /// An algorithm over the given selection.
    pub fn with_selection(traversal_selection: TraversalSelection) -> (r: Self)
        ensures
            r.traversal_selection == traversal_selection,
    {
        SedAlgorithm { traversal_selection }
    }

    /// The default selection: preorder first, postorder second.
    pub fn default() -> (r: Self)
        ensures
            r.traversal_selection == TraversalSelection::spec_default(),
    {
        SedAlgorithm { traversal_selection: TraversalSelection::default() }
    }
}

/// The SED bound at threshold `k`: `k + 1` when the sizes differ by more
/// than `k`; else `usize::MAX` when the edit distance of either pair of
/// traversals exceeds `k`; else the larger of the two edit distances.
pub open spec fn sed_value(q: SEDIndex, d: SEDIndex, k: usize) -> int {
    let first = edit_distance(q.first_traversal@, d.first_traversal@);
    let second = edit_distance(q.second_traversal@, d.second_traversal@);
    if size_gap(q.tree_size, d.tree_size) > k {
        k + 1
    } else if first > k || second > k {
        usize::MAX as int
    } else {
        max_int(first as int, second as int)
    }
}

/// The SED bound does not depend on which tree is the query.
pub proof fn lemma_sed_symmetric(q: SEDIndex, d: SEDIndex, k: usize)
    ensures
        sed_value(q, d, k) == sed_value(d, q, k),
{
    lemma_edit_distance_symmetric(q.first_traversal@, d.first_traversal@);
    lemma_edit_distance_symmetric(q.second_traversal@, d.second_traversal@);
}

/// A tree's SED bound against itself is zero at every threshold.
pub proof fn lemma_sed_self(t: SEDIndex, k: usize)
    ensures
        sed_value(t, t, k) == 0,
{
    lemma_edit_distance_self(t.first_traversal@);
    lemma_edit_distance_self(t.second_traversal@);
}

impl LowerBoundMethod for SedAlgorithm {
    type PreprocessedDataType = SEDIndex;

    open spec fn accepts(&self, data: Seq<Option<SpecTree>>) -> bool {
        nonempty_within(data, i32::MAX as int)
    }

    proof fn lemma_accepts_prefix(&self, a: Seq<Option<SpecTree>>, b: Seq<Option<SpecTree>>) {
        lemma_nonempty_within_prefix(a, b, i32::MAX as int);
    }

    open spec fn describes(&self, p: SEDIndex, tree: ParsedTree) -> bool {
        p.is_index_of(tree, self.traversal_selection)
    }

    open spec fn prepared(&self, p: SEDIndex) -> bool {
        p.fits()
    }

    open spec fn supports(&self, query: SEDIndex, data: SEDIndex, threshold: usize) -> bool {
        threshold < usize::MAX
    }

    open spec fn bound_holds(&self, query: SEDIndex, data: SEDIndex, threshold: usize, r: usize) -> bool {
        r == sed_value(query, data, threshold)
    }

    /// Preprocesses every tree of `data`.
    fn preprocess(&mut self, data: &[ParsedTree]) -> (r: Result<Vec<SEDIndex>, String>)
        ensures
            *final(self) == *old(self),
    {
        proof {
            lemma_nonempty_within_trees(data@, i32::MAX as int);
            lemma_nonempty_within_suffix(trees_view(data@), i32::MAX as int);
        }
        let sel = self.traversal_selection;
        let mut out: Vec<SEDIndex> = Vec::new();
        let mut i: usize = 0;
        while i < data.len()
            invariant
                i <= data@.len(),
                forall|j: int|
                    0 <= j < data@.len() ==> (#[trigger] data@[j]).root is Some && tree_size(data@[j])
                        <= i32::MAX,
                out@.len() == i,
                forall|j: int|
                    0 <= j < i ==> (#[trigger] out@[j]).is_index_of(data@[j], sel) && out@[j].fits(),
            decreases data@.len() - i,
        {
            let idx = preprocess_tree(&data[i], sel);
            proof {
                let root = data@[i as int].root->Some_0;
                lemma_traversal_len(root, sel.first);
                lemma_traversal_len(root, sel.second);
            }
            out.push(idx);
            i = i + 1;
        }
        Ok(out)
    }

    /// The SED lower bound between two preprocessed trees.
    fn lower_bound(&self, query: &SEDIndex, data: &SEDIndex, threshold: usize) -> (r: usize) {
        sed_k(query, data, threshold)
    }
}

/// The first traversals of `data`, in order.
pub open spec fn first_traversals(data: Seq<SEDIndex>) -> Seq<Seq<i32>> {
    Seq::new(data.len(), |i: int| data[i].first_traversal@)
}

impl SedAlgorithm {
    /// Builds the q-gram index over the first traversals of `data`.
    pub fn build_index(&self, data: &[SEDIndex], params: &IndexParams) -> (r: Result<IndexGram, String>)
        requires
            params.q > 0,
            forall|i: int| 0 <= i < data@.len() ==> #[trigger] data@[i].first_traversal.len() + params.q <= usize::MAX,
        ensures
            r matches Ok(index) && index.gram_len() == params.q && index.contents() == index_of(
                first_traversals(data@),
                params.q as nat,
            ),
            r matches Ok(index) ==> (lengths_sorted(first_traversals(data@)) ==> postings_sorted(index.contents())),
            r matches Ok(index) ==> forall|cid: usize| posted(index.contents(), cid) ==> cid < data@.len(),
    {
        let mut firsts: Vec<Vec<i32>> = Vec::new();
        let mut i: usize = 0;
        while i < data.len()
            invariant
                i <= data@.len(),
                firsts.len() == i,
                forall|j: int| 0 <= j < i ==> (#[trigger] firsts@[j])@ == data@[j].first_traversal@,
            decreases data@.len() - i,
        {
            firsts.push(copy_vec(&data[i].first_traversal));
            i += 1;
        }
        proof {
            assert(strings_view(firsts@) =~= first_traversals(data@));
            assert forall|j: int| 0 <= j < firsts@.len() implies #[trigger] firsts@[j].len() + params.q <= usize::MAX by {
                assert(firsts@[j]@ == data@[j].first_traversal@);
                assert(data@[j].first_traversal.len() + params.q <= usize::MAX);
            }
        }
        Ok(IndexGram::new(firsts.as_slice(), params.q))
    }

    /// The candidates that the q-gram index keeps for the first traversal
    /// of `query` at `threshold`, each once.
    pub fn query_index(&self, query: &SEDIndex, index: &IndexGram, threshold: usize) -> (r: Vec<usize>)
        requires
            index.gram_len() > 0,
            postings_sorted(index.contents()),
            query.first_traversal.len() + threshold < i32::MAX,
            threshold < query.first_traversal@.len() / index.gram_len(),
        ensures
            r@.no_duplicates(),
            forall|cid: usize| r@.contains(cid) ==> posted(index.contents(), cid),
            forall|cid: usize|
                r@.contains(cid) <==> accepted(
                    index.contents(),
                    query.first_traversal@,
                    index.gram_len(),
                    threshold as nat,
                    cid,
                ),
    {
        match index.query(copy_vec(&query.first_traversal), threshold) {
            Ok(candidates) => candidates,
            Err(_) => {
                proof {
                    assert(false);
                }
                Vec::new()
            },
        }
    }
}

/// Creates the SED method.
pub struct SedFactory;

impl AlgorithmFactory for SedFactory {
    type AlgorithmType = SedAlgorithm;

    /// A SED method over preorder and postorder.
    fn create_algorithm() -> (r: SedAlgorithm)
        ensures
            r.traversal_selection == TraversalSelection::spec_default(),
    {
        SedAlgorithm::default()
    }
}

impl SEDIndex {
    /// `self` holds the selected traversals and the size of `tree`.
    pub open spec fn is_index_of(&self, tree: ParsedTree, selection: TraversalSelection) -> bool {
        &&& tree.root is Some
        &&& self.first_traversal@ == traversal(tree.root->Some_0, selection.first)
        &&& self.second_traversal@ == traversal(tree.root->Some_0, selection.second)
        &&& self.tree_size == if tree_size(tree) <= usize::MAX {
            tree_size(tree)
        } else {
            usize::MAX as nat
        }
    }

    /// The traversals are short enough for the banded computation.
    pub open spec fn fits(&self) -> bool {
        &&& self.first_traversal@.len() <= i32::MAX
        &&& self.second_traversal@.len() <= i32::MAX
    }
}

/// Builds the SED index of a non-empty tree.
pub fn preprocess_tree(tree: &ParsedTree, selection: TraversalSelection) -> (r: SEDIndex)
    requires
        tree.root is Some,
    ensures
        r.is_index_of(*tree, selection),
{
    let root: &TreeNode = match &tree.root {
        Some(r) => r,
        None => { proof { assert(false); } return SEDIndex { first_traversal: Vec::new(), second_traversal: Vec::new(), tree_size: 0 }; },
    };
    let mut pre: Vec<i32> = Vec::new();
    let mut post: Vec<i32> = Vec::new();
    let mut reversed_preorder: Vec<i32> = Vec::new();
    let mut reversed_postorder: Vec<i32> = Vec::new();
    traverse(root, &mut pre, &mut post, &mut reversed_preorder, &mut reversed_postorder);
    let reversed_preorder = reversed(&reversed_preorder);
    let reversed_postorder = reversed(&reversed_postorder);
    proof {
        assert(pre@ =~= preorder(*root));
        assert(post@ =~= postorder(*root));
        assert(reversed_preorder@ =~= postorder(*root).reverse());
        assert(reversed_postorder@ =~= preorder(*root).reverse());
    }
    let first_traversal = match selection.first {
        TraversalKind::Preorder => copy_vec(&pre),
        TraversalKind::Postorder => copy_vec(&post),
        TraversalKind::ReversedPreorder => copy_vec(&reversed_preorder),
        TraversalKind::ReversedPostorder => copy_vec(&reversed_postorder),
    };
    let second_traversal = match selection.second {
        TraversalKind::Preorder => copy_vec(&pre),
        TraversalKind::Postorder => copy_vec(&post),
        TraversalKind::ReversedPreorder => copy_vec(&reversed_preorder),
        TraversalKind::ReversedPostorder => copy_vec(&reversed_postorder),
    };
    SEDIndex { first_traversal, second_traversal, tree_size: tree.count() }
}

/// The absolute difference of two sizes.
pub open spec fn size_gap(a: usize, b: usize) -> int {
    if a >= b { a - b } else { b - a }
}

/// Computes the SED lower bound with threshold `k`.
pub fn sed_k(t1: &SEDIndex, t2: &SEDIndex, k: usize) -> (r: usize)
    requires
        t1.fits(),
        t2.fits(),
        k < usize::MAX,
    ensures
        r == sed_value(*t1, *t2, k),
{
    let diff = if t1.tree_size >= t2.tree_size {
        t1.tree_size - t2.tree_size
    } else {
        t2.tree_size - t1.tree_size
    };
    if diff > k {
        return k + 1;
    }
    let (a, b) = if t1.tree_size > t2.tree_size {
        (t2, t1)
    } else {
        (t1, t2)
    };
    proof {
        lemma_edit_distance_symmetric(t1.first_traversal@, t2.first_traversal@);
        lemma_edit_distance_symmetric(t1.second_traversal@, t2.second_traversal@);
    }
    let first_dist = bounded_string_edit_distance(&a.first_traversal, &b.first_traversal, k);
    if first_dist > k {
        return first_dist;
    }
    let second_dist = bounded_string_edit_distance(&a.second_traversal, &b.second_traversal, k);
    if first_dist >= second_dist {
        first_dist
    } else {
        second_dist
    }
}

/// Row of diagonal `q` (cells `(x, x + q)`) that a furthest-reaching value
/// `v` stands for, cut at the ends of the two sequences.
pub open spec fn diag_point(v: int, q: int, m: int, n: int) -> int {
    min_int(min_int(v, m), n - q)
}

/// `v` is `-1`, or the cell of diagonal `q` that it stands for, where that
/// cell lies in the matrix, is within `d` edits.
pub open spec fn reached(a: Seq<i32>, b: Seq<i32>, v: int, q: int, d: int) -> bool {
    v == -1 || (v >= 0 && ({
        let x = diag_point(v, q, a.len() as int, b.len() as int);
        x >= 0 && x + q >= 0 ==> prefix_distance(a, b, x as nat, (x + q) as nat) <= d
    }))
}

/// The furthest-reaching step: from the values of diagonals `q`, `q - 1` and
/// `q + 1` at `d - 1` edits, the largest candidate is reached at `d` edits.
pub(crate) proof fn lemma_reached_step(
    a: Seq<i32>,
    b: Seq<i32>,
    c: int,
    plus: int,
    p: int,
    nx: int,
    q: int,
    d: int,
)
    requires
        d >= 0,
        -d <= q <= d,
        0 <= plus <= 1,
        c >= -1,
        p >= -1,
        nx >= -1,
        reached(a, b, c, q, d - 1),
        reached(a, b, p, q - 1, d - 1),
        reached(a, b, nx, q + 1, d - 1),
    ensures
        reached(a, b, max_int(max_int(c + plus, p), nx + 1), q, d),
{
    let m = a.len() as int;
    let n = b.len() as int;
    let t = max_int(max_int(c + plus, p), nx + 1);
    let x = diag_point(t, q, m, n);
    if x >= 0 && x + q >= 0 {
        if x == 0 {
            assert(prefix_distance(a, b, 0, q as nat) == q);
        } else if x + q == 0 {
            assert(prefix_distance(a, b, x as nat, 0) == x);
        } else if t == c + plus && c >= 0 && plus == 0 {
        } else if t == c + plus && c >= 0 {
            let xc = diag_point(c, q, m, n);
            if c + 1 <= min_int(m, n - q) {
                lemma_prefix_distance_steps(a, b, c as nat, (c + q) as nat);
            } else {
                assert(xc == x);
            }
        } else if t == p && p >= 0 {
            let xp = diag_point(p, q - 1, m, n);
            if x == xp {
                lemma_prefix_distance_steps(a, b, x as nat, (x + q - 1) as nat);
            } else {
                assert(xp == x + 1);
                lemma_prefix_distance_shrink(a, b, x as nat, n as nat);
            }
        } else {
            assert(t == nx + 1 && nx >= 0);
            let xn = diag_point(nx, q + 1, m, n);
            if nx + 1 <= min_int(m, n - q) {
                assert(xn == x - 1);
                lemma_prefix_distance_steps(a, b, (x - 1) as nat, (x + q) as nat);
            } else if m <= n - q {
                assert(x == m);
                if m <= n - q - 1 {
                    assert(xn == m);
                    lemma_prefix_distance_shrink(a, b, m as nat, (m + q) as nat);
                } else {
                    assert(xn == m - 1);
                    lemma_prefix_distance_steps(a, b, (m - 1) as nat, (m + q) as nat);
                }
            } else {
                assert(x == n - q);
                assert(xn == n - q - 1);
                lemma_prefix_distance_steps(a, b, (n - q - 1) as nat, n as nat);
            }
        }
    }
}

/// Sliding along a match keeps a reached cell reached.
pub(crate) proof fn lemma_reached_slide(a: Seq<i32>, b: Seq<i32>, t: int, q: int, d: int)
    requires
        reached(a, b, t, q, d),
        0 <= t < a.len(),
        0 <= t + q < b.len(),
        a[t] == b[t + q],
    ensures
        reached(a, b, t + 1, q, d),
{
    lemma_prefix_distance_steps(a, b, t as nat, (t + q) as nat);
}

/// Absolute value.
pub open spec fn abs_of(v: int) -> int {
    if v >= 0 { v } else { -v }
}

/// Cell `(x, x + q)` of diagonal `q` lies in the matrix, is within `d`
/// edits, and the corner can still be reached from it within `thr` edits in
/// all (each diagonal step toward the corner's diagonal costs one).
pub open spec fn relevant(a: Seq<i32>, b: Seq<i32>, x: int, q: int, d: int, thr: int) -> bool {
    &&& 0 <= x <= a.len()
    &&& 0 <= x + q <= b.len()
    &&& prefix_distance(a, b, x as nat, (x + q) as nat) <= d
    &&& d + abs_of(b.len() - a.len() - q) <= thr
}

/// `v` is at least the row of every relevant cell of diagonal `q` at `d`
/// edits.
pub open spec fn covers(a: Seq<i32>, b: Seq<i32>, v: int, q: int, d: int, thr: int) -> bool {
    forall|y: int| #[trigger] relevant(a, b, y, q, d, thr) ==> v >= y
}

/// Every relevant cell at `d` edits lies on a diagonal of `row` (offset by
/// `zk`) whose value is at least the cell's row.
pub open spec fn row_covers(a: Seq<i32>, b: Seq<i32>, row: Seq<i64>, zk: int, d: int, thr: int) -> bool {
    forall|q: int, x: int|
        #[trigger] relevant(a, b, x, q, d, thr) ==> 0 <= q + zk < row.len() && row[q + zk] >= x
}

/// The values of `row` on the diagonals `lo..hi` are at least the rows of
/// their relevant cells at `d` edits.
pub open spec fn row_covers_between(
    a: Seq<i32>,
    b: Seq<i32>,
    row: Seq<i64>,
    zk: int,
    d: int,
    thr: int,
    lo: int,
    hi: int,
) -> bool {
    forall|q: int, x: int|
        lo <= q < hi && #[trigger] relevant(a, b, x, q, d, thr) ==> row[q + zk] >= x
}

/// The furthest-reaching step misses no relevant cell: if the values of
/// diagonals `q`, `q - 1` and `q + 1` at `d - 1` edits are at least the rows
/// of their relevant cells, the extended value `v` is at least the row of
/// every relevant cell of diagonal `q` at `d` edits.
proof fn lemma_relevant_covered(
    a: Seq<i32>,
    b: Seq<i32>,
    c: int,
    p: int,
    nx: int,
    v: int,
    q: int,
    d: int,
    thr: int,
    x: int,
)
    requires
        c >= -1,
        covers(a, b, c, q, d - 1, thr),
        covers(a, b, p, q - 1, d - 1, thr),
        covers(a, b, nx, q + 1, d - 1, thr),
        v >= max_int(max_int(c + 1, p), nx + 1),
        !(0 <= v < a.len() && 0 <= v + q < b.len() && a[v] == b[v + q]),
        relevant(a, b, x, q, d, thr),
    ensures
        v >= x,
    decreases x,
{
    let m = a.len() as int;
    let n = b.len() as int;
    lemma_prefix_distance_bound(a, b, x as nat, (x + q) as nat);
    if x == 0 {
    } else if x + q == 0 {
        if x <= d - 1 {
            assert(relevant(a, b, x, q, d - 1, thr));
        } else {
            lemma_prefix_distance_bound(a, b, (x - 1) as nat, 0);
            assert(relevant(a, b, x - 1, q + 1, d - 1, thr));
        }
    } else {
        let del: int = prefix_distance(a, b, (x - 1) as nat, (x + q) as nat) + 1int;
        let ins: int = prefix_distance(a, b, x as nat, (x + q - 1) as nat) + 1int;
        let sub: int = prefix_distance(a, b, (x - 1) as nat, (x + q - 1) as nat) + if a[x - 1] == b[x
            + q - 1] {
            0int
        } else {
            1int
        };
        assert(prefix_distance(a, b, x as nat, (x + q) as nat) == min_int(min_int(del, ins), sub));
        if del <= d {
            assert(relevant(a, b, x - 1, q + 1, d - 1, thr));
        } else if ins <= d {
            assert(relevant(a, b, x, q - 1, d - 1, thr));
        } else if a[x - 1] != b[x + q - 1] {
            assert(relevant(a, b, x - 1, q, d - 1, thr));
        } else {
            assert(relevant(a, b, x - 1, q, d, thr));
            lemma_relevant_covered(a, b, c, p, nx, v, q, d, thr, x - 1);
        }
    }
}

/// The relevant cells lie on the diagonals that the bounded computation
/// visits at `d` edits.
proof fn lemma_relevant_band(a: Seq<i32>, b: Seq<i32>, x: int, q: int, d: int, thr: int, zk: int)
    requires
        relevant(a, b, x, q, d, thr),
        0 <= thr <= b.len(),
        a.len() <= b.len(),
        min_int(a.len() as int, thr) <= 2 * zk - 3,
        d >= 0,
    ensures
        -d <= q <= d,
        b.len() - a.len() - (thr - d) <= q <= b.len() - a.len() + (thr - d),
        d + 1 > b.len() - a.len() + zk ==> q < 2 * (b.len() - a.len() + zk) - (d + 1),
        d + 1 > zk ==> q >= (d + 1) - 2 * zk + 1,
{
    lemma_prefix_distance_bound(a, b, x as nat, (x + q) as nat);
}

/// One level of the furthest-reaching computation: from the values of the
/// diagonals at `i - 2` edits in `current_row`, fills the diagonals that can
/// still reach the corner within `threshold` edits at `i - 1` edits into
/// `next_row` (each diagonal `q` at position `q + zero_k`).
#[verifier::rlimit(100)]
fn br_fill_row(
    sa: &[i32],
    sb: &[i32],
    current_row: &Vec<i64>,
    next_row: &mut Vec<i64>,
    i: i64,
    threshold: i64,
    zero_k: i64,
)
    requires
        sa@.len() <= sb@.len() <= i32::MAX,
        1 <= i <= threshold + 1,
        0 <= threshold <= sb@.len(),
        sb@.len() - sa@.len() <= threshold,
        zero_k >= 2,
        zero_k * 2 <= min_int(sa@.len() as int, threshold as int) + 4,
        min_int(sa@.len() as int, threshold as int) <= zero_k * 2 - 3,
        current_row@.len() == sb@.len() - sa@.len() + zero_k * 2 + 2,
        old(next_row)@.len() == current_row@.len(),
        forall|j: int|
            0 <= j < current_row@.len() ==> -1 <= #[trigger] current_row@[j] <= sa@.len() + i - 1,
        forall|j: int|
            0 <= j < current_row@.len() ==> -1 <= #[trigger] old(next_row)@[j] <= sa@.len() + i - 1,
        forall|j: int|
            0 <= j < current_row@.len() ==> reached(
                sa@,
                sb@,
                (#[trigger] current_row@[j]) as int,
                j - zero_k,
                i - 2,
            ),
        forall|j: int|
            0 <= j < current_row@.len() ==> reached(
                sa@,
                sb@,
                (#[trigger] old(next_row)@[j]) as int,
                j - zero_k,
                i - 2,
            ),
        row_covers(sa@, sb@, current_row@, zero_k as int, i - 2, threshold as int),
    ensures
        final(next_row)@.len() == current_row@.len(),
        forall|j: int|
            0 <= j < current_row@.len() ==> -1 <= #[trigger] final(next_row)@[j] <= sa@.len() + i,
        forall|j: int|
            0 <= j < current_row@.len() ==> reached(
                sa@,
                sb@,
                (#[trigger] final(next_row)@[j]) as int,
                j - zero_k,
                i - 1,
            ),
        row_covers(sa@, sb@, final(next_row)@, zero_k as int, i - 1, threshold as int),
{
    let ghost thr = threshold as int;
    let ghost dp = i - 2;
    let ghost dc = i - 1;
    let s1len = sa.len() as i64;
    let s2len = sb.len() as i64;
    let size_diff = s2len - s1len;
    let arr_len = size_diff + zero_k * 2 + 2;
    let condition_diag = size_diff + zero_k;
    let end_max = condition_diag * 2;
    let band_start: i64 = if i <= zero_k {
        -i + 1
    } else {
        i - zero_k * 2 + 1
    };
    let band_end: i64;
    if i <= condition_diag {
        band_end = i;
        next_row.set((zero_k + i) as usize, -1);
    } else {
        band_end = end_max - i;
    }
    let budget = threshold - (i - 1);
    let (min_valid_diag, max_valid_diag) = if budget <= 0 {
        (size_diff, size_diff)
    } else {
        (size_diff - budget, size_diff + budget)
    };
    let start = if band_start >= min_valid_diag {
        band_start
    } else {
        min_valid_diag
    };
    let end = if band_end <= max_valid_diag + 1 {
        band_end
    } else {
        max_valid_diag + 1
    };
    proof {
        assert forall|q2: int, x: int| #[trigger] relevant(sa@, sb@, x, q2, dc, thr) implies start
            <= q2 < end by {
            lemma_relevant_band(sa@, sb@, x, q2, dc, thr, zero_k as int);
        }
    }
    let mut current_cell: i64;
    let mut next_cell: i64;
    let mut previous_cell: i64;
    if i <= zero_k && start == band_start {
        current_cell = -1;
        next_cell = i - 2;
        proof {
            assert forall|y: int| #[trigger] relevant(sa@, sb@, y, start - 1, dp, thr) implies current_cell
                >= y by {
                lemma_prefix_distance_bound(sa@, sb@, y as nat, (y + start - 1) as nat);
            }
            assert forall|y: int| #[trigger] relevant(sa@, sb@, y, start as int, dp, thr) implies next_cell
                >= y by {
                lemma_prefix_distance_bound(sa@, sb@, y as nat, (y + start) as nat);
            }
        }
    } else {
        let start_idx = zero_k + start;
        current_cell = if start > band_start && start_idx > 0 {
            current_row[(start_idx - 1) as usize]
        } else {
            -1
        };
        next_cell = current_row[start_idx as usize];
        proof {
            assert forall|y: int| #[trigger] relevant(sa@, sb@, y, start - 1, dp, thr) implies current_cell
                >= y by {
                if !(start > band_start && start_idx > 0) {
                    lemma_relevant_band(sa@, sb@, y, start - 1, dp, thr, zero_k as int);
                }
            }
        }
    }
    let mut q: i64 = start;
    assert(end <= condition_diag);
    while q < end
        invariant
            1 <= i <= threshold + 1,
            0 <= s1len <= s2len <= i32::MAX,
            s1len == sa@.len(),
            s2len == sb@.len(),
            0 <= threshold <= s2len,
            0 <= size_diff <= threshold,
            size_diff == s2len - s1len,
            zero_k >= 2,
            arr_len == size_diff + zero_k * 2 + 2,
            condition_diag == size_diff + zero_k,
            band_start + zero_k >= 1,
            start >= band_start,
            end <= condition_diag,
            start <= q,
            q <= end || end < start,
            -(i32::MAX as int) <= q <= 2 * (i32::MAX as int),
            -(i32::MAX as int) <= end <= 2 * (i32::MAX as int),
            -1 <= current_cell <= s1len + i - 1,
            -1 <= next_cell <= s1len + i - 1,
            current_row@.len() == arr_len,
            next_row@.len() == arr_len,
            thr == threshold,
            dp == i - 2,
            dc == i - 1,
            forall|j: int|
                0 <= j < arr_len ==> -1 <= #[trigger] current_row@[j] <= s1len + i - 1,
            forall|j: int| 0 <= j < arr_len ==> -1 <= #[trigger] next_row@[j] <= s1len + i,
            -(i - 1) <= start,
            end <= i,
            reached(sa@, sb@, current_cell as int, q - 1 as int, i - 2),
            reached(sa@, sb@, next_cell as int, q as int, i - 2),
            forall|j: int|
                0 <= j < arr_len ==> reached(
                    sa@,
                    sb@,
                    (#[trigger] current_row@[j]) as int,
                    j - zero_k,
                    i - 2,
                ),
            forall|j: int|
                0 <= j < arr_len ==> reached(
                    sa@,
                    sb@,
                    (#[trigger] next_row@[j]) as int,
                    j - zero_k,
                    i - 1,
                ),
            covers(sa@, sb@, current_cell as int, q - 1, dp, thr),
            covers(sa@, sb@, next_cell as int, q as int, dp, thr),
            row_covers(sa@, sb@, current_row@, zero_k as int, dp, thr),
            row_covers_between(sa@, sb@, next_row@, zero_k as int, dc, thr, start as int, q as int),
        decreases end - q,
    {
        let row_index = q + zero_k;
        previous_cell = current_cell;
        current_cell = next_cell;
        next_cell = current_row[(row_index + 1) as usize];
        proof {
            let jj = row_index + 1;
            assert(1 <= row_index);
            assert(jj < arr_len);
            assert(arr_len == current_row@.len());
            assert(current_row.len() == current_row@.len());
            assert(((row_index + 1) as usize) as int == jj as int);
            assert(current_row@[jj as int] == next_cell);
            assert(reached(sa@, sb@, current_row@[jj as int] as int, jj - zero_k, i - 2));
            assert forall|y: int| #[trigger] relevant(sa@, sb@, y, q + 1, dp, thr) implies next_cell
                >= y by {
                assert(relevant(sa@, sb@, y, q + 1, dp, thr));
            }
        }
        let mut t = current_cell + 1;
        if previous_cell > t {
            t = previous_cell;
        }
        if next_cell + 1 > t {
            t = next_cell + 1;
        }
        let ghost t0 = t;
        proof {
            lemma_reached_step(
                sa@,
                sb@,
                current_cell as int,
                1,
                previous_cell as int,
                next_cell as int,
                q as int,
                i - 1,
            );
        }
        while t < s1len && t + q < s2len && t + q >= 0 && sa[t as usize] == sb[(t + q) as usize]
            invariant
                1 <= i <= threshold + 1,
                -(i32::MAX as int) <= q <= 2 * (i32::MAX as int),
                0 <= t <= s1len + i,
                t >= t0,
                0 <= s1len <= s2len <= i32::MAX,
                s1len == sa@.len(),
                s2len == sb@.len(),
                reached(sa@, sb@, t as int, q as int, i - 1),
            decreases s1len - t,
        {
            proof {
                lemma_reached_slide(sa@, sb@, t as int, q as int, i - 1);
            }
            t = t + 1;
        }
        proof {
            assert forall|y: int| #[trigger] relevant(sa@, sb@, y, q as int, dc, thr) implies t >= y by {
                lemma_relevant_covered(
                    sa@,
                    sb@,
                    current_cell as int,
                    previous_cell as int,
                    next_cell as int,
                    t as int,
                    q as int,
                    dc,
                    thr,
                    y,
                );
            }
        }
        let ghost prev_next = next_row@;
        assert(next_row.len() == next_row@.len());
        assert((row_index as usize) as int == row_index as int);
        next_row.set(row_index as usize, t);
        proof {
            assert forall|j: int| 0 <= j < arr_len implies reached(
                sa@,
                sb@,
                (#[trigger] next_row@[j]) as int,
                j - zero_k,
                i - 1,
            ) by {
                if j != row_index {
                    assert(next_row@[j] == prev_next[j]);
                }
            }
            assert forall|q2: int, x: int|
                start <= q2 < q + 1 && #[trigger] relevant(sa@, sb@, x, q2, dc, thr) implies next_row@[q2
                + zero_k] >= x by {
                if q2 != q {
                    assert(next_row@[q2 + zero_k] == prev_next[q2 + zero_k]);
                }
            }
        }
        q = q + 1;
    }
    proof {
        assert forall|q2: int, x: int| #[trigger] relevant(sa@, sb@, x, q2, dc, thr) implies 0 <= q2
            + zero_k < next_row@.len() && next_row@[q2 + zero_k] >= x by {
            lemma_relevant_band(sa@, sb@, x, q2, dc, thr, zero_k as int);
        }
    }
}

/// Computes the bounded string edit distance between `s1` and `s2` with
/// threshold `k` (Berghel and Roach's banded furthest-reaching scheme): the
/// edit distance when it is at most `k`, else `usize::MAX`.
pub fn bounded_string_edit_distance(s1: &[i32], s2: &[i32], k: usize) -> (r: usize)
    requires
        s1@.len() <= i32::MAX,
        s2@.len() <= i32::MAX,
    ensures
        r == (if edit_distance(s1@, s2@) <= k {
            edit_distance(s1@, s2@) as usize
        } else {
            usize::MAX
        }),
{
    proof {
        lemma_edit_distance_symmetric(s1@, s2@);
        lemma_prefix_distance_bound(s1@, s2@, s1@.len(), s2@.len());
    }
    let (sa, sb) = if s1.len() <= s2.len() {
        (s1, s2)
    } else {
        (s2, s1)
    };
    let ghost ed = prefix_distance(sa@, sb@, sa@.len(), sb@.len());
    assert(ed == edit_distance(s1@, s2@));
    let s1len = sa.len() as i64;
    let s2len = sb.len() as i64;
    let threshold: i64 = if (k as u64) < (sb.len() as u64) {
        k as i64
    } else {
        s2len
    };
    let size_diff = s2len - s1len;
    if size_diff > threshold {
        return usize::MAX;
    }
    let zero_k: i64 = (if s1len < threshold {
        s1len
    } else {
        threshold
    }) / 2 + 2;
    let arr_len = size_diff + zero_k * 2 + 2;
    let condition_diag = size_diff + zero_k;
    let mut current_row: Vec<i64> = Vec::new();
    let mut next_row: Vec<i64> = Vec::new();
    let mut x: i64 = 0;
    while x < arr_len
        invariant
            0 <= x <= arr_len,
            current_row@.len() == x,
            next_row@.len() == x,
            forall|j: int| 0 <= j < x ==> #[trigger] current_row@[j] == -1,
            forall|j: int| 0 <= j < x ==> #[trigger] next_row@[j] == -1,
        decreases arr_len - x,
    {
        current_row.push(-1);
        next_row.push(-1);
        x = x + 1;
    }
    proof {
        assert forall|q2: int, y: int| #[trigger] relevant(sa@, sb@, y, q2, -1, threshold as int) implies 0
            <= q2 + zero_k < next_row@.len() && next_row@[q2 + zero_k] >= y by {}
    }
    let mut i: i64 = 1;
    while i <= threshold + 1
        invariant
            1 <= i <= threshold + 2,
            0 <= s1len <= s2len <= i32::MAX,
            s1len == sa@.len(),
            s2len == sb@.len(),
            0 <= threshold <= s2len,
            threshold <= k,
            threshold == k || threshold == s2len,
            0 <= size_diff <= threshold,
            size_diff == s2len - s1len,
            zero_k >= 2,
            zero_k * 2 <= (if s1len < threshold { s1len } else { threshold }) + 4,
            (if s1len < threshold { s1len } else { threshold }) <= zero_k * 2 - 3,
            arr_len == size_diff + zero_k * 2 + 2,
            condition_diag == size_diff + zero_k,
            current_row@.len() == arr_len,
            next_row@.len() == arr_len,
            ed == prefix_distance(sa@, sb@, sa@.len(), sb@.len()),
            ed == edit_distance(s1@, s2@),
            ed <= s2len,
            ed >= i - 1,
            forall|j: int|
                0 <= j < arr_len ==> -1 <= #[trigger] current_row@[j] <= s1len + i - 1,
            forall|j: int| 0 <= j < arr_len ==> -1 <= #[trigger] next_row@[j] <= s1len + i - 1,
            forall|j: int|
                0 <= j < arr_len ==> reached(
                    sa@,
                    sb@,
                    (#[trigger] current_row@[j]) as int,
                    j - zero_k,
                    i - 2,
                ),
            forall|j: int|
                0 <= j < arr_len ==> reached(sa@, sb@, (#[trigger] next_row@[j]) as int, j - zero_k, i - 2),
            row_covers(sa@, sb@, next_row@, zero_k as int, i - 2, threshold as int),
        decreases threshold + 2 - i,
    {
        let tmp = current_row;
        current_row = next_row;
        next_row = tmp;
        br_fill_row(sa, sb, &current_row, &mut next_row, i, threshold, zero_k);
        proof {
            lemma_prefix_distance_bound(sa@, sb@, sa@.len(), sb@.len());
        }
        if next_row[condition_diag as usize] >= s1len {
            proof {
                assert(reached(
                    sa@,
                    sb@,
                    next_row@[condition_diag as int] as int,
                    condition_diag - zero_k,
                    i - 1,
                ));
                assert(ed <= i - 1);
            }
            return (i - 1) as usize;
        }
        proof {
            if ed <= i - 1 {
                assert(relevant(sa@, sb@, s1len as int, size_diff as int, i - 1, threshold as int));
            }
            assert forall|j: int| 0 <= j < arr_len implies reached(
                sa@,
                sb@,
                (#[trigger] current_row@[j]) as int,
                j - zero_k,
                i - 1,
            ) by {}
        }
        i = i + 1;
    }
    usize::MAX
}

} // verus!
