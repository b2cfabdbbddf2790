//! The 2SED lower bound: the min-bottleneck value of the lattice that sums the
//! two single-traversal edit-distance matrices per node pair, minus one.

use vstd::prelude::*;

use crate::base::{
    lemma_nonempty_within_prefix, lemma_nonempty_within_suffix, lemma_nonempty_within_trees, nonempty_within, AlgorithmFactory,
    LowerBoundMethod, TraversalKind, TraversalSelection,
};
use crate::tree::{
    copy_vec, forest_post_ranks, forest_pre_ranks, forest_size, lemma_forest_size_prefix,
    lemma_take_succ, lemma_traversal_lengths, nats, post_ranks, pre_ranks, reversed, size,
    traversal, traversal_ranks, traverse, tree_size, trees_view, ParsedTree, SpecTree, TreeNode,
    preorder, postorder, lemma_pre_ranks_count_up, lemma_post_ranks_nodes,
};
use crate::edit_distance::{
    full_string_edit_distance, lemma_prefix_distance_bound, lemma_prefix_distance_symmetric,
    max_int, min_int, prefix_distance, FullMatrix,
};

verus! {

/// Preprocessed tree data for the 2SED lower bound: two traversal label
/// sequences and the permutation that maps a node's position in the second
/// traversal to its position in the first one.
#[derive(Debug, Clone)]
pub struct Sed2Index {
    pub first_traversal: Vec<i32>,
    pub second_traversal: Vec<i32>,
    /// `second_to_first[p]` is the first-traversal position of the node at
    /// second-traversal position `p`.
    pub second_to_first: Vec<usize>,
    pub tree_size: usize,
}

impl Sed2Index {
    /// The lookup table can be inverted and every looked-up position lies
    /// inside the second traversal.
    pub open spec fn is_consistent(&self) -> bool {
        &&& self.first_traversal@.len() <= self.second_to_first@.len()
        &&& self.second_to_first@.len() <= self.second_traversal@.len()
        &&& forall|p: int|
            0 <= p < self.second_to_first@.len() ==> #[trigger] self.second_to_first@[p]
                < self.second_to_first@.len()
    }
}

/// The 2SED algorithm with its selected pair of traversals.
pub struct Sed2Algorithm {
    pub traversal_selection: TraversalSelection,
}

impl Sed2Algorithm {
    /// An algorithm over the traversals `first` and `second`.
    pub fn new(first: TraversalKind, second: TraversalKind) -> (r: Self)
        ensures
            r.traversal_selection == (TraversalSelection { first, second }),
    {
        Sed2Algorithm { traversal_selection: TraversalSelection { first, second } }
    }

    /// The default selection: preorder first, postorder second.
    pub fn default() -> (r: Self)
        ensures
            r.traversal_selection == TraversalSelection::spec_default(),
    {
        Sed2Algorithm { traversal_selection: TraversalSelection::default() }
    }
}

/// Largest tree that 2SED takes: four traversal lengths of two such trees
/// add up to less than `usize::MAX`.
pub open spec fn sed2_size_limit() -> int {
    (usize::MAX as int - 1) / 4
}

impl LowerBoundMethod for Sed2Algorithm {
    type PreprocessedDataType = Sed2Index;

    open spec fn accepts(&self, data: Seq<Option<SpecTree>>) -> bool {
        nonempty_within(data, sed2_size_limit())
    }

    proof fn lemma_accepts_prefix(&self, a: Seq<Option<SpecTree>>, b: Seq<Option<SpecTree>>) {
        lemma_nonempty_within_prefix(a, b, sed2_size_limit());
    }

    open spec fn describes(&self, p: Sed2Index, tree: ParsedTree) -> bool {
        p.is_index_of(tree, self.traversal_selection)
    }

    open spec fn prepared(&self, p: Sed2Index) -> bool {
        &&& p.is_consistent()
        &&& p.first_traversal@.len() <= sed2_size_limit()
        &&& p.second_traversal@.len() <= sed2_size_limit()
    }

    open spec fn supports(&self, query: Sed2Index, data: Sed2Index, threshold: usize) -> bool {
        true
    }

    open spec fn bound_holds(&self, query: Sed2Index, data: Sed2Index, threshold: usize, r: usize) -> bool {
        r == sed2_value(query, data)
    }

    /// Preprocesses every tree of `data`.
    fn preprocess(&mut self, data: &[ParsedTree]) -> (r: Result<Vec<Sed2Index>, String>)
        ensures
            *final(self) == *old(self),
    {
        proof {
            lemma_nonempty_within_trees(data@, sed2_size_limit());
            lemma_nonempty_within_suffix(trees_view(data@), sed2_size_limit());
        }
        let sel = self.traversal_selection;
        let mut out: Vec<Sed2Index> = Vec::new();
        let mut i: usize = 0;
        while i < data.len()
            invariant
                i <= data@.len(),
                forall|j: int|
                    0 <= j < data@.len() ==> (#[trigger] data@[j]).root is Some && tree_size(data@[j])
                        <= sed2_size_limit(),
                out@.len() == i,
                forall|j: int|
                    0 <= j < i ==> (#[trigger] out@[j]).is_index_of(data@[j], sel)
                        && out@[j].is_consistent()
                        && out@[j].first_traversal@.len() <= sed2_size_limit()
                        && out@[j].second_traversal@.len() <= sed2_size_limit(),
            decreases data@.len() - i,
        {
            let idx = preprocess_tree(&data[i], sel);
            out.push(idx);
            i = i + 1;
        }
        Ok(out)
    }

    /// The 2SED lower bound between two preprocessed trees.
    fn lower_bound(&self, query: &Sed2Index, data: &Sed2Index, threshold: usize) -> (r: usize) {
        sed_2(query, data, threshold)
    }
}

/// Creates the 2SED method.
pub struct Sed2Factory;

impl AlgorithmFactory for Sed2Factory {
    type AlgorithmType = Sed2Algorithm;

    /// A 2SED method over preorder and postorder.
    fn create_algorithm() -> (r: Sed2Algorithm)
        ensures
            r.traversal_selection == TraversalSelection::spec_default(),
    {
        Sed2Algorithm::default()
    }
}

/// The last position `< upto` at which `p` holds `v`, or `0` if there is none.
pub open spec fn last_position(p: Seq<usize>, v: int, upto: nat) -> usize
    decreases upto,
{
    if upto == 0 {
        0
    } else if p[upto - 1] == v {
        (upto - 1) as usize
    } else {
        last_position(p, v, (upto - 1) as nat)
    }
}

/// The inverse of a position table: entry `v` is the (last) position holding
/// `v`; for a permutation this is its inverse permutation.
pub open spec fn inverse_permutation(p: Seq<usize>) -> Seq<usize> {
    Seq::new(p.len(), |v: int| last_position(p, v, p.len()))
}

/// Inverts a permutation: given `second_to_first`, returns `first_to_second`.
pub fn invert_permutation(second_to_first: &[usize]) -> (r: Vec<usize>)
    requires
        forall|p: int|
            0 <= p < second_to_first@.len() ==> #[trigger] second_to_first@[p]
                < second_to_first@.len(),
    ensures
        r@ == inverse_permutation(second_to_first@),
{
    let n = second_to_first.len();
    let mut first_to_second: Vec<usize> = Vec::new();
    let mut k: usize = 0;
    while k < n
        invariant
            k <= n,
            n == second_to_first@.len(),
            first_to_second@.len() == k,
            forall|v: int| 0 <= v < k ==> #[trigger] first_to_second@[v] == 0,
        decreases n - k,
    {
        first_to_second.push(0);
        k = k + 1;
    }
    let mut second_pos: usize = 0;
    while second_pos < n
        invariant
            second_pos <= n,
            n == second_to_first@.len(),
            first_to_second@.len() == n,
            forall|p: int| 0 <= p < n ==> #[trigger] second_to_first@[p] < n,
            forall|v: int|
                0 <= v < n ==> #[trigger] first_to_second@[v] == last_position(
                    second_to_first@,
                    v,
                    second_pos as nat,
                ),
        decreases n - second_pos,
    {
        let first_pos = second_to_first[second_pos];
        first_to_second.set(first_pos, second_pos);
        second_pos = second_pos + 1;
    }
    assert(first_to_second@ =~= inverse_permutation(second_to_first@));
    first_to_second
}

/// Minimum over all monotone paths (steps right, down, diagonal) from `(0, 0)`
/// to `(i, j)` of the largest cell value on the path, as its dynamic-program
/// recurrence.
pub open spec fn path_bottleneck(cell: spec_fn(nat, nat) -> int, i: nat, j: nat) -> int
    decreases i + j,
{
    if i == 0 && j == 0 {
        cell(0, 0)
    } else {
        let best = if i == 0 {
            path_bottleneck(cell, 0, (j - 1) as nat)
        } else if j == 0 {
            path_bottleneck(cell, (i - 1) as nat, 0)
        } else {
            min_int(
                min_int(
                    path_bottleneck(cell, (i - 1) as nat, j),
                    path_bottleneck(cell, i, (j - 1) as nat),
                ),
                path_bottleneck(cell, (i - 1) as nat, (j - 1) as nat),
            )
        };
        max_int(best, cell(i, j))
    }
}

/// The lattice cell read from two materialized matrices: the first-traversal
/// cell plus the second-traversal cell of the same two nodes.
pub open spec fn matrix_lattice_cell(
    query: Sed2Index,
    data: Sed2Index,
    c_pre: FullMatrix,
    c_post: FullMatrix,
    i: nat,
    j: nat,
) -> int {
    let post = if i == 0 || j == 0 {
        c_post.cell(i as int, j as int)
    } else {
        c_post.cell(
            inverse_permutation(query.second_to_first@)[i - 1] + 1,
            inverse_permutation(data.second_to_first@)[j - 1] + 1,
        )
    };
    c_pre.cell(i as int, j as int) + post
}

/// The lattice cell over edit distances of the two trees' traversals.
pub open spec fn sed2_cell(query: Sed2Index, data: Sed2Index, i: nat, j: nat) -> int {
    let post = if i == 0 || j == 0 {
        prefix_distance(query.second_traversal@, data.second_traversal@, i, j)
    } else {
        prefix_distance(
            query.second_traversal@,
            data.second_traversal@,
            (inverse_permutation(query.second_to_first@)[i - 1] + 1) as nat,
            (inverse_permutation(data.second_to_first@)[j - 1] + 1) as nat,
        )
    };
    prefix_distance(query.first_traversal@, data.first_traversal@, i, j) as int + post as int
}

/// The 2SED value: the min-bottleneck of the summed lattice, minus one
/// (saturating at zero).
pub open spec fn sed2_value(query: Sed2Index, data: Sed2Index) -> int {
    let b = path_bottleneck(
        |i: nat, j: nat| sed2_cell(query, data, i, j),
        query.first_traversal@.len(),
        data.first_traversal@.len(),
    );
    if b >= 1 { b - 1 } else { 0 }
}

fn lattice_cell(
    query: &Sed2Index,
    data: &Sed2Index,
    first_to_second_q: &Vec<usize>,
    first_to_second_d: &Vec<usize>,
    c_pre: &FullMatrix,
    c_post: &FullMatrix,
    i: usize,
    j: usize,
) -> (r: usize)
    requires
        query.is_consistent(),
        data.is_consistent(),
        first_to_second_q@ == inverse_permutation(query.second_to_first@),
        first_to_second_d@ == inverse_permutation(data.second_to_first@),
        c_pre.wf(),
        c_post.wf(),
        i <= query.first_traversal@.len(),
        j <= data.first_traversal@.len(),
        query.first_traversal@.len() < c_pre.n_rows(),
        data.first_traversal@.len() < c_pre.n_cols(),
        query.second_to_first@.len() < c_post.n_rows(),
        data.second_to_first@.len() < c_post.n_cols(),
        matrix_lattice_cell(*query, *data, *c_pre, *c_post, i as nat, j as nat) <= usize::MAX,
    ensures
        r == matrix_lattice_cell(*query, *data, *c_pre, *c_post, i as nat, j as nat),
{
    proof {
        lemma_last_position_bound(query.second_to_first@);
        lemma_last_position_bound(data.second_to_first@);
        c_post.lemma_dims_fit();
    }
    let post = if i == 0 || j == 0 {
        c_post.get(i, j)
    } else {
        c_post.get(first_to_second_q[i - 1] + 1, first_to_second_d[j - 1] + 1)
    };
    c_pre.get(i, j) + post
}

/// Every entry of the inverse table is a position of the table.
pub proof fn lemma_last_position_bound(p: Seq<usize>)
    ensures
        forall|v: int|
            0 <= v < p.len() ==> #[trigger] inverse_permutation(p)[v] < p.len() || p.len() == 0,
{
    assert forall|v: int| 0 <= v < p.len() implies #[trigger] inverse_permutation(p)[v]
        < p.len() by {
        lemma_last_position_below(p, v, p.len());
    }
}

proof fn lemma_last_position_below(p: Seq<usize>, v: int, upto: nat)
    requires
        upto <= p.len(),
        0 < p.len(),
    ensures
        last_position(p, v, upto) < p.len(),
    decreases upto,
{
    if upto > 0 {
        lemma_last_position_below(p, v, (upto - 1) as nat);
    }
}

/// Minimum-bottleneck value of the implicit summed lattice over every
/// monotone path from `(0, 0)` to `(n, m)`.
pub fn min_bottleneck(
    query: &Sed2Index,
    data: &Sed2Index,
    c_pre: &FullMatrix,
    c_post: &FullMatrix,
) -> (r: usize)
    requires
        query.is_consistent(),
        data.is_consistent(),
        c_pre.wf(),
        c_post.wf(),
        query.first_traversal@.len() < c_pre.n_rows(),
        data.first_traversal@.len() < c_pre.n_cols(),
        query.second_to_first@.len() < c_post.n_rows(),
        data.second_to_first@.len() < c_post.n_cols(),
        forall|i: nat, j: nat|
            i <= query.first_traversal@.len() && j <= data.first_traversal@.len()
                ==> #[trigger] matrix_lattice_cell(*query, *data, *c_pre, *c_post, i, j)
                <= usize::MAX,
    ensures
        r == path_bottleneck(
            |i: nat, j: nat| matrix_lattice_cell(*query, *data, *c_pre, *c_post, i, j),
            query.first_traversal@.len(),
            data.first_traversal@.len(),
        ),
{
    let ghost cell = |i: nat, j: nat| matrix_lattice_cell(*query, *data, *c_pre, *c_post, i, j);
    proof {
        c_pre.lemma_dims_fit();
    }
    let n = query.first_traversal.len();
    let m = data.first_traversal.len();
    let first_to_second_q = invert_permutation(&query.second_to_first);
    let first_to_second_d = invert_permutation(&data.second_to_first);
    let rows = n + 1;
    let cols = m + 1;
    let mut dp: Vec<Vec<usize>> = Vec::new();
    let mut i: usize = 0;
    while i < rows
        invariant
            0 <= i <= rows,
            cell == (|i: nat, j: nat| matrix_lattice_cell(*query, *data, *c_pre, *c_post, i, j)),
            rows == n + 1,
            cols == m + 1,
            n == query.first_traversal@.len(),
            m == data.first_traversal@.len(),
            query.is_consistent(),
            data.is_consistent(),
            c_pre.wf(),
            c_post.wf(),
            query.first_traversal@.len() < c_pre.n_rows(),
            data.first_traversal@.len() < c_pre.n_cols(),
            query.second_to_first@.len() < c_post.n_rows(),
            data.second_to_first@.len() < c_post.n_cols(),
            first_to_second_q@ == inverse_permutation(query.second_to_first@),
            first_to_second_d@ == inverse_permutation(data.second_to_first@),
            forall|i: nat, j: nat|
                i <= n && j <= m ==> #[trigger] matrix_lattice_cell(
                    *query,
                    *data,
                    *c_pre,
                    *c_post,
                    i,
                    j,
                ) <= usize::MAX,
            dp@.len() == i,
            forall|ii: int| 0 <= ii < i ==> #[trigger] dp@[ii]@.len() == cols,
            forall|ii: int, jj: int|
                0 <= ii < i && 0 <= jj < cols ==> #[trigger] dp@[ii]@[jj] == path_bottleneck(
                    cell,
                    ii as nat,
                    jj as nat,
                ),
        decreases rows - i,
    {
        let mut row: Vec<usize> = Vec::new();
        let mut j: usize = 0;
        while j < cols
            invariant
                0 <= i < rows,
                0 <= j <= cols,
                cell == (|i: nat, j: nat| matrix_lattice_cell(*query, *data, *c_pre, *c_post, i, j)),
                rows == n + 1,
                cols == m + 1,
                n == query.first_traversal@.len(),
                m == data.first_traversal@.len(),
                query.is_consistent(),
                data.is_consistent(),
                c_pre.wf(),
                c_post.wf(),
                query.first_traversal@.len() < c_pre.n_rows(),
                data.first_traversal@.len() < c_pre.n_cols(),
                query.second_to_first@.len() < c_post.n_rows(),
                data.second_to_first@.len() < c_post.n_cols(),
                first_to_second_q@ == inverse_permutation(query.second_to_first@),
                first_to_second_d@ == inverse_permutation(data.second_to_first@),
                forall|i: nat, j: nat|
                    i <= n && j <= m ==> #[trigger] matrix_lattice_cell(
                        *query,
                        *data,
                        *c_pre,
                        *c_post,
                        i,
                        j,
                    ) <= usize::MAX,
                dp@.len() == i,
                forall|ii: int| 0 <= ii < i ==> #[trigger] dp@[ii]@.len() == cols,
                forall|ii: int, jj: int|
                    0 <= ii < i && 0 <= jj < cols ==> #[trigger] dp@[ii]@[jj] == path_bottleneck(
                        cell,
                        ii as nat,
                        jj as nat,
                    ),
                row@.len() == j,
                forall|jj: int| 0 <= jj < j ==> #[trigger] row@[jj] == path_bottleneck(
                    cell,
                    i as nat,
                    jj as nat,
                ),
            decreases cols - j,
        {
            let c = lattice_cell(
                query,
                data,
                &first_to_second_q,
                &first_to_second_d,
                c_pre,
                c_post,
                i,
                j,
            );
            assert(c == cell(i as nat, j as nat));
            if i == 0 && j == 0 {
                row.push(c);
            } else {
                let mut best = usize::MAX;
                if i > 0 {
                    let v = dp[i - 1][j];
                    if v < best {
                        best = v;
                    }
                }
                if j > 0 {
                    let v = row[j - 1];
                    if v < best {
                        best = v;
                    }
                }
                if i > 0 && j > 0 {
                    let v = dp[i - 1][j - 1];
                    if v < best {
                        best = v;
                    }
                }
                let value = if best > c { best } else { c };
                row.push(value);
            }
            j = j + 1;
        }
        dp.push(row);
        i = i + 1;
    }
    dp[n][m]
}

/// The 2SED lower bound between two preprocessed trees.
pub fn sed_2(query: &Sed2Index, data: &Sed2Index, threshold: usize) -> (r: usize)
    requires
        query.is_consistent(),
        data.is_consistent(),
        query.first_traversal@.len() + data.first_traversal@.len() + query.second_traversal@.len()
            + data.second_traversal@.len() < usize::MAX,
    ensures
        r == sed2_value(*query, *data),
{
    let c_pre = full_string_edit_distance(&query.first_traversal, &data.first_traversal);
    let c_post = full_string_edit_distance(&query.second_traversal, &data.second_traversal);
    proof {
        lemma_last_position_bound(query.second_to_first@);
        lemma_last_position_bound(data.second_to_first@);
        assert forall|i: nat, j: nat|
            i <= query.first_traversal@.len() && j <= data.first_traversal@.len() implies (
            #[trigger] matrix_lattice_cell(*query, *data, c_pre, c_post, i, j) == sed2_cell(
                *query,
                *data,
                i,
                j,
            ) && sed2_cell(*query, *data, i, j) <= usize::MAX) by {
            lemma_prefix_distance_bound(query.first_traversal@, data.first_traversal@, i, j);
            if i == 0 || j == 0 {
                lemma_prefix_distance_bound(
                    query.second_traversal@,
                    data.second_traversal@,
                    i,
                    j,
                );
            } else {
                let a = (inverse_permutation(query.second_to_first@)[i - 1] + 1) as nat;
                let b = (inverse_permutation(data.second_to_first@)[j - 1] + 1) as nat;
                lemma_prefix_distance_bound(
                    query.second_traversal@,
                    data.second_traversal@,
                    a,
                    b,
                );
            }
        }
    }
    let b = min_bottleneck(query, data, &c_pre, &c_post);
    proof {
        lemma_path_bottleneck_ext(
            |i: nat, j: nat| matrix_lattice_cell(*query, *data, c_pre, c_post, i, j),
            |i: nat, j: nat| sed2_cell(*query, *data, i, j),
            query.first_traversal@.len(),
            data.first_traversal@.len(),
        );
    }
    if b >= 1 {
        b - 1
    } else {
        0
    }
}

/// Two cell functions that agree on the rectangle up to `(i, j)` give the same
/// bottleneck.
pub proof fn lemma_path_bottleneck_ext(
    c1: spec_fn(nat, nat) -> int,
    c2: spec_fn(nat, nat) -> int,
    i: nat,
    j: nat,
)
    requires
        forall|a: nat, b: nat| a <= i && b <= j ==> #[trigger] c1(a, b) == c2(a, b),
    ensures
        path_bottleneck(c1, i, j) == path_bottleneck(c2, i, j),
    decreases i + j,
{
    if i > 0 {
        lemma_path_bottleneck_ext(c1, c2, (i - 1) as nat, j);
    }
    if j > 0 {
        lemma_path_bottleneck_ext(c1, c2, i, (j - 1) as nat);
    }
    if i > 0 && j > 0 {
        lemma_path_bottleneck_ext(c1, c2, (i - 1) as nat, (j - 1) as nat);
    }
}

/// Transposing the lattice transposes the bottleneck.
pub proof fn lemma_path_bottleneck_transpose(
    c1: spec_fn(nat, nat) -> int,
    c2: spec_fn(nat, nat) -> int,
    i: nat,
    j: nat,
)
    requires
        forall|a: nat, b: nat| a <= i && b <= j ==> #[trigger] c1(a, b) == c2(b, a),
    ensures
        path_bottleneck(c1, i, j) == path_bottleneck(c2, j, i),
    decreases i + j,
{
    if i > 0 {
        lemma_path_bottleneck_transpose(c1, c2, (i - 1) as nat, j);
    }
    if j > 0 {
        lemma_path_bottleneck_transpose(c1, c2, i, (j - 1) as nat);
    }
    if i > 0 && j > 0 {
        lemma_path_bottleneck_transpose(c1, c2, (i - 1) as nat, (j - 1) as nat);
    }
}

/// For every kind of traversal: the ranks name each node once, every rank
/// below the size occurs, and the label at each position is the preorder
/// label of the rank there.
proof fn lemma_traversal_nodes(t: TreeNode, kind: TraversalKind)
    ensures
        traversal_ranks(t, kind).len() == size(t),
        traversal(t, kind).len() == size(t),
        forall|p: int|
            0 <= p < size(t) ==> traversal_ranks(t, kind)[p] < size(t) && #[trigger] traversal(
                t,
                kind,
            )[p] == preorder(t)[traversal_ranks(t, kind)[p] as int],
        forall|p: int, q: int|
            0 <= p < q < size(t) ==> #[trigger] traversal_ranks(t, kind)[p]
                != #[trigger] traversal_ranks(t, kind)[q],
        forall|r: nat| r < size(t) ==> #[trigger] traversal_ranks(t, kind).contains(r),
{
    lemma_traversal_lengths(t, 0);
    lemma_pre_ranks_count_up(t, 0);
    lemma_post_ranks_nodes(t, 0);
    let n = size(t) as int;
    let pre = pre_ranks(t, 0);
    let post = post_ranks(t, 0);
    match kind {
        TraversalKind::Preorder => {
            assert forall|r: nat| r < size(t) implies #[trigger] pre.contains(r) by {
                assert(pre[r as int] == r);
            }
        },
        TraversalKind::Postorder => {},
        TraversalKind::ReversedPreorder => {
            assert forall|p: int| 0 <= p < n implies post.reverse()[p] < size(t) && #[trigger] postorder(
                t,
            ).reverse()[p] == preorder(t)[post.reverse()[p] as int] by {
                assert(post.reverse()[p] == post[n - 1 - p]);
                assert(postorder(t).reverse()[p] == postorder(t)[n - 1 - p]);
            }
            assert forall|p: int, q: int| 0 <= p < q < n implies #[trigger] post.reverse()[p]
                != #[trigger] post.reverse()[q] by {
                assert(post.reverse()[p] == post[n - 1 - p]);
                assert(post.reverse()[q] == post[n - 1 - q]);
            }
            assert forall|r: nat| r < size(t) implies #[trigger] post.reverse().contains(r) by {
                assert(post.contains(r));
                let p = choose|p: int| 0 <= p < post.len() && post[p] == r;
                assert(post.reverse()[n - 1 - p] == post[p]);
            }
        },
        TraversalKind::ReversedPostorder => {
            assert forall|p: int| 0 <= p < n implies pre.reverse()[p] < size(t) && #[trigger] preorder(
                t,
            ).reverse()[p] == preorder(t)[pre.reverse()[p] as int] by {
                assert(pre.reverse()[p] == pre[n - 1 - p]);
                assert(preorder(t).reverse()[p] == preorder(t)[n - 1 - p]);
            }
            assert forall|p: int, q: int| 0 <= p < q < n implies #[trigger] pre.reverse()[p]
                != #[trigger] pre.reverse()[q] by {
                assert(pre.reverse()[p] == pre[n - 1 - p]);
                assert(pre.reverse()[q] == pre[n - 1 - q]);
            }
            assert forall|r: nat| r < size(t) implies #[trigger] pre.reverse().contains(r) by {
                assert(pre.reverse()[n - 1 - r] == pre[r as int]);
            }
        },
    }
}

/// Where `v` occurs among the first `upto` entries, the search finds it.
proof fn lemma_last_rank_position_finds(ids: Seq<nat>, v: nat, upto: nat, w: int)
    requires
        upto <= ids.len(),
        0 <= w < upto,
        ids[w] == v,
    ensures
        last_rank_position(ids, v, upto) < upto,
        ids[last_rank_position(ids, v, upto) as int] == v,
    decreases upto,
{
    if ids[upto - 1] != v {
        lemma_last_rank_position_finds(ids, v, (upto - 1) as nat, w);
    }
}

/// The lookup table of a 2SED index pairs every position of the second
/// traversal with the position of the same node in the first: both
/// traversals hold the same label there, and distinct positions of the
/// second traversal are paired with distinct positions of the first.
pub proof fn lemma_second_to_first_pairs_nodes(idx: Sed2Index, tree: ParsedTree, selection: TraversalSelection)
    requires
        idx.is_index_of(tree, selection),
    ensures
        idx.second_to_first@.len() == idx.second_traversal@.len(),
        idx.first_traversal@.len() == idx.second_traversal@.len(),
        forall|q: int|
            0 <= q < idx.second_to_first@.len() ==> (#[trigger] idx.second_to_first@[q])
                < idx.first_traversal@.len() && idx.first_traversal@[idx.second_to_first@[q] as int]
                == idx.second_traversal@[q],
        forall|q1: int, q2: int|
            0 <= q1 < q2 < idx.second_to_first@.len() ==> #[trigger] idx.second_to_first@[q1]
                != #[trigger] idx.second_to_first@[q2],
{
    let t = tree.root->Some_0;
    let f = traversal_ranks(t, selection.first);
    let s = traversal_ranks(t, selection.second);
    lemma_traversal_nodes(t, selection.first);
    lemma_traversal_nodes(t, selection.second);
    let n = size(t) as int;
    let table = second_to_first_of(t, selection);
    assert(nats(idx.second_to_first@).len() == idx.second_to_first@.len());
    assert forall|q: int| 0 <= q < n implies (table[q] as int) < n && f[table[q] as int] == s[q] by {
        assert(traversal(t, selection.second)[q] == preorder(t)[s[q] as int]);
        assert(s[q] < size(t));
        assert(f.contains(s[q]));
        let w = choose|w: int| 0 <= w < f.len() && f[w] == s[q];
        lemma_last_rank_position_finds(f, s[q], f.len(), w);
    }
    assert forall|q: int| 0 <= q < idx.second_to_first@.len() implies (#[trigger] idx.second_to_first@[q])
        < idx.first_traversal@.len() && idx.first_traversal@[idx.second_to_first@[q] as int]
        == idx.second_traversal@[q] by {
        assert(nats(idx.second_to_first@)[q] == idx.second_to_first@[q] as nat);
        assert((table[q] as int) < n && f[table[q] as int] == s[q]);
        assert(traversal(t, selection.first)[table[q] as int] == preorder(t)[f[table[q] as int] as int]);
        assert(traversal(t, selection.second)[q] == preorder(t)[s[q] as int]);
    }
    assert forall|q1: int, q2: int| 0 <= q1 < q2 < idx.second_to_first@.len() implies #[trigger] idx.second_to_first@[q1]
        != #[trigger] idx.second_to_first@[q2] by {
        assert(nats(idx.second_to_first@)[q1] == idx.second_to_first@[q1] as nat);
        assert(nats(idx.second_to_first@)[q2] == idx.second_to_first@[q2] as nat);
        assert(s[q1] != s[q2]);
        assert((table[q1] as int) < n && f[table[q1] as int] == s[q1]);
        assert((table[q2] as int) < n && f[table[q2] as int] == s[q2]);
    }
}

/// The 2SED lower bound is symmetric in its two arguments.
pub proof fn lemma_sed2_symmetric(query: Sed2Index, data: Sed2Index)
    ensures
        sed2_value(query, data) == sed2_value(data, query),
{
    let c1 = |i: nat, j: nat| sed2_cell(query, data, i, j);
    let c2 = |i: nat, j: nat| sed2_cell(data, query, i, j);
    assert forall|a: nat, b: nat|
        a <= query.first_traversal@.len() && b <= data.first_traversal@.len() implies #[trigger] c1(
        a,
        b,
    ) == c2(b, a) by {
        lemma_prefix_distance_symmetric(query.first_traversal@, data.first_traversal@, a, b);
        if a == 0 || b == 0 {
            lemma_prefix_distance_symmetric(
                query.second_traversal@,
                data.second_traversal@,
                a,
                b,
            );
        } else {
            lemma_prefix_distance_symmetric(
                query.second_traversal@,
                data.second_traversal@,
                (inverse_permutation(query.second_to_first@)[a - 1] + 1) as nat,
                (inverse_permutation(data.second_to_first@)[b - 1] + 1) as nat,
            );
        }
    }
    lemma_path_bottleneck_transpose(
        c1,
        c2,
        query.first_traversal@.len(),
        data.first_traversal@.len(),
    );
}

/// The last position `< upto` at which `ids` holds `v`, or `0` if there is
/// none.
pub open spec fn last_rank_position(ids: Seq<nat>, v: nat, upto: nat) -> nat
    decreases upto,
{
    if upto == 0 {
        0
    } else if ids[upto - 1] == v {
        (upto - 1) as nat
    } else {
        last_rank_position(ids, v, (upto - 1) as nat)
    }
}

/// For each position of the second traversal of `t`, the position in the
/// first traversal of the same node.
pub open spec fn second_to_first_of(t: TreeNode, selection: TraversalSelection) -> Seq<nat> {
    let first = traversal_ranks(t, selection.first);
    let second = traversal_ranks(t, selection.second);
    Seq::new(second.len(), |p: int| last_rank_position(first, second[p], first.len()))
}

impl Sed2Index {
    /// `self` holds the selected traversals of `tree`, the table between them
    /// and the tree's size.
    pub open spec fn is_index_of(&self, tree: ParsedTree, selection: TraversalSelection) -> bool {
        &&& tree.root is Some
        &&& self.first_traversal@ == traversal(tree.root->Some_0, selection.first)
        &&& self.second_traversal@ == traversal(tree.root->Some_0, selection.second)
        &&& nats(self.second_to_first@) == second_to_first_of(tree.root->Some_0, selection)
        &&& self.tree_size == tree_size(tree)
    }
}

proof fn lemma_last_position_nats(p: Seq<usize>, v: usize, upto: nat)
    requires
        upto <= p.len(),
        p.len() <= usize::MAX,
    ensures
        last_position(p, v as int, upto) as nat == last_rank_position(nats(p), v as nat, upto),
    decreases upto,
{
    if upto > 0 {
        lemma_last_position_nats(p, v, (upto - 1) as nat);
    }
}

/// Records the preorder ranks of the subtree at `node` (the root having rank
/// `counter`) in the four traversal orders, in the same pattern as
/// `traverse` records labels.
fn traverse_ids(
    node: &TreeNode,
    counter: &mut usize,
    pre: &mut Vec<usize>,
    post: &mut Vec<usize>,
    reversed_pre: &mut Vec<usize>,
    reversed_post: &mut Vec<usize>,
)
    requires
        *old(counter) + size(*node) <= usize::MAX,
    ensures
        *final(counter) == *old(counter) + size(*node),
        nats(final(pre)@) == nats(old(pre)@) + pre_ranks(*node, *old(counter) as nat),
        nats(final(post)@) == nats(old(post)@) + post_ranks(*node, *old(counter) as nat),
        nats(final(reversed_pre)@) == nats(old(reversed_pre)@) + post_ranks(
            *node,
            *old(counter) as nat,
        ),
        nats(final(reversed_post)@) == nats(old(reversed_post)@) + pre_ranks(
            *node,
            *old(counter) as nat,
        ),
    decreases node,
{
    let ghost start = *counter as nat;
    let id = *counter;
    *counter = *counter + 1;
    pre.push(id);
    reversed_post.push(id);
    let ghost pre0 = nats(pre@);
    let ghost post0 = nats(post@);
    let ghost rpre0 = nats(reversed_pre@);
    let ghost rpost0 = nats(reversed_post@);
    proof {
        assert(pre0 =~= nats(old(pre)@) + seq![start]);
        assert(rpost0 =~= nats(old(reversed_post)@) + seq![start]);
    }
    let n = node.children.len();
    let mut i: usize = 0;
    while i < n
        invariant
            i <= n,
            n == node.children@.len(),
            start + size(*node) <= usize::MAX,
            size(*node) == 1 + forest_size(node.children@),
            *counter == start + 1 + forest_size(node.children@.take(i as int)),
            nats(pre@) == pre0 + forest_pre_ranks(node.children@.take(i as int), start + 1),
            nats(post@) == post0 + forest_post_ranks(node.children@.take(i as int), start + 1),
            nats(reversed_pre@) == rpre0 + forest_post_ranks(
                node.children@.take(i as int),
                start + 1,
            ),
            nats(reversed_post@) == rpost0 + forest_pre_ranks(
                node.children@.take(i as int),
                start + 1,
            ),
        decreases n - i,
    {
        proof {
            lemma_take_succ(node.children@, i as int);
            lemma_forest_size_prefix(node.children@, i + 1);
        }
        traverse_ids(&node.children[i], counter, pre, post, reversed_pre, reversed_post);
        proof {
            let t = node.children@.take(i as int);
            let c = node.children@[i as int];
            let cs = start + 1 + forest_size(t);
            assert(nats(pre@) =~= pre0 + (forest_pre_ranks(t, start + 1) + pre_ranks(c, cs)));
            assert(nats(post@) =~= post0 + (forest_post_ranks(t, start + 1) + post_ranks(c, cs)));
            assert(nats(reversed_pre@) =~= rpre0 + (forest_post_ranks(t, start + 1) + post_ranks(
                c,
                cs,
            )));
            assert(nats(reversed_post@) =~= rpost0 + (forest_pre_ranks(t, start + 1) + pre_ranks(
                c,
                cs,
            )));
        }
        i = i + 1;
    }
    proof {
        assert(node.children@.take(n as int) =~= node.children@);
    }
    let ghost post1 = nats(post@);
    let ghost rpre1 = nats(reversed_pre@);
    reversed_pre.push(id);
    post.push(id);
    proof {
        assert(nats(post@) =~= post1 + seq![start]);
        assert(nats(reversed_pre@) =~= rpre1 + seq![start]);
        assert(nats(pre@) =~= nats(old(pre)@) + pre_ranks(*node, start));
        assert(nats(post@) =~= nats(old(post)@) + post_ranks(*node, start));
        assert(nats(reversed_pre@) =~= nats(old(reversed_pre)@) + post_ranks(*node, start));
        assert(nats(reversed_post@) =~= nats(old(reversed_post)@) + pre_ranks(*node, start));
    }
}

/// Builds the 2SED index of a non-empty tree.
pub fn preprocess_tree(tree: &ParsedTree, selection: TraversalSelection) -> (r: Sed2Index)
    requires
        tree.root is Some,
        tree_size(*tree) <= usize::MAX,
    ensures
        r.is_index_of(*tree, selection),
        r.is_consistent(),
        r.first_traversal@.len() == tree_size(*tree),
        r.second_traversal@.len() == tree_size(*tree),
{
    let root: &TreeNode = match &tree.root {
        Some(r) => r,
        None => {
            proof {
                assert(false);
            }
            return Sed2Index {
                first_traversal: Vec::new(),
                second_traversal: Vec::new(),
                second_to_first: Vec::new(),
                tree_size: 0,
            };
        },
    };
    let ghost t = *root;
    proof {
        lemma_traversal_lengths(t, 0);
    }
    let mut pre: Vec<i32> = Vec::new();
    let mut post: Vec<i32> = Vec::new();
    let mut reversed_preorder: Vec<i32> = Vec::new();
    let mut reversed_postorder: Vec<i32> = Vec::new();
    traverse(root, &mut pre, &mut post, &mut reversed_preorder, &mut reversed_postorder);
    let reversed_preorder = reversed(&reversed_preorder);
    let reversed_postorder = reversed(&reversed_postorder);
    proof {
        assert(pre@ =~= preorder(t));
        assert(post@ =~= postorder(t));
        assert(reversed_preorder@ =~= postorder(t).reverse());
        assert(reversed_postorder@ =~= preorder(t).reverse());
    }
    let mut pre_ids: Vec<usize> = Vec::new();
    let mut post_ids: Vec<usize> = Vec::new();
    let mut reversed_pre_ids: Vec<usize> = Vec::new();
    let mut reversed_post_ids: Vec<usize> = Vec::new();
    let mut counter: usize = 0;
    traverse_ids(
        root,
        &mut counter,
        &mut pre_ids,
        &mut post_ids,
        &mut reversed_pre_ids,
        &mut reversed_post_ids,
    );
    let reversed_pre_ids = reversed(&reversed_pre_ids);
    let reversed_post_ids = reversed(&reversed_post_ids);
    proof {
        assert(nats(pre_ids@) =~= pre_ranks(t, 0));
        assert(nats(post_ids@) =~= post_ranks(t, 0));
        assert(nats(reversed_pre_ids@) =~= post_ranks(t, 0).reverse());
        assert(nats(reversed_post_ids@) =~= pre_ranks(t, 0).reverse());
    }
    let first_ids = match selection.first {
        TraversalKind::Preorder => copy_vec(&pre_ids),
        TraversalKind::Postorder => copy_vec(&post_ids),
        TraversalKind::ReversedPreorder => copy_vec(&reversed_pre_ids),
        TraversalKind::ReversedPostorder => copy_vec(&reversed_post_ids),
    };
    let second_ids = match selection.second {
        TraversalKind::Preorder => copy_vec(&pre_ids),
        TraversalKind::Postorder => copy_vec(&post_ids),
        TraversalKind::ReversedPreorder => copy_vec(&reversed_pre_ids),
        TraversalKind::ReversedPostorder => copy_vec(&reversed_post_ids),
    };
    let n = counter;
    proof {
        assert(nats(first_ids@) == traversal_ranks(t, selection.first));
        assert(nats(second_ids@) == traversal_ranks(t, selection.second));
        assert forall|p: int| 0 <= p < first_ids@.len() implies #[trigger] first_ids@[p]
            < first_ids@.len() by {
            assert(nats(first_ids@)[p] == first_ids@[p] as nat);
        }
        assert forall|p: int| 0 <= p < second_ids@.len() implies #[trigger] second_ids@[p]
            < n by {
            assert(nats(second_ids@)[p] == second_ids@[p] as nat);
        }
    }
    let pos_in_first = invert_permutation(&first_ids);
    let mut second_to_first: Vec<usize> = Vec::new();
    let mut p: usize = 0;
    while p < n
        invariant
            p <= n,
            n == size(t),
            first_ids@.len() == n,
            second_ids@.len() == n,
            pos_in_first@ == inverse_permutation(first_ids@),
            forall|q: int| 0 <= q < n ==> #[trigger] second_ids@[q] < n,
            second_to_first@.len() == p,
            forall|q: int|
                0 <= q < p ==> #[trigger] second_to_first@[q] == last_position(
                    first_ids@,
                    second_ids@[q] as int,
                    n as nat,
                ),
        decreases n - p,
    {
        let node = second_ids[p];
        second_to_first.push(pos_in_first[node]);
        p = p + 1;
    }
    proof {
        lemma_last_position_bound(first_ids@);
        assert forall|q: int| 0 <= q < n implies #[trigger] nats(second_to_first@)[q]
            == second_to_first_of(t, selection)[q] by {
            lemma_last_position_nats(first_ids@, second_ids@[q], n as nat);
            assert(nats(second_ids@)[q] == second_ids@[q] as nat);
        }
        assert(nats(second_to_first@) =~= second_to_first_of(t, selection));
        assert forall|q: int| 0 <= q < n implies #[trigger] second_to_first@[q] < n by {
            assert(inverse_permutation(first_ids@)[second_ids@[q] as int] < n);
        }
    }
    let first_traversal = match selection.first {
        TraversalKind::Preorder => copy_vec(&pre),
        TraversalKind::Postorder => copy_vec(&post),
        TraversalKind::ReversedPreorder => copy_vec(&reversed_preorder),
        TraversalKind::ReversedPostorder => copy_vec(&reversed_postorder),
    };
    let second_traversal = match selection.second {
        TraversalKind::Preorder => copy_vec(&pre),
        TraversalKind::Postorder => copy_vec(&post),
        TraversalKind::ReversedPreorder => copy_vec(&reversed_preorder),
        TraversalKind::ReversedPostorder => copy_vec(&reversed_postorder),
    };
    Sed2Index { first_traversal, second_traversal, second_to_first, tree_size: n }
}

} // verus!
