//! The SED-EXACT lower bound: the larger of the exact edit distances of the
//! two selected traversals.

use vstd::prelude::*;

use crate::base::{
    lemma_nonempty_within_prefix, lemma_nonempty_within_suffix, lemma_nonempty_within_trees, nonempty_within, AlgorithmFactory,
    LowerBoundMethod, TraversalKind, TraversalSelection,
};
use crate::edit_distance::{edit_distance, exact_string_edit_distance, lemma_edit_distance_symmetric};
use crate::sed::{preprocess_tree, sed_value, size_gap, SEDIndex};
use crate::tree::{lemma_traversal_len, tree_size, trees_view, ParsedTree, SpecTree};

verus! {

/// The SED-EXACT algorithm with its selected pair of traversals.
pub struct SedExactAlgorithm {
    pub traversal_selection: TraversalSelection,
}

/// The SED-EXACT value: the first traversals' edit distance when it exceeds
/// `threshold`, else the larger of the two traversals' edit distances.
pub open spec fn sed_exact_value(t1: SEDIndex, t2: SEDIndex, threshold: usize) -> int {
    let first = edit_distance(t1.first_traversal@, t2.first_traversal@);
    let second = edit_distance(t1.second_traversal@, t2.second_traversal@);
    if first > threshold {
        first as int
    } else if first >= second {
        first as int
    } else {
        second as int
    }
}

impl SedExactAlgorithm {
    /// An algorithm over the traversals `first` and `second`.
    pub fn new(first: TraversalKind, second: TraversalKind) -> (r: Self)
        ensures
            r.traversal_selection == (TraversalSelection { first, second }),
    {
        SedExactAlgorithm { traversal_selection: TraversalSelection { first, second } }
    }

    /// The default selection: preorder first, postorder second.
    pub fn default() -> (r: Self)
        ensures
            r.traversal_selection == TraversalSelection::spec_default(),
    {
        SedExactAlgorithm { traversal_selection: TraversalSelection::default() }
    }
}

/// The SED-EXACT bound does not depend on which tree is the query.
pub proof fn lemma_sed_exact_symmetric(q: SEDIndex, d: SEDIndex, k: usize)
    ensures
        sed_exact_value(q, d, k) == sed_exact_value(d, q, k),
{
    lemma_edit_distance_symmetric(q.first_traversal@, d.first_traversal@);
    lemma_edit_distance_symmetric(q.second_traversal@, d.second_traversal@);
}

/// Within the threshold, the banded SED bound equals the SED-EXACT bound.
pub proof fn lemma_sed_agrees_with_exact(q: SEDIndex, d: SEDIndex, k: usize)
    requires
        size_gap(q.tree_size, d.tree_size) <= k,
        sed_exact_value(q, d, k) <= k,
    ensures
        sed_value(q, d, k) == sed_exact_value(q, d, k),
{
}

impl LowerBoundMethod for SedExactAlgorithm {
    type PreprocessedDataType = SEDIndex;

    open spec fn accepts(&self, data: Seq<Option<SpecTree>>) -> bool {
        nonempty_within(data, i32::MAX as int)
    }

    proof fn lemma_accepts_prefix(&self, a: Seq<Option<SpecTree>>, b: Seq<Option<SpecTree>>) {
        lemma_nonempty_within_prefix(a, b, i32::MAX as int);
    }

    open spec fn describes(&self, p: SEDIndex, tree: ParsedTree) -> bool {
        p.is_index_of(tree, self.traversal_selection)
    }

    open spec fn prepared(&self, p: SEDIndex) -> bool {
        p.fits()
    }

    open spec fn supports(&self, query: SEDIndex, data: SEDIndex, threshold: usize) -> bool {
        true
    }

    open spec fn bound_holds(&self, query: SEDIndex, data: SEDIndex, threshold: usize, r: usize) -> bool {
        r == sed_exact_value(query, data, threshold)
    }

    /// Preprocesses every tree of `data`.
    fn preprocess(&mut self, data: &[ParsedTree]) -> (r: Result<Vec<SEDIndex>, String>)
        ensures
            *final(self) == *old(self),
    {
        proof {
            lemma_nonempty_within_trees(data@, i32::MAX as int);
            lemma_nonempty_within_suffix(trees_view(data@), i32::MAX as int);
        }
        let sel = self.traversal_selection;
        let mut out: Vec<SEDIndex> = Vec::new();
        let mut i: usize = 0;
        while i < data.len()
            invariant
                i <= data@.len(),
                forall|j: int|
                    0 <= j < data@.len() ==> (#[trigger] data@[j]).root is Some && tree_size(data@[j])
                        <= i32::MAX,
                out@.len() == i,
                forall|j: int|
                    0 <= j < i ==> (#[trigger] out@[j]).is_index_of(data@[j], sel) && out@[j].fits(),
            decreases data@.len() - i,
        {
            let idx = preprocess_tree(&data[i], sel);
            proof {
                let root = data@[i as int].root->Some_0;
                lemma_traversal_len(root, sel.first);
                lemma_traversal_len(root, sel.second);
            }
            out.push(idx);
            i = i + 1;
        }
        Ok(out)
    }

    /// The SED-EXACT lower bound between two preprocessed trees.
    fn lower_bound(&self, query: &SEDIndex, data: &SEDIndex, threshold: usize) -> (r: usize) {
        sed_exact(query, data, threshold)
    }
}

/// Creates the SED-EXACT method.
pub struct SedExactFactory;

impl AlgorithmFactory for SedExactFactory {
    type AlgorithmType = SedExactAlgorithm;

    /// A SED-EXACT method over preorder and postorder.
    fn create_algorithm() -> (r: SedExactAlgorithm)
        ensures
            r.traversal_selection == TraversalSelection::spec_default(),
    {
        SedExactAlgorithm::default()
    }
}

/// The larger of the exact edit distances of the two traversal pairs; the
/// second is skipped when the first already exceeds `threshold`.
pub fn sed_exact(t1: &SEDIndex, t2: &SEDIndex, threshold: usize) -> (r: usize)
    requires
        t1.first_traversal@.len() < usize::MAX,
        t1.second_traversal@.len() < usize::MAX,
        t2.first_traversal@.len() < usize::MAX,
        t2.second_traversal@.len() < usize::MAX,
    ensures
        r == sed_exact_value(*t1, *t2, threshold),
{
    let first_dist = exact_string_edit_distance(&t1.first_traversal, &t2.first_traversal);
    if first_dist > threshold {
        return first_dist;
    }
    let second_dist = exact_string_edit_distance(&t1.second_traversal, &t2.second_traversal);
    if first_dist >= second_dist {
        first_dist
    } else {
        second_dist
    }
}

} // verus!
