//! Shared vocabulary of the lower-bound methods.

use vstd::prelude::*;

use crate::tree::{lemma_parsed_view_size, parsed_view, tree_size, trees_view, view_size, ParsedTree, SpecTree};

verus! {

/// One of the four traversal orders of a tree.
#[derive(Debug, Clone, Copy, PartialEq, Eq, Structural)]
pub enum TraversalKind {
    Preorder,
    Postorder,
    /// Preorder of the mirrored tree (the reverse of the postorder).
    ReversedPreorder,
    /// Postorder of the mirrored tree (the reverse of the preorder).
    ReversedPostorder,
}

/// The two traversals that a string-based lower bound compares.
#[derive(Debug, Clone, Copy, PartialEq, Eq, Structural)]
pub struct TraversalSelection {
    pub first: TraversalKind,
    pub second: TraversalKind,
}

impl TraversalSelection {
    /// Preorder first, postorder second.
    pub open spec fn spec_default() -> TraversalSelection {
        TraversalSelection { first: TraversalKind::Preorder, second: TraversalKind::Postorder }
    }

    /// Preorder first, postorder second.
    pub fn default() -> (r: TraversalSelection)
        ensures
            r == Self::spec_default(),
    {
        TraversalSelection { first: TraversalKind::Preorder, second: TraversalKind::Postorder }
    }
}

/// Identifies the different algorithm types.
#[derive(Debug, Clone, Copy, PartialEq, Eq, Structural)]
pub enum AlgorithmType {
    Sed,
    StringStruct,
    StructuralVectors,
    BinaryBranch,
    LabelIntersection,
    Histogram,
}


/// Every tree is present and has at most `bound` nodes.
pub open spec fn nonempty_within(data: Seq<Option<SpecTree>>, bound: int) -> bool {
    forall|i: int|
        0 <= i < data.len() ==> (#[trigger] data[i]) is Some && view_size(data[i]->Some_0) <= bound
}

/// What holds of every tree holds of the trees after a prefix.
pub proof fn lemma_nonempty_within_suffix(a: Seq<Option<SpecTree>>, bound: int)
    ensures
        forall|rest: Seq<Option<SpecTree>>| #[trigger]
            nonempty_within(a + rest, bound) ==> nonempty_within(rest, bound),
{
    assert forall|rest: Seq<Option<SpecTree>>| #[trigger]
        nonempty_within(a + rest, bound) implies nonempty_within(rest, bound) by {
        assert forall|i: int| 0 <= i < rest.len() implies (#[trigger] rest[i]) is Some
            && view_size(rest[i]->Some_0) <= bound by {
            assert((a + rest)[a.len() + i] == rest[i]);
        }
    }
}

/// What holds of every tree holds of the trees of a prefix.
pub proof fn lemma_nonempty_within_prefix(
    a: Seq<Option<SpecTree>>,
    b: Seq<Option<SpecTree>>,
    bound: int,
)
    requires
        nonempty_within(a + b, bound),
    ensures
        nonempty_within(a, bound),
{
    assert forall|i: int| 0 <= i < a.len() implies (#[trigger] a[i]) is Some && view_size(
        a[i]->Some_0,
    ) <= bound by {
        assert((a + b)[i] == a[i]);
    }
}

/// The values of parsed trees bound the parsed trees themselves.
pub proof fn lemma_nonempty_within_trees(data: Seq<ParsedTree>, bound: int)
    requires
        nonempty_within(trees_view(data), bound),
    ensures
        forall|i: int|
            0 <= i < data.len() ==> (#[trigger] data[i]).root is Some && tree_size(data[i])
                <= bound,
{
    assert forall|i: int| 0 <= i < data.len() implies (#[trigger] data[i]).root is Some
        && tree_size(data[i]) <= bound by {
        lemma_parsed_view_size(data[i]);
        assert(trees_view(data)[i] == parsed_view(data[i]));
    }
}

/// A lower-bound method for the tree edit distance: trees are preprocessed
/// once, then any two preprocessed trees give a bound at a threshold.
pub trait LowerBoundMethod {
    /// What preprocessing makes of one tree.
    type PreprocessedDataType;

    /// The method takes trees with these values, in this order.
    spec fn accepts(&self, data: Seq<Option<SpecTree>>) -> bool;

    /// A method that takes some trees takes the trees of any prefix.
    proof fn lemma_accepts_prefix(&self, a: Seq<Option<SpecTree>>, b: Seq<Option<SpecTree>>)
        requires
            self.accepts(a + b),
        ensures
            self.accepts(a),
    ;

    /// `p` is what preprocessing makes of `tree`.
    spec fn describes(&self, p: Self::PreprocessedDataType, tree: ParsedTree) -> bool;

    /// What `lower_bound` needs of a preprocessed tree.
    spec fn prepared(&self, p: Self::PreprocessedDataType) -> bool;

    /// `lower_bound` takes the two trees at this threshold.
    spec fn supports(
        &self,
        query: Self::PreprocessedDataType,
        data: Self::PreprocessedDataType,
        threshold: usize,
    ) -> bool;

    /// What is known of a bound `r` given for the two trees at `threshold`.
    spec fn bound_holds(
        &self,
        query: Self::PreprocessedDataType,
        data: Self::PreprocessedDataType,
        threshold: usize,
        r: usize,
    ) -> bool;

    /// Preprocesses every tree of `data`, in order.
    fn preprocess(&mut self, data: &[ParsedTree]) -> (r: Result<
        Vec<Self::PreprocessedDataType>,
        String,
    >)
        requires
            old(self).accepts(trees_view(data@)),
        ensures
            r matches Ok(v) && v@.len() == data@.len() && forall|i: int|
                0 <= i < v@.len() ==> final(self).prepared(#[trigger] v@[i])
                    && final(self).describes(v@[i], data@[i]),
            forall|p: Self::PreprocessedDataType| #[trigger]
                old(self).prepared(p) ==> final(self).prepared(p),
            forall|p: Self::PreprocessedDataType, t: ParsedTree| #[trigger]
                old(self).describes(p, t) ==> final(self).describes(p, t),
            forall|rest: Seq<Option<SpecTree>>| #[trigger]
                old(self).accepts(trees_view(data@) + rest) ==> final(self).accepts(rest),
            forall|q: Self::PreprocessedDataType, d: Self::PreprocessedDataType, k: usize| #[trigger]
                final(self).supports(q, d, k) == old(self).supports(q, d, k),
            forall|
                q: Self::PreprocessedDataType,
                d: Self::PreprocessedDataType,
                k: usize,
                b: usize,
            | #[trigger] final(self).bound_holds(q, d, k, b) == old(self).bound_holds(q, d, k, b),
    ;

    /// The bound for `query` against `data` at `threshold`.
    fn lower_bound(
        &self,
        query: &Self::PreprocessedDataType,
        data: &Self::PreprocessedDataType,
        threshold: usize,
    ) -> (r: usize)
        requires
            self.prepared(*query),
            self.prepared(*data),
            self.supports(*query, *data, threshold),
        ensures
            self.bound_holds(*query, *data, threshold, r),
    ;
}

/// Makes a lower-bound method of one kind.
pub trait AlgorithmFactory {
    /// The method made.
    type AlgorithmType;

    /// A new method.
    fn create_algorithm() -> Self::AlgorithmType;
}

} // verus!
