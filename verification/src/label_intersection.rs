//! The label intersection lower bound: the larger tree size minus the
//! number of node labels the two trees share (with multiplicity).

use vstd::prelude::*;
use vstd::set::fold::is_fun_commutative;

use crate::edit_distance::prefix_distance;
use crate::fx_map::{count_map_contents, CountMap};
use crate::base::{
    lemma_nonempty_within_prefix, lemma_nonempty_within_suffix, lemma_nonempty_within_trees, nonempty_within, AlgorithmFactory,
    LowerBoundMethod,
};
use crate::tree::{
    lemma_traversal_lengths, preorder, push_preorder, size, tree_size, trees_view, LabelId,
    ParsedTree, SpecTree,
};

verus! {

/// Occurrences of each label of `s`.
pub open spec fn label_counts(s: Seq<LabelId>) -> Map<LabelId, i32>
    decreases s.len(),
{
    if s.len() == 0 {
        Map::empty()
    } else {
        let m = label_counts(s.drop_last());
        let l = s.last();
        m.insert(
            l,
            if m.contains_key(l) {
                (m[l] + 1) as i32
            } else {
                1i32
            },
        )
    }
}

/// `f` folded over `keys` from the first to the last, starting at 0.
pub open spec fn sum_over(keys: Seq<i32>, f: spec_fn(int, i32) -> int) -> int
    decreases keys.len(),
{
    if keys.len() == 0 {
        0
    } else {
        f(sum_over(keys.drop_last(), f), keys.last())
    }
}

/// Folding a commutative step over a duplicate-free sequence of keys gives
/// the fold over the set of the keys: the order does not matter.
pub proof fn lemma_sum_over_set(keys: Seq<i32>, f: spec_fn(int, i32) -> int)
    requires
        keys.no_duplicates(),
        is_fun_commutative(f),
    ensures
        sum_over(keys, f) == keys.to_set().fold(0, f),
    decreases keys.len(),
{
    if keys.len() == 0 {
        assert(keys.to_set() =~= Set::<i32>::empty());
        vstd::set::fold::lemma_fold_empty(0int, f);
    } else {
        let init = keys.drop_last();
        let l = keys.last();
        assert(init.no_duplicates());
        lemma_sum_over_set(init, f);
        assert forall|x: i32| #[trigger] keys.to_set().contains(x) == init.to_set().insert(l).contains(x) by {
            if keys.contains(x) {
                let i = choose|i: int| 0 <= i < keys.len() && keys[i] == x;
                if i < keys.len() - 1 {
                    assert(init[i] == x);
                }
            }
            if init.contains(x) {
                let i = choose|i: int| 0 <= i < init.len() && init[i] == x;
                assert(keys[i] == x);
            }
        }
        assert(keys.to_set() =~= init.to_set().insert(l));
        assert(!init.to_set().contains(l)) by {
            if init.to_set().contains(l) {
                let i = choose|i: int| 0 <= i < init.len() && init[i] == l;
                assert(keys[i] == keys[keys.len() - 1]);
            }
        }
        vstd::seq_lib::seq_to_set_is_finite(init);
        vstd::set::fold::lemma_fold_insert(init.to_set(), 0int, f, l);
    }
}

/// When every step adds a non-negative amount, the sum over a prefix is at
/// most the sum over the whole sequence.
pub proof fn lemma_sum_over_prefix(keys: Seq<i32>, f: spec_fn(int, i32) -> int, i: int)
    requires
        0 <= i <= keys.len(),
        forall|acc: int, l: i32| #[trigger] f(acc, l) >= acc,
    ensures
        sum_over(keys.take(i), f) <= sum_over(keys, f),
    decreases keys.len() - i,
{
    if i < keys.len() {
        lemma_sum_over_prefix(keys, f, i + 1);
        assert(keys.take(i + 1).drop_last() =~= keys.take(i));
        assert(f(sum_over(keys.take(i), f), keys.take(i + 1).last()) >= sum_over(keys.take(i), f));
    } else {
        assert(keys.take(i) =~= keys);
    }
}

/// One label's contribution to the intersection: the smaller of its two
/// counts when both trees have it.
pub open spec fn intersection_step(q: Map<LabelId, i32>, d: Map<LabelId, i32>) -> spec_fn(
    int,
    i32,
) -> int {
    |acc: int, l: i32|
        if q.contains_key(l) && d.contains_key(l) {
            acc + crate::edit_distance::min_int(q[l] as int, d[l] as int)
        } else {
            acc
        }
}

/// Number of node labels the two trees share, with multiplicity.
pub open spec fn label_intersection(q: Map<LabelId, i32>, d: Map<LabelId, i32>) -> int {
    q.dom().fold(0, intersection_step(q, d))
}

/// `a - b`, or 0 when `b` exceeds `a`.
pub open spec fn saturating_sub(a: int, b: int) -> int {
    if b >= a {
        0
    } else {
        a - b
    }
}

proof fn lemma_intersection_step_commutes(q: Map<LabelId, i32>, d: Map<LabelId, i32>)
    ensures
        is_fun_commutative(intersection_step(q, d)),
{
    let f = intersection_step(q, d);
    assert forall|a1: i32, a2: i32, b: int| #[trigger] f(f(b, a2), a1) == f(f(b, a1), a2) by {}
}

/// Elements on which a commutative step leaves the sum unchanged can be
/// dropped from the set that it is folded over.
pub(crate) proof fn lemma_fold_skip(s: Set<LabelId>, f: spec_fn(int, i32) -> int, keep: spec_fn(i32) -> bool)
    requires
        s.finite(),
        is_fun_commutative(f),
        forall|acc: int, l: i32| !keep(l) ==> #[trigger] f(acc, l) == acc,
    ensures
        s.filter(keep).finite(),
        s.fold(0, f) == s.filter(keep).fold(0, f),
    decreases s.len(),
{
    s.lemma_len_filter(keep);
    if s.len() == 0 {
        assert(s =~= Set::empty());
        assert(s.filter(keep) =~= Set::empty());
    } else {
        let a = s.choose();
        let rest = s.remove(a);
        lemma_fold_skip(rest, f, keep);
        assert(rest.insert(a) =~= s);
        vstd::set::fold::lemma_fold_insert(rest, 0, f, a);
        if keep(a) {
            assert(rest.filter(keep).insert(a) =~= s.filter(keep));
            vstd::set::fold::lemma_fold_insert(rest.filter(keep), 0, f, a);
        } else {
            assert(rest.filter(keep) =~= s.filter(keep));
        }
    }
}

/// The shared label count does not depend on which tree comes first.
pub proof fn lemma_label_intersection_symmetric(q: Map<LabelId, i32>, d: Map<LabelId, i32>)
    requires
        q.dom().finite(),
        d.dom().finite(),
    ensures
        label_intersection(q, d) == label_intersection(d, q),
{
    let f = intersection_step(q, d);
    let g = intersection_step(d, q);
    assert(f =~= g) by {
        assert forall|acc: int, l: i32| #[trigger] f(acc, l) == g(acc, l) by {}
    }
    lemma_intersection_step_commutes(q, d);
    let both = |l: i32| q.contains_key(l) && d.contains_key(l);
    lemma_fold_skip(q.dom(), f, both);
    lemma_fold_skip(d.dom(), f, both);
    assert(q.dom().filter(both) =~= d.dom().filter(both));
}

/// The label counts of a tree's preorder: their domain is finite, and
/// every count is at least 1 and at most the number of labels.
proof fn lemma_label_counts(s: Seq<LabelId>)
    requires
        s.len() <= i32::MAX,
    ensures
        label_counts(s).dom().finite(),
        label_counts(s).dom().len() <= s.len(),
        forall|l: LabelId| #[trigger] label_counts(s).contains_key(l) ==> 1 <= label_counts(s)[l] <= s.len(),
    decreases s.len(),
{
    if s.len() > 0 {
        lemma_label_counts(s.drop_last());
    }
}

/// Occurrences of `l` in `s`.
pub open spec fn occurrences(s: Seq<LabelId>, l: LabelId) -> nat
    decreases s.len(),
{
    if s.len() == 0 {
        0
    } else {
        occurrences(s.drop_last(), l) + if s.last() == l {
            1nat
        } else {
            0nat
        }
    }
}

/// Number of elements of `a` that pair with equal elements of `b`, each
/// element used at most once: the `n`-th occurrence of a label in `a` pairs
/// when `b` holds at least `n` of that label.
pub open spec fn common_labels(a: Seq<LabelId>, b: Seq<LabelId>) -> int
    decreases a.len(),
{
    if a.len() == 0 {
        0
    } else {
        let x = a.last();
        common_labels(a.drop_last(), b) + if occurrences(a.drop_last(), x) < occurrences(b, x) {
            1int
        } else {
            0int
        }
    }
}

/// One more element `y` in `b` pairs one more element of `a` exactly when
/// `a` holds more `y` than `b` did.
proof fn lemma_common_push_b(a: Seq<LabelId>, b: Seq<LabelId>, y: LabelId)
    ensures
        common_labels(a, b.push(y)) == common_labels(a, b) + if occurrences(a, y) > occurrences(b, y) {
            1int
        } else {
            0int
        },
    decreases a.len(),
{
    assert(b.push(y).drop_last() =~= b);
    assert(forall|l: LabelId| #[trigger] occurrences(b.push(y), l) == occurrences(b, l) + if y == l {
        1int
    } else {
        0int
    });
    if a.len() > 0 {
        let a0 = a.drop_last();
        let x = a.last();
        lemma_common_push_b(a0, b, y);
        assert(occurrences(b.push(y), x) == occurrences(b, x) + if y == x {
            1int
        } else {
            0int
        });
        assert(occurrences(a, y) == occurrences(a0, y) + if x == y {
            1int
        } else {
            0int
        });
        assert(common_labels(a, b.push(y)) == common_labels(a0, b.push(y)) + if occurrences(a0, x)
            < occurrences(b.push(y), x) {
            1int
        } else {
            0int
        });
        assert(common_labels(a, b) == common_labels(a0, b) + if occurrences(a0, x) < occurrences(b, x) {
            1int
        } else {
            0int
        });
    }
}

/// The string edit distance of two sequences is at least the longer length
/// less the number of elements they have in common.
proof fn lemma_distance_above_common(a: Seq<LabelId>, b: Seq<LabelId>, i: nat, j: nat)
    requires
        i <= a.len(),
        j <= b.len(),
    ensures
        prefix_distance(a, b, i, j) >= crate::edit_distance::max_int(i as int, j as int) - common_labels(
            a.take(i as int),
            b.take(j as int),
        ),
    decreases i + j,
{
    let ai = a.take(i as int);
    let bj = b.take(j as int);
    if i == 0 {
        assert(ai.len() == 0);
    } else if j == 0 {
        lemma_common_empty_b(ai, bj);
    } else {
        lemma_distance_above_common(a, b, (i - 1) as nat, j);
        lemma_distance_above_common(a, b, i, (j - 1) as nat);
        lemma_distance_above_common(a, b, (i - 1) as nat, (j - 1) as nat);
        let a0 = a.take(i - 1);
        let b0 = b.take(j - 1);
        assert(ai.drop_last() =~= a0);
        assert(ai.last() == a[i - 1]);
        assert(bj =~= b0.push(b[j - 1]));
        lemma_common_push_b(ai, b0, b[j - 1]);
        lemma_common_push_b(a0, b0, b[j - 1]);
        assert(a0.push(a[i - 1]) =~= ai);
        assert(forall|l: LabelId| #[trigger] occurrences(a0.push(a[i - 1]), l) == occurrences(a0, l) + if a[i
            - 1] == l {
            1int
        } else {
            0int
        }) by {
            assert(a0.push(a[i - 1]).drop_last() =~= a0);
        }
    }
}

/// Nothing of `a` pairs with an empty sequence.
proof fn lemma_common_empty_b(a: Seq<LabelId>, b: Seq<LabelId>)
    requires
        b.len() == 0,
    ensures
        common_labels(a, b) == 0,
    decreases a.len(),
{
    if a.len() > 0 {
        lemma_common_empty_b(a.drop_last(), b);
    }
}

/// The counts of a label sequence are its occurrence numbers.
proof fn lemma_label_counts_occurrences(s: Seq<LabelId>)
    requires
        s.len() <= i32::MAX,
    ensures
        forall|l: LabelId|
            #[trigger] label_counts(s).contains_key(l) <==> occurrences(s, l) > 0,
        forall|l: LabelId|
            #[trigger] label_counts(s).contains_key(l) ==> label_counts(s)[l] == occurrences(s, l),
        forall|l: LabelId| #[trigger] occurrences(s, l) <= s.len(),
    decreases s.len(),
{
    if s.len() == 0 {
        assert forall|l: LabelId| #[trigger] label_counts(s).contains_key(l) <==> occurrences(s, l) > 0 by {}
        assert forall|l: LabelId| #[trigger] occurrences(s, l) <= s.len() by {}
    } else {
        let s0 = s.drop_last();
        let x = s.last();
        lemma_label_counts_occurrences(s0);
        let m = label_counts(s0);
        assert(label_counts(s) == m.insert(x, if m.contains_key(x) { (m[x] + 1) as i32 } else { 1i32 }));
        assert forall|l: LabelId| #[trigger] label_counts(s).contains_key(l) <==> occurrences(s, l) > 0 by {
            assert(occurrences(s, l) == occurrences(s0, l) + if x == l { 1nat } else { 0nat });
        }
        assert forall|l: LabelId| #[trigger] label_counts(s).contains_key(l) implies label_counts(s)[l]
            == occurrences(s, l) by {
            assert(occurrences(s, l) == occurrences(s0, l) + if x == l { 1nat } else { 0nat });
            assert(occurrences(s0, l) <= s0.len());
        }
        assert forall|l: LabelId| #[trigger] occurrences(s, l) <= s.len() by {
            assert(occurrences(s, l) == occurrences(s0, l) + if x == l { 1nat } else { 0nat });
        }
    }
}

/// Folding two steps that agree on every element of a set gives the same
/// sum.
pub(crate) proof fn lemma_fold_congruent(s: Set<LabelId>, f: spec_fn(int, i32) -> int, g: spec_fn(int, i32) -> int)
    requires
        s.finite(),
        is_fun_commutative(f),
        is_fun_commutative(g),
        forall|acc: int, l: i32| s.contains(l) ==> #[trigger] f(acc, l) == g(acc, l),
    ensures
        s.fold(0, f) == s.fold(0, g),
    decreases s.len(),
{
    if s.len() == 0 {
        assert(s =~= Set::empty());
        vstd::set::fold::lemma_fold_empty(0int, f);
        vstd::set::fold::lemma_fold_empty(0int, g);
    } else {
        let a = s.choose();
        let rest = s.remove(a);
        lemma_fold_congruent(rest, f, g);
        assert(rest.insert(a) =~= s);
        vstd::set::fold::lemma_fold_insert(rest, 0, f, a);
        vstd::set::fold::lemma_fold_insert(rest, 0, g, a);
    }
}

/// The shared label count of two label sequences is the number of their
/// elements in common.
proof fn lemma_label_intersection_common(a: Seq<LabelId>, b: Seq<LabelId>)
    requires
        a.len() <= i32::MAX,
        b.len() <= i32::MAX,
    ensures
        label_intersection(label_counts(a), label_counts(b)) == common_labels(a, b),
    decreases a.len(),
{
    let d = label_counts(b);
    lemma_label_counts_occurrences(b);
    if a.len() == 0 {
        assert(label_counts(a).dom() =~= Set::<LabelId>::empty());
        vstd::set::fold::lemma_fold_empty(0int, intersection_step(label_counts(a), d));
    } else {
        let a0 = a.drop_last();
        let x = a.last();
        lemma_label_intersection_common(a0, b);
        lemma_label_counts_occurrences(a0);
        lemma_label_counts_occurrences(a);
        lemma_label_counts(a0);
        lemma_label_counts(a);
        let q = label_counts(a0);
        let q2 = label_counts(a);
        let f = intersection_step(q, d);
        let f2 = intersection_step(q2, d);
        lemma_intersection_step_commutes(q, d);
        lemma_intersection_step_commutes(q2, d);
        assert(q2 == q.insert(x, if q.contains_key(x) { (q[x] + 1) as i32 } else { 1i32 }));
        assert(occurrences(a, x) == occurrences(a0, x) + 1);
        if q.contains_key(x) {
            let rest = q.dom().remove(x);
            assert(rest.insert(x) =~= q.dom());
            assert(q2.dom() =~= q.dom());
            assert forall|acc: int, l: i32| rest.contains(l) implies #[trigger] f(acc, l) == f2(acc, l) by {
                assert(q2[l] == q[l]);
            }
            lemma_fold_congruent(rest, f, f2);
            vstd::set::fold::lemma_fold_insert(rest, 0, f, x);
            vstd::set::fold::lemma_fold_insert(rest, 0, f2, x);
        } else {
            assert(q2.dom() =~= q.dom().insert(x));
            assert forall|acc: int, l: i32| q.dom().contains(l) implies #[trigger] f(acc, l) == f2(acc, l) by {
                assert(q2[l] == q[l]);
            }
            lemma_fold_congruent(q.dom(), f, f2);
            vstd::set::fold::lemma_fold_insert(q.dom(), 0, f2, x);
        }
    }
}

/// The label intersection bound of two non-empty trees, the larger size
/// less the shared labels, is at most the string edit distance of their
/// preorder label sequences.
pub proof fn lemma_label_intersection_below_preorder_distance(q: LabelCountMap, d: LabelCountMap, tree1: ParsedTree, tree2: ParsedTree)
    requires
        q.is_index_of(tree1),
        d.is_index_of(tree2),
        size(tree1.root->Some_0) <= i32::MAX,
        size(tree2.root->Some_0) <= i32::MAX,
    ensures
        saturating_sub(
            crate::edit_distance::max_int(q.tree_size as int, d.tree_size as int),
            label_intersection(q.counts(), d.counts()),
        ) <= crate::edit_distance::edit_distance(preorder(tree1.root->Some_0), preorder(tree2.root->Some_0)),
{
    let a = preorder(tree1.root->Some_0);
    let b = preorder(tree2.root->Some_0);
    lemma_traversal_lengths(tree1.root->Some_0, 0);
    lemma_traversal_lengths(tree2.root->Some_0, 0);
    lemma_label_intersection_common(a, b);
    lemma_distance_above_common(a, b, a.len(), b.len());
    assert(a.take(a.len() as int) =~= a);
    assert(b.take(b.len() as int) =~= b);
}

/// Label counts of one tree and its size.
pub struct LabelCountMap {
    pub inv_index: CountMap,
    pub tree_size: usize,
}

impl LabelCountMap {
    /// The count of each label.
    pub open spec fn counts(&self) -> Map<LabelId, i32> {
        count_map_contents(self.inv_index)
    }

    /// `self` holds the label counts and the size of the non-empty `tree`.
    pub open spec fn is_index_of(&self, tree: ParsedTree) -> bool {
        &&& tree.root is Some
        &&& self.counts() == label_counts(preorder(tree.root->Some_0))
        &&& self.tree_size == size(tree.root->Some_0)
    }

    /// Finitely many labels, at most as many as nodes, each counted at least
    /// once and at most once per node, in a tree that fits in `i32`.
    pub open spec fn wf(&self) -> bool {
        &&& self.tree_size <= i32::MAX
        &&& self.counts().dom().finite()
        &&& self.counts().dom().len() <= self.tree_size
        &&& forall|l: LabelId| #[trigger]
            self.counts().contains_key(l) ==> 1 <= self.counts()[l] <= self.tree_size
    }
}

/// The label counts of a non-empty tree.
pub fn preprocess_tree(tree: &ParsedTree) -> (r: LabelCountMap)
    requires
        tree.root is Some,
        tree_size(*tree) <= i32::MAX,
    ensures
        r.is_index_of(*tree),
        r.wf(),
{
    let root = match &tree.root {
        Some(n) => n,
        None => {
            proof {
                assert(false);
            }
            return LabelCountMap { inv_index: CountMap::new(), tree_size: 0 };
        },
    };
    let mut labels: Vec<LabelId> = Vec::new();
    push_preorder(root, &mut labels);
    proof {
        assert(labels@ =~= preorder(*root));
        lemma_traversal_lengths(*root, 0);
    }
    let mut label_count = CountMap::new();
    let mut i: usize = 0;
    while i < labels.len()
        invariant
            i <= labels@.len(),
            labels@.len() <= i32::MAX,
            count_map_contents(label_count) == label_counts(labels@.take(i as int)),
        decreases labels@.len() - i,
    {
        let l = labels[i];
        proof {
            assert(labels@.take(i + 1).drop_last() =~= labels@.take(i as int));
            lemma_label_counts(labels@.take(i as int));
        }
        match label_count.get(l) {
            Some(c) => {
                label_count.insert(l, c + 1);
            },
            None => {
                label_count.insert(l, 1);
            },
        }
        i = i + 1;
    }
    proof {
        assert(labels@.take(labels@.len() as int) =~= labels@);
        lemma_label_counts(labels@);
    }
    LabelCountMap { inv_index: label_count, tree_size: tree.count() }
}

/// The label intersection method.
pub struct LabelIntersectionAlgorithm;

/// What the label intersection bound `r` at `threshold` is: `threshold + 1`
/// when the sizes differ by more than `threshold`, else at least the larger
/// size minus the shared labels, and equal to it unless below `threshold`.
pub open spec fn label_intersection_bound(
    query: LabelCountMap,
    data: LabelCountMap,
    threshold: usize,
    r: usize,
) -> bool {
    let gap = if query.tree_size >= data.tree_size {
        query.tree_size - data.tree_size
    } else {
        data.tree_size - query.tree_size
    };
    let bigger = if query.tree_size >= data.tree_size {
        query.tree_size
    } else {
        data.tree_size
    };
    let v = saturating_sub(bigger as int, label_intersection(query.counts(), data.counts()));
    &&& gap > threshold ==> r == threshold + 1
    &&& gap <= threshold ==> v <= r && (r == v || r < threshold)
}

/// Which values the label intersection bound may take does not depend on
/// which tree is the query.
pub proof fn lemma_label_intersection_bound_symmetric(
    query: LabelCountMap,
    data: LabelCountMap,
    threshold: usize,
    r: usize,
)
    requires
        query.wf(),
        data.wf(),
    ensures
        label_intersection_bound(query, data, threshold, r) == label_intersection_bound(
            data,
            query,
            threshold,
            r,
        ),
{
    lemma_label_intersection_symmetric(query.counts(), data.counts());
}

impl LowerBoundMethod for LabelIntersectionAlgorithm {
    type PreprocessedDataType = LabelCountMap;

    open spec fn accepts(&self, data: Seq<Option<SpecTree>>) -> bool {
        nonempty_within(data, i32::MAX as int)
    }

    proof fn lemma_accepts_prefix(&self, a: Seq<Option<SpecTree>>, b: Seq<Option<SpecTree>>) {
        lemma_nonempty_within_prefix(a, b, i32::MAX as int);
    }

    open spec fn describes(&self, p: LabelCountMap, tree: ParsedTree) -> bool {
        p.is_index_of(tree)
    }

    open spec fn prepared(&self, p: LabelCountMap) -> bool {
        p.wf()
    }

    open spec fn supports(&self, query: LabelCountMap, data: LabelCountMap, threshold: usize) -> bool {
        threshold < usize::MAX
    }

    open spec fn bound_holds(
        &self,
        query: LabelCountMap,
        data: LabelCountMap,
        threshold: usize,
        r: usize,
    ) -> bool {
        label_intersection_bound(query, data, threshold, r)
    }

    /// The label counts of every tree of `data`.
    fn preprocess(&mut self, data: &[ParsedTree]) -> (r: Result<Vec<LabelCountMap>, String>)
        ensures
            *final(self) == *old(self),
    {
        proof {
            lemma_nonempty_within_trees(data@, i32::MAX as int);
            lemma_nonempty_within_suffix(trees_view(data@), i32::MAX as int);
        }
        let mut out: Vec<LabelCountMap> = Vec::new();
        let mut i: usize = 0;
        while i < data.len()
            invariant
                i <= data@.len(),
                forall|j: int|
                    0 <= j < data@.len() ==> (#[trigger] data@[j]).root is Some && tree_size(data@[j])
                        <= i32::MAX,
                out@.len() == i,
                forall|j: int| 0 <= j < i ==> (#[trigger] out@[j]).is_index_of(data@[j]) && out@[j].wf(),
            decreases data@.len() - i,
        {
            out.push(preprocess_tree(&data[i]));
            i = i + 1;
        }
        Ok(out)
    }

    /// The label intersection bound at `threshold`: `threshold + 1` when the
    /// sizes differ by more than `threshold`, else the larger size minus the
    /// shared labels; the scan over the query's labels may stop early with
    /// a value below `threshold` that is still at least that bound.
    fn lower_bound(&self, query: &LabelCountMap, data: &LabelCountMap, threshold: usize) -> (r: usize)
    {
        let bigger_tree = if query.tree_size >= data.tree_size {
            query.tree_size
        } else {
            data.tree_size
        };
        let gap = if query.tree_size >= data.tree_size {
            query.tree_size - data.tree_size
        } else {
            data.tree_size - query.tree_size
        };
        if gap > threshold {
            return threshold + 1;
        }
        let ghost q = query.counts();
        let ghost d = data.counts();
        let ghost f = intersection_step(q, d);
        let keys = query.inv_index.keys();
        proof {
            lemma_intersection_step_commutes(q, d);
            lemma_sum_over_set(keys@, f);
            keys@.unique_seq_to_set();
            assert forall|acc: int, l: i32| #[trigger] f(acc, l) >= acc by {
                if q.contains_key(l) && d.contains_key(l) {
                    assert(1 <= q[l] && 1 <= d[l]);
                }
            }
        }
        let mut intersection_size: i64 = 0;
        let mut i: usize = 0;
        while i < keys.len()
            invariant
                query.wf(),
                data.wf(),
                q == query.counts(),
                d == data.counts(),
                f == intersection_step(q, d),
                keys@.to_set() == q.dom(),
                sum_over(keys@, f) == label_intersection(q, d),
                (if query.tree_size >= data.tree_size {
                    query.tree_size - data.tree_size
                } else {
                    data.tree_size - query.tree_size
                }) <= threshold,
                keys@.len() <= i32::MAX,
                forall|acc: int, l: i32| #[trigger] f(acc, l) >= acc,
                i <= keys@.len(),
                intersection_size == sum_over(keys@.take(i as int), f),
                0 <= intersection_size <= i * (i32::MAX as int),
                bigger_tree == (if query.tree_size >= data.tree_size {
                    query.tree_size
                } else {
                    data.tree_size
                }),
            decreases keys@.len() - i,
        {
            let label = keys[i];
            proof {
                assert(keys@.take(i + 1).drop_last() =~= keys@.take(i as int));
                assert(keys@.to_set().contains(label));
            }
            let q_count = match query.inv_index.get(label) {
                Some(c) => c,
                None => {
                    proof {
                        assert(false);
                    }
                    0
                },
            };
            if let Some(d_count) = data.inv_index.get(label) {
                let m = if q_count <= d_count {
                    q_count
                } else {
                    d_count
                };
                proof {
                    assert(i * (i32::MAX as int) + i32::MAX == (i + 1) * (i32::MAX as int)) by (nonlinear_arith);
                }
                intersection_size = intersection_size + m as i64;
            }
            proof {
                assert((i + 1) * (i32::MAX as int) >= i * (i32::MAX as int)) by (nonlinear_arith);
            }
            i = i + 1;
            let current = if intersection_size >= bigger_tree as i64 {
                0
            } else {
                bigger_tree - intersection_size as usize
            };
            if current < threshold {
                proof {
                    lemma_sum_over_prefix(keys@, f, i as int);
                }
                return current;
            }
        }
        proof {
            assert(keys@.take(keys@.len() as int) =~= keys@);
        }
        if intersection_size >= bigger_tree as i64 {
            0
        } else {
            bigger_tree - intersection_size as usize
        }
    }
}

/// Creates the label intersection method.
pub struct LabelIntersectionFactory;

impl AlgorithmFactory for LabelIntersectionFactory {
    type AlgorithmType = LabelIntersectionAlgorithm;

    /// The label intersection method.
    fn create_algorithm() -> LabelIntersectionAlgorithm {
        LabelIntersectionAlgorithm
    }
}

} // verus!
