//! The binary branch lower bound: every node contributes its binary branch
//! (label, first child's label, right sibling's label); a fifth of the
//! binary branch distance bounds the tree edit distance from below.

use vstd::prelude::*;
use vstd::set::fold::is_fun_commutative;

use crate::fx_map::{branch_id_map_contents, count_map_contents, BranchIdMap, BranchTuple, CountMap};
use crate::label_intersection::{
    intersection_step, label_intersection, lemma_label_intersection_symmetric, lemma_sum_over_set, saturating_sub, sum_over,
};
use crate::base::{
    lemma_nonempty_within_prefix, lemma_nonempty_within_suffix, lemma_nonempty_within_trees, nonempty_within, AlgorithmFactory,
    LowerBoundMethod,
};
use crate::tree::{
    lemma_parsed_view_size, parsed_view_size, size, tree_size, trees_view, LabelId, ParsedTree,
    SpecTree, TreeNode,
};

verus! {

/// The label of the first child, if any.
pub open spec fn first_child_label(t: TreeNode) -> Option<LabelId> {
    if t.children@.len() > 0 {
        Some(t.children@[0].label)
    } else {
        None
    }
}

/// Binary branches of the subtree at `t` in preorder, `t`'s right sibling
/// having label `right`.
pub open spec fn branch_tuples(t: TreeNode, right: Option<LabelId>) -> Seq<BranchTuple>
    decreases t,
{
    seq![(t.label, first_child_label(t), right)] + forest_branch_tuples(t.children@, None)
}

/// Binary branches of a sequence of sibling subtrees, left to right, the
/// last one's right sibling having label `last_right`.
pub open spec fn forest_branch_tuples(s: Seq<TreeNode>, last_right: Option<LabelId>) -> Seq<
    BranchTuple,
>
    decreases s,
{
    if s.len() == 0 {
        Seq::empty()
    } else {
        forest_branch_tuples(s.drop_last(), Some(s.last().label)) + branch_tuples(
            s.last(),
            last_right,
        )
    }
}

/// Identifiers handed out while numbering `tuples` in order: a known
/// branch keeps its identifier, a new one gets the next. Gives the map, the
/// last identifier and the identifiers of the tuples.
pub open spec fn number_branches(
    m: Map<BranchTuple, i32>,
    last: int,
    tuples: Seq<BranchTuple>,
) -> (Map<BranchTuple, i32>, int, Seq<i32>)
    decreases tuples.len(),
{
    if tuples.len() == 0 {
        (m, last, Seq::empty())
    } else {
        let (m1, last1, ids1) = number_branches(m, last, tuples.drop_last());
        let t = tuples.last();
        if m1.contains_key(t) {
            (m1, last1, ids1.push(m1[t]))
        } else {
            (m1.insert(t, (last1 + 1) as i32), last1 + 1, ids1.push((last1 + 1) as i32))
        }
    }
}

/// `m` with one more occurrence of each of `ids`.
pub open spec fn add_counts(m: Map<i32, i32>, ids: Seq<i32>) -> Map<i32, i32>
    decreases ids.len(),
{
    if ids.len() == 0 {
        m
    } else {
        let m1 = add_counts(m, ids.drop_last());
        let l = ids.last();
        m1.insert(
            l,
            if m1.contains_key(l) {
                (m1[l] + 1) as i32
            } else {
                1i32
            },
        )
    }
}

proof fn lemma_number_concat(
    m: Map<BranchTuple, i32>,
    last: int,
    a: Seq<BranchTuple>,
    b: Seq<BranchTuple>,
)
    ensures
        ({
            let (m1, l1, ids1) = number_branches(m, last, a);
            let (m2, l2, ids2) = number_branches(m1, l1, b);
            number_branches(m, last, a + b) == (m2, l2, ids1 + ids2)
        }),
    decreases b.len(),
{
    if b.len() == 0 {
        assert(a + b =~= a);
        let (m1, l1, ids1) = number_branches(m, last, a);
        assert(ids1 + Seq::<i32>::empty() =~= ids1);
    } else {
        lemma_number_concat(m, last, a, b.drop_last());
        assert((a + b).drop_last() =~= a + b.drop_last());
        let (m1, l1, ids1) = number_branches(m, last, a);
        let (m2, l2, ids2) = number_branches(m1, l1, b.drop_last());
        let (m3, l3, ids3) = number_branches(m1, l1, b);
        assert((ids1 + ids2).push(ids3.last()) =~= ids1 + ids3);
    }
}

proof fn lemma_add_counts_concat(m: Map<i32, i32>, a: Seq<i32>, b: Seq<i32>)
    ensures
        add_counts(m, a + b) == add_counts(add_counts(m, a), b),
    decreases b.len(),
{
    if b.len() == 0 {
        assert(a + b =~= a);
    } else {
        lemma_add_counts_concat(m, a, b.drop_last());
        assert((a + b).drop_last() =~= a + b.drop_last());
    }
}

proof fn lemma_add_counts_growth(m: Map<i32, i32>, ids: Seq<i32>)
    requires
        forall|l: i32| #[trigger] m.contains_key(l) ==> 0 <= m[l] && m[l] + ids.len() <= i32::MAX,
        ids.len() <= i32::MAX,
    ensures
        forall|l: i32| #[trigger] add_counts(m, ids).contains_key(l) ==> 0 <= add_counts(m, ids)[l] <= (if m.contains_key(l) {
            m[l] as int
        } else {
            0
        }) + ids.len(),
        forall|l: i32| m.contains_key(l) ==> #[trigger] add_counts(m, ids).contains_key(l),
    decreases ids.len(),
{
    if ids.len() > 0 {
        lemma_add_counts_growth(m, ids.drop_last());
        let m1 = add_counts(m, ids.drop_last());
        let x = ids.last();
        assert forall|l: i32| m.contains_key(l) implies #[trigger] add_counts(m, ids).contains_key(l) by {
            assert(m1.contains_key(l));
        }
    }
}

proof fn lemma_number_bounds(m: Map<BranchTuple, i32>, last: int, tuples: Seq<BranchTuple>)
    ensures
        ({
            let (m1, l1, ids) = number_branches(m, last, tuples);
            &&& last <= l1 <= last + tuples.len()
            &&& ids.len() == tuples.len()
        }),
    decreases tuples.len(),
{
    if tuples.len() > 0 {
        lemma_number_bounds(m, last, tuples.drop_last());
    }
}

proof fn lemma_branch_len(t: TreeNode, right: Option<LabelId>)
    ensures
        branch_tuples(t, right).len() == size(t),
    decreases t,
{
    lemma_forest_branch_len(t.children@, None);
}

proof fn lemma_forest_branch_len(s: Seq<TreeNode>, last_right: Option<LabelId>)
    ensures
        forest_branch_tuples(s, last_right).len() == crate::tree::forest_size(s),
    decreases s,
{
    if s.len() > 0 {
        lemma_forest_branch_len(s.drop_last(), Some(s.last().label));
        lemma_branch_len(s.last(), last_right);
    }
}

/// The binary branch counts of one tree and its size.
pub struct BinaryBranchTree {
    pub size: usize,
    pub branch_vector: CountMap,
}

impl BinaryBranchTree {
    /// Number of occurrences of each branch identifier.
    pub open spec fn counts(&self) -> Map<i32, i32> {
        count_map_contents(self.branch_vector)
    }

    /// Finitely many identifiers, each counted at least once and at most
    /// once per node, in a tree that fits in `i32`.
    pub open spec fn wf(&self) -> bool {
        &&& self.size <= i32::MAX
        &&& self.counts().dom().finite()
        &&& self.counts().dom().len() <= self.size
        &&& forall|l: i32| #[trigger] self.counts().contains_key(l) ==> 1 <= self.counts()[l] <= self.size
    }
}

proof fn lemma_add_counts_bounds(s: Seq<i32>)
    requires
        s.len() <= i32::MAX,
    ensures
        add_counts(Map::empty(), s).dom().finite(),
        add_counts(Map::empty(), s).dom().len() <= s.len(),
        forall|l: i32| #[trigger] add_counts(Map::empty(), s).contains_key(l) ==> 1 <= add_counts(
            Map::empty(),
            s,
        )[l] <= s.len(),
    decreases s.len(),
{
    if s.len() > 0 {
        lemma_add_counts_bounds(s.drop_last());
    }
}

/// The binary branch method: numbers binary branches across all trees it
/// preprocesses.
pub struct BinaryBranchAlgorithm {
    bb_id: i32,
    binary_branch_id_map: BranchIdMap,
}

impl BinaryBranchAlgorithm {
    /// The identifiers handed out so far.
    pub closed spec fn numbering(&self) -> Map<BranchTuple, i32> {
        branch_id_map_contents(self.binary_branch_id_map)
    }

    /// The last identifier handed out.
    pub closed spec fn last_id(&self) -> int {
        self.bb_id as int
    }

    /// A method that has numbered no branch yet.
    pub fn default() -> (r: Self)
        ensures
            r.numbering() == Map::<BranchTuple, i32>::empty(),
            r.last_id() == 0,
    {
        BinaryBranchAlgorithm { bb_id: 0, binary_branch_id_map: BranchIdMap::new() }
    }

    /// Numbers the branches of the subtree at `root` (whose right sibling
    /// has label `right_sibling_label`) in preorder and counts their
    /// identifiers into `branch_vector`.
    fn create_vector(
        &mut self,
        root: &TreeNode,
        right_sibling_label: Option<LabelId>,
        branch_vector: &mut CountMap,
    )
        requires
            old(self).bb_id + size(*root) <= i32::MAX,
            old(self).bb_id >= 0,
            forall|l: i32| #[trigger]
                count_map_contents(*old(branch_vector)).contains_key(l) ==> 0 <= count_map_contents(
                    *old(branch_vector),
                )[l] && count_map_contents(*old(branch_vector))[l] + size(*root) <= i32::MAX,
        ensures
            ({
                let (m, last, ids) = number_branches(
                    old(self).numbering(),
                    old(self).last_id(),
                    branch_tuples(*root, right_sibling_label),
                );
                &&& final(self).numbering() == m
                &&& final(self).last_id() == last
                &&& count_map_contents(*final(branch_vector)) == add_counts(
                    count_map_contents(*old(branch_vector)),
                    ids,
                )
            }),
        decreases root,
    {
        let ghost m0 = self.numbering();
        let ghost l0 = self.last_id();
        let ghost c0 = count_map_contents(*branch_vector);
        let children = &root.children;
        let left_label = if children.len() > 0 {
            Some(children[0].label)
        } else {
            None
        };
        let bb_tuple: BranchTuple = (root.label, left_label, right_sibling_label);
        proof {
            crate::tree::lemma_traversal_lengths(*root, 0);
        }
        let bb_id = match self.binary_branch_id_map.get(bb_tuple) {
            Some(id) => id,
            None => {
                self.bb_id = self.bb_id + 1;
                self.binary_branch_id_map.insert(bb_tuple, self.bb_id);
                self.bb_id
            },
        };
        match branch_vector.get(bb_id) {
            Some(c) => branch_vector.insert(bb_id, c + 1),
            None => branch_vector.insert(bb_id, 1),
        }
        let n = children.len();
        let ghost head = seq![bb_tuple];
        proof {
            assert(head.drop_last() =~= Seq::<BranchTuple>::empty());
            assert(head.last() == bb_tuple);
            assert(number_branches(m0, l0, Seq::<BranchTuple>::empty()) == (m0, l0, Seq::<i32>::empty()));
            assert(number_branches(m0, l0, head) == number_branches(m0, l0, head.drop_last().push(bb_tuple)));
            let (mh, lh, idh) = number_branches(m0, l0, head);
            assert(idh =~= seq![bb_id]);
            assert(mh == self.numbering());
            assert(lh == self.last_id());
            assert(seq![bb_id].drop_last() =~= Seq::<i32>::empty());
            assert(add_counts(c0, Seq::<i32>::empty()) == c0);
            assert(add_counts(c0, seq![bb_id]) == count_map_contents(*branch_vector));
            assert(head + forest_branch_tuples(
                root.children@.take(0),
                if 0 < n {
                    Some(root.children@[0].label)
                } else {
                    None
                },
            ) =~= head);
        }
        proof {
            assert(root.children@.take(0) =~= Seq::<TreeNode>::empty());
        }
        let mut i: usize = 0;
        while i < n
            invariant
                i <= n,
                n == root.children@.len(),
                children == &root.children,
                l0 >= 0,
                l0 + size(*root) <= i32::MAX,
                forall|l: i32| #[trigger] c0.contains_key(l) ==> 0 <= c0[l] && c0[l] + size(*root) <= i32::MAX,
                head =~= seq![(root.label, first_child_label(*root), right_sibling_label)],
                size(*root) == 1 + crate::tree::forest_size(root.children@),
                ({
                    let done = head + forest_branch_tuples(
                        root.children@.take(i as int),
                        if i < n {
                            Some(root.children@[i as int].label)
                        } else {
                            None
                        },
                    );
                    let (m, last, ids) = number_branches(m0, l0, done);
                    &&& self.numbering() == m
                    &&& self.last_id() == last
                    &&& count_map_contents(*branch_vector) == add_counts(c0, ids)
                }),
            decreases n - i,
        {
            let right = if i + 1 < n {
                Some(children[i + 1].label)
            } else {
                None
            };
            let ghost done = head + forest_branch_tuples(
                root.children@.take(i as int),
                Some(root.children@[i as int].label),
            );
            let ghost child_tuples = branch_tuples(root.children@[i as int], right);
            proof {
                crate::tree::lemma_take_succ(root.children@, i as int);
                crate::tree::lemma_forest_size_prefix(root.children@, i + 1);
                crate::tree::lemma_forest_size_prefix(root.children@, i as int);
                lemma_forest_branch_len(root.children@.take(i as int), Some(root.children@[i as int].label));
                lemma_number_bounds(m0, l0, done);
                let (md, ld, idd) = number_branches(m0, l0, done);
                lemma_add_counts_growth(c0, idd);
                assert(forest_branch_tuples(root.children@.take(i + 1), right) == forest_branch_tuples(
                    root.children@.take(i as int),
                    Some(root.children@[i as int].label),
                ) + child_tuples);
                assert(head + forest_branch_tuples(root.children@.take(i + 1), right) =~= done + child_tuples);
                lemma_number_concat(m0, l0, done, child_tuples);
                let (mc, lc, idc) = number_branches(md, ld, child_tuples);
                lemma_add_counts_concat(c0, idd, idc);
                assert(crate::tree::forest_size(root.children@.take(i + 1)) == crate::tree::forest_size(
                    root.children@.take(i as int),
                ) + size(root.children@[i as int]));
            }
            self.create_vector(&children[i], right, branch_vector);
            i = i + 1;
        }
        proof {
            assert(root.children@.take(n as int) =~= root.children@);
        }
    }
}

/// Number of nodes of the first `n` trees.
pub open spec fn trees_size(data: Seq<ParsedTree>, n: int) -> int
    decreases n,
{
    if n <= 0 {
        0
    } else {
        trees_size(data, n - 1) + tree_size(data[n - 1])
    }
}

proof fn lemma_trees_size_prefix(data: Seq<ParsedTree>, i: int, n: int)
    requires
        0 <= i <= n,
    ensures
        trees_size(data, i) <= trees_size(data, n),
    decreases n - i,
{
    if i < n {
        lemma_trees_size_prefix(data, i, n - 1);
    }
}

/// The numbering and last identifier after the first `n` trees of `data`.
pub open spec fn numbering_after(
    m: Map<BranchTuple, i32>,
    last: int,
    data: Seq<ParsedTree>,
    n: int,
) -> (Map<BranchTuple, i32>, int)
    decreases n,
{
    if n <= 0 {
        (m, last)
    } else {
        let (m1, l1) = numbering_after(m, last, data, n - 1);
        let (m2, l2, ids) = number_branches(m1, l1, branch_tuples(data[n - 1].root->Some_0, None));
        (m2, l2)
    }
}

/// The binary branches of `t` in preorder, each under its identifier in `m`.
pub open spec fn branch_ids(m: Map<BranchTuple, i32>, tuples: Seq<BranchTuple>) -> Seq<i32> {
    tuples.map_values(|t: BranchTuple| m[t])
}

/// Every one of `tuples` has an identifier in `m`.
pub open spec fn numbered_in(m: Map<BranchTuple, i32>, tuples: Seq<BranchTuple>) -> bool {
    forall|i: int| 0 <= i < tuples.len() ==> m.contains_key(#[trigger] tuples[i])
}

/// `m2` keeps every identifier of `m1`.
pub open spec fn extends(m2: Map<BranchTuple, i32>, m1: Map<BranchTuple, i32>) -> bool {
    forall|t: BranchTuple| #[trigger] m1.contains_key(t) ==> m2.contains_key(t) && m2[t] == m1[t]
}

/// `p` holds the size of `tree` and the number of occurrences of the
/// identifier, under the numbering `m`, of each of its binary branches.
pub open spec fn counts_branches(m: Map<BranchTuple, i32>, p: BinaryBranchTree, tree: ParsedTree) -> bool {
    &&& tree.root is Some
    &&& p.size == tree_size(tree)
    &&& numbered_in(m, branch_tuples(tree.root->Some_0, None))
    &&& p.counts() == add_counts(Map::empty(), branch_ids(m, branch_tuples(tree.root->Some_0, None)))
}

/// Numbering hands out identifiers that it keeps: the identifiers of the
/// tuples are those of the final numbering.
proof fn lemma_number_ids(m: Map<BranchTuple, i32>, last: int, tuples: Seq<BranchTuple>)
    ensures
        ({
            let (m1, l1, ids) = number_branches(m, last, tuples);
            &&& extends(m1, m)
            &&& numbered_in(m1, tuples)
            &&& ids == branch_ids(m1, tuples)
        }),
    decreases tuples.len(),
{
    if tuples.len() == 0 {
        assert(branch_ids(m, tuples) =~= Seq::<i32>::empty());
    } else {
        let dl = tuples.drop_last();
        lemma_number_ids(m, last, dl);
        let (ma, la, ida) = number_branches(m, last, dl);
        let t = tuples.last();
        let (m1, l1, ids) = number_branches(m, last, tuples);
        let n = tuples.len() - 1;
        assert forall|i: int| 0 <= i < n implies #[trigger] tuples[i] == dl[i] && ma.contains_key(
            dl[i],
        ) by {}
        if !ma.contains_key(t) {
            assert forall|k: BranchTuple| #[trigger] m.contains_key(k) implies m1.contains_key(k)
                && m1[k] == m[k] by {
                assert(ma.contains_key(k));
            }
        }
        assert forall|i: int| 0 <= i < tuples.len() implies m1.contains_key(#[trigger] tuples[i]) by {
            if i < n {
                assert(ma.contains_key(dl[i]));
            }
        }
        assert forall|i: int| 0 <= i < tuples.len() implies #[trigger] ids[i] == branch_ids(
            m1,
            tuples,
        )[i] by {
            if i < n {
                assert(ida[i] == ma[dl[i]]);
                assert(ma.contains_key(dl[i]));
            }
        }
        assert(ids =~= branch_ids(m1, tuples));
    }
}

/// A numbering that keeps every identifier of another gives the same
/// identifiers to tuples that the other numbers.
proof fn lemma_extends_keeps_ids(
    m1: Map<BranchTuple, i32>,
    m2: Map<BranchTuple, i32>,
    tuples: Seq<BranchTuple>,
)
    requires
        extends(m2, m1),
    ensures
        numbered_in(m1, tuples) ==> numbered_in(m2, tuples) && branch_ids(m2, tuples) == branch_ids(
            m1,
            tuples,
        ),
{
    if numbered_in(m1, tuples) {
        assert forall|i: int| 0 <= i < tuples.len() implies m2.contains_key(#[trigger] tuples[i]) by {
            assert(m1.contains_key(tuples[i]));
        }
        assert forall|i: int| 0 <= i < tuples.len() implies #[trigger] branch_ids(m2, tuples)[i]
            == branch_ids(m1, tuples)[i] by {
            assert(m1.contains_key(tuples[i]));
        }
        assert(branch_ids(m2, tuples) =~= branch_ids(m1, tuples));
    }
}

/// Total number of nodes of tree values.
pub open spec fn views_size(s: Seq<Option<SpecTree>>) -> int
    decreases s.len(),
{
    if s.len() == 0 {
        0
    } else {
        views_size(s.drop_last()) + parsed_view_size(s.last())
    }
}

proof fn lemma_views_size_concat(a: Seq<Option<SpecTree>>, b: Seq<Option<SpecTree>>)
    ensures
        views_size(a + b) == views_size(a) + views_size(b),
    decreases b.len(),
{
    if b.len() == 0 {
        assert(a + b =~= a);
    } else {
        lemma_views_size_concat(a, b.drop_last());
        assert((a + b).drop_last() =~= a + b.drop_last());
    }
}

proof fn lemma_views_size_nonneg(s: Seq<Option<SpecTree>>)
    ensures
        views_size(s) >= 0,
    decreases s.len(),
{
    if s.len() > 0 {
        lemma_views_size_nonneg(s.drop_last());
    }
}

proof fn lemma_views_size_trees(data: Seq<ParsedTree>, n: int)
    requires
        0 <= n <= data.len(),
    ensures
        views_size(trees_view(data).take(n)) == trees_size(data, n),
    decreases n,
{
    if n > 0 {
        lemma_views_size_trees(data, n - 1);
        assert(trees_view(data).take(n).drop_last() =~= trees_view(data).take(n - 1));
        lemma_parsed_view_size(data[n - 1]);
    }
}

/// Among the binary branches of sibling subtrees, the one of sibling `i`
/// carries its own label, its first child's label, and the next sibling's
/// label (`last_right` for the last sibling).
proof fn lemma_forest_branch_of_sibling(s: Seq<TreeNode>, last_right: Option<LabelId>, i: int)
    requires
        0 <= i < s.len(),
    ensures
        forest_branch_tuples(s, last_right).contains(
            (
                s[i].label,
                if s[i].children@.len() > 0 {
                    Some(s[i].children@[0].label)
                } else {
                    None
                },
                if i + 1 < s.len() {
                    Some(s[i + 1].label)
                } else {
                    last_right
                },
            ),
        ),
    decreases s,
{
    let d = s.drop_last();
    let head = forest_branch_tuples(d, Some(s.last().label));
    let tail = branch_tuples(s.last(), last_right);
    assert(forest_branch_tuples(s, last_right) == head + tail);
    if i == s.len() - 1 {
        assert((head + tail)[head.len() as int] == tail[0]);
    } else {
        lemma_forest_branch_of_sibling(d, Some(s.last().label), i);
        assert(d[i] == s[i]);
        if i + 1 < d.len() {
            assert(d[i + 1] == s[i + 1]);
        }
        let w = choose|w: int| 0 <= w < head.len() && head[w] == (
            d[i].label,
            if d[i].children@.len() > 0 {
                Some(d[i].children@[0].label)
            } else {
                None
            },
            if i + 1 < d.len() {
                Some(d[i + 1].label)
            } else {
                Some(s.last().label)
            },
        );
        assert((head + tail)[w] == head[w]);
    }
}

/// The binary branches of a tree start with the root's own branch, and hold
/// for each child of the root its branch: its label, its first child's label,
/// and its right sibling's label (none for the last child). So two trees
/// that differ only in the order of sibling leaves record different leaf
/// branches.
pub proof fn lemma_branch_of_each_child(t: TreeNode, right: Option<LabelId>, i: int)
    requires
        0 <= i < t.children@.len(),
    ensures
        branch_tuples(t, right)[0] == (
            t.label,
            if t.children@.len() > 0 {
                Some(t.children@[0].label)
            } else {
                None
            },
            right,
        ),
        branch_tuples(t, right).contains(
            (
                t.children@[i].label,
                if t.children@[i].children@.len() > 0 {
                    Some(t.children@[i].children@[0].label)
                } else {
                    None
                },
                if i + 1 < t.children@.len() {
                    Some(t.children@[i + 1].label)
                } else {
                    None
                },
            ),
        ),
{
    let c = t.children@;
    lemma_forest_branch_of_sibling(c, None, i);
    let head = seq![(t.label, first_child_label(t), right)];
    let rest = forest_branch_tuples(c, None);
    assert(branch_tuples(t, right) == head + rest);
    let w = choose|w: int| 0 <= w < rest.len() && rest[w] == (
        c[i].label,
        if c[i].children@.len() > 0 {
            Some(c[i].children@[0].label)
        } else {
            None
        },
        if i + 1 < c.len() {
            Some(c[i + 1].label)
        } else {
            None
        },
    );
    assert((head + rest)[w + 1] == rest[w]);
}

/// Counting a sequence of identifiers counts each of them at least once.
proof fn lemma_add_counts_holds(ids: Seq<i32>, w: int)
    requires
        0 <= w < ids.len(),
        ids.len() <= i32::MAX,
    ensures
        add_counts(Map::empty(), ids).contains_key(ids[w]),
        add_counts(Map::empty(), ids)[ids[w]] >= 1,
    decreases ids.len(),
{
    if w < ids.len() - 1 {
        lemma_add_counts_holds(ids.drop_last(), w);
        assert(ids.drop_last()[w] == ids[w]);
    }
    assert(add_counts(Map::empty(), ids).contains_key(ids[w]));
    lemma_add_counts_bounds(ids);
}

/// The binary branch counts of a tree count, for each child of the root
/// that has a right sibling, the branch that carries that sibling's label:
/// (label of the child, label of its first child, label of the next child).
pub proof fn lemma_bib_counts_sibling_branch(m: Map<BranchTuple, i32>, p: BinaryBranchTree, tree: ParsedTree, i: int)
    requires
        counts_branches(m, p, tree),
        p.wf(),
        0 <= i < tree.root->Some_0.children@.len() - 1,
    ensures
        ({
            let c = tree.root->Some_0.children@;
            let b = (
                c[i].label,
                if c[i].children@.len() > 0 {
                    Some(c[i].children@[0].label)
                } else {
                    None
                },
                Some(c[i + 1].label),
            );
            &&& m.contains_key(b)
            &&& p.counts().contains_key(m[b])
            &&& p.counts()[m[b]] >= 1
        }),
{
    let t = tree.root->Some_0;
    let c = t.children@;
    let tuples = branch_tuples(t, None);
    lemma_branch_of_each_child(t, None, i);
    lemma_branch_len(t, None);
    let b = (
        c[i].label,
        if c[i].children@.len() > 0 {
            Some(c[i].children@[0].label)
        } else {
            None
        },
        Some(c[i + 1].label),
    );
    let w = choose|w: int| 0 <= w < tuples.len() && tuples[w] == b;
    assert(m.contains_key(tuples[w]));
    let ids = branch_ids(m, tuples);
    assert(ids[w] == m[b]);
    lemma_add_counts_holds(ids, w);
}

/// What the binary branch bound `r` at `threshold` is: `threshold + 1` when
/// the sizes differ by more than `threshold`, else a fifth (rounded down)
/// of the sum of the sizes minus twice the number of shared binary branches.
pub open spec fn bib_bound(
    query: BinaryBranchTree,
    data: BinaryBranchTree,
    threshold: usize,
    r: usize,
) -> bool {
    let gap = if data.size >= query.size {
        data.size - query.size
    } else {
        query.size - data.size
    };
    &&& gap > threshold ==> r == threshold + 1
    &&& gap <= threshold ==> r == saturating_sub(
        data.size + query.size,
        2 * label_intersection(data.counts(), query.counts()),
    ) / 5
}

/// The BIB bound does not depend on which tree is the query.
pub proof fn lemma_bib_symmetric(query: BinaryBranchTree, data: BinaryBranchTree, threshold: usize, r: usize)
    requires
        query.wf(),
        data.wf(),
    ensures
        bib_bound(query, data, threshold, r) == bib_bound(data, query, threshold, r),
{
    lemma_label_intersection_symmetric(data.counts(), query.counts());
}

impl LowerBoundMethod for BinaryBranchAlgorithm {
    type PreprocessedDataType = BinaryBranchTree;

    open spec fn accepts(&self, data: Seq<Option<SpecTree>>) -> bool {
        &&& nonempty_within(data, i32::MAX as int)
        &&& self.last_id() >= 0
        &&& self.last_id() + views_size(data) <= i32::MAX
    }

    proof fn lemma_accepts_prefix(&self, a: Seq<Option<SpecTree>>, b: Seq<Option<SpecTree>>) {
        lemma_nonempty_within_prefix(a, b, i32::MAX as int);
        lemma_views_size_concat(a, b);
        lemma_views_size_nonneg(b);
    }

    open spec fn describes(&self, p: BinaryBranchTree, tree: ParsedTree) -> bool {
        counts_branches(self.numbering(), p, tree)
    }

    open spec fn prepared(&self, p: BinaryBranchTree) -> bool {
        p.wf()
    }

    open spec fn supports(&self, query: BinaryBranchTree, data: BinaryBranchTree, threshold: usize) -> bool {
        threshold < usize::MAX
    }

    open spec fn bound_holds(
        &self,
        query: BinaryBranchTree,
        data: BinaryBranchTree,
        threshold: usize,
        r: usize,
    ) -> bool {
        bib_bound(query, data, threshold, r)
    }

    /// The binary branch counts of every tree of `data`, numbering new
    /// branches as they come, tree after tree.
    fn preprocess(&mut self, data: &[ParsedTree]) -> (r: Result<Vec<BinaryBranchTree>, String>)
        ensures
            (final(self).numbering(), final(self).last_id()) == numbering_after(
                old(self).numbering(),
                old(self).last_id(),
                data@,
                data@.len() as int,
            ),
            extends(final(self).numbering(), old(self).numbering()),
    {
        proof {
            lemma_nonempty_within_trees(data@, i32::MAX as int);
            lemma_nonempty_within_suffix(trees_view(data@), i32::MAX as int);
            lemma_views_size_trees(data@, data@.len() as int);
            assert(trees_view(data@).take(data@.len() as int) =~= trees_view(data@));
        }
        let ghost m0 = self.numbering();
        let ghost l0 = self.last_id();
        let mut out: Vec<BinaryBranchTree> = Vec::new();
        let mut i: usize = 0;
        while i < data.len()
            invariant
                i <= data@.len(),
                forall|j: int| 0 <= j < data@.len() ==> (#[trigger] data@[j]).root is Some,
                l0 >= 0,
                l0 + trees_size(data@, data@.len() as int) <= i32::MAX,
                (self.numbering(), self.last_id()) == numbering_after(m0, l0, data@, i as int),
                l0 <= self.last_id() <= l0 + trees_size(data@, i as int),
                out@.len() == i,
                extends(self.numbering(), m0),
                forall|j: int|
                    0 <= j < i ==> counts_branches(self.numbering(), #[trigger] out@[j], data@[j]),
                forall|j: int|
                    0 <= j < i ==> {
                        let (m, last) = numbering_after(m0, l0, data@, j);
                        &&& (#[trigger] out@[j]).size == tree_size(data@[j])
                        &&& out@[j].counts() == add_counts(
                            Map::empty(),
                            number_branches(m, last, branch_tuples(data@[j].root->Some_0, None)).2,
                        )
                        &&& out@[j].wf()
                    },
            decreases data@.len() - i,
        {
            let tree = &data[i];
            let root = match &tree.root {
                Some(r) => r,
                None => {
                    proof {
                        assert(false);
                    }
                    return Err(String::new());
                },
            };
            let ghost (ms, ls) = numbering_after(m0, l0, data@, i as int);
            proof {
                lemma_trees_size_prefix(data@, i + 1, data@.len() as int);
                lemma_branch_len(*root, None);
                lemma_number_bounds(ms, ls, branch_tuples(*root, None));
                crate::tree::lemma_traversal_lengths(*root, 0);
            }
            let mut branch_vector = CountMap::new();
            let ghost before = self.numbering();
            self.create_vector(root, None, &mut branch_vector);
            proof {
                lemma_number_ids(ms, ls, branch_tuples(*root, None));
                assert forall|j: int| 0 <= j < i implies counts_branches(
                    self.numbering(),
                    #[trigger] out@[j],
                    data@[j],
                ) by {
                    lemma_extends_keeps_ids(
                        before,
                        self.numbering(),
                        branch_tuples(data@[j].root->Some_0, None),
                    );
                }
            }
            let ghost ids = number_branches(ms, ls, branch_tuples(*root, None)).2;
            proof {
                lemma_add_counts_bounds(ids);
            }
            out.push(BinaryBranchTree { size: tree.count(), branch_vector });
            i = i + 1;
        }
        proof {
            assert forall|rest: Seq<Option<SpecTree>>| #[trigger]
                old(self).accepts(trees_view(data@) + rest) implies self.accepts(rest) by {
                lemma_views_size_concat(trees_view(data@), rest);
            }
            assert forall|p: BinaryBranchTree, t: ParsedTree| #[trigger]
                old(self).describes(p, t) implies self.describes(p, t) by {
                lemma_extends_keeps_ids(m0, self.numbering(), branch_tuples(t.root->Some_0, None));
            }
        }
        Ok(out)
    }


    /// The binary branch bound at `threshold`.
    fn lower_bound(
        &self,
        query: &BinaryBranchTree,
        data: &BinaryBranchTree,
        threshold: usize,
    ) -> (r: usize)
    {
        let t1s = data.size;
        let t2s = query.size;
        let gap = if t1s >= t2s {
            t1s - t2s
        } else {
            t2s - t1s
        };
        if gap > threshold {
            return threshold + 1;
        }
        let ghost a = data.counts();
        let ghost b = query.counts();
        let ghost f = intersection_step(a, b);
        let keys = data.branch_vector.keys();
        proof {
            assert forall|a1: i32, a2: i32, z: int| #[trigger] f(f(z, a2), a1) == f(f(z, a1), a2) by {}
            assert(is_fun_commutative(f));
            lemma_sum_over_set(keys@, f);
            keys@.unique_seq_to_set();
        }
        let mut intersection_size: u64 = 0;
        let mut i: usize = 0;
        while i < keys.len()
            invariant
                data.wf(),
                query.wf(),
                a == data.counts(),
                b == query.counts(),
                f == intersection_step(a, b),
                keys@.to_set() == a.dom(),
                keys@.len() <= i32::MAX,
                sum_over(keys@, f) == label_intersection(a, b),
                i <= keys@.len(),
                intersection_size == sum_over(keys@.take(i as int), f),
                0 <= intersection_size <= i * (i32::MAX as int),
            decreases keys@.len() - i,
        {
            let label = keys[i];
            proof {
                assert(keys@.take(i + 1).drop_last() =~= keys@.take(i as int));
                assert(keys@.to_set().contains(label));
                assert(i * (i32::MAX as int) + i32::MAX == (i + 1) * (i32::MAX as int)) by (nonlinear_arith);
                assert((i + 1) * (i32::MAX as int) >= i * (i32::MAX as int)) by (nonlinear_arith);
            }
            let postings = match data.branch_vector.get(label) {
                Some(c) => c,
                None => {
                    proof {
                        assert(false);
                    }
                    0
                },
            };
            if let Some(t2postings) = query.branch_vector.get(label) {
                let m = if t2postings <= postings {
                    t2postings
                } else {
                    postings
                };
                intersection_size = intersection_size + m as u64;
            }
            i = i + 1;
        }
        proof {
            assert(keys@.take(keys@.len() as int) =~= keys@);
        }
        let total = (t1s + t2s) as u64;
        let twice = 2 * intersection_size;
        let diff = if twice >= total {
            0
        } else {
            total - twice
        };
        (diff / 5) as usize
    }
}

/// Creates the binary branch method.
pub struct BinaryBranchFactory;

impl AlgorithmFactory for BinaryBranchFactory {
    type AlgorithmType = BinaryBranchAlgorithm;

    /// A binary branch method that has numbered no branch yet.
    fn create_algorithm() -> (r: BinaryBranchAlgorithm)
        ensures
            r.numbering() == Map::<BranchTuple, i32>::empty(),
            r.last_id() == 0,
    {
        BinaryBranchAlgorithm::default()
    }
}

} // verus!
