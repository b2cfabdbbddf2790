//! Ordered labelled trees and their traversals.

use vstd::prelude::*;

use crate::base::TraversalKind;

verus! {

/// Identifier of an interned label.
pub type LabelId = i32;

/// A node of an ordered tree: its label and its children, left to right.
#[derive(Debug, PartialEq, Eq)]
pub struct TreeNode {
    pub label: LabelId,
    pub children: Vec<TreeNode>,
}

/// A parsed tree; it may be empty.
#[derive(Debug, PartialEq, Eq)]
pub struct ParsedTree {
    pub root: Option<TreeNode>,
}

/// The mathematical value of a tree: its label and its subtrees in order.
pub ghost struct SpecTree {
    pub label: LabelId,
    pub children: Seq<SpecTree>,
}

/// The value of the subtree at `t`.
pub open spec fn tree_view(t: TreeNode) -> SpecTree
    decreases t,
{
    SpecTree { label: t.label, children: forest_view(t.children@) }
}

/// The values of a sequence of subtrees.
pub open spec fn forest_view(s: Seq<TreeNode>) -> Seq<SpecTree>
    decreases s,
{
    if s.len() == 0 {
        Seq::empty()
    } else {
        forest_view(s.drop_last()).push(tree_view(s.last()))
    }
}

/// The value of a possibly empty tree.
pub open spec fn parsed_view(t: ParsedTree) -> Option<SpecTree> {
    match t.root {
        Some(r) => Some(tree_view(r)),
        None => None,
    }
}

/// Number of nodes of a tree value.
pub open spec fn view_size(t: SpecTree) -> nat
    decreases t,
{
    1 + forest_view_size(t.children)
}

/// Number of nodes of a sequence of tree values.
pub open spec fn forest_view_size(s: Seq<SpecTree>) -> nat
    decreases s,
{
    if s.len() == 0 {
        0
    } else {
        forest_view_size(s.drop_last()) + view_size(s.last())
    }
}

/// The size of a tree is the size of its value.
pub proof fn lemma_view_size(t: TreeNode)
    ensures
        size(t) == view_size(tree_view(t)),
    decreases t,
{
    lemma_forest_view_size(t.children@);
}

/// Forest version of `lemma_view_size`.
pub proof fn lemma_forest_view_size(s: Seq<TreeNode>)
    ensures
        forest_size(s) == forest_view_size(forest_view(s)),
    decreases s,
{
    if s.len() > 0 {
        lemma_forest_view_size(s.drop_last());
        lemma_view_size(s.last());
        assert(forest_view(s).drop_last() =~= forest_view(s.drop_last()));
    }
}

/// Number of nodes of a possibly empty tree value.
pub open spec fn parsed_view_size(t: Option<SpecTree>) -> nat {
    match t {
        Some(v) => view_size(v),
        None => 0,
    }
}

/// The size of a parsed tree is the size of its value.
pub proof fn lemma_parsed_view_size(t: ParsedTree)
    ensures
        tree_size(t) == parsed_view_size(parsed_view(t)),
        t.root is Some <==> parsed_view(t) is Some,
{
    if let Some(r) = t.root {
        lemma_view_size(r);
    }
}

/// The values of a sequence of parsed trees.
pub open spec fn trees_view(s: Seq<ParsedTree>) -> Seq<Option<SpecTree>> {
    s.map_values(|t: ParsedTree| parsed_view(t))
}

/// `forest_view` keeps the length and maps each element.
pub proof fn lemma_forest_view(s: Seq<TreeNode>)
    ensures
        forest_view(s).len() == s.len(),
        forall|i: int| 0 <= i < s.len() ==> #[trigger] forest_view(s)[i] == tree_view(s[i]),
    decreases s.len(),
{
    if s.len() > 0 {
        lemma_forest_view(s.drop_last());
    }
}

/// Facts about one node, relative to the whole tree it lies in.
pub ghost struct NodeFacts {
    pub label: LabelId,
    /// Number of nodes in the subtree rooted here.
    pub size: nat,
    /// Number of proper ancestors (the root has depth 0).
    pub depth: nat,
    /// Position in the left-to-right postorder (0-based).
    pub post_id: nat,
    /// Postorder id of the leftmost child, or -1 for a leaf.
    pub first_child: int,
}

/// Number of nodes of the subtree rooted at `t`.
pub open spec fn size(t: TreeNode) -> nat
    decreases t,
{
    1 + forest_size(t.children@)
}

/// Number of nodes of a sequence of trees.
pub open spec fn forest_size(s: Seq<TreeNode>) -> nat
    decreases s,
{
    if s.len() == 0 {
        0
    } else {
        forest_size(s.drop_last()) + size(s.last())
    }
}

/// Labels in preorder (node before its children).
pub open spec fn preorder(t: TreeNode) -> Seq<LabelId>
    decreases t,
{
    seq![t.label] + forest_preorder(t.children@)
}

/// Preorder labels of a sequence of trees, left to right.
pub open spec fn forest_preorder(s: Seq<TreeNode>) -> Seq<LabelId>
    decreases s,
{
    if s.len() == 0 {
        Seq::empty()
    } else {
        forest_preorder(s.drop_last()) + preorder(s.last())
    }
}

/// Labels in postorder (children before the node).
pub open spec fn postorder(t: TreeNode) -> Seq<LabelId>
    decreases t,
{
    forest_postorder(t.children@) + seq![t.label]
}

/// Postorder labels of a sequence of trees, left to right.
pub open spec fn forest_postorder(s: Seq<TreeNode>) -> Seq<LabelId>
    decreases s,
{
    if s.len() == 0 {
        Seq::empty()
    } else {
        forest_postorder(s.drop_last()) + postorder(s.last())
    }
}

/// Facts of the subtree nodes listed in postorder, for a subtree whose root
/// has depth `depth` and whose first postorder node has id `start`.
pub open spec fn post_facts(t: TreeNode, depth: nat, start: nat) -> Seq<NodeFacts>
    decreases t,
{
    forest_post_facts(t.children@, depth + 1, start) + seq![
        NodeFacts {
            label: t.label,
            size: size(t),
            depth,
            post_id: (start + size(t) - 1) as nat,
            first_child: if t.children@.len() == 0 {
                -1
            } else {
                start + size(t.children@[0]) - 1
            },
        },
    ]
}

/// Postorder facts of a sequence of sibling trees whose roots have depth
/// `depth`, the first postorder node having id `start`.
pub open spec fn forest_post_facts(s: Seq<TreeNode>, depth: nat, start: nat) -> Seq<NodeFacts>
    decreases s,
{
    if s.len() == 0 {
        Seq::empty()
    } else {
        forest_post_facts(s.drop_last(), depth, start) + post_facts(
            s.last(),
            depth,
            start + forest_size(s.drop_last()),
        )
    }
}

/// Facts of the subtree nodes listed in preorder, for a subtree whose root
/// has depth `depth` and whose first postorder node has id `start`.
pub open spec fn pre_facts(t: TreeNode, depth: nat, start: nat) -> Seq<NodeFacts>
    decreases t,
{
    seq![
        NodeFacts {
            label: t.label,
            size: size(t),
            depth,
            post_id: (start + size(t) - 1) as nat,
            first_child: if t.children@.len() == 0 {
                -1
            } else {
                start + size(t.children@[0]) - 1
            },
        },
    ] + forest_pre_facts(t.children@, depth + 1, start)
}

/// Preorder facts of a sequence of sibling trees whose roots have depth
/// `depth`, the first postorder node having id `start`.
pub open spec fn forest_pre_facts(s: Seq<TreeNode>, depth: nat, start: nat) -> Seq<NodeFacts>
    decreases s,
{
    if s.len() == 0 {
        Seq::empty()
    } else {
        forest_pre_facts(s.drop_last(), depth, start) + pre_facts(
            s.last(),
            depth,
            start + forest_size(s.drop_last()),
        )
    }
}

/// Preorder facts list every node once, with depths and postorder blocks
/// inside those of the subtree.
pub proof fn lemma_pre_facts(t: TreeNode, depth: nat, start: nat)
    ensures
        pre_facts(t, depth, start).len() == size(t),
        forall|i: int|
            0 <= i < size(t) ==> {
                let f = #[trigger] pre_facts(t, depth, start)[i];
                &&& depth <= f.depth < depth + size(t)
                &&& 1 <= f.size
                &&& start <= f.post_id + 1 - f.size
                &&& f.post_id < start + size(t)
            },
    decreases t,
{
    lemma_forest_pre_facts(t.children@, depth + 1, start);
    let f = pre_facts(t, depth, start);
    let fc = forest_pre_facts(t.children@, depth + 1, start);
    assert forall|i: int| 0 <= i < size(t) implies {
        let g = #[trigger] f[i];
        &&& depth <= g.depth < depth + size(t)
        &&& 1 <= g.size
        &&& start <= g.post_id + 1 - g.size
        &&& g.post_id < start + size(t)
    } by {
        if i > 0 {
            assert(f[i] == fc[i - 1]);
        }
    }
}

/// Forest version of `lemma_pre_facts`.
pub proof fn lemma_forest_pre_facts(s: Seq<TreeNode>, depth: nat, start: nat)
    ensures
        forest_pre_facts(s, depth, start).len() == forest_size(s),
        forall|i: int|
            0 <= i < forest_size(s) ==> {
                let f = #[trigger] forest_pre_facts(s, depth, start)[i];
                &&& depth <= f.depth < depth + forest_size(s)
                &&& 1 <= f.size
                &&& start <= f.post_id + 1 - f.size
                &&& f.post_id < start + forest_size(s)
            },
    decreases s,
{
    if s.len() > 0 {
        let d = s.drop_last();
        let ls = start + forest_size(d);
        lemma_forest_pre_facts(d, depth, start);
        lemma_pre_facts(s.last(), depth, ls);
        let a = forest_pre_facts(d, depth, start);
        let b = pre_facts(s.last(), depth, ls);
        let f = forest_pre_facts(s, depth, start);
        assert forall|i: int| 0 <= i < forest_size(s) implies {
            let g = #[trigger] f[i];
            &&& depth <= g.depth < depth + forest_size(s)
            &&& 1 <= g.size
            &&& start <= g.post_id + 1 - g.size
            &&& g.post_id < start + forest_size(s)
        } by {
            if i < a.len() {
                assert(f[i] == a[i]);
            } else {
                assert(f[i] == b[i - a.len()]);
            }
        }
    }
}

/// Postorder ids of the keyroots inside the subtree (its non-first children,
/// recursively, in the order in which their subtrees are completed); the
/// subtree root itself is not included.
pub open spec fn inner_keyroots(t: TreeNode, start: nat) -> Seq<int>
    decreases t,
{
    forest_keyroots(t.children@, start)
}

/// Keyroots contributed by a sequence of sibling trees: every sibling's inner
/// keyroots and every sibling but the first.
pub open spec fn forest_keyroots(s: Seq<TreeNode>, start: nat) -> Seq<int>
    decreases s,
{
    if s.len() == 0 {
        Seq::empty()
    } else {
        let d = s.drop_last();
        let last_start = start + forest_size(d);
        forest_keyroots(d, start) + inner_keyroots(s.last(), last_start) + if s.len() > 1 {
            seq![last_start + size(s.last()) - 1]
        } else {
            Seq::empty()
        }
    }
}

/// The label sequence of the selected traversal.
pub open spec fn traversal(t: TreeNode, kind: TraversalKind) -> Seq<LabelId> {
    match kind {
        TraversalKind::Preorder => preorder(t),
        TraversalKind::Postorder => postorder(t),
        TraversalKind::ReversedPreorder => postorder(t).reverse(),
        TraversalKind::ReversedPostorder => preorder(t).reverse(),
    }
}

/// Every traversal lists each node once.
pub proof fn lemma_traversal_len(t: TreeNode, kind: TraversalKind)
    ensures
        traversal(t, kind).len() == size(t),
{
    lemma_traversal_lengths(t, 0);
}

/// Number of nodes of a parsed tree.
pub open spec fn tree_size(t: ParsedTree) -> nat {
    match t.root {
        Some(r) => size(r),
        None => 0,
    }
}

/// Preorder ranks of the subtree nodes in preorder, the subtree root having
/// rank `start`.
pub open spec fn pre_ranks(t: TreeNode, start: nat) -> Seq<nat>
    decreases t,
{
    seq![start] + forest_pre_ranks(t.children@, start + 1)
}

/// Preorder ranks of a sequence of trees in preorder, the first root having
/// rank `start`.
pub open spec fn forest_pre_ranks(s: Seq<TreeNode>, start: nat) -> Seq<nat>
    decreases s,
{
    if s.len() == 0 {
        Seq::empty()
    } else {
        forest_pre_ranks(s.drop_last(), start) + pre_ranks(
            s.last(),
            start + forest_size(s.drop_last()),
        )
    }
}

/// Preorder ranks of the subtree nodes listed in postorder, the subtree root
/// having rank `start`.
pub open spec fn post_ranks(t: TreeNode, start: nat) -> Seq<nat>
    decreases t,
{
    forest_post_ranks(t.children@, start + 1) + seq![start]
}

/// Preorder ranks of a sequence of trees listed in postorder.
pub open spec fn forest_post_ranks(s: Seq<TreeNode>, start: nat) -> Seq<nat>
    decreases s,
{
    if s.len() == 0 {
        Seq::empty()
    } else {
        forest_post_ranks(s.drop_last(), start) + post_ranks(
            s.last(),
            start + forest_size(s.drop_last()),
        )
    }
}

/// The node identities (preorder ranks) in the order of the selected
/// traversal.
pub open spec fn traversal_ranks(t: TreeNode, kind: TraversalKind) -> Seq<nat> {
    match kind {
        TraversalKind::Preorder => pre_ranks(t, 0),
        TraversalKind::Postorder => post_ranks(t, 0),
        TraversalKind::ReversedPreorder => post_ranks(t, 0).reverse(),
        TraversalKind::ReversedPostorder => pre_ranks(t, 0).reverse(),
    }
}

/// Traversals list every node once: their lengths are the subtree size, and
/// the ranks of a subtree lie in `start..start + size`.
pub proof fn lemma_traversal_lengths(t: TreeNode, start: nat)
    ensures
        preorder(t).len() == size(t),
        postorder(t).len() == size(t),
        pre_ranks(t, start).len() == size(t),
        post_ranks(t, start).len() == size(t),
        forall|i: int|
            0 <= i < size(t) ==> start <= #[trigger] pre_ranks(t, start)[i] < start + size(t),
        forall|i: int|
            0 <= i < size(t) ==> start <= #[trigger] post_ranks(t, start)[i] < start + size(t),
    decreases t,
{
    lemma_forest_traversal_lengths(t.children@, start + 1);
}

/// Forest version of `lemma_traversal_lengths`.
pub proof fn lemma_forest_traversal_lengths(s: Seq<TreeNode>, start: nat)
    ensures
        forest_preorder(s).len() == forest_size(s),
        forest_postorder(s).len() == forest_size(s),
        forest_pre_ranks(s, start).len() == forest_size(s),
        forest_post_ranks(s, start).len() == forest_size(s),
        forall|i: int|
            0 <= i < forest_size(s) ==> start <= #[trigger] forest_pre_ranks(s, start)[i] < start
                + forest_size(s),
        forall|i: int|
            0 <= i < forest_size(s) ==> start <= #[trigger] forest_post_ranks(s, start)[i] < start
                + forest_size(s),
    decreases s,
{
    if s.len() > 0 {
        let d = s.drop_last();
        lemma_forest_traversal_lengths(d, start);
        lemma_traversal_lengths(s.last(), start + forest_size(d));
        let a = forest_pre_ranks(d, start);
        let b = pre_ranks(s.last(), start + forest_size(d));
        assert forall|i: int| 0 <= i < forest_size(s) implies start <= #[trigger] forest_pre_ranks(
            s,
            start,
        )[i] < start + forest_size(s) by {
            if i < a.len() {
                assert(forest_pre_ranks(s, start)[i] == a[i]);
            } else {
                assert(forest_pre_ranks(s, start)[i] == b[i - a.len()]);
            }
        }
        let c = forest_post_ranks(d, start);
        let e = post_ranks(s.last(), start + forest_size(d));
        assert forall|i: int| 0 <= i < forest_size(s) implies start <= #[trigger] forest_post_ranks(
            s,
            start,
        )[i] < start + forest_size(s) by {
            if i < c.len() {
                assert(forest_post_ranks(s, start)[i] == c[i]);
            } else {
                assert(forest_post_ranks(s, start)[i] == e[i - c.len()]);
            }
        }
    }
}

/// The preorder ranks listed in preorder count up from `start`.
pub proof fn lemma_pre_ranks_count_up(t: TreeNode, start: nat)
    ensures
        pre_ranks(t, start).len() == size(t),
        forall|i: int| 0 <= i < size(t) ==> #[trigger] pre_ranks(t, start)[i] == start + i,
    decreases t,
{
    lemma_forest_pre_ranks_count_up(t.children@, start + 1);
    lemma_traversal_lengths(t, start);
    assert forall|i: int| 0 <= i < size(t) implies #[trigger] pre_ranks(t, start)[i] == start + i by {
        if i > 0 {
            assert(pre_ranks(t, start)[i] == forest_pre_ranks(t.children@, start + 1)[i - 1]);
        }
    }
}

/// Forest version of `lemma_pre_ranks_count_up`.
pub proof fn lemma_forest_pre_ranks_count_up(s: Seq<TreeNode>, start: nat)
    ensures
        forest_pre_ranks(s, start).len() == forest_size(s),
        forall|i: int|
            0 <= i < forest_size(s) ==> #[trigger] forest_pre_ranks(s, start)[i] == start + i,
    decreases s,
{
    lemma_forest_traversal_lengths(s, start);
    if s.len() > 0 {
        let d = s.drop_last();
        lemma_forest_pre_ranks_count_up(d, start);
        lemma_pre_ranks_count_up(s.last(), start + forest_size(d));
        let a = forest_pre_ranks(d, start);
        assert forall|i: int| 0 <= i < forest_size(s) implies #[trigger] forest_pre_ranks(s, start)[i]
            == start + i by {
            if i < a.len() {
                assert(forest_pre_ranks(s, start)[i] == a[i]);
            } else {
                assert(forest_pre_ranks(s, start)[i] == pre_ranks(
                    s.last(),
                    start + forest_size(d),
                )[i - a.len()]);
            }
        }
    }
}

/// The postorder listing of the preorder ranks names every node once, and
/// the label at each postorder position is the preorder label of its rank.
pub proof fn lemma_post_ranks_nodes(t: TreeNode, start: nat)
    ensures
        post_ranks(t, start).len() == size(t),
        forall|p: int|
            0 <= p < size(t) ==> #[trigger] postorder(t)[p] == preorder(t)[post_ranks(t, start)[p]
                - start],
        forall|p: int, q: int|
            0 <= p < q < size(t) ==> #[trigger] post_ranks(t, start)[p] != #[trigger] post_ranks(
                t,
                start,
            )[q],
        forall|r: nat| start <= r < start + size(t) ==> #[trigger] post_ranks(t, start).contains(r),
    decreases t,
{
    let c = t.children@;
    lemma_forest_post_ranks_nodes(c, start + 1);
    lemma_traversal_lengths(t, start);
    lemma_forest_traversal_lengths(c, start + 1);
    let fr = forest_post_ranks(c, start + 1);
    let n = size(t) as int;
    assert(n == forest_size(c) + 1);
    assert forall|p: int| 0 <= p < n implies #[trigger] postorder(t)[p] == preorder(t)[post_ranks(
        t,
        start,
    )[p] - start] by {
        if p < n - 1 {
            assert(postorder(t)[p] == forest_postorder(c)[p]);
            assert(post_ranks(t, start)[p] == fr[p]);
            assert(preorder(t)[fr[p] - start] == forest_preorder(c)[fr[p] - (start + 1)]);
        }
    }
    assert forall|p: int, q: int| 0 <= p < q < n implies #[trigger] post_ranks(t, start)[p]
        != #[trigger] post_ranks(t, start)[q] by {
        assert(post_ranks(t, start)[p] == fr[p]);
        if q < n - 1 {
            assert(post_ranks(t, start)[q] == fr[q]);
        }
    }
    assert forall|r: nat| start <= r < start + n implies #[trigger] post_ranks(t, start).contains(r) by {
        if r == start {
            assert(post_ranks(t, start)[n - 1] == start);
        } else {
            assert(fr.contains(r));
            let p = choose|p: int| 0 <= p < fr.len() && fr[p] == r;
            assert(post_ranks(t, start)[p] == fr[p]);
        }
    }
}

/// Forest version of `lemma_post_ranks_nodes`.
pub proof fn lemma_forest_post_ranks_nodes(s: Seq<TreeNode>, start: nat)
    ensures
        forest_post_ranks(s, start).len() == forest_size(s),
        forall|p: int|
            0 <= p < forest_size(s) ==> #[trigger] forest_postorder(s)[p] == forest_preorder(s)[
                forest_post_ranks(s, start)[p] - start],
        forall|p: int, q: int|
            0 <= p < q < forest_size(s) ==> #[trigger] forest_post_ranks(s, start)[p]
                != #[trigger] forest_post_ranks(s, start)[q],
        forall|r: nat|
            start <= r < start + forest_size(s) ==> #[trigger] forest_post_ranks(s, start).contains(r),
    decreases s,
{
    lemma_forest_traversal_lengths(s, start);
    if s.len() > 0 {
        let d = s.drop_last();
        let u = s.last();
        let st2 = start + forest_size(d);
        lemma_forest_post_ranks_nodes(d, start);
        lemma_post_ranks_nodes(u, st2);
        lemma_forest_traversal_lengths(d, start);
        lemma_traversal_lengths(u, st2);
        let a = forest_post_ranks(d, start);
        let b = post_ranks(u, st2);
        let m = forest_size(d) as int;
        let n = forest_size(s) as int;
        assert(n == m + size(u));
        assert forall|p: int| 0 <= p < n implies #[trigger] forest_postorder(s)[p] == forest_preorder(
            s,
        )[forest_post_ranks(s, start)[p] - start] by {
            if p < m {
                assert(forest_postorder(s)[p] == forest_postorder(d)[p]);
                assert(forest_post_ranks(s, start)[p] == a[p]);
                assert(forest_preorder(s)[a[p] - start] == forest_preorder(d)[a[p] - start]);
            } else {
                assert(forest_postorder(s)[p] == postorder(u)[p - m]);
                assert(forest_post_ranks(s, start)[p] == b[p - m]);
                assert(forest_preorder(s)[b[p - m] - start] == preorder(u)[b[p - m] - st2]);
            }
        }
        assert forall|p: int, q: int| 0 <= p < q < n implies #[trigger] forest_post_ranks(s, start)[p]
            != #[trigger] forest_post_ranks(s, start)[q] by {
            if p < m {
                assert(forest_post_ranks(s, start)[p] == a[p]);
            } else {
                assert(forest_post_ranks(s, start)[p] == b[p - m]);
            }
            if q < m {
                assert(forest_post_ranks(s, start)[q] == a[q]);
            } else {
                assert(forest_post_ranks(s, start)[q] == b[q - m]);
            }
        }
        assert forall|r: nat| start <= r < start + n implies #[trigger] forest_post_ranks(s, start).contains(
            r,
        ) by {
            if r < start + m {
                assert(a.contains(r));
                let p = choose|p: int| 0 <= p < a.len() && a[p] == r;
                assert(forest_post_ranks(s, start)[p] == a[p]);
            } else {
                assert(b.contains(r));
                let p = choose|p: int| 0 <= p < b.len() && b[p] == r;
                assert(forest_post_ranks(s, start)[p + m] == b[p]);
            }
        }
    }
}

/// The size of a prefix of a forest is at most the size of the forest.
pub proof fn lemma_forest_size_prefix(s: Seq<TreeNode>, i: int)
    requires
        0 <= i <= s.len(),
    ensures
        forest_size(s.take(i)) <= forest_size(s),
    decreases s.len(),
{
    if i < s.len() {
        lemma_forest_size_prefix(s.drop_last(), i);
        assert(s.drop_last().take(i) =~= s.take(i));
    } else {
        assert(s.take(i) =~= s);
    }
}

/// A sequence of `usize` values seen as naturals.
pub open spec fn nats(s: Seq<usize>) -> Seq<nat> {
    Seq::new(s.len(), |i: int| s[i] as nat)
}

/// Shape facts of a postorder listing: every node's id is its position, its
/// subtree is a block of positions ending at itself, its leftmost child (if
/// any) comes before it inside that block, and the keyroots lie inside the
/// listing.
pub proof fn lemma_post_facts(t: TreeNode, depth: nat, start: nat)
    ensures
        post_facts(t, depth, start).len() == size(t),
        size(t) >= 1,
        forall|i: int|
            0 <= i < size(t) ==> {
                let f = #[trigger] post_facts(t, depth, start)[i];
                &&& f.post_id == start + i
                &&& 1 <= f.size <= i + 1
                &&& f.depth >= depth
                &&& f.depth < depth + size(t)
                &&& -1 <= f.first_child < start + i
                &&& (f.first_child >= 0 ==> f.first_child >= start + i + 1 - f.size)
                &&& (f.size > 1 <==> f.first_child >= 0)
            },
        post_facts(t, depth, start)[size(t) - 1].size == size(t),
        post_facts(t, depth, start)[size(t) - 1].depth == depth,
        forall|i: int|
            0 <= i < inner_keyroots(t, start).len() ==> start <= #[trigger] inner_keyroots(
                t,
                start,
            )[i] < start + size(t) - 1,
    decreases t,
{
    lemma_forest_post_facts(t.children@, depth + 1, start);
    let c = t.children@;
    let fc = forest_post_facts(c, depth + 1, start);
    let all = post_facts(t, depth, start);
    if c.len() > 0 {
        lemma_forest_first(c, depth + 1, start);
    }
    assert(inner_keyroots(t, start) == forest_keyroots(c, start));
    assert forall|i: int| 0 <= i < size(t) implies {
        let f = #[trigger] all[i];
        &&& f.post_id == start + i
        &&& 1 <= f.size <= i + 1
        &&& f.depth >= depth
        &&& f.depth < depth + size(t)
        &&& -1 <= f.first_child < start + i
        &&& (f.first_child >= 0 ==> f.first_child >= start + i + 1 - f.size)
        &&& (f.size > 1 <==> f.first_child >= 0)
    } by {
        if i < fc.len() {
            assert(all[i] == fc[i]);
        }
    }
}

/// Subtree blocks nest: a node `q` inside the postorder block of `p` has its
/// own block inside that of `p`.
pub open spec fn blocks_nest(f: Seq<NodeFacts>, start: int) -> bool {
    forall|p: int, q: int|
        0 <= q <= p < f.len() && start + q > start + p - f[p].size ==> #[trigger] f[q].size
            <= q - p + f[p].size && #[trigger] f[p].size >= 1
}

/// The postorder facts of a subtree have nesting blocks.
pub proof fn lemma_post_facts_nest(t: TreeNode, depth: nat, start: nat)
    ensures
        blocks_nest(post_facts(t, depth, start), start as int),
    decreases t,
{
    lemma_post_facts(t, depth, start);
    lemma_forest_post_facts_nest(t.children@, depth + 1, start);
    let f = post_facts(t, depth, start);
    let fc = forest_post_facts(t.children@, depth + 1, start);
    assert forall|p: int, q: int|
        0 <= q <= p < f.len() && start + q > start + p - f[p].size implies #[trigger] f[q].size
        <= q - p + f[p].size && #[trigger] f[p].size >= 1 by {
        assert(f[p].size >= 1);
        if p < fc.len() {
            assert(f[p] == fc[p]);
            assert(f[q] == fc[q]);
            assert(fc[q].size <= q - p + fc[p].size && fc[p].size >= 1);
        } else {
            assert(f[q].size <= q + 1);
        }
    }
}

/// Forest version of `lemma_post_facts_nest`.
pub proof fn lemma_forest_post_facts_nest(s: Seq<TreeNode>, depth: nat, start: nat)
    ensures
        blocks_nest(forest_post_facts(s, depth, start), start as int),
    decreases s,
{
    lemma_forest_post_facts(s, depth, start);
    if s.len() > 0 {
        let d = s.drop_last();
        let ls = start + forest_size(d);
        lemma_forest_post_facts_nest(d, depth, start);
        lemma_post_facts_nest(s.last(), depth, ls);
        lemma_forest_post_facts(d, depth, start);
        lemma_post_facts(s.last(), depth, ls);
        let a = forest_post_facts(d, depth, start);
        let b = post_facts(s.last(), depth, ls);
        let f = forest_post_facts(s, depth, start);
        assert forall|p: int, q: int|
            0 <= q <= p < f.len() && start + q > start + p - f[p].size implies #[trigger] f[q].size
            <= q - p + f[p].size && #[trigger] f[p].size >= 1 by {
            if p < a.len() {
                assert(f[p] == a[p]);
                assert(f[q] == a[q]);
                assert(a[q].size <= q - p + a[p].size && a[p].size >= 1);
            } else {
                let pp = p - a.len();
                assert(f[p] == b[pp]);
                assert(b[pp].size <= pp + 1);
                let qq = q - a.len();
                assert(qq >= 0);
                assert(f[q] == b[qq]);
                assert(ls + qq > ls + pp - b[pp].size);
                assert(b[qq].size <= qq - pp + b[pp].size && b[pp].size >= 1);
            }
        }
    }
}

/// Postorder facts list every node once.
pub proof fn lemma_post_facts_len(t: TreeNode, depth: nat, start: nat)
    ensures
        post_facts(t, depth, start).len() == size(t),
    decreases t,
{
    lemma_forest_post_facts_len(t.children@, depth + 1, start);
}

/// Forest version of `lemma_post_facts_len`.
pub proof fn lemma_forest_post_facts_len(s: Seq<TreeNode>, depth: nat, start: nat)
    ensures
        forest_post_facts(s, depth, start).len() == forest_size(s),
    decreases s,
{
    if s.len() > 0 {
        lemma_forest_post_facts_len(s.drop_last(), depth, start);
        lemma_post_facts_len(s.last(), depth, start + forest_size(s.drop_last()));
    }
}

/// The first node of a non-empty forest's postorder facts belongs to its
/// first tree, so the first tree's root sits at position `size - 1`.
pub proof fn lemma_forest_first(s: Seq<TreeNode>, depth: nat, start: nat)
    requires
        s.len() > 0,
    ensures
        forest_size(s) >= size(s[0]),
        forest_post_facts(s, depth, start)[size(s[0]) - 1] == post_facts(s[0], depth, start)[size(
            s[0],
        ) - 1],
    decreases s.len(),
{
    lemma_forest_post_facts_len(s, depth, start);
    lemma_post_facts_len(s[0], depth, start);
    if s.len() > 1 {
        let d = s.drop_last();
        lemma_forest_first(d, depth, start);
        assert(d[0] == s[0]);
        lemma_forest_post_facts_len(d, depth, start);
    } else {
        assert(s.drop_last().len() == 0);
        assert(s.last() == s[0]);
    }
}

/// Forest version of `lemma_post_facts`.
pub proof fn lemma_forest_post_facts(s: Seq<TreeNode>, depth: nat, start: nat)
    ensures
        forest_post_facts(s, depth, start).len() == forest_size(s),
        forall|i: int|
            0 <= i < forest_size(s) ==> {
                let f = #[trigger] forest_post_facts(s, depth, start)[i];
                &&& f.post_id == start + i
                &&& 1 <= f.size <= i + 1
                &&& f.depth >= depth
                &&& f.depth < depth + forest_size(s)
                &&& -1 <= f.first_child < start + i
                &&& (f.first_child >= 0 ==> f.first_child >= start + i + 1 - f.size)
                &&& (f.size > 1 <==> f.first_child >= 0)
            },
        forall|i: int|
            0 <= i < forest_keyroots(s, start).len() ==> start <= #[trigger] forest_keyroots(
                s,
                start,
            )[i] < start + forest_size(s),
    decreases s,
{
    if s.len() > 0 {
        let d = s.drop_last();
        let ls = start + forest_size(d);
        lemma_forest_post_facts(d, depth, start);
        lemma_post_facts(s.last(), depth, ls);
        let a = forest_post_facts(d, depth, start);
        let b = post_facts(s.last(), depth, ls);
        let all = forest_post_facts(s, depth, start);
        assert forall|i: int| 0 <= i < forest_size(s) implies {
            let f = #[trigger] all[i];
            &&& f.post_id == start + i
            &&& 1 <= f.size <= i + 1
            &&& f.depth >= depth
            &&& f.depth < depth + forest_size(s)
            &&& -1 <= f.first_child < start + i
            &&& (f.first_child >= 0 ==> f.first_child >= start + i + 1 - f.size)
            &&& (f.size > 1 <==> f.first_child >= 0)
        } by {
            if i < a.len() {
                assert(all[i] == a[i]);
            } else {
                assert(all[i] == b[i - a.len()]);
            }
        }
        let ka = forest_keyroots(d, start);
        let kb = inner_keyroots(s.last(), ls);
        let all_k = forest_keyroots(s, start);
        assert forall|i: int| 0 <= i < all_k.len() implies start <= #[trigger] all_k[i] < start
            + forest_size(s) by {
            if i < ka.len() {
                assert(all_k[i] == ka[i]);
            } else if i < ka.len() + kb.len() {
                assert(all_k[i] == kb[i - ka.len()]);
            }
        }
    }
}

/// Pushing the same sequence twice after a prefix: `take(i + 1)` drops back to
/// `take(i)`.
pub proof fn lemma_take_succ<A>(s: Seq<A>, i: int)
    requires
        0 <= i < s.len(),
    ensures
        s.take(i + 1).drop_last() == s.take(i),
        s.take(i + 1).last() == s[i],
        s.take(i + 1).len() == i + 1,
{
    assert(s.take(i + 1).drop_last() =~= s.take(i));
}

/// Number of nodes of the subtree at `node`, saturating at `usize::MAX`.
pub fn node_count(node: &TreeNode) -> (r: usize)
    ensures
        r == if size(*node) <= usize::MAX { size(*node) } else { usize::MAX as nat },
    decreases node,
{
    let mut total: usize = 1;
    let n = node.children.len();
    let mut i: usize = 0;
    while i < n
        invariant
            i <= n,
            n == node.children@.len(),
            total == if 1 + forest_size(node.children@.take(i as int)) <= usize::MAX {
                1 + forest_size(node.children@.take(i as int))
            } else {
                usize::MAX as nat
            },
        decreases n - i,
    {
        proof {
            lemma_take_succ(node.children@, i as int);
        }
        let c = node_count(&node.children[i]);
        total = total.saturating_add(c);
        i = i + 1;
    }
    proof {
        assert(node.children@.take(n as int) =~= node.children@);
    }
    total
}

impl ParsedTree {
    /// Number of nodes, saturating at `usize::MAX`.
    pub fn count(&self) -> (r: usize)
        ensures
            r == if tree_size(*self) <= usize::MAX { tree_size(*self) } else { usize::MAX as nat },
    {
        match &self.root {
            Some(r) => node_count(r),
            None => 0,
        }
    }
}

/// A copy of the subtree at `node`: same label and the same number of
/// children, each of which is a copy in turn.
pub fn copy_node(node: &TreeNode) -> (r: TreeNode)
    ensures
        tree_view(r) == tree_view(*node),
    decreases node,
{
    let mut children: Vec<TreeNode> = Vec::new();
    let n = node.children.len();
    let mut i: usize = 0;
    while i < n
        invariant
            i <= n,
            n == node.children@.len(),
            forest_view(children@) == forest_view(node.children@.take(i as int)),
        decreases n - i,
    {
        let c = copy_node(&node.children[i]);
        let ghost before = children@;
        children.push(c);
        proof {
            lemma_take_succ(node.children@, i as int);
            assert(children@.drop_last() =~= before);
        }
        i = i + 1;
    }
    proof {
        assert(node.children@.take(n as int) =~= node.children@);
    }
    TreeNode { label: node.label, children }
}

impl Clone for TreeNode {
    fn clone(&self) -> (r: Self)
        ensures
            tree_view(r) == tree_view(*self),
    {
        copy_node(self)
    }
}

impl Clone for ParsedTree {
    fn clone(&self) -> (r: Self)
        ensures
            parsed_view(r) == parsed_view(*self),
    {
        match &self.root {
            Some(n) => ParsedTree { root: Some(copy_node(n)) },
            None => ParsedTree { root: None },
        }
    }
}

/// A copy of `v`.
pub fn copy_vec<T: Copy>(v: &Vec<T>) -> (r: Vec<T>)
    ensures
        r@ == v@,
{
    let mut r: Vec<T> = Vec::new();
    let n = v.len();
    let mut i: usize = 0;
    while i < n
        invariant
            i <= n,
            n == v@.len(),
            r@ == v@.take(i as int),
        decreases n - i,
    {
        r.push(v[i]);
        proof {
            assert(r@ =~= v@.take(i + 1));
        }
        i = i + 1;
    }
    proof {
        assert(v@.take(n as int) =~= v@);
    }
    r
}

/// Returns the reverse of `v`.
pub fn reversed<T: Copy>(v: &Vec<T>) -> (r: Vec<T>)
    ensures
        r@ == v@.reverse(),
{
    let mut r: Vec<T> = Vec::new();
    let n = v.len();
    let mut i: usize = n;
    while i > 0
        invariant
            i <= n,
            n == v@.len(),
            r@ == v@.subrange(i as int, n as int).reverse(),
        decreases i,
    {
        i = i - 1;
        r.push(v[i]);
        assert(v@.subrange(i as int, n as int).reverse() =~= v@.subrange(
            (i + 1) as int,
            n as int,
        ).reverse().push(v@[i as int]));
    }
    assert(v@.subrange(0, n as int) =~= v@);
    r
}

/// Records the labels of the subtree at `node` in preorder (`pre`),
/// postorder (`post`), and, before their final reversal, the two mirrored
/// orders: `reversed_pre` receives the postorder and `reversed_post` the
/// preorder.
pub fn traverse(
    node: &TreeNode,
    pre: &mut Vec<i32>,
    post: &mut Vec<i32>,
    reversed_pre: &mut Vec<i32>,
    reversed_post: &mut Vec<i32>,
)
    ensures
        final(pre)@ == old(pre)@ + preorder(*node),
        final(post)@ == old(post)@ + postorder(*node),
        final(reversed_pre)@ == old(reversed_pre)@ + postorder(*node),
        final(reversed_post)@ == old(reversed_post)@ + preorder(*node),
    decreases node,
{
    let label = node.label;
    pre.push(label);
    reversed_post.push(label);
    let ghost pre0 = pre@;
    let ghost post0 = post@;
    let ghost rpre0 = reversed_pre@;
    let ghost rpost0 = reversed_post@;
    let n = node.children.len();
    let mut i: usize = 0;
    while i < n
        invariant
            i <= n,
            n == node.children@.len(),
            pre@ == pre0 + forest_preorder(node.children@.take(i as int)),
            post@ == post0 + forest_postorder(node.children@.take(i as int)),
            reversed_pre@ == rpre0 + forest_postorder(node.children@.take(i as int)),
            reversed_post@ == rpost0 + forest_preorder(node.children@.take(i as int)),
        decreases n - i,
    {
        proof {
            lemma_take_succ(node.children@, i as int);
        }
        traverse(&node.children[i], pre, post, reversed_pre, reversed_post);
        proof {
            let t = node.children@.take(i as int);
            let c = node.children@[i as int];
            assert(pre@ == pre0 + (forest_preorder(t) + preorder(c)));
            assert(post@ == post0 + (forest_postorder(t) + postorder(c)));
            assert(reversed_pre@ == rpre0 + (forest_postorder(t) + postorder(c)));
            assert(reversed_post@ == rpost0 + (forest_preorder(t) + preorder(c)));
        }
        i = i + 1;
    }
    proof {
        assert(node.children@.take(n as int) =~= node.children@);
    }
    reversed_pre.push(label);
    post.push(label);
    proof {
        assert(pre@ =~= old(pre)@ + preorder(*node));
        assert(post@ =~= old(post)@ + postorder(*node));
        assert(reversed_pre@ =~= old(reversed_pre)@ + postorder(*node));
        assert(reversed_post@ =~= old(reversed_post)@ + preorder(*node));
    }
}


/// Appends the labels of the subtree at `node` in preorder.
pub fn push_preorder(node: &TreeNode, out: &mut Vec<LabelId>)
    ensures
        final(out)@ == old(out)@ + preorder(*node),
    decreases node,
{
    let ghost start = out@;
    out.push(node.label);
    let n = node.children.len();
    let mut i: usize = 0;
    while i < n
        invariant
            i <= n,
            n == node.children@.len(),
            out@ == start + seq![node.label] + forest_preorder(node.children@.take(i as int)),
        decreases n - i,
    {
        push_preorder(&node.children[i], out);
        proof {
            lemma_take_succ(node.children@, i as int);
        }
        i = i + 1;
    }
    proof {
        assert(node.children@.take(n as int) =~= node.children@);
    }
}

} // verus!
