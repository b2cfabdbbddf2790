//! The Touzet KR-set bounded tree edit distance (TopDiff): the postorder
//! index of a tree, the pruning predicates and the banded forest DP.

use vstd::prelude::*;

use crate::band_matrix::BandMatrix;
use crate::fx_map::{pair_index_map_contents, PairIndexMap};
use crate::struct_diff::{band_hi, band_lo, pairs_view, rep_step, reps_hold, RepState};
use crate::ted::{forest_distance, lemma_forest_distance_bounds, subtree_distance};
use crate::tree::{
    forest_keyroots, forest_post_facts, forest_size, inner_keyroots, lemma_forest_size_prefix,
    lemma_forest_first, lemma_forest_post_facts, lemma_post_facts, lemma_post_facts_nest,
    lemma_take_succ, post_facts, size, tree_size,
    NodeFacts, ParsedTree, TreeNode,
};

verus! {

/// A sequence of `i32` values seen as integers.
pub open spec fn ints(s: Seq<i32>) -> Seq<int> {
    Seq::new(s.len(), |i: int| s[i] as int)
}

/// Labels of a listing of node facts.
pub open spec fn fact_labels(f: Seq<NodeFacts>) -> Seq<int> {
    Seq::new(f.len(), |i: int| f[i].label as int)
}

/// Subtree sizes of a listing of node facts.
pub open spec fn fact_sizes(f: Seq<NodeFacts>) -> Seq<int> {
    Seq::new(f.len(), |i: int| f[i].size as int)
}

/// Depths of a listing of node facts.
pub open spec fn fact_depths(f: Seq<NodeFacts>) -> Seq<int> {
    Seq::new(f.len(), |i: int| f[i].depth as int)
}

/// Leftmost-child ids of a listing of node facts.
pub open spec fn fact_lchs(f: Seq<NodeFacts>) -> Seq<int> {
    Seq::new(f.len(), |i: int| f[i].first_child)
}

/// `l` lies on the left path (the leftmost-child chain) that starts at `i`.
pub open spec fn on_left_path(lch: Seq<int>, i: int, l: int) -> bool
    decreases i + 1,
{
    if i < 0 || i >= lch.len() {
        false
    } else if i == l {
        true
    } else if -1 <= lch[i] < i {
        on_left_path(lch, lch[i], l)
    } else {
        false
    }
}

/// The last of the first `upto` keyroots whose left path holds `l`, or `0`.
pub open spec fn kr_ancestor_of(lch: Seq<int>, kr: Seq<int>, l: int, upto: nat) -> int
    decreases upto,
{
    if upto == 0 {
        0
    } else if on_left_path(lch, kr[upto - 1], l) {
        kr[upto - 1]
    } else {
        kr_ancestor_of(lch, kr, l, (upto - 1) as nat)
    }
}

/// Per-tree index of the TopDiff algorithm; every vector is indexed by the
/// left-to-right postorder id.
#[derive(Debug, Clone, PartialEq, Eq)]
pub struct TopDiffIndex {
    pub tree_size: i32,
    pub postl_to_label_id: Vec<i32>,
    pub postl_to_size: Vec<i32>,
    pub postl_to_depth: Vec<i32>,
    pub postl_to_lch: Vec<i32>,
    pub postl_to_kr_ancestor: Vec<i32>,
    pub list_kr: Vec<i32>,
}

impl TopDiffIndex {
    /// `self` is the index of `tree`: labels, subtree sizes, depths and
    /// leftmost children in postorder, the keyroots (non-first children in
    /// completion order, then the root) and each node's keyroot ancestor.
    pub open spec fn is_index_of(&self, tree: ParsedTree) -> bool {
        match tree.root {
            None => {
                &&& self.tree_size == 0
                &&& self.postl_to_label_id@.len() == 0
                &&& self.postl_to_size@.len() == 0
                &&& self.postl_to_depth@.len() == 0
                &&& self.postl_to_lch@.len() == 0
                &&& self.postl_to_kr_ancestor@.len() == 0
                &&& self.list_kr@.len() == 0
            },
            Some(t) => {
                let facts = post_facts(t, 0, 0);
                &&& self.tree_size == size(t)
                &&& ints(self.postl_to_label_id@) == fact_labels(facts)
                &&& ints(self.postl_to_size@) == fact_sizes(facts)
                &&& ints(self.postl_to_depth@) == fact_depths(facts)
                &&& ints(self.postl_to_lch@) == fact_lchs(facts)
                &&& ints(self.list_kr@) == inner_keyroots(t, 0) + seq![size(t) - 1]
                &&& ints(self.postl_to_kr_ancestor@) == Seq::new(
                    size(t),
                    |l: int|
                        kr_ancestor_of(
                            ints(self.postl_to_lch@),
                            ints(self.list_kr@),
                            l,
                            self.list_kr@.len(),
                        ),
                )
            },
        }
    }
}

/// Following a leftmost child from a node on the left path stays on it.
proof fn lemma_left_path_trans(lch: Seq<int>, i: int, l: int, m: int)
    requires
        on_left_path(lch, i, l),
        on_left_path(lch, l, m),
    ensures
        on_left_path(lch, i, m),
    decreases i + 1,
{
    if i != l {
        lemma_left_path_trans(lch, lch[i], l, m);
    }
}

/// A left path only descends to smaller ids.
proof fn lemma_left_path_le(lch: Seq<int>, i: int, m: int)
    requires
        on_left_path(lch, i, m),
    ensures
        m <= i,
    decreases i + 1,
{
    if i != m {
        lemma_left_path_le(lch, lch[i], m);
    }
}

/// The nodes of a subtree whose leftmost children sit at `start..` of the
/// listing `g` each lie on the left path of the subtree root or of one of
/// the subtree's inner keyroots.
proof fn lemma_on_keyroot_path(g: Seq<int>, t: TreeNode, depth: nat, start: nat)
    requires
        start + size(t) <= g.len(),
        forall|i: int|
            0 <= i < size(t) ==> g[start + i] == #[trigger] post_facts(t, depth, start)[i].first_child,
    ensures
        forall|i: int|
            0 <= i < size(t) ==> #[trigger] on_left_path(g, start + size(t) - 1, start + i) || exists|j: int|
                0 <= j < inner_keyroots(t, start).len() && #[trigger] on_left_path(
                    g,
                    inner_keyroots(t, start)[j],
                    start + i,
                ),
    decreases t,
{
    let c = t.children@;
    let f = post_facts(t, depth, start);
    let fc = forest_post_facts(c, depth + 1, start);
    let n = size(t) as int;
    lemma_post_facts(t, depth, start);
    lemma_forest_post_facts(c, depth + 1, start);
    assert(n == forest_size(c) + 1);
    assert forall|i: int| 0 <= i < forest_size(c) implies g[start + i] == #[trigger] fc[i].first_child by {
        assert(f[i] == fc[i]);
        assert(g[start + i] == f[i].first_child);
    }
    lemma_forest_on_keyroot_path(g, c, depth + 1, start);
    assert(inner_keyroots(t, start) == forest_keyroots(c, start));
    let root = start + n - 1;
    assert forall|i: int| 0 <= i < n implies #[trigger] on_left_path(g, root, start + i) || exists|j: int|
        0 <= j < inner_keyroots(t, start).len() && #[trigger] on_left_path(
            g,
            inner_keyroots(t, start)[j],
            start + i,
        ) by {
        if i < n - 1 {
            if !(exists|j: int|
                0 <= j < forest_keyroots(c, start).len() && #[trigger] on_left_path(
                    g,
                    forest_keyroots(c, start)[j],
                    start + i,
                )) {
                assert(c.len() > 0);
                lemma_forest_first(c, depth + 1, start);
                lemma_post_facts(c[0], depth + 1, start);
                let c0 = start + size(c[0]) - 1;
                assert(on_left_path(g, c0, start + i));
                assert(g[root] == f[n - 1].first_child);
                assert(g[root] == c0);
                assert(-1 <= g[root] < root);
            }
        }
    }
}

/// Forest version of `lemma_on_keyroot_path`: each node lies on the left
/// path of the first tree's root or of a keyroot of the forest.
proof fn lemma_forest_on_keyroot_path(g: Seq<int>, s: Seq<TreeNode>, depth: nat, start: nat)
    requires
        start + forest_size(s) <= g.len(),
        forall|i: int|
            0 <= i < forest_size(s) ==> g[start + i] == #[trigger] forest_post_facts(
                s,
                depth,
                start,
            )[i].first_child,
    ensures
        forall|i: int|
            0 <= i < forest_size(s) ==> (s.len() > 0 && #[trigger] on_left_path(
                g,
                start + size(s[0]) - 1,
                start + i,
            )) || exists|j: int|
                0 <= j < forest_keyroots(s, start).len() && #[trigger] on_left_path(
                    g,
                    forest_keyroots(s, start)[j],
                    start + i,
                ),
    decreases s,
{
    if s.len() > 0 {
        let d = s.drop_last();
        let u = s.last();
        let ls = start + forest_size(d);
        let fs = forest_post_facts(s, depth, start);
        let fd = forest_post_facts(d, depth, start);
        let fu = post_facts(u, depth, ls);
        lemma_forest_post_facts(d, depth, start);
        lemma_post_facts(u, depth, ls);
        lemma_forest_post_facts(s, depth, start);
        let m = forest_size(d) as int;
        assert(forest_size(s) == m + size(u));
        assert forall|i: int| 0 <= i < m implies g[start + i] == #[trigger] fd[i].first_child by {
            assert(fs[i] == fd[i]);
            assert(g[start + i] == fs[i].first_child);
        }
        assert forall|i: int| 0 <= i < size(u) implies g[ls + i] == #[trigger] fu[i].first_child by {
            assert(fs[m + i] == fu[i]);
            assert(g[start + (m + i)] == fs[m + i].first_child);
        }
        lemma_forest_on_keyroot_path(g, d, depth, start);
        lemma_on_keyroot_path(g, u, depth, ls);
        let kd = forest_keyroots(d, start);
        let ku = inner_keyroots(u, ls);
        let ks = forest_keyroots(s, start);
        assert(ks == kd + ku + if s.len() > 1 { seq![ls + size(u) - 1] } else { Seq::<int>::empty() });
        assert forall|i: int| 0 <= i < forest_size(s) implies (s.len() > 0 && #[trigger] on_left_path(
            g,
            start + size(s[0]) - 1,
            start + i,
        )) || exists|j: int|
            0 <= j < ks.len() && #[trigger] on_left_path(g, ks[j], start + i) by {
            if i < m {
                assert(d[0] == s[0]);
                if exists|j: int| 0 <= j < kd.len() && #[trigger] on_left_path(g, kd[j], start + i) {
                    let j = choose|j: int| 0 <= j < kd.len() && #[trigger] on_left_path(g, kd[j], start + i);
                    assert(ks[j] == kd[j]);
                }
            } else {
                let iu = i - m;
                assert(start + i == ls + iu);
                if exists|j: int| 0 <= j < ku.len() && #[trigger] on_left_path(g, ku[j], ls + iu) {
                    let j = choose|j: int| 0 <= j < ku.len() && #[trigger] on_left_path(g, ku[j], ls + iu);
                    assert(ks[kd.len() + j] == ku[j]);
                } else {
                    assert(on_left_path(g, ls + size(u) - 1, ls + iu));
                    if s.len() > 1 {
                        assert(ks[(kd.len() + ku.len()) as int] == ls + size(u) - 1);
                    } else {
                        assert(s[0] == u);
                        assert(m == 0);
                    }
                }
            }
        }
    }
}

/// The index of a tree puts every node on the left path of its keyroot
/// ancestor, and every leftmost child inside its parent's block.
pub open spec fn kr_paths(idx: TopDiffIndex) -> bool {
    let n = idx.tree_size as int;
    &&& forall|p: int|
        0 <= p < n ==> #[trigger] on_left_path(
            ints(idx.postl_to_lch@),
            idx.postl_to_kr_ancestor@[p] as int,
            p,
        )
    &&& forall|p: int|
        0 <= p < n && idx.postl_to_lch@[p] >= 0 ==> #[trigger] idx.postl_to_lch@[p] > p
            - idx.postl_to_size@[p]
}

/// The keyroot ancestor search finds a keyroot on whose left path `l` lies
/// whenever one exists among the first `upto` keyroots.
proof fn lemma_kr_ancestor_found(lch: Seq<int>, kr: Seq<int>, l: int, upto: nat, w: int)
    requires
        upto <= kr.len(),
        0 <= w < upto,
        on_left_path(lch, kr[w], l),
    ensures
        on_left_path(lch, kr_ancestor_of(lch, kr, l, upto), l),
    decreases upto,
{
    if !on_left_path(lch, kr[upto - 1], l) {
        lemma_kr_ancestor_found(lch, kr, l, (upto - 1) as nat, w);
    }
}

/// The index of a tree has its keyroot paths.
pub proof fn lemma_index_kr_paths(idx: TopDiffIndex, tree: ParsedTree)
    requires
        idx.is_index_of(tree),
    ensures
        kr_paths(idx),
{
    lemma_index_wf(idx, tree);
    if let Some(t) = tree.root {
        let facts = post_facts(t, 0, 0);
        lemma_post_facts(t, 0, 0);
        let n = size(t) as int;
        let g = ints(idx.postl_to_lch@);
        let kr = ints(idx.list_kr@);
        assert forall|i: int| 0 <= i < size(t) implies g[0 + i] == #[trigger] facts[i].first_child by {
            assert(fact_lchs(facts)[i] == facts[i].first_child);
        }
        lemma_on_keyroot_path(g, t, 0, 0);
        let inner = inner_keyroots(t, 0);
        assert(kr == inner + seq![n - 1]);
        assert forall|p: int| 0 <= p < n implies #[trigger] on_left_path(
            g,
            idx.postl_to_kr_ancestor@[p] as int,
            p,
        ) by {
            assert(ints(idx.postl_to_kr_ancestor@)[p] == idx.postl_to_kr_ancestor@[p] as int);
            assert(on_left_path(g, 0 + n - 1, 0 + p) || exists|j: int|
                0 <= j < inner.len() && #[trigger] on_left_path(g, inner[j], 0 + p));
            if on_left_path(g, n - 1, p) {
                assert(kr[inner.len() as int] == n - 1);
                lemma_kr_ancestor_found(g, kr, p, idx.list_kr@.len(), inner.len() as int);
            } else {
                let j = choose|j: int| 0 <= j < inner.len() && #[trigger] on_left_path(g, inner[j], 0 + p);
                assert(kr[j] == inner[j]);
                lemma_kr_ancestor_found(g, kr, p, idx.list_kr@.len(), j);
            }
        }
        assert forall|p: int| 0 <= p < n && idx.postl_to_lch@[p] >= 0 implies #[trigger] idx.postl_to_lch@[p]
            > p - idx.postl_to_size@[p] by {
            assert(fact_lchs(facts)[p] == facts[p].first_child);
            assert(fact_sizes(facts)[p] == facts[p].size);
            assert(g[p] == idx.postl_to_lch@[p] as int);
            assert(ints(idx.postl_to_size@)[p] == idx.postl_to_size@[p] as int);
        }
    }
}

/// Two nodes on one left path lie on each other's: the higher one's path
/// reaches the lower one.
proof fn lemma_left_path_comparable(g: Seq<int>, top: int, a: int, b: int)
    requires
        on_left_path(g, top, a),
        on_left_path(g, top, b),
        a <= b,
    ensures
        on_left_path(g, b, a),
    decreases top + 1,
{
    if top == b {
    } else if top == a {
        lemma_left_path_le(g, top, b);
    } else {
        lemma_left_path_comparable(g, g[top], a, b);
    }
}

/// Subtree sizes grow up a left path.
proof fn lemma_left_path_sizes(idx: TopDiffIndex, top: int, a: int)
    requires
        idx.wf(),
        kr_paths(idx),
        on_left_path(ints(idx.postl_to_lch@), top, a),
    ensures
        0 <= a <= top < idx.tree_size,
        idx.postl_to_size@[a] <= idx.postl_to_size@[top],
    decreases top + 1,
{
    let g = ints(idx.postl_to_lch@);
    if top != a {
        let c = g[top];
        assert(g[top] == idx.postl_to_lch@[top] as int);
        lemma_left_path_sizes(idx, c, a);
        assert(idx.postl_to_lch@[top] > top - idx.postl_to_size@[top]);
        assert(idx.postl_to_size@[c] <= c - top + idx.postl_to_size@[top]);
    }
}

/// The budget over the left paths from `(x, y)` grows when `y` moves up
/// its left path.
proof fn lemma_budget_y_up(t1: TopDiffIndex, t2: TopDiffIndex, x: int, top: int, y: int, k: int)
    requires
        t2.wf(),
        on_left_path(ints(t2.postl_to_lch@), top, y),
    ensures
        left_path_budget_y(t1, t2, x, y, k) <= left_path_budget_y(t1, t2, x, top, k),
    decreases top + 1,
{
    if top != y {
        assert(ints(t2.postl_to_lch@)[top] == t2.postl_to_lch@[top] as int);
        lemma_budget_y_up(t1, t2, x, t2.postl_to_lch@[top] as int, y, k);
    }
}

/// `left_path_budget` grows when `y` moves up its left path.
proof fn lemma_budget_up_y(t1: TopDiffIndex, t2: TopDiffIndex, x: int, top: int, y: int, k: int)
    requires
        t1.wf(),
        t2.wf(),
        on_left_path(ints(t2.postl_to_lch@), top, y),
    ensures
        left_path_budget(t1, t2, x, y, k) <= left_path_budget(t1, t2, x, top, k),
    decreases x + 1,
{
    if 0 <= x < t1.postl_to_lch@.len() {
        lemma_budget_y_up(t1, t2, x, top, y, k);
        if -1 <= t1.postl_to_lch@[x] < x {
            lemma_budget_up_y(t1, t2, t1.postl_to_lch@[x] as int, top, y, k);
        }
    }
}

/// `left_path_budget` grows when `x` moves up its left path.
proof fn lemma_budget_up_x(t1: TopDiffIndex, t2: TopDiffIndex, top: int, x: int, y: int, k: int)
    requires
        t1.wf(),
        on_left_path(ints(t1.postl_to_lch@), top, x),
    ensures
        left_path_budget(t1, t2, x, y, k) <= left_path_budget(t1, t2, top, y, k),
    decreases top + 1,
{
    if top != x {
        assert(ints(t1.postl_to_lch@)[top] == t1.postl_to_lch@[top] as int);
        lemma_budget_up_x(t1, t2, t1.postl_to_lch@[top] as int, x, y, k);
    }
}

/// Postorder DFS: appends the facts of the subtree at `node` to the four
/// arrays and its inner keyroots to `list_kr`, and returns the subtree size.
fn recurse(
    node: &TreeNode,
    depth: i32,
    next_postorder: &mut i32,
    labels: &mut Vec<i32>,
    sizes: &mut Vec<i32>,
    depths: &mut Vec<i32>,
    lchs: &mut Vec<i32>,
    list_kr: &mut Vec<i32>,
) -> (r: i32)
    requires
        *old(next_postorder) >= 0,
        *old(next_postorder) + size(*node) <= i32::MAX,
        depth >= 0,
        depth + size(*node) <= i32::MAX,
    ensures
        r == size(*node),
        *final(next_postorder) == *old(next_postorder) + size(*node),
        ints(final(labels)@) == ints(old(labels)@) + fact_labels(
            post_facts(*node, depth as nat, *old(next_postorder) as nat),
        ),
        ints(final(sizes)@) == ints(old(sizes)@) + fact_sizes(
            post_facts(*node, depth as nat, *old(next_postorder) as nat),
        ),
        ints(final(depths)@) == ints(old(depths)@) + fact_depths(
            post_facts(*node, depth as nat, *old(next_postorder) as nat),
        ),
        ints(final(lchs)@) == ints(old(lchs)@) + fact_lchs(
            post_facts(*node, depth as nat, *old(next_postorder) as nat),
        ),
        ints(final(list_kr)@) == ints(old(list_kr)@) + inner_keyroots(
            *node,
            *old(next_postorder) as nat,
        ),
    decreases node,
{
    let ghost start = *next_postorder as nat;
    let ghost d = depth as nat;
    let ghost c = node.children@;
    let ghost l0 = ints(labels@);
    let ghost s0 = ints(sizes@);
    let ghost d0 = ints(depths@);
    let ghost c0 = ints(lchs@);
    let ghost k0 = ints(list_kr@);
    let mut desc_sum: i32 = 0;
    let mut first_child_postorder: i32 = -1;
    let n = node.children.len();
    let mut i: usize = 0;
    while i < n
        invariant
            i <= n,
            n == c.len(),
            c == node.children@,
            size(*node) == 1 + forest_size(c),
            start + size(*node) <= i32::MAX,
            d + size(*node) <= i32::MAX,
            depth == d,
            desc_sum == forest_size(c.take(i as int)),
            *next_postorder == start + forest_size(c.take(i as int)),
            first_child_postorder == if i == 0 {
                -1
            } else {
                start + size(c[0]) - 1
            },
            ints(labels@) == l0 + fact_labels(forest_post_facts(c.take(i as int), d + 1, start)),
            ints(sizes@) == s0 + fact_sizes(forest_post_facts(c.take(i as int), d + 1, start)),
            ints(depths@) == d0 + fact_depths(forest_post_facts(c.take(i as int), d + 1, start)),
            ints(lchs@) == c0 + fact_lchs(forest_post_facts(c.take(i as int), d + 1, start)),
            ints(list_kr@) == k0 + forest_keyroots(c.take(i as int), start),
        decreases n - i,
    {
        let ghost t = c.take(i as int);
        let ghost ch = c[i as int];
        proof {
            lemma_take_succ(c, i as int);
            lemma_forest_size_prefix(c, i + 1);
        }
        let ghost cs = *next_postorder as nat;
        let child_size = recurse(
            &node.children[i],
            depth + 1,
            next_postorder,
            labels,
            sizes,
            depths,
            lchs,
            list_kr,
        );
        desc_sum = desc_sum + child_size;
        let child_postorder = *next_postorder - 1;
        let ghost kbefore = ints(list_kr@);
        if i == 0 {
            first_child_postorder = child_postorder;
            proof {
                assert(c.take(1) =~= seq![c[0]]);
                assert(t.len() == 0);
            }
        } else {
            list_kr.push(child_postorder);
        }
        proof {
            let f = forest_post_facts(t, d + 1, start);
            let g = post_facts(ch, d + 1, cs);
            assert(forest_post_facts(c.take(i + 1), d + 1, start) == f + g);
            assert(fact_labels(f + g) =~= fact_labels(f) + fact_labels(g));
            assert(fact_sizes(f + g) =~= fact_sizes(f) + fact_sizes(g));
            assert(fact_depths(f + g) =~= fact_depths(f) + fact_depths(g));
            assert(fact_lchs(f + g) =~= fact_lchs(f) + fact_lchs(g));
            assert(ints(labels@) =~= l0 + fact_labels(f + g));
            assert(ints(sizes@) =~= s0 + fact_sizes(f + g));
            assert(ints(depths@) =~= d0 + fact_depths(f + g));
            assert(ints(lchs@) =~= c0 + fact_lchs(f + g));
            let kk = forest_keyroots(c.take(i + 1), start);
            if i == 0 {
                assert(ints(list_kr@) =~= k0 + kk);
            } else {
                assert(kk == forest_keyroots(t, start) + inner_keyroots(ch, cs) + seq![
                    cs + size(ch) - 1,
                ]);
                assert(kbefore == k0 + forest_keyroots(t, start) + inner_keyroots(ch, cs));
                assert(ints(list_kr@) =~= kbefore + seq![child_postorder as int]);
                assert(ints(list_kr@) =~= k0 + kk);
            }
        }
        i = i + 1;
    }
    proof {
        assert(c.take(n as int) =~= c);
    }
    let this_postorder = *next_postorder;
    let ghost fc = forest_post_facts(c, d + 1, start);
    let ghost all = post_facts(*node, d, start);
    let ghost l1 = ints(labels@);
    let ghost s1 = ints(sizes@);
    let ghost d1 = ints(depths@);
    let ghost c1 = ints(lchs@);
    labels.push(node.label);
    sizes.push(desc_sum + 1);
    depths.push(depth);
    lchs.push(first_child_postorder);
    proof {
        let x = all[all.len() - 1];
        assert(all == fc + seq![x]);
        assert(fact_labels(fc + seq![x]) =~= fact_labels(fc) + seq![x.label as int]);
        assert(fact_sizes(fc + seq![x]) =~= fact_sizes(fc) + seq![x.size as int]);
        assert(fact_depths(fc + seq![x]) =~= fact_depths(fc) + seq![x.depth as int]);
        assert(fact_lchs(fc + seq![x]) =~= fact_lchs(fc) + seq![x.first_child]);
        assert(ints(labels@) =~= l1 + seq![node.label as int]);
        assert(ints(sizes@) =~= s1 + seq![(desc_sum + 1) as int]);
        assert(ints(depths@) =~= d1 + seq![depth as int]);
        assert(ints(lchs@) =~= c1 + seq![first_child_postorder as int]);
        assert(ints(labels@) =~= ints(old(labels)@) + fact_labels(all));
        assert(ints(sizes@) =~= ints(old(sizes)@) + fact_sizes(all));
        assert(ints(depths@) =~= ints(old(depths)@) + fact_depths(all));
        assert(ints(lchs@) =~= ints(old(lchs)@) + fact_lchs(all));
    }
    *next_postorder = *next_postorder + 1;
    desc_sum + 1
}

impl TopDiffIndex {
    /// Builds the TopDiff index of `tree`.
    pub fn from_tree(tree: &ParsedTree) -> (r: TopDiffIndex)
        requires
            tree_size(*tree) <= i32::MAX,
        ensures
            r.is_index_of(*tree),
    {
        let root: &TreeNode = match &tree.root {
            Some(r) => r,
            None => {
                return TopDiffIndex {
                    tree_size: 0,
                    postl_to_label_id: Vec::new(),
                    postl_to_size: Vec::new(),
                    postl_to_depth: Vec::new(),
                    postl_to_lch: Vec::new(),
                    postl_to_kr_ancestor: Vec::new(),
                    list_kr: Vec::new(),
                };
            },
        };
        let ghost t = *root;
        let mut postl_to_label_id: Vec<i32> = Vec::new();
        let mut postl_to_size: Vec<i32> = Vec::new();
        let mut postl_to_depth: Vec<i32> = Vec::new();
        let mut postl_to_lch: Vec<i32> = Vec::new();
        let mut list_kr: Vec<i32> = Vec::new();
        let mut next_postorder: i32 = 0;
        let n = recurse(
            root,
            0,
            &mut next_postorder,
            &mut postl_to_label_id,
            &mut postl_to_size,
            &mut postl_to_depth,
            &mut postl_to_lch,
            &mut list_kr,
        );
        proof {
            assert(ints(list_kr@) =~= inner_keyroots(t, 0));
        }
        list_kr.push(next_postorder - 1);
        let ghost facts = post_facts(t, 0, 0);
        let ghost lch = ints(postl_to_lch@);
        let ghost kr = ints(list_kr@);
        proof {
            assert(kr =~= inner_keyroots(t, 0) + seq![size(t) - 1]);
            lemma_post_facts(t, 0, 0);
            assert(ints(postl_to_lch@) =~= fact_lchs(facts));
            assert forall|l: int| 0 <= l < n implies -1 <= #[trigger] lch[l] < l by {
                assert(lch[l] == facts[l].first_child);
            }
            assert forall|j: int| 0 <= j < kr.len() implies 0 <= #[trigger] kr[j] < n by {
                if j < kr.len() - 1 {
                    assert(kr[j] == inner_keyroots(t, 0)[j]);
                }
            }
        }
        let mut postl_to_kr_ancestor: Vec<i32> = Vec::new();
        let mut z: i32 = 0;
        while z < n
            invariant
                0 <= z <= n,
                postl_to_kr_ancestor@.len() == z,
                forall|l: int| 0 <= l < z ==> #[trigger] postl_to_kr_ancestor@[l] == 0,
            decreases n - z,
        {
            postl_to_kr_ancestor.push(0);
            z = z + 1;
        }
        let nk = list_kr.len();
        let mut idx: usize = 0;
        while idx < nk
            invariant
                idx <= nk,
                nk == list_kr@.len(),
                n >= 1,
                postl_to_lch@.len() == n,
                postl_to_kr_ancestor@.len() == n,
                lch == ints(postl_to_lch@),
                kr == ints(list_kr@),
                forall|l: int| 0 <= l < n ==> -1 <= #[trigger] lch[l] < l,
                forall|j: int| 0 <= j < kr.len() ==> 0 <= #[trigger] kr[j] < n,
                forall|m: int|
                    0 <= m < n ==> #[trigger] postl_to_kr_ancestor@[m] == kr_ancestor_of(
                        lch,
                        kr,
                        m,
                        idx as nat,
                    ),
            decreases nk - idx,
        {
            let i = list_kr[idx];
            assert(kr[idx as int] == i);
            let ghost before = postl_to_kr_ancestor@;
            let mut l = i;
            while l >= 0
                invariant
                    -1 <= l < n,
                    0 <= i < n,
                    postl_to_lch@.len() == n,
                    postl_to_kr_ancestor@.len() == n,
                    lch == ints(postl_to_lch@),
                    forall|x: int| 0 <= x < n ==> -1 <= #[trigger] lch[x] < x,
                    l >= 0 ==> on_left_path(lch, i as int, l as int),
                    forall|m: int|
                        0 <= m < n ==> #[trigger] postl_to_kr_ancestor@[m] == if on_left_path(
                            lch,
                            i as int,
                            m,
                        ) && !on_left_path(lch, l as int, m) {
                            i as int
                        } else {
                            before[m] as int
                        },
                decreases l + 1,
            {
                postl_to_kr_ancestor.set(l as usize, i);
                let nl = postl_to_lch[l as usize];
                proof {
                    assert(lch[l as int] == nl);
                    assert forall|m: int| 0 <= m < n implies #[trigger] on_left_path(
                        lch,
                        l as int,
                        m,
                    ) == (m == l || on_left_path(lch, nl as int, m)) by {}
                    if on_left_path(lch, nl as int, l as int) {
                        lemma_left_path_le(lch, nl as int, l as int);
                    }
                    if nl >= 0 {
                        assert(on_left_path(lch, nl as int, nl as int));
                        assert(on_left_path(lch, l as int, nl as int));
                        lemma_left_path_trans(lch, i as int, l as int, nl as int);
                    }
                }
                l = nl;
            }
            proof {
                assert forall|m: int| 0 <= m < n implies #[trigger] postl_to_kr_ancestor@[m]
                    == kr_ancestor_of(lch, kr, m, (idx + 1) as nat) by {
                    assert(!on_left_path(lch, -1, m));
                }
            }
            idx = idx + 1;
        }
        let r = TopDiffIndex {
            tree_size: n,
            postl_to_label_id,
            postl_to_size,
            postl_to_depth,
            postl_to_lch,
            postl_to_kr_ancestor,
            list_kr,
        };
        proof {
            assert(ints(r.postl_to_kr_ancestor@) =~= Seq::new(
                size(t),
                |l: int| kr_ancestor_of(lch, kr, l, nk as nat),
            ));
        }
        r
    }
}

/// A distance value: a count of edit operations, or `INFINITE_COST`.
pub type Cost = u64;

/// Stands for an infinite distance (one beyond the error budget).
pub const INFINITE_COST: u64 = 0xffff_ffff_ffff_ffff;

impl TopDiffIndex {
    /// The arrays describe a tree in postorder: every node's subtree is a
    /// block of ids ending at the node, blocks nest, the leftmost child comes
    /// before its parent and keyroot ancestors are node ids.
    pub open spec fn wf(&self) -> bool {
        let n = self.tree_size as int;
        &&& 0 <= n
        &&& n > 0 ==> self.postl_to_size@[n - 1] == n
        &&& self.postl_to_label_id@.len() == n
        &&& self.postl_to_size@.len() == n
        &&& self.postl_to_depth@.len() == n
        &&& self.postl_to_lch@.len() == n
        &&& self.postl_to_kr_ancestor@.len() == n
        &&& forall|p: int|
            0 <= p < n ==> {
                &&& 1 <= #[trigger] self.postl_to_size@[p] <= p + 1
                &&& 0 <= self.postl_to_depth@[p] < n
                &&& -1 <= self.postl_to_lch@[p] < p
                &&& 0 <= self.postl_to_kr_ancestor@[p] < n
            }
        &&& forall|p: int, q: int|
            0 <= q <= p < n && q > p - self.postl_to_size@[p] ==> #[trigger] self.postl_to_size@[q]
                <= q - p + #[trigger] self.postl_to_size@[p]
    }
}

proof fn lemma_kr_ancestor_range(lch: Seq<int>, kr: Seq<int>, l: int, upto: nat, n: int)
    requires
        upto <= kr.len(),
        n >= 1,
        forall|j: int| 0 <= j < kr.len() ==> 0 <= #[trigger] kr[j] < n,
    ensures
        0 <= kr_ancestor_of(lch, kr, l, upto) < n,
    decreases upto,
{
    if upto > 0 {
        lemma_kr_ancestor_range(lch, kr, l, (upto - 1) as nat, n);
    }
}

/// The index of a tree satisfies `wf`.
pub proof fn lemma_index_wf(idx: TopDiffIndex, tree: ParsedTree)
    requires
        idx.is_index_of(tree),
    ensures
        idx.wf(),
{
    if let Some(t) = tree.root {
        let facts = post_facts(t, 0, 0);
        lemma_post_facts(t, 0, 0);
        lemma_post_facts_nest(t, 0, 0);
        let n = size(t) as int;
        let kr = ints(idx.list_kr@);
        assert(facts.len() == n);
        assert(facts[n - 1].size == n);
        assert(ints(idx.postl_to_size@).len() == idx.postl_to_size@.len());
        assert(ints(idx.postl_to_depth@).len() == idx.postl_to_depth@.len());
        assert(ints(idx.postl_to_lch@).len() == idx.postl_to_lch@.len());
        assert(ints(idx.postl_to_label_id@).len() == idx.postl_to_label_id@.len());
        assert(ints(idx.postl_to_kr_ancestor@).len() == idx.postl_to_kr_ancestor@.len());
        assert(fact_sizes(facts).len() == n);
        assert(idx.postl_to_size@.len() == n);
        assert(idx.postl_to_depth@.len() == n);
        assert(idx.postl_to_lch@.len() == n);
        assert(idx.postl_to_label_id@.len() == n);
        assert(idx.postl_to_kr_ancestor@.len() == n);
        assert(idx.postl_to_size@[n - 1] == n) by {
            assert(fact_sizes(facts)[n - 1] == facts[n - 1].size);
            assert(ints(idx.postl_to_size@)[n - 1] == idx.postl_to_size@[n - 1] as int);
        }
        assert forall|j: int| 0 <= j < kr.len() implies 0 <= #[trigger] kr[j] < n by {
            if j < kr.len() - 1 {
                assert(kr[j] == inner_keyroots(t, 0)[j]);
            }
        }
        assert forall|p: int| 0 <= p < n implies {
            &&& 1 <= #[trigger] idx.postl_to_size@[p] <= p + 1
            &&& 0 <= idx.postl_to_depth@[p] < n
            &&& -1 <= idx.postl_to_lch@[p] < p
            &&& 0 <= idx.postl_to_kr_ancestor@[p] < n
        } by {
            assert(fact_sizes(facts)[p] == facts[p].size);
            assert(fact_depths(facts)[p] == facts[p].depth);
            assert(fact_lchs(facts)[p] == facts[p].first_child);
            assert(ints(idx.postl_to_size@)[p] == idx.postl_to_size@[p] as int);
            assert(ints(idx.postl_to_depth@)[p] == idx.postl_to_depth@[p] as int);
            assert(ints(idx.postl_to_lch@)[p] == idx.postl_to_lch@[p] as int);
            assert(ints(idx.postl_to_kr_ancestor@)[p] == idx.postl_to_kr_ancestor@[p] as int);
            assert(ints(idx.postl_to_size@)[p] == facts[p].size);
            assert(ints(idx.postl_to_depth@)[p] == facts[p].depth);
            assert(ints(idx.postl_to_lch@)[p] == facts[p].first_child);
            assert(ints(idx.postl_to_kr_ancestor@)[p] == kr_ancestor_of(
                ints(idx.postl_to_lch@),
                kr,
                p,
                idx.list_kr@.len(),
            ));
            lemma_kr_ancestor_range(ints(idx.postl_to_lch@), kr, p, idx.list_kr@.len(), n);
        }
        assert forall|p: int, q: int|
            0 <= q <= p < n && q > p - idx.postl_to_size@[p] implies #[trigger] idx.postl_to_size@[q]
            <= q - p + #[trigger] idx.postl_to_size@[p] by {
            assert(fact_sizes(facts)[p] == facts[p].size);
            assert(fact_sizes(facts)[q] == facts[q].size);
            assert(ints(idx.postl_to_size@)[p] == idx.postl_to_size@[p] as int);
            assert(ints(idx.postl_to_size@)[q] == idx.postl_to_size@[q] as int);
            assert(0 + q > 0 + p - facts[p].size);
        }
    }
}

/// Absolute value.
pub open spec fn abs_int(v: int) -> int {
    if v < 0 { -v } else { v }
}

/// The structural lower bound on the distance of subtrees `x` and `y` used
/// by the error budget (differences of the following-node counts, of the
/// depths and of the preceding-node counts).
pub open spec fn budget_lower_bound(t1: TopDiffIndex, t2: TopDiffIndex, x: int, y: int) -> int {
    let x_size = t1.postl_to_size@[x] as int;
    let y_size = t2.postl_to_size@[y] as int;
    let dx = t1.postl_to_depth@[x] as int;
    let dy = t2.postl_to_depth@[y] as int;
    abs_int((t1.tree_size - (x + 1) - dx) - (t2.tree_size - (y + 1) - dy)) + abs_int(dx - dy)
        + abs_int(((x + 1) - x_size) - ((y + 1) - y_size))
}

/// `e(x, y) = k - budget_lower_bound(x, y)`; it may be negative.
pub open spec fn e_budget_value(t1: TopDiffIndex, t2: TopDiffIndex, x: int, y: int, k: int) -> int {
    k - budget_lower_bound(t1, t2, x, y)
}

/// The k-relevance lower bound: the budget lower bound plus the difference
/// of the subtree sizes.
pub open spec fn relevance_lower_bound(t1: TopDiffIndex, t2: TopDiffIndex, x: int, y: int) -> int {
    budget_lower_bound(t1, t2, x, y) + abs_int(
        t1.postl_to_size@[x] as int - t2.postl_to_size@[y] as int,
    )
}

fn abs_i64(v: i64) -> (r: i64)
    requires
        v > i64::MIN,
    ensures
        r == abs_int(v as int),
{
    if v < 0 {
        -v
    } else {
        v
    }
}

/// Remaining error budget for the subtree pair `(x, y)`; may be negative.
pub fn e_budget(t1: &TopDiffIndex, t2: &TopDiffIndex, x: i32, y: i32, k: i32) -> (r: i32)
    requires
        0 <= x < t1.postl_to_size@.len(),
        x < t1.postl_to_depth@.len(),
        0 <= y < t2.postl_to_size@.len(),
        y < t2.postl_to_depth@.len(),
        i32::MIN <= e_budget_value(*t1, *t2, x as int, y as int, k as int),
    ensures
        r == e_budget_value(*t1, *t2, x as int, y as int, k as int),
{
    let x_size = t1.postl_to_size[x as usize] as i64;
    let y_size = t2.postl_to_size[y as usize] as i64;
    let dx = t1.postl_to_depth[x as usize] as i64;
    let dy = t2.postl_to_depth[y as usize] as i64;
    let x = x as i64;
    let y = y as i64;
    let lower_bound = abs_i64((t1.tree_size as i64 - (x + 1) - dx) - (t2.tree_size as i64 - (y + 1)
        - dy)) + abs_i64(dx - dy) + abs_i64(((x + 1) - x_size) - ((y + 1) - y_size));
    (k as i64 - lower_bound) as i32
}

/// Whether subtrees `T1_x` and `T2_y` are k-relevant.
pub fn k_relevant(t1: &TopDiffIndex, t2: &TopDiffIndex, x: i32, y: i32, k: i32) -> (r: bool)
    requires
        0 <= x < t1.postl_to_size@.len(),
        x < t1.postl_to_depth@.len(),
        0 <= y < t2.postl_to_size@.len(),
        y < t2.postl_to_depth@.len(),
    ensures
        r == (relevance_lower_bound(*t1, *t2, x as int, y as int) <= k),
{
    let x_size = t1.postl_to_size[x as usize] as i64;
    let y_size = t2.postl_to_size[y as usize] as i64;
    let dx = t1.postl_to_depth[x as usize] as i64;
    let dy = t2.postl_to_depth[y as usize] as i64;
    let x = x as i64;
    let y = y as i64;
    let lower_bound = abs_i64((t1.tree_size as i64 - (x + 1) - dx) - (t2.tree_size as i64 - (y + 1)
        - dy)) + abs_i64(dx - dy) + abs_i64(x_size - y_size) + abs_i64(((x + 1) - x_size) - ((y
        + 1) - y_size));
    lower_bound <= k as i64
}

/// Sizes and threshold small enough for the pruning arithmetic in `i32`.
pub open spec fn topdiff_fits(t1: TopDiffIndex, t2: TopDiffIndex, k: int) -> bool {
    &&& 0 <= k <= 0x1000_0000
    &&& t1.tree_size <= 0x1000_0000
    &&& t2.tree_size <= 0x1000_0000
}

/// Maximum of `e_budget(x, y')` over the left path `y'` starting at `y`
/// (and `0`).
pub open spec fn left_path_budget_y(t1: TopDiffIndex, t2: TopDiffIndex, x: int, y: int, k: int) -> int
    decreases y + 1,
{
    if y < 0 || y >= t2.postl_to_lch@.len() {
        0
    } else {
        let rest = if -1 <= t2.postl_to_lch@[y] < y {
            left_path_budget_y(t1, t2, x, t2.postl_to_lch@[y] as int, k)
        } else {
            0
        };
        let here = e_budget_value(t1, t2, x, y, k);
        if here >= rest { here } else { rest }
    }
}

/// Maximum of `e_budget` over all pairs on the left paths starting at `x` and
/// `y` (and `0`).
pub open spec fn left_path_budget(t1: TopDiffIndex, t2: TopDiffIndex, x: int, y: int, k: int) -> int
    decreases x + 1,
{
    if x < 0 || x >= t1.postl_to_lch@.len() {
        0
    } else {
        let rest = if -1 <= t1.postl_to_lch@[x] < x {
            left_path_budget(t1, t2, t1.postl_to_lch@[x] as int, y, k)
        } else {
            0
        };
        let here = left_path_budget_y(t1, t2, x, y, k);
        if here >= rest { here } else { rest }
    }
}

proof fn lemma_budget_le_k(t1: TopDiffIndex, t2: TopDiffIndex, x: int, y: int, k: int)
    requires
        k >= 0,
    ensures
        0 <= left_path_budget_y(t1, t2, x, y, k) <= k,
        0 <= left_path_budget(t1, t2, x, y, k) <= k,
    decreases x + 1,
{
    lemma_budget_le_k_y(t1, t2, x, y, k);
    if 0 <= x < t1.postl_to_lch@.len() && -1 <= t1.postl_to_lch@[x] < x {
        lemma_budget_le_k(t1, t2, t1.postl_to_lch@[x] as int, y, k);
    }
}

proof fn lemma_budget_le_k_y(t1: TopDiffIndex, t2: TopDiffIndex, x: int, y: int, k: int)
    requires
        k >= 0,
    ensures
        0 <= left_path_budget_y(t1, t2, x, y, k) <= k,
    decreases y + 1,
{
    if 0 <= y < t2.postl_to_lch@.len() && -1 <= t2.postl_to_lch@[y] < y {
        lemma_budget_le_k_y(t1, t2, x, t2.postl_to_lch@[y] as int, k);
    }
}

/// Maximum `e_budget` over all node pairs on the left paths (leftmost-child
/// chains) of the keyroot representative `(x_l, y_l)`, and at least `0`.
pub fn e_max_over_left_paths(t1: &TopDiffIndex, t2: &TopDiffIndex, x_l: i32, y_l: i32, k: i32) -> (r: i32)
    requires
        t1.wf(),
        t2.wf(),
        topdiff_fits(*t1, *t2, k as int),
        -1 <= x_l < t1.tree_size,
        -1 <= y_l < t2.tree_size,
    ensures
        r == left_path_budget(*t1, *t2, x_l as int, y_l as int, k as int),
        0 <= r <= k,
{
    proof {
        lemma_budget_le_k(*t1, *t2, x_l as int, y_l as int, k as int);
    }
    let mut e_max: i32 = 0;
    let mut top_x = x_l;
    while top_x > -1
        invariant
            t1.wf(),
            t2.wf(),
            topdiff_fits(*t1, *t2, k as int),
            -1 <= top_x < t1.tree_size,
            -1 <= y_l < t2.tree_size,
            0 <= e_max <= k,
            left_path_budget(*t1, *t2, x_l as int, y_l as int, k as int) == (if e_max
                >= left_path_budget(*t1, *t2, top_x as int, y_l as int, k as int) {
                e_max as int
            } else {
                left_path_budget(*t1, *t2, top_x as int, y_l as int, k as int)
            }),
        decreases top_x + 1,
    {
        let ghost outer = e_max;
        let mut top_y = y_l;
        while top_y > -1
            invariant
                t1.wf(),
                t2.wf(),
                topdiff_fits(*t1, *t2, k as int),
                0 <= top_x < t1.tree_size,
                -1 <= top_y < t2.tree_size,
                0 <= outer <= e_max <= k,
                (if outer >= left_path_budget_y(*t1, *t2, top_x as int, y_l as int, k as int) {
                    outer as int
                } else {
                    left_path_budget_y(*t1, *t2, top_x as int, y_l as int, k as int)
                }) == (if e_max >= left_path_budget_y(
                    *t1,
                    *t2,
                    top_x as int,
                    top_y as int,
                    k as int,
                ) {
                    e_max as int
                } else {
                    left_path_budget_y(*t1, *t2, top_x as int, top_y as int, k as int)
                }),
            decreases top_y + 1,
        {
            proof {
                lemma_budget_le_k_y(*t1, *t2, top_x as int, top_y as int, k as int);
            }
            let b = e_budget(t1, t2, top_x, top_y, k);
            if b > e_max {
                e_max = b;
            }
            top_y = t2.postl_to_lch[top_y as usize];
        }
        proof {
            lemma_budget_le_k(*t1, *t2, top_x as int, y_l as int, k as int);
        }
        top_x = t1.postl_to_lch[top_x as usize];
    }
    e_max
}

/// Unit renaming cost: `0` for equal labels, else `1`.
fn cost_ren(a: i32, b: i32) -> (r: Cost)
    ensures
        r == (if a == b { 0u64 } else { 1u64 }),
{
    if a == b {
        0
    } else {
        1
    }
}

/// The smaller of two costs.
fn cost_min(a: Cost, b: Cost) -> (r: Cost)
    ensures
        r == (if a <= b { a } else { b }),
{
    if a <= b {
        a
    } else {
        b
    }
}

/// The number of cells of row `i` of the forest DP within the budget `e`:
/// columns from `max(1, i - e)` to `min(i + e, ys)`.
pub open spec fn row_cells(i: int, ys: int, e: int) -> int {
    let lo = if 1 >= i - e { 1 } else { i - e };
    let hi = if i + e < ys { i + e } else { ys };
    if hi >= lo { hi - lo + 1 } else { 0 }
}

/// The number of cells of rows `1..=upto` of the forest DP within the
/// budget `e`.
pub open spec fn band_cells(upto: int, ys: int, e: int) -> int
    decreases upto,
{
    if upto <= 0 {
        0
    } else {
        band_cells(upto - 1, ys, e) + row_cells(upto, ys, e)
    }
}

/// A count of cells is never negative.
proof fn lemma_band_cells_nonneg(upto: int, ys: int, e: int)
    ensures
        band_cells(upto, ys, e) >= 0,
    decreases upto,
{
    if upto > 0 {
        lemma_band_cells_nonneg(upto - 1, ys, e);
    }
}

/// One more step of a counter that wraps at `2^64`.
proof fn lemma_wrap_step(c: u64, a: int)
    requires
        a >= 0,
        c as int == a % 0x1_0000_0000_0000_0000,
    ensures
        (if c + 1 > u64::MAX { 0int } else { c + 1 }) == (a + 1) % 0x1_0000_0000_0000_0000,
{
    let m: int = 0x1_0000_0000_0000_0000;
    vstd::arithmetic::div_mod::lemma_fundamental_div_mod(a, m);
    let q = a / m;
    assert(a == q * m + c) by {
        assert(m * q == q * m) by (nonlinear_arith);
    }
    if c + 1 > u64::MAX {
        assert(a + 1 == (q + 1) * m + 0) by (nonlinear_arith)
            requires
                a == q * m + c,
                c + 1 == m,
        ;
        vstd::arithmetic::div_mod::lemma_fundamental_div_mod_converse(a + 1, m, q + 1, 0);
    } else {
        vstd::arithmetic::div_mod::lemma_fundamental_div_mod_converse(a + 1, m, q, c + 1);
    }
}

/// The forest distance between the first `r` postorder nodes after `x_off`
/// in the first tree and the first `c` postorder nodes after `y_off` in the
/// second: the forests that row `r` and column `c` of the DP over the
/// subtrees starting after `x_off` and `y_off` stand for.
pub open spec fn window_distance(t1: TopDiffIndex, t2: TopDiffIndex, x_off: int, y_off: int, r: int, c: int) -> int {
    forest_distance(
        t1.postl_to_label_id@,
        t1.postl_to_size@,
        t2.postl_to_label_id@,
        t2.postl_to_size@,
        x_off + 1,
        x_off + 1 + r,
        y_off + 1,
        y_off + 1 + c,
    )
}

/// The window distances are small: at most the two node counts together.
proof fn lemma_window_bounds(t1: TopDiffIndex, t2: TopDiffIndex, x_off: int, y_off: int, r: int, c: int)
    requires
        0 <= r,
        0 <= c,
    ensures
        0 <= window_distance(t1, t2, x_off, y_off, r, c) <= r + c,
{
    lemma_forest_distance_bounds(
        t1.postl_to_label_id@,
        t1.postl_to_size@,
        t2.postl_to_label_id@,
        t2.postl_to_size@,
        x_off + 1,
        x_off + 1 + r,
        y_off + 1,
        y_off + 1 + c,
    );
}

/// One step of the forest recurrence inside the subtrees of `x` and `y`:
/// cell `(i, j)` is the best of deleting, inserting, and mapping the last
/// trees (their roots directly when both last trees span the whole rows,
/// else the stored subtree distance plus the forests left of them).
proof fn lemma_window_step(t1: TopDiffIndex, t2: TopDiffIndex, x: int, y: int, i: int, j: int)
    requires
        t1.wf(),
        t2.wf(),
        0 <= x < t1.tree_size,
        0 <= y < t2.tree_size,
        1 <= i <= t1.postl_to_size@[x],
        1 <= j <= t2.postl_to_size@[y],
    ensures
        ({
            let x_off = x - t1.postl_to_size@[x];
            let y_off = y - t2.postl_to_size@[y];
            let i_node = i + x_off;
            let j_node = j + y_off;
            let i_forest = i - t1.postl_to_size@[i_node];
            let j_forest = j - t2.postl_to_size@[j_node];
            let ren = if t1.postl_to_label_id@[i_node] == t2.postl_to_label_id@[j_node] {
                0int
            } else {
                1int
            };
            let w = |r: int, c: int| window_distance(t1, t2, x_off, y_off, r, c);
            &&& 0 <= i_forest < i
            &&& 0 <= j_forest < j
            &&& w(i, j) == crate::edit_distance::min_int(
                crate::edit_distance::min_int(w(i - 1, j) + 1, w(i, j - 1) + 1),
                if i_forest == 0 && j_forest == 0 {
                    w(i - 1, j - 1) + ren
                } else {
                    w(i_forest, j_forest) + subtree_distance(t1, t2, i_node, j_node)
                },
            )
        }),
{
    let x_off = x - t1.postl_to_size@[x];
    let y_off = y - t2.postl_to_size@[y];
    let i_node = i + x_off;
    let j_node = j + y_off;
    assert(t1.postl_to_size@[i_node] <= i_node - x + t1.postl_to_size@[x]);
    assert(t2.postl_to_size@[j_node] <= j_node - y + t2.postl_to_size@[y]);
    assert(1 <= t1.postl_to_size@[i_node]);
    assert(1 <= t2.postl_to_size@[j_node]);
}

/// The band matrices `td` (subtree distances) and `fd` (forest distances) of
/// one bounded distance computation and a counter of the inner DP cells.
pub struct TopDiffState {
    pub td: BandMatrix<Cost>,
    pub fd: BandMatrix<Cost>,
    pub subproblem_counter: u64,
}

impl TopDiffState {
    /// The matrices have the shape that a computation over a first tree of
    /// `t1_size` nodes with threshold `k` needs.
    pub open spec fn shaped_for(&self, t1_size: int, k: int) -> bool {
        &&& self.td.wf()
        &&& self.fd.wf()
        &&& self.td.n_rows() == t1_size
        &&& self.td.width() == k
        &&& self.fd.n_rows() == t1_size + 1
        &&& self.fd.width() == k + 1
    }

    /// Fresh matrices for a first tree of `t1_size` nodes and threshold `k`,
    /// every cell infinite.
    pub fn new(t1_size: i32, k: i32) -> (r: Self)
        requires
            0 <= t1_size < i32::MAX,
            0 <= k < i32::MAX,
            (t1_size + 1) * (2 * k + 3) <= usize::MAX,
        ensures
            r.shaped_for(t1_size as int, k as int),
            r.subproblem_counter == 0,
            forall|row: int, col: int| r.td.in_band(row, col) ==> #[trigger] r.td.cell(row, col)
                == INFINITE_COST,
            forall|row: int, col: int| r.fd.in_band(row, col) ==> #[trigger] r.fd.cell(row, col)
                == INFINITE_COST,
    {
        proof {
            assert(t1_size * (2 * k + 1) <= (t1_size + 1) * (2 * k + 3)) by (nonlinear_arith)
                requires
                    0 <= t1_size,
                    0 <= k,
            ;
            assert((t1_size + 1) * (2 * k + 3) >= 2 * k + 3) by (nonlinear_arith)
                requires
                    0 <= t1_size,
                    0 <= k,
            ;
        }
        let td = BandMatrix::new(t1_size as usize, k as usize, INFINITE_COST);
        let fd = BandMatrix::new((t1_size + 1) as usize, (k + 1) as usize, INFINITE_COST);
        TopDiffState { td, fd, subproblem_counter: 0 }
    }

    /// Every subtree distance stored in `td` for a pair of nodes of `t1` and
    /// `t2` is at least the tree edit distance of the two subtrees.
    pub open spec fn td_at_least(&self, t1: TopDiffIndex, t2: TopDiffIndex) -> bool {
        forall|r: int, c: int|
            self.td.in_band(r, c) && c < t2.tree_size ==> #[trigger] self.td.cell(r, c)
                >= subtree_distance(t1, t2, r, c)
    }

    /// Tree edit distance between the subtrees rooted at postorder ids `x`
    /// (in `t1`) and `y` (in `t2`) with remaining error budget `e`; a distance
    /// above `e` is reported as `INFINITE_COST`. Fills the subtree distances
    /// of the left-path pairs into `td` along the way. The DP covers only the
    /// cells within `e` of the diagonal, so when the subtree sizes differ by
    /// more than `e` the result is that of the last cell reached.
    #[verifier::spinoff_prover]
    #[verifier::rlimit(100)]
    pub fn tree_dist(
        &mut self,
        t1: &TopDiffIndex,
        t2: &TopDiffIndex,
        x: i32,
        y: i32,
        k: i32,
        e: i32,
    ) -> (r: Cost)
        requires
            t1.wf(),
            t2.wf(),
            topdiff_fits(*t1, *t2, k as int),
            0 <= x < t1.tree_size,
            0 <= y < t2.tree_size,
            0 <= e <= k,
            old(self).shaped_for(t1.tree_size as int, k as int),
        ensures
            final(self).shaped_for(t1.tree_size as int, k as int),
            r == INFINITE_COST || r <= e,
            t1.postl_to_size@[x as int] + t2.postl_to_size@[y as int] <= e ==> r
                <= t1.postl_to_size@[x as int] + t2.postl_to_size@[y as int],
            final(self).subproblem_counter as int == (old(self).subproblem_counter + band_cells(
                t1.postl_to_size@[x as int] as int,
                t2.postl_to_size@[y as int] as int,
                e as int,
            )) % 0x1_0000_0000_0000_0000,
            old(self).td_at_least(*t1, *t2) ==> final(self).td_at_least(*t1, *t2),
            old(self).td_at_least(*t1, *t2) && r != INFINITE_COST && abs_int(
                t1.postl_to_size@[x as int] - t2.postl_to_size@[y as int],
            ) <= e ==> r >= subtree_distance(*t1, *t2, x as int, y as int),
    {
        let ghost n1 = t1.tree_size as int;
        let ghost c_start = self.subproblem_counter;
        let ghost sound = self.td_at_least(*t1, *t2);
        let x_size = t1.postl_to_size[x as usize];
        let y_size = t2.postl_to_size[y as usize];
        let x_off = x - x_size;
        let y_off = y - y_size;
        let ghost w = |r: int, c: int| window_distance(*t1, *t2, x_off as int, y_off as int, r, c);
        self.fd.set(0, 0, 0);
        let mut j: i32 = 1;
        let j_end = if y_size < e {
            y_size
        } else {
            e
        };
        while j <= j_end
            invariant
                j_end <= e,
                1 <= j <= e + 1,
                j <= j_end + 1,
                0 <= e <= k,
                topdiff_fits(*t1, *t2, k as int),
                self.shaped_for(n1, k as int),
                0 <= x < n1,
                n1 == t1.tree_size,
                self.subproblem_counter == c_start,
                forall|c: int| 0 <= c < j ==> #[trigger] self.fd.cell(0, c) == c,
                sound ==> self.td_at_least(*t1, *t2),
            decreases e + 1 - j,
        {
            let v = self.fd.read_at(0, (j - 1) as usize).saturating_add(1);
            self.fd.set(0, j as usize, v);
            j = j + 1;
        }
        if e < y_size {
            self.fd.set(0, (e + 1) as usize, INFINITE_COST);
        }
        assert(forall|c: int| 0 <= c <= e && c <= y_size ==> #[trigger] self.fd.cell(0, c) == c);
        let ghost row_top = j;
        let mut i: i32 = 1;
        let i_end = if x_size < e {
            x_size
        } else {
            e
        };
        while i <= i_end
            invariant
                i_end <= e,
                i_end <= x_size,
                1 <= i <= e + 1,
                i <= x_size + 1,
                1 <= x_size <= x + 1,
                0 <= e <= k,
                topdiff_fits(*t1, *t2, k as int),
                self.shaped_for(n1, k as int),
                0 <= x < n1,
                n1 == t1.tree_size,
                self.subproblem_counter == c_start,
                forall|c: int| 0 <= c <= e && c <= y_size ==> #[trigger] self.fd.cell(0, c) == c,
                e < y_size ==> self.fd.cell(0, e + 1) == INFINITE_COST,
                forall|r: int| 0 <= r < i ==> #[trigger] self.fd.cell(r, 0) == r,
                sound ==> self.td_at_least(*t1, *t2),
            decreases e + 1 - i,
        {
            let v = self.fd.read_at((i - 1) as usize, 0).saturating_add(1);
            self.fd.set(i as usize, 0, v);
            i = i + 1;
        }
        if e < x_size {
            self.fd.set((e + 1) as usize, 0, INFINITE_COST);
        }
        assert(forall|r: int| 0 <= r <= e && r <= x_size ==> #[trigger] self.fd.cell(r, 0) == r);
        proof {
            assert forall|c: int| 0 <= c <= y_size && -e - 1 <= c <= e + 1 implies #[trigger] self.fd.cell(
                0,
                c,
            ) >= w(0, c) by {
                lemma_window_bounds(*t1, *t2, x_off as int, y_off as int, 0, c);
            }
        }
        let mut candidate_result: Cost = INFINITE_COST;
        let mut i: i32 = 1;
        while i <= x_size
            invariant
                1 <= i <= x_size + 1,
                1 <= x_size <= x + 1,
                x_size == t1.postl_to_size@[x as int],
                1 <= y_size <= y + 1,
                y_size == t2.postl_to_size@[y as int],
                x_off == x - x_size,
                y_off == y - y_size,
                0 <= e <= k,
                t1.wf(),
                t2.wf(),
                topdiff_fits(*t1, *t2, k as int),
                self.shaped_for(n1, k as int),
                0 <= x < n1,
                0 <= y < t2.tree_size,
                n1 == t1.tree_size,
                w == |r: int, c: int| window_distance(*t1, *t2, x_off as int, y_off as int, r, c),
                forall|r: int, c: int|
                    0 <= r < i && 0 <= c <= y_size && r + c <= e ==> #[trigger] self.fd.cell(r, c)
                        <= r + c,
                forall|r: int| i <= r <= x_size && r <= e ==> #[trigger] self.fd.cell(r, 0) == r,
                i <= e + 1 <= x_size ==> self.fd.cell(e + 1, 0) == INFINITE_COST,
                i == x_size + 1 && x_size + y_size <= e ==> candidate_result <= x_size + y_size,
                self.subproblem_counter as int == (c_start + band_cells(i - 1, y_size as int, e as int))
                    % 0x1_0000_0000_0000_0000,
                sound ==> self.td_at_least(*t1, *t2),
                sound ==> forall|r: int, c: int|
                    0 <= r < i && 0 <= c <= y_size && r - e - 1 <= c <= r + e + 1
                        ==> #[trigger] self.fd.cell(r, c) >= w(r, c),
                sound && i > 1 && i - 1 - e <= y_size ==> candidate_result >= w(
                    i - 1,
                    if i - 1 + e < y_size { i - 1 + e } else { y_size as int },
                ),
            decreases x_size + 1 - i,
        {
            if i - e > 1 {
                self.fd.set(i as usize, (i - e - 1) as usize, INFINITE_COST);
            }
            let i_node = i + x_off;
            assert(i_node > x - t1.postl_to_size@[x as int]);
            let i_forest = i - t1.postl_to_size[i_node as usize];
            let mut j: i32 = if 1 >= i - e {
                1
            } else {
                i - e
            };
            let ghost j0 = j;
            let ghost c_row = self.subproblem_counter;
            let j_end = if i + e < y_size {
                i + e
            } else {
                y_size
            };
            proof {
                if sound {
                    assert forall|c: int| 0 <= c < j && i - e - 1 <= c implies #[trigger] self.fd.cell(
                        i as int,
                        c,
                    ) >= w(i as int, c) by {
                        lemma_window_bounds(*t1, *t2, x_off as int, y_off as int, i as int, c);
                    }
                }
            }
            while j <= j_end
                invariant
                    j_end <= i + e,
                    j_end <= y_size,
                    1 <= i <= x_size,
                    1 <= x_size <= x + 1,
                    x_size == t1.postl_to_size@[x as int],
                    1 <= y_size <= y + 1,
                    y_size == t2.postl_to_size@[y as int],
                    x_off == x - x_size,
                    y_off == y - y_size,
                    i_node == i + x_off,
                    0 <= i_forest <= i - 1,
                    i_forest == i - t1.postl_to_size@[i_node as int],
                    1 <= j,
                    i - e <= j <= i + e + 1,
                    0 <= e <= k,
                    t1.wf(),
                    t2.wf(),
                    topdiff_fits(*t1, *t2, k as int),
                    self.shaped_for(n1, k as int),
                    0 <= x < n1,
                    0 <= y < t2.tree_size,
                    n1 == t1.tree_size,
                    j0 == (if 1 >= i - e { 1 } else { i - e }),
                    j0 <= j,
                    j <= j_end + 1 || j == j0,
                    w == |r: int, c: int| window_distance(*t1, *t2, x_off as int, y_off as int, r, c),
                    forall|r: int, c: int|
                        0 <= r < i && 0 <= c <= y_size && r + c <= e ==> #[trigger] self.fd.cell(r, c)
                            <= r + c,
                    forall|r: int| i <= r <= x_size && r <= e ==> #[trigger] self.fd.cell(r, 0) == r,
                    i <= e + 1 <= x_size ==> self.fd.cell(e + 1, 0) == INFINITE_COST,
                    forall|c: int| 1 <= c < j && i + c <= e ==> #[trigger] self.fd.cell(i as int, c) <= i + c,
                    j > j0 && i + (j - 1) <= e ==> candidate_result <= i + j - 1,
                    self.subproblem_counter as int == (c_start + band_cells(i - 1, y_size as int, e as int)
                        + (j - j0)) % 0x1_0000_0000_0000_0000,
                    sound ==> self.td_at_least(*t1, *t2),
                    sound ==> forall|r: int, c: int|
                        0 <= r < i && 0 <= c <= y_size && r - e - 1 <= c <= r + e + 1
                            ==> #[trigger] self.fd.cell(r, c) >= w(r, c),
                    sound ==> forall|c: int|
                        0 <= c < j && i - e - 1 <= c ==> #[trigger] self.fd.cell(i as int, c) >= w(
                            i as int,
                            c,
                        ),
                    sound && j > j0 ==> candidate_result >= w(i as int, j - 1),
                decreases i + e + 1 - j,
            {
                proof {
                    lemma_band_cells_nonneg(i - 1, y_size as int, e as int);
                    lemma_wrap_step(
                        self.subproblem_counter,
                        c_start + band_cells(i - 1, y_size as int, e as int) + (j - j0),
                    );
                }
                self.subproblem_counter = self.subproblem_counter.wrapping_add(1);
                let j_node = j + y_off;
                assert(j_node > y - t2.postl_to_size@[y as int]);
                let j_forest = j - t2.postl_to_size[j_node as usize];
                proof {
                    lemma_window_step(*t1, *t2, x as int, y as int, i as int, j as int);
                    lemma_window_bounds(*t1, *t2, x_off as int, y_off as int, i - 1, j as int);
                    lemma_window_bounds(*t1, *t2, x_off as int, y_off as int, i as int, j - 1);
                    lemma_window_bounds(*t1, *t2, x_off as int, y_off as int, i - 1, j - 1);
                    lemma_window_bounds(*t1, *t2, x_off as int, y_off as int, i as int, j as int);
                }
                candidate_result = INFINITE_COST;
                proof {
                    if i + j <= e {
                        assert(self.fd.cell(i - 1, j as int) <= i - 1 + j);
                    }
                }
                let up = self.fd.read_at((i - 1) as usize, j as usize);
                candidate_result = cost_min(candidate_result, up.saturating_add(1));
                assert(i + j <= e ==> candidate_result <= i + j);
                let left = self.fd.read_at(i as usize, (j - 1) as usize);
                candidate_result = cost_min(candidate_result, left.saturating_add(1));
                proof {
                    if sound {
                        assert(up >= w(i - 1, j as int));
                        assert(left >= w(i as int, j - 1));
                    }
                }
                let ghost before_pair = candidate_result;
                if i_forest != 0 || j_forest != 0 {
                    let mut td_read: Cost = INFINITE_COST;
                    let diff = i_node - j_node;
                    if -k <= diff && diff <= k {
                        td_read = self.td.read_at(i_node as usize, j_node as usize);
                    }
                    let mut fd_read: Cost = INFINITE_COST;
                    let lo = if 0 >= i_forest - e - 1 {
                        0
                    } else {
                        i_forest - e - 1
                    };
                    let hi = if i_forest + e + 1 <= y_size {
                        i_forest + e + 1
                    } else {
                        y_size
                    };
                    if lo <= j_forest && j_forest <= hi {
                        fd_read = self.fd.read_at(i_forest as usize, j_forest as usize);
                    }
                    proof {
                        if sound {
                            let sd = subtree_distance(*t1, *t2, i_node as int, j_node as int);
                            lemma_window_bounds(
                                *t1,
                                *t2,
                                x_off as int,
                                y_off as int,
                                i_forest as int,
                                j_forest as int,
                            );
                            lemma_forest_distance_bounds(
                                t1.postl_to_label_id@,
                                t1.postl_to_size@,
                                t2.postl_to_label_id@,
                                t2.postl_to_size@,
                                i_node + 1 - t1.postl_to_size@[i_node as int],
                                i_node + 1,
                                j_node + 1 - t2.postl_to_size@[j_node as int],
                                j_node + 1,
                            );
                            assert(td_read >= sd);
                            assert(fd_read >= w(i_forest as int, j_forest as int));
                        }
                    }
                    candidate_result = cost_min(candidate_result, fd_read.saturating_add(td_read));
                } else {
                    let diag = self.fd.read_at((i - 1) as usize, (j - 1) as usize);
                    let fd_read = diag.saturating_add(
                        cost_ren(
                            t1.postl_to_label_id[i_node as usize],
                            t2.postl_to_label_id[j_node as usize],
                        ),
                    );
                    proof {
                        if sound {
                            assert(diag >= w(i - 1, j - 1));
                        }
                    }
                    candidate_result = cost_min(candidate_result, fd_read);
                    proof {
                        if sound {
                            assert(candidate_result >= w(i as int, j as int));
                            assert(w(i as int, j as int) == subtree_distance(
                                *t1,
                                *t2,
                                i_node as int,
                                j_node as int,
                            ));
                        }
                    }
                    let diff = i_node - j_node;
                    if candidate_result <= e as u64 && -k <= diff && diff <= k {
                        self.td.set(i_node as usize, j_node as usize, candidate_result);
                    }
                }
                assert(i + j <= e ==> candidate_result <= i + j);
                assert(sound ==> candidate_result >= w(i as int, j as int));
                if candidate_result > e as u64 {
                    self.fd.set(i as usize, j as usize, INFINITE_COST);
                } else {
                    self.fd.set(i as usize, j as usize, candidate_result);
                }
                j = j + 1;
            }
            proof {
                assert(j - j0 == row_cells(i as int, y_size as int, e as int));
                assert(band_cells(i as int, y_size as int, e as int) == band_cells(i - 1, y_size as int, e as int)
                    + row_cells(i as int, y_size as int, e as int));
            }
            if i + e < y_size {
                self.fd.set(i as usize, (i + e + 1) as usize, INFINITE_COST);
            }
            proof {
                assert forall|r: int, c: int|
                    0 <= r < i + 1 && 0 <= c <= y_size && r + c <= e implies #[trigger] self.fd.cell(r, c)
                    <= r + c by {
                    if r == i && c == 0 {
                        assert(self.fd.cell(i as int, 0) <= i);
                    }
                }
                if sound {
                    assert forall|r: int, c: int|
                        0 <= r < i + 1 && 0 <= c <= y_size && r - e - 1 <= c <= r + e + 1
                        implies #[trigger] self.fd.cell(r, c) >= w(r, c) by {
                        if r == i {
                            lemma_window_bounds(*t1, *t2, x_off as int, y_off as int, r, c);
                        }
                    }
                }
            }
            i = i + 1;
        }
        proof {
            if sound && abs_int(x_size - y_size) <= e {
                assert(w(x_size as int, y_size as int) == subtree_distance(
                    *t1,
                    *t2,
                    x as int,
                    y as int,
                ));
            }
        }
        if candidate_result > e as u64 {
            return INFINITE_COST;
        }
        candidate_result
    }
}

/// The map key of a keyroot pair: `a` in the high and `b` in the low half.
pub open spec fn pair_key(a: int, b: int) -> u64 {
    (a * 0x1_0000_0000 + b) as u64
}

/// Packs a keyroot pair into one map key.
pub(crate) fn pack_pair(a: i32, b: i32) -> (r: u64)
    requires
        0 <= a,
        0 <= b,
    ensures
        r == pair_key(a as int, b as int),
{
    let r = ((a as u64) << 32u64) | (b as u64);
    assert(((a as u64) << 32u64) | (b as u64) == (a as u64) * 0x1_0000_0000u64 + (b as u64))
        by (bit_vector)
        requires
            0 <= a,
            0 <= b,
    ;
    r
}

/// The keyroot-pair key of the node pair `(x, y)`.
pub open spec fn kr_key(t1: TopDiffIndex, t2: TopDiffIndex, x: int, y: int) -> u64 {
    pair_key(t1.postl_to_kr_ancestor@[x] as int, t2.postl_to_kr_ancestor@[y] as int)
}

/// Row `x` scanned from column `hi` down to column `y`, starting from `st`:
/// each k-relevant pair is recorded under its keyroot-pair key.
pub open spec fn kr_scan_row(
    t1: TopDiffIndex,
    t2: TopDiffIndex,
    k: int,
    st: RepState,
    x: int,
    y: int,
    hi: int,
) -> RepState
    decreases hi + 1 - y,
{
    if y > hi {
        st
    } else {
        let before = kr_scan_row(t1, t2, k, st, x, y + 1, hi);
        if relevance_lower_bound(t1, t2, x, y) <= k {
            rep_step(before, kr_key(t1, t2, x, y), x, y)
        } else {
            before
        }
    }
}

/// The rows from the last one down to row `x` scanned in turn, each over
/// the `|x - y| <= k` strip from its high column down.
pub open spec fn kr_scan_rows(t1: TopDiffIndex, t2: TopDiffIndex, k: int, x: int) -> RepState
    decreases t1.tree_size - x,
{
    if x >= t1.tree_size {
        RepState { reps: Seq::empty(), index: Map::empty() }
    } else {
        kr_scan_row(
            t1,
            t2,
            k,
            kr_scan_rows(t1, t2, k, x + 1),
            x,
            band_lo(k)(x),
            band_hi(t2.tree_size as int, k)(x),
        )
    }
}

/// Every representative of `st` has a first node above row `x`, and every
/// position in its index names a representative.
pub open spec fn reps_above(st: RepState, x: int) -> bool {
    &&& forall|p: int| 0 <= p < st.reps.len() ==> x <= (#[trigger] st.reps[p]).0
    &&& forall|key: u64| #[trigger] st.index.contains_key(key) ==> st.index[key] < st.reps.len()
}

/// Scanning a row keeps every representative at or above that row.
proof fn lemma_scan_row_above(t1: TopDiffIndex, t2: TopDiffIndex, k: int, st: RepState, x: int, y: int, hi: int)
    requires
        reps_above(st, x),
    ensures
        reps_above(kr_scan_row(t1, t2, k, st, x, y, hi), x),
    decreases hi + 1 - y,
{
    if y <= hi {
        lemma_scan_row_above(t1, t2, k, st, x, y + 1, hi);
        let before = kr_scan_row(t1, t2, k, st, x, y + 1, hi);
        let after = kr_scan_row(t1, t2, k, st, x, y, hi);
        assert forall|key: u64| #[trigger] after.index.contains_key(key) implies after.index[key] < after.reps.len() by {
            if relevance_lower_bound(t1, t2, x, y) <= k {
                let key2 = kr_key(t1, t2, x, y);
                if !before.index.contains_key(key2) && key != key2 {
                    assert(before.index.contains_key(key));
                }
            }
        }
        assert forall|p: int| 0 <= p < after.reps.len() implies x <= (#[trigger] after.reps[p]).0 by {
            if relevance_lower_bound(t1, t2, x, y) <= k {
                let key = kr_key(t1, t2, x, y);
                if before.index.contains_key(key) {
                    let q = before.index[key] as int;
                    assert(x <= before.reps[p].0);
                    if p == q {
                        assert(after.reps[p].0 >= before.reps[p].0);
                    } else {
                        assert(after.reps[p] == before.reps[p]);
                    }
                } else if p < before.reps.len() {
                    assert(after.reps[p] == before.reps[p]);
                    assert(x <= before.reps[p].0);
                }
            } else {
                assert(x <= before.reps[p].0);
            }
        }
    }
}

/// The representative pairs `(x, y)` of the keyroot pairs whose forest
/// distances the TopDiff scheme computes: for every k-relevant node pair in
/// the `|x - y| <= k` strip, scanned in decreasing `x` and `y`, its keyroot
/// ancestor pair is recorded once, keeping the first `x` seen and the largest
/// `y`.
fn collect_keyroot_pairs(t1: &TopDiffIndex, t2: &TopDiffIndex, k: i32) -> (r: Vec<(i32, i32)>)
    requires
        t1.wf(),
        t2.wf(),
        topdiff_fits(*t1, *t2, k as int),
    ensures
        pairs_view(r@) == kr_scan_rows(*t1, *t2, k as int, 0).reps,
        forall|p: int|
            0 <= p < r@.len() ==> {
                let (x, y) = #[trigger] r@[p];
                &&& 0 <= x < t1.tree_size
                &&& 0 <= y < t2.tree_size
                &&& -k <= x - y <= k
            },
{
    let ghost n1 = t1.tree_size as int;
    let ghost n2 = t2.tree_size as int;
    let ghost lo = band_lo(k as int);
    let ghost hi = band_hi(n2, k as int);
    let t1_size = t1.tree_size;
    let t2_size = t2.tree_size;
    let mut kr_pair_to_index = PairIndexMap::new();
    let mut kr_vector: Vec<(i32, i32)> = Vec::new();
    let mut x: i32 = t1_size - 1;
    proof {
        assert(pairs_view(kr_vector@) =~= Seq::<(int, int)>::empty());
    }
    while x >= 0
        invariant
            -1 <= x < t1_size,
            t1_size == t1.tree_size,
            t2_size == t2.tree_size,
            n1 == t1_size,
            n2 == t2_size,
            lo == band_lo(k as int),
            hi == band_hi(n2, k as int),
            t1.wf(),
            t2.wf(),
            topdiff_fits(*t1, *t2, k as int),
            reps_hold(kr_scan_rows(*t1, *t2, k as int, x + 1), kr_pair_to_index, kr_vector@, n1, n2, k as int),
            reps_above(kr_scan_rows(*t1, *t2, k as int, x + 1), x + 1),
        decreases x + 1,
    {
        let x_keyroot = t1.postl_to_kr_ancestor[x as usize];
        let mut y: i32 = if x + k <= t2_size - 1 {
            x + k
        } else {
            t2_size - 1
        };
        let y_low = if 0 >= x - k {
            0
        } else {
            x - k
        };
        let ghost row_start = kr_scan_rows(*t1, *t2, k as int, x + 1);
        proof {
            assert(y == hi(x as int));
            assert(y_low == lo(x as int));
            assert(reps_above(row_start, x as int));
        }
        while y >= y_low
            invariant
                0 <= x < t1_size,
                x_keyroot == t1.postl_to_kr_ancestor@[x as int],
                0 <= y_low,
                x - k <= y_low,
                y_low == lo(x as int),
                -1 <= y < t2_size,
                y <= x + k,
                y <= hi(x as int),
                y >= y_low - 1 || y == hi(x as int),
                hi == band_hi(n2, k as int),
                t1_size == t1.tree_size,
                t2_size == t2.tree_size,
                n1 == t1_size,
                n2 == t2_size,
                t1.wf(),
                t2.wf(),
                topdiff_fits(*t1, *t2, k as int),
                reps_above(row_start, x as int),
                reps_hold(
                    kr_scan_row(*t1, *t2, k as int, row_start, x as int, y + 1, hi(x as int)),
                    kr_pair_to_index,
                    kr_vector@,
                    n1,
                    n2,
                    k as int,
                ),
            decreases y + 1,
        {
            let ghost st = kr_scan_row(*t1, *t2, k as int, row_start, x as int, y + 1, hi(x as int));
            proof {
                lemma_scan_row_above(*t1, *t2, k as int, row_start, x as int, y + 1, hi(x as int));
            }
            if k_relevant(t1, t2, x, y, k) {
                let key = pack_pair(x_keyroot, t2.postl_to_kr_ancestor[y as usize]);
                assert(-k <= x - y <= k);
                match kr_pair_to_index.get(key) {
                    None => {
                        kr_pair_to_index.insert(key, kr_vector.len());
                        kr_vector.push((x, y));
                        proof {
                            assert(pairs_view(kr_vector@) =~= st.reps.push((x as int, y as int)));
                        }
                    },
                    Some(idx) => {
                        let (px, py) = kr_vector[idx];
                        proof {
                            assert(st.reps[idx as int] == (px as int, py as int));
                            assert(x <= st.reps[idx as int].0);
                        }
                        if y > py {
                            kr_vector.set(idx, (px, y));
                            proof {
                                assert(pairs_view(kr_vector@) =~= st.reps.update(idx as int, (px as int, y as int)));
                            }
                        } else {
                            proof {
                                assert(st.reps.update(idx as int, (px as int, py as int)) =~= st.reps);
                            }
                        }
                    },
                }
            }
            y = y - 1;
        }
        proof {
            lemma_scan_row_above(*t1, *t2, k as int, row_start, x as int, y_low as int, hi(x as int));
            assert(kr_scan_rows(*t1, *t2, k as int, x as int) == kr_scan_row(*t1, *t2, k as int, row_start, x as int, y_low as int, hi(x as int)));
        }
        x = x - 1;
    }
    proof {
        let st = kr_scan_rows(*t1, *t2, k as int, 0);
        assert forall|p: int| 0 <= p < kr_vector@.len() implies {
            let (x, y) = #[trigger] kr_vector@[p];
            &&& 0 <= x < t1.tree_size
            &&& 0 <= y < t2.tree_size
            &&& -k <= x - y <= k
        } by {
            assert(pairs_view(kr_vector@)[p] == st.reps[p]);
        }
    }
    kr_vector
}

/// Every representative `(x, y)` in `reps` has subtree sizes that differ by
/// at most its error budget (the largest `e_budget` over the left paths
/// from `x` and `y`), so that the banded DP of `tree_dist` reaches its
/// last cell.
pub open spec fn reps_within_budget(t1: TopDiffIndex, t2: TopDiffIndex, k: int, reps: Seq<(int, int)>) -> bool {
    forall|p: int|
        0 <= p < reps.len() ==> abs_int(
            t1.postl_to_size@[(#[trigger] reps[p]).0] - t2.postl_to_size@[reps[p].1],
        ) <= left_path_budget(t1, t2, reps[p].0, reps[p].1, k)
}

/// The subtree distance of two nodes never exceeds their subtree sizes
/// together.
pub(crate) proof fn lemma_subtree_distance_bounds(t1: TopDiffIndex, t2: TopDiffIndex, x: int, y: int)
    requires
        t1.wf(),
        t2.wf(),
        0 <= x < t1.tree_size,
        0 <= y < t2.tree_size,
    ensures
        0 <= subtree_distance(t1, t2, x, y) <= t1.postl_to_size@[x] + t2.postl_to_size@[y],
{
    lemma_forest_distance_bounds(
        t1.postl_to_label_id@,
        t1.postl_to_size@,
        t2.postl_to_label_id@,
        t2.postl_to_size@,
        x + 1 - t1.postl_to_size@[x],
        x + 1,
        y + 1 - t2.postl_to_size@[y],
        y + 1,
    );
}

/// Every position of the index names a representative filed under its own
/// keyroot-pair key, and every representative lies in both trees with
/// subtree sizes that differ by at most its error budget.
pub open spec fn reps_fit(t1: TopDiffIndex, t2: TopDiffIndex, k: int, st: RepState) -> bool {
    &&& forall|key: u64|
        #[trigger] st.index.contains_key(key) ==> (st.index[key] as int) < st.reps.len() && kr_key(
            t1,
            t2,
            st.reps[st.index[key] as int].0,
            st.reps[st.index[key] as int].1,
        ) == key
    &&& forall|p: int|
        0 <= p < st.reps.len() ==> {
            let (x, y) = #[trigger] st.reps[p];
            &&& 0 <= x < t1.tree_size
            &&& 0 <= y < t2.tree_size
            &&& abs_int(t1.postl_to_size@[x] - t2.postl_to_size@[y]) <= left_path_budget(
                t1,
                t2,
                x,
                y,
                k,
            )
        }
}

/// Equal keys name equal keyroot pairs.
proof fn lemma_pair_key_injective(a1: int, b1: int, a2: int, b2: int)
    requires
        0 <= a1 < 0x1000_0000,
        0 <= b1 < 0x1000_0000,
        0 <= a2 < 0x1000_0000,
        0 <= b2 < 0x1000_0000,
        pair_key(a1, b1) == pair_key(a2, b2),
    ensures
        a1 == a2,
        b1 == b2,
{
    assert(0 <= a1 * 0x1_0000_0000 + b1 < 0x1_0000_0000_0000_0000);
    assert(0 <= a2 * 0x1_0000_0000 + b2 < 0x1_0000_0000_0000_0000);
    assert((a1 * 0x1_0000_0000 + b1) as u64 == a1 * 0x1_0000_0000 + b1);
    assert((a2 * 0x1_0000_0000 + b2) as u64 == a2 * 0x1_0000_0000 + b2);
}

/// A relevant pair fits its own error budget.
proof fn lemma_relevant_fits(t1: TopDiffIndex, t2: TopDiffIndex, x: int, y: int, k: int)
    requires
        t1.wf(),
        t2.wf(),
        0 <= x < t1.tree_size,
        0 <= y < t2.tree_size,
        relevance_lower_bound(t1, t2, x, y) <= k,
    ensures
        abs_int(t1.postl_to_size@[x] - t2.postl_to_size@[y]) <= left_path_budget(t1, t2, x, y, k),
{
    assert(left_path_budget_y(t1, t2, x, y, k) >= e_budget_value(t1, t2, x, y, k));
    assert(left_path_budget(t1, t2, x, y, k) >= left_path_budget_y(t1, t2, x, y, k));
}

/// Recording a relevant pair keeps the representatives fitting.
pub(crate) proof fn lemma_rep_step_fit(t1: TopDiffIndex, t2: TopDiffIndex, k: int, st: RepState, x: int, y: int)
    requires
        t1.wf(),
        t2.wf(),
        kr_paths(t1),
        kr_paths(t2),
        topdiff_fits(t1, t2, k),
        reps_fit(t1, t2, k, st),
        0 <= x < t1.tree_size,
        0 <= y < t2.tree_size,
        relevance_lower_bound(t1, t2, x, y) <= k,
        st.reps.len() < usize::MAX,
    ensures
        reps_fit(t1, t2, k, rep_step(st, kr_key(t1, t2, x, y), x, y)),
        rep_step(st, kr_key(t1, t2, x, y), x, y).reps.len() <= st.reps.len() + 1,
{
    let key = kr_key(t1, t2, x, y);
    let after = rep_step(st, key, x, y);
    let g1 = ints(t1.postl_to_lch@);
    let g2 = ints(t2.postl_to_lch@);
    lemma_relevant_fits(t1, t2, x, y, k);
    if st.index.contains_key(key) {
        let p = st.index[key] as int;
        let (rx, ry) = st.reps[p];
        assert(0 <= rx < t1.tree_size && 0 <= ry < t2.tree_size);
        lemma_pair_key_injective(
            t1.postl_to_kr_ancestor@[rx] as int,
            t2.postl_to_kr_ancestor@[ry] as int,
            t1.postl_to_kr_ancestor@[x] as int,
            t2.postl_to_kr_ancestor@[y] as int,
        );
        let k1 = t1.postl_to_kr_ancestor@[x] as int;
        let k2 = t2.postl_to_kr_ancestor@[y] as int;
        assert(on_left_path(g1, k1, x));
        assert(on_left_path(g1, k1, rx));
        assert(on_left_path(g2, k2, y));
        assert(on_left_path(g2, k2, ry));
        let nx = if x > rx { x } else { rx };
        let ny = if y > ry { y } else { ry };
        // Both old and new corners lie on the left paths from the merged one.
        if x > rx {
            lemma_left_path_comparable(g1, k1, rx, x);
        } else {
            lemma_left_path_comparable(g1, k1, x, rx);
        }
        if y > ry {
            lemma_left_path_comparable(g2, k2, ry, y);
        } else {
            lemma_left_path_comparable(g2, k2, y, ry);
        }
        assert(on_left_path(g1, nx, x) && on_left_path(g1, nx, rx));
        assert(on_left_path(g2, ny, y) && on_left_path(g2, ny, ry));
        lemma_left_path_sizes(t1, nx, x);
        lemma_left_path_sizes(t1, nx, rx);
        lemma_left_path_sizes(t2, ny, y);
        lemma_left_path_sizes(t2, ny, ry);
        lemma_budget_up_x(t1, t2, nx, x, y, k);
        lemma_budget_up_y(t1, t2, nx, ny, y, k);
        lemma_budget_up_x(t1, t2, nx, rx, ry, k);
        lemma_budget_up_y(t1, t2, nx, ny, ry, k);
        assert(after.reps[p] == (nx, ny));
        assert(abs_int(t1.postl_to_size@[nx] - t2.postl_to_size@[ny]) <= left_path_budget(
            t1,
            t2,
            nx,
            ny,
            k,
        ));
        assert(kr_key(t1, t2, nx, ny) == key);
        assert forall|key2: u64| #[trigger] after.index.contains_key(key2) implies (after.index[key2] as int)
            < after.reps.len() && kr_key(
            t1,
            t2,
            after.reps[after.index[key2] as int].0,
            after.reps[after.index[key2] as int].1,
        ) == key2 by {
            assert(st.index.contains_key(key2));
            if after.index[key2] as int != p {
                assert(after.reps[after.index[key2] as int] == st.reps[st.index[key2] as int]);
            }
        }
        assert forall|q: int| 0 <= q < after.reps.len() implies {
            let (a, b) = #[trigger] after.reps[q];
            &&& 0 <= a < t1.tree_size
            &&& 0 <= b < t2.tree_size
            &&& abs_int(t1.postl_to_size@[a] - t2.postl_to_size@[b]) <= left_path_budget(t1, t2, a, b, k)
        } by {
            if q != p {
                assert(after.reps[q] == st.reps[q]);
            }
        }
    } else {
        let len = st.reps.len();
        assert((len as usize) as int == len);
        assert forall|key2: u64| #[trigger] after.index.contains_key(key2) implies (after.index[key2] as int)
            < after.reps.len() && kr_key(
            t1,
            t2,
            after.reps[after.index[key2] as int].0,
            after.reps[after.index[key2] as int].1,
        ) == key2 by {
            if key2 != key {
                assert(st.index.contains_key(key2));
                assert(after.reps[after.index[key2] as int] == st.reps[st.index[key2] as int]);
            }
        }
        assert forall|q: int| 0 <= q < after.reps.len() implies {
            let (a, b) = #[trigger] after.reps[q];
            &&& 0 <= a < t1.tree_size
            &&& 0 <= b < t2.tree_size
            &&& abs_int(t1.postl_to_size@[a] - t2.postl_to_size@[b]) <= left_path_budget(t1, t2, a, b, k)
        } by {
            if q < len {
                assert(after.reps[q] == st.reps[q]);
            }
        }
    }
}

/// Scanning part of a row keeps the representatives fitting, adding at most
/// one per scanned column.
proof fn lemma_scan_row_fit(t1: TopDiffIndex, t2: TopDiffIndex, k: int, st: RepState, x: int, y: int, hi: int)
    requires
        t1.wf(),
        t2.wf(),
        kr_paths(t1),
        kr_paths(t2),
        topdiff_fits(t1, t2, k),
        reps_fit(t1, t2, k, st),
        0 <= x < t1.tree_size,
        0 <= y,
        hi < t2.tree_size,
        st.reps.len() + (hi + 1 - y) <= usize::MAX,
    ensures
        reps_fit(t1, t2, k, kr_scan_row(t1, t2, k, st, x, y, hi)),
        kr_scan_row(t1, t2, k, st, x, y, hi).reps.len() <= st.reps.len() + (if y <= hi {
            hi + 1 - y
        } else {
            0
        }),
    decreases hi + 1 - y,
{
    if y <= hi {
        lemma_scan_row_fit(t1, t2, k, st, x, y + 1, hi);
        let before = kr_scan_row(t1, t2, k, st, x, y + 1, hi);
        if relevance_lower_bound(t1, t2, x, y) <= k {
            lemma_rep_step_fit(t1, t2, k, before, x, y);
        }
    }
}

/// Scanning the rows from `x` on keeps the representatives fitting, at most
/// one per scanned cell.
proof fn lemma_scan_rows_fit(t1: TopDiffIndex, t2: TopDiffIndex, k: int, x: int)
    requires
        t1.wf(),
        t2.wf(),
        kr_paths(t1),
        kr_paths(t2),
        topdiff_fits(t1, t2, k),
        (t1.tree_size + 1) * (2 * k + 3) <= usize::MAX,
        0 <= x <= t1.tree_size,
    ensures
        reps_fit(t1, t2, k, kr_scan_rows(t1, t2, k, x)),
        kr_scan_rows(t1, t2, k, x).reps.len() <= (t1.tree_size - x) * (2 * k + 1),
    decreases t1.tree_size - x,
{
    let n1 = t1.tree_size as int;
    if x >= n1 {
        let st = kr_scan_rows(t1, t2, k, x);
        assert(st.reps.len() == 0);
        assert(st.index == Map::<u64, usize>::empty());
    } else {
        lemma_scan_rows_fit(t1, t2, k, x + 1);
        let st = kr_scan_rows(t1, t2, k, x + 1);
        let lo = band_lo(k)(x);
        let hi = band_hi(t2.tree_size as int, k)(x);
        assert((n1 - (x + 1)) * (2 * k + 1) + (2 * k + 1) == (n1 - x) * (2 * k + 1)) by (nonlinear_arith);
        assert((n1 - x) * (2 * k + 1) <= (n1 + 1) * (2 * k + 3)) by (nonlinear_arith)
            requires
                0 <= x < n1,
                0 <= k,
        ;
        lemma_scan_row_fit(t1, t2, k, st, x, lo, hi);
    }
}

/// For indexes with keyroot paths, every keyroot representative that the
/// bounded tree edit distance processes fits its error budget.
pub proof fn lemma_reps_within_budget(t1: TopDiffIndex, t2: TopDiffIndex, k: int)
    requires
        t1.wf(),
        t2.wf(),
        kr_paths(t1),
        kr_paths(t2),
        topdiff_fits(t1, t2, k),
        (t1.tree_size + 1) * (2 * k + 3) <= usize::MAX,
    ensures
        reps_within_budget(t1, t2, k, kr_scan_rows(t1, t2, k, 0).reps),
{
    lemma_scan_rows_fit(t1, t2, k, 0);
    let reps = kr_scan_rows(t1, t2, k, 0).reps;
    assert forall|p: int| 0 <= p < reps.len() implies abs_int(
        t1.postl_to_size@[(#[trigger] reps[p]).0] - t2.postl_to_size@[reps[p].1],
    ) <= left_path_budget(t1, t2, reps[p].0, reps[p].1, k) by {
        let (a, b) = reps[p];
    }
}

/// Bounded tree edit distance via the Touzet KR-set algorithm: the distance
/// when it is at most `k`, otherwise `k + 1`. For indexes with keyroot
/// paths (the index of every tree has them, `lemma_index_kr_paths`) the
/// result never falls below the tree edit distance capped at `k + 1`, and
/// is `k + 1` exactly when that distance exceeds `k`.
pub fn ted_k(t1: &TopDiffIndex, t2: &TopDiffIndex, k: i32) -> (r: i32)
    requires
        t1.wf(),
        t2.wf(),
        topdiff_fits(*t1, *t2, k as int),
        (t1.tree_size + 1) * (2 * k + 3) <= usize::MAX,
        abs_int(t1.tree_size - t2.tree_size) > k || (t1.tree_size >= 1 && t2.tree_size >= 1),
    ensures
        abs_int(t1.tree_size - t2.tree_size) > k ==> r == k + 1,
        0 <= r <= k + 1,
        kr_paths(*t1) && kr_paths(*t2) && crate::ted::tree_edit_distance(*t1, *t2) <= k
            ==> crate::ted::tree_edit_distance(*t1, *t2) <= r,
        kr_paths(*t1) && kr_paths(*t2) && crate::ted::tree_edit_distance(*t1, *t2) > k ==> r == k
            + 1,
{
    let ghost fits = reps_within_budget(*t1, *t2, k as int, kr_scan_rows(*t1, *t2, k as int, 0).reps);
    proof {
        if kr_paths(*t1) && kr_paths(*t2) {
            lemma_reps_within_budget(*t1, *t2, k as int);
        }
    }
    let t1_size = t1.tree_size;
    let t2_size = t2.tree_size;
    let mut state = TopDiffState::new(t1_size, k);
    let size_diff = t1_size - t2_size;
    if size_diff > k || -size_diff > k {
        return k + 1;
    }
    proof {
        assert forall|r: int, c: int|
            state.td.in_band(r, c) && c < t2.tree_size implies #[trigger] state.td.cell(r, c)
            >= subtree_distance(*t1, *t2, r, c) by {
            lemma_subtree_distance_bounds(*t1, *t2, r, c);
        }
    }
    let kr_vector = collect_keyroot_pairs(t1, t2, k);
    let mut p: usize = kr_vector.len();
    while p > 0
        invariant
            p <= kr_vector@.len(),
            pairs_view(kr_vector@) == kr_scan_rows(*t1, *t2, k as int, 0).reps,
            fits == reps_within_budget(*t1, *t2, k as int, kr_scan_rows(*t1, *t2, k as int, 0).reps),
            fits ==> state.td_at_least(*t1, *t2),
            t1.wf(),
            t2.wf(),
            topdiff_fits(*t1, *t2, k as int),
            state.shaped_for(t1_size as int, k as int),
            t1_size == t1.tree_size,
            forall|q: int|
                0 <= q < kr_vector@.len() ==> {
                    let (px, py) = #[trigger] kr_vector@[q];
                    &&& 0 <= px < t1.tree_size
                    &&& 0 <= py < t2.tree_size
                    &&& -k <= px - py <= k
                },
        decreases p,
    {
        p = p - 1;
        let (x_l, y_l) = kr_vector[p];
        let e_max = e_max_over_left_paths(t1, t2, x_l, y_l, k);
        proof {
            assert(pairs_view(kr_vector@)[p as int] == (x_l as int, y_l as int));
        }
        let d = state.tree_dist(t1, t2, x_l, y_l, k, e_max);
        proof {
            if fits {
                lemma_subtree_distance_bounds(*t1, *t2, x_l as int, y_l as int);
            }
        }
        let ghost before = state.td;
        state.td.set(x_l as usize, y_l as usize, d);
        proof {
            if fits {
                assert(d >= subtree_distance(*t1, *t2, x_l as int, y_l as int));
                assert forall|r: int, c: int|
                    state.td.in_band(r, c) && c < t2.tree_size implies #[trigger] state.td.cell(r, c)
                    >= subtree_distance(*t1, *t2, r, c) by {
                    if r != x_l || c != y_l {
                        assert(before.cell(r, c) >= subtree_distance(*t1, *t2, r, c));
                    }
                }
            }
        }
    }
    let result = state.td.read_at((t1_size - 1) as usize, (t2_size - 1) as usize);
    proof {
        if fits {
            assert(result >= subtree_distance(*t1, *t2, t1_size - 1, t2_size - 1));
        }
    }
    if result == INFINITE_COST || result > k as u64 {
        proof {
            crate::ted::lemma_size_gap_below_ted(*t1, *t2);
        }
        return k + 1;
    }
    result as i32
}

} // verus!
