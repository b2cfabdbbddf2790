//! The SED-STRUCT lower bound: bounded string edit distance over traversals
//! whose elements carry structural annotations.

use vstd::prelude::*;

use crate::base::{
    lemma_nonempty_within_prefix, lemma_nonempty_within_suffix, lemma_nonempty_within_trees, nonempty_within, AlgorithmFactory,
    LowerBoundMethod, TraversalKind, TraversalSelection,
};
use crate::edit_distance::{edit_distance, lemma_edit_distance_symmetric, prefix_distance};
use crate::sed::{lemma_reached_slide, lemma_reached_step, reached};
use crate::tree::{
    forest_pre_facts, forest_post_facts, forest_size, lemma_forest_size_prefix, lemma_take_succ,
    pre_facts, post_facts, reversed, size, tree_size, trees_view, LabelId, NodeFacts, ParsedTree,
    SpecTree, TreeNode,
};

verus! {

/// A traversal element with the structural annotations of its node.
#[derive(Debug, Clone, Copy, PartialEq, Eq, Structural, PartialOrd, Ord)]
pub struct TraversalCharacter {
    pub char: LabelId,
    pub sum: i32,
    pub diff: i32,
}

/// Number of nodes that follow the node (after it in both preorder and
/// postorder) in a tree of `n` nodes.
pub open spec fn following(f: NodeFacts, n: int) -> int {
    n - (f.post_id + 1 + f.depth)
}

/// Number of nodes that precede the node (before it in both orders).
pub open spec fn preceding(f: NodeFacts) -> int {
    f.post_id + 1 - f.size
}

/// The preorder element: following plus descendants, descendants minus
/// following.
pub open spec fn pre_char(f: NodeFacts, n: int) -> TraversalCharacter {
    let fol = following(f, n);
    let des = f.size - 1;
    TraversalCharacter { char: f.label, sum: (fol + des) as i32, diff: (des - fol) as i32 }
}

/// The postorder element: following plus ancestors, following minus
/// ancestors.
pub open spec fn post_char(f: NodeFacts, n: int) -> TraversalCharacter {
    let fol = following(f, n);
    let anc = f.depth as int;
    TraversalCharacter { char: f.label, sum: (fol + anc) as i32, diff: (fol - anc) as i32 }
}

/// The reversed-preorder element: preceding plus descendants, preceding
/// minus descendants.
pub open spec fn reversed_pre_char(f: NodeFacts) -> TraversalCharacter {
    let pre = preceding(f);
    let des = f.size - 1;
    TraversalCharacter { char: f.label, sum: (pre + des) as i32, diff: (pre - des) as i32 }
}

/// The reversed-postorder element: preceding plus ancestors, ancestors minus
/// preceding.
pub open spec fn reversed_post_char(f: NodeFacts) -> TraversalCharacter {
    let pre = preceding(f);
    let anc = f.depth as int;
    TraversalCharacter { char: f.label, sum: (pre + anc) as i32, diff: (anc - pre) as i32 }
}

/// Preorder elements of a listing of facts.
pub open spec fn pre_chars(f: Seq<NodeFacts>, n: int) -> Seq<TraversalCharacter> {
    Seq::new(f.len(), |i: int| pre_char(f[i], n))
}

/// Postorder elements of a listing of facts.
pub open spec fn post_chars(f: Seq<NodeFacts>, n: int) -> Seq<TraversalCharacter> {
    Seq::new(f.len(), |i: int| post_char(f[i], n))
}

/// Reversed-preorder elements of a listing of facts (before reversal).
pub open spec fn reversed_pre_chars(f: Seq<NodeFacts>) -> Seq<TraversalCharacter> {
    Seq::new(f.len(), |i: int| reversed_pre_char(f[i]))
}

/// Reversed-postorder elements of a listing of facts (before reversal).
pub open spec fn reversed_post_chars(f: Seq<NodeFacts>) -> Seq<TraversalCharacter> {
    Seq::new(f.len(), |i: int| reversed_post_char(f[i]))
}

/// The annotated sequence of the selected traversal of `t`.
pub open spec fn annotated_traversal(t: TreeNode, kind: TraversalKind) -> Seq<TraversalCharacter> {
    let n = size(t) as int;
    match kind {
        TraversalKind::Preorder => pre_chars(pre_facts(t, 0, 0), n),
        TraversalKind::Postorder => post_chars(post_facts(t, 0, 0), n),
        TraversalKind::ReversedPreorder => reversed_pre_chars(post_facts(t, 0, 0)).reverse(),
        TraversalKind::ReversedPostorder => reversed_post_chars(pre_facts(t, 0, 0)).reverse(),
    }
}

/// A block ending at the node plus the node's ancestors fit in the tree.
pub proof fn lemma_post_id_depth(t: TreeNode, depth: nat, start: nat)
    ensures
        forall|i: int|
            0 <= i < post_facts(t, depth, start).len() ==> (#[trigger] post_facts(
                t,
                depth,
                start,
            )[i]).post_id + post_facts(t, depth, start)[i].depth <= start + size(t) - 1 + depth,
        forall|i: int|
            0 <= i < pre_facts(t, depth, start).len() ==> (#[trigger] pre_facts(
                t,
                depth,
                start,
            )[i]).post_id + pre_facts(t, depth, start)[i].depth <= start + size(t) - 1 + depth,
    decreases t,
{
    lemma_forest_post_id_depth(t.children@, depth + 1, start);
    let fc = forest_post_facts(t.children@, depth + 1, start);
    let gc = forest_pre_facts(t.children@, depth + 1, start);
    let f = post_facts(t, depth, start);
    let g = pre_facts(t, depth, start);
    assert forall|i: int| 0 <= i < f.len() implies (#[trigger] f[i]).post_id + f[i].depth <= start
        + size(t) - 1 + depth by {
        if i < fc.len() {
            assert(f[i] == fc[i]);
        }
    }
    assert forall|i: int| 0 <= i < g.len() implies (#[trigger] g[i]).post_id + g[i].depth <= start
        + size(t) - 1 + depth by {
        if i > 0 {
            assert(g[i] == gc[i - 1]);
        }
    }
}

/// Forest version of `lemma_post_id_depth`.
pub proof fn lemma_forest_post_id_depth(s: Seq<TreeNode>, depth: nat, start: nat)
    ensures
        forall|i: int|
            0 <= i < forest_post_facts(s, depth, start).len() ==> (#[trigger] forest_post_facts(
                s,
                depth,
                start,
            )[i]).post_id + forest_post_facts(s, depth, start)[i].depth <= start + forest_size(s)
                - 1 + depth,
        forall|i: int|
            0 <= i < forest_pre_facts(s, depth, start).len() ==> (#[trigger] forest_pre_facts(
                s,
                depth,
                start,
            )[i]).post_id + forest_pre_facts(s, depth, start)[i].depth <= start + forest_size(s)
                - 1 + depth,
    decreases s,
{
    if s.len() > 0 {
        let d = s.drop_last();
        let ls = start + forest_size(d);
        lemma_forest_post_id_depth(d, depth, start);
        lemma_post_id_depth(s.last(), depth, ls);
        let a = forest_post_facts(d, depth, start);
        let b = post_facts(s.last(), depth, ls);
        let f = forest_post_facts(s, depth, start);
        assert forall|i: int| 0 <= i < f.len() implies (#[trigger] f[i]).post_id + f[i].depth
            <= start + forest_size(s) - 1 + depth by {
            if i < a.len() {
                assert(f[i] == a[i]);
            } else {
                assert(f[i] == b[i - a.len()]);
            }
        }
        let a2 = forest_pre_facts(d, depth, start);
        let b2 = pre_facts(s.last(), depth, ls);
        let g = forest_pre_facts(s, depth, start);
        assert forall|i: int| 0 <= i < g.len() implies (#[trigger] g[i]).post_id + g[i].depth
            <= start + forest_size(s) - 1 + depth by {
            if i < a2.len() {
                assert(g[i] == a2[i]);
            } else {
                assert(g[i] == b2[i - a2.len()]);
            }
        }
    }
}

/// The four annotated traversal buffers filled by one DFS.
pub struct TraversalBuffers {
    pub preorder: Vec<TraversalCharacter>,
    pub postorder: Vec<TraversalCharacter>,
    pub reversed_preorder: Vec<TraversalCharacter>,
    pub reversed_postorder: Vec<TraversalCharacter>,
}

/// Postorder DFS over the subtree at `node` (in a tree of `tree_size`
/// nodes) that appends its annotated elements to the four buffers: preorder
/// and reversed-postorder elements in preorder, postorder and
/// reversed-preorder elements in postorder.
fn traverse_with_info(
    node: &TreeNode,
    tree_size: usize,
    buffers: &mut TraversalBuffers,
    postorder_id: &mut usize,
    depth: &mut usize,
) -> (r: usize)
    requires
        tree_size <= i32::MAX,
        *old(postorder_id) + size(*node) + *old(depth) <= tree_size,
        old(buffers).preorder@.len() == old(buffers).reversed_postorder@.len(),
    ensures
        r == size(*node),
        *final(postorder_id) == *old(postorder_id) + size(*node),
        *final(depth) == *old(depth),
        final(buffers).preorder@ == old(buffers).preorder@ + pre_chars(
            pre_facts(*node, *old(depth) as nat, *old(postorder_id) as nat),
            tree_size as int,
        ),
        final(buffers).reversed_postorder@ == old(buffers).reversed_postorder@
            + reversed_post_chars(pre_facts(*node, *old(depth) as nat, *old(postorder_id) as nat)),
        final(buffers).postorder@ == old(buffers).postorder@ + post_chars(
            post_facts(*node, *old(depth) as nat, *old(postorder_id) as nat),
            tree_size as int,
        ),
        final(buffers).reversed_preorder@ == old(buffers).reversed_preorder@ + reversed_pre_chars(
            post_facts(*node, *old(depth) as nat, *old(postorder_id) as nat),
        ),
    decreases node,
{
    let ghost start = *postorder_id as nat;
    let ghost d = *depth as nat;
    let ghost n = tree_size as int;
    let ghost c = node.children@;
    let mut subtree_size: usize = 1;
    *depth = *depth + 1;
    let label = node.label;
    let pre_idx = buffers.preorder.len();
    buffers.preorder.push(TraversalCharacter { char: label, sum: 0, diff: 0 });
    buffers.reversed_postorder.push(TraversalCharacter { char: label, sum: 0, diff: 0 });
    let ghost pre0 = buffers.preorder@;
    let ghost rpost0 = buffers.reversed_postorder@;
    let ghost post0 = buffers.postorder@;
    let ghost rpre0 = buffers.reversed_preorder@;
    let nc = node.children.len();
    let mut i: usize = 0;
    while i < nc
        invariant
            i <= nc,
            nc == c.len(),
            c == node.children@,
            size(*node) == 1 + forest_size(c),
            start + size(*node) + d <= n,
            n == tree_size,
            tree_size <= i32::MAX,
            *depth == d + 1,
            subtree_size == 1 + forest_size(c.take(i as int)),
            *postorder_id == start + forest_size(c.take(i as int)),
            pre0.len() == rpost0.len(),
            pre_idx == pre0.len() - 1,
            buffers.preorder@ == pre0 + pre_chars(forest_pre_facts(c.take(i as int), d + 1, start), n),
            buffers.reversed_postorder@ == rpost0 + reversed_post_chars(
                forest_pre_facts(c.take(i as int), d + 1, start),
            ),
            buffers.postorder@ == post0 + post_chars(forest_post_facts(c.take(i as int), d + 1, start), n),
            buffers.reversed_preorder@ == rpre0 + reversed_pre_chars(
                forest_post_facts(c.take(i as int), d + 1, start),
            ),
        decreases nc - i,
    {
        let ghost t = c.take(i as int);
        let ghost ch = c[i as int];
        let ghost cs = *postorder_id as nat;
        proof {
            lemma_take_succ(c, i as int);
            lemma_forest_size_prefix(c, i + 1);
        }
        let child_size = traverse_with_info(&node.children[i], tree_size, buffers, postorder_id, depth);
        subtree_size = subtree_size + child_size;
        proof {
            let fp = forest_pre_facts(t, d + 1, start);
            let gp = pre_facts(ch, d + 1, cs);
            let fq = forest_post_facts(t, d + 1, start);
            let gq = post_facts(ch, d + 1, cs);
            assert(forest_pre_facts(c.take(i + 1), d + 1, start) == fp + gp);
            assert(forest_post_facts(c.take(i + 1), d + 1, start) == fq + gq);
            assert(pre_chars(fp + gp, n) =~= pre_chars(fp, n) + pre_chars(gp, n));
            assert(reversed_post_chars(fp + gp) =~= reversed_post_chars(fp) + reversed_post_chars(gp));
            assert(post_chars(fq + gq, n) =~= post_chars(fq, n) + post_chars(gq, n));
            assert(reversed_pre_chars(fq + gq) =~= reversed_pre_chars(fq) + reversed_pre_chars(gq));
            assert(buffers.preorder@ =~= pre0 + pre_chars(fp + gp, n));
            assert(buffers.reversed_postorder@ =~= rpost0 + reversed_post_chars(fp + gp));
            assert(buffers.postorder@ =~= post0 + post_chars(fq + gq, n));
            assert(buffers.reversed_preorder@ =~= rpre0 + reversed_pre_chars(fq + gq));
        }
        i = i + 1;
    }
    proof {
        assert(c.take(nc as int) =~= c);
    }
    *depth = *depth - 1;
    *postorder_id = *postorder_id + 1;
    let preceding_v = (*postorder_id - subtree_size) as i64;
    let following_v = (tree_size - (*postorder_id + *depth)) as i64;
    let descendant = (subtree_size - 1) as i64;
    let ancestor = *depth as i64;
    let ghost pre1 = buffers.preorder@;
    let ghost rpost1 = buffers.reversed_postorder@;
    let ghost post1 = buffers.postorder@;
    let ghost rpre1 = buffers.reversed_preorder@;
    buffers.preorder.set(
        pre_idx,
        TraversalCharacter {
            char: label,
            sum: (following_v + descendant) as i32,
            diff: (descendant - following_v) as i32,
        },
    );
    buffers.reversed_postorder.set(
        pre_idx,
        TraversalCharacter {
            char: label,
            sum: (preceding_v + ancestor) as i32,
            diff: (ancestor - preceding_v) as i32,
        },
    );
    buffers.postorder.push(
        TraversalCharacter {
            char: label,
            sum: (following_v + ancestor) as i32,
            diff: (following_v - ancestor) as i32,
        },
    );
    buffers.reversed_preorder.push(
        TraversalCharacter {
            char: label,
            sum: (preceding_v + descendant) as i32,
            diff: (preceding_v - descendant) as i32,
        },
    );
    proof {
        let pf = pre_facts(*node, d, start);
        let qf = post_facts(*node, d, start);
        let fpc = forest_pre_facts(c, d + 1, start);
        let fqc = forest_post_facts(c, d + 1, start);
        let x = pf[0];
        assert(pf == seq![x] + fpc);
        assert(qf == fqc + seq![x]);
        assert(pre_chars(pf, n) =~= seq![pre_char(x, n)] + pre_chars(fpc, n));
        assert(reversed_post_chars(pf) =~= seq![reversed_post_char(x)] + reversed_post_chars(fpc));
        assert(post_chars(qf, n) =~= post_chars(fqc, n) + seq![post_char(x, n)]);
        assert(reversed_pre_chars(qf) =~= reversed_pre_chars(fqc) + seq![reversed_pre_char(x)]);
        assert(buffers.preorder@ =~= old(buffers).preorder@ + pre_chars(pf, n));
        assert(buffers.reversed_postorder@ =~= old(buffers).reversed_postorder@ + reversed_post_chars(pf));
        assert(buffers.postorder@ =~= old(buffers).postorder@ + post_chars(qf, n));
        assert(buffers.reversed_preorder@ =~= old(buffers).reversed_preorder@ + reversed_pre_chars(qf));
    }
    subtree_size
}

/// Preprocessed tree data for the SED-STRUCT lower bound.
#[derive(Debug, Clone)]
pub struct StringStructEDIndex {
    pub first_traversal: Vec<TraversalCharacter>,
    pub second_traversal: Vec<TraversalCharacter>,
    pub tree_size: usize,
}

impl StringStructEDIndex {
    /// Number of nodes of the tree.
    pub fn get_size(&self) -> (r: usize)
        ensures
            r == self.tree_size,
    {
        self.tree_size
    }

    /// `self` holds the selected annotated traversals and the size of `tree`.
    pub open spec fn is_index_of(&self, tree: ParsedTree, selection: TraversalSelection) -> bool {
        &&& tree.root is Some
        &&& self.first_traversal@ == annotated_traversal(tree.root->Some_0, selection.first)
        &&& self.second_traversal@ == annotated_traversal(tree.root->Some_0, selection.second)
        &&& self.tree_size == tree_size(tree)
    }

    /// Both traversals list every node once and the tree fits in `i32`.
    pub open spec fn is_consistent(&self) -> bool {
        &&& self.first_traversal@.len() == self.tree_size
        &&& self.second_traversal@.len() == self.tree_size
        &&& self.tree_size <= i32::MAX
    }
}

/// Every annotated traversal lists each node once.
pub proof fn lemma_annotated_len(t: TreeNode, kind: TraversalKind)
    ensures
        annotated_traversal(t, kind).len() == size(t),
{
    crate::tree::lemma_pre_facts(t, 0, 0);
    crate::tree::lemma_post_facts_len(t, 0, 0);
}

/// The index of a tree that fits in `i32` is consistent.
pub proof fn lemma_index_consistent(
    idx: StringStructEDIndex,
    tree: ParsedTree,
    selection: TraversalSelection,
)
    requires
        idx.is_index_of(tree, selection),
        tree_size(tree) <= i32::MAX,
    ensures
        idx.is_consistent(),
{
    lemma_annotated_len(tree.root->Some_0, selection.first);
    lemma_annotated_len(tree.root->Some_0, selection.second);
}

/// Copies one annotated sequence.
pub fn copy_chars(v: &Vec<TraversalCharacter>) -> (r: Vec<TraversalCharacter>)
    ensures
        r@ == v@,
{
    let mut r: Vec<TraversalCharacter> = Vec::new();
    let mut i: usize = 0;
    while i < v.len()
        invariant
            i <= v@.len(),
            r@ == v@.take(i as int),
        decreases v@.len() - i,
    {
        r.push(v[i]);
        proof {
            assert(r@ =~= v@.take(i + 1));
        }
        i = i + 1;
    }
    proof {
        assert(v@.take(v@.len() as int) =~= v@);
    }
    r
}

/// The buffer of the selected traversal.
pub fn pick_traversal(kind: TraversalKind, buffers: &TraversalBuffers) -> (r: &Vec<TraversalCharacter>)
    ensures
        r == match kind {
            TraversalKind::Preorder => &buffers.preorder,
            TraversalKind::Postorder => &buffers.postorder,
            TraversalKind::ReversedPreorder => &buffers.reversed_preorder,
            TraversalKind::ReversedPostorder => &buffers.reversed_postorder,
        },
{
    match kind {
        TraversalKind::Preorder => &buffers.preorder,
        TraversalKind::Postorder => &buffers.postorder,
        TraversalKind::ReversedPreorder => &buffers.reversed_preorder,
        TraversalKind::ReversedPostorder => &buffers.reversed_postorder,
    }
}

/// The four annotated traversals of a non-empty tree, from one DFS.
pub fn annotate(root: &TreeNode, tree_size: usize) -> (r: TraversalBuffers)
    requires
        tree_size == size(*root),
        tree_size <= i32::MAX,
    ensures
        r.preorder@ == annotated_traversal(*root, TraversalKind::Preorder),
        r.postorder@ == annotated_traversal(*root, TraversalKind::Postorder),
        r.reversed_preorder@ == annotated_traversal(*root, TraversalKind::ReversedPreorder),
        r.reversed_postorder@ == annotated_traversal(*root, TraversalKind::ReversedPostorder),
{
    let mut buffers = TraversalBuffers {
        preorder: Vec::new(),
        postorder: Vec::new(),
        reversed_preorder: Vec::new(),
        reversed_postorder: Vec::new(),
    };
    let mut postorder_id: usize = 0;
    let mut depth: usize = 0;
    traverse_with_info(root, tree_size, &mut buffers, &mut postorder_id, &mut depth);
    let rev_pre = reversed(&buffers.reversed_preorder);
    let rev_post = reversed(&buffers.reversed_postorder);
    buffers.reversed_preorder = rev_pre;
    buffers.reversed_postorder = rev_post;
    proof {
        let t = *root;
        assert(buffers.preorder@ =~= annotated_traversal(t, TraversalKind::Preorder));
        assert(buffers.postorder@ =~= annotated_traversal(t, TraversalKind::Postorder));
        assert(buffers.reversed_preorder@ =~= annotated_traversal(t, TraversalKind::ReversedPreorder));
        assert(buffers.reversed_postorder@ =~= annotated_traversal(
            t,
            TraversalKind::ReversedPostorder,
        ));
    }
    buffers
}

/// Builds the SED-STRUCT index of a non-empty tree.
pub fn preprocess_tree(tree: &ParsedTree, selection: TraversalSelection) -> (r: StringStructEDIndex)
    requires
        tree.root is Some,
        tree_size(*tree) <= i32::MAX,
    ensures
        r.is_index_of(*tree, selection),
{
    let root: &TreeNode = match &tree.root {
        Some(r) => r,
        None => {
            proof {
                assert(false);
            }
            return StringStructEDIndex {
                first_traversal: Vec::new(),
                second_traversal: Vec::new(),
                tree_size: 0,
            };
        },
    };
    let tree_size = tree.count();
    let buffers = annotate(root, tree_size);
    let first_traversal = copy_chars(pick_traversal(selection.first, &buffers));
    let second_traversal = copy_chars(pick_traversal(selection.second, &buffers));
    StringStructEDIndex { first_traversal, second_traversal, tree_size }
}

/// Absolute value in `i64`.
fn abs_diff_i32(a: i32, b: i32) -> (r: i64)
    ensures
        r == (if a >= b { a - b } else { b - a }),
{
    let d = a as i64 - b as i64;
    if d < 0 {
        -d
    } else {
        d
    }
}

/// Bounded string edit distance with structural constraints (Berghel and
/// Roach's banded furthest-reaching scheme): a diagonal step that matches
/// two elements is taken only if their labels are equal and their structural
/// annotations differ by at most `k` minus the edits already spent; a
/// substitution is allowed only where the last extension ended on a
/// structurally compatible pair. A distance above the threshold is reported
/// as `usize::MAX`. Requires `s1` to be no longer than `s2`.
pub fn bounded_string_edit_distance_with_structure(
    s1: &[TraversalCharacter],
    s2: &[TraversalCharacter],
    k: usize,
) -> (r: usize)
    requires
        s1@.len() <= s2@.len() <= i32::MAX,
        s2@.len() - s1@.len() <= k,
        k <= i32::MAX,
    ensures
        r == usize::MAX || (r <= k && r <= s2@.len()),
        r != usize::MAX ==> edit_distance(chars(s1@), chars(s2@)) <= r,
        s1@.len() == s2@.len() && prefix_matches(s1@, s2@, k as int, s1@.len() as int) ==> r == 0,
        r as int == br_value(s1@, s2@, k as int),
{
    let mut unused: Vec<(i32, i32)> = Vec::new();
    br_sed_core(s1, s2, k, false, &mut unused)
}

/// The labels of an annotated sequence.
pub open spec fn chars(s: Seq<TraversalCharacter>) -> Seq<i32> {
    s.map_values(|c: TraversalCharacter| c.char)
}

/// A matrix cell `(row, col)` of `s1` against `s2` within the band
/// `|col - row| <= k`.
pub open spec fn cell_in_band(cell: (i32, i32), n1: int, n2: int, k: int) -> bool {
    &&& 0 <= cell.0 < n1
    &&& 0 <= cell.1 < n2
    &&& -k <= cell.1 - cell.0 <= k
}

/// Two elements extend a match before any edit is spent: equal labels and
/// structural annotations that differ by at most `k`.
pub open spec fn pair_matches(c1: TraversalCharacter, c2: TraversalCharacter, k: int) -> bool {
    &&& c1.char == c2.char
    &&& (if c1.sum >= c2.sum { c1.sum - c2.sum } else { c2.sum - c1.sum }) <= k
    &&& (if c1.diff >= c2.diff { c1.diff - c2.diff } else { c2.diff - c1.diff }) <= k
}

/// The first `j` elements of `s1` and `s2` match pairwise.
pub open spec fn prefix_matches(s1: Seq<TraversalCharacter>, s2: Seq<TraversalCharacter>, k: int, j: int) -> bool {
    forall|t: int| 0 <= t < j ==> #[trigger] pair_matches(s1[t], s2[t], k)
}

/// From position `base` on, `cells` starts with the main-diagonal cells
/// `(j, j)` of every position `j` of `s1` whose predecessors all match: the
/// cells of the common matching prefix and of the first mismatch after it.
pub open spec fn diagonal_recorded(
    cells: Seq<(i32, i32)>,
    base: int,
    s1: Seq<TraversalCharacter>,
    s2: Seq<TraversalCharacter>,
    k: int,
) -> bool {
    forall|j: int|
        #![trigger prefix_matches(s1, s2, k, j)]
        0 <= j < s1.len() && prefix_matches(s1, s2, k, j) ==> base + j < cells.len() && cells[base
            + j] == (j as i32, j as i32)
}

/// From position `base` on, `cells` holds the cells `(j, j)` for every
/// `j < m`, and the first `m` elements of `s1` and `s2` match pairwise.
pub open spec fn diagonal_prefix(
    cells: Seq<(i32, i32)>,
    base: int,
    s1: Seq<TraversalCharacter>,
    s2: Seq<TraversalCharacter>,
    k: int,
    m: int,
) -> bool {
    &&& base + m <= cells.len()
    &&& forall|j: int| 0 <= j < m ==> #[trigger] cells[base + j] == (j as i32, j as i32)
    &&& prefix_matches(s1, s2, k, m)
}

/// Every sequence matches itself element by element.
pub(crate) proof fn lemma_prefix_matches_self(s: Seq<TraversalCharacter>, k: int)
    requires
        k >= 0,
    ensures
        prefix_matches(s, s, k, s.len() as int),
{
    assert forall|t: int| 0 <= t < s.len() implies #[trigger] pair_matches(s[t], s[t], k) by {}
}

/// Appending cells keeps the recorded diagonal.
proof fn lemma_diagonal_recorded_grows(
    a: Seq<(i32, i32)>,
    b: Seq<(i32, i32)>,
    base: int,
    s1: Seq<TraversalCharacter>,
    s2: Seq<TraversalCharacter>,
    k: int,
)
    requires
        diagonal_recorded(a, base, s1, s2, k),
        base >= 0,
        b.len() >= a.len(),
        b.take(a.len() as int) == a,
    ensures
        diagonal_recorded(b, base, s1, s2, k),
{
    assert forall|j: int|
        #![trigger prefix_matches(s1, s2, k, j)]
        0 <= j < s1.len() && prefix_matches(s1, s2, k, j) implies base + j < b.len() && b[base + j]
        == (j as i32, j as i32) by {
        assert(b.take(a.len() as int)[base + j] == b[base + j]);
    }
}

/// Sliding along diagonal `q` of `s1` against `s2` from row `m`, with
/// `allowed` edits already spent: the row of the first compared pair that
/// does not extend the match (labels differ, or an annotation differs by
/// more than `kk - allowed`), or the row where a sequence ends; and whether
/// the last compared pair had compatible annotations (`ok` when none was
/// compared).
pub open spec fn slide_from(
    s1: Seq<TraversalCharacter>,
    s2: Seq<TraversalCharacter>,
    kk: int,
    allowed: int,
    q: int,
    m: int,
    ok: bool,
) -> (int, bool)
    decreases s1.len() - m,
{
    if m < 0 || m >= s1.len() || m + q >= s2.len() || m + q < 0 {
        (m, ok)
    } else {
        let c1 = s1[m];
        let c2 = s2[m + q];
        let ok2 = allowed + crate::topdiff::abs_int((c1.sum - c2.sum) as int) <= kk && allowed + crate::topdiff::abs_int(
            (c1.diff - c2.diff) as int,
        ) <= kk;
        if c1.char != c2.char || !ok2 {
            (m, ok2)
        } else {
            slide_from(s1, s2, kk, allowed, q, m + 1, ok2)
        }
    }
}

/// Slides along diagonal `diag_offset` from row `row` while the compared
/// elements have equal labels and structural annotations within `kk` less
/// the `allowed_edits` already spent; when `record` holds, each compared
/// cell is appended to `cells`. Returns the row reached and whether the
/// last compared pair was structurally compatible (`false` when none was
/// compared).
fn slide_diagonal(
    s1: &[TraversalCharacter],
    s2: &[TraversalCharacter],
    kk: i64,
    allowed_edits: i64,
    diag_offset: i64,
    row: i64,
    record: bool,
    cells: &mut Vec<(i32, i32)>,
) -> (r: (i64, bool))
    requires
        s1@.len() <= s2@.len() <= i32::MAX,
        0 <= allowed_edits <= kk <= i32::MAX,
        -allowed_edits <= diag_offset <= allowed_edits,
        0 <= row <= s1@.len() + allowed_edits + 1,
        reached(chars(s1@), chars(s2@), row as int, diag_offset as int, allowed_edits as int),
    ensures
        row <= r.0 <= s1@.len() + allowed_edits + 1,
        reached(chars(s1@), chars(s2@), r.0 as int, diag_offset as int, allowed_edits as int),
        !record ==> final(cells)@ == old(cells)@,
        final(cells)@.len() >= old(cells)@.len(),
        final(cells)@.take(old(cells)@.len() as int) == old(cells)@,
        forall|c: int|
            old(cells)@.len() <= c < final(cells)@.len() ==> cell_in_band(
                #[trigger] final(cells)@[c],
                s1@.len() as int,
                s2@.len() as int,
                kk as int,
            ),
        record && row == 0 && diag_offset == 0 && allowed_edits == 0 ==> diagonal_recorded(
            final(cells)@,
            old(cells)@.len() as int,
            s1@,
            s2@,
            kk as int,
        ),
        row == 0 && diag_offset == 0 && allowed_edits == 0 && prefix_matches(
            s1@,
            s2@,
            kk as int,
            s1@.len() as int,
        ) ==> r.0 >= s1@.len(),
        (r.0 as int, r.1) == slide_from(
            s1@,
            s2@,
            kk as int,
            allowed_edits as int,
            diag_offset as int,
            row as int,
            false,
        ),
{
    let ghost c0 = cells@;
    let ghost first = record && row == 0 && diag_offset == 0 && allowed_edits == 0;
    let ghost whole = row == 0 && diag_offset == 0 && allowed_edits == 0 && prefix_matches(
        s1@,
        s2@,
        kk as int,
        s1@.len() as int,
    );
    let s1len = s1.len() as i64;
    let s2len = s2.len() as i64;
    let mut max_row_number = row;
    let mut struct_ok = false;
    while max_row_number < s1len && max_row_number + diag_offset < s2len
        && max_row_number + diag_offset >= 0
        invariant_except_break
            first ==> cells@.len() == c0.len() + max_row_number,
        invariant
            0 <= row <= max_row_number <= s1len + allowed_edits + 1,
            s1len == s1@.len(),
            s2len == s2@.len(),
            0 <= s1len <= s2len <= i32::MAX,
            0 <= allowed_edits <= kk <= i32::MAX,
            -allowed_edits <= diag_offset <= allowed_edits,
            first == (record && row == 0 && diag_offset == 0 && allowed_edits == 0),
            whole == (row == 0 && diag_offset == 0 && allowed_edits == 0 && prefix_matches(
                s1@,
                s2@,
                kk as int,
                s1@.len() as int,
            )),
            !record ==> cells@ == c0,
            c0 == old(cells)@,
            cells@.len() >= c0.len(),
            cells@.take(c0.len() as int) == c0,
            forall|c: int|
                c0.len() <= c < cells@.len() ==> cell_in_band(#[trigger] cells@[c], s1len as int, s2len as int, kk as int),
            reached(chars(s1@), chars(s2@), max_row_number as int, diag_offset as int, allowed_edits as int),
            first ==> diagonal_prefix(cells@, c0.len() as int, s1@, s2@, kk as int, max_row_number as int),
            slide_from(s1@, s2@, kk as int, allowed_edits as int, diag_offset as int, row as int, false)
                == slide_from(
                s1@,
                s2@,
                kk as int,
                allowed_edits as int,
                diag_offset as int,
                max_row_number as int,
                struct_ok,
            ),
        ensures
            slide_from(s1@, s2@, kk as int, allowed_edits as int, diag_offset as int, row as int, false)
                == (max_row_number as int, struct_ok),
            row <= max_row_number <= s1len + allowed_edits + 1,
            whole ==> max_row_number >= s1len,
            first ==> (cells@.len() == c0.len() + max_row_number && max_row_number >= s1len) || (
            cells@.len() == c0.len() + max_row_number + 1 && max_row_number < s1len
                && cells@[c0.len() + max_row_number] == (max_row_number as i32, max_row_number as i32)
                && !pair_matches(s1@[max_row_number as int], s2@[max_row_number as int], kk as int)),
        decreases s1len - max_row_number,
    {
        if record {
            let ghost before = cells@;
            cells.push((max_row_number as i32, (max_row_number + diag_offset) as i32));
            proof {
                assert(cells@.take(c0.len() as int) =~= before.take(c0.len() as int));
                if first {
                    assert forall|j: int| 0 <= j < max_row_number implies #[trigger] cells@[c0.len() + j] == (
                    j as i32, j as i32) by {
                        assert(before[c0.len() + j] == (j as i32, j as i32));
                    }
                }
            }
        }
        let c1 = s1[max_row_number as usize];
        let c2 = s2[(max_row_number + diag_offset) as usize];
        let char_eq = c1.char == c2.char;
        let ghost ok_before = struct_ok;
        struct_ok = allowed_edits + abs_diff_i32(c1.sum, c2.sum) <= kk && allowed_edits
            + abs_diff_i32(c1.diff, c2.diff) <= kk;
        proof {
            assert(slide_from(
                s1@,
                s2@,
                kk as int,
                allowed_edits as int,
                diag_offset as int,
                max_row_number as int,
                ok_before,
            ) == (if !(c1.char == c2.char) || !struct_ok {
                (max_row_number as int, struct_ok)
            } else {
                slide_from(
                    s1@,
                    s2@,
                    kk as int,
                    allowed_edits as int,
                    diag_offset as int,
                    max_row_number + 1,
                    struct_ok,
                )
            }));
        }
        proof {
            if diag_offset == 0 && allowed_edits == 0 {
                assert((char_eq && struct_ok) == pair_matches(s1@[max_row_number as int], s2@[max_row_number as int], kk as int));
            }
            if whole {
                assert(pair_matches(s1@[max_row_number as int], s2@[max_row_number as int], kk as int));
            }
        }
        if !char_eq || !struct_ok {
            break;
        }
        proof {
            assert(chars(s1@)[max_row_number as int] == chars(s2@)[max_row_number + diag_offset]);
            lemma_reached_slide(
                chars(s1@),
                chars(s2@),
                max_row_number as int,
                diag_offset as int,
                allowed_edits as int,
            );
        }
        let ghost m_old = max_row_number;
        max_row_number = max_row_number + 1;
        proof {
            if first {
                assert forall|j: int| 0 <= j < max_row_number implies #[trigger] cells@[c0.len() + j] == (
                j as i32, j as i32) by {
                    if j < m_old {
                        assert(cells@[c0.len() + j] == (j as i32, j as i32));
                    }
                }
                assert forall|t: int| 0 <= t < max_row_number implies #[trigger] pair_matches(s1@[t], s2@[t], kk as int) by {
                    if t < m_old {
                        assert(prefix_matches(s1@, s2@, kk as int, m_old as int));
                    }
                }
            }
        }
    }
    proof {
        if first {
            assert forall|j: int|
                #![trigger prefix_matches(s1@, s2@, kk as int, j)]
                0 <= j < s1@.len() && prefix_matches(s1@, s2@, kk as int, j) implies c0.len() + j
                < cells@.len() && cells@[c0.len() + j] == (j as i32, j as i32) by {
                if cells@.len() == c0.len() + max_row_number + 1 && j > max_row_number {
                    assert(pair_matches(s1@[max_row_number as int], s2@[max_row_number as int], kk as int));
                }
                if j < max_row_number {
                    assert(cells@[c0.len() + j] == (j as i32, j as i32));
                }
            }
        }
    }
    (max_row_number, struct_ok)
}

/// One round's sweep of the furthest-reaching rows over the diagonals
/// `q..end` (diagonal `q` stored at `q + zero_k`): each diagonal's row is the
/// furthest of a substitution on it (when the previous round allows one), an
/// insertion from the diagonal below and a deletion from the one above, then
/// slid along the diagonal with `allowed` edits spent.
pub open spec fn br_sweep(
    s1: Seq<TraversalCharacter>,
    s2: Seq<TraversalCharacter>,
    kk: int,
    allowed: int,
    zero_k: int,
    cur: Seq<(i64, bool)>,
    q: int,
    end: int,
    current_cell: int,
    next_cell: int,
    flag: bool,
    next: Seq<(i64, bool)>,
) -> Seq<(i64, bool)>
    decreases end - q,
{
    if q >= end {
        next
    } else {
        let previous = current_cell;
        let current = next_cell;
        let nc = cur[q + zero_k + 1].0 as int;
        let ns = cur[q + zero_k + 1].1;
        let mx0 = current + if flag {
            1int
        } else {
            0int
        };
        let mx1 = if previous > mx0 {
            previous
        } else {
            mx0
        };
        let mx = if nc + 1 > mx1 {
            nc + 1
        } else {
            mx1
        };
        let entry: (i64, bool) = if !flag && mx == current {
            (mx as i64, false)
        } else {
            let slid = slide_from(s1, s2, kk, allowed, q, mx, false);
            (slid.0 as i64, slid.1)
        };
        br_sweep(s1, s2, kk, allowed, zero_k, cur, q + 1, end, current, nc, ns, next.update(q + zero_k, entry))
    }
}

/// The band limit of the structural bounded distance: the smaller of the
/// threshold and the longer length.
pub open spec fn br_limit(s2: Seq<TraversalCharacter>, k: int) -> int {
    if s2.len() < k {
        s2.len() as int
    } else {
        k
    }
}

/// First diagonal of the band in round `i`.
pub open spec fn br_band_start(s2: Seq<TraversalCharacter>, k: int, i: int) -> int {
    let zero_k = br_limit(s2, k) + 1;
    if i <= zero_k {
        -i + 1
    } else {
        i - zero_k * 2 + 1
    }
}

/// The target diagonal, shifted by `zero_k`.
pub open spec fn br_target(s1: Seq<TraversalCharacter>, s2: Seq<TraversalCharacter>, k: int) -> int {
    s2.len() - s1.len() + br_limit(s2, k) + 1
}

/// First diagonal swept in round `i`: the band's first, or the lowest
/// diagonal from which the target is still within the remaining budget.
pub open spec fn br_start(s1: Seq<TraversalCharacter>, s2: Seq<TraversalCharacter>, k: int, i: int) -> int {
    let size_diff = s2.len() - s1.len();
    let budget = k - (i - 1);
    let min_valid = if budget <= 0 {
        size_diff
    } else {
        size_diff - budget
    };
    let band_start = br_band_start(s2, k, i);
    if band_start >= min_valid {
        band_start
    } else {
        min_valid
    }
}

/// Diagonal after the last one swept in round `i`.
pub open spec fn br_end(s1: Seq<TraversalCharacter>, s2: Seq<TraversalCharacter>, k: int, i: int) -> int {
    let size_diff = s2.len() - s1.len();
    let budget = k - (i - 1);
    let max_valid = if budget <= 0 {
        size_diff
    } else {
        size_diff + budget
    };
    let target = br_target(s1, s2, k);
    let band_end = if i <= target {
        i
    } else {
        target * 2 - i
    };
    if band_end <= max_valid + 1 {
        band_end
    } else {
        max_valid + 1
    }
}

/// Round `i` sweeps from a fresh start rather than from the stored row.
pub open spec fn br_fresh(s1: Seq<TraversalCharacter>, s2: Seq<TraversalCharacter>, k: int, i: int) -> bool {
    i <= br_limit(s2, k) + 1 && br_start(s1, s2, k, i) == br_band_start(s2, k, i)
}

/// Round `i` of the structural bounded distance: the rows swap, and the
/// new row is swept over the diagonals within the band and within the
/// remaining budget around the target diagonal.
pub open spec fn br_round(
    s1: Seq<TraversalCharacter>,
    s2: Seq<TraversalCharacter>,
    k: int,
    i: int,
    cur_in: Seq<(i64, bool)>,
    next_in: Seq<(i64, bool)>,
) -> (Seq<(i64, bool)>, Seq<(i64, bool)>) {
    let zero_k = br_limit(s2, k) + 1;
    let current = next_in;
    let nx = if i <= br_target(s1, s2, k) {
        cur_in.update(zero_k + i, (-1i64, true))
    } else {
        cur_in
    };
    let start = br_start(s1, s2, k, i);
    let si = zero_k + start;
    let fresh = br_fresh(s1, s2, k, i);
    let cc = if fresh {
        -1
    } else if start > br_band_start(s2, k, i) && si > 0 {
        current[si - 1].0 as int
    } else {
        -1
    };
    let nc = if fresh {
        i - 2
    } else {
        current[si].0 as int
    };
    let fl = if fresh {
        true
    } else {
        current[si].1
    };
    (current, br_sweep(s1, s2, k, i - 1, zero_k, current, start, br_end(s1, s2, k, i), cc, nc, fl, nx))
}

/// The structural bounded distance from round `i` on, given the two rows
/// before it: the first round whose row reaches the end of `s1` on the
/// target diagonal, less one, or `usize::MAX` past the band limit.
pub open spec fn br_from(
    s1: Seq<TraversalCharacter>,
    s2: Seq<TraversalCharacter>,
    k: int,
    i: int,
    cur: Seq<(i64, bool)>,
    next: Seq<(i64, bool)>,
) -> int
    decreases br_limit(s2, k) + 2 - i,
{
    if i < 1 || i > br_limit(s2, k) + 1 {
        usize::MAX as int
    } else {
        let rows = br_round(s1, s2, k, i, cur, next);
        if rows.1[br_target(s1, s2, k)].0 >= s1.len() {
            i - 1
        } else {
            br_from(s1, s2, k, i + 1, rows.0, rows.1)
        }
    }
}

/// The structural bounded distance of `s1` against `s2` at threshold `k`:
/// the rounds of furthest-reaching rows started from rows that reach
/// nowhere.
pub open spec fn br_value(s1: Seq<TraversalCharacter>, s2: Seq<TraversalCharacter>, k: int) -> int {
    let init = Seq::new((2 * br_limit(s2, k) + 3) as nat, |j: int| (-1i64, true));
    br_from(s1, s2, k, 1, init, init)
}

/// The furthest-reaching computation of
/// `bounded_string_edit_distance_with_structure`; when `record` holds, the
/// cells whose element pair it compares are appended to `cells`.
#[verifier::spinoff_prover]
#[verifier::rlimit(100)]
pub(crate) fn br_sed_core(
    s1: &[TraversalCharacter],
    s2: &[TraversalCharacter],
    k: usize,
    record: bool,
    cells: &mut Vec<(i32, i32)>,
) -> (r: usize)
    requires
        s1@.len() <= s2@.len() <= i32::MAX,
        s2@.len() - s1@.len() <= k,
        k <= i32::MAX,
    ensures
        r == usize::MAX || (r <= k && r <= s2@.len()),
        r != usize::MAX ==> edit_distance(chars(s1@), chars(s2@)) <= r,
        !record ==> final(cells)@ == old(cells)@,
        final(cells)@.len() >= old(cells)@.len(),
        final(cells)@.take(old(cells)@.len() as int) == old(cells)@,
        forall|c: int|
            old(cells)@.len() <= c < final(cells)@.len() ==> cell_in_band(
                #[trigger] final(cells)@[c],
                s1@.len() as int,
                s2@.len() as int,
                k as int,
            ),
        record ==> diagonal_recorded(final(cells)@, old(cells)@.len() as int, s1@, s2@, k as int),
        s1@.len() == s2@.len() && prefix_matches(s1@, s2@, k as int, s1@.len() as int) ==> r == 0,
        r as int == br_value(s1@, s2@, k as int),
{
    let ghost c0 = cells@;
    let ghost eq_case = s1@.len() == s2@.len() && prefix_matches(s1@, s2@, k as int, s1@.len() as int);
    let s1len = s1.len() as i64;
    let s2len = s2.len() as i64;
    let size_diff = s2len - s1len;
    let kk = k as i64;
    let threshold: i64 = if s2len < kk {
        s2len
    } else {
        kk
    };
    let zero_k: i64 = threshold + 1;
    let array_size: i64 = 2 * threshold + 3;
    let mut current_row: Vec<(i64, bool)> = Vec::new();
    let mut next_row: Vec<(i64, bool)> = Vec::new();
    let mut z: i64 = 0;
    while z < array_size
        invariant
            0 <= z <= array_size,
            current_row@.len() == z,
            next_row@.len() == z,
            forall|j: int| 0 <= j < z ==> (#[trigger] current_row@[j]).0 == -1,
            forall|j: int| 0 <= j < z ==> (#[trigger] next_row@[j]).0 == -1,
            forall|j: int| 0 <= j < z ==> #[trigger] current_row@[j] == (-1i64, true),
            forall|j: int| 0 <= j < z ==> #[trigger] next_row@[j] == (-1i64, true),
        decreases array_size - z,
    {
        current_row.push((-1, true));
        next_row.push((-1, true));
        z = z + 1;
    }
    let target_diagonal = size_diff + zero_k;
    let end_max = target_diagonal * 2;
    proof {
        let init = Seq::new((2 * br_limit(s2@, k as int) + 3) as nat, |j: int| (-1i64, true));
        assert(threshold == br_limit(s2@, k as int));
        assert(current_row@ =~= init);
        assert(next_row@ =~= init);
    }
    let mut i: i64 = 1;
    while i <= threshold + 1
        invariant
            1 <= i <= threshold + 2,
            0 <= s1len <= s2len <= i32::MAX,
            s1len == s1@.len(),
            s2len == s2@.len(),
            kk == k,
            k <= i32::MAX,
            0 <= threshold <= s2len,
            threshold <= kk,
            size_diff == s2len - s1len,
            0 <= size_diff <= kk,
            size_diff <= threshold,
            zero_k == threshold + 1,
            array_size == 2 * threshold + 3,
            target_diagonal == size_diff + zero_k,
            end_max == target_diagonal * 2,
            current_row@.len() == array_size,
            next_row@.len() == array_size,
            forall|j: int|
                0 <= j < array_size ==> -1 <= (#[trigger] current_row@[j]).0 <= s1len + i - 1,
            forall|j: int|
                0 <= j < array_size ==> -1 <= (#[trigger] next_row@[j]).0 <= s1len + i - 1,
            forall|j: int|
                0 <= j < array_size ==> reached(
                    chars(s1@),
                    chars(s2@),
                    (#[trigger] current_row@[j]).0 as int,
                    j - zero_k,
                    i - 2,
                ),
            forall|j: int|
                0 <= j < array_size ==> reached(
                    chars(s1@),
                    chars(s2@),
                    (#[trigger] next_row@[j]).0 as int,
                    j - zero_k,
                    i - 2,
                ),
            !record ==> cells@ == c0,
            c0 == old(cells)@,
            cells@.len() >= c0.len(),
            cells@.take(c0.len() as int) == c0,
            forall|c: int|
                c0.len() <= c < cells@.len() ==> cell_in_band(#[trigger] cells@[c], s1len as int, s2len as int, k as int),
            i == 1 ==> cells@ == c0,
            i == 1 ==> forall|j: int| 0 <= j < array_size ==> (#[trigger] current_row@[j]).0 == -1,
            i == 1 ==> forall|j: int| 0 <= j < array_size ==> (#[trigger] next_row@[j]).0 == -1,
            i >= 2 && record ==> diagonal_recorded(cells@, c0.len() as int, s1@, s2@, k as int),
            eq_case == (s1@.len() == s2@.len() && prefix_matches(s1@, s2@, k as int, s1@.len() as int)),
            eq_case ==> i == 1,
            threshold == br_limit(s2@, k as int),
            br_value(s1@, s2@, k as int) == br_from(s1@, s2@, k as int, i as int, current_row@, next_row@),
        decreases threshold + 2 - i,
    {
        let ghost old_cur = current_row@;
        let ghost old_next = next_row@;
        let tmp = current_row;
        current_row = next_row;
        next_row = tmp;
        let band_start: i64 = if i <= zero_k {
            -i + 1
        } else {
            i - (zero_k * 2) + 1
        };
        let band_end: i64;
        proof {
            assert(next_row@ == old_cur);
        }
        if i <= target_diagonal {
            band_end = i;
            next_row.set((zero_k + i) as usize, (-1, true));
            proof {
                assert(next_row@ == old_cur.update(zero_k + i, (-1i64, true)));
            }
        } else {
            band_end = end_max - i;
        }
        let budget = kk - (i - 1);
        let (min_valid_diag, max_valid_diag) = if budget <= 0 {
            (size_diff, size_diff)
        } else {
            (size_diff - budget, size_diff + budget)
        };
        let start = if band_start >= min_valid_diag {
            band_start
        } else {
            min_valid_diag
        };
        let end = if band_end <= max_valid_diag + 1 {
            band_end
        } else {
            max_valid_diag + 1
        };
        let mut current_cell: i64;
        let mut next_cell: i64;
        let mut previous_cell: i64;
        let mut next_allowed_substitution: bool;
        if i <= zero_k && start == band_start {
            current_cell = -1;
            next_cell = i - 2;
            next_allowed_substitution = true;
        } else {
            let start_idx = zero_k + start;
            current_cell = if start > band_start && start_idx > 0 {
                current_row[(start_idx - 1) as usize].0
            } else {
                -1
            };
            let (nc, ns) = current_row[start_idx as usize];
            next_cell = nc;
            next_allowed_substitution = ns;
        }
        let mut diagonal_index: i64 = start + zero_k;
        let allowed_edits = i - 1;
        let mut diag_offset: i64 = start;
        let ghost cr = current_row@;
        let ghost target_row = br_sweep(
            s1@,
            s2@,
            kk as int,
            allowed_edits as int,
            zero_k as int,
            cr,
            start as int,
            end as int,
            current_cell as int,
            next_cell as int,
            next_allowed_substitution,
            next_row@,
        );
        proof {
            assert(zero_k == br_limit(s2@, k as int) + 1);
            assert(target_diagonal == br_target(s1@, s2@, k as int));
            assert(band_start == br_band_start(s2@, k as int, i as int));
            assert(start == br_start(s1@, s2@, k as int, i as int));
            assert(end == br_end(s1@, s2@, k as int, i as int));
            assert((i <= zero_k && start == band_start) == br_fresh(s1@, s2@, k as int, i as int));
            assert(cr == old_next);
            assert(next_row@ == (if i <= br_target(s1@, s2@, k as int) {
                old_cur.update(zero_k + i, (-1i64, true))
            } else {
                old_cur
            }));
            assert(br_round(s1@, s2@, k as int, i as int, old_cur, old_next) == (cr, target_row));
        }
        while diag_offset < end
            invariant
                1 <= i <= threshold + 1,
                0 <= s1len <= s2len <= i32::MAX,
                s1len == s1@.len(),
                s2len == s2@.len(),
                kk == k,
                k <= i32::MAX,
                0 <= threshold <= s2len,
                threshold <= kk,
                0 <= size_diff <= threshold,
                zero_k == threshold + 1,
                array_size == 2 * threshold + 3,
                allowed_edits == i - 1,
                start + zero_k >= 1,
                1 - i <= start,
                end <= i,
                start <= diag_offset,
                i == 1 ==> start == 0 && end == 1,
                i == 1 && diag_offset == 0 ==> cells@ == c0 && current_cell == -1 && next_cell == -1
                    && next_allowed_substitution,
                i == 1 && diag_offset == 0 ==> forall|j: int|
                    0 <= j < array_size ==> (#[trigger] current_row@[j]).0 == -1,
                (i >= 2 || diag_offset >= 1) && record ==> diagonal_recorded(
                    cells@,
                    c0.len() as int,
                    s1@,
                    s2@,
                    k as int,
                ),
                eq_case == (s1@.len() == s2@.len() && prefix_matches(s1@, s2@, k as int, s1@.len() as int)),
                eq_case ==> i == 1,
                i == 1 && diag_offset >= 1 && eq_case ==> next_row@[zero_k as int].0 >= s1len,
                !record ==> cells@ == c0,
                c0 == old(cells)@,
                cells@.len() >= c0.len(),
                cells@.take(c0.len() as int) == c0,
                forall|c: int|
                    c0.len() <= c < cells@.len() ==> cell_in_band(#[trigger] cells@[c], s1len as int, s2len as int, k as int),
                diagonal_index == diag_offset + zero_k,
                -1 <= current_cell <= s1len + i - 1,
                -1 <= next_cell <= s1len + i - 1,
                current_row@.len() == array_size,
                next_row@.len() == array_size,
                forall|j: int|
                    0 <= j < array_size ==> -1 <= (#[trigger] current_row@[j]).0 <= s1len + i - 1,
                forall|j: int|
                    0 <= j < array_size ==> -1 <= (#[trigger] next_row@[j]).0 <= s1len + i,
                reached(chars(s1@), chars(s2@), current_cell as int, diag_offset - 1, i - 2),
                reached(chars(s1@), chars(s2@), next_cell as int, diag_offset as int, i - 2),
                forall|j: int|
                    0 <= j < array_size ==> reached(
                        chars(s1@),
                        chars(s2@),
                        (#[trigger] current_row@[j]).0 as int,
                        j - zero_k,
                        i - 2,
                    ),
                forall|j: int|
                    0 <= j < array_size ==> reached(
                        chars(s1@),
                        chars(s2@),
                        (#[trigger] next_row@[j]).0 as int,
                        j - zero_k,
                        i - 1,
                    ),
                cr == current_row@,
                br_sweep(
                    s1@,
                    s2@,
                    kk as int,
                    allowed_edits as int,
                    zero_k as int,
                    cr,
                    diag_offset as int,
                    end as int,
                    current_cell as int,
                    next_cell as int,
                    next_allowed_substitution,
                    next_row@,
                ) == target_row,
            decreases end - diag_offset,
        {
            let ghost st_cc = current_cell as int;
            let ghost st_nc = next_cell as int;
            let ghost st_fl = next_allowed_substitution;
            let ghost st_next = next_row@;
            let ghost q = diag_offset as int;
            proof {
                assert(br_sweep(
                    s1@,
                    s2@,
                    kk as int,
                    allowed_edits as int,
                    zero_k as int,
                    cr,
                    q,
                    end as int,
                    st_cc,
                    st_nc,
                    st_fl,
                    st_next,
                ) == target_row);
            }
            previous_cell = current_cell;
            current_cell = next_cell;
            let can_substitute = next_allowed_substitution;
            proof {
                assert(current_row.len() == current_row@.len());
                assert(((diagonal_index + 1) as usize) as int == diagonal_index + 1);
            }
            let (nc, ns) = current_row[(diagonal_index + 1) as usize];
            next_cell = nc;
            next_allowed_substitution = ns;
            proof {
                assert(reached(
                    chars(s1@),
                    chars(s2@),
                    current_row@[diagonal_index + 1].0 as int,
                    diagonal_index + 1 - zero_k,
                    i - 2,
                ));
                lemma_reached_step(
                    chars(s1@),
                    chars(s2@),
                    current_cell as int,
                    if can_substitute {
                        1
                    } else {
                        0
                    },
                    previous_cell as int,
                    next_cell as int,
                    diag_offset as int,
                    i - 1,
                );
            }
            let mut max_row_number = current_cell + if can_substitute {
                1
            } else {
                0
            };
            if previous_cell > max_row_number {
                max_row_number = previous_cell;
            }
            if next_cell + 1 > max_row_number {
                max_row_number = next_cell + 1;
            }
            let ghost prev_next = next_row@;
            proof {
                assert(next_row.len() == next_row@.len());
                assert((diagonal_index as usize) as int == diagonal_index as int);
            }
            let ghost nc_new = next_cell as int;
            let ghost ns_new = next_allowed_substitution;
            proof {
                assert(nc_new == cr[q + zero_k + 1].0 as int);
                assert(ns_new == cr[q + zero_k + 1].1);
            }
            if !can_substitute && max_row_number == current_cell {
                next_row.set(diagonal_index as usize, (max_row_number, false));
                proof {
                    assert(next_row@ == st_next.update(q + zero_k, ((max_row_number as int) as i64, false)));
                }
                proof {
                    assert forall|j: int| 0 <= j < array_size implies reached(
                        chars(s1@),
                        chars(s2@),
                        (#[trigger] next_row@[j]).0 as int,
                        j - zero_k,
                        i - 1,
                    ) by {
                        if j != diagonal_index {
                            assert(next_row@[j] == prev_next[j]);
                        }
                    }
                }
                diagonal_index = diagonal_index + 1;
                diag_offset = diag_offset + 1;
                continue;
            }
            let ghost before_slide = cells@;
            proof {
                if i == 1 && diag_offset == 0 {
                    assert(max_row_number == 0);
                }
            }
            let (reached_row, struct_ok) = slide_diagonal(
                s1,
                s2,
                kk,
                allowed_edits,
                diag_offset,
                max_row_number,
                record,
                cells,
            );
            max_row_number = reached_row;
            proof {
                assert(cells@.take(c0.len() as int) =~= cells@.take(before_slide.len() as int).take(
                    c0.len() as int,
                ));
                assert forall|c: int|
                    c0.len() <= c < cells@.len() implies cell_in_band(
                    #[trigger] cells@[c],
                    s1len as int,
                    s2len as int,
                    k as int,
                ) by {
                    if c < before_slide.len() {
                        assert(cells@.take(before_slide.len() as int)[c] == cells@[c]);
                    }
                }
                if record && !(i == 1 && diag_offset == 0) {
                    lemma_diagonal_recorded_grows(before_slide, cells@, c0.len() as int, s1@, s2@, k as int);
                }
            }
            next_row.set(diagonal_index as usize, (max_row_number, struct_ok));
            proof {
                assert(next_row@ == st_next.update(q + zero_k, ((reached_row as int) as i64, struct_ok)));
            }
            proof {
                assert forall|j: int| 0 <= j < array_size implies reached(
                    chars(s1@),
                    chars(s2@),
                    (#[trigger] next_row@[j]).0 as int,
                    j - zero_k,
                    i - 1,
                ) by {
                    if j != diagonal_index {
                        assert(next_row@[j] == prev_next[j]);
                    }
                }
            }
            diagonal_index = diagonal_index + 1;
            diag_offset = diag_offset + 1;
        }
        if next_row[target_diagonal as usize].0 >= s1len {
            proof {
                assert(reached(
                    chars(s1@),
                    chars(s2@),
                    next_row@[target_diagonal as int].0 as int,
                    target_diagonal - zero_k,
                    i - 1,
                ));
                assert(prefix_distance(chars(s1@), chars(s2@), s1@.len(), s2@.len()) <= i - 1);
            }
            return (i - 1) as usize;
        }
        i = i + 1;
    }
    usize::MAX
}

/// The structural distances of the first and of the second traversals of
/// two indexes at threshold `k`, the index with the shorter first traversal
/// taken first.
pub open spec fn traversal_distances(t1: StringStructEDIndex, t2: StringStructEDIndex, k: int) -> (int, int) {
    let (a, b) = if t1.first_traversal@.len() > t2.first_traversal@.len() {
        (t2, t1)
    } else {
        (t1, t2)
    };
    (
        br_value(a.first_traversal@, b.first_traversal@, k),
        br_value(a.second_traversal@, b.second_traversal@, k),
    )
}

/// The SED-STRUCT lower bound with threshold `k`: `k + 1` when the sizes
/// differ by more than `k`, the first traversals' bounded distance when it
/// exceeds `k`, else the larger of the two traversals' bounded distances.
pub fn sed_struct_k(t1: &StringStructEDIndex, t2: &StringStructEDIndex, k: usize) -> (r: usize)
    requires
        t1.is_consistent(),
        t2.is_consistent(),
        k <= i32::MAX,
    ensures
        (if t1.tree_size >= t2.tree_size {
            t1.tree_size - t2.tree_size
        } else {
            t2.tree_size - t1.tree_size
        }) > k ==> r == k + 1,
        r == k + 1 || r == usize::MAX || r <= k,
        r <= k ==> edit_distance(chars(t1.first_traversal@), chars(t2.first_traversal@)) <= r
            && edit_distance(chars(t1.second_traversal@), chars(t2.second_traversal@)) <= r,
        t1.first_traversal@ == t2.first_traversal@ && t1.second_traversal@ == t2.second_traversal@
            && t1.tree_size == t2.tree_size ==> r == 0,
        (if t1.tree_size >= t2.tree_size {
            t1.tree_size - t2.tree_size
        } else {
            t2.tree_size - t1.tree_size
        }) <= k ==> {
            let (d1, d2) = traversal_distances(*t1, *t2, k as int);
            &&& d1 > k ==> r == d1
            &&& d1 <= k ==> r == (if d1 >= d2 { d1 } else { d2 })
        },
{
    proof {
        lemma_prefix_matches_self(t1.first_traversal@, k as int);
        lemma_prefix_matches_self(t1.second_traversal@, k as int);
        lemma_edit_distance_symmetric(chars(t1.first_traversal@), chars(t2.first_traversal@));
        lemma_edit_distance_symmetric(chars(t1.second_traversal@), chars(t2.second_traversal@));
    }
    let diff = if t1.get_size() >= t2.get_size() {
        t1.get_size() - t2.get_size()
    } else {
        t2.get_size() - t1.get_size()
    };
    if diff > k {
        return k + 1;
    }
    let (a, b) = if t1.first_traversal.len() > t2.first_traversal.len() {
        (t2, t1)
    } else {
        (t1, t2)
    };
    let first_dist = bounded_string_edit_distance_with_structure(
        &a.first_traversal,
        &b.first_traversal,
        k,
    );
    if first_dist > k {
        return first_dist;
    }
    let second_dist = bounded_string_edit_distance_with_structure(
        &a.second_traversal,
        &b.second_traversal,
        k,
    );
    if first_dist >= second_dist {
        first_dist
    } else {
        second_dist
    }
}

/// The SED-STRUCT algorithm with its selected pair of traversals.
pub struct StringStructAlgorithm {
    pub traversal_selection: TraversalSelection,
}

impl StringStructAlgorithm {
    /// An algorithm over the traversals `first` and `second`.
    pub fn new(first: TraversalKind, second: TraversalKind) -> (r: Self)
        ensures
            r.traversal_selection == (TraversalSelection { first, second }),
    {
        StringStructAlgorithm { traversal_selection: TraversalSelection { first, second } }
    }

    /// The default selection: preorder first, postorder second.
    pub fn default() -> (r: Self)
        ensures
            r.traversal_selection == TraversalSelection::spec_default(),
    {
        StringStructAlgorithm { traversal_selection: TraversalSelection::default() }
    }
}

/// What a SED-STRUCT bound `r` at threshold `k` is known to be: `k + 1`
/// when the sizes differ by more than `k`, else `k + 1`, `usize::MAX` or at
/// most `k` and then at least the label edit distance of each pair of
/// traversals.
pub open spec fn sed_struct_bound(
    q: StringStructEDIndex,
    d: StringStructEDIndex,
    k: usize,
    r: usize,
) -> bool {
    &&& (if q.tree_size >= d.tree_size {
        q.tree_size - d.tree_size
    } else {
        d.tree_size - q.tree_size
    }) > k ==> r == k + 1
    &&& r == k + 1 || r == usize::MAX || r <= k
    &&& r <= k ==> edit_distance(chars(q.first_traversal@), chars(d.first_traversal@)) <= r
        && edit_distance(chars(q.second_traversal@), chars(d.second_traversal@)) <= r
    &&& q.first_traversal@ == d.first_traversal@ && q.second_traversal@ == d.second_traversal@
        && q.tree_size == d.tree_size ==> r == 0
    &&& (if q.tree_size >= d.tree_size {
        q.tree_size - d.tree_size
    } else {
        d.tree_size - q.tree_size
    }) <= k ==> {
        let (d1, d2) = traversal_distances(q, d, k as int);
        &&& d1 > k ==> r == d1
        &&& d1 <= k ==> r == (if d1 >= d2 { d1 } else { d2 })
    }
}

/// Within the threshold, the SED-STRUCT bound is the larger of the
/// structural distances of the two traversals (the tree with the shorter
/// first traversal taken first): it is at least each of them, and equal to
/// one of them; beyond the threshold on the first traversal it is that
/// distance.
pub proof fn lemma_sed_struct_bound_is_larger_distance(
    q: StringStructEDIndex,
    d: StringStructEDIndex,
    k: usize,
    r: usize,
)
    requires
        sed_struct_bound(q, d, k, r),
        (if q.tree_size >= d.tree_size {
            q.tree_size - d.tree_size
        } else {
            d.tree_size - q.tree_size
        }) <= k,
    ensures
        ({
            let (a, b) = if q.first_traversal@.len() > d.first_traversal@.len() {
                (d, q)
            } else {
                (q, d)
            };
            let first = br_value(a.first_traversal@, b.first_traversal@, k as int);
            let second = br_value(a.second_traversal@, b.second_traversal@, k as int);
            &&& first <= k && second <= k ==> r >= first && r >= second && (r == first || r == second)
            &&& first > k ==> r == first
        }),
{
}

impl LowerBoundMethod for StringStructAlgorithm {
    type PreprocessedDataType = StringStructEDIndex;

    open spec fn accepts(&self, data: Seq<Option<SpecTree>>) -> bool {
        nonempty_within(data, i32::MAX as int)
    }

    proof fn lemma_accepts_prefix(&self, a: Seq<Option<SpecTree>>, b: Seq<Option<SpecTree>>) {
        lemma_nonempty_within_prefix(a, b, i32::MAX as int);
    }

    open spec fn describes(&self, p: StringStructEDIndex, tree: ParsedTree) -> bool {
        p.is_index_of(tree, self.traversal_selection)
    }

    open spec fn prepared(&self, p: StringStructEDIndex) -> bool {
        p.is_consistent()
    }

    open spec fn supports(&self, query: StringStructEDIndex, data: StringStructEDIndex, threshold: usize) -> bool {
        threshold <= i32::MAX
    }

    open spec fn bound_holds(
        &self,
        query: StringStructEDIndex,
        data: StringStructEDIndex,
        threshold: usize,
        r: usize,
    ) -> bool {
        sed_struct_bound(query, data, threshold, r)
    }

    /// Preprocesses every tree of `data`.
    fn preprocess(&mut self, data: &[ParsedTree]) -> (r: Result<Vec<StringStructEDIndex>, String>)
        ensures
            *final(self) == *old(self),
    {
        proof {
            lemma_nonempty_within_trees(data@, i32::MAX as int);
            lemma_nonempty_within_suffix(trees_view(data@), i32::MAX as int);
        }
        let sel = self.traversal_selection;
        let mut out: Vec<StringStructEDIndex> = Vec::new();
        let mut i: usize = 0;
        while i < data.len()
            invariant
                i <= data@.len(),
                forall|j: int|
                    0 <= j < data@.len() ==> (#[trigger] data@[j]).root is Some && tree_size(data@[j])
                        <= i32::MAX,
                out@.len() == i,
                forall|j: int|
                    0 <= j < i ==> (#[trigger] out@[j]).is_index_of(data@[j], sel)
                        && out@[j].is_consistent(),
            decreases data@.len() - i,
        {
            let idx = preprocess_tree(&data[i], sel);
            proof {
                lemma_index_consistent(idx, data@[i as int], sel);
            }
            out.push(idx);
            i = i + 1;
        }
        Ok(out)
    }

    /// The SED-STRUCT lower bound between two preprocessed trees.
    fn lower_bound(
        &self,
        query: &StringStructEDIndex,
        data: &StringStructEDIndex,
        threshold: usize,
    ) -> (r: usize) {
        sed_struct_k(query, data, threshold)
    }
}

/// Creates the SED-STRUCT method.
pub struct StringStructFactory;

impl AlgorithmFactory for StringStructFactory {
    type AlgorithmType = StringStructAlgorithm;

    /// A SED-STRUCT method over preorder and postorder.
    fn create_algorithm() -> (r: StringStructAlgorithm)
        ensures
            r.traversal_selection == TraversalSelection::spec_default(),
    {
        StringStructAlgorithm::default()
    }
}

} // verus!
