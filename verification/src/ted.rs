//! The unit-cost tree edit distance of ordered labelled trees given in
//! postorder, and the laws that the string edit distance of the preorder
//! and of the postorder label sequences, the size difference, and the SED,
//! SED-EXACT and label intersection bounds never exceed it.

use vstd::prelude::*;

use crate::edit_distance::{
    edit_distance, lemma_prefix_distance_steps, max_int, min_int, prefix_distance,
};
use crate::label_intersection::{
    label_intersection, lemma_label_intersection_below_preorder_distance, saturating_sub,
    LabelCountMap,
};
use crate::topdiff::{fact_labels, ints, TopDiffIndex};
use crate::base::{TraversalKind, TraversalSelection};
use crate::sed::{sed_value, SEDIndex};
use crate::sed_exact::sed_exact_value;
use crate::tree::{
    forest_post_facts, forest_postorder, forest_preorder, forest_size, post_facts, postorder,
    preorder, size, traversal, ParsedTree, TreeNode,
};

verus! {

/// `v` limited to the range `[lo, hi]`.
pub open spec fn clamp(v: int, lo: int, hi: int) -> int {
    if v < lo {
        lo
    } else if v > hi {
        hi
    } else {
        v
    }
}

/// Unit-cost edit distance between the forest of postorder nodes `a1..i`
/// of one tree and the forest of postorder nodes `a2..j` of another, the
/// trees given by their postorder labels `l1`, `l2` and subtree sizes `s1`,
/// `s2` (Zhang and Shasha's recurrence at the last nodes): delete the last
/// node of the first forest, insert the last node of the second, or map the
/// last trees onto each other. When both forests are single trees, mapping
/// them maps the roots onto each other (renaming costs 1 unless the labels
/// are equal) and their child forests onto each other; otherwise it costs
/// the distance of the two last trees plus that of the forests left of
/// them.
pub open spec fn forest_distance(
    l1: Seq<i32>,
    s1: Seq<i32>,
    l2: Seq<i32>,
    s2: Seq<i32>,
    a1: int,
    i: int,
    a2: int,
    j: int,
) -> int
    decreases (if i > a1 { i - a1 } else { 0 }) + (if j > a2 { j - a2 } else { 0 }),
{
    if i <= a1 {
        if j <= a2 {
            0
        } else {
            j - a2
        }
    } else if j <= a2 {
        i - a1
    } else {
        let z1 = clamp(s1[i - 1] as int, 1, i - a1);
        let z2 = clamp(s2[j - 1] as int, 1, j - a2);
        let del = forest_distance(l1, s1, l2, s2, a1, i - 1, a2, j) + 1;
        let ins = forest_distance(l1, s1, l2, s2, a1, i, a2, j - 1) + 1;
        let ren = if l1[i - 1] == l2[j - 1] { 0int } else { 1int };
        let pair = if z1 == i - a1 && z2 == j - a2 {
            forest_distance(l1, s1, l2, s2, a1, i - 1, a2, j - 1) + ren
        } else {
            forest_distance(l1, s1, l2, s2, a1, i - z1, a2, j - z2) + forest_distance(
                l1,
                s1,
                l2,
                s2,
                i - z1,
                i,
                j - z2,
                j,
            )
        };
        min_int(min_int(del, ins), pair)
    }
}

/// A forest distance is never negative and never exceeds the number of
/// nodes of the two forests together.
pub proof fn lemma_forest_distance_bounds(
    l1: Seq<i32>,
    s1: Seq<i32>,
    l2: Seq<i32>,
    s2: Seq<i32>,
    a1: int,
    i: int,
    a2: int,
    j: int,
)
    requires
        a1 <= i,
        a2 <= j,
    ensures
        0 <= forest_distance(l1, s1, l2, s2, a1, i, a2, j) <= (i - a1) + (j - a2),
    decreases (i - a1) + (j - a2),
{
    if i > a1 && j > a2 {
        let z1 = clamp(s1[i - 1] as int, 1, i - a1);
        let z2 = clamp(s2[j - 1] as int, 1, j - a2);
        lemma_forest_distance_bounds(l1, s1, l2, s2, a1, i - 1, a2, j);
        lemma_forest_distance_bounds(l1, s1, l2, s2, a1, i, a2, j - 1);
        if z1 == i - a1 && z2 == j - a2 {
            lemma_forest_distance_bounds(l1, s1, l2, s2, a1, i - 1, a2, j - 1);
        } else {
            lemma_forest_distance_bounds(l1, s1, l2, s2, a1, i - z1, a2, j - z2);
            lemma_forest_distance_bounds(l1, s1, l2, s2, i - z1, i, j - z2, j);
        }
    }
}

/// The tree edit distance between the subtree rooted at postorder node `x`
/// of the first tree and the subtree rooted at postorder node `y` of the
/// second.
pub open spec fn subtree_distance(t1: TopDiffIndex, t2: TopDiffIndex, x: int, y: int) -> int {
    forest_distance(
        t1.postl_to_label_id@,
        t1.postl_to_size@,
        t2.postl_to_label_id@,
        t2.postl_to_size@,
        x + 1 - t1.postl_to_size@[x],
        x + 1,
        y + 1 - t2.postl_to_size@[y],
        y + 1,
    )
}

/// The tree edit distance between the trees that two indexes describe.
pub open spec fn tree_edit_distance(t1: TopDiffIndex, t2: TopDiffIndex) -> int {
    forest_distance(
        t1.postl_to_label_id@,
        t1.postl_to_size@,
        t2.postl_to_label_id@,
        t2.postl_to_size@,
        0,
        t1.tree_size as int,
        0,
        t2.tree_size as int,
    )
}

/// The forest distance is symmetric: exchanging the two forests exchanges
/// deletions and insertions and leaves the distance unchanged.
proof fn lemma_forest_distance_symmetric(
    l1: Seq<i32>,
    s1: Seq<i32>,
    l2: Seq<i32>,
    s2: Seq<i32>,
    a1: int,
    i: int,
    a2: int,
    j: int,
)
    ensures
        forest_distance(l1, s1, l2, s2, a1, i, a2, j) == forest_distance(l2, s2, l1, s1, a2, j, a1, i),
    decreases (if i > a1 { i - a1 } else { 0 }) + (if j > a2 { j - a2 } else { 0 }),
{
    if i > a1 && j > a2 {
        let z1 = clamp(s1[i - 1] as int, 1, i - a1);
        let z2 = clamp(s2[j - 1] as int, 1, j - a2);
        lemma_forest_distance_symmetric(l1, s1, l2, s2, a1, i - 1, a2, j);
        lemma_forest_distance_symmetric(l1, s1, l2, s2, a1, i, a2, j - 1);
        if z1 == i - a1 && z2 == j - a2 {
            lemma_forest_distance_symmetric(l1, s1, l2, s2, a1, i - 1, a2, j - 1);
        } else {
            lemma_forest_distance_symmetric(l1, s1, l2, s2, a1, i - z1, a2, j - z2);
            lemma_forest_distance_symmetric(l1, s1, l2, s2, i - z1, i, j - z2, j);
        }
    }
}

/// The tree edit distance is symmetric in its two trees.
pub proof fn lemma_tree_edit_distance_symmetric(t1: TopDiffIndex, t2: TopDiffIndex)
    ensures
        tree_edit_distance(t1, t2) == tree_edit_distance(t2, t1),
{
    lemma_forest_distance_symmetric(
        t1.postl_to_label_id@,
        t1.postl_to_size@,
        t2.postl_to_label_id@,
        t2.postl_to_size@,
        0,
        t1.tree_size as int,
        0,
        t2.tree_size as int,
    );
}

/// The prefix distance depends only on the two prefixes.
proof fn lemma_prefix_distance_prefixes(a: Seq<i32>, b: Seq<i32>, c: Seq<i32>, d: Seq<i32>, i: nat, j: nat)
    requires
        i <= a.len(),
        i <= c.len(),
        j <= b.len(),
        j <= d.len(),
        a.take(i as int) == c.take(i as int),
        b.take(j as int) == d.take(j as int),
    ensures
        prefix_distance(a, b, i, j) == prefix_distance(c, d, i, j),
    decreases i + j,
{
    if i > 0 && j > 0 {
        assert(a[i - 1] == a.take(i as int)[i - 1]);
        assert(c[i - 1] == c.take(i as int)[i - 1]);
        assert(b[j - 1] == b.take(j as int)[j - 1]);
        assert(d[j - 1] == d.take(j as int)[j - 1]);
        assert(a.take(i - 1) =~= a.take(i as int).take(i - 1));
        assert(c.take(i - 1) =~= c.take(i as int).take(i - 1));
        assert(b.take(j - 1) =~= b.take(j as int).take(j - 1));
        assert(d.take(j - 1) =~= d.take(j as int).take(j - 1));
        lemma_prefix_distance_prefixes(a, b, c, d, (i - 1) as nat, j);
        lemma_prefix_distance_prefixes(a, b, c, d, i, (j - 1) as nat);
        lemma_prefix_distance_prefixes(a, b, c, d, (i - 1) as nat, (j - 1) as nat);
    }
}

/// Editing two concatenations piecewise: the prefix distance of `A + B`
/// against `C + D`, past all of `A` and `C`, is at most the distance of `A`
/// to `C` plus the prefix distance of `B` against `D`.
proof fn lemma_prefix_distance_concat(
    a: Seq<i32>,
    b: Seq<i32>,
    c: Seq<i32>,
    d: Seq<i32>,
    p: nat,
    q: nat,
)
    requires
        p <= b.len(),
        q <= d.len(),
    ensures
        prefix_distance(a + b, c + d, a.len() + p, c.len() + q) <= edit_distance(a, c) + prefix_distance(
            b,
            d,
            p,
            q,
        ),
    decreases p + q,
{
    let ab = a + b;
    let cd = c + d;
    if p == 0 && q == 0 {
        assert(ab.take(a.len() as int) =~= a.take(a.len() as int));
        assert(cd.take(c.len() as int) =~= c.take(c.len() as int));
        lemma_prefix_distance_prefixes(ab, cd, a, c, a.len(), c.len());
    } else if p == 0 {
        lemma_prefix_distance_concat(a, b, c, d, 0, (q - 1) as nat);
        lemma_prefix_distance_steps(ab, cd, a.len(), (c.len() + q - 1) as nat);
    } else if q == 0 {
        lemma_prefix_distance_concat(a, b, c, d, (p - 1) as nat, 0);
        lemma_prefix_distance_steps(ab, cd, (a.len() + p - 1) as nat, c.len());
    } else {
        lemma_prefix_distance_concat(a, b, c, d, (p - 1) as nat, q);
        lemma_prefix_distance_concat(a, b, c, d, p, (q - 1) as nat);
        lemma_prefix_distance_concat(a, b, c, d, (p - 1) as nat, (q - 1) as nat);
        lemma_prefix_distance_steps(ab, cd, (a.len() + p - 1) as nat, (c.len() + q) as nat);
        lemma_prefix_distance_steps(ab, cd, (a.len() + p) as nat, (c.len() + q - 1) as nat);
        lemma_prefix_distance_steps(ab, cd, (a.len() + p - 1) as nat, (c.len() + q - 1) as nat);
        assert(ab[a.len() + p - 1] == b[p - 1]);
        assert(cd[c.len() + q - 1] == d[q - 1]);
    }
}

/// The string edit distance of two label ranges never exceeds the forest
/// distance of the same ranges.
proof fn lemma_range_distance_below_forest(
    l1: Seq<i32>,
    s1: Seq<i32>,
    l2: Seq<i32>,
    s2: Seq<i32>,
    a1: int,
    i: int,
    a2: int,
    j: int,
)
    requires
        0 <= a1 <= i <= l1.len(),
        0 <= a2 <= j <= l2.len(),
        s1.len() == l1.len(),
        s2.len() == l2.len(),
    ensures
        edit_distance(l1.subrange(a1, i), l2.subrange(a2, j)) <= forest_distance(
            l1,
            s1,
            l2,
            s2,
            a1,
            i,
            a2,
            j,
        ),
    decreases (i - a1) + (j - a2),
{
    let x = l1.subrange(a1, i);
    let y = l2.subrange(a2, j);
    if i == a1 || j == a2 {
        crate::edit_distance::lemma_prefix_distance_bound(x, y, x.len(), y.len());
    } else {
        let z1 = clamp(s1[i - 1] as int, 1, i - a1);
        let z2 = clamp(s2[j - 1] as int, 1, j - a2);
        lemma_range_distance_below_forest(l1, s1, l2, s2, a1, i - 1, a2, j);
        lemma_range_distance_below_forest(l1, s1, l2, s2, a1, i, a2, j - 1);
        lemma_range_distance_below_forest(l1, s1, l2, s2, a1, i - 1, a2, j - 1);
        let xd = l1.subrange(a1, i - 1);
        let yd = l2.subrange(a2, j - 1);
        // x without its last label, y without its last label.
        assert(x.take(x.len() - 1) =~= xd.take(xd.len() as int));
        assert(y.take(y.len() as int) =~= y.take(y.len() as int));
        lemma_prefix_distance_prefixes(x, y, xd, y, (x.len() - 1) as nat, y.len());
        assert(y.take(y.len() - 1) =~= yd.take(yd.len() as int));
        lemma_prefix_distance_prefixes(x, y, x, yd, x.len(), (y.len() - 1) as nat);
        lemma_prefix_distance_prefixes(x, y, xd, yd, (x.len() - 1) as nat, (y.len() - 1) as nat);
        lemma_prefix_distance_steps(x, y, (x.len() - 1) as nat, y.len());
        lemma_prefix_distance_steps(x, y, x.len(), (y.len() - 1) as nat);
        lemma_prefix_distance_steps(x, y, (x.len() - 1) as nat, (y.len() - 1) as nat);
        assert(x[x.len() - 1] == l1[i - 1]);
        assert(y[y.len() - 1] == l2[j - 1]);
        if !(z1 == i - a1 && z2 == j - a2) {
            // The last trees mapped onto each other: x = rest + tree on both sides.
            lemma_range_distance_below_forest(l1, s1, l2, s2, a1, i - z1, a2, j - z2);
            lemma_range_distance_below_forest(l1, s1, l2, s2, i - z1, i, j - z2, j);
            let r1 = l1.subrange(a1, i - z1);
            let k1 = l1.subrange(i - z1, i);
            let r2 = l2.subrange(a2, j - z2);
            let k2 = l2.subrange(j - z2, j);
            assert(x =~= r1 + k1);
            assert(y =~= r2 + k2);
            lemma_prefix_distance_concat(r1, k1, r2, k2, k1.len(), k2.len());
        }
    }
}

/// Inserting one element into the first sequence costs at most one edit:
/// past the insertion point, prefix `i + 1` of `x + [r] + y` is within one
/// edit of prefix `i` of `x + y`.
proof fn lemma_insert_one(x: Seq<i32>, r: i32, y: Seq<i32>, w: Seq<i32>, i: nat, j: nat)
    requires
        x.len() <= i <= x.len() + y.len(),
        j <= w.len(),
    ensures
        prefix_distance(x + seq![r] + y, w, i + 1, j) <= prefix_distance(x + y, w, i, j) + 1,
    decreases i + j,
{
    let a = x + seq![r] + y;
    let b = x + y;
    if i == x.len() {
        assert(a.take(i as int) =~= b.take(i as int));
        lemma_prefix_distance_prefixes(a, w, b, w, i, j);
        lemma_prefix_distance_steps(a, w, i, j);
    } else if j == 0 {
    } else {
        lemma_insert_one(x, r, y, w, (i - 1) as nat, j);
        lemma_insert_one(x, r, y, w, i, (j - 1) as nat);
        lemma_insert_one(x, r, y, w, (i - 1) as nat, (j - 1) as nat);
        assert(a[i as int] == b[i - 1]);
        assert(prefix_distance(a, w, i + 1, j) <= prefix_distance(a, w, i, j) + 1);
        assert(prefix_distance(a, w, i + 1, j) <= prefix_distance(a, w, i + 1, (j - 1) as nat) + 1);
        assert(prefix_distance(a, w, i + 1, j) <= prefix_distance(a, w, i, (j - 1) as nat) + if a[i as int]
            == w[j - 1] {
            0int
        } else {
            1int
        });
    }
}

/// The labels of the forest of postorder nodes `a..i` listed in preorder:
/// the forest left of the last tree, then the last tree's root, then its
/// child forest.
pub open spec fn range_preorder(l: Seq<i32>, s: Seq<i32>, a: int, i: int) -> Seq<i32>
    decreases (if i > a { i - a } else { 0 }),
{
    if i <= a {
        Seq::empty()
    } else {
        let z = clamp(s[i - 1] as int, 1, i - a);
        range_preorder(l, s, a, i - z) + seq![l[i - 1]] + range_preorder(l, s, i - z, i - 1)
    }
}

/// A preorder listing of `a..i` holds `i - a` labels.
proof fn lemma_range_preorder_len(l: Seq<i32>, s: Seq<i32>, a: int, i: int)
    requires
        a <= i,
    ensures
        range_preorder(l, s, a, i).len() == i - a,
    decreases i - a,
{
    if i > a {
        let z = clamp(s[i - 1] as int, 1, i - a);
        lemma_range_preorder_len(l, s, a, i - z);
        lemma_range_preorder_len(l, s, i - z, i - 1);
    }
}

/// Every node of `a..i` has its subtree inside `a..i`.
pub open spec fn closed_range(s: Seq<i32>, a: int, i: int) -> bool {
    forall|q: int| a <= q < i ==> 1 <= #[trigger] s[q] <= q - a + 1
}

/// A closed range splits at any point `c` after which the range is closed
/// too: its preorder is that of `a..c` followed by that of `c..i`.
proof fn lemma_range_preorder_split(l: Seq<i32>, s: Seq<i32>, a: int, c: int, i: int)
    requires
        a <= c <= i,
        closed_range(s, c, i),
    ensures
        range_preorder(l, s, a, i) == range_preorder(l, s, a, c) + range_preorder(l, s, c, i),
    decreases i - c,
{
    if i > c {
        let z = s[i - 1] as int;
        assert(1 <= z <= i - c);
        assert(closed_range(s, c, i - z));
        lemma_range_preorder_split(l, s, a, c, i - z);
        assert(range_preorder(l, s, a, i) == range_preorder(l, s, a, i - z) + seq![l[i - 1]]
            + range_preorder(l, s, i - z, i - 1));
        assert(range_preorder(l, s, c, i) == range_preorder(l, s, c, i - z) + seq![l[i - 1]]
            + range_preorder(l, s, i - z, i - 1));
        assert(range_preorder(l, s, a, i) =~= range_preorder(l, s, a, c) + range_preorder(l, s, c, i));
    } else {
        assert(range_preorder(l, s, a, c) + range_preorder(l, s, c, i) =~= range_preorder(l, s, a, c));
    }
}


/// Subtree blocks nest: a node inside the block of `p` has its block inside
/// that of `p`.
pub open spec fn nested_blocks(s: Seq<i32>) -> bool {
    forall|p: int, q: int|
        0 <= q <= p < s.len() && q > p - s[p] ==> #[trigger] s[q] <= q - p + #[trigger] s[p]
}

/// The parts of a closed range that the forest recurrence visits are closed.
proof fn lemma_closed_parts(s: Seq<i32>, a: int, i: int)
    requires
        a < i <= s.len(),
        0 <= a,
        closed_range(s, a, i),
        nested_blocks(s),
    ensures
        ({
            let z = s[i - 1] as int;
            &&& 1 <= z <= i - a
            &&& clamp(z, 1, i - a) == z
            &&& closed_range(s, a, i - z)
            &&& closed_range(s, a, i - 1)
            &&& closed_range(s, i - z, i)
            &&& closed_range(s, i - z, i - 1)
        }),
{
    let z = s[i - 1] as int;
    assert forall|q: int| i - z <= q < i implies 1 <= #[trigger] s[q] <= q - (i - z) + 1 by {
        if q < i - 1 {
            assert(s[q] <= q - (i - 1) + s[i - 1]);
        }
    }
}

/// The string edit distance of the preorder listings of two closed ranges
/// never exceeds their forest distance.
proof fn lemma_range_preorder_below_forest(
    l1: Seq<i32>,
    s1: Seq<i32>,
    l2: Seq<i32>,
    s2: Seq<i32>,
    a1: int,
    i: int,
    a2: int,
    j: int,
)
    requires
        0 <= a1 <= i <= l1.len(),
        0 <= a2 <= j <= l2.len(),
        s1.len() == l1.len(),
        s2.len() == l2.len(),
        closed_range(s1, a1, i),
        closed_range(s2, a2, j),
        nested_blocks(s1),
        nested_blocks(s2),
    ensures
        edit_distance(range_preorder(l1, s1, a1, i), range_preorder(l2, s2, a2, j))
            <= forest_distance(l1, s1, l2, s2, a1, i, a2, j),
    decreases (i - a1) + (j - a2),
{
    let p1 = range_preorder(l1, s1, a1, i);
    let p2 = range_preorder(l2, s2, a2, j);
    lemma_range_preorder_len(l1, s1, a1, i);
    lemma_range_preorder_len(l2, s2, a2, j);
    if i == a1 || j == a2 {
    } else {
        lemma_closed_parts(s1, a1, i);
        lemma_closed_parts(s2, a2, j);
        let z1 = s1[i - 1] as int;
        let z2 = s2[j - 1] as int;
        let r1 = range_preorder(l1, s1, a1, i - z1);
        let c1 = range_preorder(l1, s1, i - z1, i - 1);
        let r2 = range_preorder(l2, s2, a2, j - z2);
        let c2 = range_preorder(l2, s2, j - z2, j - 1);
        lemma_range_preorder_len(l1, s1, a1, i - z1);
        lemma_range_preorder_len(l1, s1, i - z1, i - 1);
        lemma_range_preorder_len(l2, s2, a2, j - z2);
        lemma_range_preorder_len(l2, s2, j - z2, j - 1);
        assert(p1 == r1 + seq![l1[i - 1]] + c1);
        assert(p2 == r2 + seq![l2[j - 1]] + c2);
        // Deleting the last node of the first forest.
        lemma_range_preorder_below_forest(l1, s1, l2, s2, a1, i - 1, a2, j);
        lemma_range_preorder_split(l1, s1, a1, i - z1, i - 1);
        lemma_insert_one(r1, l1[i - 1], c1, p2, (r1.len() + c1.len()) as nat, p2.len());
        // Inserting the last node of the second forest.
        lemma_range_preorder_below_forest(l1, s1, l2, s2, a1, i, a2, j - 1);
        lemma_range_preorder_split(l2, s2, a2, j - z2, j - 1);
        lemma_insert_one(r2, l2[j - 1], c2, p1, (r2.len() + c2.len()) as nat, p1.len());
        crate::edit_distance::lemma_edit_distance_symmetric(p1, p2);
        crate::edit_distance::lemma_edit_distance_symmetric(p1, r2 + c2);
        if z1 == i - a1 && z2 == j - a2 {
            lemma_range_preorder_below_forest(l1, s1, l2, s2, a1, i - 1, a2, j - 1);
            let h1 = seq![l1[i - 1]];
            let h2 = seq![l2[j - 1]];
            assert(r1 =~= Seq::<i32>::empty());
            assert(r2 =~= Seq::<i32>::empty());
            assert(p1 =~= h1 + c1);
            assert(p2 =~= h2 + c2);
            lemma_prefix_distance_concat(h1, c1, h2, c2, c1.len(), c2.len());
            lemma_prefix_distance_steps(h1, h2, 0, 0);
            assert(h1[0] == l1[i - 1] && h2[0] == l2[j - 1]);
            assert(prefix_distance(h1, h2, 1, 1) <= if l1[i - 1] == l2[j - 1] { 0int } else { 1int });
        } else {
            lemma_range_preorder_below_forest(l1, s1, l2, s2, a1, i - z1, a2, j - z2);
            lemma_range_preorder_below_forest(l1, s1, l2, s2, i - z1, i, j - z2, j);
            let t1 = range_preorder(l1, s1, i - z1, i);
            let t2 = range_preorder(l2, s2, j - z2, j);
            assert(t1 == range_preorder(l1, s1, i - z1, i - z1) + seq![l1[i - 1]] + c1);
            assert(t2 == range_preorder(l2, s2, j - z2, j - z2) + seq![l2[j - 1]] + c2);
            assert(p1 =~= r1 + t1);
            assert(p2 =~= r2 + t2);
            lemma_range_preorder_len(l1, s1, i - z1, i);
            lemma_range_preorder_len(l2, s2, j - z2, j);
            lemma_prefix_distance_concat(r1, t1, r2, t2, t1.len(), t2.len());
        }
    }
}

/// The string edit distance of the postorder label sequences of two trees
/// never exceeds their tree edit distance.
pub proof fn lemma_postorder_distance_below_ted(t1: TopDiffIndex, t2: TopDiffIndex)
    requires
        t1.wf(),
        t2.wf(),
    ensures
        edit_distance(t1.postl_to_label_id@, t2.postl_to_label_id@) <= tree_edit_distance(t1, t2),
{
    let l1 = t1.postl_to_label_id@;
    let l2 = t2.postl_to_label_id@;
    lemma_range_distance_below_forest(
        l1,
        t1.postl_to_size@,
        l2,
        t2.postl_to_size@,
        0,
        t1.tree_size as int,
        0,
        t2.tree_size as int,
    );
    assert(l1.subrange(0, t1.tree_size as int) =~= l1);
    assert(l2.subrange(0, t2.tree_size as int) =~= l2);
}


/// The labels of a subtree's postorder facts are its postorder labels.
proof fn lemma_post_facts_labels(t: TreeNode, depth: nat, start: nat)
    ensures
        post_facts(t, depth, start).len() == postorder(t).len(),
        forall|i: int|
            0 <= i < postorder(t).len() ==> #[trigger] post_facts(t, depth, start)[i].label
                == postorder(t)[i],
    decreases t,
{
    lemma_forest_post_facts_labels(t.children@, depth + 1, start);
    let f = forest_post_facts(t.children@, depth + 1, start);
    let p = forest_postorder(t.children@);
    assert forall|i: int| 0 <= i < postorder(t).len() implies #[trigger] post_facts(
        t,
        depth,
        start,
    )[i].label == postorder(t)[i] by {
        if i < p.len() {
            assert(post_facts(t, depth, start)[i] == f[i]);
            assert(postorder(t)[i] == p[i]);
        }
    }
}

/// Forest version of `lemma_post_facts_labels`.
proof fn lemma_forest_post_facts_labels(s: Seq<TreeNode>, depth: nat, start: nat)
    ensures
        forest_post_facts(s, depth, start).len() == forest_postorder(s).len(),
        forall|i: int|
            0 <= i < forest_postorder(s).len() ==> #[trigger] forest_post_facts(s, depth, start)[i].label
                == forest_postorder(s)[i],
    decreases s,
{
    if s.len() > 0 {
        let start2 = start + forest_size(s.drop_last());
        lemma_forest_post_facts_labels(s.drop_last(), depth, start);
        lemma_post_facts_labels(s.last(), depth, start2);
        let f0 = forest_post_facts(s.drop_last(), depth, start);
        let p0 = forest_postorder(s.drop_last());
        let f1 = post_facts(s.last(), depth, start2);
        let p1 = postorder(s.last());
        assert forall|i: int| 0 <= i < forest_postorder(s).len() implies #[trigger] forest_post_facts(
            s,
            depth,
            start,
        )[i].label == forest_postorder(s)[i] by {
            if i < p0.len() {
                assert(forest_post_facts(s, depth, start)[i] == f0[i]);
                assert(forest_postorder(s)[i] == p0[i]);
            } else {
                assert(forest_post_facts(s, depth, start)[i] == f1[i - f0.len()]);
                assert(forest_postorder(s)[i] == p1[i - p0.len()]);
            }
        }
    }
}

/// The tree edit distance law for postorder: for two non-empty trees and
/// their indexes, the string edit distance of the postorder label sequences
/// never exceeds the tree edit distance.
pub proof fn lemma_postorder_below_ted(tree1: ParsedTree, tree2: ParsedTree, t1: TopDiffIndex, t2: TopDiffIndex)
    requires
        tree1.root is Some,
        tree2.root is Some,
        t1.is_index_of(tree1),
        t2.is_index_of(tree2),
        t1.wf(),
        t2.wf(),
    ensures
        edit_distance(postorder(tree1.root->Some_0), postorder(tree2.root->Some_0)) <= tree_edit_distance(
            t1,
            t2,
        ),
{
    let r1 = tree1.root->Some_0;
    let r2 = tree2.root->Some_0;
    lemma_post_facts_labels(r1, 0, 0);
    lemma_post_facts_labels(r2, 0, 0);
    let l1 = t1.postl_to_label_id@;
    let l2 = t2.postl_to_label_id@;
    assert(ints(l1) == fact_labels(post_facts(r1, 0, 0)));
    assert(ints(l2) == fact_labels(post_facts(r2, 0, 0)));
    assert(l1 =~= postorder(r1)) by {
        assert(ints(l1).len() == l1.len());
        assert(fact_labels(post_facts(r1, 0, 0)).len() == post_facts(r1, 0, 0).len());
        assert forall|i: int| 0 <= i < l1.len() implies l1[i] == postorder(r1)[i] by {
            assert(ints(l1)[i] == fact_labels(post_facts(r1, 0, 0))[i]);
            assert(post_facts(r1, 0, 0)[i].label == postorder(r1)[i]);
        }
    }
    assert(l2 =~= postorder(r2)) by {
        assert(ints(l2).len() == l2.len());
        assert(fact_labels(post_facts(r2, 0, 0)).len() == post_facts(r2, 0, 0).len());
        assert forall|i: int| 0 <= i < l2.len() implies l2[i] == postorder(r2)[i] by {
            assert(ints(l2)[i] == fact_labels(post_facts(r2, 0, 0))[i]);
            assert(post_facts(r2, 0, 0)[i].label == postorder(r2)[i]);
        }
    }
    lemma_postorder_distance_below_ted(t1, t2);
}


/// The preorder listing of the postorder range of a subtree, read from
/// arrays that hold the subtree's postorder labels and sizes from `start`
/// on, is the subtree's preorder.
proof fn lemma_range_preorder_tree(l: Seq<i32>, s: Seq<i32>, t: TreeNode, depth: nat, start: nat)
    requires
        start + size(t) <= l.len(),
        l.len() == s.len(),
        forall|i: int|
            0 <= i < size(t) ==> l[start + i] == (#[trigger] post_facts(t, depth, start)[i]).label
                && s[start + i] as int == post_facts(t, depth, start)[i].size as int,
    ensures
        range_preorder(l, s, start as int, (start + size(t)) as int) == preorder(t),
    decreases t,
{
    let c = t.children@;
    let f = post_facts(t, depth, start);
    let fc = forest_post_facts(c, depth + 1, start);
    let n = size(t) as int;
    crate::tree::lemma_post_facts(t, depth, start);
    crate::tree::lemma_forest_post_facts(c, depth + 1, start);
    assert(n == forest_size(c) + 1);
    assert forall|i: int| 0 <= i < forest_size(c) implies l[start + i] == (#[trigger] fc[i]).label
        && s[start + i] as int == fc[i].size as int by {
        assert(f[i] == fc[i]);
    }
    lemma_range_preorder_forest(l, s, c, depth + 1, start);
    assert(f[n - 1].label == t.label);
    assert(s[start + n - 1] as int == n);
    assert(range_preorder(l, s, start as int, start + n) =~= range_preorder(
        l,
        s,
        start as int,
        start as int,
    ) + seq![t.label] + range_preorder(l, s, start as int, start + n - 1));
    assert(preorder(t) == seq![t.label] + forest_preorder(c));
}

/// Forest version of `lemma_range_preorder_tree`.
proof fn lemma_range_preorder_forest(l: Seq<i32>, s: Seq<i32>, c: Seq<TreeNode>, depth: nat, start: nat)
    requires
        start + forest_size(c) <= l.len(),
        l.len() == s.len(),
        forall|i: int|
            0 <= i < forest_size(c) ==> l[start + i] == (#[trigger] forest_post_facts(c, depth, start)[i]).label
                && s[start + i] as int == forest_post_facts(c, depth, start)[i].size as int,
    ensures
        range_preorder(l, s, start as int, (start + forest_size(c)) as int) == forest_preorder(c),
    decreases c,
{
    if c.len() == 0 {
        assert(range_preorder(l, s, start as int, start as int) =~= Seq::<i32>::empty());
    } else {
        let d = c.drop_last();
        let u = c.last();
        let ls = start + forest_size(d);
        let fs = forest_post_facts(c, depth, start);
        let fd = forest_post_facts(d, depth, start);
        let fu = post_facts(u, depth, ls);
        crate::tree::lemma_forest_post_facts(d, depth, start);
        crate::tree::lemma_post_facts(u, depth, ls);
        let m = forest_size(d) as int;
        let e = (ls + size(u)) as int;
        assert(forest_size(c) == m + size(u));
        assert forall|i: int| 0 <= i < m implies l[start + i] == (#[trigger] fd[i]).label && s[start
            + i] as int == fd[i].size as int by {
            assert(fs[i] == fd[i]);
        }
        assert forall|i: int| 0 <= i < size(u) implies l[ls + i] == (#[trigger] fu[i]).label && s[ls
            + i] as int == fu[i].size as int by {
            assert(fs[m + i] == fu[i]);
            assert(start + (m + i) == ls + i);
        }
        lemma_range_preorder_forest(l, s, d, depth, start);
        lemma_range_preorder_tree(l, s, u, depth, ls);
        assert(s[e - 1] as int == size(u)) by {
            assert(fu[size(u) - 1].size == size(u));
        }
        assert(range_preorder(l, s, ls as int, e) == range_preorder(l, s, ls as int, ls as int)
            + seq![l[e - 1]] + range_preorder(l, s, ls as int, e - 1));
        assert(range_preorder(l, s, start as int, e) == range_preorder(l, s, start as int, ls as int)
            + seq![l[e - 1]] + range_preorder(l, s, ls as int, e - 1));
        assert(range_preorder(l, s, start as int, e) =~= forest_preorder(d) + preorder(u));
    }
}

/// The tree edit distance law for preorder: for two non-empty trees and
/// their indexes, the string edit distance of the preorder label sequences
/// never exceeds the tree edit distance.
pub proof fn lemma_preorder_below_ted(tree1: ParsedTree, tree2: ParsedTree, t1: TopDiffIndex, t2: TopDiffIndex)
    requires
        tree1.root is Some,
        tree2.root is Some,
        t1.is_index_of(tree1),
        t2.is_index_of(tree2),
    ensures
        edit_distance(preorder(tree1.root->Some_0), preorder(tree2.root->Some_0)) <= tree_edit_distance(
            t1,
            t2,
        ),
{
    crate::topdiff::lemma_index_wf(t1, tree1);
    crate::topdiff::lemma_index_wf(t2, tree2);
    lemma_index_preorder(tree1, t1);
    lemma_index_preorder(tree2, t2);
    lemma_range_preorder_below_forest(
        t1.postl_to_label_id@,
        t1.postl_to_size@,
        t2.postl_to_label_id@,
        t2.postl_to_size@,
        0,
        t1.tree_size as int,
        0,
        t2.tree_size as int,
    );
}

/// The preorder listing of a tree's whole postorder index is the tree's
/// preorder, and the index's sizes form closed nested blocks.
proof fn lemma_index_preorder(tree: ParsedTree, t: TopDiffIndex)
    requires
        tree.root is Some,
        t.is_index_of(tree),
        t.wf(),
    ensures
        range_preorder(t.postl_to_label_id@, t.postl_to_size@, 0, t.tree_size as int) == preorder(
            tree.root->Some_0,
        ),
        closed_range(t.postl_to_size@, 0, t.tree_size as int),
        nested_blocks(t.postl_to_size@),
{
    let r = tree.root->Some_0;
    let facts = post_facts(r, 0, 0);
    let l = t.postl_to_label_id@;
    let s = t.postl_to_size@;
    crate::tree::lemma_post_facts(r, 0, 0);
    assert forall|i: int| 0 <= i < size(r) implies l[0 + i] == (#[trigger] facts[i]).label && s[0
        + i] as int == facts[i].size as int by {
        assert(ints(l)[i] == fact_labels(facts)[i]);
        assert(ints(s)[i] == crate::topdiff::fact_sizes(facts)[i]);
    }
    lemma_range_preorder_tree(l, s, r, 0, 0);
    assert forall|q: int| 0 <= q < t.tree_size implies 1 <= #[trigger] s[q] <= q - 0 + 1 by {}
}

/// Two trees whose sizes differ by `d` are at tree edit distance at least `d`.
pub proof fn lemma_size_gap_below_ted(t1: TopDiffIndex, t2: TopDiffIndex)
    requires
        t1.wf(),
        t2.wf(),
    ensures
        t1.tree_size - t2.tree_size <= tree_edit_distance(t1, t2),
        t2.tree_size - t1.tree_size <= tree_edit_distance(t1, t2),
{
    lemma_postorder_distance_below_ted(t1, t2);
    let l1 = t1.postl_to_label_id@;
    let l2 = t2.postl_to_label_id@;
    crate::edit_distance::lemma_prefix_distance_bound(l1, l2, l1.len(), l2.len());
}

/// The label sequences of two non-empty trees in any one of the four
/// traversal orders are within their tree edit distance.
pub proof fn lemma_traversal_below_ted(
    tree1: ParsedTree,
    tree2: ParsedTree,
    t1: TopDiffIndex,
    t2: TopDiffIndex,
    kind: TraversalKind,
)
    requires
        tree1.root is Some,
        tree2.root is Some,
        t1.is_index_of(tree1),
        t2.is_index_of(tree2),
    ensures
        edit_distance(traversal(tree1.root->Some_0, kind), traversal(tree2.root->Some_0, kind))
            <= tree_edit_distance(t1, t2),
{
    let r1 = tree1.root->Some_0;
    let r2 = tree2.root->Some_0;
    crate::topdiff::lemma_index_wf(t1, tree1);
    crate::topdiff::lemma_index_wf(t2, tree2);
    lemma_preorder_below_ted(tree1, tree2, t1, t2);
    lemma_postorder_below_ted(tree1, tree2, t1, t2);
    crate::edit_distance::lemma_edit_distance_reversed(preorder(r1), preorder(r2));
    crate::edit_distance::lemma_edit_distance_reversed(postorder(r1), postorder(r2));
}

/// The SED lower bound never exceeds the tree edit distance: for two
/// non-empty trees, their SED indexes and their TopDiff indexes, a tree
/// edit distance within the threshold `k` bounds the SED value from above.
pub proof fn lemma_sed_below_ted(
    tree1: ParsedTree,
    tree2: ParsedTree,
    q: SEDIndex,
    d: SEDIndex,
    t1: TopDiffIndex,
    t2: TopDiffIndex,
    selection: TraversalSelection,
    k: usize,
)
    requires
        q.is_index_of(tree1, selection),
        d.is_index_of(tree2, selection),
        t1.is_index_of(tree1),
        t2.is_index_of(tree2),
        tree_edit_distance(t1, t2) <= k,
    ensures
        sed_value(q, d, k) <= tree_edit_distance(t1, t2),
{
    crate::topdiff::lemma_index_wf(t1, tree1);
    crate::topdiff::lemma_index_wf(t2, tree2);
    lemma_size_gap_below_ted(t1, t2);
    lemma_traversal_below_ted(tree1, tree2, t1, t2, selection.first);
    lemma_traversal_below_ted(tree1, tree2, t1, t2, selection.second);
}

/// The SED-EXACT bound never exceeds the tree edit distance, at every
/// threshold.
pub proof fn lemma_sed_exact_below_ted(
    tree1: ParsedTree,
    tree2: ParsedTree,
    q: SEDIndex,
    d: SEDIndex,
    t1: TopDiffIndex,
    t2: TopDiffIndex,
    selection: TraversalSelection,
    threshold: usize,
)
    requires
        q.is_index_of(tree1, selection),
        d.is_index_of(tree2, selection),
        t1.is_index_of(tree1),
        t2.is_index_of(tree2),
    ensures
        sed_exact_value(q, d, threshold) <= tree_edit_distance(t1, t2),
{
    lemma_traversal_below_ted(tree1, tree2, t1, t2, selection.first);
    lemma_traversal_below_ted(tree1, tree2, t1, t2, selection.second);
}

/// The label intersection bound never exceeds the tree edit distance: for
/// two non-empty trees, their label counts and their TopDiff indexes, the
/// larger size less the shared labels is at most the tree edit distance.
pub proof fn lemma_label_intersection_below_ted(
    tree1: ParsedTree,
    tree2: ParsedTree,
    q: LabelCountMap,
    d: LabelCountMap,
    t1: TopDiffIndex,
    t2: TopDiffIndex,
)
    requires
        q.is_index_of(tree1),
        d.is_index_of(tree2),
        t1.is_index_of(tree1),
        t2.is_index_of(tree2),
    ensures
        saturating_sub(max_int(q.tree_size as int, d.tree_size as int), label_intersection(q.counts(), d.counts()))
            <= tree_edit_distance(t1, t2),
{
    lemma_label_intersection_below_preorder_distance(q, d, tree1, tree2);
    lemma_preorder_below_ted(tree1, tree2, t1, t2);
}

} // verus!
