//! The structural lower bound: per label, the nodes' region vectors
//! (preceding, ancestors, following, descendants) matched under an L1
//! threshold.

use vstd::prelude::*;

use crate::fx_map::{vector_map_contents, VectorMap};
use crate::label_intersection::{lemma_sum_over_set, saturating_sub, sum_over};
use crate::topdiff::{abs_int, fact_depths, fact_labels, fact_sizes, ints, TopDiffIndex};
use crate::base::{
    lemma_nonempty_within_prefix, lemma_nonempty_within_suffix, lemma_nonempty_within_trees, nonempty_within, AlgorithmFactory,
    LowerBoundMethod,
};
use crate::tree::{
    lemma_post_facts, post_facts, size, tree_size, trees_view, LabelId, NodeFacts, ParsedTree,
    SpecTree,
};
use vstd::set::fold::is_fun_commutative;

verus! {

/// Region vector of one node: numbers of preceding nodes, ancestors,
/// following nodes and descendants; and its 1-based postorder number.
#[derive(Debug, Clone, Copy, PartialEq, Eq)]
pub struct StructuralVector {
    pub regions: [i32; 4],
    pub postorder_id: usize,
}

/// The value of a structural vector: its regions and postorder number.
pub open spec fn sv_view(v: StructuralVector) -> (Seq<int>, int) {
    (v.regions@.map_values(|x: i32| x as int), v.postorder_id as int)
}

/// The label and structural vector of the node with facts `f` in a tree of
/// `n` nodes.
pub open spec fn fact_record(f: NodeFacts, n: int) -> (LabelId, (Seq<int>, int)) {
    (
        f.label,
        (
            seq![
                f.post_id + 1 - f.size,
                f.depth as int,
                n - (f.post_id + 1 + f.depth),
                f.size - 1,
            ],
            (f.post_id + 1) as int,
        ),
    )
}

/// Records of all nodes of a tree, in postorder.
pub open spec fn tree_records(t: crate::tree::TreeNode) -> Seq<(LabelId, (Seq<int>, int))> {
    post_facts(t, 0, 0).map_values(|f: NodeFacts| fact_record(f, size(t) as int))
}

/// The structural vectors of `recs` grouped by label, each group in the
/// order of `recs`.
pub open spec fn label_groups(recs: Seq<(LabelId, (Seq<int>, int))>) -> Map<LabelId, Seq<(Seq<int>, int)>>
    decreases recs.len(),
{
    if recs.len() == 0 {
        Map::empty()
    } else {
        let m = label_groups(recs.drop_last());
        let (l, v) = recs.last();
        m.insert(
            l,
            if m.contains_key(l) {
                m[l].push(v)
            } else {
                seq![v]
            },
        )
    }
}

/// Per label, the structural vectors of a tree's nodes, and its size.
pub struct StructuralLabelMap {
    pub tree_size: usize,
    pub label_map: VectorMap,
}

impl StructuralLabelMap {
    /// The vectors stored for each label.
    pub open spec fn groups(&self) -> Map<LabelId, Seq<StructuralVector>> {
        vector_map_contents(self.label_map)
    }

    /// `self` groups the structural vectors of the nodes of the non-empty
    /// `tree` by label, in postorder.
    pub open spec fn is_index_of(&self, tree: ParsedTree) -> bool {
        let expected = label_groups(tree_records(tree.root->Some_0));
        &&& tree.root is Some
        &&& self.tree_size == size(tree.root->Some_0)
        &&& self.groups().dom() == expected.dom()
        &&& forall|l: LabelId| #[trigger]
            self.groups().contains_key(l) ==> self.groups()[l].map_values(|v: StructuralVector| sv_view(v))
                == expected[l]
    }

    /// Finitely many labels, at most one per node; every group non-empty and
    /// at most as long as the tree; every region in `0..=tree_size` and the
    /// tree at most `2^28` nodes.
    pub open spec fn wf(&self) -> bool {
        &&& self.tree_size <= 0x1000_0000
        &&& self.groups().dom().finite()
        &&& self.groups().dom().len() <= self.tree_size
        &&& forall|l: LabelId| #[trigger]
            self.groups().contains_key(l) ==> {
                &&& 1 <= self.groups()[l].len() <= self.tree_size
                &&& forall|i: int, j: int|
                    0 <= i < self.groups()[l].len() && 0 <= j < 4 ==> 0 <= #[trigger] self.groups()[l][i].regions@[j]
                        <= self.tree_size
                &&& forall|i: int|
                    0 <= i < self.groups()[l].len() ==> #[trigger] self.groups()[l][i].postorder_id
                        <= self.tree_size
            }
    }

    /// The stored vectors of `label`, if any.
    pub fn get(&self, label: LabelId) -> (r: Option<&Vec<StructuralVector>>)
        ensures
            r is Some <==> self.groups().contains_key(label),
            r matches Some(v) ==> v@ == self.groups()[label],
    {
        self.label_map.get(label)
    }

    /// The labels present, each once, in the map's iteration order.
    pub fn labels(&self) -> (r: Vec<LabelId>)
        ensures
            r@.no_duplicates(),
            r@.to_set() == self.groups().dom(),
    {
        self.label_map.keys()
    }
}

/// L1 distance of two region vectors.
pub open spec fn l1_distance(a: Seq<i32>, b: Seq<i32>) -> int {
    abs_int(a[0] - b[0]) + abs_int(a[1] - b[1]) + abs_int(a[2] - b[2]) + abs_int(a[3] - b[3])
}

/// The L1 distance of two region vectors.
pub fn svec_l1_strict(n1: &[i32; 4], n2: &[i32; 4]) -> (r: i32)
    requires
        l1_distance(n1@, n2@) <= i32::MAX,
    ensures
        r == l1_distance(n1@, n2@),
{
    let mut acc: i64 = 0;
    let mut i: usize = 0;
    while i < 4
        invariant
            i <= 4,
            n1@.len() == 4,
            n2@.len() == 4,
            acc == (if i >= 1 {
                abs_int(n1@[0] - n2@[0])
            } else {
                0
            }) + (if i >= 2 {
                abs_int(n1@[1] - n2@[1])
            } else {
                0
            }) + (if i >= 3 {
                abs_int(n1@[2] - n2@[2])
            } else {
                0
            }) + (if i >= 4 {
                abs_int(n1@[3] - n2@[3])
            } else {
                0
            }),
        decreases 4 - i,
    {
        let d = n1[i] as i64 - n2[i] as i64;
        acc = acc + if d < 0 {
            -d
        } else {
            d
        };
        i = i + 1;
    }
    acc as i32
}

proof fn lemma_label_groups(recs: Seq<(LabelId, (Seq<int>, int))>, n: int)
    requires
        forall|i: int|
            0 <= i < recs.len() ==> {
                let v = (#[trigger] recs[i]).1;
                &&& v.0.len() == 4
                &&& forall|j: int| 0 <= j < 4 ==> 0 <= #[trigger] v.0[j] <= n
                &&& 0 <= v.1 <= n
            },
    ensures
        label_groups(recs).dom().finite(),
        label_groups(recs).dom().len() <= recs.len(),
        forall|l: LabelId| #[trigger]
            label_groups(recs).contains_key(l) ==> {
                &&& 1 <= label_groups(recs)[l].len() <= recs.len()
                &&& forall|i: int, j: int|
                    0 <= i < label_groups(recs)[l].len() && 0 <= j < 4 ==> 0 <= #[trigger] label_groups(
                        recs,
                    )[l][i].0[j] <= n
                &&& forall|i: int| 0 <= i < label_groups(recs)[l].len() ==> (#[trigger] label_groups(
                    recs,
                )[l][i]).0.len() == 4
                &&& forall|i: int| 0 <= i < label_groups(recs)[l].len() ==> 0 <= (#[trigger] label_groups(
                    recs,
                )[l][i]).1 <= n
            },
    decreases recs.len(),
{
    if recs.len() > 0 {
        lemma_label_groups(recs.drop_last(), n);
        let m = label_groups(recs.drop_last());
        let (l, v) = recs.last();
        assert(recs.drop_last().len() == recs.len() - 1);
        assert forall|lab: LabelId| #[trigger] label_groups(recs).contains_key(lab) implies {
            &&& forall|i: int, j: int|
                0 <= i < label_groups(recs)[lab].len() && 0 <= j < 4 ==> 0 <= #[trigger] label_groups(
                    recs,
                )[lab][i].0[j] <= n
            &&& forall|i: int| 0 <= i < label_groups(recs)[lab].len() ==> (#[trigger] label_groups(
                recs,
            )[lab][i]).0.len() == 4
            &&& forall|i: int| 0 <= i < label_groups(recs)[lab].len() ==> 0 <= (#[trigger] label_groups(
                recs,
            )[lab][i]).1 <= n
        } by {
            if lab == l {
                assert(recs[recs.len() - 1] == recs.last());
                if m.contains_key(l) {
                    assert forall|i: int| 0 <= i < m[l].len() implies #[trigger] m[l].push(v)[i] == m[l][i] by {}
                }
            }
        }
    }
}

/// Builds the label map of a tree from its postorder index: for every node
/// in postorder, its region vector is appended to its label's list.
fn create_record(index: &TopDiffIndex, record_labels: &mut VectorMap)
    requires
        index.wf(),
        index.tree_size <= 0x1000_0000,
        vector_map_contents(*old(record_labels)) == Map::<LabelId, Seq<StructuralVector>>::empty(),
    ensures
        ({
            let recs = index_records(*index);
            &&& vector_map_contents(*final(record_labels)).dom() == label_groups(recs).dom()
            &&& forall|l: LabelId| #[trigger]
                vector_map_contents(*final(record_labels)).contains_key(l) ==> vector_map_contents(
                    *final(record_labels),
                )[l].map_values(|v: StructuralVector| sv_view(v)) == label_groups(recs)[l]
        }),
{
    let n = index.tree_size;
    let mut p: i32 = 0;
    while p < n
        invariant
            index.wf(),
            n == index.tree_size,
            n <= 0x1000_0000,
            0 <= p <= n,
            vector_map_contents(*record_labels).dom() == label_groups(index_records(*index).take(p as int)).dom(),
            forall|l: LabelId| #[trigger]
                vector_map_contents(*record_labels).contains_key(l) ==> vector_map_contents(
                    *record_labels,
                )[l].map_values(|v: StructuralVector| sv_view(v)) == label_groups(
                    index_records(*index).take(p as int),
                )[l],
        decreases n - p,
    {
        let size = index.postl_to_size[p as usize];
        let depth = index.postl_to_depth[p as usize];
        let label = index.postl_to_label_id[p as usize];
        let sv = StructuralVector {
            regions: [p + 1 - size, depth, n - (p + 1 + depth), size - 1],
            postorder_id: (p + 1) as usize,
        };
        let ghost recs = index_records(*index);
        let ghost before = label_groups(recs.take(p as int));
        proof {
            assert(recs.take(p + 1).drop_last() =~= recs.take(p as int));
            assert(recs.take(p + 1).last() == recs[p as int]);
            assert(sv.regions@ =~= seq![(p + 1 - size) as i32, depth, (n - (p + 1 + depth)) as i32, (size - 1) as i32]);
            assert(sv_view(sv).0 =~= recs[p as int].1.0);
        }
        let list = match record_labels.remove(label) {
            Some(mut v) => {
                let ghost old_v = v@;
                v.push(sv);
                proof {
                    assert(v@.map_values(|x: StructuralVector| sv_view(x)) =~= old_v.map_values(
                        |x: StructuralVector| sv_view(x),
                    ).push(sv_view(sv)));
                }
                v
            },
            None => {
                let mut v: Vec<StructuralVector> = Vec::new();
                v.push(sv);
                proof {
                    assert(v@.map_values(|x: StructuralVector| sv_view(x)) =~= seq![sv_view(sv)]);
                }
                v
            },
        };
        record_labels.insert(label, list);
        proof {
            let now = vector_map_contents(*record_labels);
            let after = label_groups(recs.take(p + 1));
            assert(now.dom() =~= after.dom());
        }
        p = p + 1;
    }
    proof {
        assert(index_records(*index).take(n as int) =~= index_records(*index));
    }
}

/// The records that the postorder arrays of an index describe.
pub open spec fn index_records(index: TopDiffIndex) -> Seq<(LabelId, (Seq<int>, int))> {
    Seq::new(
        index.tree_size as nat,
        |p: int|
            (
                index.postl_to_label_id@[p],
                (
                    seq![
                        p + 1 - index.postl_to_size@[p],
                        index.postl_to_depth@[p] as int,
                        index.tree_size - (p + 1 + index.postl_to_depth@[p]),
                        index.postl_to_size@[p] - 1,
                    ],
                    p + 1,
                ),
            ),
    )
}

/// The records of the postorder index of a tree are the tree's records,
/// with every region within `0..=n`.
proof fn lemma_index_records(index: TopDiffIndex, tree: ParsedTree)
    requires
        index.is_index_of(tree),
        tree.root is Some,
        tree_size(tree) <= 0x1000_0000,
    ensures
        index_records(index) == tree_records(tree.root->Some_0),
        forall|i: int|
            0 <= i < index_records(index).len() ==> {
                let v = (#[trigger] index_records(index)[i]).1;
                &&& v.0.len() == 4
                &&& forall|j: int| 0 <= j < 4 ==> 0 <= #[trigger] v.0[j] <= index.tree_size
                &&& 0 <= v.1 <= index.tree_size
            },
{
    let t = tree.root->Some_0;
    let f = post_facts(t, 0, 0);
    lemma_post_facts(t, 0, 0);
    crate::sed_struct::lemma_post_id_depth(t, 0, 0);
    let n = size(t) as int;
    let a = index_records(index);
    let b = tree_records(t);
    assert(ints(index.postl_to_depth@).len() == fact_depths(f).len());
    assert(ints(index.postl_to_size@).len() == fact_sizes(f).len());
    assert(ints(index.postl_to_label_id@).len() == fact_labels(f).len());
    assert forall|i: int| 0 <= i < n implies #[trigger] a[i] == b[i] by {
        assert(ints(index.postl_to_depth@)[i] == fact_depths(f)[i]);
        assert(ints(index.postl_to_size@)[i] == fact_sizes(f)[i]);
        assert(ints(index.postl_to_label_id@)[i] == fact_labels(f)[i]);
        assert(a[i].1.0 =~= b[i].1.0);
    }
    assert(a =~= b);
}

/// The structural label map of a non-empty tree.
pub fn preprocess_tree(tree: &ParsedTree) -> (r: StructuralLabelMap)
    requires
        tree.root is Some,
        tree_size(*tree) <= 0x1000_0000,
    ensures
        r.is_index_of(*tree),
        r.wf(),
{
    let index = TopDiffIndex::from_tree(tree);
    proof {
        crate::topdiff::lemma_index_wf(index, *tree);
        lemma_index_records(index, *tree);
        lemma_label_groups(index_records(index), index.tree_size as int);
    }
    let mut record_labels = VectorMap::new();
    create_record(&index, &mut record_labels);
    let r = StructuralLabelMap { tree_size: tree.count(), label_map: record_labels };
    proof {
        let recs = index_records(index);
        let g = r.groups();
        assert forall|l: LabelId| #[trigger] g.contains_key(l) implies {
            &&& 1 <= g[l].len() <= r.tree_size
            &&& forall|i: int, j: int|
                0 <= i < g[l].len() && 0 <= j < 4 ==> 0 <= #[trigger] g[l][i].regions@[j] <= r.tree_size
            &&& forall|i: int| 0 <= i < g[l].len() ==> #[trigger] g[l][i].postorder_id <= r.tree_size
        } by {
            let gv = g[l].map_values(|v: StructuralVector| sv_view(v));
            assert(gv == label_groups(recs)[l]);
            assert forall|i: int, j: int|
                0 <= i < g[l].len() && 0 <= j < 4 implies 0 <= #[trigger] g[l][i].regions@[j] <= r.tree_size by {
                assert(gv[i] == sv_view(g[l][i]));
                assert(gv[i].0[j] == g[l][i].regions@[j] as int);
            }
            assert forall|i: int| 0 <= i < g[l].len() implies #[trigger] g[l][i].postorder_id <= r.tree_size by {
                assert(gv[i] == sv_view(g[l][i]));
            }
        }
    }
    r
}


/// First index from `j` on whose postorder number is at least `w`.
pub open spec fn skip_from(s: Seq<StructuralVector>, w: int, j: int) -> int
    decreases s.len() - j,
{
    if j >= s.len() || s[j].postorder_id >= w {
        j
    } else {
        skip_from(s, w, j + 1)
    }
}

/// First index from `j` on whose postorder number exceeds `bound`.
pub open spec fn take_until(s: Seq<StructuralVector>, bound: int, j: int) -> int
    decreases s.len() - j,
{
    if j >= s.len() || s[j].postorder_id > bound {
        j
    } else {
        take_until(s, bound, j + 1)
    }
}

/// Start of the postorder window of `n1` in `s2c`: the vectors numbered
/// below `postorder_id - k` are skipped, unless that number is not below
/// the length of `s2c`.
pub open spec fn window_start(n1: StructuralVector, s2c: Seq<StructuralVector>, k: int) -> int {
    let w = if n1.postorder_id - k > 0 {
        n1.postorder_id - k
    } else {
        0
    };
    if w < s2c.len() {
        skip_from(s2c, w, 0)
    } else {
        0
    }
}

/// Some vector of the window of `n1` (from its start, while numbered at
/// most `postorder_id + k`) is within L1 distance `k` of `n1`.
pub open spec fn has_match(n1: StructuralVector, s2c: Seq<StructuralVector>, k: int) -> bool {
    let start = window_start(n1, s2c, k);
    let end = take_until(s2c, k + n1.postorder_id, start);
    exists|j: int| start <= j < end && l1_distance(n1.regions@, s2c[j].regions@) <= k
}

/// How many of the first `m` vectors of `a` have a match in `b`.
pub open spec fn matched_count(a: Seq<StructuralVector>, b: Seq<StructuralVector>, k: int, m: int) -> int
    decreases m,
{
    if m <= 0 {
        0
    } else {
        matched_count(a, b, k, m - 1) + if has_match(a[m - 1], b, k) {
            1int
        } else {
            0int
        }
    }
}

/// The overlap of one label: for two single nodes whether they are within
/// distance `k`, else the number of vectors of the shorter list with a
/// match in the other.
pub open spec fn label_overlap(set1: Seq<StructuralVector>, set2: Seq<StructuralVector>, k: int) -> int {
    if set1.len() == 1 && set2.len() == 1 {
        if l1_distance(set1[0].regions@, set2[0].regions@) <= k {
            1
        } else {
            0
        }
    } else if set2.len() < set1.len() {
        matched_count(set2, set1, k, set2.len() as int)
    } else {
        matched_count(set1, set2, k, set1.len() as int)
    }
}

/// One label's contribution to the overlap.
pub open spec fn overlap_step(
    g1: Map<LabelId, Seq<StructuralVector>>,
    g2: Map<LabelId, Seq<StructuralVector>>,
    k: int,
) -> spec_fn(int, i32) -> int {
    |acc: int, l: i32|
        if g1.contains_key(l) && g2.contains_key(l) {
            acc + label_overlap(g1[l], g2[l], k)
        } else {
            acc
        }
}

/// Total overlap of two label maps.
pub open spec fn structural_overlap(
    g1: Map<LabelId, Seq<StructuralVector>>,
    g2: Map<LabelId, Seq<StructuralVector>>,
    k: int,
) -> int {
    g1.dom().fold(0, overlap_step(g1, g2, k))
}

proof fn lemma_matched_count(a: Seq<StructuralVector>, b: Seq<StructuralVector>, k: int, m: int)
    requires
        0 <= m,
    ensures
        0 <= matched_count(a, b, k, m) <= m,
    decreases m,
{
    if m > 0 {
        lemma_matched_count(a, b, k, m - 1);
    }
}

/// A label's overlap counts nodes of the smaller group only: it is never
/// negative and never exceeds the number of nodes that either tree has
/// with that label.
pub proof fn lemma_label_overlap_bounded(set1: Seq<StructuralVector>, set2: Seq<StructuralVector>, k: int)
    ensures
        0 <= label_overlap(set1, set2, k),
        label_overlap(set1, set2, k) <= set1.len(),
        label_overlap(set1, set2, k) <= set2.len(),
{
    lemma_matched_count(set1, set2, k, set1.len() as int);
    lemma_matched_count(set2, set1, k, set2.len() as int);
}

/// The L1 distance of two region vectors is symmetric.
proof fn lemma_l1_symmetric(a: Seq<i32>, b: Seq<i32>)
    ensures
        l1_distance(a, b) == l1_distance(b, a),
{
}

/// A label's overlap does not depend on which tree comes first when its
/// two groups differ in size or both hold a single node.
pub proof fn lemma_label_overlap_symmetric(set1: Seq<StructuralVector>, set2: Seq<StructuralVector>, k: int)
    requires
        set1.len() != set2.len() || (set1.len() == 1 && set2.len() == 1),
    ensures
        label_overlap(set1, set2, k) == label_overlap(set2, set1, k),
{
    if set1.len() == 1 && set2.len() == 1 {
        lemma_l1_symmetric(set1[0].regions@, set2[0].regions@);
    }
}

/// One label's contribution to the overlap is commutative.
proof fn lemma_overlap_step_commutes(
    g1: Map<LabelId, Seq<StructuralVector>>,
    g2: Map<LabelId, Seq<StructuralVector>>,
    k: int,
)
    ensures
        is_fun_commutative(overlap_step(g1, g2, k)),
{
    let f = overlap_step(g1, g2, k);
    assert forall|a1: i32, a2: i32, b: int| #[trigger] f(f(b, a2), a1) == f(f(b, a1), a2) by {}
}

/// The structural bound does not depend on which tree is the query when,
/// for every label of both trees, the two groups differ in size or both
/// hold a single node.
pub proof fn lemma_structural_bound_symmetric(
    query: StructuralLabelMap,
    data: StructuralLabelMap,
    threshold: usize,
    r: usize,
)
    requires
        query.wf(),
        data.wf(),
        forall|l: LabelId|
            #[trigger] query.groups().contains_key(l) && data.groups().contains_key(l) ==> query.groups()[l].len()
                != data.groups()[l].len() || (query.groups()[l].len() == 1 && data.groups()[l].len() == 1),
    ensures
        structural_overlap(query.groups(), data.groups(), threshold as int) == structural_overlap(
            data.groups(),
            query.groups(),
            threshold as int,
        ),
        structural_bound(query, data, threshold, r) == structural_bound(data, query, threshold, r),
{
    let g1 = query.groups();
    let g2 = data.groups();
    let k = threshold as int;
    let f = overlap_step(g1, g2, k);
    let g = overlap_step(g2, g1, k);
    lemma_overlap_step_commutes(g1, g2, k);
    lemma_overlap_step_commutes(g2, g1, k);
    let both = |l: i32| g1.contains_key(l) && g2.contains_key(l);
    assert forall|acc: int, l: i32| !both(l) implies #[trigger] f(acc, l) == acc by {}
    assert forall|acc: int, l: i32| !both(l) implies #[trigger] g(acc, l) == acc by {}
    crate::label_intersection::lemma_fold_skip(g1.dom(), f, both);
    crate::label_intersection::lemma_fold_skip(g2.dom(), g, both);
    assert(g1.dom().filter(both) =~= g2.dom().filter(both));
    assert forall|acc: int, l: i32| g1.dom().filter(both).contains(l) implies #[trigger] f(acc, l) == g(
        acc,
        l,
    ) by {
        lemma_label_overlap_symmetric(g1[l], g2[l], k);
    }
    crate::label_intersection::lemma_fold_congruent(g1.dom().filter(both), f, g);
}

proof fn lemma_skip_from(s: Seq<StructuralVector>, w: int, j: int)
    requires
        0 <= j <= s.len(),
    ensures
        j <= skip_from(s, w, j) <= s.len(),
    decreases s.len() - j,
{
    if j < s.len() && s[j].postorder_id < w {
        lemma_skip_from(s, w, j + 1);
    }
}

proof fn lemma_take_until(s: Seq<StructuralVector>, bound: int, j: int)
    requires
        0 <= j <= s.len(),
    ensures
        j <= take_until(s, bound, j) <= s.len(),
    decreases s.len() - j,
{
    if j < s.len() && s[j].postorder_id <= bound {
        lemma_take_until(s, bound, j + 1);
    }
}

/// Whether `n1` has a match in the window of `s2c`.
fn find_match(n1: &StructuralVector, s2c: &Vec<StructuralVector>, k: usize, Ghost(n): Ghost<int>) -> (r: bool)
    requires
        k <= i32::MAX,
        n <= 0x1000_0000,
        n1.postorder_id <= n,
        forall|j: int| 0 <= j < 4 ==> 0 <= #[trigger] n1.regions@[j] <= n,
        forall|i: int, j: int|
            0 <= i < s2c@.len() && 0 <= j < 4 ==> 0 <= #[trigger] s2c@[i].regions@[j] <= n,
    ensures
        r == has_match(*n1, s2c@, k as int),
{
    let ghost s = s2c@;
    let kw = n1.postorder_id as i64 - k as i64;
    let k_window: usize = if kw > 0 {
        kw as usize
    } else {
        0
    };
    let mut j: usize = 0;
    if k_window < s2c.len() {
        while j < s2c.len() && s2c[j].postorder_id < k_window
            invariant
                j <= s.len(),
                s == s2c@,
                skip_from(s, k_window as int, 0) == skip_from(s, k_window as int, j as int),
            decreases s.len() - j,
        {
            j = j + 1;
        }
    }
    let ghost start = j as int;
    assert(start == window_start(*n1, s, k as int));
    let bound = k + n1.postorder_id;
    proof {
        lemma_take_until(s, bound as int, start);
    }
    let mut found = false;
    while j < s2c.len() && s2c[j].postorder_id <= bound && !found
        invariant
            start <= j <= s.len(),
            s == s2c@,
            k <= i32::MAX,
            n <= 0x1000_0000,
            forall|q: int| 0 <= q < 4 ==> 0 <= #[trigger] n1.regions@[q] <= n,
            forall|i: int, q: int| 0 <= i < s.len() && 0 <= q < 4 ==> 0 <= #[trigger] s[i].regions@[q] <= n,
            take_until(s, bound as int, start) == take_until(s, bound as int, j as int),
            found ==> j < take_until(s, bound as int, start) && l1_distance(n1.regions@, s[j as int].regions@) <= k,
            !found ==> forall|q: int| start <= q < j ==> l1_distance(n1.regions@, #[trigger] s[q].regions@) > k,
        decreases s.len() - j + if found {
            0int
        } else {
            1int
        },
    {
        let d = svec_l1_strict(&n1.regions, &s2c[j].regions);
        if d <= k as i32 {
            proof {
                lemma_take_until(s, bound as int, j + 1);
            }
            found = true;
        } else {
            j = j + 1;
        }
    }
    proof {
        lemma_take_until(s, bound as int, j as int);
    }
    found
}

/// The structural lower bound at threshold `k`: `k + 1` when the sizes
/// differ by more than `k`, else the larger size minus the overlap of the
/// two label maps.
pub fn ted(s1: &StructuralLabelMap, s2: &StructuralLabelMap, k: usize) -> (r: usize)
    requires
        s1.wf(),
        s2.wf(),
        k <= i32::MAX,
    ensures
        ({
            let gap = if s1.tree_size >= s2.tree_size {
                s1.tree_size - s2.tree_size
            } else {
                s2.tree_size - s1.tree_size
            };
            let bigger = if s1.tree_size >= s2.tree_size {
                s1.tree_size
            } else {
                s2.tree_size
            };
            &&& gap > k ==> r == k + 1
            &&& gap <= k ==> r == saturating_sub(
                bigger as int,
                structural_overlap(s1.groups(), s2.groups(), k as int),
            )
        }),
{
    let bigger = if s1.tree_size >= s2.tree_size {
        s1.tree_size
    } else {
        s2.tree_size
    };
    let gap = if s1.tree_size >= s2.tree_size {
        s1.tree_size - s2.tree_size
    } else {
        s2.tree_size - s1.tree_size
    };
    if gap > k {
        return k + 1;
    }
    let ghost g1 = s1.groups();
    let ghost g2 = s2.groups();
    let ghost f = overlap_step(g1, g2, k as int);
    let ghost n = if s1.tree_size >= s2.tree_size {
        s1.tree_size as int
    } else {
        s2.tree_size as int
    };
    let keys = s1.labels();
    proof {
        assert forall|a1: i32, a2: i32, b: int| #[trigger] f(f(b, a2), a1) == f(f(b, a1), a2) by {}
        assert(is_fun_commutative(f));
        lemma_sum_over_set(keys@, f);
        keys@.unique_seq_to_set();
    }
    let mut overlap: u64 = 0;
    let mut i: usize = 0;
    while i < keys.len()
        invariant
            s1.wf(),
            s2.wf(),
            k <= i32::MAX,
            g1 == s1.groups(),
            g2 == s2.groups(),
            f == overlap_step(g1, g2, k as int),
            n == (if s1.tree_size >= s2.tree_size {
                s1.tree_size as int
            } else {
                s2.tree_size as int
            }),
            keys@.to_set() == g1.dom(),
            keys@.len() <= s1.tree_size,
            sum_over(keys@, f) == structural_overlap(g1, g2, k as int),
            i <= keys@.len(),
            overlap == sum_over(keys@.take(i as int), f),
            0 <= overlap <= i * (s1.tree_size as int),
        decreases keys@.len() - i,
    {
        let label = keys[i];
        proof {
            assert(keys@.take(i + 1).drop_last() =~= keys@.take(i as int));
            assert(keys@.to_set().contains(label));
            assert((i + 1) * (s1.tree_size as int) == i * (s1.tree_size as int) + s1.tree_size) by (nonlinear_arith);
            assert(i * (s1.tree_size as int) <= 0x1000_0000 * 0x1000_0000) by (nonlinear_arith)
                requires
                    i <= 0x1000_0000,
                    s1.tree_size <= 0x1000_0000,
            ;
        }
        let set1 = match s1.get(label) {
            Some(v) => v,
            None => {
                proof {
                    assert(false);
                }
                i = i + 1;
                continue;
            },
        };
        if let Some(set2) = s2.get(label) {
            let mut add: u64 = 0;
            if set1.len() == 1 && set2.len() == 1 {
                let d = svec_l1_strict(&set1[0].regions, &set2[0].regions);
                if d <= k as i32 {
                    add = 1;
                }
            } else {
                let (s1c, s2c) = if set2.len() < set1.len() {
                    (set2, set1)
                } else {
                    (set1, set2)
                };
                let mut m: usize = 0;
                while m < s1c.len()
                    invariant
                        m <= s1c@.len(),
                        s1c@.len() <= s1.tree_size,
                        k <= i32::MAX,
                        n <= 0x1000_0000,
                        forall|a: int, q: int|
                            0 <= a < s1c@.len() && 0 <= q < 4 ==> 0 <= #[trigger] s1c@[a].regions@[q] <= n,
                        forall|a: int, q: int|
                            0 <= a < s2c@.len() && 0 <= q < 4 ==> 0 <= #[trigger] s2c@[a].regions@[q] <= n,
                        forall|a: int| 0 <= a < s1c@.len() ==> #[trigger] s1c@[a].postorder_id <= n,
                        add == matched_count(s1c@, s2c@, k as int, m as int),
                        add <= m,
                    decreases s1c@.len() - m,
                {
                    if find_match(&s1c[m], s2c, k, Ghost(n)) {
                        add = add + 1;
                    }
                    m = m + 1;
                }
            }
            overlap = overlap + add;
        }
        i = i + 1;
    }
    proof {
        assert(keys@.take(keys@.len() as int) =~= keys@);
    }
    if overlap >= bigger as u64 {
        0
    } else {
        bigger - overlap as usize
    }
}

/// The structural lower-bound method.
pub struct StructuralLowerBoundMethod;

/// Largest tree that the structural method takes.
pub open spec fn structural_size_limit() -> int {
    0x1000_0000
}

/// What the structural bound `r` at `threshold` is: `threshold + 1` when the
/// sizes differ by more than `threshold`, else the larger size minus the
/// structural overlap (at least zero).
pub open spec fn structural_bound(
    query: StructuralLabelMap,
    data: StructuralLabelMap,
    threshold: usize,
    r: usize,
) -> bool {
    let gap = if query.tree_size >= data.tree_size {
        query.tree_size - data.tree_size
    } else {
        data.tree_size - query.tree_size
    };
    let bigger = if query.tree_size >= data.tree_size {
        query.tree_size
    } else {
        data.tree_size
    };
    &&& gap > threshold ==> r == threshold + 1
    &&& gap <= threshold ==> r == saturating_sub(
        bigger as int,
        structural_overlap(query.groups(), data.groups(), threshold as int),
    )
}

impl LowerBoundMethod for StructuralLowerBoundMethod {
    type PreprocessedDataType = StructuralLabelMap;

    open spec fn accepts(&self, data: Seq<Option<SpecTree>>) -> bool {
        nonempty_within(data, structural_size_limit())
    }

    proof fn lemma_accepts_prefix(&self, a: Seq<Option<SpecTree>>, b: Seq<Option<SpecTree>>) {
        lemma_nonempty_within_prefix(a, b, structural_size_limit());
    }

    open spec fn describes(&self, p: StructuralLabelMap, tree: ParsedTree) -> bool {
        p.is_index_of(tree)
    }

    open spec fn prepared(&self, p: StructuralLabelMap) -> bool {
        p.wf()
    }

    open spec fn supports(
        &self,
        query: StructuralLabelMap,
        data: StructuralLabelMap,
        threshold: usize,
    ) -> bool {
        threshold <= i32::MAX
    }

    open spec fn bound_holds(
        &self,
        query: StructuralLabelMap,
        data: StructuralLabelMap,
        threshold: usize,
        r: usize,
    ) -> bool {
        structural_bound(query, data, threshold, r)
    }

    /// The structural vectors of every tree of `data`, grouped by label.
    fn preprocess(&mut self, data: &[ParsedTree]) -> (r: Result<Vec<StructuralLabelMap>, String>)
        ensures
            *final(self) == *old(self),
    {
        proof {
            lemma_nonempty_within_trees(data@, structural_size_limit());
            lemma_nonempty_within_suffix(trees_view(data@), structural_size_limit());
        }
        let mut out: Vec<StructuralLabelMap> = Vec::new();
        let mut i: usize = 0;
        while i < data.len()
            invariant
                i <= data@.len(),
                forall|j: int|
                    0 <= j < data@.len() ==> (#[trigger] data@[j]).root is Some && tree_size(data@[j])
                        <= structural_size_limit(),
                out@.len() == i,
                forall|j: int| 0 <= j < i ==> (#[trigger] out@[j]).is_index_of(data@[j]) && out@[j].wf(),
            decreases data@.len() - i,
        {
            out.push(preprocess_tree(&data[i]));
            i = i + 1;
        }
        Ok(out)
    }

    /// The structural lower bound between two preprocessed trees.
    fn lower_bound(
        &self,
        query: &StructuralLabelMap,
        data: &StructuralLabelMap,
        threshold: usize,
    ) -> (r: usize) {
        ted(query, data, threshold)
    }
}

/// Creates the structural method.
pub struct StructuralLowerBoundFactory;

impl AlgorithmFactory for StructuralLowerBoundFactory {
    type AlgorithmType = StructuralLowerBoundMethod;

    /// The structural method.
    fn create_algorithm() -> StructuralLowerBoundMethod {
        StructuralLowerBoundMethod
    }
}

} // verus!
