//! Exact bounded tree edit distance by the TopDiff forest DP, with the
//! top-node pairs and an early prune supplied by SED-STRUCT structural
//! annotations.

use vstd::prelude::*;

use crate::base::{
    lemma_nonempty_within_prefix, lemma_nonempty_within_suffix, lemma_nonempty_within_trees, nonempty_within, AlgorithmFactory,
    LowerBoundMethod, TraversalKind, TraversalSelection,
};
use crate::edit_distance::edit_distance;
use crate::fx_map::{pair_index_map_contents, PairIndexMap};
use crate::sed_struct::{
    annotate, annotated_traversal, br_sed_core, cell_in_band, chars, copy_chars, diagonal_recorded, lemma_annotated_len,
    pick_traversal, post_chars, TraversalCharacter,
};
use crate::topdiff::{
    abs_int, e_max_over_left_paths, fact_depths, fact_sizes, ints, kr_paths, left_path_budget,
    lemma_index_kr_paths, lemma_rep_step_fit, lemma_subtree_distance_bounds, pack_pair, pair_key,
    relevance_lower_bound, reps_fit, reps_within_budget, topdiff_fits, TopDiffIndex, TopDiffState,
    INFINITE_COST,
};
use crate::ted::{subtree_distance, tree_edit_distance};
use crate::tree::{
    lemma_post_facts, post_facts, size, tree_size, trees_view, ParsedTree, SpecTree,
};

verus! {

/// Where the driver gets the top-node pairs that it feeds to the forest DP.
#[derive(Debug, Clone, Copy, PartialEq, Eq, Structural)]
pub enum PairSource {
    /// The k-relevant node pairs of the `|x - y| <= k` strip.
    Full,
    /// The k-relevant pairs that also pass the structural filter.
    Struct,
    /// The structurally admissible pairs of the band, swept row by row.
    StructBand,
    /// The pairs on some alignment of cost at most `k` of the structural
    /// string edit distance between the postorder sequences.
    SedAlignment,
}

/// Per-tree index: the TopDiff postorder arrays, the postorder structural
/// annotations and the two selected annotated traversals.
#[derive(Debug, Clone)]
pub struct StructDiffIndex {
    pub topdiff: TopDiffIndex,
    pub postl_struct: Vec<TraversalCharacter>,
    pub first_traversal: Vec<TraversalCharacter>,
    pub second_traversal: Vec<TraversalCharacter>,
}

impl StructDiffIndex {
    /// `self` is the index of `tree` for the traversal pair `selection`.
    pub open spec fn is_index_of(&self, tree: ParsedTree, selection: TraversalSelection) -> bool {
        &&& self.topdiff.is_index_of(tree)
        &&& match tree.root {
            None => {
                &&& self.postl_struct@.len() == 0
                &&& self.first_traversal@.len() == 0
                &&& self.second_traversal@.len() == 0
            },
            Some(t) => {
                &&& self.postl_struct@ == annotated_traversal(t, TraversalKind::Postorder)
                &&& self.first_traversal@ == annotated_traversal(t, selection.first)
                &&& self.second_traversal@ == annotated_traversal(t, selection.second)
            },
        }
    }

    /// The TopDiff arrays describe a tree and every annotated sequence has
    /// one element per node.
    pub open spec fn wf(&self) -> bool {
        &&& self.topdiff.wf()
        &&& self.postl_struct@.len() == self.topdiff.tree_size
        &&& self.first_traversal@.len() == self.topdiff.tree_size
        &&& self.second_traversal@.len() == self.topdiff.tree_size
    }

    /// Number of nodes.
    pub fn get_size(&self) -> (r: usize)
        requires
            self.topdiff.tree_size >= 0,
        ensures
            r == self.topdiff.tree_size,
    {
        self.topdiff.tree_size as usize
    }

    /// The index of `tree` for the traversal pair `selection`.
    pub fn from_tree(tree: &ParsedTree, selection: TraversalSelection) -> (r: Self)
        requires
            tree_size(*tree) <= i32::MAX,
        ensures
            r.is_index_of(*tree, selection),
            r.wf(),
            kr_paths(r.topdiff),
    {
        let topdiff = TopDiffIndex::from_tree(tree);
        proof {
            crate::topdiff::lemma_index_wf(topdiff, *tree);
            lemma_index_kr_paths(topdiff, *tree);
        }
        match &tree.root {
            None => StructDiffIndex {
                topdiff,
                postl_struct: Vec::new(),
                first_traversal: Vec::new(),
                second_traversal: Vec::new(),
            },
            Some(root) => {
                let n = tree.count();
                let buffers = annotate(root, n);
                proof {
                    lemma_annotated_len(*root, TraversalKind::Postorder);
                    lemma_annotated_len(*root, selection.first);
                    lemma_annotated_len(*root, selection.second);
                }
                StructDiffIndex {
                    topdiff,
                    postl_struct: copy_chars(&buffers.postorder),
                    first_traversal: copy_chars(pick_traversal(selection.first, &buffers)),
                    second_traversal: copy_chars(pick_traversal(selection.second, &buffers)),
                }
            },
        }
    }
}

/// The structural filter: the postorder annotations of `x` and `y` differ
/// by at most `k` in both `sum` and `diff`.
pub open spec fn struct_ok(t1: StructDiffIndex, t2: StructDiffIndex, x: int, y: int, k: int) -> bool {
    let c1 = t1.postl_struct@[x];
    let c2 = t2.postl_struct@[y];
    &&& abs_int(c1.sum - c2.sum) <= k
    &&& abs_int(c1.diff - c2.diff) <= k
}

/// `|a - b|` of two `i32` values, in `i64`.
fn abs_sub(a: i32, b: i32) -> (r: i64)
    ensures
        r == abs_int(a - b),
{
    let d = a as i64 - b as i64;
    if d < 0 {
        -d
    } else {
        d
    }
}

/// The structural filter for the node pair `(x, y)`.
pub fn struct_pair_ok(t1: &StructDiffIndex, t2: &StructDiffIndex, x: i32, y: i32, k: i32) -> (r: bool)
    requires
        0 <= x < t1.postl_struct@.len(),
        0 <= y < t2.postl_struct@.len(),
    ensures
        r == struct_ok(*t1, *t2, x as int, y as int, k as int),
{
    let c1 = t1.postl_struct[x as usize];
    let c2 = t2.postl_struct[y as usize];
    abs_sub(c1.sum, c2.sum) <= k as i64 && abs_sub(c1.diff, c2.diff) <= k as i64
}

/// The k-relevant node pairs within both trees.
pub open spec fn relevant_cells(t1: StructDiffIndex, t2: StructDiffIndex, k: int) -> spec_fn(
    int,
    int,
) -> bool {
    |x: int, y: int|
        0 <= x < t1.topdiff.tree_size && 0 <= y < t2.topdiff.tree_size && relevance_lower_bound(
            t1.topdiff,
            t2.topdiff,
            x,
            y,
        ) <= k
}

/// The k-relevant node pairs that pass the structural filter.
pub open spec fn struct_relevant_cells(t1: StructDiffIndex, t2: StructDiffIndex, k: int) -> spec_fn(
    int,
    int,
) -> bool {
    |x: int, y: int|
        0 <= x < t1.topdiff.tree_size && 0 <= y < t2.topdiff.tree_size && relevance_lower_bound(
            t1.topdiff,
            t2.topdiff,
            x,
            y,
        ) <= k && struct_ok(t1, t2, x, y, k)
}

/// Lowest column of row `x` in the `|x - y| <= k` strip.
pub open spec fn band_lo(k: int) -> spec_fn(int) -> int {
    |x: int|
        if x - k > 0 {
            x - k
        } else {
            0
        }
}

/// Highest column of row `x` in the strip, for a second tree of `n2` nodes.
pub open spec fn band_hi(n2: int, k: int) -> spec_fn(int) -> int {
    |x: int|
        if x + k < n2 - 1 {
            x + k
        } else {
            n2 - 1
        }
}

/// Representative node pairs and, for each keyroot pair met so far (by its
/// map key), the position of its representative.
pub ghost struct RepState {
    pub reps: Seq<(int, int)>,
    pub index: Map<u64, usize>,
}

/// The keyroot-pair key of the node pair `(x, y)`.
pub open spec fn cell_key(t1: StructDiffIndex, t2: StructDiffIndex, x: int, y: int) -> u64 {
    pair_key(
        t1.topdiff.postl_to_kr_ancestor@[x] as int,
        t2.topdiff.postl_to_kr_ancestor@[y] as int,
    )
}

/// Records the pair `(x, y)` under `key`: a new key gets `(x, y)` as its
/// representative, a known one has its representative raised to the larger
/// `x` and the larger `y`.
pub open spec fn rep_step(st: RepState, key: u64, x: int, y: int) -> RepState {
    if st.index.contains_key(key) {
        let p = st.index[key] as int;
        let (px, py) = st.reps[p];
        RepState {
            reps: st.reps.update(
                p,
                (
                    if x > px {
                        x
                    } else {
                        px
                    },
                    if y > py {
                        y
                    } else {
                        py
                    },
                ),
            ),
            index: st.index,
        }
    } else {
        RepState { reps: st.reps.push((x, y)), index: st.index.insert(key, st.reps.len() as usize) }
    }
}

/// Row `x` scanned from column `hi` down to column `y`, starting from `st`.
pub open spec fn scan_row(
    t1: StructDiffIndex,
    t2: StructDiffIndex,
    admitted: spec_fn(int, int) -> bool,
    st: RepState,
    x: int,
    y: int,
    hi: int,
) -> RepState
    decreases hi + 1 - y,
{
    if y > hi {
        st
    } else {
        let before = scan_row(t1, t2, admitted, st, x, y + 1, hi);
        if admitted(x, y) {
            rep_step(before, cell_key(t1, t2, x, y), x, y)
        } else {
            before
        }
    }
}

/// The rows from the last one down to row `x` scanned in turn, each from
/// column `hi(row)` down to `lo(row)`.
pub open spec fn scan_rows(
    t1: StructDiffIndex,
    t2: StructDiffIndex,
    admitted: spec_fn(int, int) -> bool,
    lo: spec_fn(int) -> int,
    hi: spec_fn(int) -> int,
    x: int,
) -> RepState
    decreases t1.topdiff.tree_size - x,
{
    if x >= t1.topdiff.tree_size {
        RepState { reps: Seq::empty(), index: Map::empty() }
    } else {
        scan_row(t1, t2, admitted, scan_rows(t1, t2, admitted, lo, hi, x + 1), x, lo(x), hi(x))
    }
}

/// The integer view of a pair vector.
pub open spec fn pairs_view(v: Seq<(i32, i32)>) -> Seq<(int, int)> {
    v.map_values(|p: (i32, i32)| (p.0 as int, p.1 as int))
}

/// The exec map and pair vector hold `st`, every position of the index is
/// a representative, and every representative lies in both trees within the
/// strip.
pub open spec fn reps_hold(
    st: RepState,
    map: PairIndexMap,
    v: Seq<(i32, i32)>,
    n1: int,
    n2: int,
    k: int,
) -> bool {
    &&& pair_index_map_contents(map) == st.index
    &&& pairs_view(v) == st.reps
    &&& forall|key: u64| #[trigger] st.index.contains_key(key) ==> st.index[key] < st.reps.len()
    &&& forall|p: int|
        0 <= p < st.reps.len() ==> {
            let (x, y) = #[trigger] st.reps[p];
            &&& 0 <= x < n1
            &&& 0 <= y < n2
            &&& -k <= x - y <= k
        }
}

/// A k-relevant pair lies in the `|x - y| <= k` strip.
proof fn lemma_relevant_in_band(t1: TopDiffIndex, t2: TopDiffIndex, x: int, y: int, k: int)
    requires
        0 <= x < t1.postl_to_size@.len(),
        0 <= y < t2.postl_to_size@.len(),
        relevance_lower_bound(t1, t2, x, y) <= k,
    ensures
        -k <= x - y <= k,
{
}

/// One recorded pair keeps the exec state in step with `rep_step`.
fn record_pair(
    key: u64,
    x: i32,
    y: i32,
    map: &mut PairIndexMap,
    v: &mut Vec<(i32, i32)>,
    Ghost(st): Ghost<RepState>,
    Ghost(n1): Ghost<int>,
    Ghost(n2): Ghost<int>,
    Ghost(k): Ghost<int>,
)
    requires
        reps_hold(st, *old(map), old(v)@, n1, n2, k),
        0 <= x < n1,
        0 <= y < n2,
        -k <= x - y <= k,
    ensures
        reps_hold(rep_step(st, key, x as int, y as int), *final(map), final(v)@, n1, n2, k),
{
    match map.get(key) {
        None => {
            let len = v.len();
            map.insert(key, len);
            v.push((x, y));
            proof {
                assert(pairs_view(v@) =~= pairs_view(old(v)@).push((x as int, y as int)));
            }
        },
        Some(idx) => {
            let (px, py) = v[idx];
            let nx = if x > px {
                x
            } else {
                px
            };
            let ny = if y > py {
                y
            } else {
                py
            };
            v.set(idx, (nx, ny));
            proof {
                assert(st.reps[idx as int] == (px as int, py as int));
                assert(pairs_view(v@) =~= st.reps.update(idx as int, (nx as int, ny as int)));
            }
        },
    }
}

/// The representatives of the keyroot pairs met in the strip, rows from
/// the last node down and columns from high to low, among the k-relevant
/// pairs (and, with `use_struct_filter`, only those passing the structural
/// filter): one per keyroot pair, with the largest `x` and the largest `y`
/// of its admitted pairs, in the order the keyroot pairs are first met.
pub fn collect_pairs(t1: &StructDiffIndex, t2: &StructDiffIndex, k: i32, use_struct_filter: bool) -> (r:
    Vec<(i32, i32)>)
    requires
        t1.wf(),
        t2.wf(),
        topdiff_fits(t1.topdiff, t2.topdiff, k as int),
    ensures
        pairs_view(r@) == scan_rows(
            *t1,
            *t2,
            if use_struct_filter {
                struct_relevant_cells(*t1, *t2, k as int)
            } else {
                relevant_cells(*t1, *t2, k as int)
            },
            band_lo(k as int),
            band_hi(t2.topdiff.tree_size as int, k as int),
            0,
        ).reps,
        forall|p: int|
            0 <= p < r@.len() ==> {
                let (x, y) = #[trigger] r@[p];
                &&& 0 <= x < t1.topdiff.tree_size
                &&& 0 <= y < t2.topdiff.tree_size
                &&& -k <= x - y <= k
            },
{
    let ghost adm = if use_struct_filter {
        struct_relevant_cells(*t1, *t2, k as int)
    } else {
        relevant_cells(*t1, *t2, k as int)
    };
    let ghost lo = band_lo(k as int);
    let ghost hi = band_hi(t2.topdiff.tree_size as int, k as int);
    let ghost n1 = t1.topdiff.tree_size as int;
    let ghost n2 = t2.topdiff.tree_size as int;
    let t1_size = t1.topdiff.tree_size;
    let t2_size = t2.topdiff.tree_size;
    let mut map = PairIndexMap::new();
    let mut kr_vector: Vec<(i32, i32)> = Vec::new();
    let mut x: i32 = t1_size - 1;
    proof {
        assert(pairs_view(kr_vector@) =~= Seq::<(int, int)>::empty());
    }
    while x >= 0
        invariant
            t1.wf(),
            t2.wf(),
            topdiff_fits(t1.topdiff, t2.topdiff, k as int),
            n1 == t1_size,
            n2 == t2_size,
            t1_size == t1.topdiff.tree_size,
            t2_size == t2.topdiff.tree_size,
            -1 <= x < t1_size,
            adm == (if use_struct_filter {
                struct_relevant_cells(*t1, *t2, k as int)
            } else {
                relevant_cells(*t1, *t2, k as int)
            }),
            lo == band_lo(k as int),
            hi == band_hi(n2, k as int),
            reps_hold(scan_rows(*t1, *t2, adm, lo, hi, x + 1), map, kr_vector@, n1, n2, k as int),
        decreases x + 1,
    {
        let x_keyroot = t1.topdiff.postl_to_kr_ancestor[x as usize];
        let mut y: i32 = if x + k <= t2_size - 1 {
            x + k
        } else {
            t2_size - 1
        };
        let y_low = if 0 >= x - k {
            0
        } else {
            x - k
        };
        let ghost row_start = scan_rows(*t1, *t2, adm, lo, hi, x + 1);
        proof {
            assert(y == hi(x as int));
            assert(y_low == lo(x as int));
        }
        while y >= y_low
            invariant
                t1.wf(),
                t2.wf(),
                topdiff_fits(t1.topdiff, t2.topdiff, k as int),
                n1 == t1_size,
                n2 == t2_size,
                t1_size == t1.topdiff.tree_size,
                t2_size == t2.topdiff.tree_size,
                0 <= x < t1_size,
                x_keyroot == t1.topdiff.postl_to_kr_ancestor@[x as int],
                adm == (if use_struct_filter {
                    struct_relevant_cells(*t1, *t2, k as int)
                } else {
                    relevant_cells(*t1, *t2, k as int)
                }),
                y_low == lo(x as int),
                0 <= y_low,
                -1 <= y < t2_size,
                y <= hi(x as int),
                y >= y_low - 1 || y == hi(x as int),
                hi == band_hi(n2, k as int),
                reps_hold(
                    scan_row(*t1, *t2, adm, row_start, x as int, y + 1, hi(x as int)),
                    map,
                    kr_vector@,
                    n1,
                    n2,
                    k as int,
                ),
            decreases y + 1,
        {
            let ghost st = scan_row(*t1, *t2, adm, row_start, x as int, y + 1, hi(x as int));
            let relevant = crate::topdiff::k_relevant(&t1.topdiff, &t2.topdiff, x, y, k);
            let admitted = relevant && (!use_struct_filter || struct_pair_ok(t1, t2, x, y, k));
            proof {
                assert(admitted == adm(x as int, y as int));
            }
            if admitted {
                proof {
                    lemma_relevant_in_band(t1.topdiff, t2.topdiff, x as int, y as int, k as int);
                }
                let key = pack_pair(x_keyroot, t2.topdiff.postl_to_kr_ancestor[y as usize]);
                record_pair(
                    key,
                    x,
                    y,
                    &mut map,
                    &mut kr_vector,
                    Ghost(st),
                    Ghost(n1),
                    Ghost(n2),
                    Ghost(k as int),
                );
            }
            y = y - 1;
        }
        x = x - 1;
    }
    proof {
        let st = scan_rows(*t1, *t2, adm, lo, hi, 0);
        assert forall|p: int| 0 <= p < kr_vector@.len() implies {
            let (x, y) = #[trigger] kr_vector@[p];
            &&& 0 <= x < t1.topdiff.tree_size
            &&& 0 <= y < t2.topdiff.tree_size
            &&& -k <= x - y <= k
        } by {
            assert(pairs_view(kr_vector@)[p] == st.reps[p]);
        }
    }
    kr_vector
}

/// `collect_pairs` without the structural filter.
pub fn collect_pairs_full(t1: &StructDiffIndex, t2: &StructDiffIndex, k: i32) -> (r: Vec<(i32, i32)>)
    requires
        t1.wf(),
        t2.wf(),
        topdiff_fits(t1.topdiff, t2.topdiff, k as int),
    ensures
        pairs_view(r@) == scan_rows(
            *t1,
            *t2,
            relevant_cells(*t1, *t2, k as int),
            band_lo(k as int),
            band_hi(t2.topdiff.tree_size as int, k as int),
            0,
        ).reps,
        forall|p: int|
            0 <= p < r@.len() ==> {
                let (x, y) = #[trigger] r@[p];
                &&& 0 <= x < t1.topdiff.tree_size
                &&& 0 <= y < t2.topdiff.tree_size
                &&& -k <= x - y <= k
            },
{
    collect_pairs(t1, t2, k, false)
}

/// `collect_pairs` with the structural filter.
pub fn collect_pairs_struct(t1: &StructDiffIndex, t2: &StructDiffIndex, k: i32) -> (r: Vec<(i32, i32)>)
    requires
        t1.wf(),
        t2.wf(),
        topdiff_fits(t1.topdiff, t2.topdiff, k as int),
    ensures
        pairs_view(r@) == scan_rows(
            *t1,
            *t2,
            struct_relevant_cells(*t1, *t2, k as int),
            band_lo(k as int),
            band_hi(t2.topdiff.tree_size as int, k as int),
            0,
        ).reps,
        forall|p: int|
            0 <= p < r@.len() ==> {
                let (x, y) = #[trigger] r@[p];
                &&& 0 <= x < t1.topdiff.tree_size
                &&& 0 <= y < t2.topdiff.tree_size
                &&& -k <= x - y <= k
            },
{
    collect_pairs(t1, t2, k, true)
}


/// For the indices of two trees of at most `2^28` nodes, every k-relevant
/// node pair passes the structural filter: the structural annotations
/// differ by no more than the relevance lower bound.
pub proof fn lemma_relevant_passes_struct_filter(
    t1: StructDiffIndex,
    t2: StructDiffIndex,
    tree1: ParsedTree,
    tree2: ParsedTree,
    s1: TraversalSelection,
    s2: TraversalSelection,
    k: int,
    x: int,
    y: int,
)
    requires
        t1.is_index_of(tree1, s1),
        t2.is_index_of(tree2, s2),
        tree_size(tree1) <= 0x1000_0000,
        tree_size(tree2) <= 0x1000_0000,
        0 <= x < t1.topdiff.tree_size,
        0 <= y < t2.topdiff.tree_size,
        relevance_lower_bound(t1.topdiff, t2.topdiff, x, y) <= k,
    ensures
        struct_ok(t1, t2, x, y, k),
{
    let r1 = tree1.root->Some_0;
    let r2 = tree2.root->Some_0;
    let f1 = post_facts(r1, 0, 0);
    let f2 = post_facts(r2, 0, 0);
    lemma_post_facts(r1, 0, 0);
    lemma_post_facts(r2, 0, 0);
    let n1 = size(r1) as int;
    let n2 = size(r2) as int;
    assert(ints(t1.topdiff.postl_to_depth@).len() == fact_depths(f1).len());
    assert(ints(t2.topdiff.postl_to_depth@).len() == fact_depths(f2).len());
    assert(ints(t1.topdiff.postl_to_size@).len() == fact_sizes(f1).len());
    assert(ints(t2.topdiff.postl_to_size@).len() == fact_sizes(f2).len());
    assert(ints(t1.topdiff.postl_to_depth@)[x] == fact_depths(f1)[x]);
    assert(ints(t2.topdiff.postl_to_depth@)[y] == fact_depths(f2)[y]);
    assert(ints(t1.topdiff.postl_to_size@)[x] == fact_sizes(f1)[x]);
    assert(ints(t2.topdiff.postl_to_size@)[y] == fact_sizes(f2)[y]);
    assert(t1.postl_struct@[x] == post_chars(f1, n1)[x]);
    assert(t2.postl_struct@[y] == post_chars(f2, n2)[y]);
    let dx = f1[x].depth as int;
    let dy = f2[y].depth as int;
    let fol_x = n1 - (x + 1 + dx);
    let fol_y = n2 - (y + 1 + dy);
    assert(t1.postl_struct@[x].sum == fol_x + dx);
    assert(t1.postl_struct@[x].diff == fol_x - dx);
    assert(t2.postl_struct@[y].sum == fol_y + dy);
    assert(t2.postl_struct@[y].diff == fol_y - dy);
    assert(t1.topdiff.postl_to_depth@[x] as int == dx);
    assert(t2.topdiff.postl_to_depth@[y] as int == dy);
    assert(t1.topdiff.tree_size as int == n1);
    assert(t2.topdiff.tree_size as int == n2);
    assert(abs_int(fol_x - fol_y) + abs_int(dx - dy) <= k);
}

/// For the indices of two trees of at most `2^28` nodes the structural
/// filter admits exactly the k-relevant pairs, so `collect_pairs` gives the
/// same representatives with and without it.
pub proof fn lemma_struct_filter_admits_all(
    t1: StructDiffIndex,
    t2: StructDiffIndex,
    tree1: ParsedTree,
    tree2: ParsedTree,
    s1: TraversalSelection,
    s2: TraversalSelection,
    k: int,
)
    requires
        t1.is_index_of(tree1, s1),
        t2.is_index_of(tree2, s2),
        tree_size(tree1) <= 0x1000_0000,
        tree_size(tree2) <= 0x1000_0000,
    ensures
        struct_relevant_cells(t1, t2, k) == relevant_cells(t1, t2, k),
{
    assert forall|x: int, y: int|
        #[trigger] struct_relevant_cells(t1, t2, k)(x, y) == relevant_cells(t1, t2, k)(x, y) by {
        if relevant_cells(t1, t2, k)(x, y) {
            lemma_relevant_passes_struct_filter(t1, t2, tree1, tree2, s1, s2, k, x, y);
        }
    }
    assert(struct_relevant_cells(t1, t2, k) =~= relevant_cells(t1, t2, k));
}


/// Records the candidate `(pa, pb)` (the other way round when `swapped`)
/// if it is k-relevant, under its keyroot pair, keeping the largest `x` and
/// the largest `y` per keyroot pair.
fn emit_pair(
    t1: &StructDiffIndex,
    t2: &StructDiffIndex,
    k: i32,
    swapped: bool,
    pa: i32,
    pb: i32,
    map: &mut PairIndexMap,
    vec: &mut Vec<(i32, i32)>,
    Ghost(st): Ghost<RepState>,
)
    requires
        t1.wf(),
        t2.wf(),
        topdiff_fits(t1.topdiff, t2.topdiff, k as int),
        swapped ==> 0 <= pb < t1.topdiff.tree_size && 0 <= pa < t2.topdiff.tree_size,
        !swapped ==> 0 <= pa < t1.topdiff.tree_size && 0 <= pb < t2.topdiff.tree_size,
        reps_hold(
            st,
            *old(map),
            old(vec)@,
            t1.topdiff.tree_size as int,
            t2.topdiff.tree_size as int,
            k as int,
        ),
    ensures
        ({
            let (x, y) = if swapped {
                (pb as int, pa as int)
            } else {
                (pa as int, pb as int)
            };
            reps_hold(
                if relevant_cells(*t1, *t2, k as int)(x, y) {
                    rep_step(st, cell_key(*t1, *t2, x, y), x, y)
                } else {
                    st
                },
                *final(map),
                final(vec)@,
                t1.topdiff.tree_size as int,
                t2.topdiff.tree_size as int,
                k as int,
            )
        }),
{
    let (x, y) = if swapped {
        (pb, pa)
    } else {
        (pa, pb)
    };
    if !crate::topdiff::k_relevant(&t1.topdiff, &t2.topdiff, x, y, k) {
        return;
    }
    proof {
        lemma_relevant_in_band(t1.topdiff, t2.topdiff, x as int, y as int, k as int);
    }
    let kx = t1.topdiff.postl_to_kr_ancestor[x as usize];
    let ky = t2.topdiff.postl_to_kr_ancestor[y as usize];
    let key = pack_pair(kx, ky);
    record_pair(
        key,
        x,
        y,
        map,
        vec,
        Ghost(st),
        Ghost(t1.topdiff.tree_size as int),
        Ghost(t2.topdiff.tree_size as int),
        Ghost(k as int),
    );
}

/// The representatives of the keyroot pairs over the structurally
/// admissible cells of the `|x - y| <= k` band of the two postorder
/// sequences, swept rows from the last node down and columns from high to
/// low, each cell passed on to `emit_pair`: the same representatives as
/// `collect_pairs_struct`.
pub fn harvest_pairs_via_sed_struct(t1: &StructDiffIndex, t2: &StructDiffIndex, k: i32) -> (r: Vec<
    (i32, i32),
>)
    requires
        t1.wf(),
        t2.wf(),
        topdiff_fits(t1.topdiff, t2.topdiff, k as int),
    ensures
        pairs_view(r@) == scan_rows(
            *t1,
            *t2,
            struct_relevant_cells(*t1, *t2, k as int),
            band_lo(k as int),
            band_hi(t2.topdiff.tree_size as int, k as int),
            0,
        ).reps,
        forall|p: int|
            0 <= p < r@.len() ==> {
                let (x, y) = #[trigger] r@[p];
                &&& 0 <= x < t1.topdiff.tree_size
                &&& 0 <= y < t2.topdiff.tree_size
                &&& -k <= x - y <= k
            },
{
    let ghost adm = struct_relevant_cells(*t1, *t2, k as int);
    let ghost lo = band_lo(k as int);
    let ghost hi = band_hi(t2.topdiff.tree_size as int, k as int);
    let ghost n1 = t1.topdiff.tree_size as int;
    let ghost n2 = t2.topdiff.tree_size as int;
    let t1_size = t1.topdiff.tree_size;
    let t2_size = t2.topdiff.tree_size;
    let mut map = PairIndexMap::new();
    let mut kr_vector: Vec<(i32, i32)> = Vec::new();
    let mut x: i32 = t1_size - 1;
    proof {
        assert(pairs_view(kr_vector@) =~= Seq::<(int, int)>::empty());
    }
    while x >= 0
        invariant
            t1.wf(),
            t2.wf(),
            topdiff_fits(t1.topdiff, t2.topdiff, k as int),
            n1 == t1_size,
            n2 == t2_size,
            t1_size == t1.topdiff.tree_size,
            t2_size == t2.topdiff.tree_size,
            -1 <= x < t1_size,
            adm == struct_relevant_cells(*t1, *t2, k as int),
            lo == band_lo(k as int),
            hi == band_hi(n2, k as int),
            reps_hold(scan_rows(*t1, *t2, adm, lo, hi, x + 1), map, kr_vector@, n1, n2, k as int),
        decreases x + 1,
    {
        let y_hi = if x + k <= t2_size - 1 {
            x + k
        } else {
            t2_size - 1
        };
        let y_lo = if 0 >= x - k {
            0
        } else {
            x - k
        };
        let mut y = y_hi;
        let ghost row_start = scan_rows(*t1, *t2, adm, lo, hi, x + 1);
        while y >= y_lo
            invariant
                t1.wf(),
                t2.wf(),
                topdiff_fits(t1.topdiff, t2.topdiff, k as int),
                n1 == t1_size,
                n2 == t2_size,
                t1_size == t1.topdiff.tree_size,
                t2_size == t2.topdiff.tree_size,
                0 <= x < t1_size,
                adm == struct_relevant_cells(*t1, *t2, k as int),
                y_lo == lo(x as int),
                0 <= y_lo,
                -1 <= y < t2_size,
                y <= hi(x as int),
                y >= y_lo - 1 || y == hi(x as int),
                hi == band_hi(n2, k as int),
                reps_hold(
                    scan_row(*t1, *t2, adm, row_start, x as int, y + 1, hi(x as int)),
                    map,
                    kr_vector@,
                    n1,
                    n2,
                    k as int,
                ),
            decreases y + 1,
        {
            let ghost st = scan_row(*t1, *t2, adm, row_start, x as int, y + 1, hi(x as int));
            if struct_pair_ok(t1, t2, x, y, k) {
                emit_pair(t1, t2, k, false, x, y, &mut map, &mut kr_vector, Ghost(st));
            }
            y = y - 1;
        }
        x = x - 1;
    }
    proof {
        let st = scan_rows(*t1, *t2, adm, lo, hi, 0);
        assert forall|p: int| 0 <= p < kr_vector@.len() implies {
            let (x, y) = #[trigger] kr_vector@[p];
            &&& 0 <= x < t1.topdiff.tree_size
            &&& 0 <= y < t2.topdiff.tree_size
            &&& -k <= x - y <= k
        } by {
            assert(pairs_view(kr_vector@)[p] == st.reps[p]);
        }
    }
    kr_vector
}

/// The cells `(row, col)` whose element pair the furthest-reaching
/// computation of `bounded_string_edit_distance_with_structure` compares,
/// in the order compared; all lie in both sequences within the band
/// `|col - row| <= k`, and the list starts with the main-diagonal cells of
/// the common prefix of matching elements and of the first mismatch after
/// it. Requires `s1` to be no longer than `s2`.
pub fn br_sed_examined_cells(
    s1: &[TraversalCharacter],
    s2: &[TraversalCharacter],
    k: usize,
) -> (r: Vec<(i32, i32)>)
    requires
        s1@.len() <= s2@.len() <= i32::MAX,
        s2@.len() - s1@.len() <= k,
        k <= i32::MAX,
    ensures
        forall|c: int|
            0 <= c < r@.len() ==> cell_in_band(
                #[trigger] r@[c],
                s1@.len() as int,
                s2@.len() as int,
                k as int,
            ),
        diagonal_recorded(r@, 0, s1@, s2@, k as int),
{
    let mut cells: Vec<(i32, i32)> = Vec::new();
    br_sed_core(s1, s2, k, true, &mut cells);
    cells
}


/// Sentinel for a structural string edit distance above the threshold.
pub const SED_INF: i32 = 268435456i32;

/// Two elements may be substituted for one another: their annotations
/// differ by at most `k` in both `sum` and `diff`.
pub open spec fn sub_compatible(c1: TraversalCharacter, c2: TraversalCharacter, k: int) -> bool {
    &&& abs_int(c1.sum - c2.sum) <= k
    &&& abs_int(c1.diff - c2.diff) <= k
}

/// Cost of substituting `c2` for `c1`: 0 for equal labels, else 1.
pub open spec fn sub_cost(c1: TraversalCharacter, c2: TraversalCharacter) -> int {
    if c1.char != c2.char {
        1
    } else {
        0
    }
}

/// Structural string edit distance between the prefixes `s1[..i]` and
/// `s2[..j]`: insertions and deletions cost 1, and substitution is allowed
/// only between compatible elements.
pub open spec fn struct_prefix_distance(
    s1: Seq<TraversalCharacter>,
    s2: Seq<TraversalCharacter>,
    k: int,
    i: int,
    j: int,
) -> int
    decreases i + j,
{
    if i <= 0 && j <= 0 {
        0
    } else if i <= 0 {
        j
    } else if j <= 0 {
        i
    } else {
        let del = struct_prefix_distance(s1, s2, k, i - 1, j) + 1;
        let ins = struct_prefix_distance(s1, s2, k, i, j - 1) + 1;
        let best = crate::edit_distance::min_int(del, ins);
        if sub_compatible(s1[i - 1], s2[j - 1], k) {
            crate::edit_distance::min_int(
                best,
                struct_prefix_distance(s1, s2, k, i - 1, j - 1) + sub_cost(s1[i - 1], s2[j - 1]),
            )
        } else {
            best
        }
    }
}

/// Structural string edit distance between the suffixes `s1[i..]` and
/// `s2[j..]`.
pub open spec fn struct_suffix_distance(
    s1: Seq<TraversalCharacter>,
    s2: Seq<TraversalCharacter>,
    k: int,
    i: int,
    j: int,
) -> int
    decreases (s1.len() - i) + (s2.len() - j),
{
    if i >= s1.len() && j >= s2.len() {
        0
    } else if i >= s1.len() {
        s2.len() - j
    } else if j >= s2.len() {
        s1.len() - i
    } else {
        let del = struct_suffix_distance(s1, s2, k, i + 1, j) + 1;
        let ins = struct_suffix_distance(s1, s2, k, i, j + 1) + 1;
        let best = crate::edit_distance::min_int(del, ins);
        if sub_compatible(s1[i], s2[j], k) {
            crate::edit_distance::min_int(
                best,
                struct_suffix_distance(s1, s2, k, i + 1, j + 1) + sub_cost(s1[i], s2[j]),
            )
        } else {
            best
        }
    }
}

/// A distance capped at the threshold: itself if at most `k`, else
/// `SED_INF`.
pub open spec fn capped(d: int, k: int) -> int {
    if d <= k {
        d
    } else {
        SED_INF as int
    }
}

proof fn lemma_prefix_nonneg(s1: Seq<TraversalCharacter>, s2: Seq<TraversalCharacter>, k: int, i: int, j: int)
    ensures
        struct_prefix_distance(s1, s2, k, i, j) >= 0,
    decreases i + j,
{
    if i > 0 && j > 0 {
        lemma_prefix_nonneg(s1, s2, k, i - 1, j);
        lemma_prefix_nonneg(s1, s2, k, i, j - 1);
        lemma_prefix_nonneg(s1, s2, k, i - 1, j - 1);
    }
}

proof fn lemma_suffix_nonneg(s1: Seq<TraversalCharacter>, s2: Seq<TraversalCharacter>, k: int, i: int, j: int)
    ensures
        struct_suffix_distance(s1, s2, k, i, j) >= 0,
    decreases (s1.len() - i) + (s2.len() - j),
{
    if i < s1.len() && j < s2.len() {
        lemma_suffix_nonneg(s1, s2, k, i + 1, j);
        lemma_suffix_nonneg(s1, s2, k, i, j + 1);
        lemma_suffix_nonneg(s1, s2, k, i + 1, j + 1);
    }
}

/// Whether two elements may be substituted, computed.
fn compatible(c1: TraversalCharacter, c2: TraversalCharacter, k: i32) -> (r: bool)
    ensures
        r == sub_compatible(c1, c2, k as int),
{
    abs_sub(c1.sum, c2.sum) <= k as i64 && abs_sub(c1.diff, c2.diff) <= k as i64
}

/// One cell of the capped DP: the smaller of a deletion, an insertion and
/// (when allowed) a substitution, from capped neighbours, capped again.
fn capped_cell(
    del_from: Option<i32>,
    ins_from: Option<i32>,
    sub_from: Option<(i32, i32)>,
    k: i32,
    Ghost(d_del): Ghost<int>,
    Ghost(d_ins): Ghost<int>,
    Ghost(d_sub): Ghost<int>,
) -> (r: i32)
    requires
        0 <= k < SED_INF,
        d_del >= 0,
        d_ins >= 0,
        d_sub >= 0,
        del_from matches Some(v) ==> v == capped(d_del, k as int),
        ins_from matches Some(v) ==> v == capped(d_ins, k as int),
        sub_from matches Some(p) ==> p.0 == capped(d_sub, k as int) && 0 <= p.1 <= 1,
        del_from is Some || ins_from is Some,
    ensures
        r == capped(
            {
                let a = if del_from is Some {
                    d_del + 1
                } else {
                    d_ins + 1
                };
                let b = if ins_from is Some {
                    crate::edit_distance::min_int(a, d_ins + 1)
                } else {
                    a
                };
                match sub_from {
                    Some(p) => crate::edit_distance::min_int(b, d_sub + p.1),
                    None => b,
                }
            },
            k as int,
        ),
{
    let mut best: i32 = SED_INF;
    if let Some(v) = del_from {
        if v + 1 < best {
            best = v + 1;
        }
    }
    if let Some(v) = ins_from {
        if v + 1 < best {
            best = v + 1;
        }
    }
    if let Some((v, c)) = sub_from {
        if v < SED_INF && v + c < best {
            best = v + c;
        }
    }
    if best > k {
        SED_INF
    } else {
        best
    }
}


/// Forward structural string-edit DP: `f[i][j]` is the structural string
/// edit distance of the prefixes `s1[..i]` and `s2[..j]`, capped at `k`.
pub fn sed_forward(s1: &[TraversalCharacter], s2: &[TraversalCharacter], k: i32) -> (f: Vec<
    Vec<i32>,
>)
    requires
        0 <= k < SED_INF,
        s1@.len() <= SED_INF,
        s2@.len() <= SED_INF,
    ensures
        f@.len() == s1@.len() + 1,
        forall|i: int| 0 <= i <= s1@.len() ==> (#[trigger] f@[i])@.len() == s2@.len() + 1,
        forall|i: int, j: int|
            0 <= i <= s1@.len() && 0 <= j <= s2@.len() ==> #[trigger] f@[i]@[j] == capped(
                struct_prefix_distance(s1@, s2@, k as int, i, j),
                k as int,
            ),
{
    let n1 = s1.len();
    let n2 = s2.len();
    let mut f: Vec<Vec<i32>> = Vec::new();
    let mut i: usize = 0;
    while i <= n1
        invariant
            n1 == s1@.len(),
            n2 == s2@.len(),
            0 <= k < SED_INF,
            n1 <= SED_INF,
            n2 <= SED_INF,
            i <= n1 + 1,
            f@.len() == i,
            forall|a: int| 0 <= a < i ==> (#[trigger] f@[a])@.len() == n2 + 1,
            forall|a: int, b: int|
                0 <= a < i && 0 <= b <= n2 ==> #[trigger] f@[a]@[b] == capped(
                    struct_prefix_distance(s1@, s2@, k as int, a, b),
                    k as int,
                ),
        decreases n1 + 1 - i,
    {
        let mut row: Vec<i32> = Vec::new();
        let mut j: usize = 0;
        while j <= n2
            invariant
                n1 == s1@.len(),
                n2 == s2@.len(),
                0 <= k < SED_INF,
                n2 <= SED_INF,
                i <= n1,
                j <= n2 + 1,
                f@.len() == i,
                forall|a: int| 0 <= a < i ==> (#[trigger] f@[a])@.len() == n2 + 1,
                forall|a: int, b: int|
                    0 <= a < i && 0 <= b <= n2 ==> #[trigger] f@[a]@[b] == capped(
                        struct_prefix_distance(s1@, s2@, k as int, a, b),
                        k as int,
                    ),
                row@.len() == j,
                forall|b: int|
                    0 <= b < j ==> #[trigger] row@[b] == capped(
                        struct_prefix_distance(s1@, s2@, k as int, i as int, b),
                        k as int,
                    ),
            decreases n2 + 1 - j,
        {
            let v = if i == 0 && j == 0 {
                0
            } else {
                let del = if i > 0 {
                    Some(f[i - 1][j])
                } else {
                    None
                };
                let ins = if j > 0 {
                    Some(row[j - 1])
                } else {
                    None
                };
                let sub = if i > 0 && j > 0 && compatible(s1[i - 1], s2[j - 1], k) {
                    Some(
                        (
                            f[i - 1][j - 1],
                            if s1[i - 1].char != s2[j - 1].char {
                                1i32
                            } else {
                                0i32
                            },
                        ),
                    )
                } else {
                    None
                };
                proof {
                    lemma_prefix_nonneg(s1@, s2@, k as int, i - 1, j as int);
                    lemma_prefix_nonneg(s1@, s2@, k as int, i as int, j - 1);
                    lemma_prefix_nonneg(s1@, s2@, k as int, i - 1, j - 1);
                }
                capped_cell(
                    del,
                    ins,
                    sub,
                    k,
                    Ghost(struct_prefix_distance(s1@, s2@, k as int, i - 1, j as int)),
                    Ghost(struct_prefix_distance(s1@, s2@, k as int, i as int, j - 1)),
                    Ghost(struct_prefix_distance(s1@, s2@, k as int, i - 1, j - 1)),
                )
            };
            row.push(v);
            j = j + 1;
        }
        f.push(row);
        i = i + 1;
    }
    f
}

/// Backward structural string-edit DP: `b[i][j]` is the structural string
/// edit distance of the suffixes `s1[i..]` and `s2[j..]`, capped at `k`.
pub fn sed_backward(s1: &[TraversalCharacter], s2: &[TraversalCharacter], k: i32) -> (b: Vec<
    Vec<i32>,
>)
    requires
        0 <= k < SED_INF,
        s1@.len() <= SED_INF,
        s2@.len() <= SED_INF,
    ensures
        b@.len() == s1@.len() + 1,
        forall|i: int| 0 <= i <= s1@.len() ==> (#[trigger] b@[i])@.len() == s2@.len() + 1,
        forall|i: int, j: int|
            0 <= i <= s1@.len() && 0 <= j <= s2@.len() ==> #[trigger] b@[i]@[j] == capped(
                struct_suffix_distance(s1@, s2@, k as int, i, j),
                k as int,
            ),
{
    let n1 = s1.len();
    let n2 = s2.len();
    let mut rows_rev: Vec<Vec<i32>> = Vec::new();
    let mut i: usize = n1 + 1;
    while i > 0
        invariant
            n1 == s1@.len(),
            n2 == s2@.len(),
            0 <= k < SED_INF,
            n1 <= SED_INF,
            n2 <= SED_INF,
            i <= n1 + 1,
            rows_rev@.len() == n1 + 1 - i,
            forall|t: int| 0 <= t < rows_rev@.len() ==> (#[trigger] rows_rev@[t])@.len() == n2 + 1,
            forall|t: int, c: int|
                0 <= t < rows_rev@.len() && 0 <= c <= n2 ==> #[trigger] rows_rev@[t]@[c]
                    == capped(struct_suffix_distance(s1@, s2@, k as int, n1 - t, c), k as int),
        decreases i,
    {
        i = i - 1;
        let mut row: Vec<i32> = Vec::new();
        let mut z: usize = 0;
        while z <= n2
            invariant
                n2 <= SED_INF,
                z <= n2 + 1,
                row@.len() == z,
            decreases n2 + 1 - z,
        {
            row.push(SED_INF);
            z = z + 1;
        }
        let mut j: usize = n2 + 1;
        while j > 0
            invariant
                n1 == s1@.len(),
                n2 == s2@.len(),
                0 <= k < SED_INF,
                i <= n1,
                j <= n2 + 1,
                rows_rev@.len() == n1 - i,
                forall|t: int| 0 <= t < rows_rev@.len() ==> (#[trigger] rows_rev@[t])@.len() == n2 + 1,
                forall|t: int, c: int|
                    0 <= t < rows_rev@.len() && 0 <= c <= n2 ==> #[trigger] rows_rev@[t]@[c]
                        == capped(struct_suffix_distance(s1@, s2@, k as int, n1 - t, c), k as int),
                row@.len() == n2 + 1,
                forall|c: int|
                    j <= c <= n2 ==> #[trigger] row@[c] == capped(
                        struct_suffix_distance(s1@, s2@, k as int, i as int, c),
                        k as int,
                    ),
            decreases j,
        {
            j = j - 1;
            let v = if i == n1 && j == n2 {
                0
            } else {
                let del = if i < n1 {
                    Some(rows_rev[n1 - i - 1][j])
                } else {
                    None
                };
                let ins = if j < n2 {
                    Some(row[j + 1])
                } else {
                    None
                };
                let sub = if i < n1 && j < n2 && compatible(s1[i], s2[j], k) {
                    Some(
                        (
                            rows_rev[n1 - i - 1][j + 1],
                            if s1[i].char != s2[j].char {
                                1i32
                            } else {
                                0i32
                            },
                        ),
                    )
                } else {
                    None
                };
                proof {
                    lemma_suffix_nonneg(s1@, s2@, k as int, i + 1, j as int);
                    lemma_suffix_nonneg(s1@, s2@, k as int, i as int, j + 1);
                    lemma_suffix_nonneg(s1@, s2@, k as int, i + 1, j + 1);
                }
                capped_cell(
                    del,
                    ins,
                    sub,
                    k,
                    Ghost(struct_suffix_distance(s1@, s2@, k as int, i + 1, j as int)),
                    Ghost(struct_suffix_distance(s1@, s2@, k as int, i as int, j + 1)),
                    Ghost(struct_suffix_distance(s1@, s2@, k as int, i + 1, j + 1)),
                )
            };
            row.set(j, v);
        }
        rows_rev.push(row);
    }
    let mut b: Vec<Vec<i32>> = Vec::new();
    while rows_rev.len() > 0
        invariant
            n1 == s1@.len(),
            n2 == s2@.len(),
            b@.len() + rows_rev@.len() == n1 + 1,
            forall|t: int| 0 <= t < rows_rev@.len() ==> (#[trigger] rows_rev@[t])@.len() == n2 + 1,
            forall|t: int, c: int|
                0 <= t < rows_rev@.len() && 0 <= c <= n2 ==> #[trigger] rows_rev@[t]@[c]
                    == capped(struct_suffix_distance(s1@, s2@, k as int, n1 - t, c), k as int),
            forall|a: int| 0 <= a < b@.len() ==> (#[trigger] b@[a])@.len() == n2 + 1,
            forall|a: int, c: int|
                0 <= a < b@.len() && 0 <= c <= n2 ==> #[trigger] b@[a]@[c] == capped(
                    struct_suffix_distance(s1@, s2@, k as int, a, c),
                    k as int,
                ),
        decreases rows_rev@.len(),
    {
        let r = rows_rev.pop().unwrap();
        b.push(r);
    }
    b
}


/// The k-relevant node pairs `(x, y)` that lie on some alignment of cost at
/// most `k` of the structural string edit distance between the postorder
/// sequences: compatible, with prefix cost plus substitution cost plus
/// suffix cost at most `k`.
pub open spec fn alignment_cells(t1: StructDiffIndex, t2: StructDiffIndex, k: int) -> spec_fn(
    int,
    int,
) -> bool {
    |x: int, y: int|
        {
            let s1 = t1.postl_struct@;
            let s2 = t2.postl_struct@;
            let before = struct_prefix_distance(s1, s2, k, x, y);
            let after = struct_suffix_distance(s1, s2, k, x + 1, y + 1);
            &&& 0 <= x < t1.topdiff.tree_size
            &&& 0 <= y < t2.topdiff.tree_size
            &&& sub_compatible(s1[x], s2[y], k)
            &&& before <= k
            &&& after <= k
            &&& before + sub_cost(s1[x], s2[y]) + after <= k
            &&& relevance_lower_bound(t1.topdiff, t2.topdiff, x, y) <= k
        }
}

/// The structural string edit distance of the two postorder sequences.
pub open spec fn postorder_sed(t1: StructDiffIndex, t2: StructDiffIndex, k: int) -> int {
    struct_prefix_distance(
        t1.postl_struct@,
        t2.postl_struct@,
        k,
        t1.postl_struct@.len() as int,
        t2.postl_struct@.len() as int,
    )
}

/// The structural string edit distance of the postorder sequences (or
/// `k + 1` when above `k`), and the representatives of the keyroot pairs of
/// the node pairs on its alignments of cost at most `k` (none when the
/// distance is above `k`), rows from the last node down and columns from
/// high to low.
pub fn sed_alignment(t1: &StructDiffIndex, t2: &StructDiffIndex, k: i32) -> (r: (i32, Vec<(i32, i32)>))
    requires
        t1.wf(),
        t2.wf(),
        topdiff_fits(t1.topdiff, t2.topdiff, k as int),
        k < SED_INF,
    ensures
        r.0 == (if postorder_sed(*t1, *t2, k as int) <= k {
            postorder_sed(*t1, *t2, k as int)
        } else {
            k + 1
        }),
        pairs_view(r.1@) == (if postorder_sed(*t1, *t2, k as int) <= k {
            scan_rows(
                *t1,
                *t2,
                alignment_cells(*t1, *t2, k as int),
                |x: int| 0,
                |x: int| t2.topdiff.tree_size - 1,
                0,
            ).reps
        } else {
            Seq::empty()
        }),
        forall|p: int|
            0 <= p < r.1@.len() ==> {
                let (x, y) = #[trigger] r.1@[p];
                &&& 0 <= x < t1.topdiff.tree_size
                &&& 0 <= y < t2.topdiff.tree_size
                &&& -k <= x - y <= k
            },
{
    let s1 = &t1.postl_struct;
    let s2 = &t2.postl_struct;
    let n1 = s1.len();
    let n2 = s2.len();
    let f = sed_forward(s1.as_slice(), s2.as_slice(), k);
    let corner = f[n1][n2];
    proof {
        lemma_prefix_nonneg(s1@, s2@, k as int, n1 as int, n2 as int);
    }
    let lb = if corner < k + 1 {
        corner
    } else {
        k + 1
    };
    if lb > k {
        let none: Vec<(i32, i32)> = Vec::new();
        proof {
            assert(pairs_view(none@) =~= Seq::<(int, int)>::empty());
        }
        return (lb, none);
    }
    let b = sed_backward(s1.as_slice(), s2.as_slice(), k);
    let ghost adm = alignment_cells(*t1, *t2, k as int);
    let ghost lo = |x: int| 0int;
    let ghost hi = |x: int| t2.topdiff.tree_size - 1;
    let ghost nn1 = t1.topdiff.tree_size as int;
    let ghost nn2 = t2.topdiff.tree_size as int;
    let mut map = PairIndexMap::new();
    let mut kr_vector: Vec<(i32, i32)> = Vec::new();
    proof {
        assert(pairs_view(kr_vector@) =~= Seq::<(int, int)>::empty());
    }
    let mut i: usize = n1;
    while i > 0
        invariant
            t1.wf(),
            t2.wf(),
            topdiff_fits(t1.topdiff, t2.topdiff, k as int),
            0 <= k < SED_INF,
            s1 == &t1.postl_struct,
            s2 == &t2.postl_struct,
            n1 == s1@.len(),
            n2 == s2@.len(),
            nn1 == n1,
            nn2 == n2,
            i <= n1,
            adm == alignment_cells(*t1, *t2, k as int),
            lo == (|x: int| 0int),
            hi == (|x: int| t2.topdiff.tree_size - 1),
            f@.len() == n1 + 1,
            forall|a: int| 0 <= a <= n1 ==> (#[trigger] f@[a])@.len() == n2 + 1,
            forall|a: int, c: int|
                0 <= a <= n1 && 0 <= c <= n2 ==> #[trigger] f@[a]@[c] == capped(
                    struct_prefix_distance(s1@, s2@, k as int, a, c),
                    k as int,
                ),
            b@.len() == n1 + 1,
            forall|a: int| 0 <= a <= n1 ==> (#[trigger] b@[a])@.len() == n2 + 1,
            forall|a: int, c: int|
                0 <= a <= n1 && 0 <= c <= n2 ==> #[trigger] b@[a]@[c] == capped(
                    struct_suffix_distance(s1@, s2@, k as int, a, c),
                    k as int,
                ),
            reps_hold(scan_rows(*t1, *t2, adm, lo, hi, i as int), map, kr_vector@, nn1, nn2, k as int),
        decreases i,
    {
        let ghost row_start = scan_rows(*t1, *t2, adm, lo, hi, i as int);
        let mut j: usize = n2;
        while j > 0
            invariant
                t1.wf(),
                t2.wf(),
                topdiff_fits(t1.topdiff, t2.topdiff, k as int),
                0 <= k < SED_INF,
                s1 == &t1.postl_struct,
                s2 == &t2.postl_struct,
                n1 == s1@.len(),
                n2 == s2@.len(),
                nn1 == n1,
                nn2 == n2,
                1 <= i <= n1,
                j <= n2,
                adm == alignment_cells(*t1, *t2, k as int),
                hi == (|x: int| t2.topdiff.tree_size - 1),
                f@.len() == n1 + 1,
                forall|a: int| 0 <= a <= n1 ==> (#[trigger] f@[a])@.len() == n2 + 1,
                forall|a: int, c: int|
                    0 <= a <= n1 && 0 <= c <= n2 ==> #[trigger] f@[a]@[c] == capped(
                        struct_prefix_distance(s1@, s2@, k as int, a, c),
                        k as int,
                    ),
                b@.len() == n1 + 1,
                forall|a: int| 0 <= a <= n1 ==> (#[trigger] b@[a])@.len() == n2 + 1,
                forall|a: int, c: int|
                    0 <= a <= n1 && 0 <= c <= n2 ==> #[trigger] b@[a]@[c] == capped(
                        struct_suffix_distance(s1@, s2@, k as int, a, c),
                        k as int,
                    ),
                reps_hold(
                    scan_row(*t1, *t2, adm, row_start, i - 1, j as int, hi(i - 1)),
                    map,
                    kr_vector@,
                    nn1,
                    nn2,
                    k as int,
                ),
            decreases j,
        {
            let ghost st = scan_row(*t1, *t2, adm, row_start, i - 1, j as int, hi(i - 1));
            let x = i - 1;
            let y = j - 1;
            let c1 = s1[x];
            let c2 = s2[y];
            proof {
                lemma_prefix_nonneg(s1@, s2@, k as int, x as int, y as int);
                lemma_suffix_nonneg(s1@, s2@, k as int, i as int, j as int);
            }
            if compatible(c1, c2, k) {
                let before = f[x][y];
                let after = b[i][j];
                if before < SED_INF && after < SED_INF {
                    let sub: i32 = if c1.char != c2.char {
                        1
                    } else {
                        0
                    };
                    if before + sub + after <= k {
                        emit_pair(t1, t2, k, false, x as i32, y as i32, &mut map, &mut kr_vector, Ghost(st));
                    }
                }
            }
            j = j - 1;
        }
        i = i - 1;
    }
    proof {
        let st = scan_rows(*t1, *t2, adm, lo, hi, 0);
        assert forall|p: int| 0 <= p < kr_vector@.len() implies {
            let (x, y) = #[trigger] kr_vector@[p];
            &&& 0 <= x < t1.topdiff.tree_size
            &&& 0 <= y < t2.topdiff.tree_size
            &&& -k <= x - y <= k
        } by {
            assert(pairs_view(kr_vector@)[p] == st.reps[p]);
        }
    }
    (lb, kr_vector)
}


/// The SED-STRUCT lower bound on the two indices at threshold `k`: `k + 1`
/// when the sizes differ by more than `k`, the first traversals' bounded
/// distance when it exceeds `k`, else the larger of the two traversals'
/// bounded distances.
pub fn sed_struct_lb(t1: &StructDiffIndex, t2: &StructDiffIndex, k: usize) -> (r: usize)
    requires
        t1.wf(),
        t2.wf(),
        k <= i32::MAX,
    ensures
        abs_int(t1.topdiff.tree_size - t2.topdiff.tree_size) > k ==> r == k + 1,
        r == k + 1 || r == usize::MAX || r <= k,
        r <= k ==> edit_distance(chars(t1.first_traversal@), chars(t2.first_traversal@)) <= r
            && edit_distance(chars(t1.second_traversal@), chars(t2.second_traversal@)) <= r,
        t1.first_traversal@ == t2.first_traversal@ && t1.second_traversal@ == t2.second_traversal@
            && t1.topdiff.tree_size == t2.topdiff.tree_size ==> r == 0,
{
    proof {
        crate::sed_struct::lemma_prefix_matches_self(t1.first_traversal@, k as int);
        crate::sed_struct::lemma_prefix_matches_self(t1.second_traversal@, k as int);
        crate::edit_distance::lemma_edit_distance_symmetric(chars(t1.first_traversal@), chars(t2.first_traversal@));
        crate::edit_distance::lemma_edit_distance_symmetric(chars(t1.second_traversal@), chars(t2.second_traversal@));
    }
    let n1 = t1.get_size();
    let n2 = t2.get_size();
    let diff = if n1 >= n2 {
        n1 - n2
    } else {
        n2 - n1
    };
    if diff > k {
        return k + 1;
    }
    let (a, b) = if t1.first_traversal.len() > t2.first_traversal.len() {
        (t2, t1)
    } else {
        (t1, t2)
    };
    let first_dist = crate::sed_struct::bounded_string_edit_distance_with_structure(
        a.first_traversal.as_slice(),
        b.first_traversal.as_slice(),
        k,
    );
    if first_dist > k {
        return first_dist;
    }
    let second_dist = crate::sed_struct::bounded_string_edit_distance_with_structure(
        a.second_traversal.as_slice(),
        b.second_traversal.as_slice(),
        k,
    );
    if first_dist >= second_dist {
        first_dist
    } else {
        second_dist
    }
}

/// Lexicographic order on pairs.
pub open spec fn pair_le(a: (i32, i32), b: (i32, i32)) -> bool {
    a.0 < b.0 || (a.0 == b.0 && a.1 <= b.1)
}

/// `slice::sort_unstable` (std) on pairs of `i32`: the same pairs, in
/// ascending lexicographic order.
#[verifier::external_body]
fn sort_pairs(v: &mut Vec<(i32, i32)>)
    ensures
        final(v)@.to_multiset() == old(v)@.to_multiset(),
        forall|i: int, j: int|
            0 <= i < j < final(v)@.len() ==> pair_le(#[trigger] final(v)@[i], #[trigger] final(v)@[j]),
{
    v.sort_unstable();
}

/// The top-node pairs that `source` supplies.
fn pairs_from(t1: &StructDiffIndex, t2: &StructDiffIndex, k: i32, source: PairSource) -> (r: Vec<
    (i32, i32),
>)
    requires
        t1.wf(),
        t2.wf(),
        topdiff_fits(t1.topdiff, t2.topdiff, k as int),
        k < SED_INF,
    ensures
        pairs_view(r@) == pair_source_reps(*t1, *t2, k as int, source),
        forall|p: int|
            0 <= p < r@.len() ==> {
                let (x, y) = #[trigger] r@[p];
                &&& 0 <= x < t1.topdiff.tree_size
                &&& 0 <= y < t2.topdiff.tree_size
                &&& -k <= x - y <= k
            },
{
    match source {
        PairSource::Full => collect_pairs_full(t1, t2, k),
        PairSource::Struct => collect_pairs_struct(t1, t2, k),
        PairSource::StructBand => harvest_pairs_via_sed_struct(t1, t2, k),
        PairSource::SedAlignment => sed_alignment(t1, t2, k).1,
    }
}

/// The representatives that `source` supplies, as specified by the
/// collecting function of that source.
pub open spec fn pair_source_reps(
    t1: StructDiffIndex,
    t2: StructDiffIndex,
    k: int,
    source: PairSource,
) -> Seq<(int, int)> {
    let n2 = t2.topdiff.tree_size as int;
    match source {
        PairSource::Full => scan_rows(t1, t2, relevant_cells(t1, t2, k), band_lo(k), band_hi(n2, k), 0).reps,
        PairSource::Struct => scan_rows(
            t1,
            t2,
            struct_relevant_cells(t1, t2, k),
            band_lo(k),
            band_hi(n2, k),
            0,
        ).reps,
        PairSource::StructBand => scan_rows(
            t1,
            t2,
            struct_relevant_cells(t1, t2, k),
            band_lo(k),
            band_hi(n2, k),
            0,
        ).reps,
        PairSource::SedAlignment => if postorder_sed(t1, t2, k) <= k {
            scan_rows(t1, t2, alignment_cells(t1, t2, k), |x: int| 0, |x: int| n2 - 1, 0).reps
        } else {
            Seq::empty()
        },
    }
}

/// Every admitted cell is a k-relevant node pair of the two trees.
pub open spec fn admits_relevant(
    t1: StructDiffIndex,
    t2: StructDiffIndex,
    admitted: spec_fn(int, int) -> bool,
    k: int,
) -> bool {
    forall|x: int, y: int| #[trigger]
        admitted(x, y) ==> 0 <= x < t1.topdiff.tree_size && 0 <= y < t2.topdiff.tree_size
            && relevance_lower_bound(t1.topdiff, t2.topdiff, x, y) <= k
}

/// Number of columns `y..=hi` of row `x` within the `|x - y| <= k` strip.
pub open spec fn strip_count(x: int, y: int, hi: int, k: int) -> int {
    let a = if y >= x - k { y } else { x - k };
    let b = if hi <= x + k { hi } else { x + k };
    if b >= a { b - a + 1 } else { 0 }
}

/// Scanning part of a row keeps the representatives fitting, adding at most
/// one per admitted column.
proof fn lemma_scan_row_fits(
    t1: StructDiffIndex,
    t2: StructDiffIndex,
    k: int,
    admitted: spec_fn(int, int) -> bool,
    st: RepState,
    x: int,
    y: int,
    hi: int,
)
    requires
        t1.wf(),
        t2.wf(),
        kr_paths(t1.topdiff),
        kr_paths(t2.topdiff),
        topdiff_fits(t1.topdiff, t2.topdiff, k),
        admits_relevant(t1, t2, admitted, k),
        reps_fit(t1.topdiff, t2.topdiff, k, st),
        st.reps.len() + strip_count(x, y, hi, k) <= usize::MAX,
    ensures
        reps_fit(t1.topdiff, t2.topdiff, k, scan_row(t1, t2, admitted, st, x, y, hi)),
        scan_row(t1, t2, admitted, st, x, y, hi).reps.len() <= st.reps.len() + strip_count(x, y, hi, k),
    decreases hi + 1 - y,
{
    if y <= hi {
        lemma_scan_row_fits(t1, t2, k, admitted, st, x, y + 1, hi);
        let before = scan_row(t1, t2, admitted, st, x, y + 1, hi);
        if admitted(x, y) {
            lemma_relevant_in_band(t1.topdiff, t2.topdiff, x, y, k);
            assert(strip_count(x, y, hi, k) == strip_count(x, y + 1, hi, k) + 1);
            lemma_rep_step_fit(t1.topdiff, t2.topdiff, k, before, x, y);
        } else {
            assert(strip_count(x, y + 1, hi, k) <= strip_count(x, y, hi, k));
        }
    }
}

/// Scanning the rows from `x` on keeps the representatives fitting, at most
/// `2k + 1` per row.
proof fn lemma_scan_rows_fits(
    t1: StructDiffIndex,
    t2: StructDiffIndex,
    k: int,
    admitted: spec_fn(int, int) -> bool,
    lo: spec_fn(int) -> int,
    hi: spec_fn(int) -> int,
    x: int,
)
    requires
        t1.wf(),
        t2.wf(),
        kr_paths(t1.topdiff),
        kr_paths(t2.topdiff),
        topdiff_fits(t1.topdiff, t2.topdiff, k),
        admits_relevant(t1, t2, admitted, k),
        (t1.topdiff.tree_size + 1) * (2 * k + 3) <= usize::MAX,
        0 <= x <= t1.topdiff.tree_size,
    ensures
        reps_fit(t1.topdiff, t2.topdiff, k, scan_rows(t1, t2, admitted, lo, hi, x)),
        scan_rows(t1, t2, admitted, lo, hi, x).reps.len() <= (t1.topdiff.tree_size - x) * (2 * k + 1),
    decreases t1.topdiff.tree_size - x,
{
    let n1 = t1.topdiff.tree_size as int;
    if x >= n1 {
        let st = scan_rows(t1, t2, admitted, lo, hi, x);
        assert(st.reps.len() == 0);
        assert(st.index == Map::<u64, usize>::empty());
    } else {
        lemma_scan_rows_fits(t1, t2, k, admitted, lo, hi, x + 1);
        let st = scan_rows(t1, t2, admitted, lo, hi, x + 1);
        assert((n1 - (x + 1)) * (2 * k + 1) + (2 * k + 1) == (n1 - x) * (2 * k + 1)) by (nonlinear_arith);
        assert((n1 - x) * (2 * k + 1) <= (n1 + 1) * (2 * k + 3)) by (nonlinear_arith)
            requires
                0 <= x < n1,
                0 <= k,
        ;
        assert(strip_count(x, lo(x), hi(x), k) <= 2 * k + 1);
        lemma_scan_row_fits(t1, t2, k, admitted, st, x, lo(x), hi(x));
    }
}

/// For indexes with keyroot paths, every top-node pair that any source
/// supplies to the bounded tree edit distance fits its error budget.
proof fn lemma_source_reps_within_budget(t1: StructDiffIndex, t2: StructDiffIndex, k: int, source: PairSource)
    requires
        t1.wf(),
        t2.wf(),
        kr_paths(t1.topdiff),
        kr_paths(t2.topdiff),
        topdiff_fits(t1.topdiff, t2.topdiff, k),
        (t1.topdiff.tree_size + 1) * (2 * k + 3) <= usize::MAX,
    ensures
        reps_within_budget(t1.topdiff, t2.topdiff, k, pair_source_reps(t1, t2, k, source)),
{
    let n2 = t2.topdiff.tree_size as int;
    let reps = pair_source_reps(t1, t2, k, source);
    match source {
        PairSource::Full => {
            lemma_scan_rows_fits(t1, t2, k, relevant_cells(t1, t2, k), band_lo(k), band_hi(n2, k), 0);
        },
        PairSource::Struct => {
            lemma_scan_rows_fits(t1, t2, k, struct_relevant_cells(t1, t2, k), band_lo(k), band_hi(n2, k), 0);
        },
        PairSource::StructBand => {
            lemma_scan_rows_fits(t1, t2, k, struct_relevant_cells(t1, t2, k), band_lo(k), band_hi(n2, k), 0);
        },
        PairSource::SedAlignment => {
            if postorder_sed(t1, t2, k) <= k {
                lemma_scan_rows_fits(
                    t1,
                    t2,
                    k,
                    alignment_cells(t1, t2, k),
                    |x: int| 0,
                    |x: int| n2 - 1,
                    0,
                );
            }
        },
    }
    assert forall|p: int| 0 <= p < reps.len() implies abs_int(
        t1.topdiff.postl_to_size@[(#[trigger] reps[p]).0] - t2.topdiff.postl_to_size@[reps[p].1],
    ) <= left_path_budget(t1.topdiff, t2.topdiff, reps[p].0, reps[p].1, k) by {
        let (a, b) = reps[p];
    }
}

/// Bounded tree edit distance by the TopDiff forest DP over the top-node
/// pairs that `source` supplies, processed in ascending order after the
/// size and SED-STRUCT prunes: a distance at most `k`, or `k + 1`. For
/// indexes with keyroot paths the result never falls below the tree edit
/// distance capped at `k + 1`, and is `k + 1` exactly when that distance
/// exceeds `k`.
pub fn ted_k_with_source(t1: &StructDiffIndex, t2: &StructDiffIndex, k: i32, source: PairSource) -> (r:
    i32)
    requires
        t1.wf(),
        t2.wf(),
        topdiff_fits(t1.topdiff, t2.topdiff, k as int),
        k < SED_INF,
        (t1.topdiff.tree_size + 1) * (2 * k + 3) <= usize::MAX,
        abs_int(t1.topdiff.tree_size - t2.topdiff.tree_size) > k || (t1.topdiff.tree_size >= 1
            && t2.topdiff.tree_size >= 1),
    ensures
        abs_int(t1.topdiff.tree_size - t2.topdiff.tree_size) > k ==> r == k + 1,
        0 <= r <= k + 1,
        kr_paths(t1.topdiff) && kr_paths(t2.topdiff) && tree_edit_distance(t1.topdiff, t2.topdiff)
            <= k ==> tree_edit_distance(t1.topdiff, t2.topdiff) <= r,
        kr_paths(t1.topdiff) && kr_paths(t2.topdiff) && tree_edit_distance(t1.topdiff, t2.topdiff)
            > k ==> r == k + 1,
{
    let ghost fits = reps_within_budget(
        t1.topdiff,
        t2.topdiff,
        k as int,
        pair_source_reps(*t1, *t2, k as int, source),
    );
    proof {
        if kr_paths(t1.topdiff) && kr_paths(t2.topdiff) {
            lemma_source_reps_within_budget(*t1, *t2, k as int, source);
        }
    }
    let t1_size = t1.topdiff.tree_size;
    let t2_size = t2.topdiff.tree_size;
    let size_diff = t1_size - t2_size;
    if size_diff > k || -size_diff > k {
        proof {
            crate::ted::lemma_size_gap_below_ted(t1.topdiff, t2.topdiff);
        }
        return k + 1;
    }
    if sed_struct_lb(t1, t2, k as usize) > k as usize {
        return k + 1;
    }
    let mut pairs = pairs_from(t1, t2, k, source);
    let ghost unsorted = pairs@;
    sort_pairs(&mut pairs);
    proof {
        unsorted.to_multiset_ensures();
        pairs@.to_multiset_ensures();
        assert forall|q: int| 0 <= q < pairs@.len() implies {
            let (px, py) = #[trigger] pairs@[q];
            &&& 0 <= px < t1.topdiff.tree_size
            &&& 0 <= py < t2.topdiff.tree_size
            &&& -k <= px - py <= k
            &&& fits ==> abs_int(t1.topdiff.postl_to_size@[px as int] - t2.topdiff.postl_to_size@[py as int])
                <= crate::topdiff::left_path_budget(t1.topdiff, t2.topdiff, px as int, py as int, k as int)
        } by {
            assert(pairs@.contains(pairs@[q]));
            assert(pairs@.to_multiset().count(pairs@[q]) > 0);
            assert(unsorted.contains(pairs@[q]));
            let u = choose|u: int| 0 <= u < unsorted.len() && unsorted[u] == pairs@[q];
            assert(pairs_view(unsorted)[u] == (pairs@[q].0 as int, pairs@[q].1 as int));
        }
    }
    let mut state = TopDiffState::new(t1_size, k);
    proof {
        assert forall|r: int, c: int|
            state.td.in_band(r, c) && c < t2.topdiff.tree_size implies #[trigger] state.td.cell(r, c)
            >= subtree_distance(t1.topdiff, t2.topdiff, r, c) by {
            lemma_subtree_distance_bounds(t1.topdiff, t2.topdiff, r, c);
        }
    }
    let mut p: usize = 0;
    while p < pairs.len()
        invariant
            p <= pairs@.len(),
            fits == reps_within_budget(
                t1.topdiff,
                t2.topdiff,
                k as int,
                pair_source_reps(*t1, *t2, k as int, source),
            ),
            fits ==> state.td_at_least(t1.topdiff, t2.topdiff),
            forall|q: int|
                0 <= q < pairs@.len() ==> fits ==> abs_int(
                    t1.topdiff.postl_to_size@[(#[trigger] pairs@[q]).0 as int]
                        - t2.topdiff.postl_to_size@[pairs@[q].1 as int],
                ) <= crate::topdiff::left_path_budget(
                    t1.topdiff,
                    t2.topdiff,
                    pairs@[q].0 as int,
                    pairs@[q].1 as int,
                    k as int,
                ),
            t1.wf(),
            t2.wf(),
            topdiff_fits(t1.topdiff, t2.topdiff, k as int),
            state.shaped_for(t1_size as int, k as int),
            t1_size == t1.topdiff.tree_size,
            forall|q: int|
                0 <= q < pairs@.len() ==> {
                    let (px, py) = #[trigger] pairs@[q];
                    &&& 0 <= px < t1.topdiff.tree_size
                    &&& 0 <= py < t2.topdiff.tree_size
                    &&& -k <= px - py <= k
                },
        decreases pairs@.len() - p,
    {
        let (x_l, y_l) = pairs[p];
        let e_max = e_max_over_left_paths(&t1.topdiff, &t2.topdiff, x_l, y_l, k);
        let d = state.tree_dist(&t1.topdiff, &t2.topdiff, x_l, y_l, k, e_max);
        proof {
            if fits {
                lemma_subtree_distance_bounds(t1.topdiff, t2.topdiff, x_l as int, y_l as int);
            }
        }
        let ghost before = state.td;
        state.td.set(x_l as usize, y_l as usize, d);
        proof {
            if fits {
                assert(d >= subtree_distance(t1.topdiff, t2.topdiff, x_l as int, y_l as int));
                assert forall|r: int, c: int|
                    state.td.in_band(r, c) && c < t2.topdiff.tree_size implies #[trigger] state.td.cell(
                        r,
                        c,
                    ) >= subtree_distance(t1.topdiff, t2.topdiff, r, c) by {
                    if r != x_l || c != y_l {
                        assert(before.cell(r, c) >= subtree_distance(t1.topdiff, t2.topdiff, r, c));
                    }
                }
            }
        }
        p = p + 1;
    }
    let result = state.td.read_at((t1_size - 1) as usize, (t2_size - 1) as usize);
    proof {
        if fits {
            assert(result >= subtree_distance(t1.topdiff, t2.topdiff, t1_size - 1, t2_size - 1));
        }
    }
    if result == INFINITE_COST || result > k as u64 {
        return k + 1;
    }
    result as i32
}

/// Bounded tree edit distance with the structural band sweep as the pair
/// source: a distance at most `k`, or `k + 1`.
pub fn ted_k_struct_diff(t1: &StructDiffIndex, t2: &StructDiffIndex, k: i32) -> (r: i32)
    requires
        t1.wf(),
        t2.wf(),
        topdiff_fits(t1.topdiff, t2.topdiff, k as int),
        k < SED_INF,
        (t1.topdiff.tree_size + 1) * (2 * k + 3) <= usize::MAX,
        abs_int(t1.topdiff.tree_size - t2.topdiff.tree_size) > k || (t1.topdiff.tree_size >= 1
            && t2.topdiff.tree_size >= 1),
    ensures
        abs_int(t1.topdiff.tree_size - t2.topdiff.tree_size) > k ==> r == k + 1,
        0 <= r <= k + 1,
        kr_paths(t1.topdiff) && kr_paths(t2.topdiff) && tree_edit_distance(t1.topdiff, t2.topdiff)
            <= k ==> tree_edit_distance(t1.topdiff, t2.topdiff) <= r,
        kr_paths(t1.topdiff) && kr_paths(t2.topdiff) && tree_edit_distance(t1.topdiff, t2.topdiff)
            > k ==> r == k + 1,
{
    ted_k_with_source(t1, t2, k, PairSource::StructBand)
}


/// The layers of the top-node-pair picture for a tree pair at threshold
/// `k`: rows are indexed by `x` (postorder id in the first tree), columns by
/// `y` (postorder id in the second tree).
#[derive(Debug, Clone)]
pub struct TopNodeMatrix {
    pub k: i32,
    pub n1: i32,
    pub n2: i32,
    /// Postorder label ids of the first tree.
    pub x_labels: Vec<i32>,
    /// Postorder label ids of the second tree.
    pub y_labels: Vec<i32>,
    /// `|x - y| <= k`.
    pub in_band: Vec<Vec<bool>>,
    /// The structural filter.
    pub struct_ok: Vec<Vec<bool>>,
    /// The k-relevance predicate.
    pub k_relevant: Vec<Vec<bool>>,
    /// Membership in the representative pairs of the chosen source.
    pub is_topnode: Vec<Vec<bool>>,
    /// The cells that the furthest-reaching SED-STRUCT computation compares
    /// on the postorder sequences.
    pub br_sed_visited: Vec<Vec<bool>>,
    /// The representative pairs of the chosen source.
    pub topnode_pairs: Vec<(i32, i32)>,
}

/// A grid of `n1` rows of `n2` cells, all `false`.
fn false_grid(n1: usize, n2: usize) -> (g: Vec<Vec<bool>>)
    ensures
        g@.len() == n1,
        forall|x: int| 0 <= x < n1 ==> (#[trigger] g@[x])@.len() == n2,
        forall|x: int, y: int| 0 <= x < n1 && 0 <= y < n2 ==> !#[trigger] g@[x]@[y],
{
    let mut g: Vec<Vec<bool>> = Vec::new();
    let mut x: usize = 0;
    while x < n1
        invariant
            x <= n1,
            g@.len() == x,
            forall|a: int| 0 <= a < x ==> (#[trigger] g@[a])@.len() == n2,
            forall|a: int, b: int| 0 <= a < x && 0 <= b < n2 ==> !#[trigger] g@[a]@[b],
        decreases n1 - x,
    {
        let mut row: Vec<bool> = Vec::new();
        let mut y: usize = 0;
        while y < n2
            invariant
                y <= n2,
                row@.len() == y,
                forall|b: int| 0 <= b < y ==> !#[trigger] row@[b],
            decreases n2 - y,
        {
            row.push(false);
            y = y + 1;
        }
        g.push(row);
        x = x + 1;
    }
    g
}

/// Row `x` of the three predicate layers: band, structural filter and
/// k-relevance.
fn predicate_rows(t1: &StructDiffIndex, t2: &StructDiffIndex, k: i32, x: i32) -> (r: (
    Vec<bool>,
    Vec<bool>,
    Vec<bool>,
))
    requires
        t1.wf(),
        t2.wf(),
        topdiff_fits(t1.topdiff, t2.topdiff, k as int),
        0 <= x < t1.topdiff.tree_size,
    ensures
        r.0@.len() == t2.topdiff.tree_size,
        r.1@.len() == t2.topdiff.tree_size,
        r.2@.len() == t2.topdiff.tree_size,
        forall|b: int| 0 <= b < t2.topdiff.tree_size ==> #[trigger] r.0@[b] == (-k <= x - b <= k),
        forall|b: int|
            0 <= b < t2.topdiff.tree_size ==> #[trigger] r.1@[b] == struct_ok(*t1, *t2, x as int, b, k as int),
        forall|b: int|
            0 <= b < t2.topdiff.tree_size ==> #[trigger] r.2@[b] == (relevance_lower_bound(
                t1.topdiff,
                t2.topdiff,
                x as int,
                b,
            ) <= k),
{
    let n2 = t2.topdiff.tree_size;
    let mut band_row: Vec<bool> = Vec::new();
    let mut struct_row: Vec<bool> = Vec::new();
    let mut relevant_row: Vec<bool> = Vec::new();
    let mut y: i32 = 0;
    while y < n2
        invariant
            t1.wf(),
            t2.wf(),
            topdiff_fits(t1.topdiff, t2.topdiff, k as int),
            n2 == t2.topdiff.tree_size,
            0 <= x < t1.topdiff.tree_size,
            0 <= y <= n2,
            band_row@.len() == y,
            struct_row@.len() == y,
            relevant_row@.len() == y,
            forall|b: int| 0 <= b < y ==> #[trigger] band_row@[b] == (-k <= x - b <= k),
            forall|b: int| 0 <= b < y ==> #[trigger] struct_row@[b] == struct_ok(*t1, *t2, x as int, b, k as int),
            forall|b: int|
                0 <= b < y ==> #[trigger] relevant_row@[b] == (relevance_lower_bound(
                    t1.topdiff,
                    t2.topdiff,
                    x as int,
                    b,
                ) <= k),
        decreases n2 - y,
    {
        band_row.push(-k <= x - y && x - y <= k);
        struct_row.push(struct_pair_ok(t1, t2, x, y, k));
        relevant_row.push(crate::topdiff::k_relevant(&t1.topdiff, &t2.topdiff, x, y, k));
        y = y + 1;
    }
    (band_row, struct_row, relevant_row)
}

/// The three predicate layers of the picture.
#[verifier::spinoff_prover]
fn predicate_layers(t1: &StructDiffIndex, t2: &StructDiffIndex, k: i32) -> (r: (
    Vec<Vec<bool>>,
    Vec<Vec<bool>>,
    Vec<Vec<bool>>,
))
    requires
        t1.wf(),
        t2.wf(),
        topdiff_fits(t1.topdiff, t2.topdiff, k as int),
    ensures
        r.0@.len() == t1.topdiff.tree_size,
        r.1@.len() == t1.topdiff.tree_size,
        r.2@.len() == t1.topdiff.tree_size,
        forall|a: int|
            0 <= a < t1.topdiff.tree_size ==> {
                &&& (#[trigger] r.0@[a])@.len() == t2.topdiff.tree_size
                &&& r.1@[a]@.len() == t2.topdiff.tree_size
                &&& r.2@[a]@.len() == t2.topdiff.tree_size
            },
        forall|a: int, b: int|
            0 <= a < t1.topdiff.tree_size && 0 <= b < t2.topdiff.tree_size ==> #[trigger] r.0@[a]@[b]
                == (-k <= a - b <= k),
        forall|a: int, b: int|
            0 <= a < t1.topdiff.tree_size && 0 <= b < t2.topdiff.tree_size ==> #[trigger] r.1@[a]@[b]
                == struct_ok(*t1, *t2, a, b, k as int),
        forall|a: int, b: int|
            0 <= a < t1.topdiff.tree_size && 0 <= b < t2.topdiff.tree_size ==> #[trigger] r.2@[a]@[b]
                == (relevance_lower_bound(t1.topdiff, t2.topdiff, a, b) <= k),
{
    let n1 = t1.topdiff.tree_size;
    let n2 = t2.topdiff.tree_size;
    let mut in_band: Vec<Vec<bool>> = Vec::new();
    let mut struct_grid: Vec<Vec<bool>> = Vec::new();
    let mut relevant_grid: Vec<Vec<bool>> = Vec::new();
    let mut x: i32 = 0;
    while x < n1
        invariant
            t1.wf(),
            t2.wf(),
            topdiff_fits(t1.topdiff, t2.topdiff, k as int),
            n1 == t1.topdiff.tree_size,
            n2 == t2.topdiff.tree_size,
            0 <= x <= n1,
            in_band@.len() == x,
            struct_grid@.len() == x,
            relevant_grid@.len() == x,
            forall|a: int|
                0 <= a < x ==> {
                    &&& (#[trigger] in_band@[a])@.len() == n2
                    &&& struct_grid@[a]@.len() == n2
                    &&& relevant_grid@[a]@.len() == n2
                },
            forall|a: int, b: int| 0 <= a < x && 0 <= b < n2 ==> #[trigger] in_band@[a]@[b] == (-k <= a - b <= k),
            forall|a: int, b: int|
                0 <= a < x && 0 <= b < n2 ==> #[trigger] struct_grid@[a]@[b] == struct_ok(*t1, *t2, a, b, k as int),
            forall|a: int, b: int|
                0 <= a < x && 0 <= b < n2 ==> #[trigger] relevant_grid@[a]@[b] == (relevance_lower_bound(
                    t1.topdiff,
                    t2.topdiff,
                    a,
                    b,
                ) <= k),
        decreases n1 - x,
    {
        let (band_row, struct_row, relevant_row) = predicate_rows(t1, t2, k, x);
        in_band.push(band_row);
        struct_grid.push(struct_row);
        relevant_grid.push(relevant_row);
        x = x + 1;
    }
    (in_band, struct_grid, relevant_grid)
}

/// The membership layer of `pairs` in an `n1` by `n2` grid.
fn membership_layer(pairs: &Vec<(i32, i32)>, n1: i32, n2: i32) -> (g: Vec<Vec<bool>>)
    requires
        0 <= n1,
        0 <= n2,
        forall|q: int|
            0 <= q < pairs@.len() ==> {
                let (px, py) = #[trigger] pairs@[q];
                &&& 0 <= px < n1
                &&& 0 <= py < n2
            },
    ensures
        g@.len() == n1,
        forall|a: int| 0 <= a < n1 ==> (#[trigger] g@[a])@.len() == n2,
        forall|a: int, b: int|
            0 <= a < n1 && 0 <= b < n2 ==> #[trigger] g@[a]@[b] == exists|q: int|
                0 <= q < pairs@.len() && #[trigger] pairs@[q] == (a as i32, b as i32),
{
    let mut g = false_grid(n1 as usize, n2 as usize);
    let mut p: usize = 0;
    while p < pairs.len()
        invariant
            p <= pairs@.len(),
            forall|q: int|
                0 <= q < pairs@.len() ==> {
                    let (px, py) = #[trigger] pairs@[q];
                    &&& 0 <= px < n1
                    &&& 0 <= py < n2
                },
            g@.len() == n1,
            forall|a: int| 0 <= a < n1 ==> (#[trigger] g@[a])@.len() == n2,
            forall|a: int, b: int|
                0 <= a < n1 && 0 <= b < n2 ==> #[trigger] g@[a]@[b] == exists|q: int|
                    0 <= q < p && #[trigger] pairs@[q] == (a as i32, b as i32),
        decreases pairs@.len() - p,
    {
        let (px, py) = pairs[p];
        let ghost before = g@;
        g[px as usize].set(py as usize, true);
        proof {
            assert forall|a: int, b: int|
                0 <= a < n1 && 0 <= b < n2 implies #[trigger] g@[a]@[b] == exists|q: int|
                    0 <= q < p + 1 && #[trigger] pairs@[q] == (a as i32, b as i32) by {
                if a == px && b == py {
                    assert(pairs@[p as int] == (a as i32, b as i32));
                } else {
                    assert(g@[a]@[b] == before[a]@[b]);
                    if exists|q: int| 0 <= q < p + 1 && #[trigger] pairs@[q] == (a as i32, b as i32) {
                        let q = choose|q: int|
                            0 <= q < p + 1 && #[trigger] pairs@[q] == (a as i32, b as i32);
                        assert(q < p);
                    }
                }
            }
        }
        p = p + 1;
    }
    g
}

/// The layer of the cells that the furthest-reaching SED-STRUCT
/// computation compares on the postorder sequences (the shorter one first);
/// empty when `k` is negative or the sizes differ by more than `k`.
fn br_sed_layer(t1: &StructDiffIndex, t2: &StructDiffIndex, k: i32) -> (g: Vec<Vec<bool>>)
    requires
        t1.wf(),
        t2.wf(),
        topdiff_fits(t1.topdiff, t2.topdiff, k as int),
    ensures
        g@.len() == t1.topdiff.tree_size,
        forall|a: int| 0 <= a < t1.topdiff.tree_size ==> (#[trigger] g@[a])@.len() == t2.topdiff.tree_size,
        forall|a: int, b: int|
            0 <= a < t1.topdiff.tree_size && 0 <= b < t2.topdiff.tree_size && #[trigger] g@[a]@[b]
                ==> -k <= a - b <= k,
{
    let n1 = t1.topdiff.tree_size;
    let n2 = t2.topdiff.tree_size;
    let mut g = false_grid(n1 as usize, n2 as usize);
    let size_diff = n1 - n2;
    if k >= 0 && -k <= size_diff && size_diff <= k {
        let swapped = t1.postl_struct.len() > t2.postl_struct.len();
        let cells = if swapped {
            br_sed_examined_cells(t2.postl_struct.as_slice(), t1.postl_struct.as_slice(), k as usize)
        } else {
            br_sed_examined_cells(t1.postl_struct.as_slice(), t2.postl_struct.as_slice(), k as usize)
        };
        let ghost na = if swapped {
            n2 as int
        } else {
            n1 as int
        };
        let ghost nb = if swapped {
            n1 as int
        } else {
            n2 as int
        };
        let mut c: usize = 0;
        while c < cells.len()
            invariant
                c <= cells@.len(),
                n1 == t1.topdiff.tree_size,
                n2 == t2.topdiff.tree_size,
                na == (if swapped {
                    n2 as int
                } else {
                    n1 as int
                }),
                nb == (if swapped {
                    n1 as int
                } else {
                    n2 as int
                }),
                forall|q: int| 0 <= q < cells@.len() ==> cell_in_band(#[trigger] cells@[q], na, nb, k as int),
                g@.len() == n1,
                forall|a: int| 0 <= a < n1 ==> (#[trigger] g@[a])@.len() == n2,
                forall|a: int, b: int| 0 <= a < n1 && 0 <= b < n2 && #[trigger] g@[a]@[b] ==> -k <= a - b <= k,
            decreases cells@.len() - c,
        {
            let (row, col) = cells[c];
            let (x, y) = if swapped {
                (col, row)
            } else {
                (row, col)
            };
            let ghost before = g@;
            g[x as usize].set(y as usize, true);
            proof {
                assert forall|a: int, b: int|
                    0 <= a < n1 && 0 <= b < n2 && #[trigger] g@[a]@[b] implies -k <= a - b <= k by {
                    if !(a == x && b == y) {
                        assert(g@[a]@[b] == before[a]@[b]);
                    }
                }
            }
            c = c + 1;
        }
    }
    g
}

/// The layers of the top-node-pair picture of `t1` against `t2` at
/// threshold `k`, the representative pairs taken from `source`.
#[verifier::spinoff_prover]
pub fn topnode_matrix(t1: &StructDiffIndex, t2: &StructDiffIndex, k: i32, source: PairSource) -> (m:
    TopNodeMatrix)
    requires
        t1.wf(),
        t2.wf(),
        topdiff_fits(t1.topdiff, t2.topdiff, k as int),
        k < SED_INF,
    ensures
        m.k == k,
        m.n1 == t1.topdiff.tree_size,
        m.n2 == t2.topdiff.tree_size,
        m.x_labels@ == t1.topdiff.postl_to_label_id@,
        m.y_labels@ == t2.topdiff.postl_to_label_id@,
        pairs_view(m.topnode_pairs@) == pair_source_reps(*t1, *t2, k as int, source),
        m.in_band@.len() == m.n1,
        m.struct_ok@.len() == m.n1,
        m.k_relevant@.len() == m.n1,
        m.is_topnode@.len() == m.n1,
        m.br_sed_visited@.len() == m.n1,
        forall|x: int|
            0 <= x < m.n1 ==> {
                &&& (#[trigger] m.in_band@[x])@.len() == m.n2
                &&& m.struct_ok@[x]@.len() == m.n2
                &&& m.k_relevant@[x]@.len() == m.n2
                &&& m.is_topnode@[x]@.len() == m.n2
                &&& m.br_sed_visited@[x]@.len() == m.n2
            },
        forall|x: int, y: int|
            0 <= x < m.n1 && 0 <= y < m.n2 ==> #[trigger] m.in_band@[x]@[y] == (-k <= x - y <= k),
        forall|x: int, y: int|
            0 <= x < m.n1 && 0 <= y < m.n2 ==> #[trigger] m.struct_ok@[x]@[y] == struct_ok(*t1, *t2, x, y, k as int),
        forall|x: int, y: int|
            0 <= x < m.n1 && 0 <= y < m.n2 ==> #[trigger] m.k_relevant@[x]@[y] == (relevance_lower_bound(
                t1.topdiff,
                t2.topdiff,
                x,
                y,
            ) <= k),
        forall|x: int, y: int|
            0 <= x < m.n1 && 0 <= y < m.n2 ==> #[trigger] m.is_topnode@[x]@[y] == exists|p: int|
                0 <= p < m.topnode_pairs@.len() && #[trigger] m.topnode_pairs@[p] == (x as i32, y as i32),
        forall|x: int, y: int|
            0 <= x < m.n1 && 0 <= y < m.n2 && #[trigger] m.br_sed_visited@[x]@[y] ==> -k <= x - y <= k,
{
    let n1 = t1.topdiff.tree_size;
    let n2 = t2.topdiff.tree_size;
    let (in_band, struct_grid, relevant_grid) = predicate_layers(t1, t2, k);
    let topnode_pairs = pairs_from(t1, t2, k, source);
    let is_topnode = membership_layer(&topnode_pairs, n1, n2);
    let br_sed_visited = br_sed_layer(t1, t2, k);
    TopNodeMatrix {
        k,
        n1,
        n2,
        x_labels: crate::tree::copy_vec(&t1.topdiff.postl_to_label_id),
        y_labels: crate::tree::copy_vec(&t2.topdiff.postl_to_label_id),
        in_band,
        struct_ok: struct_grid,
        k_relevant: relevant_grid,
        is_topnode,
        br_sed_visited,
        topnode_pairs,
    }
}

/// The SED-STRUCT-DIFF method: exact bounded tree edit distance with the
/// selected pair of traversals for the structural prune.
pub struct StructDiffAlgorithm {
    pub traversal_selection: TraversalSelection,
}

impl StructDiffAlgorithm {
    /// A method over the traversals `first` and `second`.
    pub fn new(first: TraversalKind, second: TraversalKind) -> (r: Self)
        ensures
            r.traversal_selection == (TraversalSelection { first, second }),
    {
        StructDiffAlgorithm { traversal_selection: TraversalSelection { first, second } }
    }

    /// The default selection: preorder first, postorder second.
    pub fn default() -> (r: Self)
        ensures
            r.traversal_selection == TraversalSelection::spec_default(),
    {
        StructDiffAlgorithm { traversal_selection: TraversalSelection::default() }
    }
}

/// Largest tree that the bounded distance takes.
pub open spec fn struct_diff_size_limit() -> int {
    0x1000_0000
}

impl LowerBoundMethod for StructDiffAlgorithm {
    type PreprocessedDataType = StructDiffIndex;

    open spec fn accepts(&self, data: Seq<Option<SpecTree>>) -> bool {
        nonempty_within(data, struct_diff_size_limit())
    }

    proof fn lemma_accepts_prefix(&self, a: Seq<Option<SpecTree>>, b: Seq<Option<SpecTree>>) {
        lemma_nonempty_within_prefix(a, b, struct_diff_size_limit());
    }

    open spec fn describes(&self, p: StructDiffIndex, tree: ParsedTree) -> bool {
        p.is_index_of(tree, self.traversal_selection)
    }

    open spec fn prepared(&self, p: StructDiffIndex) -> bool {
        &&& p.wf()
        &&& kr_paths(p.topdiff)
        &&& 1 <= p.topdiff.tree_size <= struct_diff_size_limit()
    }

    open spec fn supports(&self, query: StructDiffIndex, data: StructDiffIndex, threshold: usize) -> bool {
        &&& topdiff_fits(query.topdiff, data.topdiff, threshold as int)
        &&& threshold < SED_INF
        &&& (query.topdiff.tree_size + 1) * (2 * threshold + 3) <= usize::MAX
    }

    /// At most `threshold + 1`, never below the tree edit distance when that
    /// is at most `threshold`, and `threshold + 1` when it exceeds
    /// `threshold` (so also when the sizes differ by more).
    open spec fn bound_holds(
        &self,
        query: StructDiffIndex,
        data: StructDiffIndex,
        threshold: usize,
        r: usize,
    ) -> bool {
        let ted = tree_edit_distance(query.topdiff, data.topdiff);
        &&& abs_int(query.topdiff.tree_size - data.topdiff.tree_size) > threshold ==> r == threshold + 1
        &&& r <= threshold + 1
        &&& ted <= threshold ==> ted <= r
        &&& ted > threshold ==> r == threshold + 1
    }

    /// The index of every tree of `data`.
    fn preprocess(&mut self, data: &[ParsedTree]) -> (r: Result<Vec<StructDiffIndex>, String>)
        ensures
            *final(self) == *old(self),
    {
        proof {
            lemma_nonempty_within_trees(data@, struct_diff_size_limit());
            lemma_nonempty_within_suffix(trees_view(data@), struct_diff_size_limit());
        }
        let sel = self.traversal_selection;
        let mut out: Vec<StructDiffIndex> = Vec::new();
        let mut i: usize = 0;
        while i < data.len()
            invariant
                i <= data@.len(),
                forall|j: int|
                    0 <= j < data@.len() ==> (#[trigger] data@[j]).root is Some && tree_size(data@[j])
                        <= struct_diff_size_limit(),
                out@.len() == i,
                forall|j: int|
                    0 <= j < i ==> (#[trigger] out@[j]).is_index_of(data@[j], sel) && out@[j].wf()
                        && kr_paths(out@[j].topdiff) && 1 <= out@[j].topdiff.tree_size
                        <= struct_diff_size_limit(),
            decreases data@.len() - i,
        {
            out.push(StructDiffIndex::from_tree(&data[i], sel));
            i = i + 1;
        }
        Ok(out)
    }

    /// The bounded tree edit distance of two preprocessed trees: the distance
    /// when it is at most `threshold`, else `threshold + 1`.
    fn lower_bound(
        &self,
        query: &StructDiffIndex,
        data: &StructDiffIndex,
        threshold: usize,
    ) -> (r: usize) {
        let d = ted_k_struct_diff(query, data, threshold as i32);
        d as usize
    }
}

/// Creates the SED-STRUCT-DIFF method with its default traversals.
pub struct StructDiffFactory;

impl AlgorithmFactory for StructDiffFactory {
    type AlgorithmType = StructDiffAlgorithm;

    /// The method with the default traversal selection.
    fn create_algorithm() -> (r: StructDiffAlgorithm)
        ensures
            r.traversal_selection == TraversalSelection::spec_default(),
    {
        StructDiffAlgorithm::default()
    }
}

} // verus!
