use std::collections::HashSet;

use ted_search::band_matrix::BandMatrix;
use ted_search::base::{AlgorithmFactory, LowerBoundMethod, TraversalSelection};
use ted_search::label_dict::LabelDict;
use ted_search::parsing::parse_single;
use ted_search::sed_struct::TraversalCharacter;
use ted_search::struct_diff::{
    br_sed_examined_cells, collect_pairs_full, collect_pairs_struct, harvest_pairs_via_sed_struct, sed_forward,
    struct_pair_ok, ted_k_struct_diff, ted_k_with_source, topnode_matrix, PairSource,
    StructDiffFactory, StructDiffIndex,
};
use ted_search::topdiff::{e_budget, k_relevant, TopDiffState, INFINITE_COST};
use ted_search::tree::{ParsedTree, TreeNode};

fn pt(s: &str, dict: &mut LabelDict) -> ParsedTree {
    parse_single(s.to_string(), dict)
}

fn build(s: &str) -> StructDiffIndex {
    let mut dict = LabelDict::new();
    StructDiffIndex::from_tree(&pt(s, &mut dict), TraversalSelection::default())
}

fn sorted(v: &[i32]) -> Vec<i32> {
    let mut v = v.to_vec();
    v.sort_unstable();
    v
}

#[test]
fn lib_from_tree_single_node() {
    let idx = build("{a}");
    assert_eq!(idx.topdiff.tree_size, 1);
    assert_eq!(idx.topdiff.postl_to_size, vec![1]);
    assert_eq!(idx.topdiff.postl_to_depth, vec![0]);
    assert_eq!(idx.topdiff.postl_to_lch, vec![-1]);
    assert_eq!(idx.topdiff.list_kr, vec![0]);
    assert_eq!(idx.topdiff.postl_to_kr_ancestor, vec![0]);
}

#[test]
fn lib_from_tree_two_leaves() {
    let idx = build("{a{b}{c}}");
    assert_eq!(idx.topdiff.tree_size, 3);
    assert_eq!(idx.topdiff.postl_to_size, vec![1, 1, 3]);
    assert_eq!(idx.topdiff.postl_to_depth, vec![1, 1, 0]);
    assert_eq!(idx.topdiff.postl_to_lch, vec![-1, -1, 0]);
    assert_eq!(sorted(&idx.topdiff.list_kr), vec![1, 2]);
    assert_eq!(idx.topdiff.postl_to_kr_ancestor, vec![2, 1, 2]);
}

#[test]
fn lib_from_tree_nested() {
    let idx = build("{a{b{d}}{c}}");
    assert_eq!(idx.topdiff.tree_size, 4);
    assert_eq!(idx.topdiff.postl_to_size, vec![1, 2, 1, 4]);
    assert_eq!(idx.topdiff.postl_to_depth, vec![2, 1, 1, 0]);
    assert_eq!(idx.topdiff.postl_to_lch, vec![-1, 0, -1, 1]);
    assert_eq!(sorted(&idx.topdiff.list_kr), vec![2, 3]);
    assert_eq!(idx.topdiff.postl_to_kr_ancestor, vec![3, 3, 2, 3]);
}

#[test]
fn postorder_struct_matches_sed_struct() {
    let idx = build("{a{b}{c}}");
    assert_eq!(
        idx.postl_struct[0],
        TraversalCharacter {
            char: idx.postl_struct[0].char,
            sum: 2,
            diff: 0
        }
    );
    assert_eq!(idx.postl_struct[1].sum, 1);
    assert_eq!(idx.postl_struct[1].diff, -1);
    assert_eq!(idx.postl_struct[2].sum, 0);
    assert_eq!(idx.postl_struct[2].diff, 0);
}

const INF: f64 = f64::INFINITY;

#[test]
fn lib_band_matrix_translate_and_fill() {
    let mut m = BandMatrix::new(5, 4, INF);
    assert_eq!(m.read_at(2, 3), INF);
    m.set(2, 3, 7.0);
    assert_eq!(m.read_at(2, 3), 7.0);
    assert_eq!(*m.at(2, 3), 7.0);

    let mut z = BandMatrix::new(1, 0, INF);
    assert_eq!(z.read_at(0, 0), INF);
    z.set(0, 0, 3.5);
    assert_eq!(z.read_at(0, 0), 3.5);
}

/// A distance as a float, the unbounded cost as infinity.
fn as_float(c: u64) -> f64 {
    if c == INFINITE_COST {
        INF
    } else {
        c as f64
    }
}

fn tree_dist_roots(s1: &str, s2: &str, k: i32, e: i32) -> f64 {
    let mut dict = LabelDict::new();
    let sel = TraversalSelection::default();
    let t1 = StructDiffIndex::from_tree(&pt(s1, &mut dict), sel);
    let t2 = StructDiffIndex::from_tree(&pt(s2, &mut dict), sel);
    let mut state = TopDiffState::new(t1.topdiff.tree_size, k);
    let x = t1.topdiff.tree_size - 1;
    let y = t2.topdiff.tree_size - 1;
    as_float(state.tree_dist(&t1.topdiff, &t2.topdiff, x, y, k, e))
}

#[test]
fn tree_dist_basic() {
    assert_eq!(tree_dist_roots("{a}", "{a}", 4, 4), 0.0);
    assert_eq!(tree_dist_roots("{a}", "{b}", 4, 4), 1.0);
    assert_eq!(tree_dist_roots("{a{b}}", "{a}", 4, 4), 1.0);
}

#[test]
fn lib_e_budget_and_k_relevant() {
    let t1 = build("{a{b}{c}}");
    assert_eq!(e_budget(&t1.topdiff, &t1.topdiff, 2, 2, 5), 5);
    assert!(k_relevant(&t1.topdiff, &t1.topdiff, 2, 2, 5));

    let mut dict = LabelDict::new();
    let sel = TraversalSelection::default();
    let a = StructDiffIndex::from_tree(&pt("{a{b}{c}}", &mut dict), sel);
    let b = StructDiffIndex::from_tree(&pt("{a{b{d}}{c}}", &mut dict), sel);
    assert_eq!(e_budget(&a.topdiff, &b.topdiff, 0, 3, 0), -2);
    assert!(!k_relevant(&a.topdiff, &b.topdiff, 0, 3, 0));
}

fn ted_pair(s1: &str, s2: &str, k: i32) -> i32 {
    let mut dict = LabelDict::new();
    let sel = TraversalSelection::default();
    let t1 = StructDiffIndex::from_tree(&pt(s1, &mut dict), sel);
    let t2 = StructDiffIndex::from_tree(&pt(s2, &mut dict), sel);
    ted_k_struct_diff(&t1, &t2, k)
}

#[test]
fn lib_ted_k_cases() {
    assert_eq!(ted_pair("{a{b}{c}}", "{a{b}{c}}", 5), 0);
    assert_eq!(ted_pair("{a{b}{c}}", "{a{b}{x}}", 5), 1);
    assert_eq!(ted_pair("{a}", "{a{b}{c}{d}}", 1), 2);
    assert_eq!(ted_pair("{a{b}{c}}", "{x{y}{z}}", 2), 3);
    assert_eq!(ted_pair("{a{b}{c}}", "{x{y}{z}}", 5), 3);
}

/// Deterministic LCG for seeded random tree generation.
struct Lcg(u64);
impl Lcg {
    fn next(&mut self) -> u64 {
        // Numerical Recipes constants.
        self.0 = self
            .0
            .wrapping_mul(6364136223846793005)
            .wrapping_add(1442695040888963407);
        self.0
    }
    fn range(&mut self, n: usize) -> usize {
        (self.next() >> 33) as usize % n
    }
}

/// Build a random bracket-notation tree with up to `max_nodes` nodes from a
/// small label alphabet.
fn random_tree(rng: &mut Lcg, max_nodes: usize) -> String {
    let labels = ["a", "b", "c", "d"];
    let target = 1 + rng.range(max_nodes);
    let mut remaining = target - 1;
    fn build(rng: &mut Lcg, labels: &[&str], remaining: &mut usize) -> String {
        let mut s = String::from("{");
        s.push_str(labels[rng.range(labels.len())]);
        while *remaining > 0 {
            if rng.range(2) == 0 {
                break;
            }
            *remaining -= 1;
            s.push_str(&build(rng, labels, remaining));
        }
        s.push('}');
        s
    }
    build(rng, &labels, &mut remaining)
}

/// Postorder data needed by the Zhang-Shasha oracle: label ids, leftmost
/// leaf descendants, and keyroots (all 0-based postorder ids).
struct ZsInfo {
    labels: Vec<i32>,
    lmld: Vec<usize>,
    keyroots: Vec<usize>,
}

fn zs_info(tree: &ParsedTree) -> ZsInfo {
    fn rec(node: &TreeNode, labels: &mut Vec<i32>, lmld: &mut Vec<usize>) -> usize {
        let mut first_leaf: Option<usize> = None;
        for child in node.children.iter() {
            let leaf = rec(child, labels, lmld);
            first_leaf.get_or_insert(leaf);
        }
        let my_id = labels.len();
        labels.push(node.label);
        lmld.push(first_leaf.unwrap_or(my_id));
        first_leaf.unwrap_or(my_id)
    }

    let root = tree.root.as_ref().expect("oracle needs a non-empty tree");
    let mut labels = Vec::new();
    let mut lmld = Vec::new();
    rec(root, &mut labels, &mut lmld);

    let n = labels.len();
    let keyroots = (0..n)
        .filter(|&i| !(i + 1..n).any(|j| lmld[j] == lmld[i]))
        .collect();
    ZsInfo {
        labels,
        lmld,
        keyroots,
    }
}

/// Independent exact-TED oracle: textbook Zhang-Shasha with unit costs.
fn zhang_shasha(t1: &ZsInfo, t2: &ZsInfo) -> i32 {
    let (n, m) = (t1.labels.len(), t2.labels.len());
    let mut td = vec![vec![0i32; m]; n];
    for &i in &t1.keyroots {
        for &j in &t2.keyroots {
            let (li, lj) = (t1.lmld[i], t2.lmld[j]);
            let (rows, cols) = (i - li + 2, j - lj + 2);
            let mut fd = vec![vec![0i32; cols]; rows];
            for r in 1..rows {
                fd[r][0] = fd[r - 1][0] + 1;
            }
            for c in 1..cols {
                fd[0][c] = fd[0][c - 1] + 1;
            }
            for r in 1..rows {
                let di = li + r - 1;
                for c in 1..cols {
                    let dj = lj + c - 1;
                    if t1.lmld[di] == li && t2.lmld[dj] == lj {
                        let ren = i32::from(t1.labels[di] != t2.labels[dj]);
                        fd[r][c] = (fd[r - 1][c] + 1)
                            .min(fd[r][c - 1] + 1)
                            .min(fd[r - 1][c - 1] + ren);
                        td[di][dj] = fd[r][c];
                    } else {
                        let (fr, fc) = (t1.lmld[di] - li, t2.lmld[dj] - lj);
                        fd[r][c] = (fd[r - 1][c] + 1)
                            .min(fd[r][c - 1] + 1)
                            .min(fd[fr][fc] + td[di][dj]);
                    }
                }
            }
        }
    }
    td[n - 1][m - 1]
}

/// Exact TED with the same over-bound convention as `ted_k`.
fn oracle(s1: &str, s2: &str, k: i32) -> i32 {
    let mut dict = LabelDict::new();
    let z1 = zs_info(&pt(s1, &mut dict));
    let z2 = zs_info(&pt(s2, &mut dict));
    let exact = zhang_shasha(&z1, &z2);
    if exact > k {
        k + 1
    } else {
        exact
    }
}

fn test_pairs() -> Vec<(String, String)> {
    let mut pairs: Vec<(String, String)> = vec![
        ("{a}".into(), "{a}".into()),
        ("{a{b}{c}}".into(), "{a{b}{c}}".into()),
        ("{a{b{d}}{c}}".into(), "{a{b{d}}{c}}".into()),
        ("{a{b}{c}}".into(), "{a{b}{x}}".into()),
        ("{a{b}}".into(), "{a}".into()),
        ("{a}".into(), "{a{b}}".into()),
        ("{a{b}{c}}".into(), "{a{b}{c}{d}}".into()),
        ("{a}".into(), "{a{b}{c}{d}}".into()),
        ("{a{b{c{d}}}}".into(), "{a}".into()),
        ("{a{b}{c}}".into(), "{x{y}{z}}".into()),
        ("{a{b{c}}}".into(), "{a{b}{c}}".into()),
        ("{r{a}{b}{c}{d}}".into(), "{r{a{b{c{d}}}}}".into()),
        ("{a{b{c}}{d{e}}}".into(), "{a{b{c}{d}}{e}}".into()),
        ("{a{b}}".into(), "{a{c}{b{a}}}".into()),
        ("{c{b}{a{a}}}".into(), "{c{d{c}}}".into()),
        ("{b{b{b}{c{d}}}}".into(), "{b{c}}".into()),
    ];
    let mut rng = Lcg(0x1234_5678_9abc_def0);
    for _ in 0..200 {
        let a = random_tree(&mut rng, 22);
        let b = random_tree(&mut rng, 22);
        pairs.push((a, b));
    }
    pairs
}

#[test]
fn lib_differential_vs_zhang_shasha_oracle() {
    let pairs = test_pairs();
    let ks = [1, 2, 3, 4, 5, 8, 50];
    let sel = TraversalSelection::default();
    let mut checked = 0usize;
    for (s1, s2) in &pairs {
        for &k in &ks {
            let mut dict = LabelDict::new();
            let t1 = StructDiffIndex::from_tree(&pt(s1, &mut dict), sel);
            let t2 = StructDiffIndex::from_tree(&pt(s2, &mut dict), sel);
            let got = ted_k_struct_diff(&t1, &t2, k);
            let want = oracle(s1, s2, k);
            assert_eq!(
                got, want,
                "mismatch for s1={s1} s2={s2} k={k}: got={got} oracle={want}"
            );
            checked += 1;
        }
    }
    assert!(
        checked >= 200,
        "expected a broad sweep, only checked {checked}"
    );
}

#[test]
fn harvest_superset_of_full() {
    let pairs = test_pairs();
    let ks = [1, 2, 3, 50];
    let sel = TraversalSelection::default();
    for (s1, s2) in &pairs {
        for &k in &ks {
            let mut dict = LabelDict::new();
            let t1 = StructDiffIndex::from_tree(&pt(s1, &mut dict), sel);
            let t2 = StructDiffIndex::from_tree(&pt(s2, &mut dict), sel);

            let key = |t1: &StructDiffIndex, t2: &StructDiffIndex, v: &[(i32, i32)]| {
                v.iter()
                    .map(|&(x, y)| {
                        (
                            t1.topdiff.postl_to_kr_ancestor[x as usize],
                            t2.topdiff.postl_to_kr_ancestor[y as usize],
                        )
                    })
                    .collect::<HashSet<_>>()
            };
            let full = key(&t1, &t2, &collect_pairs_full(&t1, &t2, k));
            let structf = key(&t1, &t2, &collect_pairs_struct(&t1, &t2, k));
            let harvested = key(&t1, &t2, &harvest_pairs_via_sed_struct(&t1, &t2, k));
            assert!(
                full.is_subset(&structf),
                "struct filter dropped needed top-node pairs for s1={s1} s2={s2} k={k}: \
                 missing={:?}",
                full.difference(&structf).collect::<Vec<_>>()
            );
            assert!(
                full.is_subset(&harvested),
                "SED harvest dropped needed top-node pairs for s1={s1} s2={s2} k={k}: \
                 missing={:?}",
                full.difference(&harvested).collect::<Vec<_>>()
            );
        }
    }
}

#[test]
fn topnode_matrix_layers_match_predicates() {
    let pairs = test_pairs();
    let ks = [1, 2, 3, 50];
    let sel = TraversalSelection::default();
    for (s1, s2) in &pairs {
        for &k in &ks {
            let mut dict = LabelDict::new();
            let t1 = StructDiffIndex::from_tree(&pt(s1, &mut dict), sel);
            let t2 = StructDiffIndex::from_tree(&pt(s2, &mut dict), sel);
            let m = topnode_matrix(&t1, &t2, k, PairSource::StructBand);

            assert_eq!(m.n1, t1.topdiff.tree_size);
            assert_eq!(m.n2, t2.topdiff.tree_size);
            assert_eq!(m.x_labels, t1.topdiff.postl_to_label_id);
            assert_eq!(m.y_labels, t2.topdiff.postl_to_label_id);

            for x in 0..t1.topdiff.tree_size {
                for y in 0..t2.topdiff.tree_size {
                    let (xi, yi) = (x as usize, y as usize);
                    assert_eq!(m.in_band[xi][yi], (x - y).abs() <= k);
                    assert_eq!(m.struct_ok[xi][yi], struct_pair_ok(&t1, &t2, x, y, k));
                    assert_eq!(
                        m.k_relevant[xi][yi],
                        k_relevant(&t1.topdiff, &t2.topdiff, x, y, k)
                    );
                }
            }

            let harvested: HashSet<(i32, i32)> =
                harvest_pairs_via_sed_struct(&t1, &t2, k).into_iter().collect();
            let green: HashSet<(i32, i32)> = (0..t1.topdiff.tree_size)
                .flat_map(|x| (0..t2.topdiff.tree_size).map(move |y| (x, y)))
                .filter(|&(x, y)| m.is_topnode[x as usize][y as usize])
                .collect();
            assert_eq!(
                green, harvested,
                "green != harvest for s1={s1} s2={s2} k={k}"
            );
            assert_eq!(
                m.topnode_pairs.iter().cloned().collect::<HashSet<_>>(),
                harvested
            );
        }
    }
}

#[test]
fn br_sed_visited_within_band() {
    let pairs = test_pairs();
    let ks = [1, 2, 3, 50];
    let sel = TraversalSelection::default();
    for (s1, s2) in &pairs {
        for &k in &ks {
            let mut dict = LabelDict::new();
            let t1 = StructDiffIndex::from_tree(&pt(s1, &mut dict), sel);
            let t2 = StructDiffIndex::from_tree(&pt(s2, &mut dict), sel);
            let m = topnode_matrix(&t1, &t2, k, PairSource::StructBand);
            for x in 0..t1.topdiff.tree_size {
                for y in 0..t2.topdiff.tree_size {
                    if m.br_sed_visited[x as usize][y as usize] {
                        assert!(
                            m.in_band[x as usize][y as usize],
                            "BR-SED examined out-of-band cell ({x},{y}) \
                             s1={s1} s2={s2} k={k}"
                        );
                    }
                }
            }
        }
    }
}

#[test]
fn br_sed_visited_covers_diagonal_for_equal_trees() {
    let sel = TraversalSelection::default();
    for s in ["{a}", "{a{b}{c}}", "{a{b{d}}{c}}", "{a{b{c{d}}}}", "{a{b}{c}{d}}"] {
        let mut dict = LabelDict::new();
        let t1 = StructDiffIndex::from_tree(&pt(s, &mut dict), sel);
        let t2 = StructDiffIndex::from_tree(&pt(s, &mut dict), sel);
        let n = t1.topdiff.tree_size;
        let m = topnode_matrix(&t1, &t2, n, PairSource::StructBand);
        for i in 0..n {
            assert!(
                m.br_sed_visited[i as usize][i as usize],
                "diagonal cell ({i},{i}) not examined for equal tree {s}"
            );
        }
    }
}

#[test]
fn driver_is_swap_invariant() {
    let pairs = test_pairs();
    let ks = [1, 2, 3, 50];
    let sel = TraversalSelection::default();
    for (s1, s2) in &pairs {
        for &k in &ks {
            let mut dict = LabelDict::new();
            let t1 = StructDiffIndex::from_tree(&pt(s1, &mut dict), sel);
            let t2 = StructDiffIndex::from_tree(&pt(s2, &mut dict), sel);
            let ab = ted_k_struct_diff(&t1, &t2, k);
            let ba = ted_k_struct_diff(&t2, &t1, k);
            assert_eq!(ab, ba, "swap mismatch s1={s1} s2={s2} k={k}: {ab} vs {ba}");
        }
    }
}

#[test]
fn sed_forward_is_sound_lower_bound() {
    let pairs = test_pairs();
    let ks = [1, 2, 3, 50];
    let sel = TraversalSelection::default();
    for (s1, s2) in &pairs {
        for &k in &ks {
            let mut dict = LabelDict::new();
            let t1 = StructDiffIndex::from_tree(&pt(s1, &mut dict), sel);
            let t2 = StructDiffIndex::from_tree(&pt(s2, &mut dict), sel);
            let f = sed_forward(&t1.postl_struct, &t2.postl_struct, k);
            let lb = f[t1.postl_struct.len()][t2.postl_struct.len()].min(k + 1);
            let exact = oracle(s1, s2, k);
            assert!(
                lb <= exact || (exact == k + 1 && lb == k + 1),
                "SED LB {lb} exceeds TED {exact} for s1={s1} s2={s2} k={k}"
            );
        }
    }
}

#[test]
fn measure_sed_alignment_vs_oracle() {
    let pairs = test_pairs();
    let ks = [1, 2, 3, 50];
    let sel = TraversalSelection::default();
    let (mut total, mut exact_hits, mut false_negs) = (0usize, 0usize, 0usize);
    for (s1, s2) in &pairs {
        for &k in &ks {
            let mut dict = LabelDict::new();
            let t1 = StructDiffIndex::from_tree(&pt(s1, &mut dict), sel);
            let t2 = StructDiffIndex::from_tree(&pt(s2, &mut dict), sel);
            let got = ted_k_with_source(&t1, &t2, k, PairSource::SedAlignment);
            let want = oracle(s1, s2, k);
            total += 1;
            if got == want {
                exact_hits += 1;
            } else {
                assert!(
                    got > want && want <= k,
                    "SedAlignment UNDER-estimated (unsound): got={got} want={want} \
                     s1={s1} s2={s2} k={k}"
                );
                false_negs += 1;
            }
        }
    }
    println!(
        "SedAlignment: {exact_hits}/{total} exact, {false_negs} false-negatives \
         ({:.1}% miss rate)",
        100.0 * false_negs as f64 / total as f64
    );
}

#[test]
fn struct_diff_method_gives_exact_bounded_distance() {
    let mut dict = LabelDict::new();
    let t1 = pt("{a{b}{c}}", &mut dict);
    let t2 = pt("{x{y}{z}}", &mut dict);
    let mut algo = StructDiffFactory::create_algorithm();
    let p = algo.preprocess(&[t1, t2]).unwrap();
    assert_eq!(algo.lower_bound(&p[0], &p[1], 5), 3);
    assert_eq!(algo.lower_bound(&p[0], &p[1], 2), 3);
    assert_eq!(algo.lower_bound(&p[0], &p[0], 2), 0);
}

#[test]
fn br_sed_examined_cells_start_on_the_matching_diagonal() {
    let c = |ch: i32, sum: i32, diff: i32| TraversalCharacter { char: ch, sum, diff };
    let s1 = vec![c(1, 0, 0), c(2, 1, 0), c(3, 0, 1)];
    let s2 = vec![c(1, 0, 0), c(2, 1, 0), c(9, 0, 1)];
    let cells = br_sed_examined_cells(&s1, &s2, 1);
    // Positions 0 and 1 match, position 2 is the first mismatch.
    assert_eq!(&cells[..3], &[(0, 0), (1, 1), (2, 2)]);
    let same = br_sed_examined_cells(&s1, &s1, 1);
    assert_eq!(&same[..3], &[(0, 0), (1, 1), (2, 2)]);
}
