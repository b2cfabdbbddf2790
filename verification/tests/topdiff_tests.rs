use ted_search::band_matrix::BandMatrix;
use ted_search::label_dict::LabelDict;
use ted_search::parsing::parse_single;
use ted_search::topdiff::{e_budget, k_relevant, ted_k, TopDiffIndex, TopDiffState, INFINITE_COST};
use ted_search::tree::{ParsedTree, TreeNode};

const INF: f64 = f64::INFINITY;

/// Parse a bracket string against a shared label dict.
fn pt(s: &str, dict: &mut LabelDict) -> ParsedTree {
    parse_single(s.to_string(), dict)
}

/// Build a TopDiffIndex from a bracket string with a fresh dict.
fn build(s: &str) -> TopDiffIndex {
    let mut dict = LabelDict::new();
    TopDiffIndex::from_tree(&pt(s, &mut dict))
}

fn sorted(v: &[i32]) -> Vec<i32> {
    let mut v = v.to_vec();
    v.sort_unstable();
    v
}

/// A distance as a float, the unbounded cost as infinity.
fn as_float(c: u64) -> f64 {
    if c == INFINITE_COST {
        INF
    } else {
        c as f64
    }
}

#[test]
fn from_tree_single_node() {
    let idx = build("{a}");
    assert_eq!(idx.tree_size, 1);
    assert_eq!(idx.postl_to_size, vec![1]);
    assert_eq!(idx.postl_to_depth, vec![0]);
    assert_eq!(idx.postl_to_lch, vec![-1]);
    assert_eq!(idx.list_kr, vec![0]);
    assert_eq!(idx.postl_to_kr_ancestor, vec![0]);
}

#[test]
fn from_tree_two_leaves() {
    // {a{b}{c}} -> postorder: b=0, c=1, a=2
    let idx = build("{a{b}{c}}");
    assert_eq!(idx.tree_size, 3);
    assert_eq!(idx.postl_to_size, vec![1, 1, 3]);
    assert_eq!(idx.postl_to_depth, vec![1, 1, 0]);
    assert_eq!(idx.postl_to_lch, vec![-1, -1, 0]);
    // keyroots: non-first child c=1, root a=2
    assert_eq!(sorted(&idx.list_kr), vec![1, 2]);
    assert_eq!(idx.postl_to_kr_ancestor, vec![2, 1, 2]);
}

#[test]
fn from_tree_nested() {
    // {a{b{d}}{c}} -> postorder: d=0, b=1, c=2, a=3
    let idx = build("{a{b{d}}{c}}");
    assert_eq!(idx.tree_size, 4);
    assert_eq!(idx.postl_to_size, vec![1, 2, 1, 4]);
    assert_eq!(idx.postl_to_depth, vec![2, 1, 1, 0]);
    assert_eq!(idx.postl_to_lch, vec![-1, 0, -1, 1]);
    // keyroots: c=2 (non-first child of a), root a=3
    assert_eq!(sorted(&idx.list_kr), vec![2, 3]);
    assert_eq!(idx.postl_to_kr_ancestor, vec![3, 3, 2, 3]);
}

#[test]
fn e_budget_and_k_relevant() {
    // t1 = {a{b}{c}}: size [1,1,3], depth [1,1,0]
    let t1 = build("{a{b}{c}}");
    // Root vs root, identical tree, k=5: lower bound 0, full budget.
    assert_eq!(e_budget(&t1, &t1, 2, 2, 5), 5);
    assert!(k_relevant(&t1, &t1, 2, 2, 5));

    // t2 = {a{b{d}}{c}}: size [1,2,1,4], depth [2,1,1,0]
    let t2 = build("{a{b{d}}{c}}");
    assert_eq!(e_budget(&t1, &t2, 0, 3, 0), -2);
    assert!(e_budget(&t1, &t2, 0, 3, 0) < 0);
    // k_relevant adds ||T1_x|-|T2_y|| = |1-4| = 3 -> lb = 4 > 0 -> false.
    assert!(!k_relevant(&t1, &t2, 0, 3, 0));
}

/// Run tree_dist on the root pair of two trees with a generous budget.
fn tree_dist_roots(s1: &str, s2: &str, k: i32, e: i32) -> f64 {
    let mut dict = LabelDict::new();
    let t1 = TopDiffIndex::from_tree(&pt(s1, &mut dict));
    let t2 = TopDiffIndex::from_tree(&pt(s2, &mut dict));
    let mut state = TopDiffState::new(t1.tree_size, k);
    let x = t1.tree_size - 1;
    let y = t2.tree_size - 1;
    as_float(state.tree_dist(&t1, &t2, x, y, k, e))
}

#[test]
fn tree_dist_identical_single_node() {
    assert_eq!(tree_dist_roots("{a}", "{a}", 4, 4), 0.0);
}

#[test]
fn tree_dist_single_rename() {
    assert_eq!(tree_dist_roots("{a}", "{b}", 4, 4), 1.0);
}

#[test]
fn tree_dist_one_delete() {
    // {a{b}} vs {a}: delete b -> distance 1.
    assert_eq!(tree_dist_roots("{a{b}}", "{a}", 4, 4), 1.0);
}

/// Parse both strings against ONE shared dict, build both indices, run ted_k.
fn ted_pair(s1: &str, s2: &str, k: i32) -> i32 {
    let mut dict = LabelDict::new();
    let t1 = TopDiffIndex::from_tree(&pt(s1, &mut dict));
    let t2 = TopDiffIndex::from_tree(&pt(s2, &mut dict));
    ted_k(&t1, &t2, k)
}

#[test]
fn ted_k_cases() {
    assert_eq!(ted_pair("{a{b}{c}}", "{a{b}{c}}", 5), 0);
    assert_eq!(ted_pair("{a{b}{c}}", "{a{b}{x}}", 5), 1);
    // size diff (1 vs 4) > k=1 -> k+1 = 2
    assert_eq!(ted_pair("{a}", "{a{b}{c}{d}}", 1), 2);
    // true TED 3 (rename a,b,c) but k=2 caps at k+1 = 3
    assert_eq!(ted_pair("{a{b}{c}}", "{x{y}{z}}", 2), 3);
    // exact with k=5
    assert_eq!(ted_pair("{a{b}{c}}", "{x{y}{z}}", 5), 3);
}

/// Deterministic LCG for seeded random tree generation.
struct Lcg(u64);
impl Lcg {
    fn next(&mut self) -> u64 {
        // Numerical Recipes constants.
        self.0 = self
            .0
            .wrapping_mul(6364136223846793005)
            .wrapping_add(1442695040888963407);
        self.0
    }
    fn range(&mut self, n: usize) -> usize {
        (self.next() >> 33) as usize % n
    }
}

/// Build a random bracket-notation tree with up to `max_nodes` nodes from a
/// small label alphabet.
fn random_tree(rng: &mut Lcg, max_nodes: usize) -> String {
    let labels = ["a", "b", "c", "d"];
    let target = 1 + rng.range(max_nodes);
    let mut remaining = target - 1;
    fn build(rng: &mut Lcg, labels: &[&str], remaining: &mut usize) -> String {
        let mut s = String::from("{");
        s.push_str(labels[rng.range(labels.len())]);
        while *remaining > 0 {
            if rng.range(2) == 0 {
                break;
            }
            *remaining -= 1;
            s.push_str(&build(rng, labels, remaining));
        }
        s.push('}');
        s
    }
    build(rng, &labels, &mut remaining)
}

/// Postorder data needed by the Zhang-Shasha oracle: label ids, leftmost
/// leaf descendants, and keyroots (all 0-based postorder ids).
struct ZsInfo {
    labels: Vec<i32>,
    lmld: Vec<usize>,
    keyroots: Vec<usize>,
}

fn zs_info(tree: &ParsedTree) -> ZsInfo {
    fn rec(node: &TreeNode, labels: &mut Vec<i32>, lmld: &mut Vec<usize>) -> usize {
        let mut first_leaf: Option<usize> = None;
        for child in node.children.iter() {
            let leaf = rec(child, labels, lmld);
            first_leaf.get_or_insert(leaf);
        }
        let my_id = labels.len();
        labels.push(node.label);
        lmld.push(first_leaf.unwrap_or(my_id));
        first_leaf.unwrap_or(my_id)
    }

    let root = tree.root.as_ref().expect("oracle needs a non-empty tree");
    let mut labels = Vec::new();
    let mut lmld = Vec::new();
    rec(root, &mut labels, &mut lmld);

    let n = labels.len();
    let keyroots = (0..n)
        .filter(|&i| !(i + 1..n).any(|j| lmld[j] == lmld[i]))
        .collect();
    ZsInfo {
        labels,
        lmld,
        keyroots,
    }
}

/// Independent exact-TED oracle: textbook Zhang-Shasha with unit costs.
fn zhang_shasha(t1: &ZsInfo, t2: &ZsInfo) -> i32 {
    let (n, m) = (t1.labels.len(), t2.labels.len());
    let mut td = vec![vec![0i32; m]; n];
    for &i in &t1.keyroots {
        for &j in &t2.keyroots {
            let (li, lj) = (t1.lmld[i], t2.lmld[j]);
            let (rows, cols) = (i - li + 2, j - lj + 2);
            let mut fd = vec![vec![0i32; cols]; rows];
            for r in 1..rows {
                fd[r][0] = fd[r - 1][0] + 1;
            }
            for c in 1..cols {
                fd[0][c] = fd[0][c - 1] + 1;
            }
            for r in 1..rows {
                let di = li + r - 1;
                for c in 1..cols {
                    let dj = lj + c - 1;
                    if t1.lmld[di] == li && t2.lmld[dj] == lj {
                        let ren = i32::from(t1.labels[di] != t2.labels[dj]);
                        fd[r][c] = (fd[r - 1][c] + 1)
                            .min(fd[r][c - 1] + 1)
                            .min(fd[r - 1][c - 1] + ren);
                        td[di][dj] = fd[r][c];
                    } else {
                        let (fr, fc) = (t1.lmld[di] - li, t2.lmld[dj] - lj);
                        fd[r][c] = (fd[r - 1][c] + 1)
                            .min(fd[r][c - 1] + 1)
                            .min(fd[fr][fc] + td[di][dj]);
                    }
                }
            }
        }
    }
    td[n - 1][m - 1]
}

/// Exact TED with the same over-bound convention as `ted_k`.
fn oracle(s1: &str, s2: &str, k: i32) -> i32 {
    let mut dict = LabelDict::new();
    let z1 = zs_info(&pt(s1, &mut dict));
    let z2 = zs_info(&pt(s2, &mut dict));
    let exact = zhang_shasha(&z1, &z2);
    if exact > k {
        k + 1
    } else {
        exact
    }
}

#[test]
fn differential_vs_zhang_shasha_oracle() {
    let mut pairs: Vec<(String, String)> = vec![
        ("{a}".into(), "{a}".into()),
        ("{a{b}{c}}".into(), "{a{b}{c}}".into()),
        ("{a{b{d}}{c}}".into(), "{a{b{d}}{c}}".into()),
        ("{a{b}{c}}".into(), "{a{b}{x}}".into()),
        ("{a{b}}".into(), "{a}".into()),
        ("{a}".into(), "{a{b}}".into()),
        ("{a{b}{c}}".into(), "{a{b}{c}{d}}".into()),
        ("{a}".into(), "{a{b}{c}{d}}".into()),
        ("{a{b{c{d}}}}".into(), "{a}".into()),
        ("{a{b}{c}}".into(), "{x{y}{z}}".into()),
        ("{a{b{c}}}".into(), "{a{b}{c}}".into()),
        ("{r{a}{b}{c}{d}}".into(), "{r{a{b{c{d}}}}}".into()),
        ("{a{b{c}}{d{e}}}".into(), "{a{b{c}{d}}{e}}".into()),
        ("{a{b}}".into(), "{a{c}{b{a}}}".into()),
        ("{c{b}{a{a}}}".into(), "{c{d{c}}}".into()),
        ("{b{b{b}{c{d}}}}".into(), "{b{c}}".into()),
    ];

    let mut rng = Lcg(0x1234_5678_9abc_def0);
    for _ in 0..300 {
        let a = random_tree(&mut rng, 24);
        let b = random_tree(&mut rng, 24);
        pairs.push((a, b));
    }

    let ks = [1, 2, 3, 4, 5, 8, 50];
    let mut checked = 0usize;
    for (s1, s2) in &pairs {
        for &k in &ks {
            let mut dict = LabelDict::new();
            let t1 = TopDiffIndex::from_tree(&pt(s1, &mut dict));
            let t2 = TopDiffIndex::from_tree(&pt(s2, &mut dict));
            let got = ted_k(&t1, &t2, k);
            let want = oracle(s1, s2, k);
            assert_eq!(
                got, want,
                "mismatch for s1={s1} s2={s2} k={k}: rust={got} oracle={want}"
            );
            checked += 1;
        }
    }
    assert!(
        checked >= 200,
        "expected a broad sweep, only checked {checked}"
    );
}

#[test]
fn band_matrix_translate_and_fill() {
    let mut m = BandMatrix::new(5, 4, INF);
    // Untouched cell reads back the fill value.
    assert_eq!(m.read_at(2, 3), INF);
    // After a write, the same cell reads back the written value.
    m.set(2, 3, 7.0);
    assert_eq!(m.read_at(2, 3), 7.0);
    // The mutable accessor maps to the same backing cell.
    assert_eq!(*m.at(2, 3), 7.0);

    // band_width = 0 edge: single-column backing store, 1 row.
    let mut z = BandMatrix::new(1, 0, INF);
    assert_eq!(z.read_at(0, 0), INF);
    z.set(0, 0, 3.5);
    assert_eq!(z.read_at(0, 0), 3.5);
}

#[test]
fn tree_dist_counts_band_cells_and_stays_within_trivial_script() {
    let mut dict = LabelDict::new();
    let t1 = TopDiffIndex::from_tree(&pt("{a{b}{c}}", &mut dict));
    let t2 = TopDiffIndex::from_tree(&pt("{x{y}}", &mut dict));
    let mut state = TopDiffState::new(t1.tree_size, 5);
    let before = state.subproblem_counter;
    let d = state.tree_dist(&t1, &t2, 2, 1, 5, 5);
    // Rows 1..=3 against 2 columns, all within the budget: 3 * 2 cells.
    assert_eq!(state.subproblem_counter - before, 6);
    // Deleting all 3 nodes and inserting both costs 5; the distance is 3.
    assert!(d <= 5);
    assert_eq!(d, 3);
}

#[test]
fn tree_dist_from_a_fresh_state_never_undercuts_the_subtree_distance() {
    // {a{b}} vs {x{y}}: two renames, distance 2; both rows map whole
    // subtrees, so no stored subtree distance is needed.
    for e in 2..=5 {
        assert_eq!(tree_dist_roots("{a{b}}", "{x{y}}", 5, e), 2.0);
    }
    // Below the distance the budget is exceeded.
    assert_eq!(tree_dist_roots("{a{b}}", "{x{y}}", 5, 1), INF);
    // {a{b}{c}} vs {x{y}{z}} (distance 3) needs the subtree distance of `c`
    // and `z`, which a fresh state does not hold yet: the answer is then
    // unbounded, never below 3.
    for e in 0..=5 {
        let d = tree_dist_roots("{a{b}{c}}", "{x{y}{z}}", 5, e);
        assert!(d == INF || d >= 3.0);
    }
}

#[test]
fn tree_dist_with_sizes_apart_by_more_than_the_budget_reports_the_last_band_cell() {
    // The leaf `a` against {b{a}{c}} (distance 2: insert b and c) with budget
    // 1: the band of row 1 ends at column 2, where `a` matched plus one
    // insertion costs 1, and that value is returned.
    let mut dict = LabelDict::new();
    let t1 = TopDiffIndex::from_tree(&pt("{a}", &mut dict));
    let t2 = TopDiffIndex::from_tree(&pt("{b{a}{c}}", &mut dict));
    let mut state = TopDiffState::new(t1.tree_size, 1);
    assert_eq!(state.tree_dist(&t1, &t2, 0, 2, 1, 1), 1);
    assert_eq!(ted_k(&t1, &t2, 2), 2);
}

#[test]
fn every_node_lies_on_the_left_path_of_its_keyroot_ancestor() {
    let idx = build("{a{b{c}{d}}{e{f}}{g{h{i}}}}");
    for p in 0..idx.tree_size {
        let mut node = idx.postl_to_kr_ancestor[p as usize];
        while node > p {
            node = idx.postl_to_lch[node as usize];
        }
        assert_eq!(node, p);
        let lch = idx.postl_to_lch[p as usize];
        if lch >= 0 {
            assert!(lch > p - idx.postl_to_size[p as usize]);
        }
    }
}
