use ted_search::base::{AlgorithmFactory, LowerBoundMethod, TraversalKind};
use ted_search::bib::BinaryBranchFactory;
use ted_search::cli::{Cli, LowerBoundMethods, TraversalOption};
use ted_search::label_dict::LabelDict;
use ted_search::label_intersection::{LabelIntersectionAlgorithm, LabelIntersectionFactory};
use ted_search::parsing::parse_single;
use ted_search::search::{
    create_algorithm, create_sed_algorithm, create_sed_exact_algorithm,
    create_sed_struct_algorithm, Algorithm,
};
use ted_search::structural::StructuralLowerBoundFactory;
use ted_search::tree::ParsedTree;

fn trees(inputs: &[&str], ld: &mut LabelDict) -> Vec<ParsedTree> {
    inputs.iter().map(|s| parse_single(s.to_string(), ld)).collect()
}

fn sample() -> (Vec<ParsedTree>, Vec<(usize, ParsedTree)>) {
    let mut ld = LabelDict::new();
    let data = trees(&["{a{b}{c}}", "{a{b}{x}}", "{x{y}{z}}", "{a{b}{c}{d}{e}{f}}"], &mut ld);
    let q = trees(&["{a{b}{c}}", "{a}"], &mut ld);
    let mut queries = Vec::new();
    let mut it = q.into_iter();
    queries.push((1, it.next().unwrap()));
    queries.push((0, it.next().unwrap()));
    (data, queries)
}

#[test]
fn search_reports_trees_within_threshold_for_every_method() {
    let (data, queries) = sample();
    let mut methods = vec![
        create_algorithm::<LabelIntersectionFactory>(),
        create_sed_algorithm(TraversalKind::Preorder, TraversalKind::Postorder),
        create_sed_exact_algorithm(TraversalKind::Preorder, TraversalKind::Postorder),
        create_sed_struct_algorithm(TraversalKind::Preorder, TraversalKind::Postorder),
        create_algorithm::<StructuralLowerBoundFactory>(),
        create_algorithm::<BinaryBranchFactory>(),
    ];
    for m in methods.iter_mut() {
        let r = m.search(&data, &queries);
        assert_eq!(r.len(), 2);
        // The identical tree and the one-rename tree pass at threshold 1, the
        // tree that differs in six nodes' worth of size does not.
        assert!(r[0].contains(&0));
        assert!(!r[0].contains(&3));
        // Rows list data positions in increasing order.
        assert!(r[0].windows(2).all(|w| w[0] < w[1]));
        // A single node is at distance at least 2 from every data tree.
        assert!(r[1].is_empty());
    }
}

#[test]
fn search_with_exact_method_is_the_exact_answer() {
    let (data, queries) = sample();
    let mut m = create_sed_exact_algorithm(TraversalKind::Preorder, TraversalKind::Postorder);
    let r = m.search(&data, &queries);
    assert_eq!(r, vec![vec![0, 1], vec![]]);
}

#[test]
fn label_intersection_bound_values() {
    let mut ld = LabelDict::new();
    let t = trees(&["{a{b}{c}}", "{a{b}{x}}", "{a}"], &mut ld);
    let mut algo = LabelIntersectionAlgorithm;
    let p = algo.preprocess(&t).unwrap();
    // Three nodes each, two labels shared: 3 - 2 = 1.
    assert_eq!(algo.lower_bound(&p[0], &p[1], 1), 1);
    // Sizes 3 and 1 differ by more than 1: threshold + 1.
    assert_eq!(algo.lower_bound(&p[0], &p[2], 1), 2);
    assert_eq!(algo.lower_bound(&p[0], &p[0], 0), 0);
    // With room below the threshold the scan may stop early, still at or
    // above the bound.
    let early = algo.lower_bound(&p[0], &p[1], 5);
    assert!(1 <= early && early < 5);
}

#[test]
fn binary_branch_bound_values() {
    let mut ld = LabelDict::new();
    let t = trees(&["{a{b}{c}}", "{x{y}{z}}", "{a{b}{c}}"], &mut ld);
    let mut algo = BinaryBranchFactory::create_algorithm();
    let p = algo.preprocess(&t).unwrap();
    assert_eq!(p[0].size, 3);
    // No branch shared: (3 + 3 - 0) / 5 = 1.
    assert_eq!(algo.lower_bound(&p[0], &p[1], 5), 1);
    // Same tree preprocessed twice gets the same branch identifiers.
    assert_eq!(algo.lower_bound(&p[0], &p[2], 5), 0);
    // A later call keeps the identifiers handed out before.
    let more = algo.preprocess(&trees(&["{a{b}{c}}"], &mut ld)).unwrap();
    assert_eq!(algo.lower_bound(&p[0], &more[0], 5), 0);
}

#[test]
fn cli_selects_the_method() {
    let cli = Cli {
        dataset: "d".to_string(),
        queries: "q".to_string(),
        method: LowerBoundMethods::Sed,
        sed_traversal_first: TraversalOption::ReversedPreorder,
        sed_traversal_second: TraversalOption::Postorder,
        runs: 1,
        delimiter: ';',
    };
    match cli.algorithm() {
        Algorithm::Sed(a) => {
            assert_eq!(a.traversal_selection.first, TraversalKind::ReversedPreorder);
            assert_eq!(a.traversal_selection.second, TraversalKind::Postorder);
        }
        _ => panic!("expected the SED method"),
    }
    let cli = Cli { method: LowerBoundMethods::Bib, ..cli };
    assert!(matches!(cli.algorithm(), Algorithm::BinaryBranch(_)));
    let cli = Cli { method: LowerBoundMethods::Lblint, ..cli };
    assert!(matches!(cli.algorithm(), Algorithm::LabelIntersection(_)));
}

#[test]
fn label_dict_keeps_labels_sorted_and_counts() {
    let mut ld = LabelDict::new();
    assert_eq!(ld.len(), 0);
    ld.insert(b"b", 2, 1);
    ld.insert(b"a", 1, 3);
    ld.insert(b"b", 2, 4);
    assert_eq!(ld.len(), 2);
    assert_eq!(ld.get(b"a"), Some((1, 3)));
    assert_eq!(ld.get(b"b"), Some((2, 4)));
    assert_eq!(ld.get(b"c"), None);
    let labels: Vec<Vec<u8>> = ld.entries().iter().map(|e| e.label.clone()).collect();
    assert_eq!(labels, vec![b"a".to_vec(), b"b".to_vec()]);
}
