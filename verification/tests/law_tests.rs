use ted_search::base::{AlgorithmFactory, LowerBoundMethod, TraversalSelection};
use ted_search::bib::BinaryBranchFactory;
use ted_search::label_intersection::LabelIntersectionAlgorithm;
use ted_search::dataset::{order_by_size, parse_query_entries};
use ted_search::label_dict::LabelDict;
use ted_search::parsing::parse_single;
use ted_search::sed::{preprocess_tree, sed_k, SEDIndex};
use ted_search::sed2::{self, sed_2};
use ted_search::sed_exact::sed_exact;
use ted_search::tree::ParsedTree;

fn index(s: &str, ld: &mut LabelDict) -> SEDIndex {
    let tree = parse_single(s.to_string(), ld);
    preprocess_tree(&tree, TraversalSelection::default())
}

#[test]
fn sed_bound_is_symmetric_on_examples() {
    let mut ld = LabelDict::new();
    let a = index("{a{b}{c{d}}}", &mut ld);
    let b = index("{a{c}{b{d}{e}}}", &mut ld);
    for k in 0..6 {
        assert_eq!(sed_k(&a, &b, k), sed_k(&b, &a, k));
    }
}

#[test]
fn sed_bound_of_a_tree_with_itself_is_zero() {
    let mut ld = LabelDict::new();
    let a = index("{a{b}{c{d}}}", &mut ld);
    for k in 0..4 {
        assert_eq!(sed_k(&a, &a, k), 0);
    }
}

#[test]
fn sed_bound_agrees_with_exact_within_threshold() {
    let mut ld = LabelDict::new();
    let a = index("{a{b}{c}}", &mut ld);
    let b = index("{a{b}{d}}", &mut ld);
    // Both traversals differ in one label: distance 1.
    assert_eq!(sed_exact(&a, &b, 3), 1);
    assert_eq!(sed_k(&a, &b, 3), 1);
    assert_eq!(sed_exact(&b, &a, 3), sed_exact(&a, &b, 3));
}

#[test]
fn sed2_bound_is_symmetric_on_examples() {
    let mut ld = LabelDict::new();
    let t1 = parse_single("{a{b}{c{d}}}".to_string(), &mut ld);
    let t2 = parse_single("{a{c}{b{d}{e}}}".to_string(), &mut ld);
    let s = TraversalSelection::default();
    let a = sed2::preprocess_tree(&t1, s);
    let b = sed2::preprocess_tree(&t2, s);
    assert_eq!(sed_2(&a, &b, 10), sed_2(&b, &a, 10));
}

#[test]
fn order_by_size_is_stable() {
    let mut ld = LabelDict::new();
    let inputs = ["{a{b}{c}}", "{x}", "{d{e}{f}}", "{y{z}}"];
    let trees: Vec<ParsedTree> = inputs
        .iter()
        .map(|s| parse_single(s.to_string(), &mut ld))
        .collect();
    let expected: Vec<String> = [1usize, 3, 0, 2]
        .iter()
        .map(|&i| format!("{:?}", trees[i]))
        .collect();
    let ordered = order_by_size(trees);
    assert_eq!(ordered.len(), 4);
    let counts: Vec<usize> = ordered.iter().map(|t| t.count()).collect();
    assert_eq!(counts, vec![1, 2, 3, 3]);
    for (got, want) in ordered.iter().zip(expected.iter()) {
        assert_eq!(&format!("{:?}", got), want);
    }
}

#[test]
fn query_entries_keep_thresholds_and_intern_labels() {
    let mut ld = LabelDict::new();
    let entries = vec![(2usize, "{a{b}}".to_string()), (0usize, "{c}".to_string())];
    let parsed = parse_query_entries(&entries, &mut ld);
    assert_eq!(parsed.len(), 2);
    assert_eq!(parsed[0].0, 2);
    assert_eq!(parsed[1].0, 0);
    assert_eq!(parsed[0].1.count(), 2);
    assert_eq!(parsed[1].1.count(), 1);
    assert_eq!(ld.len(), 3);
    assert!(ld.get(b"a").is_some());
    assert!(ld.get(b"c").is_some());
}

#[test]
fn max_id_is_the_largest_identifier() {
    let mut ld = LabelDict::new();
    assert_eq!(ld.max_id(), 0);
    ld.insert(b"b", 4, 1);
    ld.insert(b"a", 9, 2);
    ld.insert(b"c", 1, 1);
    assert_eq!(ld.max_id(), 9);
}

#[test]
fn bib_bound_is_symmetric_on_examples() {
    let mut ld = LabelDict::new();
    let inputs = ["{a{b}{c}}", "{a{b}{c{d}}}", "{x{y}{z}{w}}"];
    let t: Vec<ParsedTree> = inputs
        .iter()
        .map(|s| parse_single(s.to_string(), &mut ld))
        .collect();
    let mut algo = BinaryBranchFactory::create_algorithm();
    let p = algo.preprocess(&t).unwrap();
    for i in 0..3 {
        for j in 0..3 {
            for k in 0..4 {
                assert_eq!(algo.lower_bound(&p[i], &p[j], k), algo.lower_bound(&p[j], &p[i], k));
            }
        }
    }
}

#[test]
fn label_intersection_bound_is_symmetric_without_early_stop() {
    let mut ld = LabelDict::new();
    let inputs = ["{a{b}{c}}", "{a{b}{x}}", "{a{a}{c}}"];
    let t: Vec<ParsedTree> = inputs
        .iter()
        .map(|s| parse_single(s.to_string(), &mut ld))
        .collect();
    let mut algo = LabelIntersectionAlgorithm;
    let p = algo.preprocess(&t).unwrap();
    // At threshold 0 the scan never stops early, so the value is exact.
    for i in 0..3 {
        for j in 0..3 {
            assert_eq!(algo.lower_bound(&p[i], &p[j], 0), algo.lower_bound(&p[j], &p[i], 0));
        }
    }
    // {a{b}{c}} and {a{a}{c}} share a and c: 3 - 2 = 1.
    assert_eq!(algo.lower_bound(&p[0], &p[2], 0), 1);
}

#[test]
fn sed_bound_stays_within_the_tree_edit_distance() {
    let pairs = [
        ("{a{b}{c}}", "{a{b}{x}}"),
        ("{a{b{c}{d}}{e}}", "{a{c}{d}{b{e}}}"),
        ("{f{d{a}{c{b}}}{e}}", "{f{c{d{a}{b}}}{e}}"),
        ("{a{b}{c}{d}}", "{x{y{z}}}"),
        ("{a}", "{a{a}{a}}"),
    ];
    for (s1, s2) in pairs {
        let mut dict = ted_search::label_dict::LabelDict::new();
        let tree1 = ted_search::parsing::parse_single(s1.to_string(), &mut dict);
        let tree2 = ted_search::parsing::parse_single(s2.to_string(), &mut dict);
        let t1 = ted_search::topdiff::TopDiffIndex::from_tree(&tree1);
        let t2 = ted_search::topdiff::TopDiffIndex::from_tree(&tree2);
        let k = 20;
        let ted = ted_search::topdiff::ted_k(&t1, &t2, k) as usize;
        let kinds = [
            ted_search::base::TraversalKind::Preorder,
            ted_search::base::TraversalKind::Postorder,
            ted_search::base::TraversalKind::ReversedPreorder,
            ted_search::base::TraversalKind::ReversedPostorder,
        ];
        for first in kinds {
            for second in kinds {
                let sel = TraversalSelection { first, second };
                let q = ted_search::sed::preprocess_tree(&tree1, sel);
                let d = ted_search::sed::preprocess_tree(&tree2, sel);
                assert!(ted_search::sed::sed_k(&q, &d, k as usize) <= ted);
                assert!(sed_exact(&q, &d, k as usize) <= ted);
            }
        }
    }
}

#[test]
fn label_intersection_bound_stays_within_the_tree_edit_distance() {
    let mut ld = LabelDict::new();
    let inputs = ["{a{b}{c}}", "{a{b}{x}}", "{a{a}{c}}", "{x{y{z}}}", "{b{c}{a}}", "{a{b{c}}}"];
    let t: Vec<ParsedTree> = inputs
        .iter()
        .map(|s| parse_single(s.to_string(), &mut ld))
        .collect();
    let mut algo = LabelIntersectionAlgorithm;
    let p = algo.preprocess(&t).unwrap();
    for i in 0..t.len() {
        for j in 0..t.len() {
            let t1 = ted_search::topdiff::TopDiffIndex::from_tree(&t[i]);
            let t2 = ted_search::topdiff::TopDiffIndex::from_tree(&t[j]);
            let ted = ted_search::topdiff::ted_k(&t1, &t2, 10) as usize;
            assert!(algo.lower_bound(&p[i], &p[j], 0) <= ted);
        }
    }
}
