use ted_search::base::{AlgorithmFactory, LowerBoundMethod, TraversalKind};
use ted_search::label_dict::LabelDict;
use ted_search::parsing::parse_single;
use ted_search::sed::{bounded_string_edit_distance, sed_k, SEDIndex, SedAlgorithm, SedFactory};

#[test]
fn test_sed_k() {
    let v1 = vec![1, 2, 3, 4, 5, 5, 6];
    let v2 = vec![1, 2, 3, 5, 6, 7, 6];

    let result = bounded_string_edit_distance(&v1, &v2, 2);
    assert_eq!(result, usize::MAX);

    let result = bounded_string_edit_distance(&v1, &v2, 4);
    assert_eq!(result, 3);
}

#[test]
fn test_sed_br_impl() {
    let query = "aaa".chars().map(|c| c as i32).collect::<Vec<_>>();
    let target = "aaabcd".chars().map(|c| c as i32).collect::<Vec<_>>();

    let result = bounded_string_edit_distance(&query, &target, 3);
    assert_eq!(
        result, 3,
        "Expected edit distance of 3 between 'aaa' and 'aaabcd' with k=3"
    );

    let query = "garvey".chars().map(|c| c as i32).collect::<Vec<_>>();
    let target = "avery".chars().map(|c| c as i32).collect::<Vec<_>>();

    let result = bounded_string_edit_distance(&query, &target, 3);
    assert_eq!(
        result, 3,
        "Expected edit distance of 3 between 'garvey' and 'avery' with k=3"
    );

    let result = bounded_string_edit_distance(&query, &target, 2);
    assert_eq!(
        result,
        usize::MAX,
        "Expected edit non computable (distance > k) between 'garvey' and 'avery' with k=2"
    );

    let query = "abcde".chars().map(|c| c as i32).collect::<Vec<_>>();
    let target = "fghij".chars().map(|c| c as i32).collect::<Vec<_>>();

    let result = bounded_string_edit_distance(&query, &target, 5);
    assert_eq!(
        result, 5,
        "Expected edit distance of 5 between 'abcde' and 'fghij' with k=5"
    );

    let query = "kitten".chars().map(|c| c as i32).collect::<Vec<_>>();
    let target = "sitting".chars().map(|c| c as i32).collect::<Vec<_>>();

    let result = bounded_string_edit_distance(&query, &target, 3);
    assert_eq!(
        result, 3,
        "Expected edit distance of 3 between 'kitten' and 'sitting' with k=5"
    );

    let query = "123456452abc".chars().map(|c| c as i32).collect::<Vec<_>>();
    let target = "173829526452abc"
        .chars()
        .map(|c| c as i32)
        .collect::<Vec<_>>();

    let result = bounded_string_edit_distance(&query, &target, 4);
    assert_eq!(
        result,
        usize::MAX,
        "Expected edit distance of 3 between 'kitten' and 'sitting' with k=5"
    );
}

#[test]
fn sed_k_size_gap_above_threshold() {
    let t1 = SEDIndex {
        first_traversal: vec![1],
        second_traversal: vec![1],
        tree_size: 1,
    };
    let t2 = SEDIndex {
        first_traversal: vec![1, 2, 3, 4],
        second_traversal: vec![2, 3, 4, 1],
        tree_size: 4,
    };
    // Sizes differ by 3 > 2: the bound is k + 1.
    assert_eq!(sed_k(&t1, &t2, 2), 3);
    // Within the threshold: the larger of the two traversal distances.
    assert_eq!(sed_k(&t1, &t2, 5), 3);
}

#[test]
fn sed_method_on_trees() {
    let mut ld = LabelDict::new();
    let t1 = parse_single("{a{b}{c}}".to_string(), &mut ld);
    let t2 = parse_single("{a{b{c}}}".to_string(), &mut ld);
    let mut algo = SedFactory::create_algorithm();
    let idx = algo.preprocess(&[t1, t2]).unwrap();
    assert_eq!(idx[0].tree_size, 3);
    assert_eq!(algo.lower_bound(&idx[0], &idx[1], 5), 2);
    let mut reversed = SedAlgorithm::new(TraversalKind::ReversedPreorder, TraversalKind::ReversedPostorder);
    let t3 = parse_single("{a{b}{c}}".to_string(), &mut ld);
    let idx = reversed.preprocess(&[t3]).unwrap();
    // Reversed preorder is the reversed postorder: a c b; reversed postorder: c b a.
    assert_eq!(idx[0].first_traversal.len(), 3);
    assert_eq!(idx[0].first_traversal[0], idx[0].second_traversal[2]);
}
