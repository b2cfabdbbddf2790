use ted_search::base::{AlgorithmFactory, LowerBoundMethod};
use ted_search::edit_distance::exact_string_edit_distance;
use ted_search::label_dict::LabelDict;
use ted_search::parsing::parse_single;
use ted_search::sed::SEDIndex;
use ted_search::sed_exact::{sed_exact, SedExactFactory};

#[test]
fn lib_test_exact_string_edit_distance() {
    let kitten = "kitten".chars().map(|c| c as i32).collect::<Vec<_>>();
    let sitting = "sitting".chars().map(|c| c as i32).collect::<Vec<_>>();
    assert_eq!(exact_string_edit_distance(&kitten, &sitting), 3);
}

#[test]
fn test_sed_exact_on_indices() {
    let t1 = SEDIndex {
        first_traversal: vec![1, 2, 3],
        second_traversal: vec![2, 3, 1],
        tree_size: 3,
    };
    let t2 = SEDIndex {
        first_traversal: vec![1, 3, 4],
        second_traversal: vec![3, 4, 1],
        tree_size: 3,
    };

    assert_eq!(sed_exact(&t1, &t2, 2), 2);
}

#[test]
fn sed_exact_first_distance_above_threshold_is_returned() {
    let t1 = SEDIndex {
        first_traversal: vec![1, 2, 3],
        second_traversal: vec![1, 2, 3],
        tree_size: 3,
    };
    let t2 = SEDIndex {
        first_traversal: vec![4, 5, 6],
        second_traversal: vec![1, 2, 3],
        tree_size: 3,
    };
    // The first traversals differ in three places, more than the threshold.
    assert_eq!(sed_exact(&t1, &t2, 1), 3);
    // The second traversal only counts when the first stays within it.
    assert_eq!(sed_exact(&t2, &t1, 5), 3);
}

#[test]
fn sed_exact_method_on_trees() {
    let mut ld = LabelDict::new();
    let t1 = parse_single("{a{b}{c}}".to_string(), &mut ld);
    let t2 = parse_single("{a{b{c}}}".to_string(), &mut ld);
    let mut algo = SedExactFactory::create_algorithm();
    let idx = algo.preprocess(&[t1, t2]).unwrap();
    // Preorder a b c against a b c: 0; postorder b c a against c b a: 2.
    assert_eq!(idx[0].first_traversal, idx[1].first_traversal);
    assert_eq!(algo.lower_bound(&idx[0], &idx[1], 5), 2);
}
