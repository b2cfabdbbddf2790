use ted_search::base::{LowerBoundMethod, TraversalKind};
use ted_search::edit_distance::{exact_string_edit_distance, full_string_edit_distance};
use ted_search::label_dict::LabelDict;
use ted_search::parsing::parse_single;
use ted_search::sed2::{preprocess_tree, sed_2, Sed2Algorithm, Sed2Factory, Sed2Index};
use ted_search::base::TraversalSelection;
use ted_search::base::AlgorithmFactory;

#[test]
fn test_exact_string_edit_distance() {
    let kitten = "kitten".chars().map(|c| c as i32).collect::<Vec<_>>();
    let sitting = "sitting".chars().map(|c| c as i32).collect::<Vec<_>>();
    assert_eq!(exact_string_edit_distance(&kitten, &sitting), 3);
}

#[test]
fn test_full_matrix_corner_and_interior() {
    let kitten = "kitten".chars().map(|c| c as i32).collect::<Vec<_>>();
    let sitting = "sitting".chars().map(|c| c as i32).collect::<Vec<_>>();
    let m = full_string_edit_distance(&kitten, &sitting);
    // Corner equals the full edit distance.
    assert_eq!(m.get(kitten.len(), sitting.len()), 3);
    // Interior: prefix "k" vs "si" needs 2 edits.
    assert_eq!(m.get(1, 2), 2);
}

#[test]
fn test_second_to_first_permutation() {
    let mut ld = LabelDict::new();
    let tree = parse_single("{a{b}{c}}".to_string(), &mut ld);

    let mut algo = Sed2Algorithm::default(); // first = preorder, second = postorder
    let idx = algo
        .preprocess(std::slice::from_ref(&tree))
        .unwrap()
        .remove(0);

    assert_eq!(idx.second_to_first, vec![1, 2, 0]);
}

#[test]
fn test_sed_2_on_indices() {
    let t1 = Sed2Index {
        first_traversal: vec![1, 2, 3],
        second_traversal: vec![2, 3, 1],
        second_to_first: vec![0, 1, 2],
        tree_size: 3,
    };
    let t2 = Sed2Index {
        first_traversal: vec![1, 3, 4],
        second_traversal: vec![3, 4, 1],
        second_to_first: vec![0, 1, 2],
        tree_size: 3,
    };
    assert_eq!(sed_2(&t1, &t2, 100), 3);
}

#[test]
fn verify_two_tree_example() {
    let mut ld = LabelDict::new();
    let t1 = parse_single("{f{x{k}{u}{h}}}".to_string(), &mut ld);
    let t2 = parse_single("{x{h{o{m}}{r}}}".to_string(), &mut ld);

    let mut algo = Sed2Algorithm::new(TraversalKind::Preorder, TraversalKind::ReversedPostorder);
    let mut idx = algo.preprocess(&[t1, t2]).unwrap();
    let d2 = idx.remove(1);
    let q1 = idx.remove(0);

    assert_eq!(q1.second_to_first, vec![4, 3, 2, 1, 0]);
    assert_eq!(d2.second_to_first, vec![4, 3, 2, 1, 0]);

    let m_pre = full_string_edit_distance(&q1.first_traversal, &d2.first_traversal);
    let expected_pre = [
        [0, 1, 2, 3, 4, 5],
        [1, 1, 2, 3, 4, 5],
        [2, 1, 2, 3, 4, 5],
        [3, 2, 2, 3, 4, 5],
        [4, 3, 3, 3, 4, 5],
        [5, 4, 3, 4, 4, 5],
    ];
    for (i, row) in expected_pre.iter().enumerate() {
        for (j, &v) in row.iter().enumerate() {
            assert_eq!(m_pre.get(i, j), v, "C_pre[{i},{j}]");
        }
    }

    let m_post = full_string_edit_distance(&q1.second_traversal, &d2.second_traversal);
    let expected_post = [
        [0, 1, 2, 3, 4, 5],
        [1, 1, 2, 3, 3, 4],
        [2, 2, 2, 3, 4, 4],
        [3, 3, 3, 3, 4, 5],
        [4, 4, 4, 4, 4, 4],
        [5, 5, 5, 5, 5, 5],
    ];
    for (i, row) in expected_post.iter().enumerate() {
        for (j, &v) in row.iter().enumerate() {
            assert_eq!(m_post.get(i, j), v, "C_post[{i},{j}]");
        }
    }

    assert_eq!(sed_2(&q1, &d2, 100), 5);
}

#[test]
fn verify_two_tree_example_b() {
    let mut ld = LabelDict::new();
    let t1 = parse_single("{y{c}{a{d}}}".to_string(), &mut ld);
    let t2 = parse_single("{k{c}{d{w}{i}}}".to_string(), &mut ld);

    let mut algo = Sed2Algorithm::new(TraversalKind::Preorder, TraversalKind::ReversedPostorder);
    let mut idx = algo.preprocess(&[t1, t2]).unwrap();
    let d2 = idx.remove(1);
    let q1 = idx.remove(0);

    assert_eq!(sed_2(&q1, &d2, 100), 4);
    // The lower bound is symmetric in its two arguments.
    assert_eq!(sed_2(&d2, &q1, 100), 4);
}

#[test]
fn sed2_lower_bound_through_the_method() {
    let mut ld = LabelDict::new();
    let t1 = parse_single("{y{c}{a{d}}}".to_string(), &mut ld);
    let t2 = parse_single("{k{c}{d{w}{i}}}".to_string(), &mut ld);
    let mut algo = Sed2Factory::create_algorithm();
    let idx = algo.preprocess(&[t1, t2]).unwrap();
    // Over preorder and postorder the bound for this pair is 5.
    assert_eq!(algo.lower_bound(&idx[0], &idx[1], 10), sed_2(&idx[0], &idx[1], 10));
    assert_eq!(algo.lower_bound(&idx[0], &idx[1], 10), 5);
}

#[test]
fn second_to_first_pairs_each_node_with_its_own_label() {
    let kinds = [
        TraversalKind::Preorder,
        TraversalKind::Postorder,
        TraversalKind::ReversedPreorder,
        TraversalKind::ReversedPostorder,
    ];
    let mut dict = LabelDict::new();
    let tree = parse_single("{a{b{c}{d}}{e}{f{g}}}".to_string(), &mut dict);
    for first in kinds {
        for second in kinds {
            let idx = preprocess_tree(&tree, TraversalSelection { first, second });
            let n = idx.second_traversal.len();
            assert_eq!(idx.second_to_first.len(), n);
            let mut seen = vec![false; n];
            for q in 0..n {
                let p = idx.second_to_first[q];
                assert!(p < idx.first_traversal.len());
                assert_eq!(idx.first_traversal[p], idx.second_traversal[q]);
                assert!(!seen[p]);
                seen[p] = true;
            }
        }
    }
}
