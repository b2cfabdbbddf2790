use ted_search::base::{AlgorithmFactory, LowerBoundMethod, TraversalSelection};
use ted_search::label_dict::LabelDict;
use ted_search::parsing::parse_single;
use ted_search::sed_struct::{
    bounded_string_edit_distance_with_structure, sed_struct_k, StringStructAlgorithm,
    StringStructFactory, TraversalCharacter,
};

fn tc(char: i32, sum: i32, diff: i32) -> TraversalCharacter {
    TraversalCharacter { char, sum, diff }
}

#[test]
fn test_bounded_sed_structure() {
    // arvey
    let v1 = vec![tc(1, 0, 0), tc(2, 0, 0), tc(3, 0, 0), tc(4, 0, 0), tc(5, 0, 0), tc(6, 0, 0)];
    // avery
    let v2 = vec![tc(2, 0, 0), tc(3, 0, 0), tc(4, 0, 0), tc(5, 0, 0), tc(5, 0, 0)];

    let result = bounded_string_edit_distance_with_structure(&v2, &v1, 3);
    assert_eq!(result, 2);
}

#[test]
fn test_bounded_sed_structure_2() {
    // sitting
    let v1 = vec![
        tc(1, 0, 0),
        tc(3, 0, 0),
        tc(4, 0, 0),
        tc(4, 0, 0),
        tc(3, 0, 0),
        tc(6, 0, 0),
        tc(7, 0, 0),
    ];
    // kitten
    let v2 = vec![tc(2, 0, 0), tc(3, 0, 0), tc(4, 0, 0), tc(4, 0, 0), tc(5, 0, 0), tc(6, 0, 0)];

    let result = bounded_string_edit_distance_with_structure(&v2, &v1, 3);
    assert_eq!(result, 3);
}

#[test]
fn test_sed_preorder_structure() {
    let t1str = "{a{a{b{a{a}}}}}".to_owned();
    let t2str = "{a{b{b{b}}{a{a}}}}".to_owned();
    let mut ld = LabelDict::new();
    let qt = parse_single(t1str, &mut ld);
    let tt = parse_single(t2str, &mut ld);
    let mut algo = StringStructAlgorithm {
        traversal_selection: TraversalSelection::default(),
    };
    let result = algo.preprocess(&[qt.clone(), tt.clone()]).unwrap();

    let [qs, ts, ..] = result.as_slice() else {
        panic!("Expected at least 2 elements");
    };

    assert_eq!(
        qs.first_traversal,
        vec![tc(1, 4, 4), tc(1, 3, 3), tc(2, 2, 2), tc(1, 1, 1), tc(1, 0, 0)]
    );

    assert_eq!(
        qs.second_traversal,
        vec![tc(1, 4, -4), tc(1, 3, -3), tc(2, 2, -2), tc(1, 1, -1), tc(1, 0, 0)]
    );

    assert_eq!(
        ts.first_traversal,
        vec![tc(1, 5, 5), tc(2, 4, 4), tc(2, 3, -1), tc(2, 2, -2), tc(1, 1, 1), tc(1, 0, 0)]
    );
}

#[test]
fn sed_struct_size_gap_gives_threshold_plus_one() {
    let mut ld = LabelDict::new();
    let t1 = parse_single("{a}".to_string(), &mut ld);
    let t2 = parse_single("{a{b}{c}{d}}".to_string(), &mut ld);
    let mut algo = StringStructFactory::create_algorithm();
    let idx = algo.preprocess(&[t1, t2]).unwrap();
    assert_eq!(sed_struct_k(&idx[0], &idx[1], 2), 3);
    assert_eq!(algo.lower_bound(&idx[0], &idx[1], 2), 3);
    // Identical trees are within any threshold.
    assert_eq!(algo.lower_bound(&idx[1], &idx[1], 2), 0);
}
