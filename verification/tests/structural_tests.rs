use ted_search::base::{AlgorithmFactory, LowerBoundMethod};
use ted_search::label_dict::LabelDict;
use ted_search::parsing::parse_single;
use ted_search::structural::{
    svec_l1_strict, ted, StructuralLabelMap, StructuralLowerBoundFactory,
    StructuralLowerBoundMethod, StructuralVector,
};

fn sv(regions: [i32; 4], postorder_id: usize) -> StructuralVector {
    StructuralVector { regions, postorder_id }
}

/// The label map as sorted (label, vectors) pairs.
fn entries(m: &StructuralLabelMap) -> Vec<(i32, Vec<StructuralVector>)> {
    let mut labels = m.labels();
    labels.sort_unstable();
    labels
        .into_iter()
        .map(|l| (l, m.get(l).unwrap().clone()))
        .collect()
}

#[test]
fn test_label_set_converting() {
    let t1input = "{a{b{b{a}}{a}}}".to_owned();
    let mut label_dict = LabelDict::new();
    let t1 = parse_single(t1input, &mut label_dict);

    let mut lb_method = StructuralLowerBoundMethod {};

    let preprocessed = lb_method
        .preprocess(&[t1])
        .expect("unable to preprocess tree");

    let single_tree = preprocessed.first().unwrap();

    let structural_tree = vec![
        (
            1,
            vec![sv([0, 3, 1, 0], 1), sv([2, 2, 0, 0], 3), sv([0, 0, 0, 4], 5)],
        ),
        (2, vec![sv([0, 2, 1, 1], 2), sv([0, 1, 0, 3], 4)]),
    ];

    assert_eq!(entries(single_tree), structural_tree);
}

#[test]
fn test_label_set_converting_second() {
    let t1input = "{a{b{a}{b{a}}}}".to_owned();

    let mut label_dict = LabelDict::new();
    let t1 = parse_single(t1input, &mut label_dict);

    let mut lb_method = StructuralLowerBoundMethod {};

    let preprocessed = lb_method
        .preprocess(&[t1])
        .expect("unable to preprocess tree");

    let single_tree = preprocessed.first().unwrap();

    let structural_tree = vec![
        (
            1,
            vec![sv([0, 2, 2, 0], 1), sv([1, 3, 0, 0], 2), sv([0, 0, 0, 4], 5)],
        ),
        (2, vec![sv([1, 2, 0, 1], 3), sv([0, 1, 0, 3], 4)]),
    ];

    assert_eq!(entries(single_tree), structural_tree);
}

#[test]
fn test_structural_distance() {
    let t1input = "{a{b}{a{b}{c}{a}}{b}}".to_owned();
    let t2input = "{a{c}{b{a{a}{b}{c}}}}".to_owned();
    let mut label_dict = LabelDict::new();
    let t1 = parse_single(t1input, &mut label_dict);
    let t2 = parse_single(t2input, &mut label_dict);
    let v = vec![t1, t2];
    let mut lb_method = StructuralLowerBoundMethod {};
    let preprocessed = lb_method
        .preprocess(&v)
        .expect("unable to preprocess tree");

    let lb = lb_method.lower_bound(&preprocessed[0], &preprocessed[1], 4);

    assert_eq!(lb, 2);
}

#[test]
fn structural_size_gap_and_identity() {
    let mut label_dict = LabelDict::new();
    let t1 = parse_single("{a}".to_string(), &mut label_dict);
    let t2 = parse_single("{a{b}{c}{d}}".to_string(), &mut label_dict);
    let mut lb_method = StructuralLowerBoundFactory::create_algorithm();
    let p = lb_method.preprocess(&[t1, t2]).unwrap();
    // Sizes 1 and 4 differ by more than 2.
    assert_eq!(ted(&p[0], &p[1], 2), 3);
    // A tree matches itself node for node.
    assert_eq!(ted(&p[1], &p[1], 2), 0);
}

#[test]
fn structural_l1_distance() {
    assert_eq!(svec_l1_strict(&[0, 3, 1, 0], &[2, 2, 0, 0]), 4);
    assert_eq!(svec_l1_strict(&[1, 1, 1, 1], &[1, 1, 1, 1]), 0);
}
