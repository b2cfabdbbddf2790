use ted_search::base::TraversalSelection;
use ted_search::index_gram::IndexGram;
use ted_search::label_dict::LabelDict;
use ted_search::parsing::parse_single;
use ted_search::sed::{IndexParams, SEDIndex, SedAlgorithm};

fn sample_index() -> IndexGram {
    let data = vec![vec![1, 2, 3, 4], vec![1, 2, 3, 5], vec![9, 9, 9, 9]];
    IndexGram::new(&data, 2)
}

fn sorted(mut v: Vec<usize>) -> Vec<usize> {
    v.sort();
    v
}

#[test]
fn index_query_keeps_exact_match_at_zero_threshold() {
    let index = sample_index();
    let r = index.query(vec![1, 2, 3, 4], 0).unwrap();
    assert_eq!(r, vec![0]);
    let r = index.query(vec![1, 2, 3, 5], 0).unwrap();
    assert_eq!(r, vec![1]);
}

#[test]
fn index_query_widens_with_threshold() {
    let index = sample_index();
    let r = index.query(vec![1, 2, 3, 4], 1).unwrap();
    assert_eq!(sorted(r), vec![0, 1]);
}

#[test]
fn index_query_rejects_threshold_of_whole_chunks() {
    let index = sample_index();
    assert!(index.query(vec![1, 2, 3], 1).is_err());
    assert!(index.query(vec![1, 2, 3, 4], 2).is_err());
    assert!(index.query(vec![1, 2, 3], 0).is_ok());
}

#[test]
fn index_query_filters_by_length() {
    // Strings of length 2 and 8 lie outside [4 - 0, 4 + 0 + 1).
    let data = vec![vec![1, 2], vec![1, 2, 3, 4], vec![1, 2, 3, 4, 5, 6, 7, 8]];
    let index = IndexGram::new(&data, 2);
    let r = index.query(vec![1, 2, 3, 4], 0).unwrap();
    assert_eq!(r, vec![1]);
}

#[test]
fn index_query_needs_grams_near_their_chunk() {
    // The chunks match, but two places away from where they stand.
    let data = vec![vec![3, 4, 1, 2]];
    let index = IndexGram::new(&data, 2);
    let r = index.query(vec![1, 2, 3, 4], 0).unwrap();
    assert!(r.is_empty());
    let r = index.query(vec![1, 2, 3, 4], 1).unwrap();
    assert!(r.is_empty());
}

#[test]
fn index_query_does_not_chain_chunks_with_equal_labels() {
    // Both chunks of the query are [1, 2]; matches of equal chunks are not
    // compatible, so no chain reaches two.
    let data = vec![vec![1, 2, 1, 2]];
    let index = IndexGram::new(&data, 2);
    let r = index.query(vec![1, 2, 1, 2], 0).unwrap();
    assert!(r.is_empty());
}

#[test]
fn sed_index_methods_use_first_traversal() {
    let mut ld = LabelDict::new();
    let trees = vec![
        parse_single("{a{b}{c}}".to_string(), &mut ld),
        parse_single("{a{b}{d}}".to_string(), &mut ld),
        parse_single("{x{y}{z}}".to_string(), &mut ld),
    ];
    let data: Vec<SEDIndex> = trees
        .iter()
        .map(|t| ted_search::sed::preprocess_tree(t, TraversalSelection::default()))
        .collect();
    let alg = SedAlgorithm::default();
    let index = alg.build_index(&data, &IndexParams { q: 1 }).unwrap();
    let r = alg.query_index(&data[0], &index, 0);
    assert_eq!(r, vec![0]);
    let r = sorted(alg.query_index(&data[0], &index, 1));
    assert_eq!(r, vec![0, 1]);
}
