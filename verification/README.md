# ted_search

Similarity search over collections of ordered labelled trees: for each query
tree and threshold `k`, report the data trees whose lower bound of the tree
edit distance is at most `k`. The library is written in Verus; each function
carries `requires` / `ensures` and is proved against them.

The tree edit distance computations (`topdiff`, the driver of `struct_diff`)
are proved never to fall below the tree edit distance of `src/ted.rs`
capped at `k + 1`, and to answer `k + 1` exactly when that distance exceeds
`k`, for indexes whose nodes lie on the left paths of their keyroot
ancestors (`kr_paths`; the index of every tree has them,
`lemma_index_kr_paths`). That they never overestimate the distance is not
stated. A single `TopDiffState::tree_dist` call reaches the subtree
distance only when the two subtree sizes differ by at most its budget;
otherwise it reports the last cell of its band. The structure-restricted
string distance (`sed_struct`) states ranges, sound bounds and exact values
on equal inputs, not the full distance.

## Layout

- `src/tree.rs`, `src/parsing.rs`, `src/label_dict.rs`, `src/dataset.rs`:
  trees, the bracket notation parser, the label dictionary and the ordering
  of a dataset by tree size.
- `src/edit_distance.rs`: the string edit distance as a spec function, with
  its basic laws (symmetry, distance to itself, invariance under reversing
  both sequences), and the full and exact dynamic programs.
- Lower bounds, one module each, all implementing `base::LowerBoundMethod`:
  `label_intersection`, `sed` (banded Berghel–Roach string edit distance of two
  traversals), `sed_exact`, `sed2`, `sed_struct`, `structural`, `bib`,
  `struct_diff`.
- `src/index_gram.rs`: the q-gram index of the SED method.
- `src/topdiff.rs`, `src/band_matrix.rs`: the bounded tree edit distance over
  keyroot pairs.
- `src/ted.rs`: the tree edit distance as a spec function (Zhang and Shasha's
  forest recurrence over postorder indexes), with the laws that it is
  symmetric and that the string edit distance of the preorder label
  sequences, that of the postorder label sequences (and of their
  reversals), the size difference, the SED and SED-EXACT bounds, and the
  label intersection bound never exceed it.
- `src/search.rs`, `src/cli.rs`: the search pipeline and the choice of method.
- `src/fx_map.rs`: the `rustc-hash` maps the library uses, with their
  contracts.
- `app/`: the command line program (argument parsing, file reading, output).
- `tests/`: tests of the library on concrete inputs.
