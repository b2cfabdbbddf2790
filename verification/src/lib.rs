//! Lower bounds and bounded distances for the tree edit distance, each
//! function with a contract that its body is proved against.

pub mod band_matrix;
pub mod base;
pub mod bib;
pub mod cli;
pub mod dataset;
pub mod edit_distance;
pub mod fx_map;
pub mod index_gram;
pub mod label_dict;
pub mod label_intersection;
pub mod parsing;
pub mod sed;
pub mod sed2;
pub mod sed_exact;
pub mod search;
pub mod sed_struct;
pub mod struct_diff;
pub mod structural;
pub mod topdiff;
pub mod ted;
pub mod tree;
