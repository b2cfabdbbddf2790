//! The command line's choices: which lower-bound method to run and over
//! which traversals.

use vstd::prelude::*;

use crate::base::{TraversalKind, TraversalSelection};
use crate::bib::BinaryBranchFactory;
use crate::label_intersection::{LabelIntersectionAlgorithm, LabelIntersectionFactory};
use crate::search::{
    create_algorithm, create_sed_algorithm, create_sed_exact_algorithm, create_sed_struct_algorithm,
    Algorithm,
};
use crate::sed::SedAlgorithm;
use crate::sed_exact::SedExactAlgorithm;
use crate::sed_struct::StringStructAlgorithm;
use crate::structural::{StructuralLowerBoundFactory, StructuralLowerBoundMethod};

verus! {

/// The lower-bound methods that the command line offers.
#[derive(Debug, Copy, Clone, PartialEq, Eq, PartialOrd, Ord)]
pub enum LowerBoundMethods {
    /// Label intersection lower bound
    Lblint,
    /// String edit distance lower bound
    Sed,
    /// Exact string edit distance lower bound
    SedExact,
    /// String edit distance with structure lower bound
    SEDStruct,
    /// Structural filter lower bound
    StructuralVectors,
    /// Binary branch lower bound
    Bib,
}

/// The traversals that the command line offers.
#[derive(Debug, Copy, Clone, PartialEq, Eq, PartialOrd, Ord)]
pub enum TraversalOption {
    Preorder,
    Postorder,
    ReversedPreorder,
    ReversedPostorder,
}

/// The traversal that an option names.
pub open spec fn traversal_of(value: TraversalOption) -> TraversalKind {
    match value {
        TraversalOption::Preorder => TraversalKind::Preorder,
        TraversalOption::Postorder => TraversalKind::Postorder,
        TraversalOption::ReversedPreorder => TraversalKind::ReversedPreorder,
        TraversalOption::ReversedPostorder => TraversalKind::ReversedPostorder,
    }
}

impl From<TraversalOption> for TraversalKind {
    fn from(value: TraversalOption) -> (r: TraversalKind)
        ensures
            r == traversal_of(value),
    {
        match value {
            TraversalOption::Preorder => TraversalKind::Preorder,
            TraversalOption::Postorder => TraversalKind::Postorder,
            TraversalOption::ReversedPreorder => TraversalKind::ReversedPreorder,
            TraversalOption::ReversedPostorder => TraversalKind::ReversedPostorder,
        }
    }
}

impl vstd::std_specs::convert::FromSpecImpl<TraversalOption> for TraversalKind {
    open spec fn obeys_from_spec() -> bool {
        true
    }

    open spec fn from_spec(v: TraversalOption) -> TraversalKind {
        traversal_of(v)
    }
}

/// The command line: where the dataset and the queries are, which method
/// to run over which traversals, how often, and the queries' delimiter.
pub struct Cli {
    /// Path to the dataset file
    pub dataset: String,
    /// Path to the queries file in CSV format <threshold>;<tree>
    pub queries: String,
    /// Run using this lower bound method
    pub method: LowerBoundMethods,
    /// First traversal used by sed, sed-exact, and sed-struct
    pub sed_traversal_first: TraversalOption,
    /// Second traversal used by sed, sed-exact, and sed-struct
    pub sed_traversal_second: TraversalOption,
    /// Total number of runs for each method
    pub runs: usize,
    /// CSV query delimiter
    pub delimiter: char,
}

impl Cli {
    /// The traversals that the command line selects.
    pub open spec fn selection(&self) -> TraversalSelection {
        TraversalSelection {
            first: traversal_of(self.sed_traversal_first),
            second: traversal_of(self.sed_traversal_second),
        }
    }

    /// The method that the command line selects, over its traversals where
    /// the method uses them.
    pub fn algorithm(&self) -> (r: Algorithm)
        ensures
            match self.method {
                LowerBoundMethods::Lblint => r == Algorithm::LabelIntersection(
                    LabelIntersectionAlgorithm,
                ),
                LowerBoundMethods::Sed => r == Algorithm::Sed(
                    SedAlgorithm { traversal_selection: self.selection() },
                ),
                LowerBoundMethods::SedExact => r == Algorithm::SedExact(
                    SedExactAlgorithm { traversal_selection: self.selection() },
                ),
                LowerBoundMethods::SEDStruct => r == Algorithm::StringStruct(
                    StringStructAlgorithm { traversal_selection: self.selection() },
                ),
                LowerBoundMethods::StructuralVectors => r == Algorithm::StructuralVectors(
                    StructuralLowerBoundMethod,
                ),
                LowerBoundMethods::Bib => r matches Algorithm::BinaryBranch(b)
                    && b.numbering() == Map::<crate::fx_map::BranchTuple, i32>::empty()
                    && b.last_id() == 0,
            },
    {
        let traversal_a: TraversalKind = TraversalKind::from(self.sed_traversal_first);
        let traversal_b: TraversalKind = TraversalKind::from(self.sed_traversal_second);
        match self.method {
            LowerBoundMethods::Lblint => create_algorithm::<LabelIntersectionFactory>(),
            LowerBoundMethods::Sed => create_sed_algorithm(traversal_a, traversal_b),
            LowerBoundMethods::SedExact => create_sed_exact_algorithm(traversal_a, traversal_b),
            LowerBoundMethods::SEDStruct => create_sed_struct_algorithm(traversal_a, traversal_b),
            LowerBoundMethods::StructuralVectors => create_algorithm::<StructuralLowerBoundFactory>(),
            LowerBoundMethods::Bib => create_algorithm::<BinaryBranchFactory>(),
        }
    }
}

} // verus!
