//! Threshold search: every query tree is compared with every data tree by a
//! lower-bound method, and the data trees whose bound stays within the
//! query's threshold are reported.

use vstd::prelude::*;

use crate::base::{AlgorithmFactory, LowerBoundMethod, TraversalKind, TraversalSelection};
use crate::bib::BinaryBranchAlgorithm;
use crate::label_intersection::LabelIntersectionAlgorithm;
use crate::sed::SedAlgorithm;
use crate::sed_exact::SedExactAlgorithm;
use crate::sed_struct::StringStructAlgorithm;
use crate::structural::StructuralLowerBoundMethod;
use crate::tree::{parsed_view, trees_view, ParsedTree, SpecTree};

verus! {

/// The values of the query trees.
pub open spec fn query_views(queries: Seq<(usize, ParsedTree)>) -> Seq<Option<SpecTree>> {
    queries.map_values(|q: (usize, ParsedTree)| parsed_view(q.1))
}

/// Positions, in increasing order, of the bounds that are at most `k`.
pub open spec fn positions_within(bounds: Seq<usize>, k: usize) -> Seq<usize>
    decreases bounds.len(),
{
    if bounds.len() == 0 {
        Seq::empty()
    } else {
        let rest = positions_within(bounds.drop_last(), k);
        if bounds.last() <= k {
            rest.push((bounds.len() - 1) as usize)
        } else {
            rest
        }
    }
}

/// An answer lists data positions in increasing order, exactly those
/// whose bound is at most the threshold.
pub proof fn lemma_positions_within(bounds: Seq<usize>, k: usize)
    requires
        bounds.len() <= usize::MAX,
    ensures
        forall|i: int, j: int|
            0 <= i < j < positions_within(bounds, k).len() ==> #[trigger] positions_within(
                bounds,
                k,
            )[i] < #[trigger] positions_within(bounds, k)[j],
        forall|i: int|
            0 <= i < positions_within(bounds, k).len() ==> #[trigger] positions_within(bounds, k)[i]
                < bounds.len(),
        forall|j: int|
            0 <= j < bounds.len() ==> (#[trigger] bounds[j] <= k <==> positions_within(
                bounds,
                k,
            ).contains(j as usize)),
    decreases bounds.len(),
{
    if bounds.len() > 0 {
        let rest = bounds.drop_last();
        lemma_positions_within(rest, k);
        let pr = positions_within(rest, k);
        let pw = positions_within(bounds, k);
        let last = (bounds.len() - 1) as usize;
        assert(forall|i: int| 0 <= i < pr.len() ==> #[trigger] pr[i] < rest.len());
        if bounds.last() <= k {
            assert(pw == pr.push(last));
        } else {
            assert(pw == pr);
        }
        assert forall|i: int, j: int| 0 <= i < j < pw.len() implies #[trigger] pw[i] < #[trigger] pw[j] by {
            if j < pr.len() {
                assert(pw[i] == pr[i] && pw[j] == pr[j]);
            } else {
                assert(pw[i] == pr[i]);
            }
        }
        assert forall|i: int| 0 <= i < pw.len() implies #[trigger] pw[i] < bounds.len() by {
            if i < pr.len() {
                assert(pw[i] == pr[i]);
            }
        }
        assert forall|j: int| 0 <= j < bounds.len() implies (#[trigger] bounds[j] <= k
            <==> pw.contains(j as usize)) by {
            if j < bounds.len() - 1 {
                assert(rest[j] == bounds[j]);
                if pw.contains(j as usize) {
                    let a = choose|a: int| 0 <= a < pw.len() && pw[a] == j as usize;
                    if a < pr.len() {
                        assert(pr[a] == j as usize);
                        assert(pr.contains(j as usize));
                    }
                }
                if pr.contains(j as usize) {
                    let a = choose|a: int| 0 <= a < pr.len() && pr[a] == j as usize;
                    assert(pw[a] == j as usize);
                }
            } else {
                if bounds.last() <= k {
                    assert(pw[pr.len() as int] == last);
                } else if pw.contains(j as usize) {
                    let a = choose|a: int| 0 <= a < pw.len() && pw[a] == j as usize;
                    assert(pr[a] < rest.len());
                }
            }
        }
    }
}

/// `hits` lists the data trees whose bound against `q` at `k` is at most
/// `k`, for bounds `bounds` that the method gave for each data tree.
pub open spec fn answers<T: LowerBoundMethod>(
    algo: T,
    q: T::PreprocessedDataType,
    pd: Seq<T::PreprocessedDataType>,
    k: usize,
    bounds: Seq<usize>,
    hits: Seq<usize>,
) -> bool {
    &&& bounds.len() == pd.len()
    &&& forall|j: int| 0 <= j < pd.len() ==> algo.bound_holds(q, pd[j], k, #[trigger] bounds[j])
    &&& hits == positions_within(bounds, k)
}

/// Some bounds that the method gave for each data tree make `hits` the
/// answer to `q` at `k`.
pub open spec fn row_answers<T: LowerBoundMethod>(
    algo: T,
    q: T::PreprocessedDataType,
    pd: Seq<T::PreprocessedDataType>,
    k: usize,
    hits: Seq<usize>,
) -> bool {
    exists|bounds: Seq<usize>| #[trigger] answers(algo, q, pd, k, bounds, hits)
}

/// `pd` is what preprocessing made of the data trees, `pq` what it made of
/// trees with the values of the query trees, and each row of `result`
/// answers one query at its threshold.
pub open spec fn search_outcome<T: LowerBoundMethod>(
    algo: T,
    data: Seq<ParsedTree>,
    queries: Seq<(usize, ParsedTree)>,
    pd: Seq<T::PreprocessedDataType>,
    pq: Seq<T::PreprocessedDataType>,
    result: Seq<Vec<usize>>,
) -> bool {
    &&& pd.len() == data.len()
    &&& forall|j: int|
        0 <= j < data.len() ==> algo.prepared(#[trigger] pd[j]) && algo.describes(pd[j], data[j])
    &&& pq.len() == queries.len()
    &&& forall|i: int|
        0 <= i < queries.len() ==> algo.prepared(#[trigger] pq[i]) && exists|t: ParsedTree|
            parsed_view(t) == parsed_view(queries[i].1) && #[trigger] algo.describes(pq[i], t)
    &&& result.len() == queries.len()
    &&& forall|i: int|
        0 <= i < queries.len() ==> row_answers(algo, pq[i], pd, queries[i].0, (#[trigger] result[i])@)
}

/// `algo` takes the trees and every query threshold.
pub open spec fn search_accepts<T: LowerBoundMethod>(
    algo: T,
    trees: Seq<Option<SpecTree>>,
    queries: Seq<(usize, ParsedTree)>,
) -> bool {
    &&& algo.accepts(trees)
    &&& forall|q: T::PreprocessedDataType, d: T::PreprocessedDataType, i: int|
        0 <= i < queries.len() ==> #[trigger] algo.supports(q, d, queries[i].0)
}

/// Preprocesses the query trees one at a time, each as a copy.
fn preprocess_queries<T: LowerBoundMethod>(
    algo_instance: &mut T,
    queries: &[(usize, ParsedTree)],
) -> (pq: Vec<T::PreprocessedDataType>)
    requires
        old(algo_instance).accepts(query_views(queries@)),
    ensures
        pq@.len() == queries@.len(),
        forall|m: int|
            0 <= m < queries@.len() ==> final(algo_instance).prepared(#[trigger] pq@[m])
                && exists|t: ParsedTree|
                parsed_view(t) == parsed_view(queries@[m].1) && #[trigger] final(algo_instance).describes(pq@[m], t),
        forall|p: T::PreprocessedDataType| #[trigger]
            old(algo_instance).prepared(p) ==> final(algo_instance).prepared(p),
        forall|p: T::PreprocessedDataType, t: ParsedTree| #[trigger]
            old(algo_instance).describes(p, t) ==> final(algo_instance).describes(p, t),
        forall|q: T::PreprocessedDataType, d: T::PreprocessedDataType, k: usize| #[trigger]
            final(algo_instance).supports(q, d, k) == old(algo_instance).supports(q, d, k),
        forall|q: T::PreprocessedDataType, d: T::PreprocessedDataType, k: usize, b: usize|
            #[trigger] final(algo_instance).bound_holds(q, d, k, b) == old(algo_instance).bound_holds(q, d, k, b),
{
    let ghost qv = query_views(queries@);
    let ghost start = *algo_instance;
    proof {
        assert(qv.skip(0) =~= qv);
    }
    let mut preprocessed_queries: Vec<T::PreprocessedDataType> = Vec::new();
    let mut i: usize = 0;
    while i < queries.len()
        invariant
            i <= queries@.len(),
            qv == query_views(queries@),
            preprocessed_queries@.len() == i,
            algo_instance.accepts(qv.skip(i as int)),
            forall|m: int|
                0 <= m < i ==> algo_instance.prepared(#[trigger] preprocessed_queries@[m])
                    && exists|t: ParsedTree|
                    parsed_view(t) == parsed_view(queries@[m].1) && #[trigger] algo_instance.describes(
                        preprocessed_queries@[m],
                        t,
                    ),
            forall|p: T::PreprocessedDataType| #[trigger]
                start.prepared(p) ==> algo_instance.prepared(p),
            forall|p: T::PreprocessedDataType, t: ParsedTree| #[trigger]
                start.describes(p, t) ==> algo_instance.describes(p, t),
            forall|q: T::PreprocessedDataType, d: T::PreprocessedDataType, k: usize| #[trigger]
                algo_instance.supports(q, d, k) == start.supports(q, d, k),
            forall|q: T::PreprocessedDataType, d: T::PreprocessedDataType, k: usize, b: usize|
                #[trigger] algo_instance.bound_holds(q, d, k, b) == start.bound_holds(q, d, k, b),
        decreases queries@.len() - i,
    {
        let ghost before = *algo_instance;
        let tree = queries[i].1.clone();
        let ghost t = tree;
        let mut one: Vec<ParsedTree> = Vec::new();
        one.push(tree);
        proof {
            assert(trees_view(one@) =~= seq![parsed_view(queries@[i as int].1)]);
            assert(trees_view(one@) + qv.skip(i + 1) =~= qv.skip(i as int));
            algo_instance.lemma_accepts_prefix(trees_view(one@), qv.skip(i + 1));
        }
        let mut pq = match algo_instance.preprocess(one.as_slice()) {
            Ok(v) => v,
            Err(_) => {
                proof {
                    assert(false);
                }
                return Vec::new();
            },
        };
        let p = pq.remove(0);
        proof {
            assert(algo_instance.describes(p, t));
            assert forall|m: int| 0 <= m < i implies algo_instance.prepared(
                #[trigger] preprocessed_queries@[m],
            ) && exists|t2: ParsedTree|
                parsed_view(t2) == parsed_view(queries@[m].1) && #[trigger] algo_instance.describes(
                    preprocessed_queries@[m],
                    t2,
                ) by {
                let t2 = choose|t2: ParsedTree|
                    parsed_view(t2) == parsed_view(queries@[m].1) && #[trigger] before.describes(
                        preprocessed_queries@[m],
                        t2,
                    );
                assert(algo_instance.describes(preprocessed_queries@[m], t2));
            }
        }
        preprocessed_queries.push(p);
        i = i + 1;
    }
    assert forall|m: int| 0 <= m < queries@.len() implies algo_instance.prepared(
        #[trigger] preprocessed_queries@[m],
    ) && exists|t: ParsedTree|
        parsed_view(t) == parsed_view(queries@[m].1) && #[trigger] algo_instance.describes(
            preprocessed_queries@[m],
            t,
        ) by {
        assert(m < i);
    }
    preprocessed_queries
}

/// Answers query `m` with the data trees whose bound against it is at most
/// its threshold.
fn answer_queries<T: LowerBoundMethod>(
    algo_instance: &T,
    preprocessed: &Vec<T::PreprocessedDataType>,
    preprocessed_queries: &Vec<T::PreprocessedDataType>,
    queries: &[(usize, ParsedTree)],
) -> (r: Vec<Vec<usize>>)
    requires
        preprocessed_queries@.len() == queries@.len(),
        forall|m: int|
            0 <= m < queries@.len() ==> algo_instance.prepared(#[trigger] preprocessed_queries@[m]),
        forall|j: int|
            0 <= j < preprocessed@.len() ==> algo_instance.prepared(#[trigger] preprocessed@[j]),
        forall|q: T::PreprocessedDataType, d: T::PreprocessedDataType, m: int|
            0 <= m < queries@.len() ==> #[trigger] algo_instance.supports(q, d, queries@[m].0),
    ensures
        r@.len() == queries@.len(),
        forall|m: int|
            0 <= m < queries@.len() ==> row_answers(
                *algo_instance,
                preprocessed_queries@[m],
                preprocessed@,
                queries@[m].0,
                (#[trigger] r@[m])@,
            ),
{
    let mut results: Vec<Vec<usize>> = Vec::new();
    let mut i: usize = 0;
    while i < queries.len()
        invariant
            i <= queries@.len(),
            preprocessed_queries@.len() == queries@.len(),
            results@.len() == i,
            forall|q: T::PreprocessedDataType, d: T::PreprocessedDataType, m: int|
                0 <= m < queries@.len() ==> #[trigger] algo_instance.supports(q, d, queries@[m].0),
            forall|j: int|
                0 <= j < preprocessed@.len() ==> algo_instance.prepared(#[trigger] preprocessed@[j]),
            forall|m: int|
                0 <= m < queries@.len() ==> algo_instance.prepared(
                    #[trigger] preprocessed_queries@[m],
                ),
            forall|m: int|
                0 <= m < i ==> row_answers(
                    *algo_instance,
                    preprocessed_queries@[m],
                    preprocessed@,
                    queries@[m].0,
                    (#[trigger] results@[m])@,
                ),
        decreases queries@.len() - i,
    {
        let k = queries[i].0;
        let query = &preprocessed_queries[i];
        let mut result: Vec<usize> = Vec::new();
        let ghost mut bounds: Seq<usize> = Seq::empty();
        let mut j: usize = 0;
        while j < preprocessed.len()
            invariant
                j <= preprocessed@.len(),
                i < queries@.len(),
                k == queries@[i as int].0,
                *query == preprocessed_queries@[i as int],
                algo_instance.prepared(*query),
                forall|q: T::PreprocessedDataType, d: T::PreprocessedDataType, m: int|
                    0 <= m < queries@.len() ==> #[trigger] algo_instance.supports(q, d, queries@[m].0),
                forall|jj: int|
                    0 <= jj < preprocessed@.len() ==> algo_instance.prepared(
                        #[trigger] preprocessed@[jj],
                    ),
                bounds.len() == j,
                forall|jj: int|
                    0 <= jj < j ==> algo_instance.bound_holds(
                        *query,
                        preprocessed@[jj],
                        k,
                        #[trigger] bounds[jj],
                    ),
                result@ == positions_within(bounds, k),
            decreases preprocessed@.len() - j,
        {
            let lb = algo_instance.lower_bound(query, &preprocessed[j], k);
            proof {
                assert(bounds.push(lb).drop_last() =~= bounds);
                bounds = bounds.push(lb);
            }
            if lb <= k {
                result.push(j);
            }
            j = j + 1;
        }
        proof {
            assert(answers(*algo_instance, *query, preprocessed@, k, bounds, result@));
        }
        results.push(result);
        i = i + 1;
    }
    results
}

/// Preprocesses the data trees and then each query tree, and answers every
/// query: the data trees whose bound is at most the query's threshold.
pub fn run_search_pipeline<T: LowerBoundMethod>(
    algo_instance: &mut T,
    data: &[ParsedTree],
    queries: &[(usize, ParsedTree)],
) -> (r: Vec<Vec<usize>>)
    requires
        search_accepts(*old(algo_instance), trees_view(data@) + query_views(queries@), queries@),
    ensures
        exists|pd: Seq<T::PreprocessedDataType>, pq: Seq<T::PreprocessedDataType>| #[trigger]
            search_outcome(*final(algo_instance), data@, queries@, pd, pq, r@),
{
    proof {
        old(algo_instance).lemma_accepts_prefix(trees_view(data@), query_views(queries@));
    }
    let preprocessed = match algo_instance.preprocess(data) {
        Ok(v) => v,
        Err(_) => {
            proof {
                assert(false);
            }
            return Vec::new();
        },
    };
    let ghost middle = *algo_instance;
    let preprocessed_queries = preprocess_queries(algo_instance, queries);
    proof {
        assert forall|j: int| 0 <= j < data@.len() implies algo_instance.prepared(
            #[trigger] preprocessed@[j],
        ) && algo_instance.describes(preprocessed@[j], data@[j]) by {
            assert(middle.prepared(preprocessed@[j]));
            assert(middle.describes(preprocessed@[j], data@[j]));
        }
    }
    let results = answer_queries(&*algo_instance, &preprocessed, &preprocessed_queries, queries);
    proof {
        assert(search_outcome(
            *algo_instance,
            data@,
            queries@,
            preprocessed@,
            preprocessed_queries@,
            results@,
        ));
    }
    results
}

/// A lower-bound method of one of the kinds that search supports.
pub enum Algorithm {
    LabelIntersection(LabelIntersectionAlgorithm),
    Sed(SedAlgorithm),
    SedExact(SedExactAlgorithm),
    StringStruct(StringStructAlgorithm),
    StructuralVectors(StructuralLowerBoundMethod),
    BinaryBranch(BinaryBranchAlgorithm),
}

impl Algorithm {
    /// The method takes the data trees, the query trees and every query's
    /// threshold.
    pub open spec fn takes(&self, data: Seq<ParsedTree>, queries: Seq<(usize, ParsedTree)>) -> bool {
        let trees = trees_view(data) + query_views(queries);
        match *self {
            Algorithm::LabelIntersection(a) => search_accepts(a, trees, queries),
            Algorithm::Sed(a) => search_accepts(a, trees, queries),
            Algorithm::SedExact(a) => search_accepts(a, trees, queries),
            Algorithm::StringStruct(a) => search_accepts(a, trees, queries),
            Algorithm::StructuralVectors(a) => search_accepts(a, trees, queries),
            Algorithm::BinaryBranch(a) => search_accepts(a, trees, queries),
        }
    }

    /// `result` answers every query against the data trees, for this state
    /// of the method.
    pub open spec fn answered(
        &self,
        data: Seq<ParsedTree>,
        queries: Seq<(usize, ParsedTree)>,
        result: Seq<Vec<usize>>,
    ) -> bool {
        match *self {
            Algorithm::LabelIntersection(a) => exists|
                pd: Seq<<LabelIntersectionAlgorithm as LowerBoundMethod>::PreprocessedDataType>,
                pq: Seq<<LabelIntersectionAlgorithm as LowerBoundMethod>::PreprocessedDataType>,
            | #[trigger] search_outcome(a, data, queries, pd, pq, result),
            Algorithm::Sed(a) => exists|
                pd: Seq<<SedAlgorithm as LowerBoundMethod>::PreprocessedDataType>,
                pq: Seq<<SedAlgorithm as LowerBoundMethod>::PreprocessedDataType>,
            | #[trigger] search_outcome(a, data, queries, pd, pq, result),
            Algorithm::SedExact(a) => exists|
                pd: Seq<<SedExactAlgorithm as LowerBoundMethod>::PreprocessedDataType>,
                pq: Seq<<SedExactAlgorithm as LowerBoundMethod>::PreprocessedDataType>,
            | #[trigger] search_outcome(a, data, queries, pd, pq, result),
            Algorithm::StringStruct(a) => exists|
                pd: Seq<<StringStructAlgorithm as LowerBoundMethod>::PreprocessedDataType>,
                pq: Seq<<StringStructAlgorithm as LowerBoundMethod>::PreprocessedDataType>,
            | #[trigger] search_outcome(a, data, queries, pd, pq, result),
            Algorithm::StructuralVectors(a) => exists|
                pd: Seq<<StructuralLowerBoundMethod as LowerBoundMethod>::PreprocessedDataType>,
                pq: Seq<<StructuralLowerBoundMethod as LowerBoundMethod>::PreprocessedDataType>,
            | #[trigger] search_outcome(a, data, queries, pd, pq, result),
            Algorithm::BinaryBranch(a) => exists|
                pd: Seq<<BinaryBranchAlgorithm as LowerBoundMethod>::PreprocessedDataType>,
                pq: Seq<<BinaryBranchAlgorithm as LowerBoundMethod>::PreprocessedDataType>,
            | #[trigger] search_outcome(a, data, queries, pd, pq, result),
        }
    }

    /// Both are methods of the same kind.
    pub open spec fn same_kind(&self, other: Algorithm) -> bool {
        match (*self, other) {
            (Algorithm::LabelIntersection(_), Algorithm::LabelIntersection(_)) => true,
            (Algorithm::Sed(_), Algorithm::Sed(_)) => true,
            (Algorithm::SedExact(_), Algorithm::SedExact(_)) => true,
            (Algorithm::StringStruct(_), Algorithm::StringStruct(_)) => true,
            (Algorithm::StructuralVectors(_), Algorithm::StructuralVectors(_)) => true,
            (Algorithm::BinaryBranch(_), Algorithm::BinaryBranch(_)) => true,
            _ => false,
        }
    }

    /// Returns the indices of the data trees that are within the given
    /// threshold of each query tree, as far as the method's bound tells.
    pub fn search(&mut self, data: &[ParsedTree], queries: &[(usize, ParsedTree)]) -> (r: Vec<
        Vec<usize>,
    >)
        requires
            old(self).takes(data@, queries@),
        ensures
            final(self).same_kind(*old(self)),
            final(self).answered(data@, queries@, r@),
    {
        let mut taken = Algorithm::LabelIntersection(LabelIntersectionAlgorithm);
        std::mem::swap(self, &mut taken);
        match taken {
            Algorithm::LabelIntersection(mut algo) => {
                let r = run_search_pipeline(&mut algo, data, queries);
                *self = Algorithm::LabelIntersection(algo);
                r
            },
            Algorithm::Sed(mut algo) => {
                let r = run_search_pipeline(&mut algo, data, queries);
                *self = Algorithm::Sed(algo);
                r
            },
            Algorithm::SedExact(mut algo) => {
                let r = run_search_pipeline(&mut algo, data, queries);
                *self = Algorithm::SedExact(algo);
                r
            },
            Algorithm::StringStruct(mut algo) => {
                let r = run_search_pipeline(&mut algo, data, queries);
                *self = Algorithm::StringStruct(algo);
                r
            },
            Algorithm::StructuralVectors(mut algo) => {
                let r = run_search_pipeline(&mut algo, data, queries);
                *self = Algorithm::StructuralVectors(algo);
                r
            },
            Algorithm::BinaryBranch(mut algo) => {
                let r = run_search_pipeline(&mut algo, data, queries);
                *self = Algorithm::BinaryBranch(algo);
                proof {
                    let (pd, pq) = choose|
                        pd: Seq<<BinaryBranchAlgorithm as LowerBoundMethod>::PreprocessedDataType>,
                        pq: Seq<<BinaryBranchAlgorithm as LowerBoundMethod>::PreprocessedDataType>,
                    | #[trigger] search_outcome(algo, data@, queries@, pd, pq, r@);
                    assert(*self == Algorithm::BinaryBranch(algo));
                    assert(search_outcome(self->BinaryBranch_0, data@, queries@, pd, pq, r@));
                }
                r
            },
        }
    }
}

impl From<LabelIntersectionAlgorithm> for Algorithm {
    fn from(algo: LabelIntersectionAlgorithm) -> (r: Algorithm)
        ensures
            r == Algorithm::LabelIntersection(algo),
    {
        Algorithm::LabelIntersection(algo)
    }
}

impl vstd::std_specs::convert::FromSpecImpl<LabelIntersectionAlgorithm> for Algorithm {
    open spec fn obeys_from_spec() -> bool {
        true
    }

    open spec fn from_spec(v: LabelIntersectionAlgorithm) -> Algorithm {
        Algorithm::LabelIntersection(v)
    }
}

impl From<SedAlgorithm> for Algorithm {
    fn from(algo: SedAlgorithm) -> (r: Algorithm)
        ensures
            r == Algorithm::Sed(algo),
    {
        Algorithm::Sed(algo)
    }
}

impl vstd::std_specs::convert::FromSpecImpl<SedAlgorithm> for Algorithm {
    open spec fn obeys_from_spec() -> bool {
        true
    }

    open spec fn from_spec(v: SedAlgorithm) -> Algorithm {
        Algorithm::Sed(v)
    }
}

impl From<SedExactAlgorithm> for Algorithm {
    fn from(algo: SedExactAlgorithm) -> (r: Algorithm)
        ensures
            r == Algorithm::SedExact(algo),
    {
        Algorithm::SedExact(algo)
    }
}

impl vstd::std_specs::convert::FromSpecImpl<SedExactAlgorithm> for Algorithm {
    open spec fn obeys_from_spec() -> bool {
        true
    }

    open spec fn from_spec(v: SedExactAlgorithm) -> Algorithm {
        Algorithm::SedExact(v)
    }
}

impl From<StringStructAlgorithm> for Algorithm {
    fn from(algo: StringStructAlgorithm) -> (r: Algorithm)
        ensures
            r == Algorithm::StringStruct(algo),
    {
        Algorithm::StringStruct(algo)
    }
}

impl vstd::std_specs::convert::FromSpecImpl<StringStructAlgorithm> for Algorithm {
    open spec fn obeys_from_spec() -> bool {
        true
    }

    open spec fn from_spec(v: StringStructAlgorithm) -> Algorithm {
        Algorithm::StringStruct(v)
    }
}

impl From<StructuralLowerBoundMethod> for Algorithm {
    fn from(algo: StructuralLowerBoundMethod) -> (r: Algorithm)
        ensures
            r == Algorithm::StructuralVectors(algo),
    {
        Algorithm::StructuralVectors(algo)
    }
}

impl vstd::std_specs::convert::FromSpecImpl<StructuralLowerBoundMethod> for Algorithm {
    open spec fn obeys_from_spec() -> bool {
        true
    }

    open spec fn from_spec(v: StructuralLowerBoundMethod) -> Algorithm {
        Algorithm::StructuralVectors(v)
    }
}

impl From<BinaryBranchAlgorithm> for Algorithm {
    fn from(algo: BinaryBranchAlgorithm) -> (r: Algorithm)
        ensures
            r == Algorithm::BinaryBranch(algo),
    {
        Algorithm::BinaryBranch(algo)
    }
}

impl vstd::std_specs::convert::FromSpecImpl<BinaryBranchAlgorithm> for Algorithm {
    open spec fn obeys_from_spec() -> bool {
        true
    }

    open spec fn from_spec(v: BinaryBranchAlgorithm) -> Algorithm {
        Algorithm::BinaryBranch(v)
    }
}

/// The method that the factory `F` makes, as an `Algorithm`: what `F`'s
/// `create_algorithm` gives, converted by `Algorithm::from`.
pub fn create_algorithm<F: AlgorithmFactory>() -> (r: Algorithm) where
    Algorithm: From<F::AlgorithmType>,

    ensures
        exists|a: F::AlgorithmType|
            call_ensures(F::create_algorithm, (), a) && call_ensures(Algorithm::from, (a,), r),
{
    let algo = F::create_algorithm();
    Algorithm::from(algo)
}

/// A SED method over the traversals `first` and `second`.
pub fn create_sed_algorithm(first: TraversalKind, second: TraversalKind) -> (r: Algorithm)
    ensures
        r == Algorithm::Sed(SedAlgorithm { traversal_selection: TraversalSelection { first, second } }),
{
    Algorithm::Sed(SedAlgorithm::new(first, second))
}

/// A SED-EXACT method over the traversals `first` and `second`.
pub fn create_sed_exact_algorithm(first: TraversalKind, second: TraversalKind) -> (r: Algorithm)
    ensures
        r == Algorithm::SedExact(
            SedExactAlgorithm { traversal_selection: TraversalSelection { first, second } },
        ),
{
    Algorithm::SedExact(SedExactAlgorithm::new(first, second))
}

/// A SED-STRUCT method over the traversals `first` and `second`.
pub fn create_sed_struct_algorithm(first: TraversalKind, second: TraversalKind) -> (r: Algorithm)
    ensures
        r == Algorithm::StringStruct(
            StringStructAlgorithm { traversal_selection: TraversalSelection { first, second } },
        ),
{
    Algorithm::StringStruct(StringStructAlgorithm::new(first, second))
}

} // verus!
