//! The Fx hash maps of the `rustc-hash` crate used by the library: keyed by
//! packed node pairs, by labels and by binary branches.

use rustc_hash::FxHashMap;
use vstd::prelude::*;

use crate::structural::StructuralVector;

verus! {

/// An `FxHashMap` from packed keyroot pairs to positions in a pair list.
#[verifier::external_body]
pub struct PairIndexMap {
    inner: FxHashMap<u64, usize>,
}

/// The entries held by a `PairIndexMap`.
pub uninterp spec fn pair_index_map_contents(m: PairIndexMap) -> Map<u64, usize>;

impl PairIndexMap {
    /// `FxHashMap::default`: an empty map.
    #[verifier::external_body]
    pub(crate) fn new() -> (r: Self)
        ensures
            pair_index_map_contents(r) =~= Map::empty(),
    {
        PairIndexMap { inner: FxHashMap::default() }
    }

    /// `FxHashMap::get`: the value stored under `key`, if any.
    #[verifier::external_body]
    pub(crate) fn get(&self, key: u64) -> (r: Option<usize>)
        ensures
            pair_index_map_contents(*self).contains_key(key) ==> r == Some(
                pair_index_map_contents(*self)[key],
            ),
            !pair_index_map_contents(*self).contains_key(key) ==> r is None,
    {
        self.inner.get(&key).copied()
    }

    /// `FxHashMap::insert`: stores `value` under `key`, replacing any earlier
    /// value.
    #[verifier::external_body]
    pub(crate) fn insert(&mut self, key: u64, value: usize)
        ensures
            pair_index_map_contents(*final(self)) == pair_index_map_contents(*old(self)).insert(
                key,
                value,
            ),
    {
        self.inner.insert(key, value);
    }
}


/// An `FxHashMap` from labels to counts.
#[verifier::external_body]
pub struct CountMap {
    inner: FxHashMap<i32, i32>,
}

/// The entries held by a `CountMap`.
pub uninterp spec fn count_map_contents(m: CountMap) -> Map<i32, i32>;

impl CountMap {
    /// `FxHashMap::default`: an empty map.
    #[verifier::external_body]
    pub(crate) fn new() -> (r: Self)
        ensures
            count_map_contents(r) =~= Map::empty(),
    {
        CountMap { inner: FxHashMap::default() }
    }

    /// `FxHashMap::get`: the count stored under `key`, if any.
    #[verifier::external_body]
    pub fn get(&self, key: i32) -> (r: Option<i32>)
        ensures
            count_map_contents(*self).contains_key(key) ==> r == Some(count_map_contents(*self)[key]),
            !count_map_contents(*self).contains_key(key) ==> r is None,
    {
        self.inner.get(&key).copied()
    }

    /// `FxHashMap::insert`: stores `value` under `key`, replacing any earlier
    /// value.
    #[verifier::external_body]
    pub(crate) fn insert(&mut self, key: i32, value: i32)
        ensures
            count_map_contents(*final(self)) == count_map_contents(*old(self)).insert(key, value),
    {
        self.inner.insert(key, value);
    }

    /// `FxHashMap::keys`: every key once, in the map's iteration order.
    #[verifier::external_body]
    pub fn keys(&self) -> (r: Vec<i32>)
        ensures
            r@.no_duplicates(),
            r@.to_set() == count_map_contents(*self).dom(),
    {
        self.inner.keys().copied().collect()
    }
}

/// An `FxHashMap` from labels to the structural vectors of the nodes that
/// carry them.
#[verifier::external_body]
pub struct VectorMap {
    inner: FxHashMap<i32, Vec<StructuralVector>>,
}

/// The entries held by a `VectorMap`, each list by its elements.
pub uninterp spec fn vector_map_contents(m: VectorMap) -> Map<i32, Seq<StructuralVector>>;

impl VectorMap {
    /// `FxHashMap::default`: an empty map.
    #[verifier::external_body]
    pub(crate) fn new() -> (r: Self)
        ensures
            vector_map_contents(r) =~= Map::empty(),
    {
        VectorMap { inner: FxHashMap::default() }
    }

    /// `FxHashMap::get`: the list stored under `key`, if any.
    #[verifier::external_body]
    pub fn get(&self, key: i32) -> (r: Option<&Vec<StructuralVector>>)
        ensures
            r is Some <==> vector_map_contents(*self).contains_key(key),
            r matches Some(v) ==> v@ == vector_map_contents(*self)[key],
    {
        self.inner.get(&key)
    }

    /// `FxHashMap::remove`: takes the list stored under `key` out.
    #[verifier::external_body]
    pub(crate) fn remove(&mut self, key: i32) -> (r: Option<Vec<StructuralVector>>)
        ensures
            vector_map_contents(*final(self)) == vector_map_contents(*old(self)).remove(key),
            r is Some <==> vector_map_contents(*old(self)).contains_key(key),
            r matches Some(v) ==> v@ == vector_map_contents(*old(self))[key],
    {
        self.inner.remove(&key)
    }

    /// `FxHashMap::insert`: stores `value` under `key`, replacing any earlier
    /// list.
    #[verifier::external_body]
    pub(crate) fn insert(&mut self, key: i32, value: Vec<StructuralVector>)
        ensures
            vector_map_contents(*final(self)) == vector_map_contents(*old(self)).insert(key, value@),
    {
        self.inner.insert(key, value);
    }

    /// `FxHashMap::keys`: every key once, in the map's iteration order.
    #[verifier::external_body]
    pub fn keys(&self) -> (r: Vec<i32>)
        ensures
            r@.no_duplicates(),
            r@.to_set() == vector_map_contents(*self).dom(),
    {
        self.inner.keys().copied().collect()
    }
}

/// A binary branch: a node's label, its first child's label and its right
/// sibling's label.
pub type BranchTuple = (i32, Option<i32>, Option<i32>);

/// An `FxHashMap` from binary branches to their identifiers.
#[verifier::external_body]
pub struct BranchIdMap {
    inner: FxHashMap<BranchTuple, i32>,
}

/// The entries held by a `BranchIdMap`.
pub uninterp spec fn branch_id_map_contents(m: BranchIdMap) -> Map<BranchTuple, i32>;

impl BranchIdMap {
    /// `FxHashMap::default`: an empty map.
    #[verifier::external_body]
    pub(crate) fn new() -> (r: Self)
        ensures
            branch_id_map_contents(r) =~= Map::empty(),
    {
        BranchIdMap { inner: FxHashMap::default() }
    }

    /// `FxHashMap::get`: the identifier of `key`, if any.
    #[verifier::external_body]
    pub(crate) fn get(&self, key: BranchTuple) -> (r: Option<i32>)
        ensures
            branch_id_map_contents(*self).contains_key(key) ==> r == Some(
                branch_id_map_contents(*self)[key],
            ),
            !branch_id_map_contents(*self).contains_key(key) ==> r is None,
    {
        self.inner.get(&key).copied()
    }

    /// `FxHashMap::insert`: stores `value` under `key`.
    #[verifier::external_body]
    pub(crate) fn insert(&mut self, key: BranchTuple, value: i32)
        ensures
            branch_id_map_contents(*final(self)) == branch_id_map_contents(*old(self)).insert(
                key,
                value,
            ),
    {
        self.inner.insert(key, value);
    }
}

/// A q-gram posting: the identifier of a data string, its length and the
/// start of the q-gram in it.
pub type Posting = (usize, i32, i32);

/// An `FxHashMap` from q-grams to their postings.
#[verifier::external_body]
pub struct GramMap {
    inner: FxHashMap<Vec<i32>, Vec<Posting>>,
}

/// The entries held by a `GramMap`, each key and list by its elements.
pub uninterp spec fn gram_map_contents(m: GramMap) -> Map<Seq<i32>, Seq<Posting>>;

impl GramMap {
    /// `FxHashMap::default`: an empty map.
    #[verifier::external_body]
    pub(crate) fn new() -> (r: Self)
        ensures
            gram_map_contents(r) =~= Map::empty(),
    {
        GramMap { inner: FxHashMap::default() }
    }

    /// `FxHashMap::get`: the postings stored under the q-gram `key`, if any.
    #[verifier::external_body]
    pub(crate) fn get(&self, key: &[i32]) -> (r: Option<&Vec<Posting>>)
        ensures
            r is Some <==> gram_map_contents(*self).contains_key(key@),
            r matches Some(v) ==> v@ == gram_map_contents(*self)[key@],
    {
        self.inner.get(key)
    }

    /// `FxHashMap::remove`: takes the postings stored under `key` out.
    #[verifier::external_body]
    pub(crate) fn remove(&mut self, key: &[i32]) -> (r: Option<Vec<Posting>>)
        ensures
            gram_map_contents(*final(self)) == gram_map_contents(*old(self)).remove(key@),
            r is Some <==> gram_map_contents(*old(self)).contains_key(key@),
            r matches Some(v) ==> v@ == gram_map_contents(*old(self))[key@],
    {
        self.inner.remove(key)
    }

    /// `FxHashMap::insert`: stores `value` under `key`, replacing any earlier
    /// list.
    #[verifier::external_body]
    pub(crate) fn insert(&mut self, key: Vec<i32>, value: Vec<Posting>)
        ensures
            gram_map_contents(*final(self)) == gram_map_contents(*old(self)).insert(key@, value@),
    {
        self.inner.insert(key, value);
    }
}

/// An `FxHashMap` from data string identifiers to their q-gram matches, each
/// a query chunk's number and the start of the matching q-gram.
#[verifier::external_body]
pub struct MatchMap {
    inner: FxHashMap<usize, Vec<(usize, i32)>>,
}

/// The entries held by a `MatchMap`, each list by its elements.
pub uninterp spec fn match_map_contents(m: MatchMap) -> Map<usize, Seq<(usize, i32)>>;

impl MatchMap {
    /// `FxHashMap::default`: an empty map.
    #[verifier::external_body]
    pub(crate) fn new() -> (r: Self)
        ensures
            match_map_contents(r) =~= Map::empty(),
    {
        MatchMap { inner: FxHashMap::default() }
    }

    /// `FxHashMap::get`: the matches stored under `key`, if any.
    #[verifier::external_body]
    pub(crate) fn get(&self, key: usize) -> (r: Option<&Vec<(usize, i32)>>)
        ensures
            r is Some <==> match_map_contents(*self).contains_key(key),
            r matches Some(v) ==> v@ == match_map_contents(*self)[key],
    {
        self.inner.get(&key)
    }

    /// `FxHashMap::remove`: takes the matches stored under `key` out.
    #[verifier::external_body]
    pub(crate) fn remove(&mut self, key: usize) -> (r: Option<Vec<(usize, i32)>>)
        ensures
            match_map_contents(*final(self)) == match_map_contents(*old(self)).remove(key),
            r is Some <==> match_map_contents(*old(self)).contains_key(key),
            r matches Some(v) ==> v@ == match_map_contents(*old(self))[key],
    {
        self.inner.remove(&key)
    }

    /// `FxHashMap::insert`: stores `value` under `key`, replacing any earlier
    /// list.
    #[verifier::external_body]
    pub(crate) fn insert(&mut self, key: usize, value: Vec<(usize, i32)>)
        ensures
            match_map_contents(*final(self)) == match_map_contents(*old(self)).insert(key, value@),
    {
        self.inner.insert(key, value);
    }

    /// `FxHashMap::keys`: every key once, in the map's iteration order.
    #[verifier::external_body]
    pub(crate) fn keys(&self) -> (r: Vec<usize>)
        ensures
            r@.no_duplicates(),
            r@.to_set() == match_map_contents(*self).dom(),
    {
        self.inner.keys().copied().collect()
    }
}

} // verus!
