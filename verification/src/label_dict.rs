//! The label dictionary: interned labels with their identifiers and
//! occurrence counts, kept sorted by label for binary search.

use vstd::prelude::*;

use crate::tree::LabelId;

verus! {

/// Lexicographic order on byte strings (a proper prefix comes first).
pub open spec fn bytes_lt(a: Seq<u8>, b: Seq<u8>) -> bool
    decreases a.len(),
{
    if a.len() == 0 {
        b.len() > 0
    } else if b.len() == 0 {
        false
    } else if a[0] != b[0] {
        a[0] < b[0]
    } else {
        bytes_lt(a.drop_first(), b.drop_first())
    }
}

/// `bytes_lt` is irreflexive and asymmetric, and two different strings are
/// ordered one way or the other.
pub proof fn lemma_bytes_lt_total(a: Seq<u8>, b: Seq<u8>)
    ensures
        !(bytes_lt(a, b) && bytes_lt(b, a)),
        a != b ==> bytes_lt(a, b) || bytes_lt(b, a),
        !bytes_lt(a, a),
    decreases a.len(),
{
    if a.len() > 0 && b.len() > 0 && a[0] == b[0] {
        lemma_bytes_lt_total(a.drop_first(), b.drop_first());
        if a != b {
            assert(a =~= seq![a[0]] + a.drop_first());
            assert(b =~= seq![b[0]] + b.drop_first());
        }
    }
    if a.len() > 0 {
        lemma_bytes_lt_total(a.drop_first(), a.drop_first());
    }
    if a.len() == 0 && b.len() == 0 {
        assert(a =~= b);
    }
}

/// `bytes_lt` is transitive.
pub proof fn lemma_bytes_lt_trans(a: Seq<u8>, b: Seq<u8>, c: Seq<u8>)
    requires
        bytes_lt(a, b),
        bytes_lt(b, c),
    ensures
        bytes_lt(a, c),
    decreases a.len(),
{
    if a.len() > 0 && b.len() > 0 && c.len() > 0 && a[0] == b[0] && b[0] == c[0] {
        lemma_bytes_lt_trans(a.drop_first(), b.drop_first(), c.drop_first());
    }
}

/// Three-way comparison of byte strings: negative, zero or positive as `a`
/// comes before, equals or comes after `b`.
pub fn compare_bytes(a: &[u8], b: &[u8]) -> (r: i8)
    ensures
        r < 0 <==> bytes_lt(a@, b@),
        r == 0 <==> a@ == b@,
        r > 0 <==> bytes_lt(b@, a@),
{
    proof {
        lemma_bytes_lt_total(a@, b@);
        assert(a@.skip(0) =~= a@);
        assert(b@.skip(0) =~= b@);
    }
    let mut i: usize = 0;
    while i < a.len() && i < b.len()
        invariant
            i <= a@.len(),
            i <= b@.len(),
            a@.subrange(0, i as int) == b@.subrange(0, i as int),
            bytes_lt(a@, b@) == bytes_lt(a@.skip(i as int), b@.skip(i as int)),
            bytes_lt(b@, a@) == bytes_lt(b@.skip(i as int), a@.skip(i as int)),
        decreases a@.len() - i,
    {
        if a[i] != b[i] {
            proof {
                assert(a@.skip(i as int)[0] == a@[i as int]);
                assert(b@.skip(i as int)[0] == b@[i as int]);
            }
            if a[i] < b[i] {
                return -1;
            } else {
                return 1;
            }
        }
        proof {
            assert(a@.skip(i as int).drop_first() =~= a@.skip(i + 1));
            assert(b@.skip(i as int).drop_first() =~= b@.skip(i + 1));
            assert(a@.subrange(0, i + 1) =~= a@.subrange(0, i as int).push(a@[i as int]));
            assert(b@.subrange(0, i + 1) =~= b@.subrange(0, i as int).push(b@[i as int]));
        }
        i = i + 1;
    }
    if a.len() == b.len() {
        proof {
            assert(a@ =~= a@.subrange(0, i as int));
            assert(b@ =~= b@.subrange(0, i as int));
        }
        0
    } else if a.len() < b.len() {
        proof {
            assert(a@.skip(i as int).len() == 0);
            assert(b@.skip(i as int).len() > 0);
        }
        -1
    } else {
        proof {
            assert(b@.skip(i as int).len() == 0);
            assert(a@.skip(i as int).len() > 0);
        }
        1
    }
}

/// One interned label.
#[derive(Debug, Clone, PartialEq, Eq)]
pub struct LabelEntry {
    pub label: Vec<u8>,
    pub id: LabelId,
    pub count: usize,
}

/// Map from label text to its identifier and its number of occurrences.
#[derive(Debug, Clone, PartialEq, Eq)]
pub struct LabelDict {
    entries: Vec<LabelEntry>,
}

impl View for LabelDict {
    type V = Map<Seq<u8>, (LabelId, usize)>;

    closed spec fn view(&self) -> Map<Seq<u8>, (LabelId, usize)> {
        Map::new(
            |k: Seq<u8>| exists|i: int| 0 <= i < self.entries@.len() && self.entries@[i].label@ == k,
            |k: Seq<u8>|
                (self.entries@[self.position_of(k)].id, self.entries@[self.position_of(k)].count),
        )
    }
}

impl LabelDict {
    /// Index of an entry with label `k` (meaningful when there is one).
    closed spec fn position_of(&self, k: Seq<u8>) -> int {
        choose|i: int| 0 <= i < self.entries@.len() && self.entries@[i].label@ == k
    }

    /// The entries are sorted by label, each label once.
    pub closed spec fn wf(&self) -> bool {
        forall|i: int, j: int|
            0 <= i < j < self.entries@.len() ==> bytes_lt(
                #[trigger] self.entries@[i].label@,
                #[trigger] self.entries@[j].label@,
            )
    }

    proof fn lemma_distinct(&self, i: int, j: int)
        requires
            self.wf(),
            0 <= i < self.entries@.len(),
            0 <= j < self.entries@.len(),
            i != j,
        ensures
            self.entries@[i].label@ != self.entries@[j].label@,
    {
        lemma_bytes_lt_total(self.entries@[i].label@, self.entries@[i].label@);
    }

    proof fn lemma_view_at(&self, i: int)
        requires
            self.wf(),
            0 <= i < self.entries@.len(),
        ensures
            self@.contains_key(self.entries@[i].label@),
            self@[self.entries@[i].label@] == (self.entries@[i].id, self.entries@[i].count),
    {
        let k = self.entries@[i].label@;
        assert(self@.contains_key(k));
        let j = self.position_of(k);
        if j != i {
            self.lemma_distinct(i, j);
        }
        assert(self@[k] == (self.entries@[j].id, self.entries@[j].count));
    }

    proof fn lemma_view_len(&self)
        requires
            self.wf(),
        ensures
            self@.dom().finite(),
            self@.len() == self.entries@.len(),
    {
        let labels = self.entries@.map_values(|e: LabelEntry| e.label@);
        assert forall|i: int, j: int|
            0 <= i < labels.len() && 0 <= j < labels.len() && i != j implies labels[i]
            != labels[j] by {
            self.lemma_distinct(i, j);
        }
        assert(labels.no_duplicates());
        labels.unique_seq_to_set();
        assert forall|k: Seq<u8>| self@.dom().contains(k) <==> labels.to_set().contains(k) by {
            if self@.dom().contains(k) {
                let i = choose|i: int| 0 <= i < self.entries@.len() && self.entries@[i].label@ == k;
                assert(labels[i] == k);
            }
            if labels.to_set().contains(k) {
                let i = choose|i: int| 0 <= i < labels.len() && labels[i] == k;
                assert(self.entries@[i].label@ == k);
            }
        }
        assert(self@.dom() =~= labels.to_set());
    }

    /// An empty dictionary.
    pub fn new() -> (r: LabelDict)
        ensures
            r.wf(),
            r@ == Map::<Seq<u8>, (LabelId, usize)>::empty(),
    {
        let r = LabelDict { entries: Vec::new() };
        assert(r@ =~= Map::<Seq<u8>, (LabelId, usize)>::empty());
        r
    }

    /// Number of labels.
    pub fn len(&self) -> (r: usize)
        requires
            self.wf(),
        ensures
            r == self@.len(),
            self@.dom().finite(),
    {
        proof {
            self.lemma_view_len();
        }
        self.entries.len()
    }

    /// Position of `label` among the sorted entries: `Ok` with the index of
    /// its entry, or `Err` with the index at which it would be inserted.
    fn search(&self, label: &[u8]) -> (r: Result<usize, usize>)
        requires
            self.wf(),
        ensures
            r matches Ok(i) ==> i < self.entries@.len() && self.entries@[i as int].label@ == label@,
            r matches Err(i) ==> {
                &&& i <= self.entries@.len()
                &&& forall|j: int| 0 <= j < i ==> bytes_lt(#[trigger] self.entries@[j].label@, label@)
                &&& forall|j: int|
                    i <= j < self.entries@.len() ==> bytes_lt(label@, #[trigger] self.entries@[j].label@)
            },
    {
        let mut lo: usize = 0;
        let mut hi: usize = self.entries.len();
        while lo < hi
            invariant
                self.wf(),
                lo <= hi <= self.entries@.len(),
                forall|j: int| 0 <= j < lo ==> bytes_lt(#[trigger] self.entries@[j].label@, label@),
                forall|j: int|
                    hi <= j < self.entries@.len() ==> bytes_lt(label@, #[trigger] self.entries@[j].label@),
            decreases hi - lo,
        {
            let mid = lo + (hi - lo) / 2;
            let c = compare_bytes(&self.entries[mid].label, label);
            if c == 0 {
                return Ok(mid);
            } else if c < 0 {
                proof {
                    assert forall|j: int| 0 <= j < mid + 1 implies bytes_lt(
                        #[trigger] self.entries@[j].label@,
                        label@,
                    ) by {
                        if j < mid {
                            lemma_bytes_lt_trans(
                                self.entries@[j].label@,
                                self.entries@[mid as int].label@,
                                label@,
                            );
                        }
                    }
                }
                lo = mid + 1;
            } else {
                proof {
                    assert forall|j: int| mid <= j < self.entries@.len() implies bytes_lt(
                        label@,
                        #[trigger] self.entries@[j].label@,
                    ) by {
                        if j > mid {
                            lemma_bytes_lt_trans(
                                label@,
                                self.entries@[mid as int].label@,
                                self.entries@[j].label@,
                            );
                        }
                    }
                }
                hi = mid;
            }
        }
        Err(lo)
    }

    /// Identifier and occurrence count of `label`, if it is present.
    pub fn get(&self, label: &[u8]) -> (r: Option<(LabelId, usize)>)
        requires
            self.wf(),
        ensures
            r == (if self@.contains_key(label@) {
                Some(self@[label@])
            } else {
                None
            }),
    {
        match self.search(label) {
            Ok(i) => {
                proof {
                    self.lemma_view_at(i as int);
                }
                Some((self.entries[i].id, self.entries[i].count))
            },
            Err(i) => {
                proof {
                    assert forall|j: int| 0 <= j < self.entries@.len() implies self.entries@[j].label@
                        != label@ by {
                        lemma_bytes_lt_total(self.entries@[j].label@, label@);
                    }
                }
                None
            },
        }
    }

    /// Stores `(id, count)` under `label`, replacing an earlier value.
    pub fn insert(&mut self, label: &[u8], id: LabelId, count: usize)
        requires
            old(self).wf(),
        ensures
            final(self).wf(),
            final(self)@ == old(self)@.insert(label@, (id, count)),
    {
        let ghost before = *self;
        let entry = LabelEntry { label: vstd::slice::slice_to_vec(label), id, count };
        match self.search(label) {
            Ok(i) => {
                self.entries.set(i, entry);
                proof {
                    assert forall|a: int, b: int|
                        0 <= a < b < self.entries@.len() implies bytes_lt(
                        #[trigger] self.entries@[a].label@,
                        #[trigger] self.entries@[b].label@,
                    ) by {
                        assert(before.entries@[a].label@ == self.entries@[a].label@);
                        assert(before.entries@[b].label@ == self.entries@[b].label@);
                    }
                    self.lemma_same_keys_update(before, i as int, label@, (id, count));
                }
            },
            Err(i) => {
                self.entries.insert(i, entry);
                proof {
                    assert forall|a: int, b: int|
                        0 <= a < b < self.entries@.len() implies bytes_lt(
                        #[trigger] self.entries@[a].label@,
                        #[trigger] self.entries@[b].label@,
                    ) by {
                        if a < i && b > i {
                            lemma_bytes_lt_trans(
                                self.entries@[a].label@,
                                label@,
                                self.entries@[b].label@,
                            );
                        }
                    }
                    self.lemma_inserted(before, i as int, label@, (id, count));
                }
            },
        }
    }

    proof fn lemma_same_keys_update(
        &self,
        before: LabelDict,
        i: int,
        k: Seq<u8>,
        v: (LabelId, usize),
    )
        requires
            self.wf(),
            before.wf(),
            0 <= i < before.entries@.len(),
            before.entries@[i].label@ == k,
            self.entries@ == before.entries@.update(
                i,
                LabelEntry { label: self.entries@[i].label, id: v.0, count: v.1 },
            ),
            self.entries@[i].label@ == k,
        ensures
            self@ == before@.insert(k, v),
    {
        assert forall|key: Seq<u8>| #[trigger]
            self@.contains_key(key) == before@.insert(k, v).contains_key(key) by {
            if self@.contains_key(key) {
                let j = choose|j: int| 0 <= j < self.entries@.len() && self.entries@[j].label@ == key;
                if j != i {
                    before.lemma_view_at(j);
                }
            }
            if before@.contains_key(key) {
                let j = choose|j: int|
                    0 <= j < before.entries@.len() && before.entries@[j].label@ == key;
                if j != i {
                    self.lemma_view_at(j);
                } else {
                    self.lemma_view_at(i);
                }
            }
            if key == k {
                self.lemma_view_at(i);
            }
        }
        assert forall|key: Seq<u8>| #[trigger]
            self@.contains_key(key) implies self@[key] == before@.insert(k, v)[key] by {
            let j = choose|j: int| 0 <= j < self.entries@.len() && self.entries@[j].label@ == key;
            self.lemma_view_at(j);
            if j != i {
                before.lemma_view_at(j);
                self.lemma_distinct(i, j);
            }
        }
        assert(self@ =~= before@.insert(k, v));
    }

    proof fn lemma_inserted(&self, before: LabelDict, i: int, k: Seq<u8>, v: (LabelId, usize))
        requires
            self.wf(),
            before.wf(),
            0 <= i <= before.entries@.len(),
            self.entries@.len() == before.entries@.len() + 1,
            forall|j: int| 0 <= j < i ==> self.entries@[j] == before.entries@[j],
            forall|j: int|
                i < j < self.entries@.len() ==> self.entries@[j] == before.entries@[j - 1],
            self.entries@[i].label@ == k,
            self.entries@[i].id == v.0,
            self.entries@[i].count == v.1,
        ensures
            self@ == before@.insert(k, v),
    {
        assert forall|key: Seq<u8>| #[trigger]
            self@.contains_key(key) == before@.insert(k, v).contains_key(key) by {
            if self@.contains_key(key) {
                let j = choose|j: int| 0 <= j < self.entries@.len() && self.entries@[j].label@ == key;
                if j < i {
                    before.lemma_view_at(j);
                } else if j > i {
                    before.lemma_view_at(j - 1);
                }
            }
            if before@.contains_key(key) {
                let j = choose|j: int|
                    0 <= j < before.entries@.len() && before.entries@[j].label@ == key;
                if j < i {
                    self.lemma_view_at(j);
                } else {
                    self.lemma_view_at(j + 1);
                }
            }
            if key == k {
                self.lemma_view_at(i);
            }
        }
        assert forall|key: Seq<u8>| #[trigger]
            self@.contains_key(key) implies self@[key] == before@.insert(k, v)[key] by {
            let j = choose|j: int| 0 <= j < self.entries@.len() && self.entries@[j].label@ == key;
            self.lemma_view_at(j);
            if j < i {
                before.lemma_view_at(j);
                self.lemma_distinct(i, j);
            } else if j > i {
                before.lemma_view_at(j - 1);
                self.lemma_distinct(i, j);
            }
        }
        assert(self@ =~= before@.insert(k, v));
    }

    /// The largest identifier, or 0 for an empty dictionary.
    pub fn max_id(&self) -> (r: LabelId)
        requires
            self.wf(),
        ensures
            self@.len() == 0 ==> r == 0,
            self@.len() > 0 ==> exists|k: Seq<u8>| #[trigger] self@.contains_key(k) && self@[k].0 == r,
            forall|k: Seq<u8>| #[trigger] self@.contains_key(k) ==> self@[k].0 <= r,
    {
        proof {
            self.lemma_view_len();
        }
        if self.entries.len() == 0 {
            proof {
                assert forall|k: Seq<u8>| #[trigger] self@.contains_key(k) implies self@[k].0 <= 0 by {
                    let j = choose|j: int| 0 <= j < self.entries@.len() && self.entries@[j].label@ == k;
                }
            }
            return 0;
        }
        let mut best = self.entries[0].id;
        let ghost mut best_i: int = 0;
        let mut i: usize = 1;
        while i < self.entries.len()
            invariant
                self.wf(),
                1 <= i <= self.entries@.len(),
                0 <= best_i < i,
                best == self.entries@[best_i].id,
                forall|j: int| 0 <= j < i ==> (#[trigger] self.entries@[j]).id <= best,
            decreases self.entries@.len() - i,
        {
            if self.entries[i].id > best {
                best = self.entries[i].id;
                proof {
                    best_i = i as int;
                }
            }
            i = i + 1;
        }
        proof {
            self.lemma_view_at(best_i);
            assert forall|k: Seq<u8>| #[trigger] self@.contains_key(k) implies self@[k].0 <= best by {
                let j = choose|j: int| 0 <= j < self.entries@.len() && self.entries@[j].label@ == k;
                self.lemma_view_at(j);
            }
        }
        best
    }

    /// The entries in increasing label order.
    pub fn entries(&self) -> (r: &Vec<LabelEntry>)
        requires
            self.wf(),
        ensures
            r@.len() == self@.len(),
            forall|i: int|
                0 <= i < r@.len() ==> #[trigger] self@.contains_key(r@[i].label@) && self@[r@[i].label@]
                    == (r@[i].id, r@[i].count),
            forall|i: int, j: int|
                0 <= i < j < r@.len() ==> bytes_lt(#[trigger] r@[i].label@, #[trigger] r@[j].label@),
    {
        proof {
            self.lemma_view_len();
            assert forall|i: int| 0 <= i < self.entries@.len() implies #[trigger] self@.contains_key(
                self.entries@[i].label@,
            ) && self@[self.entries@[i].label@] == (self.entries@[i].id, self.entries@[i].count) by {
                self.lemma_view_at(i);
            }
        }
        &self.entries
    }
}

} // verus!
