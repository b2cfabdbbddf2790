//! Datasets of trees: the order in which a dataset is kept.

use vstd::prelude::*;

use crate::label_dict::LabelDict;
use crate::parsing::{
    collection_labels, collection_views, intern_labels, parse_result, parse_tree,
    parse_tree_tokens, token_views, tokenize_ok, tokens_of,
};
use crate::tree::{parsed_view, tree_size, LabelId, ParsedTree, SpecTree};

verus! {

/// The node count by which trees are ordered (`usize::MAX` for a tree too
/// large to count).
pub open spec fn size_key(t: ParsedTree) -> nat {
    if tree_size(t) <= usize::MAX {
        tree_size(t)
    } else {
        usize::MAX as nat
    }
}

/// Lexicographic order on pairs of `usize`.
pub open spec fn key_le(a: (usize, usize), b: (usize, usize)) -> bool {
    a.0 < b.0 || (a.0 == b.0 && a.1 <= b.1)
}

/// `slice::sort_unstable` (std) on pairs of `usize`: the same pairs, in
/// ascending lexicographic order.
#[verifier::external_body]
fn sort_keys(v: &mut Vec<(usize, usize)>)
    ensures
        final(v)@.to_multiset() == old(v)@.to_multiset(),
        forall|i: int, j: int|
            0 <= i < j < final(v)@.len() ==> key_le(#[trigger] final(v)@[i], #[trigger] final(v)@[j]),
{
    v.sort_unstable();
}

/// `perm` lists distinct positions below `n`, `n` of them.
pub open spec fn is_permutation(perm: Seq<int>, n: int) -> bool {
    &&& perm.len() == n
    &&& forall|i: int| 0 <= i < n ==> 0 <= #[trigger] perm[i] < n
    &&& forall|i: int, j: int| 0 <= i < j < n ==> #[trigger] perm[i] != #[trigger] perm[j]
}

/// `ordered` holds the trees of `trees` as `perm` picks them, by increasing
/// node count and, among trees of one count, in their order in `trees`.
pub open spec fn ordered_by_size(trees: Seq<ParsedTree>, perm: Seq<int>, ordered: Seq<ParsedTree>) -> bool {
    &&& is_permutation(perm, trees.len() as int)
    &&& ordered.len() == trees.len()
    &&& forall|i: int| 0 <= i < ordered.len() ==> #[trigger] ordered[i] == trees[perm[i]]
    &&& forall|i: int, j: int|
        0 <= i < j < ordered.len() ==> size_key(#[trigger] ordered[i]) < size_key(
            #[trigger] ordered[j],
        ) || (size_key(ordered[i]) == size_key(ordered[j]) && perm[i] < perm[j])
}

/// The trees in increasing order of node count; trees of the same count keep
/// their order.
pub fn order_by_size(trees: Vec<ParsedTree>) -> (r: Vec<ParsedTree>)
    ensures
        exists|perm: Seq<int>| #[trigger] ordered_by_size(trees@, perm, r@),
{
    let ghost given = trees@;
    let n = trees.len();
    let mut keys: Vec<(usize, usize)> = Vec::new();
    let mut j: usize = 0;
    while j < n
        invariant
            n == given.len(),
            trees@ == given,
            j <= n,
            keys@.len() == j,
            forall|a: int| 0 <= a < j ==> #[trigger] keys@[a] == (size_key(given[a]) as usize, a as usize),
        decreases n - j,
    {
        keys.push((trees[j].count(), j));
        j = j + 1;
    }
    let ghost keys0 = keys@;
    proof {
        assert forall|a: int, b: int| 0 <= a < keys0.len() && 0 <= b < keys0.len() && a != b implies
            keys0[a] != keys0[b] by {
            assert(keys0[a].1 == a);
            assert(keys0[b].1 == b);
        }
        assert(keys0.no_duplicates());
        keys0.lemma_multiset_has_no_duplicates();
    }
    sort_keys(&mut keys);
    proof {
        keys@.lemma_multiset_has_no_duplicates_conv();
        keys@.to_multiset_ensures();
        keys0.to_multiset_ensures();
        assert forall|i: int| 0 <= i < keys@.len() implies #[trigger] keys@[i] == keys0[keys@[i].1 as int]
            && keys@[i].1 < n by {
            assert(keys@.to_multiset().count(keys@[i]) > 0);
            assert(keys0.contains(keys@[i]));
            let a = choose|a: int| 0 <= a < keys0.len() && keys0[a] == keys@[i];
            assert(keys0[a].1 == a);
        }
    }
    let ghost sorted = keys@;
    let mut trees = trees;
    let mut rev: Vec<Option<ParsedTree>> = Vec::new();
    while trees.len() > 0
        invariant
            n == given.len(),
            trees@.len() + rev@.len() == n,
            trees@ == given.take(trees@.len() as int),
            forall|m: int| 0 <= m < rev@.len() ==> #[trigger] rev@[m] == Some(given[n - 1 - m]),
        decreases trees@.len(),
    {
        let t = trees.pop().unwrap();
        rev.push(Some(t));
    }
    let mut out: Vec<ParsedTree> = Vec::new();
    let mut i: usize = 0;
    while i < n
        invariant
            n == given.len(),
            keys@ == sorted,
            sorted.len() == n,
            sorted.no_duplicates(),
            forall|a: int| 0 <= a < n ==> #[trigger] keys0[a] == (size_key(given[a]) as usize, a as usize),
            forall|x: int| 0 <= x < n ==> #[trigger] sorted[x] == keys0[sorted[x].1 as int] && sorted[x].1 < n,
            rev@.len() == n,
            i <= n,
            out@.len() == i,
            forall|x: int| 0 <= x < i ==> #[trigger] out@[x] == given[sorted[x].1 as int],
            forall|m: int|
                0 <= m < n ==> (#[trigger] rev@[m] is Some <==> forall|x: int|
                    0 <= x < i ==> sorted[x].1 != n - 1 - m),
            forall|m: int| 0 <= m < n && rev@[m] is Some ==> #[trigger] rev@[m] == Some(given[n - 1 - m]),
        decreases n - i,
    {
        let a = keys[i].1;
        let slot = n - 1 - a;
        proof {
            assert forall|x: int| 0 <= x < i implies sorted[x].1 != a by {
                if sorted[x].1 == a {
                    assert(sorted[x] == keys0[a as int]);
                    assert(sorted[i as int] == keys0[a as int]);
                }
            }
            assert(rev@[slot as int] is Some);
        }
        let mut taken: Option<ParsedTree> = None;
        std::mem::swap(&mut taken, &mut rev[slot]);
        match taken {
            Some(t) => {
                out.push(t);
            },
            None => {
                proof {
                    assert(false);
                }
            },
        }
        proof {
            assert forall|m: int| 0 <= m < n implies (#[trigger] rev@[m] is Some <==> forall|x: int|
                0 <= x < i + 1 ==> sorted[x].1 != n - 1 - m) by {
                if m != slot {
                    if !(forall|x: int| 0 <= x < i ==> sorted[x].1 != n - 1 - m) {
                        let x = choose|x: int| 0 <= x < i && sorted[x].1 == n - 1 - m;
                        assert(0 <= x < i + 1 && sorted[x].1 == n - 1 - m);
                    }
                } else {
                    assert(sorted[i as int].1 == n - 1 - m);
                }
            }
        }
        i = i + 1;
    }
    let ghost perm = Seq::new(n as nat, |x: int| sorted[x].1 as int);
    proof {
        assert forall|x: int, y: int| 0 <= x < y < n implies #[trigger] perm[x] != #[trigger] perm[y] by {
            if perm[x] == perm[y] {
                assert(sorted[x] == keys0[perm[x]]);
                assert(sorted[y] == keys0[perm[y]]);
            }
        }
        assert forall|x: int, y: int| 0 <= x < y < out@.len() implies size_key(#[trigger] out@[x])
            < size_key(#[trigger] out@[y]) || (size_key(out@[x]) == size_key(out@[y]) && perm[x]
            < perm[y]) by {
            assert(key_le(sorted[x], sorted[y]));
            assert(sorted[x] != sorted[y]);
            assert(sorted[x] == keys0[perm[x]]);
            assert(sorted[y] == keys0[perm[y]]);
        }
        assert(ordered_by_size(given, perm, out@));
    }
    out
}

/// The bytes of a query's tree string.
pub open spec fn entry_bytes(e: (usize, String)) -> Seq<u8> {
    vstd::utf8::encode_utf8(e.1@)
}

/// The queries whose tree string tokenizes, with their thresholds and
/// tokens, in order.
pub open spec fn query_tokens(entries: Seq<(usize, String)>) -> Seq<(usize, Seq<Seq<u8>>)>
    decreases entries.len(),
{
    if entries.len() == 0 {
        Seq::empty()
    } else {
        let rest = query_tokens(entries.drop_last());
        let b = entry_bytes(entries.last());
        if tokenize_ok(b) {
            rest.push((entries.last().0, tokens_of(b)))
        } else {
            rest
        }
    }
}

/// The token sequences of tokenized queries.
pub open spec fn token_lists(qt: Seq<(usize, Seq<Seq<u8>>)>) -> Seq<Seq<Seq<u8>>> {
    qt.map_values(|e: (usize, Seq<Seq<u8>>)| e.1)
}

/// The tokenized queries whose tokens parse under `d`, with their
/// thresholds and trees, in order.
pub open spec fn query_trees(
    qt: Seq<(usize, Seq<Seq<u8>>)>,
    d: Map<Seq<u8>, (LabelId, usize)>,
) -> Seq<(usize, Option<SpecTree>)>
    decreases qt.len(),
{
    if qt.len() == 0 {
        Seq::empty()
    } else {
        let rest = query_trees(qt.drop_last(), d);
        match parse_result(qt.last().1, d) {
            Ok(t) => rest.push((qt.last().0, t)),
            Err(_) => rest,
        }
    }
}

/// Parses query trees given with their thresholds: the tree strings that
/// tokenize have all their labels interned into `ld` (in order), then each
/// of them that parses is kept with its threshold.
pub fn parse_query_entries(entries: &[(usize, String)], ld: &mut LabelDict) -> (r: Vec<
    (usize, ParsedTree),
>)
    requires
        old(ld).wf(),
        forall|i: int| 0 <= i < entries@.len() ==> entry_bytes(#[trigger] entries@[i]).len() < i32::MAX,
        old(ld)@.len() + collection_labels(token_lists(query_tokens(entries@))).len() <= i32::MAX,
        forall|k: Seq<u8>|
            #[trigger] old(ld)@.contains_key(k) ==> old(ld)@[k].1 + collection_labels(
                token_lists(query_tokens(entries@)),
            ).len() <= usize::MAX,
    ensures
        final(ld).wf(),
        final(ld)@ == intern_labels(
            old(ld)@,
            old(ld)@.len() as int,
            collection_labels(token_lists(query_tokens(entries@))),
        ).0,
        r@.len() == query_trees(query_tokens(entries@), final(ld)@).len(),
        forall|i: int|
            0 <= i < r@.len() ==> (#[trigger] r@[i]).0 == query_trees(
                query_tokens(entries@),
                final(ld)@,
            )[i].0 && parsed_view(r@[i].1) == query_trees(query_tokens(entries@), final(ld)@)[i].1,
{
    let mut thresholds: Vec<usize> = Vec::new();
    let mut token_col: Vec<Vec<Vec<u8>>> = Vec::new();
    let mut i: usize = 0;
    while i < entries.len()
        invariant
            i <= entries@.len(),
            forall|x: int| 0 <= x < entries@.len() ==> entry_bytes(#[trigger] entries@[x]).len() < i32::MAX,
            thresholds@.len() == token_col@.len(),
            token_col@.len() == query_tokens(entries@.take(i as int)).len(),
            forall|x: int|
                0 <= x < token_col@.len() ==> #[trigger] thresholds@[x] == query_tokens(
                    entries@.take(i as int),
                )[x].0,
            forall|x: int|
                0 <= x < token_col@.len() ==> token_views((#[trigger] token_col@[x])@) == query_tokens(
                    entries@.take(i as int),
                )[x].1,
        decreases entries@.len() - i,
    {
        proof {
            assert(entries@.take(i + 1).drop_last() =~= entries@.take(i as int));
            assert(entries@.take(i + 1).last() == entries@[i as int]);
        }
        let ghost before = query_tokens(entries@.take(i as int));
        let ghost e = entries@[i as int];
        match parse_tree_tokens(entries[i].1.as_str()) {
            Ok(t) => {
                proof {
                    assert(tokenize_ok(entry_bytes(e)));
                    assert(query_tokens(entries@.take(i + 1)) == before.push(
                        (e.0, tokens_of(entry_bytes(e))),
                    ));
                }
                thresholds.push(entries[i].0);
                token_col.push(t);
            },
            Err(_) => {
                proof {
                    assert(!tokenize_ok(entry_bytes(e)));
                    assert(query_tokens(entries@.take(i + 1)) == before);
                }
            },
        }
        i = i + 1;
    }
    let ghost qt = query_tokens(entries@);
    proof {
        assert(entries@.take(entries@.len() as int) =~= entries@);
        assert(query_tokens(entries@.take(i as int)) == qt);
        assert forall|x: int| 0 <= x < token_col@.len() implies #[trigger] collection_views(
            token_col@,
        )[x] == token_lists(qt)[x] by {
            assert(token_views(token_col@[x]@) == qt[x].1);
        }
        assert(collection_views(token_col@) =~= token_lists(qt));
    }
    crate::parsing::update_label_dict(token_col.as_slice(), ld);
    let mut out: Vec<(usize, ParsedTree)> = Vec::new();
    let mut j: usize = 0;
    while j < token_col.len()
        invariant
            ld.wf(),
            qt.len() == token_col@.len(),
            thresholds@.len() == token_col@.len(),
            forall|x: int| 0 <= x < token_col@.len() ==> #[trigger] thresholds@[x] == qt[x].0,
            forall|x: int|
                0 <= x < token_col@.len() ==> token_views((#[trigger] token_col@[x])@) == qt[x].1,
            j <= token_col@.len(),
            out@.len() == query_trees(qt.take(j as int), ld@).len(),
            forall|x: int|
                0 <= x < out@.len() ==> (#[trigger] out@[x]).0 == query_trees(qt.take(j as int), ld@)[x].0
                    && parsed_view(out@[x].1) == query_trees(qt.take(j as int), ld@)[x].1,
        decreases token_col@.len() - j,
    {
        proof {
            assert(qt.take(j + 1).drop_last() =~= qt.take(j as int));
            assert(qt.take(j + 1).last() == qt[j as int]);
            assert(token_views(token_col@[j as int]@) == qt[j as int].1);
        }
        match parse_tree(token_col[j].as_slice(), ld) {
            Ok(t) => {
                out.push((thresholds[j], t));
            },
            Err(_) => {},
        }
        j = j + 1;
    }
    proof {
        assert(qt.take(qt.len() as int) =~= qt);
    }
    out
}

} // verus!
