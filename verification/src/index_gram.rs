//! A q-gram index over label sequences: each data string, padded to a
//! multiple of `q`, is cut into all its windows of length `q`; a query is cut
//! into disjoint chunks, and a data string stays a candidate when enough of
//! the chunks match q-grams near their positions, in a compatible order.

use vstd::prelude::*;

use crate::fx_map::{gram_map_contents, match_map_contents, GramMap, MatchMap, Posting};

verus! {

/// The label that pads a string to a multiple of `q`.
pub const EMPTY_VALUE: i32 = 2147483647;

/// `ceil(len / q)`: the number of chunks of length `q` that cover `len`.
pub open spec fn sig_count(len: nat, q: nat) -> nat {
    if q == 0 {
        0
    } else {
        ((len + q - 1) / (q as int)) as nat
    }
}

/// `s` padded with `EMPTY_VALUE` to `sig_count(|s|, q) * q` labels.
pub open spec fn padded(s: Seq<i32>, q: nat) -> Seq<i32> {
    s + Seq::new((sig_count(s.len(), q) * q - s.len()) as nat, |i: int| EMPTY_VALUE)
}

/// The number of windows of length `q` in the padded `s`.
pub open spec fn window_count(s: Seq<i32>, q: nat) -> nat {
    let n = padded(s, q).len();
    if n >= q {
        (n - q + 1) as nat
    } else {
        0
    }
}

/// The window of length `q` at `i` in the padded `s`.
pub open spec fn window(s: Seq<i32>, q: nat, i: int) -> Seq<i32> {
    padded(s, q).subrange(i, i + q)
}

/// The postings of the q-gram `g` among the first `upto` windows of the data
/// string `s` with identifier `sid`, in window order.
pub open spec fn window_hits(s: Seq<i32>, sid: usize, q: nat, g: Seq<i32>, upto: nat) -> Seq<Posting>
    decreases upto,
{
    if upto == 0 {
        Seq::empty()
    } else {
        let before = window_hits(s, sid, q, g, (upto - 1) as nat);
        if window(s, q, upto - 1) == g {
            before.push((sid, s.len() as i32, (upto - 1) as i32))
        } else {
            before
        }
    }
}

/// The postings of the q-gram `g` in the first `upto` data strings, by
/// string and then by window.
pub open spec fn postings(data: Seq<Seq<i32>>, q: nat, g: Seq<i32>, upto: nat) -> Seq<Posting>
    decreases upto,
{
    if upto == 0 {
        Seq::empty()
    } else {
        let i = upto - 1;
        postings(data, q, g, i as nat) + window_hits(
            data[i],
            i as usize,
            q,
            g,
            window_count(data[i], q),
        )
    }
}

/// The label sequences of `data`.
pub open spec fn strings_view(data: Seq<Vec<i32>>) -> Seq<Seq<i32>> {
    data.map_values(|v: Vec<i32>| v@)
}

/// The inverted index of `data`: every q-gram with at least one posting,
/// mapped to its postings.
pub open spec fn index_of(data: Seq<Seq<i32>>, q: nat) -> Map<Seq<i32>, Seq<Posting>> {
    Map::new(
        |g: Seq<i32>| postings(data, q, g, data.len()).len() > 0,
        |g: Seq<i32>| postings(data, q, g, data.len()),
    )
}

/// The inverted q-gram index of a list of label sequences.
pub struct IndexGram {
    q: usize,
    inv_index: GramMap,
}

/// What `m` holds under `g`, empty where it holds nothing.
pub open spec fn held(m: Map<Seq<i32>, Seq<Posting>>, g: Seq<i32>) -> Seq<Posting> {
    if m.contains_key(g) {
        m[g]
    } else {
        Seq::empty()
    }
}

/// `m` holds exactly the non-empty lists `f` gives, under their q-grams.
pub open spec fn holds_lists(
    m: Map<Seq<i32>, Seq<Posting>>,
    f: spec_fn(Seq<i32>) -> Seq<Posting>,
) -> bool {
    &&& forall|g: Seq<i32>| #[trigger] m.contains_key(g) ==> f(g).len() > 0
    &&& forall|g: Seq<i32>| #[trigger] held(m, g) == f(g)
}

/// Copies `s` and pads it with `EMPTY_VALUE` to a multiple of `q`.
fn pad(s: &Vec<i32>, q: usize) -> (r: Vec<i32>)
    requires
        q > 0,
        s.len() + q <= usize::MAX,
    ensures
        r@ == padded(s@, q as nat),
{
    let count = (s.len() + q - 1) / q;
    proof {
        let n = s.len() + q - 1;
        assert(count * q <= n && n < count * q + q) by (nonlinear_arith)
            requires
                count == n / (q as int),
                q > 0,
                n >= 0,
        ;
    }
    let target = count * q;
    let mut r: Vec<i32> = Vec::new();
    let mut i: usize = 0;
    while i < s.len()
        invariant
            i <= s.len(),
            r@ == s@.subrange(0, i as int),
        decreases s.len() - i,
    {
        r.push(s[i]);
        i += 1;
    }
    assert(r@ == s@);
    while r.len() < target
        invariant
            s.len() <= r.len() <= target,
            r@.subrange(0, s.len() as int) == s@,
            forall|j: int| s.len() <= j < r.len() ==> r@[j] == EMPTY_VALUE,
        decreases target - r.len(),
    {
        r.push(EMPTY_VALUE);
    }
    assert(r@ =~= padded(s@, q as nat));
    r
}

/// The labels `s[start..start + len]`.
fn slice_copy(s: &Vec<i32>, start: usize, len: usize) -> (r: Vec<i32>)
    requires
        start + len <= s.len(),
    ensures
        r@ == s@.subrange(start as int, start + len),
{
    let mut r: Vec<i32> = Vec::new();
    let mut j: usize = 0;
    while j < len
        invariant
            j <= len,
            start + len <= s.len(),
            r@ == s@.subrange(start as int, start + j),
        decreases len - j,
    {
        r.push(s[start + j]);
        j += 1;
    }
    r
}

/// Every list in `m` is ordered by string length.
pub open spec fn postings_sorted(m: Map<Seq<i32>, Seq<Posting>>) -> bool {
    forall|g: Seq<i32>, a: int, b: int|
        #![trigger m[g][a], m[g][b]]
        m.contains_key(g) && 0 <= a <= b < m[g].len() ==> m[g][a].1 <= m[g][b].1
}

/// The strings of `data` come in order of length, each no longer than
/// `i32::MAX`.
pub open spec fn lengths_sorted(data: Seq<Seq<i32>>) -> bool {
    &&& forall|a: int, b: int| 0 <= a <= b < data.len() ==> data[a].len() <= data[b].len()
    &&& forall|a: int| 0 <= a < data.len() ==> #[trigger] data[a].len() <= i32::MAX
}

/// Each posting among the first `upto` windows of `s` names `sid` and the
/// length of `s`.
proof fn lemma_window_hits_shape(s: Seq<i32>, sid: usize, q: nat, g: Seq<i32>, upto: nat)
    ensures
        forall|j: int|
            0 <= j < window_hits(s, sid, q, g, upto).len() ==> (#[trigger] window_hits(
                s,
                sid,
                q,
                g,
                upto,
            )[j]).0 == sid && window_hits(s, sid, q, g, upto)[j].1 == s.len() as i32,
    decreases upto,
{
    if upto > 0 {
        lemma_window_hits_shape(s, sid, q, g, (upto - 1) as nat);
        let before = window_hits(s, sid, q, g, (upto - 1) as nat);
        let all = window_hits(s, sid, q, g, upto);
        assert forall|j: int| 0 <= j < all.len() implies (#[trigger] all[j]).0 == sid && all[j].1
            == s.len() as i32 by {
            if j < before.len() {
                assert(all[j] == before[j]);
            }
        }
    }
}

/// The postings of the first `upto` strings name strings below `upto`, carry
/// their lengths, and come in order of string.
proof fn lemma_postings_shape(data: Seq<Seq<i32>>, q: nat, g: Seq<i32>, upto: nat)
    requires
        upto <= data.len(),
        data.len() <= usize::MAX,
    ensures
        forall|j: int|
            0 <= j < postings(data, q, g, upto).len() ==> (#[trigger] postings(data, q, g, upto)[j]).0
                < upto,
        forall|j: int|
            0 <= j < postings(data, q, g, upto).len() ==> (#[trigger] postings(data, q, g, upto)[j]).1
                == data[postings(data, q, g, upto)[j].0 as int].len() as i32,
        forall|a: int, b: int|
            0 <= a <= b < postings(data, q, g, upto).len() ==> (#[trigger] postings(
                data,
                q,
                g,
                upto,
            )[a]).0 <= (#[trigger] postings(data, q, g, upto)[b]).0,
    decreases upto,
{
    if upto > 0 {
        let i = upto - 1;
        lemma_postings_shape(data, q, g, i as nat);
        let before = postings(data, q, g, i as nat);
        let hits = window_hits(data[i], i as usize, q, g, window_count(data[i], q));
        lemma_window_hits_shape(data[i], i as usize, q, g, window_count(data[i], q));
        let all = postings(data, q, g, upto);
        assert(all == before + hits);
        assert forall|j: int| 0 <= j < all.len() implies (#[trigger] all[j]).0 < upto && all[j].1
            == data[all[j].0 as int].len() as i32 by {
            if j >= before.len() {
                assert(all[j] == hits[j - before.len()]);
            } else {
                assert(all[j] == before[j]);
            }
        }
        assert forall|a: int, b: int| 0 <= a <= b < all.len() implies (#[trigger] all[a]).0 <= (
        #[trigger] all[b]).0 by {
            if b >= before.len() {
                assert(all[b] == hits[b - before.len()]);
                if a >= before.len() {
                    assert(all[a] == hits[a - before.len()]);
                } else {
                    assert(all[a] == before[a]);
                }
            } else {
                assert(all[a] == before[a]);
                assert(all[b] == before[b]);
            }
        }
    }
}

/// An index built from strings in order of length keeps every list of
/// postings in order of length.
pub proof fn lemma_index_sorted(data: Seq<Seq<i32>>, q: nat)
    requires
        lengths_sorted(data),
        data.len() <= usize::MAX,
    ensures
        postings_sorted(index_of(data, q)),
{
    let m = index_of(data, q);
    assert forall|g: Seq<i32>, a: int, b: int|
        m.contains_key(g) && 0 <= a <= b < m[g].len() implies #[trigger] m[g][a].1
        <= #[trigger] m[g][b].1 by {
        lemma_postings_shape(data, q, g, data.len());
        let ps = postings(data, q, g, data.len());
        assert(ps[a].0 <= ps[b].0);
        assert(data[ps[a].0 as int].len() <= data[ps[b].0 as int].len());
    }
}

/// The chunk number `p` of the padded query.
pub open spec fn chunk(query: Seq<i32>, q: nat, p: int) -> Seq<i32> {
    padded(query, q).subrange(p * q, p * q + q)
}

/// The chunks of the padded query, in order.
pub open spec fn chunks_of(query: Seq<i32>, q: nat) -> Seq<Seq<i32>> {
    Seq::new(sig_count(query.len(), q), |p: int| chunk(query, q, p))
}

/// The matches of chunk `p` with the postings `ps` of string `cid`: those
/// whose string length lies in `[lo, hi)` and whose q-gram starts at most
/// `k` labels from the chunk, each as the chunk's number and the q-gram's
/// start.
pub open spec fn chunk_matches(
    ps: Seq<Posting>,
    cid: usize,
    p: nat,
    q: nat,
    k: nat,
    lo: int,
    hi: int,
) -> Seq<(usize, i32)>
    decreases ps.len(),
{
    if ps.len() == 0 {
        Seq::empty()
    } else {
        let before = chunk_matches(ps.drop_last(), cid, p, q, k, lo, hi);
        let e = ps.last();
        if e.0 == cid && lo <= e.1 < hi && -(k as int) <= (p * q) - e.2 <= k {
            before.push((p as usize, e.2))
        } else {
            before
        }
    }
}

/// The matches of string `cid` with the first `upto` chunks of the query,
/// by chunk.
pub open spec fn candidate_matches(
    m: Map<Seq<i32>, Seq<Posting>>,
    chunks: Seq<Seq<i32>>,
    q: nat,
    k: nat,
    lo: int,
    hi: int,
    cid: usize,
    upto: nat,
) -> Seq<(usize, i32)>
    decreases upto,
{
    if upto == 0 {
        Seq::empty()
    } else {
        let p = (upto - 1) as nat;
        candidate_matches(m, chunks, q, k, lo, hi, cid, p) + chunk_matches(
            held(m, chunks[p as int]),
            cid,
            p,
            q,
            k,
            lo,
            hi,
        )
    }
}

/// Whether the match `ms[b - 1]` may come before `ms[a - 1]` in a chain,
/// where number 0 stands for the match that every chain starts from: it may
/// when it is that start, when its chunk begins with label `-1`, or when the
/// two chunks differ in place and labels and the q-gram of `ms[a - 1]` starts
/// at least `q` labels after that of `ms[b - 1]`.
pub open spec fn compatible(ms: Seq<(usize, i32)>, chunks: Seq<Seq<i32>>, q: nat, a: int, b: int) -> bool {
    ||| b == 0
    ||| chunks[ms[b - 1].0 as int][0] == -1
    ||| {
        &&& ms[a - 1].0 != ms[b - 1].0
        &&& chunks[ms[a - 1].0 as int] != chunks[ms[b - 1].0 as int]
        &&& ms[a - 1].1 >= ms[b - 1].1 + q
    }
}

/// How far back a chain step looks from position `kc`: `kc`, but at most
/// `|ms| - lb + 2`.
pub open spec fn reach(kc: int, len: nat, lb: nat) -> int {
    if len - lb + 2 < kc {
        len - lb + 2
    } else {
        kc
    }
}

/// The scan over the `i` positions before `kc`, nearest first: the value
/// starts at `i32::MIN`, and a position whose chain length exceeds it and
/// whose match is compatible sets it to that length plus one.
pub open spec fn scan(os: Seq<int>, ms: Seq<(usize, i32)>, chunks: Seq<Seq<i32>>, q: nat, kc: int, i: nat) -> int
    decreases i,
{
    if i == 0 {
        i32::MIN as int
    } else {
        let best = scan(os, ms, chunks, q, kc, (i - 1) as nat);
        let o = os[kc - i];
        if o > best && compatible(ms, chunks, q, kc, kc - i) {
            o + 1
        } else {
            best
        }
    }
}

/// The chain lengths at the first `upto` positions, position 0 being the
/// start with length 0.
pub open spec fn chain_lengths(ms: Seq<(usize, i32)>, chunks: Seq<Seq<i32>>, q: nat, lb: nat, upto: nat) -> Seq<int>
    decreases upto,
{
    if upto == 0 {
        Seq::empty()
    } else if upto == 1 {
        seq![0int]
    } else {
        let kc = upto - 1;
        let os = chain_lengths(ms, chunks, q, lb, kc as nat);
        os.push(scan(os, ms, chunks, q, kc, reach(kc, ms.len(), lb) as nat))
    }
}

/// The true-match test: some position of the matches reaches a chain of
/// length `lb`.
pub open spec fn true_match(ms: Seq<(usize, i32)>, chunks: Seq<Seq<i32>>, q: nat, lb: nat) -> bool {
    let os = chain_lengths(ms, chunks, q, lb, ms.len() + 1);
    exists|j: int| 1 <= j <= ms.len() && #[trigger] os[j] >= lb
}

/// A chain's lengths do not change as the chain grows.
proof fn lemma_chain_prefix(ms: Seq<(usize, i32)>, chunks: Seq<Seq<i32>>, q: nat, lb: nat, a: nat, b: nat)
    requires
        a <= b,
    ensures
        chain_lengths(ms, chunks, q, lb, b).len() == b,
        forall|j: int|
            0 <= j < a ==> #[trigger] chain_lengths(ms, chunks, q, lb, a)[j] == chain_lengths(
                ms,
                chunks,
                q,
                lb,
                b,
            )[j],
    decreases b,
{
    if b > 0 && b > a {
        lemma_chain_prefix(ms, chunks, q, lb, a, (b - 1) as nat);
        if b > 1 {
            let os = chain_lengths(ms, chunks, q, lb, (b - 1) as nat);
            assert forall|j: int| 0 <= j < a implies #[trigger] chain_lengths(ms, chunks, q, lb, a)[j]
                == chain_lengths(ms, chunks, q, lb, b)[j] by {
                assert(chain_lengths(ms, chunks, q, lb, b)[j] == os[j]);
            }
        }
    } else if b > 0 {
        lemma_chain_prefix(ms, chunks, q, lb, 0, (b - 1) as nat);
    }
}

/// Whether two label sequences are equal.
fn same_labels(a: &Vec<i32>, b: &Vec<i32>) -> (r: bool)
    ensures
        r == (a@ == b@),
{
    if a.len() != b.len() {
        return false;
    }
    let mut i: usize = 0;
    while i < a.len()
        invariant
            i <= a.len(),
            a.len() == b.len(),
            a@.subrange(0, i as int) == b@.subrange(0, i as int),
        decreases a.len() - i,
    {
        if a[i] != b[i] {
            assert(a@[i as int] != b@[i as int]);
            return false;
        }
        assert(a@.subrange(0, i + 1) == a@.subrange(0, i as int).push(a@[i as int]));
        assert(b@.subrange(0, i + 1) == b@.subrange(0, i as int).push(b@[i as int]));
        i += 1;
    }
    assert(a@ == a@.subrange(0, a.len() as int));
    assert(b@ == b@.subrange(0, b.len() as int));
    true
}

/// Whether the match at position `b` may precede the one at `a` (positions
/// counted with the chain start at 0).
fn compatible_at(ms: &Vec<(usize, i32)>, chunks: &Vec<Vec<i32>>, q: usize, a: usize, b: usize) -> (r: bool)
    requires
        b < a <= ms.len(),
        q <= i32::MAX,
        forall|j: int| 0 <= j < ms.len() ==> (#[trigger] ms@[j]).0 < chunks.len(),
        forall|p: int| 0 <= p < chunks.len() ==> (#[trigger] chunks@[p]).len() >= 1,
    ensures
        r == compatible(ms@, strings_view(chunks@), q as nat, a as int, b as int),
{
    let ghost sigs = strings_view(chunks@);
    if b == 0 {
        return true;
    }
    let m1 = ms[a - 1];
    let m2 = ms[b - 1];
    assert(ms@[b - 1].0 < chunks.len());
    assert(ms@[a - 1].0 < chunks.len());
    assert(sigs[m2.0 as int] == chunks@[m2.0 as int]@);
    assert(sigs[m1.0 as int] == chunks@[m1.0 as int]@);
    if chunks[m2.0][0] == -1 {
        return true;
    }
    m1.0 != m2.0 && !same_labels(&chunks[m1.0], &chunks[m2.0]) && (m1.1 as i64) >= (m2.1 as i64) + (q as i64)
}

/// The true-match filter: computes the chain lengths of `ms` position by
/// position and stops as soon as a chain of length `lb` is found.
fn chain_filter(ms: &Vec<(usize, i32)>, chunks: &Vec<Vec<i32>>, q: usize, lb: usize) -> (r: bool)
    requires
        1 <= lb <= ms.len(),
        q <= i32::MAX,
        forall|j: int| 0 <= j < ms.len() ==> (#[trigger] ms@[j]).0 < chunks.len(),
        forall|p: int| 0 <= p < chunks.len() ==> (#[trigger] chunks@[p]).len() >= 1,
    ensures
        r == true_match(ms@, strings_view(chunks@), q as nat, lb as nat),
{
    let ghost sigs = strings_view(chunks@);
    let ghost msv = ms@;
    let n = ms.len();
    let slack = n - lb;
    let mut opt: Vec<i128> = Vec::new();
    opt.push(0);
    let mut total: i128 = -2147483648;
    let mut kc: usize = 0;
    assert(chain_lengths(msv, sigs, q as nat, lb as nat, 1) == seq![0int]);
    while kc < n
        invariant
            kc <= n,
            n == ms.len(),
            slack == n - lb,
            1 <= lb <= n,
            q <= i32::MAX,
            msv == ms@,
            sigs == strings_view(chunks@),
            forall|j: int| 0 <= j < ms.len() ==> (#[trigger] ms@[j]).0 < chunks.len(),
            forall|p: int| 0 <= p < chunks.len() ==> (#[trigger] chunks@[p]).len() >= 1,
            opt.len() == kc + 1,
            chain_lengths(msv, sigs, q as nat, lb as nat, (kc + 1) as nat).len() == kc + 1,
            forall|j: int|
                0 <= j <= kc ==> opt@[j] as int == #[trigger] chain_lengths(
                    msv,
                    sigs,
                    q as nat,
                    lb as nat,
                    (kc + 1) as nat,
                )[j],
            forall|j: int| 0 <= j <= kc ==> i32::MIN <= #[trigger] opt@[j] <= j,
            forall|j: int| 1 <= j <= kc ==> #[trigger] opt@[j] <= total,
            kc == 0 ==> total == i32::MIN,
            kc >= 1 ==> exists|j: int| 1 <= j <= kc && #[trigger] opt@[j] == total,
            kc >= lb ==> total < lb,
        decreases n - kc,
    {
        kc += 1;
        let reach_len: usize = if slack + 1 < kc {
            slack + 2
        } else {
            kc
        };
        let ghost os = chain_lengths(msv, sigs, q as nat, lb as nat, kc as nat);
        assert(reach_len == reach(kc as int, msv.len(), lb as nat));
        let mut best: i128 = -2147483648;
        let mut i: usize = 0;
        while i < reach_len
            invariant
                i <= reach_len <= kc,
                kc <= n,
                n == ms.len(),
                q <= i32::MAX,
                msv == ms@,
                sigs == strings_view(chunks@),
                forall|j: int| 0 <= j < ms.len() ==> (#[trigger] ms@[j]).0 < chunks.len(),
                forall|p: int| 0 <= p < chunks.len() ==> (#[trigger] chunks@[p]).len() >= 1,
                opt.len() == kc,
                os.len() == kc,
                forall|j: int| 0 <= j < kc ==> opt@[j] as int == #[trigger] os[j],
                forall|j: int| 0 <= j < kc ==> i32::MIN <= #[trigger] opt@[j] <= j,
                best as int == scan(os, msv, sigs, q as nat, kc as int, i as nat),
                i32::MIN <= best <= kc,
            decreases reach_len - i,
        {
            i += 1;
            let o = opt[kc - i];
            assert(opt@[kc - i] as int == os[kc - i]);
            if o > best && compatible_at(ms, chunks, q, kc, kc - i) {
                best = o + 1;
            }
        }
        proof {
            assert(kc >= 1);
            if kc == 1 {
                assert(os == seq![0int]);
            }
            let next = chain_lengths(msv, sigs, q as nat, lb as nat, (kc + 1) as nat);
            assert(next == os.push(best as int));
        }
        let ghost prev_opt = opt@;
        let ghost prev_total = total;
        opt.push(best);
        if best > total {
            total = best;
        }
        proof {
            let next = chain_lengths(msv, sigs, q as nat, lb as nat, (kc + 1) as nat);
            assert forall|j: int| 0 <= j <= kc implies opt@[j] as int == #[trigger] next[j] by {
                if j < kc {
                    assert(next[j] == os[j]);
                }
            }
            assert(opt@[kc as int] == best);
            assert forall|j: int| 1 <= j <= kc implies #[trigger] opt@[j] <= total by {}
            if best == total {
                assert(opt@[kc as int] == total);
            } else {
                assert(kc - 1 >= 1);
                let w = choose|j: int| 1 <= j <= kc - 1 && #[trigger] prev_opt[j] == prev_total;
                assert(opt@[w] == prev_opt[w]);
                assert(opt@[w] == total);
            }
        }
        if kc >= lb && total >= lb as i128 {
            proof {
                let w = choose|j: int| 1 <= j <= kc && #[trigger] opt@[j] == total;
                lemma_chain_prefix(msv, sigs, q as nat, lb as nat, (kc + 1) as nat, (n + 1) as nat);
                let all = chain_lengths(msv, sigs, q as nat, lb as nat, (n + 1) as nat);
                let next = chain_lengths(msv, sigs, q as nat, lb as nat, (kc + 1) as nat);
                assert(opt@[w] as int == next[w]);
                assert(next[w] == all[w]);
                assert(all[w] >= lb);
            }
            return true;
        }
    }
    proof {
        let all = chain_lengths(msv, sigs, q as nat, lb as nat, (n + 1) as nat);
        assert forall|j: int| 1 <= j <= n implies !(#[trigger] all[j] >= lb) by {
            assert(opt@[j] <= total);
        }
    }
    false
}

/// What `m` holds under `c`, empty where it holds nothing.
pub open spec fn matches_held(m: Map<usize, Seq<(usize, i32)>>, c: usize) -> Seq<(usize, i32)> {
    if m.contains_key(c) {
        m[c]
    } else {
        Seq::empty()
    }
}

/// Whether the query keeps string `cid` as a candidate at threshold `k`:
/// with `lb` the number of chunks less `k`, the string has at least `lb`
/// matches and they pass the true-match test for `lb`.
pub open spec fn accepted(m: Map<Seq<i32>, Seq<Posting>>, query: Seq<i32>, q: nat, k: nat, cid: usize) -> bool {
    let n = query.len();
    let chunks = chunks_of(query, q);
    let lb = (sig_count(n, q) - k) as nat;
    let ms = candidate_matches(m, chunks, q, k, n - k, (n + k + 1) as int, cid, chunks.len());
    ms.len() >= lb && true_match(ms, chunks, q, lb)
}

/// The matches of one chunk name that chunk.
proof fn lemma_chunk_matches_shape(ps: Seq<Posting>, cid: usize, p: nat, q: nat, k: nat, lo: int, hi: int)
    requires
        p <= usize::MAX,
    ensures
        forall|j: int|
            0 <= j < chunk_matches(ps, cid, p, q, k, lo, hi).len() ==> (#[trigger] chunk_matches(
                ps,
                cid,
                p,
                q,
                k,
                lo,
                hi,
            )[j]).0 == p,
    decreases ps.len(),
{
    if ps.len() > 0 {
        lemma_chunk_matches_shape(ps.drop_last(), cid, p, q, k, lo, hi);
        let before = chunk_matches(ps.drop_last(), cid, p, q, k, lo, hi);
        let all = chunk_matches(ps, cid, p, q, k, lo, hi);
        assert forall|j: int| 0 <= j < all.len() implies (#[trigger] all[j]).0 == p by {
            if j < before.len() {
                assert(all[j] == before[j]);
            }
        }
    }
}

/// The matches with the first `upto` chunks name chunks below `upto`.
proof fn lemma_candidate_matches_shape(
    m: Map<Seq<i32>, Seq<Posting>>,
    chunks: Seq<Seq<i32>>,
    q: nat,
    k: nat,
    lo: int,
    hi: int,
    cid: usize,
    upto: nat,
)
    requires
        upto <= usize::MAX,
    ensures
        forall|j: int|
            0 <= j < candidate_matches(m, chunks, q, k, lo, hi, cid, upto).len() ==> (
            #[trigger] candidate_matches(m, chunks, q, k, lo, hi, cid, upto)[j]).0 < upto,
    decreases upto,
{
    if upto > 0 {
        let p = (upto - 1) as nat;
        lemma_candidate_matches_shape(m, chunks, q, k, lo, hi, cid, p);
        lemma_chunk_matches_shape(held(m, chunks[p as int]), cid, p, q, k, lo, hi);
        let before = candidate_matches(m, chunks, q, k, lo, hi, cid, p);
        let here = chunk_matches(held(m, chunks[p as int]), cid, p, q, k, lo, hi);
        let all = candidate_matches(m, chunks, q, k, lo, hi, cid, upto);
        assert(all == before + here);
        assert forall|j: int| 0 <= j < all.len() implies (#[trigger] all[j]).0 < upto by {
            if j < before.len() {
                assert(all[j] == before[j]);
            } else {
                assert(all[j] == here[j - before.len()]);
            }
        }
    }
}

/// Postings whose string length lies outside `[lo, hi)` add no matches.
proof fn lemma_chunk_matches_skip(
    ps: Seq<Posting>,
    cid: usize,
    p: nat,
    q: nat,
    k: nat,
    lo: int,
    hi: int,
    s: int,
    t: int,
)
    requires
        0 <= s <= t <= ps.len(),
        forall|j: int| s <= j < t ==> !(lo <= (#[trigger] ps[j]).1 < hi),
    ensures
        chunk_matches(ps.subrange(0, t), cid, p, q, k, lo, hi) == chunk_matches(
            ps.subrange(0, s),
            cid,
            p,
            q,
            k,
            lo,
            hi,
        ),
    decreases t - s,
{
    if t > s {
        lemma_chunk_matches_skip(ps, cid, p, q, k, lo, hi, s, t - 1);
        assert(ps.subrange(0, t).drop_last() =~= ps.subrange(0, t - 1));
        assert(ps.subrange(0, t).last() == ps[t - 1]);
    }
}

/// The first position in `ps` whose string length is at least `bound`: the
/// partition point a binary search finds in a list ordered by length.
fn first_at_least(ps: &Vec<Posting>, bound: i32) -> (r: usize)
    requires
        forall|a: int, b: int| 0 <= a <= b < ps.len() ==> (#[trigger] ps@[a]).1 <= (#[trigger] ps@[b]).1,
    ensures
        r <= ps.len(),
        forall|j: int| 0 <= j < r ==> (#[trigger] ps@[j]).1 < bound,
        forall|j: int| r <= j < ps.len() ==> (#[trigger] ps@[j]).1 >= bound,
{
    let mut low: usize = 0;
    let mut high: usize = ps.len();
    while low < high
        invariant
            low <= high <= ps.len(),
            forall|a: int, b: int| 0 <= a <= b < ps.len() ==> (#[trigger] ps@[a]).1 <= (#[trigger] ps@[b]).1,
            forall|j: int| 0 <= j < low ==> (#[trigger] ps@[j]).1 < bound,
            forall|j: int| high <= j < ps.len() ==> (#[trigger] ps@[j]).1 >= bound,
        decreases high - low,
    {
        let mid = low + (high - low) / 2;
        if ps[mid].1 < bound {
            assert forall|j: int| 0 <= j <= mid implies (#[trigger] ps@[j]).1 < bound by {
                assert(ps@[j].1 <= ps@[mid as int].1);
            }
            low = mid + 1;
        } else {
            assert forall|j: int| mid <= j < ps.len() implies (#[trigger] ps@[j]).1 >= bound by {
                assert(ps@[mid as int].1 <= ps@[j].1);
            }
            high = mid;
        }
    }
    low
}

/// The start of chunk `p` lies inside the query, and the chunk inside the
/// padded query.
proof fn lemma_chunk_start(n: nat, q: nat, p: nat)
    requires
        q > 0,
        n >= 1,
        p < sig_count(n, q),
    ensures
        p * q < n,
        p * q + q <= sig_count(n, q) * q,
{
    let d = sig_count(n, q);
    let t = (n + q - 1) as int;
    assert(d * q <= t) by (nonlinear_arith)
        requires
            d == t / (q as int),
            q > 0,
            t >= 0,
    ;
    assert(p * q + q <= d * q) by (nonlinear_arith)
        requires
            p + 1 <= d,
            q > 0,
    ;
}

/// Some list of postings in `m` names string `cid`.
pub open spec fn posted(m: Map<Seq<i32>, Seq<Posting>>, cid: usize) -> bool {
    exists|g: Seq<i32>, j: int| m.contains_key(g) && 0 <= j < m[g].len() && (#[trigger] m[g][j]).0 == cid
}

/// The index of `data` names only strings of `data`.
proof fn lemma_posted_below(data: Seq<Seq<i32>>, q: nat, cid: usize)
    requires
        posted(index_of(data, q), cid),
        data.len() <= usize::MAX,
    ensures
        cid < data.len(),
{
    let m = index_of(data, q);
    let (g, j) = choose|g: Seq<i32>, j: int| m.contains_key(g) && 0 <= j < m[g].len() && (#[trigger] m[g][j]).0 == cid;
    lemma_postings_shape(data, q, g, data.len());
    assert(postings(data, q, g, data.len())[j].0 < data.len());
}

/// A non-empty list of matches of one chunk comes from a posting that
/// names the string.
proof fn lemma_chunk_matches_posted(ps: Seq<Posting>, cid: usize, p: nat, q: nat, k: nat, lo: int, hi: int)
    requires
        chunk_matches(ps, cid, p, q, k, lo, hi).len() > 0,
    ensures
        exists|j: int| 0 <= j < ps.len() && (#[trigger] ps[j]).0 == cid,
    decreases ps.len(),
{
    if chunk_matches(ps.drop_last(), cid, p, q, k, lo, hi).len() > 0 {
        lemma_chunk_matches_posted(ps.drop_last(), cid, p, q, k, lo, hi);
        let j = choose|j: int| 0 <= j < ps.drop_last().len() && (#[trigger] ps.drop_last()[j]).0 == cid;
        assert(ps[j] == ps.drop_last()[j]);
    } else {
        assert(ps[ps.len() - 1].0 == cid);
    }
}

/// A string with matches is named by some posting of the index.
proof fn lemma_candidate_matches_posted(
    m: Map<Seq<i32>, Seq<Posting>>,
    chunks: Seq<Seq<i32>>,
    q: nat,
    k: nat,
    lo: int,
    hi: int,
    cid: usize,
    upto: nat,
)
    requires
        candidate_matches(m, chunks, q, k, lo, hi, cid, upto).len() > 0,
    ensures
        posted(m, cid),
    decreases upto,
{
    let p = (upto - 1) as nat;
    if candidate_matches(m, chunks, q, k, lo, hi, cid, p).len() > 0 {
        lemma_candidate_matches_posted(m, chunks, q, k, lo, hi, cid, p);
    } else {
        let ps = held(m, chunks[p as int]);
        assert(chunk_matches(ps, cid, p, q, k, lo, hi).len() > 0);
        lemma_chunk_matches_posted(ps, cid, p, q, k, lo, hi);
        let j = choose|j: int| 0 <= j < ps.len() && (#[trigger] ps[j]).0 == cid;
        assert(m.contains_key(chunks[p as int]));
        assert(m[chunks[p as int]][j].0 == cid);
    }
}

impl IndexGram {
    /// The inverted index that maps each q-gram to its postings.
    pub closed spec fn contents(&self) -> Map<Seq<i32>, Seq<Posting>> {
        gram_map_contents(self.inv_index)
    }

    /// The q-gram length.
    pub closed spec fn gram_len(&self) -> nat {
        self.q as nat
    }

    /// The matches of every string with the chunks, gathered by string: for
    /// each chunk in order, its postings whose string length lies in
    /// `[lo, hi)` (found by binary search) and whose q-gram starts at most
    /// `k` labels from the chunk.
    fn collect_matches(&self, chunks: &Vec<Vec<i32>>, n: usize, k: usize, lo: i32, hi: i32) -> (mm: MatchMap)
        requires
            self.q > 0,
            postings_sorted(self.contents()),
            1 <= n <= i32::MAX,
            k <= i32::MAX,
            lo < hi,
            chunks.len() == sig_count(n as nat, self.q as nat),
        ensures
            forall|c: usize|
                #[trigger] matches_held(match_map_contents(mm), c) == candidate_matches(
                    self.contents(),
                    strings_view(chunks@),
                    self.q as nat,
                    k as nat,
                    lo as int,
                    hi as int,
                    c,
                    chunks.len() as nat,
                ),
    {
        let ghost m = self.contents();
        let ghost sigs = strings_view(chunks@);
        let q = self.q;
        let mut mm = MatchMap::new();
        let mut p: usize = 0;
        while p < chunks.len()
            invariant
                p <= chunks.len(),
                q == self.q,
                q > 0,
                m == self.contents(),
                sigs == strings_view(chunks@),
                postings_sorted(m),
                1 <= n <= i32::MAX,
                k <= i32::MAX,
                lo < hi,
                chunks.len() == sig_count(n as nat, q as nat),
                forall|c: usize|
                    #[trigger] matches_held(match_map_contents(mm), c) == candidate_matches(
                        m,
                        sigs,
                        q as nat,
                        k as nat,
                        lo as int,
                        hi as int,
                        c,
                        p as nat,
                    ),
            decreases chunks.len() - p,
        {
            proof {
                lemma_chunk_start(n as nat, q as nat, p as nat);
            }
            let pos: i64 = (p * q) as i64;
            let ghost ps = held(m, sigs[p as int]);
            assert(sigs[p as int] == chunks@[p as int]@);
            match self.inv_index.get(chunks[p].as_slice()) {
                Some(list) => {
                    assert(list@ == ps);
                    assert(forall|a: int, b: int| 0 <= a <= b < list.len() ==> (#[trigger] list@[a]).1 <= (#[trigger] list@[b]).1);
                    let start = first_at_least(list, lo);
                    let end = first_at_least(list, hi);
                    if end < start {
                        assert(list@[end as int].1 >= hi && list@[end as int].1 < lo);
                    }
                    proof {
                        lemma_chunk_matches_skip(ps, 0, p as nat, q as nat, k as nat, lo as int, hi as int, 0, 0);
                        assert forall|c: usize| #[trigger] chunk_matches(ps.subrange(0, start as int), c, p as nat, q as nat, k as nat, lo as int, hi as int) == Seq::<(usize, i32)>::empty() by {
                            lemma_chunk_matches_skip(ps, c, p as nat, q as nat, k as nat, lo as int, hi as int, 0, start as int);
                            assert(ps.subrange(0, 0) =~= Seq::<Posting>::empty());
                        }
                    }
                    let mut j: usize = start;
                    while j < end
                        invariant
                            start <= j <= end <= list.len(),
                            list@ == ps,
                            p < chunks.len(),
                            pos == p * q,
                            0 <= pos <= i32::MAX,
                            k <= i32::MAX,
                            forall|t: int| start <= t < end ==> lo <= (#[trigger] list@[t]).1 < hi,
                            forall|c: usize|
                                #[trigger] matches_held(match_map_contents(mm), c) == candidate_matches(
                                    m,
                                    sigs,
                                    q as nat,
                                    k as nat,
                                    lo as int,
                                    hi as int,
                                    c,
                                    p as nat,
                                ) + chunk_matches(ps.subrange(0, j as int), c, p as nat, q as nat, k as nat, lo as int, hi as int),
                        decreases end - j,
                    {
                        let e = list[j];
                        let gap: i64 = pos - (e.2 as i64);
                        let ghost before = match_map_contents(mm);
                        proof {
                            assert(ps.subrange(0, j + 1).drop_last() =~= ps.subrange(0, j as int));
                            assert(ps.subrange(0, j + 1).last() == e);
                        }
                        if -(k as i64) <= gap && gap <= k as i64 {
                            let mut here = match mm.remove(e.0) {
                                Some(v) => v,
                                None => Vec::new(),
                            };
                            here.push((p, e.2));
                            mm.insert(e.0, here);
                            proof {
                                let after = match_map_contents(mm);
                                assert forall|c: usize| #[trigger] matches_held(after, c) == candidate_matches(m, sigs, q as nat, k as nat, lo as int, hi as int, c, p as nat) + chunk_matches(ps.subrange(0, j + 1), c, p as nat, q as nat, k as nat, lo as int, hi as int) by {
                                    if c == e.0 {
                                        assert(matches_held(after, c) =~= matches_held(before, c).push((p, e.2)));
                                    } else {
                                        assert(matches_held(after, c) == matches_held(before, c));
                                    }
                                }
                            }
                        } else {
                            proof {
                                assert forall|c: usize| #[trigger] matches_held(match_map_contents(mm), c) == candidate_matches(m, sigs, q as nat, k as nat, lo as int, hi as int, c, p as nat) + chunk_matches(ps.subrange(0, j + 1), c, p as nat, q as nat, k as nat, lo as int, hi as int) by {
                                    assert(matches_held(before, c) == candidate_matches(m, sigs, q as nat, k as nat, lo as int, hi as int, c, p as nat) + chunk_matches(ps.subrange(0, j as int), c, p as nat, q as nat, k as nat, lo as int, hi as int));
                                }
                            }
                        }
                        j += 1;
                    }
                    proof {
                        assert forall|c: usize| #[trigger] matches_held(match_map_contents(mm), c) == candidate_matches(m, sigs, q as nat, k as nat, lo as int, hi as int, c, (p + 1) as nat) by {
                            lemma_chunk_matches_skip(ps, c, p as nat, q as nat, k as nat, lo as int, hi as int, end as int, ps.len() as int);
                            assert(ps.subrange(0, ps.len() as int) =~= ps);
                        }
                    }
                },
                None => {
                    proof {
                        assert(ps =~= Seq::<Posting>::empty());
                        assert forall|c: usize| #[trigger] matches_held(match_map_contents(mm), c) == candidate_matches(m, sigs, q as nat, k as nat, lo as int, hi as int, c, (p + 1) as nat) by {
                            assert(candidate_matches(m, sigs, q as nat, k as nat, lo as int, hi as int, c, (p + 1) as nat) =~= candidate_matches(m, sigs, q as nat, k as nat, lo as int, hi as int, c, p as nat));
                        }
                    }
                },
            }
            p += 1;
        }
        mm
    }

    /// The candidate strings for `query` at threshold `k`, each once, in no
    /// particular order; an error when `k` reaches the number of whole
    /// chunks in the query.
    pub fn query(&self, query: Vec<i32>, k: usize) -> (r: Result<Vec<usize>, String>)
        requires
            self.gram_len() > 0,
            postings_sorted(self.contents()),
            query.len() + k < i32::MAX,
        ensures
            r is Err <==> k >= query@.len() / self.gram_len(),
            r matches Err(e) ==> e@ == "Query is too small for that threshold!"@,
            r matches Ok(c) ==> c@.no_duplicates(),
            r matches Ok(c) ==> forall|cid: usize| c@.contains(cid) ==> posted(self.contents(), cid),
            r matches Ok(c) ==> forall|cid: usize|
                c@.contains(cid) <==> accepted(self.contents(), query@, self.gram_len(), k as nat, cid),
    {
        let q = self.q;
        let n = query.len();
        if k >= n / q {
            return Err("Query is too small for that threshold!".to_owned());
        }
        proof {
            assert(n / q >= 1);
            assert(q <= n) by (nonlinear_arith)
                requires
                    (n as int) / (q as int) >= 1,
                    q > 0,
            ;
        }
        let sig_size = (n + q - 1) / q;
        proof {
            vstd::arithmetic::div_mod::lemma_div_is_ordered(n as int, (n + q - 1) as int, q as int);
        }
        let lo = (n - k) as i32;
        let hi = (n + k + 1) as i32;
        let p = pad(&query, q);
        let ghost sigs = chunks_of(query@, q as nat);
        let mut chunks: Vec<Vec<i32>> = Vec::new();
        let mut c: usize = 0;
        while c < sig_size
            invariant
                c <= sig_size,
                sig_size == sig_count(n as nat, q as nat),
                q > 0,
                1 <= n <= i32::MAX,
                n == query@.len(),
                p@ == padded(query@, q as nat),
                sigs == chunks_of(query@, q as nat),
                chunks.len() == c,
                forall|j: int| 0 <= j < c ==> (#[trigger] chunks@[j])@ == sigs[j],
                forall|j: int| 0 <= j < c ==> (#[trigger] chunks@[j]).len() == q,
            decreases sig_size - c,
        {
            proof {
                lemma_chunk_start(n as nat, q as nat, c as nat);
            }
            chunks.push(slice_copy(&p, c * q, q));
            c += 1;
        }
        proof {
            assert(strings_view(chunks@) =~= sigs);
            assert forall|j: int| 0 <= j < chunks.len() implies (#[trigger] sigs[j]).len() == q by {
                assert(chunks@[j]@ == sigs[j]);
            }
        }
        let mm = self.collect_matches(&chunks, n, k, lo, hi);
        let lb = sig_size - k;
        let keys = mm.keys();
        let mut out: Vec<usize> = Vec::new();
        let mut t: usize = 0;
        let ghost m = self.contents();
        while t < keys.len()
            invariant
                t <= keys.len(),
                keys@.no_duplicates(),
                keys@.to_set() == match_map_contents(mm).dom(),
                1 <= lb <= sig_size,
                lb == sig_count(n as nat, q as nat) - k,
                q == self.q,
                q > 0,
                q <= i32::MAX,
                m == self.contents(),
                n == query@.len(),
                lo == n - k,
                hi == n + k + 1,
                sigs == chunks_of(query@, q as nat),
                strings_view(chunks@) == sigs,
                chunks.len() == sig_size,
                sig_size == sig_count(n as nat, q as nat),
                forall|j: int| 0 <= j < chunks.len() ==> (#[trigger] chunks@[j])@ == sigs[j],
                forall|j: int| 0 <= j < chunks.len() ==> (#[trigger] sigs[j]).len() == q,
                forall|c: usize|
                    #[trigger] matches_held(match_map_contents(mm), c) == candidate_matches(
                        m,
                        sigs,
                        q as nat,
                        k as nat,
                        lo as int,
                        hi as int,
                        c,
                        chunks.len() as nat,
                    ),
                out@.no_duplicates(),
                forall|cid: usize|
                    out@.contains(cid) <==> (exists|u: int| 0 <= u < t && #[trigger] keys@[u] == cid) && accepted(
                        m,
                        query@,
                        q as nat,
                        k as nat,
                        cid,
                    ),
            decreases keys.len() - t,
        {
            let cid = keys[t];
            assert(keys@.to_set().contains(cid));
            let ghost ms = candidate_matches(m, sigs, q as nat, k as nat, lo as int, hi as int, cid, chunks.len() as nat);
            let keep = match mm.get(cid) {
                Some(list) => {
                    assert(list@ == matches_held(match_map_contents(mm), cid));
                    if list.len() >= lb {
                        proof {
                            lemma_candidate_matches_shape(m, sigs, q as nat, k as nat, lo as int, hi as int, cid, chunks.len() as nat);
                            assert forall|p: int| 0 <= p < chunks.len() implies (#[trigger] chunks@[p]).len() >= 1 by {
                                assert(chunks@[p]@ == sigs[p]);
                            }
                        }
                        chain_filter(list, &chunks, q, lb)
                    } else {
                        false
                    }
                },
                None => false,
            };
            assert(keep == accepted(m, query@, q as nat, k as nat, cid));
            let ghost prev = out@;
            if keep {
                out.push(cid);
            }
            proof {
                broadcast use vstd::seq_lib::lemma_seq_contains_after_push;
                if prev.contains(cid) {
                    let u = choose|u: int| 0 <= u < t && #[trigger] keys@[u] == cid;
                    assert(keys@[u] == keys@[t as int]);
                }
                assert forall|x: usize| out@.contains(x) <==> (exists|u: int| 0 <= u < t + 1 && #[trigger] keys@[u] == x) && accepted(m, query@, q as nat, k as nat, x) by {
                    if x == cid {
                        assert(keys@[t as int] == x);
                        if !keep {
                            if prev.contains(x) {
                                let u = choose|u: int| 0 <= u < t && #[trigger] keys@[u] == x;
                                assert(keys@[u] == keys@[t as int]);
                            }
                        }
                    } else {
                        if exists|u: int| 0 <= u < t + 1 && #[trigger] keys@[u] == x {
                            let u = choose|u: int| 0 <= u < t + 1 && #[trigger] keys@[u] == x;
                            assert(u != t);
                        }
                        if keep {
                            assert(out@ == prev.push(cid));
                            assert(out@.contains(x) == prev.contains(x));
                        }
                    }
                }
                if keep {
                    assert forall|a: int, b: int| 0 <= a < b < out@.len() implies out@[a] != out@[b] by {
                        if b == out@.len() - 1 {
                            assert(prev.contains(out@[a]));
                        }
                    }
                }
            }
            t += 1;
        }
        proof {
            assert forall|cid: usize| out@.contains(cid) implies posted(m, cid) by {
                let ms = candidate_matches(m, sigs, q as nat, k as nat, lo as int, hi as int, cid, chunks.len() as nat);
                assert(ms.len() >= 1);
                lemma_candidate_matches_posted(m, sigs, q as nat, k as nat, lo as int, hi as int, cid, chunks.len() as nat);
            }
            assert forall|cid: usize| out@.contains(cid) <==> accepted(m, query@, q as nat, k as nat, cid) by {
                if accepted(m, query@, q as nat, k as nat, cid) {
                    let ms = candidate_matches(m, sigs, q as nat, k as nat, lo as int, hi as int, cid, chunks.len() as nat);
                    assert(ms.len() >= 1);
                    assert(matches_held(match_map_contents(mm), cid) == ms);
                    assert(match_map_contents(mm).dom().contains(cid));
                    assert(keys@.to_set().contains(cid));
                    let u = choose|u: int| 0 <= u < keys@.len() && keys@[u] == cid;
                    assert(keys@[u] == cid);
                }
            }
        }
        Ok(out)
    }

    /// Indexes every window of length `q` of each padded string of `data`.
    pub fn new(data: &[Vec<i32>], q: usize) -> (r: Self)
        requires
            q > 0,
            forall|i: int| 0 <= i < data@.len() ==> #[trigger] data@[i].len() + q <= usize::MAX,
        ensures
            r.gram_len() == q,
            r.contents() =~= index_of(strings_view(data@), q as nat),
            lengths_sorted(strings_view(data@)) ==> postings_sorted(r.contents()),
            forall|cid: usize| posted(r.contents(), cid) ==> cid < data@.len(),
    {
        let ghost dv = strings_view(data@);
        let mut inv_index = GramMap::new();
        let mut sid: usize = 0;
        while sid < data.len()
            invariant
                sid <= data@.len(),
                q > 0,
                dv == strings_view(data@),
                forall|i: int| 0 <= i < data@.len() ==> #[trigger] data@[i].len() + q <= usize::MAX,
                holds_lists(
                    gram_map_contents(inv_index),
                    |g: Seq<i32>| postings(dv, q as nat, g, sid as nat),
                ),
            decreases data@.len() - sid,
        {
            let s = &data[sid];
            assert(data@[sid as int].len() + q <= usize::MAX);
            let orig_len = s.len() as i32;
            let p = pad(s, q);
            let windows: usize = if p.len() >= q {
                p.len() - q + 1
            } else {
                0
            };
            assert(dv[sid as int] == s@);
            let mut i: usize = 0;
            while i < windows
                invariant
                    i <= windows,
                    windows == window_count(s@, q as nat),
                    p@ == padded(s@, q as nat),
                    orig_len == s@.len() as i32,
                    q > 0,
                    holds_lists(
                        gram_map_contents(inv_index),
                        |g: Seq<i32>|
                            postings(dv, q as nat, g, sid as nat) + window_hits(
                                s@,
                                sid,
                                q as nat,
                                g,
                                i as nat,
                            ),
                    ),
                decreases windows - i,
            {
                let w = slice_copy(&p, i, q);
                let ghost before = gram_map_contents(inv_index);
                let mut list = match inv_index.remove(w.as_slice()) {
                    Some(v) => v,
                    None => Vec::new(),
                };
                assert(list@ == held(before, w@));
                list.push((sid, orig_len, i as i32));
                inv_index.insert(w, list);
                proof {
                    let after = gram_map_contents(inv_index);
                    assert(window(s@, q as nat, i as int) == w@);
                    assert forall|g: Seq<i32>| #[trigger] after.contains_key(g) implies (postings(dv, q as nat, g, sid as nat) + window_hits(s@, sid, q as nat, g, (i + 1) as nat)).len() > 0 by {
                        if g != w@ {
                            assert(before.contains_key(g));
                        }
                    }
                    assert forall|g: Seq<i32>| #[trigger] held(after, g) == postings(dv, q as nat, g, sid as nat) + window_hits(s@, sid, q as nat, g, (i + 1) as nat) by {
                        if g == w@ {
                            assert(held(after, g) =~= (postings(dv, q as nat, g, sid as nat) + window_hits(s@, sid, q as nat, g, (i + 1) as nat)));
                        } else {
                            assert(held(after, g) == held(before, g));
                        }
                    }
                }
                i += 1;
            }
            proof {
                let m = gram_map_contents(inv_index);
                assert forall|g: Seq<i32>| #[trigger] m.contains_key(g) implies postings(dv, q as nat, g, (sid + 1) as nat).len() > 0 by {
                    assert(postings(dv, q as nat, g, (sid + 1) as nat) == postings(dv, q as nat, g, sid as nat) + window_hits(s@, sid, q as nat, g, i as nat));
                }
                assert forall|g: Seq<i32>| #[trigger] held(m, g) == postings(dv, q as nat, g, (sid + 1) as nat) by {
                    assert(postings(dv, q as nat, g, (sid + 1) as nat) == postings(dv, q as nat, g, sid as nat) + window_hits(s@, sid, q as nat, g, i as nat));
                }
            }
            sid += 1;
        }
        let r = IndexGram { q, inv_index };
        proof {
            let m = gram_map_contents(inv_index);
            assert(dv.len() == data@.len());
            assert forall|g: Seq<i32>| #[trigger] m.contains_key(g) <==> index_of(dv, q as nat).contains_key(g) by {
                if !m.contains_key(g) {
                    assert(held(m, g) == postings(dv, q as nat, g, dv.len()));
                }
            }
            assert forall|g: Seq<i32>| #[trigger] m.contains_key(g) implies m[g] == index_of(dv, q as nat)[g] by {
                assert(held(m, g) == postings(dv, q as nat, g, dv.len()));
            }
            assert(m =~= index_of(dv, q as nat));
            if lengths_sorted(dv) {
                lemma_index_sorted(dv, q as nat);
            }
            assert forall|cid: usize| posted(r.contents(), cid) implies cid < data@.len() by {
                lemma_posted_below(dv, q as nat, cid);
            }
        }
        r
    }
}

} // verus!
