//! Unit-cost string edit distance over label sequences.

use vstd::prelude::*;

verus! {

/// Smaller of two integers.
pub open spec fn min_int(a: int, b: int) -> int {
    if a <= b { a } else { b }
}

/// Larger of two integers.
pub open spec fn max_int(a: int, b: int) -> int {
    if a >= b { a } else { b }
}

/// Levenshtein distance between the length-`i` prefix of `a` and the
/// length-`j` prefix of `b` (deletion, insertion and substitution of one
/// element each cost 1, keeping an equal element costs 0).
pub open spec fn prefix_distance(a: Seq<i32>, b: Seq<i32>, i: nat, j: nat) -> nat
    decreases i + j,
{
    if i == 0 {
        j
    } else if j == 0 {
        i
    } else {
        let del: int = prefix_distance(a, b, (i - 1) as nat, j) + 1int;
        let ins: int = prefix_distance(a, b, i, (j - 1) as nat) + 1int;
        let sub: int = prefix_distance(a, b, (i - 1) as nat, (j - 1) as nat) + if a[i - 1] == b[j - 1] {
            0int
        } else {
            1int
        };
        min_int(min_int(del, ins), sub) as nat
    }
}

/// Levenshtein distance between the whole sequences.
pub open spec fn edit_distance(a: Seq<i32>, b: Seq<i32>) -> nat {
    prefix_distance(a, b, a.len(), b.len())
}

/// The prefix distance never exceeds the longer of the two prefixes.
pub proof fn lemma_prefix_distance_bound(a: Seq<i32>, b: Seq<i32>, i: nat, j: nat)
    ensures
        prefix_distance(a, b, i, j) <= max_int(i as int, j as int),
        prefix_distance(a, b, i, j) >= i - j,
        prefix_distance(a, b, i, j) >= j - i,
    decreases i + j,
{
    if i > 0 && j > 0 {
        lemma_prefix_distance_bound(a, b, (i - 1) as nat, j);
        lemma_prefix_distance_bound(a, b, i, (j - 1) as nat);
        lemma_prefix_distance_bound(a, b, (i - 1) as nat, (j - 1) as nat);
    }
}

/// The edit distance is symmetric: swapping the two sequences (and the two
/// prefix lengths) gives the same distance.
pub proof fn lemma_prefix_distance_symmetric(a: Seq<i32>, b: Seq<i32>, i: nat, j: nat)
    ensures
        prefix_distance(a, b, i, j) == prefix_distance(b, a, j, i),
    decreases i + j,
{
    if i > 0 && j > 0 {
        lemma_prefix_distance_symmetric(a, b, (i - 1) as nat, j);
        lemma_prefix_distance_symmetric(a, b, i, (j - 1) as nat);
        lemma_prefix_distance_symmetric(a, b, (i - 1) as nat, (j - 1) as nat);
    }
}

/// Edit distance is symmetric in its two arguments.
pub proof fn lemma_edit_distance_symmetric(a: Seq<i32>, b: Seq<i32>)
    ensures
        edit_distance(a, b) == edit_distance(b, a),
{
    lemma_prefix_distance_symmetric(a, b, a.len(), b.len());
}

/// One more element of either prefix costs at most one more edit, and a
/// matched or substituted pair at most one.
pub proof fn lemma_prefix_distance_steps(a: Seq<i32>, b: Seq<i32>, i: nat, j: nat)
    ensures
        prefix_distance(a, b, i + 1, j) <= prefix_distance(a, b, i, j) + 1,
        prefix_distance(a, b, i, j + 1) <= prefix_distance(a, b, i, j) + 1,
        prefix_distance(a, b, i + 1, j + 1) <= prefix_distance(a, b, i, j) + if a[i as int]
            == b[j as int] {
            0int
        } else {
            1int
        },
{
    if j == 0 {
        assert(prefix_distance(a, b, i + 1, 0) == i + 1);
    } else {
        assert(prefix_distance(a, b, (i + 1) as nat, j) <= prefix_distance(a, b, i, j) + 1);
    }
    if i == 0 {
        assert(prefix_distance(a, b, 0, j + 1) == j + 1);
    } else {
        assert(prefix_distance(a, b, i, (j + 1) as nat) <= prefix_distance(a, b, i, j) + 1);
    }
    assert(prefix_distance(a, b, (i + 1) as nat, (j + 1) as nat) <= prefix_distance(a, b, i, j) + if a[i as int] == b[j as int] {
        0int
    } else {
        1int
    });
}

/// One element fewer in either prefix costs at most one more edit.
pub proof fn lemma_prefix_distance_shrink(a: Seq<i32>, b: Seq<i32>, i: nat, j: nat)
    ensures
        prefix_distance(a, b, i, j) <= prefix_distance(a, b, i + 1, j) + 1,
        prefix_distance(a, b, i, j) <= prefix_distance(a, b, i, j + 1) + 1,
    decreases i + j,
{
    lemma_prefix_distance_bound(a, b, i, j);
    lemma_prefix_distance_bound(a, b, i + 1, j);
    lemma_prefix_distance_bound(a, b, i, j + 1);
    if i > 0 && j > 0 {
        lemma_prefix_distance_shrink(a, b, (i - 1) as nat, j);
        lemma_prefix_distance_shrink(a, b, i, (j - 1) as nat);
        lemma_prefix_distance_steps(a, b, (i - 1) as nat, j);
        lemma_prefix_distance_steps(a, b, i, (j - 1) as nat);
        lemma_prefix_distance_steps(a, b, (i - 1) as nat, (j - 1) as nat);
    }
}

/// Cost of aligning `u` with `v`: 0 for equal elements, else 1.
pub open spec fn pair_cost(u: i32, v: i32) -> int {
    if u == v {
        0
    } else {
        1
    }
}

/// The prefix distance also decomposes at the front: the first elements are
/// deleted, inserted, or aligned with each other.
proof fn lemma_prefix_distance_front(x: Seq<i32>, y: Seq<i32>, p: nat, q: nat)
    requires
        1 <= p <= x.len(),
        1 <= q <= y.len(),
    ensures
        prefix_distance(x, y, p, q) == min_int(
            min_int(
                prefix_distance(x.skip(1), y, (p - 1) as nat, q) + 1int,
                prefix_distance(x, y.skip(1), p, (q - 1) as nat) + 1int,
            ),
            prefix_distance(x.skip(1), y.skip(1), (p - 1) as nat, (q - 1) as nat) + pair_cost(
                x[0],
                y[0],
            ),
        ),
    decreases p + q,
{
    let xs = x.skip(1);
    let ys = y.skip(1);
    let c0 = pair_cost(x[0], y[0]);
    let c = pair_cost(x[p - 1], y[q - 1]);
    let t = |i: nat, j: nat| prefix_distance(x, y, i, j) as int;
    let a = |i: nat, j: nat| prefix_distance(xs, y, i, j) as int;
    let b = |i: nat, j: nat| prefix_distance(x, ys, i, j) as int;
    let cc = |i: nat, j: nat| prefix_distance(xs, ys, i, j) as int;
    let pm = (p - 1) as nat;
    let qm = (q - 1) as nat;
    assert(t(p, q) == min_int(min_int(t(pm, q) + 1, t(p, qm) + 1), t(pm, qm) + c));
    if p == 1 && q == 1 {
        assert(t(0, 1) == 1 && t(1, 0) == 1 && t(0, 0) == 0);
        assert(a(0, 1) == 1 && b(1, 0) == 1 && cc(0, 0) == 0);
    } else if p == 1 {
        let qmm = (q - 2) as nat;
        lemma_prefix_distance_front(x, y, p, qm);
        assert(ys[q - 2] == y[q - 1]);
        assert(t(1, qm) == min_int(min_int(a(0, qm) + 1, b(1, qmm) + 1), cc(0, qmm) + c0));
        assert(b(1, qm) == min_int(min_int(b(0, qm) + 1, b(1, qmm) + 1), b(0, qmm) + c));
        assert(t(0, q) == q && t(0, qm) == qm && a(0, q) == q && a(0, qm) == qm);
        assert(b(0, qm) == qm && b(0, qmm) == qmm && cc(0, qmm) == qmm && cc(0, qm) == qm);
    } else if q == 1 {
        let pmm = (p - 2) as nat;
        lemma_prefix_distance_front(x, y, pm, q);
        assert(xs[p - 2] == x[p - 1]);
        assert(t(pm, 1) == min_int(min_int(a(pmm, 1) + 1, b(pm, 0) + 1), cc(pmm, 0) + c0));
        assert(a(pm, 1) == min_int(min_int(a(pmm, 1) + 1, a(pm, 0) + 1), a(pmm, 0) + c));
        assert(t(p, 0) == p && t(pm, 0) == pm && b(p, 0) == p && b(pm, 0) == pm);
        assert(a(pm, 0) == pm && a(pmm, 0) == pmm && cc(pmm, 0) == pmm && cc(pm, 0) == pm);
    } else {
        let pmm = (p - 2) as nat;
        let qmm = (q - 2) as nat;
        lemma_prefix_distance_front(x, y, pm, q);
        lemma_prefix_distance_front(x, y, p, qm);
        lemma_prefix_distance_front(x, y, pm, qm);
        assert(xs[p - 2] == x[p - 1]);
        assert(ys[q - 2] == y[q - 1]);
        assert(t(pm, q) == min_int(min_int(a(pmm, q) + 1, b(pm, qm) + 1), cc(pmm, qm) + c0));
        assert(t(p, qm) == min_int(min_int(a(pm, qm) + 1, b(p, qmm) + 1), cc(pm, qmm) + c0));
        assert(t(pm, qm) == min_int(min_int(a(pmm, qm) + 1, b(pm, qmm) + 1), cc(pmm, qmm) + c0));
        assert(a(pm, q) == min_int(min_int(a(pmm, q) + 1, a(pm, qm) + 1), a(pmm, qm) + c));
        assert(b(p, qm) == min_int(min_int(b(pm, qm) + 1, b(p, qmm) + 1), b(pm, qmm) + c));
        assert(cc(pm, qm) == min_int(min_int(cc(pmm, qm) + 1, cc(pm, qmm) + 1), cc(pmm, qmm) + c));
    }
}

/// The prefix distance of the last `p` and `q` elements of two sequences,
/// both reversed, is that of the suffixes themselves.
proof fn lemma_prefix_distance_reversed(a: Seq<i32>, b: Seq<i32>, p: nat, q: nat)
    requires
        p <= a.len(),
        q <= b.len(),
    ensures
        prefix_distance(a.reverse(), b.reverse(), p, q) == prefix_distance(
            a.skip(a.len() - p),
            b.skip(b.len() - q),
            p,
            q,
        ),
    decreases p + q,
{
    if p >= 1 && q >= 1 {
        let x = a.skip(a.len() - p);
        let y = b.skip(b.len() - q);
        lemma_prefix_distance_reversed(a, b, (p - 1) as nat, q);
        lemma_prefix_distance_reversed(a, b, p, (q - 1) as nat);
        lemma_prefix_distance_reversed(a, b, (p - 1) as nat, (q - 1) as nat);
        assert(a.skip(a.len() - (p - 1)) =~= x.skip(1));
        assert(b.skip(b.len() - (q - 1)) =~= y.skip(1));
        assert(a.reverse()[p - 1] == x[0]);
        assert(b.reverse()[q - 1] == y[0]);
        lemma_prefix_distance_front(x, y, p, q);
    }
}

/// The edit distance does not change when both sequences are reversed.
pub proof fn lemma_edit_distance_reversed(a: Seq<i32>, b: Seq<i32>)
    ensures
        edit_distance(a.reverse(), b.reverse()) == edit_distance(a, b),
{
    lemma_prefix_distance_reversed(a, b, a.len(), b.len());
    assert(a.skip(0) =~= a);
    assert(b.skip(0) =~= b);
}

/// A sequence is at distance zero from itself.
pub proof fn lemma_edit_distance_self(a: Seq<i32>)
    ensures
        edit_distance(a, a) == 0,
{
    lemma_prefix_distance_diagonal_zero(a, a.len());
}

proof fn lemma_prefix_distance_diagonal_zero(a: Seq<i32>, i: nat)
    ensures
        prefix_distance(a, a, i, i) == 0,
    decreases i,
{
    if i > 0 {
        lemma_prefix_distance_diagonal_zero(a, (i - 1) as nat);
        lemma_prefix_distance_steps(a, a, (i - 1) as nat, (i - 1) as nat);
    }
}

/// A fully materialized string-edit-distance matrix: `get(i, j)` is the edit
/// distance between the length-`i` prefix of the first sequence and the
/// length-`j` prefix of the second.
#[derive(Debug, Clone)]
pub struct FullMatrix {
    /// Length of the first sequence plus one.
    pub rows: usize,
    /// Length of the second sequence plus one.
    pub cols: usize,
    /// The cells, row by row.
    pub data: Vec<Vec<usize>>,
}

impl FullMatrix {
    /// Number of rows (first prefix lengths `0..=len`).
    pub open spec fn n_rows(&self) -> int {
        self.rows as int
    }

    /// Number of columns (second prefix lengths `0..=len`).
    pub open spec fn n_cols(&self) -> int {
        self.cols as int
    }

    /// The stored value of cell `(i, j)`.
    pub open spec fn cell(&self, i: int, j: int) -> int {
        self.data@[i]@[j] as int
    }

    /// Every one of the `rows` rows holds `cols` cells.
    pub open spec fn wf(&self) -> bool {
        &&& self.data@.len() == self.rows
        &&& forall|i: int| 0 <= i < self.rows ==> #[trigger] self.data@[i]@.len() == self.cols
    }

    /// The dimensions of a matrix fit in `usize`.
    pub proof fn lemma_dims_fit(&self)
        ensures
            0 <= self.n_rows() <= usize::MAX,
            0 <= self.n_cols() <= usize::MAX,
    {
    }

    /// Reads cell `(i, j)`.
    pub fn get(&self, i: usize, j: usize) -> (r: usize)
        requires
            self.wf(),
            i < self.n_rows(),
            j < self.n_cols(),
        ensures
            r == self.cell(i as int, j as int),
    {
        self.data[i][j]
    }
}

/// Computes the full string-edit-distance matrix between `s1` and `s2`.
pub fn full_string_edit_distance(s1: &[i32], s2: &[i32]) -> (m: FullMatrix)
    requires
        s1@.len() < usize::MAX,
        s2@.len() < usize::MAX,
    ensures
        m.wf(),
        m.n_rows() == s1@.len() + 1,
        m.n_cols() == s2@.len() + 1,
        forall|i: int, j: int|
            0 <= i <= s1@.len() && 0 <= j <= s2@.len() ==> #[trigger] m.cell(i, j)
                == prefix_distance(s1@, s2@, i as nat, j as nat),
{
    let rows = s1.len() + 1;
    let cols = s2.len() + 1;
    let mut data: Vec<Vec<usize>> = Vec::new();
    let mut first: Vec<usize> = Vec::new();
    let mut j: usize = 0;
    while j < cols
        invariant
            j <= cols,
            cols == s2@.len() + 1,
            first@.len() == j,
            forall|jj: int| 0 <= jj < j ==> #[trigger] first@[jj] == prefix_distance(
                s1@,
                s2@,
                0,
                jj as nat,
            ),
        decreases cols - j,
    {
        first.push(j);
        j = j + 1;
    }
    data.push(first);
    let mut i: usize = 1;
    while i < rows
        invariant
            1 <= i <= rows,
            rows == s1@.len() + 1,
            cols == s2@.len() + 1,
            data@.len() == i,
            forall|ii: int| 0 <= ii < i ==> #[trigger] data@[ii]@.len() == cols,
            forall|ii: int, jj: int|
                0 <= ii < i && 0 <= jj < cols ==> #[trigger] data@[ii]@[jj] == prefix_distance(
                    s1@,
                    s2@,
                    ii as nat,
                    jj as nat,
                ),
        decreases rows - i,
    {
        let mut row: Vec<usize> = Vec::new();
        row.push(i);
        let mut j: usize = 1;
        while j < cols
            invariant
                1 <= i < rows,
                1 <= j <= cols,
                rows == s1@.len() + 1,
                cols == s2@.len() + 1,
                data@.len() == i,
                forall|ii: int| 0 <= ii < i ==> #[trigger] data@[ii]@.len() == cols,
                forall|ii: int, jj: int|
                    0 <= ii < i && 0 <= jj < cols ==> #[trigger] data@[ii]@[jj]
                        == prefix_distance(s1@, s2@, ii as nat, jj as nat),
                row@.len() == j,
                forall|jj: int| 0 <= jj < j ==> #[trigger] row@[jj] == prefix_distance(
                    s1@,
                    s2@,
                    i as nat,
                    jj as nat,
                ),
            decreases cols - j,
        {
            proof {
                lemma_prefix_distance_bound(s1@, s2@, (i - 1) as nat, j as nat);
                lemma_prefix_distance_bound(s1@, s2@, i as nat, (j - 1) as nat);
                lemma_prefix_distance_bound(s1@, s2@, (i - 1) as nat, (j - 1) as nat);
            }
            let cost: usize = if s1[i - 1] != s2[j - 1] { 1 } else { 0 };
            let del = data[i - 1][j] + 1;
            let ins = row[j - 1] + 1;
            let sub = data[i - 1][j - 1] + cost;
            let best = if del < ins { del } else { ins };
            let best = if best < sub { best } else { sub };
            row.push(best);
            j = j + 1;
        }
        data.push(row);
        i = i + 1;
    }
    FullMatrix { rows, cols, data }
}

/// Computes the edit distance between `s1` and `s2`, keeping one rolling row.
pub fn exact_string_edit_distance(s1: &[i32], s2: &[i32]) -> (r: usize)
    requires
        s1@.len() < usize::MAX,
        s2@.len() < usize::MAX,
    ensures
        r == edit_distance(s1@, s2@),
{
    let s2len = s2.len();
    let mut cache: Vec<usize> = Vec::new();
    let mut j: usize = 0;
    while j < s2len
        invariant
            j <= s2len,
            s2len == s2@.len(),
            s2@.len() < usize::MAX,
            cache@.len() == j,
            forall|jj: int| 0 <= jj < j ==> #[trigger] cache@[jj] == prefix_distance(
                s1@,
                s2@,
                0,
                (jj + 1) as nat,
            ),
        decreases s2len - j,
    {
        cache.push(j + 1);
        j = j + 1;
    }
    let mut result = s2len;
    let mut i: usize = 0;
    while i < s1.len()
        invariant
            i <= s1@.len(),
            s1@.len() < usize::MAX,
            s2@.len() < usize::MAX,
            s2len == s2@.len(),
            cache@.len() == s2len,
            result == prefix_distance(s1@, s2@, i as nat, s2len as nat),
            forall|jj: int| 0 <= jj < s2len ==> #[trigger] cache@[jj] == prefix_distance(
                s1@,
                s2@,
                i as nat,
                (jj + 1) as nat,
            ),
        decreases s1@.len() - i,
    {
        let ca = s1[i];
        let mut dist_b: usize = i;
        result = i + 1;
        let mut j: usize = 0;
        while j < s2len
            invariant
                i < s1@.len(),
                s1@.len() < usize::MAX,
                s2@.len() < usize::MAX,
                ca == s1@[i as int],
                j <= s2len,
                s2len == s2@.len(),
                cache@.len() == s2len,
                dist_b == prefix_distance(s1@, s2@, i as nat, j as nat),
                result == prefix_distance(s1@, s2@, (i + 1) as nat, j as nat),
                forall|jj: int| 0 <= jj < j ==> #[trigger] cache@[jj] == prefix_distance(
                    s1@,
                    s2@,
                    (i + 1) as nat,
                    (jj + 1) as nat,
                ),
                forall|jj: int| j <= jj < s2len ==> #[trigger] cache@[jj] == prefix_distance(
                    s1@,
                    s2@,
                    i as nat,
                    (jj + 1) as nat,
                ),
            decreases s2len - j,
        {
            proof {
                lemma_prefix_distance_bound(s1@, s2@, i as nat, j as nat);
                lemma_prefix_distance_bound(s1@, s2@, (i + 1) as nat, j as nat);
                lemma_prefix_distance_bound(s1@, s2@, i as nat, (j + 1) as nat);
            }
            let cb = s2[j];
            let dist_a = dist_b + if ca != cb { 1usize } else { 0usize };
            dist_b = cache[j];
            let a = result + 1;
            let b = dist_b + 1;
            let m = if dist_a < b { dist_a } else { b };
            result = if a < m { a } else { m };
            cache.set(j, result);
            j = j + 1;
        }
        i = i + 1;
    }
    result
}

} // verus!
