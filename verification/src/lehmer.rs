//! The place of a repetition-free tuple among all of them: its digits in
//! the factorial number system, and the proof that the next tuple in
//! lexicographic order stands one place further.
use vstd::prelude::*;
use crate::lex::{agree_below, ascending, in_range, lex_lt_at};
use crate::permutation::{falling, is_next_permutation, is_permutation, no_repeat, top};

verus! {

/// How many of the positions below `i` hold a value below `x`.
pub open spec fn count_below(t: Seq<usize>, i: int, x: int) -> int
    decreases i,
{
    if i <= 0 {
        0
    } else {
        count_below(t, i - 1, x) + if t[i - 1] < x {
            1int
        } else {
            0int
        }
    }
}

/// The value `v` stands at some position below `i`.
pub open spec fn occurs(t: Seq<usize>, i: int, v: int) -> bool {
    exists|m: int| 0 <= m < i && t[m] == v
}

/// How many values below the one at position `i` stand at no position
/// left of it: the choices that were passed over at position `i`.
pub open spec fn digit(t: Seq<usize>, i: int) -> int {
    t[i] - count_below(t, i, t[i] as int)
}

/// In how many ways the positions right of `i` can be filled with distinct
/// values once the positions up to `i` are: `(n - i - 1) .. (n - dim + 1)`.
pub open spec fn ways(n: nat, dim: nat, i: int) -> int
    decreases dim - i,
{
    if i + 1 >= dim {
        1
    } else {
        (n - (i + 1)) * ways(n, dim, i + 1)
    }
}

/// The part of the rank that the positions from `i` on contribute.
pub open spec fn rank_from(t: Seq<usize>, n: nat, i: int) -> int
    decreases t.len() - i,
{
    if i < 0 || i >= t.len() {
        0
    } else {
        digit(t, i) * ways(n, t.len(), i) + rank_from(t, n, i + 1)
    }
}

/// The place of `t` in the enumeration, counted from zero.
pub open spec fn rank(t: Seq<usize>, n: nat) -> int {
    rank_from(t, n, 0)
}

proof fn lemma_count_none(t: Seq<usize>, i: int)
    ensures
        count_below(t, i, 0) == 0,
    decreases i,
{
    if i > 0 {
        lemma_count_none(t, i - 1);
    }
}

proof fn lemma_count_all(t: Seq<usize>, i: int, n: nat)
    requires
        in_range(t, t.len(), n),
        0 <= i <= t.len(),
    ensures
        count_below(t, i, n as int) == i,
    decreases i,
{
    if i > 0 {
        lemma_count_all(t, i - 1, n);
        assert(t[i - 1] < n);
    }
}

proof fn lemma_count_agree(t: Seq<usize>, s: Seq<usize>, i: int, x: int)
    requires
        0 <= i <= t.len(),
        i <= s.len(),
        agree_below(t, s, i),
    ensures
        count_below(t, i, x) == count_below(s, i, x),
    decreases i,
{
    if i > 0 {
        lemma_count_agree(t, s, i - 1, x);
        assert(t[i - 1] == s[i - 1]);
    }
}

proof fn lemma_count_absent(t: Seq<usize>, i: int, v: int)
    requires
        0 <= i <= t.len(),
        !occurs(t, i, v),
    ensures
        count_below(t, i, v + 1) == count_below(t, i, v),
    decreases i,
{
    if i > 0 {
        if occurs(t, i - 1, v) {
            let m = choose|m: int| 0 <= m < i - 1 && t[m] == v;
            assert(0 <= m < i && t[m] == v);
        }
        if t[i - 1] == v {
            assert(0 <= i - 1 < i && t[i - 1] == v);
        }
        lemma_count_absent(t, i - 1, v);
    }
}

proof fn lemma_count_present(t: Seq<usize>, i: int, v: int)
    requires
        no_repeat(t),
        0 <= i <= t.len(),
        occurs(t, i, v),
    ensures
        count_below(t, i, v + 1) == count_below(t, i, v) + 1,
    decreases i,
{
    let m = choose|m: int| 0 <= m < i && t[m] == v;
    if m == i - 1 {
        if occurs(t, i - 1, v) {
            let other = choose|other: int| 0 <= other < i - 1 && t[other] == v;
            assert(t[other] != t[m]);
        }
        lemma_count_absent(t, i - 1, v);
    } else {
        assert(0 <= m < i - 1 && t[m] == v);
        assert(t[m] != t[i - 1]);
        lemma_count_present(t, i - 1, v);
    }
}

proof fn lemma_count_range(t: Seq<usize>, i: int, lo: int, hi: int)
    requires
        no_repeat(t),
        0 <= i <= t.len(),
        lo <= hi,
        forall|v: int| lo <= v < hi ==> #[trigger] occurs(t, i, v),
    ensures
        count_below(t, i, hi) == count_below(t, i, lo) + hi - lo,
    decreases hi - lo,
{
    if lo < hi {
        lemma_count_range(t, i, lo, hi - 1);
        assert(occurs(t, i, hi - 1));
        lemma_count_present(t, i, hi - 1);
    }
}

proof fn lemma_rank_prefix(t: Seq<usize>, s: Seq<usize>, n: nat, i: int, k: int)
    requires
        t.len() == s.len(),
        0 <= i <= k <= t.len(),
        agree_below(t, s, k),
    ensures
        rank_from(t, n, i) - rank_from(t, n, k) == rank_from(s, n, i) - rank_from(s, n, k),
    decreases k - i,
{
    if i < k {
        lemma_rank_prefix(t, s, n, i + 1, k);
        assert(t[i] == s[i]);
        assert(agree_below(t, s, i));
        lemma_count_agree(t, s, i, t[i] as int);
    }
}

proof fn lemma_rank_greatest_tail(t: Seq<usize>, n: nat, i: int)
    requires
        0 <= i <= t.len(),
        forall|j: int| i <= j < t.len() ==> #[trigger] digit(t, j) == n - 1 - j,
    ensures
        rank_from(t, n, i) == ways(n, t.len(), i - 1) - 1,
    decreases t.len() - i,
{
    if i < t.len() {
        lemma_rank_greatest_tail(t, n, i + 1);
        let w = ways(n, t.len(), i);
        assert(digit(t, i) == n - 1 - i);
        assert(ways(n, t.len(), i - 1) == (n - i) * w);
        assert((n - 1 - i) * w + w == (n - i) * w) by (nonlinear_arith);
    }
}

proof fn lemma_rank_least_tail(t: Seq<usize>, n: nat, i: int)
    requires
        0 <= i <= t.len(),
        forall|j: int| i <= j < t.len() ==> #[trigger] digit(t, j) == 0,
    ensures
        rank_from(t, n, i) == 0,
    decreases t.len() - i,
{
    if i < t.len() {
        lemma_rank_least_tail(t, n, i + 1);
        let w = ways(n, t.len(), i);
        assert(digit(t, i) == 0);
        assert(0 * w == 0) by (nonlinear_arith);
    }
}

proof fn lemma_ways_longer(n: nat, dim: nat, i: int)
    requires
        -1 <= i,
        i + 1 < dim,
    ensures
        ways(n, dim, i) == ways(n, (dim - 1) as nat, i) * (n - (dim - 1)),
    decreases dim - i,
{
    if i + 1 < dim - 1 {
        lemma_ways_longer(n, dim, i + 1);
        let a = n - (i + 1);
        let b = ways(n, (dim - 1) as nat, i + 1);
        let c = n - (dim - 1);
        assert(a * (b * c) == (a * b) * c) by (nonlinear_arith);
    } else {
        assert(ways(n, dim, i + 1) == 1);
        assert(ways(n, (dim - 1) as nat, i) == 1);
        let c = n - (dim - 1);
        assert(c * 1 == 1 * c) by (nonlinear_arith);
    }
}

/// All positions together can be filled in `n (n - 1) .. (n - dim + 1)` ways.
pub proof fn lemma_ways_total(n: nat, dim: nat)
    requires
        dim <= n,
    ensures
        ways(n, dim, -1) == falling(n, dim),
    decreases dim,
{
    if dim > 0 {
        lemma_ways_total(n, (dim - 1) as nat);
        lemma_ways_longer(n, dim, -1);
    }
}

/// A tuple like `w` that holds `v` at position `j`, where `v` stands at no
/// position left of `j`: `v` takes the place of the value at `j`, and where
/// `v` stood right of `j`, the two change places.
proof fn variant(w: Seq<usize>, j: int, v: usize, n: nat) -> (u: Seq<usize>)
    requires
        is_permutation(w, w.len(), n),
        0 <= j < w.len(),
        v < n,
        !occurs(w, j, v as int),
    ensures
        is_permutation(u, w.len(), n),
        agree_below(w, u, j),
        u[j] == v,
{
    if exists|m: int| j <= m < w.len() && w[m] == v {
        let m = choose|m: int| j <= m < w.len() && w[m] == v;
        let u = w.update(j, v).update(m, w[j]);
        assert forall|a: int, b: int| 0 <= a < b < u.len() implies u[a] != u[b] by {
            assert(w[a] != w[b]);
            assert(j != m ==> w[j] != w[m]);
            if a != j && a != m {
                assert(a < j ==> w[a] != w[j]);
                assert(a > j ==> w[j] != w[a]);
                assert(a < m ==> w[a] != w[m]);
                assert(a > m ==> w[m] != w[a]);
            }
            if b != j && b != m {
                assert(b < j ==> w[b] != w[j]);
                assert(b > j ==> w[j] != w[b]);
                assert(b < m ==> w[b] != w[m]);
                assert(b > m ==> w[m] != w[b]);
            }
        }
        assert forall|a: int| 0 <= a < u.len() implies u[a] < n by {
            assert(w[a] < n);
            assert(w[j] < n);
        }
        u
    } else {
        let u = w.update(j, v);
        assert forall|a: int, b: int| 0 <= a < b < u.len() implies u[a] != u[b] by {
            assert(w[a] != w[b]);
            if a == j {
                assert(!(j <= b < w.len() && w[b] == v));
            }
            if b == j {
                assert(!(0 <= a < j && w[a] == v));
            }
        }
        assert forall|a: int| 0 <= a < u.len() implies u[a] < n by {
            assert(w[a] < n);
        }
        u
    }
}

/// The first tuple stands at place zero.
pub proof fn lemma_first_rank(dim: nat, n: nat)
    requires
        dim <= n <= usize::MAX,
    ensures
        rank(ascending(dim, 0), n) == 0,
{
    let t = ascending(dim, 0);
    assert forall|j: int| 0 <= j < t.len() implies #[trigger] digit(t, j) == 0 by {
        lemma_count_none(t, j);
        assert forall|v: int| 0 <= v < j implies #[trigger] occurs(t, j, v) by {
            assert(0 <= v < j && t[v] == v);
        }
        lemma_count_range(t, j, 0, j);
    }
    lemma_rank_least_tail(t, n, 0);
}

/// The greatest tuple stands at place `n (n - 1) .. (n - dim + 1) - 1`.
pub proof fn lemma_last_rank(dim: nat, n: nat)
    requires
        dim <= n <= usize::MAX,
    ensures
        rank(top(dim, n), n) == falling(n, dim) - 1,
{
    let t = top(dim, n);
    assert forall|j: int| 0 <= j < t.len() implies #[trigger] digit(t, j) == n - 1 - j by {
        assert forall|v: int| t[j] < v < n implies #[trigger] occurs(t, j, v) by {
            let m = n - 1 - v;
            assert(0 <= m < j && t[m] == v);
        }
        lemma_greatest_digit(t, j, n);
    }
    lemma_rank_greatest_tail(t, n, 0);
    lemma_ways_total(n, dim);
}

/// Where every value above the one at `j` stands left of `j`, the digit at
/// `j` is as large as a digit there can be.
proof fn lemma_greatest_digit(t: Seq<usize>, j: int, n: nat)
    requires
        is_permutation(t, t.len(), n),
        0 <= j < t.len(),
        forall|v: int| t[j] < v < n ==> #[trigger] occurs(t, j, v),
    ensures
        digit(t, j) == n - 1 - j,
{
    lemma_count_all(t, j, n);
    assert(t[j] < n);
    lemma_count_range(t, j, t[j] + 1, n as int);
    if occurs(t, j, t[j] as int) {
        let m = choose|m: int| 0 <= m < j && t[m] == t[j];
        assert(t[m] != t[j]);
    }
    lemma_count_absent(t, j, t[j] as int);
}

proof fn lemma_count_within(t: Seq<usize>, i: int, lo: int, hi: int)
    requires
        no_repeat(t),
        0 <= i <= t.len(),
        lo <= hi,
    ensures
        0 <= count_below(t, i, hi) - count_below(t, i, lo) <= hi - lo,
    decreases hi - lo,
{
    if lo < hi {
        lemma_count_within(t, i, lo, hi - 1);
        if occurs(t, i, hi - 1) {
            lemma_count_present(t, i, hi - 1);
        } else {
            lemma_count_absent(t, i, hi - 1);
        }
    }
}

proof fn lemma_digit_bound(t: Seq<usize>, j: int, n: nat)
    requires
        is_permutation(t, t.len(), n),
        0 <= j < t.len(),
    ensures
        0 <= digit(t, j) <= n - 1 - j,
{
    lemma_count_all(t, j, n);
    assert(t[j] < n);
    lemma_count_within(t, j, t[j] + 1, n as int);
    lemma_count_within(t, j, 0, t[j] as int);
    lemma_count_none(t, j);
    if occurs(t, j, t[j] as int) {
        let m = choose|m: int| 0 <= m < j && t[m] == t[j];
        assert(t[m] != t[j]);
    }
    lemma_count_absent(t, j, t[j] as int);
}

proof fn lemma_ways_positive(n: nat, dim: nat, i: int)
    requires
        dim <= n,
        -1 <= i,
    ensures
        ways(n, dim, i) >= 1,
    decreases dim - i,
{
    if i + 1 < dim {
        lemma_ways_positive(n, dim, i + 1);
        let f = n - (i + 1);
        let w = ways(n, dim, i + 1);
        assert(f * w >= 1) by (nonlinear_arith)
            requires
                f >= 1,
                w >= 1,
        ;
    }
}

proof fn lemma_rank_from_bound(t: Seq<usize>, n: nat, i: int)
    requires
        is_permutation(t, t.len(), n),
        t.len() <= n,
        0 <= i <= t.len(),
    ensures
        0 <= rank_from(t, n, i) <= ways(n, t.len(), i - 1) - 1,
    decreases t.len() - i,
{
    if i < t.len() {
        lemma_rank_from_bound(t, n, i + 1);
        lemma_digit_bound(t, i, n);
        lemma_ways_positive(n, t.len(), i);
        let w = ways(n, t.len(), i);
        let d = digit(t, i);
        let m = n - 1 - i;
        assert(ways(n, t.len(), i - 1) == (n - i) * w);
        assert(0 <= d * w <= m * w) by (nonlinear_arith)
            requires
                0 <= d <= m,
                w >= 1,
        ;
        assert(m * w + w == (n - i) * w) by (nonlinear_arith)
            requires
                m == n - 1 - i,
        ;
    }
}

/// Every place lies below the number of all tuples.
pub proof fn lemma_rank_bound(t: Seq<usize>, n: nat)
    requires
        is_permutation(t, t.len(), n),
        t.len() <= n,
    ensures
        0 <= rank(t, n) <= falling(n, t.len()) - 1,
{
    lemma_rank_from_bound(t, n, 0);
    lemma_ways_total(n, t.len());
}

/// The step to the next repetition-free tuple in lexicographic order leads
/// from each place to the next. With the first tuple at place zero and the
/// greatest at place `n (n - 1) .. (n - dim + 1) - 1`, exactly that many
/// tuples are emitted.
pub proof fn lemma_step_rank(t: Seq<usize>, s: Seq<usize>, n: nat)
    requires
        n <= usize::MAX,
        is_permutation(t, t.len(), n),
        is_next_permutation(t, s, n),
    ensures
        rank(s, n) == rank(t, n) + 1,
{
    let dim = t.len() as int;
    let k = choose|k: int| lex_lt_at(t, s, k);
    assert(t[k] < s[k]);
    lemma_rank_prefix(t, s, n, 0, k);
    // Right of `k`, `t` holds the greatest values that are left.
    assert forall|j: int| k + 1 <= j < dim implies #[trigger] digit(t, j) == n - 1 - j by {
        assert forall|v: int| t[j] < v < n implies #[trigger] occurs(t, j, v) by {
            if !occurs(t, j, v) {
                let u = variant(t, j, v as usize, n);
                assert(lex_lt_at(t, u, j));
                assert(u[k] == t[k]);
                assert forall|i: int| 0 <= i < k implies u[i] == s[i] by {
                    assert(u[i] == t[i]);
                    assert(t[i] == s[i]);
                }
                assert(lex_lt_at(u, s, k));
                assert(is_permutation(u, t.len(), n));
            }
        }
        lemma_greatest_digit(t, j, n);
    }
    lemma_rank_greatest_tail(t, n, k + 1);
    // Right of `k`, `s` holds the least values that are left.
    assert forall|j: int| k + 1 <= j < dim implies #[trigger] digit(s, j) == 0 by {
        assert forall|v: int| 0 <= v < s[j] implies #[trigger] occurs(s, j, v) by {
            if !occurs(s, j, v) {
                assert(s[j] < n);
                let u = variant(s, j, v as usize, n);
                assert(lex_lt_at(u, s, j));
                assert(u[k] == s[k]);
                assert forall|i: int| 0 <= i < k implies t[i] == u[i] by {
                    assert(u[i] == s[i]);
                    assert(t[i] == s[i]);
                }
                assert(lex_lt_at(t, u, k));
                assert(is_permutation(u, t.len(), n));
            }
        }
        lemma_count_none(s, j);
        lemma_count_range(s, j, 0, s[j] as int);
    }
    lemma_rank_least_tail(s, n, k + 1);
    // At `k`, `s` holds the least value above `t[k]` that is left.
    assert forall|v: int| t[k] < v < s[k] implies #[trigger] occurs(t, k, v) by {
        if !occurs(t, k, v) {
            assert(s[k] < n);
            if occurs(s, k, v) {
                let m = choose|m: int| 0 <= m < k && s[m] == v;
                assert(t[m] == s[m]);
                assert(0 <= m < k && t[m] == v);
            }
            let u = variant(s, k, v as usize, n);
            assert forall|i: int| 0 <= i < k implies t[i] == u[i] by {
                assert(u[i] == s[i]);
                assert(t[i] == s[i]);
            }
            assert(lex_lt_at(t, u, k));
            assert(lex_lt_at(u, s, k));
            assert(is_permutation(u, t.len(), n));
        }
    }
    lemma_count_range(t, k, t[k] + 1, s[k] as int);
    if occurs(t, k, t[k] as int) {
        let m = choose|m: int| 0 <= m < k && t[m] == t[k];
        assert(t[m] != t[k]);
    }
    lemma_count_absent(t, k, t[k] as int);
    lemma_count_agree(t, s, k, s[k] as int);
    assert(digit(s, k) == digit(t, k) + 1);
    let w = ways(n, t.len(), k);
    let d = digit(t, k);
    assert((d + 1) * w == d * w + w) by (nonlinear_arith);
}

} // verus!
