//! The odometer: a tuple read as a numeral in base `n`, most significant
//! position first, and the step that adds one to it.
use vstd::prelude::*;
use crate::lex::{agree_below, constant, in_range, lemma_lex_total, lex_lt, lex_lt_at};

verus! {

/// `base` to the power `exp`.
pub open spec fn pow(base: nat, exp: nat) -> nat
    decreases exp,
{
    if exp == 0 {
        1
    } else {
        base * pow(base, (exp - 1) as nat)
    }
}

/// The number that `t` spells in base `n`, most significant position first.
pub open spec fn value(t: Seq<usize>, n: nat) -> nat
    decreases t.len(),
{
    if t.len() == 0 {
        0
    } else {
        value(t.drop_last(), n) * n + t.last() as nat
    }
}

/// The numeral of `idx` in base `n` with `dim` positions, most significant
/// first. Where `idx` needs more positions, the leading ones are cut off.
pub open spec fn digits(idx: nat, dim: nat, n: nat) -> Seq<usize>
    decreases dim,
{
    if dim == 0 || n == 0 {
        Seq::empty()
    } else {
        digits(idx / n, (dim - 1) as nat, n).push((idx % n) as usize)
    }
}

/// No power of a positive base is zero.
pub proof fn lemma_pow_positive(base: nat, exp: nat)
    requires
        base > 0,
    ensures
        pow(base, exp) > 0,
    decreases exp,
{
    if exp > 0 {
        lemma_pow_positive(base, (exp - 1) as nat);
        let rest = pow(base, (exp - 1) as nat);
        assert(base * rest > 0) by (nonlinear_arith)
            requires
                base > 0,
                rest > 0,
        ;
    }
}

/// The value at position `i` of the numeral is the quotient of `idx` by
/// the power of `n` that belongs to the position, taken modulo `n`.
pub proof fn lemma_digit_by_division(idx: nat, dim: nat, n: nat, i: int)
    requires
        0 < n <= usize::MAX,
        0 <= i < dim,
    ensures
        digits(idx, dim, n).len() == dim,
        digits(idx, dim, n)[i] == (idx / pow(n, (dim - 1 - i) as nat)) % n,
    decreases dim,
{
    let rest = digits(idx / n, (dim - 1) as nat, n);
    lemma_digits_len(idx / n, (dim - 1) as nat, n);
    assert(idx % n < n) by (nonlinear_arith)
        requires
            n > 0,
    ;
    if i == dim - 1 {
        assert(pow(n, 0) == 1);
        assert(idx / 1 == idx) by (nonlinear_arith);
    } else {
        lemma_digit_by_division(idx / n, (dim - 1) as nat, n, i);
        let q = pow(n, (dim - 2 - i) as nat);
        lemma_pow_positive(n, (dim - 2 - i) as nat);
        assert(pow(n, (dim - 1 - i) as nat) == n * q);
        vstd::arithmetic::div_mod::lemma_div_denominator(idx as int, n as int, q as int);
    }
}

/// The numeral has `dim` positions.
pub proof fn lemma_digits_len(idx: nat, dim: nat, n: nat)
    requires
        n > 0,
    ensures
        digits(idx, dim, n).len() == dim,
    decreases dim,
{
    if dim > 0 {
        lemma_digits_len(idx / n, (dim - 1) as nat, n);
    }
}

/// A tuple that comes first in lexicographic order spells the smaller
/// number.
pub proof fn lemma_lex_value(a: Seq<usize>, b: Seq<usize>, n: nat)
    requires
        in_range(a, a.len(), n),
        in_range(b, a.len(), n),
        lex_lt(a, b),
    ensures
        value(a, n) < value(b, n),
    decreases a.len(),
{
    let k = choose|k: int| lex_lt_at(a, b, k);
    let a0 = a.drop_last();
    let b0 = b.drop_last();
    assert(a[k] < b[k]);
    if k == a.len() - 1 {
        assert(a0 =~= b0);
    } else {
        assert(lex_lt_at(a0, b0, k));
        lemma_lex_value(a0, b0, n);
        let va = value(a0, n);
        let vb = value(b0, n);
        assert(va * n + n <= vb * n) by (nonlinear_arith)
            requires
                va + 1 <= vb,
        ;
        assert(a.last() < n);
    }
}

/// `s` is `t` with one added at position `p`, where every position right of
/// `p` stood at `n - 1` and is back at zero.
pub open spec fn is_bump_at(t: Seq<usize>, s: Seq<usize>, p: int, n: nat) -> bool {
    &&& s.len() == t.len()
    &&& 0 <= p < t.len()
    &&& agree_below(t, s, p)
    &&& s[p] == t[p] + 1
    &&& forall|j: int| p < j < t.len() ==> t[j] + 1 == n
    &&& forall|j: int| p < j < t.len() ==> s[j] == 0
}

/// `s` is what one odometer step makes of `t`: one is added at the last
/// position and carries run to the left. A carry out of the leading
/// position is not taken: that position then holds `n`.
pub open spec fn is_rolled(t: Seq<usize>, s: Seq<usize>, n: nat) -> bool {
    exists|p: int| #[trigger] is_bump_at(t, s, p, n) && (p == 0 || s[p] < n)
}

/// `s` is the tuple right after `t` among the tuples with values below `n`.
pub open spec fn is_next_in_range(t: Seq<usize>, s: Seq<usize>, n: nat) -> bool {
    &&& in_range(s, t.len(), n)
    &&& lex_lt(t, s)
    &&& forall|u: Seq<usize>| #[trigger]
        in_range(u, t.len(), n) ==> !(lex_lt(t, u) && lex_lt(u, s))
}

/// Every position of `t` holds `n - 1`: the greatest tuple with values below `n`.
pub open spec fn is_top(t: Seq<usize>, n: nat) -> bool {
    forall|i: int| 0 <= i < t.len() ==> t[i] + 1 == n
}

/// A step that stays below `n` at every position yields the next tuple in
/// lexicographic order.
pub proof fn lemma_rolled_is_next(t: Seq<usize>, s: Seq<usize>, n: nat)
    requires
        in_range(t, t.len(), n),
        is_rolled(t, s, n),
        s.len() > 0,
        s[0] < n,
    ensures
        is_next_in_range(t, s, n),
{
    let p = choose|p: int| #[trigger] is_bump_at(t, s, p, n) && (p == 0 || s[p] < n);
    assert(in_range(s, t.len(), n)) by {
        assert forall|i: int| 0 <= i < s.len() implies s[i] < n by {
            if i < p {
                assert(s[i] == t[i]);
            }
        }
    }
    assert(lex_lt_at(t, s, p));
    assert forall|u: Seq<usize>| #[trigger]
        in_range(u, t.len(), n) implies !(lex_lt(t, u) && lex_lt(u, s)) by {
        if lex_lt(t, u) && lex_lt(u, s) {
            let k = choose|k: int| lex_lt_at(t, u, k);
            let j = choose|j: int| lex_lt_at(u, s, j);
            assert(t[k] < u[k]);
            assert(u[j] < s[j]);
            assert(u[k] < n);
            if j < k {
                assert(t[j] == u[j]);
            }
            if k < j {
                assert(u[k] == s[k]);
            }
            if k < p {
                assert(t[k] == s[k]);
            }
            if j < p {
                assert(t[j] == s[j]);
            }
            if k > p {
                assert(t[k] + 1 == n);
            }
            if j > p {
                assert(s[j] == 0);
            }
        }
    }
}

/// Adding one at `p` and clearing what stood right of it adds one to the
/// number that the tuple spells.
pub proof fn lemma_bump_value(t: Seq<usize>, s: Seq<usize>, p: int, n: nat)
    requires
        is_bump_at(t, s, p, n),
    ensures
        value(s, n) == value(t, n) + 1,
    decreases t.len(),
{
    let t0 = t.drop_last();
    let s0 = s.drop_last();
    if p == t.len() - 1 {
        assert(t0 =~= s0);
    } else {
        assert(is_bump_at(t0, s0, p, n));
        lemma_bump_value(t0, s0, p, n);
        let v = value(t0, n);
        assert((v + 1) * n == v * n + n) by (nonlinear_arith);
        assert(t.last() + 1 == n);
        assert(s.last() == 0);
    }
}

/// The all-zero tuple spells zero.
pub proof fn lemma_zero_value(dim: nat, n: nat)
    ensures
        value(constant(dim, 0), n) == 0,
    decreases dim,
{
    if dim > 0 {
        lemma_zero_value((dim - 1) as nat, n);
        assert(constant(dim, 0).drop_last() =~= constant((dim - 1) as nat, 0));
        assert(0 * n == 0) by (nonlinear_arith);
    }
}

/// The greatest tuple spells `n^dim - 1`.
pub proof fn lemma_top_value(t: Seq<usize>, n: nat)
    requires
        is_top(t, n),
    ensures
        value(t, n) + 1 == pow(n, t.len()),
    decreases t.len(),
{
    if t.len() > 0 {
        let t0 = t.drop_last();
        lemma_top_value(t0, n);
        let v = value(t0, n);
        assert((v + 1) * n == v * n + n) by (nonlinear_arith);
        assert(t.last() + 1 == n);
        assert(pow(n, t.len()) == n * pow(n, t0.len()));
        assert((v + 1) * n == n * (v + 1)) by (nonlinear_arith);
    }
}

/// A tuple with values below `n` spells a number below `n^dim`.
pub proof fn lemma_value_bound(t: Seq<usize>, n: nat)
    requires
        in_range(t, t.len(), n),
    ensures
        value(t, n) < pow(n, t.len()),
    decreases t.len(),
{
    if t.len() > 0 {
        let t0 = t.drop_last();
        lemma_value_bound(t0, n);
        let v = value(t0, n);
        let q = pow(n, t0.len());
        assert(t.last() < n);
        assert(v * n + n <= n * q) by (nonlinear_arith)
            requires
                v + 1 <= q,
        ;
        assert(pow(n, t.len()) == n * q);
    }
}

/// Decoding the number that a tuple spells gives the tuple back.
pub proof fn lemma_digits_of_value(t: Seq<usize>, n: nat)
    requires
        in_range(t, t.len(), n),
    ensures
        digits(value(t, n), t.len(), n) == t,
    decreases t.len(),
{
    if t.len() == 0 {
        assert(digits(value(t, n), 0, n) =~= t);
    } else {
        let t0 = t.drop_last();
        lemma_digits_of_value(t0, n);
        let v = value(t0, n);
        let d = t.last() as nat;
        assert(d < n);
        assert((v * n + d) / n == v && (v * n + d) % n == d) by (nonlinear_arith)
            requires
                d < n,
        ;
        assert(t0.push(t.last()) =~= t);
    }
}

/// Decoding a number below `n^dim` gives a tuple with values below `n`
/// that spells the number.
pub proof fn lemma_value_of_digits(idx: nat, dim: nat, n: nat)
    requires
        idx < pow(n, dim),
        n <= usize::MAX,
    ensures
        in_range(digits(idx, dim, n), dim, n),
        value(digits(idx, dim, n), n) == idx,
    decreases dim,
{
    if dim > 0 {
        let q = pow(n, (dim - 1) as nat);
        assert(pow(n, dim) == n * q);
        assert(n > 0) by (nonlinear_arith)
            requires
                idx < n * q,
        ;
        assert(idx / n < q) by (nonlinear_arith)
            requires
                idx < n * q,
                n > 0,
        ;
        lemma_value_of_digits(idx / n, (dim - 1) as nat, n);
        let d0 = digits(idx / n, (dim - 1) as nat, n);
        let d = digits(idx, dim, n);
        assert(idx % n < n) by (nonlinear_arith)
            requires
                n > 0,
        ;
        assert(d == d0.push((idx % n) as usize));
        assert(d.drop_last() =~= d0);
        assert(d.last() == idx % n);
        assert((idx / n) * n + idx % n == idx) by (nonlinear_arith)
            requires
                n > 0,
        ;
        assert forall|i: int| 0 <= i < d.len() implies d[i] < n by {
            if i < d0.len() {
                assert(d[i] == d0[i]);
            }
        }
    }
}

/// The step skips nothing: a tuple with values below `n` that comes after `t` is the next tuple or
/// comes after the next tuple.
pub proof fn lemma_next_skips_none(t: Seq<usize>, s: Seq<usize>, u: Seq<usize>, n: nat)
    requires
        is_next_in_range(t, s, n),
        in_range(u, t.len(), n),
        lex_lt(t, u),
    ensures
        u == s || lex_lt(s, u),
{
    lemma_lex_total(u, s);
}

/// One odometer step in base `n`: add one at the last position, then, from
/// the right, put every position that reached `n` back to zero and add one
/// to its left neighbour. The leading position is left as it comes out, so
/// it holds `n` exactly when `t` was the greatest tuple.
pub fn step(state: &mut Vec<usize>, n: usize)
    requires
        old(state).len() > 0,
        in_range(old(state)@, old(state)@.len(), n as nat),
    ensures
        is_rolled(old(state)@, final(state)@, n as nat),
        final(state)@[0] == n <==> is_top(old(state)@, n as nat),
        final(state)@[0] <= n,
{
    let ghost t = state@;
    let dim = state.len();
    let last = state[dim - 1];
    state.set(dim - 1, last + 1);
    let mut idx: usize = dim - 1;
    let ghost mut settled: bool = false;
    let ghost mut p: int = idx as int;
    while idx >= 1
        invariant
            state.len() == dim,
            t.len() == dim,
            idx < dim,
            in_range(t, dim as nat, n as nat),
            is_bump_at(t, state@, p, n as nat),
            idx <= p,
            settled ==> state@[p] < n,
            !settled ==> p == idx,
        decreases idx,
    {
        let here = state[idx];
        if here == n {
            let left = state[idx - 1];
            assert(left == t[idx - 1]);
            state.set(idx, 0);
            state.set(idx - 1, left + 1);
            proof {
                assert(!settled);
                p = idx - 1;
                assert(t[idx as int] + 1 == n);
                assert(agree_below(t, state@, p));
                assert forall|j: int| p < j < t.len() implies t[j] + 1 == n by {}
                assert forall|j: int| p < j < t.len() implies state@[j] == 0 by {}
            }
        } else {
            proof {
                settled = true;
            }
        }
        idx -= 1;
    }
    proof {
        assert(is_bump_at(t, state@, p, n as nat) && (p == 0 || state@[p] < n));
        if state@[0] == n {
            assert(p == 0);
            assert(t[0] + 1 == n);
            assert forall|i: int| 0 <= i < t.len() implies t[i] + 1 == n by {}
        }
        if is_top(t, n as nat) {
            if p > 0 {
                assert(t[p] + 1 == n);
            }
        }
    }
}

} // verus!
