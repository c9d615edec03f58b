//! Binomial coefficients, and the sums of them that count the tuples which
//! come after a given tuple.
use vstd::prelude::*;

verus! {

/// The number of subsets of size `k` of a set of size `n`, by Pascal's rule.
pub open spec fn binomial(n: nat, k: nat) -> nat
    decreases n + k,
{
    if k == 0 {
        1
    } else if n == 0 {
        0
    } else {
        binomial((n - 1) as nat, (k - 1) as nat) + binomial((n - 1) as nat, k)
    }
}

/// `binomial(m, r) + binomial(m - 1, r - 1) + .. + binomial(m - r + 1, 1)`.
pub open spec fn diagonal(m: nat, r: nat) -> nat
    decreases r,
{
    if r == 0 {
        0
    } else {
        binomial(m, r) + diagonal((m - 1) as nat, (r - 1) as nat)
    }
}

/// No set has a subset larger than itself.
pub proof fn lemma_binomial_none(n: nat, k: nat)
    requires
        n < k,
    ensures
        binomial(n, k) == 0,
    decreases n,
{
    if n > 0 {
        lemma_binomial_none((n - 1) as nat, (k - 1) as nat);
        lemma_binomial_none((n - 1) as nat, k);
    }
}

/// The sum along a diagonal of Pascal's triangle is one less than the
/// entry below its upper end.
pub proof fn lemma_diagonal(m: nat, r: nat)
    requires
        r <= m + 1,
    ensures
        diagonal(m, r) + 1 == binomial(m + 1, r),
    decreases r,
{
    if r > 0 {
        assert(binomial(m + 1, r) == binomial(m, (r - 1) as nat) + binomial(m, r));
        assert(diagonal(m, r) == binomial(m, r) + diagonal((m - 1) as nat, (r - 1) as nat));
        if m > 0 {
            lemma_diagonal((m - 1) as nat, (r - 1) as nat);
        } else {
            assert(diagonal(0, 0) == 0);
            assert(binomial(0, 0) == 1);
        }
    }
}

/// Where `room[i]` values lie above the one at position `i`, the sum of
/// `binomial(room[j], len - j)` over the positions `j` from `i` on.
pub open spec fn weigh(room: Seq<int>, i: int) -> nat
    decreases room.len() - i,
{
    if i < 0 || i >= room.len() {
        0
    } else {
        binomial(room[i] as nat, (room.len() - i) as nat) + weigh(room, i + 1)
    }
}

/// Equal entries below `p` weigh the same.
pub proof fn lemma_weigh_prefix(a: Seq<int>, b: Seq<int>, i: int, p: int)
    requires
        a.len() == b.len(),
        0 <= i <= p <= a.len(),
        forall|j: int| 0 <= j < p ==> a[j] == b[j],
    ensures
        weigh(a, i) - weigh(a, p) == weigh(b, i) - weigh(b, p),
    decreases p - i,
{
    if i < p {
        lemma_weigh_prefix(a, b, i + 1, p);
    }
}

/// Positions without the room for what stands right of them weigh nothing.
pub proof fn lemma_weigh_full(room: Seq<int>, i: int)
    requires
        0 <= i <= room.len(),
        forall|j: int| i <= j < room.len() ==> 0 <= #[trigger] room[j] < room.len() - j,
    ensures
        weigh(room, i) == 0,
    decreases room.len() - i,
{
    if i < room.len() {
        lemma_binomial_none(room[i] as nat, (room.len() - i) as nat);
        lemma_weigh_full(room, i + 1);
    }
}

/// Where the room shrinks by one from each position to the next, the
/// weights lie on a diagonal of Pascal's triangle.
pub proof fn lemma_weigh_run(room: Seq<int>, i: int)
    requires
        0 <= i < room.len(),
        forall|j: int| i <= j < room.len() ==> #[trigger] room[j] == room[i] - (j - i),
        room[room.len() - 1] >= 0,
    ensures
        weigh(room, i) == diagonal(room[i] as nat, (room.len() - i) as nat),
    decreases room.len() - i,
{
    if i + 1 < room.len() {
        assert(room[i + 1] == room[i] - 1);
        assert forall|j: int| i + 1 <= j < room.len() implies #[trigger] room[j] == room[i + 1]
            - (j - (i + 1)) by {
            assert(room[j] == room[i] - (j - i));
        }
        lemma_weigh_run(room, i + 1);
        assert(room[room.len() - 1] == room[i] - (room.len() - 1 - i));
    } else {
        assert(weigh(room, i + 1) == 0);
        assert(diagonal((room[i] - 1) as nat, 0) == 0);
    }
}

} // verus!
