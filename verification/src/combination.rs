//! All strictly increasing tuples of `dim` values below `n`, in
//! lexicographic order: the subsets of size `dim` of `0..n`, each sorted.
use vstd::prelude::*;
use crate::lex::{
    agree_below, ascending, counting_up, in_range, lemma_lex_total, lex_lt, lex_lt_at,
    same_tuple,
};
use crate::binomial::{
    binomial, lemma_diagonal, lemma_weigh_full, lemma_weigh_prefix, lemma_weigh_run, weigh,
};
use crate::phase::Phase;

verus! {

/// `t` rises from each position to the next.
pub open spec fn strictly_increasing(t: Seq<usize>) -> bool {
    forall|i: int, j: int| 0 <= i < j < t.len() ==> t[i] < t[j]
}

/// `t` is a tuple that `Combination` enumerates.
pub open spec fn is_combination(t: Seq<usize>, dim: nat, n: nat) -> bool {
    in_range(t, dim, n) && strictly_increasing(t)
}

/// The greatest such tuple: `n - dim, .., n - 2, n - 1`.
pub open spec fn top(dim: nat, n: nat) -> Seq<usize> {
    ascending(dim, (n - dim) as nat)
}

/// The state between the two passes: one was added at `p`, and every
/// position right of `p` stood at its greatest value and is back at zero.
pub open spec fn is_reset_at(t: Seq<usize>, s: Seq<usize>, p: int, n: nat) -> bool {
    &&& s.len() == t.len()
    &&& 0 <= p < t.len()
    &&& agree_below(t, s, p)
    &&& s[p] == t[p] + 1
    &&& forall|j: int| p < j < t.len() ==> t[j] + t.len() == n + j
    &&& forall|j: int| p < j < t.len() ==> s[j] == 0
}

/// `s` is `t` with one added at `p` and the positions right of `p`, each of
/// which stood at its greatest value, counting up from there.
pub open spec fn is_restarted_at(t: Seq<usize>, s: Seq<usize>, p: int, n: nat) -> bool {
    &&& s.len() == t.len()
    &&& 0 <= p < t.len()
    &&& agree_below(t, s, p)
    &&& t[p] + t.len() < n + p
    &&& forall|j: int| p <= j < t.len() ==> s[j] == t[p] + 1 + (j - p)
    &&& forall|j: int| p < j < t.len() ==> t[j] + t.len() == n + j
}

/// `s` is what the successor rule makes of `t`.
pub open spec fn is_restarted(t: Seq<usize>, s: Seq<usize>, n: nat) -> bool {
    exists|p: int| is_restarted_at(t, s, p, n)
}

/// `s` is the tuple right after `t` among the strictly increasing tuples
/// with values below `n`.
pub open spec fn is_next_combination(t: Seq<usize>, s: Seq<usize>, n: nat) -> bool {
    &&& is_combination(s, t.len(), n)
    &&& lex_lt(t, s)
    &&& forall|u: Seq<usize>| #[trigger]
        is_combination(u, t.len(), n) ==> !(lex_lt(t, u) && lex_lt(u, s))
}

/// Between two positions a strictly increasing tuple rises by at least
/// their distance.
pub proof fn lemma_increasing_gap(t: Seq<usize>, i: int, j: int)
    requires
        strictly_increasing(t),
        0 <= i <= j < t.len(),
    ensures
        t[i] + (j - i) <= t[j],
    decreases j - i,
{
    if i < j {
        lemma_increasing_gap(t, i, j - 1);
        assert(t[j - 1] < t[j]);
    }
}

/// Each position of a combination holds at least its own index and leaves
/// room for the positions to its right.
pub proof fn lemma_combination_bounds(t: Seq<usize>, dim: nat, n: nat)
    requires
        is_combination(t, dim, n),
    ensures
        dim <= n,
        forall|i: int| 0 <= i < dim ==> i <= #[trigger] t[i] && t[i] + dim <= n + i,
{
    assert forall|i: int| 0 <= i < dim implies i <= #[trigger] t[i] && t[i] + dim <= n + i by {
        lemma_increasing_gap(t, 0, i);
        lemma_increasing_gap(t, i, dim - 1);
        assert(t[dim - 1] < n);
    }
    if dim > 0 {
        assert(0 <= t[0] && t[0] + dim <= n + 0);
    }
}

/// A run of consecutive values that ends below `n` is a combination.
pub proof fn lemma_ascending_is_combination(dim: nat, n: nat)
    requires
        dim <= n <= usize::MAX,
    ensures
        is_combination(ascending(dim, 0), dim, n),
        is_combination(top(dim, n), dim, n),
{
}

/// The successor rule yields the next strictly increasing tuple in
/// lexicographic order.
pub proof fn lemma_restarted_is_next(t: Seq<usize>, s: Seq<usize>, n: nat)
    requires
        is_combination(t, t.len(), n),
        is_restarted(t, s, n),
    ensures
        is_next_combination(t, s, n),
{
    let p = choose|p: int| is_restarted_at(t, s, p, n);
    let dim = t.len();
    assert(s[p] == t[p] + 1 + (p - p));
    assert forall|i: int| 0 <= i < s.len() implies s[i] < n by {
        if i < p {
            assert(s[i] == t[i]);
        } else {
            assert(s[i] == t[p] + 1 + (i - p));
        }
    }
    assert forall|i: int, j: int| 0 <= i < j < s.len() implies s[i] < s[j] by {
        if i < p {
            assert(s[i] == t[i]);
            assert(t[i] < t[p]);
        } else {
            assert(s[i] == t[p] + 1 + (i - p));
        }
        if j < p {
            assert(s[j] == t[j]);
        } else {
            assert(s[j] == t[p] + 1 + (j - p));
        }
    }
    assert(lex_lt_at(t, s, p));
    assert forall|u: Seq<usize>| #[trigger]
        is_combination(u, t.len(), n) implies !(lex_lt(t, u) && lex_lt(u, s)) by {
        if lex_lt(t, u) && lex_lt(u, s) {
            let k = choose|k: int| lex_lt_at(t, u, k);
            let j = choose|j: int| lex_lt_at(u, s, j);
            lemma_combination_bounds(u, dim, n);
            assert(t[k] < u[k]);
            assert(u[j] < s[j]);
            assert(u[k] + dim <= n + k);
            if j < k {
                assert(t[j] == u[j]);
            }
            if k < j {
                assert(u[k] == s[k]);
            }
            if k < p {
                assert(t[k] == s[k]);
            }
            if j < p {
                assert(t[j] == s[j]);
            }
            if k > p {
                assert(t[k] + dim == n + k);
            }
            if j > p {
                assert(s[j] == t[p] + 1 + (j - p));
                assert(s[j - 1] == t[p] + 1 + (j - 1 - p));
                assert(u[j - 1] == s[j - 1]);
                assert(u[j - 1] < u[j]);
            }
        }
    }
}

/// The step skips nothing: a strictly increasing tuple that comes after `t` is the next tuple or
/// comes after the next tuple.
pub proof fn lemma_next_skips_none(t: Seq<usize>, s: Seq<usize>, u: Seq<usize>, n: nat)
    requires
        is_next_combination(t, s, n),
        is_combination(u, t.len(), n),
        lex_lt(t, u),
    ensures
        u == s || lex_lt(s, u),
{
    lemma_lex_total(u, s);
}

/// `0, 1, .., dim - 1` is the least tuple that is enumerated.
pub proof fn lemma_ascending_least(u: Seq<usize>, dim: nat, n: nat)
    requires
        is_combination(u, dim, n),
    ensures
        !lex_lt(u, ascending(dim, 0)),
{
    if lex_lt(u, ascending(dim, 0)) {
        let k = choose|k: int| lex_lt_at(u, ascending(dim, 0), k);
        lemma_combination_bounds(u, dim, n);
        assert(u[k] < ascending(dim, 0)[k]);
        assert(k <= u[k]);
    }
}

/// `n - dim, .., n - 1` is the greatest tuple that is enumerated.
pub proof fn lemma_top_greatest(u: Seq<usize>, dim: nat, n: nat)
    requires
        is_combination(u, dim, n),
        n <= usize::MAX,
    ensures
        !lex_lt(top(dim, n), u),
{
    if lex_lt(top(dim, n), u) {
        let k = choose|k: int| lex_lt_at(top(dim, n), u, k);
        lemma_combination_bounds(u, dim, n);
        assert(top(dim, n)[k] < u[k]);
        assert(u[k] + dim <= n + k);
    }
}

/// For each position, how many values below `n` lie above the value there.
pub open spec fn room(t: Seq<usize>, n: nat) -> Seq<int> {
    Seq::new(t.len(), |i: int| n - 1 - t[i])
}

/// The place of `t` in the enumeration, counted from zero.
pub open spec fn rank(t: Seq<usize>, n: nat) -> int {
    binomial(n, t.len()) - 1 - weigh(room(t, n), 0)
}

/// The first tuple stands at place zero.
pub proof fn lemma_first_rank(dim: nat, n: nat)
    requires
        dim <= n <= usize::MAX,
    ensures
        rank(ascending(dim, 0), n) == 0,
{
    let r = room(ascending(dim, 0), n);
    if dim > 0 {
        lemma_weigh_run(r, 0);
        lemma_diagonal((n - 1) as nat, dim);
    }
}

/// The successor rule leads from each place to the next.
pub proof fn lemma_step_rank(t: Seq<usize>, s: Seq<usize>, n: nat)
    requires
        is_combination(t, t.len(), n),
        is_restarted(t, s, n),
    ensures
        rank(s, n) == rank(t, n) + 1,
{
    let p = choose|p: int| is_restarted_at(t, s, p, n);
    let a = room(t, n);
    let b = room(s, n);
    let dim = t.len();
    lemma_restarted_is_next(t, s, n);
    assert forall|j: int| 0 <= j < p implies a[j] == b[j] by {
        assert(t[j] == s[j]);
    }
    lemma_weigh_prefix(a, b, 0, p);
    assert forall|j: int| p + 1 <= j < dim implies 0 <= #[trigger] a[j] < dim - j by {
        assert(t[j] + dim == n + j);
    }
    lemma_weigh_full(a, p + 1);
    assert(s[p] == t[p] + 1 + (p - p));
    assert forall|j: int| p <= j < dim implies #[trigger] b[j] == b[p] - (j - p) by {
        assert(s[j] == t[p] + 1 + (j - p));
    }
    assert(s[dim - 1] < n);
    lemma_weigh_run(b, p);
    lemma_diagonal(b[p] as nat, (dim - p) as nat);
    assert(b[p] + 1 == a[p]);
}

/// The greatest tuple stands at place `binomial(n, dim) - 1`: with the
/// step from each place to the next, exactly `binomial(n, dim)` tuples are
/// emitted.
pub proof fn lemma_last_rank(dim: nat, n: nat)
    requires
        dim <= n <= usize::MAX,
    ensures
        rank(top(dim, n), n) == binomial(n, dim) - 1,
{
    let r = room(top(dim, n), n);
    assert forall|j: int| 0 <= j < dim implies 0 <= #[trigger] r[j] < dim - j by {
        assert(top(dim, n)[j] == n - dim + j);
    }
    lemma_weigh_full(r, 0);
}

/// The successor rule on a tuple other than the greatest: add one at the
/// last position; from the right, put every position that went past its
/// greatest value back to zero and add one to its left neighbour; then,
/// from the left, give every position that holds such a zero one more than
/// its left neighbour. The greatest value of a position leaves room for the
/// positions to its right: the last position may reach `n - 1`, the one
/// before it `n - 2`, and so on.
pub fn step(state: &mut Vec<usize>, n: usize)
    requires
        is_combination(old(state)@, old(state)@.len(), n as nat),
        old(state)@ != top(old(state)@.len(), n as nat),
    ensures
        is_restarted(old(state)@, final(state)@, n as nat),
        is_next_combination(old(state)@, final(state)@, n as nat),
{
    let ghost t = state@;
    let dim = state.len();
    proof {
        lemma_combination_bounds(t, dim as nat, n as nat);
        if dim == 0 {
            assert(t =~= top(0, n as nat));
        }
    }
    let last = state[dim - 1];
    state.set(dim - 1, last + 1);
    let mut idx: usize = dim - 1;
    let ghost mut settled: bool = false;
    let ghost mut p: int = idx as int;
    while idx >= 1
        invariant
            state.len() == dim,
            t.len() == dim,
            idx < dim,
            dim <= n,
            in_range(t, dim as nat, n as nat),
            forall|i: int| 0 <= i < dim ==> i <= #[trigger] t[i] && t[i] + dim <= n + i,
            is_reset_at(t, state@, p, n as nat),
            idx <= p,
            settled ==> state@[p] + dim <= n + p,
            !settled ==> p == idx,
        decreases idx,
    {
        let here = state[idx];
        let limit = n - (dim - 1 - idx);
        if here == limit {
            proof {
                if settled && idx < p {
                    assert(state@[idx as int] == t[idx as int]);
                }
                assert(!settled);
            }
            let left = state[idx - 1];
            assert(left == t[idx - 1]);
            state.set(idx, 0);
            state.set(idx - 1, left + 1);
            proof {
                p = idx - 1;
                assert(t[idx as int] + dim == n + idx);
                assert(agree_below(t, state@, p));
                assert forall|j: int| p < j < t.len() implies t[j] + t.len() == n + j by {}
                assert forall|j: int| p < j < t.len() implies state@[j] == 0 by {}
            }
        } else {
            proof {
                settled = true;
            }
        }
        idx -= 1;
    }
    proof {
        if !settled {
            assert(p == 0);
            if t[0] + dim == n {
                assert forall|i: int| 0 <= i < dim implies t[i] == top(dim as nat, n as nat)[i] by {
                    assert(t[i] + dim == n + i);
                }
                assert(t =~= top(dim as nat, n as nat));
            }
        }
        assert(state@[p] + dim <= n + p);
    }
    idx = 1;
    while idx < dim
        invariant
            state.len() == dim,
            t.len() == dim,
            1 <= idx <= dim,
            0 <= p < dim,
            dim <= n,
            in_range(t, dim as nat, n as nat),
            forall|i: int| 0 <= i < dim ==> i <= #[trigger] t[i] && t[i] + dim <= n + i,
            agree_below(t, state@, p),
            t[p] + dim < n + p,
            forall|j: int| p < j < dim ==> t[j] + dim == n + j,
            forall|j: int| p <= j < idx || j == p ==> state@[j] == t[p] + 1 + (j - p),
            forall|j: int| idx <= j < dim && p < j ==> state@[j] == 0,
        decreases dim - idx,
    {
        let here = state[idx];
        if here == 0 {
            assert(p < idx) by {
                if idx < p {
                    assert(state@[idx as int] == t[idx as int]);
                    assert(idx <= t[idx as int]);
                }
            }
            let left = state[idx - 1];
            assert(left == t[p] + 1 + (idx - 1 - p));
            state.set(idx, left + 1);
            assert(agree_below(t, state@, p));
        } else {
            assert(idx <= p);
        }
        idx += 1;
    }
    proof {
        assert(is_restarted_at(t, state@, p, n as nat));
        lemma_restarted_is_next(t, state@, n as nat);
    }
}

/// Enumerates the strictly increasing tuples of `dim` values below `n`.
#[derive(Debug, Clone)]
pub struct Combination {
    state: Vec<usize>,
    phase: Phase,
    dim: usize,
    n: usize,
    end: Vec<usize>,
}

impl Combination {
    /// The number of positions of each tuple.
    pub closed spec fn dim(&self) -> nat {
        self.dim as nat
    }

    /// The exclusive upper bound of each value.
    pub closed spec fn bound(&self) -> nat {
        self.n as nat
    }

    /// Whether the enumeration has not started, is under way or has ended.
    pub closed spec fn phase(&self) -> Phase {
        self.phase
    }

    /// The state buffer; it is the current tuple while the phase is `Active`.
    pub closed spec fn tuple(&self) -> Seq<usize> {
        self.state@
    }

    /// The terminal marker: the greatest tuple, kept from construction on
    /// and compared with the state to tell that the enumeration is over.
    pub closed spec fn terminal(&self) -> Seq<usize> {
        self.end@
    }

    /// The invariant of the enumerator: the state buffer has `dim`
    /// positions, it holds the first tuple before the start, and while the
    /// enumeration is under way it holds a tuple of the kind enumerated.
    pub closed spec fn wf(&self) -> bool {
        &&& self.state.len() == self.dim
        &&& self.dim <= self.n
        &&& self.end@ == top(self.dim as nat, self.n as nat)
        &&& self.phase == Phase::NotStarted ==> self.state@ == ascending(self.dim as nat, 0)
        &&& self.phase == Phase::Active ==> is_combination(
            self.state@,
            self.dim as nat,
            self.n as nat,
        )
    }

    /// The tuple that `get` hands out, if any.
    pub open spec fn current(&self) -> Option<Seq<usize>> {
        if self.phase() == Phase::Active {
            Some(self.tuple())
        } else {
            None
        }
    }

    /// What one `advance` makes of `self`.
    pub open spec fn advances_to(&self, post: &Combination) -> bool {
        &&& post.dim() == self.dim()
        &&& post.bound() == self.bound()
        &&& post.terminal() == self.terminal()
        &&& match self.phase() {
            Phase::NotStarted => post.phase() == Phase::Active && post.tuple() == ascending(
                self.dim(),
                0,
            ),
            Phase::Active => if self.tuple() == top(self.dim(), self.bound()) {
                post.phase() == Phase::Finished && post.tuple() == self.tuple()
            } else {
                &&& post.phase() == Phase::Active
                &&& is_restarted(self.tuple(), post.tuple(), self.bound())
                &&& is_next_combination(self.tuple(), post.tuple(), self.bound())
            },
            Phase::Finished => post.phase() == Phase::Finished && post.tuple() == self.tuple(),
        }
    }

    /// An enumerator that has not started. No tuple has more positions
    /// than there are values.
    pub fn new(dim: usize, n: usize) -> (r: Combination)
        requires
            dim <= n,
        ensures
            r.wf(),
            r.dim() == dim,
            r.bound() == n,
            r.phase() == Phase::NotStarted,
            r.terminal() == top(dim as nat, n as nat),
            r.tuple() == ascending(dim as nat, 0),
    {
        let state = counting_up(dim, 0);
        let end = counting_up(dim, n - dim);
        proof {
            lemma_ascending_is_combination(dim as nat, n as nat);
        }
        Combination { state, phase: Phase::NotStarted, dim, n, end }
    }

    /// Moves to the next tuple. The first call makes `0, 1, .., dim - 1`
    /// current; a call on the greatest tuple ends the enumeration, and every
    /// call after that leaves it ended. Neither touches the state buffer.
    pub fn advance(&mut self)
        requires
            old(self).wf(),
        ensures
            final(self).wf(),
            old(self).advances_to(final(self)),
    {
        match self.phase {
            Phase::NotStarted => {
                proof {
                    lemma_ascending_is_combination(self.dim as nat, self.n as nat);
                }
                self.phase = Phase::Active;
            },
            Phase::Active => {
                if same_tuple(&self.state, &self.end) {
                    self.phase = Phase::Finished;
                } else {
                    step(&mut self.state, self.n);
                }
            },
            Phase::Finished => {},
        }
    }

    /// The current tuple, while there is one.
    pub fn get(&self) -> (r: Option<&[usize]>)
        requires
            self.wf(),
        ensures
            match r {
                Some(s) => self.current() == Some(s@) && is_combination(s@, self.dim(), self.bound()),
                None => self.current().is_none(),
            },
    {
        match self.phase {
            Phase::Active => Some(self.state.as_slice()),
            _ => None,
        }
    }

    /// Advances, then hands out a copy of the current tuple.
    pub fn next(&mut self) -> (r: Option<Vec<usize>>)
        requires
            old(self).wf(),
        ensures
            final(self).wf(),
            old(self).advances_to(final(self)),
            match r {
                Some(v) => final(self).current() == Some(v@) && is_combination(
                    v@,
                    final(self).dim(),
                    final(self).bound(),
                ),
                None => final(self).current().is_none(),
            },
    {
        self.advance();
        match self.phase {
            Phase::Active => Some(self.state.clone()),
            _ => None,
        }
    }
}

/// The states of one enumerator over a run: a fresh one first, then each
/// what `advance` made of the one before. The results of repeated calls
/// of `next` are the `current()` of these states, from the second on.
pub open spec fn is_trace(tr: Seq<Combination>) -> bool {
    &&& tr.len() > 0
    &&& tr[0].wf()
    &&& tr[0].phase() == Phase::NotStarted
    &&& forall|i: int| 0 <= i < tr.len() - 1 ==> #[trigger] advanced_at(tr, i)
}

/// State `i + 1` of the run is what `advance` made of state `i`.
pub open spec fn advanced_at(tr: Seq<Combination>, i: int) -> bool {
    tr[i].advances_to(&tr[i + 1])
}

/// How many tuples a run emits.
pub open spec fn count(dim: nat, n: nat) -> nat {
    binomial(n, dim)
}

/// Where a run stands after `i` calls of `advance`: the calls from the
/// first to number `count(dim, n)` each leave a valid tuple, the one at
/// place `i - 1`; every later call leaves the enumeration ended.
pub proof fn lemma_run_state(tr: Seq<Combination>, i: int)
    requires
        is_trace(tr),
        0 <= i < tr.len(),
    ensures
        tr[i].dim() == tr[0].dim(),
        tr[i].bound() == tr[0].bound(),
        count(tr[0].dim(), tr[0].bound()) >= 1,
        i == 0 ==> tr[i].phase() == Phase::NotStarted,
        1 <= i <= count(tr[0].dim(), tr[0].bound()) ==> tr[i].phase() == Phase::Active && is_combination(
            tr[i].tuple(),
            tr[0].dim(),
            tr[0].bound(),
        ) && rank(tr[i].tuple(), tr[0].bound()) == i - 1,
        i > count(tr[0].dim(), tr[0].bound()) ==> tr[i].phase() == Phase::Finished,
    decreases i,
{
    let dim = tr[0].dim();
    let n = tr[0].bound();
    lemma_first_rank(dim, n);
    lemma_ascending_is_combination(dim, n);
    if i > 0 {
        lemma_run_state(tr, i - 1);
        assert(advanced_at(tr, i - 1));
        let t = tr[i - 1].tuple();
        let s = tr[i].tuple();
        if i - 1 >= 1 && i - 1 <= count(dim, n) {
            if t == top(dim, n) {
                lemma_last_rank(dim, n);
            } else {
                lemma_step_rank(t, s, n);

            }
        }
    }
}

/// A run emits exactly `count(dim, n)` tuples: `get` has a tuple after
/// each of the first `count(dim, n)` calls of `advance`, and after no
/// other.
pub proof fn lemma_run_count(tr: Seq<Combination>, i: int)
    requires
        is_trace(tr),
        0 <= i < tr.len(),
    ensures
        tr[i].current().is_some() <==> 1 <= i <= count(tr[0].dim(), tr[0].bound()),
{
    lemma_run_state(tr, i);
}

/// A run emits no tuple twice.
pub proof fn lemma_run_distinct(tr: Seq<Combination>, i: int, j: int)
    requires
        is_trace(tr),
        0 <= i < j < tr.len(),
        tr[i].current().is_some(),
    ensures
        tr[i].current() != tr[j].current(),
{
    lemma_run_state(tr, i);
    lemma_run_state(tr, j);
}

proof fn lemma_run_reaches(tr: Seq<Combination>, u: Seq<usize>, i: int)
    requires
        is_trace(tr),
        tr[tr.len() - 1].phase() == Phase::Finished,
        is_combination(u, tr[0].dim(), tr[0].bound()),
        1 <= i < tr.len(),
        tr[i].phase() == Phase::Active,
        u == tr[i].tuple() || lex_lt(tr[i].tuple(), u),
    ensures
        exists|j: int| 0 <= j < tr.len() && #[trigger] tr[j].current() == Some(u),
    decreases tr.len() - i,
{
    let dim = tr[0].dim();
    let n = tr[0].bound();
    lemma_run_state(tr, i);
    if u == tr[i].tuple() {
        assert(tr[i].current() == Some(u));
    } else {
        lemma_top_greatest(u, dim, n);
        assert(advanced_at(tr, i));
        lemma_next_skips_none(tr[i].tuple(), tr[i + 1].tuple(), u, n);
        lemma_run_reaches(tr, u, i + 1);
    }
}

/// A run that has ended emitted every strictly increasing tuple of `dim` values below `n`.
pub proof fn lemma_run_complete(tr: Seq<Combination>, u: Seq<usize>)
    requires
        is_trace(tr),
        tr[tr.len() - 1].phase() == Phase::Finished,
        is_combination(u, tr[0].dim(), tr[0].bound()),
    ensures
        exists|j: int| 0 <= j < tr.len() && #[trigger] tr[j].current() == Some(u),
{
    let dim = tr[0].dim();
    let n = tr[0].bound();
    lemma_run_state(tr, tr.len() - 1);
    lemma_run_state(tr, 1);
    assert(advanced_at(tr, 0));
    lemma_ascending_least(u, dim, n);
    lemma_lex_total(u, tr[1].tuple());
    lemma_run_reaches(tr, u, 1);
}

} // verus!
