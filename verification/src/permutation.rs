//! All tuples of `dim` values below `n` that hold no value twice, in
//! lexicographic order.
use vstd::prelude::*;
use crate::lex::{
    ascending, counting_down, counting_up, descending, in_range, lemma_lex_total,
    lemma_lex_transitive, lex_lt, lex_lt_at, same_tuple,
};
use crate::lehmer::{lemma_first_rank, lemma_last_rank, lemma_rank_bound, lemma_step_rank, rank};
use crate::odometer::{is_top, lemma_lex_value, lemma_rolled_is_next, step, value};
use crate::phase::Phase;

verus! {

/// No value stands at two positions of `t`.
pub open spec fn no_repeat(t: Seq<usize>) -> bool {
    forall|i: int, j: int| 0 <= i < j < t.len() ==> t[i] != t[j]
}

/// `t` is a tuple that `Permutation` enumerates.
pub open spec fn is_permutation(t: Seq<usize>, dim: nat, n: nat) -> bool {
    in_range(t, dim, n) && no_repeat(t)
}

/// The greatest such tuple: `n - 1, n - 2, .., n - dim`.
pub open spec fn top(dim: nat, n: nat) -> Seq<usize> {
    descending(dim, n)
}

/// `s` is the tuple right after `t` among the tuples with values below `n`
/// that hold no value twice.
pub open spec fn is_next_permutation(t: Seq<usize>, s: Seq<usize>, n: nat) -> bool {
    &&& is_permutation(s, t.len(), n)
    &&& lex_lt(t, s)
    &&& forall|u: Seq<usize>| #[trigger]
        is_permutation(u, t.len(), n) ==> !(lex_lt(t, u) && lex_lt(u, s))
}

/// The number of tuples of `dim` distinct values below `n`:
/// `n (n - 1) .. (n - dim + 1)`.
pub open spec fn falling(n: nat, dim: nat) -> nat
    decreases dim,
{
    if dim == 0 {
        1
    } else {
        falling(n, (dim - 1) as nat) * ((n - (dim - 1)) as nat)
    }
}

/// With no more factors than `n`, a longer product is no smaller.
pub proof fn lemma_falling_grows(n: nat, short: nat, long: nat)
    requires
        short <= long <= n,
    ensures
        falling(n, short) <= falling(n, long),
    decreases long - short,
{
    if short < long {
        lemma_falling_grows(n, short, (long - 1) as nat);
        let shorter = falling(n, (long - 1) as nat);
        let factor = (n - (long - 1)) as nat;
        assert(shorter <= shorter * factor) by (nonlinear_arith)
            requires
                factor >= 1,
        ;
    }
}

/// The first and the last tuple hold no value twice.
pub proof fn lemma_ends_are_permutations(dim: nat, n: nat)
    requires
        dim <= n <= usize::MAX,
    ensures
        is_permutation(ascending(dim, 0), dim, n),
        is_permutation(top(dim, n), dim, n),
{
}

/// The step skips nothing: a tuple without a repeated value that comes after `t` is the next tuple or
/// comes after the next tuple.
pub proof fn lemma_next_skips_none(t: Seq<usize>, s: Seq<usize>, u: Seq<usize>, n: nat)
    requires
        is_next_permutation(t, s, n),
        is_permutation(u, t.len(), n),
        lex_lt(t, u),
    ensures
        u == s || lex_lt(s, u),
{
    lemma_lex_total(u, s);
}

/// `0, 1, .., dim - 1` is the least tuple that is enumerated.
pub proof fn lemma_ascending_least(u: Seq<usize>, dim: nat, n: nat)
    requires
        is_permutation(u, dim, n),
    ensures
        !lex_lt(u, ascending(dim, 0)),
{
    if lex_lt(u, ascending(dim, 0)) {
        let k = choose|k: int| lex_lt_at(u, ascending(dim, 0), k);
        let at = u[k] as int;
        assert(u[k] < ascending(dim, 0)[k]);
        assert(u[at] == ascending(dim, 0)[at]);
    }
}

/// `n - 1, n - 2, .., n - dim` is the greatest tuple that is enumerated.
pub proof fn lemma_top_greatest(u: Seq<usize>, dim: nat, n: nat)
    requires
        is_permutation(u, dim, n),
        dim <= n <= usize::MAX,
    ensures
        !lex_lt(top(dim, n), u),
{
    if lex_lt(top(dim, n), u) {
        let k = choose|k: int| lex_lt_at(top(dim, n), u, k);
        let at = n - 1 - u[k];
        assert(top(dim, n)[k] < u[k]);
        assert(u[k] < n);
        assert(top(dim, n)[at] == u[at]);
    }
}

/// Enumerates the tuples of `dim` values below `n` that hold no value twice.
#[derive(Debug, Clone)]
pub struct Permutation {
    state: Vec<usize>,
    phase: Phase,
    dim: usize,
    n: usize,
    end: Vec<usize>,
}

impl Permutation {
    /// The number of positions of each tuple.
    pub closed spec fn dim(&self) -> nat {
        self.dim as nat
    }

    /// The exclusive upper bound of each value.
    pub closed spec fn bound(&self) -> nat {
        self.n as nat
    }

    /// Whether the enumeration has not started, is under way or has ended.
    pub closed spec fn phase(&self) -> Phase {
        self.phase
    }

    /// The state buffer; it is the current tuple while the phase is `Active`.
    pub closed spec fn tuple(&self) -> Seq<usize> {
        self.state@
    }

    /// The terminal marker: the greatest tuple, kept from construction on
    /// and compared with the state to tell that the enumeration is over.
    pub closed spec fn terminal(&self) -> Seq<usize> {
        self.end@
    }

    /// The invariant of the enumerator: the state buffer has `dim`
    /// positions, it holds the first tuple before the start, and while the
    /// enumeration is under way it holds a tuple of the kind enumerated.
    pub closed spec fn wf(&self) -> bool {
        &&& self.state.len() == self.dim
        &&& self.dim <= self.n
        &&& self.end@ == top(self.dim as nat, self.n as nat)
        &&& self.phase == Phase::NotStarted ==> self.state@ == ascending(self.dim as nat, 0)
        &&& self.phase == Phase::Active ==> is_permutation(
            self.state@,
            self.dim as nat,
            self.n as nat,
        )
    }

    /// The tuple that `get` hands out, if any.
    pub open spec fn current(&self) -> Option<Seq<usize>> {
        if self.phase() == Phase::Active {
            Some(self.tuple())
        } else {
            None
        }
    }

    /// What one `advance` makes of `self`.
    pub open spec fn advances_to(&self, post: &Permutation) -> bool {
        &&& post.dim() == self.dim()
        &&& post.bound() == self.bound()
        &&& post.terminal() == self.terminal()
        &&& match self.phase() {
            Phase::NotStarted => post.phase() == Phase::Active && post.tuple() == ascending(
                self.dim(),
                0,
            ),
            Phase::Active => if self.tuple() == top(self.dim(), self.bound()) {
                post.phase() == Phase::Finished && post.tuple() == self.tuple()
            } else {
                &&& post.phase() == Phase::Active
                &&& is_next_permutation(self.tuple(), post.tuple(), self.bound())
            },
            Phase::Finished => post.phase() == Phase::Finished && post.tuple() == self.tuple(),
        }
    }

    /// An enumerator that has not started. No tuple has more positions
    /// than there are values.
    pub fn new(dim: usize, n: usize) -> (r: Permutation)
        requires
            dim <= n,
        ensures
            r.wf(),
            r.dim() == dim,
            r.bound() == n,
            r.phase() == Phase::NotStarted,
            r.terminal() == top(dim as nat, n as nat),
            r.tuple() == ascending(dim as nat, 0),
    {
        let state = counting_up(dim, 0);
        let end = counting_down(dim, n);
        Permutation { state, phase: Phase::NotStarted, dim, n, end }
    }

    /// Whether the state buffer holds some value at two positions.
    fn has_duplication(&self) -> (r: bool)
        requires
            self.state.len() == self.dim,
            in_range(self.state@, self.dim as nat, self.n as nat),
        ensures
            r == !no_repeat(self.state@),
    {
        let mut list: Vec<bool> = Vec::new();
        let mut v: usize = 0;
        while v < self.n
            invariant
                v <= self.n,
                list.len() == v,
                forall|w: int| 0 <= w < v ==> !list@[w],
            decreases self.n - v,
        {
            list.push(false);
            v += 1;
        }
        let ghost mut owner: Seq<int> = Seq::new(self.n as nat, |w: int| 0int);
        let mut k: usize = 0;
        while k < self.dim
            invariant
                k <= self.dim,
                self.state.len() == self.dim,
                in_range(self.state@, self.dim as nat, self.n as nat),
                list.len() == self.n,
                owner.len() == self.n,
                forall|j: int| 0 <= j < k ==> list@[self.state@[j] as int],
                forall|w: int|
                    0 <= w < self.n && list@[w] ==> 0 <= #[trigger] owner[w] < k
                        && self.state@[owner[w]] == w,
                forall|i: int, j: int| 0 <= i < j < k ==> self.state@[i] != self.state@[j],
            decreases self.dim - k,
        {
            let i = self.state[k];
            if list[i] {
                assert(self.state@[owner[i as int]] == self.state@[k as int]);
                return true;
            } else {
                list.set(i, true);
                proof {
                    owner = owner.update(i as int, k as int);
                }
            }
            k += 1;
        }
        false
    }

    /// An upper bound of the number of tuples: `n (n - 1) .. (n - dim + 1)`,
    /// the number of all of them, or `None` where that does not fit a `usize`.
    pub fn size_hint(&self) -> (r: (usize, Option<usize>))
        requires
            self.wf(),
        ensures
            r.0 == 0,
            r.1 == (if falling(self.bound(), self.dim()) <= usize::MAX {
                Some(falling(self.bound(), self.dim()) as usize)
            } else {
                None
            }),
    {
        let mut size: usize = 1;
        let mut k: usize = 0;
        while k < self.dim
            invariant
                k <= self.dim <= self.n,
                size == falling(self.n as nat, k as nat),
            decreases self.dim - k,
        {
            let factor = self.n - k;
            match size.checked_mul(factor) {
                Some(more) => {
                    size = more;
                },
                None => {
                    proof {
                        lemma_falling_grows(self.n as nat, (k + 1) as nat, self.dim as nat);
                    }
                    return (0, None);
                },
            }
            k += 1;
        }
        (0, Some(size))
    }

    /// Moves to the next tuple. The first call makes `0, 1, .., dim - 1`
    /// current; a call on the greatest tuple ends the enumeration, and every
    /// call after that leaves it ended. Neither touches the state buffer.
    /// In between, the state takes odometer steps until it holds no value
    /// twice.
    pub fn advance(&mut self)
        requires
            old(self).wf(),
        ensures
            final(self).wf(),
            old(self).advances_to(final(self)),
    {
        match self.phase {
            Phase::NotStarted => {
                proof {
                    lemma_ends_are_permutations(self.dim as nat, self.n as nat);
                }
                self.phase = Phase::Active;
            },
            Phase::Active => {
                if same_tuple(&self.state, &self.end) {
                    self.phase = Phase::Finished;
                } else {
                    let ghost t = self.state@;
                    let ghost n = self.n as nat;
                    proof {
                        lemma_ends_are_permutations(self.dim as nat, n);
                        lemma_top_greatest(t, self.dim as nat, n);
                        lemma_lex_total(t, self.end@);
                    }
                    // The odometer runs on until it shows a tuple without a
                    // repeated value. While it searches it stays below the
                    // greatest such tuple, so it cannot run out of tuples.
                    loop
                        invariant_except_break
                            lex_lt(self.state@, self.end@),
                            self.state@ == t || lex_lt(t, self.state@),
                            forall|u: Seq<usize>| #[trigger]
                                is_permutation(u, t.len(), n) ==> !(lex_lt(t, u) && (u
                                    == self.state@ || lex_lt(u, self.state@))),
                        invariant
                            n == self.n,
                            self.n == old(self).n,
                            self.dim == old(self).dim,
                            self.dim <= self.n,
                            self.end@ == old(self).end@,
                            self.end@ == top(self.dim as nat, n),
                            self.phase == Phase::Active,
                            self.state.len() == self.dim,
                            t.len() == self.dim,
                            is_permutation(t, t.len(), n),
                            is_permutation(self.end@, t.len(), n),
                            in_range(self.state@, self.dim as nat, n),
                        ensures
                            is_next_permutation(t, self.state@, n),
                        decreases value(self.end@, n) - value(self.state@, n),
                    {
                        let ghost before = self.state@;
                        proof {
                            let k = choose|k: int| lex_lt_at(before, self.end@, k);
                            assert(before[k] < self.end@[k]);
                            assert(self.end@[k] < n);
                            assert(!is_top(before, n));
                        }
                        step(&mut self.state, self.n);
                        proof {
                            let now = self.state@;
                            lemma_rolled_is_next(before, now, n);
                            if before != t {
                                lemma_lex_transitive(t, before, now);
                            }
                            lemma_lex_total(now, self.end@);
                            lemma_lex_value(before, now, n);
                            assert forall|u: Seq<usize>| #[trigger]
                                is_permutation(u, t.len(), n) implies !(lex_lt(t, u) && lex_lt(
                                u,
                                now,
                            )) by {
                                lemma_lex_total(u, before);
                            }
                            if lex_lt(now, self.end@) {
                                lemma_lex_value(now, self.end@, n);
                            }
                        }
                        if !self.has_duplication() {
                            break;
                        }
                    }
                }
            },
            Phase::Finished => {},
        }
    }

    /// The current tuple, while there is one.
    pub fn get(&self) -> (r: Option<&[usize]>)
        requires
            self.wf(),
        ensures
            match r {
                Some(s) => self.current() == Some(s@) && is_permutation(s@, self.dim(), self.bound()),
                None => self.current().is_none(),
            },
    {
        match self.phase {
            Phase::Active => Some(self.state.as_slice()),
            _ => None,
        }
    }

    /// Advances, then hands out a copy of the current tuple.
    pub fn next(&mut self) -> (r: Option<Vec<usize>>)
        requires
            old(self).wf(),
        ensures
            final(self).wf(),
            old(self).advances_to(final(self)),
            match r {
                Some(v) => final(self).current() == Some(v@) && is_permutation(
                    v@,
                    final(self).dim(),
                    final(self).bound(),
                ),
                None => final(self).current().is_none(),
            },
    {
        self.advance();
        match self.phase {
            Phase::Active => Some(self.state.clone()),
            _ => None,
        }
    }
}

/// The states of one enumerator over a run: a fresh one first, then each
/// what `advance` made of the one before. The results of repeated calls
/// of `next` are the `current()` of these states, from the second on.
pub open spec fn is_trace(tr: Seq<Permutation>) -> bool {
    &&& tr.len() > 0
    &&& tr[0].wf()
    &&& tr[0].phase() == Phase::NotStarted
    &&& forall|i: int| 0 <= i < tr.len() - 1 ==> #[trigger] advanced_at(tr, i)
}

/// State `i + 1` of the run is what `advance` made of state `i`.
pub open spec fn advanced_at(tr: Seq<Permutation>, i: int) -> bool {
    tr[i].advances_to(&tr[i + 1])
}

/// How many tuples a run emits.
pub open spec fn count(dim: nat, n: nat) -> nat {
    falling(n, dim)
}

/// Where a run stands after `i` calls of `advance`: the calls from the
/// first to number `count(dim, n)` each leave a valid tuple, the one at
/// place `i - 1`; every later call leaves the enumeration ended.
pub proof fn lemma_run_state(tr: Seq<Permutation>, i: int)
    requires
        is_trace(tr),
        0 <= i < tr.len(),
    ensures
        tr[i].dim() == tr[0].dim(),
        tr[i].bound() == tr[0].bound(),
        count(tr[0].dim(), tr[0].bound()) >= 1,
        i == 0 ==> tr[i].phase() == Phase::NotStarted,
        1 <= i <= count(tr[0].dim(), tr[0].bound()) ==> tr[i].phase() == Phase::Active && is_permutation(
            tr[i].tuple(),
            tr[0].dim(),
            tr[0].bound(),
        ) && rank(tr[i].tuple(), tr[0].bound()) == i - 1,
        i > count(tr[0].dim(), tr[0].bound()) ==> tr[i].phase() == Phase::Finished,
    decreases i,
{
    let dim = tr[0].dim();
    let n = tr[0].bound();
    lemma_first_rank(dim, n);
    lemma_ends_are_permutations(dim, n);
    lemma_rank_bound(ascending(dim, 0), n);
    if i > 0 {
        lemma_run_state(tr, i - 1);
        assert(advanced_at(tr, i - 1));
        let t = tr[i - 1].tuple();
        let s = tr[i].tuple();
        if i - 1 >= 1 && i - 1 <= count(dim, n) {
            if t == top(dim, n) {
                lemma_last_rank(dim, n);
            } else {
                lemma_step_rank(t, s, n);
                lemma_rank_bound(s, n);
            }
        }
    }
}

/// A run emits exactly `count(dim, n)` tuples: `get` has a tuple after
/// each of the first `count(dim, n)` calls of `advance`, and after no
/// other.
pub proof fn lemma_run_count(tr: Seq<Permutation>, i: int)
    requires
        is_trace(tr),
        0 <= i < tr.len(),
    ensures
        tr[i].current().is_some() <==> 1 <= i <= count(tr[0].dim(), tr[0].bound()),
{
    lemma_run_state(tr, i);
}

/// A run emits no tuple twice.
pub proof fn lemma_run_distinct(tr: Seq<Permutation>, i: int, j: int)
    requires
        is_trace(tr),
        0 <= i < j < tr.len(),
        tr[i].current().is_some(),
    ensures
        tr[i].current() != tr[j].current(),
{
    lemma_run_state(tr, i);
    lemma_run_state(tr, j);
}

proof fn lemma_run_reaches(tr: Seq<Permutation>, u: Seq<usize>, i: int)
    requires
        is_trace(tr),
        tr[tr.len() - 1].phase() == Phase::Finished,
        is_permutation(u, tr[0].dim(), tr[0].bound()),
        1 <= i < tr.len(),
        tr[i].phase() == Phase::Active,
        u == tr[i].tuple() || lex_lt(tr[i].tuple(), u),
    ensures
        exists|j: int| 0 <= j < tr.len() && #[trigger] tr[j].current() == Some(u),
    decreases tr.len() - i,
{
    let dim = tr[0].dim();
    let n = tr[0].bound();
    lemma_run_state(tr, i);
    if u == tr[i].tuple() {
        assert(tr[i].current() == Some(u));
    } else {
        lemma_top_greatest(u, dim, n);
        assert(advanced_at(tr, i));
        lemma_next_skips_none(tr[i].tuple(), tr[i + 1].tuple(), u, n);
        lemma_run_reaches(tr, u, i + 1);
    }
}

/// A run that has ended emitted every tuple of `dim` distinct values below `n`.
pub proof fn lemma_run_complete(tr: Seq<Permutation>, u: Seq<usize>)
    requires
        is_trace(tr),
        tr[tr.len() - 1].phase() == Phase::Finished,
        is_permutation(u, tr[0].dim(), tr[0].bound()),
    ensures
        exists|j: int| 0 <= j < tr.len() && #[trigger] tr[j].current() == Some(u),
{
    let dim = tr[0].dim();
    let n = tr[0].bound();
    lemma_run_state(tr, tr.len() - 1);
    lemma_run_state(tr, 1);
    assert(advanced_at(tr, 0));
    lemma_ascending_least(u, dim, n);
    lemma_lex_total(u, tr[1].tuple());
    lemma_run_reaches(tr, u, 1);
}

} // verus!
