//! All tuples of `dim` values below `n`, in lexicographic order.
use vstd::prelude::*;
use crate::lex::{in_range, constant, filled};
use crate::odometer::{
    digits, is_bump_at, is_next_in_range, is_rolled, is_top, lemma_bump_value,
    lemma_digits_of_value, lemma_rolled_is_next, lemma_top_value, lemma_value_bound,
    lemma_value_of_digits, lemma_zero_value, pow, step, value,
};
use crate::phase::Phase;

verus! {

/// The first tuple is the one that index zero decodes to.
pub proof fn lemma_first_is_index_zero(dim: nat, n: nat)
    requires
        dim == 0 || n > 0,
    ensures
        0 < pow(n, dim),
        constant(dim, 0) == digits(0, dim, n),
{
    assert(in_range(constant(dim, 0), dim, n));
    lemma_zero_value(dim, n);
    lemma_value_bound(constant(dim, 0), n);
    lemma_digits_of_value(constant(dim, 0), n);
}

/// Where the tuple at index `k` is not the greatest, the step leads to the
/// tuple at index `k + 1`, and that index is below `n^dim`. So the tuple
/// emitted at each place is the one that `from_index` gives for that place.
pub proof fn lemma_step_is_next_index(t: Seq<usize>, s: Seq<usize>, n: nat, k: nat)
    requires
        n <= usize::MAX,
        k < pow(n, t.len()),
        t == digits(k, t.len(), n),
        !is_top(t, n),
        is_rolled(t, s, n),
    ensures
        k + 1 < pow(n, t.len()),
        s == digits(k + 1, t.len(), n),
{
    lemma_value_of_digits(k, t.len(), n);
    let p = choose|p: int| #[trigger] is_bump_at(t, s, p, n) && (p == 0 || s[p] < n);
    lemma_bump_value(t, s, p, n);
    if s[0] == n {
        assert(p == 0);
        assert(t[0] + 1 == n);
        assert(is_top(t, n));
    }
    assert(s[0] <= n) by {
        if p == 0 {
            assert(t[0] < n);
        } else {
            assert(s[0] == t[0]);
        }
    }
    lemma_rolled_is_next(t, s, n);
    lemma_value_bound(s, n);
    lemma_digits_of_value(s, n);
}

/// The greatest tuple stands at index `n^dim - 1`: with the step from each
/// index to the next, exactly `n^dim` tuples are emitted.
pub proof fn lemma_last_is_index_max(t: Seq<usize>, n: nat)
    requires
        in_range(t, t.len(), n),
        is_top(t, n),
    ensures
        pow(n, t.len()) >= 1,
        t == digits((pow(n, t.len()) - 1) as nat, t.len(), n),
{
    lemma_top_value(t, n);
    lemma_digits_of_value(t, n);
}

/// Enumerates the `n^dim` tuples of `dim` values below `n`.
#[derive(Debug, Clone)]
pub struct Sequence {
    state: Vec<usize>,
    phase: Phase,
    dim: usize,
    n: usize,
}

impl Sequence {
    /// The number of positions of each tuple.
    pub closed spec fn dim(&self) -> nat {
        self.dim as nat
    }

    /// The exclusive upper bound of each value.
    pub closed spec fn bound(&self) -> nat {
        self.n as nat
    }

    /// Whether the enumeration has not started, is under way or has ended.
    pub closed spec fn phase(&self) -> Phase {
        self.phase
    }

    /// The state buffer; it is the current tuple while the phase is `Active`.
    pub closed spec fn tuple(&self) -> Seq<usize> {
        self.state@
    }

    /// The invariant of the enumerator: the state buffer has `dim`
    /// positions, it holds the first tuple before the start, and while the
    /// enumeration is under way it holds a tuple of the kind enumerated.
    pub closed spec fn wf(&self) -> bool {
        &&& self.state.len() == self.dim
        &&& self.phase == Phase::NotStarted ==> self.state@ == constant(self.dim as nat, 0)
        &&& self.phase == Phase::Active ==> in_range(self.state@, self.dim as nat, self.n as nat)
    }

    /// The tuple that `get` hands out, if any.
    pub open spec fn current(&self) -> Option<Seq<usize>> {
        if self.phase() == Phase::Active {
            Some(self.tuple())
        } else {
            None
        }
    }

    /// What one `advance` makes of `self`.
    pub open spec fn advances_to(&self, post: &Sequence) -> bool {
        &&& post.dim() == self.dim()
        &&& post.bound() == self.bound()
        &&& match self.phase() {
            Phase::NotStarted => if self.dim() > 0 && self.bound() == 0 {
                post.phase() == Phase::Finished && post.tuple() == self.tuple()
            } else {
                post.phase() == Phase::Active && post.tuple() == constant(self.dim(), 0)
            },
            Phase::Active => if is_top(self.tuple(), self.bound()) {
                &&& post.phase() == Phase::Finished
                &&& self.dim() == 0 ==> post.tuple() == self.tuple()
                &&& self.dim() > 0 ==> is_rolled(self.tuple(), post.tuple(), self.bound())
                    && post.tuple()[0] == self.bound()
            } else {
                &&& post.phase() == Phase::Active
                &&& is_rolled(self.tuple(), post.tuple(), self.bound())
                &&& is_next_in_range(self.tuple(), post.tuple(), self.bound())
            },
            Phase::Finished => post.phase() == Phase::Finished && post.tuple() == self.tuple(),
        }
    }

    pub fn new(dim: usize, n: usize) -> (r: Sequence)
        ensures
            r.wf(),
            r.dim() == dim,
            r.bound() == n,
            r.phase() == Phase::NotStarted,
            r.tuple() == constant(dim as nat, 0),
    {
        Sequence { state: filled(dim, 0), phase: Phase::NotStarted, dim, n }
    }

    /// Decodes the ordinal `idx` into the tuple at that place of the
    /// enumeration, or `None` where `idx` is `n^dim` or more.
    pub fn from_index(dim: usize, n: usize, idx: usize) -> (r: Option<Vec<usize>>)
        ensures
            match r {
                Some(v) => idx < pow(n as nat, dim as nat) && v@ == digits(
                    idx as nat,
                    dim as nat,
                    n as nat,
                ),
                None => idx >= pow(n as nat, dim as nat),
            },
    {
        if n == 0 {
            if dim == 0 && idx == 0 {
                return Some(Vec::new());
            }
            assert(dim > 0 ==> pow(0, dim as nat) == 0) by {
                if dim > 0 {
                    let rest = pow(0, (dim - 1) as nat);
                    assert(0 * rest == 0) by (nonlinear_arith);
                }
            }
            return None;
        }
        let mut vec = filled(dim, 0);
        let mut rem: usize = idx;
        let mut k: usize = dim;
        while k > 0
            invariant
                n > 0,
                k <= dim,
                vec.len() == dim,
                digits(idx as nat, dim as nat, n as nat) =~= digits(rem as nat, k as nat, n as nat)
                    + vec@.subrange(k as int, dim as int),
                (idx < pow(n as nat, dim as nat)) == (rem < pow(n as nat, k as nat)),
            decreases k,
        {
            let ghost before = vec@;
            let ghost p = pow(n as nat, (k - 1) as nat);
            assert((rem / n < p) == (rem < n * p)) by (nonlinear_arith)
                requires
                    n > 0,
            ;
            k -= 1;
            vec.set(k, rem % n);
            assert(vec@.subrange(k as int, dim as int) =~= seq![(rem % n) as usize]
                + before.subrange(k + 1, dim as int));
            rem = rem / n;
        }
        if rem != 0 {
            None
        } else {
            assert(vec@.subrange(0, dim as int) =~= vec@);
            Some(vec)
        }
    }

    /// Moves to the next tuple. The first call makes the all-zero tuple
    /// current; a call on the greatest tuple ends the enumeration. That last
    /// step still runs the odometer, so the buffer is left with `n` at the
    /// leading position and zero elsewhere. Every call after the end leaves
    /// phase and buffer as they are.
    pub fn advance(&mut self)
        requires
            old(self).wf(),
        ensures
            final(self).wf(),
            old(self).advances_to(final(self)),
    {
        match self.phase {
            Phase::NotStarted => {
                if self.dim > 0 && self.n == 0 {
                    self.phase = Phase::Finished;
                } else {
                    self.phase = Phase::Active;
                }
            },
            Phase::Active => {
                if self.dim == 0 {
                    self.phase = Phase::Finished;
                } else {
                    let ghost t = self.state@;
                    step(&mut self.state, self.n);
                    if self.state[0] >= self.n {
                        self.phase = Phase::Finished;
                    } else {
                        proof {
                            lemma_rolled_is_next(t, self.state@, self.n as nat);
                        }
                    }
                }
            },
            Phase::Finished => {},
        }
    }

    /// The current tuple, while there is one.
    pub fn get(&self) -> (r: Option<&[usize]>)
        requires
            self.wf(),
        ensures
            match r {
                Some(s) => self.current() == Some(s@) && in_range(s@, self.dim(), self.bound()),
                None => self.current().is_none(),
            },
    {
        match self.phase {
            Phase::Active => Some(self.state.as_slice()),
            _ => None,
        }
    }

    /// Advances, then hands out a copy of the current tuple.
    pub fn next(&mut self) -> (r: Option<Vec<usize>>)
        requires
            old(self).wf(),
        ensures
            final(self).wf(),
            old(self).advances_to(final(self)),
            match r {
                Some(v) => final(self).current() == Some(v@) && in_range(
                    v@,
                    final(self).dim(),
                    final(self).bound(),
                ),
                None => final(self).current().is_none(),
            },
    {
        self.advance();
        match self.phase {
            Phase::Active => Some(self.state.clone()),
            _ => None,
        }
    }
}

/// The states of one enumerator over a run: a fresh one first, then each
/// what `advance` made of the one before. The results of repeated calls
/// of `next` are the `current()` of these states, from the second on.
pub open spec fn is_trace(tr: Seq<Sequence>) -> bool {
    &&& tr.len() > 0
    &&& tr[0].wf()
    &&& tr[0].phase() == Phase::NotStarted
    &&& forall|i: int| 0 <= i < tr.len() - 1 ==> #[trigger] advanced_at(tr, i)
}

/// State `i + 1` of the run is what `advance` made of state `i`.
pub open spec fn advanced_at(tr: Seq<Sequence>, i: int) -> bool {
    tr[i].advances_to(&tr[i + 1])
}

/// How many tuples a run emits.
pub open spec fn count(dim: nat, n: nat) -> nat {
    pow(n, dim)
}

/// Where a run stands after `i` calls of `advance`: the calls from the
/// first to number `count(dim, n)` each leave the tuple that index `i - 1`
/// decodes to; every later call leaves the enumeration ended.
pub proof fn lemma_run_state(tr: Seq<Sequence>, i: int)
    requires
        is_trace(tr),
        0 <= i < tr.len(),
    ensures
        tr[i].dim() == tr[0].dim(),
        tr[i].bound() == tr[0].bound(),
        i == 0 ==> tr[i].phase() == Phase::NotStarted,
        1 <= i <= count(tr[0].dim(), tr[0].bound()) ==> tr[i].phase() == Phase::Active
            && tr[i].tuple() == digits((i - 1) as nat, tr[0].dim(), tr[0].bound()),
        i > count(tr[0].dim(), tr[0].bound()) ==> tr[i].phase() == Phase::Finished,
    decreases i,
{
    let dim = tr[0].dim();
    let n = tr[0].bound();
    if i > 0 {
        lemma_run_state(tr, i - 1);
        assert(advanced_at(tr, i - 1));
        let t = tr[i - 1].tuple();
        let s = tr[i].tuple();
        if i == 1 {
            if dim > 0 && n == 0 {
                let rest = pow(0, (dim - 1) as nat);
                assert(0 * rest == 0) by (nonlinear_arith);
            } else {
                lemma_first_is_index_zero(dim, n);
            }
        } else if i - 1 <= count(dim, n) {
            let k = (i - 2) as nat;
            lemma_value_of_digits(k, dim, n);
            if is_top(t, n) {
                lemma_top_value(t, n);
            } else {
                lemma_step_is_next_index(t, s, n, k);
            }
        }
    }
}

/// A run emits exactly `n^dim` tuples: `get` has a tuple after each of the
/// first `n^dim` calls of `advance`, and after no other.
pub proof fn lemma_run_count(tr: Seq<Sequence>, i: int)
    requires
        is_trace(tr),
        0 <= i < tr.len(),
    ensures
        tr[i].current().is_some() <==> 1 <= i <= count(tr[0].dim(), tr[0].bound()),
{
    lemma_run_state(tr, i);
}

/// What a run yields at its call number `k + 1` is what `from_index`
/// yields for `k`: the numeral of `k` while `k` is below `n^dim`, and
/// nothing from there on.
pub proof fn lemma_run_decodes(tr: Seq<Sequence>, k: nat)
    requires
        is_trace(tr),
        k + 1 < tr.len(),
    ensures
        tr[k as int + 1].current() == (if k < pow(tr[0].bound(), tr[0].dim()) {
            Some(digits(k, tr[0].dim(), tr[0].bound()))
        } else {
            None::<Seq<usize>>
        }),
{
    lemma_run_state(tr, k as int + 1);
}

/// A run emits no tuple twice.
pub proof fn lemma_run_distinct(tr: Seq<Sequence>, i: int, j: int)
    requires
        is_trace(tr),
        0 <= i < j < tr.len(),
        tr[i].current().is_some(),
    ensures
        tr[i].current() != tr[j].current(),
{
    let dim = tr[0].dim();
    let n = tr[0].bound();
    lemma_run_state(tr, i);
    lemma_run_state(tr, j);
    if tr[j].current().is_some() {
        lemma_value_of_digits((i - 1) as nat, dim, n);
        lemma_value_of_digits((j - 1) as nat, dim, n);
    }
}

/// A run that has ended emitted every tuple of `dim` values below `n`.
pub proof fn lemma_run_complete(tr: Seq<Sequence>, u: Seq<usize>)
    requires
        is_trace(tr),
        tr[tr.len() - 1].phase() == Phase::Finished,
        in_range(u, tr[0].dim(), tr[0].bound()),
    ensures
        exists|j: int| 0 <= j < tr.len() && #[trigger] tr[j].current() == Some(u),
{
    let n = tr[0].bound();
    let k = value(u, n);
    lemma_value_bound(u, n);
    lemma_digits_of_value(u, n);
    lemma_run_state(tr, tr.len() - 1);
    lemma_run_state(tr, k as int + 1);
    assert(tr[k as int + 1].current() == Some(u));
}

} // verus!
