//! Lexicographic order on tuples of indices, and the facts about it that the
//! enumerators rest on.
use vstd::prelude::*;

verus! {

/// `t` has `dim` positions and every value is below `n`.
pub open spec fn in_range(t: Seq<usize>, dim: nat, n: nat) -> bool {
    &&& t.len() == dim
    &&& forall|i: int| 0 <= i < t.len() ==> t[i] < n
}

/// `a` and `b` hold the same value at every position below `k`.
pub open spec fn agree_below(a: Seq<usize>, b: Seq<usize>, k: int) -> bool {
    forall|i: int| 0 <= i < k ==> a[i] == b[i]
}

/// `k` is the first position at which `a` and `b` differ, and `a` is smaller there.
pub open spec fn lex_lt_at(a: Seq<usize>, b: Seq<usize>, k: int) -> bool {
    &&& 0 <= k < a.len()
    &&& k < b.len()
    &&& agree_below(a, b, k)
    &&& a[k] < b[k]
}

/// `a` comes strictly before `b` in lexicographic order.
pub open spec fn lex_lt(a: Seq<usize>, b: Seq<usize>) -> bool {
    exists|k: int| lex_lt_at(a, b, k)
}

/// The tuple that holds `value` at each of `dim` positions.
pub open spec fn constant(dim: nat, value: usize) -> Seq<usize> {
    Seq::new(dim, |i: int| value)
}

/// The tuple `from, from + 1, .., from + dim - 1`.
pub open spec fn ascending(dim: nat, from: nat) -> Seq<usize> {
    Seq::new(dim, |i: int| (from + i) as usize)
}

/// The tuple `top - 1, top - 2, .., top - dim`.
pub open spec fn descending(dim: nat, top: nat) -> Seq<usize> {
    Seq::new(dim, |i: int| (top - 1 - i) as usize)
}

proof fn lemma_compare_from(a: Seq<usize>, b: Seq<usize>, k: int)
    requires
        a.len() == b.len(),
        0 <= k <= a.len(),
        agree_below(a, b, k),
    ensures
        a == b || lex_lt(a, b) || lex_lt(b, a),
    decreases a.len() - k,
{
    if k == a.len() {
        assert(a =~= b);
    } else if a[k] == b[k] {
        lemma_compare_from(a, b, k + 1);
    } else if a[k] < b[k] {
        assert(lex_lt_at(a, b, k));
    } else {
        assert(lex_lt_at(b, a, k));
    }
}

/// Two tuples of one length are equal, or one comes before the other.
pub proof fn lemma_lex_total(a: Seq<usize>, b: Seq<usize>)
    requires
        a.len() == b.len(),
    ensures
        a == b || lex_lt(a, b) || lex_lt(b, a),
{
    lemma_compare_from(a, b, 0);
}

/// No tuple comes before itself, and no two tuples come before each other:
/// tuples that are emitted in strictly rising order are all distinct.
pub proof fn lemma_lex_asymmetric(a: Seq<usize>, b: Seq<usize>)
    requires
        lex_lt(a, b),
    ensures
        a != b,
        !lex_lt(b, a),
{
    let k = choose|k: int| lex_lt_at(a, b, k);
    if lex_lt(b, a) {
        let j = choose|j: int| lex_lt_at(b, a, j);
        assert(a[k] < b[k]);
        assert(b[j] < a[j]);
        if j < k {
            assert(a[j] == b[j]);
        } else if k < j {
            assert(b[k] == a[k]);
        }
    }
}

/// The order is transitive.
pub proof fn lemma_lex_transitive(a: Seq<usize>, b: Seq<usize>, c: Seq<usize>)
    requires
        lex_lt(a, b),
        lex_lt(b, c),
    ensures
        lex_lt(a, c),
{
    let k = choose|k: int| lex_lt_at(a, b, k);
    let j = choose|j: int| lex_lt_at(b, c, j);
    let m = if k <= j { k } else { j };
    assert(a[k] < b[k]);
    assert(b[j] < c[j]);
    assert forall|i: int| 0 <= i < m implies a[i] == c[i] by {
        assert(a[i] == b[i]);
        assert(b[i] == c[i]);
    }
    if k < j {
        assert(b[k] == c[k]);
    } else if j < k {
        assert(a[j] == b[j]);
    }
    assert(lex_lt_at(a, c, m));
}

/// Builds `constant(dim, value)`.
pub fn filled(dim: usize, value: usize) -> (r: Vec<usize>)
    ensures
        r@ == constant(dim as nat, value),
{
    let mut r: Vec<usize> = Vec::new();
    let mut i: usize = 0;
    while i < dim
        invariant
            i <= dim,
            r.len() == i,
            forall|j: int| 0 <= j < i ==> r@[j] == value,
        decreases dim - i,
    {
        r.push(value);
        i += 1;
    }
    assert(r@ =~= constant(dim as nat, value));
    r
}

/// Builds `ascending(dim, from)`.
pub fn counting_up(dim: usize, from: usize) -> (r: Vec<usize>)
    requires
        from + dim <= usize::MAX,
    ensures
        r@ == ascending(dim as nat, from as nat),
{
    let mut r: Vec<usize> = Vec::new();
    let mut i: usize = 0;
    while i < dim
        invariant
            i <= dim,
            from + dim <= usize::MAX,
            r.len() == i,
            forall|j: int| 0 <= j < i ==> r@[j] == from + j,
        decreases dim - i,
    {
        r.push(from + i);
        i += 1;
    }
    assert(r@ =~= ascending(dim as nat, from as nat));
    r
}

/// Builds `descending(dim, top)`.
pub fn counting_down(dim: usize, top: usize) -> (r: Vec<usize>)
    requires
        dim <= top,
    ensures
        r@ == descending(dim as nat, top as nat),
{
    let mut r: Vec<usize> = Vec::new();
    let mut i: usize = 0;
    while i < dim
        invariant
            i <= dim,
            dim <= top,
            r.len() == i,
            forall|j: int| 0 <= j < i ==> r@[j] == top - 1 - j,
        decreases dim - i,
    {
        r.push(top - 1 - i);
        i += 1;
    }
    assert(r@ =~= descending(dim as nat, top as nat));
    r
}

/// Whether two vectors hold the same tuple.
pub fn same_tuple(a: &Vec<usize>, b: &Vec<usize>) -> (r: bool)
    ensures
        r == (a@ == b@),
{
    if a.len() != b.len() {
        return false;
    }
    let mut i: usize = 0;
    while i < a.len()
        invariant
            a.len() == b.len(),
            i <= a.len(),
            agree_below(a@, b@, i as int),
        decreases a.len() - i,
    {
        if a[i] != b[i] {
            return false;
        }
        i += 1;
    }
    assert(a@ =~= b@);
    true
}

} // verus!
