use vstd::prelude::*;

verus! {

/// Number of `true` entries.
pub open spec fn count_true(s: Seq<bool>) -> nat
    decreases s.len(),
{
    if s.len() == 0 {
        0
    } else {
        count_true(s.drop_last()) + if s.last() {
            1nat
        } else {
            0nat
        }
    }
}

/// Number of `true` entries over all rows.
pub open spec fn count_rows(m: Seq<Seq<bool>>) -> nat
    decreases m.len(),
{
    if m.len() == 0 {
        0
    } else {
        count_rows(m.drop_last()) + count_true(m.last())
    }
}

/// The rows of a boolean matrix.
pub open spec fn rows(m: Vec<Vec<bool>>) -> Seq<Seq<bool>> {
    m@.map_values(|r: Vec<bool>| r@)
}

/// Every `true` of `a` is a `true` of `b`.
pub open spec fn below(a: Seq<bool>, b: Seq<bool>) -> bool {
    forall|i: int| 0 <= i < a.len() && #[trigger] a[i] ==> i < b.len() && b[i]
}

/// Entry-wise `below` for matrices.
pub open spec fn below2(a: Seq<Seq<bool>>, b: Seq<Seq<bool>>) -> bool {
    forall|i: int, j: int|
        0 <= i < a.len() && 0 <= j < a[i].len() && #[trigger] a[i][j] ==> i < b.len() && j
            < b[i].len() && b[i][j]
}

/// A matrix of `r` rows of `c` entries each.
pub open spec fn is_grid(m: Seq<Seq<bool>>, r: nat, c: nat) -> bool {
    m.len() == r && forall|i: int| 0 <= i < r ==> (#[trigger] m[i]).len() == c
}

/// At most every entry is `true`.
pub proof fn lemma_count_true_bound(s: Seq<bool>)
    ensures
        count_true(s) <= s.len(),
    decreases s.len(),
{
    if s.len() > 0 {
        lemma_count_true_bound(s.drop_last());
    }
}

/// No entry is `true`.
pub proof fn lemma_count_true_zero(s: Seq<bool>)
    requires
        forall|i: int| 0 <= i < s.len() ==> !s[i],
    ensures
        count_true(s) == 0,
    decreases s.len(),
{
    if s.len() > 0 {
        lemma_count_true_zero(s.drop_last());
    }
}

/// Setting a `false` entry adds one.
pub proof fn lemma_count_true_set(s: Seq<bool>, i: int)
    requires
        0 <= i < s.len(),
        !s[i],
    ensures
        count_true(s.update(i, true)) == count_true(s) + 1,
    decreases s.len(),
{
    let u = s.update(i, true);
    if i == s.len() - 1 {
        assert(u.drop_last() =~= s.drop_last());
    } else {
        assert(u.drop_last() =~= s.drop_last().update(i, true));
        lemma_count_true_set(s.drop_last(), i);
    }
}

/// At most every entry of `m.len()` rows of `c` entries is `true`.
pub proof fn lemma_count_rows_bound(m: Seq<Seq<bool>>, c: nat)
    requires
        forall|i: int| 0 <= i < m.len() ==> (#[trigger] m[i]).len() == c,
    ensures
        count_rows(m) <= m.len() * c,
    decreases m.len(),
{
    if m.len() > 0 {
        lemma_count_rows_bound(m.drop_last(), c);
        lemma_count_true_bound(m.last());
        assert((m.len() - 1) * c + c == m.len() * c) by (nonlinear_arith);
    }
}

/// Setting a `false` entry of a matrix adds one.
pub proof fn lemma_count_rows_set(m: Seq<Seq<bool>>, a: int, t: int)
    requires
        0 <= a < m.len(),
        0 <= t < m[a].len(),
        !m[a][t],
    ensures
        count_rows(m.update(a, m[a].update(t, true))) == count_rows(m) + 1,
    decreases m.len(),
{
    let u = m.update(a, m[a].update(t, true));
    if a == m.len() - 1 {
        assert(u.drop_last() =~= m.drop_last());
        lemma_count_true_set(m[a], t);
    } else {
        assert(u.drop_last() =~= m.drop_last().update(a, m[a].update(t, true)));
        lemma_count_rows_set(m.drop_last(), a, t);
    }
}

/// A vector of `n` times `false`.
pub fn falses(n: usize) -> (v: Vec<bool>)
    ensures
        v@.len() == n,
        forall|i: int| 0 <= i < n ==> !v@[i],
{
    let mut v: Vec<bool> = Vec::new();
    let mut i: usize = 0;
    while i < n
        invariant
            i <= n,
            v@.len() == i,
            forall|j: int| 0 <= j < i ==> !v@[j],
        decreases n - i,
    {
        v.push(false);
        i = i + 1;
    }
    v
}

/// A matrix of `r` rows of `c` times `false`.
pub fn false_grid(r: usize, c: usize) -> (m: Vec<Vec<bool>>)
    ensures
        is_grid(rows(m), r as nat, c as nat),
        forall|i: int, j: int| 0 <= i < r && 0 <= j < c ==> !rows(m)[i][j],
{
    let mut m: Vec<Vec<bool>> = Vec::new();
    let mut i: usize = 0;
    while i < r
        invariant
            i <= r,
            m@.len() == i,
            forall|k: int| 0 <= k < i ==> (#[trigger] m@[k])@.len() == c,
            forall|k: int, j: int| 0 <= k < i && 0 <= j < c ==> !m@[k]@[j],
        decreases r - i,
    {
        m.push(falses(c));
        i = i + 1;
    }
    m
}

/// Sets entry `(a, t)`.
pub fn set_cell(m: &mut Vec<Vec<bool>>, a: usize, t: usize)
    requires
        a < old(m)@.len(),
        t < old(m)@[a as int]@.len(),
    ensures
        rows(*final(m)) == rows(*old(m)).update(a as int, rows(*old(m))[a as int].update(
            t as int,
            true,
        )),
{
    m[a].set(t, true);
    proof {
        assert(rows(*m) =~= rows(*old(m)).update(a as int, rows(*old(m))[a as int].update(
            t as int,
            true,
        )));
    }
}

} // verus!
