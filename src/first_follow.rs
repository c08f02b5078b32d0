use crate::bits::{
    below, below2, count_rows, count_true, false_grid, falses, is_grid, lemma_count_rows_bound,
    lemma_count_rows_set, lemma_count_true_bound, lemma_count_true_set, rows, set_cell,
};
use crate::grammar::{Classes, Grammar};
use vstd::prelude::*;

verus! {

/// `x` derives the empty string according to `nul`; terminals never do.
pub open spec fn nullable_sym(g: &Grammar, nul: Seq<bool>, x: usize) -> bool {
    g.is_nonterminal(x as int) && nul[x as int]
}

/// Every symbol of `s` is nullable according to `nul`.
pub open spec fn all_nullable(g: &Grammar, nul: Seq<bool>, s: Seq<usize>) -> bool {
    forall|i: int| 0 <= i < s.len() ==> #[trigger] nullable_sym(g, nul, s[i])
}

/// Terminal `t` begins `x` according to `fst`: FIRST of a terminal is itself.
pub open spec fn first_sym(g: &Grammar, fst: Seq<Seq<bool>>, x: usize, t: int) -> bool {
    if g.is_nonterminal(x as int) {
        fst[x as int][t]
    } else {
        x as int == t
    }
}

/// Terminal `t` is in FIRST of the sentence `s`: it begins some symbol of `s`
/// that only nullable symbols precede.
pub open spec fn first_seq(
    g: &Grammar,
    nul: Seq<bool>,
    fst: Seq<Seq<bool>>,
    s: Seq<usize>,
    t: int,
) -> bool {
    exists|i: int|
        0 <= i < s.len() && all_nullable(g, nul, s.take(i)) && #[trigger] first_sym(
            g,
            fst,
            s[i],
            t,
        )
}

/// `nul` is closed under the rule: a production whose body is all nullable makes
/// its origin nullable (an epsilon production in particular).
pub open spec fn nullable_closed(g: &Grammar, nul: Seq<bool>) -> bool {
    &&& nul.len() == g.nsym()
    &&& forall|k: int|
        0 <= k < g.nrules() && #[trigger] all_nullable(g, nul, g.body(k)) ==> nul[g.origin(
            k,
        ) as int]
}

/// `(nul, fst)` is closed under the FIRST rules: FIRST of each body is part of
/// FIRST of its origin, and epsilon is when the whole body is nullable.
pub open spec fn first_closed(g: &Grammar, nul: Seq<bool>, fst: Seq<Seq<bool>>) -> bool {
    &&& nullable_closed(g, nul)
    &&& is_grid(fst, g.nsym(), g.nsym())
    &&& forall|k: int, t: int|
        0 <= k < g.nrules() && 0 <= t < g.nsym() && #[trigger] first_seq(
            g,
            nul,
            fst,
            g.body(k),
            t,
        ) ==> fst[g.origin(k) as int][t]
}

/// `(nul, fst)` lies below every closed pair: it is the least fixed point.
pub open spec fn first_least(g: &Grammar, nul: Seq<bool>, fst: Seq<Seq<bool>>) -> bool {
    forall|n2: Seq<bool>, f2: Seq<Seq<bool>>|
        #[trigger] first_closed(g, n2, f2) ==> below(nul, n2) && below2(fst, f2)
}

/// FIRST sets: `nullable[a]` says that epsilon is in FIRST(a), `first[a][t]` that
/// terminal `t` is.
pub struct FirstSets {
    pub nullable: Vec<bool>,
    pub first: Vec<Vec<bool>>,
}

impl FirstSets {
    pub open spec fn nul(&self) -> Seq<bool> {
        self.nullable@
    }

    pub open spec fn fst(&self) -> Seq<Seq<bool>> {
        rows(self.first)
    }

    /// These are the FIRST sets of `g`.
    pub open spec fn of(&self, g: &Grammar) -> bool {
        first_closed(g, self.nul(), self.fst()) && first_least(g, self.nul(), self.fst())
    }
}

proof fn lemma_all_nullable_mono(g: &Grammar, n1: Seq<bool>, n2: Seq<bool>, s: Seq<usize>)
    requires
        all_nullable(g, n1, s),
        below(n1, n2),
        forall|i: int| 0 <= i < s.len() ==> s[i] < n1.len(),
    ensures
        all_nullable(g, n2, s),
{
    assert forall|i: int| 0 <= i < s.len() implies #[trigger] nullable_sym(g, n2, s[i]) by {
        assert(nullable_sym(g, n1, s[i]));
    }
}

/// Whether the whole of `s` is nullable according to `nul`.
fn all_nullable_exec(g: &Grammar, c: &Classes, nul: &Vec<bool>, s: &Vec<usize>) -> (r: bool)
    requires
        g.wf(),
        c.matches(g),
        nul@.len() == g.nsym(),
        forall|i: int| 0 <= i < s@.len() ==> s@[i] < g.nsym(),
    ensures
        r == all_nullable(g, nul@, s@),
{
    let mut i: usize = 0;
    while i < s.len()
        invariant
            c.matches(g),
            nul@.len() == g.nsym(),
            forall|j: int| 0 <= j < s@.len() ==> s@[j] < g.nsym(),
            i <= s@.len(),
            all_nullable(g, nul@, s@.take(i as int)),
        decreases s@.len() - i,
    {
        let x = s[i];
        if !(c.nonterminal[x] && nul[x]) {
            assert(!nullable_sym(g, nul@, s@[i as int]));
            return false;
        }
        proof {
            let t = s@.take(i + 1);
            assert forall|j: int| 0 <= j < t.len() implies #[trigger] nullable_sym(g, nul@, t[j]) by {
                if j < i {
                    assert(s@.take(i as int)[j] == t[j]);
                }
            }
        }
        i = i + 1;
    }
    assert(s@.take(i as int) =~= s@);
    true
}

/// Least solution of the nullable rules.
fn compute_nullable(g: &Grammar, c: &Classes) -> (nul: Vec<bool>)
    requires
        g.wf(),
        c.matches(g),
    ensures
        nullable_closed(g, nul@),
        forall|n2: Seq<bool>| #[trigger] nullable_closed(g, n2) ==> below(nul@, n2),
{
    let n = g.names.len();
    let mut nul = falses(n);
    loop
        invariant
            g.wf(),
            c.matches(g),
            n == g.nsym(),
            nul@.len() == n,
            forall|n2: Seq<bool>| #[trigger] nullable_closed(g, n2) ==> below(nul@, n2),
        ensures
            nullable_closed(g, nul@),
            forall|n2: Seq<bool>| #[trigger] nullable_closed(g, n2) ==> below(nul@, n2),
        decreases n - count_true(nul@),
    {
        let ghost nul0 = nul@;
        let mut changed = false;
        let mut k: usize = 0;
        while k < g.rules.len()
            invariant
                g.wf(),
                c.matches(g),
                n == g.nsym(),
                nul@.len() == n,
                k <= g.nrules(),
                forall|n2: Seq<bool>| #[trigger] nullable_closed(g, n2) ==> below(nul@, n2),
                count_true(nul@) >= count_true(nul0),
                changed ==> count_true(nul@) > count_true(nul0),
                !changed ==> nul@ == nul0,
                !changed ==> forall|j: int|
                    0 <= j < k && #[trigger] all_nullable(g, nul@, g.body(j)) ==> nul@[g.origin(
                        j,
                    ) as int],
            decreases g.nrules() - k,
        {
            let rule = &g.rules[k];
            let a = rule.origin;
            assert(g.origin(k as int) < n);
            assert forall|i: int| 0 <= i < rule.body@.len() implies rule.body@[i] < g.nsym() by {
                assert(g.body(k as int)[i] < g.nsym());
            }
            if !nul[a] && all_nullable_exec(g, c, &nul, &rule.body) {
                proof {
                    lemma_count_true_set(nul@, a as int);
                    assert forall|n2: Seq<bool>| #[trigger] nullable_closed(g, n2) implies below(
                        nul@.update(a as int, true),
                        n2,
                    ) by {
                        lemma_all_nullable_mono(g, nul@, n2, g.body(k as int));
                    }
                }
                nul.set(a, true);
                changed = true;
            }
            k = k + 1;
        }
        if !changed {
            break;
        }
        proof {
            lemma_count_true_bound(nul@);
        }
    }
    nul
}

proof fn lemma_first_sym_mono(
    g: &Grammar,
    f1: Seq<Seq<bool>>,
    f2: Seq<Seq<bool>>,
    x: usize,
    t: int,
)
    requires
        first_sym(g, f1, x, t),
        below2(f1, f2),
        x < f1.len(),
        0 <= t < f1[x as int].len(),
    ensures
        first_sym(g, f2, x, t),
{
}

/// A terminal that the rules put into FIRST of body `k` lies in FIRST of its origin
/// for every closed pair above `(nul, fst)`.
proof fn lemma_first_step_sound(
    g: &Grammar,
    nul: Seq<bool>,
    fst: Seq<Seq<bool>>,
    n2: Seq<bool>,
    f2: Seq<Seq<bool>>,
    k: int,
    i: int,
    t: int,
)
    requires
        g.wf(),
        0 <= k < g.nrules(),
        0 <= i < g.body(k).len(),
        0 <= t < g.nsym(),
        nul.len() == g.nsym(),
        is_grid(fst, g.nsym(), g.nsym()),
        all_nullable(g, nul, g.body(k).take(i)),
        first_sym(g, fst, g.body(k)[i], t),
        first_closed(g, n2, f2),
        below(nul, n2),
        below2(fst, f2),
    ensures
        f2[g.origin(k) as int][t],
{
    let b = g.body(k);
    assert forall|j: int| 0 <= j < b.take(i).len() implies b.take(i)[j] < nul.len() by {
        assert(b[j] < g.nsym());
    }
    lemma_all_nullable_mono(g, nul, n2, b.take(i));
    assert(b[i] < g.nsym());
    lemma_first_sym_mono(g, fst, f2, b[i], t);
    assert(first_seq(g, n2, f2, b, t));
}

/// Computes the FIRST sets of every symbol of `g` as the least fixed point of the
/// FIRST rules.
pub fn get_firsts(g: &Grammar, c: &Classes) -> (fs: FirstSets)
    requires
        g.wf(),
        c.matches(g),
    ensures
        fs.of(g),
{
    let n = g.names.len();
    let nul = compute_nullable(g, c);
    let mut fst = false_grid(n, n);
    loop
        invariant
            g.wf(),
            c.matches(g),
            n == g.nsym(),
            nullable_closed(g, nul@),
            forall|n2: Seq<bool>| #[trigger] nullable_closed(g, n2) ==> below(nul@, n2),
            is_grid(rows(fst), n as nat, n as nat),
            forall|n2: Seq<bool>, f2: Seq<Seq<bool>>|
                #[trigger] first_closed(g, n2, f2) ==> below2(rows(fst), f2),
        ensures
            is_grid(rows(fst), n as nat, n as nat),
            forall|n2: Seq<bool>, f2: Seq<Seq<bool>>|
                #[trigger] first_closed(g, n2, f2) ==> below2(rows(fst), f2),
            forall|k: int, t: int|
                0 <= k < g.nrules() && 0 <= t < g.nsym() && #[trigger] first_seq(
                    g,
                    nul@,
                    rows(fst),
                    g.body(k),
                    t,
                ) ==> rows(fst)[g.origin(k) as int][t],
        decreases n * n - count_rows(rows(fst)),
    {
        let ghost f0 = rows(fst);
        let mut changed = false;
        let mut k: usize = 0;
        while k < g.rules.len()
            invariant
                g.wf(),
                c.matches(g),
                n == g.nsym(),
                nul@.len() == n,
                is_grid(rows(fst), n as nat, n as nat),
                forall|n2: Seq<bool>, f2: Seq<Seq<bool>>|
                    #[trigger] first_closed(g, n2, f2) ==> below2(rows(fst), f2),
                forall|n2: Seq<bool>| #[trigger] nullable_closed(g, n2) ==> below(nul@, n2),
                k <= g.nrules(),
                count_rows(rows(fst)) >= count_rows(f0),
                changed ==> count_rows(rows(fst)) > count_rows(f0),
                !changed ==> rows(fst) == f0,
                !changed ==> forall|j: int, t: int|
                    0 <= j < k && 0 <= t < g.nsym() && #[trigger] first_seq(
                        g,
                        nul@,
                        rows(fst),
                        g.body(j),
                        t,
                    ) ==> rows(fst)[g.origin(j) as int][t],
            decreases g.nrules() - k,
        {
            let rule = &g.rules[k];
            let a = rule.origin;
            assert(g.origin(k as int) < n);
            let ghost b = g.body(k as int);
            let mut i: usize = 0;
            let mut go = true;
            while go && i < rule.body.len()
                invariant
                    g.wf(),
                    c.matches(g),
                    n == g.nsym(),
                    nul@.len() == n,
                    is_grid(rows(fst), n as nat, n as nat),
                    forall|n2: Seq<bool>, f2: Seq<Seq<bool>>|
                        #[trigger] first_closed(g, n2, f2) ==> below2(rows(fst), f2),
                    forall|n2: Seq<bool>| #[trigger] nullable_closed(g, n2) ==> below(nul@, n2),
                    k < g.nrules(),
                    rule == g.rules@[k as int],
                    b == rule.body@,
                    a == g.origin(k as int),
                    a < n,
                    i <= b.len(),
                    go ==> all_nullable(g, nul@, b.take(i as int)),
                    !go ==> i >= 1 && !nullable_sym(g, nul@, b[i - 1]),
                    count_rows(rows(fst)) >= count_rows(f0),
                    changed ==> count_rows(rows(fst)) > count_rows(f0),
                    !changed ==> rows(fst) == f0,
                    !changed ==> forall|j: int, t: int|
                        0 <= j < k && 0 <= t < g.nsym() && #[trigger] first_seq(
                            g,
                            nul@,
                            rows(fst),
                            g.body(j),
                            t,
                        ) ==> rows(fst)[g.origin(j) as int][t],
                    !changed ==> forall|j: int, t: int|
                        0 <= j < i && 0 <= t < g.nsym() && #[trigger] first_sym(
                            g,
                            rows(fst),
                            b[j],
                            t,
                        ) ==> rows(fst)[a as int][t],
                decreases b.len() - i,
            {
                let x = rule.body[i];
                assert(g.body(k as int)[i as int] < n);
                assert(rows(fst)[a as int].len() == n && rows(fst)[x as int].len() == n);
                if c.nonterminal[x] {
                    let mut t: usize = 0;
                    while t < n
                        invariant
                            g.wf(),
                            c.matches(g),
                            n == g.nsym(),
                            nul@.len() == n,
                            is_grid(rows(fst), n as nat, n as nat),
                            forall|n2: Seq<bool>, f2: Seq<Seq<bool>>|
                                #[trigger] first_closed(g, n2, f2) ==> below2(rows(fst), f2),
                            k < g.nrules(),
                            b == g.body(k as int),
                            a == g.origin(k as int),
                            a < n,
                            i < b.len(),
                            x == b[i as int],
                            x < n,
                            g.is_nonterminal(x as int),
                            go ==> all_nullable(g, nul@, b.take(i as int)),
                            go,
                            t <= n,
                            count_rows(rows(fst)) >= count_rows(f0),
                            changed ==> count_rows(rows(fst)) > count_rows(f0),
                            !changed ==> rows(fst) == f0,
                            !changed ==> forall|t2: int|
                                0 <= t2 < t && rows(fst)[x as int][t2] ==> rows(fst)[a as int][t2],
                            forall|n2: Seq<bool>| #[trigger] nullable_closed(g, n2) ==> below(nul@, n2),
                            !changed ==> forall|j: int, t2: int|
                                0 <= j < k && 0 <= t2 < g.nsym() && #[trigger] first_seq(
                                    g,
                                    nul@,
                                    rows(fst),
                                    g.body(j),
                                    t2,
                                ) ==> rows(fst)[g.origin(j) as int][t2],
                            !changed ==> forall|j: int, t2: int|
                                0 <= j < i && 0 <= t2 < g.nsym() && #[trigger] first_sym(
                                    g,
                                    rows(fst),
                                    b[j],
                                    t2,
                                ) ==> rows(fst)[a as int][t2],
                        decreases n - t,
                    {
                        assert(rows(fst)[a as int].len() == n && rows(fst)[x as int].len() == n);
                        if fst[x][t] && !fst[a][t] {
                            proof {
                                lemma_count_rows_set(rows(fst), a as int, t as int);
                                assert(first_sym(g, rows(fst), b[i as int], t as int));
                                assert forall|n2: Seq<bool>, f2: Seq<Seq<bool>>|
                                    #[trigger] first_closed(g, n2, f2) implies f2[a as int][t as int] by {
                                    lemma_first_step_sound(g, nul@, rows(fst), n2, f2, k as int, i as int, t as int);
                                }
                            }
                            set_cell(&mut fst, a, t);
                            changed = true;
                        }
                        t = t + 1;
                    }
                } else {
                    if !fst[a][x] {
                        proof {
                            lemma_count_rows_set(rows(fst), a as int, x as int);
                            assert(first_sym(g, rows(fst), b[i as int], x as int));
                            assert forall|n2: Seq<bool>, f2: Seq<Seq<bool>>|
                                #[trigger] first_closed(g, n2, f2) implies f2[a as int][x as int] by {
                                lemma_first_step_sound(g, nul@, rows(fst), n2, f2, k as int, i as int, x as int);
                            }
                        }
                        set_cell(&mut fst, a, x);
                        changed = true;
                    }
                }
                if !(c.nonterminal[x] && nul[x]) {
                    go = false;
                }
                proof {
                    if go {
                        let tk = b.take(i + 1);
                        assert forall|j: int| 0 <= j < tk.len() implies #[trigger] nullable_sym(g, nul@, tk[j]) by {
                            if j < i {
                                assert(b.take(i as int)[j] == tk[j]);
                            }
                        }
                    }
                }
                i = i + 1;
            }
            proof {
                if !changed {
                    assert forall|t: int| 0 <= t < g.nsym() && #[trigger] first_seq(g, nul@, rows(fst), b, t)
                        implies rows(fst)[a as int][t] by {
                        let i0 = choose|i0: int| 0 <= i0 < b.len() && all_nullable(g, nul@, b.take(i0))
                            && #[trigger] first_sym(g, rows(fst), b[i0], t);
                        if i0 >= i {
                            assert(!go);
                            assert(b.take(i0)[i - 1] == b[i - 1]);
                            assert(nullable_sym(g, nul@, b.take(i0)[i - 1]));
                        }
                    }
                }
            }
            k = k + 1;
        }
        if !changed {
            break;
        }
        proof {
            lemma_count_rows_bound(rows(fst), n as nat);
        }
    }
    let fs = FirstSets { nullable: nul, first: fst };
    proof {
        assert(first_closed(g, fs.nul(), fs.fst()));
    }
    fs
}

/// The FOLLOW rules for the occurrence of a non-terminal at position `i` of body `k`,
/// `B -> alpha A beta`: FIRST(beta) is in FOLLOW(A), and so is FOLLOW(B) when beta
/// derives the empty string.
pub open spec fn follow_ok_at(
    g: &Grammar,
    nul: Seq<bool>,
    fst: Seq<Seq<bool>>,
    fol: Seq<Seq<bool>>,
    k: int,
    i: int,
) -> bool {
    let a = g.body(k)[i] as int;
    let beta = g.body(k).skip(i + 1);
    g.is_nonterminal(a) ==> {
        &&& forall|t: int|
            0 <= t < g.nsym() && #[trigger] first_seq(g, nul, fst, beta, t) ==> fol[a][t]
        &&& all_nullable(g, nul, beta) ==> forall|t: int|
            0 <= t <= g.nsym() && #[trigger] fol[g.origin(k) as int][t] ==> fol[a][t]
    }
}

/// `fol` is closed under the FOLLOW rules of `g`, given the FIRST sets `(nul, fst)`;
/// column `nsym()` is the end marker, which follows the start symbol.
pub open spec fn follow_closed(
    g: &Grammar,
    nul: Seq<bool>,
    fst: Seq<Seq<bool>>,
    fol: Seq<Seq<bool>>,
) -> bool {
    &&& is_grid(fol, g.nsym(), g.nsym() + 1)
    &&& fol[g.start as int][g.nsym() as int]
    &&& forall|k: int, i: int|
        0 <= k < g.nrules() && 0 <= i < g.body(k).len() ==> #[trigger] follow_ok_at(
            g,
            nul,
            fst,
            fol,
            k,
            i,
        )
}

/// `fol` lies below every closed table: it is the least fixed point.
pub open spec fn follow_least(
    g: &Grammar,
    nul: Seq<bool>,
    fst: Seq<Seq<bool>>,
    fol: Seq<Seq<bool>>,
) -> bool {
    forall|f2: Seq<Seq<bool>>| #[trigger] follow_closed(g, nul, fst, f2) ==> below2(fol, f2)
}

/// Whether terminal `t` begins symbol `x`.
fn first_sym_exec(g: &Grammar, c: &Classes, fs: &FirstSets, x: usize, t: usize) -> (r: bool)
    requires
        g.wf(),
        c.matches(g),
        is_grid(fs.fst(), g.nsym(), g.nsym()),
        x < g.nsym(),
        t < g.nsym(),
    ensures
        r == first_sym(g, fs.fst(), x, t as int),
{
    if c.nonterminal[x] {
        assert(fs.fst()[x as int].len() == g.nsym());
        fs.first[x][t]
    } else {
        x == t
    }
}

/// Applies the FOLLOW rules of position `i` of body `k` to `fol`. Returns whether
/// `fol` grew; when it did not, those rules hold of it.
fn follow_at(g: &Grammar, c: &Classes, fs: &FirstSets, fol: &mut Vec<Vec<bool>>, k: usize, i: usize) -> (changed: bool)
    requires
        g.wf(),
        c.matches(g),
        first_closed(g, fs.nul(), fs.fst()),
        k < g.nrules(),
        i < g.body(k as int).len(),
        is_grid(rows(*old(fol)), g.nsym(), g.nsym() + 1),
        rows(*old(fol))[g.start as int][g.nsym() as int],
        forall|f2: Seq<Seq<bool>>|
            #[trigger] follow_closed(g, fs.nul(), fs.fst(), f2) ==> below2(rows(*old(fol)), f2),
    ensures
        is_grid(rows(*final(fol)), g.nsym(), g.nsym() + 1),
        rows(*final(fol))[g.start as int][g.nsym() as int],
        forall|f2: Seq<Seq<bool>>|
            #[trigger] follow_closed(g, fs.nul(), fs.fst(), f2) ==> below2(rows(*final(fol)), f2),
        count_rows(rows(*final(fol))) >= count_rows(rows(*old(fol))),
        changed ==> count_rows(rows(*final(fol))) > count_rows(rows(*old(fol))),
        !changed ==> rows(*final(fol)) == rows(*old(fol)),
        !changed ==> follow_ok_at(g, fs.nul(), fs.fst(), rows(*final(fol)), k as int, i as int),
{
    let n = g.names.len();
    let rule = &g.rules[k];
    let a = rule.body[i];
    assert(g.body(k as int)[i as int] < n);
    assert(g.origin(k as int) < n);
    let mut changed = false;
    if !c.nonterminal[a] {
        return false;
    }
    let ghost f0 = rows(*fol);
    let ghost nul = fs.nul();
    let ghost fst = fs.fst();
    let ghost beta = g.body(k as int).skip(i + 1);
    let len = rule.body.len();
    let mut p: usize = i + 1;
    let mut go = true;
    while go && p < rule.body.len()
        invariant
            g.wf(),
            c.matches(g),
            n == g.nsym(),
            first_closed(g, nul, fst),
            nul == fs.nul(),
            fst == fs.fst(),
            k < g.nrules(),
            rule == g.rules@[k as int],
            i < rule.body@.len(),
            beta == rule.body@.skip(i + 1),
            a == rule.body@[i as int],
            a < n,
            g.is_nonterminal(a as int),
            i + 1 <= p <= rule.body@.len(),
            is_grid(rows(*fol), n as nat, (n + 1) as nat),
            rows(*fol)[g.start as int][n as int],
            forall|f2: Seq<Seq<bool>>|
                #[trigger] follow_closed(g, nul, fst, f2) ==> below2(rows(*fol), f2),
            go ==> all_nullable(g, nul, beta.take(p - i - 1)),
            !go ==> p >= i + 2 && !nullable_sym(g, nul, beta[p - i - 2]),
            count_rows(rows(*fol)) >= count_rows(f0),
            changed ==> count_rows(rows(*fol)) > count_rows(f0),
            !changed ==> rows(*fol) == f0,
            !changed ==> forall|q: int, t: int|
                0 <= q < p - i - 1 && 0 <= t < n && #[trigger] first_sym(g, fst, beta[q], t)
                    ==> rows(*fol)[a as int][t],
        decreases rule.body@.len() - p,
    {
        let x = rule.body[p];
        assert(g.body(k as int)[p as int] < n);
        assert(beta[p - i - 1] == x);
        let mut t: usize = 0;
        while t < n
            invariant
                g.wf(),
                c.matches(g),
                n == g.nsym(),
                first_closed(g, nul, fst),
                nul == fs.nul(),
                fst == fs.fst(),
                k < g.nrules(),
                i < g.body(k as int).len(),
                beta == g.body(k as int).skip(i + 1),
                a == g.body(k as int)[i as int],
                a < n,
                x < n,
                g.is_nonterminal(a as int),
                i + 1 <= p < g.body(k as int).len(),
                beta[p - i - 1] == x,
                all_nullable(g, nul, beta.take(p - i - 1)),
                t <= n,
                is_grid(rows(*fol), n as nat, (n + 1) as nat),
                rows(*fol)[g.start as int][n as int],
            rows(*fol)[g.start as int][n as int],
                forall|f2: Seq<Seq<bool>>|
                    #[trigger] follow_closed(g, nul, fst, f2) ==> below2(rows(*fol), f2),
                count_rows(rows(*fol)) >= count_rows(f0),
                changed ==> count_rows(rows(*fol)) > count_rows(f0),
                !changed ==> rows(*fol) == f0,
                !changed ==> forall|q: int, t2: int|
                    0 <= q < p - i - 1 && 0 <= t2 < n && #[trigger] first_sym(g, fst, beta[q], t2)
                        ==> rows(*fol)[a as int][t2],
                !changed ==> forall|t2: int|
                    0 <= t2 < t && #[trigger] first_sym(g, fst, x, t2) ==> rows(*fol)[a as int][t2],
            decreases n - t,
        {
            assert(rows(*fol)[a as int].len() == n + 1);
            if first_sym_exec(g, c, fs, x, t) && !fol[a][t] {
                proof {
                    lemma_count_rows_set(rows(*fol), a as int, t as int);
                    assert forall|f2: Seq<Seq<bool>>|
                        #[trigger] follow_closed(g, nul, fst, f2) implies f2[a as int][t as int] by {
                        assert(follow_ok_at(g, nul, fst, f2, k as int, i as int));
                        assert(first_sym(g, fst, beta[p - i - 1], t as int));
                        assert(first_seq(g, nul, fst, beta, t as int));
                    }
                }
                set_cell(fol, a, t);
                changed = true;
            }
            t = t + 1;
        }
        if !(c.nonterminal[x] && fs.nullable[x]) {
            go = false;
        }
        proof {
            if go {
                let tk = beta.take(p - i);
                assert forall|j: int| 0 <= j < tk.len() implies #[trigger] nullable_sym(g, nul, tk[j]) by {
                    if j < p - i - 1 {
                        assert(beta.take(p - i - 1)[j] == tk[j]);
                    }
                }
            }
        }
        p = p + 1;
    }
    proof {
        if !changed {
            assert forall|t: int| 0 <= t < g.nsym() && #[trigger] first_seq(g, nul, fst, beta, t)
                implies rows(*fol)[a as int][t] by {
                let q = choose|q: int| 0 <= q < beta.len() && all_nullable(g, nul, beta.take(q))
                    && #[trigger] first_sym(g, fst, beta[q], t);
                if q >= p - i - 1 {
                    assert(!go);
                    assert(beta.take(q)[p - i - 2] == beta[p - i - 2]);
                    assert(nullable_sym(g, nul, beta.take(q)[p - i - 2]));
                }
            }
        }
    }
    if go {
        assert(beta.take(p - i - 1) =~= beta);
        let b = rule.origin;
        let ghost f1 = rows(*fol);
        let ghost changed1 = changed;
        let mut t: usize = 0;
        while t <= n
            invariant
                g.wf(),
                n == g.nsym(),
                first_closed(g, nul, fst),
                k < g.nrules(),
                i < g.body(k as int).len(),
                beta == g.body(k as int).skip(i + 1),
                a == g.body(k as int)[i as int],
                b == g.origin(k as int),
                a < n,
                b < n,
                g.is_nonterminal(a as int),
                all_nullable(g, nul, beta),
                t <= n + 1,
                is_grid(rows(*fol), n as nat, (n + 1) as nat),
                rows(*fol)[g.start as int][n as int],
            rows(*fol)[g.start as int][n as int],
                forall|f2: Seq<Seq<bool>>|
                    #[trigger] follow_closed(g, nul, fst, f2) ==> below2(rows(*fol), f2),
                count_rows(rows(*fol)) >= count_rows(f0),
                changed ==> count_rows(rows(*fol)) > count_rows(f0),
                !changed ==> rows(*fol) == f0,
                !changed ==> !changed1,
                !changed ==> forall|t2: int| 0 <= t2 < g.nsym() && #[trigger] first_seq(g, nul, fst, beta, t2)
                    ==> rows(*fol)[a as int][t2],
                !changed ==> forall|t2: int|
                    0 <= t2 < t && #[trigger] rows(*fol)[b as int][t2] ==> rows(*fol)[a as int][t2],
            decreases n + 1 - t,
        {
            assert(rows(*fol)[a as int].len() == n + 1 && rows(*fol)[b as int].len() == n + 1);
            if fol[b][t] && !fol[a][t] {
                proof {
                    lemma_count_rows_set(rows(*fol), a as int, t as int);
                    assert forall|f2: Seq<Seq<bool>>|
                        #[trigger] follow_closed(g, nul, fst, f2) implies f2[a as int][t as int] by {
                        assert(follow_ok_at(g, nul, fst, f2, k as int, i as int));
                        assert(f2[b as int][t as int]);
                    }
                }
                set_cell(fol, a, t);
                changed = true;
            }
            t = t + 1;
        }
    }
    changed
}

/// Computes the FOLLOW sets of every non-terminal of `g` as the least fixed point
/// of the FOLLOW rules; `fol[a][nsym()]` says that the end marker follows `a`.
pub fn get_follows(g: &Grammar, c: &Classes, fs: &FirstSets) -> (fol: Vec<Vec<bool>>)
    requires
        g.wf(),
        c.matches(g),
        first_closed(g, fs.nul(), fs.fst()),
    ensures
        follow_closed(g, fs.nul(), fs.fst(), rows(fol)),
        follow_least(g, fs.nul(), fs.fst(), rows(fol)),
{
    let n = g.names.len();
    let mut fol = false_grid(n, n + 1);
    assert(g.origin(0) < n);
    assert(rows(fol)[g.start as int].len() == n + 1);
    set_cell(&mut fol, g.start, n);
    loop
        invariant
            g.wf(),
            c.matches(g),
            n == g.nsym(),
            first_closed(g, fs.nul(), fs.fst()),
            is_grid(rows(fol), n as nat, (n + 1) as nat),
            rows(fol)[g.start as int][n as int],
            forall|f2: Seq<Seq<bool>>|
                #[trigger] follow_closed(g, fs.nul(), fs.fst(), f2) ==> below2(rows(fol), f2),
        ensures
            follow_closed(g, fs.nul(), fs.fst(), rows(fol)),
            forall|f2: Seq<Seq<bool>>|
                #[trigger] follow_closed(g, fs.nul(), fs.fst(), f2) ==> below2(rows(fol), f2),
        decreases n * (n + 1) - count_rows(rows(fol)),
    {
        let ghost f0 = rows(fol);
        let mut changed = false;
        let mut k: usize = 0;
        while k < g.rules.len()
            invariant
                g.wf(),
                c.matches(g),
                n == g.nsym(),
                first_closed(g, fs.nul(), fs.fst()),
                is_grid(rows(fol), n as nat, (n + 1) as nat),
                rows(fol)[g.start as int][n as int],
                forall|f2: Seq<Seq<bool>>|
                    #[trigger] follow_closed(g, fs.nul(), fs.fst(), f2) ==> below2(rows(fol), f2),
                k <= g.nrules(),
                count_rows(rows(fol)) >= count_rows(f0),
                changed ==> count_rows(rows(fol)) > count_rows(f0),
                !changed ==> rows(fol) == f0,
                !changed ==> forall|j: int, q: int|
                    0 <= j < k && 0 <= q < g.body(j).len() ==> #[trigger] follow_ok_at(
                        g,
                        fs.nul(),
                        fs.fst(),
                        rows(fol),
                        j,
                        q,
                    ),
            decreases g.nrules() - k,
        {
            let mut i: usize = 0;
            while i < g.rules[k].body.len()
                invariant
                    g.wf(),
                    c.matches(g),
                    n == g.nsym(),
                    first_closed(g, fs.nul(), fs.fst()),
                    is_grid(rows(fol), n as nat, (n + 1) as nat),
                    rows(fol)[g.start as int][n as int],
                rows(fol)[g.start as int][n as int],
                    forall|f2: Seq<Seq<bool>>|
                        #[trigger] follow_closed(g, fs.nul(), fs.fst(), f2) ==> below2(rows(fol), f2),
                    k < g.nrules(),
                    i <= g.body(k as int).len(),
                    count_rows(rows(fol)) >= count_rows(f0),
                    changed ==> count_rows(rows(fol)) > count_rows(f0),
                    !changed ==> rows(fol) == f0,
                    !changed ==> forall|j: int, q: int|
                        0 <= j < k && 0 <= q < g.body(j).len() ==> #[trigger] follow_ok_at(
                            g,
                            fs.nul(),
                            fs.fst(),
                            rows(fol),
                            j,
                            q,
                        ),
                    !changed ==> forall|q: int|
                        0 <= q < i ==> #[trigger] follow_ok_at(
                            g,
                            fs.nul(),
                            fs.fst(),
                            rows(fol),
                            k as int,
                            q,
                        ),
                decreases g.body(k as int).len() - i,
            {
                if follow_at(g, c, fs, &mut fol, k, i) {
                    changed = true;
                }
                i = i + 1;
            }
            k = k + 1;
        }
        proof {
            lemma_count_rows_bound(rows(fol), (n + 1) as nat);
        }
        if !changed {
            break;
        }
    }
    fol
}

/// FIRST of every production's body is part of FIRST of its origin: each terminal
/// that begins the body begins the origin, and a body that derives the empty
/// string makes the origin derive it too.
pub proof fn lemma_first_of_body_in_origin(g: &Grammar, fs: &FirstSets, k: int, t: int)
    requires
        fs.of(g),
        0 <= k < g.nrules(),
        0 <= t < g.nsym(),
    ensures
        first_seq(g, fs.nul(), fs.fst(), g.body(k), t) ==> fs.fst()[g.origin(k) as int][t],
        all_nullable(g, fs.nul(), g.body(k)) ==> fs.nul()[g.origin(k) as int],
{
}

/// A non-terminal with an epsilon production has epsilon in its FIRST set.
pub proof fn lemma_epsilon_production_nullable(g: &Grammar, fs: &FirstSets, k: int)
    requires
        fs.of(g),
        0 <= k < g.nrules(),
        g.body(k).len() == 0,
    ensures
        fs.nul()[g.origin(k) as int],
{
    assert(all_nullable(g, fs.nul(), g.body(k)));
}

/// FIRST sets hold terminals only.
pub proof fn lemma_first_only_terminals(g: &Grammar, fs: &FirstSets, a: int, t: int)
    requires
        g.wf(),
        fs.of(g),
        0 <= a < g.nsym(),
        0 <= t < g.nsym(),
        fs.fst()[a][t],
    ensures
        g.is_terminal(t),
{
    let n = g.nsym();
    let nul = fs.nul();
    let fst = fs.fst();
    let f2 = Seq::new(n, |x: int| Seq::new(n, |y: int| fst[x][y] && g.is_terminal(y)));
    assert forall|k: int, u: int|
        0 <= k < g.nrules() && 0 <= u < g.nsym() && #[trigger] first_seq(g, nul, f2, g.body(k), u)
            implies f2[g.origin(k) as int][u] by {
        let b = g.body(k);
        let i = choose|i: int| 0 <= i < b.len() && all_nullable(g, nul, b.take(i))
            && #[trigger] first_sym(g, f2, b[i], u);
        assert(b[i] < n);
        assert(first_sym(g, fst, b[i], u));
        assert(first_seq(g, nul, fst, b, u));
        assert(g.origin(k) < n);
        if !g.is_nonterminal(b[i] as int) {
            assert(b[i] == u as usize);
            assert(b.contains(u as usize));
            assert(0 <= k < g.nrules() && g.body(k).contains(u as usize));
        }
    }
    assert(first_closed(g, nul, f2));
}

/// FOLLOW sets hold terminals and the end marker only, never epsilon.
pub proof fn lemma_follow_only_terminals(
    g: &Grammar,
    fs: &FirstSets,
    fol: Seq<Seq<bool>>,
    a: int,
    t: int,
)
    requires
        g.wf(),
        fs.of(g),
        follow_closed(g, fs.nul(), fs.fst(), fol),
        follow_least(g, fs.nul(), fs.fst(), fol),
        0 <= a < g.nsym(),
        0 <= t <= g.nsym(),
        fol[a][t],
    ensures
        t == g.nsym() || g.is_terminal(t),
{
    let n = g.nsym();
    let nul = fs.nul();
    let fst = fs.fst();
    let f2 = Seq::new(n, |x: int| Seq::new(n + 1, |y: int| fol[x][y] && (y == n || g.is_terminal(y))));
    assert forall|k: int, i: int| 0 <= k < g.nrules() && 0 <= i < g.body(k).len() implies #[trigger] follow_ok_at(
        g,
        nul,
        fst,
        f2,
        k,
        i,
    ) by {
        assert(follow_ok_at(g, nul, fst, fol, k, i));
        let x = g.body(k)[i] as int;
        let beta = g.body(k).skip(i + 1);
        assert(x < n);
        assert(g.origin(k) < n);
        if g.is_nonterminal(x) {
            assert forall|u: int| 0 <= u < g.nsym() && #[trigger] first_seq(g, nul, fst, beta, u)
                implies f2[x][u] by {
                let q = choose|q: int| 0 <= q < beta.len() && all_nullable(g, nul, beta.take(q))
                    && #[trigger] first_sym(g, fst, beta[q], u);
                assert(beta[q] == g.body(k)[i + 1 + q]);
                assert(beta[q] < n);
                if g.is_nonterminal(beta[q] as int) {
                    lemma_first_only_terminals(g, fs, beta[q] as int, u);
                } else {
                    assert(g.body(k)[i + 1 + q] == u as usize);
                    assert(g.body(k).contains(u as usize));
                }
            }
        }
    }
    assert(follow_closed(g, nul, fst, f2));
}

/// The end marker follows the start symbol.
pub proof fn lemma_end_follows_start(g: &Grammar, fs: &FirstSets, fol: Seq<Seq<bool>>)
    requires
        follow_closed(g, fs.nul(), fs.fst(), fol),
    ensures
        fol[g.start as int][g.nsym() as int],
{
}

/// The FIRST sets are unique: two computations on one grammar agree, and each is
/// a fixed point of the rules.
pub proof fn lemma_first_unique(g: &Grammar, a: &FirstSets, b: &FirstSets)
    requires
        a.of(g),
        b.of(g),
    ensures
        a.nul() == b.nul(),
        a.fst() == b.fst(),
{
    assert(first_closed(g, b.nul(), b.fst()));
    assert(first_closed(g, a.nul(), a.fst()));
    assert(a.nul() =~= b.nul());
    assert forall|x: int| 0 <= x < a.fst().len() implies a.fst()[x] =~= b.fst()[x] by {}
    assert(a.fst() =~= b.fst());
}

/// The FOLLOW sets are unique: two computations on one grammar agree.
pub proof fn lemma_follow_unique(
    g: &Grammar,
    fs: &FirstSets,
    f1: Seq<Seq<bool>>,
    f2: Seq<Seq<bool>>,
)
    requires
        follow_closed(g, fs.nul(), fs.fst(), f1),
        follow_least(g, fs.nul(), fs.fst(), f1),
        follow_closed(g, fs.nul(), fs.fst(), f2),
        follow_least(g, fs.nul(), fs.fst(), f2),
    ensures
        f1 == f2,
{
    assert forall|x: int| 0 <= x < f1.len() implies f1[x] =~= f2[x] by {}
    assert(f1 =~= f2);
}

} // verus!
