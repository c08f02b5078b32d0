use crate::automaton::{aug_body, aug_len, closure, copy_items, items_ok, Automaton, SlrRule, SlrState};
use crate::automaton::{closure_closed, lemma_closure_adds_initial_items, lemma_closure_unique};
use crate::bits::{is_grid, rows};
use crate::grammar::{Classes, Grammar};
use vstd::prelude::*;

verus! {

broadcast use vstd::seq_lib::group_seq_properties;

/// An ACTION entry; `Error` marks a cell on which two different actions collided.
#[derive(PartialEq, Eq, Structural, Clone, Copy, Debug)]
pub enum Action {
    Shift(usize),
    Reduce(usize),
    Accept,
    Error,
}

/// The actions that the SLR rules put into column `col` of a state with
/// transitions `ts` and closure `items`: shift on a terminal's transition, reduce
/// by a completed rule `r >= 1` on FOLLOW of its origin, accept on `$` (column
/// `nsym()`) when `S' -> S .` is complete.
pub open spec fn cands(
    g: &Grammar,
    fol: Seq<Seq<bool>>,
    ts: Seq<(usize, usize)>,
    items: Set<SlrRule>,
    col: int,
) -> Set<Action> {
    Set::new(
        |act: Action|
            match act {
                Action::Shift(j) => col < g.nsym() && g.is_terminal(col) && ts.contains(
                    (col as usize, j),
                ),
                Action::Reduce(r) => 1 <= r <= g.nrules() && items.contains(
                    SlrRule { rule: r, dot: aug_body(g, r as int).len() as usize },
                ) && fol[g.origin(r - 1) as int][col],
                Action::Accept => col == g.nsym() && items.contains(SlrRule { rule: 0, dot: 1 }),
                Action::Error => false,
            },
    )
}

/// The cell holds the one candidate action, nothing when there is none, and
/// `Error` when there are two or more.
pub open spec fn cell_fits(cell: Option<Action>, s: Set<Action>) -> bool {
    &&& !s.contains(Action::Error)
    &&& cell is None ==> s == Set::<Action>::empty()
    &&& cell matches Some(x) ==> (x != Action::Error ==> s == set![x])
    &&& cell == Some(Action::Error) ==> exists|x: Action, y: Action|
        s.contains(x) && s.contains(y) && x != y
}

/// A GOTO cell for non-terminal `x` holds the target of the transition on `x`, and
/// nothing when `x` is not a non-terminal or there is no such transition.
pub open spec fn goto_fits(g: &Grammar, cell: Option<usize>, ts: Seq<(usize, usize)>, x: int) -> bool {
    &&& forall|j: usize| cell == Some(j) ==> g.is_nonterminal(x) && ts.contains((x as usize, j))
    &&& cell is None ==> !g.is_nonterminal(x) || forall|j: usize| !#[trigger] ts.contains((x as usize, j))
}

/// The SLR(1) ACTION/GOTO table: `actions[i][col]` for each terminal column and
/// `$` (column `nsym()`), `gotos[i][x]` for each non-terminal `x`.
pub struct Table {
    pub actions: Vec<Vec<Option<Action>>>,
    pub gotos: Vec<Vec<Option<usize>>>,
}

impl Table {
    pub open spec fn action(&self, i: int, col: int) -> Option<Action> {
        self.actions@[i]@[col]
    }

    pub open spec fn goto(&self, i: int, x: int) -> Option<usize> {
        self.gotos@[i]@[x]
    }

    /// The table is the SLR(1) table of automaton `a` with FOLLOW sets `fol`.
    pub open spec fn of(&self, g: &Grammar, fol: Seq<Seq<bool>>, a: &Automaton) -> bool {
        &&& self.actions@.len() == a.len()
        &&& self.gotos@.len() == a.len()
        &&& forall|i: int| 0 <= i < a.len() ==> (#[trigger] self.actions@[i])@.len() == g.nsym() + 1
        &&& forall|i: int| 0 <= i < a.len() ==> (#[trigger] self.gotos@[i])@.len() == g.nsym()
        &&& forall|i: int, col: int|
            0 <= i < a.len() && 0 <= col <= g.nsym() ==> cell_fits(
                #[trigger] self.action(i, col),
                cands(g, fol, a.trans()[i], closure(g, a.kernel(i)), col),
            )
        &&& forall|i: int, x: int|
            0 <= i < a.len() && 0 <= x < g.nsym() ==> goto_fits(
                g,
                #[trigger] self.goto(i, x),
                a.trans()[i],
                x,
            )
    }
}

/// Writes `act` into a cell: an empty cell takes it, an equal action stays, any
/// other content turns into `Error`.
pub fn put_action(cell: Option<Action>, act: Action) -> (r: Option<Action>)
    ensures
        r == match cell {
            None => Some(act),
            Some(prev) => if prev == act {
                Some(act)
            } else {
                Some(Action::Error)
            },
        },
{
    match cell {
        None => Some(act),
        Some(prev) => if prev == act {
            Some(act)
        } else {
            Some(Action::Error)
        },
    }
}

/// Writing a candidate into a cell that fits the candidates so far gives a cell
/// that fits them with the new one.
proof fn lemma_put_fits(cell: Option<Action>, s: Set<Action>, act: Action)
    requires
        cell_fits(cell, s),
        act != Action::Error,
    ensures
        cell_fits(
            match cell {
                None => Some(act),
                Some(prev) => if prev == act {
                    Some(act)
                } else {
                    Some(Action::Error)
                },
            },
            s.insert(act),
        ),
{
    match cell {
        None => {
            assert(s.insert(act) =~= set![act]);
        },
        Some(prev) => {
            if prev == act {
                assert(s.insert(act) =~= set![act]);
            } else if prev == Action::Error {
                let (x, y) = choose|x: Action, y: Action| s.contains(x) && s.contains(y) && x != y;
                assert(s.insert(act).contains(x) && s.insert(act).contains(y));
            } else {
                assert(s.contains(prev));
                assert(s.insert(act).contains(prev) && s.insert(act).contains(act));
            }
        },
    }
}

/// The completed items of the rules `rs`.
pub open spec fn completed(g: &Grammar, rs: Seq<usize>) -> Set<SlrRule> {
    Set::new(
        |it: SlrRule|
            rs.contains(it.rule) && it.rule < aug_len(g) && it.dot == aug_body(g, it.rule as int).len() as usize,
    )
}

/// A vector of `n` empty cells.
fn empty_cells<T>(n: usize) -> (v: Vec<Option<T>>)
    ensures
        v@.len() == n,
        forall|i: int| 0 <= i < n ==> v@[i] is None,
{
    let mut v: Vec<Option<T>> = Vec::new();
    let mut i: usize = 0;
    while i < n
        invariant
            i <= n,
            v@.len() == i,
            forall|j: int| 0 <= j < i ==> v@[j] is None,
        decreases n - i,
    {
        v.push(None);
        i = i + 1;
    }
    v
}

/// The ACTION and GOTO rows of state `i`.
pub fn build_row(g: &Grammar, c: &Classes, fol: &Vec<Vec<bool>>, a: &Automaton, i: usize) -> (r: (
    Vec<Option<Action>>,
    Vec<Option<usize>>,
))
    requires
        g.wf(),
        c.matches(g),
        a.canonical(g),
        i < a.len(),
        is_grid(rows(*fol), g.nsym(), g.nsym() + 1),
    ensures
        r.0@.len() == g.nsym() + 1,
        r.1@.len() == g.nsym(),
        forall|col: int|
            0 <= col <= g.nsym() ==> cell_fits(
                #[trigger] r.0@[col],
                cands(g, rows(*fol), a.trans()[i as int], closure(g, a.kernel(i as int)), col),
            ),
        forall|x: int| 0 <= x < g.nsym() ==> goto_fits(g, #[trigger] r.1@[x], a.trans()[i as int], x),
{
    let n = g.names.len();
    let ghost f = rows(*fol);
    let mut acts: Vec<Option<Action>> = empty_cells(n + 1);
    let mut gts: Vec<Option<usize>> = empty_cells(n);
    let ts = &a.transitions[i];
    assert(ts@ == a.trans()[i as int]);
    let ghost none = Set::<SlrRule>::empty();
    proof {
        assert forall|col: int| 0 <= col <= n implies cell_fits(
            #[trigger] acts@[col],
            cands(g, f, ts@.take(0), none, col),
        ) by {
            assert(cands(g, f, ts@.take(0), none, col) =~= Set::<Action>::empty());
        }
    }
    let mut q: usize = 0;
    while q < ts.len()
        invariant
            g.wf(),
            c.matches(g),
            n == g.nsym(),
            q <= ts@.len(),
            acts@.len() == n + 1,
            gts@.len() == n,
            forall|col: int|
                0 <= col <= n ==> cell_fits(#[trigger] acts@[col], cands(g, f, ts@.take(q as int), none, col)),
            forall|x: int| 0 <= x < n ==> goto_fits(g, #[trigger] gts@[x], ts@.take(q as int), x),
        decreases ts@.len() - q,
    {
        let (x, j) = ts[q];
        let ghost t0 = ts@.take(q as int);
        let ghost t1 = ts@.take(q + 1);
        let ghost old_a = acts@;
        let ghost old_g = gts@;
        proof {
            assert(t1 =~= t0.push((x, j)));
            assert forall|col: int| 0 <= col <= n && (col != x || !g.is_terminal(col)) implies #[trigger] cands(g, f, t1, none, col) == cands(g, f, t0, none, col) by {
                assert(cands(g, f, t1, none, col) =~= cands(g, f, t0, none, col));
            }
            assert forall|y: int| 0 <= y < n && (y != x || !g.is_nonterminal(y)) implies #[trigger] goto_fits(g, old_g[y], t1, y) by {
                assert(goto_fits(g, old_g[y], t0, y));
            }
        }
        if x < n {
            if c.nonterminal[x] {
                gts.set(x, Some(j));
                proof {
                    assert(goto_fits(g, gts@[x as int], t1, x as int));
                    assert forall|col: int| 0 <= col <= n implies cell_fits(#[trigger] acts@[col], cands(g, f, t1, none, col)) by {
                        assert(cell_fits(old_a[col], cands(g, f, t0, none, col)));
                    }
                }
            } else if c.terminal[x] {
                let v = put_action(acts[x], Action::Shift(j));
                acts.set(x, v);
                proof {
                    lemma_put_fits(old_a[x as int], cands(g, f, t0, none, x as int), Action::Shift(j));
                    assert(cands(g, f, t1, none, x as int) =~= cands(g, f, t0, none, x as int).insert(Action::Shift(j)));
                    assert forall|col: int| 0 <= col <= n implies cell_fits(#[trigger] acts@[col], cands(g, f, t1, none, col)) by {
                        assert(cell_fits(old_a[col], cands(g, f, t0, none, col)));
                    }
                }
            } else {
                proof {
                    assert forall|col: int| 0 <= col <= n implies cell_fits(#[trigger] acts@[col], cands(g, f, t1, none, col)) by {
                        assert(cell_fits(old_a[col], cands(g, f, t0, none, col)));
                    }
                }
            }
        } else {
            proof {
                assert forall|col: int| 0 <= col <= n implies cell_fits(#[trigger] acts@[col], cands(g, f, t1, none, col)) by {
                    assert(cell_fits(old_a[col], cands(g, f, t0, none, col)));
                }
            }
        }
        q = q + 1;
    }
    assert(ts@.take(q as int) =~= ts@);
    let ghost tsv = ts@;
    assert(items_ok(g, a.kernels@[i as int]@));
    let st = SlrState::new(g, copy_items(&a.kernels[i]));
    let ends = st.get_end_rules(g);
    let ghost closed = st.extended_state@.to_set();
    proof {
        lemma_closure_unique(g, a.kernel(i as int), closed);
        assert(completed(g, ends@.take(0)) =~= none);
    }
    let mut p: usize = 0;
    while p < ends.len()
        invariant
            g.wf(),
            n == g.nsym(),
            f == rows(*fol),
            is_grid(f, g.nsym(), g.nsym() + 1),
            p <= ends@.len(),
            forall|k: usize| #[trigger] ends@.contains(k) <==> k < aug_len(g) && closed.contains(
                SlrRule { rule: k, dot: aug_body(g, k as int).len() as usize },
            ),
            acts@.len() == n + 1,
            forall|col: int|
                0 <= col <= n ==> cell_fits(#[trigger] acts@[col], cands(g, f, tsv, completed(g, ends@.take(p as int)), col)),
        decreases ends@.len() - p,
    {
        let r = ends[p];
        let ghost s0 = completed(g, ends@.take(p as int));
        let ghost s1 = completed(g, ends@.take(p + 1));
        let ghost it = SlrRule { rule: r, dot: aug_body(g, r as int).len() as usize };
        proof {
            assert(ends@.take(p + 1) =~= ends@.take(p as int).push(r));
            assert(ends@.contains(r));
            assert(s1 =~= s0.insert(it));
        }
        if r == 0 {
            let ghost old_a = acts@;
            let v = put_action(acts[n], Action::Accept);
            acts.set(n, v);
            proof {
                assert(it == SlrRule { rule: 0, dot: 1 });
                lemma_put_fits(old_a[n as int], cands(g, f, tsv, s0, n as int), Action::Accept);
                assert(cands(g, f, tsv, s1, n as int) =~= cands(g, f, tsv, s0, n as int).insert(Action::Accept));
                assert forall|col: int| 0 <= col <= n implies cell_fits(#[trigger] acts@[col], cands(g, f, tsv, s1, col)) by {
                    assert(cell_fits(old_a[col], cands(g, f, tsv, s0, col)));
                    if col != n {
                        assert(cands(g, f, tsv, s1, col) =~= cands(g, f, tsv, s0, col));
                    }
                }
            }
        } else {
            let o = g.rules[r - 1].origin;
            assert(g.origin(r - 1) < n);
            assert(f[o as int].len() == n + 1);
            let mut col: usize = 0;
            while col <= n
                invariant
                    g.wf(),
                    n == g.nsym(),
                    f == rows(*fol),
                    is_grid(f, g.nsym(), g.nsym() + 1),
                    1 <= r <= g.nrules(),
                    o == g.origin(r - 1),
                    o < n,
                    it == (SlrRule { rule: r, dot: aug_body(g, r as int).len() as usize }),
                    s1 == s0.insert(it),
                    col <= n + 1,
                    acts@.len() == n + 1,
                    forall|c2: int|
                        0 <= c2 < col ==> cell_fits(#[trigger] acts@[c2], cands(g, f, tsv, s1, c2)),
                    forall|c2: int|
                        col <= c2 <= n ==> cell_fits(#[trigger] acts@[c2], cands(g, f, tsv, s0, c2)),
                decreases n + 1 - col,
            {
                let ghost old_a = acts@;
                assert(f[o as int].len() == n + 1);
                assert(fol@[o as int]@ == f[o as int]);
                if fol[o][col] {
                    let v = put_action(acts[col], Action::Reduce(r));
                    acts.set(col, v);
                    proof {
                        lemma_put_fits(old_a[col as int], cands(g, f, tsv, s0, col as int), Action::Reduce(r));
                        assert(cands(g, f, tsv, s1, col as int) =~= cands(g, f, tsv, s0, col as int).insert(Action::Reduce(r)));
                    }
                } else {
                    proof {
                        assert(cands(g, f, tsv, s1, col as int) =~= cands(g, f, tsv, s0, col as int));
                    }
                }
                col = col + 1;
            }
        }
        p = p + 1;
    }
    proof {
        assert(ends@.take(p as int) =~= ends@);
        assert forall|col: int| 0 <= col <= n implies cands(g, f, tsv, completed(g, ends@), col) == cands(g, f, tsv, closed, col) by {
            assert forall|act: Action| cands(g, f, tsv, completed(g, ends@), col).contains(act) <==> cands(g, f, tsv, closed, col).contains(act) by {
                match act {
                    Action::Reduce(r) => {
                        let it = SlrRule { rule: r, dot: aug_body(g, r as int).len() as usize };
                        if 1 <= r <= g.nrules() {
                            assert(completed(g, ends@).contains(it) == ends@.contains(r));
                        }
                    },
                    Action::Accept => {
                        assert(aug_body(g, 0).len() == 1);
                        assert(completed(g, ends@).contains(SlrRule { rule: 0, dot: 1 }) == ends@.contains(0));
                    },
                    _ => {},
                }
            }
            assert(cands(g, f, tsv, completed(g, ends@), col) =~= cands(g, f, tsv, closed, col));
        }
    }
    (acts, gts)
}

/// Builds the SLR(1) ACTION/GOTO table of automaton `a`, reducing on the FOLLOW
/// sets `fol` and marking every conflict with `Error`.
pub fn build_slr_table(g: &Grammar, c: &Classes, fol: &Vec<Vec<bool>>, a: &Automaton) -> (t: Table)
    requires
        g.wf(),
        c.matches(g),
        a.canonical(g),
        is_grid(rows(*fol), g.nsym(), g.nsym() + 1),
    ensures
        t.of(g, rows(*fol), a),
{
    let mut actions: Vec<Vec<Option<Action>>> = Vec::new();
    let mut gotos: Vec<Vec<Option<usize>>> = Vec::new();
    let mut i: usize = 0;
    while i < a.kernels.len()
        invariant
            g.wf(),
            c.matches(g),
            a.canonical(g),
            is_grid(rows(*fol), g.nsym(), g.nsym() + 1),
            i <= a.len(),
            actions@.len() == i,
            gotos@.len() == i,
            forall|p: int| 0 <= p < i ==> (#[trigger] actions@[p])@.len() == g.nsym() + 1,
            forall|p: int| 0 <= p < i ==> (#[trigger] gotos@[p])@.len() == g.nsym(),
            forall|p: int, col: int|
                0 <= p < i && 0 <= col <= g.nsym() ==> cell_fits(
                    #[trigger] actions@[p]@[col],
                    cands(g, rows(*fol), a.trans()[p], closure(g, a.kernel(p)), col),
                ),
            forall|p: int, x: int|
                0 <= p < i && 0 <= x < g.nsym() ==> goto_fits(
                    g,
                    #[trigger] gotos@[p]@[x],
                    a.trans()[p],
                    x,
                ),
        decreases a.len() - i,
    {
        let (row, grow) = build_row(g, c, fol, a, i);
        actions.push(row);
        gotos.push(grow);
        i = i + 1;
    }
    Table { actions, gotos }
}

/// A shift cell comes from a transition of its state on that column's terminal,
/// and a reduce cell by rule `r` stands on a column in FOLLOW of the origin of `r`.
pub proof fn lemma_cells_justified(
    g: &Grammar,
    fol: Seq<Seq<bool>>,
    a: &Automaton,
    t: &Table,
    i: int,
    col: int,
)
    requires
        t.of(g, fol, a),
        0 <= i < a.len(),
        0 <= col <= g.nsym(),
    ensures
        t.action(i, col) matches Some(Action::Shift(j)) ==> a.trans()[i].contains((col as usize, j)),
        t.action(i, col) matches Some(Action::Reduce(r)) ==> 1 <= r <= g.nrules() && fol[g.origin(
            r - 1,
        ) as int][col],
{
    let s = cands(g, fol, a.trans()[i], closure(g, a.kernel(i)), col);
    assert(cell_fits(t.action(i, col), s));
    match t.action(i, col) {
        Some(x) => {
            if x != Action::Error {
                assert(s.contains(x));
            }
        },
        None => {},
    }
}

/// `ACTION[i, $]` is `Accept` only when the kernel of state `i` holds the completed
/// augmented item `S' -> S .`; when it holds it, the cell is `Accept` unless another
/// action collides there, which makes it `Error`.
pub proof fn lemma_accept_iff_completed_start(
    g: &Grammar,
    fol: Seq<Seq<bool>>,
    a: &Automaton,
    t: &Table,
    i: int,
)
    requires
        g.wf(),
        a.canonical(g),
        t.of(g, fol, a),
        0 <= i < a.len(),
    ensures
        t.action(i, g.nsym() as int) == Some(Action::Accept) ==> a.kernel(i).contains(
            SlrRule { rule: 0, dot: 1 },
        ),
        a.kernel(i).contains(SlrRule { rule: 0, dot: 1 }) ==> t.action(i, g.nsym() as int) == Some(
            Action::Accept,
        ) || t.action(i, g.nsym() as int) == Some(Action::Error),
{
    let k = a.kernel(i);
    let c = closure(g, k);
    let n = g.nsym() as int;
    let s = cands(g, fol, a.trans()[i], c, n);
    assert(cell_fits(t.action(i, n), s));
    assert(a.kernels@[i]@.to_set() == k);
    assert(a.trans_ok(g, i));
    if t.action(i, n) == Some(Action::Accept) {
        assert(s.contains(Action::Accept));
        lemma_closure_adds_initial_items(g, k, SlrRule { rule: 0, dot: 1 });
    }
    if k.contains(SlrRule { rule: 0, dot: 1 }) {
        assert(closure_closed(g, k, c));
        assert(c.contains(SlrRule { rule: 0, dot: 1 }));
        assert(s.contains(Action::Accept));
    }
}

} // verus!
