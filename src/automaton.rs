use crate::bits::{
    count_true, falses, lemma_count_true_bound, lemma_count_true_set, lemma_count_true_zero,
};
use crate::grammar::Grammar;
use vstd::prelude::*;

verus! {

broadcast use vstd::seq_lib::group_seq_properties;

/// Body of rule `r` of the augmented grammar: rule 0 is `S' -> S`, rule `k + 1` is
/// production `k`.
pub open spec fn aug_body(g: &Grammar, r: int) -> Seq<usize> {
    if r == 0 {
        seq![g.start]
    } else {
        g.body(r - 1)
    }
}

/// Number of rules of the augmented grammar.
pub open spec fn aug_len(g: &Grammar) -> nat {
    g.nrules() + 1
}

/// An LR(0) item: rule `rule` of the augmented grammar with the dot before body
/// position `dot`.
#[derive(PartialEq, Eq, Structural, Clone, Copy, Debug)]
pub struct SlrRule {
    pub rule: usize,
    pub dot: usize,
}

/// `it` names a rule of the augmented grammar and a dot position within its body.
pub open spec fn item_ok(g: &Grammar, it: SlrRule) -> bool {
    it.rule < aug_len(g) && it.dot <= aug_body(g, it.rule as int).len()
}

/// The symbol right after the dot, if the dot is not at the end.
pub open spec fn next_sym(g: &Grammar, it: SlrRule) -> Option<usize> {
    if it.dot < aug_body(g, it.rule as int).len() {
        Some(aug_body(g, it.rule as int)[it.dot as int])
    } else {
        None
    }
}

/// `c` contains `k` and, with every item whose dot stands before a non-terminal `B`,
/// the initial item of every production of `B`.
pub open spec fn closure_closed(g: &Grammar, k: Set<SlrRule>, c: Set<SlrRule>) -> bool {
    &&& k.subset_of(c)
    &&& forall|it: SlrRule, p: int|
        #![trigger c.contains(it), g.origin(p)]
        c.contains(it) && 0 <= p < g.nrules() && next_sym(g, it) == Some(g.origin(p)) ==> c.contains(
            SlrRule { rule: (p + 1) as usize, dot: 0 },
        )
}

/// `c` is the least closed set of `k`.
pub open spec fn is_closure(g: &Grammar, k: Set<SlrRule>, c: Set<SlrRule>) -> bool {
    closure_closed(g, k, c) && forall|c2: Set<SlrRule>| #[trigger]
        closure_closed(g, k, c2) ==> c.subset_of(c2)
}

/// CLOSURE of an item set.
pub open spec fn closure(g: &Grammar, k: Set<SlrRule>) -> Set<SlrRule> {
    choose|c: Set<SlrRule>| is_closure(g, k, c)
}

/// A least closed set is the closure: there is only one.
pub proof fn lemma_closure_unique(g: &Grammar, k: Set<SlrRule>, c: Set<SlrRule>)
    requires
        is_closure(g, k, c),
    ensures
        closure(g, k) == c,
{
    let d = closure(g, k);
    assert(is_closure(g, k, d));
    assert(closure_closed(g, k, d));
    assert(closure_closed(g, k, c));
    assert(c =~= d);
}

/// Every item of `s` is an item of `g`.
pub open spec fn items_ok(g: &Grammar, s: Seq<SlrRule>) -> bool {
    forall|i: int| 0 <= i < s.len() ==> #[trigger] item_ok(g, s[i])
}

/// Length of the body of augmented rule `r`.
pub fn body_len(g: &Grammar, r: usize) -> (n: usize)
    requires
        g.wf(),
        r < aug_len(g),
    ensures
        n == aug_body(g, r as int).len(),
{
    if r == 0 {
        1
    } else {
        g.rules[r - 1].body.len()
    }
}

/// Symbol `d` of the body of augmented rule `r`.
pub fn body_at(g: &Grammar, r: usize, d: usize) -> (x: usize)
    requires
        g.wf(),
        r < aug_len(g),
        d < aug_body(g, r as int).len(),
    ensures
        x == aug_body(g, r as int)[d as int],
        x < g.nsym(),
{
    if r == 0 {
        assert(g.origin(0) < g.nsym());
        g.start
    } else {
        assert(g.body(r - 1)[d as int] < g.nsym());
        g.rules[r - 1].body[d]
    }
}

impl SlrRule {
    /// The item of rule `rule` with the dot at the start of the body.
    pub fn _new(rule: usize) -> (it: SlrRule)
        ensures
            it == (SlrRule { rule, dot: 0 }),
    {
        SlrRule { rule, dot: 0 }
    }

    /// The symbol right after the dot, if any.
    pub fn get_reading_symbol(&self, g: &Grammar) -> (x: Option<usize>)
        requires
            g.wf(),
            item_ok(g, *self),
        ensures
            x == next_sym(g, *self),
            x matches Some(s) ==> s < g.nsym(),
            x is Some ==> self.dot < usize::MAX,
    {
        if self.dot < body_len(g, self.rule) {
            Some(body_at(g, self.rule, self.dot))
        } else {
            None
        }
    }

    /// Moves the dot one symbol to the right; a completed item stays as it is.
    pub fn advance(&mut self, g: &Grammar)
        requires
            g.wf(),
            item_ok(g, *old(self)),
        ensures
            old(self).dot < aug_body(g, old(self).rule as int).len() ==> *final(self) == (SlrRule {
                rule: old(self).rule,
                dot: (old(self).dot + 1) as usize,
            }),
            old(self).dot >= aug_body(g, old(self).rule as int).len() ==> *final(self) == *old(self),
    {
        if self.dot < body_len(g, self.rule) {
            self.dot = self.dot + 1;
        }
    }
}

/// The initial items of the productions of `x`, in rule order.
pub fn get_extended_prods(g: &Grammar, x: usize) -> (r: Vec<SlrRule>)
    requires
        g.wf(),
    ensures
        forall|q: int| 0 <= q < r@.len() ==> (#[trigger] r@[q]).dot == 0 && 1 <= r@[q].rule <= g.nrules()
            && g.origin(r@[q].rule - 1) == x,
        forall|p: int| 0 <= p < g.nrules() && g.origin(p) == x ==> r@.contains(
            SlrRule { rule: (p + 1) as usize, dot: 0 },
        ),
{
    let mut r: Vec<SlrRule> = Vec::new();
    let mut p: usize = 0;
    while p < g.rules.len()
        invariant
            g.wf(),
            p <= g.nrules(),
            forall|q: int| 0 <= q < r@.len() ==> (#[trigger] r@[q]).dot == 0 && 1 <= r@[q].rule <= g.nrules()
                && g.origin(r@[q].rule - 1) == x,
            forall|p2: int| 0 <= p2 < p && g.origin(p2) == x ==> r@.contains(
                SlrRule { rule: (p2 + 1) as usize, dot: 0 },
            ),
        decreases g.nrules() - p,
    {
        if g.rules[p].origin == x {
            let ghost old_r = r@;
            let it = SlrRule::_new(p + 1);
            r.push(it);
            proof {
                assert(r@[r@.len() - 1] == it);
                assert forall|p2: int| 0 <= p2 <= p && g.origin(p2) == x implies r@.contains(
                    SlrRule { rule: (p2 + 1) as usize, dot: 0 }) by {
                    if p2 < p {
                        let q = choose|q: int| 0 <= q < old_r.len() && old_r[q] == SlrRule { rule: (p2 + 1) as usize, dot: 0 };
                        assert(r@[q] == old_r[q]);
                    }
                }
            }
        }
        p = p + 1;
    }
    r
}

/// Computes CLOSURE of the item set `kernel`.
pub fn closure_items(g: &Grammar, kernel: &Vec<SlrRule>) -> (c: Vec<SlrRule>)
    requires
        g.wf(),
        items_ok(g, kernel@),
    ensures
        items_ok(g, c@),
        is_closure(g, kernel@.to_set(), c@.to_set()),
{
    let nr = g.rules.len();
    let ghost k = kernel@.to_set();
    let mut c: Vec<SlrRule> = Vec::new();
    let mut i: usize = 0;
    while i < kernel.len()
        invariant
            i <= kernel@.len(),
            c@ == kernel@.take(i as int),
        decreases kernel@.len() - i,
    {
        c.push(kernel[i]);
        i = i + 1;
    }
    assert(kernel@.take(i as int) =~= kernel@);
    let mut added = falses(nr);
    proof {
        lemma_count_true_zero(added@);
    }
    let mut idx: usize = 0;
    while idx < c.len()
        invariant
            g.wf(),
            nr == g.nrules(),
            k == kernel@.to_set(),
            items_ok(g, c@),
            added@.len() == nr,
            c@.len() == kernel@.len() + count_true(added@),
            idx <= c@.len(),
            c@.take(kernel@.len() as int) == kernel@,
            forall|p: int| 0 <= p < nr && #[trigger] added@[p] ==> c@.contains(SlrRule { rule: (p + 1) as usize, dot: 0 }),
            forall|c2: Set<SlrRule>| #[trigger] closure_closed(g, k, c2) ==> c@.to_set().subset_of(c2),
            forall|q: int, p: int|
                #![trigger c@[q], g.origin(p)]
                0 <= q < idx && 0 <= p < nr && next_sym(g, c@[q]) == Some(g.origin(p)) ==> c@.contains(
                    SlrRule { rule: (p + 1) as usize, dot: 0 },
                ),
        decreases kernel@.len() + nr - idx,
    {
        let it = c[idx];
        assert(item_ok(g, c@[idx as int]));
        match it.get_reading_symbol(g) {
            Some(x) => {
                let prods = get_extended_prods(g, x);
                let mut q: usize = 0;
                while q < prods.len()
                    invariant
                        g.wf(),
                        nr == g.nrules(),
                        k == kernel@.to_set(),
                        items_ok(g, c@),
                        added@.len() == nr,
                        c@.len() == kernel@.len() + count_true(added@),
                        idx < c@.len(),
                        c@[idx as int] == it,
                        next_sym(g, it) == Some(x),
                        q <= prods@.len(),
                        forall|q2: int| 0 <= q2 < prods@.len() ==> (#[trigger] prods@[q2]).dot == 0 && 1 <= prods@[q2].rule <= nr
                            && g.origin(prods@[q2].rule - 1) == x,
                        c@.take(kernel@.len() as int) == kernel@,
                        forall|p2: int| 0 <= p2 < nr && #[trigger] added@[p2] ==> c@.contains(SlrRule { rule: (p2 + 1) as usize, dot: 0 }),
                        forall|c2: Set<SlrRule>| #[trigger] closure_closed(g, k, c2) ==> c@.to_set().subset_of(c2),
                        forall|q3: int, p2: int|
                            #![trigger c@[q3], g.origin(p2)]
                            0 <= q3 < idx && 0 <= p2 < nr && next_sym(g, c@[q3]) == Some(g.origin(p2)) ==> c@.contains(
                                SlrRule { rule: (p2 + 1) as usize, dot: 0 },
                            ),
                        forall|q2: int| 0 <= q2 < q ==> c@.contains(#[trigger] prods@[q2]),
                    decreases prods@.len() - q,
                {
                    let ni = prods[q];
                    let p = ni.rule - 1;
                    assert(ni == SlrRule { rule: (p + 1) as usize, dot: 0 });
                    if !added[p] {
                        let ghost old_c = c@;
                        proof {
                            lemma_count_true_set(added@, p as int);
                            assert forall|c2: Set<SlrRule>| #[trigger] closure_closed(g, k, c2) implies c@.push(ni).to_set().subset_of(c2) by {
                                assert(c@.to_set().contains(it));
                                assert(c2.contains(it));
                                assert(g.origin(p as int) == x);
                                assert(next_sym(g, it) == Some(g.origin(p as int)));
                                assert(c2.contains(ni));
                                assert forall|y: SlrRule| c@.push(ni).to_set().contains(y) implies c2.contains(y) by {
                                    if y != ni {
                                        let j = choose|j: int| 0 <= j < c@.push(ni).len() && c@.push(ni)[j] == y;
                                        assert(c@[j] == y);
                                        assert(c@.to_set().contains(y));
                                    }
                                }
                            }
                        }
                        c.push(ni);
                        added.set(p, true);
                        proof {
                            assert(c@.take(kernel@.len() as int) =~= old_c.take(kernel@.len() as int));
                            assert(c@[c@.len() - 1] == ni);
                            assert forall|p2: int| 0 <= p2 < nr && #[trigger] added@[p2] implies c@.contains(SlrRule { rule: (p2 + 1) as usize, dot: 0 }) by {
                                if p2 != p {
                                    assert(old_c.contains(SlrRule { rule: (p2 + 1) as usize, dot: 0 }));
                                }
                            }
                            assert forall|q3: int, p2: int|
                                #![trigger c@[q3], g.origin(p2)]
                                0 <= q3 < idx && 0 <= p2 < nr && next_sym(g, c@[q3]) == Some(g.origin(p2)) implies c@.contains(
                                    SlrRule { rule: (p2 + 1) as usize, dot: 0 }) by {
                                assert(old_c[q3] == c@[q3]);
                                assert(old_c.contains(SlrRule { rule: (p2 + 1) as usize, dot: 0 }));
                            }
                            assert forall|q2: int| 0 <= q2 <= q implies c@.contains(#[trigger] prods@[q2]) by {
                                if q2 < q {
                                    assert(old_c.contains(prods@[q2]));
                                }
                            }
                        }
                    }
                    q = q + 1;
                }
                proof {
                    assert forall|p2: int| 0 <= p2 < nr && g.origin(p2) == x implies c@.contains(
                        SlrRule { rule: (p2 + 1) as usize, dot: 0 }) by {
                        assert(prods@.contains(SlrRule { rule: (p2 + 1) as usize, dot: 0 }));
                        let q2 = choose|q2: int| 0 <= q2 < prods@.len() && prods@[q2] == SlrRule { rule: (p2 + 1) as usize, dot: 0 };
                        assert(c@.contains(prods@[q2]));
                    }
                }
            },
            None => {},
        }
        proof {
            lemma_count_true_bound(added@);
        }
        idx = idx + 1;
    }
    proof {
        let cs = c@.to_set();
        assert forall|y: SlrRule| k.contains(y) implies cs.contains(y) by {
            let j = choose|j: int| 0 <= j < kernel@.len() && kernel@[j] == y;
            assert(c@.take(kernel@.len() as int)[j] == y);
            assert(c@[j] == y);
        }
        assert forall|it: SlrRule, p: int|
            #![trigger cs.contains(it), g.origin(p)]
            cs.contains(it) && 0 <= p < g.nrules() && next_sym(g, it) == Some(g.origin(p)) implies cs.contains(
                SlrRule { rule: (p + 1) as usize, dot: 0 }) by {
            let q = choose|q: int| 0 <= q < c@.len() && c@[q] == it;
            assert(c@.contains(SlrRule { rule: (p + 1) as usize, dot: 0 }));
        }
        assert(closure_closed(g, k, cs));
    }
    c
}

/// The kernel of GOTO(c, x): the items of `c` with the dot before `x`, the dot moved
/// over it.
pub open spec fn goto_set(g: &Grammar, c: Set<SlrRule>, x: usize) -> Set<SlrRule> {
    Set::new(
        |j: SlrRule|
            1 <= j.dot && c.contains(SlrRule { rule: j.rule, dot: (j.dot - 1) as usize }) && next_sym(
                g,
                SlrRule { rule: j.rule, dot: (j.dot - 1) as usize },
            ) == Some(x),
    )
}

/// Some item of `c` has the dot right before `x`.
pub open spec fn reads(g: &Grammar, c: Set<SlrRule>, x: usize) -> bool {
    exists|it: SlrRule| #[trigger] c.contains(it) && next_sym(g, it) == Some(x)
}

/// Whether `s` holds `it`.
fn has_item(s: &Vec<SlrRule>, it: SlrRule) -> (r: bool)
    ensures
        r == s@.contains(it),
{
    let mut i: usize = 0;
    while i < s.len()
        invariant
            i <= s@.len(),
            forall|j: int| 0 <= j < i ==> s@[j] != it,
        decreases s@.len() - i,
    {
        if s[i] == it {
            return true;
        }
        i = i + 1;
    }
    false
}

/// Whether every item of `a` is in `b`.
fn all_in(a: &Vec<SlrRule>, b: &Vec<SlrRule>) -> (r: bool)
    ensures
        r == a@.to_set().subset_of(b@.to_set()),
{
    let mut i: usize = 0;
    while i < a.len()
        invariant
            i <= a@.len(),
            forall|j: int| 0 <= j < i ==> b@.contains(#[trigger] a@[j]),
        decreases a@.len() - i,
    {
        if !has_item(b, a[i]) {
            assert(a@.to_set().contains(a@[i as int]));
            return false;
        }
        i = i + 1;
    }
    assert forall|y: SlrRule| a@.to_set().contains(y) implies b@.to_set().contains(y) by {
        let j = choose|j: int| 0 <= j < a@.len() && a@[j] == y;
        assert(b@.contains(a@[j]));
    }
    true
}

/// Whether `a` and `b` hold the same items, in whatever order.
pub fn same_items(a: &Vec<SlrRule>, b: &Vec<SlrRule>) -> (r: bool)
    ensures
        r == (a@.to_set() == b@.to_set()),
{
    let r = all_in(a, b) && all_in(b, a);
    proof {
        if r {
            assert(a@.to_set() =~= b@.to_set());
        }
    }
    r
}

/// An LR(0) state: its kernel and its closure (`extended_state`, which holds the
/// kernel too).
pub struct SlrState {
    pub kernel: Vec<SlrRule>,
    pub extended_state: Vec<SlrRule>,
}

impl SlrState {
    /// The items are items of `g`, and `extended_state` is the closure of the kernel.
    pub open spec fn wf(&self, g: &Grammar) -> bool {
        &&& items_ok(g, self.kernel@)
        &&& items_ok(g, self.extended_state@)
        &&& is_closure(g, self.kernel@.to_set(), self.extended_state@.to_set())
    }

    /// The state with kernel `kernel`, closure computed.
    pub fn new(g: &Grammar, kernel: Vec<SlrRule>) -> (s: SlrState)
        requires
            g.wf(),
            items_ok(g, kernel@),
        ensures
            s.kernel@ == kernel@,
            s.wf(g),
    {
        let mut s = SlrState { kernel, extended_state: Vec::new() };
        add_extender_prods(g, &mut s);
        s
    }

    /// Rule numbers of the items of this state with the dot at the end.
    pub fn get_end_rules(&self, g: &Grammar) -> (r: Vec<usize>)
        requires
            g.wf(),
            items_ok(g, self.extended_state@),
        ensures
            forall|k: usize| #[trigger] r@.contains(k) <==> k < aug_len(g) && self.extended_state@.to_set().contains(
                SlrRule { rule: k, dot: aug_body(g, k as int).len() as usize },
            ),
    {
        let c = &self.extended_state;
        let mut r: Vec<usize> = Vec::new();
        let mut i: usize = 0;
        while i < c.len()
            invariant
                g.wf(),
                items_ok(g, c@),
                i <= c@.len(),
                forall|k: usize| #[trigger] r@.contains(k) <==> k < aug_len(g) && c@.take(i as int).contains(
                    SlrRule { rule: k, dot: aug_body(g, k as int).len() as usize },
                ),
            decreases c@.len() - i,
        {
            let it = c[i];
            assert(item_ok(g, c@[i as int]));
            let ghost old_r = r@;
            proof {
                assert(c@.take(i + 1) =~= c@.take(i as int).push(it));
            }
            if it.dot == body_len(g, it.rule) {
                r.push(it.rule);
            }
            i = i + 1;
        }
        proof {
            assert(c@.take(i as int) =~= c@);
            assert forall|k: usize| c@.contains(SlrRule { rule: k, dot: aug_body(g, k as int).len() as usize })
                <==> c@.to_set().contains(SlrRule { rule: k, dot: aug_body(g, k as int).len() as usize }) by {}
        }
        r
    }

    /// The kernel of GOTO on `x` from this state.
    pub fn get_next_kernel(&self, g: &Grammar, x: usize) -> (k: Vec<SlrRule>)
        requires
            g.wf(),
            items_ok(g, self.extended_state@),
        ensures
            items_ok(g, k@),
            k@.to_set() == goto_set(g, self.extended_state@.to_set(), x),
            reads(g, self.extended_state@.to_set(), x) ==> k@.len() > 0,
    {
        let c = &self.extended_state;
        let mut k: Vec<SlrRule> = Vec::new();
        let mut i: usize = 0;
        while i < c.len()
            invariant
                g.wf(),
                items_ok(g, c@),
                items_ok(g, k@),
                i <= c@.len(),
                forall|y: SlrRule| k@.contains(y) ==> #[trigger] goto_set(g, c@.to_set(), x).contains(y),
                forall|j: int| 0 <= j < i && #[trigger] next_sym(g, c@[j]) == Some(x) ==> k@.contains(
                    SlrRule { rule: c@[j].rule, dot: (c@[j].dot + 1) as usize },
                ),
            decreases c@.len() - i,
        {
            let it = c[i];
            assert(item_ok(g, c@[i as int]));
            if it.get_reading_symbol(g) == Some(x) {
                let ghost old_k = k@;
                let mut ni = it;
                ni.advance(g);
                assert(c@.to_set().contains(it));
                assert(SlrRule { rule: ni.rule, dot: (ni.dot - 1) as usize } == it);
                k.push(ni);
                proof {
                    assert(k@[k@.len() - 1] == ni);
                    assert forall|y: SlrRule| k@.contains(y) implies #[trigger] goto_set(g, c@.to_set(), x).contains(y) by {
                        if y != ni {
                            let j = choose|j: int| 0 <= j < k@.len() && k@[j] == y;
                            assert(old_k[j] == y);
                        }
                    }
                    assert forall|j: int| 0 <= j <= i && #[trigger] next_sym(g, c@[j]) == Some(x) implies k@.contains(
                        SlrRule { rule: c@[j].rule, dot: (c@[j].dot + 1) as usize }) by {
                        if j < i {
                            let y = SlrRule { rule: c@[j].rule, dot: (c@[j].dot + 1) as usize };
                            let q = choose|q: int| 0 <= q < old_k.len() && old_k[q] == y;
                            assert(k@[q] == y);
                        }
                    }
                }
            }
            i = i + 1;
        }
        proof {
            let gs = goto_set(g, c@.to_set(), x);
            assert forall|y: SlrRule| gs.contains(y) implies k@.to_set().contains(y) by {
                let prev = SlrRule { rule: y.rule, dot: (y.dot - 1) as usize };
                let j = choose|j: int| 0 <= j < c@.len() && c@[j] == prev;
                assert(next_sym(g, c@[j]) == Some(x));
            }
            assert(k@.to_set() =~= gs);
            if reads(g, c@.to_set(), x) {
                let it = choose|it: SlrRule| #[trigger] c@.to_set().contains(it) && next_sym(g, it) == Some(x);
                let j = choose|j: int| 0 <= j < c@.len() && c@[j] == it;
                assert(next_sym(g, c@[j]) == Some(x));
            }
        }
        k
    }

    /// The symbols that stand right after a dot in this state, in increasing order.
    pub fn get_reading_symbols(&self, g: &Grammar) -> (syms: Vec<usize>)
        requires
            g.wf(),
            items_ok(g, self.extended_state@),
        ensures
            forall|i: int, j: int| 0 <= i < j < syms@.len() ==> syms@[i] < syms@[j],
            syms@.no_duplicates(),
            forall|x: usize| syms@.contains(x) <==> reads(g, self.extended_state@.to_set(), x),
            forall|i: int| 0 <= i < syms@.len() ==> syms@[i] < g.nsym(),
    {
        let c = &self.extended_state;
        let n = g.names.len();
        let mut syms: Vec<usize> = Vec::new();
        let mut x: usize = 0;
        while x < n
            invariant
                g.wf(),
                n == g.nsym(),
                items_ok(g, c@),
                x <= n,
                forall|i: int, j: int| 0 <= i < j < syms@.len() ==> syms@[i] < syms@[j],
                forall|i: int| 0 <= i < syms@.len() ==> syms@[i] < x,
                forall|y: usize| y < x ==> (syms@.contains(y) <==> reads(g, c@.to_set(), y)),
            decreases n - x,
        {
            let ghost old_s = syms@;
            if reads_symbol(g, c, x) {
                syms.push(x);
                proof {
                    assert(syms@[syms@.len() - 1] == x);
                    assert forall|y: usize| y < x + 1 implies (syms@.contains(y) <==> reads(g, c@.to_set(), y)) by {
                        if y < x && syms@.contains(y) {
                            let j = choose|j: int| 0 <= j < syms@.len() && syms@[j] == y;
                            assert(old_s[j] == y);
                        }
                        if y < x && old_s.contains(y) {
                            let j = choose|j: int| 0 <= j < old_s.len() && old_s[j] == y;
                            assert(syms@[j] == y);
                        }
                    }
                }
            } else {
                proof {
                    assert forall|y: usize| y < x + 1 implies (syms@.contains(y) <==> reads(g, c@.to_set(), y)) by {
                        if y == x && syms@.contains(y) {
                            let j = choose|j: int| 0 <= j < syms@.len() && syms@[j] == y;
                        }
                    }
                }
            }
            x = x + 1;
        }
        proof {
            assert forall|y: usize| syms@.contains(y) <==> reads(g, c@.to_set(), y) by {
                if y >= n {
                    if reads(g, c@.to_set(), y) {
                        let it = choose|it: SlrRule| #[trigger] c@.to_set().contains(it) && next_sym(g, it) == Some(y);
                        let j = choose|j: int| 0 <= j < c@.len() && c@[j] == it;
                        assert(item_ok(g, c@[j]));
                        if it.rule == 0 {
                            assert(g.origin(0) < g.nsym());
                        } else {
                            assert(g.body(it.rule - 1)[it.dot as int] < g.nsym());
                        }
                    }
                    if syms@.contains(y) {
                        let j = choose|j: int| 0 <= j < syms@.len() && syms@[j] == y;
                    }
                }
            }
        }
        syms
    }
}

/// Whether some item of `c` has the dot right before `x`.
fn reads_symbol(g: &Grammar, c: &Vec<SlrRule>, x: usize) -> (r: bool)
    requires
        g.wf(),
        items_ok(g, c@),
    ensures
        r == reads(g, c@.to_set(), x),
{
    let mut i: usize = 0;
    while i < c.len()
        invariant
            g.wf(),
            items_ok(g, c@),
            i <= c@.len(),
            forall|j: int| 0 <= j < i ==> next_sym(g, #[trigger] c@[j]) != Some(x),
        decreases c@.len() - i,
    {
        assert(item_ok(g, c@[i as int]));
        if c[i].get_reading_symbol(g) == Some(x) {
            assert(c@.to_set().contains(c@[i as int]));
            return true;
        }
        i = i + 1;
    }
    proof {
        if reads(g, c@.to_set(), x) {
            let it = choose|it: SlrRule| #[trigger] c@.to_set().contains(it) && next_sym(g, it) == Some(x);
            let j = choose|j: int| 0 <= j < c@.len() && c@[j] == it;
            assert(next_sym(g, c@[j]) != Some(x));
        }
    }
    false
}

/// Computes the closure of the kernel of `state` into its `extended_state`.
pub fn add_extender_prods(g: &Grammar, state: &mut SlrState)
    requires
        g.wf(),
        items_ok(g, old(state).kernel@),
    ensures
        final(state).kernel@ == old(state).kernel@,
        final(state).wf(g),
{
    let c = closure_items(g, &state.kernel);
    state.extended_state = c;
}

proof fn lemma_item_box_finite(a: Set<usize>, b: Set<usize>)
    requires
        a.finite(),
        b.finite(),
    ensures
        Set::new(|it: SlrRule| a.contains(it.rule) && b.contains(it.dot)).finite(),
    decreases b.len(),
{
    let s = Set::new(|it: SlrRule| a.contains(it.rule) && b.contains(it.dot));
    if b.len() == 0 {
        assert(b =~= Set::empty());
        assert(s =~= Set::empty());
    } else {
        let d = b.choose();
        let b2 = b.remove(d);
        lemma_item_box_finite(a, b2);
        let s2 = Set::new(|it: SlrRule| a.contains(it.rule) && b2.contains(it.dot));
        let row = a.map(|r: usize| SlrRule { rule: r, dot: d });
        a.lemma_map_finite(|r: usize| SlrRule { rule: r, dot: d });
        assert forall|it: SlrRule| s.contains(it) implies s2.union(row).contains(it) by {
            if it.dot == d {
                assert(row.contains(SlrRule { rule: it.rule, dot: d }));
            }
        }
        assert(s =~= s2.union(row));
        vstd::set_lib::lemma_set_union_finite_iff(s2, row);
    }
}

/// There are finitely many items.
proof fn lemma_items_finite()
    ensures
        Set::<SlrRule>::full().finite(),
{
    let f = Set::<usize>::full();
    broadcast use vstd::set_lib::full_set_properties;

    lemma_item_box_finite(f, f);
    assert(Set::<SlrRule>::full() =~= Set::new(|it: SlrRule| f.contains(it.rule) && f.contains(it.dot)));
}

proof fn lemma_subsets_finite(u: Set<SlrRule>)
    requires
        u.finite(),
    ensures
        Set::new(|s: Set<SlrRule>| s.subset_of(u)).finite(),
    decreases u.len(),
{
    let p = Set::new(|s: Set<SlrRule>| s.subset_of(u));
    if u.len() == 0 {
        assert(u =~= Set::empty());
        assert forall|s: Set<SlrRule>| p.contains(s) implies s == Set::<SlrRule>::empty() by {
            assert(s =~= Set::<SlrRule>::empty());
        }
        assert(p =~= set![Set::<SlrRule>::empty()]);
    } else {
        let x = u.choose();
        let u2 = u.remove(x);
        lemma_subsets_finite(u2);
        let p2 = Set::new(|s: Set<SlrRule>| s.subset_of(u2));
        let q = p2.map(|s: Set<SlrRule>| s.insert(x));
        p2.lemma_map_finite(|s: Set<SlrRule>| s.insert(x));
        assert forall|s: Set<SlrRule>| p.contains(s) implies p2.union(q).contains(s) by {
            if s.contains(x) {
                let s2 = s.remove(x);
                assert(p2.contains(s2));
                assert(s2.insert(x) =~= s);
                assert(q.contains(s));
            } else {
                assert(p2.contains(s));
            }
        }
        assert forall|s: Set<SlrRule>| p2.union(q).contains(s) implies p.contains(s) by {
            if !p2.contains(s) {
                let s2 = choose|s2: Set<SlrRule>| p2.contains(s2) && s2.insert(x) == s;
            }
        }
        assert(p =~= p2.union(q));
        vstd::set_lib::lemma_set_union_finite_iff(p2, q);
    }
}

/// There are finitely many sets of items.
pub proof fn lemma_item_sets_finite()
    ensures
        Set::<Set<SlrRule>>::full().finite(),
{
    lemma_items_finite();
    lemma_subsets_finite(Set::<SlrRule>::full());
    assert(Set::<Set<SlrRule>>::full() =~= Set::new(|s: Set<SlrRule>| s.subset_of(Set::<SlrRule>::full())));
}

/// Some state before `j` has a transition into `j`.
pub open spec fn reached_in(ts: Seq<Seq<(usize, usize)>>, j: int) -> bool {
    exists|p: int, q: int|
        0 <= p < j && p < ts.len() && 0 <= q < ts[p].len() && #[trigger] ts[p][q].1 == j
}

/// Some transition at or before position `(i, q)`, rows first, leads to state `j`.
pub open spec fn reached_by(ts: Seq<Seq<(usize, usize)>>, j: int, i: int, q: int) -> bool {
    exists|i1: int, q1: int|
        0 <= i1 < ts.len() && 0 <= q1 < ts[i1].len() && (i1 < i || (i1 == i && q1 <= q))
            && #[trigger] ts[i1][q1].1 == j
}

/// States are numbered in the order they are first reached when the transitions are
/// read row by row: a transition into state `j` comes no earlier than a transition
/// into each state `1 .. j`.
pub open spec fn numbered_in_order(ts: Seq<Seq<(usize, usize)>>) -> bool {
    forall|j: int, i: int, q: int|
        0 <= i < ts.len() && 0 <= q < ts[i].len() && 1 <= j < ts[i][q].1 ==> #[trigger] reached_by(
            ts,
            j,
            i,
            q,
        )
}

/// The canonical collection of LR(0) states: state `j` has kernel `kernels[j]` and
/// the transitions `transitions[j]`, pairs of a symbol and a target state.
pub struct Automaton {
    pub kernels: Vec<Vec<SlrRule>>,
    pub transitions: Vec<Vec<(usize, usize)>>,
}

impl Automaton {
    pub open spec fn len(&self) -> nat {
        self.kernels@.len()
    }

    /// Kernel of state `j`, as a set of items.
    pub open spec fn kernel(&self, j: int) -> Set<SlrRule> {
        self.kernels@[j]@.to_set()
    }

    pub open spec fn trans(&self) -> Seq<Seq<(usize, usize)>> {
        self.transitions@.map_values(|t: Vec<(usize, usize)>| t@)
    }

    /// The symbols on which state `i` has transitions.
    pub open spec fn trans_syms(&self, i: int) -> Seq<usize> {
        self.trans()[i].map_values(|t: (usize, usize)| t.0)
    }

    /// The closure of state `i` exists; state `i` has one transition on each symbol
    /// that its closure reads, in increasing order of symbols, into the state whose
    /// kernel is GOTO of its closure on that symbol.
    pub open spec fn trans_ok(&self, g: &Grammar, i: int) -> bool {
        let c = closure(g, self.kernel(i));
        &&& is_closure(g, self.kernel(i), c)
        &&& self.trans_syms(i).no_duplicates()
        &&& forall|q1: int, q2: int|
            0 <= q1 < q2 < self.trans_syms(i).len() ==> self.trans_syms(i)[q1] < self.trans_syms(i)[q2]
        &&& forall|x: usize| #[trigger] self.trans_syms(i).contains(x) <==> reads(g, c, x)
        &&& forall|q: int|
            0 <= q < self.trans()[i].len() ==> {
                let t = #[trigger] self.trans()[i][q];
                t.1 < self.len() && self.kernel(t.1 as int) == goto_set(g, c, t.0)
            }
    }

    /// The collection is the canonical LR(0) collection of the augmented grammar:
    /// state 0 has the kernel `{S' -> . S}`, kernels are non-empty and pairwise
    /// distinct as sets, every state has its transitions, every state after the
    /// first is the target of a transition from an earlier one, and states are
    /// numbered in the order in which the transitions first reach them.
    pub open spec fn canonical(&self, g: &Grammar) -> bool {
        &&& self.len() >= 1
        &&& self.transitions@.len() == self.len()
        &&& self.kernel(0) == set![SlrRule { rule: 0, dot: 0 }]
        &&& forall|j: int| 0 <= j < self.len() ==> items_ok(g, #[trigger] self.kernels@[j]@)
        &&& forall|j: int| 0 <= j < self.len() ==> #[trigger] self.kernel(j) != Set::<SlrRule>::empty()
        &&& forall|a: int, b: int|
            0 <= a < self.len() && 0 <= b < self.len() && a != b ==> self.kernel(a) != self.kernel(b)
        &&& forall|i: int| 0 <= i < self.len() ==> #[trigger] self.trans_ok(g, i)
        &&& forall|j: int| 1 <= j < self.len() ==> #[trigger] reached_in(self.trans(), j)
        &&& numbered_in_order(self.trans())
    }
}

/// Index of the state among `kernels` whose kernel holds the items of `k`.
fn find_state(kernels: &Vec<Vec<SlrRule>>, k: &Vec<SlrRule>) -> (r: Option<usize>)
    ensures
        r matches Some(j) ==> j < kernels@.len() && kernels@[j as int]@.to_set() == k@.to_set(),
        r is None ==> forall|j: int| 0 <= j < kernels@.len() ==> kernels@[j]@.to_set() != k@.to_set(),
{
    let mut j: usize = 0;
    while j < kernels.len()
        invariant
            j <= kernels@.len(),
            forall|i: int| 0 <= i < j ==> kernels@[i]@.to_set() != k@.to_set(),
        decreases kernels@.len() - j,
    {
        if same_items(&kernels[j], k) {
            return Some(j);
        }
        j = j + 1;
    }
    None
}

/// Pairwise distinct kernels are no more than the sets of items.
proof fn lemma_states_bounded(ks: Seq<Vec<SlrRule>>)
    requires
        forall|a: int, b: int|
            0 <= a < ks.len() && 0 <= b < ks.len() && a != b ==> ks[a]@.to_set() != ks[b]@.to_set(),
    ensures
        ks.len() <= Set::<Set<SlrRule>>::full().len(),
{
    let sets = ks.map_values(|k: Vec<SlrRule>| k@.to_set());
    assert(sets.no_duplicates());
    sets.unique_seq_to_set();
    lemma_item_sets_finite();
    vstd::set_lib::lemma_len_subset(sets.to_set(), Set::<Set<SlrRule>>::full());
}

/// A copy of the items `k`.
pub fn copy_items(k: &Vec<SlrRule>) -> (r: Vec<SlrRule>)
    ensures
        r@ == k@,
{
    let mut r: Vec<SlrRule> = Vec::new();
    let mut i: usize = 0;
    while i < k.len()
        invariant
            i <= k@.len(),
            r@ == k@.take(i as int),
        decreases k@.len() - i,
    {
        r.push(k[i]);
        i = i + 1;
    }
    assert(k@.take(i as int) =~= k@);
    r
}

proof fn lemma_order_push_empty(ts: Seq<Seq<(usize, usize)>>)
    requires
        numbered_in_order(ts),
    ensures
        numbered_in_order(ts.push(seq![])),
{
    let ts1 = ts.push(seq![]);
    assert forall|j: int, i: int, q: int|
        0 <= i < ts1.len() && 0 <= q < ts1[i].len() && 1 <= j < ts1[i][q].1 implies #[trigger] reached_by(
            ts1,
            j,
            i,
            q,
        ) by {
        assert(i < ts.len());
        assert(ts1[i] == ts[i]);
        assert(reached_by(ts, j, i, q));
        let (i1, q1) = choose|i1: int, q1: int|
            0 <= i1 < ts.len() && 0 <= q1 < ts[i1].len() && (i1 < i || (i1 == i && q1 <= q))
                && #[trigger] ts[i1][q1].1 == j;
        assert(ts1[i1] == ts[i1]);
    }
}

/// Appending to the last row a transition into a state that exists or is the next
/// new one keeps the numbering in order, when every earlier state is reached.
proof fn lemma_order_extend(ts: Seq<Seq<(usize, usize)>>, t: (usize, usize), nk: int)
    requires
        ts.len() >= 1,
        numbered_in_order(ts),
        forall|j: int| 1 <= j < nk ==> #[trigger] reached_in(ts, j),
        t.1 <= nk,
    ensures
        numbered_in_order(ts.update(ts.len() - 1, ts.last().push(t))),
{
    let l = ts.len() - 1;
    let ts1 = ts.update(l, ts.last().push(t));
    assert forall|j: int, i: int, q: int|
        0 <= i < ts1.len() && 0 <= q < ts1[i].len() && 1 <= j < ts1[i][q].1 implies #[trigger] reached_by(
            ts1,
            j,
            i,
            q,
        ) by {
        if i == l && q == ts[l].len() {
            assert(reached_in(ts, j));
            let (p, q1) = choose|p: int, q1: int|
                0 <= p < j && p < ts.len() && 0 <= q1 < ts[p].len() && #[trigger] ts[p][q1].1 == j;
            assert(ts1[p][q1] == ts[p][q1]);
        } else {
            assert(ts1[i][q] == ts[i][q]);
            assert(reached_by(ts, j, i, q));
            let (i1, q1) = choose|i1: int, q1: int|
                0 <= i1 < ts.len() && 0 <= q1 < ts[i1].len() && (i1 < i || (i1 == i && q1 <= q))
                    && #[trigger] ts[i1][q1].1 == j;
            assert(ts1[i1][q1] == ts[i1][q1]);
        }
    }
}

/// Builds the canonical collection of LR(0) states of the augmented grammar,
/// numbering new states in the order in which they are found (FIFO).
pub fn build_slr(g: &Grammar) -> (a: Automaton)
    requires
        g.wf(),
    ensures
        a.canonical(g),
{
    let ghost bound = Set::<Set<SlrRule>>::full().len();
    let mut kernels: Vec<Vec<SlrRule>> = Vec::new();
    let k0 = vec![SlrRule::_new(0)];
    proof {
        assert(k0@.to_set() =~= set![SlrRule { rule: 0, dot: 0 }]) by {
            assert(k0@[0] == SlrRule { rule: 0, dot: 0 });
        }
        assert(item_ok(g, k0@[0]));
    }
    kernels.push(k0);
    assert(kernels@[0]@.to_set().contains(SlrRule { rule: 0, dot: 0 }));
    let mut transitions: Vec<Vec<(usize, usize)>> = Vec::new();
    let mut i: usize = 0;
    while i < kernels.len()
        invariant
            g.wf(),
            bound == Set::<Set<SlrRule>>::full().len(),
            i <= kernels@.len(),
            transitions@.len() == i,
            kernels@.len() >= 1,
            kernels@[0]@.to_set() == set![SlrRule { rule: 0, dot: 0 }],
            forall|j: int| 0 <= j < kernels@.len() ==> items_ok(g, #[trigger] kernels@[j]@),
            forall|j: int| 0 <= j < kernels@.len() ==> #[trigger] kernels@[j]@.to_set() != Set::<SlrRule>::empty(),
            forall|x: int, y: int|
                0 <= x < kernels@.len() && 0 <= y < kernels@.len() && x != y ==> kernels@[x]@.to_set()
                    != kernels@[y]@.to_set(),
            forall|p: int| 0 <= p < i ==> #[trigger] (Automaton { kernels, transitions }).trans_ok(g, p),
            forall|j: int| 1 <= j < kernels@.len() ==> #[trigger] reached_in((Automaton { kernels, transitions }).trans(), j),
            numbered_in_order((Automaton { kernels, transitions }).trans()),
        decreases 2 * bound - kernels@.len() - i,
    {
        assert(items_ok(g, kernels@[i as int]@));
        let st = SlrState::new(g, copy_items(&kernels[i]));
        let cl = &st.extended_state;
        proof {
            lemma_closure_unique(g, kernels@[i as int]@.to_set(), cl@.to_set());
        }
        let syms = st.get_reading_symbols(g);
        let mut out: Vec<(usize, usize)> = Vec::new();
        let ghost len0 = kernels@.len();
        proof {
            let a0 = Automaton { kernels, transitions };
            assert forall|j: int| 1 <= j < kernels@.len() implies #[trigger] reached_in(a0.trans().push(out@), j) by {
                assert(reached_in(a0.trans(), j));
                let (p, q) = choose|p: int, q: int|
                    0 <= p < j && p < a0.trans().len() && 0 <= q < a0.trans()[p].len() && #[trigger] a0.trans()[p][q].1 == j;
                assert(a0.trans().push(out@)[p] == a0.trans()[p]);
            }
            assert(out@ =~= seq![]);
            lemma_order_push_empty(a0.trans());
        }
        let mut s: usize = 0;
        while s < syms.len()
            invariant
                g.wf(),
                i < kernels@.len(),
                transitions@.len() == i,
                kernels@[0]@.to_set() == set![SlrRule { rule: 0, dot: 0 }],
                items_ok(g, cl@),
                cl == &st.extended_state,
                cl@.to_set() == closure(g, kernels@[i as int]@.to_set()),
                is_closure(g, kernels@[i as int]@.to_set(), cl@.to_set()),
                syms@.no_duplicates(),
                forall|q1: int, q2: int| 0 <= q1 < q2 < syms@.len() ==> syms@[q1] < syms@[q2],
                forall|x: usize| syms@.contains(x) <==> reads(g, cl@.to_set(), x),
                s <= syms@.len(),
                kernels@.len() >= len0,
                len0 > i,
                out@.len() == s,
                forall|q: int| 0 <= q < s ==> (#[trigger] out@[q]).0 == syms@[q],
                forall|q: int| 0 <= q < s ==> (#[trigger] out@[q]).1 < kernels@.len()
                    && kernels@[out@[q].1 as int]@.to_set() == goto_set(g, cl@.to_set(), out@[q].0),
                forall|j: int| 0 <= j < kernels@.len() ==> items_ok(g, #[trigger] kernels@[j]@),
                forall|j: int| 0 <= j < kernels@.len() ==> #[trigger] kernels@[j]@.to_set() != Set::<SlrRule>::empty(),
                forall|x: int, y: int|
                    0 <= x < kernels@.len() && 0 <= y < kernels@.len() && x != y ==> kernels@[x]@.to_set()
                        != kernels@[y]@.to_set(),
                forall|p: int| 0 <= p < i ==> #[trigger] (Automaton { kernels, transitions }).trans_ok(g, p),
                forall|j: int| 1 <= j < kernels@.len() ==> #[trigger] reached_in(
                    (Automaton { kernels, transitions }).trans().push(out@),
                    j,
                ),
                numbered_in_order((Automaton { kernels, transitions }).trans().push(out@)),
            decreases syms@.len() - s,
        {
            let x = syms[s];
            let nk = st.get_next_kernel(g, x);
            let ghost old_k = kernels@;
            let ghost old_out = out@;
            let ghost old_a = Automaton { kernels, transitions };
            match find_state(&kernels, &nk) {
                Some(j) => {
                    out.push((x, j));
                },
                None => {
                    proof {
                        assert(syms@.contains(x));
                        assert(nk@.to_set().contains(nk@[0]));
                    }
                    let j = kernels.len();
                    kernels.push(nk);
                    out.push((x, j));
                },
            }
            proof {
                let new_a = Automaton { kernels, transitions };
                assert(new_a.trans() == old_a.trans());
                assert forall|p: int| 0 <= p < i implies #[trigger] new_a.trans_ok(g, p) by {
                    assert(old_a.trans_ok(g, p));
                    assert(new_a.kernel(p) == old_a.kernel(p));
                    assert forall|q: int| 0 <= q < new_a.trans()[p].len() implies {
                        let t = #[trigger] new_a.trans()[p][q];
                        t.1 < new_a.len() && new_a.kernel(t.1 as int) == goto_set(g, closure(g, new_a.kernel(p)), t.0)
                    } by {
                        let t = old_a.trans()[p][q];
                        assert(t.1 < old_a.len());
                        assert(new_a.kernel(t.1 as int) == old_a.kernel(t.1 as int));
                    }
                }
                let ts = new_a.trans().push(out@);
                let old_ts = old_a.trans().push(old_out);
                let t = out@[s as int];
                assert(out@ =~= old_out.push(t));
                assert(ts =~= old_ts.update(old_ts.len() - 1, old_ts.last().push(t)));
                lemma_order_extend(old_ts, t, old_k.len() as int);
                assert forall|j: int| 1 <= j < kernels@.len() implies #[trigger] reached_in(ts, j) by {
                    if j < old_k.len() {
                        assert(reached_in(old_ts, j));
                        let (p, q) = choose|p: int, q: int|
                            0 <= p < j && p < old_ts.len() && 0 <= q < old_ts[p].len() && #[trigger] old_ts[p][q].1 == j;
                        if p < i {
                            assert(ts[p][q] == old_ts[p][q]);
                        } else {
                            assert(ts[p] == out@);
                            assert(out@[q] == old_out[q]);
                            assert(ts[p][q].1 == j);
                        }
                    } else {
                        assert(i < j);
                        assert(ts[i as int] == out@);
                        assert(ts[i as int][s as int].1 == j);
                    }
                }
            }
            s = s + 1;
        }
        let ghost old_a = Automaton { kernels, transitions };
        let ghost old_out = out@;
        transitions.push(out);
        proof {
            let new_a = Automaton { kernels, transitions };
            assert(new_a.trans() =~= old_a.trans().push(old_out));
            assert(new_a.trans()[i as int] == old_out);
            assert(new_a.trans_syms(i as int) =~= syms@);
            assert(numbered_in_order(new_a.trans()));
            assert forall|p: int| 0 <= p <= i implies #[trigger] new_a.trans_ok(g, p) by {
                if p < i {
                    assert(old_a.trans_ok(g, p));
                    assert(new_a.trans()[p] == old_a.trans()[p]);
                    assert(new_a.trans_syms(p) == old_a.trans_syms(p));
                } else {
                    assert(new_a.kernel(p) == kernels@[i as int]@.to_set());
                    assert forall|q: int| 0 <= q < new_a.trans()[p].len() implies {
                        let t = #[trigger] new_a.trans()[p][q];
                        t.1 < new_a.len() && new_a.kernel(t.1 as int) == goto_set(g, closure(g, new_a.kernel(p)), t.0)
                    } by {
                        assert(new_a.trans()[p][q] == old_out[q]);
                    }
                }
            }
            assert forall|j: int| 1 <= j < kernels@.len() implies #[trigger] reached_in(new_a.trans(), j) by {
                assert(reached_in(old_a.trans().push(old_out), j));
            }
        }
        i = i + 1;
        proof {
            lemma_states_bounded(kernels@);
        }
    }
    let a = Automaton { kernels, transitions };
    proof {
        assert forall|j: int| 0 <= j < a.len() implies #[trigger] a.kernel(j) != Set::<SlrRule>::empty() by {
            assert(kernels@[j]@.to_set() != Set::<SlrRule>::empty());
        }
    }
    a
}

/// CLOSURE adds only items with the dot at the start: an item of the closure with
/// the dot further right is an item of the kernel.
pub proof fn lemma_closure_adds_initial_items(g: &Grammar, k: Set<SlrRule>, it: SlrRule)
    requires
        is_closure(g, k, closure(g, k)),
        closure(g, k).contains(it),
        it.dot > 0,
    ensures
        k.contains(it),
{
    let c = closure(g, k);
    let c2 = c.filter(|y: SlrRule| k.contains(y) || y.dot == 0);
    assert(closure_closed(g, k, c2));
    assert(c.subset_of(c2));
}

/// Every state of `a` has a kernel that some state of `b` has, when both are
/// canonical collections of `g`.
proof fn lemma_kernels_covered(g: &Grammar, a: &Automaton, b: &Automaton, j: int)
    requires
        a.canonical(g),
        b.canonical(g),
        0 <= j < a.len(),
    ensures
        exists|j2: int| 0 <= j2 < b.len() && #[trigger] b.kernel(j2) == a.kernel(j),
    decreases j,
{
    if j == 0 {
        assert(b.kernel(0) == a.kernel(0));
    } else {
        assert(reached_in(a.trans(), j));
        let (p, q) = choose|p: int, q: int|
            0 <= p < j && p < a.trans().len() && 0 <= q < a.trans()[p].len() && #[trigger] a.trans()[p][q].1 == j;
        lemma_kernels_covered(g, a, b, p);
        let p2 = choose|p2: int| 0 <= p2 < b.len() && #[trigger] b.kernel(p2) == a.kernel(p);
        let t = a.trans()[p][q];
        assert(a.trans_ok(g, p));
        assert(b.trans_ok(g, p2));
        assert(a.trans_syms(p)[q] == t.0);
        assert(a.trans_syms(p).contains(t.0));
        assert(b.trans_syms(p2).contains(t.0));
        let q2 = choose|q2: int| 0 <= q2 < b.trans_syms(p2).len() && b.trans_syms(p2)[q2] == t.0;
        let t2 = b.trans()[p2][q2];
        assert(b.kernel(t2.1 as int) == a.kernel(j));
    }
}

/// Building the canonical collection twice on one grammar gives the same states
/// up to numbering: as many states, each kernel of one found in the other, and
/// matching transitions between states of equal kernels.
pub proof fn lemma_canonical_unique(g: &Grammar, a: &Automaton, b: &Automaton)
    requires
        a.canonical(g),
        b.canonical(g),
    ensures
        a.len() == b.len(),
        forall|i: int| 0 <= i < a.len() ==> exists|j: int| 0 <= j < b.len() && #[trigger] b.kernel(j) == #[trigger] a.kernel(i),
{
    assert forall|i: int| 0 <= i < a.len() implies exists|j: int| 0 <= j < b.len() && #[trigger] b.kernel(j) == #[trigger] a.kernel(i) by {
        lemma_kernels_covered(g, a, b, i);
    }
    let ka = a.kernels@.map_values(|k: Vec<SlrRule>| k@.to_set());
    let kb = b.kernels@.map_values(|k: Vec<SlrRule>| k@.to_set());
    assert forall|x: Set<SlrRule>| ka.to_set().contains(x) implies kb.to_set().contains(x) by {
        let i = choose|i: int| 0 <= i < ka.len() && ka[i] == x;
        lemma_kernels_covered(g, a, b, i);
        let j = choose|j: int| 0 <= j < b.len() && #[trigger] b.kernel(j) == a.kernel(i);
        assert(kb[j] == x);
    }
    assert forall|x: Set<SlrRule>| kb.to_set().contains(x) implies ka.to_set().contains(x) by {
        let j = choose|j: int| 0 <= j < kb.len() && kb[j] == x;
        lemma_kernels_covered(g, b, a, j);
        let i = choose|i: int| 0 <= i < a.len() && #[trigger] a.kernel(i) == b.kernel(j);
        assert(ka[i] == x);
    }
    assert(ka.to_set() =~= kb.to_set());
    assert forall|x: int, y: int| 0 <= x < ka.len() && 0 <= y < ka.len() && x != y implies ka[x] != ka[y] by {
        assert(ka[x] == a.kernel(x) && ka[y] == a.kernel(y));
    }
    assert forall|x: int, y: int| 0 <= x < kb.len() && 0 <= y < kb.len() && x != y implies kb[x] != kb[y] by {
        assert(kb[x] == b.kernel(x) && kb[y] == b.kernel(y));
    }
    assert(ka.no_duplicates());
    assert(kb.no_duplicates());
    ka.unique_seq_to_set();
    kb.unique_seq_to_set();
}

/// Between two canonical collections of one grammar, states with equal kernels
/// have matching transitions: the same symbols, into states with equal kernels.
pub proof fn lemma_transition_matches(g: &Grammar, a: &Automaton, b: &Automaton, i: int, j: int, q: int)
    requires
        a.canonical(g),
        b.canonical(g),
        0 <= i < a.len(),
        0 <= j < b.len(),
        a.kernel(i) == b.kernel(j),
        0 <= q < a.trans()[i].len(),
    ensures
        exists|q2: int|
            0 <= q2 < b.trans()[j].len() && #[trigger] b.trans()[j][q2].0 == a.trans()[i][q].0
                && b.kernel(b.trans()[j][q2].1 as int) == a.kernel(a.trans()[i][q].1 as int),
{
    let t = a.trans()[i][q];
    assert(a.trans_ok(g, i));
    assert(b.trans_ok(g, j));
    assert(a.trans_syms(i)[q] == t.0);
    assert(a.trans_syms(i).contains(t.0));
    assert(b.trans_syms(j).contains(t.0));
    let q2 = choose|q2: int| 0 <= q2 < b.trans_syms(j).len() && b.trans_syms(j)[q2] == t.0;
    let t2 = b.trans()[j][q2];
    assert(t2.0 == t.0);
    assert(b.kernel(t2.1 as int) == goto_set(g, closure(g, b.kernel(j)), t2.0));
    assert(a.kernel(t.1 as int) == goto_set(g, closure(g, a.kernel(i)), t.0));
}

} // verus!
