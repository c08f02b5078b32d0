use vstd::prelude::*;

verus! {

broadcast use vstd::seq_lib::group_seq_properties;

/// A production `origin -> body`. Symbols are indices into the grammar's symbol table;
/// an empty body is the epsilon production.
pub struct Rule {
    pub origin: usize,
    pub body: Vec<usize>,
}

/// A context-free grammar: a symbol table, the productions in the order they were
/// loaded (production `k` is rule `k + 1` of the augmented grammar), and the start
/// symbol, which is the origin of the first production.
pub struct Grammar {
    pub names: Vec<Vec<char>>,
    pub rules: Vec<Rule>,
    pub start: usize,
}

impl Grammar {
    /// Number of user symbols; `nsym()` itself stands for the end marker `$`
    /// in FOLLOW sets and ACTION rows.
    pub open spec fn nsym(&self) -> nat {
        self.names@.len()
    }

    pub open spec fn nrules(&self) -> nat {
        self.rules@.len()
    }

    pub open spec fn origin(&self, k: int) -> usize {
        self.rules@[k].origin
    }

    pub open spec fn body(&self, k: int) -> Seq<usize> {
        self.rules@[k].body@
    }

    /// Non-terminals are exactly the origins of productions.
    pub open spec fn is_nonterminal(&self, x: int) -> bool {
        self.origin_among(x, self.nrules() as int)
    }

    /// `x` is the origin of one of the first `n` productions.
    pub open spec fn origin_among(&self, x: int, n: int) -> bool {
        exists|k: int| 0 <= k < n && self.origin(k) == x
    }

    /// `x` occurs in the body of one of the first `n` productions.
    pub open spec fn occurs_among(&self, x: int, n: int) -> bool {
        exists|k: int| 0 <= k < n && #[trigger] self.body(k).contains(x as usize)
    }

    pub open spec fn occurs_in_body(&self, x: int) -> bool {
        self.occurs_among(x, self.nrules() as int)
    }

    /// Terminals are the body symbols that are not non-terminals.
    pub open spec fn is_terminal(&self, x: int) -> bool {
        self.occurs_in_body(x) && !self.is_nonterminal(x)
    }

    /// There is a production, symbol numbers leave room for the end marker and the
    /// augmented start symbol, the start symbol is the first origin, and every
    /// production names symbols of the table.
    pub open spec fn wf(&self) -> bool {
        &&& self.nrules() > 0
        &&& self.nsym() + 2 < usize::MAX
        &&& self.start == self.origin(0)
        &&& forall|k: int| 0 <= k < self.nrules() ==> (#[trigger] self.origin(k)) < self.nsym()
        &&& forall|k: int, i: int|
            0 <= k < self.nrules() && 0 <= i < self.body(k).len() ==> #[trigger] self.body(k)[i]
                < self.nsym()
    }
}

/// The partition of the symbols into non-terminals and terminals.
pub struct Classes {
    pub nonterminal: Vec<bool>,
    pub terminal: Vec<bool>,
}

impl Classes {
    /// The flags are those of the symbols of `g`.
    pub open spec fn matches(&self, g: &Grammar) -> bool {
        &&& self.nonterminal@.len() == g.nsym()
        &&& self.terminal@.len() == g.nsym()
        &&& forall|x: int| 0 <= x < g.nsym() ==> self.nonterminal@[x] == g.is_nonterminal(x)
        &&& forall|x: int| 0 <= x < g.nsym() ==> self.terminal@[x] == g.is_terminal(x)
    }
}

/// Marks every symbol as non-terminal, terminal, or neither (a symbol of the table
/// that no production mentions).
pub fn classify(g: &Grammar) -> (c: Classes)
    requires
        g.wf(),
    ensures
        c.matches(g),
{
    let n = g.names.len();
    let mut nonterminal: Vec<bool> = Vec::new();
    let mut occurs: Vec<bool> = Vec::new();
    let mut x: usize = 0;
    while x < n
        invariant
            x <= n,
            n == g.nsym(),
            nonterminal@.len() == x,
            occurs@.len() == x,
            forall|y: int| 0 <= y < x ==> !nonterminal@[y] && !occurs@[y],
        decreases n - x,
    {
        nonterminal.push(false);
        occurs.push(false);
        x = x + 1;
    }
    let mut k: usize = 0;
    while k < g.rules.len()
        invariant
            g.wf(),
            n == g.nsym(),
            k <= g.nrules(),
            nonterminal@.len() == n,
            occurs@.len() == n,
            forall|y: int| 0 <= y < n ==> nonterminal@[y] == g.origin_among(y, k as int),
            forall|y: int| 0 <= y < n ==> occurs@[y] == g.occurs_among(y, k as int),
        decreases g.nrules() - k,
    {
        let rule = &g.rules[k];
        assert(g.origin(k as int) < n);
        nonterminal.set(rule.origin, true);
        let ghost before = occurs@;
        let mut i: usize = 0;
        while i < rule.body.len()
            invariant
                g.wf(),
                n == g.nsym(),
                k < g.nrules(),
                rule == g.rules@[k as int],
                i <= rule.body@.len(),
                occurs@.len() == n,
                before.len() == n,
                forall|y: int|
                    0 <= y < n ==> occurs@[y] == (before[y] || g.body(k as int).take(
                        i as int,
                    ).contains(y as usize)),
            decreases rule.body@.len() - i,
        {
            assert(g.body(k as int)[i as int] < n);
            let ghost t0 = g.body(k as int).take(i as int);
            let ghost e = g.body(k as int)[i as int];
            let ghost prev = occurs@;
            assert(rule.body@[i as int] == e);
            occurs.set(rule.body[i], true);
            i = i + 1;
            proof {
                let t1 = g.body(k as int).take(i as int);
                assert(t1 == t0.push(e));
                assert forall|y: int| 0 <= y < n implies occurs@[y] == (before[y]
                    || t1.contains(y as usize)) by {
                    assert(prev[y] == (before[y] || t0.contains(y as usize)));
                    assert(occurs@[y] == (prev[y] || y == e));
                    if t0.contains(y as usize) {
                        let j = choose|j: int| 0 <= j < t0.len() && t0[j] == y as usize;
                        assert(t1[j] == y as usize);
                    }
                    if t1.contains(y as usize) {
                        let j = choose|j: int| 0 <= j < t1.len() && t1[j] == y as usize;
                        if j < t0.len() {
                            assert(t0[j] == y as usize);
                        }
                    }
                    if y == e {
                        assert(t1[t0.len() as int] == e);
                    }
                }
            }
        }
        proof {
            assert(g.body(k as int).take(i as int) == g.body(k as int));
            assert forall|y: int| 0 <= y < n implies occurs@[y] == g.occurs_among(
                y,
                k + 1,
            ) by {
                if g.occurs_among(y, k + 1) {
                    let j = choose|j: int| 0 <= j < k + 1 && #[trigger] g.body(j).contains(
                        y as usize,
                    );
                    if j < k {
                        assert(g.occurs_among(y, k as int));
                    }
                }
                if g.occurs_among(y, k as int) {
                    let j = choose|j: int| 0 <= j < k && #[trigger] g.body(j).contains(
                        y as usize,
                    );
                    assert(0 <= j < k + 1 && g.body(j).contains(y as usize));
                }
                if g.body(k as int).contains(y as usize) {
                    assert(0 <= k < k + 1 && g.body(k as int).contains(y as usize));
                }
            }
            assert forall|y: int| 0 <= y < n implies nonterminal@[y] == g.origin_among(
                y,
                k + 1,
            ) by {
                if y == g.origin(k as int) {
                    assert(0 <= k < k + 1 && g.origin(k as int) == y);
                }
                if g.origin_among(y, k + 1) {
                    let j = choose|j: int| 0 <= j < k + 1 && g.origin(j) == y;
                    if j < k {
                        assert(g.origin_among(y, k as int));
                    }
                }
                if g.origin_among(y, k as int) {
                    let j = choose|j: int| 0 <= j < k && g.origin(j) == y;
                    assert(0 <= j < k + 1 && g.origin(j) == y);
                }
            }
        }
        k = k + 1;
    }
    let mut terminal: Vec<bool> = Vec::new();
    let mut x: usize = 0;
    while x < n
        invariant
            x <= n,
            n == g.nsym(),
            nonterminal@.len() == n,
            occurs@.len() == n,
            terminal@.len() == x,
            forall|y: int| 0 <= y < x ==> terminal@[y] == (occurs@[y] && !nonterminal@[y]),
        decreases n - x,
    {
        terminal.push(occurs[x] && !nonterminal[x]);
        x = x + 1;
    }
    Classes { nonterminal, terminal }
}

} // verus!
