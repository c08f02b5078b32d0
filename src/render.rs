use crate::automaton::{aug_body, body_at, body_len, item_ok, items_ok, SlrRule, SlrState};
use crate::grammar::{Classes, Grammar};
use crate::reader::{copy_word, word_is, words_view};
use crate::table::{Action, Table};
use vstd::prelude::*;

verus! {

pub open spec fn digit_chars() -> Seq<char> {
    seq!['0', '1', '2', '3', '4', '5', '6', '7', '8', '9']
}

/// Decimal digits of `n`.
pub open spec fn decimal(n: nat) -> Seq<char>
    decreases n,
{
    if n < 10 {
        seq![digit_chars()[n as int]]
    } else {
        decimal(n / 10).push(digit_chars()[(n % 10) as int])
    }
}

/// Appends the characters of `s`.
fn push_all(out: &mut Vec<char>, s: &[char])
    ensures
        final(out)@ == old(out)@ + s@,
{
    let mut i: usize = 0;
    while i < s.len()
        invariant
            i <= s@.len(),
            out@ == old(out)@ + s@.take(i as int),
        decreases s@.len() - i,
    {
        out.push(s[i]);
        proof {
            assert(s@.take(i + 1) =~= s@.take(i as int).push(s@[i as int]));
        }
        i = i + 1;
    }
    assert(s@.take(i as int) =~= s@);
}

/// Appends the decimal digits of `n`.
pub fn push_decimal(out: &mut Vec<char>, n: usize)
    ensures
        final(out)@ == old(out)@ + decimal(n as nat),
    decreases n,
{
    let digits = ['0', '1', '2', '3', '4', '5', '6', '7', '8', '9'];
    assert(digits@ == digit_chars());
    if n >= 10 {
        push_decimal(out, n / 10);
    }
    out.push(digits[n % 10]);
    proof {
        if n < 10 {
            assert(n % 10 == n);
        }
    }
}

/// Text of an ACTION cell: `s<j>`, `r<k>`, `ACC`, `ERR`, or nothing.
pub open spec fn action_text(a: Option<Action>) -> Seq<char> {
    match a {
        None => seq![],
        Some(Action::Shift(j)) => seq!['s'] + decimal(j as nat),
        Some(Action::Reduce(k)) => seq!['r'] + decimal(k as nat),
        Some(Action::Accept) => seq!['A', 'C', 'C'],
        Some(Action::Error) => seq!['E', 'R', 'R'],
    }
}

/// Text of a GOTO cell: the state number, or nothing.
pub open spec fn goto_text(a: Option<usize>) -> Seq<char> {
    match a {
        None => seq![],
        Some(j) => decimal(j as nat),
    }
}

/// Appends the text of an ACTION cell.
pub fn push_action(out: &mut Vec<char>, a: Option<Action>)
    ensures
        final(out)@ == old(out)@ + action_text(a),
{
    match a {
        None => {
            assert(old(out)@ + action_text(a) =~= old(out)@);
        },
        Some(Action::Shift(j)) => {
            out.push('s');
            push_decimal(out, j);
            assert(out@ =~= old(out)@ + action_text(a));
        },
        Some(Action::Reduce(k)) => {
            out.push('r');
            push_decimal(out, k);
            assert(out@ =~= old(out)@ + action_text(a));
        },
        Some(Action::Accept) => {
            push_all(out, &['A', 'C', 'C']);
        },
        Some(Action::Error) => {
            push_all(out, &['E', 'R', 'R']);
        },
    }
}

pub open spec fn open_tag(tag: Seq<char>) -> Seq<char> {
    seq!['<'] + tag + seq!['>']
}

pub open spec fn close_tag(tag: Seq<char>) -> Seq<char> {
    seq!['<', '/'] + tag + seq!['>']
}

/// `x` inside the element `tag`.
pub open spec fn wrap(tag: Seq<char>, x: Seq<char>) -> Seq<char> {
    open_tag(tag) + x + close_tag(tag)
}

pub open spec fn th(x: Seq<char>) -> Seq<char> {
    wrap(seq!['t', 'h'], x)
}

pub open spec fn td(x: Seq<char>) -> Seq<char> {
    wrap(seq!['t', 'd'], x)
}

/// Header cells of the symbols `x < m` with `sel[x]`, in order.
pub open spec fn head_cells(names: Seq<Seq<char>>, sel: Seq<bool>, m: int) -> Seq<char>
    decreases m,
{
    if m <= 0 {
        seq![]
    } else {
        head_cells(names, sel, m - 1) + if sel[m - 1] {
            th(names[m - 1])
        } else {
            seq![]
        }
    }
}

/// ACTION cells of the columns `x < m` with `sel[x]`, in order.
pub open spec fn action_cells(row: Seq<Option<Action>>, sel: Seq<bool>, m: int) -> Seq<char>
    decreases m,
{
    if m <= 0 {
        seq![]
    } else {
        action_cells(row, sel, m - 1) + if sel[m - 1] {
            td(action_text(row[m - 1]))
        } else {
            seq![]
        }
    }
}

/// GOTO cells of the columns `x < m` with `sel[x]`, in order.
pub open spec fn goto_cells(row: Seq<Option<usize>>, sel: Seq<bool>, m: int) -> Seq<char>
    decreases m,
{
    if m <= 0 {
        seq![]
    } else {
        goto_cells(row, sel, m - 1) + if sel[m - 1] {
            td(goto_text(row[m - 1]))
        } else {
            seq![]
        }
    }
}

pub open spec fn header_text(g: &Grammar, c: &Classes) -> Seq<char> {
    let n = g.nsym() as int;
    wrap(
        seq!['t', 'r'],
        th(seq!['s', 't', 'a', 't', 'e']) + head_cells(words_view(g.names), c.terminal@, n) + th(
            seq!['$'],
        ) + head_cells(words_view(g.names), c.nonterminal@, n),
    )
}

/// Row `i`: the state number, an ACTION cell per terminal, the `$` cell, and a
/// GOTO cell per non-terminal.
pub open spec fn row_text(g: &Grammar, c: &Classes, t: &Table, i: int) -> Seq<char> {
    let n = g.nsym() as int;
    wrap(
        seq!['t', 'r'],
        td(decimal(i as nat)) + action_cells(t.actions@[i]@, c.terminal@, n) + td(
            action_text(t.actions@[i]@[n]),
        ) + goto_cells(t.gotos@[i]@, c.nonterminal@, n),
    )
}

pub open spec fn rows_text(g: &Grammar, c: &Classes, t: &Table, m: int) -> Seq<char>
    decreases m,
{
    if m <= 0 {
        seq![]
    } else {
        rows_text(g, c, t, m - 1) + row_text(g, c, t, m - 1)
    }
}

/// The table as HTML: columns for the terminals, `$`, then the non-terminals, each
/// group in symbol order; a row per state.
pub open spec fn table_text(g: &Grammar, c: &Classes, t: &Table) -> Seq<char> {
    wrap(
        seq!['t', 'a', 'b', 'l', 'e'],
        header_text(g, c) + rows_text(g, c, t, t.actions@.len() as int),
    )
}

fn push_th(out: &mut Vec<char>, x: &Vec<char>)
    ensures
        final(out)@ == old(out)@ + th(x@),
{
    push_all(out, &['<', 't', 'h', '>']);
    push_all(out, x.as_slice());
    push_all(out, &['<', '/', 't', 'h', '>']);
    assert(out@ =~= old(out)@ + th(x@));
}

fn push_action_cell(out: &mut Vec<char>, a: Option<Action>)
    ensures
        final(out)@ == old(out)@ + td(action_text(a)),
{
    push_all(out, &['<', 't', 'd', '>']);
    push_action(out, a);
    push_all(out, &['<', '/', 't', 'd', '>']);
    assert(out@ =~= old(out)@ + td(action_text(a)));
}

fn push_goto_cell(out: &mut Vec<char>, a: Option<usize>)
    ensures
        final(out)@ == old(out)@ + td(goto_text(a)),
{
    push_all(out, &['<', 't', 'd', '>']);
    match a {
        Some(j) => push_decimal(out, j),
        None => {},
    }
    push_all(out, &['<', '/', 't', 'd', '>']);
    assert(out@ =~= old(out)@ + td(goto_text(a)));
}

/// Appends the ACTION cells of the selected columns below `n`.
fn push_action_cells(out: &mut Vec<char>, row: &Vec<Option<Action>>, sel: &Vec<bool>, n: usize)
    requires
        row@.len() >= n,
        sel@.len() >= n,
    ensures
        final(out)@ == old(out)@ + action_cells(row@, sel@, n as int),
{
    let ghost a0 = out@;
    let mut x: usize = 0;
    while x < n
        invariant
            row@.len() >= n,
            sel@.len() >= n,
            x <= n,
            out@ == a0 + action_cells(row@, sel@, x as int),
        decreases n - x,
    {
        if sel[x] {
            push_action_cell(out, row[x]);
        }
        assert(out@ =~= a0 + action_cells(row@, sel@, x + 1));
        x = x + 1;
    }
}

/// Appends the GOTO cells of the selected columns below `n`.
fn push_goto_cells(out: &mut Vec<char>, row: &Vec<Option<usize>>, sel: &Vec<bool>, n: usize)
    requires
        row@.len() >= n,
        sel@.len() >= n,
    ensures
        final(out)@ == old(out)@ + goto_cells(row@, sel@, n as int),
{
    let ghost g0 = out@;
    let mut x: usize = 0;
    while x < n
        invariant
            row@.len() >= n,
            sel@.len() >= n,
            x <= n,
            out@ == g0 + goto_cells(row@, sel@, x as int),
        decreases n - x,
    {
        if sel[x] {
            push_goto_cell(out, row[x]);
        }
        assert(out@ =~= g0 + goto_cells(row@, sel@, x + 1));
        x = x + 1;
    }
}

/// Appends row `i` of the table (see `row_text`).
fn push_row(out: &mut Vec<char>, g: &Grammar, c: &Classes, t: &Table, i: usize)
    requires
        c.matches(g),
        i < t.actions@.len(),
        i < t.gotos@.len(),
        t.actions@[i as int]@.len() == g.nsym() + 1,
        t.gotos@[i as int]@.len() == g.nsym(),
    ensures
        final(out)@ == old(out)@ + row_text(g, c, t, i as int),
{
    let n = g.names.len();
    let ghost row0 = out@;
    let arow = &t.actions[i];
    let grow = &t.gotos[i];
    push_all(out, &['<', 't', 'r', '>']);
    push_all(out, &['<', 't', 'd', '>']);
    push_decimal(out, i);
    push_all(out, &['<', '/', 't', 'd', '>']);
    push_action_cells(out, arow, &c.terminal, n);
    push_action_cell(out, arow[n]);
    push_goto_cells(out, grow, &c.nonterminal, n);
    push_all(out, &['<', '/', 't', 'r', '>']);
    assert(out@ =~= row0 + row_text(g, c, t, i as int));
}

/// Renders the table as HTML (see `table_text`).
pub fn slr_table_to_string(g: &Grammar, c: &Classes, t: &Table) -> (r: Vec<char>)
    requires
        c.matches(g),
        t.gotos@.len() == t.actions@.len(),
        forall|i: int| 0 <= i < t.actions@.len() ==> (#[trigger] t.actions@[i])@.len() == g.nsym() + 1,
        forall|i: int| 0 <= i < t.gotos@.len() ==> (#[trigger] t.gotos@[i])@.len() == g.nsym(),
    ensures
        r@ == table_text(g, c, t),
{
    let n = g.names.len();
    let ghost names = words_view(g.names);
    let mut out: Vec<char> = Vec::new();
    push_all(&mut out, &['<', 't', 'a', 'b', 'l', 'e', '>']);
    let ghost start = out@;
    push_all(&mut out, &['<', 't', 'r', '>']);
    push_all(&mut out, &['<', 't', 'h', '>', 's', 't', 'a', 't', 'e', '<', '/', 't', 'h', '>']);
    let ghost cells0 = out@;
    let mut x: usize = 0;
    while x < n
        invariant
            c.matches(g),
            n == g.nsym(),
            names == words_view(g.names),
            x <= n,
            out@ == cells0 + head_cells(names, c.terminal@, x as int),
        decreases n - x,
    {
        if c.terminal[x] {
            push_th(&mut out, &g.names[x]);
            assert(names[x as int] == g.names@[x as int]@);
        }
        assert(out@ =~= cells0 + head_cells(names, c.terminal@, x + 1));
        x = x + 1;
    }
    push_all(&mut out, &['<', 't', 'h', '>', '$', '<', '/', 't', 'h', '>']);
    let ghost cells1 = out@;
    let mut x: usize = 0;
    while x < n
        invariant
            c.matches(g),
            n == g.nsym(),
            names == words_view(g.names),
            x <= n,
            out@ == cells1 + head_cells(names, c.nonterminal@, x as int),
        decreases n - x,
    {
        if c.nonterminal[x] {
            push_th(&mut out, &g.names[x]);
            assert(names[x as int] == g.names@[x as int]@);
        }
        assert(out@ =~= cells1 + head_cells(names, c.nonterminal@, x + 1));
        x = x + 1;
    }
    push_all(&mut out, &['<', '/', 't', 'r', '>']);
    assert(out@ =~= start + header_text(g, c));
    let mut i: usize = 0;
    while i < t.actions.len()
        invariant
            c.matches(g),
            n == g.nsym(),
            t.gotos@.len() == t.actions@.len(),
            forall|i: int| 0 <= i < t.actions@.len() ==> (#[trigger] t.actions@[i])@.len() == g.nsym() + 1,
            forall|i: int| 0 <= i < t.gotos@.len() ==> (#[trigger] t.gotos@[i])@.len() == g.nsym(),
            i <= t.actions@.len(),
            out@ == start + header_text(g, c) + rows_text(g, c, t, i as int),
        decreases t.actions@.len() - i,
    {
        push_row(&mut out, g, c, t, i);
        assert(out@ =~= start + header_text(g, c) + rows_text(g, c, t, i + 1));
        i = i + 1;
    }
    push_all(&mut out, &['<', '/', 't', 'a', 'b', 'l', 'e', '>']);
    assert(out@ =~= table_text(g, c, t));
    out
}

/// `w` followed by `k` primes.
pub open spec fn primed(w: Seq<char>, k: nat) -> Seq<char>
    decreases k,
{
    if k == 0 {
        w
    } else {
        primed(w, (k - 1) as nat).push('\'')
    }
}

/// With `k` primes the start symbol's name becomes a fresh name, and with fewer it
/// does not.
pub open spec fn fresh_primes(g: &Grammar, k: nat) -> bool {
    let s = words_view(g.names)[g.start as int];
    &&& k >= 1
    &&& !words_view(g.names).contains(primed(s, k))
    &&& forall|j: nat| 1 <= j < k ==> words_view(g.names).contains(#[trigger] primed(s, j))
}

/// Name of the augmented start symbol `S'`: the start symbol's name with as few
/// primes as make it differ from every symbol.
pub open spec fn augmented_name_of(g: &Grammar) -> Seq<char> {
    primed(words_view(g.names)[g.start as int], choose|k: nat| fresh_primes(g, k))
}

/// Number of names of length at least `m` among the first `upto`.
pub open spec fn count_long(names: Seq<Seq<char>>, m: nat, upto: int) -> nat
    decreases upto,
{
    if upto <= 0 {
        0
    } else {
        count_long(names, m, upto - 1) + if names[upto - 1].len() >= m {
            1nat
        } else {
            0nat
        }
    }
}

proof fn lemma_count_long_drop(names: Seq<Seq<char>>, m: nat, upto: int)
    requires
        0 <= upto <= names.len(),
    ensures
        count_long(names, m + 1, upto) <= count_long(names, m, upto),
        (exists|i: int| 0 <= i < upto && names[i].len() == m) ==> count_long(names, m + 1, upto)
            < count_long(names, m, upto),
    decreases upto,
{
    if upto > 0 {
        lemma_count_long_drop(names, m, upto - 1);
        if exists|i: int| 0 <= i < upto && names[i].len() == m {
            let i = choose|i: int| 0 <= i < upto && names[i].len() == m;
            if i < upto - 1 {
                assert(exists|i2: int| 0 <= i2 < upto - 1 && names[i2].len() == m);
            }
        }
    }
    assert(count_long(names, m, upto) <= upto) by {
        lemma_count_long_bound(names, m, upto);
    }
}

proof fn lemma_count_long_bound(names: Seq<Seq<char>>, m: nat, upto: int)
    ensures
        count_long(names, m, upto) <= if upto < 0 {
            0
        } else {
            upto
        },
    decreases upto,
{
    if upto > 0 {
        lemma_count_long_bound(names, m, upto - 1);
    }
}

fn is_name(names: &Vec<Vec<char>>, w: &Vec<char>) -> (r: bool)
    ensures
        r == words_view(*names).contains(w@),
{
    let mut i: usize = 0;
    while i < names.len()
        invariant
            i <= names@.len(),
            forall|j: int| 0 <= j < i ==> names@[j]@ != w@,
        decreases names@.len() - i,
    {
        if word_is(&names[i], w) {
            assert(words_view(*names)[i as int] == w@);
            return true;
        }
        i = i + 1;
    }
    assert forall|j: int| 0 <= j < words_view(*names).len() implies words_view(*names)[j] != w@ by {
        assert(words_view(*names)[j] == names@[j]@);
    }
    false
}

/// The name of the augmented start symbol (see `augmented_name_of`).
pub fn augmented_name(g: &Grammar) -> (r: Vec<char>)
    requires
        g.wf(),
    ensures
        r@ == augmented_name_of(g),
{
    assert(g.origin(0) < g.nsym());
    let ghost names = words_view(g.names);
    let ghost s = names[g.start as int];
    let mut w = copy_word(&g.names[g.start]);
    assert(w@ == s);
    w.push('\'');
    let ghost mut k: nat = 1;
    assert(w@ == primed(s, 1)) by {
        assert(primed(s, 0) == s);
    }
    while is_name(&g.names, &w)
        invariant
            names == words_view(g.names),
            k >= 1,
            w@ == primed(s, k),
            w@.len() == s.len() + k,
            forall|j: nat| 1 <= j < k ==> names.contains(#[trigger] primed(s, j)),
        decreases count_long(names, w@.len() as nat, names.len() as int),
    {
        proof {
            let i = choose|i: int| 0 <= i < names.len() && names[i] == w@;
            lemma_count_long_drop(names, w@.len() as nat, names.len() as int);
        }
        w.push('\'');
        proof {
            k = k + 1;
        }
    }
    proof {
        assert(fresh_primes(g, k));
        let k2 = choose|k2: nat| fresh_primes(g, k2);
        if k2 < k {
            assert(names.contains(primed(s, k2)));
        } else if k < k2 {
            assert(names.contains(primed(s, k)));
        }
    }
    w
}

/// Name of the origin of augmented rule `r`; rule 0's is `augmented_name_of`.
pub open spec fn origin_text(g: &Grammar, r: int) -> Seq<char> {
    if r == 0 {
        augmented_name_of(g)
    } else {
        words_view(g.names)[g.origin(r - 1) as int]
    }
}

/// The dot, written `'*'`.
pub open spec fn dot_text() -> Seq<char> {
    seq!['\'', '*', '\'', ' ']
}

/// The first `m` body symbols, each followed by a blank, the dot before position `dot`.
pub open spec fn body_text(g: &Grammar, body: Seq<usize>, dot: int, m: int) -> Seq<char>
    decreases m,
{
    if m <= 0 {
        seq![]
    } else {
        body_text(g, body, dot, m - 1) + (if m - 1 == dot {
            dot_text()
        } else {
            seq![]
        }) + words_view(g.names)[body[m - 1] as int] + seq![' ']
    }
}

/// An item as text: `k. A -> X '*' Y `.
pub open spec fn item_text(g: &Grammar, it: SlrRule) -> Seq<char> {
    let body = aug_body(g, it.rule as int);
    decimal(it.rule as nat) + seq!['.', ' '] + origin_text(g, it.rule as int) + seq![' ', '-', '>', ' ']
        + body_text(g, body, it.dot as int, body.len() as int) + (if it.dot == body.len() {
        dot_text()
    } else {
        seq![]
    })
}

/// The items of `items`, each followed by `sep`.
pub open spec fn items_text(g: &Grammar, items: Seq<SlrRule>, sep: Seq<char>) -> Seq<char>
    decreases items.len(),
{
    if items.len() == 0 {
        seq![]
    } else {
        items_text(g, items.drop_last(), sep) + item_text(g, items.last()) + sep
    }
}

impl SlrRule {
    /// The item as text (see `item_text`).
    pub fn to_string(&self, g: &Grammar) -> (r: Vec<char>)
        requires
            g.wf(),
            item_ok(g, *self),
        ensures
            r@ == item_text(g, *self),
    {
        let mut out: Vec<char> = Vec::new();
        push_decimal(&mut out, self.rule);
        push_all(&mut out, &['.', ' ']);
        if self.rule == 0 {
            let a = augmented_name(g);
            push_all(&mut out, a.as_slice());
        } else {
            assert(g.origin(self.rule - 1) < g.nsym());
            push_all(&mut out, g.names[g.rules[self.rule - 1].origin].as_slice());
        }
        push_all(&mut out, &[' ', '-', '>', ' ']);
        let ghost head = out@;
        let len = body_len(g, self.rule);
        let ghost body = aug_body(g, self.rule as int);
        let mut j: usize = 0;
        while j < len
            invariant
                g.wf(),
                item_ok(g, *self),
                len == body.len(),
                body == aug_body(g, self.rule as int),
                j <= len,
                out@ == head + body_text(g, body, self.dot as int, j as int),
            decreases len - j,
        {
            if j == self.dot {
                push_all(&mut out, &['\'', '*', '\'', ' ']);
            }
            let x = body_at(g, self.rule, j);
            push_all(&mut out, g.names[x].as_slice());
            out.push(' ');
            assert(out@ =~= head + body_text(g, body, self.dot as int, j + 1));
            j = j + 1;
        }
        if self.dot == len {
            push_all(&mut out, &['\'', '*', '\'', ' ']);
        }
        assert(out@ =~= item_text(g, *self));
        out
    }
}

/// Appends the items, each followed by `sep`.
fn push_items(out: &mut Vec<char>, g: &Grammar, items: &Vec<SlrRule>, sep: &Vec<char>)
    requires
        g.wf(),
        items_ok(g, items@),
    ensures
        final(out)@ == old(out)@ + items_text(g, items@, sep@),
{
    let mut i: usize = 0;
    while i < items.len()
        invariant
            g.wf(),
            items_ok(g, items@),
            i <= items@.len(),
            out@ == old(out)@ + items_text(g, items@.take(i as int), sep@),
        decreases items@.len() - i,
    {
        assert(item_ok(g, items@[i as int]));
        let t = items[i].to_string(g);
        push_all(out, t.as_slice());
        push_all(out, sep.as_slice());
        proof {
            assert(items@.take(i + 1).drop_last() =~= items@.take(i as int));
            assert(out@ =~= old(out)@ + items_text(g, items@.take(i + 1), sep@));
        }
        i = i + 1;
    }
    assert(items@.take(i as int) =~= items@);
}

/// The items of a kernel, one after the other.
pub fn _kernel_to_string(g: &Grammar, kernel: &Vec<SlrRule>) -> (r: Vec<char>)
    requires
        g.wf(),
        items_ok(g, kernel@),
    ensures
        r@ == items_text(g, kernel@, seq![]),
{
    let mut out: Vec<char> = Vec::new();
    let none: Vec<char> = Vec::new();
    push_items(&mut out, g, kernel, &none);
    assert(none@ =~= seq![]);
    assert(out@ =~= items_text(g, kernel@, seq![]));
    out
}

impl SlrState {
    /// The kernel items, a line `- - - - - - -`, then the closure items, one per line.
    pub fn _to_string(&self, g: &Grammar) -> (r: Vec<char>)
        requires
            g.wf(),
            self.wf(g),
        ensures
            r@ == items_text(g, self.kernel@, seq!['\n']) + seq!['-', ' ', '-', ' ', '-', ' ', '-', ' ', '-', ' ', '-', ' ', '-', '\n']
                + items_text(g, self.extended_state@, seq!['\n']),
    {
        let mut out: Vec<char> = Vec::new();
        let nl = vec!['\n'];
        assert(nl@ =~= seq!['\n']);
        push_items(&mut out, g, &self.kernel, &nl);
        push_all(&mut out, &['-', ' ', '-', ' ', '-', ' ', '-', ' ', '-', ' ', '-', ' ', '-', '\n']);
        push_items(&mut out, g, &self.extended_state, &nl);
        assert(out@ =~= items_text(g, self.kernel@, seq!['\n']) + seq!['-', ' ', '-', ' ', '-', ' ', '-', ' ', '-', ' ', '-', ' ', '-', '\n']
            + items_text(g, self.extended_state@, seq!['\n']));
        out
    }
}

} // verus!
