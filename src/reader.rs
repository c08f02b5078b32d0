use crate::grammar::{Grammar, Rule};
use vstd::prelude::*;

verus! {

broadcast use vstd::seq_lib::group_seq_properties;

pub open spec fn is_blank(c: char) -> bool {
    c == ' ' || c == '\t' || c == '\r'
}

/// The words of the current line with the word `w` closed, if it is not empty.
pub open spec fn end_word(ws: Seq<Seq<char>>, w: Seq<char>) -> Seq<Seq<char>> {
    if w.len() > 0 {
        ws.push(w)
    } else {
        ws
    }
}

/// Scanner state after reading `s`: the finished lines (each as its words), the
/// words of the current line, and the current word.
pub open spec fn scan_state(s: Seq<char>) -> (Seq<Seq<Seq<char>>>, Seq<Seq<char>>, Seq<char>)
    decreases s.len(),
{
    if s.len() == 0 {
        (seq![], seq![], seq![])
    } else {
        let (ls, ws, w) = scan_state(s.drop_last());
        let c = s.last();
        if c == '\n' {
            (ls.push(end_word(ws, w)), seq![], seq![])
        } else if is_blank(c) {
            (ls, end_word(ws, w), seq![])
        } else {
            (ls, ws, w.push(c))
        }
    }
}

/// The lines of `s`, separated by newlines, each as its words, separated by blanks.
pub open spec fn lines_of(s: Seq<char>) -> Seq<Seq<Seq<char>>> {
    let (ls, ws, w) = scan_state(s);
    ls.push(end_word(ws, w))
}

/// Number of words in lines `lo .. hi`.
pub open spec fn count_words(ls: Seq<Seq<Seq<char>>>, lo: int, hi: int) -> nat
    decreases hi - lo,
{
    if hi <= lo {
        0
    } else {
        count_words(ls, lo, hi - 1) + ls[hi - 1].len()
    }
}

/// The words of `v`, as sequences.
pub open spec fn words_view(v: Vec<Vec<char>>) -> Seq<Seq<char>> {
    v@.map_values(|w: Vec<char>| w@)
}

/// The lines of `v`, as sequences of words.
pub open spec fn lines_view(v: Vec<Vec<Vec<char>>>) -> Seq<Seq<Seq<char>>> {
    v@.map_values(|l: Vec<Vec<char>>| words_view(l))
}

proof fn lemma_count_words_push(ls: Seq<Seq<Seq<char>>>, l: Seq<Seq<char>>, hi: int)
    requires
        0 <= hi <= ls.len(),
    ensures
        count_words(ls.push(l), 0, hi) == count_words(ls, 0, hi),
    decreases hi,
{
    if hi > 0 {
        lemma_count_words_push(ls, l, hi - 1);
    }
}

proof fn lemma_scan_count(s: Seq<char>)
    ensures
        ({
            let (ls, ws, w) = scan_state(s);
            count_words(ls, 0, ls.len() as int) + ws.len() + (if w.len() > 0 {
                1int
            } else {
                0int
            }) <= s.len()
        }),
        forall|j: int| 0 <= j < scan_state(s).1.len() ==> (#[trigger] scan_state(s).1[j]).len() > 0,
    decreases s.len(),
{
    if s.len() > 0 {
        lemma_scan_count(s.drop_last());
        let (ls, ws, w) = scan_state(s.drop_last());
        if s.last() == '\n' {
            lemma_count_words_push(ls, end_word(ws, w), ls.len() as int);
        }
    }
}

/// Lines and words of `text`.
pub fn split_lines(text: &Vec<char>) -> (r: Vec<Vec<Vec<char>>>)
    ensures
        lines_view(r) == lines_of(text@),
        count_words(lines_of(text@), 0, lines_of(text@).len() as int) <= text@.len(),
{
    let mut ls: Vec<Vec<Vec<char>>> = Vec::new();
    let mut ws: Vec<Vec<char>> = Vec::new();
    let mut w: Vec<char> = Vec::new();
    let mut i: usize = 0;
    while i < text.len()
        invariant
            i <= text@.len(),
            scan_state(text@.take(i as int)) == (lines_view(ls), words_view(ws), w@),
        decreases text@.len() - i,
    {
        let c = text[i];
        proof {
            assert(text@.take(i + 1).drop_last() =~= text@.take(i as int));
            assert(text@.take(i + 1).last() == c);
        }
        let ghost next = scan_state(text@.take(i + 1));
        if c == '\n' {
            let ghost closed = end_word(words_view(ws), w@);
            if w.len() > 0 {
                let ghost old_ws = words_view(ws);
                let ghost wv = w@;
                ws.push(w);
                proof {
                    assert(words_view(ws) =~= old_ws.push(wv));
                }
            }
            assert(words_view(ws) == closed);
            let ghost old_ls = lines_view(ls);
            ls.push(ws);
            proof {
                assert(lines_view(ls) =~= old_ls.push(closed));
            }
            ws = Vec::new();
            w = Vec::new();
            proof {
                assert(words_view(ws) =~= Seq::<Seq<char>>::empty());
                assert(next == (old_ls.push(closed), Seq::<Seq<char>>::empty(), Seq::<char>::empty()));
                assert(w@ =~= Seq::<char>::empty());
            }
        } else if c == ' ' || c == '\t' || c == '\r' {
            let ghost closed = end_word(words_view(ws), w@);
            if w.len() > 0 {
                let ghost old_ws = words_view(ws);
                let ghost wv = w@;
                ws.push(w);
                proof {
                    assert(words_view(ws) =~= old_ws.push(wv));
                }
            }
            w = Vec::new();
            proof {
                assert(w@ =~= Seq::<char>::empty());
                assert(next == (lines_view(ls), closed, Seq::<char>::empty()));
            }
        } else {
            let ghost wv = w@;
            w.push(c);
            proof {
                assert(next == (lines_view(ls), words_view(ws), wv.push(c)));
            }
        }
        i = i + 1;
    }
    if w.len() > 0 {
        let ghost old_ws = words_view(ws);
        let ghost wv = w@;
        ws.push(w);
        proof {
            assert(words_view(ws) =~= old_ws.push(wv));
        }
    }
    let ghost old_ls = lines_view(ls);
    let ghost line = words_view(ws);
    ls.push(ws);
    proof {
        assert(lines_view(ls) =~= old_ls.push(line));
        assert(text@.take(i as int) =~= text@);
        lemma_scan_count(text@);
        let (l0, w0, c0) = scan_state(text@);
        lemma_count_words_push(l0, end_word(w0, c0), l0.len() as int);
    }
    ls
}

/// What is wrong with a production line.
#[derive(PartialEq, Eq, Structural, Clone, Copy, Debug)]
pub enum LineError {
    /// The line holds no symbol.
    Empty,
    /// The line starts with the arrow.
    EmptyOrigin,
    /// The origin is the epsilon marker.
    EpsilonOrigin,
    /// The origin is not followed by anything.
    MissingArrow,
    /// A second symbol stands where the arrow belongs.
    MultipleOrigins,
    /// The end marker `$` is used as a symbol.
    EndMarker,
    /// The epsilon marker stands in a body beside other symbols.
    MixedEpsilon,
}

/// Why a grammar text was rejected; `BadLine` gives the line number, from 1.
#[derive(PartialEq, Eq, Structural, Clone, Copy, Debug)]
pub enum ReadError {
    BadCount,
    NoProductions,
    MissingLines,
    /// A line after the productions holds a word.
    ExtraLines,
    BadLine(usize, LineError),
}

/// The production arrow `->`.
pub open spec fn arrow() -> Seq<char> {
    seq!['-', '>']
}

/// Half of the epsilon marker `' '`, which the blank splits into two words.
pub open spec fn quote() -> Seq<char> {
    seq!['\'']
}

/// The end marker `$`, which no grammar may use as a symbol.
pub open spec fn dollar() -> Seq<char> {
    seq!['$']
}

/// Words `j` and `j + 1` of `b` form the epsilon marker `' '`.
pub open spec fn epsilon_at(b: Seq<Seq<char>>, j: int) -> bool {
    0 <= j && j + 1 < b.len() && b[j] == quote() && b[j + 1] == quote()
}

/// The epsilon marker occurs in `b`.
pub open spec fn has_epsilon(b: Seq<Seq<char>>) -> bool {
    exists|j: int| #[trigger] epsilon_at(b, j)
}

/// A production line `A -> X1 X2 ...`, as its words: the origin and the body. The
/// body `' '` alone is the empty body.
pub open spec fn parse_line(ts: Seq<Seq<char>>) -> Result<(Seq<char>, Seq<Seq<char>>), LineError> {
    if ts.len() == 0 {
        Err(LineError::Empty)
    } else if ts[0] == arrow() {
        Err(LineError::EmptyOrigin)
    } else if ts.len() >= 2 && ts[0] == quote() && ts[1] == quote() {
        Err(LineError::EpsilonOrigin)
    } else if ts.len() == 1 {
        Err(LineError::MissingArrow)
    } else if ts[1] != arrow() {
        Err(LineError::MultipleOrigins)
    } else if ts[0] == dollar() || ts.skip(2).contains(dollar()) {
        Err(LineError::EndMarker)
    } else if ts.skip(2) == seq![quote(), quote()] {
        Ok((ts[0], seq![]))
    } else if has_epsilon(ts.skip(2)) {
        Err(LineError::MixedEpsilon)
    } else {
        Ok((ts[0], ts.skip(2)))
    }
}

/// No line after line `n` holds a word.
pub open spec fn blank_after(ls: Seq<Seq<Seq<char>>>, n: nat) -> bool {
    forall|m: int| n < m < ls.len() ==> (#[trigger] ls[m]).len() == 0
}

pub open spec fn is_digit(c: char) -> bool {
    '0' <= c <= '9'
}

/// Value of a string of decimal digits.
pub open spec fn digits_value(w: Seq<char>) -> nat
    decreases w.len(),
{
    if w.len() == 0 {
        0
    } else {
        digits_value(w.drop_last()) * 10 + (w.last() as nat - '0' as nat) as nat
    }
}

/// The count line: a single word of digits whose value fits in `usize`.
pub open spec fn count_of(ws: Seq<Seq<char>>) -> Option<nat> {
    if ws.len() == 1 && ws[0].len() > 0 && (forall|i: int| 0 <= i < ws[0].len() ==> is_digit(
        #[trigger] ws[0][i],
    )) && digits_value(ws[0]) <= usize::MAX {
        Some(digits_value(ws[0]))
    } else {
        None
    }
}

/// The first `n` production lines (lines `1 ..= n`), or the first error among them.
pub open spec fn prods_of(ls: Seq<Seq<Seq<char>>>, n: nat) -> Result<
    Seq<(Seq<char>, Seq<Seq<char>>)>,
    ReadError,
>
    decreases n,
{
    if n == 0 {
        Ok(seq![])
    } else {
        match prods_of(ls, (n - 1) as nat) {
            Err(e) => Err(e),
            Ok(ps) => match parse_line(ls[n as int]) {
                Err(e) => Err(ReadError::BadLine((n + 1) as usize, e)),
                Ok(p) => Ok(ps.push(p)),
            },
        }
    }
}

/// The productions that a grammar text states, or why it is rejected.
pub open spec fn read_spec(s: Seq<char>) -> Result<Seq<(Seq<char>, Seq<Seq<char>>)>, ReadError> {
    let ls = lines_of(s);
    match count_of(ls[0]) {
        None => Err(ReadError::BadCount),
        Some(n) => if n == 0 {
            Err(ReadError::NoProductions)
        } else if ls.len() < n + 1 {
            Err(ReadError::MissingLines)
        } else {
            match prods_of(ls, n) {
                Err(e) => Err(e),
                Ok(ps) => if blank_after(ls, n) {
                    Ok(ps)
                } else {
                    Err(ReadError::ExtraLines)
                },
            }
        },
    }
}

/// `g` states the productions `ps`: one rule per production in order, each symbol
/// named by its text, distinct symbols by distinct texts.
pub open spec fn represents(g: &Grammar, ps: Seq<(Seq<char>, Seq<Seq<char>>)>) -> bool {
    &&& g.wf()
    &&& g.nrules() == ps.len()
    &&& forall|a: int, b: int|
        0 <= a < g.nsym() && 0 <= b < g.nsym() && a != b ==> g.names@[a]@ != g.names@[b]@
    &&& forall|k: int| 0 <= k < ps.len() ==> g.names@[g.origin(k) as int]@ == (#[trigger] ps[k]).0
    &&& forall|k: int| 0 <= k < ps.len() ==> g.body(k).len() == (#[trigger] ps[k]).1.len()
    &&& forall|k: int, i: int|
        0 <= k < ps.len() && 0 <= i < g.body(k).len() ==> g.names@[#[trigger] g.body(k)[i] as int]@
            == ps[k].1[i]
    &&& forall|a: int| 0 <= a < g.nsym() ==> named_in(#[trigger] g.names@[a]@, ps)
}

pub(crate) fn word_is(w: &Vec<char>, t: &Vec<char>) -> (r: bool)
    ensures
        r == (w@ == t@),
{
    if w.len() != t.len() {
        return false;
    }
    let mut i: usize = 0;
    while i < w.len()
        invariant
            w@.len() == t@.len(),
            i <= w@.len(),
            forall|j: int| 0 <= j < i ==> w@[j] == t@[j],
        decreases w@.len() - i,
    {
        if w[i] != t[i] {
            return false;
        }
        i = i + 1;
    }
    assert(w@ =~= t@);
    true
}

proof fn lemma_digits_prefix(w: Seq<char>, j: int)
    requires
        0 <= j <= w.len(),
    ensures
        digits_value(w.take(j)) <= digits_value(w),
    decreases w.len(),
{
    if j < w.len() {
        assert(w.drop_last().take(j) =~= w.take(j));
        lemma_digits_prefix(w.drop_last(), j);
    } else {
        assert(w.take(j) =~= w);
    }
}

/// Reads the count line.
fn parse_count(ws: &Vec<Vec<char>>) -> (r: Option<usize>)
    ensures
        match count_of(words_view(*ws)) {
            None => r is None,
            Some(v) => r == Some(v as usize),
        },
{
    if ws.len() != 1 || ws[0].len() == 0 {
        return None;
    }
    let w = &ws[0];
    assert(words_view(*ws)[0] == w@);
    let mut v: usize = 0;
    let mut i: usize = 0;
    while i < w.len()
        invariant
            words_view(*ws)[0] == w@,
            ws@.len() == 1,
            i <= w@.len(),
            v == digits_value(w@.take(i as int)),
            forall|j: int| 0 <= j < i ==> is_digit(#[trigger] w@[j]),
        decreases w@.len() - i,
    {
        let c = w[i];
        if !('0' <= c && c <= '9') {
            assert(!is_digit(w@[i as int]));
            return None;
        }
        let d = (c as u32 - '0' as u32) as usize;
        proof {
            assert(w@.take(i + 1).drop_last() =~= w@.take(i as int));
            assert(w@.take(i + 1).last() == c);
        }
        match v.checked_mul(10) {
            None => {
                proof {
                    lemma_digits_prefix(w@, i + 1);
                }
                return None;
            },
            Some(m) => match m.checked_add(d) {
                None => {
                    proof {
                        lemma_digits_prefix(w@, i + 1);
                    }
                    return None;
                },
                Some(s) => {
                    v = s;
                },
            },
        }
        i = i + 1;
    }
    assert(w@.take(i as int) =~= w@);
    Some(v)
}

proof fn lemma_count_words_mono(ls: Seq<Seq<Seq<char>>>, lo: int, m: int, m2: int)
    requires
        lo <= m <= m2,
    ensures
        count_words(ls, lo, m) <= count_words(ls, lo, m2),
    decreases m2 - m,
{
    if m < m2 {
        lemma_count_words_mono(ls, lo, m, m2 - 1);
    }
}

proof fn lemma_count_words_drop_first(ls: Seq<Seq<Seq<char>>>, m: int)
    requires
        1 <= m,
    ensures
        count_words(ls, 1, m) <= count_words(ls, 0, m),
    decreases m,
{
    if m > 1 {
        lemma_count_words_drop_first(ls, m - 1);
    }
}

proof fn lemma_prods_err_persists(ls: Seq<Seq<Seq<char>>>, k: nat, n: nat, e: ReadError)
    requires
        k <= n,
        prods_of(ls, k) == Err::<Seq<(Seq<char>, Seq<Seq<char>>)>, ReadError>(e),
    ensures
        prods_of(ls, n) == Err::<Seq<(Seq<char>, Seq<Seq<char>>)>, ReadError>(e),
    decreases n - k,
{
    if k < n {
        lemma_prods_err_persists(ls, k, (n - 1) as nat, e);
    }
}

/// A copy of the word `w`.
pub(crate) fn copy_word(w: &Vec<char>) -> (r: Vec<char>)
    ensures
        r@ == w@,
{
    let mut r: Vec<char> = Vec::new();
    let mut i: usize = 0;
    while i < w.len()
        invariant
            i <= w@.len(),
            r@ == w@.take(i as int),
        decreases w@.len() - i,
    {
        r.push(w[i]);
        i = i + 1;
    }
    assert(w@.take(i as int) =~= w@);
    r
}

/// Kind of a word on a production line.
#[derive(PartialEq, Eq, Structural, Clone, Copy, Debug)]
pub enum Tag {
    /// A symbol.
    Id,
    /// The arrow `->`.
    Product,
    /// The epsilon marker `' '`, two words.
    Epsilon,
}

/// The kind of the word at position `j` of `ts` and the position after it.
pub open spec fn scan_word(ts: Seq<Seq<char>>, j: int) -> (Tag, int) {
    if j + 1 < ts.len() && ts[j] == quote() && ts[j + 1] == quote() {
        (Tag::Epsilon, j + 2)
    } else if ts[j] == arrow() {
        (Tag::Product, j + 1)
    } else {
        (Tag::Id, j + 1)
    }
}

/// Recognizes the reserved words of a production line.
pub struct Lexer {
    pub arrow: Vec<char>,
    pub quote: Vec<char>,
}

impl Lexer {
    pub open spec fn wf(&self) -> bool {
        self.arrow@ == arrow() && self.quote@ == quote()
    }

    /// A lexer for the arrow `->` and the epsilon marker `' '`.
    pub fn new() -> (l: Lexer)
        ensures
            l.wf(),
    {
        let l = Lexer { arrow: vec!['-', '>'], quote: vec!['\''] };
        assert(l.arrow@ =~= arrow());
        assert(l.quote@ =~= quote());
        l
    }

    /// The kind of word `j` of `ws` and the position of the next word.
    pub fn scan(&self, ws: &Vec<Vec<char>>, j: usize) -> (r: (Tag, usize))
        requires
            self.wf(),
            j < ws@.len(),
        ensures
            r.0 == scan_word(words_view(*ws), j as int).0,
            r.1 == scan_word(words_view(*ws), j as int).1,
    {
        let ghost ts = words_view(*ws);
        assert(ts[j as int] == ws@[j as int]@);
        if j < ws.len() - 1 {
            assert(ts[j + 1] == ws@[j + 1]@);
            if word_is(&ws[j], &self.quote) && word_is(&ws[j + 1], &self.quote) {
                return (Tag::Epsilon, j + 2);
            }
        }
        if word_is(&ws[j], &self.arrow) {
            (Tag::Product, j + 1)
        } else {
            (Tag::Id, j + 1)
        }
    }
}

/// The line has an origin, which is neither the arrow nor epsilon, then the arrow.
pub open spec fn header_ok(ts: Seq<Seq<char>>) -> bool {
    &&& ts.len() >= 2
    &&& ts[0] != arrow()
    &&& !(ts[0] == quote() && ts[1] == quote())
    &&& ts[1] == arrow()
}

/// Whether `w` is the end marker `$`.
fn is_dollar(w: &Vec<char>) -> (r: bool)
    ensures
        r == (w@ == dollar()),
{
    let r = w.len() == 1 && w[0] == '$';
    proof {
        if r {
            assert(w@ =~= dollar());
        }
    }
    r
}

/// Reads a production line from its words.
fn read_line(ws: &Vec<Vec<char>>) -> (r: Result<(Vec<char>, Vec<Vec<char>>), LineError>)
    ensures
        match parse_line(words_view(*ws)) {
            Err(e) => r == Err::<(Vec<char>, Vec<Vec<char>>), LineError>(e),
            Ok(p) => r matches Ok(q) && q.0@ == p.0 && words_view(q.1) == p.1,
        },
{
    let ghost ts = words_view(*ws);
    if ws.len() == 0 {
        return Err(LineError::Empty);
    }
    assert(ts[0] == ws@[0]@);
    if ws.len() >= 2 {
        assert(ts[1] == ws@[1]@);
    }
    let lx = Lexer::new();
    match lx.scan(ws, 0).0 {
        Tag::Product => {
            return Err(LineError::EmptyOrigin);
        },
        Tag::Epsilon => {
            return Err(LineError::EpsilonOrigin);
        },
        Tag::Id => {},
    }
    if ws.len() == 1 {
        return Err(LineError::MissingArrow);
    }
    if lx.scan(ws, 1).0 != Tag::Product {
        return Err(LineError::MultipleOrigins);
    }
    let ghost b = ts.skip(2);
    assert(ts[1] == arrow());
    assert(b.len() == ws@.len() - 2);
    let mut j: usize = 0;
    while j < ws.len()
        invariant
            header_ok(ts),
            ts == words_view(*ws),
            b == ts.skip(2),
            ws@.len() >= 2,
            j <= ws@.len(),
            forall|i: int| 0 <= i < j ==> ts[i] != dollar(),
        decreases ws@.len() - j,
    {
        assert(ts[j as int] == ws@[j as int]@);
        if is_dollar(&ws[j]) {
            proof {
                if j == 0 {
                } else if j == 1 {
                    assert(arrow()[0] != dollar()[0]);
                } else {
                    assert(b[j - 2] == ts[j as int]);
                }
            }
            return Err(LineError::EndMarker);
        }
        j = j + 1;
    }
    assert(!b.contains(dollar())) by {
        if b.contains(dollar()) {
            let i = choose|i: int| 0 <= i < b.len() && b[i] == dollar();
            assert(ts[i + 2] == b[i]);
        }
    }
    assert(ts[0] != dollar());
    let origin = copy_word(&ws[0]);
    if ws.len() == 4 {
        assert(b.len() == 2 && b[0] == ts[2] && b[1] == ts[3]);
        if lx.scan(ws, 2).0 == Tag::Epsilon {
            assert(b =~= seq![quote(), quote()]);
            return Ok((origin, Vec::new()));
        }
        assert(b != seq![quote(), quote()]);
    }
    assert(ws.len() == 4 || b != seq![quote(), quote()]);
    let mut body: Vec<Vec<char>> = Vec::new();
    let mut j: usize = 2;
    while j < ws.len()
        invariant
            lx.wf(),
            header_ok(ts),
            ts[0] != dollar(),
            !b.contains(dollar()),
            ts == words_view(*ws),
            b == ts.skip(2),
            b != seq![quote(), quote()],
            2 <= j <= ws@.len(),
            words_view(body) == b.take(j - 2),
            forall|i: int| 0 <= i < j - 2 ==> !epsilon_at(b, i),
        decreases ws@.len() - j,
    {
        assert(ts[j as int] == ws@[j as int]@);
        if j + 1 < ws.len() {
            assert(ts[j + 1] == ws@[j + 1]@);
        }
        let (tag, next) = lx.scan(ws, j);
        if tag == Tag::Epsilon {
            assert(epsilon_at(b, j - 2));
            return Err(LineError::MixedEpsilon);
        }
        assert(!epsilon_at(b, j - 2));
        let ghost old_b = words_view(body);
        let w = copy_word(&ws[j]);
        body.push(w);
        proof {
            assert(words_view(body) =~= old_b.push(b[j - 2]));
            assert(b.take(j - 1) =~= b.take(j - 2).push(b[j - 2]));
        }
        j = j + 1;
    }
    proof {
        assert(b.take(j - 2) =~= b);
        assert(!has_epsilon(b));
    }
    Ok((origin, body))
}

/// No two names are the same text.
pub open spec fn distinct_names(names: Seq<Seq<char>>) -> bool {
    forall|a: int, b: int| 0 <= a < names.len() && 0 <= b < names.len() && a != b ==> names[a] != names[b]
}

/// Number of the symbol named `w`, added to `names` if it is new.
fn intern(names: &mut Vec<Vec<char>>, w: &Vec<char>) -> (x: usize)
    requires
        old(names)@.len() < usize::MAX,
        distinct_names(words_view(*old(names))),
    ensures
        distinct_names(words_view(*final(names))),
        x < final(names)@.len(),
        words_view(*final(names))[x as int] == w@,
        final(names)@.len() <= old(names)@.len() + 1,
        final(names)@.len() >= old(names)@.len(),
        forall|a: int| 0 <= a < old(names)@.len() ==> final(names)@[a] == old(names)@[a],
        forall|a: int| old(names)@.len() <= a < final(names)@.len() ==> words_view(*final(names))[a] == w@,
{
    let mut i: usize = 0;
    while i < names.len()
        invariant
            i <= names@.len(),
            names@ == old(names)@,
            distinct_names(words_view(*names)),
            forall|a: int| 0 <= a < i ==> names@[a]@ != w@,
        decreases names@.len() - i,
    {
        if word_is(&names[i], w) {
            assert(words_view(*names)[i as int] == names@[i as int]@);
            return i;
        }
        i = i + 1;
    }
    let ghost old_v = words_view(*names);
    let c = copy_word(w);
    names.push(c);
    proof {
        assert(words_view(*names) =~= old_v.push(w@));
    }
    i
}

/// `w` is the origin or a body symbol of one of the productions `ps`.
pub open spec fn named_in(w: Seq<char>, ps: Seq<(Seq<char>, Seq<Seq<char>>)>) -> bool {
    exists|k: int| 0 <= k < ps.len() && #[trigger] names_at(ps, k, w)
}

/// `w` is the origin or a body symbol of production `k` of `ps`.
pub open spec fn names_at(ps: Seq<(Seq<char>, Seq<Seq<char>>)>, k: int, w: Seq<char>) -> bool {
    ps[k].0 == w || ps[k].1.contains(w)
}

proof fn lemma_named_in_push(
    w: Seq<char>,
    ps: Seq<(Seq<char>, Seq<Seq<char>>)>,
    p: (Seq<char>, Seq<Seq<char>>),
)
    requires
        named_in(w, ps),
    ensures
        named_in(w, ps.push(p)),
{
    let k = choose|k: int| 0 <= k < ps.len() && #[trigger] names_at(ps, k, w);
    assert(ps.push(p)[k] == ps[k]);
    assert(names_at(ps.push(p), k, w));
}

/// Rules and names built from the productions `ps` so far.
pub open spec fn built(names: Seq<Seq<char>>, rules: Seq<Rule>, ps: Seq<(Seq<char>, Seq<Seq<char>>)>) -> bool {
    &&& distinct_names(names)
    &&& forall|a: int| 0 <= a < names.len() ==> named_in(#[trigger] names[a], ps)
    &&& rules.len() == ps.len()
    &&& forall|k: int| 0 <= k < ps.len() ==> (#[trigger] rules[k]).origin < names.len()
    &&& forall|k: int| 0 <= k < ps.len() ==> names[(#[trigger] rules[k]).origin as int] == ps[k].0
    &&& forall|k: int| 0 <= k < ps.len() ==> (#[trigger] rules[k]).body@.len() == ps[k].1.len()
    &&& forall|k: int, i: int|
        0 <= k < ps.len() && 0 <= i < rules[k].body@.len() ==> #[trigger] rules[k].body@[i] < names.len()
            && names[rules[k].body@[i] as int] == ps[k].1[i]
}

/// Whether no line after line `n` holds a word.
fn all_blank_after(lines: &Vec<Vec<Vec<char>>>, n: usize) -> (r: bool)
    ensures
        r == blank_after(lines_view(*lines), n as nat),
{
    let ghost ls = lines_view(*lines);
    if n >= lines.len() {
        return true;
    }
    let mut m: usize = n + 1;
    while m < lines.len()
        invariant
            ls == lines_view(*lines),
            n < m,
            forall|m2: int| n < m2 < m && m2 < ls.len() ==> (#[trigger] ls[m2]).len() == 0,
        decreases ls.len() - m,
    {
        assert(ls[m as int] == lines@[m as int]@.map_values(|w: Vec<char>| w@));
        if lines[m].len() > 0 {
            return false;
        }
        m = m + 1;
    }
    true
}

/// Reads a grammar text: a line with the number `N` of productions, then `N` lines
/// `A -> X1 X2 ...`, with `' '` for epsilon. Lines after those must be blank.
pub fn read_grammar(text: &Vec<char>) -> (r: Result<Grammar, ReadError>)
    requires
        text@.len() + 3 < usize::MAX,
    ensures
        match read_spec(text@) {
            Err(e) => r == Err::<Grammar, ReadError>(e),
            Ok(ps) => r matches Ok(g) && represents(&g, ps),
        },
{
    let lines = split_lines(text);
    let ghost ls = lines_of(text@);
    assert(lines_view(lines)[0] == words_view(lines@[0]));
    let n = match parse_count(&lines[0]) {
        None => {
            return Err(ReadError::BadCount);
        },
        Some(n) => n,
    };
    if n == 0 {
        return Err(ReadError::NoProductions);
    }
    if lines.len() - 1 < n {
        return Err(ReadError::MissingLines);
    }
    let mut names: Vec<Vec<char>> = Vec::new();
    let mut rules: Vec<Rule> = Vec::new();
    let blank = all_blank_after(&lines, n);
    let ghost mut ps: Seq<(Seq<char>, Seq<Seq<char>>)> = seq![];
    proof {
        assert(distinct_names(words_view(names)));
    }
    let mut k: usize = 0;
    while k < n
        invariant
            lines_view(lines) == ls,
            lines@.len() == ls.len(),
            ps.len() == k,
            count_of(ls[0]) == Some(n as nat),
            n > 0,
            ls == lines_of(text@),
            count_words(ls, 0, ls.len() as int) <= text@.len(),
            text@.len() + 3 < usize::MAX,
            n + 1 <= ls.len(),
            k <= n,
            prods_of(ls, k as nat) == Ok::<Seq<(Seq<char>, Seq<Seq<char>>)>, ReadError>(ps),
            built(words_view(names), rules@, ps),
            names@.len() <= count_words(ls, 1, k + 1),
        decreases n - k,
    {
        assert(lines_view(lines)[k + 1] == words_view(lines@[k + 1]));
        match read_line(&lines[k + 1]) {
            Err(e) => {
                proof {
                    assert(prods_of(ls, (k + 1) as nat) == Err::<Seq<(Seq<char>, Seq<Seq<char>>)>, ReadError>(ReadError::BadLine((k + 2) as usize, e)));
                    lemma_prods_err_persists(ls, (k + 1) as nat, n as nat, ReadError::BadLine((k + 2) as usize, e));
                }
                assert(k + 2 <= lines.len());
                return Err(ReadError::BadLine(k + 2, e));
            },
            Ok((lhs, body)) => {
                let ghost line = ls[k + 1];
                let ghost p = (lhs@, words_view(body));
                proof {
                    assert(p.1.len() + 2 <= line.len());
                    lemma_count_words_mono(ls, 1, k + 2, n + 1);
                    lemma_count_words_drop_first(ls, n + 1);
                    lemma_count_words_mono(ls, 0, n + 1, ls.len() as int);
                }
                let ghost names0 = names@;
                let ghost wv0 = words_view(names);
                let origin = intern(&mut names, &lhs);
                proof {
                    assert forall|a: int| 0 <= a < names@.len() implies named_in(#[trigger] words_view(names)[a], ps)
                        || words_view(names)[a] == lhs@ || words_view(body).take(0).contains(words_view(names)[a]) by {
                        if a < names0.len() {
                            assert(words_view(names)[a] == names0[a]@);
                            assert(wv0[a] == names0[a]@);
                            assert(named_in(wv0[a], ps));
                        }
                    }
                }
                let mut ids: Vec<usize> = Vec::new();
                let mut j: usize = 0;
                while j < body.len()
                    invariant
                        text@.len() + 3 < usize::MAX,
                        count_words(ls, 0, ls.len() as int) <= text@.len(),
                        count_words(ls, 1, k + 2) <= count_words(ls, 0, ls.len() as int),
                        count_words(ls, 1, k + 2) == count_words(ls, 1, k + 1) + line.len(),
                        names0.len() <= count_words(ls, 1, k + 1),
                        names0.len() <= names@.len(),
                        body@.len() + 2 <= line.len(),
                        names@.len() <= names0.len() + 1 + j,
                        j <= body@.len(),
                        distinct_names(words_view(names)),
                        forall|a: int| 0 <= a < names0.len() ==> names@[a] == names0[a],
                        origin < names@.len(),
                        words_view(names)[origin as int] == lhs@,
                        ids@.len() == j,
                        forall|i: int| 0 <= i < j ==> #[trigger] ids@[i] < names@.len() && words_view(names)[ids@[i] as int] == body@[i]@,
                        forall|a: int| 0 <= a < names@.len() ==> named_in(#[trigger] words_view(names)[a], ps)
                            || words_view(names)[a] == lhs@ || words_view(body).take(j as int).contains(words_view(names)[a]),
                    decreases body@.len() - j,
                {
                    let ghost before = names@;
                    let ghost wvb = words_view(names);
                    let ghost bv = words_view(body);
                    let x = intern(&mut names, &body[j]);
                    proof {
                        assert(bv[j as int] == body@[j as int]@);
                        assert(bv.take(j + 1) =~= bv.take(j as int).push(bv[j as int]));
                        assert forall|a: int| 0 <= a < names@.len() implies named_in(#[trigger] words_view(names)[a], ps)
                            || words_view(names)[a] == lhs@ || bv.take(j + 1).contains(words_view(names)[a]) by {
                            if a < before.len() {
                                assert(names@[a] == before[a]);
                                assert(wvb[a] == words_view(names)[a]);
                                assert(named_in(wvb[a], ps) || wvb[a] == lhs@ || bv.take(j as int).contains(wvb[a]));
                                if bv.take(j as int).contains(words_view(names)[a]) {
                                    let q = choose|q: int| 0 <= q < j && bv.take(j as int)[q] == words_view(names)[a];
                                    assert(bv.take(j + 1)[q] == words_view(names)[a]);
                                }
                            } else {
                                assert(bv.take(j + 1)[j as int] == words_view(names)[a]);
                            }
                        }
                        assert forall|i: int| 0 <= i < j implies #[trigger] ids@[i] < names@.len() && words_view(names)[ids@[i] as int] == body@[i]@ by {
                            assert(names@[ids@[i] as int] == before[ids@[i] as int]);
                        }
                        assert(names@[origin as int] == before[origin as int]);
                    }
                    ids.push(x);
                    j = j + 1;
                }
                let ghost old_rules = rules@;
                let ghost old_ps = ps;
                rules.push(Rule { origin, body: ids });
                proof {
                    ps = ps.push(p);
                    let nv = words_view(names);
                    assert forall|kk: int| 0 <= kk < ps.len() implies (#[trigger] rules@[kk]).origin < nv.len()
                        && nv[rules@[kk].origin as int] == ps[kk].0
                        && rules@[kk].body@.len() == ps[kk].1.len() by {
                        if kk < k {
                            assert(rules@[kk] == old_rules[kk]);
                            assert(names@[old_rules[kk].origin as int] == names0[old_rules[kk].origin as int]);
                        } else {
                            assert(rules@[kk].body@ == ids@);
                            assert(words_view(body).len() == body@.len());
                        }
                    }
                    assert forall|kk: int, i: int|
                        0 <= kk < ps.len() && 0 <= i < rules@[kk].body@.len() implies #[trigger] rules@[kk].body@[i] < nv.len()
                            && nv[rules@[kk].body@[i] as int] == ps[kk].1[i] by {
                        if kk < k {
                            assert(rules@[kk] == old_rules[kk]);
                            assert(names@[old_rules[kk].body@[i] as int] == names0[old_rules[kk].body@[i] as int]);
                        } else {
                            assert(rules@[kk].body@ == ids@);
                            assert(ids@[i] < names@.len());
                            assert(words_view(body)[i] == body@[i]@);
                        }
                    }
                    assert(words_view(body).take(body@.len() as int) =~= words_view(body));
                    assert forall|a: int| 0 <= a < nv.len() implies named_in(#[trigger] nv[a], ps) by {
                        if named_in(nv[a], old_ps) {
                            lemma_named_in_push(nv[a], old_ps, p);
                        } else if nv[a] == lhs@ {
                            assert(ps[k as int].0 == nv[a]);
                            assert(names_at(ps, k as int, nv[a]));
                        } else {
                            assert(ps[k as int].1.contains(nv[a]));
                            assert(names_at(ps, k as int, nv[a]));
                        }
                    }
                    assert(built(nv, rules@, ps));
                }
            },
        }
        k = k + 1;
    }
    if !blank {
        return Err(ReadError::ExtraLines);
    }
    assert(blank_after(ls, n as nat));
    assert(rules@.len() > 0);
    let start = rules[0].origin;
    let g = Grammar { names, rules, start };
    proof {
        lemma_count_words_drop_first(ls, n + 1);
        lemma_count_words_mono(ls, 0, n + 1, ls.len() as int);
        assert forall|kk: int| 0 <= kk < g.nrules() implies (#[trigger] g.origin(kk)) < g.nsym() by {
            assert(g.rules@[kk].origin < words_view(g.names).len());
        }
        assert forall|kk: int, i: int| 0 <= kk < g.nrules() && 0 <= i < g.body(kk).len() implies #[trigger] g.body(kk)[i] < g.nsym() by {
            assert(g.rules@[kk].body@[i] < words_view(g.names).len());
        }
        assert forall|kk: int| 0 <= kk < ps.len() implies g.names@[g.origin(kk) as int]@ == (#[trigger] ps[kk]).0 by {
            assert(words_view(g.names)[g.rules@[kk].origin as int] == ps[kk].0);
        }
        assert forall|kk: int, i: int| 0 <= kk < ps.len() && 0 <= i < g.body(kk).len() implies g.names@[#[trigger] g.body(kk)[i] as int]@ == ps[kk].1[i] by {
            assert(g.rules@[kk].body@[i] < words_view(g.names).len());
            assert(words_view(g.names)[g.rules@[kk].body@[i] as int] == ps[kk].1[i]);
        }
        assert forall|a: int| 0 <= a < g.nsym() implies named_in(#[trigger] g.names@[a]@, ps) by {
            assert(words_view(g.names)[a] == g.names@[a]@);
        }
        assert forall|a: int, b: int| 0 <= a < g.nsym() && 0 <= b < g.nsym() && a != b implies g.names@[a]@ != g.names@[b]@ by {
            assert(words_view(g.names)[a] != words_view(g.names)[b]);
        }
    }
    Ok(g)
}

} // verus!
