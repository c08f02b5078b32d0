use crate::automaton::{build_slr, Automaton};
use crate::bits::rows;
use crate::first_follow::{get_firsts, get_follows, follow_closed, follow_least, FirstSets};
use crate::grammar::{classify, Classes, Grammar};
use crate::table::{build_slr_table, Table};
use vstd::prelude::*;

verus! {

/// Everything the generator derives from a grammar.
pub struct Analysis {
    pub classes: Classes,
    pub first: FirstSets,
    pub follow: Vec<Vec<bool>>,
    pub automaton: Automaton,
    pub table: Table,
}

impl Analysis {
    /// Each part is what its stage computes from `g`.
    pub open spec fn of(&self, g: &Grammar) -> bool {
        &&& self.classes.matches(g)
        &&& self.first.of(g)
        &&& follow_closed(g, self.first.nul(), self.first.fst(), rows(self.follow))
        &&& follow_least(g, self.first.nul(), self.first.fst(), rows(self.follow))
        &&& self.automaton.canonical(g)
        &&& self.table.of(g, rows(self.follow), &self.automaton)
    }
}

/// Runs the stages in order: symbol classes, FIRST, FOLLOW, the LR(0) collection
/// and the SLR(1) table.
pub fn analyze(g: &Grammar) -> (r: Analysis)
    requires
        g.wf(),
    ensures
        r.of(g),
{
    let classes = classify(g);
    let first = get_firsts(g, &classes);
    let follow = get_follows(g, &classes, &first);
    let automaton = build_slr(g);
    let table = build_slr_table(g, &classes, &follow, &automaton);
    Analysis { classes, first, follow, automaton, table }
}

} // verus!
