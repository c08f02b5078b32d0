use slr_gen::automaton::{build_slr, SlrRule};
use slr_gen::first_follow::get_firsts;
use slr_gen::grammar::{classify, Grammar};
use slr_gen::reader::read_grammar;
use slr_gen::render::slr_table_to_string;
use slr_gen::slr::{analyze, Analysis};
use slr_gen::table::Action;
use std::collections::BTreeSet;

fn load(text: &str) -> Grammar {
    let chars: Vec<char> = text.chars().collect();
    match read_grammar(&chars) {
        Ok(g) => g,
        Err(e) => panic!("grammar rejected: {:?}", e),
    }
}

fn name(g: &Grammar, x: usize) -> String {
    g.names[x].iter().collect()
}

fn sym(g: &Grammar, s: &str) -> usize {
    (0..g.names.len()).find(|&x| name(g, x) == s).expect("no such symbol")
}

fn set(items: &[&str]) -> BTreeSet<String> {
    items.iter().map(|s| s.to_string()).collect()
}

/// FIRST(s), with "eps" standing for epsilon.
fn first(g: &Grammar, a: &Analysis, s: &str) -> BTreeSet<String> {
    let x = sym(g, s);
    let mut r: BTreeSet<String> = (0..g.names.len())
        .filter(|&t| a.first.first[x][t])
        .map(|t| name(g, t))
        .collect();
    if a.first.nullable[x] {
        r.insert("eps".to_string());
    }
    r
}

/// FOLLOW(s), with "$" for the end marker.
fn follow(g: &Grammar, a: &Analysis, s: &str) -> BTreeSet<String> {
    let x = sym(g, s);
    let n = g.names.len();
    (0..=n)
        .filter(|&t| a.follow[x][t])
        .map(|t| if t == n { "$".to_string() } else { name(g, t) })
        .collect()
}

fn action(g: &Grammar, a: &Analysis, i: usize, col: &str) -> Option<Action> {
    let c = if col == "$" { g.names.len() } else { sym(g, col) };
    a.table.actions[i][c]
}

fn goto(g: &Grammar, a: &Analysis, i: usize, x: &str) -> Option<usize> {
    a.table.gotos[i][sym(g, x)]
}

fn error_cells(a: &Analysis) -> usize {
    a.table
        .actions
        .iter()
        .map(|row| row.iter().filter(|c| **c == Some(Action::Error)).count())
        .sum()
}

fn accept_states(g: &Grammar, a: &Analysis) -> Vec<usize> {
    let n = g.names.len();
    (0..a.table.actions.len())
        .filter(|&i| a.table.actions[i][n] == Some(Action::Accept))
        .collect()
}

const EXPR: &str = "6\nE -> E + T\nE -> T\nT -> T * F\nT -> F\nF -> ( E )\nF -> id\n";

#[test]
fn classic_expression_grammar() {
    let g = load(EXPR);
    let a = analyze(&g);
    let terminals: BTreeSet<String> = (0..g.names.len())
        .filter(|&x| a.classes.terminal[x])
        .map(|x| name(&g, x))
        .collect();
    assert_eq!(terminals, set(&["+", "*", "(", ")", "id"]));
    let nonterminals: BTreeSet<String> = (0..g.names.len())
        .filter(|&x| a.classes.nonterminal[x])
        .map(|x| name(&g, x))
        .collect();
    assert_eq!(nonterminals, set(&["E", "T", "F"]));
    assert_eq!(first(&g, &a, "E"), set(&["(", "id"]));
    assert_eq!(first(&g, &a, "T"), set(&["(", "id"]));
    assert_eq!(first(&g, &a, "F"), set(&["(", "id"]));
    assert_eq!(follow(&g, &a, "E"), set(&["+", ")", "$"]));
    assert_eq!(follow(&g, &a, "T"), set(&["+", "*", ")", "$"]));
    assert_eq!(follow(&g, &a, "F"), set(&["+", "*", ")", "$"]));
    assert_eq!(a.automaton.kernels.len(), 12);
    assert_eq!(error_cells(&a), 0);
    assert_eq!(accept_states(&g, &a).len(), 1);
}

#[test]
fn epsilon_in_tail() {
    let g = load("3\nS -> A b\nA -> a\nA -> ' '\n");
    let a = analyze(&g);
    assert_eq!(first(&g, &a, "A"), set(&["a", "eps"]));
    assert_eq!(first(&g, &a, "S"), set(&["a", "b"]));
    assert_eq!(follow(&g, &a, "A"), set(&["b"]));
    assert_eq!(follow(&g, &a, "S"), set(&["$"]));
    // rule 3 is A -> ' '
    let mut cells = Vec::new();
    for (i, row) in a.table.actions.iter().enumerate() {
        for (c, cell) in row.iter().enumerate() {
            if *cell == Some(Action::Reduce(3)) {
                cells.push((i, c));
            }
        }
    }
    assert_eq!(cells, vec![(0, sym(&g, "b"))]);
    assert_eq!(action(&g, &a, 0, "b"), Some(Action::Reduce(3)));
}

#[test]
fn ambiguous_grammar_marks_conflict() {
    let g = load("2\nS -> S S\nS -> a\n");
    let a = analyze(&g);
    let col = sym(&g, "a");
    // some state completes S -> S S . and also shifts on a: the cell is Error
    let mut found = false;
    for i in 0..a.automaton.kernels.len() {
        let completes = a.automaton.kernels[i].contains(&SlrRule { rule: 1, dot: 2 });
        let shifts = a.automaton.transitions[i].iter().any(|&(x, _)| x == col);
        if completes && shifts {
            assert_eq!(a.table.actions[i][col], Some(Action::Error));
            found = true;
        }
    }
    assert!(found);
    assert!(error_cells(&a) > 0);
}

#[test]
fn single_rule_acceptance() {
    let g = load("1\nS -> a\n");
    let a = analyze(&g);
    assert_eq!(a.automaton.kernels.len(), 3);
    assert_eq!(action(&g, &a, 0, "a"), Some(Action::Shift(2)));
    assert_eq!(action(&g, &a, 2, "$"), Some(Action::Reduce(1)));
    assert_eq!(action(&g, &a, 1, "$"), Some(Action::Accept));
    assert_eq!(goto(&g, &a, 0, "S"), Some(1));
    assert_eq!(action(&g, &a, 0, "$"), None);
    assert_eq!(action(&g, &a, 1, "a"), None);
}

#[test]
fn pure_epsilon_start() {
    let g = load("1\nS -> ' '\n");
    let a = analyze(&g);
    assert_eq!(action(&g, &a, 0, "$"), Some(Action::Reduce(1)));
    assert_eq!(goto(&g, &a, 0, "S"), Some(1));
    assert_eq!(action(&g, &a, 1, "$"), Some(Action::Accept));
    assert_eq!(a.automaton.kernels.len(), 2);
    assert_eq!(first(&g, &a, "S"), set(&["eps"]));
}

#[test]
fn deep_epsilon_propagation() {
    let g = load("3\nS -> A B c\nA -> ' '\nB -> ' '\n");
    let a = analyze(&g);
    assert_eq!(first(&g, &a, "S"), set(&["c"]));
    assert!(follow(&g, &a, "A").contains("c"));
    assert!(follow(&g, &a, "B").contains("c"));
    assert_eq!(follow(&g, &a, "A"), set(&["c"]));
    assert_eq!(follow(&g, &a, "B"), set(&["c"]));
    assert_eq!(error_cells(&a), 0);
}

#[test]
fn left_recursion_terminates_without_conflicts() {
    let g = load("3\nE -> E + T\nE -> T\nT -> id\n");
    let a = analyze(&g);
    assert_eq!(first(&g, &a, "E"), set(&["id"]));
    assert_eq!(follow(&g, &a, "E"), set(&["+", "$"]));
    assert_eq!(follow(&g, &a, "T"), set(&["+", "$"]));
    assert_eq!(error_cells(&a), 0);
    assert_eq!(accept_states(&g, &a).len(), 1);
}

#[test]
fn epsilon_production_puts_epsilon_in_first() {
    let g = load("3\nS -> A b\nA -> a\nA -> ' '\n");
    let a = analyze(&g);
    assert!(a.first.nullable[sym(&g, "A")]);
    assert!(!a.first.nullable[sym(&g, "S")]);
}

#[test]
fn first_of_body_is_part_of_first_of_origin() {
    let g = load(EXPR);
    let a = analyze(&g);
    // T -> F: FIRST(F) is part of FIRST(T); E -> T: FIRST(T) part of FIRST(E)
    assert!(first(&g, &a, "F").is_subset(&first(&g, &a, "T")));
    assert!(first(&g, &a, "T").is_subset(&first(&g, &a, "E")));
}

#[test]
fn follow_never_holds_epsilon_and_start_has_end() {
    let g = load("3\nS -> A B c\nA -> ' '\nB -> ' '\n");
    let a = analyze(&g);
    for x in ["S", "A", "B"] {
        assert!(!follow(&g, &a, x).contains("eps"));
        assert!(!follow(&g, &a, x).contains("A"));
    }
    assert!(follow(&g, &a, "S").contains("$"));
}

#[test]
fn recomputing_first_gives_the_same_sets() {
    let g = load(EXPR);
    let c = classify(&g);
    let f1 = get_firsts(&g, &c);
    let f2 = get_firsts(&g, &c);
    assert_eq!(f1.nullable, f2.nullable);
    assert_eq!(f1.first, f2.first);
}

#[test]
fn rebuilding_the_automaton_gives_the_same_states() {
    let g = load(EXPR);
    let a1 = build_slr(&g);
    let a2 = build_slr(&g);
    assert_eq!(a1.kernels.len(), a2.kernels.len());
    for (i, k) in a1.kernels.iter().enumerate() {
        let s1: BTreeSet<(usize, usize)> = k.iter().map(|it| (it.rule, it.dot)).collect();
        let s2: BTreeSet<(usize, usize)> = a2.kernels[i].iter().map(|it| (it.rule, it.dot)).collect();
        assert_eq!(s1, s2);
        assert_eq!(a1.transitions[i], a2.transitions[i]);
    }
}

#[test]
fn shift_cells_follow_transitions() {
    let g = load(EXPR);
    let a = analyze(&g);
    let n = g.names.len();
    for i in 0..a.table.actions.len() {
        for col in 0..=n {
            match a.table.actions[i][col] {
                Some(Action::Shift(j)) => {
                    assert!(a.automaton.transitions[i].contains(&(col, j)));
                }
                Some(Action::Reduce(r)) => {
                    let origin = g.rules[r - 1].origin;
                    assert!(a.follow[origin][col]);
                }
                _ => {}
            }
        }
    }
}

#[test]
fn accept_only_where_start_item_is_complete() {
    let g = load(EXPR);
    let a = analyze(&g);
    let n = g.names.len();
    for i in 0..a.table.actions.len() {
        let complete = a.automaton.kernels[i].contains(&SlrRule { rule: 0, dot: 1 });
        assert_eq!(a.table.actions[i][n] == Some(Action::Accept), complete);
    }
}

#[test]
fn state_zero_kernel_is_the_start_item() {
    let g = load(EXPR);
    let a = build_slr(&g);
    assert_eq!(a.kernels[0], vec![SlrRule { rule: 0, dot: 0 }]);
    assert!(a.kernels.iter().all(|k| !k.is_empty()));
}

#[test]
fn renders_single_rule_table() {
    let g = load("1\nS -> a\n");
    let a = analyze(&g);
    let html: String = slr_table_to_string(&g, &a.classes, &a.table).into_iter().collect();
    assert_eq!(
        html,
        "<table><tr><th>state</th><th>a</th><th>$</th><th>S</th></tr>\
         <tr><td>0</td><td>s2</td><td></td><td>1</td></tr>\
         <tr><td>1</td><td></td><td>ACC</td><td></td></tr>\
         <tr><td>2</td><td></td><td>r1</td><td></td></tr></table>"
    );
}

#[test]
fn renders_error_and_multi_digit_states() {
    let g = load(EXPR);
    let a = analyze(&g);
    let html: String = slr_table_to_string(&g, &a.classes, &a.table).into_iter().collect();
    assert!(html.contains("<td>11</td>"));
    assert!(html.contains("ACC"));
    assert!(!html.contains("ERR"));
    let g2 = load("2\nS -> S S\nS -> a\n");
    let a2 = analyze(&g2);
    let html2: String = slr_table_to_string(&g2, &a2.classes, &a2.table).into_iter().collect();
    assert!(html2.contains("<td>ERR</td>"));
}

#[test]
fn accept_cell_collides_with_epsilon_reduce() {
    // state 1 holds S' -> S . and closes over A -> . with $ in FOLLOW(A)
    let g = load("3\nS -> S A\nS -> a\nA -> ' '\n");
    let a = analyze(&g);
    assert!(a.automaton.kernels[1].contains(&SlrRule { rule: 0, dot: 1 }));
    assert_eq!(action(&g, &a, 1, "$"), Some(Action::Error));
    assert!(accept_states(&g, &a).is_empty());
}

#[test]
fn goto_cells_hold_transitions_on_nonterminals() {
    let g = load(EXPR);
    let a = analyze(&g);
    for i in 0..a.table.gotos.len() {
        for x in 0..g.names.len() {
            let on_x: Vec<usize> = a.automaton.transitions[i]
                .iter()
                .filter(|&&(s, _)| s == x)
                .map(|&(_, j)| j)
                .collect();
            if a.classes.nonterminal[x] {
                assert_eq!(a.table.gotos[i][x], on_x.first().copied());
            } else {
                assert_eq!(a.table.gotos[i][x], None);
            }
        }
    }
    assert_eq!(goto(&g, &a, 0, "E"), Some(1));
}

#[test]
fn states_are_numbered_in_the_order_first_reached() {
    let g = load(EXPR);
    let a = analyze(&g);
    let mut next = 1;
    let mut seen = vec![false; a.automaton.kernels.len()];
    seen[0] = true;
    for row in &a.automaton.transitions {
        for w in row.windows(2) {
            assert!(w[0].0 < w[1].0);
        }
        for &(_, j) in row {
            if !seen[j] {
                assert_eq!(j, next);
                seen[j] = true;
                next += 1;
            }
        }
    }
    assert_eq!(next, a.automaton.kernels.len());
}

#[test]
fn completed_item_stays_when_advanced() {
    let g = load("1\nS -> a\n");
    let mut it = SlrRule { rule: 1, dot: 1 };
    it.advance(&g);
    assert_eq!(it, SlrRule { rule: 1, dot: 1 });
}
