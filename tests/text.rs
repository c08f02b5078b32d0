use slr_gen::automaton::{get_extended_prods, SlrRule, SlrState};
use slr_gen::grammar::Grammar;
use slr_gen::reader::{read_grammar, Lexer, Tag};
use slr_gen::render::{_kernel_to_string, augmented_name};

fn load(text: &str) -> Grammar {
    let chars: Vec<char> = text.chars().collect();
    match read_grammar(&chars) {
        Ok(g) => g,
        Err(e) => panic!("grammar rejected: {:?}", e),
    }
}

fn s(v: Vec<char>) -> String {
    v.into_iter().collect()
}

fn words(line: &str) -> Vec<Vec<char>> {
    line.split_whitespace().map(|w| w.chars().collect()).collect()
}

#[test]
fn item_text_marks_the_dot() {
    let g = load("1\nS -> a b\n");
    assert_eq!(s(SlrRule { rule: 1, dot: 0 }.to_string(&g)), "1. S -> '*' a b ");
    assert_eq!(s(SlrRule { rule: 1, dot: 1 }.to_string(&g)), "1. S -> a '*' b ");
    assert_eq!(s(SlrRule { rule: 1, dot: 2 }.to_string(&g)), "1. S -> a b '*' ");
    assert_eq!(s(SlrRule { rule: 0, dot: 0 }.to_string(&g)), "0. S' -> '*' S ");
}

#[test]
fn epsilon_item_text() {
    let g = load("1\nS -> ' '\n");
    assert_eq!(s(SlrRule { rule: 1, dot: 0 }.to_string(&g)), "1. S -> '*' ");
}

#[test]
fn augmented_name_avoids_existing_names() {
    let g = load("1\nS -> a\n");
    assert_eq!(s(augmented_name(&g)), "S'");
    let g2 = load("2\nS -> S' a\nS' -> b\n");
    assert_eq!(s(augmented_name(&g2)), "S''");
    assert_eq!(s(SlrRule { rule: 0, dot: 1 }.to_string(&g2)), "0. S'' -> S '*' ");
}

#[test]
fn state_text_lists_kernel_then_closure() {
    let g = load("1\nS -> a\n");
    let st = SlrState::new(&g, vec![SlrRule { rule: 0, dot: 0 }]);
    assert_eq!(
        s(st._to_string(&g)),
        "0. S' -> '*' S \n- - - - - - -\n0. S' -> '*' S \n1. S -> '*' a \n"
    );
    assert_eq!(s(_kernel_to_string(&g, &st.kernel)), "0. S' -> '*' S ");
}

#[test]
fn state_reading_symbols_and_end_rules() {
    let g = load("3\nS -> A b\nA -> a\nA -> ' '\n");
    let st = SlrState::new(&g, vec![SlrRule { rule: 0, dot: 0 }]);
    let mut syms = st.get_reading_symbols(&g);
    syms.sort();
    // S = 0, A = 1, b = 2, a = 3
    assert_eq!(syms, vec![0, 1, 3]);
    assert_eq!(st.get_end_rules(&g), vec![3]);
    let next = st.get_next_kernel(&g, 1);
    assert_eq!(next, vec![SlrRule { rule: 1, dot: 1 }]);
}

#[test]
fn extended_prods_are_initial_items() {
    let g = load("3\nS -> A b\nA -> a\nA -> ' '\n");
    assert_eq!(
        get_extended_prods(&g, 1),
        vec![SlrRule { rule: 2, dot: 0 }, SlrRule { rule: 3, dot: 0 }]
    );
    assert!(get_extended_prods(&g, 2).is_empty());
}

#[test]
fn item_advance_moves_the_dot() {
    let g = load("2\nS -> A\nA -> a b\n");
    let mut it = SlrRule::_new(2);
    assert_eq!(it, SlrRule { rule: 2, dot: 0 });
    it.advance(&g);
    assert_eq!(it, SlrRule { rule: 2, dot: 1 });
    it.advance(&g);
    assert_eq!(it, SlrRule { rule: 2, dot: 2 });
    it.advance(&g);
    assert_eq!(it, SlrRule { rule: 2, dot: 2 });
    let mut acc = SlrRule { rule: 0, dot: 1 };
    acc.advance(&g);
    assert_eq!(acc, SlrRule { rule: 0, dot: 1 });
    assert_eq!(SlrRule { rule: 2, dot: 1 }.get_reading_symbol(&g), Some(3));
    assert_eq!(SlrRule { rule: 2, dot: 2 }.get_reading_symbol(&g), None);
    assert_eq!(SlrRule { rule: 0, dot: 0 }.get_reading_symbol(&g), Some(0));
}

#[test]
fn lexer_tags_reserved_words() {
    let lx = Lexer::new();
    let ws = words("S -> ' ' a");
    assert_eq!(lx.scan(&ws, 0), (Tag::Id, 1));
    assert_eq!(lx.scan(&ws, 1), (Tag::Product, 2));
    assert_eq!(lx.scan(&ws, 2), (Tag::Epsilon, 4));
    assert_eq!(lx.scan(&ws, 4), (Tag::Id, 5));
    let single = words("'");
    assert_eq!(lx.scan(&single, 0), (Tag::Id, 1));
}
