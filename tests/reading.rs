use slr_gen::reader::{read_grammar, LineError, ReadError};

fn read(text: &str) -> Result<slr_gen::grammar::Grammar, ReadError> {
    let chars: Vec<char> = text.chars().collect();
    read_grammar(&chars)
}

fn error(text: &str) -> ReadError {
    match read(text) {
        Ok(_) => panic!("accepted"),
        Err(e) => e,
    }
}

#[test]
fn reads_rules_in_order() {
    let g = read("3\nS -> A b\nA -> a\nA -> ' '\n").ok().unwrap();
    let names: Vec<String> = g.names.iter().map(|n| n.iter().collect()).collect();
    assert_eq!(names, vec!["S", "A", "b", "a"]);
    assert_eq!(g.rules.len(), 3);
    assert_eq!(g.start, 0);
    assert_eq!(g.rules[0].origin, 0);
    assert_eq!(g.rules[0].body, vec![1, 2]);
    assert_eq!(g.rules[1].origin, 1);
    assert_eq!(g.rules[1].body, vec![3]);
    assert_eq!(g.rules[2].origin, 1);
    assert!(g.rules[2].body.is_empty());
}

#[test]
fn blanks_and_tabs_separate_words() {
    let g = read("1\r\n  S\t->   a  b \r\n").ok().unwrap();
    assert_eq!(g.rules[0].body.len(), 2);
}

#[test]
fn blank_lines_after_the_productions_are_accepted() {
    let g = read("1\nS -> a\n\n  \n").ok().unwrap();
    assert_eq!(g.rules.len(), 1);
}

#[test]
fn rejects_words_after_the_productions() {
    assert_eq!(error("1\nS -> a\nthis is not read\n"), ReadError::ExtraLines);
    assert_eq!(error("1\nS\nT -> b\n"), ReadError::BadLine(2, LineError::MissingArrow));
}

#[test]
fn rejects_the_end_marker_as_a_symbol() {
    assert_eq!(error("1\nS -> a $\n"), ReadError::BadLine(2, LineError::EndMarker));
    assert_eq!(error("1\n$ -> a\n"), ReadError::BadLine(2, LineError::EndMarker));
}

#[test]
fn rejects_epsilon_beside_other_symbols() {
    assert_eq!(error("1\nS -> a ' ' b\n"), ReadError::BadLine(2, LineError::MixedEpsilon));
    assert_eq!(error("1\nS -> ' ' ' '\n"), ReadError::BadLine(2, LineError::MixedEpsilon));
    let g = read("1\nS -> ' '\n").ok().unwrap();
    assert!(g.rules[0].body.is_empty());
}

#[test]
fn rejects_bad_count() {
    assert_eq!(error("x\nS -> a\n"), ReadError::BadCount);
    assert_eq!(error("1 2\nS -> a\n"), ReadError::BadCount);
    assert_eq!(error("99999999999999999999999\nS -> a\n"), ReadError::BadCount);
}

#[test]
fn rejects_no_productions() {
    assert_eq!(error("0\n"), ReadError::NoProductions);
}

#[test]
fn rejects_missing_lines() {
    assert_eq!(error("2\nS -> a"), ReadError::MissingLines);
}

#[test]
fn rejects_bad_lines() {
    assert_eq!(error("1\n\n"), ReadError::BadLine(2, LineError::Empty));
    assert_eq!(error("1\n-> a\n"), ReadError::BadLine(2, LineError::EmptyOrigin));
    assert_eq!(error("1\n' ' -> a\n"), ReadError::BadLine(2, LineError::EpsilonOrigin));
    assert_eq!(error("1\nS\n"), ReadError::BadLine(2, LineError::MissingArrow));
    assert_eq!(error("1\nS T -> a\n"), ReadError::BadLine(2, LineError::MultipleOrigins));
    assert_eq!(
        error("2\nS -> a\nS\n"),
        ReadError::BadLine(3, LineError::MissingArrow)
    );
    assert_eq!(
        error("2\nS -> a\nS b\n"),
        ReadError::BadLine(3, LineError::MultipleOrigins)
    );
}
