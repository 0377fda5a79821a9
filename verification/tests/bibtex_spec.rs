use bibadac::automaton::run_automaton;
use bibadac::bibtex_spec::{entry_typo, field_typo};
use bibadac::typo_automaton::assigning_automaton;

#[test]
fn test_word_automaton_two_words() {
    let a = assigning_automaton(vec!["hello", "world"]);
    assert_eq!(
        run_automaton(&a, "hello"),
        vec![(0, 5)].into_iter().collect::<Vec<(usize, usize)>>()
    );
    assert_eq!(
        run_automaton(&a, "world"),
        vec![(1, 5)].into_iter().collect::<Vec<(usize, usize)>>()
    );
    assert_eq!(run_automaton(&a, "hell").len(), 0);
}

#[test]
fn test_word_automaton_two_prefixes() {
    let a = assigning_automaton(vec!["hello", "hell"]);
    assert_eq!(
        run_automaton(&a, "hello"),
        vec![(0, 5)].into_iter().collect::<Vec<(usize, usize)>>()
    );
    assert_eq!(
        run_automaton(&a, "hell"),
        vec![(1, 4)].into_iter().collect::<Vec<(usize, usize)>>()
    );
    assert_eq!(run_automaton(&a, "hel").len(), 0);
}

#[test]
fn test_one_letter_typo() {
    assert_eq!(field_typo("author"), vec!["author"]);
    assert_eq!(field_typo("autho"), vec!["author"]);
    assert_eq!(field_typo("authr"), vec!["author"]);
    assert_eq!(field_typo("auth").len(), 0);
}

#[test]
fn test_ambiguous_completion() {
    assert_eq!(entry_typo("mvbook"), vec!["mvbook"]);
    let mut res = entry_typo("mbook");
    res.sort();
    assert_eq!(res, vec!["book", "mvbook"]);
}

#[test]
fn field_typo_scenarios() {
    assert_eq!(field_typo("author"), vec!["author"]);
    assert_eq!(field_typo("autho"), vec!["author"]);
    assert!(field_typo("auth").is_empty());
}

#[test]
fn entry_typo_scenarios() {
    assert_eq!(entry_typo("mvbook"), vec!["mvbook"]);
    assert_eq!(entry_typo("mbook"), vec!["book", "mvbook"]);
}
