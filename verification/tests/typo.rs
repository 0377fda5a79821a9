use bibadac::automaton::{run_automaton, run_transition, Either, NFA};
use bibadac::bibtex_spec::{
    bibtex_entry_types, bibtex_fields, entry_typo, field_typo, TypoAutomaton,
};
use bibadac::typo_automaton::{assigning_automaton, non_deterministic_duplicate};

fn distance(a: &str, b: &str) -> usize {
    let a: Vec<char> = a.chars().collect();
    let b: Vec<char> = b.chars().collect();
    let mut row: Vec<usize> = (0..=b.len()).collect();
    for i in 1..=a.len() {
        let mut next = vec![i];
        for j in 1..=b.len() {
            let change = row[j - 1] + if a[i - 1] == b[j - 1] { 0 } else { 1 };
            next.push(change.min(row[j] + 1).min(next[j - 1] + 1));
        }
        row = next;
    }
    row[b.len()]
}

fn expected(lexicon: &[&'static str], s: &str) -> Vec<&'static str> {
    lexicon
        .iter()
        .filter(|w| distance(s, w) <= 1)
        .map(|w| *w)
        .collect()
}

#[test]
fn every_word_matches_itself() {
    for w in bibtex_fields() {
        assert!(field_typo(w).contains(&w));
    }
    for w in bibtex_entry_types() {
        assert!(entry_typo(w).contains(&w));
    }
}

#[test]
fn neighbours_in_the_lexicon_match_each_other() {
    let a = TypoAutomaton::new(vec!["book", "books", "cook", "boo", "look"]);
    assert_eq!(a.match_typo("book"), vec!["book", "books", "cook", "boo", "look"]);
    assert_eq!(a.match_typo("books"), vec!["book", "books"]);
    assert_eq!(a.match_typo("boo"), vec!["book", "boo"]);
    assert_eq!(a.match_typo("cook"), vec!["book", "cook", "look"]);
}

#[test]
fn distant_words_do_not_match() {
    assert!(field_typo("xyzzy").is_empty());
    assert!(field_typo("").is_empty());
    assert!(field_typo("ke").len() == 1);
    assert!(field_typo("k").is_empty());
    assert!(field_typo("auhtor").is_empty());
    assert!(entry_typo("bk").is_empty());
}

#[test]
fn each_kind_of_edit_is_found() {
    // a character inserted: in front, inside, at the end
    assert_eq!(field_typo("xauthor"), vec!["author"]);
    assert_eq!(field_typo("autxhor"), vec!["author"]);
    assert_eq!(field_typo("authorx"), vec!["author"]);
    // a character left out: in front, inside, at the end
    assert_eq!(field_typo("uthor"), vec!["author"]);
    assert_eq!(field_typo("auhor"), vec!["author"]);
    assert_eq!(field_typo("autho"), vec!["author"]);
    // a character replaced: in front, inside, at the end
    assert_eq!(field_typo("buthor"), vec!["author"]);
    assert_eq!(field_typo("aut\u{e9}or"), vec!["author"]);
    assert_eq!(field_typo("autho\u{1f600}"), vec!["author"]);
    // two edits
    assert!(field_typo("xauthorx").is_empty());
    assert!(field_typo("uthorx").is_empty());
    assert!(field_typo("ahtor").is_empty());
}

#[test]
fn matches_agree_with_the_edit_distance() {
    let fields = bibtex_fields();
    let alphabet = ['a', 'e', 'k', 'y', 'z'];
    let mut inputs: Vec<String> = vec![String::new()];
    for w in ["key", "year", "type", "note", "month", "pages"] {
        let chars: Vec<char> = w.chars().collect();
        inputs.push(w.to_string());
        for i in 0..=chars.len() {
            for c in alphabet {
                let mut inserted = chars.clone();
                inserted.insert(i, c);
                inputs.push(inserted.iter().collect());
                for j in 0..=inserted.len() {
                    let mut twice = inserted.clone();
                    twice.insert(j, 'q');
                    inputs.push(twice.iter().collect());
                }
            }
            if i < chars.len() {
                let mut removed = chars.clone();
                removed.remove(i);
                inputs.push(removed.iter().collect());
                for c in alphabet {
                    let mut replaced = chars.clone();
                    replaced[i] = c;
                    inputs.push(replaced.iter().collect());
                }
                if !removed.is_empty() {
                    let mut shorter = removed.clone();
                    shorter.remove(0);
                    inputs.push(shorter.iter().collect());
                }
            }
        }
    }
    for s in inputs {
        assert_eq!(field_typo(&s), expected(&fields, &s), "input {:?}", s);
    }
}

#[test]
fn degenerate_lexicons() {
    let empty = TypoAutomaton::new(vec![]);
    assert!(empty.match_typo("").is_empty());
    assert!(empty.match_typo("a").is_empty());
    let twice = TypoAutomaton::new(vec!["ab", "ab"]);
    assert_eq!(twice.match_typo("ab"), vec!["ab", "ab"]);
    assert_eq!(twice.match_typo("b"), vec!["ab", "ab"]);
    let blank = TypoAutomaton::new(vec!["", "a"]);
    assert_eq!(blank.match_typo(""), vec!["", "a"]);
    assert_eq!(blank.match_typo("x"), vec!["", "a"]);
    assert_eq!(blank.match_typo("ax"), vec!["a"]);
    assert!(blank.match_typo("xy").is_empty());
}

#[test]
fn transitions_fire_on_their_label_only() {
    assert_eq!(run_transition((0, 0), Some('a'), (0, 1), (0, 0), 'a'), Some((0, 1)));
    assert_eq!(run_transition((0, 0), Some('a'), (0, 1), (0, 0), 'b'), None);
    assert_eq!(run_transition((0, 0), Some('a'), (0, 1), (1, 0), 'a'), None);
    assert_eq!(run_transition((0, 0), None, (0, 1), (0, 0), 'a'), None);
}

#[test]
fn epsilon_transitions_are_followed_without_input() {
    // 0 -eps-> 1 -eps-> 2 -a-> 3 -eps-> 0, wildcard 3 -> 4
    let a = NFA {
        initial_states: vec![(0usize, 0usize)],
        final_states: vec![(2, 0), (3, 0), (4, 0), (0, 0), (3, 0)],
        transitions: vec![
            ((0, 0), None, (1, 0)),
            ((1, 0), None, (2, 0)),
            ((2, 0), Some('a'), (3, 0)),
            ((3, 0), None, (0, 0)),
        ],
        wildcards: vec![((3, 0), (4, 0))],
    };
    assert_eq!(run_automaton(&a, ""), vec![(2, 0), (0, 0)]);
    assert_eq!(run_automaton(&a, "a"), vec![(2, 0), (3, 0), (0, 0)]);
    assert_eq!(run_automaton(&a, "ab"), vec![(4, 0)]);
    assert_eq!(run_automaton(&a, "aa"), vec![(2, 0), (3, 0), (4, 0), (0, 0)]);
    assert!(run_automaton(&a, "b").is_empty());
}

#[test]
fn doubled_automaton_accepts_in_the_edited_copy() {
    let d = non_deterministic_duplicate(assigning_automaton(vec!["ab"]));
    assert_eq!(d.initial_states, vec![Either::Left((0, 0))]);
    assert_eq!(d.final_states, vec![Either::Right((0, 2))]);
    assert_eq!(run_automaton(&d, "ab"), vec![Either::Right((0, 2))]);
    assert_eq!(run_automaton(&d, "a"), vec![Either::Right((0, 2))]);
    assert_eq!(run_automaton(&d, "abc"), vec![Either::Right((0, 2))]);
    assert!(run_automaton(&d, "").is_empty());
    assert!(run_automaton(&d, "abcd").is_empty());
}
