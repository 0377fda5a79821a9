use bibadac::author_format::{check_authors, format_authors};

#[test]
fn test_format_authors() {
    let authors = "Author1 and Author2 and Author3";
    assert_eq!(format_authors(authors), "Author1 and Author2 and Author3");
    let authors = "Author1 and A B and Author3";
    assert_eq!(format_authors(authors), "Author1 and B, A and Author3");
    let authors = "Author1 and A, B and Author3";
    assert_eq!(format_authors(authors), "Author1 and A, B and Author3");
    let authors = "A B C and D E F and G H I";
    assert_eq!(format_authors(authors), "C, A B and F, D E and I, G H");
    let authors = "Michael Kaminski and Nissim Francez";
    assert_eq!(
        format_authors(authors),
        "Kaminski, Michael and Francez, Nissim"
    );
    let authors = "DONALD E. KNUTH and PETER B. BENDIX";
    assert_eq!(
        format_authors(authors),
        "KNUTH, DONALD E. and BENDIX, PETER B."
    );
}

#[test]
fn test_check_authors() {
    let authors = "Author1 and A B C and Author3";
    assert_eq!(check_authors(authors), false);
    let authors = "Author1 and A, B C and Author3";
    assert_eq!(check_authors(authors), true);
    let authors = "Author1 and A , B C and Author3";
    assert_eq!(check_authors(authors), false);
}

#[test]
fn check_authors_last_first() {
    assert!(check_authors("Smith, John and Doe, Jane"));
    assert!(!check_authors("John Smith and Doe, Jane"));
    assert!(check_authors("Plato"));
}

#[test]
fn check_authors_edge_cases() {
    // an author without a word is not well written
    assert!(!check_authors(""));
    assert!(!check_authors("   "));
    assert!(!check_authors("Plato and "));
    assert!(!check_authors(" and Plato"));
    assert!(!check_authors("Plato and  and Smith, John"));
    assert!(check_authors("  Plato  "));
    assert!(check_authors("Plato,\u{a0}and Smith"));
    assert!(!check_authors("Plato and John Smith"));
    // without its two spaces, `and` is a word like any other
    assert!(check_authors("Smith, John\tand\tJohn Smith"));
    assert!(!check_authors("John Smith\tand\tSmith, John"));
    assert!(check_authors("Smith,\u{a0}John"));
}

#[test]
fn format_authors_squeezes_spaces() {
    assert_eq!(format_authors("  John   Smith "), "Smith, John");
    assert_eq!(format_authors(" Plato "), "Plato");
    assert_eq!(format_authors(" Smith,  John "), " Smith,  John ");
    assert_eq!(format_authors(""), "");
    assert_eq!(format_authors("A B and "), "B, A and ");
}

#[test]
fn format_authors_gives_valid_authors() {
    for authors in ["John Smith and Jane Doe", "A B C", "Plato and Donald E. Knuth"] {
        assert!(check_authors(&format_authors(authors)));
    }
}
