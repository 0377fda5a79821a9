use bibadac::bibtex::{BibEntry, BibError, BibField, BibFile, Location};
use bibadac::linter::{Lint, LintMessage, LinterState};

fn at(n: usize) -> Location {
    Location { start_byte: n, end_byte: n + 1, row: n, column: 0 }
}

fn field(name: &str, value: &str, n: usize) -> BibField {
    BibField { name: name.to_string(), value: value.to_string(), loc: at(n) }
}

fn entry(key: &str, fields: Vec<BibField>, n: usize) -> BibEntry {
    BibEntry { key: key.to_string(), entrytype: "@article".to_string(), fields, loc: at(n) }
}

fn complete(key: &str, doi: &str, n: usize) -> BibEntry {
    entry(
        key,
        vec![
            field("author", "{Smith, John}", n + 1),
            field("title", "{On things}", n + 2),
            field("year", "{2020}", n + 3),
            field("sha256", "{}", n + 4),
            field("doi", doi, n + 5),
        ],
        n,
    )
}

fn file(entries: Vec<BibEntry>, errors: Vec<BibError>) -> BibFile {
    BibFile { content: String::new(), entries, errors, blocks: vec![] }
}

#[test]
fn field_rules_fire_in_order() {
    let mut state = LinterState::new();
    state.revoked_dois.push("10.1000/revoked".to_string());
    assert_eq!(state.lint_field("title", ""), Some(LintMessage::EmptyKey));
    assert_eq!(state.lint_field("author", ""), Some(LintMessage::EmptyKey));
    assert_eq!(state.lint_field("author", "John Smith"), Some(LintMessage::AuthorFormat));
    assert_eq!(state.lint_field("author", "Smith, John"), None);
    assert_eq!(state.lint_field("author", "Plato and "), Some(LintMessage::AuthorFormat));
    assert_eq!(state.lint_field("author", " "), Some(LintMessage::AuthorFormat));
    assert_eq!(state.lint_field("doi", "arXiv:1234"), Some(LintMessage::ArxivAsDoi));
    assert_eq!(state.lint_field("doi", "http://arXiv.org/1"), Some(LintMessage::ArxivAsDoi));
    assert_eq!(state.lint_field("doi", "https://doi.org/10.1/x"), Some(LintMessage::HttpDoi));
    assert_eq!(state.lint_field("doi", "see http://x"), None);
    assert_eq!(state.lint_field("doi", "10.1000/revoked"), Some(LintMessage::RevokedEntry));
    assert_eq!(state.lint_field("doi", "10.1000/fine\\"), None);
    assert_eq!(state.lint_field("url", "a\\b"), None);
    assert_eq!(state.lint_field("eprint", "a\u{7}b"), None);
    assert_eq!(
        state.lint_field("title", "a\\b"),
        Some(LintMessage::WeirdCharacters("a\\b".to_string()))
    );
    assert_eq!(
        state.lint_field("title", "a\tb"),
        Some(LintMessage::WeirdCharacters("a\tb".to_string()))
    );
    assert_eq!(state.lint_field("title", "a\nb"), None);
    assert_eq!(state.lint_field("title", "arXiv http"), None);
    assert_eq!(state.lint_field("DOI", "arXiv:1"), None);
}

#[test]
fn missing_year_is_reported_once() {
    let state = LinterState::new();
    let e = entry(
        "k",
        vec![field("author", "{Smith, John}", 1), field("title", "{T}", 2)],
        0,
    );
    let lints = state.lint_entry(&e);
    let missing: Vec<&Lint> = lints
        .iter()
        .filter(|l| matches!(l.msg, LintMessage::MissingField(_)))
        .collect();
    assert_eq!(missing.len(), 1);
    assert_eq!(missing[0].msg, LintMessage::MissingField("year".to_string()));
    assert_eq!(missing[0].loc, vec![at(0)]);
    assert_eq!(
        lints,
        vec![
            Lint { msg: LintMessage::MissingField("year".to_string()), loc: vec![at(0)] },
            Lint { msg: LintMessage::MissingOptionalField("sha256".to_string()), loc: vec![at(0)] },
            Lint { msg: LintMessage::UncheckableEntry, loc: vec![at(0)] },
        ]
    );
}

#[test]
fn entry_lints_come_in_order() {
    let state = LinterState::new();
    let e = entry(
        "k",
        vec![
            field("note", "{}", 1),
            field("title", "{a\\b}", 2),
            field("note", "{x}", 3),
            field("title", "\"T\"", 4),
            field("note", "{y}", 5),
            field("author", "{John Smith}", 6),
            field("pmid", "12", 7),
        ],
        0,
    );
    assert_eq!(
        state.lint_entry(&e),
        vec![
            Lint { msg: LintMessage::MissingField("year".to_string()), loc: vec![at(0)] },
            Lint { msg: LintMessage::MissingOptionalField("sha256".to_string()), loc: vec![at(0)] },
            Lint {
                msg: LintMessage::DuplicateFieldName("note".to_string()),
                loc: vec![at(1), at(3), at(5)]
            },
            Lint { msg: LintMessage::DuplicateFieldName("title".to_string()), loc: vec![at(2), at(4)] },
            Lint { msg: LintMessage::EmptyKey, loc: vec![at(1)] },
            Lint { msg: LintMessage::WeirdCharacters("a\\b".to_string()), loc: vec![at(2)] },
            Lint { msg: LintMessage::AuthorFormat, loc: vec![at(6)] },
        ]
    );
}

#[test]
fn a_complete_entry_has_no_lint() {
    let state = LinterState::new();
    assert!(state.lint_entry(&complete("k", "{10.1/x}", 0)).len() == 1);
    let mut e = complete("k", "{10.1/x}", 0);
    e.fields[3] = field("sha256", "{abc}", 4);
    assert!(state.lint_entry(&e).is_empty());
}

#[test]
fn shared_key_is_reported_once_with_both_places() {
    let state = LinterState::new();
    let mut a = complete("same", "{10.1/a}", 0);
    let mut b = complete("same", "{10.1/b}", 10);
    a.fields[3] = field("sha256", "{aa}", 4);
    b.fields[3] = field("sha256", "{bb}", 14);
    let lints = state.lint_file(&file(vec![a, b], vec![]));
    assert_eq!(
        lints,
        vec![Lint { msg: LintMessage::DuplicateKey("same".to_string()), loc: vec![at(0), at(10)] }]
    );
}

#[test]
fn file_lints_come_in_order() {
    let state = LinterState::new();
    let mut a = complete("a", "{10.1/x}", 0);
    let mut b = complete("b", "{10.1/y}", 10);
    let mut c = complete("a", "{10.1/x}", 20);
    let d = entry("b", vec![field("author", "{Plato}", 31)], 30);
    let e = entry("e", vec![field("author", "{Plato}", 41)], 40);
    for x in [&mut a, &mut b, &mut c] {
        x.fields[3].value = "{s}".to_string();
    }
    let errors = vec![
        BibError { text: "@@".to_string(), loc: at(50) },
        BibError { text: "}".to_string(), loc: at(60) },
    ];
    let lints = state.lint_file(&file(vec![a, b, c, d, e], errors));
    let plain = |n: usize| -> Vec<Lint> {
        vec![
            Lint { msg: LintMessage::MissingField("title".to_string()), loc: vec![at(n)] },
            Lint { msg: LintMessage::MissingField("year".to_string()), loc: vec![at(n)] },
            Lint { msg: LintMessage::MissingOptionalField("sha256".to_string()), loc: vec![at(n)] },
            Lint { msg: LintMessage::UncheckableEntry, loc: vec![at(n)] },
        ]
    };
    let mut wanted = vec![
        Lint { msg: LintMessage::SyntaxError("@@".to_string()), loc: vec![at(50)] },
        Lint { msg: LintMessage::SyntaxError("}".to_string()), loc: vec![at(60)] },
    ];
    wanted.extend(plain(30));
    wanted.extend(plain(40));
    wanted.push(Lint { msg: LintMessage::DuplicateKey("a".to_string()), loc: vec![at(0), at(20)] });
    wanted.push(Lint { msg: LintMessage::DuplicateKey("b".to_string()), loc: vec![at(10), at(30)] });
    wanted.push(Lint {
        msg: LintMessage::DuplicateDoiArxivSha256("10.1/x".to_string(), "".to_string(), "s".to_string()),
        loc: vec![at(0), at(20)],
    });
    assert_eq!(lints, wanted);
}

#[test]
fn last_field_of_a_name_gives_the_identifier() {
    let state = LinterState::new();
    let a = entry("a", vec![field("eprint", "{1}", 1), field("eprint", "{2}", 2)], 0);
    let b = entry("b", vec![field("eprint", "{2}", 11)], 10);
    let lints = state.lint_file(&file(vec![a, b], vec![]));
    assert_eq!(
        lints.last().unwrap(),
        &Lint {
            msg: LintMessage::DuplicateDoiArxivSha256("".to_string(), "2".to_string(), "".to_string()),
            loc: vec![at(0), at(10)],
        }
    );
}

#[test]
fn every_lint_points_into_the_file() {
    let state = LinterState::new();
    let a = entry("a", vec![field("doi", "{arXiv:1}", 1), field("doi", "{http://x}", 2)], 0);
    let b = entry("a", vec![field("title", "{}", 11)], 10);
    let f = file(vec![a, b], vec![BibError { text: "?".to_string(), loc: at(20) }]);
    let places = [at(0), at(1), at(2), at(10), at(11), at(20)];
    for lint in state.lint_file(&f) {
        assert!(!lint.loc.is_empty());
        for loc in lint.loc {
            assert!(places.contains(&loc));
        }
    }
}

#[test]
fn crucial_messages() {
    let s = || "x".to_string();
    let crucial = [
        LintMessage::SyntaxError(s()),
        LintMessage::EmptyKey,
        LintMessage::MissingField(s()),
        LintMessage::DuplicateFieldName(s()),
        LintMessage::DuplicateKey(s()),
        LintMessage::DuplicateDoiArxivSha256(s(), s(), s()),
    ];
    let other = [
        LintMessage::WeirdCharacters(s()),
        LintMessage::AuthorFormat,
        LintMessage::ArxivAsDoi,
        LintMessage::HttpDoi,
        LintMessage::UncheckableEntry,
        LintMessage::MissingOptionalField(s()),
        LintMessage::RevokedEntry,
        LintMessage::OutdatedEntry,
        LintMessage::PublishedEquivalent,
    ];
    assert!(crucial.iter().all(|m| m.is_crucial()));
    assert!(other.iter().all(|m| !m.is_crucial()));
}

#[test]
fn braces_and_quotes_are_stripped_once() {
    assert_eq!(field("a", "{x}", 0).braceless_value(), "x");
    assert_eq!(field("a", "\"x\"", 0).braceless_value(), "x");
    assert_eq!(field("a", "{{x}}", 0).braceless_value(), "{x}");
    assert_eq!(field("a", "{x\"", 0).braceless_value(), "{x\"");
    assert_eq!(field("a", "{", 0).braceless_value(), "{");
    assert_eq!(field("a", "2020", 0).braceless_value(), "2020");
    assert_eq!(field("a", "{}", 0).braceless_value(), "");
}

#[test]
fn latest_versions_are_noted() {
    let mut state = LinterState::new();
    state.note_version("a", 2);
    state.note_version("b", 5);
    state.note_version("a", 1);
    state.note_version("b", 7);
    state.note_version("c", 0);
    let pair = |id: &str, v: usize| (id.to_string(), v);
    assert_eq!(state.arxiv_latest, vec![pair("a", 2), pair("b", 7), pair("c", 0)]);
    let f = file(
        vec![
            entry(
                "k",
                vec![field("eprint", "{a}", 1), field("eprint", "{av9}", 2), field("doi", "{bv9}", 3)],
                0,
            ),
            entry(
                "l",
                vec![
                    field("eprint", "\"dv3\"", 5),
                    field("Eprint", "{cv4}", 6),
                    field("eprint", "{x v}", 7),
                ],
                4,
            ),
        ],
        vec![],
    );
    state.note_eprints(&f);
    assert_eq!(
        state.arxiv_latest,
        vec![pair("a", 9), pair("b", 7), pair("c", 0), pair("d", 3)]
    );
    assert!(state.revoked_dois.is_empty());
}
