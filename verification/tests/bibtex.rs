use bibadac::bibdb::LocalBibDb;
use bibadac::bibtex::{
    text_between, BibEntry, BibError, BibField, BibFile, Block, Location, SyntaxNode,
};
use bibadac::linter::{LintMessage, LinterState};

const SAMPLE: &str = "@article{key1,\n  author = {Smith, John},\n  title = \"A title\",\n  year = 2020\n}\n\n@Book{key2,\n  title = {\u{c9}t\u{e9}},\n}\n";

#[test]
fn entries_are_read_with_their_places() {
    let file = BibFile::new(SAMPLE);
    assert_eq!(file.content, SAMPLE);
    assert!(file.errors.is_empty());
    assert_eq!(file.entries.len(), 2);
    let first = &file.entries[0];
    assert_eq!(first.key, "key1");
    assert_eq!(first.entrytype, "@article");
    assert_eq!(first.loc.start_byte, 0);
    assert_eq!((first.loc.row, first.loc.column), (0, 0));
    assert_eq!(file.get_slice(&first.loc), Some(&SAMPLE[..first.loc.end_byte]));
    assert!(SAMPLE[..first.loc.end_byte].ends_with("2020\n}"));
    let fields: Vec<(&str, &str)> =
        first.fields.iter().map(|f| (f.name.as_str(), f.value.as_str())).collect();
    assert_eq!(
        fields,
        [("author", "{Smith, John}"), ("title", "\"A title\""), ("year", "2020")]
    );
    let author = &first.fields[0];
    assert_eq!(
        author.loc,
        Location { start_byte: 17, end_byte: 39, row: 1, column: 2 }
    );
    assert_eq!(file.get_slice(&author.loc), Some("author = {Smith, John}"));
    let second = &file.entries[1];
    assert_eq!(second.key, "key2");
    assert_eq!(second.entrytype, "@Book");
    assert_eq!(second.loc.row, 6);
    assert_eq!(second.fields.len(), 1);
    assert_eq!(second.fields[0].value, "{\u{c9}t\u{e9}}");
    assert_eq!(second.fields[0].braceless_value(), "\u{c9}t\u{e9}");
}

#[test]
fn listings_copy_the_file() {
    let file = BibFile::new(SAMPLE);
    assert_eq!(file.list_entries(), file.entries);
    assert_eq!(file.list_errors(), file.errors);
    let fields: Vec<BibField> = file.entries.iter().flat_map(|e| e.fields.clone()).collect();
    assert_eq!(file.list_fields(), fields);
    assert_eq!(fields.len(), 4);
}

#[test]
fn invalid_spans_are_reported() {
    let text = "@article{k,\n  title = {T},\n}\n}}} stray\n@book{b, year = 1 }\n";
    let file = BibFile::new(text);
    let keys: Vec<&str> = file.entries.iter().map(|e| e.key.as_str()).collect();
    assert!(keys.contains(&"k"));
    let broken = "@article{k, title = {T} year }\n";
    let file = BibFile::new(broken);
    assert!(!file.errors.is_empty());
    for e in &file.errors {
        assert_eq!(file.get_slice(&e.loc), Some(e.text.as_str()));
    }
    let lints = LinterState::new().lint_file(&file);
    let first = &lints[0];
    assert_eq!(first.msg, LintMessage::SyntaxError(file.errors[0].text.clone()));
    assert_eq!(first.loc, vec![file.errors[0].loc]);
}

#[test]
fn empty_text_has_nothing() {
    let file = BibFile::new("");
    assert!(file.entries.is_empty() && file.errors.is_empty());
    assert!(LinterState::new().lint_file(&file).is_empty());
}

#[test]
fn text_between_bytes() {
    let s = "a\u{e9}b";
    assert_eq!(text_between(s, 0, 4), Some(s));
    assert_eq!(text_between(s, 1, 3), Some("\u{e9}"));
    assert_eq!(text_between(s, 3, 3), Some(""));
    assert_eq!(text_between(s, 4, 4), Some(""));
    assert_eq!(text_between(s, 1, 2), None);
    assert_eq!(text_between(s, 2, 3), None);
    assert_eq!(text_between(s, 3, 2), None);
    assert_eq!(text_between(s, 0, 5), None);
    assert_eq!(text_between(s, 5, 5), None);
}

#[test]
fn linting_a_parsed_file() {
    let text = "@article{a,\n  author = {John Smith},\n  doi = {arXiv:1234},\n}\n@article{a,\n  title = {},\n}\n";
    let file = BibFile::new(text);
    let lints = LinterState::new().lint_file(&file);
    let msgs: Vec<&LintMessage> = lints.iter().map(|l| &l.msg).collect();
    assert!(msgs.contains(&&LintMessage::AuthorFormat));
    assert!(msgs.contains(&&LintMessage::ArxivAsDoi));
    assert!(msgs.contains(&&LintMessage::EmptyKey));
    assert!(msgs.contains(&&LintMessage::DuplicateKey("a".to_string())));
    let dup = lints.iter().find(|l| matches!(l.msg, LintMessage::DuplicateKey(_))).unwrap();
    assert_eq!(dup.loc, vec![file.entries[0].loc, file.entries[1].loc]);
}

#[test]
fn database_imports_text() {
    let db = LocalBibDb::new().import_bibtex(SAMPLE);
    assert_eq!(db.entries.len(), 2);
    assert_eq!(db.entries[0].get("author"), Some(&"{Smith, John}".to_string()));
    assert_eq!(db.entries[1].get("title"), Some(&"{\u{c9}t\u{e9}}".to_string()));
    assert_eq!(db.entries[1].get("author"), None);
}

fn node(kind: &str, start: usize, end: usize, depth: usize) -> SyntaxNode {
    SyntaxNode {
        kind: kind.to_string(),
        loc: Location { start_byte: start, end_byte: end, row: depth, column: start },
        depth,
    }
}

fn place(start: usize, end: usize, depth: usize) -> Location {
    Location { start_byte: start, end_byte: end, row: depth, column: start }
}

#[test]
fn a_file_is_made_of_the_nodes_of_its_tree() {
    //             0         1         2         3
    //             0123456789012345678901234567890123
    let content = "x @a{k, n = 1, n = {2} } ? @b{, }";
    let nodes = vec![
        node("document", 0, 33, 0),
        node("junk", 0, 2, 1),
        node("entry", 2, 24, 1),
        node("entry_type", 2, 4, 2),
        node("{", 4, 5, 2),
        node("key_brace", 5, 6, 2),
        node("field", 8, 13, 2),
        node("identifier", 8, 9, 3),
        node("=", 10, 11, 3),
        node("value", 12, 13, 3),
        node("identifier", 12, 13, 4),
        node("ERROR", 13, 14, 2),
        node("field", 15, 22, 2),
        node("identifier", 15, 16, 3),
        node("value", 19, 22, 3),
        node("value", 19, 21, 3),
        node("field", 22, 23, 2),
        node("identifier", 22, 23, 3),
        node("ERROR", 25, 26, 1),
        node("entry", 27, 33, 1),
        node("entry_type", 27, 29, 2),
        node("field", 30, 31, 2),
    ];
    let file = BibFile::from_nodes(content, &nodes);
    let field = |n: &str, v: &str, loc: Location| BibField {
        name: n.to_string(),
        value: v.to_string(),
        loc,
    };
    assert_eq!(
        file,
        BibFile {
            content: content.to_string(),
            entries: vec![BibEntry {
                key: "k".to_string(),
                entrytype: "@a".to_string(),
                fields: vec![field("n", "1", place(8, 13, 2)), field("n", "{2", place(15, 22, 2))],
                loc: place(2, 24, 1),
            }],
            errors: vec![
                BibError { text: ",".to_string(), loc: place(13, 14, 2) },
                BibError { text: "?".to_string(), loc: place(25, 26, 1) },
            ],
            blocks: vec![
                Block::Other("x ".to_string()),
                Block::Entry(0),
                Block::Other("?".to_string()),
                Block::Other("@b{, }".to_string()),
            ],
        }
    );
}

#[test]
fn odd_lists_of_nodes_give_what_they_hold() {
    assert_eq!(BibFile::from_nodes("ab", &vec![]), BibFile::blank("ab"));
    // a tree whose root is itself an invalid span
    let lone = BibFile::from_nodes("ab", &vec![node("ERROR", 0, 1, 0), node("junk", 0, 1, 1)]);
    assert!(lone.entries.is_empty());
    assert_eq!(lone.errors, vec![BibError { text: "a".to_string(), loc: place(0, 1, 0) }]);
    assert_eq!(lone.blocks, vec![Block::Other("a".to_string())]);
    let lints = LinterState::new().lint_file(&lone);
    assert_eq!(lints.len(), 1);
    assert_eq!(lints[0].msg, LintMessage::SyntaxError("a".to_string()));
    assert_eq!(lints[0].loc, vec![place(0, 1, 0)]);
    // a node off the text has no text, and a node as deep as the root ends it
    let nodes = vec![
        node("document", 0, 2, 0),
        node("ERROR", 1, 9, 1),
        node("junk", 0, 1, 0),
        node("junk", 1, 2, 1),
    ];
    let file = BibFile::from_nodes("ab", &nodes);
    assert!(file.entries.is_empty());
    assert_eq!(file.errors, vec![BibError { text: String::new(), loc: place(1, 9, 1) }]);
    assert_eq!(file.blocks, vec![Block::Other(String::new())]);
}
