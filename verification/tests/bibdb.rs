use bibadac::bibdb::{BibDb, LocalBibDb, PreBibEntry};
use bibadac::bibtex::{BibEntry, BibField, BibFile, Location};
use bibadac::format::FormatOptions;

fn record(props: &[(&str, &str)]) -> PreBibEntry {
    PreBibEntry {
        properties: props.iter().map(|(k, v)| (k.to_string(), v.to_string())).collect(),
    }
}

#[test]
fn extension_looks_at_identifying_properties_only() {
    let full = record(&[("doi", "1"), ("title", "T"), ("note", "n")]);
    assert!(full.is_extension_of(&record(&[("doi", "1")])));
    assert!(full.is_extension_of(&record(&[("doi", "1"), ("note", "other"), ("year", "1")])));
    assert!(!full.is_extension_of(&record(&[("doi", "2")])));
    assert!(!full.is_extension_of(&record(&[("doi", "1"), ("url", "u")])));
    assert!(full.is_extension_of(&record(&[])));
    assert!(!record(&[]).is_extension_of(&record(&[("sha256", "s")])));
    assert!(!record(&[("eprint", "e")]).is_extension_of(&record(&[("eprint", "f")])));
}

#[test]
fn merge_keeps_what_is_there() {
    let mut a = record(&[("doi", "1"), ("title", "T")]);
    a.merge(&record(&[("title", "U"), ("year", "2000"), ("doi", "2"), ("note", "n"), ("year", "1")]));
    assert_eq!(a, record(&[("doi", "1"), ("title", "T"), ("year", "2000"), ("note", "n")]));
}

#[test]
fn insert_replaces_in_place() {
    let mut a = record(&[("a", "1"), ("b", "2")]);
    a.insert("a".to_string(), "3".to_string());
    a.insert("c".to_string(), "4".to_string());
    assert_eq!(a, record(&[("a", "3"), ("b", "2"), ("c", "4")]));
    assert_eq!(a.get("b"), Some(&"2".to_string()));
    assert_eq!(a.get("d"), None);
    assert_eq!(a.copy(), a);
}

#[test]
fn database_completes_entries() {
    let db = LocalBibDb {
        entries: vec![
            record(&[("doi", "1"), ("title", "T"), ("year", "2000")]),
            record(&[("doi", "2"), ("title", "U")]),
            record(&[("doi", "1"), ("title", "T"), ("year", "2001"), ("pages", "1--2")]),
            record(&[("eprint", "e"), ("note", "n")]),
        ],
    };
    assert_eq!(db.get_doi("2"), Some(record(&[("doi", "2"), ("title", "U")])));
    assert_eq!(db.get_doi("1"), Some(record(&[("doi", "1"), ("title", "T"), ("year", "2000")])));
    assert_eq!(db.get_doi("3"), None);
    assert_eq!(db.get_eprint("e"), Some(record(&[("eprint", "e"), ("note", "n")])));
    assert_eq!(db.get_eprint("1"), None);
    assert_eq!(
        db.complete(&record(&[("doi", "1"), ("author", "A")])),
        record(&[("doi", "1"), ("author", "A"), ("title", "T"), ("year", "2000"), ("pages", "1--2")])
    );
    assert_eq!(
        db.complete(&record(&[("author", "A")])),
        record(&[
            ("author", "A"),
            ("doi", "1"),
            ("title", "T"),
            ("year", "2000"),
            ("pages", "1--2"),
            ("eprint", "e"),
            ("note", "n")
        ])
    );
    assert!(LocalBibDb::new().entries.is_empty());
    assert_eq!(LocalBibDb::new().complete(&record(&[("a", "b")])), record(&[("a", "b")]));
}

#[test]
fn database_imports_entries() {
    let loc = Location { start_byte: 0, end_byte: 0, row: 0, column: 0 };
    let field = |n: &str, v: &str| BibField { name: n.to_string(), value: v.to_string(), loc };
    let entry = BibEntry {
        key: "k".to_string(),
        entrytype: "@book".to_string(),
        fields: vec![field("title", "{T}"), field("year", "1"), field("title", "{U}")],
        loc,
    };
    let file = BibFile { content: String::new(), entries: vec![entry], errors: vec![], blocks: vec![] };
    let db = LocalBibDb::new().import_file(&file).import_file(&file);
    assert_eq!(db.entries, vec![record(&[("title", "{U}"), ("year", "1")]); 2]);
}

#[test]
fn usual_format_options() {
    let options = FormatOptions::new(7u8);
    assert_eq!(options.indent, 2);
    assert_eq!(options.min_field_length, None);
    assert!(!options.sort_fields && !options.sort_entries && options.format_author);
    assert!(options.field_filter.is_none() && options.whitelist.is_none());
    assert!(options.blacklist.is_none());
    assert_eq!(options.database, 7);
}
