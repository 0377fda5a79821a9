use bibadac::bibdb::{LocalBibDb, PreBibEntry};
use bibadac::bibtex::{BibEntry, BibField, BibFile, Block, Location};
use bibadac::format::{
    field_name_width, lower_record, write_bibentry, write_bibfield, write_bibfile, write_completed_entry, year_of,
    BibFormat, FormatOptions,
};

fn loc() -> Location {
    Location { start_byte: 0, end_byte: 0, row: 0, column: 0 }
}

fn field(name: &str, value: &str) -> BibField {
    BibField { name: name.to_string(), value: value.to_string(), loc: loc() }
}

fn entry(kind: &str, key: &str, fields: Vec<BibField>) -> BibEntry {
    BibEntry { key: key.to_string(), entrytype: kind.to_string(), fields, loc: loc() }
}

fn record(props: &[(&str, &str)]) -> PreBibEntry {
    PreBibEntry {
        properties: props.iter().map(|(k, v)| (k.to_string(), v.to_string())).collect(),
    }
}

fn empty_file() -> BibFile {
    BibFile { content: String::new(), entries: vec![], errors: vec![], blocks: vec![] }
}

fn sample() -> BibEntry {
    entry(
        "@Article",
        "k",
        vec![
            field("Title", "{A\n   long  \n title}"),
            field("author", "{John Smith and Jane Doe}"),
            field("year", "2020"),
        ],
    )
}

#[test]
fn a_field_is_padded_and_its_lines_indented() {
    let mut options = FormatOptions::new(LocalBibDb::new());
    let mut out = String::from(">");
    write_bibfield(&empty_file(), "Title", "{T}", &options, &mut out);
    assert_eq!(out, ">  title = {T},\n");
    options.min_field_length = Some(8);
    options.indent = 1;
    let mut out = String::new();
    write_bibfield(&empty_file(), "YEAR", "a\n  b  \n\nc ", &options, &mut out);
    assert_eq!(out, " year     = a\n             b\n             \n             c,\n");
    options.min_field_length = Some(2);
    let mut out = String::new();
    write_bibfield(&empty_file(), "year", "", &options, &mut out);
    assert_eq!(out, " year = ,\n");
}

#[test]
fn an_entry_is_written_with_its_fields() {
    let mut options = FormatOptions::new(LocalBibDb::new());
    options.min_field_length = Some(6);
    let mut out = String::new();
    write_bibentry(&empty_file(), &sample(), &options, &mut out);
    assert_eq!(
        out,
        "@article{k,\n  title  = {A\n            long\n            title},\n  author = {Smith, John and Doe, Jane},\n  year   = 2020,\n}\n\n"
    );
    options.sort_fields = true;
    options.format_author = false;
    options.min_field_length = None;
    let mut out = String::new();
    write_bibentry(&empty_file(), &sample(), &options, &mut out);
    assert_eq!(
        out,
        "@article{k,\n  author = {John Smith and Jane Doe},\n  title = {A\n      long\n      title},\n  year = 2020,\n}\n\n"
    );
}

#[test]
fn sorting_keeps_fields_of_one_name_in_order() {
    let mut options = FormatOptions::new(LocalBibDb::new());
    options.sort_fields = true;
    let e = entry(
        "@misc",
        "k",
        vec![field("b", "1"), field("a", "2"), field("B", "3"), field("ab", "4"), field("a", "5")],
    );
    let mut out = String::new();
    write_bibentry(&empty_file(), &e, &options, &mut out);
    assert_eq!(out, "@misc{k,\n  a = 2,\n  a = 5,\n  ab = 4,\n  b = 1,\n  b = 3,\n}\n\n");
}

#[test]
fn lists_decide_what_is_written() {
    let strings = |l: &[&str]| Some(l.iter().map(|s| s.to_string()).collect::<Vec<_>>());
    let mut options = FormatOptions::new(LocalBibDb::new());
    options.whitelist = strings(&["title", "year"]);
    options.blacklist = strings(&["year"]);
    let mut out = String::new();
    write_bibentry(&empty_file(), &sample(), &options, &mut out);
    assert_eq!(out, "@article{k,\n  title = {A\n      long\n      title},\n}\n\n");
    options.field_filter = strings(&["doi", "pages"]);
    let mut out = String::new();
    write_bibentry(&empty_file(), &sample(), &options, &mut out);
    assert_eq!(out, "");
    options.field_filter = strings(&["doi", "title"]);
    let mut out = String::new();
    write_bibentry(&empty_file(), &sample(), &options, &mut out);
    assert!(out.starts_with("@article{k,"));
}

#[test]
fn the_database_adds_what_the_entry_lacks() {
    let db = LocalBibDb {
        entries: vec![
            record(&[("doi", "{10.1/x}"), ("pages", "{1--2}"), ("note", "{n}")]),
            record(&[("doi", "{10.1/y}"), ("volume", "3")]),
        ],
    };
    let options = FormatOptions::new(db);
    let e = entry("@misc", "k", vec![field("DOI", "{10.1/x}")]);
    assert_eq!(lower_record(&e), record(&[("doi", "{10.1/x}")]));
    let mut out = String::new();
    write_bibentry(&empty_file(), &e, &options, &mut out);
    assert_eq!(out, "@misc{k,\n  doi = {10.1/x},\n\n  pages = {1--2},\n  note = {n},\n}\n\n");
    let e = entry("@misc", "k", vec![field("doi", "{10.1/y}")]);
    let mut out = String::new();
    write_bibentry(&empty_file(), &e, &options, &mut out);
    assert_eq!(out, "@misc{k,\n  doi = {10.1/y},\n  volume = 3,\n}\n\n");
    let mut out = String::new();
    let completion = record(&[("doi", "other"), ("Volume", "4"), ("x", "1\n 2")]);
    write_completed_entry(&e, &options, &completion, &mut out);
    assert_eq!(out, "@misc{k,\n  doi = {10.1/y},\n\n  volume = 4,\n  x = 1\n      2,\n}\n\n");
}

#[test]
fn short_author_values_are_written_empty() {
    let options = FormatOptions::new(LocalBibDb::new());
    let e = entry("@misc", "k", vec![field("author", "x"), field("author", "")]);
    let mut out = String::new();
    write_bibentry(&empty_file(), &e, &options, &mut out);
    assert_eq!(out, "@misc{k,\n  author = {},\n  author = {},\n}\n\n");
}

#[test]
fn years_are_read_from_values() {
    let year = |v: &str| year_of(&entry("@misc", "k", vec![field("year", v)]));
    assert_eq!(year("2020"), 2020);
    assert_eq!(year("{2020}"), 2020);
    assert_eq!(year("\"1999\""), 1999);
    assert_eq!(year("{-5}"), -5);
    assert_eq!(year("{+5}"), 5);
    assert_eq!(year("-5"), 0);
    assert_eq!(year("20x"), 0);
    assert_eq!(year("{ 2020}"), 0);
    assert_eq!(year("{}"), 0);
    assert_eq!(year("{"), 0);
    assert_eq!(year("2147483647"), 2147483647);
    assert_eq!(year("2147483648"), 0);
    assert_eq!(year("{-2147483648}"), -2147483648);
    assert_eq!(year("{-2147483649}"), 0);
    assert_eq!(year("99999999999999999999999999"), 0);
    let e = entry("@misc", "k", vec![field("Year", "1"), field("year", ""), field("year", "7"), field("year", "8")]);
    assert_eq!(year_of(&e), 7);
    assert_eq!(year_of(&entry("@misc", "k", vec![])), 0);
}

fn three_entries() -> BibFile {
    let e = |key: &str, year: &str| entry("@book", key, vec![field("year", year)]);
    BibFile {
        content: String::new(),
        entries: vec![e("a", "1999"), e("b", "{2005}"), e("c", "1999"), e("d", "x")],
        errors: vec![],
        blocks: vec![
            Block::Other("% one\n".to_string()),
            Block::Entry(0),
            Block::Entry(2),
            Block::Other("two".to_string()),
            Block::Entry(1),
            Block::Entry(9),
        ],
    }
}

fn written(key: &str, year: &str) -> String {
    format!("@book{{{},\n  year = {},\n}}\n\n", key, year)
}

#[test]
fn a_file_is_written_piece_by_piece() {
    let options = FormatOptions::new(LocalBibDb::new());
    let mut out = String::new();
    write_bibfile(&three_entries(), &options, &mut out);
    assert_eq!(
        out,
        format!("% one\n{}{}two{}", written("a", "1999"), written("c", "1999"), written("b", "{2005}"))
    );
}

#[test]
fn sorted_entries_come_latest_first() {
    let mut options = FormatOptions::new(LocalBibDb::new());
    options.sort_entries = true;
    let file = three_entries();
    let mut out = String::new();
    write_bibfile(&file, &options, &mut out);
    let wanted = format!(
        "% one\ntwo{}{}{}{}",
        written("b", "{2005}"),
        written("a", "1999"),
        written("c", "1999"),
        written("d", "x")
    );
    assert_eq!(out, wanted);
    assert_eq!(BibFormat { bib: &file, options: &options }.to_string(), wanted);
}

#[test]
fn a_parsed_file_is_written_back() {
    let text = "junk\n@Book{a, Year = 1999}\n@book{b, year = {2005}}\n";
    let file = BibFile::new(text);
    let mut options = FormatOptions::new(LocalBibDb::new());
    let mut out = String::new();
    write_bibfile(&file, &options, &mut out);
    assert_eq!(out, "junk\n@book{a,\n  year = 1999,\n}\n\n@book{b,\n  year = {2005},\n}\n\n");
    options.sort_entries = true;
    let mut out = String::new();
    write_bibfile(&file, &options, &mut out);
    assert_eq!(out, "junk\n@book{b,\n  year = {2005},\n}\n\n@book{a,\n  year = 1999,\n}\n\n");
}

#[test]
fn the_longest_field_name_gives_the_width() {
    assert_eq!(field_name_width(&three_entries()), 4);
    assert_eq!(field_name_width(&empty_file()), 0);
    let mut file = empty_file();
    file.entries = vec![sample(), entry("@misc", "k", vec![field("\u{e9}diteur", "x")])];
    assert_eq!(field_name_width(&file), 8);
}
