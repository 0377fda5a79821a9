use bibadac::arxiv_identifiers::ArxivId;
use bibadac::setup::{DownloadRequest, SetupConfig};

fn strings(list: &[&str]) -> Vec<String> {
    list.iter().map(|s| s.to_string()).collect()
}

fn written(list: &[DownloadRequest]) -> Vec<String> {
    list.iter().map(|r| r.to_string()).collect()
}

#[test]
fn requests_are_written_with_their_kind() {
    assert_eq!(DownloadRequest::Doi("10.1/x").to_string(), "doi:10.1/x");
    assert_eq!(DownloadRequest::Url("http://x").to_string(), "url:http://x");
    let id = ArxivId { id: "2101.00001", version: Some(2) };
    assert_eq!(DownloadRequest::Arxiv(id).to_string(), "arxiv:2101.00001v2");
    let id = ArxivId { id: "2101.00001", version: None };
    assert_eq!(DownloadRequest::Arxiv(id).to_string(), "arxiv:2101.00001");
}

#[test]
fn a_new_setup_knows_nothing() {
    let config = SetupConfig::new();
    assert!(config.existing_doi.is_empty() && config.existing_arxiv.is_empty());
    assert!(config.existing_sha256.is_empty() && config.doi_to_sha256.is_empty());
    assert!(config.arxiv_to_sha256.is_empty());
    assert!(!config.progress && !config.download_pdf && !config.dry_run);
    assert!(config.working_directory.is_empty() && config.polite_email.is_none());
    assert!(!config.already_present(&DownloadRequest::Doi("d")));
}

#[test]
fn documents_on_record_are_present() {
    let mut config = SetupConfig::new();
    config.doi_to_sha256.push(("d".to_string(), "s".to_string()));
    config.arxiv_to_sha256.push(("a".to_string(), "t".to_string()));
    assert!(config.already_present(&DownloadRequest::Doi("d")));
    assert!(!config.already_present(&DownloadRequest::Doi("a")));
    assert!(config.already_present(&DownloadRequest::Arxiv(ArxivId { id: "a", version: Some(4) })));
    assert!(!config.already_present(&DownloadRequest::Arxiv(ArxivId { id: "d", version: None })));
    assert!(!config.already_present(&DownloadRequest::Url("d")));
}

#[test]
fn plan_asks_for_what_is_not_there() {
    let mut config = SetupConfig::new();
    config.existing_doi = strings(&["d1"]);
    config.existing_arxiv = strings(&["a1v2"]);
    config.doi_to_sha256.push(("d2".to_string(), "s".to_string()));
    config.arxiv_to_sha256.push(("a2".to_string(), "t".to_string()));
    let dois = strings(&["d1", "d2", "d3"]);
    let eprints = strings(&["a1v2", "a1", "a2v1", "bad v", "a3v3"]);
    let plan = config.plan(&dois, &eprints);
    assert_eq!(written(&plan.doi_requests), ["doi:d2", "doi:d3"]);
    assert_eq!(written(&plan.arxiv_requests), ["arxiv:a1", "arxiv:a2v1", "arxiv:a3v3"]);
    let missing = ["doi:d1", "doi:d3", "arxiv:a1v2", "arxiv:a1", "arxiv:a3v3"];
    assert_eq!(written(&plan.pdf_requests), missing);
    // documents are fetched only on demand
    assert!(plan.pdf_fetches.is_empty());
    config.download_pdf = true;
    let plan = config.plan(&dois, &eprints);
    assert_eq!(written(&plan.pdf_requests), missing);
    assert_eq!(written(&plan.pdf_fetches), missing);
    assert_eq!(written(&plan.doi_requests), ["doi:d2", "doi:d3"]);
}

#[test]
fn documents_are_paired_with_their_requests() {
    let mut config = SetupConfig::new();
    let dois = strings(&["d1", "d2"]);
    let eprints = strings(&["e1v3"]);
    let found = |n: &str| Some(pdf_record(&DownloadRequest::Url("u"), n, "s".to_string()));
    let documents = vec![found("a"), None, found("c"), found("d")];
    let entries = vec![("d1".to_string(), None)];
    let off = setup_result(&config.plan(&dois, &eprints), entries.clone(), &documents);
    assert!(off.pdfs.is_empty());
    assert_eq!(off.entries, entries);
    config.download_pdf = true;
    let plan = config.plan(&dois, &eprints);
    let on = setup_result(&plan, entries.clone(), &documents);
    let names: Vec<(&str, Option<&str>)> = on
        .pdfs
        .iter()
        .map(|(n, d)| (n.as_str(), d.as_ref().map(|d| d.filepath.as_str())))
        .collect();
    assert_eq!(
        names,
        [("doi:d1", Some("a")), ("doi:d2", None), ("arxiv:e1v3", Some("c"))]
    );
    assert_eq!(pair_documents(&plan.pdf_fetches, &vec![]).len(), 0);
    assert_eq!(pair_documents(&vec![], &documents).len(), 0);
    assert_eq!(DownloadRequest::Doi("d").copy().to_string(), "doi:d");
}

use bibadac::bibtex::{BibEntry, BibField, BibFile, Location};
use bibadac::setup::{
    count_found, doi_url, entry_of_answer, pair_documents, pair_entries, pdf_file_name, pdf_link,
    pdf_link_from, pdf_record, pdf_result, sci_hub_url, setup_result,
};

#[test]
fn addresses_are_made_of_the_doi() {
    assert_eq!(doi_url("10.1/x"), "https://dx.doi.org/10.1/x");
    assert_eq!(sci_hub_url("10.1/x"), "https://sci-hub.se/10.1/x");
}

#[test]
fn an_answer_holds_an_entry_behind_a_space() {
    assert_eq!(entry_of_answer(" @article{k}"), Some("@article{k}".to_string()));
    assert_eq!(entry_of_answer(" @"), Some("@".to_string()));
    assert_eq!(entry_of_answer("@article{k}"), None);
    assert_eq!(entry_of_answer("  @article{k}"), None);
    assert_eq!(entry_of_answer(" "), None);
    assert_eq!(entry_of_answer(""), None);
}

#[test]
fn the_embedded_document_is_found_in_a_page() {
    let page = "<embed type=\"application/pdf\" src=\"//zero.sci-hub.se/407/de27ca7d/kirsten2002.pdf#view=FitH\">";
    assert_eq!(
        pdf_link(page),
        Some("https://zero.sci-hub.se/407/de27ca7d/kirsten2002.pdf".to_string())
    );
    assert_eq!(pdf_link("src='a.pdf' src='b.pdf'"), Some("https:a.pdf".to_string()));
    assert_eq!(pdf_link("<html>no document</html>"), None);
    assert_eq!(pdf_link("src=\".pdf"), None);
    assert_eq!(pdf_link_from(Some("//x/y".to_string())), Some("https://x/y.pdf".to_string()));
    assert_eq!(pdf_link_from(None), None);
}

#[test]
fn file_names_do_without_punctuation() {
    assert_eq!(pdf_file_name("doi:10.1/X(y)"), "doi_10_1_x_y_.pdf");
    assert_eq!(pdf_file_name("url:http://a.b/C?d=e&f='g',{h} \"i\""), "url_http___a_b_c_d_e_f__g___h___i_.pdf");
    assert_eq!(pdf_file_name("arxiv:2101.00001v2"), "arxiv_2101_00001v2.pdf");
    assert_eq!(pdf_file_name("\u{c9}-_Z"), "\u{c9}-_z.pdf");
    assert_eq!(pdf_file_name(""), ".pdf");
}

#[test]
fn a_stored_document_is_recorded_with_its_checksum() {
    let request = DownloadRequest::Doi("10.1/x");
    let bytes = b"hello world".to_vec();
    let sum = "b94d27b9934d3e08a52e52d7da7dabfac484efe37a5380ee9088f7ace2efcde9";
    let result = pdf_result(&request, "dir/doi_10_1_x.pdf", &bytes);
    assert_eq!(result.sha256, sum);
    assert_eq!(result.filepath, "dir/doi_10_1_x.pdf");
    assert_eq!(
        result.entry,
        format!(
            "@mapping{{b94d27b993:doi:10.1/x, sha256 = {{{}}}, filename = {{dir/doi_10_1_x.pdf}}, doi = {{10.1/x}}}}",
            sum
        )
    );
    let empty = pdf_result(&request, "f", &vec![]);
    assert_eq!(empty.sha256, "e3b0c44298fc1c149afbf4c8996fb92427ae41e4649b934ca495991b7852b855");
    let id = ArxivId { id: "2101.00001", version: Some(2) };
    let short = pdf_record(&DownloadRequest::Arxiv(id), "f.pdf", "abc".to_string());
    assert_eq!(
        short.entry,
        "@mapping{abc:arxiv:2101.00001v2, sha256 = {abc}, filename = {f.pdf}, eprint = {2101.00001v2}}"
    );
    let url = pdf_record(&DownloadRequest::Url("u"), "f", "0123456789abc".to_string());
    assert_eq!(url.entry, "@mapping{0123456789:url:u, sha256 = {0123456789abc}, filename = {f}, url = {u}}");
}

#[test]
fn answers_are_paired_with_what_was_asked_for() {
    let some = |s: &str| Some(s.to_string());
    let answers = vec![some("a"), None, some("c")];
    let pair = |n: &str, a: Option<String>| (n.to_string(), a);
    assert_eq!(
        pair_entries(&answers, &strings(&["d1", "d2"]), &strings(&["e1", "e2"])),
        vec![pair("d1", some("a")), pair("d2", None), pair("e1", some("c"))]
    );
    assert_eq!(
        pair_entries(&answers, &strings(&["d1"]), &strings(&["e1"])),
        vec![pair("d1", some("a")), pair("e1", None)]
    );
    assert_eq!(pair_entries(&answers, &strings(&[]), &strings(&[])), vec![]);
    assert_eq!(pair_entries(&vec![], &strings(&["d"]), &strings(&[])), vec![]);
    assert_eq!(count_found(&answers), 2);
    assert_eq!(count_found(&vec![]), 0);
}

#[test]
fn a_file_tells_what_is_there() {
    let loc = Location { start_byte: 0, end_byte: 0, row: 0, column: 0 };
    let field = |n: &str, v: &str| BibField { name: n.to_string(), value: v.to_string(), loc };
    let entry = |fields: Vec<BibField>| BibEntry {
        key: "k".to_string(),
        entrytype: "@mapping".to_string(),
        fields,
        loc,
    };
    let file = BibFile {
        content: String::new(),
        entries: vec![
            entry(vec![field("DOI", "{d1}"), field("sha256", "{s1}"), field("doi", "{d2}"), field("note", "n")]),
            entry(vec![field("eprint", "{e1}"), field("Sha256", "\"s2\"")]),
            entry(vec![field("doi", "{d1}"), field("eprint", "e2")]),
            entry(vec![field("doi", "{d2}"), field("eprint", "{e1}"), field("sha256", "s3")]),
        ],
        errors: vec![],
        blocks: vec![],
    };
    let mut config = SetupConfig::new();
    config.progress = true;
    config.import_file(&file);
    assert!(config.progress);
    assert_eq!(config.existing_doi, strings(&["d1", "d2"]));
    assert_eq!(config.existing_arxiv, strings(&["e1", "e2"]));
    assert_eq!(config.existing_sha256, strings(&["s1", "s2", "s3"]));
    let pair = |a: &str, b: &str| (a.to_string(), b.to_string());
    assert_eq!(config.doi_to_sha256, vec![pair("d2", "s3")]);
    assert_eq!(config.arxiv_to_sha256, vec![pair("e1", "s3")]);
}

use bibadac::setup::gather_identifiers;

#[test]
fn requests_know_their_kind() {
    let id = ArxivId { id: "1", version: None };
    assert!(DownloadRequest::Arxiv(id).is_arxiv());
    assert!(!DownloadRequest::Doi("d").is_arxiv());
    assert!(DownloadRequest::Doi("d").is_doi());
    assert!(!DownloadRequest::Url("u").is_doi() && !DownloadRequest::Url("u").is_arxiv());
}

#[test]
fn identifiers_are_gathered_once() {
    let loc = Location { start_byte: 0, end_byte: 0, row: 0, column: 0 };
    let field = |n: &str, v: &str| BibField { name: n.to_string(), value: v.to_string(), loc };
    let entry = |fields: Vec<BibField>| BibEntry {
        key: "k".to_string(),
        entrytype: "@misc".to_string(),
        fields,
        loc,
    };
    let file = BibFile {
        content: String::new(),
        entries: vec![
            entry(vec![field("doi", "{d1}"), field("eprint", "{e1v2}"), field("sha256", "{s}")]),
            entry(vec![field("doi", "{d1}"), field("eprint", "{e1}"), field("DOI", "{d2}")]),
            entry(vec![field("eprint", "{not v}"), field("eprint", "e2"), field("doi", "d3")]),
        ],
        errors: vec![],
        blocks: vec![],
    };
    let mut dois = strings(&["d0"]);
    let mut eprints = vec![];
    let mut sha256s = vec![];
    gather_identifiers(&file, &mut dois, &mut eprints, &mut sha256s);
    assert_eq!(dois, strings(&["d0", "d1", "d3"]));
    assert_eq!(eprints, strings(&["e1v2", "e1", "not v", "e2"]));
    assert_eq!(sha256s, strings(&["s"]));
}
