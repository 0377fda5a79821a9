use bibadac::arxiv_identifiers::{parse_arxiv_id, ArxivId};
use std::cmp::Ordering;

#[test]
fn identifiers_with_and_without_version() {
    assert_eq!(parse_arxiv_id("2101.00001v3"), Some(ArxivId { id: "2101.00001", version: Some(3) }));
    assert_eq!(parse_arxiv_id("2101.00001"), Some(ArxivId { id: "2101.00001", version: None }));
    assert_eq!(parse_arxiv_id("math/0211159v12"), Some(ArxivId { id: "math/0211159", version: Some(12) }));
    assert_eq!(parse_arxiv_id("v1"), Some(ArxivId { id: "", version: Some(1) }));
    assert_eq!(parse_arxiv_id("1v+7"), Some(ArxivId { id: "1", version: Some(7) }));
    assert_eq!(parse_arxiv_id("1v007"), Some(ArxivId { id: "1", version: Some(7) }));
    assert_eq!(parse_arxiv_id(""), Some(ArxivId { id: "", version: None }));
    assert_eq!(parse_arxiv_id("\u{e9}t\u{e9}v2"), Some(ArxivId { id: "\u{e9}t\u{e9}", version: Some(2) }));
}

#[test]
fn identifiers_that_are_refused() {
    for s in ["2101.00001v", "2101.00001vx", "solv-int/9901001", "1v-2", "1v+", "1v2 ", "1v\u{663}", "avb"] {
        assert_eq!(parse_arxiv_id(s), None, "{}", s);
    }
    let too_big = format!("1v{}0", usize::MAX);
    assert_eq!(parse_arxiv_id(&too_big), None);
    let biggest = format!("1v{}", usize::MAX);
    assert_eq!(parse_arxiv_id(&biggest), Some(ArxivId { id: "1", version: Some(usize::MAX) }));
    assert_eq!(ArxivId::try_from("1vx"), Err(()));
    assert_eq!(ArxivId::try_from("1v2"), Ok(ArxivId { id: "1", version: Some(2) }));
}

#[test]
fn identifiers_are_written_back() {
    assert_eq!(ArxivId { id: "2101.00001", version: Some(3) }.to_string(), "2101.00001v3");
    assert_eq!(ArxivId { id: "2101.00001", version: Some(0) }.to_string(), "2101.00001v0");
    assert_eq!(ArxivId { id: "2101.00001", version: Some(120) }.to_string(), "2101.00001v120");
    assert_eq!(
        ArxivId { id: "x", version: Some(usize::MAX) }.to_string(),
        format!("xv{}", usize::MAX)
    );
    assert_eq!(ArxivId { id: "2101.00001", version: None }.to_string(), "2101.00001");
    let id = ArxivId { id: "2101.00001", version: Some(3) };
    assert_eq!(id.to_abstract_url(), "https://arxiv.org/abs/2101.00001");
    assert_eq!(id.to_pdf_url(), "https://arxiv.org/pdf/2101.00001");
}

#[test]
fn versions_of_one_preprint_are_ordered() {
    let v = |version| ArxivId { id: "1", version };
    assert_eq!(v(Some(1)).partial_cmp(&v(Some(2))), Some(Ordering::Less));
    assert_eq!(v(Some(2)).partial_cmp(&v(Some(2))), Some(Ordering::Equal));
    assert_eq!(v(Some(3)).partial_cmp(&v(Some(2))), Some(Ordering::Greater));
    assert_eq!(v(Some(0)).partial_cmp(&v(None)), Some(Ordering::Greater));
    assert_eq!(v(None).partial_cmp(&v(Some(0))), Some(Ordering::Less));
    assert_eq!(v(None).partial_cmp(&v(None)), Some(Ordering::Equal));
    assert_eq!(v(None).partial_cmp(&ArxivId { id: "2", version: None }), None);
    assert!(v(Some(1)) < v(Some(2)));
    assert!(!(v(Some(1)) < ArxivId { id: "2", version: Some(2) }));
}
