//! Setting up a working directory from a bibliography: deciding which
//! entries and documents have to be fetched, and turning what was fetched into
//! records. The fetching itself is left to the caller.

use vstd::prelude::*;
use crate::arxiv_identifiers::{arxiv_parsed, arxiv_written, parse_arxiv_id, ArxivId, ArxivIdView};
use crate::bibdb::{with_property, PreBibEntry, Properties};
use crate::bibtex::{braceless, BibFile, EntryView, FieldView};
use crate::text::{
    chars_of, extend, holds_text, lowercase_of, slice_of, str_eq, string_of, texts, to_lowercase,
};

verus! {

/// What is already there, and how the setup is to run.
#[derive(Debug, Clone)]
pub struct SetupConfig {
    /// The checksums of the documents that are there.
    pub existing_sha256: Vec<String>,
    /// The eprints whose entries are there.
    pub existing_arxiv: Vec<String>,
    /// The DOIs whose entries are there.
    pub existing_doi: Vec<String>,
    /// For an eprint, the checksum of its document.
    pub arxiv_to_sha256: Vec<(String, String)>,
    /// For a DOI, the checksum of its document.
    pub doi_to_sha256: Vec<(String, String)>,
    pub progress: bool,
    pub download_pdf: bool,
    pub dry_run: bool,
    pub working_directory: String,
    pub polite_email: Option<String>,
}

/// A document that was fetched: where it was stored, its checksum, and the
/// entry that records both.
#[derive(Debug)]
pub struct PdfResult {
    pub filepath: String,
    pub sha256: String,
    pub entry: String,
}

/// What a setup fetched: for each document asked for, the document if it was
/// found; for each entry asked for, the entry if it was found.
#[derive(Debug)]
pub struct SetupResult {
    pub pdfs: Vec<(String, Option<PdfResult>)>,
    pub entries: Vec<(String, Option<String>)>,
}

/// Something to fetch.
#[derive(Debug)]
pub enum DownloadRequest<'a> {
    Arxiv(ArxivId<'a>),
    Doi(&'a str),
    Url(&'a str),
}

/// What a [`DownloadRequest`] holds.
pub enum RequestView {
    Arxiv(ArxivIdView),
    Doi(Seq<char>),
    Url(Seq<char>),
}

impl<'a> View for DownloadRequest<'a> {
    type V = RequestView;

    open spec fn view(&self) -> RequestView {
        match self {
            DownloadRequest::Arxiv(id) => RequestView::Arxiv(id@),
            DownloadRequest::Doi(doi) => RequestView::Doi(doi@),
            DownloadRequest::Url(url) => RequestView::Url(url@),
        }
    }
}

/// Something that fetches.
pub trait DownloadHandler {
    /// Whether this handler can fetch what is asked for.
    fn can_handle(&self, request: &DownloadRequest) -> bool;
}

/// What a list of pairs of strings holds.
pub open spec fn pairs(list: Seq<(String, String)>) -> Seq<(Seq<char>, Seq<char>)> {
    Seq::new(list.len(), |i: int| (list[i].0@, list[i].1@))
}

/// Some pair has the given first component.
pub open spec fn has_key(list: Seq<(Seq<char>, Seq<char>)>, key: Seq<char>) -> bool {
    exists|i: int| 0 <= i < list.len() && (#[trigger] list[i]).0 == key
}

/// The request as it is written: its kind, a colon, and what it asks for.
pub open spec fn request_written(request: RequestView) -> Seq<char> {
    match request {
        RequestView::Arxiv(id) => "arxiv:"@ + arxiv_written(id),
        RequestView::Doi(doi) => "doi:"@ + doi,
        RequestView::Url(url) => "url:"@ + url,
    }
}

/// The document that is asked for is known to be there: its eprint or DOI has
/// a checksum on record.
pub open spec fn present(
    arxiv_to_sha256: Seq<(Seq<char>, Seq<char>)>,
    doi_to_sha256: Seq<(Seq<char>, Seq<char>)>,
    request: RequestView,
) -> bool {
    match request {
        RequestView::Arxiv(id) => has_key(arxiv_to_sha256, id.id),
        RequestView::Doi(doi) => has_key(doi_to_sha256, doi),
        RequestView::Url(_) => false,
    }
}

/// Whether some pair of `list` has the first component `key`.
pub fn holds_key(list: &Vec<(String, String)>, key: &str) -> (r: bool)
    ensures
        r == has_key(pairs(list@), key@),
{
    let mut i: usize = 0;
    while i < list.len()
        invariant
            i <= list.len(),
            forall|j: int| 0 <= j < i ==> (#[trigger] pairs(list@)[j]).0 != key@,
        decreases list.len() - i,
    {
        assert(pairs(list@)[i as int] == (list@[i as int].0@, list@[i as int].1@));
        if str_eq(list[i].0.as_str(), key) {
            return true;
        }
        i += 1;
    }
    false
}

impl<'a> DownloadRequest<'a> {
    /// A copy of the request.
    pub fn copy(&self) -> (r: DownloadRequest<'a>)
        ensures
            r@ == self@,
    {
        match self {
            DownloadRequest::Arxiv(id) => DownloadRequest::Arxiv(
                ArxivId { id: id.id, version: id.version },
            ),
            DownloadRequest::Doi(doi) => DownloadRequest::Doi(*doi),
            DownloadRequest::Url(url) => DownloadRequest::Url(*url),
        }
    }

    /// Whether the request is for an arXiv identifier.
    pub fn is_arxiv(&self) -> (r: bool)
        ensures
            r == (self@ is Arxiv),
    {
        match self {
            DownloadRequest::Arxiv(_) => true,
            _ => false,
        }
    }

    /// Whether the request is for a DOI.
    pub fn is_doi(&self) -> (r: bool)
        ensures
            r == (self@ is Doi),
    {
        match self {
            DownloadRequest::Doi(_) => true,
            _ => false,
        }
    }

    /// The request as it is written: `arxiv:`, `doi:` or `url:`, followed by
    /// what it asks for.
    pub fn to_string(&self) -> (r: String)
        ensures
            r@ == request_written(self@),
    {
        match self {
            DownloadRequest::Arxiv(id) => {
                let mut text = chars_of("arxiv:");
                let written = id.to_string();
                extend(&mut text, &chars_of(written.as_str()));
                string_of(&text)
            },
            DownloadRequest::Doi(doi) => {
                let mut text = chars_of("doi:");
                extend(&mut text, &chars_of(doi));
                string_of(&text)
            },
            DownloadRequest::Url(url) => {
                let mut text = chars_of("url:");
                extend(&mut text, &chars_of(url));
                string_of(&text)
            },
        }
    }
}

/// What is to be fetched: the entries by DOI, the entries by eprint, the
/// documents that are not there, and, of those, the documents to fetch.
pub struct DownloadPlan<'a> {
    pub doi_requests: Vec<DownloadRequest<'a>>,
    pub arxiv_requests: Vec<DownloadRequest<'a>>,
    pub pdf_requests: Vec<DownloadRequest<'a>>,
    pub pdf_fetches: Vec<DownloadRequest<'a>>,
}

/// The documents to fetch among those that are not there: all of them if
/// documents are to be downloaded, and none if not.
pub open spec fn documents_fetched(download_pdf: bool, missing: Seq<RequestView>) -> Seq<
    RequestView,
> {
    if download_pdf {
        missing
    } else {
        Seq::empty()
    }
}

/// What a list of requests holds.
pub open spec fn request_views(list: Seq<DownloadRequest>) -> Seq<RequestView> {
    Seq::new(list.len(), |i: int| list[i]@)
}

/// Of the first `n` DOIs, a request for each that is not among the known
/// ones.
pub open spec fn doi_wanted(known: Seq<Seq<char>>, dois: Seq<Seq<char>>, n: nat) -> Seq<RequestView>
    decreases n,
{
    if n == 0 || n > dois.len() {
        Seq::empty()
    } else {
        let before = doi_wanted(known, dois, (n - 1) as nat);
        if known.contains(dois[n - 1]) {
            before
        } else {
            before.push(RequestView::Doi(dois[n - 1]))
        }
    }
}

/// Of the first `n` eprints, a request for each that is not among the known
/// ones and is an arXiv identifier.
pub open spec fn arxiv_wanted(known: Seq<Seq<char>>, eprints: Seq<Seq<char>>, n: nat) -> Seq<
    RequestView,
>
    decreases n,
{
    if n == 0 || n > eprints.len() {
        Seq::empty()
    } else {
        let before = arxiv_wanted(known, eprints, (n - 1) as nat);
        match arxiv_parsed(eprints[n - 1]) {
            Some(id) => if known.contains(eprints[n - 1]) {
                before
            } else {
                before.push(RequestView::Arxiv(id))
            },
            None => before,
        }
    }
}

/// Of the first `n` DOIs, a request for the document of each whose document
/// is not there.
pub open spec fn doi_documents(
    arxiv_to_sha256: Seq<(Seq<char>, Seq<char>)>,
    doi_to_sha256: Seq<(Seq<char>, Seq<char>)>,
    dois: Seq<Seq<char>>,
    n: nat,
) -> Seq<RequestView>
    decreases n,
{
    if n == 0 || n > dois.len() {
        Seq::empty()
    } else {
        let before = doi_documents(arxiv_to_sha256, doi_to_sha256, dois, (n - 1) as nat);
        let request = RequestView::Doi(dois[n - 1]);
        if present(arxiv_to_sha256, doi_to_sha256, request) {
            before
        } else {
            before.push(request)
        }
    }
}

/// Of the first `n` eprints, a request for the document of each that is an
/// arXiv identifier and whose document is not there.
pub open spec fn arxiv_documents(
    arxiv_to_sha256: Seq<(Seq<char>, Seq<char>)>,
    doi_to_sha256: Seq<(Seq<char>, Seq<char>)>,
    eprints: Seq<Seq<char>>,
    n: nat,
) -> Seq<RequestView>
    decreases n,
{
    if n == 0 || n > eprints.len() {
        Seq::empty()
    } else {
        let before = arxiv_documents(arxiv_to_sha256, doi_to_sha256, eprints, (n - 1) as nat);
        match arxiv_parsed(eprints[n - 1]) {
            Some(id) => if present(arxiv_to_sha256, doi_to_sha256, RequestView::Arxiv(id)) {
                before
            } else {
                before.push(RequestView::Arxiv(id))
            },
            None => before,
        }
    }
}

/// A list of requests that got one more holds what it held and the new one.
pub proof fn lemma_requests_push(list: Seq<DownloadRequest>, request: DownloadRequest)
    ensures
        request_views(list.push(request)) == request_views(list).push(request@),
{
    assert(request_views(list.push(request)) =~= request_views(list).push(request@));
}

impl Default for SetupConfig {
    fn default() -> (r: Self)
        ensures
            r.blank(),
    {
        SetupConfig {
            existing_sha256: Vec::new(),
            existing_arxiv: Vec::new(),
            existing_doi: Vec::new(),
            arxiv_to_sha256: Vec::new(),
            doi_to_sha256: Vec::new(),
            progress: false,
            download_pdf: false,
            dry_run: false,
            working_directory: String::new(),
            polite_email: None,
        }
    }
}

impl SetupConfig {
    /// Nothing is there, nothing is switched on, and no directory or address
    /// is given.
    pub open spec fn blank(&self) -> bool {
        &&& self.existing_sha256@.len() == 0
        &&& self.existing_arxiv@.len() == 0
        &&& self.existing_doi@.len() == 0
        &&& self.arxiv_to_sha256@.len() == 0
        &&& self.doi_to_sha256@.len() == 0
        &&& !self.progress
        &&& !self.download_pdf
        &&& !self.dry_run
        &&& self.working_directory@.len() == 0
        &&& self.polite_email is None
    }

    /// A setup that knows of nothing.
    pub fn new() -> (r: Self)
        ensures
            r.blank(),
    {
        SetupConfig {
            existing_sha256: Vec::new(),
            existing_arxiv: Vec::new(),
            existing_doi: Vec::new(),
            arxiv_to_sha256: Vec::new(),
            doi_to_sha256: Vec::new(),
            progress: false,
            download_pdf: false,
            dry_run: false,
            working_directory: String::new(),
            polite_email: None,
        }
    }

    /// Whether the document that is asked for is known to be there: an eprint
    /// or a DOI with a checksum on record. A URL is never known.
    pub fn already_present(&self, request: &DownloadRequest) -> (r: bool)
        ensures
            r == present(pairs(self.arxiv_to_sha256@), pairs(self.doi_to_sha256@), request@),
    {
        match request {
            DownloadRequest::Arxiv(id) => holds_key(&self.arxiv_to_sha256, id.id),
            DownloadRequest::Doi(doi) => holds_key(&self.doi_to_sha256, *doi),
            DownloadRequest::Url(_) => false,
        }
    }

    /// What is to be fetched for the given DOIs and eprints: the entry of
    /// each DOI and of each eprint that is not there yet, and the document of
    /// each DOI and eprint whose document is not there yet, the DOIs first. An
    /// eprint that is no arXiv identifier is passed over. No document is
    /// fetched unless documents are to be downloaded.
    pub fn plan<'a>(&self, dois: &'a Vec<String>, eprints: &'a Vec<String>) -> (r: DownloadPlan<'a>)
        ensures
            request_views(r.doi_requests@) == doi_wanted(
                texts(self.existing_doi@),
                texts(dois@),
                dois@.len(),
            ),
            request_views(r.arxiv_requests@) == arxiv_wanted(
                texts(self.existing_arxiv@),
                texts(eprints@),
                eprints@.len(),
            ),
            request_views(r.pdf_requests@) == doi_documents(
                pairs(self.arxiv_to_sha256@),
                pairs(self.doi_to_sha256@),
                texts(dois@),
                dois@.len(),
            ) + arxiv_documents(
                pairs(self.arxiv_to_sha256@),
                pairs(self.doi_to_sha256@),
                texts(eprints@),
                eprints@.len(),
            ),
            request_views(r.pdf_fetches@) == documents_fetched(
                self.download_pdf,
                request_views(r.pdf_requests@),
            ),
    {
        let ghost known_doi = texts(self.existing_doi@);
        let ghost known_arxiv = texts(self.existing_arxiv@);
        let ghost a2s = pairs(self.arxiv_to_sha256@);
        let ghost d2s = pairs(self.doi_to_sha256@);
        let ghost ds = texts(dois@);
        let ghost es = texts(eprints@);
        let mut doi_requests: Vec<DownloadRequest<'a>> = Vec::new();
        let mut arxiv_requests: Vec<DownloadRequest<'a>> = Vec::new();
        let mut pdf_requests: Vec<DownloadRequest<'a>> = Vec::new();
        assert(request_views(doi_requests@) =~= doi_wanted(known_doi, ds, 0));
        assert(request_views(pdf_requests@) =~= doi_documents(a2s, d2s, ds, 0));
        let mut i: usize = 0;
        while i < dois.len()
            invariant
                i <= dois.len(),
                known_doi == texts(self.existing_doi@),
                a2s == pairs(self.arxiv_to_sha256@),
                d2s == pairs(self.doi_to_sha256@),
                ds == texts(dois@),
                request_views(doi_requests@) == doi_wanted(known_doi, ds, i as nat),
                request_views(pdf_requests@) == doi_documents(a2s, d2s, ds, i as nat),
            decreases dois.len() - i,
        {
            assert(ds[i as int] == dois@[i as int]@);
            let doi = dois[i].as_str();
            if !holds_text(&self.existing_doi, doi) {
                let request = DownloadRequest::Doi(doi);
                proof {
                    lemma_requests_push(doi_requests@, request);
                }
                doi_requests.push(request);
            }
            let request = DownloadRequest::Doi(doi);
            if !self.already_present(&request) {
                proof {
                    lemma_requests_push(pdf_requests@, request);
                }
                pdf_requests.push(request);
            }
            i += 1;
        }
        let ghost first = request_views(pdf_requests@);
        assert(request_views(arxiv_requests@) =~= arxiv_wanted(known_arxiv, es, 0));
        assert(request_views(pdf_requests@) =~= first + arxiv_documents(a2s, d2s, es, 0));
        let mut j: usize = 0;
        while j < eprints.len()
            invariant
                j <= eprints.len(),
                known_arxiv == texts(self.existing_arxiv@),
                a2s == pairs(self.arxiv_to_sha256@),
                d2s == pairs(self.doi_to_sha256@),
                es == texts(eprints@),
                request_views(arxiv_requests@) == arxiv_wanted(known_arxiv, es, j as nat),
                request_views(pdf_requests@) == first + arxiv_documents(a2s, d2s, es, j as nat),
            decreases eprints.len() - j,
        {
            assert(es[j as int] == eprints@[j as int]@);
            let eprint = eprints[j].as_str();
            match parse_arxiv_id(eprint) {
                Some(id) => {
                    if !holds_text(&self.existing_arxiv, eprint) {
                        let request = DownloadRequest::Arxiv(ArxivId { id: id.id, version: id.version });
                        proof {
                            lemma_requests_push(arxiv_requests@, request);
                        }
                        arxiv_requests.push(request);
                    }
                    let request = DownloadRequest::Arxiv(id);
                    if !self.already_present(&request) {
                        let ghost before = request_views(pdf_requests@);
                        proof {
                            lemma_requests_push(pdf_requests@, request);
                        }
                        pdf_requests.push(request);
                        assert(before.push(request@) =~= first + arxiv_documents(
                            a2s,
                            d2s,
                            es,
                            j as nat,
                        ).push(request@));
                    }
                },
                None => {},
            }
            j += 1;
        }
        let mut pdf_fetches: Vec<DownloadRequest<'a>> = Vec::new();
        if self.download_pdf {
            let mut k: usize = 0;
            while k < pdf_requests.len()
                invariant
                    k <= pdf_requests.len(),
                    request_views(pdf_fetches@) == request_views(pdf_requests@).take(k as int),
                decreases pdf_requests.len() - k,
            {
                let ghost before = request_views(pdf_fetches@);
                let request = pdf_requests[k].copy();
                proof {
                    lemma_requests_push(pdf_fetches@, request);
                }
                pdf_fetches.push(request);
                k += 1;
                assert(request_views(pdf_requests@).take(k as int) =~= before.push(
                    pdf_requests@[k - 1]@,
                ));
            }
            assert(request_views(pdf_requests@).take(pdf_requests@.len() as int) == request_views(
                pdf_requests@,
            ));
        } else {
            assert(request_views(pdf_fetches@) =~= Seq::<RequestView>::empty());
        }
        DownloadPlan { doi_requests, arxiv_requests, pdf_requests, pdf_fetches }
    }
}

/// The SHA-256 checksum of a sequence of bytes, written in hexadecimal.
pub uninterp spec fn sha256_hex_of(bytes: Seq<u8>) -> Seq<char>;

/// `Sha256::digest` of the crate `sha2`, its result written in lower-case
/// hexadecimal by the implementation of `LowerHex` for the array it returns:
/// the checksum of the bytes. The result depends on the bytes alone; it is
/// named here, not described.
#[verifier::external_body]
pub(crate) fn sha256_hex(bytes: &Vec<u8>) -> (r: String)
    ensures
        r@ == sha256_hex_of(bytes@),
{
    format!("{:x}", <sha2::Sha256 as sha2::Digest>::digest(bytes.as_slice()))
}

/// What a group of a regular expression holds at its first match in a text,
/// if the expression is valid, matches, and the group took part.
pub uninterp spec fn captured_by(pattern: Seq<char>, text: Seq<char>, group: usize) -> Option<
    Seq<char>,
>;

/// `Regex::captures` of the crate `regex`, on an expression made by
/// `Regex::new`, read with `Captures::get` and `Match::as_str`: the text of
/// a group at the first match. The result depends on the expression, the text
/// and the number of the group alone; it is named here, not described.
#[verifier::external_body]
pub(crate) fn capture(pattern: &str, text: &str, group: usize) -> (r: Option<String>)
    ensures
        match r {
            Some(found) => captured_by(pattern@, text@, group) == Some(found@),
            None => captured_by(pattern@, text@, group) is None,
        },
{
    let expression = regex::Regex::new(pattern).ok()?;
    let found = expression.captures(text)?;
    found.get(group).map(|m| m.as_str().to_string())
}

/// The expression that finds the address of a document in a page that
/// embeds it: `src=`, one character, the address, and `.pdf`.
pub open spec fn embedded_pdf_pattern() -> Seq<char> {
    "(src=.)([\\/A-Za-z0-9\\.-]+)(\\.pdf)"@
}

/// The address of the document that a page embeds, made of what the
/// expression found in the page: `https:`, what was found, and `.pdf`.
pub open spec fn pdf_link_of(found: Option<Seq<char>>) -> Option<Seq<char>> {
    match found {
        Some(stub) => Some("https:"@ + stub + ".pdf"@),
        None => None,
    }
}

/// What an optional string holds.
pub open spec fn optional_text(text: Option<String>) -> Option<Seq<char>> {
    match text {
        Some(t) => Some(t@),
        None => None,
    }
}

/// The address of a document, made of what was found in the page that embeds
/// it: see [`pdf_link_of`].
pub fn pdf_link_from(found: Option<String>) -> (r: Option<String>)
    ensures
        optional_text(r) == pdf_link_of(optional_text(found)),
{
    match found {
        Some(stub) => {
            let mut text = chars_of("https:");
            extend(&mut text, &chars_of(stub.as_str()));
            extend(&mut text, &chars_of(".pdf"));
            Some(string_of(&text))
        },
        None => None,
    }
}

/// The address of the document that a page embeds, if the page embeds one:
/// see [`pdf_link_of`] and [`embedded_pdf_pattern`].
pub fn pdf_link(page: &str) -> (r: Option<String>)
    ensures
        optional_text(r) == pdf_link_of(captured_by(embedded_pdf_pattern(), page@, 2)),
{
    pdf_link_from(capture("(src=.)([\\/A-Za-z0-9\\.-]+)(\\.pdf)", page, 2))
}

/// The address at which the entry of a DOI is asked for.
pub fn doi_url(doi: &str) -> (r: String)
    ensures
        r@ == "https://dx.doi.org/"@ + doi@,
{
    let mut text = chars_of("https://dx.doi.org/");
    extend(&mut text, &chars_of(doi));
    string_of(&text)
}

/// The address of the page that embeds the document of a DOI.
pub fn sci_hub_url(doi: &str) -> (r: String)
    ensures
        r@ == "https://sci-hub.se/"@ + doi@,
{
    let mut text = chars_of("https://sci-hub.se/");
    extend(&mut text, &chars_of(doi));
    string_of(&text)
}

/// The entry in an answer to a request for one: the answer without its first
/// character, if the answer starts with a space and an `@`.
pub open spec fn entry_in(answer: Seq<char>) -> Option<Seq<char>> {
    if answer.len() >= 2 && answer[0] == ' ' && answer[1] == '@' {
        Some(answer.skip(1))
    } else {
        None
    }
}

/// The entry in an answer to a request for one: see [`entry_in`].
pub fn entry_of_answer(answer: &str) -> (r: Option<String>)
    ensures
        optional_text(r) == entry_in(answer@),
{
    let text = chars_of(answer);
    if text.len() >= 2 && text[0] == ' ' && text[1] == '@' {
        let rest = slice_of(&text, 1, text.len());
        assert(rest@ =~= answer@.skip(1));
        Some(string_of(&rest))
    } else {
        None
    }
}

/// The character is one that a file name does without.
pub open spec fn unwanted(c: char) -> bool {
    c == ' ' || c == '(' || c == ')' || c == '/' || c == ':' || c == '?' || c == '=' || c == '&'
        || c == '\'' || c == '{' || c == '}' || c == ',' || c == '"' || c == '.'
}

/// A character as it stands in a file name: a capital letter of the Latin
/// alphabet in lower case, an unwanted character as an underscore, any other
/// as it is.
pub open spec fn file_char(c: char) -> char {
    if 'A' <= c <= 'Z' {
        ((c as u32) + 32) as char
    } else if unwanted(c) {
        '_'
    } else {
        c
    }
}

/// The name of the file in which a document is stored: the request, each
/// character as [`file_char`] has it, followed by `.pdf`.
pub open spec fn file_name_of(request: Seq<char>) -> Seq<char> {
    Seq::new(request.len(), |i: int| file_char(request[i])) + ".pdf"@
}

/// The name of the file in which the document of a request is stored: see
/// [`file_name_of`].
pub fn pdf_file_name(request: &str) -> (r: String)
    ensures
        r@ == file_name_of(request@),
{
    let text = chars_of(request);
    let mut name: Vec<char> = Vec::new();
    let mut i: usize = 0;
    while i < text.len()
        invariant
            i <= text.len(),
            name@ == Seq::new(i as nat, |j: int| file_char(text@[j])),
        decreases text.len() - i,
    {
        let c = text[i];
        let d = if 'A' <= c && c <= 'Z' {
            ((c as u32) + 32) as u8 as char
        } else if c == ' ' || c == '(' || c == ')' || c == '/' || c == ':' || c == '?' || c == '='
            || c == '&' || c == '\'' || c == '{' || c == '}' || c == ',' || c == '"' || c == '.' {
            '_'
        } else {
            c
        };
        name.push(d);
        i += 1;
        assert(name@ =~= Seq::new(i as nat, |j: int| file_char(text@[j])));
    }
    let ghost mapped = name@;
    extend(&mut name, &chars_of(".pdf"));
    assert(mapped =~= Seq::new(request@.len(), |j: int| file_char(request@[j])));
    string_of(&name)
}

/// The name of the field that holds what a request asks for.
pub open spec fn request_field(request: RequestView) -> Seq<char> {
    match request {
        RequestView::Arxiv(_) => "eprint"@,
        RequestView::Doi(_) => "doi"@,
        RequestView::Url(_) => "url"@,
    }
}

/// What a request asks for.
pub open spec fn request_target(request: RequestView) -> Seq<char> {
    match request {
        RequestView::Arxiv(id) => arxiv_written(id),
        RequestView::Doi(doi) => doi,
        RequestView::Url(url) => url,
    }
}

/// The first ten characters of a text, or all of it if it has fewer.
pub open spec fn first_ten(text: Seq<char>) -> Seq<char> {
    if text.len() >= 10 {
        text.take(10)
    } else {
        text
    }
}

/// The entry that records a stored document: its key is the start of the
/// checksum and the request, and its fields are the checksum, the name of the
/// file, and what was asked for.
pub open spec fn mapping_entry(request: RequestView, sha256: Seq<char>, filepath: Seq<char>)
    -> Seq<char> {
    "@mapping{"@ + first_ten(sha256) + ":"@ + request_written(request) + ", sha256 = {"@ + sha256
        + "}, filename = {"@ + filepath + "}, "@ + request_field(request) + " = {"@
        + request_target(request) + "}}"@
}

/// The record of a stored document, given its checksum: see
/// [`mapping_entry`].
pub fn pdf_record(request: &DownloadRequest, filepath: &str, sha256: String) -> (r: PdfResult)
    ensures
        r.filepath@ == filepath@,
        r.sha256@ == sha256@,
        r.entry@ == mapping_entry(request@, sha256@, filepath@),
{
    let sum = chars_of(sha256.as_str());
    let short = if sum.len() >= 10 {
        let s = slice_of(&sum, 0, 10);
        assert(s@ =~= sum@.take(10));
        s
    } else {
        let s = slice_of(&sum, 0, sum.len());
        assert(s@ =~= sum@);
        s
    };
    let written = request.to_string();
    let (field, target) = match request {
        DownloadRequest::Arxiv(id) => ("eprint", id.to_string()),
        DownloadRequest::Doi(doi) => ("doi", (*doi).to_owned()),
        DownloadRequest::Url(url) => ("url", (*url).to_owned()),
    };
    let mut text = chars_of("@mapping{");
    extend(&mut text, &short);
    extend(&mut text, &chars_of(":"));
    extend(&mut text, &chars_of(written.as_str()));
    extend(&mut text, &chars_of(", sha256 = {"));
    extend(&mut text, &sum);
    extend(&mut text, &chars_of("}, filename = {"));
    extend(&mut text, &chars_of(filepath));
    extend(&mut text, &chars_of("}, "));
    extend(&mut text, &chars_of(field));
    extend(&mut text, &chars_of(" = {"));
    extend(&mut text, &chars_of(target.as_str()));
    extend(&mut text, &chars_of("}}"));
    PdfResult { filepath: filepath.to_owned(), sha256, entry: string_of(&text) }
}

/// The record of a stored document: its checksum is that of its bytes, and
/// its entry is that of [`mapping_entry`].
pub fn pdf_result(request: &DownloadRequest, filepath: &str, bytes: &Vec<u8>) -> (r: PdfResult)
    ensures
        r.filepath@ == filepath@,
        r.sha256@ == sha256_hex_of(bytes@),
        r.entry@ == mapping_entry(request@, sha256_hex_of(bytes@), filepath@),
{
    pdf_record(request, filepath, sha256_hex(bytes))
}

/// What a setup knows to be there.
pub struct Known {
    pub sha256: Seq<Seq<char>>,
    pub arxiv: Seq<Seq<char>>,
    pub doi: Seq<Seq<char>>,
    pub arxiv_to_sha256: Properties,
    pub doi_to_sha256: Properties,
}

/// A list with a text added at its end, unless the list holds the text.
pub open spec fn with_text(list: Seq<Seq<char>>, text: Seq<char>) -> Seq<Seq<char>> {
    if list.contains(text) {
        list
    } else {
        list.push(text)
    }
}

/// The value, without braces or quotes, of the last of the first `n` fields
/// whose name in lower case is `key`.
pub open spec fn last_value(fields: Seq<FieldView>, key: Seq<char>, n: nat) -> Option<Seq<char>>
    decreases n,
{
    if n == 0 || n > fields.len() {
        None
    } else if lowercase_of(fields[n - 1].name) == key {
        Some(braceless(fields[n - 1].value))
    } else {
        last_value(fields, key, (n - 1) as nat)
    }
}

/// What is known once one field is noted: the value of a `doi`, an `eprint`
/// or a `sha256`, the name taken in lower case and the value without braces
/// or quotes, joins the known ones of its kind.
pub open spec fn noted_field(known: Known, field: FieldView) -> Known {
    let key = lowercase_of(field.name);
    let value = braceless(field.value);
    if key == "doi"@ {
        Known { doi: with_text(known.doi, value), ..known }
    } else if key == "eprint"@ {
        Known { arxiv: with_text(known.arxiv, value), ..known }
    } else if key == "sha256"@ {
        Known { sha256: with_text(known.sha256, value), ..known }
    } else {
        known
    }
}

/// What is known once the first `n` fields are noted.
pub open spec fn noted_fields(known: Known, fields: Seq<FieldView>, n: nat) -> Known
    decreases n,
{
    if n == 0 || n > fields.len() {
        known
    } else {
        noted_field(noted_fields(known, fields, (n - 1) as nat), fields[n - 1])
    }
}

/// What is known once an entry is noted: its fields are noted, and if it has
/// a checksum, the checksum is put on record for its DOI and for its eprint,
/// the last field of each name counting.
pub open spec fn noted_entry(known: Known, entry: EntryView) -> Known {
    let fields = entry.fields;
    let after = noted_fields(known, fields, fields.len());
    let doi = last_value(fields, "doi"@, fields.len());
    let eprint = last_value(fields, "eprint"@, fields.len());
    let sha256 = last_value(fields, "sha256"@, fields.len());
    Known {
        doi_to_sha256: match (doi, sha256) {
            (Some(d), Some(s)) => with_property(after.doi_to_sha256, d, s),
            _ => after.doi_to_sha256,
        },
        arxiv_to_sha256: match (eprint, sha256) {
            (Some(e), Some(s)) => with_property(after.arxiv_to_sha256, e, s),
            _ => after.arxiv_to_sha256,
        },
        ..after
    }
}

/// What is known once the first `n` entries are noted.
pub open spec fn noted(known: Known, entries: Seq<EntryView>, n: nat) -> Known
    decreases n,
{
    if n == 0 || n > entries.len() {
        known
    } else {
        noted_entry(noted(known, entries, (n - 1) as nat), entries[n - 1])
    }
}

/// Adds a text to a list that does not hold it.
fn note_text(list: &mut Vec<String>, text: &String)
    ensures
        texts(final(list)@) == with_text(texts(old(list)@), text@),
{
    if !holds_text(list, text.as_str()) {
        let ghost before = texts(list@);
        list.push(text.clone());
        assert(texts(list@) =~= before.push(text@));
    }
}

/// Puts a value on record for a key.
fn note_pair(list: &mut Vec<(String, String)>, key: String, value: String)
    ensures
        pairs(final(list)@) == with_property(pairs(old(list)@), key@, value@),
{
    let mut record = PreBibEntry { properties: Vec::new() };
    std::mem::swap(&mut record.properties, list);
    assert(record@ =~= pairs(old(list)@));
    record.insert(key, value);
    std::mem::swap(&mut record.properties, list);
    assert(pairs(list@) =~= with_property(pairs(old(list)@), key@, value@));
}

impl SetupConfig {
    /// What the setup knows to be there.
    pub open spec fn known(&self) -> Known {
        Known {
            sha256: texts(self.existing_sha256@),
            arxiv: texts(self.existing_arxiv@),
            doi: texts(self.existing_doi@),
            arxiv_to_sha256: pairs(self.arxiv_to_sha256@),
            doi_to_sha256: pairs(self.doi_to_sha256@),
        }
    }

    /// Notes one entry: see [`noted_entry`].
    fn import_entry(&mut self, entry: &crate::bibtex::BibEntry)
        ensures
            final(self).known() == noted_entry(old(self).known(), entry@),
            final(self).progress == old(self).progress,
            final(self).download_pdf == old(self).download_pdf,
            final(self).dry_run == old(self).dry_run,
            final(self).working_directory == old(self).working_directory,
            final(self).polite_email == old(self).polite_email,
    {
        let ghost start = self.known();
        let ghost fields = entry@.fields;
        let mut doi: Option<String> = None;
        let mut eprint: Option<String> = None;
        let mut sha256: Option<String> = None;
        let mut i: usize = 0;
        while i < entry.fields.len()
            invariant
                i <= entry.fields.len(),
                fields == entry@.fields,
                self.known() == noted_fields(start, fields, i as nat),
                optional_text(doi) == last_value(fields, "doi"@, i as nat),
                optional_text(eprint) == last_value(fields, "eprint"@, i as nat),
                optional_text(sha256) == last_value(fields, "sha256"@, i as nat),
                self.progress == old(self).progress,
                self.download_pdf == old(self).download_pdf,
                self.dry_run == old(self).dry_run,
                self.working_directory == old(self).working_directory,
                self.polite_email == old(self).polite_email,
            decreases entry.fields.len() - i,
        {
            assert(fields[i as int] == entry.fields@[i as int]@);
            let field = &entry.fields[i];
            let key = to_lowercase(field.name.as_str());
            let value = field.braceless_value();
            proof {
                reveal_strlit("doi");
                reveal_strlit("eprint");
                reveal_strlit("sha256");
                assert("eprint"@[0] != "sha256"@[0]);
            }
            if str_eq(key.as_str(), "doi") {
                note_text(&mut self.existing_doi, &value);
                doi = Some(value);
            } else if str_eq(key.as_str(), "eprint") {
                note_text(&mut self.existing_arxiv, &value);
                eprint = Some(value);
            } else if str_eq(key.as_str(), "sha256") {
                note_text(&mut self.existing_sha256, &value);
                sha256 = Some(value);
            }
            i += 1;
        }
        match (doi, &sha256) {
            (Some(d), Some(s)) => {
                note_pair(&mut self.doi_to_sha256, d, s.clone());
            },
            _ => {},
        }
        match (eprint, sha256) {
            (Some(e), Some(s)) => {
                note_pair(&mut self.arxiv_to_sha256, e, s);
            },
            _ => {},
        }
    }

    /// Notes what a file says is there: the DOIs, eprints and checksums of
    /// its entries, and for each entry with a checksum, the checksum of its
    /// DOI and of its eprint. See [`noted`].
    pub fn import_file(&mut self, file: &BibFile)
        ensures
            final(self).known() == noted(old(self).known(), file@.entries, file@.entries.len()),
            final(self).progress == old(self).progress,
            final(self).download_pdf == old(self).download_pdf,
            final(self).dry_run == old(self).dry_run,
            final(self).working_directory == old(self).working_directory,
            final(self).polite_email == old(self).polite_email,
    {
        let ghost start = self.known();
        let mut i: usize = 0;
        while i < file.entries.len()
            invariant
                i <= file.entries.len(),
                self.known() == noted(start, file@.entries, i as nat),
                self.progress == old(self).progress,
                self.download_pdf == old(self).download_pdf,
                self.dry_run == old(self).dry_run,
                self.working_directory == old(self).working_directory,
                self.polite_email == old(self).polite_email,
            decreases file.entries.len() - i,
        {
            assert(file@.entries[i as int] == file.entries@[i as int]@);
            self.import_entry(&file.entries[i]);
            i += 1;
        }
    }
}

/// The names of what was asked for, each with what was found for it: the
/// DOIs and then the eprints, paired with the answers in their order, as far
/// as both reach.
pub open spec fn paired(
    answers: Seq<Option<Seq<char>>>,
    dois: Seq<Seq<char>>,
    eprints: Seq<Seq<char>>,
) -> Seq<(Seq<char>, Option<Seq<char>>)> {
    let names = dois + eprints;
    Seq::new(
        if answers.len() <= names.len() {
            answers.len()
        } else {
            names.len()
        },
        |i: int| (names[i], answers[i]),
    )
}

/// What a list of answers holds.
pub open spec fn answer_views(answers: Seq<Option<String>>) -> Seq<Option<Seq<char>>> {
    Seq::new(answers.len(), |i: int| optional_text(answers[i]))
}

/// What a list of names with answers holds.
pub open spec fn found_views(list: Seq<(String, Option<String>)>) -> Seq<
    (Seq<char>, Option<Seq<char>>),
> {
    Seq::new(list.len(), |i: int| (list[i].0@, optional_text(list[i].1)))
}

/// The names of what was asked for, each with what was found for it: see
/// [`paired`].
pub fn pair_entries(answers: &Vec<Option<String>>, dois: &Vec<String>, eprints: &Vec<String>) -> (r:
    Vec<(String, Option<String>)>)
    ensures
        found_views(r@) == paired(answer_views(answers@), texts(dois@), texts(eprints@)),
{
    let ghost wanted = paired(answer_views(answers@), texts(dois@), texts(eprints@));
    let mut r: Vec<(String, Option<String>)> = Vec::new();
    let mut i: usize = 0;
    while i < answers.len() && (i < dois.len() || i - dois.len() < eprints.len())
        invariant
            i <= answers.len(),
            i <= dois.len() + eprints.len(),
            wanted == paired(answer_views(answers@), texts(dois@), texts(eprints@)),
            found_views(r@) == wanted.take(i as int),
        decreases answers.len() - i,
    {
        let name = if i < dois.len() {
            dois[i].clone()
        } else {
            eprints[i - dois.len()].clone()
        };
        let answer = match &answers[i] {
            Some(a) => Some(a.clone()),
            None => None,
        };
        let ghost before = found_views(r@);
        r.push((name, answer));
        i += 1;
        assert(found_views(r@) =~= before.push((name@, optional_text(answer))));
        assert(wanted.take(i as int) =~= before.push(wanted[i - 1]));
    }
    assert(wanted.take(wanted.len() as int) == wanted);
    r
}

/// How many of the first `n` answers hold something.
pub open spec fn found_among(answers: Seq<Option<Seq<char>>>, n: nat) -> nat
    decreases n,
{
    if n == 0 || n > answers.len() {
        0
    } else {
        found_among(answers, (n - 1) as nat) + if answers[n - 1] is Some {
            1nat
        } else {
            0nat
        }
    }
}

/// How many of the answers hold something.
pub fn count_found(answers: &Vec<Option<String>>) -> (r: usize)
    ensures
        r == found_among(answer_views(answers@), answers@.len()),
{
    let mut r: usize = 0;
    let mut i: usize = 0;
    while i < answers.len()
        invariant
            i <= answers.len(),
            r <= i,
            r == found_among(answer_views(answers@), i as nat),
        decreases answers.len() - i,
    {
        if answers[i].is_some() {
            r += 1;
        }
        i += 1;
    }
    r
}

/// The identifiers that a bibliography names.
pub struct Wanted {
    pub dois: Seq<Seq<char>>,
    pub eprints: Seq<Seq<char>>,
    pub sha256s: Seq<Seq<char>>,
}

/// The identifiers once one field is gathered: the value, without braces or
/// quotes, of a field `doi`, `eprint` or `sha256` joins those of its kind,
/// and with an eprint that is an arXiv identifier goes the identifier
/// without its version.
pub open spec fn gathered_field(wanted: Wanted, field: FieldView) -> Wanted {
    let value = braceless(field.value);
    if field.name == "doi"@ {
        Wanted { dois: with_text(wanted.dois, value), ..wanted }
    } else if field.name == "eprint"@ {
        let eprints = with_text(wanted.eprints, value);
        Wanted {
            eprints: match arxiv_parsed(value) {
                Some(id) => with_text(eprints, id.id),
                None => eprints,
            },
            ..wanted
        }
    } else if field.name == "sha256"@ {
        Wanted { sha256s: with_text(wanted.sha256s, value), ..wanted }
    } else {
        wanted
    }
}

/// The identifiers once the first `n` fields are gathered.
pub open spec fn gathered_fields(wanted: Wanted, fields: Seq<FieldView>, n: nat) -> Wanted
    decreases n,
{
    if n == 0 || n > fields.len() {
        wanted
    } else {
        gathered_field(gathered_fields(wanted, fields, (n - 1) as nat), fields[n - 1])
    }
}

/// The identifiers once the first `n` entries are gathered.
pub open spec fn gathered(wanted: Wanted, entries: Seq<EntryView>, n: nat) -> Wanted
    decreases n,
{
    if n == 0 || n > entries.len() {
        wanted
    } else {
        gathered_fields(
            gathered(wanted, entries, (n - 1) as nat),
            entries[n - 1].fields,
            entries[n - 1].fields.len(),
        )
    }
}

/// Gathers the identifiers that a file names into the three lists, each
/// identifier once: see [`gathered`].
pub fn gather_identifiers(
    file: &BibFile,
    dois: &mut Vec<String>,
    eprints: &mut Vec<String>,
    sha256s: &mut Vec<String>,
)
    ensures
        (Wanted {
            dois: texts(final(dois)@),
            eprints: texts(final(eprints)@),
            sha256s: texts(final(sha256s)@),
        }) == gathered(
            Wanted {
                dois: texts(old(dois)@),
                eprints: texts(old(eprints)@),
                sha256s: texts(old(sha256s)@),
            },
            file@.entries,
            file@.entries.len(),
        ),
{
    let ghost start = Wanted {
        dois: texts(dois@),
        eprints: texts(eprints@),
        sha256s: texts(sha256s@),
    };
    let mut i: usize = 0;
    while i < file.entries.len()
        invariant
            i <= file.entries.len(),
            (Wanted { dois: texts(dois@), eprints: texts(eprints@), sha256s: texts(sha256s@) })
                == gathered(start, file@.entries, i as nat),
        decreases file.entries.len() - i,
    {
        assert(file@.entries[i as int] == file.entries@[i as int]@);
        let entry = &file.entries[i];
        let ghost before = gathered(start, file@.entries, i as nat);
        let mut k: usize = 0;
        while k < entry.fields.len()
            invariant
                k <= entry.fields.len(),
                (Wanted { dois: texts(dois@), eprints: texts(eprints@), sha256s: texts(sha256s@) })
                    == gathered_fields(before, entry@.fields, k as nat),
            decreases entry.fields.len() - k,
        {
            assert(entry@.fields[k as int] == entry.fields@[k as int]@);
            let field = &entry.fields[k];
            let value = field.braceless_value();
            if str_eq(field.name.as_str(), "doi") {
                note_text(dois, &value);
            } else if str_eq(field.name.as_str(), "eprint") {
                note_text(eprints, &value);
                match parse_arxiv_id(value.as_str()) {
                    Some(id) => {
                        note_text(eprints, &id.id.to_owned());
                    },
                    None => {},
                }
            } else if str_eq(field.name.as_str(), "sha256") {
                note_text(sha256s, &value);
            }
            k += 1;
        }
        i += 1;
    }
}

/// What a record of a stored document holds: the name of the file, the
/// checksum, and the entry.
pub open spec fn document_view(document: Option<PdfResult>) -> Option<
    (Seq<char>, Seq<char>, Seq<char>),
> {
    match document {
        Some(d) => Some((d.filepath@, d.sha256@, d.entry@)),
        None => None,
    }
}

/// What a list of records of stored documents holds.
pub open spec fn document_views(documents: Seq<Option<PdfResult>>) -> Seq<
    Option<(Seq<char>, Seq<char>, Seq<char>)>,
> {
    Seq::new(documents.len(), |i: int| document_view(documents[i]))
}

/// What a list of requests with their documents holds.
pub open spec fn fetched_views(list: Seq<(String, Option<PdfResult>)>) -> Seq<
    (Seq<char>, Option<(Seq<char>, Seq<char>, Seq<char>)>),
> {
    Seq::new(list.len(), |i: int| (list[i].0@, document_view(list[i].1)))
}

/// The requests for documents as they are written, each with what was
/// fetched for it: the requests paired with the documents in their order, as
/// far as both reach.
pub open spec fn paired_documents(
    requests: Seq<RequestView>,
    documents: Seq<Option<(Seq<char>, Seq<char>, Seq<char>)>>,
) -> Seq<(Seq<char>, Option<(Seq<char>, Seq<char>, Seq<char>)>)> {
    Seq::new(
        if requests.len() <= documents.len() {
            requests.len()
        } else {
            documents.len()
        },
        |i: int| (request_written(requests[i]), documents[i]),
    )
}

/// The requests for documents, each with what was fetched for it: see
/// [`paired_documents`]. Where no document was to be fetched, there is none.
pub fn pair_documents(requests: &Vec<DownloadRequest>, documents: &Vec<Option<PdfResult>>) -> (r:
    Vec<(String, Option<PdfResult>)>)
    ensures
        fetched_views(r@) == paired_documents(request_views(requests@), document_views(documents@)),
{
    let ghost wanted = paired_documents(request_views(requests@), document_views(documents@));
    let mut r: Vec<(String, Option<PdfResult>)> = Vec::new();
    let mut i: usize = 0;
    while i < requests.len() && i < documents.len()
        invariant
            i <= requests.len(),
            i <= documents.len(),
            wanted == paired_documents(request_views(requests@), document_views(documents@)),
            fetched_views(r@) == wanted.take(i as int),
        decreases requests.len() - i,
    {
        let name = requests[i].to_string();
        let document = match &documents[i] {
            Some(d) => Some(
                PdfResult {
                    filepath: d.filepath.clone(),
                    sha256: d.sha256.clone(),
                    entry: d.entry.clone(),
                },
            ),
            None => None,
        };
        let ghost before = fetched_views(r@);
        r.push((name, document));
        i += 1;
        assert(fetched_views(r@) =~= before.push((name@, document_view(document))));
        assert(wanted.take(i as int) =~= before.push(wanted[i - 1]));
    }
    assert(wanted.take(wanted.len() as int) == wanted);
    r
}

/// What a setup fetched, put together: the entries with what was found for
/// them, and the requests for the documents that were to be fetched with
/// what was found for them.
pub fn setup_result(
    plan: &DownloadPlan,
    entries: Vec<(String, Option<String>)>,
    documents: &Vec<Option<PdfResult>>,
) -> (r: SetupResult)
    ensures
        r.entries == entries,
        fetched_views(r.pdfs@) == paired_documents(
            request_views(plan.pdf_fetches@),
            document_views(documents@),
        ),
{
    SetupResult { pdfs: pair_documents(&plan.pdf_fetches, documents), entries }
}

/// Without the download of documents nothing is fetched and nothing is
/// found: whatever documents are not there, none is to be fetched, and the
/// result holds no document.
pub proof fn law_no_documents_without_download(
    missing: Seq<RequestView>,
    documents: Seq<Option<(Seq<char>, Seq<char>, Seq<char>)>>,
)
    ensures
        documents_fetched(false, missing).len() == 0,
        paired_documents(documents_fetched(false, missing), documents).len() == 0,
{
}

/// No entry is asked for that is there: every request for an entry by DOI is
/// for one of the given DOIs that is not among the known ones.
pub proof fn law_known_dois_not_requested(
    known: Seq<Seq<char>>,
    dois: Seq<Seq<char>>,
    n: nat,
    m: int,
)
    requires
        0 <= m < doi_wanted(known, dois, n).len(),
    ensures
        doi_wanted(known, dois, n)[m] matches RequestView::Doi(d) && !known.contains(d)
            && dois.contains(d),
    decreases n,
{
    if !(n == 0 || n > dois.len()) {
        let before = doi_wanted(known, dois, (n - 1) as nat);
        if m < before.len() {
            law_known_dois_not_requested(known, dois, (n - 1) as nat, m);
        } else {
            assert(dois.contains(dois[n - 1]));
        }
    }
}

/// No entry is asked for that is there: every request for an entry by eprint
/// is for the arXiv identifier that one of the given eprints holds, and that
/// eprint is not among the known ones.
pub proof fn law_known_eprints_not_requested(
    known: Seq<Seq<char>>,
    eprints: Seq<Seq<char>>,
    n: nat,
    m: int,
)
    requires
        0 <= m < arxiv_wanted(known, eprints, n).len(),
    ensures
        arxiv_wanted(known, eprints, n)[m] matches RequestView::Arxiv(id) && exists|j: int|
            0 <= j < eprints.len() && arxiv_parsed(#[trigger] eprints[j]) == Some(id)
                && !known.contains(eprints[j]),
    decreases n,
{
    if !(n == 0 || n > eprints.len()) {
        let before = arxiv_wanted(known, eprints, (n - 1) as nat);
        if m < before.len() {
            law_known_eprints_not_requested(known, eprints, (n - 1) as nat, m);
        } else {
            let id = arxiv_parsed(eprints[n - 1])->0;
            assert(arxiv_parsed(eprints[n - 1]) == Some(id) && !known.contains(eprints[n - 1]));
        }
    }
}

} // verus!
