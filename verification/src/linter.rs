//! The rules that a BibTeX file is checked against.
//!
//! A field is checked alone: its value must not be empty, a list of authors
//! must be written `Last, First`, a DOI is neither an arXiv identifier nor a
//! link nor revoked, and a value holds no stray characters. An entry is
//! checked for the fields it lacks, for whether anything in it can be looked
//! up, and for field names given twice. A file is checked for what the parser
//! rejected and for entries that share a key or an identifier.
//!
//! Every check is a function from the parsed file to a list of messages, each
//! with the places it is about.

use vstd::prelude::*;
use crate::arxiv_identifiers::{arxiv_parsed, parse_arxiv_id};
use crate::author_format::{authors_valid, check_authors};
use crate::bibtex::{
    braceless, strip_braces, BibEntry, BibFile, EntryView, ErrorView, FieldView, FileView,
    Location,
};
use crate::groups::{duplicate_groups, duplicates, group_views, key_views, lemma_keys_push};
use crate::text::{
    chars_of, contains, contains_text, is_control, is_control_char, lines, matches_at,
    starts_with, str_eq, string_of,
};

verus! {

/// What the linter knows beside the file it checks. Only the revoked DOIs are
/// used by a rule.
pub struct LinterState {
    /// The DOIs of works that were withdrawn.
    pub revoked_dois: Vec<String>,
    /// The latest known version of each arXiv identifier.
    pub arxiv_latest: Vec<(String, usize)>,
    /// For a DOI, the arXiv identifier of the same work.
    pub doi_arxiv: Vec<(String, String)>,
    /// For an arXiv identifier, the DOI of the same work.
    pub arxiv_doi: Vec<(String, String)>,
}

impl Default for LinterState {
    fn default() -> (r: Self)
        ensures
            r.revoked_dois@.len() == 0,
            r.arxiv_latest@.len() == 0,
            r.doi_arxiv@.len() == 0,
            r.arxiv_doi@.len() == 0,
    {
        LinterState {
            revoked_dois: Vec::new(),
            arxiv_latest: Vec::new(),
            doi_arxiv: Vec::new(),
            arxiv_doi: Vec::new(),
        }
    }
}

/// What the linter has to say about a field, an entry or a file.
#[derive(Debug, Clone, PartialEq, Eq)]
pub enum LintMessage {
    SyntaxError(String),
    EmptyKey,
    WeirdCharacters(String),
    AuthorFormat,
    ArxivAsDoi,
    HttpDoi,
    MissingField(String),
    UncheckableEntry,
    MissingOptionalField(String),
    DuplicateFieldName(String),
    DuplicateKey(String),
    DuplicateDoiArxivSha256(String, String, String),
    OutdatedEntry,
    PublishedEquivalent,
    RevokedEntry,
}

/// What a [`LintMessage`] holds.
pub enum MessageView {
    SyntaxError(Seq<char>),
    EmptyKey,
    WeirdCharacters(Seq<char>),
    AuthorFormat,
    ArxivAsDoi,
    HttpDoi,
    MissingField(Seq<char>),
    UncheckableEntry,
    MissingOptionalField(Seq<char>),
    DuplicateFieldName(Seq<char>),
    DuplicateKey(Seq<char>),
    DuplicateDoiArxivSha256(Seq<char>, Seq<char>, Seq<char>),
    OutdatedEntry,
    PublishedEquivalent,
    RevokedEntry,
}

impl View for LintMessage {
    type V = MessageView;

    open spec fn view(&self) -> MessageView {
        match self {
            LintMessage::SyntaxError(s) => MessageView::SyntaxError(s@),
            LintMessage::EmptyKey => MessageView::EmptyKey,
            LintMessage::WeirdCharacters(s) => MessageView::WeirdCharacters(s@),
            LintMessage::AuthorFormat => MessageView::AuthorFormat,
            LintMessage::ArxivAsDoi => MessageView::ArxivAsDoi,
            LintMessage::HttpDoi => MessageView::HttpDoi,
            LintMessage::MissingField(s) => MessageView::MissingField(s@),
            LintMessage::UncheckableEntry => MessageView::UncheckableEntry,
            LintMessage::MissingOptionalField(s) => MessageView::MissingOptionalField(s@),
            LintMessage::DuplicateFieldName(s) => MessageView::DuplicateFieldName(s@),
            LintMessage::DuplicateKey(s) => MessageView::DuplicateKey(s@),
            LintMessage::DuplicateDoiArxivSha256(d, e, s) => MessageView::DuplicateDoiArxivSha256(
                d@,
                e@,
                s@,
            ),
            LintMessage::OutdatedEntry => MessageView::OutdatedEntry,
            LintMessage::PublishedEquivalent => MessageView::PublishedEquivalent,
            LintMessage::RevokedEntry => MessageView::RevokedEntry,
        }
    }
}

/// A message of this kind fails a concise check: syntax errors, empty
/// values, missing required fields, and duplicates of any sort.
pub open spec fn crucial(msg: MessageView) -> bool {
    ||| msg is SyntaxError
    ||| msg is EmptyKey
    ||| msg is MissingField
    ||| msg is DuplicateFieldName
    ||| msg is DuplicateKey
    ||| msg is DuplicateDoiArxivSha256
}

impl LintMessage {
    /// Whether the message fails a concise check.
    pub fn is_crucial(&self) -> (r: bool)
        ensures
            r == crucial(self@),
    {
        match self {
            LintMessage::SyntaxError(_) => true,
            LintMessage::EmptyKey => true,
            LintMessage::WeirdCharacters(_) => false,
            LintMessage::AuthorFormat => false,
            LintMessage::ArxivAsDoi => false,
            LintMessage::HttpDoi => false,
            LintMessage::MissingField(_) => true,
            LintMessage::UncheckableEntry => false,
            LintMessage::MissingOptionalField(_) => false,
            LintMessage::DuplicateFieldName(_) => true,
            LintMessage::DuplicateKey(_) => true,
            LintMessage::DuplicateDoiArxivSha256(_, _, _) => true,
            LintMessage::OutdatedEntry => false,
            LintMessage::PublishedEquivalent => false,
            LintMessage::RevokedEntry => false,
        }
    }
}

/// A message and the places it is about.
#[derive(Debug, Clone, PartialEq, Eq)]
pub struct Lint {
    pub msg: LintMessage,
    pub loc: Vec<Location>,
}

/// What a [`Lint`] holds.
pub struct LintView {
    pub msg: MessageView,
    pub loc: Seq<Location>,
}

impl View for Lint {
    type V = LintView;

    open spec fn view(&self) -> LintView {
        LintView { msg: self.msg@, loc: self.loc@ }
    }
}

/// What a list of lints holds.
pub open spec fn lint_views(lints: Seq<Lint>) -> Seq<LintView> {
    Seq::new(lints.len(), |i: int| lints[i]@)
}

/// A message about one place.
pub open spec fn lint_at(msg: MessageView, loc: Location) -> LintView {
    LintView { msg, loc: seq![loc] }
}

/// `doi` is one of the revoked DOIs.
pub open spec fn revoked(dois: Seq<String>, doi: Seq<char>) -> bool {
    exists|i: int| 0 <= i < dois.len() && (#[trigger] dois[i])@ == doi
}

/// `c` does not belong in a value: a backslash, or a control character other
/// than a line feed.
pub open spec fn weird(c: char) -> bool {
    c != '\n' && (is_control_char(c) || c == '\\')
}

/// `value` holds a character that does not belong in a value.
pub open spec fn has_weird(value: Seq<char>) -> bool {
    exists|i: int| 0 <= i < value.len() && weird(#[trigger] value[i])
}

/// The field is one whose value is an address of some kind, in which any
/// character may stand.
pub open spec fn is_address(key: Seq<char>) -> bool {
    key == "doi"@ || key == "eprint"@ || key == "url"@
}

/// The message about a field with the given name and value, if any. The rules
/// are tried in this order and the first that applies gives the message: an
/// empty value; authors that are not well written; a DOI that holds `arXiv`;
/// a DOI that starts with `http`; a revoked DOI; a character that does not
/// belong in a value, except in a DOI, an eprint or a URL.
pub open spec fn field_lint(dois: Seq<String>, key: Seq<char>, value: Seq<char>) -> Option<
    MessageView,
> {
    if value.len() == 0 {
        Some(MessageView::EmptyKey)
    } else if key == "author"@ && !authors_valid(value) {
        Some(MessageView::AuthorFormat)
    } else if key == "doi"@ && contains_text(value, "arXiv"@) {
        Some(MessageView::ArxivAsDoi)
    } else if key == "doi"@ && starts_with(value, "http"@) {
        Some(MessageView::HttpDoi)
    } else if key == "doi"@ && revoked(dois, value) {
        Some(MessageView::RevokedEntry)
    } else if !is_address(key) && has_weird(value) {
        Some(MessageView::WeirdCharacters(value))
    } else {
        None
    }
}

/// What an optional message holds.
pub open spec fn message_view(msg: Option<LintMessage>) -> Option<MessageView> {
    match msg {
        Some(m) => Some(m@),
        None => None,
    }
}

/// Some field has the given name.
pub open spec fn has_field(fields: Seq<FieldView>, name: Seq<char>) -> bool {
    exists|i: int| 0 <= i < fields.len() && (#[trigger] fields[i]).name == name
}

/// The message `msg` about the place `loc` if no field has the given name,
/// and nothing otherwise.
pub open spec fn missing(fields: Seq<FieldView>, name: Seq<char>, msg: MessageView, loc: Location)
    -> Seq<LintView> {
    if has_field(fields, name) {
        Seq::empty()
    } else {
        seq![lint_at(msg, loc)]
    }
}

/// The entry has a field by which the work can be looked up.
pub open spec fn checkable(fields: Seq<FieldView>) -> bool {
    ||| has_field(fields, "url"@)
    ||| has_field(fields, "doi"@)
    ||| has_field(fields, "isbn"@)
    ||| has_field(fields, "issn"@)
    ||| has_field(fields, "eprint"@)
    ||| has_field(fields, "pmid"@)
}

/// The message about an entry that cannot be looked up.
pub open spec fn uncheckable(entry: EntryView) -> Seq<LintView> {
    if checkable(entry.fields) {
        Seq::empty()
    } else {
        seq![lint_at(MessageView::UncheckableEntry, entry.loc)]
    }
}

/// The names of the fields, each as a key of one string.
pub open spec fn name_keys(fields: Seq<FieldView>) -> Seq<Seq<Seq<char>>> {
    Seq::new(fields.len(), |i: int| seq![fields[i].name])
}

/// The places of the fields.
pub open spec fn field_locs(fields: Seq<FieldView>) -> Seq<Location> {
    Seq::new(fields.len(), |i: int| fields[i].loc)
}

/// One message for each field name that the entry gives more than once, with
/// the places of all the fields of that name, in the order in which the names
/// first occur.
pub open spec fn duplicate_field_lints(fields: Seq<FieldView>) -> Seq<LintView> {
    let groups = duplicates(name_keys(fields), field_locs(fields), fields.len());
    Seq::new(
        groups.len(),
        |m: int|
            LintView {
                msg: MessageView::DuplicateFieldName(fields[groups[m].0].name),
                loc: groups[m].1,
            },
    )
}

/// The messages about the first `n` fields taken one by one, in their order.
pub open spec fn field_lints(dois: Seq<String>, fields: Seq<FieldView>, n: nat) -> Seq<LintView>
    decreases n,
{
    if n == 0 || n > fields.len() {
        Seq::empty()
    } else {
        let before = field_lints(dois, fields, (n - 1) as nat);
        let field = fields[n - 1];
        match field_lint(dois, field.name, braceless(field.value)) {
            Some(msg) => before.push(lint_at(msg, field.loc)),
            None => before,
        }
    }
}

/// The messages about one entry: a required field (author, title, year) that
/// is missing; the optional field sha256 that is missing; nothing to look the
/// work up by; field names given twice; and the messages about each field,
/// whose value is taken without the braces or quotes around it. They come in
/// this order.
pub open spec fn entry_lints(dois: Seq<String>, entry: EntryView) -> Seq<LintView> {
    missing(entry.fields, "author"@, MessageView::MissingField("author"@), entry.loc) + missing(
        entry.fields,
        "title"@,
        MessageView::MissingField("title"@),
        entry.loc,
    ) + missing(entry.fields, "year"@, MessageView::MissingField("year"@), entry.loc) + missing(
        entry.fields,
        "sha256"@,
        MessageView::MissingOptionalField("sha256"@),
        entry.loc,
    ) + uncheckable(entry) + duplicate_field_lints(entry.fields) + field_lints(
        dois,
        entry.fields,
        entry.fields.len(),
    )
}

/// The value, without braces or quotes, of the last of the first `n` fields
/// that has the given name; empty if there is none.
pub open spec fn value_of(fields: Seq<FieldView>, name: Seq<char>, n: nat) -> Seq<char>
    decreases n,
{
    if n == 0 || n > fields.len() {
        Seq::empty()
    } else if fields[n - 1].name == name {
        braceless(fields[n - 1].value)
    } else {
        value_of(fields, name, (n - 1) as nat)
    }
}

/// The identifiers of an entry: its DOI, its eprint and its sha256, each
/// empty where the entry has no such field.
pub open spec fn identifiers(entry: EntryView) -> Seq<Seq<char>> {
    seq![
        value_of(entry.fields, "doi"@, entry.fields.len()),
        value_of(entry.fields, "eprint"@, entry.fields.len()),
        value_of(entry.fields, "sha256"@, entry.fields.len()),
    ]
}

/// One message for each invalid span, with its text, in the order of the
/// file.
pub open spec fn syntax_lints(errors: Seq<ErrorView>) -> Seq<LintView> {
    Seq::new(
        errors.len(),
        |i: int| lint_at(MessageView::SyntaxError(errors[i].text), errors[i].loc),
    )
}

/// The messages about the first `n` entries taken one by one, in their order.
pub open spec fn entries_lints(dois: Seq<String>, entries: Seq<EntryView>, n: nat) -> Seq<LintView>
    decreases n,
{
    if n == 0 || n > entries.len() {
        Seq::empty()
    } else {
        entries_lints(dois, entries, (n - 1) as nat) + entry_lints(dois, entries[n - 1])
    }
}

/// The keys of the entries, each as a key of one string.
pub open spec fn entry_keys(entries: Seq<EntryView>) -> Seq<Seq<Seq<char>>> {
    Seq::new(entries.len(), |i: int| seq![entries[i].key])
}

/// The identifiers of the entries.
pub open spec fn entry_identifiers(entries: Seq<EntryView>) -> Seq<Seq<Seq<char>>> {
    Seq::new(entries.len(), |i: int| identifiers(entries[i]))
}

/// The places of the entries.
pub open spec fn entry_locs(entries: Seq<EntryView>) -> Seq<Location> {
    Seq::new(entries.len(), |i: int| entries[i].loc)
}

/// One message for each key that more than one entry has, with the places of
/// all the entries of that key, in the order in which the keys first occur.
pub open spec fn duplicate_key_lints(entries: Seq<EntryView>) -> Seq<LintView> {
    let groups = duplicates(entry_keys(entries), entry_locs(entries), entries.len());
    Seq::new(
        groups.len(),
        |m: int|
            LintView { msg: MessageView::DuplicateKey(entries[groups[m].0].key), loc: groups[m].1 },
    )
}

/// The three identifiers are all empty.
pub open spec fn no_identifier(id: Seq<Seq<char>>) -> bool {
    id[0].len() == 0 && id[1].len() == 0 && id[2].len() == 0
}

/// Of the first `n` groups of entries with the same identifiers, one message
/// for each whose identifiers are not all empty, with the places of all its
/// entries.
pub open spec fn identifier_lints(
    entries: Seq<EntryView>,
    groups: Seq<(int, Seq<Location>)>,
    n: nat,
) -> Seq<LintView>
    decreases n,
{
    if n == 0 || n > groups.len() {
        Seq::empty()
    } else {
        let before = identifier_lints(entries, groups, (n - 1) as nat);
        let id = identifiers(entries[groups[n - 1].0]);
        if no_identifier(id) {
            before
        } else {
            before.push(
                LintView {
                    msg: MessageView::DuplicateDoiArxivSha256(id[0], id[1], id[2]),
                    loc: groups[n - 1].1,
                },
            )
        }
    }
}

/// One message for each triple of DOI, eprint and sha256, not all empty, that
/// more than one entry has, with the places of all those entries, in the
/// order in which the triples first occur.
pub open spec fn duplicate_identifier_lints(entries: Seq<EntryView>) -> Seq<LintView> {
    let groups = duplicates(entry_identifiers(entries), entry_locs(entries), entries.len());
    identifier_lints(entries, groups, groups.len())
}

/// The messages about a file: the invalid spans; then the messages about each
/// entry; then the keys that several entries share; then the identifiers that
/// several entries share.
pub open spec fn file_lints(dois: Seq<String>, file: FileView) -> Seq<LintView> {
    syntax_lints(file.errors) + entries_lints(dois, file.entries, file.entries.len())
        + duplicate_key_lints(file.entries) + duplicate_identifier_lints(file.entries)
}

/// A list of lints that got one more holds what it held and the new one.
pub proof fn lemma_lints_push(lints: Seq<Lint>, lint: Lint)
    ensures
        lint_views(lints.push(lint)) == lint_views(lints).push(lint@),
{
    assert(lint_views(lints.push(lint)) =~= lint_views(lints).push(lint@));
}

/// Whether some field of the entry has the given name.
fn entry_has(entry: &BibEntry, name: &str) -> (r: bool)
    ensures
        r == has_field(entry@.fields, name@),
{
    let mut i: usize = 0;
    while i < entry.fields.len()
        invariant
            i <= entry.fields.len(),
            forall|j: int| 0 <= j < i ==> (#[trigger] entry@.fields[j]).name != name@,
        decreases entry.fields.len() - i,
    {
        assert(entry@.fields[i as int] == entry.fields@[i as int]@);
        if str_eq(entry.fields[i].name.as_str(), name) {
            return true;
        }
        i += 1;
    }
    false
}

/// A copy of a list of places.
fn copy_locs(locs: &Vec<Location>) -> (r: Vec<Location>)
    ensures
        r@ == locs@,
{
    let mut r: Vec<Location> = Vec::new();
    let mut k: usize = 0;
    while k < locs.len()
        invariant
            k <= locs.len(),
            r@ == locs@.take(k as int),
        decreases locs.len() - k,
    {
        r.push(locs[k]);
        k += 1;
        assert(r@ =~= locs@.take(k as int));
    }
    assert(locs@.take(locs.len() as int) == locs@);
    r
}

/// A lint about one place.
fn lint_about(msg: LintMessage, loc: Location) -> (r: Lint)
    ensures
        r@ == lint_at(msg@, loc),
{
    let mut at: Vec<Location> = Vec::new();
    at.push(loc);
    assert(at@ =~= seq![loc]);
    Lint { msg, loc: at }
}

/// Whether `value` holds a character that does not belong in a value.
fn holds_weird(value: &Vec<char>) -> (r: bool)
    ensures
        r == has_weird(value@),
{
    let mut i: usize = 0;
    while i < value.len()
        invariant
            i <= value.len(),
            forall|j: int| 0 <= j < i ==> !weird(#[trigger] value@[j]),
        decreases value.len() - i,
    {
        let c = value[i];
        if c != '\n' && (is_control(c) || c == '\\') {
            return true;
        }
        i += 1;
    }
    false
}

/// The value, without braces or quotes, of the last field of the entry that
/// has the given name; empty if there is none.
fn entry_value(entry: &BibEntry, name: &str) -> (r: Vec<char>)
    ensures
        r@ == value_of(entry@.fields, name@, entry@.fields.len()),
{
    let mut n: usize = entry.fields.len();
    while n > 0
        invariant
            n <= entry.fields.len(),
            value_of(entry@.fields, name@, entry@.fields.len()) == value_of(
                entry@.fields,
                name@,
                n as nat,
            ),
        decreases n,
    {
        assert(entry@.fields[n - 1] == entry.fields@[n - 1]@);
        if str_eq(entry.fields[n - 1].name.as_str(), name) {
            let value = chars_of(entry.fields[n - 1].value.as_str());
            return strip_braces(&value);
        }
        n -= 1;
    }
    Vec::new()
}

/// What a list of versions holds.
pub open spec fn version_views(list: Seq<(String, usize)>) -> Seq<(Seq<char>, usize)> {
    Seq::new(list.len(), |i: int| (list[i].0@, list[i].1))
}

/// The list of latest versions once a version of an identifier is noted: the
/// first record of the identifier holds the greater of the two versions, or,
/// if there is no record of it, a new one at the end holds the version.
pub open spec fn with_version(list: Seq<(Seq<char>, usize)>, id: Seq<char>, version: usize) -> Seq<
    (Seq<char>, usize),
> {
    if exists|i: int| 0 <= i < list.len() && (#[trigger] list[i]).0 == id {
        let at = choose|i: int|
            0 <= i < list.len() && (#[trigger] list[i]).0 == id && forall|j: int|
                0 <= j < i ==> (#[trigger] list[j]).0 != id;
        list.update(
            at,
            (
                id,
                if list[at].1 >= version {
                    list[at].1
                } else {
                    version
                },
            ),
        )
    } else {
        list.push((id, version))
    }
}

/// The list of latest versions once one field is read: an `eprint` whose
/// value, without braces or quotes, is an arXiv identifier with a version
/// has that version noted.
pub open spec fn versions_with_field(list: Seq<(Seq<char>, usize)>, field: FieldView) -> Seq<
    (Seq<char>, usize),
> {
    if field.name == "eprint"@ {
        match arxiv_parsed(braceless(field.value)) {
            Some(id) => match id.version {
                Some(version) => with_version(list, id.id, version),
                None => list,
            },
            None => list,
        }
    } else {
        list
    }
}

/// The list of latest versions once the first `n` fields are read.
pub open spec fn versions_with_fields(
    list: Seq<(Seq<char>, usize)>,
    fields: Seq<FieldView>,
    n: nat,
) -> Seq<(Seq<char>, usize)>
    decreases n,
{
    if n == 0 || n > fields.len() {
        list
    } else {
        versions_with_field(versions_with_fields(list, fields, (n - 1) as nat), fields[n - 1])
    }
}

/// The list of latest versions once the first `n` entries are read.
pub open spec fn versions_with_entries(
    list: Seq<(Seq<char>, usize)>,
    entries: Seq<EntryView>,
    n: nat,
) -> Seq<(Seq<char>, usize)>
    decreases n,
{
    if n == 0 || n > entries.len() {
        list
    } else {
        versions_with_fields(
            versions_with_entries(list, entries, (n - 1) as nat),
            entries[n - 1].fields,
            entries[n - 1].fields.len(),
        )
    }
}

impl LinterState {
    /// Notes the versions of the arXiv identifiers that a file names in its
    /// `eprint` fields: see [`versions_with_entries`].
    pub fn note_eprints(&mut self, file: &BibFile)
        ensures
            version_views(final(self).arxiv_latest@) == versions_with_entries(
                version_views(old(self).arxiv_latest@),
                file@.entries,
                file@.entries.len(),
            ),
            final(self).revoked_dois == old(self).revoked_dois,
            final(self).doi_arxiv == old(self).doi_arxiv,
            final(self).arxiv_doi == old(self).arxiv_doi,
    {
        let ghost start = version_views(self.arxiv_latest@);
        let mut i: usize = 0;
        while i < file.entries.len()
            invariant
                i <= file.entries.len(),
                version_views(self.arxiv_latest@) == versions_with_entries(
                    start,
                    file@.entries,
                    i as nat,
                ),
                self.revoked_dois == old(self).revoked_dois,
                self.doi_arxiv == old(self).doi_arxiv,
                self.arxiv_doi == old(self).arxiv_doi,
            decreases file.entries.len() - i,
        {
            assert(file@.entries[i as int] == file.entries@[i as int]@);
            let entry = &file.entries[i];
            let ghost before = version_views(self.arxiv_latest@);
            let mut k: usize = 0;
            while k < entry.fields.len()
                invariant
                    k <= entry.fields.len(),
                    version_views(self.arxiv_latest@) == versions_with_fields(
                        before,
                        entry@.fields,
                        k as nat,
                    ),
                    self.revoked_dois == old(self).revoked_dois,
                    self.doi_arxiv == old(self).doi_arxiv,
                    self.arxiv_doi == old(self).arxiv_doi,
                decreases entry.fields.len() - k,
            {
                assert(entry@.fields[k as int] == entry.fields@[k as int]@);
                let field = &entry.fields[k];
                if str_eq(field.name.as_str(), "eprint") {
                    let value = field.braceless_value();
                    match parse_arxiv_id(value.as_str()) {
                        Some(id) => match id.version {
                            Some(version) => {
                                self.note_version(id.id, version);
                            },
                            None => {},
                        },
                        None => {},
                    }
                }
                k += 1;
            }
            i += 1;
        }
    }

    /// Notes a version of an arXiv identifier: see [`with_version`].
    pub fn note_version(&mut self, id: &str, version: usize)
        ensures
            version_views(final(self).arxiv_latest@) == with_version(
                version_views(old(self).arxiv_latest@),
                id@,
                version,
            ),
            final(self).revoked_dois == old(self).revoked_dois,
            final(self).doi_arxiv == old(self).doi_arxiv,
            final(self).arxiv_doi == old(self).arxiv_doi,
    {
        let ghost before = version_views(self.arxiv_latest@);
        let mut i: usize = 0;
        while i < self.arxiv_latest.len()
            invariant
                i <= self.arxiv_latest.len(),
                before == version_views(self.arxiv_latest@),
                *self == *old(self),
                forall|j: int| 0 <= j < i ==> (#[trigger] before[j]).0 != id@,
            decreases self.arxiv_latest.len() - i,
        {
            assert(before[i as int] == (self.arxiv_latest@[i as int].0@, self.arxiv_latest@[i as int].1));
            if str_eq(self.arxiv_latest[i].0.as_str(), id) {
                let known = self.arxiv_latest[i].1;
                let latest = if known >= version {
                    known
                } else {
                    version
                };
                self.arxiv_latest.set(i, (id.to_owned(), latest));
                proof {
                    let chosen = choose|k: int|
                        0 <= k < before.len() && (#[trigger] before[k]).0 == id@ && forall|j: int|
                            0 <= j < k ==> (#[trigger] before[j]).0 != id@;
                    assert(chosen == i);
                    assert(version_views(self.arxiv_latest@) =~= before.update(
                        i as int,
                        (id@, latest),
                    ));
                }
                return ;
            }
            i += 1;
        }
        self.arxiv_latest.push((id.to_owned(), version));
        assert(version_views(self.arxiv_latest@) =~= before.push((id@, version)));
    }

    /// A state that knows nothing.
    pub fn new() -> (r: Self)
        ensures
            r.revoked_dois@.len() == 0,
            r.arxiv_latest@.len() == 0,
            r.doi_arxiv@.len() == 0,
            r.arxiv_doi@.len() == 0,
    {
        LinterState {
            revoked_dois: Vec::new(),
            arxiv_latest: Vec::new(),
            doi_arxiv: Vec::new(),
            arxiv_doi: Vec::new(),
        }
    }

    /// Whether `doi` is one of the revoked DOIs.
    fn is_revoked(&self, doi: &str) -> (r: bool)
        ensures
            r == revoked(self.revoked_dois@, doi@),
    {
        let mut i: usize = 0;
        while i < self.revoked_dois.len()
            invariant
                i <= self.revoked_dois.len(),
                forall|j: int| 0 <= j < i ==> (#[trigger] self.revoked_dois@[j])@ != doi@,
            decreases self.revoked_dois.len() - i,
        {
            if str_eq(self.revoked_dois[i].as_str(), doi) {
                return true;
            }
            i += 1;
        }
        false
    }

    /// The message about a field with the given name and value, if any: the
    /// first of the rules of [`field_lint`] that applies.
    pub fn lint_field(&self, key: &str, value: &str) -> (r: Option<LintMessage>)
        ensures
            message_view(r) == field_lint(self.revoked_dois@, key@, value@),
    {
        let text = chars_of(value);
        if text.len() == 0 {
            return Some(LintMessage::EmptyKey);
        }
        let is_doi = str_eq(key, "doi");
        if str_eq(key, "author") && !check_authors(value) {
            return Some(LintMessage::AuthorFormat);
        }
        if is_doi && contains(&text, &chars_of("arXiv")) {
            return Some(LintMessage::ArxivAsDoi);
        }
        if is_doi && matches_at(&text, &chars_of("http"), 0) {
            return Some(LintMessage::HttpDoi);
        }
        if is_doi && self.is_revoked(value) {
            return Some(LintMessage::RevokedEntry);
        }
        if !is_doi && !str_eq(key, "eprint") && !str_eq(key, "url") && holds_weird(&text) {
            return Some(LintMessage::WeirdCharacters(string_of(&text)));
        }
        None
    }

    /// Appends the message about a missing field, if the entry lacks it.
    fn lint_missing(&self, entry: &BibEntry, name: &str, required: bool, out: &mut Vec<Lint>)
        ensures
            lint_views(final(out)@) == lint_views(old(out)@) + missing(
                entry@.fields,
                name@,
                if required {
                    MessageView::MissingField(name@)
                } else {
                    MessageView::MissingOptionalField(name@)
                },
                entry.loc,
            ),
    {
        if !entry_has(entry, name) {
            let msg = if required {
                LintMessage::MissingField(name.to_owned())
            } else {
                LintMessage::MissingOptionalField(name.to_owned())
            };
            let lint = lint_about(msg, entry.loc);
            proof {
                lemma_lints_push(out@, lint);
            }
            out.push(lint);
            assert(lint_views(out@) =~= lint_views(old(out)@) + seq![lint@]);
        } else {
            assert(lint_views(out@) =~= lint_views(old(out)@) + Seq::<LintView>::empty());
        }
    }

    /// Appends the message about an entry that cannot be looked up, if so.
    fn lint_uncheckable(&self, entry: &BibEntry, out: &mut Vec<Lint>)
        ensures
            lint_views(final(out)@) == lint_views(old(out)@) + uncheckable(entry@),
    {
        if !entry_has(entry, "url") && !entry_has(entry, "doi") && !entry_has(entry, "isbn")
            && !entry_has(entry, "issn") && !entry_has(entry, "eprint") && !entry_has(
            entry,
            "pmid",
        ) {
            let lint = lint_about(LintMessage::UncheckableEntry, entry.loc);
            proof {
                lemma_lints_push(out@, lint);
            }
            out.push(lint);
            assert(lint_views(out@) =~= lint_views(old(out)@) + seq![lint@]);
        } else {
            assert(lint_views(out@) =~= lint_views(old(out)@) + Seq::<LintView>::empty());
        }
    }

    /// Appends the messages about the field names that the entry gives twice.
    fn lint_duplicate_fields(&self, entry: &BibEntry, out: &mut Vec<Lint>)
        ensures
            lint_views(final(out)@) == lint_views(old(out)@) + duplicate_field_lints(
                entry@.fields,
            ),
    {
        let ghost fields = entry@.fields;
        let mut keys: Vec<Vec<Vec<char>>> = Vec::new();
        let mut locs: Vec<Location> = Vec::new();
        let mut i: usize = 0;
        while i < entry.fields.len()
            invariant
                i <= entry.fields.len(),
                fields == entry@.fields,
                key_views(keys@) == name_keys(fields).take(i as int),
                locs@ == field_locs(fields).take(i as int),
            decreases entry.fields.len() - i,
        {
            assert(fields[i as int] == entry.fields@[i as int]@);
            let mut key: Vec<Vec<char>> = Vec::new();
            key.push(chars_of(entry.fields[i].name.as_str()));
            assert(lines(key@) =~= seq![fields[i as int].name]);
            proof {
                lemma_keys_push(keys@, key);
            }
            keys.push(key);
            locs.push(entry.fields[i].loc);
            i += 1;
            assert(key_views(keys@) =~= name_keys(fields).take(i as int));
            assert(locs@ =~= field_locs(fields).take(i as int));
        }
        assert(name_keys(fields).take(fields.len() as int) == name_keys(fields));
        assert(field_locs(fields).take(fields.len() as int) == field_locs(fields));
        let groups = duplicate_groups(&keys, &locs);
        let ghost wanted = duplicate_field_lints(fields);
        assert(group_views(groups@).len() == groups@.len());
        let mut m: usize = 0;
        while m < groups.len()
            invariant
                m <= groups.len(),
                fields == entry@.fields,
                wanted == duplicate_field_lints(fields),
                group_views(groups@) == duplicates(
                    name_keys(fields),
                    field_locs(fields),
                    fields.len(),
                ),
                groups@.len() == wanted.len(),
                forall|g: int|
                    0 <= g < groups@.len() ==> 0 <= (#[trigger] groups@[g]).0
                        < entry.fields@.len(),
                lint_views(out@) == lint_views(old(out)@) + wanted.take(m as int),
            decreases groups.len() - m,
        {
            let first = groups[m].0;
            assert(group_views(groups@)[m as int] == (first as int, groups@[m as int].1@));
            assert(fields[first as int] == entry.fields@[first as int]@);
            let name = entry.fields[first].name.clone();
            let at = copy_locs(&groups[m].1);
            let lint = Lint { msg: LintMessage::DuplicateFieldName(name), loc: at };
            proof {
                lemma_lints_push(out@, lint);
                assert(lint@ == wanted[m as int]);
                assert(wanted.take(m + 1) =~= wanted.take(m as int).push(wanted[m as int]));
            }
            out.push(lint);
            m += 1;
            assert(lint_views(out@) =~= lint_views(old(out)@) + wanted.take(m as int));
        }
        assert(wanted.take(wanted.len() as int) == wanted);
    }

    /// Appends the messages about the fields of the entry, one by one.
    fn lint_fields(&self, entry: &BibEntry, out: &mut Vec<Lint>)
        ensures
            lint_views(final(out)@) == lint_views(old(out)@) + field_lints(
                self.revoked_dois@,
                entry@.fields,
                entry@.fields.len(),
            ),
    {
        let ghost fields = entry@.fields;
        let ghost dois = self.revoked_dois@;
        assert(lint_views(out@) =~= lint_views(old(out)@) + field_lints(dois, fields, 0));
        let mut i: usize = 0;
        while i < entry.fields.len()
            invariant
                i <= entry.fields.len(),
                fields == entry@.fields,
                dois == self.revoked_dois@,
                lint_views(out@) == lint_views(old(out)@) + field_lints(dois, fields, i as nat),
            decreases entry.fields.len() - i,
        {
            assert(fields[i as int] == entry.fields@[i as int]@);
            let field = &entry.fields[i];
            let value = field.braceless_value();
            match self.lint_field(field.name.as_str(), value.as_str()) {
                Some(msg) => {
                    let lint = lint_about(msg, field.loc);
                    proof {
                        lemma_lints_push(out@, lint);
                    }
                    out.push(lint);
                },
                None => {},
            }
            i += 1;
            assert(lint_views(out@) =~= lint_views(old(out)@) + field_lints(dois, fields, i as nat));
        }
    }

    /// Appends the messages about one entry.
    fn lint_entry_into(&self, entry: &BibEntry, out: &mut Vec<Lint>)
        ensures
            lint_views(final(out)@) == lint_views(old(out)@) + entry_lints(
                self.revoked_dois@,
                entry@,
            ),
    {
        self.lint_missing(entry, "author", true, out);
        self.lint_missing(entry, "title", true, out);
        self.lint_missing(entry, "year", true, out);
        self.lint_missing(entry, "sha256", false, out);
        self.lint_uncheckable(entry, out);
        self.lint_duplicate_fields(entry, out);
        self.lint_fields(entry, out);
        proof {
            let e = entry@;
            let a = missing(e.fields, "author"@, MessageView::MissingField("author"@), e.loc);
            let b = missing(e.fields, "title"@, MessageView::MissingField("title"@), e.loc);
            let c = missing(e.fields, "year"@, MessageView::MissingField("year"@), e.loc);
            let d = missing(
                e.fields,
                "sha256"@,
                MessageView::MissingOptionalField("sha256"@),
                e.loc,
            );
            let f = uncheckable(e);
            let g = duplicate_field_lints(e.fields);
            let h = field_lints(self.revoked_dois@, e.fields, e.fields.len());
            let start = lint_views(old(out)@);
            assert(((((((start + a) + b) + c) + d) + f) + g) + h =~= start + ((((((a + b) + c) + d)
                + f) + g) + h));
        }
    }

    /// The messages about one entry, whatever else the file holds: the
    /// required fields that are missing, the optional field that is missing,
    /// nothing to look the work up by, the field names given twice, and the
    /// messages about each field.
    pub fn lint_entry(&self, entry: &BibEntry) -> (r: Vec<Lint>)
        ensures
            lint_views(r@) == entry_lints(self.revoked_dois@, entry@),
    {
        let mut out: Vec<Lint> = Vec::new();
        self.lint_entry_into(entry, &mut out);
        assert(lint_views(out@) =~= entry_lints(self.revoked_dois@, entry@));
        out
    }

    /// Appends one message for each group of entries, made by `message` from
    /// the first entry of the group.
    fn lint_duplicate_keys(&self, file: &BibFile, out: &mut Vec<Lint>)
        ensures
            lint_views(final(out)@) == lint_views(old(out)@) + duplicate_key_lints(file@.entries),
    {
        let ghost entries = file@.entries;
        let mut keys: Vec<Vec<Vec<char>>> = Vec::new();
        let mut locs: Vec<Location> = Vec::new();
        let mut i: usize = 0;
        while i < file.entries.len()
            invariant
                i <= file.entries.len(),
                entries == file@.entries,
                key_views(keys@) == entry_keys(entries).take(i as int),
                locs@ == entry_locs(entries).take(i as int),
            decreases file.entries.len() - i,
        {
            assert(entries[i as int] == file.entries@[i as int]@);
            let mut key: Vec<Vec<char>> = Vec::new();
            key.push(chars_of(file.entries[i].key.as_str()));
            assert(lines(key@) =~= seq![entries[i as int].key]);
            proof {
                lemma_keys_push(keys@, key);
            }
            keys.push(key);
            locs.push(file.entries[i].loc);
            i += 1;
            assert(key_views(keys@) =~= entry_keys(entries).take(i as int));
            assert(locs@ =~= entry_locs(entries).take(i as int));
        }
        assert(entry_keys(entries).take(entries.len() as int) == entry_keys(entries));
        assert(entry_locs(entries).take(entries.len() as int) == entry_locs(entries));
        let groups = duplicate_groups(&keys, &locs);
        let ghost wanted = duplicate_key_lints(entries);
        assert(group_views(groups@).len() == groups@.len());
        let mut m: usize = 0;
        while m < groups.len()
            invariant
                m <= groups.len(),
                entries == file@.entries,
                wanted == duplicate_key_lints(entries),
                group_views(groups@) == duplicates(
                    entry_keys(entries),
                    entry_locs(entries),
                    entries.len(),
                ),
                groups@.len() == wanted.len(),
                forall|g: int|
                    0 <= g < groups@.len() ==> 0 <= (#[trigger] groups@[g]).0
                        < file.entries@.len(),
                lint_views(out@) == lint_views(old(out)@) + wanted.take(m as int),
            decreases groups.len() - m,
        {
            let first = groups[m].0;
            assert(group_views(groups@)[m as int] == (first as int, groups@[m as int].1@));
            assert(entries[first as int] == file.entries@[first as int]@);
            let key = file.entries[first].key.clone();
            let at = copy_locs(&groups[m].1);
            let lint = Lint { msg: LintMessage::DuplicateKey(key), loc: at };
            proof {
                lemma_lints_push(out@, lint);
                assert(lint@ == wanted[m as int]);
                assert(wanted.take(m + 1) =~= wanted.take(m as int).push(wanted[m as int]));
            }
            out.push(lint);
            m += 1;
            assert(lint_views(out@) =~= lint_views(old(out)@) + wanted.take(m as int));
        }
        assert(wanted.take(wanted.len() as int) == wanted);
    }

    /// Appends one message for each triple of identifiers, not all empty, that
    /// several entries share.
    fn lint_duplicate_identifiers(&self, file: &BibFile, out: &mut Vec<Lint>)
        ensures
            lint_views(final(out)@) == lint_views(old(out)@) + duplicate_identifier_lints(
                file@.entries,
            ),
    {
        let ghost entries = file@.entries;
        let mut keys: Vec<Vec<Vec<char>>> = Vec::new();
        let mut locs: Vec<Location> = Vec::new();
        let mut i: usize = 0;
        while i < file.entries.len()
            invariant
                i <= file.entries.len(),
                entries == file@.entries,
                keys@.len() == i,
                forall|j: int| 0 <= j < i ==> (#[trigger] keys@[j])@.len() == 3,
                key_views(keys@) == entry_identifiers(entries).take(i as int),
                locs@ == entry_locs(entries).take(i as int),
            decreases file.entries.len() - i,
        {
            assert(entries[i as int] == file.entries@[i as int]@);
            let entry = &file.entries[i];
            let mut key: Vec<Vec<char>> = Vec::new();
            key.push(entry_value(entry, "doi"));
            key.push(entry_value(entry, "eprint"));
            key.push(entry_value(entry, "sha256"));
            assert(lines(key@) =~= identifiers(entries[i as int]));
            proof {
                lemma_keys_push(keys@, key);
            }
            keys.push(key);
            locs.push(entry.loc);
            i += 1;
            assert(key_views(keys@) =~= entry_identifiers(entries).take(i as int));
            assert(locs@ =~= entry_locs(entries).take(i as int));
        }
        assert(entry_identifiers(entries).take(entries.len() as int) == entry_identifiers(entries));
        assert(entry_locs(entries).take(entries.len() as int) == entry_locs(entries));
        let groups = duplicate_groups(&keys, &locs);
        let ghost gv = group_views(groups@);
        assert(gv.len() == groups@.len());
        assert(lint_views(out@) =~= lint_views(old(out)@) + identifier_lints(entries, gv, 0));
        let mut m: usize = 0;
        while m < groups.len()
            invariant
                m <= groups.len(),
                entries == file@.entries,
                gv == group_views(groups@),
                gv == duplicates(entry_identifiers(entries), entry_locs(entries), entries.len()),
                keys@.len() == file.entries@.len(),
                forall|j: int| 0 <= j < keys@.len() ==> (#[trigger] keys@[j])@.len() == 3,
                key_views(keys@) == entry_identifiers(entries),
                forall|g: int|
                    0 <= g < groups@.len() ==> 0 <= (#[trigger] groups@[g]).0
                        < file.entries@.len(),
                lint_views(out@) == lint_views(old(out)@) + identifier_lints(
                    entries,
                    gv,
                    m as nat,
                ),
            decreases groups.len() - m,
        {
            let first = groups[m].0;
            assert(gv[m as int] == (first as int, groups@[m as int].1@));
            assert(key_views(keys@)[first as int] == lines(keys@[first as int]@));
            let key = &keys[first];
            assert(lines(key@)[0] == key@[0]@);
            assert(lines(key@)[1] == key@[1]@);
            assert(lines(key@)[2] == key@[2]@);
            if !(key[0].len() == 0 && key[1].len() == 0 && key[2].len() == 0) {
                let at = copy_locs(&groups[m].1);
                let lint = Lint {
                    msg: LintMessage::DuplicateDoiArxivSha256(
                        string_of(&key[0]),
                        string_of(&key[1]),
                        string_of(&key[2]),
                    ),
                    loc: at,
                };
                proof {
                    lemma_lints_push(out@, lint);
                }
                out.push(lint);
            }
            m += 1;
            assert(lint_views(out@) =~= lint_views(old(out)@) + identifier_lints(
                entries,
                gv,
                m as nat,
            ));
        }
    }

    /// The messages about a file: one for each span that is not valid BibTeX,
    /// with its text; the messages about each entry; one for each key that
    /// several entries share; and one for each triple of DOI, eprint and
    /// sha256, not all empty, that several entries share. Each message about
    /// several entries names the places of all of them.
    pub fn lint_file(&self, file: &BibFile) -> (r: Vec<Lint>)
        ensures
            lint_views(r@) == file_lints(self.revoked_dois@, file@),
    {
        let ghost dois = self.revoked_dois@;
        let ghost view = file@;
        let mut out: Vec<Lint> = Vec::new();
        let mut i: usize = 0;
        while i < file.errors.len()
            invariant
                i <= file.errors.len(),
                view == file@,
                lint_views(out@) == syntax_lints(view.errors).take(i as int),
            decreases file.errors.len() - i,
        {
            assert(view.errors[i as int] == file.errors@[i as int]@);
            let lint = lint_about(
                LintMessage::SyntaxError(file.errors[i].text.clone()),
                file.errors[i].loc,
            );
            proof {
                lemma_lints_push(out@, lint);
            }
            out.push(lint);
            i += 1;
            assert(lint_views(out@) =~= syntax_lints(view.errors).take(i as int));
        }
        assert(syntax_lints(view.errors).take(view.errors.len() as int) == syntax_lints(
            view.errors,
        ));
        assert(lint_views(out@) =~= syntax_lints(view.errors) + entries_lints(
            dois,
            view.entries,
            0,
        ));
        let mut j: usize = 0;
        while j < file.entries.len()
            invariant
                j <= file.entries.len(),
                view == file@,
                dois == self.revoked_dois@,
                lint_views(out@) == syntax_lints(view.errors) + entries_lints(
                    dois,
                    view.entries,
                    j as nat,
                ),
            decreases file.entries.len() - j,
        {
            assert(view.entries[j as int] == file.entries@[j as int]@);
            self.lint_entry_into(&file.entries[j], &mut out);
            j += 1;
            assert(lint_views(out@) =~= syntax_lints(view.errors) + entries_lints(
                dois,
                view.entries,
                j as nat,
            ));
        }
        self.lint_duplicate_keys(file, &mut out);
        self.lint_duplicate_identifiers(file, &mut out);
        out
    }
}

} // verus!
