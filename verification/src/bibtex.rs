//! The parsed form of a BibTeX file: entries of fields, each with the place
//! in the source text that it came from, and the spans that the parser could
//! not make sense of.

use vstd::prelude::*;
use vstd::utf8::{decode_utf8, encode_utf8, is_char_boundary};
use vstd::string::StringSliceAdditionalSpecFns;
use crate::syntax_tree::{nodes_of, parse_bibtex, parsed_nodes, tree_len, tree_node};
use crate::text::{chars_of, slice_of, str_eq, string_of};

verus! {

/// A place in the source text: a range of bytes, and the row and column at
/// which it starts (both counted from zero).
#[derive(Clone, Copy, Debug, PartialEq, Eq, Hash, Structural)]
pub struct Location {
    pub start_byte: usize,
    pub end_byte: usize,
    pub row: usize,
    pub column: usize,
}

/// One field of an entry: its name, its value as written (with the braces or
/// quotes around it), and where the field stands.
#[derive(Clone, Debug, PartialEq, Eq)]
pub struct BibField {
    pub name: String,
    pub value: String,
    pub loc: Location,
}

/// What a [`BibField`] holds.
pub struct FieldView {
    pub name: Seq<char>,
    pub value: Seq<char>,
    pub loc: Location,
}

impl View for BibField {
    type V = FieldView;

    open spec fn view(&self) -> FieldView {
        FieldView { name: self.name@, value: self.value@, loc: self.loc }
    }
}

/// One entry: its citation key, its type, its fields in the order of the
/// source, and where the entry stands.
#[derive(Clone, Debug, PartialEq, Eq)]
pub struct BibEntry {
    pub key: String,
    pub entrytype: String,
    pub fields: Vec<BibField>,
    pub loc: Location,
}

/// What a [`BibEntry`] holds.
pub struct EntryView {
    pub key: Seq<char>,
    pub entrytype: Seq<char>,
    pub fields: Seq<FieldView>,
    pub loc: Location,
}

/// What a list of fields holds.
pub open spec fn field_views(fields: Seq<BibField>) -> Seq<FieldView> {
    Seq::new(fields.len(), |i: int| fields[i]@)
}

impl View for BibEntry {
    type V = EntryView;

    open spec fn view(&self) -> EntryView {
        EntryView {
            key: self.key@,
            entrytype: self.entrytype@,
            fields: field_views(self.fields@),
            loc: self.loc,
        }
    }
}

/// A span of the source that is not valid BibTeX: its text and where it
/// stands.
#[derive(Clone, Debug, PartialEq, Eq)]
pub struct BibError {
    pub text: String,
    pub loc: Location,
}

/// What a [`BibError`] holds.
pub struct ErrorView {
    pub text: Seq<char>,
    pub loc: Location,
}

impl View for BibError {
    type V = ErrorView;

    open spec fn view(&self) -> ErrorView {
        ErrorView { text: self.text@, loc: self.loc }
    }
}

/// What a list of entries holds.
pub open spec fn entry_views(entries: Seq<BibEntry>) -> Seq<EntryView> {
    Seq::new(entries.len(), |i: int| entries[i]@)
}

/// What a list of invalid spans holds.
pub open spec fn error_views(errors: Seq<BibError>) -> Seq<ErrorView> {
    Seq::new(errors.len(), |i: int| errors[i]@)
}

/// One piece of a file at the top level: an entry, given by its index among
/// the entries of the file, or anything else, given by its text.
#[derive(Clone, Debug, PartialEq, Eq)]
pub enum Block {
    Entry(usize),
    Other(String),
}

/// What a [`Block`] holds.
pub enum BlockView {
    Entry(int),
    Other(Seq<char>),
}

impl View for Block {
    type V = BlockView;

    open spec fn view(&self) -> BlockView {
        match self {
            Block::Entry(i) => BlockView::Entry(*i as int),
            Block::Other(text) => BlockView::Other(text@),
        }
    }
}

/// What a list of blocks holds.
pub open spec fn block_views(blocks: Seq<Block>) -> Seq<BlockView> {
    Seq::new(blocks.len(), |i: int| blocks[i]@)
}

/// A parsed file: the source text, its entries in the order of the source,
/// the spans that are not valid BibTeX, and its pieces at the top level in the
/// order of the source.
#[derive(Clone, Debug, PartialEq, Eq)]
pub struct BibFile {
    pub content: String,
    pub entries: Vec<BibEntry>,
    pub errors: Vec<BibError>,
    pub blocks: Vec<Block>,
}

/// What a [`BibFile`] holds.
pub struct FileView {
    pub content: Seq<char>,
    pub entries: Seq<EntryView>,
    pub errors: Seq<ErrorView>,
    pub blocks: Seq<BlockView>,
}

impl View for BibFile {
    type V = FileView;

    open spec fn view(&self) -> FileView {
        FileView {
            content: self.content@,
            entries: entry_views(self.entries@),
            errors: error_views(self.errors@),
            blocks: block_views(self.blocks@),
        }
    }
}

/// `c` and `d` are the two delimiters of a value: braces or double quotes.
pub open spec fn delimiters(c: char, d: char) -> bool {
    (c == '{' && d == '}') || (c == '"' && d == '"')
}

/// A value without the pair of braces or double quotes around it; a value
/// that has no such pair is left as it is.
pub open spec fn braceless(value: Seq<char>) -> Seq<char> {
    if value.len() >= 2 && delimiters(value[0], value.last()) {
        value.subrange(1, value.len() - 1)
    } else {
        value
    }
}

/// A value without the pair of braces or double quotes around it.
pub fn strip_braces(value: &Vec<char>) -> (r: Vec<char>)
    ensures
        r@ == braceless(value@),
{
    let n = value.len();
    if n >= 2 && ((value[0] == '{' && value[n - 1] == '}') || (value[0] == '"' && value[n - 1]
        == '"')) {
        slice_of(value, 1, n - 1)
    } else {
        let r = slice_of(value, 0, n);
        assert(value@.subrange(0, n as int) == value@);
        r
    }
}

impl BibField {
    /// The value of the field without the braces or quotes around it.
    pub fn braceless_value(&self) -> (r: String)
        ensures
            r@ == braceless(self.value@),
    {
        let value = chars_of(self.value.as_str());
        let inner = strip_braces(&value);
        string_of(&inner)
    }
}

/// The text that stands in `content` between two bytes, if the two bytes
/// bound a piece of text: they are in order, within the text, and neither
/// falls inside a character.
pub open spec fn span_text(content: Seq<char>, start: int, end: int) -> Option<Seq<char>> {
    let bytes = encode_utf8(content);
    if 0 <= start <= end <= bytes.len() && is_char_boundary(bytes, end) && is_char_boundary(
        bytes.subrange(0, end),
        start,
    ) {
        Some(decode_utf8(bytes.subrange(start, end)))
    } else {
        None
    }
}

/// The text that stands in `content` between two bytes: see [`span_text`].
pub fn text_between<'a>(content: &'a str, start: usize, end: usize) -> (r: Option<&'a str>)
    ensures
        match r {
            Some(text) => span_text(content@, start as int, end as int) == Some(text@),
            None => span_text(content@, start as int, end as int) is None,
        },
{
    broadcast use vstd::utf8::encode_utf8_decode_utf8;

    let total = content.as_bytes().len();
    if start > end || end > total {
        return None;
    }
    if !content.is_char_boundary(end) {
        return None;
    }
    let (head, _) = content.split_at(end);
    if !head.is_char_boundary(start) {
        return None;
    }
    let (_, piece) = head.split_at(start);
    proof {
        let bytes = encode_utf8(content@);
        assert(head.spec_bytes() == bytes.subrange(0, end as int));
        assert(piece.spec_bytes() =~= bytes.subrange(start as int, end as int));
        assert(decode_utf8(encode_utf8(piece@)) == piece@);
    }
    Some(piece)
}

/// A node of a syntax tree, as a plain value: its kind as the grammar names
/// it, its place, and its depth below the root of the tree.
#[derive(Clone, Debug, PartialEq, Eq)]
pub struct SyntaxNode {
    pub kind: String,
    pub loc: Location,
    pub depth: usize,
}

/// What a [`SyntaxNode`] holds.
pub struct NodeView {
    pub kind: Seq<char>,
    pub loc: Location,
    pub depth: usize,
}

impl View for SyntaxNode {
    type V = NodeView;

    open spec fn view(&self) -> NodeView {
        NodeView { kind: self.kind@, loc: self.loc, depth: self.depth }
    }
}

/// What a list of nodes holds.
pub open spec fn node_views(nodes: Seq<SyntaxNode>) -> Seq<NodeView> {
    Seq::new(nodes.len(), |i: int| nodes[i]@)
}

/// The text of a node, if the node bounds a piece of text.
pub open spec fn node_text(content: Seq<char>, node: NodeView) -> Option<Seq<char>> {
    span_text(content, node.loc.start_byte as int, node.loc.end_byte as int)
}

/// The text of a node, empty where the node bounds no piece of text.
pub open spec fn node_text_or_empty(content: Seq<char>, node: NodeView) -> Seq<char> {
    match node_text(content, node) {
        Some(text) => text,
        None => Seq::empty(),
    }
}

/// Where the nodes below node `i` end, searched from `k` on: at the first
/// node that is not deeper than node `i`, or at the end of the list. The
/// nodes stand in the order of the text, each before what stands below it.
pub open spec fn subtree_end(nodes: Seq<NodeView>, i: int, k: int) -> int
    decreases nodes.len() - k,
{
    if 0 <= i < k < nodes.len() && nodes[k].depth > nodes[i].depth {
        subtree_end(nodes, i, k + 1)
    } else {
        k
    }
}

/// Node `j` is a child of node `i`: it stands below it, one deeper.
pub open spec fn is_child(nodes: Seq<NodeView>, i: int, j: int) -> bool {
    0 <= i < j < subtree_end(nodes, i, i + 1) && j < nodes.len() && nodes[j].depth == nodes[i].depth
        + 1
}

/// The last child of node `i`, among the nodes before `n`, that is of the
/// given kind.
pub open spec fn last_child(nodes: Seq<NodeView>, i: int, kind: Seq<char>, n: int) -> Option<int>
    decreases n,
{
    if n <= 0 {
        None
    } else if is_child(nodes, i, n - 1) && nodes[n - 1].kind == kind {
        Some(n - 1)
    } else {
        last_child(nodes, i, kind, n - 1)
    }
}

/// The field that node `f`, of the kind `field`, stands for: its name is the
/// text of its last child `identifier`, its value the text of its last child
/// `value`, and its place that of the node. A node that lacks either gives no
/// field.
pub open spec fn field_of(content: Seq<char>, nodes: Seq<NodeView>, f: int) -> Option<FieldView> {
    let end = nodes.len() as int;
    match (last_child(nodes, f, "identifier"@, end), last_child(nodes, f, "value"@, end)) {
        (Some(name), Some(value)) => match (
            node_text(content, nodes[name]),
            node_text(content, nodes[value]),
        ) {
            (Some(n), Some(v)) => Some(FieldView { name: n, value: v, loc: nodes[f].loc }),
            _ => None,
        },
        _ => None,
    }
}

/// The fields that the children of node `e` before `n` stand for, in order.
pub open spec fn fields_of(content: Seq<char>, nodes: Seq<NodeView>, e: int, n: int) -> Seq<
    FieldView,
>
    decreases n,
{
    if n <= 0 {
        Seq::empty()
    } else {
        let before = fields_of(content, nodes, e, n - 1);
        if is_child(nodes, e, n - 1) && nodes[n - 1].kind == "field"@ {
            match field_of(content, nodes, n - 1) {
                Some(field) => before.push(field),
                None => before,
            }
        } else {
            before
        }
    }
}

/// The entry that node `e`, of the kind `entry`, stands for: its key is the
/// text of its last child `key_brace`, its type the text of its last child
/// `entry_type`, its fields those of its children, and its place that of the
/// node. A node that lacks a key or a type gives no entry.
pub open spec fn entry_of(content: Seq<char>, nodes: Seq<NodeView>, e: int) -> Option<EntryView> {
    let end = nodes.len() as int;
    match (last_child(nodes, e, "key_brace"@, end), last_child(nodes, e, "entry_type"@, end)) {
        (Some(key), Some(entrytype)) => match (
            node_text(content, nodes[key]),
            node_text(content, nodes[entrytype]),
        ) {
            (Some(k), Some(t)) => Some(
                EntryView {
                    key: k,
                    entrytype: t,
                    fields: fields_of(content, nodes, e, end),
                    loc: nodes[e].loc,
                },
            ),
            _ => None,
        },
        _ => None,
    }
}

/// Node `j` stands for an entry: it is a child of the root, of the kind
/// `entry`, with a key and a type.
pub open spec fn is_entry(content: Seq<char>, nodes: Seq<NodeView>, j: int) -> bool {
    is_child(nodes, 0, j) && nodes[j].kind == "entry"@ && entry_of(content, nodes, j) is Some
}

/// The entries that the children of the root before `n` stand for, in order.
pub open spec fn entries_of(content: Seq<char>, nodes: Seq<NodeView>, n: int) -> Seq<EntryView>
    decreases n,
{
    if n <= 0 {
        Seq::empty()
    } else {
        let before = entries_of(content, nodes, n - 1);
        if is_entry(content, nodes, n - 1) {
            before.push(entry_of(content, nodes, n - 1)->0)
        } else {
            before
        }
    }
}

/// The pieces that the children of the root before `n` stand for, in order:
/// a child that stands for an entry gives the index of that entry, and any
/// other child gives its text.
pub open spec fn blocks_of(content: Seq<char>, nodes: Seq<NodeView>, n: int) -> Seq<BlockView>
    decreases n,
{
    if n <= 0 {
        Seq::empty()
    } else {
        let before = blocks_of(content, nodes, n - 1);
        if is_entry(content, nodes, n - 1) {
            before.push(BlockView::Entry(entries_of(content, nodes, n - 1).len() as int))
        } else if is_child(nodes, 0, n - 1) {
            before.push(BlockView::Other(node_text_or_empty(content, nodes[n - 1])))
        } else {
            before
        }
    }
}

/// The invalid spans among the nodes before `n`: the nodes of the kind
/// `ERROR`, the root among them if it is one, in the order of the text.
pub open spec fn errors_of(content: Seq<char>, nodes: Seq<NodeView>, n: int) -> Seq<ErrorView>
    decreases n,
{
    if n <= 0 || n > nodes.len() {
        Seq::empty()
    } else {
        let before = errors_of(content, nodes, n - 1);
        if nodes[n - 1].kind == "ERROR"@ {
            before.push(
                ErrorView { text: node_text_or_empty(content, nodes[n - 1]), loc: nodes[n - 1].loc },
            )
        } else {
            before
        }
    }
}

/// The file that the nodes of a syntax tree stand for: the entries among the
/// children of the root, the invalid spans anywhere in the tree, and the
/// children of the root as pieces.
pub open spec fn file_of(content: Seq<char>, nodes: Seq<NodeView>) -> FileView {
    FileView {
        content,
        entries: entries_of(content, nodes, nodes.len() as int),
        errors: errors_of(content, nodes, nodes.len() as int),
        blocks: blocks_of(content, nodes, nodes.len() as int),
    }
}

/// The nodes of a tree as the parser gives them, each made of its kind, the
/// bytes at which it starts and before which it ends, the row and the column
/// at which it starts, and its depth below the root.
pub open spec fn as_nodes(nodes: Seq<(Seq<char>, usize, usize, usize, usize, usize)>) -> Seq<
    NodeView,
> {
    Seq::new(
        nodes.len(),
        |i: int|
            NodeView {
                kind: nodes[i].0,
                loc: Location {
                    start_byte: nodes[i].1,
                    end_byte: nodes[i].2,
                    row: nodes[i].3,
                    column: nodes[i].4,
                },
                depth: nodes[i].5,
            },
    )
}

/// The file that a text holds, read as BibTeX: what the nodes of the syntax
/// tree that the parser makes of the text stand for (see [`file_of`]), and a
/// file without entries, invalid spans and pieces where the parser makes no
/// tree.
pub open spec fn parsed_file(content: Seq<char>) -> FileView {
    match parsed_nodes(content) {
        Some(nodes) => file_of(content, as_nodes(nodes)),
        None => FileView {
            content,
            entries: Seq::empty(),
            errors: Seq::empty(),
            blocks: Seq::empty(),
        },
    }
}

/// Looking for a child behind the end of the nodes below a node finds what
/// looking up to that end finds.
pub proof fn lemma_last_child_within(
    nodes: Seq<NodeView>,
    i: int,
    kind: Seq<char>,
    end: int,
    n: int,
)
    requires
        end >= subtree_end(nodes, i, i + 1),
        n >= end,
    ensures
        last_child(nodes, i, kind, n) == last_child(nodes, i, kind, end),
    decreases n - end,
{
    if n > end {
        lemma_last_child_within(nodes, i, kind, end, n - 1);
    }
}

/// Gathering fields behind the end of the nodes below a node adds nothing.
pub proof fn lemma_fields_within(
    content: Seq<char>,
    nodes: Seq<NodeView>,
    e: int,
    end: int,
    n: int,
)
    requires
        end >= subtree_end(nodes, e, e + 1),
        n >= end,
    ensures
        fields_of(content, nodes, e, n) == fields_of(content, nodes, e, end),
    decreases n - end,
{
    if n > end {
        lemma_fields_within(content, nodes, e, end, n - 1);
    }
}

/// Where the nodes below node `i` end.
fn end_of_subtree(nodes: &Vec<SyntaxNode>, i: usize) -> (r: usize)
    requires
        i < nodes.len(),
    ensures
        r == subtree_end(node_views(nodes@), i as int, i + 1),
        i < r <= nodes.len(),
{
    let ghost views = node_views(nodes@);
    let mut k: usize = i + 1;
    while k < nodes.len() && nodes[k].depth > nodes[i].depth
        invariant
            i < k <= nodes.len(),
            views == node_views(nodes@),
            subtree_end(views, i as int, i + 1) == subtree_end(views, i as int, k as int),
        decreases nodes.len() - k,
    {
        k += 1;
    }
    k
}

/// The last child of node `i` that is of the given kind.
fn find_child(nodes: &Vec<SyntaxNode>, i: usize, kind: &str) -> (r: Option<usize>)
    requires
        i < nodes.len(),
    ensures
        match r {
            Some(j) => last_child(node_views(nodes@), i as int, kind@, nodes@.len() as int) == Some(
                j as int,
            ) && j < nodes.len(),
            None => last_child(node_views(nodes@), i as int, kind@, nodes@.len() as int) is None,
        },
{
    let ghost views = node_views(nodes@);
    let end = end_of_subtree(nodes, i);
    proof {
        lemma_last_child_within(views, i as int, kind@, end as int, nodes@.len() as int);
    }
    let mut n: usize = end;
    while n > i + 1
        invariant
            i < n <= end <= nodes.len(),
            views == node_views(nodes@),
            end == subtree_end(views, i as int, i + 1),
            last_child(views, i as int, kind@, nodes@.len() as int) == last_child(
                views,
                i as int,
                kind@,
                n as int,
            ),
        decreases n,
    {
        assert(views[n - 1] == nodes@[n - 1]@ && views[i as int] == nodes@[i as int]@);
        if nodes[n - 1].depth == nodes[i].depth + 1 && str_eq(nodes[n - 1].kind.as_str(), kind) {
            assert(is_child(views, i as int, n - 1));
            return Some(n - 1);
        }
        n -= 1;
    }
    proof {
        lemma_no_last_child(views, i as int, kind@, n as int);
    }
    None
}

/// No node up to a node itself is a child of it.
pub proof fn lemma_no_last_child(nodes: Seq<NodeView>, i: int, kind: Seq<char>, n: int)
    requires
        n <= i + 1,
    ensures
        last_child(nodes, i, kind, n) is None,
    decreases n,
{
    if n > 0 {
        lemma_no_last_child(nodes, i, kind, n - 1);
    }
}

/// No node up to a node itself gives a field of it.
pub proof fn lemma_no_fields(content: Seq<char>, nodes: Seq<NodeView>, e: int, n: int)
    requires
        n <= e + 1,
    ensures
        fields_of(content, nodes, e, n).len() == 0,
    decreases n,
{
    if n > 0 {
        lemma_no_fields(content, nodes, e, n - 1);
    }
}

/// The text of a node, as a string of its own.
fn text_of(content: &str, node: &SyntaxNode) -> (r: Option<String>)
    ensures
        match r {
            Some(text) => node_text(content@, node@) == Some(text@),
            None => node_text(content@, node@) is None,
        },
{
    match text_between(content, node.loc.start_byte, node.loc.end_byte) {
        Some(text) => Some(text.to_owned()),
        None => None,
    }
}

/// What an optional field holds.
pub open spec fn optional_field(field: Option<BibField>) -> Option<FieldView> {
    match field {
        Some(f) => Some(f@),
        None => None,
    }
}

/// What an optional entry holds.
pub open spec fn optional_entry(entry: Option<BibEntry>) -> Option<EntryView> {
    match entry {
        Some(e) => Some(e@),
        None => None,
    }
}

/// The field that node `f` stands for: see [`field_of`].
pub fn read_field(content: &str, nodes: &Vec<SyntaxNode>, f: usize) -> (r: Option<BibField>)
    requires
        f < nodes.len(),
    ensures
        optional_field(r) == field_of(content@, node_views(nodes@), f as int),
{
    let name = find_child(nodes, f, "identifier");
    let value = find_child(nodes, f, "value");
    match (name, value) {
        (Some(name), Some(value)) => {
            match (text_of(content, &nodes[name]), text_of(content, &nodes[value])) {
                (Some(n), Some(v)) => Some(BibField { name: n, value: v, loc: nodes[f].loc }),
                _ => None,
            }
        },
        _ => None,
    }
}

/// The entry that node `e` stands for: see [`entry_of`].
pub fn read_entry(content: &str, nodes: &Vec<SyntaxNode>, e: usize) -> (r: Option<BibEntry>)
    requires
        e < nodes.len(),
    ensures
        optional_entry(r) == entry_of(content@, node_views(nodes@), e as int),
{
    let ghost views = node_views(nodes@);
    let key = find_child(nodes, e, "key_brace");
    let entrytype = find_child(nodes, e, "entry_type");
    match (key, entrytype) {
        (Some(key), Some(entrytype)) => {
            match (text_of(content, &nodes[key]), text_of(content, &nodes[entrytype])) {
                (Some(k), Some(t)) => {
                    let end = end_of_subtree(nodes, e);
                    let mut fields: Vec<BibField> = Vec::new();
                    proof {
                        lemma_no_fields(content@, views, e as int, e + 1);
                        assert(field_views(fields@) =~= fields_of(content@, views, e as int, e + 1));
                    }
                    let mut i: usize = e + 1;
                    while i < end
                        invariant
                            e < i <= end <= nodes.len(),
                            views == node_views(nodes@),
                            end == subtree_end(views, e as int, e + 1),
                            field_views(fields@) == fields_of(content@, views, e as int, i as int),
                        decreases end - i,
                    {
                        let ghost before = field_views(fields@);
                        if nodes[i].depth == nodes[e].depth + 1 && str_eq(
                            nodes[i].kind.as_str(),
                            "field",
                        ) {
                            match read_field(content, nodes, i) {
                                Some(field) => {
                                    fields.push(field);
                                    assert(field_views(fields@) =~= before.push(field@));
                                },
                                None => {},
                            }
                        }
                        i += 1;
                    }
                    proof {
                        lemma_fields_within(
                            content@,
                            views,
                            e as int,
                            end as int,
                            nodes@.len() as int,
                        );
                    }
                    Some(BibEntry { key: k, entrytype: t, fields, loc: nodes[e].loc })
                },
                _ => None,
            }
        },
        _ => None,
    }
}

impl BibFile {
    /// The file that the nodes of a syntax tree of `content` stand for: see
    /// [`file_of`]. The nodes are those of the tree, the root first and the
    /// others in the order of the text, each with its depth below the root.
    pub fn from_nodes(content: &str, nodes: &Vec<SyntaxNode>) -> (r: Self)
        ensures
            r@ == file_of(content@, node_views(nodes@)),
    {
        let ghost views = node_views(nodes@);
        let mut entries: Vec<BibEntry> = Vec::new();
        let mut blocks: Vec<Block> = Vec::new();
        let mut errors: Vec<BibError> = Vec::new();
        assert(entry_views(entries@) =~= entries_of(content@, views, 0));
        assert(block_views(blocks@) =~= blocks_of(content@, views, 0));
        assert(error_views(errors@) =~= errors_of(content@, views, 0));
        if nodes.len() == 0 {
            return BibFile { content: content.to_owned(), entries, errors, blocks };
        }
        let end = end_of_subtree(nodes, 0);
        assert(entries_of(content@, views, 1) =~= entries_of(content@, views, 0));
        assert(blocks_of(content@, views, 1) =~= blocks_of(content@, views, 0));
        let mut i: usize = 1;
        while i < nodes.len()
            invariant
                1 <= i <= nodes.len(),
                views == node_views(nodes@),
                end == subtree_end(views, 0, 1),
                entry_views(entries@) == entries_of(content@, views, i as int),
                block_views(blocks@) == blocks_of(content@, views, i as int),
            decreases nodes.len() - i,
        {
            let ghost before = entry_views(entries@);
            let ghost pieces = block_views(blocks@);
            assert(entries@.len() == before.len());
            if i < end && nodes[i].depth == nodes[0].depth + 1 {
                let entry = if str_eq(nodes[i].kind.as_str(), "entry") {
                    read_entry(content, nodes, i)
                } else {
                    None
                };
                match entry {
                    Some(entry) => {
                        let block = Block::Entry(entries.len());
                        entries.push(entry);
                        blocks.push(block);
                        assert(entry_views(entries@) =~= before.push(entry@));
                        assert(block_views(blocks@) =~= pieces.push(block@));
                    },
                    None => {
                        let text = match text_of(content, &nodes[i]) {
                            Some(text) => text,
                            None => String::new(),
                        };
                        let block = Block::Other(text);
                        blocks.push(block);
                        assert(block_views(blocks@) =~= pieces.push(block@));
                    },
                }
            }
            i += 1;
        }
        let mut j: usize = 0;
        while j < nodes.len()
            invariant
                j <= nodes.len(),
                views == node_views(nodes@),
                error_views(errors@) == errors_of(content@, views, j as int),
            decreases nodes.len() - j,
        {
            let ghost before = error_views(errors@);
            assert(views[j as int] == nodes@[j as int]@);
            if str_eq(nodes[j].kind.as_str(), "ERROR") {
                let text = match text_of(content, &nodes[j]) {
                    Some(text) => text,
                    None => String::new(),
                };
                let error = BibError { text, loc: nodes[j].loc };
                errors.push(error);
                assert(error_views(errors@) =~= before.push(error@));
            }
            j += 1;
        }
        BibFile { content: content.to_owned(), entries, errors, blocks }
    }

    /// A file without entries, invalid spans and pieces.
    pub fn blank(content: &str) -> (r: Self)
        ensures
            r@.content == content@,
            r@.entries.len() == 0,
            r@.errors.len() == 0,
            r@.blocks.len() == 0,
    {
        BibFile {
            content: content.to_owned(),
            entries: Vec::new(),
            errors: Vec::new(),
            blocks: Vec::new(),
        }
    }

    /// Parses `content` as BibTeX: see [`parsed_file`]. The result is what
    /// [`BibFile::from_nodes`] makes of the nodes of the syntax tree that the
    /// parser gives; where the parser gives no tree, the file is blank.
    pub fn new(content: &str) -> (r: Self)
        ensures
            r@ == parsed_file(content@),
    {
        match parse_bibtex(content) {
            Some(tree) => {
                let ghost all = as_nodes(nodes_of(tree));
                let count = tree_len(&tree);
                let mut nodes: Vec<SyntaxNode> = Vec::new();
                let mut i: usize = 0;
                while i < count
                    invariant
                        i <= count,
                        count == nodes_of(tree).len(),
                        all == as_nodes(nodes_of(tree)),
                        node_views(nodes@) == all.take(i as int),
                    decreases count - i,
                {
                    let ghost before = node_views(nodes@);
                    let node = tree_node(&tree, i);
                    assert(node@ == all[i as int]);
                    nodes.push(node);
                    i += 1;
                    assert(node_views(nodes@) =~= before.push(node@));
                    assert(all.take(i as int) =~= before.push(all[i - 1]));
                }
                assert(all.take(count as int) == all);
                BibFile::from_nodes(content, &nodes)
            },
            None => {
                let r = BibFile::blank(content);
                assert(r@.entries =~= Seq::empty() && r@.errors =~= Seq::empty() && r@.blocks
                    =~= Seq::empty());
                r
            },
        }
    }
}

impl BibField {
    /// A copy of the field.
    pub fn copy(&self) -> (r: Self)
        ensures
            r@ == self@,
    {
        BibField { name: self.name.clone(), value: self.value.clone(), loc: self.loc }
    }
}

/// A copy of a list of fields.
pub fn copy_fields(fields: &Vec<BibField>) -> (r: Vec<BibField>)
    ensures
        field_views(r@) == field_views(fields@),
{
    let mut r: Vec<BibField> = Vec::new();
    let mut i: usize = 0;
    while i < fields.len()
        invariant
            i <= fields.len(),
            field_views(r@) == field_views(fields@).take(i as int),
        decreases fields.len() - i,
    {
        let ghost before = field_views(r@);
        let one = fields[i].copy();
        r.push(one);
        i += 1;
        assert(field_views(r@) =~= before.push(one@));
        assert(field_views(fields@).take(i as int) =~= before.push(fields@[i - 1]@));
    }
    assert(field_views(fields@).take(fields.len() as int) == field_views(fields@));
    r
}

impl BibEntry {
    /// A copy of the entry.
    pub fn copy(&self) -> (r: Self)
        ensures
            r@ == self@,
    {
        BibEntry {
            key: self.key.clone(),
            entrytype: self.entrytype.clone(),
            fields: copy_fields(&self.fields),
            loc: self.loc,
        }
    }
}

/// The fields of the first `n` entries, in order.
pub open spec fn all_fields(entries: Seq<EntryView>, n: nat) -> Seq<FieldView>
    decreases n,
{
    if n == 0 || n > entries.len() {
        Seq::empty()
    } else {
        all_fields(entries, (n - 1) as nat) + entries[n - 1].fields
    }
}

impl BibFile {
    /// The text of the file at a place, if the place bounds a piece of text:
    /// see [`span_text`].
    pub fn get_slice(&self, loc: &Location) -> (r: Option<&str>)
        ensures
            match r {
                Some(text) => span_text(
                    self@.content,
                    loc.start_byte as int,
                    loc.end_byte as int,
                ) == Some(text@),
                None => span_text(self@.content, loc.start_byte as int, loc.end_byte as int)
                    is None,
            },
    {
        text_between(self.content.as_str(), loc.start_byte, loc.end_byte)
    }

    /// The entries of the file, in the order of the text.
    pub fn list_entries(&self) -> (r: Vec<BibEntry>)
        ensures
            entry_views(r@) == self@.entries,
    {
        let mut r: Vec<BibEntry> = Vec::new();
        let mut i: usize = 0;
        while i < self.entries.len()
            invariant
                i <= self.entries.len(),
                entry_views(r@) == self@.entries.take(i as int),
            decreases self.entries.len() - i,
        {
            let ghost before = entry_views(r@);
            let one = self.entries[i].copy();
            r.push(one);
            i += 1;
            assert(entry_views(r@) =~= before.push(one@));
            assert(self@.entries.take(i as int) =~= before.push(self.entries@[i - 1]@));
        }
        assert(self@.entries.take(self.entries.len() as int) == self@.entries);
        r
    }

    /// The fields of the entries of the file, in the order of the text.
    pub fn list_fields(&self) -> (r: Vec<BibField>)
        ensures
            field_views(r@) == all_fields(self@.entries, self@.entries.len()),
    {
        let mut r: Vec<BibField> = Vec::new();
        assert(field_views(r@) =~= all_fields(self@.entries, 0));
        let mut i: usize = 0;
        while i < self.entries.len()
            invariant
                i <= self.entries.len(),
                field_views(r@) == all_fields(self@.entries, i as nat),
            decreases self.entries.len() - i,
        {
            let ghost start = field_views(r@);
            let entry = &self.entries[i];
            assert(self@.entries[i as int] == entry@);
            let mut k: usize = 0;
            while k < entry.fields.len()
                invariant
                    k <= entry.fields.len(),
                    field_views(r@) == start + entry@.fields.take(k as int),
                decreases entry.fields.len() - k,
            {
                let ghost before = field_views(r@);
                let one = entry.fields[k].copy();
                r.push(one);
                k += 1;
                assert(field_views(r@) =~= before.push(one@));
                assert(entry@.fields.take(k as int) =~= entry@.fields.take(k - 1).push(
                    entry.fields@[k - 1]@,
                ));
                assert(field_views(r@) =~= start + entry@.fields.take(k as int));
            }
            assert(entry@.fields.take(entry.fields.len() as int) == entry@.fields);
            i += 1;
        }
        r
    }

    /// The spans of the file that are not valid BibTeX, in the order of the
    /// text.
    pub fn list_errors(&self) -> (r: Vec<BibError>)
        ensures
            error_views(r@) == self@.errors,
    {
        let mut r: Vec<BibError> = Vec::new();
        let mut i: usize = 0;
        while i < self.errors.len()
            invariant
                i <= self.errors.len(),
                error_views(r@) == self@.errors.take(i as int),
            decreases self.errors.len() - i,
        {
            let ghost before = error_views(r@);
            let one = BibError { text: self.errors[i].text.clone(), loc: self.errors[i].loc };
            r.push(one);
            i += 1;
            assert(error_views(r@) =~= before.push(one@));
            assert(self@.errors.take(i as int) =~= before.push(self.errors@[i - 1]@));
        }
        assert(self@.errors.take(self.errors.len() as int) == self@.errors);
        r
    }
}

} // verus!
