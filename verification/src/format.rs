//! Writing a bibliography out again, tidied up: the names in lower case, the
//! equal signs in one column, the continuation lines indented, and the
//! authors written `Last, First`.

use vstd::prelude::*;
use vstd::string::StringSliceAdditionalSpecFns;
use crate::author_format::{authors_formatted, format_authors};
use crate::bibdb::{lookup, with_property, BibDb, PreBibEntry, Properties};
use crate::bibtex::{BibEntry, BibFile, Block, BlockView, EntryView, FieldView, FileView};
use crate::numbers::{is_digit, parse_int32, parsed_int32};
use crate::setup::pairs;
use crate::sorting::{indices, models, sort_order, sorted_order, strict_weak, SortKey};
use crate::text::{
    chars_of, extend, holds_text, lemma_lex_between, lemma_lex_one_way, lemma_lines_push,
    less_chars, lex_less, lines, lowercase_of,
    push_spaces, slice_of, spaces, split, split_on, str_eq, string_of, texts, to_lowercase, trim,
    trimmed,
};

verus! {

/// How a bibliography is written out.
#[derive(Clone)]
pub struct FormatOptions<T> {
    /// The number of spaces in front of each field.
    pub indent: usize,
    /// The width to which the field names are padded.
    pub min_field_length: Option<usize>,
    /// Whether the fields of an entry are put in the order of their names.
    pub sort_fields: bool,
    /// Whether the entries are put in order, the latest year first.
    pub sort_entries: bool,
    /// Whether the authors are rewritten as `Last, First`.
    pub format_author: bool,
    /// If given, only entries with one of these fields are written.
    pub field_filter: Option<Vec<String>>,
    /// If given, only these fields are written.
    pub whitelist: Option<Vec<String>>,
    /// If given, these fields are not written.
    pub blacklist: Option<Vec<String>>,
    /// Where the properties that an entry lacks are looked up.
    pub database: T,
}

/// Values that may fill in for a property of a work: for a kind of identifier
/// and the name of a property, the values on offer.
pub struct FormatHints {
    pub hints: Vec<((String, String), Vec<String>)>,
}

impl<T> FormatOptions<T> {
    /// The usual options: an indent of two, no padding, nothing sorted,
    /// nothing filtered, the authors rewritten.
    pub fn new(db: T) -> (r: Self)
        ensures
            r.indent == 2,
            r.min_field_length is None,
            !r.sort_fields,
            !r.sort_entries,
            r.format_author,
            r.field_filter is None,
            r.whitelist is None,
            r.blacklist is None,
            r.database == db,
    {
        FormatOptions {
            indent: 2,
            min_field_length: None,
            sort_fields: false,
            sort_entries: false,
            field_filter: None,
            whitelist: None,
            blacklist: None,
            format_author: true,
            database: db,
        }
    }
}

/// What the options say, the database left out.
pub struct OptionsView {
    pub indent: nat,
    pub width: nat,
    pub sort_fields: bool,
    pub sort_entries: bool,
    pub format_author: bool,
    pub field_filter: Option<Seq<Seq<char>>>,
    pub whitelist: Option<Seq<Seq<char>>>,
    pub blacklist: Option<Seq<Seq<char>>>,
}

/// What an optional list of strings holds.
pub open spec fn optional_texts(list: Option<Vec<String>>) -> Option<Seq<Seq<char>>> {
    match list {
        Some(l) => Some(texts(l@)),
        None => None,
    }
}

impl<T> FormatOptions<T> {
    /// What the options say, the database left out.
    pub open spec fn shape(&self) -> OptionsView {
        OptionsView {
            indent: self.indent as nat,
            width: match self.min_field_length {
                Some(w) => w as nat,
                None => 0,
            },
            sort_fields: self.sort_fields,
            sort_entries: self.sort_entries,
            format_author: self.format_author,
            field_filter: optional_texts(self.field_filter),
            whitelist: optional_texts(self.whitelist),
            blacklist: optional_texts(self.blacklist),
        }
    }

    /// The indent of a continuation line is a number that a `usize` holds.
    pub open spec fn fits(&self) -> bool {
        self.shape().indent + 4 + self.shape().width <= usize::MAX
    }
}

/// The text followed by as many spaces as it lacks to the given width.
pub open spec fn padded(text: Seq<char>, width: nat) -> Seq<char> {
    if text.len() < width {
        text + spaces((width - text.len()) as nat)
    } else {
        text
    }
}

/// The continuation lines of a value among its first `n` lines: each on a
/// line of its own, indented, without the white space at its ends.
pub open spec fn continuation(value_lines: Seq<Seq<char>>, indent: nat, n: nat) -> Seq<char>
    decreases n,
{
    if n <= 1 || n > value_lines.len() {
        Seq::empty()
    } else {
        continuation(value_lines, indent, (n - 1) as nat) + "\n"@ + spaces(indent) + trimmed(
            value_lines[n - 1],
        )
    }
}

/// A field as it is written: the indent, the name in lower case padded to the
/// width, ` = `, the first line of the value, the other lines of the value
/// indented four more than the equal sign allows for, a comma, and the end of
/// the line.
pub open spec fn field_text(name: Seq<char>, value: Seq<char>, indent: nat, width: nat) -> Seq<
    char,
> {
    let value_lines = split_on(value, "\n"@);
    let first = if value_lines.len() > 0 {
        value_lines[0]
    } else {
        Seq::empty()
    };
    field_head(name, indent, width) + first + continuation(
        value_lines,
        indent + 4 + width,
        value_lines.len(),
    ) + ",\n"@
}

/// The field may be written: it is on the white list, if there is one, and
/// not on the black list, if there is one.
pub open spec fn allowed(name: Seq<char>, options: OptionsView) -> bool {
    &&& options.whitelist matches Some(list) ==> list.contains(name)
    &&& options.blacklist matches Some(list) ==> !list.contains(name)
}

/// A value without its first and its last character; empty if it has fewer
/// than two.
pub open spec fn inner(value: Seq<char>) -> Seq<char> {
    if value.len() >= 2 {
        value.subrange(1, value.len() - 1)
    } else {
        Seq::empty()
    }
}

/// One field of an entry as it is written, if it may be written: the authors
/// rewritten as `Last, First` between braces where the options ask for it.
pub open spec fn entry_field_text(field: FieldView, options: OptionsView) -> Seq<char> {
    if !allowed(lowercase_of(field.name), options) {
        Seq::empty()
    } else if options.format_author && field.name == "author"@ {
        field_text(
            "author"@,
            "{"@ + authors_formatted(inner(field.value)) + "}"@,
            options.indent,
            options.width,
        )
    } else {
        field_text(field.name, field.value, options.indent, options.width)
    }
}

/// The names of the fields in lower case.
pub open spec fn lower_names(fields: Seq<FieldView>) -> Seq<Seq<char>> {
    Seq::new(fields.len(), |i: int| lowercase_of(fields[i].name))
}

/// The order in which the fields are written: that of their names in lower
/// case, fields of one name in the order of the entry, if the fields are to
/// be sorted; else the order of the entry.
pub open spec fn field_order(names: Seq<Seq<char>>, sort: bool) -> Seq<int> {
    if sort {
        sorted_order::<Vec<char>>(names, names.len())
    } else {
        Seq::new(names.len(), |i: int| i)
    }
}

/// The first `n` fields in the given order, as they are written.
pub open spec fn fields_text(fields: Seq<FieldView>, order: Seq<int>, options: OptionsView, n: nat)
    -> Seq<char>
    decreases n,
{
    if n == 0 || n > order.len() {
        Seq::empty()
    } else {
        let before = fields_text(fields, order, options, (n - 1) as nat);
        let i = order[n - 1];
        if 0 <= i < fields.len() {
            before + entry_field_text(fields[i], options)
        } else {
            before
        }
    }
}

/// The entry has one of the fields that the filter asks for, or there is no
/// filter.
pub open spec fn passes_filter(fields: Seq<FieldView>, options: OptionsView) -> bool {
    options.field_filter matches Some(filter) ==> exists|i: int|
        0 <= i < fields.len() && filter.contains(#[trigger] lower_names(fields)[i])
}

/// The properties that the first `n` fields give, under their names in lower
/// case; a later field replaces an earlier one of the same name.
pub open spec fn lower_properties(fields: Seq<FieldView>, n: nat) -> Properties
    decreases n,
{
    if n == 0 || n > fields.len() {
        Seq::empty()
    } else {
        with_property(
            lower_properties(fields, (n - 1) as nat),
            lowercase_of(fields[n - 1].name),
            fields[n - 1].value,
        )
    }
}

/// Of the first `n` properties of a completion, those that the entry does
/// not have itself.
pub open spec fn additions(completion: Properties, own: Properties, n: nat) -> Properties
    decreases n,
{
    if n == 0 || n > completion.len() {
        Seq::empty()
    } else {
        let before = additions(completion, own, (n - 1) as nat);
        if lookup(own, completion[n - 1].0) is None {
            before.push(completion[n - 1])
        } else {
            before
        }
    }
}

/// The first `n` added properties as they are written, each as a field if it
/// may be written.
pub open spec fn additions_text(added: Properties, options: OptionsView, n: nat) -> Seq<char>
    decreases n,
{
    if n == 0 || n > added.len() {
        Seq::empty()
    } else {
        let before = additions_text(added, options, (n - 1) as nat);
        if allowed(added[n - 1].0, options) {
            before + field_text(added[n - 1].0, added[n - 1].1, options.indent, options.width)
        } else {
            before
        }
    }
}

/// An entry as it is written, given what the database made of it: nothing if
/// the filter does not let it pass; else its type in lower case, a brace, its
/// key, its fields, an empty line if the database added more than one
/// property, the added properties, and a closing brace and an empty line.
pub open spec fn entry_text(entry: EntryView, options: OptionsView, completion: Properties) -> Seq<
    char,
> {
    let own = lower_properties(entry.fields, entry.fields.len());
    let added = additions(completion, own, completion.len());
    if !passes_filter(entry.fields, options) {
        Seq::empty()
    } else {
        lowercase_of(entry.entrytype) + "{"@ + entry.key + ",\n"@ + fields_text(
            entry.fields,
            field_order(lower_names(entry.fields), options.sort_fields),
            options,
            entry.fields.len(),
        ) + (if added.len() > 1 {
            "\n"@
        } else {
            Seq::empty()
        }) + additions_text(added, options, added.len()) + "}\n\n"@
    }
}

impl SortKey for Vec<char> {
    type Model = Seq<char>;

    open spec fn model(&self) -> Seq<char> {
        self@
    }

    open spec fn precedes(a: Seq<char>, b: Seq<char>) -> bool {
        lex_less(a, b)
    }

    fn less(&self, other: &Self) -> (r: bool) {
        less_chars(self, other)
    }
}

/// The order of the dictionary is a strict order, so the fields come out of
/// the sorting in order: see [`crate::sorting::law_sorted_order`].
pub proof fn lemma_names_strict_weak()
    ensures
        strict_weak::<Vec<char>>(),
{
    assert forall|a: Seq<char>, b: Seq<char>| #[trigger] lex_less(a, b) implies !lex_less(b, a) by {
        lemma_lex_one_way(a, b);
    }
    assert forall|a: Seq<char>, b: Seq<char>, c: Seq<char>|
        !#[trigger] lex_less(b, a) && !#[trigger] lex_less(c, b) implies !lex_less(c, a) by {
        if lex_less(c, a) {
            lemma_lex_between(a, b, c);
        }
    }
}

/// Whether a name is on a list, if there is a list; `otherwise` if not.
fn listed(list: &Option<Vec<String>>, name: &str, otherwise: bool) -> (r: bool)
    ensures
        r == match optional_texts(*list) {
            Some(l) => l.contains(name@),
            None => otherwise,
        },
{
    match list {
        Some(l) => holds_text(l, name),
        None => otherwise,
    }
}

/// Whether a field of the given name may be written.
fn is_allowed<K>(name: &str, options: &FormatOptions<K>) -> (r: bool)
    ensures
        r == allowed(name@, options.shape()),
{
    listed(&options.whitelist, name, true) && !listed(&options.blacklist, name, false)
}

/// The start of a field as it is written: the indent, the name in lower case
/// padded to the width, and ` = `.
pub open spec fn field_head(name: Seq<char>, indent: nat, width: nat) -> Seq<char> {
    spaces(indent) + padded(lowercase_of(name), width) + " = "@
}

/// Appends the start of a field.
fn put_head(buf: &mut Vec<char>, name: &str, indent: usize, width: usize)
    ensures
        final(buf)@ == old(buf)@ + field_head(name@, indent as nat, width as nat),
{
    let ghost start = buf@;
    push_spaces(buf, indent);
    let lower = to_lowercase(name);
    let lower_chars = chars_of(lower.as_str());
    extend(buf, &lower_chars);
    if lower_chars.len() < width {
        push_spaces(buf, width - lower_chars.len());
    }
    assert(buf@ =~= start + (spaces(indent as nat) + padded(lowercase_of(name@), width as nat)));
    extend(buf, &chars_of(" = "));
    assert(buf@ =~= start + field_head(name@, indent as nat, width as nat));
}

/// Appends the continuation lines of a value.
fn put_continuation(buf: &mut Vec<char>, value_lines: &Vec<Vec<char>>, deep: usize)
    ensures
        final(buf)@ == old(buf)@ + continuation(
            lines(value_lines@),
            deep as nat,
            value_lines@.len(),
        ),
{
    let ghost start = buf@;
    let ghost ls = lines(value_lines@);
    let newline = chars_of("\n");
    assert(buf@ =~= start + continuation(ls, deep as nat, 1));
    assert(buf@ =~= start + continuation(ls, deep as nat, 0));
    let mut i: usize = 1;
    while i < value_lines.len()
        invariant
            1 <= i,
            i <= value_lines.len() || i == 1,
            lines(value_lines@) == ls,
            newline@ == "\n"@,
            buf@ == start + continuation(ls, deep as nat, i as nat),
        decreases value_lines.len() - i,
    {
        assert(ls[i as int] == value_lines@[i as int]@);
        let ghost before = buf@;
        let mut piece = chars_of("\n");
        push_spaces(&mut piece, deep);
        let line = trim(&value_lines[i]);
        extend(&mut piece, &line);
        extend(buf, &piece);
        i += 1;
        assert(piece@ == "\n"@ + spaces(deep as nat) + trimmed(ls[i - 1]));
        assert(continuation(ls, deep as nat, i as nat) == continuation(
            ls,
            deep as nat,
            (i - 1) as nat,
        ) + "\n"@ + spaces(deep as nat) + trimmed(ls[i - 1]));
        assert(continuation(ls, deep as nat, i as nat) =~= continuation(
            ls,
            deep as nat,
            (i - 1) as nat,
        ) + piece@);
        assert(buf@ =~= start + continuation(ls, deep as nat, i as nat));
    }
}

/// Appends a field as it is written.
fn put_field(buf: &mut Vec<char>, name: &str, value: &Vec<char>, indent: usize, width: usize)
    requires
        indent + 4 + width <= usize::MAX,
    ensures
        final(buf)@ == old(buf)@ + field_text(name@, value@, indent as nat, width as nat),
{
    let ghost start = buf@;
    let newline = chars_of("\n");
    proof {
        reveal_strlit("\n");
    }
    let value_lines = split(value, &newline);
    let ghost ls = split_on(value@, "\n"@);
    let mut piece: Vec<char> = Vec::new();
    put_head(&mut piece, name, indent, width);
    if value_lines.len() > 0 {
        assert(lines(value_lines@)[0] == value_lines@[0]@);
        extend(&mut piece, &value_lines[0]);
    }
    put_continuation(&mut piece, &value_lines, indent + 4 + width);
    extend(&mut piece, &chars_of(",\n"));
    assert(piece@ =~= field_text(name@, value@, indent as nat, width as nat));
    extend(buf, &piece);
}

/// Appends the text to the string.
fn put_string(out: &mut String, text: &Vec<char>)
    ensures
        final(out)@ == old(out)@ + text@,
{
    let ghost start = out@;
    let mut i: usize = 0;
    while i < text.len()
        invariant
            i <= text.len(),
            out@ == start + text@.take(i as int),
        decreases text.len() - i,
    {
        out.push(text[i]);
        i += 1;
        assert(out@ =~= start + text@.take(i as int));
    }
    assert(text@.take(text.len() as int) == text@);
}

/// Writes a field: see [`field_text`].
pub fn write_bibfield<K>(
    _bib: &BibFile,
    name: &str,
    value: &str,
    options: &FormatOptions<K>,
    out: &mut String,
)
    requires
        options.fits(),
    ensures
        final(out)@ == old(out)@ + field_text(
            name@,
            value@,
            options.shape().indent,
            options.shape().width,
        ),
{
    let mut buf: Vec<char> = Vec::new();
    let width = match options.min_field_length {
        Some(w) => w,
        None => 0,
    };
    put_field(&mut buf, name, &chars_of(value), options.indent, width);
    assert(buf@ =~= field_text(name@, value@, options.shape().indent, options.shape().width));
    put_string(out, &buf);
}

/// The names of the fields in lower case, as characters.
fn lowered_names(entry: &BibEntry) -> (r: Vec<Vec<char>>)
    ensures
        lines(r@) == lower_names(entry@.fields),
{
    let mut r: Vec<Vec<char>> = Vec::new();
    let mut i: usize = 0;
    while i < entry.fields.len()
        invariant
            i <= entry.fields.len(),
            lines(r@) == lower_names(entry@.fields).take(i as int),
        decreases entry.fields.len() - i,
    {
        assert(entry@.fields[i as int] == entry.fields@[i as int]@);
        let lower = to_lowercase(entry.fields[i].name.as_str());
        let chars = chars_of(lower.as_str());
        proof {
            lemma_lines_push(r@, chars);
        }
        r.push(chars);
        i += 1;
        assert(lines(r@) =~= lower_names(entry@.fields).take(i as int));
    }
    assert(lower_names(entry@.fields).take(entry.fields.len() as int) == lower_names(
        entry@.fields,
    ));
    r
}

/// The record of the fields of an entry under their names in lower case.
pub fn lower_record(entry: &BibEntry) -> (r: PreBibEntry)
    ensures
        r@ == lower_properties(entry@.fields, entry@.fields.len()),
{
    let mut r = PreBibEntry::new();
    assert(r@ =~= lower_properties(entry@.fields, 0));
    let mut i: usize = 0;
    while i < entry.fields.len()
        invariant
            i <= entry.fields.len(),
            r@ == lower_properties(entry@.fields, i as nat),
        decreases entry.fields.len() - i,
    {
        assert(entry@.fields[i as int] == entry.fields@[i as int]@);
        r.insert(to_lowercase(entry.fields[i].name.as_str()), entry.fields[i].value.clone());
        i += 1;
    }
    r
}

/// Writes an entry, given what the database made of the record of its
/// fields: see [`entry_text`]. The names by which the fields are sorted are
/// their names in lower case.
pub fn write_completed_entry<K>(
    entry: &BibEntry,
    options: &FormatOptions<K>,
    completion: &PreBibEntry,
    out: &mut String,
)
    requires
        options.fits(),
    ensures
        final(out)@ == old(out)@ + entry_text(entry@, options.shape(), completion@),
{
    let ghost shape = options.shape();
    let ghost fields = entry@.fields;
    let names = lowered_names(entry);
    let width = match options.min_field_length {
        Some(w) => w,
        None => 0,
    };
    // the filter
    match &options.field_filter {
        Some(filter) => {
            let mut found = false;
            let mut i: usize = 0;
            while i < names.len()
                invariant
                    i <= names.len(),
                    lines(names@) == lower_names(fields),
                    found == exists|j: int|
                        0 <= j < i && texts(filter@).contains(#[trigger] lower_names(fields)[j]),
                decreases names.len() - i,
            {
                assert(lines(names@)[i as int] == names@[i as int]@);
                let name = string_of(&names[i]);
                if holds_text(filter, name.as_str()) {
                    found = true;
                }
                i += 1;
            }
            if !found {
                assert(!passes_filter(fields, shape));
                assert(out@ =~= old(out)@ + entry_text(entry@, shape, completion@));
                return ;
            }
        },
        None => {},
    }
    assert(passes_filter(fields, shape));
    let mut buf: Vec<char> = Vec::new();
    let lower_type = to_lowercase(entry.entrytype.as_str());
    extend(&mut buf, &chars_of(lower_type.as_str()));
    extend(&mut buf, &chars_of("{"));
    extend(&mut buf, &chars_of(entry.key.as_str()));
    extend(&mut buf, &chars_of(",\n"));
    let ghost head = buf@;
    assert(head =~= lowercase_of(entry@.entrytype) + "{"@ + entry@.key + ",\n"@);
    // the fields
    let order: Vec<usize> = if options.sort_fields {
        sort_order(&names)
    } else {
        let mut plain: Vec<usize> = Vec::new();
        let mut i: usize = 0;
        while i < names.len()
            invariant
                i <= names.len(),
                plain@.len() == i,
                forall|j: int| 0 <= j < i ==> plain@[j] == j,
            decreases names.len() - i,
        {
            plain.push(i);
            i += 1;
        }
        plain
    };
    let ghost ord = field_order(lower_names(fields), shape.sort_fields);
    assert(models(names@) =~= lines(names@));
    assert(indices(order@) =~= ord);
    assert(names@.len() == fields.len()) by {
        assert(lines(names@).len() == lower_names(fields).len());
    }
    assert(buf@ =~= head + fields_text(fields, ord, shape, 0));
    let mut n: usize = 0;
    while n < order.len()
        invariant
            n <= order.len(),
            options.fits(),
            shape == options.shape(),
            fields == entry@.fields,
            width == shape.width,
            order@.len() == fields.len(),
            names@.len() == fields.len(),
            indices(order@) == ord,
            forall|j: int| 0 <= j < order@.len() ==> #[trigger] order@[j] < fields.len(),
            lines(names@) == lower_names(fields),
            buf@ == head + fields_text(fields, ord, shape, n as nat),
        decreases order.len() - n,
    {
        let i = order[n];
        assert(ord[n as int] == i);
        assert(fields[i as int] == entry.fields@[i as int]@);
        assert(lines(names@)[i as int] == names@[i as int]@);
        let field = &entry.fields[i];
        let lower = string_of(&names[i]);
        if is_allowed(lower.as_str(), options) {
            if options.format_author && str_eq(field.name.as_str(), "author") {
                let value = chars_of(field.value.as_str());
                let middle = if value.len() >= 2 {
                    slice_of(&value, 1, value.len() - 1)
                } else {
                    Vec::new()
                };
                assert(middle@ =~= inner(field@.value));
                let authors = format_authors(string_of(&middle).as_str());
                let mut braced = chars_of("{");
                extend(&mut braced, &chars_of(authors.as_str()));
                extend(&mut braced, &chars_of("}"));
                put_field(&mut buf, "author", &braced, options.indent, width);
            } else {
                put_field(
                    &mut buf,
                    field.name.as_str(),
                    &chars_of(field.value.as_str()),
                    options.indent,
                    width,
                );
            }
        }
        n += 1;
        assert(buf@ =~= head + fields_text(fields, ord, shape, n as nat));
    }
    let ghost body = buf@;
    // what the database adds
    let own = lower_record(entry);
    let mut added: Vec<(String, String)> = Vec::new();
    let ghost comp = completion@;
    let mut k: usize = 0;
    while k < completion.properties.len()
        invariant
            k <= completion.properties.len(),
            comp == completion@,
            pairs(added@) == additions(comp, own@, k as nat),
        decreases completion.properties.len() - k,
    {
        assert(comp[k as int] == (
            completion.properties@[k as int].0@,
            completion.properties@[k as int].1@,
        ));
        if own.get(completion.properties[k].0.as_str()).is_none() {
            let ghost before = pairs(added@);
            let pair = (completion.properties[k].0.clone(), completion.properties[k].1.clone());
            added.push(pair);
            assert(pairs(added@) =~= before.push(comp[k as int]));
        }
        k += 1;
    }
    let ghost add = additions(comp, own@, comp.len());
    if added.len() > 1 {
        extend(&mut buf, &chars_of("\n"));
    }
    let ghost gap = buf@;
    assert(buf@ =~= gap + additions_text(add, shape, 0));
    let mut m: usize = 0;
    while m < added.len()
        invariant
            m <= added.len(),
            options.fits(),
            shape == options.shape(),
            width == shape.width,
            pairs(added@) == add,
            buf@ == gap + additions_text(add, shape, m as nat),
        decreases added.len() - m,
    {
        assert(add[m as int] == (added@[m as int].0@, added@[m as int].1@));
        if is_allowed(added[m].0.as_str(), options) {
            put_field(
                &mut buf,
                added[m].0.as_str(),
                &chars_of(added[m].1.as_str()),
                options.indent,
                width,
            );
        }
        m += 1;
        assert(buf@ =~= gap + additions_text(add, shape, m as nat));
    }
    extend(&mut buf, &chars_of("}\n\n"));
    assert(buf@ =~= entry_text(entry@, shape, comp));
    put_string(out, &buf);
}

/// Writes an entry: what [`write_completed_entry`] writes for the entry and
/// what the database of the options makes of the record of its fields.
pub fn write_bibentry<K: BibDb>(
    _bib: &BibFile,
    entry: &BibEntry,
    options: &FormatOptions<K>,
    out: &mut String,
)
    requires
        options.fits(),
    ensures
        exists|completion: Properties|
            final(out)@ == old(out)@ + entry_text(entry@, options.shape(), completion),
{
    let record = lower_record(entry);
    let completion = options.database.complete(&record);
    write_completed_entry(entry, options, &completion, out);
    assert(out@ == old(out)@ + entry_text(entry@, options.shape(), completion@));
}

/// The number that a text stands for as a year; zero if it stands for none.
pub open spec fn year_number(text: Seq<char>) -> int {
    match parsed_int32(text) {
        Some(n) => n,
        None => 0,
    }
}

/// A value without its first character, and without its last if it has two
/// or more.
pub open spec fn unwrapped(value: Seq<char>) -> Seq<char> {
    if value.len() >= 2 {
        value.subrange(1, value.len() - 1)
    } else {
        Seq::empty()
    }
}

/// The year that a field gives: that of a field `year` with a value, read
/// from the value as it is if it starts with a digit, and else from the value
/// without the characters around it.
pub open spec fn field_year(field: FieldView) -> Option<int> {
    if field.name == "year"@ && field.value.len() > 0 {
        if is_digit(field.value[0]) {
            Some(year_number(field.value))
        } else {
            Some(year_number(unwrapped(field.value)))
        }
    } else {
        None
    }
}

/// The year of an entry: that of the first field, from `from` on, that gives
/// one; zero if none does.
pub open spec fn entry_year(fields: Seq<FieldView>, from: int) -> int
    decreases fields.len() - from,
{
    if from < 0 || from >= fields.len() {
        0
    } else {
        match field_year(fields[from]) {
            Some(year) => year,
            None => entry_year(fields, from + 1),
        }
    }
}

/// The keys by which the entries are sorted: the latest year comes first.
pub open spec fn year_keys(entries: Seq<EntryView>) -> Seq<int> {
    Seq::new(entries.len(), |i: int| -entry_year(entries[i].fields, 0))
}

/// What stands between the entries, among the first `n` pieces of the file.
pub open spec fn others_text(blocks: Seq<BlockView>, n: nat) -> Seq<char>
    decreases n,
{
    if n == 0 || n > blocks.len() {
        Seq::empty()
    } else {
        let before = others_text(blocks, (n - 1) as nat);
        match blocks[n - 1] {
            BlockView::Other(text) => before + text,
            BlockView::Entry(_) => before,
        }
    }
}

/// The entry of the given index as it is written, given what the database
/// made of each entry; nothing if there is no such entry.
pub open spec fn indexed_entry_text(
    entries: Seq<EntryView>,
    i: int,
    options: OptionsView,
    completions: Seq<Properties>,
) -> Seq<char> {
    if 0 <= i < entries.len() && i < completions.len() {
        entry_text(entries[i], options, completions[i])
    } else {
        Seq::empty()
    }
}

/// The first `n` entries of the given order as they are written.
pub open spec fn ordered_entries_text(
    entries: Seq<EntryView>,
    order: Seq<int>,
    options: OptionsView,
    completions: Seq<Properties>,
    n: nat,
) -> Seq<char>
    decreases n,
{
    if n == 0 || n > order.len() {
        Seq::empty()
    } else {
        ordered_entries_text(entries, order, options, completions, (n - 1) as nat)
            + indexed_entry_text(entries, order[n - 1], options, completions)
    }
}

/// The first `n` pieces of the file as they are written: the entries
/// rewritten, everything else as it is.
pub open spec fn blocks_text(
    file: FileView,
    options: OptionsView,
    completions: Seq<Properties>,
    n: nat,
) -> Seq<char>
    decreases n,
{
    if n == 0 || n > file.blocks.len() {
        Seq::empty()
    } else {
        let before = blocks_text(file, options, completions, (n - 1) as nat);
        match file.blocks[n - 1] {
            BlockView::Other(text) => before + text,
            BlockView::Entry(i) => before + indexed_entry_text(
                file.entries,
                i,
                options,
                completions,
            ),
        }
    }
}

/// A file as it is written, given what the database made of each entry. If
/// the entries are to be sorted, what stands between the entries comes first
/// and the entries follow, the latest year first and entries of one year in
/// the order of the file. Else the pieces of the file come in their order.
pub open spec fn file_text(file: FileView, options: OptionsView, completions: Seq<Properties>)
    -> Seq<char> {
    if options.sort_entries {
        others_text(file.blocks, file.blocks.len()) + ordered_entries_text(
            file.entries,
            sorted_order::<i64>(year_keys(file.entries), file.entries.len()),
            options,
            completions,
            file.entries.len(),
        )
    } else {
        blocks_text(file, options, completions, file.blocks.len())
    }
}

/// The year of an entry: see [`entry_year`].
pub fn year_of(entry: &BibEntry) -> (r: i64)
    ensures
        r == entry_year(entry@.fields, 0),
        -0x8000_0000 <= r <= 0x7fff_ffff,
{
    let mut i: usize = 0;
    while i < entry.fields.len()
        invariant
            i <= entry.fields.len(),
            entry_year(entry@.fields, 0) == entry_year(entry@.fields, i as int),
        decreases entry.fields.len() - i,
    {
        assert(entry@.fields[i as int] == entry.fields@[i as int]@);
        let field = &entry.fields[i];
        if str_eq(field.name.as_str(), "year") {
            let value = chars_of(field.value.as_str());
            if value.len() > 0 {
                let first = value[0];
                let number = if '0' <= first && first <= '9' {
                    parse_int32(&value)
                } else {
                    let middle = if value.len() >= 2 {
                        slice_of(&value, 1, value.len() - 1)
                    } else {
                        Vec::new()
                    };
                    assert(middle@ =~= unwrapped(value@));
                    parse_int32(&middle)
                };
                return match number {
                    Some(n) => n,
                    None => 0,
                };
            }
        }
        i += 1;
    }
    0
}

/// What a list of records holds.
pub open spec fn completion_views(list: Seq<PreBibEntry>) -> Seq<Properties> {
    Seq::new(list.len(), |i: int| list[i]@)
}

/// Writes a file, given what the database made of the record of each entry,
/// in the order of the entries: see [`file_text`].
pub fn write_completed_file<K>(
    bib: &BibFile,
    options: &FormatOptions<K>,
    completions: &Vec<PreBibEntry>,
    out: &mut String,
)
    requires
        options.fits(),
    ensures
        final(out)@ == old(out)@ + file_text(bib@, options.shape(), completion_views(completions@)),
{
    let ghost start = out@;
    let ghost file = bib@;
    let ghost shape = options.shape();
    let ghost comps = completion_views(completions@);
    if options.sort_entries {
        assert(out@ =~= start + others_text(file.blocks, 0));
        let mut b: usize = 0;
        while b < bib.blocks.len()
            invariant
                b <= bib.blocks.len(),
                file == bib@,
                out@ == start + others_text(file.blocks, b as nat),
            decreases bib.blocks.len() - b,
        {
            assert(file.blocks[b as int] == bib.blocks@[b as int]@);
            match &bib.blocks[b] {
                Block::Other(text) => {
                    put_string(out, &chars_of(text.as_str()));
                },
                Block::Entry(_) => {},
            }
            b += 1;
            assert(out@ =~= start + others_text(file.blocks, b as nat));
        }
        let ghost middle = out@;
        let mut keys: Vec<i64> = Vec::new();
        let mut k: usize = 0;
        while k < bib.entries.len()
            invariant
                k <= bib.entries.len(),
                file == bib@,
                models(keys@) == year_keys(file.entries).take(k as int),
            decreases bib.entries.len() - k,
        {
            assert(file.entries[k as int] == bib.entries@[k as int]@);
            let year = year_of(&bib.entries[k]);
            let ghost before = models(keys@);
            let key: i64 = -year;
            keys.push(key);
            k += 1;
            assert(models(keys@) =~= before.push(key.model()));
            assert(year_keys(file.entries).take(k as int) =~= before.push(
                -entry_year(file.entries[k - 1].fields, 0),
            ));
        }
        assert(year_keys(file.entries).take(file.entries.len() as int) == year_keys(file.entries));
        let order = sort_order(&keys);
        let ghost ord = sorted_order::<i64>(year_keys(file.entries), file.entries.len());
        assert(indices(order@) == ord);
        assert(out@ =~= middle + ordered_entries_text(file.entries, ord, shape, comps, 0));
        let mut n: usize = 0;
        while n < order.len()
            invariant
                n <= order.len(),
                options.fits(),
                file == bib@,
                shape == options.shape(),
                comps == completion_views(completions@),
                indices(order@) == ord,
                order@.len() == file.entries.len(),
                out@ == middle + ordered_entries_text(file.entries, ord, shape, comps, n as nat),
            decreases order.len() - n,
        {
            let i = order[n];
            assert(ord[n as int] == i);
            if i < bib.entries.len() && i < completions.len() {
                assert(file.entries[i as int] == bib.entries@[i as int]@);
                assert(comps[i as int] == completions@[i as int]@);
                write_completed_entry(&bib.entries[i], options, &completions[i], out);
            }
            n += 1;
            assert(out@ =~= middle + ordered_entries_text(file.entries, ord, shape, comps, n as nat));
        }
        assert(out@ =~= start + file_text(file, shape, comps));
    } else {
        assert(out@ =~= start + blocks_text(file, shape, comps, 0));
        let mut b: usize = 0;
        while b < bib.blocks.len()
            invariant
                b <= bib.blocks.len(),
                options.fits(),
                file == bib@,
                shape == options.shape(),
                comps == completion_views(completions@),
                out@ == start + blocks_text(file, shape, comps, b as nat),
            decreases bib.blocks.len() - b,
        {
            assert(file.blocks[b as int] == bib.blocks@[b as int]@);
            match &bib.blocks[b] {
                Block::Other(text) => {
                    put_string(out, &chars_of(text.as_str()));
                },
                Block::Entry(i) => {
                    let i = *i;
                    if i < bib.entries.len() && i < completions.len() {
                        assert(file.entries[i as int] == bib.entries@[i as int]@);
                        assert(comps[i as int] == completions@[i as int]@);
                        write_completed_entry(&bib.entries[i], options, &completions[i], out);
                    }
                },
            }
            b += 1;
            assert(out@ =~= start + blocks_text(file, shape, comps, b as nat));
        }
    }
}

/// Writes a file: what [`write_completed_file`] writes for the file and what
/// the database of the options makes of the record of each entry.
pub fn write_bibfile<K: BibDb>(bib: &BibFile, options: &FormatOptions<K>, out: &mut String)
    requires
        options.fits(),
    ensures
        exists|completions: Seq<Properties>|
            completions.len() == bib@.entries.len() && final(out)@ == old(out)@ + file_text(
                bib@,
                options.shape(),
                completions,
            ),
{
    let mut completions: Vec<PreBibEntry> = Vec::new();
    let mut i: usize = 0;
    while i < bib.entries.len()
        invariant
            i <= bib.entries.len(),
            completions@.len() == i,
        decreases bib.entries.len() - i,
    {
        let record = lower_record(&bib.entries[i]);
        completions.push(options.database.complete(&record));
        i += 1;
    }
    write_completed_file(bib, options, &completions, out);
    let ghost views = completion_views(completions@);
    assert(views.len() == bib@.entries.len() && out@ == old(out)@ + file_text(
        bib@,
        options.shape(),
        views,
    ));
}

/// A file together with the options by which it is written.
pub struct BibFormat<'a, K> {
    pub bib: &'a BibFile,
    pub options: &'a FormatOptions<K>,
}

impl<'a, K: BibDb> BibFormat<'a, K> {
    /// The file as it is written: see [`write_bibfile`].
    pub fn to_string(&self) -> (r: String)
        requires
            self.options.fits(),
        ensures
            exists|completions: Seq<Properties>|
                completions.len() == self.bib@.entries.len() && r@ == file_text(
                    self.bib@,
                    self.options.shape(),
                    completions,
                ),
    {
        let mut out = String::new();
        write_bibfile(self.bib, self.options, &mut out);
        proof {
            let completions = choose|completions: Seq<Properties>|
                completions.len() == self.bib@.entries.len() && out@ == Seq::<char>::empty()
                    + file_text(self.bib@, self.options.shape(), completions);
            assert(out@ =~= file_text(self.bib@, self.options.shape(), completions));
        }
        out
    }
}

/// The greatest length in bytes of the name of a field among the first `n`
/// fields; zero if there is none.
pub open spec fn longest_name(fields: Seq<FieldView>, n: nat) -> nat
    decreases n,
{
    if n == 0 || n > fields.len() {
        0
    } else {
        let before = longest_name(fields, (n - 1) as nat);
        let length = vstd::utf8::encode_utf8(fields[n - 1].name).len();
        if length > before {
            length
        } else {
            before
        }
    }
}

/// The greatest length in bytes of the name of a field among the first `n`
/// entries; zero if there is none.
pub open spec fn longest_field_name(entries: Seq<EntryView>, n: nat) -> nat
    decreases n,
{
    if n == 0 || n > entries.len() {
        0
    } else {
        let before = longest_field_name(entries, (n - 1) as nat);
        let length = longest_name(entries[n - 1].fields, entries[n - 1].fields.len());
        if length > before {
            length
        } else {
            before
        }
    }
}

/// The greatest length in bytes of the name of a field of the file: the
/// width to which the names are padded so that the equal signs stand in one
/// column.
pub fn field_name_width(bib: &BibFile) -> (r: usize)
    ensures
        r == longest_field_name(bib@.entries, bib@.entries.len()),
{
    let mut r: usize = 0;
    let mut i: usize = 0;
    while i < bib.entries.len()
        invariant
            i <= bib.entries.len(),
            r == longest_field_name(bib@.entries, i as nat),
        decreases bib.entries.len() - i,
    {
        assert(bib@.entries[i as int] == bib.entries@[i as int]@);
        let entry = &bib.entries[i];
        let mut longest: usize = 0;
        let mut k: usize = 0;
        while k < entry.fields.len()
            invariant
                k <= entry.fields.len(),
                longest == longest_name(entry@.fields, k as nat),
            decreases entry.fields.len() - k,
        {
            assert(entry@.fields[k as int] == entry.fields@[k as int]@);
            let length = entry.fields[k].name.as_str().as_bytes().len();
            if length > longest {
                longest = length;
            }
            k += 1;
        }
        if longest > r {
            r = longest;
        }
        i += 1;
    }
    r
}

} // verus!
