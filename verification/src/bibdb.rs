//! A database of what is known about works, used to complete entries: each
//! record is a list of properties, and a record that agrees with an entry on
//! what identifies a work lends the entry the properties it lacks.

use vstd::prelude::*;
use crate::bibtex::{parsed_file, BibEntry, BibFile, FieldView};
use crate::text::str_eq;

verus! {

/// What is known about one work: its properties, each a name and a value.
/// Where a name occurs twice, the first occurrence counts.
#[derive(Clone, Debug, PartialEq)]
pub struct PreBibEntry {
    pub properties: Vec<(String, String)>,
}

/// A list of properties.
pub type Properties = Seq<(Seq<char>, Seq<char>)>;

impl View for PreBibEntry {
    type V = Properties;

    open spec fn view(&self) -> Properties {
        Seq::new(self.properties@.len(), |i: int| (self.properties@[i].0@, self.properties@[i].1@))
    }
}

/// The value of the first of the first `n` properties whose name is `key`.
pub open spec fn lookup_among(props: Properties, key: Seq<char>, n: nat) -> Option<Seq<char>>
    decreases n,
{
    if n == 0 || n > props.len() {
        None
    } else {
        match lookup_among(props, key, (n - 1) as nat) {
            Some(v) => Some(v),
            None => if props[n - 1].0 == key {
                Some(props[n - 1].1)
            } else {
                None
            },
        }
    }
}

/// The value of the property `key`, if there is one.
pub open spec fn lookup(props: Properties, key: Seq<char>) -> Option<Seq<char>> {
    lookup_among(props, key, props.len())
}

/// The property identifies a work: a title, a checksum, a DOI, an eprint or
/// a URL.
pub open spec fn identifying(key: Seq<char>) -> bool {
    key == "title"@ || key == "sha256"@ || key == "doi"@ || key == "eprint"@ || key == "url"@
}

/// `props` has every identifying property of `other`, with the same value.
pub open spec fn extends(props: Properties, other: Properties) -> bool {
    forall|i: int|
        0 <= i < other.len() && identifying((#[trigger] other[i]).0) ==> lookup(props, other[i].0)
            == Some(other[i].1)
}

/// `props` with those of the first `n` properties of `other` whose names it
/// did not have yet, added in order.
pub open spec fn merged(props: Properties, other: Properties, n: nat) -> Properties
    decreases n,
{
    if n == 0 || n > other.len() {
        props
    } else {
        let before = merged(props, other, (n - 1) as nat);
        if lookup(before, other[n - 1].0) is None {
            before.push(other[n - 1])
        } else {
            before
        }
    }
}

/// `props` with the property `key` set to `value`: in the place of the first
/// property of that name, or at the end.
pub open spec fn with_property(props: Properties, key: Seq<char>, value: Seq<char>) -> Properties {
    if exists|i: int| 0 <= i < props.len() && (#[trigger] props[i]).0 == key {
        let at = choose|i: int|
            0 <= i < props.len() && (#[trigger] props[i]).0 == key && forall|j: int|
                0 <= j < i ==> (#[trigger] props[j]).0 != key;
        props.update(at, (key, value))
    } else {
        props.push((key, value))
    }
}

/// The properties that the first `n` fields give: each field sets the
/// property of its name to its value as written, a later field replacing an
/// earlier one of the same name.
pub open spec fn field_properties(fields: Seq<FieldView>, n: nat) -> Properties
    decreases n,
{
    if n == 0 || n > fields.len() {
        Seq::empty()
    } else {
        with_property(
            field_properties(fields, (n - 1) as nat),
            fields[n - 1].name,
            fields[n - 1].value,
        )
    }
}

impl PreBibEntry {
    /// A record without properties.
    pub fn new() -> (r: Self)
        ensures
            r@.len() == 0,
    {
        PreBibEntry { properties: Vec::new() }
    }

    /// A copy of the record.
    pub fn copy(&self) -> (r: Self)
        ensures
            r@ == self@,
    {
        let mut properties: Vec<(String, String)> = Vec::new();
        let mut i: usize = 0;
        while i < self.properties.len()
            invariant
                i <= self.properties.len(),
                properties@.len() == i,
                forall|j: int|
                    0 <= j < i ==> (#[trigger] properties@[j]).0@ == self.properties@[j].0@
                        && properties@[j].1@ == self.properties@[j].1@,
            decreases self.properties.len() - i,
        {
            properties.push((self.properties[i].0.clone(), self.properties[i].1.clone()));
            i += 1;
        }
        let r = PreBibEntry { properties };
        assert(r@ =~= self@);
        r
    }

    /// The position of the first property whose name is `key`.
    fn position(&self, key: &str) -> (r: Option<usize>)
        ensures
            match r {
                Some(at) => at < self@.len() && self@[at as int].0 == key@ && forall|j: int|
                    0 <= j < at ==> (#[trigger] self@[j]).0 != key@,
                None => forall|j: int| 0 <= j < self@.len() ==> (#[trigger] self@[j]).0 != key@,
            },
            match r {
                Some(at) => lookup(self@, key@) == Some(self@[at as int].1),
                None => lookup(self@, key@) is None,
            },
    {
        let mut i: usize = 0;
        while i < self.properties.len()
            invariant
                i <= self.properties.len(),
                forall|j: int| 0 <= j < i ==> (#[trigger] self@[j]).0 != key@,
                lookup_among(self@, key@, i as nat) is None,
            decreases self.properties.len() - i,
        {
            if str_eq(self.properties[i].0.as_str(), key) {
                proof {
                    lemma_lookup_found(self@, key@, i as int, self@.len());
                }
                return Some(i);
            }
            i += 1;
        }
        None
    }

    /// The value of the property `key`, if there is one.
    pub fn get(&self, key: &str) -> (r: Option<&String>)
        ensures
            match r {
                Some(v) => lookup(self@, key@) == Some(v@),
                None => lookup(self@, key@) is None,
            },
    {
        match self.position(key) {
            Some(at) => Some(&self.properties[at].1),
            None => None,
        }
    }

    /// Sets the property `key` to `value`, in the place of the first property
    /// of that name or at the end.
    pub fn insert(&mut self, key: String, value: String)
        ensures
            final(self)@ == with_property(old(self)@, key@, value@),
    {
        let ghost before = self@;
        match self.position(key.as_str()) {
            Some(at) => {
                self.properties.set(at, (key, value));
                assert(self@ =~= before.update(at as int, (key@, value@)));
                proof {
                    let chosen = choose|i: int|
                        0 <= i < before.len() && (#[trigger] before[i]).0 == key@ && forall|j: int|
                            0 <= j < i ==> (#[trigger] before[j]).0 != key@;
                    assert(before[at as int].0 == key@);
                    assert(chosen == at);
                }
            },
            None => {
                self.properties.push((key, value));
                assert(self@ =~= before.push((key@, value@)));
            },
        }
    }

    /// Whether the record has every identifying property of `other` (title,
    /// sha256, doi, eprint, url), with the same value.
    pub fn is_extension_of(&self, other: &PreBibEntry) -> (r: bool)
        ensures
            r == extends(self@, other@),
    {
        let mut i: usize = 0;
        while i < other.properties.len()
            invariant
                i <= other.properties.len(),
                forall|j: int|
                    0 <= j < i && identifying((#[trigger] other@[j]).0) ==> lookup(
                        self@,
                        other@[j].0,
                    ) == Some(other@[j].1),
            decreases other.properties.len() - i,
        {
            let key = other.properties[i].0.as_str();
            assert(other@[i as int] == (other.properties@[i as int].0@, other.properties@[i as int].1@));
            if str_eq(key, "title") || str_eq(key, "sha256") || str_eq(key, "doi") || str_eq(
                key,
                "eprint",
            ) || str_eq(key, "url") {
                let same = match self.get(key) {
                    Some(v) => str_eq(v.as_str(), other.properties[i].1.as_str()),
                    None => false,
                };
                if !same {
                    return false;
                }
            }
            i += 1;
        }
        true
    }

    /// Takes from `other` the properties whose names the record has not yet,
    /// in the order of `other`.
    pub fn merge(&mut self, other: &PreBibEntry)
        ensures
            final(self)@ == merged(old(self)@, other@, other@.len()),
    {
        let ghost start = self@;
        let mut i: usize = 0;
        while i < other.properties.len()
            invariant
                i <= other.properties.len(),
                self@ == merged(start, other@, i as nat),
            decreases other.properties.len() - i,
        {
            assert(other@[i as int] == (other.properties@[i as int].0@, other.properties@[i as int].1@));
            let ghost before = self@;
            if self.position(other.properties[i].0.as_str()).is_none() {
                self.properties.push((other.properties[i].0.clone(), other.properties[i].1.clone()));
                assert(self@ =~= before.push(other@[i as int]));
            }
            i += 1;
        }
    }

    /// The record of the fields of an entry: each field sets the property of
    /// its name to its value as written, and the last field of a name counts.
    pub fn from_entry(entry: &BibEntry) -> (r: Self)
        ensures
            r@ == field_properties(entry@.fields, entry@.fields.len()),
    {
        let mut r = PreBibEntry::new();
        assert(r@ =~= field_properties(entry@.fields, 0));
        let mut i: usize = 0;
        while i < entry.fields.len()
            invariant
                i <= entry.fields.len(),
                r@ == field_properties(entry@.fields, i as nat),
            decreases entry.fields.len() - i,
        {
            assert(entry@.fields[i as int] == entry.fields@[i as int]@);
            r.insert(entry.fields[i].name.clone(), entry.fields[i].value.clone());
            i += 1;
        }
        r
    }
}

/// Once a property of the name is found, later properties do not change what
/// is looked up.
pub proof fn lemma_lookup_found(props: Properties, key: Seq<char>, at: int, n: nat)
    requires
        0 <= at < n <= props.len(),
        props[at].0 == key,
        lookup_among(props, key, at as nat) is None,
    ensures
        lookup_among(props, key, n) == Some(props[at].1),
    decreases n,
{
    if n > at + 1 {
        lemma_lookup_found(props, key, at, (n - 1) as nat);
    }
}

/// A source of records about works.
pub trait BibDb {
    /// A record of the work with the given DOI.
    fn get_doi(&self, doi: &str) -> Option<PreBibEntry>;

    /// A record of the work with the given eprint.
    fn get_eprint(&self, eprint: &str) -> Option<PreBibEntry>;

    /// The given record with what the source adds to it.
    fn complete(&self, partial: &PreBibEntry) -> PreBibEntry;
}

/// A database held in memory.
pub struct LocalBibDb {
    pub entries: Vec<PreBibEntry>,
}

/// What a list of records holds.
pub open spec fn record_views(entries: Seq<PreBibEntry>) -> Seq<Properties> {
    Seq::new(entries.len(), |i: int| entries[i]@)
}

/// The first of the first `n` records whose property `key` is `value`.
pub open spec fn first_with(entries: Seq<Properties>, key: Seq<char>, value: Seq<char>, n: nat)
    -> Option<Properties>
    decreases n,
{
    if n == 0 || n > entries.len() {
        None
    } else {
        match first_with(entries, key, value, (n - 1) as nat) {
            Some(e) => Some(e),
            None => if lookup(entries[n - 1], key) == Some(value) {
                Some(entries[n - 1])
            } else {
                None
            },
        }
    }
}

/// `partial` with the properties that it lacks and that the first `n`
/// records lend it: a record lends its properties if it extends `partial`.
pub open spec fn completed(entries: Seq<Properties>, partial: Properties, n: nat) -> Properties
    decreases n,
{
    if n == 0 || n > entries.len() {
        partial
    } else {
        let before = completed(entries, partial, (n - 1) as nat);
        if extends(entries[n - 1], partial) {
            merged(before, entries[n - 1], entries[n - 1].len())
        } else {
            before
        }
    }
}

/// What an optional record holds.
pub open spec fn record_view(entry: Option<PreBibEntry>) -> Option<Properties> {
    match entry {
        Some(e) => Some(e@),
        None => None,
    }
}

/// The records that the entries of a file give, among the first `n`.
pub open spec fn imported(entries: Seq<crate::bibtex::EntryView>, n: nat) -> Seq<Properties>
    decreases n,
{
    if n == 0 || n > entries.len() {
        Seq::empty()
    } else {
        imported(entries, (n - 1) as nat).push(
            field_properties(entries[n - 1].fields, entries[n - 1].fields.len()),
        )
    }
}

impl Default for LocalBibDb {
    fn default() -> (r: Self)
        ensures
            r.entries@.len() == 0,
    {
        LocalBibDb { entries: Vec::new() }
    }
}

impl LocalBibDb {
    /// An empty database.
    pub fn new() -> (r: Self)
        ensures
            r.entries@.len() == 0,
    {
        LocalBibDb { entries: Vec::new() }
    }

    /// The first record whose property `key` is `value`.
    fn find(&self, key: &str, value: &str) -> (r: Option<PreBibEntry>)
        ensures
            record_view(r) == first_with(
                record_views(self.entries@),
                key@,
                value@,
                self.entries@.len(),
            ),
    {
        let ghost all = record_views(self.entries@);
        let mut i: usize = 0;
        while i < self.entries.len()
            invariant
                i <= self.entries.len(),
                all == record_views(self.entries@),
                first_with(all, key@, value@, i as nat) is None,
            decreases self.entries.len() - i,
        {
            assert(all[i as int] == self.entries@[i as int]@);
            let hit = match self.entries[i].get(key) {
                Some(v) => str_eq(v.as_str(), value),
                None => false,
            };
            if hit {
                proof {
                    lemma_first_found(all, key@, value@, i as int, all.len());
                }
                return Some(self.entries[i].copy());
            }
            i += 1;
        }
        None
    }

    /// The database with the records of the entries of a file added after
    /// its own, one record for each entry, in order.
    pub fn import_file(self, file: &BibFile) -> (r: Self)
        ensures
            record_views(r.entries@) == record_views(self.entries@) + imported(
                file@.entries,
                file@.entries.len(),
            ),
    {
        let ghost start = record_views(self.entries@);
        let mut entries = self.entries;
        assert(record_views(entries@) =~= start + imported(file@.entries, 0));
        let mut i: usize = 0;
        while i < file.entries.len()
            invariant
                i <= file.entries.len(),
                record_views(entries@) == start + imported(file@.entries, i as nat),
            decreases file.entries.len() - i,
        {
            assert(file@.entries[i as int] == file.entries@[i as int]@);
            let record = PreBibEntry::from_entry(&file.entries[i]);
            let ghost before = record_views(entries@);
            entries.push(record);
            assert(record_views(entries@) =~= before.push(record@));
            i += 1;
            assert(record_views(entries@) =~= start + imported(file@.entries, i as nat));
        }
        LocalBibDb { entries }
    }
}

/// Once a record with the value is found, later records do not change which
/// is the first.
pub proof fn lemma_first_found(
    entries: Seq<Properties>,
    key: Seq<char>,
    value: Seq<char>,
    at: int,
    n: nat,
)
    requires
        0 <= at < n <= entries.len(),
        lookup(entries[at], key) == Some(value),
        first_with(entries, key, value, at as nat) is None,
    ensures
        first_with(entries, key, value, n) == Some(entries[at]),
    decreases n,
{
    if n > at + 1 {
        lemma_first_found(entries, key, value, at, (n - 1) as nat);
    }
}

impl LocalBibDb {
    /// The database with the records of the entries that `ctn`, read as
    /// BibTeX, holds, added after its own: see [`LocalBibDb::import_file`] and
    /// [`parsed_file`].
    pub fn import_bibtex(self, ctn: &str) -> (r: Self)
        ensures
            record_views(r.entries@) == record_views(self.entries@) + imported(
                parsed_file(ctn@).entries,
                parsed_file(ctn@).entries.len(),
            ),
    {
        let file = BibFile::new(ctn);
        self.import_file(&file)
    }
}

impl BibDb for LocalBibDb {
    /// The first record whose DOI is the given one.
    fn get_doi(&self, doi: &str) -> (r: Option<PreBibEntry>)
        ensures
            record_view(r) == first_with(
                record_views(self.entries@),
                "doi"@,
                doi@,
                self.entries@.len(),
            ),
    {
        self.find("doi", doi)
    }

    /// The first record whose eprint is the given one.
    fn get_eprint(&self, eprint: &str) -> (r: Option<PreBibEntry>)
        ensures
            record_view(r) == first_with(
                record_views(self.entries@),
                "eprint"@,
                eprint@,
                self.entries@.len(),
            ),
    {
        self.find("eprint", eprint)
    }

    /// The given record with the properties that it lacks and that the
    /// records of the database lend it, taken in the order of the database.
    fn complete(&self, partial: &PreBibEntry) -> (r: PreBibEntry)
        ensures
            r@ == completed(record_views(self.entries@), partial@, self.entries@.len()),
    {
        let ghost all = record_views(self.entries@);
        let mut output = partial.copy();
        let mut i: usize = 0;
        while i < self.entries.len()
            invariant
                i <= self.entries.len(),
                all == record_views(self.entries@),
                output@ == completed(all, partial@, i as nat),
            decreases self.entries.len() - i,
        {
            assert(all[i as int] == self.entries@[i as int]@);
            if self.entries[i].is_extension_of(partial) {
                output.merge(&self.entries[i]);
            }
            i += 1;
        }
        output
    }
}

} // verus!
