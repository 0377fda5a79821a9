//! Every message of the linter is about places of the file that was checked.

use vstd::prelude::*;
use crate::bibtex::{EntryView, FileView, Location};
use crate::groups::{duplicates, matching};
use crate::linter::{
    duplicate_field_lints, duplicate_identifier_lints, duplicate_key_lints, entries_lints,
    entry_identifiers, entry_keys, entry_lints, entry_locs, field_lints, field_locs, file_lints,
    identifier_lints, missing, name_keys, syntax_lints, uncheckable, LintView, MessageView,
};

verus! {

/// `loc` is the place of the entry or of one of its fields.
pub open spec fn in_entry(entry: EntryView, loc: Location) -> bool {
    loc == entry.loc || exists|i: int| 0 <= i < entry.fields.len() && (#[trigger] entry.fields[i]).loc == loc
}

/// `loc` is the place of an entry of the file, of a field of one, or of an
/// invalid span of the file.
pub open spec fn in_file(file: FileView, loc: Location) -> bool {
    ||| exists|i: int| 0 <= i < file.entries.len() && in_entry(#[trigger] file.entries[i], loc)
    ||| exists|j: int| 0 <= j < file.errors.len() && (#[trigger] file.errors[j]).loc == loc
}

/// Every place of every message is a place of the entry.
pub open spec fn within_entry(lints: Seq<LintView>, entry: EntryView) -> bool {
    forall|m: int, x: int|
        0 <= m < lints.len() && 0 <= x < lints[m].loc.len() ==> in_entry(
            entry,
            #[trigger] lints[m].loc[x],
        )
}

/// Every place of every message is a place of the file.
pub open spec fn within_file(lints: Seq<LintView>, file: FileView) -> bool {
    forall|m: int, x: int|
        0 <= m < lints.len() && 0 <= x < lints[m].loc.len() ==> in_file(
            file,
            #[trigger] lints[m].loc[x],
        )
}

/// Two lists of messages about an entry, put together, are about the entry.
pub proof fn lemma_within_entry_join(a: Seq<LintView>, b: Seq<LintView>, entry: EntryView)
    requires
        within_entry(a, entry),
        within_entry(b, entry),
    ensures
        within_entry(a + b, entry),
{
    assert forall|m: int, x: int|
        0 <= m < (a + b).len() && 0 <= x < (a + b)[m].loc.len() implies in_entry(
        entry,
        #[trigger] (a + b)[m].loc[x],
    ) by {
        if m < a.len() {
            assert((a + b)[m] == a[m]);
        } else {
            assert((a + b)[m] == b[m - a.len()]);
        }
    }
}

/// Two lists of messages about a file, put together, are about the file.
pub proof fn lemma_within_file_join(a: Seq<LintView>, b: Seq<LintView>, file: FileView)
    requires
        within_file(a, file),
        within_file(b, file),
    ensures
        within_file(a + b, file),
{
    assert forall|m: int, x: int|
        0 <= m < (a + b).len() && 0 <= x < (a + b)[m].loc.len() implies in_file(
        file,
        #[trigger] (a + b)[m].loc[x],
    ) by {
        if m < a.len() {
            assert((a + b)[m] == a[m]);
        } else {
            assert((a + b)[m] == b[m - a.len()]);
        }
    }
}

/// The places of the items with one key are among the places of the items.
pub proof fn lemma_matching_within<K>(keys: Seq<K>, locs: Seq<Location>, k: K, n: nat)
    ensures
        forall|x: int|
            0 <= x < matching(keys, locs, k, n).len() ==> locs.contains(
                #[trigger] matching(keys, locs, k, n)[x],
            ),
    decreases n,
{
    if !(n == 0 || n > keys.len() || n > locs.len()) {
        lemma_matching_within(keys, locs, k, (n - 1) as nat);
        let before = matching(keys, locs, k, (n - 1) as nat);
        assert(locs.contains(locs[n - 1]));
        assert forall|x: int| 0 <= x < matching(keys, locs, k, n).len() implies locs.contains(
            #[trigger] matching(keys, locs, k, n)[x],
        ) by {
            if x < before.len() {
                assert(matching(keys, locs, k, n)[x] == before[x]);
            }
        }
    }
}

/// The places of every group of duplicates are among the places of the items.
pub proof fn lemma_duplicates_within<K>(keys: Seq<K>, locs: Seq<Location>, n: nat)
    ensures
        forall|m: int, x: int|
            0 <= m < duplicates(keys, locs, n).len() && 0 <= x < duplicates(keys, locs, n)[m].1.len()
                ==> locs.contains(#[trigger] duplicates(keys, locs, n)[m].1[x]),
        forall|m: int|
            0 <= m < duplicates(keys, locs, n).len() ==> 0 <= (#[trigger] duplicates(
                keys,
                locs,
                n,
            )[m]).0 < n,
    decreases n,
{
    if !(n == 0 || n > keys.len()) {
        lemma_duplicates_within(keys, locs, (n - 1) as nat);
        lemma_matching_within(keys, locs, keys[n - 1], keys.len());
        let before = duplicates(keys, locs, (n - 1) as nat);
        let now = duplicates(keys, locs, n);
        assert forall|m: int, x: int|
            0 <= m < now.len() && 0 <= x < now[m].1.len() implies locs.contains(
            #[trigger] now[m].1[x],
        ) by {
            if m < before.len() {
                assert(now[m] == before[m]);
            }
        }
        assert forall|m: int| 0 <= m < now.len() implies 0 <= (#[trigger] now[m]).0 < n by {
            if m < before.len() {
                assert(now[m] == before[m]);
            }
        }
    }
}

/// The messages about the fields of an entry are about the entry.
pub proof fn lemma_field_lints_within(dois: Seq<String>, entry: EntryView, n: nat)
    ensures
        within_entry(field_lints(dois, entry.fields, n), entry),
    decreases n,
{
    if !(n == 0 || n > entry.fields.len()) {
        lemma_field_lints_within(dois, entry, (n - 1) as nat);
        let before = field_lints(dois, entry.fields, (n - 1) as nat);
        let now = field_lints(dois, entry.fields, n);
        assert forall|m: int, x: int|
            0 <= m < now.len() && 0 <= x < now[m].loc.len() implies in_entry(
            entry,
            #[trigger] now[m].loc[x],
        ) by {
            if m < before.len() {
                assert(now[m] == before[m]);
            } else {
                assert(entry.fields[n - 1].loc == now[m].loc[x]);
            }
        }
    }
}

/// The messages about an entry are about the entry.
pub proof fn lemma_entry_lints_within(dois: Seq<String>, entry: EntryView)
    ensures
        within_entry(entry_lints(dois, entry), entry),
{
    let fields = entry.fields;
    let a = missing(fields, "author"@, MessageView::MissingField("author"@), entry.loc);
    let b = missing(fields, "title"@, MessageView::MissingField("title"@), entry.loc);
    let c = missing(fields, "year"@, MessageView::MissingField("year"@), entry.loc);
    let d = missing(fields, "sha256"@, MessageView::MissingOptionalField("sha256"@), entry.loc);
    let f = uncheckable(entry);
    let g = duplicate_field_lints(fields);
    let h = field_lints(dois, fields, fields.len());
    lemma_field_lints_within(dois, entry, fields.len());
    lemma_duplicates_within(name_keys(fields), field_locs(fields), fields.len());
    assert forall|m: int, x: int|
        0 <= m < g.len() && 0 <= x < g[m].loc.len() implies in_entry(entry, #[trigger] g[m].loc[x]) by {
        let groups = duplicates(name_keys(fields), field_locs(fields), fields.len());
        assert(field_locs(fields).contains(groups[m].1[x]));
        let j = choose|j: int|
            0 <= j < field_locs(fields).len() && field_locs(fields)[j] == groups[m].1[x];
        assert(fields[j].loc == g[m].loc[x]);
    }
    lemma_within_entry_join(a, b, entry);
    lemma_within_entry_join(a + b, c, entry);
    lemma_within_entry_join(a + b + c, d, entry);
    lemma_within_entry_join(a + b + c + d, f, entry);
    lemma_within_entry_join(a + b + c + d + f, g, entry);
    lemma_within_entry_join(a + b + c + d + f + g, h, entry);
}

/// The messages about the entries of a file, one by one, are about the file.
pub proof fn lemma_entries_lints_within(dois: Seq<String>, file: FileView, n: nat)
    ensures
        within_file(entries_lints(dois, file.entries, n), file),
    decreases n,
{
    if !(n == 0 || n > file.entries.len()) {
        lemma_entries_lints_within(dois, file, (n - 1) as nat);
        let entry = file.entries[n - 1];
        let one = entry_lints(dois, entry);
        lemma_entry_lints_within(dois, entry);
        assert forall|m: int, x: int|
            0 <= m < one.len() && 0 <= x < one[m].loc.len() implies in_file(
            file,
            #[trigger] one[m].loc[x],
        ) by {
            assert(in_entry(file.entries[n - 1], one[m].loc[x]));
        }
        lemma_within_file_join(entries_lints(dois, file.entries, (n - 1) as nat), one, file);
    }
}

/// A place of an entry of the file is a place of the file.
pub proof fn lemma_entry_place_in_file(file: FileView, loc: Location)
    requires
        entry_locs(file.entries).contains(loc),
    ensures
        in_file(file, loc),
{
    let j = choose|j: int|
        0 <= j < entry_locs(file.entries).len() && entry_locs(file.entries)[j] == loc;
    assert(in_entry(file.entries[j], loc));
}

/// The messages about shared identifiers are about the file.
pub proof fn lemma_identifier_lints_within(file: FileView, n: nat)
    ensures
        within_file(
            identifier_lints(
                file.entries,
                duplicates(
                    entry_identifiers(file.entries),
                    entry_locs(file.entries),
                    file.entries.len(),
                ),
                n,
            ),
            file,
        ),
    decreases n,
{
    let groups = duplicates(
        entry_identifiers(file.entries),
        entry_locs(file.entries),
        file.entries.len(),
    );
    if !(n == 0 || n > groups.len()) {
        lemma_identifier_lints_within(file, (n - 1) as nat);
        lemma_duplicates_within(
            entry_identifiers(file.entries),
            entry_locs(file.entries),
            file.entries.len(),
        );
        let before = identifier_lints(file.entries, groups, (n - 1) as nat);
        let now = identifier_lints(file.entries, groups, n);
        assert forall|m: int, x: int|
            0 <= m < now.len() && 0 <= x < now[m].loc.len() implies in_file(
            file,
            #[trigger] now[m].loc[x],
        ) by {
            if m < before.len() {
                assert(now[m] == before[m]);
            } else {
                assert(now[m].loc == groups[n - 1].1);
                assert(entry_locs(file.entries).contains(groups[n - 1].1[x]));
                lemma_entry_place_in_file(file, groups[n - 1].1[x]);
            }
        }
    }
}

/// No message points outside the file: every place that a message of
/// [`file_lints`] names is the place of an entry of the file, of a field of
/// one of its entries, or of one of its invalid spans.
pub proof fn law_lints_point_into_file(dois: Seq<String>, file: FileView)
    ensures
        within_file(file_lints(dois, file), file),
{
    let a = syntax_lints(file.errors);
    let b = entries_lints(dois, file.entries, file.entries.len());
    let c = duplicate_key_lints(file.entries);
    let d = duplicate_identifier_lints(file.entries);
    assert forall|m: int, x: int|
        0 <= m < a.len() && 0 <= x < a[m].loc.len() implies in_file(file, #[trigger] a[m].loc[x]) by {
        assert(file.errors[m].loc == a[m].loc[x]);
    }
    lemma_entries_lints_within(dois, file, file.entries.len());
    lemma_duplicates_within(entry_keys(file.entries), entry_locs(file.entries), file.entries.len());
    assert forall|m: int, x: int|
        0 <= m < c.len() && 0 <= x < c[m].loc.len() implies in_file(file, #[trigger] c[m].loc[x]) by {
        let groups = duplicates(
            entry_keys(file.entries),
            entry_locs(file.entries),
            file.entries.len(),
        );
        assert(entry_locs(file.entries).contains(groups[m].1[x]));
        lemma_entry_place_in_file(file, groups[m].1[x]);
    }
    let groups = duplicates(
        entry_identifiers(file.entries),
        entry_locs(file.entries),
        file.entries.len(),
    );
    lemma_identifier_lints_within(file, groups.len());
    lemma_within_file_join(a, b, file);
    lemma_within_file_join(a + b, c, file);
    lemma_within_file_join(a + b + c, d, file);
}

} // verus!
