//! Lists of authors in the BibTeX convention: the authors are separated by
//! `" and "`, and an author of several words is written `Last, First`.
//!
//! [`check_authors`] says whether a list follows the convention and
//! [`format_authors`] rewrites one so that it does.

use vstd::prelude::*;
use crate::text::{
    chars_of, copy_of, join, join_with, lemma_lines_push, lines, split, split_on,
    split_whitespace, string_of, words_of,
};

verus! {

/// The separator between two authors.
pub open spec fn author_separator() -> Seq<char> {
    " and "@
}

/// One author is well written: a single word, or several words of which the
/// first ends with a comma. An author without a word is not well written.
pub open spec fn author_valid(author: Seq<char>) -> bool {
    let words = words_of(author);
    words.len() >= 1 && (words.len() == 1 || (words[0].len() > 0 && words[0].last() == ','))
}

/// Every author of the list is well written.
pub open spec fn authors_valid(authors: Seq<char>) -> bool {
    let each = split_on(authors, author_separator());
    forall|i: int| 0 <= i < each.len() ==> author_valid(#[trigger] each[i])
}

/// The separator between two authors, as characters.
fn separator() -> (r: Vec<char>)
    ensures
        r@ == author_separator(),
        r@.len() == 5,
{
    proof {
        reveal_strlit(" and ");
    }
    chars_of(" and ")
}

/// Whether one author is well written.
fn check_author(author: &Vec<char>) -> (r: bool)
    ensures
        r == author_valid(author@),
{
    let words = split_whitespace(author);
    if words.len() == 0 {
        return false;
    }
    if words.len() == 1 {
        return true;
    }
    assert(lines(words@)[0] == words@[0]@);
    let first = &words[0];
    first.len() > 0 && first[first.len() - 1] == ','
}

/// Whether every author of the list is written as a single word or as
/// `Last, First`: split at `" and "`, each part is a single word or has a
/// first word that ends with a comma.
pub fn check_authors(authors: &str) -> (r: bool)
    ensures
        r == authors_valid(authors@),
{
    let text = chars_of(authors);
    let sep = separator();
    let each = split(&text, &sep);
    let mut i: usize = 0;
    while i < each.len()
        invariant
            i <= each.len(),
            lines(each@) == split_on(authors@, author_separator()),
            forall|j: int| 0 <= j < i ==> author_valid(#[trigger] lines(each@)[j]),
        decreases each.len() - i,
    {
        assert(lines(each@)[i as int] == each@[i as int]@);
        if !check_author(&each[i]) {
            return false;
        }
        i += 1;
    }
    true
}

/// `author` holds a comma.
pub open spec fn has_comma(author: Seq<char>) -> bool {
    author.contains(',')
}

/// One author, written `Last, First`: unchanged if it holds a comma; else its
/// words with single spaces between them, the last word moved to the front
/// and followed by a comma where there are several.
pub open spec fn author_formatted(author: Seq<char>) -> Seq<char> {
    let words = words_of(author);
    if has_comma(author) {
        author
    } else if words.len() <= 1 {
        join_with(words, " "@)
    } else {
        join_with(seq![words.last().push(',')] + words.drop_last(), " "@)
    }
}

/// The list of authors with each author written `Last, First`.
pub open spec fn authors_formatted(authors: Seq<char>) -> Seq<char> {
    let each = split_on(authors, author_separator());
    join_with(Seq::new(each.len(), |i: int| author_formatted(each[i])), author_separator())
}

/// Whether `author` holds a comma.
fn holds_comma(author: &Vec<char>) -> (r: bool)
    ensures
        r == has_comma(author@),
{
    let mut i: usize = 0;
    while i < author.len()
        invariant
            i <= author.len(),
            forall|j: int| 0 <= j < i ==> author@[j] != ',',
        decreases author.len() - i,
    {
        if author[i] == ',' {
            return true;
        }
        i += 1;
    }
    false
}

/// One author, written `Last, First`.
fn format_author(author: &Vec<char>) -> (r: Vec<char>)
    ensures
        r@ == author_formatted(author@),
{
    if holds_comma(author) {
        return copy_of(author);
    }
    let space = chars_of(" ");
    let words = split_whitespace(author);
    if words.len() <= 1 {
        return join(&words, &space);
    }
    let n = words.len();
    let mut moved: Vec<Vec<char>> = Vec::new();
    let mut last = copy_of(&words[n - 1]);
    last.push(',');
    proof {
        lemma_lines_push(moved@, last);
    }
    moved.push(last);
    assert(lines(moved@) =~= seq![lines(words@).last().push(',')] + lines(words@).take(0));
    let mut i: usize = 0;
    while i < n - 1
        invariant
            i <= n - 1,
            n == words.len(),
            n >= 2,
            lines(moved@) == seq![lines(words@).last().push(',')] + lines(words@).take(i as int),
        decreases n - 1 - i,
    {
        let word = copy_of(&words[i]);
        let ghost before = lines(moved@);
        proof {
            lemma_lines_push(moved@, word);
        }
        moved.push(word);
        i += 1;
        proof {
            assert(lines(moved@) =~= before.push(words@[i - 1]@));
            assert(lines(words@).take(i as int) =~= lines(words@).take(i - 1).push(
                words@[i - 1]@,
            ));
            assert(lines(moved@) =~= seq![lines(words@).last().push(',')] + lines(words@).take(
                i as int,
            ));
        }
    }
    proof {
        assert(lines(words@).take(n - 1) =~= lines(words@).drop_last());
    }
    join(&moved, &space)
}

/// The list of authors with each author written `Last, First`: split at
/// `" and "`, a part that holds a comma stays as it is, and any other part is
/// reduced to its words, the last of them moved to the front and followed by a
/// comma where there are several.
pub fn format_authors(authors: &str) -> (r: String)
    ensures
        r@ == authors_formatted(authors@),
{
    let text = chars_of(authors);
    let sep = separator();
    let each = split(&text, &sep);
    let ghost parts = split_on(authors@, author_separator());
    let mut formatted: Vec<Vec<char>> = Vec::new();
    let mut i: usize = 0;
    while i < each.len()
        invariant
            i <= each.len(),
            lines(each@) == parts,
            lines(formatted@) == Seq::new(i as nat, |j: int| author_formatted(parts[j])),
        decreases each.len() - i,
    {
        assert(lines(each@)[i as int] == each@[i as int]@);
        let one = format_author(&each[i]);
        proof {
            lemma_lines_push(formatted@, one);
        }
        formatted.push(one);
        i += 1;
        assert(lines(formatted@) =~= Seq::new(i as nat, |j: int| author_formatted(parts[j])));
    }
    let joined = join(&formatted, &sep);
    string_of(&joined)
}

} // verus!
