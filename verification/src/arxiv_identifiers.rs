//! Identifiers of arXiv preprints: an identifier proper, and the number of a
//! version where one is pinned, as in `2101.00001v3`.

use vstd::prelude::*;
use vstd::string::StrSliceExecFns;
use crate::numbers::{decimal_digits, digits_of, parse_number, parsed_number};
use crate::text::{chars_of, extend, str_eq, string_of};
use std::cmp::Ordering;
use vstd::std_specs::cmp::PartialOrdSpecImpl;

verus! {

/// An arXiv identifier, with the version if one is pinned.
#[derive(Debug, PartialEq, Eq)]
pub struct ArxivId<'a> {
    pub id: &'a str,
    pub version: Option<usize>,
}

/// What an [`ArxivId`] holds.
pub struct ArxivIdView {
    pub id: Seq<char>,
    pub version: Option<usize>,
}

impl<'a> View for ArxivId<'a> {
    type V = ArxivIdView;

    open spec fn view(&self) -> ArxivIdView {
        ArxivIdView { id: self.id@, version: self.version }
    }
}

/// The position of the last `v` among the first `n` characters.
pub open spec fn last_v(text: Seq<char>, n: nat) -> Option<int>
    decreases n,
{
    if n == 0 || n > text.len() {
        None
    } else if text[n - 1] == 'v' {
        Some(n - 1)
    } else {
        last_v(text, (n - 1) as nat)
    }
}

/// What `text` says as an arXiv identifier. Without a `v`, all of it is the
/// identifier and no version is pinned. With one, what stands before the last
/// `v` is the identifier and what stands after it is the version, which must
/// be a number; otherwise `text` is no arXiv identifier.
pub open spec fn arxiv_parsed(text: Seq<char>) -> Option<ArxivIdView> {
    match last_v(text, text.len()) {
        Some(at) => match parsed_number(text.skip(at + 1)) {
            Some(version) => Some(ArxivIdView { id: text.take(at), version: Some(version) }),
            None => None,
        },
        None => Some(ArxivIdView { id: text, version: None }),
    }
}

/// What an optional identifier holds.
pub open spec fn arxiv_view(id: Option<ArxivId>) -> Option<ArxivIdView> {
    match id {
        Some(a) => Some(a@),
        None => None,
    }
}

/// Reads an arXiv identifier, with or without a version: see
/// [`arxiv_parsed`].
pub fn parse_arxiv_id<'a>(s: &'a str) -> (r: Option<ArxivId<'a>>)
    ensures
        arxiv_view(r) == arxiv_parsed(s@),
{
    let text = chars_of(s);
    let mut n: usize = text.len();
    while n > 0
        invariant
            n <= text.len(),
            text@ == s@,
            last_v(s@, s@.len()) == last_v(s@, n as nat),
        decreases n,
    {
        if text[n - 1] == 'v' {
            let version = parse_number(&text, n);
            return match version {
                Some(v) => {
                    let id = s.substring_char(0, n - 1);
                    assert(s@.subrange(0, n - 1) == s@.take(n - 1));
                    Some(ArxivId { id, version: Some(v) })
                },
                None => None,
            };
        }
        n -= 1;
    }
    Some(ArxivId { id: s, version: None })
}

/// The identifier as it is written: with `v` and the version behind it where
/// a version is pinned.
pub open spec fn arxiv_written(id: ArxivIdView) -> Seq<char> {
    match id.version {
        Some(v) => id.id.push('v') + decimal_digits(v as nat),
        None => id.id,
    }
}

impl<'a> ArxivId<'a> {
    /// The identifier as it is written, with its version if one is pinned.
    pub fn to_string(&self) -> (r: String)
        ensures
            r@ == arxiv_written(self@),
    {
        let mut text = chars_of(self.id);
        match self.version {
            Some(v) => {
                text.push('v');
                let digits = digits_of(v);
                extend(&mut text, &digits);
            },
            None => {},
        }
        string_of(&text)
    }

    /// The address of the abstract of the preprint.
    pub fn to_abstract_url(&self) -> (r: String)
        ensures
            r@ == "https://arxiv.org/abs/"@ + self.id@,
    {
        let mut text = chars_of("https://arxiv.org/abs/");
        let id = chars_of(self.id);
        extend(&mut text, &id);
        string_of(&text)
    }

    /// The address of the PDF of the preprint.
    pub fn to_pdf_url(&self) -> (r: String)
        ensures
            r@ == "https://arxiv.org/pdf/"@ + self.id@,
    {
        let mut text = chars_of("https://arxiv.org/pdf/");
        let id = chars_of(self.id);
        extend(&mut text, &id);
        string_of(&text)
    }
}

impl<'a> PartialOrdSpecImpl for ArxivId<'a> {
    open spec fn obeys_partial_cmp_spec() -> bool {
        true
    }

    /// Two identifiers compare only if they name the same preprint; then a
    /// pinned version is greater than none, and two pinned versions compare as
    /// their numbers do.
    open spec fn partial_cmp_spec(&self, other: &Self) -> Option<Ordering> {
        if self.id@ == other.id@ {
            match (self.version, other.version) {
                (Some(a), Some(b)) => if a < b {
                    Some(Ordering::Less)
                } else if a == b {
                    Some(Ordering::Equal)
                } else {
                    Some(Ordering::Greater)
                },
                (Some(_), None) => Some(Ordering::Greater),
                (None, Some(_)) => Some(Ordering::Less),
                (None, None) => Some(Ordering::Equal),
            }
        } else {
            None
        }
    }
}

impl<'a> PartialOrd for ArxivId<'a> {
    fn partial_cmp(&self, other: &Self) -> (r: Option<Ordering>) {
        if !str_eq(self.id, other.id) {
            return None;
        }
        match (self.version, other.version) {
            (Some(a), Some(b)) => if a < b {
                Some(Ordering::Less)
            } else if a == b {
                Some(Ordering::Equal)
            } else {
                Some(Ordering::Greater)
            },
            (Some(_), None) => Some(Ordering::Greater),
            (None, Some(_)) => Some(Ordering::Less),
            (None, None) => Some(Ordering::Equal),
        }
    }
}

impl<'a> vstd::std_specs::convert::TryFromSpecImpl<&'a str> for ArxivId<'a> {
    open spec fn obeys_try_from_spec() -> bool {
        false
    }

    open spec fn try_from_spec(v: &'a str) -> Result<Self, ()> {
        Err(())
    }
}

impl<'a> TryFrom<&'a str> for ArxivId<'a> {
    type Error = ();

    fn try_from(s: &'a str) -> (r: Result<Self, ()>)
        ensures
            match r {
                Ok(id) => arxiv_parsed(s@) == Some(id@),
                Err(_) => arxiv_parsed(s@) is None,
            },
    {
        match parse_arxiv_id(s) {
            Some(id) => Ok(id),
            None => Err(()),
        }
    }
}

} // verus!
