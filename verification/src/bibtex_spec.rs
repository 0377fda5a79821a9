//! The vocabulary of BibTeX (field names and entry types) and the detection
//! of near misses of it: words within one edit of a word of the vocabulary.

use vstd::prelude::*;
use crate::automaton::{run_automaton, Either, NFA};
use crate::edit_distance::{edit_distance, lemma_distance_zero};
use crate::typo_automaton::{assigning_automaton, fits, non_deterministic_duplicate, views};
use crate::typo_proof::{lemma_typo_reach, typo_state, Pos};

verus! {

/// The entry types of BibTeX and BibLaTeX.
pub open spec fn entry_type_lexicon() -> Seq<Seq<char>> {
    seq![
        "article"@,
        "book"@,
        "booklet"@,
        "conference"@,
        "inbook"@,
        "incollection"@,
        "inproceedings"@,
        "manual"@,
        "mastersthesis"@,
        "misc"@,
        "phdthesis"@,
        "proceedings"@,
        "techreport"@,
        "unpublished"@,
        "patent"@,
        "bookinbook"@,
        "suppbook"@,
        "suppcollection"@,
        "suppperiodical"@,
        "mvbook"@,
        "mvcollection"@,
        "mvproceedings"@,
        "talk"@,
        "mapping"@,
    ]
}

/// The field names of BibTeX.
pub open spec fn field_lexicon() -> Seq<Seq<char>> {
    seq![
        "address"@,
        "annote"@,
        "author"@,
        "booktitle"@,
        "chapter"@,
        "crossref"@,
        "edition"@,
        "editor"@,
        "howpublished"@,
        "institution"@,
        "journal"@,
        "key"@,
        "month"@,
        "note"@,
        "number"@,
        "organization"@,
        "pages"@,
        "publisher"@,
        "school"@,
        "series"@,
        "title"@,
        "type"@,
        "volume"@,
        "year"@,
        "eprint"@,
        "archiveprefix"@,
        "primaryclass"@,
        "keywords"@,
    ]
}

/// The entry types of BibTeX and BibLaTeX.
pub fn bibtex_entry_types() -> (v: Vec<&'static str>)
    ensures
        views(v@) == entry_type_lexicon(),
{
    let v = vec![
        "article",
        "book",
        "booklet",
        "conference",
        "inbook",
        "incollection",
        "inproceedings",
        "manual",
        "mastersthesis",
        "misc",
        "phdthesis",
        "proceedings",
        "techreport",
        "unpublished",
        "patent",
        "bookinbook",
        "suppbook",
        "suppcollection",
        "suppperiodical",
        "mvbook",
        "mvcollection",
        "mvproceedings",
        "talk",
        "mapping",
    ];
    assert(views(v@) =~= entry_type_lexicon());
    v
}

/// The field names of BibTeX.
pub fn bibtex_fields() -> (v: Vec<&'static str>)
    ensures
        views(v@) == field_lexicon(),
{
    let v = vec![
        "address",
        "annote",
        "author",
        "booktitle",
        "chapter",
        "crossref",
        "edition",
        "editor",
        "howpublished",
        "institution",
        "journal",
        "key",
        "month",
        "note",
        "number",
        "organization",
        "pages",
        "publisher",
        "school",
        "series",
        "title",
        "type",
        "volume",
        "year",
        "eprint",
        "archiveprefix",
        "primaryclass",
        "keywords",
    ];
    assert(views(v@) =~= field_lexicon());
    v
}

/// The words among the first `n` of the lexicon that are within one edit of
/// `s`, in the order of the lexicon.
pub open spec fn close_among(lexicon: Seq<Seq<char>>, s: Seq<char>, n: nat) -> Seq<Seq<char>>
    decreases n,
{
    if n == 0 || n > lexicon.len() {
        Seq::empty()
    } else {
        let before = close_among(lexicon, s, (n - 1) as nat);
        if edit_distance(s, lexicon[n - 1]) <= 1 {
            before.push(lexicon[n - 1])
        } else {
            before
        }
    }
}

/// The words of the lexicon that are within one edit of `s`, in the order of
/// the lexicon. A word that the lexicon holds twice is given twice.
pub open spec fn close_words(lexicon: Seq<Seq<char>>, s: Seq<char>) -> Seq<Seq<char>> {
    close_among(lexicon, s, lexicon.len())
}

/// `d` recognises the near misses of `words`: it is in the unedited copy of a
/// position when it has read the word up to there, in the edited copy when it
/// has read something within one edit of that, and it accepts at the end of
/// each word, edited.
pub open spec fn recognises(d: NFA<Either<Pos, Pos>>, words: Seq<Seq<char>>) -> bool {
    &&& fits(words)
    &&& d.final_states@ == Seq::new(
        words.len(),
        |i: int| Either::<Pos, Pos>::Right((i as usize, words[i].len() as usize)),
    )
    &&& forall|input: Seq<char>, q: Either<Pos, Pos>| #[trigger]
        d.reach(input, q) <==> typo_state(words, input, q)
}

/// The final states that an automaton for `words` accepts `s` in are those of
/// the close words, in the same order.
pub proof fn lemma_accepted_close(
    d: NFA<Either<Pos, Pos>>,
    words: Seq<Seq<char>>,
    s: Seq<char>,
    n: nat,
)
    requires
        recognises(d, words),
        n <= words.len(),
    ensures
        d.accepted_among(s, n).len() == close_among(words, s, n).len(),
        forall|m: int|
            0 <= m < d.accepted_among(s, n).len() ==> {
                let q = #[trigger] d.accepted_among(s, n)[m];
                &&& q is Right
                &&& q->Right_0.0 < n
                &&& words[q->Right_0.0 as int] == close_among(words, s, n)[m]
            },
    decreases n,
{
    if n > 0 {
        lemma_accepted_close(d, words, s, (n - 1) as nat);
        let before = d.accepted_among(s, (n - 1) as nat);
        let f = d.final_states@[n - 1];
        let w = words[n - 1];
        assert(f == Either::<Pos, Pos>::Right(((n - 1) as usize, w.len() as usize)));
        assert(w.take(w.len() as int) =~= w);
        assert(d.reach(s, f) <==> typo_state(words, s, f));
        if before.contains(f) {
            let m = choose|m: int| 0 <= m < before.len() && before[m] == f;
            assert(before[m]->Right_0.0 < n - 1);
        }
    }
}

/// An automaton that accepts the strings within one edit of a word of its
/// lexicon. It is built once and then only read.
pub struct TypoAutomaton<'a> {
    words: Vec<&'a str>,
    nfa: NFA<Either<Pos, Pos>>,
}

impl<'a> TypoAutomaton<'a> {
    #[verifier::type_invariant]
    spec fn well_formed(self) -> bool {
        recognises(self.nfa, views(self.words@))
    }

    /// The words that the automaton looks for.
    pub closed spec fn lexicon(&self) -> Seq<Seq<char>> {
        views(self.words@)
    }

    /// The automaton for the given words. The list may be empty, and it may
    /// hold a word twice.
    pub fn new(words: Vec<&'a str>) -> (r: Self)
        ensures
            r.lexicon() == views(words@),
    {
        let mut copy: Vec<&'a str> = Vec::new();
        let mut i: usize = 0;
        while i < words.len()
            invariant
                i <= words.len(),
                copy@ == words@.take(i as int),
            decreases words.len() - i,
        {
            copy.push(words[i]);
            i += 1;
            assert(words@.take(i as int) == words@.take(i - 1).push(words@[i - 1]));
        }
        assert(words@.take(words.len() as int) == words@);
        let a = assigning_automaton(copy);
        let ghost base = a;
        let nfa = non_deterministic_duplicate(a);
        proof {
            let lexicon = views(words@);
            assert forall|input: Seq<char>, q: Either<Pos, Pos>| #[trigger]
                nfa.reach(input, q) <==> typo_state(lexicon, input, q) by {
                lemma_typo_reach(base, nfa, lexicon, input, q);
            }
            assert(nfa.final_states@ =~= Seq::new(
                lexicon.len(),
                |i: int| Either::<Pos, Pos>::Right((i as usize, lexicon[i].len() as usize)),
            ));
        }
        TypoAutomaton { words, nfa }
    }

    /// The words of the lexicon that are within one edit of `s`: `s` itself if
    /// the lexicon holds it, and every word that differs from `s` by one
    /// character inserted, left out or replaced. The words come in the order
    /// of the lexicon; there may be none, or several.
    pub fn match_typo(&self, s: &str) -> (r: Vec<&'a str>)
        ensures
            views(r@) == close_words(self.lexicon(), s@),
    {
        proof {
            use_type_invariant(self);
        }
        let states = run_automaton(&self.nfa, s);
        let ghost lexicon = views(self.words@);
        proof {
            lemma_accepted_close(self.nfa, lexicon, s@, lexicon.len());
        }
        let mut r: Vec<&'a str> = Vec::new();
        let mut i: usize = 0;
        while i < states.len()
            invariant
                i <= states.len(),
                lexicon == views(self.words@),
                states@.len() == close_words(lexicon, s@).len(),
                forall|m: int|
                    0 <= m < states@.len() ==> {
                        let q = #[trigger] states@[m];
                        &&& q is Right
                        &&& q->Right_0.0 < lexicon.len()
                        &&& lexicon[q->Right_0.0 as int] == close_words(lexicon, s@)[m]
                    },
                views(r@) == close_words(lexicon, s@).take(i as int),
            decreases states.len() - i,
        {
            let ghost before = r@;
            assert(states@[i as int] is Right);
            match states[i] {
                Either::Right(u) => {
                    r.push(self.words[u.0]);
                },
                Either::Left(_) => {},
            }
            i += 1;
            proof {
                let close = close_words(lexicon, s@);
                assert(views(before).len() == i - 1);
                assert(r@ == before.push(r@[i - 1]));
                assert forall|j: int| 0 <= j < i implies views(r@)[j] == close.take(i as int)[j] by {
                    if j < i - 1 {
                        assert(views(before)[j] == close.take(i - 1)[j]);
                    }
                }
                assert(views(r@) =~= close.take(i as int));
            }
        }
        assert(close_words(lexicon, s@).take(states@.len() as int) == close_words(lexicon, s@));
        r
    }
}

/// The automaton for the field names of BibTeX.
pub fn field_typo_automaton() -> (r: TypoAutomaton<'static>)
    ensures
        r.lexicon() == field_lexicon(),
{
    TypoAutomaton::new(bibtex_fields())
}

/// The automaton for the entry types of BibTeX and BibLaTeX.
pub fn entry_typo_automaton() -> (r: TypoAutomaton<'static>)
    ensures
        r.lexicon() == entry_type_lexicon(),
{
    TypoAutomaton::new(bibtex_entry_types())
}

/// The field names of BibTeX that `s` is, or is a typo of: those within one
/// edit of `s`.
pub fn field_typo(s: &str) -> (r: Vec<&'static str>)
    ensures
        views(r@) == close_words(field_lexicon(), s@),
{
    let automaton = field_typo_automaton();
    automaton.match_typo(s)
}

/// The entry types that `s` is, or is a typo of: those within one edit of `s`.
pub fn entry_typo(s: &str) -> (r: Vec<&'static str>)
    ensures
        views(r@) == close_words(entry_type_lexicon(), s@),
{
    let automaton = entry_typo_automaton();
    automaton.match_typo(s)
}

/// A word is among the close words exactly when the lexicon holds it, among
/// its first `n` words, within one edit of `s`.
pub proof fn lemma_close_holds(lexicon: Seq<Seq<char>>, s: Seq<char>, n: nat, w: Seq<char>)
    requires
        n <= lexicon.len(),
    ensures
        close_among(lexicon, s, n).contains(w) <==> exists|j: int|
            0 <= j < n && #[trigger] lexicon[j] == w && edit_distance(s, w) <= 1,
    decreases n,
{
    if n > 0 {
        lemma_close_holds(lexicon, s, (n - 1) as nat, w);
        let before = close_among(lexicon, s, (n - 1) as nat);
        let last = lexicon[n - 1];
        if edit_distance(s, last) <= 1 {
            assert(before.push(last)[before.len() as int] == last);
            if before.contains(w) {
                let m = choose|m: int| 0 <= m < before.len() && before[m] == w;
                assert(before.push(last)[m] == w);
            }
            if before.push(last).contains(w) {
                let m = choose|m: int| 0 <= m < before.push(last).len() && before.push(last)[m] == w;
                if m < before.len() {
                    assert(before[m] == w);
                }
            }
        }
        if exists|j: int| 0 <= j < n && #[trigger] lexicon[j] == w && edit_distance(s, w) <= 1 {
            let j = choose|j: int|
                0 <= j < n && #[trigger] lexicon[j] == w && edit_distance(s, w) <= 1;
            if j < n - 1 {
                assert(lexicon[j] == w);
            }
        }
    }
}

/// Reflexivity: a word of the lexicon is among its own close words.
pub proof fn law_reflexivity(lexicon: Seq<Seq<char>>, i: int)
    requires
        0 <= i < lexicon.len(),
    ensures
        close_words(lexicon, lexicon[i]).contains(lexicon[i]),
{
    lemma_distance_zero(lexicon[i], lexicon[i]);
    lemma_close_holds(lexicon, lexicon[i], lexicon.len(), lexicon[i]);
}

/// Adjacency: of two words of the lexicon at edit distance one, each is among
/// the close words of the other.
pub proof fn law_adjacency(lexicon: Seq<Seq<char>>, i: int, j: int)
    requires
        0 <= i < lexicon.len(),
        0 <= j < lexicon.len(),
        edit_distance(lexicon[i], lexicon[j]) == 1,
    ensures
        close_words(lexicon, lexicon[i]).contains(lexicon[j]),
{
    lemma_close_holds(lexicon, lexicon[i], lexicon.len(), lexicon[j]);
}

/// Distance bound: a string at edit distance two or more from every word of
/// the lexicon has no close words.
pub proof fn law_distance_bound(lexicon: Seq<Seq<char>>, s: Seq<char>)
    requires
        forall|i: int| 0 <= i < lexicon.len() ==> edit_distance(s, #[trigger] lexicon[i]) >= 2,
    ensures
        close_words(lexicon, s).len() == 0,
{
    let close = close_words(lexicon, s);
    if close.len() > 0 {
        let w = close[0];
        assert(close.contains(w));
        lemma_close_holds(lexicon, s, lexicon.len(), w);
    }
}

} // verus!
