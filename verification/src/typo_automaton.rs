//! Construction of the automaton that accepts every string within one edit of
//! a word of a fixed lexicon.
//!
//! [`assigning_automaton`] builds one chain of states per word, which accepts
//! the words themselves. [`non_deterministic_duplicate`] doubles an automaton
//! into an unedited and an edited copy and adds the transitions that spend the
//! one edit while going from the first copy to the second.

use vstd::prelude::*;
use crate::automaton::{lemma_push_holds, lemma_push_keeps, Either, State, NFA};
use crate::text::chars_of;

verus! {

/// A labelled transition between states of type `T`.
pub type Edge<T> = (T, Option<char>, T);

/// The character sequences of a list of strings.
pub open spec fn views(strings: Seq<&str>) -> Seq<Seq<char>> {
    Seq::new(strings.len(), |i: int| strings[i]@)
}

/// `e` is a step of the chain of word `i`: it leads from position `k` to
/// position `k + 1` and is labelled with the character at position `k`.
pub open spec fn chain_edge(words: Seq<Seq<char>>, e: Edge<(usize, usize)>) -> bool {
    let i = e.0.0 as int;
    let k = e.0.1 as int;
    &&& i < words.len()
    &&& k < words[i].len()
    &&& e.1 == Some(words[i][k])
    &&& e.2 == (e.0.0, (k + 1) as usize)
}

/// The lexicon fits the machine: its size and the length of each word are
/// numbers that a `usize` holds.
pub open spec fn fits(words: Seq<Seq<char>>) -> bool {
    &&& words.len() <= usize::MAX
    &&& forall|i: int| 0 <= i < words.len() ==> (#[trigger] words[i]).len() <= usize::MAX
}

/// `a` is the automaton of chains for `words`: the word of index `i` and
/// length `n` has the initial state `(i, 0)`, the final state `(i, n)` and the
/// steps of its chain, and there is nothing else.
pub open spec fn spells(a: NFA<(usize, usize)>, words: Seq<Seq<char>>) -> bool {
    &&& a.initial_states@ == Seq::new(words.len(), |i: int| (i as usize, 0usize))
    &&& a.final_states@ == Seq::new(words.len(), |i: int| (i as usize, words[i].len() as usize))
    &&& forall|e: Edge<(usize, usize)>| a.transitions@.contains(e) <==> chain_edge(words, e)
    &&& a.wildcards@.len() == 0
}

/// The automaton that accepts exactly the given words: for the word of index
/// `i` and length `n`, the states `(i, 0)` to `(i, n)` in a chain, each step
/// labelled with the next character of the word; `(i, 0)` is initial and
/// `(i, n)` is final.
pub fn assigning_automaton(strings: Vec<&str>) -> (a: NFA<(usize, usize)>)
    ensures
        spells(a, views(strings@)),
        fits(views(strings@)),
{
    let ghost words = views(strings@);
    let mut initial_states: Vec<(usize, usize)> = Vec::new();
    let mut final_states: Vec<(usize, usize)> = Vec::new();
    let mut transitions: Vec<Edge<(usize, usize)>> = Vec::new();
    let mut i: usize = 0;
    while i < strings.len()
        invariant
            i <= strings.len(),
            words == views(strings@),
            forall|j: int| 0 <= j < i ==> (#[trigger] words[j]).len() <= usize::MAX,
            initial_states@ == Seq::new(i as nat, |j: int| (j as usize, 0usize)),
            final_states@ == Seq::new(i as nat, |j: int| (j as usize, words[j].len() as usize)),
            forall|e: Edge<(usize, usize)>| transitions@.contains(e) ==> chain_edge(words, e),
            forall|e: Edge<(usize, usize)>|
                chain_edge(words, e) && e.0.0 < i ==> transitions@.contains(e),
        decreases strings.len() - i,
    {
        let word = chars_of(strings[i]);
        assert(word@ == words[i as int]);
        initial_states.push((i, 0));
        final_states.push((i, word.len()));
        assert(initial_states@ =~= Seq::new((i + 1) as nat, |j: int| (j as usize, 0usize)));
        assert(final_states@ =~= Seq::new(
            (i + 1) as nat,
            |j: int| (j as usize, words[j].len() as usize),
        ));
        let mut k: usize = 0;
        while k < word.len()
            invariant
                k <= word.len(),
                i < strings.len(),
                word@ == words[i as int],
                words.len() == strings.len(),
                forall|e: Edge<(usize, usize)>| transitions@.contains(e) ==> chain_edge(words, e),
                forall|e: Edge<(usize, usize)>|
                    chain_edge(words, e) && (e.0.0 < i || (e.0.0 == i && e.0.1 < k))
                        ==> transitions@.contains(e),
            decreases word.len() - k,
        {
            let edge = ((i, k), Some(word[k]), (i, k + 1));
            proof {
                lemma_push_keeps(transitions@, edge);
                assert forall|e: Edge<(usize, usize)>|
                    transitions@.push(edge).contains(e) implies chain_edge(words, e) by {
                    lemma_push_holds(transitions@, edge, e);
                }
                assert forall|e: Edge<(usize, usize)>|
                    chain_edge(words, e) && (e.0.0 < i || (e.0.0 == i && e.0.1 < k + 1))
                        implies transitions@.push(edge).contains(e) by {
                    if e.0.0 == i && e.0.1 == k {
                        assert(e == edge);
                    }
                }
            }
            transitions.push(edge);
            k += 1;
        }
        i += 1;
    }
    NFA { final_states, transitions, wildcards: Vec::new(), initial_states }
}

impl<T> NFA<T> {
    /// `u` is named somewhere in the automaton.
    pub open spec fn is_state(&self, u: T) -> bool {
        ||| self.initial_states@.contains(u)
        ||| self.final_states@.contains(u)
        ||| exists|e: Edge<T>| #[trigger] self.transitions@.contains(e) && (e.0 == u || e.2 == u)
        ||| exists|w: (T, T)| #[trigger] self.wildcards@.contains(w) && (w.0 == u || w.1 == u)
    }

    /// Some transition from `u` to `v` consumes a character.
    pub open spec fn consuming(&self, u: T, v: T) -> bool {
        ||| exists|c: char| #[trigger] self.transitions@.contains((u, Some(c), v))
        ||| self.wildcards@.contains((u, v))
    }

    /// The automaton can pass from the unedited copy of `u` to the edited copy
    /// of `v`: without a move, or in place of a transition that consumes a
    /// character.
    pub open spec fn switches(&self, u: T, v: T) -> bool {
        (u == v && self.is_state(u)) || self.consuming(u, v)
    }

    /// `e` is a labelled transition of the doubled automaton.
    pub open spec fn doubled_edge(&self, e: Edge<Either<T, T>>) -> bool {
        match (e.0, e.2) {
            (Either::Left(u), Either::Left(v)) => self.transitions@.contains((u, e.1, v)),
            (Either::Right(u), Either::Right(v)) => self.transitions@.contains((u, e.1, v)),
            (Either::Left(u), Either::Right(v)) => e.1 is None && self.switches(u, v),
            (Either::Right(u), Either::Left(v)) => false,
        }
    }

    /// `w` is a wildcard transition of the doubled automaton.
    pub open spec fn doubled_wildcard(&self, w: (Either<T, T>, Either<T, T>)) -> bool {
        match (w.0, w.1) {
            (Either::Left(u), Either::Left(v)) => self.wildcards@.contains((u, v)),
            (Either::Right(u), Either::Right(v)) => self.wildcards@.contains((u, v)),
            (Either::Left(u), Either::Right(v)) => self.switches(u, v),
            (Either::Right(u), Either::Left(v)) => false,
        }
    }
}

/// `d` is `a` doubled: it starts in the unedited initial states of `a`, accepts
/// in the edited final states of `a`, and has the transitions that
/// [`NFA::doubled_edge`] and [`NFA::doubled_wildcard`] describe, and no others.
pub open spec fn doubles<T>(d: NFA<Either<T, T>>, a: NFA<T>) -> bool {
    &&& d.initial_states@ == Seq::new(
        a.initial_states@.len(),
        |i: int| Either::<T, T>::Left(a.initial_states@[i]),
    )
    &&& d.final_states@ == Seq::new(
        a.final_states@.len(),
        |i: int| Either::<T, T>::Right(a.final_states@[i]),
    )
    &&& forall|e: Edge<Either<T, T>>| d.transitions@.contains(e) <==> a.doubled_edge(e)
    &&& forall|w: (Either<T, T>, Either<T, T>)| d.wildcards@.contains(w) <==> a.doubled_wildcard(w)
}

/// The pairs of states between which the doubled automaton may pass from the
/// unedited copy to the edited one.
pub fn switching_pairs<T: State + Copy>(a: &NFA<T>) -> (r: Vec<(T, T)>)
    ensures
        forall|u: T, v: T| r@.contains((u, v)) <==> a.switches(u, v),
{
    let mut r: Vec<(T, T)> = Vec::new();
    let mut i: usize = 0;
    while i < a.initial_states.len()
        invariant
            i <= a.initial_states.len(),
            forall|u: T, v: T| r@.contains((u, v)) ==> a.switches(u, v),
            forall|j: int|
                0 <= j < i ==> r@.contains(
                    (#[trigger] a.initial_states@[j], a.initial_states@[j]),
                ),
        decreases a.initial_states.len() - i,
    {
        let u = a.initial_states[i];
        proof {
            assert(a.initial_states@.contains(u));
            lemma_push_keeps(r@, (u, u));
            assert forall|x: T, y: T| r@.push((u, u)).contains((x, y)) implies a.switches(x, y) by {
                lemma_push_holds(r@, (u, u), (x, y));
            }
        }
        r.push((u, u));
        i += 1;
    }
    let mut i: usize = 0;
    while i < a.final_states.len()
        invariant
            i <= a.final_states.len(),
            forall|u: T, v: T| r@.contains((u, v)) ==> a.switches(u, v),
            forall|j: int|
                0 <= j < a.initial_states@.len() ==> r@.contains(
                    (#[trigger] a.initial_states@[j], a.initial_states@[j]),
                ),
            forall|j: int|
                0 <= j < i ==> r@.contains((#[trigger] a.final_states@[j], a.final_states@[j])),
        decreases a.final_states.len() - i,
    {
        let u = a.final_states[i];
        proof {
            assert(a.final_states@.contains(u));
            lemma_push_keeps(r@, (u, u));
            assert forall|x: T, y: T| r@.push((u, u)).contains((x, y)) implies a.switches(x, y) by {
                lemma_push_holds(r@, (u, u), (x, y));
            }
        }
        r.push((u, u));
        i += 1;
    }
    let mut i: usize = 0;
    while i < a.transitions.len()
        invariant
            i <= a.transitions.len(),
            forall|u: T, v: T| r@.contains((u, v)) ==> a.switches(u, v),
            forall|j: int|
                0 <= j < a.initial_states@.len() ==> r@.contains(
                    (#[trigger] a.initial_states@[j], a.initial_states@[j]),
                ),
            forall|j: int|
                0 <= j < a.final_states@.len() ==> r@.contains(
                    (#[trigger] a.final_states@[j], a.final_states@[j]),
                ),
            forall|j: int|
                0 <= j < i ==> {
                    let e = #[trigger] a.transitions@[j];
                    &&& r@.contains((e.0, e.0))
                    &&& r@.contains((e.2, e.2))
                    &&& e.1 is Some ==> r@.contains((e.0, e.2))
                },
        decreases a.transitions.len() - i,
    {
        let u = a.transitions[i].0;
        let label = a.transitions[i].1;
        let v = a.transitions[i].2;
        proof {
            assert(a.transitions@.contains(a.transitions@[i as int]));
            assert(a.is_state(u) && a.is_state(v));
            lemma_push_keeps(r@, (u, u));
            assert forall|x: T, y: T| r@.push((u, u)).contains((x, y)) implies a.switches(x, y) by {
                lemma_push_holds(r@, (u, u), (x, y));
            }
        }
        r.push((u, u));
        proof {
            lemma_push_keeps(r@, (v, v));
            assert forall|x: T, y: T| r@.push((v, v)).contains((x, y)) implies a.switches(x, y) by {
                lemma_push_holds(r@, (v, v), (x, y));
            }
        }
        r.push((v, v));
        if label.is_some() {
            proof {
                assert(a.transitions@.contains((u, Some(label->0), v)));
                assert(a.consuming(u, v));
                lemma_push_keeps(r@, (u, v));
                assert forall|x: T, y: T| r@.push((u, v)).contains((x, y)) implies a.switches(
                    x,
                    y,
                ) by {
                    lemma_push_holds(r@, (u, v), (x, y));
                }
            }
            r.push((u, v));
        }
        i += 1;
    }
    let mut i: usize = 0;
    while i < a.wildcards.len()
        invariant
            i <= a.wildcards.len(),
            forall|u: T, v: T| r@.contains((u, v)) ==> a.switches(u, v),
            forall|j: int|
                0 <= j < a.initial_states@.len() ==> r@.contains(
                    (#[trigger] a.initial_states@[j], a.initial_states@[j]),
                ),
            forall|j: int|
                0 <= j < a.final_states@.len() ==> r@.contains(
                    (#[trigger] a.final_states@[j], a.final_states@[j]),
                ),
            forall|j: int|
                0 <= j < a.transitions@.len() ==> {
                    let e = #[trigger] a.transitions@[j];
                    &&& r@.contains((e.0, e.0))
                    &&& r@.contains((e.2, e.2))
                    &&& e.1 is Some ==> r@.contains((e.0, e.2))
                },
            forall|j: int|
                0 <= j < i ==> {
                    let w = #[trigger] a.wildcards@[j];
                    &&& r@.contains((w.0, w.0))
                    &&& r@.contains((w.1, w.1))
                    &&& r@.contains((w.0, w.1))
                },
        decreases a.wildcards.len() - i,
    {
        let u = a.wildcards[i].0;
        let v = a.wildcards[i].1;
        proof {
            assert(a.wildcards@.contains(a.wildcards@[i as int]));
            assert(a.is_state(u) && a.is_state(v));
            assert(a.consuming(u, v));
            lemma_push_keeps(r@, (u, u));
            assert forall|x: T, y: T| r@.push((u, u)).contains((x, y)) implies a.switches(x, y) by {
                lemma_push_holds(r@, (u, u), (x, y));
            }
        }
        r.push((u, u));
        proof {
            lemma_push_keeps(r@, (v, v));
            assert forall|x: T, y: T| r@.push((v, v)).contains((x, y)) implies a.switches(x, y) by {
                lemma_push_holds(r@, (v, v), (x, y));
            }
        }
        r.push((v, v));
        proof {
            lemma_push_keeps(r@, (u, v));
            assert forall|x: T, y: T| r@.push((u, v)).contains((x, y)) implies a.switches(x, y) by {
                lemma_push_holds(r@, (u, v), (x, y));
            }
        }
        r.push((u, v));
        i += 1;
    }
    proof {
        assert forall|u: T, v: T| a.switches(u, v) implies r@.contains((u, v)) by {
            if a.consuming(u, v) {
                if a.wildcards@.contains((u, v)) {
                    let j = choose|j: int| 0 <= j < a.wildcards@.len() && a.wildcards@[j] == (u, v);
                    assert(r@.contains((a.wildcards@[j].0, a.wildcards@[j].1)));
                } else {
                    let c = choose|c: char| #[trigger] a.transitions@.contains((u, Some(c), v));
                    let j = choose|j: int|
                        0 <= j < a.transitions@.len() && a.transitions@[j] == (u, Some(c), v);
                    assert(r@.contains((a.transitions@[j].0, a.transitions@[j].2)));
                }
            } else if a.initial_states@.contains(u) {
                let j = choose|j: int|
                    0 <= j < a.initial_states@.len() && a.initial_states@[j] == u;
                assert(r@.contains((a.initial_states@[j], a.initial_states@[j])));
            } else if a.final_states@.contains(u) {
                let j = choose|j: int| 0 <= j < a.final_states@.len() && a.final_states@[j] == u;
                assert(r@.contains((a.final_states@[j], a.final_states@[j])));
            } else if exists|e: Edge<T>| #[trigger]
                a.transitions@.contains(e) && (e.0 == u || e.2 == u) {
                let e = choose|e: Edge<T>| #[trigger]
                    a.transitions@.contains(e) && (e.0 == u || e.2 == u);
                let j = choose|j: int| 0 <= j < a.transitions@.len() && a.transitions@[j] == e;
                assert(r@.contains((a.transitions@[j].0, a.transitions@[j].0)));
            } else {
                let w = choose|w: (T, T)| #[trigger]
                    a.wildcards@.contains(w) && (w.0 == u || w.1 == u);
                let j = choose|j: int| 0 <= j < a.wildcards@.len() && a.wildcards@[j] == w;
                assert(r@.contains((a.wildcards@[j].0, a.wildcards@[j].0)));
            }
        }
    }
    r
}

/// The automaton that runs `a` with at most one edit of the input.
///
/// Every state of `a` exists twice, unedited (`Left`) and edited (`Right`), and
/// the transitions of `a` exist in each copy. The automaton starts in the
/// unedited initial states and accepts in the edited final states. It passes
/// from the unedited copy of a state to the edited copy of that state without
/// reading (no edit) or while reading any character (an inserted character),
/// and from the unedited source of a transition that consumes a character to
/// the edited target of it without reading (a deleted character) or while
/// reading any character (a substituted character). It never passes back.
pub fn non_deterministic_duplicate<T: State + Copy>(a: NFA<T>) -> (d: NFA<Either<T, T>>)
    ensures
        doubles(d, a),
{
    let mut transitions: Vec<Edge<Either<T, T>>> = Vec::new();
    let mut wildcards: Vec<(Either<T, T>, Either<T, T>)> = Vec::new();
    let mut initial_states: Vec<Either<T, T>> = Vec::new();
    let mut final_states: Vec<Either<T, T>> = Vec::new();

    let mut i: usize = 0;
    while i < a.transitions.len()
        invariant
            i <= a.transitions.len(),
            forall|e: Edge<Either<T, T>>| transitions@.contains(e) ==> a.doubled_edge(e),
            forall|j: int|
                0 <= j < i ==> {
                    let e = #[trigger] a.transitions@[j];
                    &&& transitions@.contains((Either::Left(e.0), e.1, Either::Left(e.2)))
                    &&& transitions@.contains((Either::Right(e.0), e.1, Either::Right(e.2)))
                },
        decreases a.transitions.len() - i,
    {
        let u = a.transitions[i].0;
        let label = a.transitions[i].1;
        let v = a.transitions[i].2;
        let left = (Either::Left(u), label, Either::Left(v));
        let right = (Either::Right(u), label, Either::Right(v));
        proof {
            assert(a.transitions@.contains(a.transitions@[i as int]));
            lemma_push_keeps(transitions@, left);
            assert forall|e: Edge<Either<T, T>>|
                transitions@.push(left).contains(e) implies a.doubled_edge(e) by {
                lemma_push_holds(transitions@, left, e);
            }
        }
        transitions.push(left);
        proof {
            lemma_push_keeps(transitions@, right);
            assert forall|e: Edge<Either<T, T>>|
                transitions@.push(right).contains(e) implies a.doubled_edge(e) by {
                lemma_push_holds(transitions@, right, e);
            }
        }
        transitions.push(right);
        i += 1;
    }

    let mut i: usize = 0;
    while i < a.wildcards.len()
        invariant
            i <= a.wildcards.len(),
            forall|w: (Either<T, T>, Either<T, T>)| wildcards@.contains(w) ==> a.doubled_wildcard(w),
            forall|j: int|
                0 <= j < i ==> {
                    let w = #[trigger] a.wildcards@[j];
                    &&& wildcards@.contains((Either::Left(w.0), Either::Left(w.1)))
                    &&& wildcards@.contains((Either::Right(w.0), Either::Right(w.1)))
                },
        decreases a.wildcards.len() - i,
    {
        let u = a.wildcards[i].0;
        let v = a.wildcards[i].1;
        let left = (Either::Left(u), Either::Left(v));
        let right = (Either::Right(u), Either::Right(v));
        proof {
            assert(a.wildcards@.contains(a.wildcards@[i as int]));
            lemma_push_keeps(wildcards@, left);
            assert forall|w: (Either<T, T>, Either<T, T>)|
                wildcards@.push(left).contains(w) implies a.doubled_wildcard(w) by {
                lemma_push_holds(wildcards@, left, w);
            }
        }
        wildcards.push(left);
        proof {
            lemma_push_keeps(wildcards@, right);
            assert forall|w: (Either<T, T>, Either<T, T>)|
                wildcards@.push(right).contains(w) implies a.doubled_wildcard(w) by {
                lemma_push_holds(wildcards@, right, w);
            }
        }
        wildcards.push(right);
        i += 1;
    }

    let pairs = switching_pairs(&a);
    let mut i: usize = 0;
    while i < pairs.len()
        invariant
            i <= pairs.len(),
            forall|u: T, v: T| pairs@.contains((u, v)) <==> a.switches(u, v),
            forall|e: Edge<Either<T, T>>| transitions@.contains(e) ==> a.doubled_edge(e),
            forall|w: (Either<T, T>, Either<T, T>)| wildcards@.contains(w) ==> a.doubled_wildcard(w),
            forall|j: int|
                0 <= j < a.transitions@.len() ==> {
                    let e = #[trigger] a.transitions@[j];
                    &&& transitions@.contains((Either::Left(e.0), e.1, Either::Left(e.2)))
                    &&& transitions@.contains((Either::Right(e.0), e.1, Either::Right(e.2)))
                },
            forall|j: int|
                0 <= j < a.wildcards@.len() ==> {
                    let w = #[trigger] a.wildcards@[j];
                    &&& wildcards@.contains((Either::Left(w.0), Either::Left(w.1)))
                    &&& wildcards@.contains((Either::Right(w.0), Either::Right(w.1)))
                },
            forall|j: int|
                0 <= j < i ==> {
                    let p = #[trigger] pairs@[j];
                    &&& transitions@.contains((Either::Left(p.0), None::<char>, Either::Right(p.1)))
                    &&& wildcards@.contains((Either::Left(p.0), Either::Right(p.1)))
                },
        decreases pairs.len() - i,
    {
        let u = pairs[i].0;
        let v = pairs[i].1;
        let silent = (Either::Left(u), None::<char>, Either::Right(v));
        let reading = (Either::Left(u), Either::Right(v));
        proof {
            assert(pairs@.contains(pairs@[i as int]));
            assert(a.switches(u, v));
            lemma_push_keeps(transitions@, silent);
            assert forall|e: Edge<Either<T, T>>|
                transitions@.push(silent).contains(e) implies a.doubled_edge(e) by {
                lemma_push_holds(transitions@, silent, e);
            }
            lemma_push_keeps(wildcards@, reading);
            assert forall|w: (Either<T, T>, Either<T, T>)|
                wildcards@.push(reading).contains(w) implies a.doubled_wildcard(w) by {
                lemma_push_holds(wildcards@, reading, w);
            }
        }
        transitions.push(silent);
        wildcards.push(reading);
        i += 1;
    }

    let mut i: usize = 0;
    while i < a.initial_states.len()
        invariant
            i <= a.initial_states.len(),
            initial_states@ == Seq::new(
                i as nat,
                |j: int| Either::<T, T>::Left(a.initial_states@[j]),
            ),
        decreases a.initial_states.len() - i,
    {
        initial_states.push(Either::Left(a.initial_states[i]));
        i += 1;
        assert(initial_states@ =~= Seq::new(
            i as nat,
            |j: int| Either::<T, T>::Left(a.initial_states@[j]),
        ));
    }
    let mut i: usize = 0;
    while i < a.final_states.len()
        invariant
            i <= a.final_states.len(),
            final_states@ == Seq::new(i as nat, |j: int| Either::<T, T>::Right(a.final_states@[j])),
        decreases a.final_states.len() - i,
    {
        final_states.push(Either::Right(a.final_states[i]));
        i += 1;
        assert(final_states@ =~= Seq::new(
            i as nat,
            |j: int| Either::<T, T>::Right(a.final_states@[j]),
        ));
    }
    proof {
        assert forall|e: Edge<Either<T, T>>| a.doubled_edge(e) implies transitions@.contains(e) by {
            match (e.0, e.2) {
                (Either::Left(u), Either::Left(v)) => {
                    let j = choose|j: int|
                        0 <= j < a.transitions@.len() && a.transitions@[j] == (u, e.1, v);
                    let b = a.transitions@[j];
                    assert(transitions@.contains((Either::Left(b.0), b.1, Either::Left(b.2))));
                },
                (Either::Right(u), Either::Right(v)) => {
                    let j = choose|j: int|
                        0 <= j < a.transitions@.len() && a.transitions@[j] == (u, e.1, v);
                    let b = a.transitions@[j];
                    assert(transitions@.contains((Either::Right(b.0), b.1, Either::Right(b.2))));
                },
                (Either::Left(u), Either::Right(v)) => {
                    assert(pairs@.contains((u, v)));
                    let j = choose|j: int| 0 <= j < pairs@.len() && pairs@[j] == (u, v);
                    let p = pairs@[j];
                    assert(transitions@.contains(
                        (Either::Left(p.0), None::<char>, Either::Right(p.1)),
                    ));
                },
                (Either::Right(u), Either::Left(v)) => {},
            }
        }
        assert forall|w: (Either<T, T>, Either<T, T>)|
            a.doubled_wildcard(w) implies wildcards@.contains(w) by {
            match (w.0, w.1) {
                (Either::Left(u), Either::Left(v)) => {
                    let j = choose|j: int| 0 <= j < a.wildcards@.len() && a.wildcards@[j] == (u, v);
                    let b = a.wildcards@[j];
                    assert(wildcards@.contains((Either::Left(b.0), Either::Left(b.1))));
                },
                (Either::Right(u), Either::Right(v)) => {
                    let j = choose|j: int| 0 <= j < a.wildcards@.len() && a.wildcards@[j] == (u, v);
                    let b = a.wildcards@[j];
                    assert(wildcards@.contains((Either::Right(b.0), Either::Right(b.1))));
                },
                (Either::Left(u), Either::Right(v)) => {
                    assert(pairs@.contains((u, v)));
                    let j = choose|j: int| 0 <= j < pairs@.len() && pairs@[j] == (u, v);
                    let p = pairs@[j];
                    assert(wildcards@.contains((Either::Left(p.0), Either::Right(p.1))));
                },
                (Either::Right(u), Either::Left(v)) => {},
            }
        }
    }
    NFA { final_states, transitions, wildcards, initial_states }
}

} // verus!
