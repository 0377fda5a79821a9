//! Proof that the doubled automaton of chains accepts, for each word, exactly
//! the strings within one edit of it.

use vstd::prelude::*;
use crate::automaton::{Either, NFA};
use crate::edit_distance::{
    edit_distance, lemma_distance_last, lemma_distance_zero, one_edit_cases,
};
use crate::typo_automaton::{chain_edge, doubles, fits, spells, Edge};

verus! {

/// A position in a word.
pub type Pos = (usize, usize);

/// `u` is a position of some word of the lexicon.
pub open spec fn valid_pos(words: Seq<Seq<char>>, u: Pos) -> bool {
    u.0 < words.len() && u.1 <= words[u.0 as int].len()
}

/// `v` is the position after `u` in the same word.
pub open spec fn next_pos(words: Seq<Seq<char>>, u: Pos, v: Pos) -> bool {
    u.0 < words.len() && u.1 < words[u.0 as int].len() && v == (u.0, (u.1 + 1) as usize)
}

/// What it means for the typo automaton to be in state `q` after `input`: in
/// the unedited copy, `input` is the word up to the position; in the edited
/// copy, `input` is within one edit of the word up to the position.
pub open spec fn typo_state(words: Seq<Seq<char>>, input: Seq<char>, q: Either<Pos, Pos>) -> bool {
    match q {
        Either::Left(u) => valid_pos(words, u) && input == words[u.0 as int].take(u.1 as int),
        Either::Right(u) => valid_pos(words, u) && edit_distance(
            input,
            words[u.0 as int].take(u.1 as int),
        ) <= 1,
    }
}

/// In the automaton of chains, the states are the positions, and the
/// transitions that consume a character lead to the next position.
pub proof fn lemma_chain_shape(a: NFA<Pos>, words: Seq<Seq<char>>, u: Pos, v: Pos)
    requires
        spells(a, words),
        fits(words),
    ensures
        a.is_state(u) <==> valid_pos(words, u),
        a.consuming(u, v) <==> next_pos(words, u, v),
        a.switches(u, v) <==> (u == v && valid_pos(words, u)) || next_pos(words, u, v),
        forall|l: Option<char>| #[trigger]
            a.transitions@.contains((u, l, v)) ==> l is Some && next_pos(words, u, v)
                && l->0 == words[u.0 as int][u.1 as int],
{
    if a.is_state(u) {
        if a.initial_states@.contains(u) {
            let j = choose|j: int| 0 <= j < a.initial_states@.len() && a.initial_states@[j] == u;
        } else if a.final_states@.contains(u) {
            let j = choose|j: int| 0 <= j < a.final_states@.len() && a.final_states@[j] == u;
        } else {
            let e = choose|e: Edge<Pos>| #[trigger]
                a.transitions@.contains(e) && (e.0 == u || e.2 == u);
            assert(chain_edge(words, e));
        }
    }
    if valid_pos(words, u) {
        if u.1 == 0 {
            assert(a.initial_states@[u.0 as int] == u);
        } else {
            let w = words[u.0 as int];
            let e = ((u.0, (u.1 - 1) as usize), Some(w[u.1 - 1]), u);
            assert(chain_edge(words, e));
            assert(a.transitions@.contains(e));
        }
    }
    if a.consuming(u, v) {
        let c = choose|c: char| #[trigger] a.transitions@.contains((u, Some(c), v));
        assert(chain_edge(words, (u, Some(c), v)));
    }
    if next_pos(words, u, v) {
        let c = words[u.0 as int][u.1 as int];
        assert(chain_edge(words, (u, Some(c), v)));
        assert(a.transitions@.contains((u, Some(c), v)));
    }
    assert forall|l: Option<char>| #[trigger] a.transitions@.contains((u, l, v)) implies l is Some
        && next_pos(words, u, v) && l->0 == words[u.0 as int][u.1 as int] by {
        assert(chain_edge(words, (u, l, v)));
    }
}

/// The epsilon transitions of the typo automaton lead from an unedited
/// position to the same or the next position, edited.
pub proof fn lemma_typo_eps_edge(
    a: NFA<Pos>,
    d: NFA<Either<Pos, Pos>>,
    words: Seq<Seq<char>>,
    p: Either<Pos, Pos>,
    q: Either<Pos, Pos>,
)
    requires
        spells(a, words),
        doubles(d, a),
        fits(words),
    ensures
        d.eps_edge(p, q) <==> (p matches Either::Left(u) && q matches Either::Right(v) && ((u == v
            && valid_pos(words, u)) || next_pos(words, u, v))),
{
    let e = (p, None::<char>, q);
    assert(d.transitions@.contains(e) <==> a.doubled_edge(e));
    match (p, q) {
        (Either::Left(u), Either::Left(v)) => {
            lemma_chain_shape(a, words, u, v);
        },
        (Either::Right(u), Either::Right(v)) => {
            lemma_chain_shape(a, words, u, v);
        },
        (Either::Left(u), Either::Right(v)) => {
            lemma_chain_shape(a, words, u, v);
        },
        (Either::Right(u), Either::Left(v)) => {},
    }
}

/// The transitions of the typo automaton that consume `c`: a step of a chain
/// labelled `c`, in either copy; or, while reading any character, from an
/// unedited position to the same or the next position, edited.
pub proof fn lemma_typo_char_edge(
    a: NFA<Pos>,
    d: NFA<Either<Pos, Pos>>,
    words: Seq<Seq<char>>,
    p: Either<Pos, Pos>,
    c: char,
    q: Either<Pos, Pos>,
)
    requires
        spells(a, words),
        doubles(d, a),
        fits(words),
    ensures
        d.char_edge(p, c, q) <==> match (p, q) {
            (Either::Left(u), Either::Left(v)) => next_pos(words, u, v) && c
                == words[u.0 as int][u.1 as int],
            (Either::Right(u), Either::Right(v)) => next_pos(words, u, v) && c
                == words[u.0 as int][u.1 as int],
            (Either::Left(u), Either::Right(v)) => (u == v && valid_pos(words, u)) || next_pos(
                words,
                u,
                v,
            ),
            (Either::Right(u), Either::Left(v)) => false,
        },
{
    let e = (p, Some(c), q);
    assert(d.transitions@.contains(e) <==> a.doubled_edge(e));
    assert(d.wildcards@.contains((p, q)) <==> a.doubled_wildcard((p, q)));
    match (p, q) {
        (Either::Left(u), Either::Left(v)) => {
            lemma_chain_shape(a, words, u, v);
            if next_pos(words, u, v) && c == words[u.0 as int][u.1 as int] {
                assert(chain_edge(words, (u, Some(c), v)));
            }
        },
        (Either::Right(u), Either::Right(v)) => {
            lemma_chain_shape(a, words, u, v);
            if next_pos(words, u, v) && c == words[u.0 as int][u.1 as int] {
                assert(chain_edge(words, (u, Some(c), v)));
            }
        },
        (Either::Left(u), Either::Right(v)) => {
            lemma_chain_shape(a, words, u, v);
        },
        (Either::Right(u), Either::Left(v)) => {},
    }
}

/// A path of epsilon transitions of the typo automaton has at most one step.
pub proof fn lemma_typo_eps_path(
    a: NFA<Pos>,
    d: NFA<Either<Pos, Pos>>,
    words: Seq<Seq<char>>,
    p: Either<Pos, Pos>,
    q: Either<Pos, Pos>,
    n: nat,
)
    requires
        spells(a, words),
        doubles(d, a),
        fits(words),
        d.eps_path(p, q, n),
    ensures
        p == q || d.eps_edge(p, q),
    decreases n,
{
    if n > 0 {
        let m = choose|m: Either<Pos, Pos>|
            d.eps_path(p, m, (n - 1) as nat) && #[trigger] d.eps_edge(m, q);
        lemma_typo_eps_path(a, d, words, p, m, (n - 1) as nat);
        lemma_typo_eps_edge(a, d, words, p, m);
        lemma_typo_eps_edge(a, d, words, m, q);
    }
}

/// In the typo automaton, `q` is reached from `p` by epsilon transitions
/// exactly when it is `p` or one epsilon transition away from it.
pub proof fn lemma_typo_eps_reach(
    a: NFA<Pos>,
    d: NFA<Either<Pos, Pos>>,
    words: Seq<Seq<char>>,
    p: Either<Pos, Pos>,
    q: Either<Pos, Pos>,
)
    requires
        spells(a, words),
        doubles(d, a),
        fits(words),
    ensures
        d.eps_reach(p, q) <==> (p == q || d.eps_edge(p, q)),
{
    if d.eps_reach(p, q) {
        let n = choose|n: nat| d.eps_path(p, q, n);
        lemma_typo_eps_path(a, d, words, p, q, n);
    }
    if p == q {
        d.lemma_reach_self(p);
    }
    if d.eps_edge(p, q) {
        d.lemma_reach_self(p);
        d.lemma_reach_extend(p, p, q);
    }
}

/// A word up to a position is the word up to the position before, followed
/// by the character there.
pub proof fn lemma_take_step(w: Seq<char>, k: int)
    requires
        0 < k <= w.len(),
    ensures
        w.take(k).drop_last() == w.take(k - 1),
        w.take(k).last() == w[k - 1],
        w.take(k - 1).push(w[k - 1]) == w.take(k),
{
    assert(w.take(k).drop_last() =~= w.take(k - 1));
    assert(w.take(k - 1).push(w[k - 1]) =~= w.take(k));
}

/// The typo automaton is in state `q` after `input` exactly when
/// [`typo_state`] says so.
pub proof fn lemma_typo_reach(
    a: NFA<Pos>,
    d: NFA<Either<Pos, Pos>>,
    words: Seq<Seq<char>>,
    input: Seq<char>,
    q: Either<Pos, Pos>,
)
    requires
        spells(a, words),
        doubles(d, a),
        fits(words),
    ensures
        d.reach(input, q) <==> typo_state(words, input, q),
    decreases input.len(), 2nat,
{
    if input.len() == 0 {
        lemma_typo_start(a, d, words, input, q);
    } else {
        if d.reach(input, q) {
            lemma_typo_sound(a, d, words, input, q);
        }
        if typo_state(words, input, q) {
            lemma_typo_complete(a, d, words, input, q);
        }
    }
}

/// Before any input, the typo automaton is in the states of [`typo_state`].
proof fn lemma_typo_start(
    a: NFA<Pos>,
    d: NFA<Either<Pos, Pos>>,
    words: Seq<Seq<char>>,
    input: Seq<char>,
    q: Either<Pos, Pos>,
)
    requires
        spells(a, words),
        doubles(d, a),
        fits(words),
        input.len() == 0,
    ensures
        d.reach(input, q) <==> typo_state(words, input, q),
{
    if d.reach(input, q) {
        let p = choose|p: Either<Pos, Pos>|
            d.initial_states@.contains(p) && #[trigger] d.eps_reach(p, q);
        let j = choose|j: int| 0 <= j < d.initial_states@.len() && d.initial_states@[j] == p;
        assert(p == Either::<Pos, Pos>::Left((j as usize, 0usize)));
        lemma_typo_eps_reach(a, d, words, p, q);
        lemma_typo_eps_edge(a, d, words, p, q);
        match q {
            Either::Left(u) => {
                assert(input =~= words[u.0 as int].take(0));
            },
            Either::Right(u) => {
                let w = words[u.0 as int].take(u.1 as int);
                assert(w.len() <= 1);
            },
        }
    }
    if typo_state(words, input, q) {
        match q {
            Either::Left(u) => {
                assert(words[u.0 as int].take(u.1 as int).len() == 0);
                assert(u.1 == 0);
                assert(d.initial_states@[u.0 as int] == q);
                d.lemma_reach_self(q);
                assert(d.in_closure(d.initial_states@, q));
            },
            Either::Right(u) => {
                let w = words[u.0 as int].take(u.1 as int);
                assert(edit_distance(input, w) == w.len());
                assert(u.1 <= 1);
                let p = Either::<Pos, Pos>::Left((u.0, 0usize));
                assert(d.initial_states@[u.0 as int] == p);
                lemma_typo_eps_edge(a, d, words, p, q);
                lemma_typo_eps_reach(a, d, words, p, q);
                assert(d.in_closure(d.initial_states@, q));
            },
        }
    }
}

/// Every state that the typo automaton reaches after a non-empty input is one
/// of [`typo_state`].
proof fn lemma_typo_sound(
    a: NFA<Pos>,
    d: NFA<Either<Pos, Pos>>,
    words: Seq<Seq<char>>,
    input: Seq<char>,
    q: Either<Pos, Pos>,
)
    requires
        spells(a, words),
        doubles(d, a),
        fits(words),
        input.len() > 0,
        d.reach(input, q),
    ensures
        typo_state(words, input, q),
    decreases input.len(), 1nat,
{
    let before = input.drop_last();
    let c = input.last();
    assert(input =~= before.push(c));
    let (s, r) = choose|s: Either<Pos, Pos>, r: Either<Pos, Pos>|
        d.reach(input.drop_last(), s) && #[trigger] d.char_edge(s, input.last(), r) && d.eps_reach(
            r,
            q,
        );
    lemma_typo_reach(a, d, words, before, s);
    lemma_typo_char_edge(a, d, words, s, c, r);
    lemma_typo_eps_reach(a, d, words, r, q);
    lemma_typo_eps_edge(a, d, words, r, q);
    // the state right after the character was read
    match r {
        Either::Left(v) => {
            let w = words[v.0 as int];
            lemma_take_step(w, v.1 as int);
            assert(input == w.take(v.1 as int));
            match q {
                Either::Left(x) => {},
                Either::Right(x) => {
                    let target = words[x.0 as int].take(x.1 as int);
                    if x == v {
                        lemma_distance_zero(input, target);
                    } else {
                        lemma_take_step(words[x.0 as int], x.1 as int);
                        assert(one_edit_cases(before, c, target));
                        lemma_distance_last(before, c, target);
                    }
                },
            }
        },
        Either::Right(v) => {
            assert(q == r);
            let target = words[v.0 as int].take(v.1 as int);
            match s {
                Either::Left(u) => {
                    if u == v {
                        assert(before == target);
                    } else {
                        lemma_take_step(words[v.0 as int], v.1 as int);
                        assert(before == target.drop_last());
                    }
                    assert(one_edit_cases(before, c, target));
                },
                Either::Right(u) => {
                    lemma_take_step(words[v.0 as int], v.1 as int);
                    assert(one_edit_cases(before, c, target));
                },
            }
            lemma_distance_last(before, c, target);
        },
    }
}

/// Every state of [`typo_state`] for a non-empty input is one that the typo
/// automaton reaches.
proof fn lemma_typo_complete(
    a: NFA<Pos>,
    d: NFA<Either<Pos, Pos>>,
    words: Seq<Seq<char>>,
    input: Seq<char>,
    q: Either<Pos, Pos>,
)
    requires
        spells(a, words),
        doubles(d, a),
        fits(words),
        input.len() > 0,
        typo_state(words, input, q),
    ensures
        d.reach(input, q),
    decreases input.len(), 1nat,
{
    let before = input.drop_last();
    let c = input.last();
    assert(input =~= before.push(c));
    match q {
        Either::Left(u) => {
            let w = words[u.0 as int];
            assert(w.take(u.1 as int).len() == u.1);
            lemma_take_step(w, u.1 as int);
            let s = Either::<Pos, Pos>::Left((u.0, (u.1 - 1) as usize));
            lemma_typo_step(a, d, words, input, s, q, q);
        },
        Either::Right(u) => {
            let w = words[u.0 as int];
            let target = w.take(u.1 as int);
            lemma_distance_last(before, c, target);
            if u.1 > 0 {
                lemma_take_step(w, u.1 as int);
            }
            if target.len() > 0 && target.last() == c && edit_distance(before, target.drop_last())
                <= 1 {
                let s = Either::<Pos, Pos>::Right((u.0, (u.1 - 1) as usize));
                lemma_typo_step(a, d, words, input, s, q, q);
            } else if target.len() > 0 && before == target.drop_last() {
                let s = Either::<Pos, Pos>::Left((u.0, (u.1 - 1) as usize));
                lemma_typo_step(a, d, words, input, s, q, q);
            } else if before == target {
                let s = Either::<Pos, Pos>::Left(u);
                lemma_typo_step(a, d, words, input, s, q, q);
            } else {
                assert(input == target.drop_last());
                assert(u.1 >= 2);
                lemma_take_step(w, u.1 - 1);
                let s = Either::<Pos, Pos>::Left((u.0, (u.1 - 2) as usize));
                let r = Either::<Pos, Pos>::Left((u.0, (u.1 - 1) as usize));
                lemma_typo_step(a, d, words, input, s, r, q);
            }
        },
    }
}

/// One step of the typo automaton: from a state of [`typo_state`] before the
/// last character, over a transition that consumes it and epsilon transitions.
proof fn lemma_typo_step(
    a: NFA<Pos>,
    d: NFA<Either<Pos, Pos>>,
    words: Seq<Seq<char>>,
    input: Seq<char>,
    s: Either<Pos, Pos>,
    r: Either<Pos, Pos>,
    q: Either<Pos, Pos>,
)
    requires
        spells(a, words),
        doubles(d, a),
        fits(words),
        input.len() > 0,
        typo_state(words, input.drop_last(), s),
        match (s, r) {
            (Either::Left(u), Either::Left(v)) => next_pos(words, u, v) && input.last()
                == words[u.0 as int][u.1 as int],
            (Either::Right(u), Either::Right(v)) => next_pos(words, u, v) && input.last()
                == words[u.0 as int][u.1 as int],
            (Either::Left(u), Either::Right(v)) => (u == v && valid_pos(words, u)) || next_pos(
                words,
                u,
                v,
            ),
            (Either::Right(u), Either::Left(v)) => false,
        },
        r == q || (r matches Either::Left(u) && q matches Either::Right(v) && ((u == v
            && valid_pos(words, u)) || next_pos(words, u, v))),
    ensures
        d.reach(input, q),
    decreases input.len(), 0nat,
{
    lemma_typo_reach(a, d, words, input.drop_last(), s);
    lemma_typo_char_edge(a, d, words, s, input.last(), r);
    lemma_typo_eps_edge(a, d, words, r, q);
    lemma_typo_eps_reach(a, d, words, r, q);
    assert(d.reach(input.drop_last(), s) && d.char_edge(s, input.last(), r) && d.eps_reach(r, q));
}

} // verus!
