//! Nondeterministic finite automata over characters, and their execution.
//!
//! An automaton is a list of initial states, a list of final states, a list of
//! labelled transitions and a list of wildcard transitions. A transition
//! labelled `Some(c)` consumes the character `c`; one labelled `None` is an
//! epsilon transition and consumes nothing; a wildcard transition consumes any
//! one character.
//!
//! [`NFA::reach`] says which states the automaton can be in once it has
//! consumed a given input, and [`run_automaton`] computes them.

use vstd::prelude::*;
use crate::text::chars_of;

verus! {

/// A state of an automaton: a value that can be compared with another.
pub trait State: Sized {
    /// Whether the two states are the same state.
    fn same(&self, other: &Self) -> (r: bool)
        ensures
            r == (*self == *other),
    ;
}

impl State for (usize, usize) {
    fn same(&self, other: &Self) -> (r: bool) {
        self.0 == other.0 && self.1 == other.1
    }
}

/// A value of one of two kinds.
#[derive(Clone, Copy, Debug, Hash, PartialEq, Eq)]
pub enum Either<A, B> {
    Left(A),
    Right(B),
}

impl<A: State, B: State> State for Either<A, B> {
    fn same(&self, other: &Self) -> (r: bool) {
        match (self, other) {
            (Either::Left(x), Either::Left(y)) => x.same(y),
            (Either::Right(x), Either::Right(y)) => x.same(y),
            _ => false,
        }
    }
}

/// A nondeterministic finite automaton with states of type `T`.
pub struct NFA<T> {
    pub final_states: Vec<T>,
    /// `(from, label, to)`: `Some(c)` consumes `c`, `None` consumes nothing.
    pub transitions: Vec<(T, Option<char>, T)>,
    /// `(from, to)`: consumes any one character.
    pub wildcards: Vec<(T, T)>,
    pub initial_states: Vec<T>,
}

impl<T> NFA<T> {
    /// There is an epsilon transition from `p` to `q`.
    pub open spec fn eps_edge(&self, p: T, q: T) -> bool {
        self.transitions@.contains((p, None::<char>, q))
    }

    /// There is a transition from `p` to `q` that consumes `c`.
    pub open spec fn char_edge(&self, p: T, c: char, q: T) -> bool {
        self.transitions@.contains((p, Some(c), q)) || self.wildcards@.contains((p, q))
    }

    /// `q` is reached from `p` by exactly `n` epsilon transitions.
    pub open spec fn eps_path(&self, p: T, q: T, n: nat) -> bool
        decreases n,
    {
        if n == 0 {
            p == q
        } else {
            exists|m: T| self.eps_path(p, m, (n - 1) as nat) && #[trigger] self.eps_edge(m, q)
        }
    }

    /// `q` is reached from `p` by epsilon transitions alone.
    pub open spec fn eps_reach(&self, p: T, q: T) -> bool {
        exists|n: nat| self.eps_path(p, q, n)
    }

    /// `q` is reached by epsilon transitions from some state of `set`.
    pub open spec fn in_closure(&self, set: Seq<T>, q: T) -> bool {
        exists|p: T| set.contains(p) && #[trigger] self.eps_reach(p, q)
    }

    /// `q` is reached from some state of `set` by one transition that consumes `c`.
    pub open spec fn in_step(&self, set: Seq<T>, c: char, q: T) -> bool {
        exists|p: T| set.contains(p) && #[trigger] self.char_edge(p, c, q)
    }

    /// The automaton can be in state `q` when it has consumed exactly `input`.
    pub open spec fn reach(&self, input: Seq<char>, q: T) -> bool
        decreases input.len(),
    {
        if input.len() == 0 {
            self.in_closure(self.initial_states@, q)
        } else {
            exists|p: T, r: T|
                self.reach(input.drop_last(), p) && #[trigger] self.char_edge(p, input.last(), r)
                    && self.eps_reach(r, q)
        }
    }

    /// The final states among the first `n` that the automaton can be in when it
    /// has consumed `input`, each once, in the order of the list of final states.
    pub open spec fn accepted_among(&self, input: Seq<char>, n: nat) -> Seq<T>
        decreases n,
    {
        if n == 0 || n > self.final_states@.len() {
            Seq::empty()
        } else {
            let before = self.accepted_among(input, (n - 1) as nat);
            let f = self.final_states@[n - 1];
            if self.reach(input, f) && !before.contains(f) {
                before.push(f)
            } else {
                before
            }
        }
    }

    /// The final states that the automaton can be in when it has consumed
    /// `input`, each once, in the order of the list of final states.
    pub open spec fn accepted(&self, input: Seq<char>) -> Seq<T> {
        self.accepted_among(input, self.final_states@.len())
    }

    /// How many transitions lead to a state that is not in `seen`.
    pub open spec fn unseen_targets(&self, seen: Seq<T>, n: nat) -> nat
        decreases n,
    {
        if n == 0 || n > self.transitions@.len() {
            0
        } else {
            self.unseen_targets(seen, (n - 1) as nat) + if seen.contains(
                self.transitions@[n - 1].2,
            ) {
                0nat
            } else {
                1nat
            }
        }
    }

    /// A state that joins `seen` never raises the count of unseen targets.
    pub proof fn lemma_unseen_monotone(&self, seen: Seq<T>, x: T, n: nat)
        requires
            n <= self.transitions@.len(),
        ensures
            self.unseen_targets(seen.push(x), n) <= self.unseen_targets(seen, n),
        decreases n,
    {
        if n > 0 {
            self.lemma_unseen_monotone(seen, x, (n - 1) as nat);
            let t = self.transitions@[n - 1].2;
            if seen.contains(t) {
                let i = choose|i: int| 0 <= i < seen.len() && seen[i] == t;
                assert(seen.push(x)[i] == t);
            }
        }
    }

    /// A new state that some transition among the first `n` leads to lowers the
    /// count of unseen targets.
    pub proof fn lemma_unseen_decreases(&self, seen: Seq<T>, x: T, n: nat, k: int)
        requires
            n <= self.transitions@.len(),
            0 <= k < n,
            self.transitions@[k].2 == x,
            !seen.contains(x),
        ensures
            self.unseen_targets(seen.push(x), n) < self.unseen_targets(seen, n),
        decreases n,
    {
        assert(seen.push(x)[seen.len() as int] == x);
        if k == n - 1 {
            self.lemma_unseen_monotone(seen, x, (n - 1) as nat);
        } else {
            self.lemma_unseen_decreases(seen, x, (n - 1) as nat, k);
            let t = self.transitions@[n - 1].2;
            if seen.contains(t) {
                let i = choose|i: int| 0 <= i < seen.len() && seen[i] == t;
                assert(seen.push(x)[i] == t);
            }
        }
    }

    /// A set that holds `p` and is closed under epsilon transitions holds every
    /// state reached from `p` by epsilon transitions.
    pub proof fn lemma_closed_holds_path(&self, set: Seq<T>, p: T, q: T, n: nat)
        requires
            set.contains(p),
            forall|x: T, y: T| set.contains(x) && #[trigger] self.eps_edge(x, y) ==> set.contains(y),
            self.eps_path(p, q, n),
        ensures
            set.contains(q),
        decreases n,
    {
        if n > 0 {
            let m = choose|m: T|
                self.eps_path(p, m, (n - 1) as nat) && #[trigger] self.eps_edge(m, q);
            self.lemma_closed_holds_path(set, p, m, (n - 1) as nat);
        }
    }

    /// One more epsilon transition extends a path of epsilon transitions.
    pub proof fn lemma_reach_extend(&self, p: T, m: T, q: T)
        requires
            self.eps_reach(p, m),
            self.eps_edge(m, q),
        ensures
            self.eps_reach(p, q),
    {
        let n = choose|n: nat| self.eps_path(p, m, n);
        assert(self.eps_path(p, m, ((n + 1) - 1) as nat));
        assert(self.eps_path(p, q, n + 1));
    }

    /// Every state is reached from itself.
    pub proof fn lemma_reach_self(&self, p: T)
        ensures
            self.eps_reach(p, p),
    {
        assert(self.eps_path(p, p, 0));
    }
}

/// Whether `x` occurs in `set`.
pub fn holds<T: State + Copy>(set: &Vec<T>, x: &T) -> (r: bool)
    ensures
        r == set@.contains(*x),
{
    let mut i: usize = 0;
    while i < set.len()
        invariant
            i <= set.len(),
            forall|j: int| 0 <= j < i ==> set@[j] != *x,
        decreases set.len() - i,
    {
        if set[i].same(x) {
            return true;
        }
        i += 1;
    }
    false
}

/// The state that one transition leads to when the automaton is in `state` and
/// reads `d`: `to` if the transition starts in `state` and is labelled `d`.
/// An epsilon transition reads nothing, so it leads nowhere here.
pub fn run_transition<T: State + Copy>(from: T, c: Option<char>, to: T, state: T, d: char) -> (r: Option<T>)
    ensures
        r == if state == from && c == Some(d) {
            Some(to)
        } else {
            None
        },
{
    if !state.same(&from) {
        return None;
    }
    match c {
        Some(e) => if e == d {
            Some(to)
        } else {
            None
        },
        None => None,
    }
}

/// The states reached from `set` by epsilon transitions alone.
pub fn epsilon_closure<T: State + Copy>(a: &NFA<T>, set: &Vec<T>) -> (r: Vec<T>)
    ensures
        forall|q: T| r@.contains(q) <==> a.in_closure(set@, q),
{
    let mut r: Vec<T> = Vec::new();
    let mut k: usize = 0;
    while k < set.len()
        invariant
            k <= set.len(),
            r@ == set@.take(k as int),
        decreases set.len() - k,
    {
        r.push(set[k]);
        k += 1;
        assert(set@.take(k as int) == set@.take(k - 1).push(set@[k - 1]));
    }
    assert(set@.take(set.len() as int) == set@);
    assert forall|q: T| r@.contains(q) implies a.in_closure(set@, q) by {
        a.lemma_reach_self(q);
    }
    let mut i: usize = 0;
    while i < r.len()
        invariant
            i <= r.len(),
            forall|q: T| set@.contains(q) ==> r@.contains(q),
            forall|q: T| r@.contains(q) ==> a.in_closure(set@, q),
            forall|j: int, y: T| 0 <= j < i && #[trigger] a.eps_edge(r@[j], y) ==> r@.contains(y),
        decreases a.unseen_targets(r@, a.transitions@.len()) + r.len() - i,
    {
        let state = r[i];
        let ghost before = r@;
        let mut t: usize = 0;
        while t < a.transitions.len()
            invariant
                t <= a.transitions.len(),
                i < before.len(),
                r@[i as int] == state,
                before.len() <= r.len(),
                forall|j: int| 0 <= j < before.len() ==> r@[j] == before[j],
                forall|q: T| set@.contains(q) ==> r@.contains(q),
                forall|q: T| r@.contains(q) ==> a.in_closure(set@, q),
                forall|j: int, y: T|
                    0 <= j < i && #[trigger] a.eps_edge(before[j], y) ==> r@.contains(y),
                forall|u: int|
                    0 <= u < t && a.transitions@[u].0 == state && a.transitions@[u].1 is None
                        ==> r@.contains(#[trigger] a.transitions@[u].2),
                a.unseen_targets(r@, a.transitions@.len()) + r.len() <= a.unseen_targets(
                    before,
                    a.transitions@.len(),
                ) + before.len(),
            decreases a.transitions.len() - t,
        {
            let from = a.transitions[t].0;
            let label = a.transitions[t].1;
            let to = a.transitions[t].2;
            if label.is_none() && from.same(&state) && !holds(&r, &to) {
                proof {
                    let ghost old_r = r@;
                    a.lemma_unseen_decreases(old_r, to, a.transitions@.len(), t as int);
                    assert(a.transitions@[t as int] == (state, None::<char>, to));
                    assert(a.eps_edge(state, to));
                    assert(old_r.contains(state));
                    let p = choose|p: T| set@.contains(p) && #[trigger] a.eps_reach(p, state);
                    a.lemma_reach_extend(p, state, to);
                    assert(a.in_closure(set@, to));
                    assert forall|q: T| old_r.push(to).contains(q) implies a.in_closure(
                        set@,
                        q,
                    ) by {
                        lemma_push_holds(old_r, to, q);
                    }
                    lemma_push_keeps(old_r, to);
                }
                r.push(to);
            }
            t += 1;
        }
        proof {
            assert forall|j: int, y: T| 0 <= j <= i && #[trigger] a.eps_edge(r@[j], y) implies r@.contains(
                y,
            ) by {
                if j < i {
                    assert(r@[j] == before[j]);
                    assert(a.eps_edge(before[j], y));
                } else {
                    let u = choose|u: int|
                        0 <= u < a.transitions@.len() && a.transitions@[u] == (
                            state,
                            None::<char>,
                            y,
                        );
                    assert(r@.contains(a.transitions@[u].2));
                }
            }
        }
        i += 1;
    }
    proof {
        assert forall|x: T, y: T| r@.contains(x) && #[trigger] a.eps_edge(x, y) implies r@.contains(
            y,
        ) by {
            let j = choose|j: int| 0 <= j < r@.len() && r@[j] == x;
            assert(a.eps_edge(r@[j], y));
        }
        assert forall|q: T| a.in_closure(set@, q) implies r@.contains(q) by {
            let p = choose|p: T| set@.contains(p) && #[trigger] a.eps_reach(p, q);
            let n = choose|n: nat| a.eps_path(p, q, n);
            a.lemma_closed_holds_path(r@, p, q, n);
        }
    }
    r
}

/// The states reached from `set` by one transition that consumes `c`.
pub fn consume<T: State + Copy>(a: &NFA<T>, set: &Vec<T>, c: char) -> (r: Vec<T>)
    ensures
        forall|q: T| r@.contains(q) <==> a.in_step(set@, c, q),
{
    let mut r: Vec<T> = Vec::new();
    let mut i: usize = 0;
    while i < set.len()
        invariant
            i <= set.len(),
            forall|q: T| r@.contains(q) ==> a.in_step(set@, c, q),
            forall|j: int, q: T|
                0 <= j < i && #[trigger] a.char_edge(set@[j], c, q) ==> r@.contains(q),
        decreases set.len() - i,
    {
        let state = set[i];
        let mut t: usize = 0;
        while t < a.transitions.len()
            invariant
                t <= a.transitions.len(),
                i < set.len(),
                state == set@[i as int],
                forall|q: T| r@.contains(q) ==> a.in_step(set@, c, q),
                forall|j: int, q: T|
                    0 <= j < i && #[trigger] a.char_edge(set@[j], c, q) ==> r@.contains(q),
                forall|u: int|
                    0 <= u < t && a.transitions@[u].0 == state && a.transitions@[u].1 == Some(c)
                        ==> r@.contains(#[trigger] a.transitions@[u].2),
            decreases a.transitions.len() - t,
        {
            let next = run_transition(
                a.transitions[t].0,
                a.transitions[t].1,
                a.transitions[t].2,
                state,
                c,
            );
            match next {
                Some(to) => {
                    if !holds(&r, &to) {
                        proof {
                            lemma_push_keeps(r@, to);
                            assert(a.transitions@[t as int] == (state, Some(c), to));
                            assert(a.char_edge(state, c, to));
                            assert forall|q: T| r@.push(to).contains(q) implies a.in_step(
                                set@,
                                c,
                                q,
                            ) by {
                                lemma_push_holds(r@, to, q);
                            }
                        }
                        r.push(to);
                    }
                },
                None => {},
            }
            t += 1;
        }
        let mut w: usize = 0;
        while w < a.wildcards.len()
            invariant
                w <= a.wildcards.len(),
                i < set.len(),
                state == set@[i as int],
                forall|q: T| r@.contains(q) ==> a.in_step(set@, c, q),
                forall|j: int, q: T|
                    0 <= j < i && #[trigger] a.char_edge(set@[j], c, q) ==> r@.contains(q),
                forall|u: int|
                    0 <= u < a.transitions@.len() && a.transitions@[u].0 == state
                        && a.transitions@[u].1 == Some(c) ==> r@.contains(
                        #[trigger] a.transitions@[u].2,
                    ),
                forall|u: int|
                    0 <= u < w && a.wildcards@[u].0 == state ==> r@.contains(
                        #[trigger] a.wildcards@[u].1,
                    ),
            decreases a.wildcards.len() - w,
        {
            let from = a.wildcards[w].0;
            let to = a.wildcards[w].1;
            if from.same(&state) && !holds(&r, &to) {
                proof {
                    lemma_push_keeps(r@, to);
                    assert(a.wildcards@[w as int] == (state, to));
                    assert(a.char_edge(state, c, to));
                    assert forall|q: T| r@.push(to).contains(q) implies a.in_step(set@, c, q) by {
                        lemma_push_holds(r@, to, q);
                    }
                }
                r.push(to);
            }
            w += 1;
        }
        proof {
            assert forall|q: T| #[trigger] a.char_edge(set@[i as int], c, q) implies r@.contains(
                q,
            ) by {
                if a.transitions@.contains((state, Some(c), q)) {
                    let u = choose|u: int|
                        0 <= u < a.transitions@.len() && a.transitions@[u] == (state, Some(c), q);
                    assert(r@.contains(a.transitions@[u].2));
                } else {
                    let u = choose|u: int|
                        0 <= u < a.wildcards@.len() && a.wildcards@[u] == (state, q);
                    assert(r@.contains(a.wildcards@[u].1));
                }
            }
        }
        i += 1;
    }
    proof {
        assert forall|q: T| a.in_step(set@, c, q) implies r@.contains(q) by {
            let p = choose|p: T| set@.contains(p) && #[trigger] a.char_edge(p, c, q);
            let j = choose|j: int| 0 <= j < set@.len() && set@[j] == p;
            assert(a.char_edge(set@[j], c, q));
        }
    }
    r
}

/// What `s` holds, `s.push(x)` holds too, and it holds `x`.
pub proof fn lemma_push_keeps<T>(s: Seq<T>, x: T)
    ensures
        s.push(x).contains(x),
        forall|q: T| s.contains(q) ==> s.push(x).contains(q),
{
    assert(s.push(x)[s.len() as int] == x);
    assert forall|q: T| s.contains(q) implies s.push(x).contains(q) by {
        let j = choose|j: int| 0 <= j < s.len() && s[j] == q;
        assert(s.push(x)[j] == q);
    }
}

/// What `s.push(x)` holds is `x` or something that `s` holds.
pub proof fn lemma_push_holds<T>(s: Seq<T>, x: T, q: T)
    requires
        s.push(x).contains(q),
    ensures
        q == x || s.contains(q),
{
    let j = choose|j: int| 0 <= j < s.push(x).len() && s.push(x)[j] == q;
    if j < s.len() {
        assert(s[j] == q);
    }
}

/// The final states that the automaton can be in when it has consumed `s`,
/// each once, in the order of the list of final states.
pub fn run_automaton<T: State + Copy>(a: &NFA<T>, s: &str) -> (result: Vec<T>)
    ensures
        result@ == a.accepted(s@),
{
    let input = chars_of(s);
    let mut current = epsilon_closure(a, &a.initial_states);
    let mut i: usize = 0;
    while i < input.len()
        invariant
            i <= input.len(),
            input@ == s@,
            forall|q: T| current@.contains(q) <==> a.reach(input@.take(i as int), q),
        decreases input.len() - i,
    {
        let c = input[i];
        let stepped = consume(a, &current, c);
        let next = epsilon_closure(a, &stepped);
        proof {
            let before = input@.take(i as int);
            let after = input@.take(i + 1);
            assert(after.drop_last() == before);
            assert(after.last() == c);
            assert forall|q: T| next@.contains(q) implies a.reach(after, q) by {
                let r = choose|r: T| stepped@.contains(r) && #[trigger] a.eps_reach(r, q);
                assert(a.in_step(current@, c, r));
                let p = choose|p: T| current@.contains(p) && #[trigger] a.char_edge(p, c, r);
                assert(a.reach(after.drop_last(), p) && a.char_edge(p, after.last(), r)
                    && a.eps_reach(r, q));
            }
            assert forall|q: T| a.reach(after, q) implies next@.contains(q) by {
                let (p, r) = choose|p: T, r: T|
                    a.reach(after.drop_last(), p) && #[trigger] a.char_edge(p, after.last(), r)
                        && a.eps_reach(r, q);
                assert(current@.contains(p));
                assert(a.in_step(current@, c, r));
                assert(stepped@.contains(r));
                assert(a.in_closure(stepped@, q));
            }
        }
        current = next;
        i += 1;
    }
    assert(input@.take(input.len() as int) == s@);
    let mut result: Vec<T> = Vec::new();
    let mut k: usize = 0;
    while k < a.final_states.len()
        invariant
            k <= a.final_states.len(),
            result@ == a.accepted_among(s@, k as nat),
            forall|q: T| current@.contains(q) <==> a.reach(s@, q),
        decreases a.final_states.len() - k,
    {
        let f = a.final_states[k];
        if holds(&current, &f) && !holds(&result, &f) {
            result.push(f);
        }
        k += 1;
    }
    result
}

} // verus!

