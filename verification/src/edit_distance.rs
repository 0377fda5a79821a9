//! Edit distance between two strings, and the facts about it that the typo
//! automaton is proved against.

use vstd::prelude::*;

verus! {

/// The smallest of three numbers.
pub open spec fn min3(x: nat, y: nat, z: nat) -> nat {
    if x <= y && x <= z {
        x
    } else if y <= z {
        y
    } else {
        z
    }
}

/// The edit distance between `a` and `b`: the least number of insertions,
/// deletions and substitutions of one character that turn `a` into `b`.
/// Exchanging two neighbours counts as two edits.
pub open spec fn edit_distance(a: Seq<char>, b: Seq<char>) -> nat
    decreases a.len() + b.len(),
{
    if a.len() == 0 {
        b.len()
    } else if b.len() == 0 {
        a.len()
    } else if a.last() == b.last() {
        edit_distance(a.drop_last(), b.drop_last())
    } else {
        1 + min3(
            edit_distance(a.drop_last(), b),
            edit_distance(a, b.drop_last()),
            edit_distance(a.drop_last(), b.drop_last()),
        )
    }
}

/// Two strings are at distance zero exactly when they are equal.
pub proof fn lemma_distance_zero(a: Seq<char>, b: Seq<char>)
    ensures
        edit_distance(a, b) == 0 <==> a == b,
    decreases a.len() + b.len(),
{
    if a.len() == 0 || b.len() == 0 {
        if a.len() == 0 && b.len() == 0 {
            assert(a =~= b);
        }
    } else if a.last() == b.last() {
        lemma_distance_zero(a.drop_last(), b.drop_last());
        if a.drop_last() == b.drop_last() {
            assert(a =~= a.drop_last().push(a.last()));
            assert(b =~= b.drop_last().push(b.last()));
        }
    }
}

/// Appending one character to a string moves it to distance one, both ways.
pub proof fn lemma_distance_push(a: Seq<char>, c: char)
    ensures
        edit_distance(a.push(c), a) == 1,
        edit_distance(a, a.push(c)) == 1,
    decreases a.len(),
{
    let ac = a.push(c);
    assert(ac.drop_last() =~= a);
    assert(ac.last() == c);
    if a.len() == 0 {
    } else if c == a.last() {
        lemma_distance_push(a.drop_last(), c);
        assert(a =~= a.drop_last().push(c));
    } else {
        lemma_distance_zero(a, a);
    }
}

/// The ways in which `p` followed by `c` can be within one edit of `w`: the
/// last characters agree and the rest is within one edit; or `c` stands for the
/// last character of `w`; or `c` was inserted after `w`; or the last character
/// of `w` was left out.
pub open spec fn one_edit_cases(p: Seq<char>, c: char, w: Seq<char>) -> bool {
    ||| w.len() > 0 && w.last() == c && edit_distance(p, w.drop_last()) <= 1
    ||| w.len() > 0 && p == w.drop_last()
    ||| p == w
    ||| w.len() > 0 && p.push(c) == w.drop_last()
}

/// A string that ends in `c` is within one edit of `w` exactly in the cases of
/// [`one_edit_cases`].
pub proof fn lemma_distance_last(p: Seq<char>, c: char, w: Seq<char>)
    ensures
        edit_distance(p.push(c), w) <= 1 <==> one_edit_cases(p, c, w),
{
    let a = p.push(c);
    assert(a.drop_last() =~= p);
    assert(a.last() == c);
    if w.len() == 0 {
        if p.len() == 0 {
            assert(p =~= w);
        }
    } else {
        let v = w.drop_last();
        assert(w =~= v.push(w.last()));
        if c == w.last() {
            if p == v {
                lemma_distance_zero(p, v);
            }
            if p == w {
                lemma_distance_push(v, c);
            }
            if a == v {
                lemma_distance_push(p, c);
            }
        } else {
            lemma_distance_zero(p, w);
            lemma_distance_zero(a, v);
            lemma_distance_zero(p, v);
        }
    }
}

/// `a` is `b` with one character replaced by another: the two are as long,
/// and agree before and after some position.
pub open spec fn substituted(a: Seq<char>, b: Seq<char>) -> bool {
    a.len() == b.len() && exists|k: int|
        0 <= k < a.len() && #[trigger] a.take(k) == b.take(k) && a.skip(k + 1) == b.skip(k + 1)
}

/// `a` is `b` with one character inserted: `a` is one longer, and agrees with
/// `b` before the inserted character and after it.
pub open spec fn inserted(a: Seq<char>, b: Seq<char>) -> bool {
    a.len() == b.len() + 1 && exists|k: int|
        0 <= k <= b.len() && #[trigger] a.take(k) == b.take(k) && a.skip(k + 1) == b.skip(k)
}

/// `a` and `b` differ by at most one edit: they are equal, or one character
/// of `b` is replaced in `a`, or inserted in `a`, or left out of `a`.
pub open spec fn one_edit(a: Seq<char>, b: Seq<char>) -> bool {
    a == b || substituted(a, b) || inserted(a, b) || inserted(b, a)
}

/// An insertion stays one when the same character is put behind both texts.
proof fn lemma_inserted_push(a: Seq<char>, b: Seq<char>, c: char)
    requires
        inserted(a, b),
    ensures
        inserted(a.push(c), b.push(c)),
{
    let k = choose|k: int|
        0 <= k <= b.len() && #[trigger] a.take(k) == b.take(k) && a.skip(k + 1) == b.skip(k);
    assert(a.push(c).take(k) =~= a.take(k));
    assert(b.push(c).take(k) =~= b.take(k));
    assert(a.push(c).skip(k + 1) =~= a.skip(k + 1).push(c));
    assert(b.push(c).skip(k) =~= b.skip(k).push(c));
}

/// One edit stays one when the same character is put behind both texts.
proof fn lemma_one_edit_push(a: Seq<char>, b: Seq<char>, c: char)
    requires
        one_edit(a, b),
    ensures
        one_edit(a.push(c), b.push(c)),
{
    if a == b {
    } else if substituted(a, b) {
        let k = choose|k: int|
            0 <= k < a.len() && #[trigger] a.take(k) == b.take(k) && a.skip(k + 1) == b.skip(k + 1);
        assert(a.push(c).take(k) =~= a.take(k));
        assert(b.push(c).take(k) =~= b.take(k));
        assert(a.push(c).skip(k + 1) =~= a.skip(k + 1).push(c));
        assert(b.push(c).skip(k + 1) =~= b.skip(k + 1).push(c));
    } else if inserted(a, b) {
        lemma_inserted_push(a, b, c);
    } else {
        lemma_inserted_push(b, a, c);
    }
}

/// An insertion stays one when the last character, the same in both texts,
/// is taken off both.
proof fn lemma_inserted_strip(a: Seq<char>, b: Seq<char>)
    requires
        inserted(a, b),
        b.len() > 0,
        a.last() == b.last(),
    ensures
        inserted(a.drop_last(), b.drop_last()),
{
    let k = choose|k: int|
        0 <= k <= b.len() && #[trigger] a.take(k) == b.take(k) && a.skip(k + 1) == b.skip(k);
    let x = a.drop_last();
    let y = b.drop_last();
    if k == b.len() {
        assert(b.take(k) =~= b);
        assert(x =~= a.take(k));
        assert(x.take(y.len() as int) =~= y.take(y.len() as int));
        assert(x.skip(y.len() as int + 1) =~= y.skip(y.len() as int));
    } else {
        assert(x.take(k) =~= a.take(k));
        assert(y.take(k) =~= b.take(k));
        assert(x.skip(k + 1) =~= a.skip(k + 1).drop_last());
        assert(y.skip(k) =~= b.skip(k).drop_last());
    }
}

/// One edit stays one when the last character, the same in both texts, is
/// taken off both.
proof fn lemma_one_edit_strip(a: Seq<char>, b: Seq<char>)
    requires
        one_edit(a, b),
        a.len() > 0,
        b.len() > 0,
        a.last() == b.last(),
    ensures
        one_edit(a.drop_last(), b.drop_last()),
{
    let x = a.drop_last();
    let y = b.drop_last();
    if a == b {
    } else if substituted(a, b) {
        let k = choose|k: int|
            0 <= k < a.len() && #[trigger] a.take(k) == b.take(k) && a.skip(k + 1) == b.skip(k + 1);
        if k == a.len() - 1 {
            assert(x =~= a.take(k));
            assert(y =~= b.take(k));
        } else {
            assert(x.take(k) =~= a.take(k));
            assert(y.take(k) =~= b.take(k));
            assert(x.skip(k + 1) =~= a.skip(k + 1).drop_last());
            assert(y.skip(k + 1) =~= b.skip(k + 1).drop_last());
        }
    } else if inserted(a, b) {
        lemma_inserted_strip(a, b);
    } else {
        lemma_inserted_strip(b, a);
    }
}

/// An insertion into a text whose last character differs from that of the
/// result is the insertion of the last character.
proof fn lemma_inserted_last(a: Seq<char>, b: Seq<char>)
    requires
        inserted(a, b),
        b.len() > 0,
        a.last() != b.last(),
    ensures
        a.drop_last() == b,
{
    let k = choose|k: int|
        0 <= k <= b.len() && #[trigger] a.take(k) == b.take(k) && a.skip(k + 1) == b.skip(k);
    if k < b.len() {
        assert(a.skip(k + 1).last() == a.last());
        assert(b.skip(k).last() == b.last());
    } else {
        assert(b.take(k) =~= b);
        assert(a.drop_last() =~= a.take(k));
    }
}

/// Two texts at distance at most one differ by at most one edit.
proof fn lemma_distance_gives_edit(a: Seq<char>, b: Seq<char>)
    requires
        edit_distance(a, b) <= 1,
    ensures
        one_edit(a, b),
    decreases a.len() + b.len(),
{
    if a.len() == 0 {
        if b.len() == 0 {
            assert(a =~= b);
        } else {
            assert(b.take(0) =~= a.take(0));
            assert(b.skip(1) =~= a.skip(0));
            assert(inserted(b, a));
        }
    } else if b.len() == 0 {
        assert(a.take(0) =~= b.take(0));
        assert(a.skip(1) =~= b.skip(0));
        assert(inserted(a, b));
    } else {
        let x = a.drop_last();
        let y = b.drop_last();
        assert(a =~= x.push(a.last()));
        assert(b =~= y.push(b.last()));
        if a.last() == b.last() {
            lemma_distance_gives_edit(x, y);
            lemma_one_edit_push(x, y, a.last());
        } else {
            lemma_distance_zero(x, b);
            lemma_distance_zero(a, y);
            lemma_distance_zero(x, y);
            if x == b {
                assert(a.take(b.len() as int) =~= b.take(b.len() as int));
                assert(a.skip(b.len() as int + 1) =~= b.skip(b.len() as int));
                assert(inserted(a, b));
            } else if a == y {
                assert(b.take(a.len() as int) =~= a.take(a.len() as int));
                assert(b.skip(a.len() as int + 1) =~= a.skip(a.len() as int));
                assert(inserted(b, a));
            } else {
                let k = a.len() - 1;
                assert(a.take(k) =~= x);
                assert(b.take(k) =~= y);
                assert(a.skip(k + 1) =~= b.skip(k + 1));
                assert(substituted(a, b));
            }
        }
    }
}

/// Two texts that differ by at most one edit are at distance at most one.
proof fn lemma_edit_gives_distance(a: Seq<char>, b: Seq<char>)
    requires
        one_edit(a, b),
    ensures
        edit_distance(a, b) <= 1,
    decreases a.len() + b.len(),
{
    if a.len() == 0 || b.len() == 0 {
        if a == b {
        } else if substituted(a, b) {
        } else if inserted(a, b) {
        } else {
        }
    } else {
        let x = a.drop_last();
        let y = b.drop_last();
        if a.last() == b.last() {
            lemma_one_edit_strip(a, b);
            lemma_edit_gives_distance(x, y);
        } else {
            lemma_distance_zero(x, b);
            lemma_distance_zero(a, y);
            lemma_distance_zero(x, y);
            if substituted(a, b) {
                let k = choose|k: int|
                    0 <= k < a.len() && #[trigger] a.take(k) == b.take(k) && a.skip(k + 1)
                        == b.skip(k + 1);
                if k < a.len() - 1 {
                    assert(a.skip(k + 1).last() == a.last());
                    assert(b.skip(k + 1).last() == b.last());
                } else {
                    assert(x =~= a.take(k));
                    assert(y =~= b.take(k));
                }
            } else if inserted(a, b) {
                lemma_inserted_last(a, b);
            } else {
                lemma_inserted_last(b, a);
            }
        }
    }
}

/// Distance one or less is one edit or none: two texts are at edit distance
/// at most one exactly when they are equal or differ by one character
/// replaced, inserted or left out.
pub proof fn law_one_edit(a: Seq<char>, b: Seq<char>)
    ensures
        edit_distance(a, b) <= 1 <==> one_edit(a, b),
{
    if edit_distance(a, b) <= 1 {
        lemma_distance_gives_edit(a, b);
    }
    if one_edit(a, b) {
        lemma_edit_gives_distance(a, b);
    }
}

} // verus!
