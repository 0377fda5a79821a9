//! Character-level helpers on strings.
//!
//! The rest of the crate reasons about text as sequences of characters. The
//! functions here move between `&str`, `String` and `Vec<char>`, search and
//! split sequences of characters, and state over those sequences what each of
//! them returns.

use vstd::prelude::*;

verus! {

/// `String::push` appends one character to the end of the string.
pub assume_specification[ String::push ](s: &mut String, c: char)
    ensures
        final(s)@ == old(s)@.push(c),
;

/// The lower-case form of a text, as Unicode defines it.
pub uninterp spec fn lowercase_of(text: Seq<char>) -> Seq<char>;

/// `str::to_lowercase` of the standard library: the text with every character
/// replaced by its lower-case form according to the Unicode tables. The
/// result depends on the text alone; it is named here, not described.
#[verifier::external_body]
pub(crate) fn to_lowercase(s: &str) -> (r: String)
    ensures
        r@ == lowercase_of(s@),
{
    s.to_lowercase()
}

/// The characters of `s`, in order.
pub fn chars_of(s: &str) -> (v: Vec<char>)
    ensures
        v@ == s@,
{
    let mut v: Vec<char> = Vec::new();
    for c in it: s.chars()
        invariant
            v@ == it.seq().take(it.index()),
            it.seq() == s@,
    {
        v.push(c);
    }
    v
}

/// The string made of the characters of `v`, in order.
pub fn string_of(v: &Vec<char>) -> (s: String)
    ensures
        s@ == v@,
{
    let mut s = String::new();
    let mut i: usize = 0;
    while i < v.len()
        invariant
            i <= v.len(),
            s@ == v@.take(i as int),
        decreases v.len() - i,
    {
        s.push(v[i]);
        i += 1;
        assert(v@.take(i as int) == v@.take(i - 1).push(v@[i - 1]));
    }
    assert(v@.take(v.len() as int) == v@);
    s
}

/// The characters of `v` from `from` up to, not including, `to`.
pub fn slice_of(v: &Vec<char>, from: usize, to: usize) -> (r: Vec<char>)
    requires
        from <= to <= v.len(),
    ensures
        r@ == v@.subrange(from as int, to as int),
{
    let mut r: Vec<char> = Vec::new();
    let mut i: usize = from;
    while i < to
        invariant
            from <= i <= to <= v.len(),
            r@ == v@.subrange(from as int, i as int),
        decreases to - i,
    {
        r.push(v[i]);
        i += 1;
        assert(v@.subrange(from as int, i as int) == v@.subrange(from as int, i - 1).push(
            v@[i - 1],
        ));
    }
    r
}

/// Appends the characters of `more` to `v`.
pub fn extend(v: &mut Vec<char>, more: &Vec<char>)
    ensures
        final(v)@ == old(v)@ + more@,
{
    let ghost start = v@;
    let mut i: usize = 0;
    while i < more.len()
        invariant
            i <= more.len(),
            v@ == start + more@.take(i as int),
        decreases more.len() - i,
    {
        v.push(more[i]);
        i += 1;
        assert(more@.take(i as int) == more@.take(i - 1).push(more@[i - 1]));
        assert(start + more@.take(i as int) == (start + more@.take(i - 1)).push(more@[i - 1]));
    }
    assert(more@.take(more.len() as int) == more@);
}

/// Whether the two sequences hold the same characters.
pub fn same_chars(a: &Vec<char>, b: &Vec<char>) -> (r: bool)
    ensures
        r == (a@ == b@),
{
    if a.len() != b.len() {
        return false;
    }
    let mut i: usize = 0;
    while i < a.len()
        invariant
            i <= a.len(),
            a.len() == b.len(),
            forall|j: int| 0 <= j < i ==> a@[j] == b@[j],
        decreases a.len() - i,
    {
        if a[i] != b[i] {
            return false;
        }
        i += 1;
    }
    assert(a@ =~= b@);
    true
}

/// Whether the two strings hold the same characters.
pub fn str_eq(a: &str, b: &str) -> (r: bool)
    ensures
        r == (a@ == b@),
{
    let x = chars_of(a);
    let y = chars_of(b);
    same_chars(&x, &y)
}

/// The character sequences of a list of lists of characters.
pub open spec fn lines(v: Seq<Vec<char>>) -> Seq<Seq<char>> {
    Seq::new(v.len(), |i: int| v[i]@)
}

/// The sequences of a list that got one more element are those of the list
/// and the sequence of the element.
pub proof fn lemma_lines_push(v: Seq<Vec<char>>, x: Vec<char>)
    ensures
        lines(v.push(x)) == lines(v).push(x@),
{
    assert(lines(v.push(x)) =~= lines(v).push(x@));
}

/// A copy of `v`.
pub fn copy_of(v: &Vec<char>) -> (r: Vec<char>)
    ensures
        r@ == v@,
{
    let r = slice_of(v, 0, v.len());
    assert(v@.subrange(0, v.len() as int) == v@);
    r
}

/// `needle` stands in `hay` at position `i`.
pub open spec fn occurs_at(hay: Seq<char>, needle: Seq<char>, i: int) -> bool {
    0 <= i && i + needle.len() <= hay.len() && hay.subrange(i, i + needle.len()) == needle
}

/// `needle` stands somewhere in `hay`.
pub open spec fn contains_text(hay: Seq<char>, needle: Seq<char>) -> bool {
    exists|i: int| occurs_at(hay, needle, i)
}

/// `hay` begins with `needle`.
pub open spec fn starts_with(hay: Seq<char>, needle: Seq<char>) -> bool {
    occurs_at(hay, needle, 0)
}

/// The first position at or after `i` at which `needle` stands in `hay`.
pub open spec fn find_from(hay: Seq<char>, needle: Seq<char>, i: int) -> Option<int>
    decreases hay.len() + 1 - i,
{
    if i < 0 || i + needle.len() > hay.len() {
        None
    } else if occurs_at(hay, needle, i) {
        Some(i)
    } else {
        find_from(hay, needle, i + 1)
    }
}

/// What [`find_from`] finds is the first occurrence at or after `i`, and it
/// finds one if there is any.
pub proof fn lemma_find_from(hay: Seq<char>, needle: Seq<char>, i: int)
    requires
        0 <= i,
    ensures
        match find_from(hay, needle, i) {
            Some(j) => i <= j && occurs_at(hay, needle, j) && forall|k: int|
                i <= k < j ==> !occurs_at(hay, needle, k),
            None => forall|k: int| i <= k ==> !occurs_at(hay, needle, k),
        },
    decreases hay.len() + 1 - i,
{
    if i + needle.len() <= hay.len() && !occurs_at(hay, needle, i) {
        lemma_find_from(hay, needle, i + 1);
    }
}

/// Whether `needle` stands in `hay` at position `i`.
pub fn matches_at(hay: &Vec<char>, needle: &Vec<char>, i: usize) -> (r: bool)
    ensures
        r == occurs_at(hay@, needle@, i as int),
{
    if needle.len() > hay.len() || i > hay.len() - needle.len() {
        return false;
    }
    let mut k: usize = 0;
    while k < needle.len()
        invariant
            k <= needle.len(),
            i + needle.len() <= hay.len(),
            forall|j: int| 0 <= j < k ==> hay@[i + j] == needle@[j],
        decreases needle.len() - k,
    {
        if hay[i + k] != needle[k] {
            assert(hay@.subrange(i as int, i + needle.len())[k as int] == hay@[i + k]);
            return false;
        }
        k += 1;
    }
    assert(hay@.subrange(i as int, i + needle.len()) =~= needle@);
    true
}

/// The first position at or after `from` at which `needle` stands in `hay`.
pub fn find(hay: &Vec<char>, needle: &Vec<char>, from: usize) -> (r: Option<usize>)
    ensures
        match r {
            Some(j) => find_from(hay@, needle@, from as int) == Some(j as int),
            None => find_from(hay@, needle@, from as int) is None,
        },
{
    let mut i: usize = from;
    while i <= hay.len()
        invariant
            from <= i,
            find_from(hay@, needle@, from as int) == find_from(hay@, needle@, i as int),
        decreases hay.len() + 1 - i,
    {
        if matches_at(hay, needle, i) {
            return Some(i);
        }
        if i == hay.len() {
            assert(find_from(hay@, needle@, i + 1) is None);
            return None;
        }
        i += 1;
    }
    None
}

/// Whether `needle` stands somewhere in `hay`.
pub fn contains(hay: &Vec<char>, needle: &Vec<char>) -> (r: bool)
    ensures
        r == contains_text(hay@, needle@),
{
    let found = find(hay, needle, 0);
    proof {
        lemma_find_from(hay@, needle@, 0);
        if contains_text(hay@, needle@) {
            let i = choose|i: int| occurs_at(hay@, needle@, i);
            assert(found is Some);
        }
    }
    found.is_some()
}

/// The pieces of `s` from position `pos` on, cut at each occurrence of `sep`,
/// the occurrences taken from left to right without overlap.
pub open spec fn split_from(s: Seq<char>, sep: Seq<char>, pos: int) -> Seq<Seq<char>>
    decreases s.len() - pos,
{
    if sep.len() == 0 || pos < 0 || pos > s.len() {
        Seq::empty()
    } else {
        match find_from(s, sep, pos) {
            Some(j) => if pos <= j && j + sep.len() <= s.len() {
                seq![s.subrange(pos, j)] + split_from(s, sep, j + sep.len())
            } else {
                Seq::empty()
            },
            None => seq![s.subrange(pos, s.len() as int)],
        }
    }
}

/// The pieces of `s` between the occurrences of the separator `sep`, which is
/// not empty. There is always at least one piece.
pub open spec fn split_on(s: Seq<char>, sep: Seq<char>) -> Seq<Seq<char>> {
    split_from(s, sep, 0)
}

/// The pieces of `s` between the occurrences of `sep`.
pub fn split(s: &Vec<char>, sep: &Vec<char>) -> (r: Vec<Vec<char>>)
    requires
        sep.len() > 0,
    ensures
        lines(r@) == split_on(s@, sep@),
{
    let mut r: Vec<Vec<char>> = Vec::new();
    let mut pos: usize = 0;
    loop
        invariant
            pos <= s.len(),
            sep.len() > 0,
            split_on(s@, sep@) == lines(r@) + split_from(s@, sep@, pos as int),
        decreases s.len() - pos,
    {
        proof {
            lemma_find_from(s@, sep@, pos as int);
        }
        let ghost before = lines(r@);
        match find(s, sep, pos) {
            Some(j) => {
                let piece = slice_of(s, pos, j);
                r.push(piece);
                proof {
                    assert(lines(r@) =~= before.push(s@.subrange(pos as int, j as int)));
                    assert(before + (seq![s@.subrange(pos as int, j as int)] + split_from(
                        s@,
                        sep@,
                        j + sep.len(),
                    )) =~= before.push(s@.subrange(pos as int, j as int)) + split_from(
                        s@,
                        sep@,
                        j + sep.len(),
                    ));
                }
                pos = j + sep.len();
            },
            None => {
                let piece = slice_of(s, pos, s.len());
                r.push(piece);
                proof {
                    assert(lines(r@) =~= before.push(s@.subrange(pos as int, s.len() as int)));
                    assert(before + seq![s@.subrange(pos as int, s.len() as int)] =~= before.push(
                        s@.subrange(pos as int, s.len() as int),
                    ));
                }
                return r;
            },
        }
    }
}

/// Whether a character is white space, as Unicode defines it.
pub uninterp spec fn is_space(c: char) -> bool;

/// `char::is_whitespace` of the standard library: whether the character has
/// the Unicode property `White_Space`. The result depends on the character
/// alone; it is named here, not described.
#[verifier::external_body]
pub(crate) fn is_whitespace(c: char) -> (r: bool)
    ensures
        r == is_space(c),
{
    c.is_whitespace()
}

/// Whether a character is a control character, as Unicode defines it.
pub uninterp spec fn is_control_char(c: char) -> bool;

/// `char::is_control` of the standard library: whether the character is of
/// the Unicode category `Cc`. The result depends on the character alone; it
/// is named here, not described.
#[verifier::external_body]
pub(crate) fn is_control(c: char) -> (r: bool)
    ensures
        r == is_control_char(c),
{
    c.is_control()
}

/// The end of the run of characters that are not white space and start at
/// `pos`: the position of the next white space, or the end of `s`.
pub open spec fn word_end(s: Seq<char>, pos: int) -> int
    decreases s.len() - pos,
{
    if pos < 0 || pos >= s.len() || is_space(s[pos]) {
        pos
    } else {
        word_end(s, pos + 1)
    }
}

/// The words of `s` from position `pos` on: the longest runs of characters
/// that are not white space, in order.
pub open spec fn words_from(s: Seq<char>, pos: int) -> Seq<Seq<char>>
    decreases s.len() - pos,
{
    if pos < 0 || pos >= s.len() {
        Seq::empty()
    } else if is_space(s[pos]) {
        words_from(s, pos + 1)
    } else {
        let end = word_end(s, pos);
        if pos < end <= s.len() {
            seq![s.subrange(pos, end)] + words_from(s, end)
        } else {
            Seq::empty()
        }
    }
}

/// The words of `s`: the longest runs of characters that are not white space,
/// in order. White space at either end gives no empty word.
pub open spec fn words_of(s: Seq<char>) -> Seq<Seq<char>> {
    words_from(s, 0)
}

/// The words of `s`, separated by white space.
pub fn split_whitespace(s: &Vec<char>) -> (r: Vec<Vec<char>>)
    ensures
        lines(r@) == words_of(s@),
{
    let mut r: Vec<Vec<char>> = Vec::new();
    let mut pos: usize = 0;
    while pos < s.len()
        invariant
            pos <= s.len(),
            words_of(s@) == lines(r@) + words_from(s@, pos as int),
        decreases s.len() - pos,
    {
        if is_whitespace(s[pos]) {
            pos += 1;
        } else {
            let mut end: usize = pos + 1;
            while end < s.len() && !is_whitespace(s[end])
                invariant
                    pos < end <= s.len(),
                    !is_space(s@[pos as int]),
                    word_end(s@, pos as int) == word_end(s@, end as int),
                decreases s.len() - end,
            {
                end += 1;
            }
            let ghost before = lines(r@);
            let piece = slice_of(s, pos, end);
            r.push(piece);
            proof {
                let word = s@.subrange(pos as int, end as int);
                assert(word_end(s@, pos as int) == end);
                assert(lines(r@) =~= before.push(word));
                assert(before + (seq![word] + words_from(s@, end as int)) =~= before.push(word)
                    + words_from(s@, end as int));
            }
            pos = end;
        }
    }
    assert(lines(r@) + Seq::<Seq<char>>::empty() =~= lines(r@));
    r
}

/// The parts in order, with `sep` between each two neighbours.
pub open spec fn join_with(parts: Seq<Seq<char>>, sep: Seq<char>) -> Seq<char>
    decreases parts.len(),
{
    if parts.len() == 0 {
        Seq::empty()
    } else if parts.len() == 1 {
        parts[0]
    } else {
        join_with(parts.drop_last(), sep) + sep + parts.last()
    }
}

/// The parts in order, with `sep` between each two neighbours.
pub fn join(parts: &Vec<Vec<char>>, sep: &Vec<char>) -> (r: Vec<char>)
    ensures
        r@ == join_with(lines(parts@), sep@),
{
    let mut r: Vec<char> = Vec::new();
    let mut i: usize = 0;
    while i < parts.len()
        invariant
            i <= parts.len(),
            r@ == join_with(lines(parts@).take(i as int), sep@),
        decreases parts.len() - i,
    {
        if i > 0 {
            extend(&mut r, sep);
        }
        extend(&mut r, &parts[i]);
        i += 1;
        proof {
            let now = lines(parts@).take(i as int);
            assert(now.drop_last() =~= lines(parts@).take(i - 1));
            assert(now.last() == parts@[i - 1]@);
            if i == 1 {
                assert(r@ =~= parts@[0]@);
            }
        }
    }
    assert(lines(parts@).take(parts.len() as int) =~= lines(parts@));
    r
}

/// `n` spaces.
pub open spec fn spaces(n: nat) -> Seq<char> {
    Seq::new(n, |i: int| ' ')
}

/// Appends `n` spaces to `v`.
pub fn push_spaces(v: &mut Vec<char>, n: usize)
    ensures
        final(v)@ == old(v)@ + spaces(n as nat),
{
    let ghost start = v@;
    let mut i: usize = 0;
    while i < n
        invariant
            i <= n,
            v@ == start + spaces(i as nat),
        decreases n - i,
    {
        v.push(' ');
        i += 1;
        assert(v@ =~= start + spaces(i as nat));
    }
}

/// The position of the first character at or after `i` that is not white
/// space, or the length of the text.
pub open spec fn trim_start_at(text: Seq<char>, i: int) -> int
    decreases text.len() - i,
{
    if 0 <= i < text.len() && is_space(text[i]) {
        trim_start_at(text, i + 1)
    } else {
        i
    }
}

/// The position behind the last character before `j` and not before `low`
/// that is not white space, or `low`.
pub open spec fn trim_end_at(text: Seq<char>, low: int, j: int) -> int
    decreases j,
{
    if 0 <= low < j <= text.len() && is_space(text[j - 1]) {
        trim_end_at(text, low, j - 1)
    } else {
        j
    }
}

/// The text without the white space at its two ends.
pub open spec fn trimmed(text: Seq<char>) -> Seq<char> {
    let start = trim_start_at(text, 0);
    let end = trim_end_at(text, start, text.len() as int);
    text.subrange(start, end)
}

/// The text without the white space at its two ends.
pub fn trim(text: &Vec<char>) -> (r: Vec<char>)
    ensures
        r@ == trimmed(text@),
{
    let mut start: usize = 0;
    while start < text.len() && is_whitespace(text[start])
        invariant
            start <= text.len(),
            trim_start_at(text@, 0) == trim_start_at(text@, start as int),
        decreases text.len() - start,
    {
        start += 1;
    }
    let mut end: usize = text.len();
    while end > start && is_whitespace(text[end - 1])
        invariant
            start <= end <= text.len(),
            trim_end_at(text@, start as int, text@.len() as int) == trim_end_at(
                text@,
                start as int,
                end as int,
            ),
        decreases end,
    {
        end -= 1;
    }
    slice_of(text, start, end)
}

/// `a` comes strictly before `b` in the order of the dictionary, the
/// characters compared by their numbers.
pub open spec fn lex_less(a: Seq<char>, b: Seq<char>) -> bool
    decreases a.len(),
{
    if b.len() == 0 {
        false
    } else if a.len() == 0 {
        true
    } else if a[0] != b[0] {
        a[0] < b[0]
    } else {
        lex_less(a.skip(1), b.skip(1))
    }
}

/// Of two texts, at most one comes before the other.
pub proof fn lemma_lex_one_way(a: Seq<char>, b: Seq<char>)
    requires
        lex_less(a, b),
    ensures
        !lex_less(b, a),
    decreases a.len(),
{
    if a.len() > 0 && a[0] == b[0] {
        lemma_lex_one_way(a.skip(1), b.skip(1));
    }
}

/// A text that comes before another comes before any third text or after
/// it: what is not after a second text that is not after a third is not
/// after the third.
pub proof fn lemma_lex_between(a: Seq<char>, b: Seq<char>, c: Seq<char>)
    requires
        lex_less(c, a),
    ensures
        lex_less(b, a) || lex_less(c, b),
    decreases a.len(),
{
    if c.len() > 0 && b.len() > 0 && c[0] == a[0] && b[0] == a[0] {
        lemma_lex_between(a.skip(1), b.skip(1), c.skip(1));
    }
}

/// Whether `a` comes strictly before `b` in the order of the dictionary.
pub fn less_chars(a: &Vec<char>, b: &Vec<char>) -> (r: bool)
    ensures
        r == lex_less(a@, b@),
{
    let mut i: usize = 0;
    assert(a@.skip(0) =~= a@ && b@.skip(0) =~= b@);
    while i < a.len() && i < b.len()
        invariant
            i <= a.len(),
            i <= b.len(),
            lex_less(a@, b@) == lex_less(a@.skip(i as int), b@.skip(i as int)),
        decreases a.len() - i,
    {
        let ghost x = a@.skip(i as int);
        let ghost y = b@.skip(i as int);
        assert(x[0] == a@[i as int] && y[0] == b@[i as int]);
        if a[i] != b[i] {
            return a[i] < b[i];
        }
        assert(x.skip(1) =~= a@.skip(i + 1));
        assert(y.skip(1) =~= b@.skip(i + 1));
        i += 1;
    }
    assert(a@.skip(i as int).len() == a@.len() - i);
    assert(b@.skip(i as int).len() == b@.len() - i);
    i < b.len()
}

/// What a list of strings holds.
pub open spec fn texts(list: Seq<String>) -> Seq<Seq<char>> {
    Seq::new(list.len(), |i: int| list[i]@)
}

/// Whether `list` holds `text`.
pub fn holds_text(list: &Vec<String>, text: &str) -> (r: bool)
    ensures
        r == texts(list@).contains(text@),
{
    let mut i: usize = 0;
    while i < list.len()
        invariant
            i <= list.len(),
            forall|j: int| 0 <= j < i ==> texts(list@)[j] != text@,
        decreases list.len() - i,
    {
        assert(texts(list@)[i as int] == list@[i as int]@);
        if str_eq(list[i].as_str(), text) {
            return true;
        }
        i += 1;
    }
    false
}

} // verus!
