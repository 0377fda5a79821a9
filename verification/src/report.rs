//! Showing a place of a text in its surroundings.

use vstd::prelude::*;
use vstd::string::StrSliceExecFns;
use vstd::utf8::encode_utf8;
use crate::bibtex::{span_text, text_between};

verus! {

/// The byte at which the character of the given index starts.
pub open spec fn char_offset(text: Seq<char>, index: int) -> int {
    encode_utf8(text.take(index)).len() as int
}

/// Where the surroundings start: at the character whose index is `start`
/// less the size of the window, or zero if `start` is smaller than that; at
/// the start of the text if the text has no such character.
pub open spec fn window_start(text: Seq<char>, start: int, window_size: int) -> int {
    let index = if start >= window_size {
        start - window_size
    } else {
        0
    };
    if index < text.len() {
        char_offset(text, index)
    } else {
        0
    }
}

/// Where the surroundings end: at the character whose index is `end` plus
/// the size of the window; at the end of the text if the text has no such
/// character.
pub open spec fn window_end(text: Seq<char>, end: int, window_size: int) -> int {
    let index = end + window_size;
    if index < text.len() {
        char_offset(text, index)
    } else {
        encode_utf8(text).len() as int
    }
}

/// A place of a text in its surroundings: what stands before the place,
/// the place, and what stands after it. There are no surroundings if one of
/// the three is no piece of text.
pub open spec fn windowed_text(text: Seq<char>, start: int, end: int, window_size: int) -> Option<
    (Seq<char>, Seq<char>, Seq<char>),
> {
    match (
        span_text(text, window_start(text, start, window_size), start),
        span_text(text, start, end),
        span_text(text, end, window_end(text, end, window_size)),
    ) {
        (Some(before), Some(place), Some(after)) => Some((before, place, after)),
        _ => None,
    }
}

/// What three optional pieces of text hold.
pub open spec fn window_view(window: Option<(&str, &str, &str)>) -> Option<
    (Seq<char>, Seq<char>, Seq<char>),
> {
    match window {
        Some(w) => Some((w.0@, w.1@, w.2@)),
        None => None,
    }
}

/// The byte at which the character of the given index starts.
fn offset_of(s: &str, index: usize) -> (r: usize)
    requires
        index <= s@.len(),
    ensures
        r == char_offset(s@, index as int),
{
    let head = s.substring_char(0, index);
    assert(s@.subrange(0, index as int) == s@.take(index as int));
    head.as_bytes().len()
}

/// The place between the bytes `start` and `end` of a text, with what stands
/// before and after it: see [`windowed_text`].
pub fn windowed<'a>(s: &'a str, start: usize, end: usize, window_size: usize) -> (r: Option<
    (&'a str, &'a str, &'a str),
>)
    ensures
        window_view(r) == windowed_text(s@, start as int, end as int, window_size as int),
{
    let count = s.unicode_len();
    let first = if start >= window_size {
        start - window_size
    } else {
        0
    };
    let new_start = if first < count {
        offset_of(s, first)
    } else {
        0
    };
    let new_end = match end.checked_add(window_size) {
        Some(last) => if last < count {
            offset_of(s, last)
        } else {
            s.as_bytes().len()
        },
        None => s.as_bytes().len(),
    };
    match (text_between(s, new_start, start), text_between(s, start, end), text_between(
        s,
        end,
        new_end,
    )) {
        (Some(before), Some(place), Some(after)) => Some((before, place, after)),
        _ => None,
    }
}

} // verus!
