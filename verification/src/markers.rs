//! Two signs that a piece which the sentence boundaries set apart is no
//! sentence of its own: it looks like the marker of a list item, or like an
//! abbreviation.

use crate::text::{len_in_bytes, lemma_bytes_fit_in_four_per_char};
use crate::unicode::{numeric, trimmed};
use vstd::prelude::*;
use vstd::string::*;

verus! {

/// The most characters that a list marker has.
pub const LIST_MARKER_MAX_CHARS: usize = 10;

/// The number of characters that an abbreviation stays below.
pub const ABBREVIATION_CHAR_LIMIT: usize = 5;

/// Whether `c` ends a list marker: a full stop, or one of the Myanmar signs
/// little section (U+104A) and section (U+104B).
pub open spec fn ends_marker(c: char) -> bool {
    c == '.' || c == '\u{104A}' || c == '\u{104B}'
}

/// Whether a text of `count` characters, of which `first` is the first and
/// `last` the last, has the shape of a list marker: it has at most ten
/// characters, begins with a numeric character or an opening parenthesis,
/// and ends as a marker does.
pub open spec fn marker_shape(count: nat, first: char, first_is_numeric: bool, last: char) -> bool {
    &&& 0 < count <= LIST_MARKER_MAX_CHARS
    &&& (first_is_numeric || first == '(')
    &&& ends_marker(last)
}

/// Whether a text of `count` characters, of which `last` is the last, has
/// the shape of an abbreviation: it has fewer than five characters, ends
/// with a full stop, and is no list marker.
pub open spec fn abbreviation_shape(count: nat, last: char, is_marker: bool) -> bool {
    &&& 0 < count < ABBREVIATION_CHAR_LIMIT
    &&& last == '.'
    &&& !is_marker
}

/// Whether `s`, without the white space around it, looks like the marker of
/// a list item, such as `1.` or `(a).`.
pub open spec fn list_marker(s: Seq<char>) -> bool {
    let t = trimmed(s);
    t.len() > 0 && marker_shape(t.len(), t.first(), numeric(t.first()), t.last())
}

/// Whether `s`, without the white space around it, looks like an
/// abbreviation, such as `ni.`, and not like a list marker.
pub open spec fn abbreviation(s: Seq<char>) -> bool {
    let t = trimmed(s);
    t.len() > 0 && abbreviation_shape(t.len(), t.last(), list_marker(s))
}

/// No text looks both like a list marker and like an abbreviation: the
/// marker comes first.
pub proof fn lemma_marker_is_no_abbreviation(s: Seq<char>)
    ensures
        !(list_marker(s) && abbreviation(s)),
{
}

/// Whether a text of `count` characters, of which `first` is the first and
/// `last` the last, has the shape of a list marker.
pub fn has_marker_shape(count: usize, first: char, first_is_numeric: bool, last: char) -> (yes: bool)
    ensures
        yes == marker_shape(count as nat, first, first_is_numeric, last),
{
    0 < count && count <= LIST_MARKER_MAX_CHARS && (first_is_numeric || first == '(') && (last == '.'
        || last == '\u{104A}' || last == '\u{104B}')
}

/// Whether a text of `count` characters, of which `last` is the last, has
/// the shape of an abbreviation, given whether it is a list marker.
pub fn has_abbreviation_shape(count: usize, last: char, is_marker: bool) -> (yes: bool)
    ensures
        yes == abbreviation_shape(count as nat, last, is_marker),
{
    0 < count && count < ABBREVIATION_CHAR_LIMIT && last == '.' && !is_marker
}

/// The number of characters of `text`, if it is above zero and not above
/// `limit`. A text with more than four bytes for each character allowed is
/// not counted.
fn chars_up_to(text: &str, limit: usize) -> (count: Option<usize>)
    requires
        limit <= LIST_MARKER_MAX_CHARS,
    ensures
        match count {
            Some(n) => n == text@.len() && 0 < n <= limit,
            None => text@.len() == 0 || text@.len() > limit,
        },
{
    proof {
        lemma_bytes_fit_in_four_per_char(text@);
    }
    if len_in_bytes(text) > 4 * limit {
        return None;
    }
    let n = text.unicode_len();
    if n == 0 || n > limit {
        None
    } else {
        Some(n)
    }
}

/// Whether `text` looks like the marker of a list item.
pub fn is_list_marker(text: &str) -> (yes: bool)
    ensures
        yes == list_marker(text@),
{
    let trimmed = text.trim();
    match chars_up_to(trimmed, LIST_MARKER_MAX_CHARS) {
        Some(count) => {
            let first = trimmed.get_char(0);
            let last = trimmed.get_char(count - 1);
            has_marker_shape(count, first, first.is_numeric(), last)
        },
        None => false,
    }
}

/// Whether `text` looks like an abbreviation.
pub fn is_abbreviation(text: &str) -> (yes: bool)
    ensures
        yes == abbreviation(text@),
{
    let trimmed = text.trim();
    match chars_up_to(trimmed, ABBREVIATION_CHAR_LIMIT - 1) {
        Some(count) => {
            let last = trimmed.get_char(count - 1);
            has_abbreviation_shape(count, last, is_list_marker(text))
        },
        None => false,
    }
}

} // verus!
