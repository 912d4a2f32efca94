//! Texts as contracts see them: a text is its sequence of characters, and a
//! position in it is a byte offset into its UTF-8 encoding.

use vstd::prelude::*;
use vstd::string::*;
use vstd::utf8::*;

verus! {

/// The number of bytes that `s` takes in UTF-8.
pub open spec fn byte_len(s: Seq<char>) -> nat {
    encode_utf8(s).len()
}

/// Whether a count can grow by `length` without passing `usize::MAX`. The
/// length is that of a text, or of a part of one; as such it fits in `usize`
/// whenever the program runs, which the functions that ask for room find out
/// for themselves. So there is always room where the count is zero.
pub open spec fn has_room_for(count: nat, length: nat) -> bool {
    length <= usize::MAX ==> count + length <= usize::MAX
}

/// Whether the byte offset `at` lies between two characters of `s`, or at one
/// of its ends.
pub open spec fn is_cut(s: Seq<char>, at: int) -> bool {
    is_char_boundary(encode_utf8(s), at)
}

/// The characters of `s` that lie between the byte offsets `start` and `end`.
pub open spec fn substring(s: Seq<char>, start: int, end: int) -> Seq<char> {
    decode_utf8(encode_utf8(s).subrange(start, end))
}

/// A cut lies within the text.
pub proof fn lemma_cut_in_range(s: Seq<char>, at: int)
    requires
        is_cut(s, at),
    ensures
        0 <= at <= byte_len(s),
{
    broadcast use encode_utf8_valid_utf8;

}

/// Both ends of a text are cuts.
pub proof fn lemma_ends_are_cuts(s: Seq<char>)
    ensures
        is_cut(s, 0),
        is_cut(s, byte_len(s) as int),
{
    broadcast use encode_utf8_valid_utf8;

    is_char_boundary_start_end_of_seq(encode_utf8(s));
}

/// A text has at least as many bytes as characters.
pub proof fn lemma_chars_fit_in_bytes(s: Seq<char>)
    ensures
        s.len() <= byte_len(s),
    decreases s.len(),
{
    if s.len() > 0 {
        lemma_chars_fit_in_bytes(s.drop_first());
    }
}

/// A text has at most four bytes for each character.
pub proof fn lemma_bytes_fit_in_four_per_char(s: Seq<char>)
    ensures
        byte_len(s) <= 4 * s.len(),
    decreases s.len(),
{
    if s.len() > 0 {
        lemma_bytes_fit_in_four_per_char(s.drop_first());
    }
}

/// Where a text that is not empty occurs inside another, it begins at a cut.
pub proof fn lemma_part_begins_at_cut(s: Seq<char>, part: Seq<char>, start: int)
    requires
        part.len() > 0,
        0 <= start,
        start + byte_len(part) <= byte_len(s),
        encode_utf8(part) == encode_utf8(s).subrange(start, start + byte_len(part)),
    ensures
        is_cut(s, start),
{
    broadcast use encode_utf8_valid_utf8;

    let whole = encode_utf8(s);
    let piece = encode_utf8(part);
    lemma_chars_fit_in_bytes(part);
    if start > 0 {
        is_char_boundary_iff_not_is_continuation_byte(piece, 0);
        assert(piece[0] == whole[start]);
        is_char_boundary_iff_not_is_continuation_byte(whole, start);
    }
}

/// Between two cuts the bytes of a text are valid UTF-8, and where the cuts
/// lie in a front part of the text, they are cuts of that part.
proof fn lemma_bytes_between_cuts(s: Seq<char>, start: int, end: int)
    requires
        is_cut(s, start),
        is_cut(s, end),
        start <= end,
    ensures
        0 <= start <= end <= byte_len(s),
        valid_utf8(encode_utf8(s).subrange(start, end)),
{
    broadcast use encode_utf8_valid_utf8;

    let whole = encode_utf8(s);
    lemma_cut_in_range(s, start);
    lemma_cut_in_range(s, end);
    valid_utf8_split(whole, end);
    let front = whole.subrange(0, end);
    if start == end {
        is_char_boundary_start_end_of_seq(front);
    } else if start > 0 {
        is_char_boundary_iff_not_is_continuation_byte(whole, start);
        assert(front[start] == whole[start]);
        is_char_boundary_iff_not_is_continuation_byte(front, start);
    }
    valid_utf8_split(front, start);
    assert(front.subrange(start, front.len() as int) =~= whole.subrange(start, end));
}

/// The part of a text between two cuts has the bytes of the text between
/// them.
pub proof fn lemma_substring_bytes(s: Seq<char>, start: int, end: int)
    requires
        is_cut(s, start),
        is_cut(s, end),
        start <= end,
    ensures
        0 <= start <= end <= byte_len(s),
        encode_utf8(substring(s, start, end)) == encode_utf8(s).subrange(start, end),
        byte_len(substring(s, start, end)) == end - start,
{
    lemma_bytes_between_cuts(s, start, end);
    decode_utf8_encode_utf8(encode_utf8(s).subrange(start, end));
}

/// The part of a text between its two ends is the text.
pub proof fn lemma_substring_whole(s: Seq<char>)
    ensures
        substring(s, 0, byte_len(s) as int) == s,
{
    broadcast use encode_utf8_decode_utf8;

    assert(encode_utf8(s).subrange(0, byte_len(s) as int) =~= encode_utf8(s));
}

/// The part of a text between a cut and itself is empty.
pub proof fn lemma_substring_empty(s: Seq<char>, at: int)
    requires
        is_cut(s, at),
    ensures
        substring(s, at, at).len() == 0,
{
    lemma_substring_bytes(s, at, at);
    lemma_chars_fit_in_bytes(substring(s, at, at));
}

/// Two parts of a text of which the second begins where the first ends make
/// up the part from where the first begins to where the second ends.
pub proof fn lemma_substring_joined(s: Seq<char>, start: int, mid: int, end: int)
    requires
        is_cut(s, start),
        is_cut(s, mid),
        is_cut(s, end),
        start <= mid <= end,
    ensures
        substring(s, start, end) == substring(s, start, mid) + substring(s, mid, end),
{
    broadcast use encode_utf8_valid_utf8;

    let whole = encode_utf8(s);
    let part = whole.subrange(start, end);
    lemma_bytes_between_cuts(s, start, end);
    if mid == end {
        is_char_boundary_start_end_of_seq(part);
    } else if mid > start {
        is_char_boundary_iff_not_is_continuation_byte(whole, mid);
        assert(part[mid - start] == whole[mid]);
        is_char_boundary_iff_not_is_continuation_byte(part, mid - start);
    }
    decode_utf8_split(part, mid - start);
    assert(part.subrange(0, mid - start) =~= whole.subrange(start, mid));
    assert(part.subrange(mid - start, part.len() as int) =~= whole.subrange(mid, end));
}

/// A cut of a part of a text is a cut of the text.
pub proof fn lemma_cut_of_part(s: Seq<char>, start: int, end: int, at: int)
    requires
        is_cut(s, start),
        is_cut(s, end),
        start <= end,
        is_cut(substring(s, start, end), at),
    ensures
        is_cut(s, start + at),
        start <= start + at <= end,
{
    broadcast use encode_utf8_valid_utf8;

    let whole = encode_utf8(s);
    let part = encode_utf8(substring(s, start, end));
    lemma_substring_bytes(s, start, end);
    lemma_cut_in_range(substring(s, start, end), at);
    if 0 < at < part.len() {
        is_char_boundary_iff_not_is_continuation_byte(part, at);
        assert(part[at] == whole[start + at]);
        is_char_boundary_iff_not_is_continuation_byte(whole, start + at);
    }
}

/// A part of a part of a text is a part of the text.
pub proof fn lemma_substring_of_substring(s: Seq<char>, start: int, end: int, from: int, to: int)
    requires
        is_cut(s, start),
        is_cut(s, end),
        start <= end,
        is_cut(substring(s, start, end), from),
        is_cut(substring(s, start, end), to),
        from <= to,
    ensures
        substring(substring(s, start, end), from, to) == substring(s, start + from, start + to),
        is_cut(s, start + from),
        is_cut(s, start + to),
{
    lemma_substring_bytes(s, start, end);
    lemma_cut_of_part(s, start, end, from);
    lemma_cut_of_part(s, start, end, to);
    assert(encode_utf8(s).subrange(start, end).subrange(from, to) =~= encode_utf8(s).subrange(
        start + from,
        start + to,
    ));
}

/// The length of `text` in bytes.
pub fn len_in_bytes(text: &str) -> (n: usize)
    ensures
        n == byte_len(text@),
{
    text.as_bytes().len()
}

/// The part of `text` between the byte offsets `start` and `end`, without
/// copying it.
pub fn slice<'a>(text: &'a str, start: usize, end: usize) -> (part: &'a str)
    requires
        is_cut(text@, start as int),
        is_cut(text@, end as int),
        start <= end,
    ensures
        part@ == substring(text@, start as int, end as int),
        encode_utf8(part@) == encode_utf8(text@).subrange(start as int, end as int),
{
    broadcast use {encode_utf8_valid_utf8, encode_utf8_decode_utf8};

    let ghost whole = encode_utf8(text@);
    proof {
        lemma_cut_in_range(text@, end as int);
    }
    let (head, _) = text.split_at(end);
    proof {
        let front = encode_utf8(head@);
        assert(front == whole.subrange(0, end as int));
        if start == end {
            is_char_boundary_start_end_of_seq(front);
        } else if start > 0 {
            is_char_boundary_iff_not_is_continuation_byte(whole, start as int);
            assert(front[start as int] == whole[start as int]);
            is_char_boundary_iff_not_is_continuation_byte(front, start as int);
        }
    }
    let (_, part) = head.split_at(start);
    proof {
        assert(encode_utf8(part@) =~= whole.subrange(start as int, end as int));
    }
    part
}

} // verus!
