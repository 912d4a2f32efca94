//! The kind of a single segment of text.

use crate::text::byte_len;
use crate::types::TokenKind;
use crate::unicode::{alphabetic, category_of, general_category, Category};
use vstd::prelude::*;
use vstd::string::*;
use vstd::utf8::*;

verus! {

/// Whether `s` is not empty and made of the digits `0` to `9` alone. In UTF-8
/// these are the texts whose every byte is an ASCII digit.
pub open spec fn is_ascii_digits(s: Seq<char>) -> bool {
    s.len() > 0 && forall|i: int| 0 <= i < s.len() ==> '0' <= #[trigger] s[i] <= '9'
}

/// Whether `b` is one of the bytes `0` to `9` of ASCII.
pub open spec fn is_ascii_digit_byte(b: u8) -> bool {
    0x30 <= b <= 0x39
}

/// The characters of a text are all ASCII digits where its bytes are, and
/// the other way round.
proof fn lemma_digit_chars_are_digit_bytes(s: Seq<char>)
    ensures
        (forall|i: int| 0 <= i < s.len() ==> '0' <= #[trigger] s[i] <= '9') <==> (forall|i: int|
            0 <= i < byte_len(s) ==> is_ascii_digit_byte(#[trigger] encode_utf8(s)[i])),
    decreases s.len(),
{
    if s.len() > 0 {
        let first = s[0] as u32;
        let rest = s.drop_first();
        let bytes = encode_utf8(s);
        let head = encode_scalar(first);
        let tail = encode_utf8(rest);
        assert(bytes == head + tail);
        lemma_digit_chars_are_digit_bytes(rest);
        encode_utf8_first_scalar(s);
        assert(head.len() >= 1);
        assert(bytes[0] == head[0]);
        if forall|i: int| 0 <= i < s.len() ==> '0' <= #[trigger] s[i] <= '9' {
            assert('0' <= s[0] <= '9');
            assert(leading_byte_width_1(first) == first as u8) by (bit_vector)
                requires
                    0x30 <= first <= 0x39,
            ;
            assert forall|i: int| 0 <= i < rest.len() implies '0' <= #[trigger] rest[i] <= '9' by {
                assert(rest[i] == s[i + 1]);
            }
            assert forall|i: int| 0 <= i < bytes.len() implies is_ascii_digit_byte(
                #[trigger] bytes[i],
            ) by {
                if i > 0 {
                    assert(bytes[i] == tail[i - 1]);
                }
            }
        }
        if forall|i: int| 0 <= i < bytes.len() ==> is_ascii_digit_byte(#[trigger] bytes[i]) {
            let b = bytes[0];
            assert(is_ascii_digit_byte(b));
            assert(leading_bits_width_1(b) == b as u32) by (bit_vector)
                requires
                    0x30 <= b <= 0x39,
            ;
            assert(first == b as u32);
            char_u32_cast(s[0], first);
            assert('0' <= s[0] <= '9');
            assert(head.len() == 1);
            assert forall|i: int| 0 <= i < tail.len() implies is_ascii_digit_byte(
                #[trigger] tail[i],
            ) by {
                assert(tail[i] == bytes[i + 1]);
            }
            assert forall|i: int| 0 <= i < s.len() implies '0' <= #[trigger] s[i] <= '9' by {
                if i > 0 {
                    assert(s[i] == rest[i - 1]);
                }
            }
        }
    }
}

/// A text is made of ASCII digits alone exactly if it is not empty and each
/// of its bytes is an ASCII digit.
pub proof fn lemma_ascii_digits_by_bytes(s: Seq<char>)
    ensures
        is_ascii_digits(s) <==> (s.len() > 0 && forall|i: int|
            0 <= i < byte_len(s) ==> is_ascii_digit_byte(#[trigger] encode_utf8(s)[i])),
{
    lemma_digit_chars_are_digit_bytes(s);
}

/// The kind of a segment that begins with a character of the given category
/// and is neither a number nor a word.
pub open spec fn kind_of_category(category: Category) -> TokenKind {
    match category {
        Category::OpenPunctuation
        | Category::ClosePunctuation
        | Category::InitialPunctuation
        | Category::FinalPunctuation
        | Category::DashPunctuation
        | Category::ConnectorPunctuation
        | Category::OtherPunctuation => TokenKind::Punctuation,
        _ => TokenKind::Other,
    }
}

/// The kind of the segment `s`: a number if it is made of ASCII digits;
/// else, by its first character alone, a word if that is alphabetic,
/// punctuation if its general category is one of punctuation, and other
/// in every other case. The empty segment is other.
pub open spec fn classify(s: Seq<char>) -> TokenKind {
    if is_ascii_digits(s) {
        TokenKind::Number
    } else if s.len() == 0 {
        TokenKind::Other
    } else if alphabetic(s.first()) {
        TokenKind::Word
    } else {
        kind_of_category(general_category(s.first()))
    }
}

/// Whether `text` is not empty and made of ASCII digits alone. It is enough
/// to look at the bytes.
pub fn is_number(text: &str) -> (yes: bool)
    ensures
        yes == is_ascii_digits(text@),
{
    if text.is_empty() {
        return false;
    }
    let bytes = text.as_bytes();
    let mut i: usize = 0;
    while i < bytes.len()
        invariant
            0 <= i <= bytes.len(),
            bytes@ == encode_utf8(text@),
            forall|k: int| 0 <= k < i ==> is_ascii_digit_byte(#[trigger] bytes@[k]),
        decreases bytes.len() - i,
    {
        let b = bytes[i];
        if b < 0x30 || b > 0x39 {
            proof {
                lemma_ascii_digits_by_bytes(text@);
                assert(!is_ascii_digit_byte(encode_utf8(text@)[i as int]));
            }
            return false;
        }
        i += 1;
    }
    proof {
        lemma_ascii_digits_by_bytes(text@);
    }
    true
}

/// The kind that a category of punctuation, or its absence, gives.
pub fn kind_from_category(category: Category) -> (kind: TokenKind)
    ensures
        kind == kind_of_category(category),
{
    match category {
        Category::OpenPunctuation
        | Category::ClosePunctuation
        | Category::InitialPunctuation
        | Category::FinalPunctuation
        | Category::DashPunctuation
        | Category::ConnectorPunctuation
        | Category::OtherPunctuation => TokenKind::Punctuation,
        _ => TokenKind::Other,
    }
}

/// The kind of the segment `text`.
pub fn classify_token(text: &str) -> (kind: TokenKind)
    ensures
        kind == classify(text@),
        kind == TokenKind::Number <==> is_ascii_digits(text@),
        kind != TokenKind::Merged,
{
    if is_number(text) {
        return TokenKind::Number;
    }
    if text.is_empty() {
        return TokenKind::Other;
    }
    let first = text.get_char(0);
    if first.is_alphabetic() {
        return TokenKind::Word;
    }
    kind_from_category(category_of(first))
}

} // verus!
