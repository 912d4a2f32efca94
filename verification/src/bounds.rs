//! The boundaries that `unicode_segmentation` finds in a text.
//!
//! The rules that place the boundaries (UAX #29) are not restated here: what
//! they give for a text is a spec function without a body. What is stated is
//! that the pieces between the boundaries tile the text.

use crate::text::{
    byte_len, is_cut, lemma_chars_fit_in_bytes, lemma_ends_are_cuts, lemma_part_begins_at_cut,
    lemma_substring_empty, lemma_substring_joined, substring,
};
use crate::unicode::{is_blank, lemma_blank_joined, trimmed};
use unicode_segmentation::UnicodeSegmentation;
use vstd::prelude::*;
use vstd::utf8::*;

verus! {

/// A piece of a text as contracts see it: the byte offset at which it begins
/// and its characters.
pub type Piece = (usize, Seq<char>);

/// The byte offset at which a piece ends.
pub open spec fn piece_end(piece: Piece) -> int {
    piece.0 + byte_len(piece.1)
}

/// The pieces as contracts see them.
pub open spec fn piece_views(pieces: Seq<(usize, &str)>) -> Seq<Piece> {
    Seq::new(pieces.len(), |i: int| (pieces[i].0, pieces[i].1@))
}

/// The byte offset at which the first `n` of the pieces end.
pub open spec fn reach(pieces: Seq<Piece>, n: int) -> nat {
    if n <= 0 {
        0
    } else {
        piece_end(pieces[n - 1]) as nat
    }
}

/// Whether the pieces, in their order, make up the text: no piece is empty,
/// each is the part of the text that begins at its offset, the first begins
/// where the text begins, each of the others where the piece before it ends,
/// and the last ends where the text ends. An empty text has no pieces.
pub open spec fn tiles(text: Seq<char>, pieces: Seq<Piece>) -> bool {
    &&& pieces.len() == 0 <==> text.len() == 0
    &&& pieces.len() > 0 ==> pieces.first().0 == 0 && piece_end(pieces.last()) == byte_len(text)
    &&& forall|i: int|
        0 <= i < pieces.len() ==> {
            &&& (#[trigger] pieces[i]).1.len() > 0
            &&& piece_end(pieces[i]) <= byte_len(text)
            &&& encode_utf8(pieces[i].1) == encode_utf8(text).subrange(
                pieces[i].0 as int,
                piece_end(pieces[i]),
            )
        }
    &&& forall|i: int, j: int|
        0 <= i && j == i + 1 && j < pieces.len() ==> piece_end(#[trigger] pieces[i])
            == (#[trigger] pieces[j]).0
}

/// The pieces into which the sentence boundaries of UAX #29 split `text`, as
/// `unicode_segmentation` finds them.
pub uninterp spec fn sentence_bounds(text: Seq<char>) -> Seq<Piece>;

/// The pieces into which the word boundaries of UAX #29 split `text`, as
/// `unicode_segmentation` finds them. White space between words is a piece
/// like any other.
pub uninterp spec fn word_bounds(text: Seq<char>) -> Seq<Piece>;

/// Collects what `UnicodeSegmentation::split_sentence_bound_indices` yields
/// for `text`. Trusted: the pieces are those that `sentence_bounds` names,
/// and they tile the text. The empty text is left out: for it the
/// iterator's size hint underflows.
#[verifier::external_body]
pub(crate) fn split_sentence_bound_indices<'a>(text: &'a str) -> (pieces: Vec<(usize, &'a str)>)
    requires
        text@.len() > 0,
    ensures
        piece_views(pieces@) == sentence_bounds(text@),
        tiles(text@, piece_views(pieces@)),
{
    text.split_sentence_bound_indices().collect()
}

/// Collects what `UnicodeSegmentation::split_word_bound_indices` yields for
/// `text`. Trusted: the pieces are those that `word_bounds` names, and they
/// tile the text.
#[verifier::external_body]
pub(crate) fn split_word_bound_indices<'a>(text: &'a str) -> (pieces: Vec<(usize, &'a str)>)
    ensures
        piece_views(pieces@) == word_bounds(text@),
        tiles(text@, piece_views(pieces@)),
{
    text.split_word_bound_indices().collect()
}

/// Whether the pieces tile the text. This is what the tokenizer and the
/// sentence iterator ask of pieces that are handed to them.
pub fn is_tiling(text: &str, pieces: &Vec<(usize, &str)>) -> (yes: bool)
    ensures
        yes == tiles(text@, piece_views(pieces@)),
{
    let whole = text.as_bytes();
    let size = whole.len();
    let ghost views = piece_views(pieces@);
    proof {
        lemma_chars_fit_in_bytes(text@);
    }
    if pieces.len() == 0 {
        return size == 0;
    }
    if size == 0 {
        return false;
    }
    let mut at: usize = 0;
    let mut i: usize = 0;
    while i < pieces.len()
        invariant
            0 <= i <= pieces.len(),
            views == piece_views(pieces@),
            whole@ == encode_utf8(text@),
            size == whole@.len(),
            text@.len() > 0,
            at == reach(views, i as int),
            at <= size,
            i > 0 ==> views[0].0 == 0,
            forall|k: int|
                0 <= k < i ==> {
                    &&& (#[trigger] views[k]).1.len() > 0
                    &&& piece_end(views[k]) <= size
                    &&& encode_utf8(views[k].1) == whole@.subrange(
                        views[k].0 as int,
                        piece_end(views[k]),
                    )
                },
            forall|k: int, l: int|
                0 <= k && l == k + 1 && l < i ==> piece_end(#[trigger] views[k]) == (
                #[trigger] views[l]).0,
        decreases pieces.len() - i,
    {
        let (offset, part) = pieces[i];
        let bytes = part.as_bytes();
        let n = bytes.len();
        proof {
            assert(views[i as int] == (offset, part@));
            lemma_chars_fit_in_bytes(part@);
            if i > 0 {
                let before = i - 1;
                assert(piece_end(views[before]) == at);
            }
        }
        if offset != at || n == 0 || n > size - at {
            return false;
        }
        let mut k: usize = 0;
        while k < n
            invariant
                0 <= k <= n,
                0 <= i < pieces.len(),
                views == piece_views(pieces@),
                views[i as int] == (offset, part@),
                offset == at,
                whole@ == encode_utf8(text@),
                bytes@ == encode_utf8(part@),
                n == bytes@.len(),
                at + n <= size,
                size == whole@.len(),
                forall|j: int| 0 <= j < k ==> bytes@[j] == whole@[at + j],
            decreases n - k,
        {
            if bytes[k] != whole[at + k] {
                assert(whole@.subrange(at as int, at + n)[k as int] == whole@[at + k]);
                return false;
            }
            k += 1;
        }
        proof {
            assert(bytes@ =~= whole@.subrange(at as int, at + n));
        }
        at = at + n;
        i += 1;
    }
    proof {
        assert(views.last() == views[pieces.len() - 1]);
    }
    at == size
}

/// Each piece of a tiling begins and ends at a cut of the text, and begins
/// before it ends.
pub proof fn lemma_pieces_lie_between_cuts(text: Seq<char>, pieces: Seq<Piece>, i: int)
    requires
        tiles(text, pieces),
        0 <= i < pieces.len(),
    ensures
        is_cut(text, pieces[i].0 as int),
        is_cut(text, piece_end(pieces[i])),
        pieces[i].0 < piece_end(pieces[i]) <= byte_len(text),
{
    lemma_chars_fit_in_bytes(pieces[i].1);
    lemma_part_begins_at_cut(text, pieces[i].1, pieces[i].0 as int);
    if i + 1 < pieces.len() {
        let j = i + 1;
        assert(piece_end(pieces[i]) == pieces[j].0);
        lemma_part_begins_at_cut(text, pieces[j].1, pieces[j].0 as int);
    } else {
        assert(pieces[i] == pieces.last());
        lemma_ends_are_cuts(text);
    }
}

/// Under a tiling, the first `n` pieces end where the piece `n` begins.
pub proof fn lemma_reach_is_offset(text: Seq<char>, pieces: Seq<Piece>, n: int)
    requires
        tiles(text, pieces),
        0 <= n < pieces.len(),
    ensures
        reach(pieces, n) == pieces[n].0,
{
    if n > 0 {
        let before = n - 1;
        assert(piece_end(pieces[before]) == pieces[n].0);
    }
}

/// Under a tiling, more pieces end further on, and all end within the text.
pub proof fn lemma_reach_ascends(text: Seq<char>, pieces: Seq<Piece>, m: int, n: int)
    requires
        tiles(text, pieces),
        0 <= m <= n <= pieces.len(),
    ensures
        reach(pieces, m) <= reach(pieces, n) <= byte_len(text),
    decreases n - m,
{
    if m < n {
        lemma_reach_ascends(text, pieces, m, n - 1);
        lemma_pieces_lie_between_cuts(text, pieces, n - 1);
        lemma_reach_is_offset(text, pieces, n - 1);
    } else if n > 0 {
        lemma_pieces_lie_between_cuts(text, pieces, n - 1);
    }
}

/// Under a tiling, a piece begins before each piece that comes after it.
pub proof fn lemma_offsets_ascend(text: Seq<char>, pieces: Seq<Piece>, i: int, j: int)
    requires
        tiles(text, pieces),
        0 <= i < j < pieces.len(),
    ensures
        pieces[i].0 < piece_end(pieces[i]) <= pieces[j].0,
{
    lemma_pieces_lie_between_cuts(text, pieces, i);
    lemma_reach_ascends(text, pieces, i + 1, j);
    lemma_reach_is_offset(text, pieces, j);
}

/// Under a tiling, each piece is the part of the text between its ends.
pub proof fn lemma_piece_is_part(text: Seq<char>, pieces: Seq<Piece>, i: int)
    requires
        tiles(text, pieces),
        0 <= i < pieces.len(),
    ensures
        substring(text, pieces[i].0 as int, piece_end(pieces[i])) == pieces[i].1,
{
    broadcast use encode_utf8_decode_utf8;

}

/// Under a tiling, the pieces end at cuts of the text.
pub proof fn lemma_reach_is_cut(text: Seq<char>, pieces: Seq<Piece>, n: int)
    requires
        tiles(text, pieces),
        0 <= n <= pieces.len(),
    ensures
        is_cut(text, reach(pieces, n) as int),
        n == pieces.len() ==> reach(pieces, n) == byte_len(text),
{
    if n > 0 {
        lemma_pieces_lie_between_cuts(text, pieces, n - 1);
        if n == pieces.len() {
            assert(pieces.last() == pieces[n - 1]);
        }
    } else {
        lemma_ends_are_cuts(text);
        if pieces.len() == 0 {
            assert(encode_utf8(text) =~= Seq::<u8>::empty());
        }
    }
}

/// Under a tiling, the part of the text that the pieces from `m` up to `n`
/// cover is blank exactly if each of those pieces is.
pub proof fn lemma_blank_stretch(text: Seq<char>, pieces: Seq<Piece>, m: int, n: int)
    requires
        tiles(text, pieces),
        0 <= m <= n <= pieces.len(),
    ensures
        is_blank(substring(text, reach(pieces, m) as int, reach(pieces, n) as int)) <==> forall|
            k: int,
        | m <= k < n ==> is_blank((#[trigger] pieces[k]).1),
    decreases n - m,
{
    broadcast use encode_utf8_decode_utf8;

    let from = reach(pieces, m) as int;
    lemma_reach_is_cut(text, pieces, m);
    lemma_reach_is_cut(text, pieces, n);
    if m == n {
        lemma_substring_empty(text, from);
        assert(trimmed(substring(text, from, from)).len() == 0);
    } else {
        let mid = reach(pieces, n - 1) as int;
        let to = reach(pieces, n) as int;
        lemma_blank_stretch(text, pieces, m, n - 1);
        lemma_reach_is_cut(text, pieces, n - 1);
        lemma_reach_ascends(text, pieces, m, n - 1);
        lemma_reach_ascends(text, pieces, n - 1, n);
        lemma_reach_is_offset(text, pieces, n - 1);
        lemma_substring_joined(text, from, mid, to);
        assert(substring(text, mid, to) == pieces[n - 1].1);
        lemma_blank_joined(substring(text, from, mid), pieces[n - 1].1);
    }
}

} // verus!
