//! The sentences of a document.
//!
//! The sentence boundaries split a document into pieces. A sentence begins
//! with the first piece that is not blank and takes in the pieces after it
//! for as long as it ends inside brackets, or is so far no more than the
//! marker of a list item or an abbreviation.

use crate::balance::{Balance, BalanceTracker};
use crate::bounds::{
    lemma_blank_stretch, lemma_pieces_lie_between_cuts, lemma_reach_ascends, lemma_reach_is_cut,
    lemma_reach_is_offset, piece_views, reach, sentence_bounds, split_sentence_bound_indices,
    tiles, word_bounds, Piece,
};
use crate::markers::{abbreviation, is_abbreviation, is_list_marker, list_marker};
use crate::text::{
    byte_len, is_cut, lemma_chars_fit_in_bytes, lemma_substring_bytes, len_in_bytes, slice,
    substring,
};
use crate::tokenizer::{
    lemma_tokenize, numbered_from, token_end, token_lies_in, tokenize, tokenize_sentence,
    tokens_ascend, tokens_lie_in, tokens_show_their_kind,
};
use crate::types::{Sentence, SentenceView, TokenView};
use crate::unicode::{is_blank, is_whitespace_only};
use std::borrow::Cow;
use vstd::prelude::*;

verus! {

/// Whether a sentence that reads `sentence` so far, and after which the
/// bracket depth is that of `tracker`, takes in the piece that follows it.
pub open spec fn takes_next(tracker: Balance, sentence: Seq<char>) -> bool {
    tracker.is_merging() || list_marker(sentence) || abbreviation(sentence)
}

/// The index of the first piece, from the index `from` on, that is not
/// blank; the number of pieces if there is none.
pub open spec fn next_start(pieces: Seq<Piece>, from: nat) -> nat
    decreases pieces.len() - from,
{
    if from < pieces.len() && is_blank(pieces[from as int].1) {
        next_start(pieces, from + 1)
    } else {
        from
    }
}

/// A sentence as a range of pieces: those from the index `first` up to, and
/// without, the index `upto`.
pub struct Group {
    pub first: nat,
    pub upto: nat,
}

impl Group {
    /// The byte offset at which the sentence begins in its document.
    pub open spec fn start(self, pieces: Seq<Piece>) -> nat {
        pieces[self.first as int].0 as nat
    }

    /// The byte offset at which the sentence ends in its document.
    pub open spec fn end(self, pieces: Seq<Piece>) -> nat {
        reach(pieces, self.upto as int)
    }

    /// The text of the sentence.
    pub open spec fn text(self, doc: Seq<char>, pieces: Seq<Piece>) -> Seq<char> {
        substring(doc, self.start(pieces) as int, self.end(pieces) as int)
    }
}

/// Where the sentence that begins with the piece `first` ends, given that it
/// has taken in the pieces before `upto` and that `tracker` is the bracket
/// depth after them: the index of the first piece that it does not take in,
/// and the bracket depth after its last piece.
pub open spec fn grow(doc: Seq<char>, pieces: Seq<Piece>, first: nat, upto: nat, tracker: Balance) -> (
    nat,
    Balance,
)
    decreases pieces.len() - upto,
{
    let so_far = Group { first, upto }.text(doc, pieces);
    if upto < pieces.len() && takes_next(tracker, so_far) {
        grow(doc, pieces, first, upto + 1, tracker.feed(pieces[upto as int].1))
    } else {
        (upto, tracker)
    }
}

/// The sentences that the pieces from the index `from` on make, where
/// `tracker` is the bracket depth after the pieces before them.
pub open spec fn groups(doc: Seq<char>, pieces: Seq<Piece>, from: nat, tracker: Balance) -> Seq<Group>
    decreases pieces.len() - from,
    via groups_decreases
{
    let first = next_start(pieces, from);
    if first >= pieces.len() {
        Seq::empty()
    } else {
        let (upto, after) = grow(doc, pieces, first, first + 1, tracker.feed(pieces[first as int].1));
        seq![Group { first, upto }] + groups(doc, pieces, upto, after)
    }
}

#[via_fn]
proof fn groups_decreases(doc: Seq<char>, pieces: Seq<Piece>, from: nat, tracker: Balance) {
    let first = next_start(pieces, from);
    if first < pieces.len() {
        lemma_next_start(pieces, from);
        lemma_grow(doc, pieces, first, first + 1, tracker.feed(pieces[first as int].1));
    }
}

/// `next_start` skips blank pieces and nothing else.
pub proof fn lemma_next_start(pieces: Seq<Piece>, from: nat)
    ensures
        from <= next_start(pieces, from),
        from <= pieces.len() ==> next_start(pieces, from) <= pieces.len(),
        next_start(pieces, from) < pieces.len() ==> !is_blank(
            pieces[next_start(pieces, from) as int].1,
        ),
        forall|k: int| from <= k < next_start(pieces, from) ==> is_blank((#[trigger] pieces[k]).1),
    decreases pieces.len() - from,
{
    if from < pieces.len() && is_blank(pieces[from as int].1) {
        lemma_next_start(pieces, from + 1);
    }
}

/// A sentence ends at or after the piece up to which it has grown, and
/// within the pieces.
pub proof fn lemma_grow(doc: Seq<char>, pieces: Seq<Piece>, first: nat, upto: nat, tracker: Balance)
    ensures
        upto <= grow(doc, pieces, first, upto, tracker).0,
        upto <= pieces.len() ==> grow(doc, pieces, first, upto, tracker).0 <= pieces.len(),
    decreases pieces.len() - upto,
{
    let so_far = Group { first, upto }.text(doc, pieces);
    if upto < pieces.len() && takes_next(tracker, so_far) {
        lemma_grow(doc, pieces, first, upto + 1, tracker.feed(pieces[upto as int].1));
    }
}

/// The sentence that a group of pieces makes, its tokens numbered from
/// `first_id` on.
pub open spec fn sentence_at(doc: Seq<char>, pieces: Seq<Piece>, group: Group, first_id: nat) -> SentenceView {
    let text = group.text(doc, pieces);
    SentenceView { text, tokens: tokenize(text, group.start(pieces), first_id) }
}

/// The sentences that the groups make, in their order. The tokens are
/// numbered from `first_id` on, from one sentence on to the next.
pub open spec fn sentences_of(doc: Seq<char>, pieces: Seq<Piece>, groups: Seq<Group>, first_id: nat) -> Seq<
    SentenceView,
>
    decreases groups.len(),
{
    if groups.len() == 0 {
        Seq::empty()
    } else {
        let head = sentence_at(doc, pieces, groups.first(), first_id);
        seq![head] + sentences_of(doc, pieces, groups.drop_first(), first_id + head.tokens.len())
    }
}

/// The tokens of the sentences, in their order.
pub open spec fn all_tokens(sentences: Seq<SentenceView>) -> Seq<TokenView>
    decreases sentences.len(),
{
    if sentences.len() == 0 {
        Seq::empty()
    } else {
        sentences.first().tokens + all_tokens(sentences.drop_first())
    }
}

/// Whether each group holds at least one of the pieces from the index `from`
/// on, and ends before the next begins.
pub open spec fn groups_in_order(pieces: Seq<Piece>, groups: Seq<Group>, from: nat) -> bool {
    &&& forall|i: int|
        0 <= i < groups.len() ==> from <= (#[trigger] groups[i]).first < groups[i].upto
            <= pieces.len()
    &&& forall|i: int, j: int|
        0 <= i < j < groups.len() ==> (#[trigger] groups[i]).upto <= (#[trigger] groups[j]).first
}

/// Whether each group begins with a piece that is not blank.
pub open spec fn groups_begin_with_text(pieces: Seq<Piece>, groups: Seq<Group>) -> bool {
    forall|i: int| 0 <= i < groups.len() ==> !is_blank(pieces[(#[trigger] groups[i]).first as int].1)
}

/// The part of the document between two sentences: before the sentence `i`
/// and after the one before it. With `i` zero it is the part before the
/// first sentence, with `i` the number of sentences the part after the last.
pub open spec fn gap(doc: Seq<char>, pieces: Seq<Piece>, groups: Seq<Group>, i: int) -> Seq<char> {
    substring(
        doc,
        if i <= 0 {
            0
        } else {
            groups[i - 1].end(pieces) as int
        },
        if i >= groups.len() {
            byte_len(doc) as int
        } else {
            groups[i].start(pieces) as int
        },
    )
}

/// Whether the piece with the index `k` belongs to one of the groups.
pub open spec fn in_some_group(groups: Seq<Group>, k: int) -> bool {
    exists|i: int| 0 <= i < groups.len() && (#[trigger] groups[i]).first <= k < groups[i].upto
}

/// Whether the sentences that the groups make are parts of the document
/// that are not empty and follow one another without overlap.
pub open spec fn groups_lie_in(doc: Seq<char>, pieces: Seq<Piece>, groups: Seq<Group>) -> bool {
    &&& forall|i: int|
        0 <= i < groups.len() ==> {
            &&& is_cut(doc, (#[trigger] groups[i]).start(pieces) as int)
            &&& is_cut(doc, groups[i].end(pieces) as int)
            &&& groups[i].start(pieces) < groups[i].end(pieces) <= byte_len(doc)
        }
    &&& forall|i: int, j: int|
        0 <= i < j < groups.len() ==> (#[trigger] groups[i]).end(pieces) <= (#[trigger] groups[j]).start(
            pieces,
        )
}

/// The sentences that pieces make each hold at least one piece and follow
/// one another, and a piece that is in none of them is blank.
pub proof fn lemma_groups_in_order(doc: Seq<char>, pieces: Seq<Piece>, from: nat, tracker: Balance)
    requires
        from <= pieces.len(),
    ensures
        groups_in_order(pieces, groups(doc, pieces, from, tracker), from),
        forall|k: int|
            from <= k < pieces.len() ==> is_blank((#[trigger] pieces[k]).1) || in_some_group(
                groups(doc, pieces, from, tracker),
                k,
            ),
        groups_begin_with_text(pieces, groups(doc, pieces, from, tracker)),
    decreases pieces.len() - from,
{
    let all = groups(doc, pieces, from, tracker);
    let first = next_start(pieces, from);
    lemma_next_start(pieces, from);
    if first < pieces.len() {
        let (upto, after) = grow(doc, pieces, first, first + 1, tracker.feed(pieces[first as int].1));
        lemma_grow(doc, pieces, first, first + 1, tracker.feed(pieces[first as int].1));
        let rest = groups(doc, pieces, upto, after);
        lemma_groups_in_order(doc, pieces, upto, after);
        let head = Group { first, upto };
        assert(all == seq![head] + rest);
        assert(all[0] == head);
        assert forall|i: int| 1 <= i < all.len() implies #[trigger] all[i] == rest[i - 1] by {}
        assert forall|i: int| 0 <= i < all.len() implies !is_blank(
            pieces[(#[trigger] all[i]).first as int].1,
        ) by {
            if i > 0 {
                assert(all[i] == rest[i - 1]);
            }
        }
        assert forall|i: int, j: int| 0 <= i < j < all.len() implies (#[trigger] all[i]).upto <= (
        #[trigger] all[j]).first by {
            assert(all[j] == rest[j - 1]);
            if i > 0 {
                assert(all[i] == rest[i - 1]);
            }
        }
        assert forall|k: int| from <= k < pieces.len() implies is_blank((#[trigger] pieces[k]).1)
            || in_some_group(all, k) by {
            if k < first {
            } else if k < upto {
                assert(all[0].first <= k < all[0].upto);
            } else if !is_blank(pieces[k].1) {
                assert(in_some_group(rest, k));
                let i = choose|i: int| 0 <= i < rest.len() && (#[trigger] rest[i]).first <= k < rest[i].upto;
                assert(all[i + 1] == rest[i]);
                assert(all[i + 1].first <= k < all[i + 1].upto);
            }
        }
    }
}

/// Under a tiling, sentences that each hold at least one piece and follow
/// one another are parts of the document that follow one another without
/// overlap.
pub proof fn lemma_groups_lie_in(doc: Seq<char>, pieces: Seq<Piece>, groups: Seq<Group>, from: nat)
    requires
        tiles(doc, pieces),
        groups_in_order(pieces, groups, from),
    ensures
        groups_lie_in(doc, pieces, groups),
{
    assert forall|i: int| 0 <= i < groups.len() implies {
        &&& is_cut(doc, (#[trigger] groups[i]).start(pieces) as int)
        &&& is_cut(doc, groups[i].end(pieces) as int)
        &&& groups[i].start(pieces) < groups[i].end(pieces) <= byte_len(doc)
    } by {
        let group = groups[i];
        lemma_pieces_lie_between_cuts(doc, pieces, group.first as int);
        lemma_pieces_lie_between_cuts(doc, pieces, group.upto - 1);
        lemma_reach_ascends(doc, pieces, (group.first + 1) as int, group.upto as int);
    }
    assert forall|i: int, j: int| 0 <= i < j < groups.len() implies (#[trigger] groups[i]).end(pieces)
        <= (#[trigger] groups[j]).start(pieces) by {
        lemma_reach_ascends(doc, pieces, groups[i].upto as int, groups[j].first as int);
        lemma_reach_is_offset(doc, pieces, groups[j].first as int);
    }
}

/// The index of the first piece after the sentence before the sentence `i`;
/// zero if there is none before it.
pub open spec fn gap_first(groups: Seq<Group>, i: int) -> int {
    if i <= 0 {
        0
    } else {
        groups[i - 1].upto as int
    }
}

/// The index of the first piece of the sentence `i`; the number of pieces if
/// there is no such sentence.
pub open spec fn gap_upto(pieces: Seq<Piece>, groups: Seq<Group>, i: int) -> int {
    if i >= groups.len() {
        pieces.len() as int
    } else {
        groups[i].first as int
    }
}

/// A piece between two sentences belongs to no sentence.
proof fn lemma_piece_in_gap(pieces: Seq<Piece>, groups: Seq<Group>, i: int, k: int)
    requires
        groups_in_order(pieces, groups, 0),
        0 <= i <= groups.len(),
        gap_first(groups, i) <= k < gap_upto(pieces, groups, i),
    ensures
        !in_some_group(groups, k),
{
    assert forall|j: int| 0 <= j < groups.len() implies !((#[trigger] groups[j]).first <= k
        < groups[j].upto) by {
        if j < i {
            if j < i - 1 {
                assert(groups[j].upto <= groups[i - 1].first);
            }
            assert(groups[i - 1].first < groups[i - 1].upto);
        } else {
            if j > i {
                assert(groups[i].upto <= groups[j].first);
            }
            assert(groups[i].first < groups[i].upto);
        }
    }
}

/// Under a tiling, what lies between two sentences, before the first or
/// after the last is blank.
proof fn lemma_gap_is_blank(doc: Seq<char>, pieces: Seq<Piece>, groups: Seq<Group>, i: int)
    requires
        tiles(doc, pieces),
        groups_in_order(pieces, groups, 0),
        forall|k: int|
            0 <= k < pieces.len() ==> is_blank((#[trigger] pieces[k]).1) || in_some_group(groups, k),
        0 <= i <= groups.len(),
    ensures
        is_blank(gap(doc, pieces, groups, i)),
{
    let lo = gap_first(groups, i);
    let hi = gap_upto(pieces, groups, i);
    if 0 < i < groups.len() {
        assert(groups[i - 1].upto <= groups[i].first);
    }
    if i > 0 {
        assert(groups[i - 1].first < groups[i - 1].upto <= pieces.len());
    }
    if i < groups.len() {
        assert(groups[i].first < groups[i].upto <= pieces.len());
        lemma_reach_is_offset(doc, pieces, hi);
    }
    lemma_reach_is_cut(doc, pieces, hi);
    assert(gap(doc, pieces, groups, i) == substring(
        doc,
        reach(pieces, lo) as int,
        reach(pieces, hi) as int,
    ));
    assert forall|k: int| lo <= k < hi implies is_blank((#[trigger] pieces[k]).1) by {
        lemma_piece_in_gap(pieces, groups, i, k);
    }
    lemma_blank_stretch(doc, pieces, lo, hi);
}

/// Under a tiling, a sentence that begins with a piece that is not blank is
/// not blank.
proof fn lemma_group_is_not_blank(doc: Seq<char>, pieces: Seq<Piece>, group: Group)
    requires
        tiles(doc, pieces),
        group.first < group.upto <= pieces.len(),
        !is_blank(pieces[group.first as int].1),
    ensures
        !is_blank(group.text(doc, pieces)),
{
    lemma_reach_is_offset(doc, pieces, group.first as int);
    lemma_blank_stretch(doc, pieces, group.first as int, group.upto as int);
}

/// Under a tiling, what lies between the sentences, before the first and
/// after the last is blank, and no sentence is.
pub proof fn lemma_gaps_are_blank(doc: Seq<char>, pieces: Seq<Piece>, groups: Seq<Group>)
    requires
        tiles(doc, pieces),
        groups_in_order(pieces, groups, 0),
        groups_begin_with_text(pieces, groups),
        forall|k: int|
            0 <= k < pieces.len() ==> is_blank((#[trigger] pieces[k]).1) || in_some_group(groups, k),
    ensures
        forall|i: int| 0 <= i <= groups.len() ==> is_blank(#[trigger] gap(doc, pieces, groups, i)),
        forall|i: int| 0 <= i < groups.len() ==> !is_blank((#[trigger] groups[i]).text(doc, pieces)),
{
    assert forall|i: int| 0 <= i <= groups.len() implies is_blank(
        #[trigger] gap(doc, pieces, groups, i),
    ) by {
        lemma_gap_is_blank(doc, pieces, groups, i);
    }
    assert forall|i: int| 0 <= i < groups.len() implies !is_blank(
        (#[trigger] groups[i]).text(doc, pieces),
    ) by {
        lemma_group_is_not_blank(doc, pieces, groups[i]);
    }
}

/// There is one sentence for each group, with the text of the group, and the
/// tokens of all the sentences are numbered one after the other.
pub proof fn lemma_sentences_of(doc: Seq<char>, pieces: Seq<Piece>, groups: Seq<Group>, first_id: nat)
    ensures
        sentences_of(doc, pieces, groups, first_id).len() == groups.len(),
        forall|i: int|
            0 <= i < groups.len() ==> (#[trigger] sentences_of(doc, pieces, groups, first_id)[i]).text
                == groups[i].text(doc, pieces),
        numbered_from(all_tokens(sentences_of(doc, pieces, groups, first_id)), first_id),
    decreases groups.len(),
{
    let all = sentences_of(doc, pieces, groups, first_id);
    if groups.len() > 0 {
        let head = sentence_at(doc, pieces, groups.first(), first_id);
        let further = first_id + head.tokens.len();
        let rest = sentences_of(doc, pieces, groups.drop_first(), further);
        lemma_sentences_of(doc, pieces, groups.drop_first(), further);
        assert(all == seq![head] + rest);
        assert(all.first() == head);
        assert(all.drop_first() =~= rest);
        assert forall|i: int| 0 <= i < groups.len() implies (#[trigger] all[i]).text == groups[i].text(
            doc,
            pieces,
        ) by {
            if i > 0 {
                assert(all[i] == rest[i - 1]);
                assert(groups[i] == groups.drop_first()[i - 1]);
            }
        }
        let tokens = all_tokens(all);
        assert(tokens == head.tokens + all_tokens(rest));
        assert forall|k: int| 0 <= k < tokens.len() implies (#[trigger] tokens[k]).id == first_id + k by {
            if k >= head.tokens.len() {
                assert(tokens[k] == all_tokens(rest)[k - head.tokens.len()]);
            }
        }
    }
}

/// Where the word boundaries tile the text of each group, the tokens of each
/// sentence are parts of it that follow one another without overlap, each at
/// its offset in the document.
pub proof fn lemma_sentences_hold_their_tokens(
    doc: Seq<char>,
    pieces: Seq<Piece>,
    groups: Seq<Group>,
    first_id: nat,
)
    requires
        forall|i: int|
            0 <= i < groups.len() ==> tiles(
                (#[trigger] groups[i]).text(doc, pieces),
                word_bounds(groups[i].text(doc, pieces)),
            ),
    ensures
        sentences_of(doc, pieces, groups, first_id).len() == groups.len(),
        forall|i: int|
            0 <= i < groups.len() ==> tokens_lie_in(
                (#[trigger] sentences_of(doc, pieces, groups, first_id)[i]).tokens,
                groups[i].text(doc, pieces),
                groups[i].start(pieces),
            ) && tokens_show_their_kind(sentences_of(doc, pieces, groups, first_id)[i].tokens),
    decreases groups.len(),
{
    let all = sentences_of(doc, pieces, groups, first_id);
    if groups.len() > 0 {
        let head = sentence_at(doc, pieces, groups.first(), first_id);
        let further = first_id + head.tokens.len();
        let rest = sentences_of(doc, pieces, groups.drop_first(), further);
        assert forall|i: int| 0 <= i < groups.drop_first().len() implies tiles(
            (#[trigger] groups.drop_first()[i]).text(doc, pieces),
            word_bounds(groups.drop_first()[i].text(doc, pieces)),
        ) by {
            assert(groups.drop_first()[i] == groups[i + 1]);
        }
        lemma_sentences_hold_their_tokens(doc, pieces, groups.drop_first(), further);
        assert(all == seq![head] + rest);
        assert forall|i: int| 0 <= i < groups.len() implies tokens_lie_in(
            (#[trigger] all[i]).tokens,
            groups[i].text(doc, pieces),
            groups[i].start(pieces),
        ) && tokens_show_their_kind(all[i].tokens) by {
            if i > 0 {
                assert(all[i] == rest[i - 1]);
                assert(groups[i] == groups.drop_first()[i - 1]);
            } else {
                assert(all[0] == head);
                assert(groups[0] == groups.first());
                lemma_tokenize(groups[0].text(doc, pieces), groups[0].start(pieces), first_id);
            }
        }
    }
}

/// Where sentences lie in spans that follow one another, and the tokens of
/// each follow one another within its span, the tokens of all the sentences
/// follow one another.
proof fn lemma_tokens_of_spans_ascend(sentences: Seq<SentenceView>, spans: Seq<(nat, nat)>)
    requires
        sentences.len() == spans.len(),
        forall|i: int, j: int|
            0 <= i < j < spans.len() ==> (#[trigger] spans[i]).1 <= (#[trigger] spans[j]).0,
        forall|i: int| 0 <= i < spans.len() ==> (#[trigger] spans[i]).0 <= spans[i].1,
        forall|i: int| 0 <= i < sentences.len() ==> tokens_ascend((#[trigger] sentences[i]).tokens),
        forall|i: int, k: int|
            0 <= i < sentences.len() && 0 <= k < sentences[i].tokens.len() ==> spans[i].0 <= (
            #[trigger] sentences[i].tokens[k]).offset && token_end(sentences[i].tokens[k])
                <= spans[i].1,
    ensures
        tokens_ascend(all_tokens(sentences)),
        forall|k: int|
            0 <= k < all_tokens(sentences).len() ==> spans[0].0 <= (#[trigger] all_tokens(
                sentences,
            )[k]).offset,
    decreases sentences.len(),
{
    if sentences.len() > 0 {
        let head = sentences.first().tokens;
        let rest = all_tokens(sentences.drop_first());
        let all = all_tokens(sentences);
        let later = spans.drop_first();
        assert(all == head + rest);
        assert forall|i: int, k: int|
            0 <= i < sentences.drop_first().len() && 0 <= k < sentences.drop_first()[i].tokens.len() implies
            later[i].0 <= (#[trigger] sentences.drop_first()[i].tokens[k]).offset && token_end(
            sentences.drop_first()[i].tokens[k],
        ) <= later[i].1 by {
            assert(sentences.drop_first()[i] == sentences[i + 1]);
            assert(later[i] == spans[i + 1]);
        }
        assert forall|i: int| 0 <= i < sentences.drop_first().len() implies tokens_ascend(
            (#[trigger] sentences.drop_first()[i]).tokens,
        ) by {
            assert(sentences.drop_first()[i] == sentences[i + 1]);
        }
        assert forall|i: int, j: int| 0 <= i < j < later.len() implies (#[trigger] later[i]).1 <= (
        #[trigger] later[j]).0 by {
            assert(later[i] == spans[i + 1] && later[j] == spans[j + 1]);
        }
        assert forall|i: int| 0 <= i < later.len() implies (#[trigger] later[i]).0 <= later[i].1 by {
            assert(later[i] == spans[i + 1]);
        }
        lemma_tokens_of_spans_ascend(sentences.drop_first(), later);
        assert forall|k: int| 0 <= k < all.len() implies spans[0].0 <= (#[trigger] all[k]).offset by {
            if k < head.len() {
                assert(all[k] == sentences[0].tokens[k]);
            } else {
                assert(all[k] == rest[k - head.len()]);
                assert(later[0] == spans[1]);
            }
        }
        assert forall|k: int, l: int| 0 <= k < l < all.len() implies token_end(#[trigger] all[k]) <= (
        #[trigger] all[l]).offset by {
            if l < head.len() {
                assert(all[k] == head[k] && all[l] == head[l]);
            } else if k >= head.len() {
                assert(all[k] == rest[k - head.len()] && all[l] == rest[l - head.len()]);
            } else {
                assert(all[k] == sentences[0].tokens[k]);
                assert(all[l] == rest[l - head.len()]);
                assert(later[0] == spans[1]);
            }
        }
    }
}

/// Where the sentences are parts of the document that follow one another,
/// and the tokens of each are parts of it that follow one another, the
/// tokens of all the sentences follow one another.
pub proof fn lemma_all_tokens_ascend(
    doc: Seq<char>,
    pieces: Seq<Piece>,
    groups: Seq<Group>,
    sentences: Seq<SentenceView>,
)
    requires
        sentences.len() == groups.len(),
        groups_lie_in(doc, pieces, groups),
        forall|i: int|
            0 <= i < sentences.len() ==> tokens_lie_in(
                (#[trigger] sentences[i]).tokens,
                groups[i].text(doc, pieces),
                groups[i].start(pieces),
            ),
    ensures
        tokens_ascend(all_tokens(sentences)),
{
    let spans = Seq::new(groups.len(), |i: int| (groups[i].start(pieces), groups[i].end(pieces)));
    assert forall|i: int, k: int|
        0 <= i < sentences.len() && 0 <= k < sentences[i].tokens.len() implies spans[i].0 <= (
    #[trigger] sentences[i].tokens[k]).offset && token_end(sentences[i].tokens[k]) <= spans[i].1 by {
        lemma_substring_bytes(
            doc,
            groups[i].start(pieces) as int,
            groups[i].end(pieces) as int,
        );
        assert(token_lies_in(
            sentences[i].tokens[k],
            groups[i].text(doc, pieces),
            groups[i].start(pieces),
        ));
    }
    assert forall|i: int, j: int| 0 <= i < j < spans.len() implies (#[trigger] spans[i]).1 <= (
    #[trigger] spans[j]).0 by {
        assert(groups[i].end(pieces) <= groups[j].start(pieces));
    }
    lemma_tokens_of_spans_ascend(sentences, spans);
}

/// The pieces between the sentence boundaries of `doc`. The empty document
/// has none.
pub open spec fn sentence_pieces(doc: Seq<char>) -> Seq<Piece> {
    if doc.len() == 0 {
        Seq::empty()
    } else {
        sentence_bounds(doc)
    }
}

/// The sentences of `doc`, with their tokens.
pub open spec fn sentences(doc: Seq<char>) -> Seq<SentenceView> {
    let pieces = sentence_pieces(doc);
    sentences_of(doc, pieces, groups(doc, pieces, 0, Balance::new()), 1)
}

/// Walks the sentences of a document, one at a time.
pub struct SentenceIterator<'a> {
    pieces: Vec<(usize, &'a str)>,
    next: usize,
    text_source: &'a str,
    tracker: BalanceTracker,
    token_id_counter: usize,
}

impl<'a> SentenceIterator<'a> {
    /// The pieces of the document as the model has them.
    spec fn views(&self) -> Seq<Piece> {
        piece_views(self.pieces@)
    }

    /// What every iterator made by `new` or `from_pieces` and moved by
    /// `next` satisfies.
    pub closed spec fn wf(&self) -> bool {
        &&& tiles(self.text_source@, self.views())
        &&& byte_len(self.text_source@) < usize::MAX
        &&& self.next <= self.pieces.len()
        &&& self.tracker@.brackets <= reach(self.views(), self.next as int)
        &&& self.tracker@.quotes <= reach(self.views(), self.next as int)
        &&& self.token_id_counter <= 1 + reach(self.views(), self.next as int)
    }

    /// The document that is walked.
    pub closed spec fn source(&self) -> Seq<char> {
        self.text_source@
    }

    /// The pieces between the sentence boundaries of the document.
    pub closed spec fn pieces(&self) -> Seq<Piece> {
        self.views()
    }

    /// The index of the piece that comes next.
    pub closed spec fn position(&self) -> nat {
        self.next as nat
    }

    /// The bracket depth after the pieces that were taken in.
    pub closed spec fn balance(&self) -> Balance {
        self.tracker@
    }

    /// The id that the next token gets.
    pub closed spec fn next_id(&self) -> nat {
        self.token_id_counter as nat
    }

    /// The sentences that are still to come.
    pub open spec fn remaining(&self) -> Seq<SentenceView> {
        sentences_of(
            self.source(),
            self.pieces(),
            groups(self.source(), self.pieces(), self.position(), self.balance()),
            self.next_id(),
        )
    }

    /// An iterator before the first sentence of `text`, whose pieces between
    /// sentence boundaries are given. The tokens are numbered from 1 on; so
    /// that the counter can pass the last of them, the text must be shorter
    /// than `usize::MAX` bytes.
    pub fn from_pieces(text: &'a str, pieces: Vec<(usize, &'a str)>) -> (iterator: Self)
        requires
            tiles(text@, piece_views(pieces@)),
            byte_len(text@) < usize::MAX,
        ensures
            iterator.wf(),
            iterator.source() == text@,
            iterator.pieces() == piece_views(pieces@),
            iterator.position() == 0,
            iterator.balance() == Balance::new(),
            iterator.next_id() == 1,
    {
        Self { pieces, next: 0, text_source: text, tracker: BalanceTracker::new(), token_id_counter: 1 }
    }

    /// An iterator before the first sentence of `text`. The tokens are
    /// numbered from 1 on; so that the counter can pass the last of them,
    /// the text must be shorter than `usize::MAX` bytes.
    pub fn new(text: &'a str) -> (iterator: Self)
        requires
            byte_len(text@) < usize::MAX,
        ensures
            iterator.wf(),
            iterator.source() == text@,
            iterator.pieces() == sentence_pieces(text@),
            iterator.position() == 0,
            iterator.balance() == Balance::new(),
            iterator.next_id() == 1,
            iterator.remaining() == sentences(text@),
            tiles(text@, sentence_pieces(text@)),
    {
        let pieces = if text.is_empty() {
            Vec::new()
        } else {
            split_sentence_bound_indices(text)
        };
        proof {
            assert(piece_views(pieces@) =~= sentence_pieces(text@));
        }
        Self::from_pieces(text, pieces)
    }

    /// The next sentence, if there is one. There is none exactly if the
    /// pieces that are left are all blank. Else the sentence begins with the
    /// first of them that is not blank, and ends before the piece at which
    /// the iterator then stands.
    pub fn next(&mut self) -> (sentence: Option<Sentence<'a>>)
        requires
            old(self).wf(),
        ensures
            final(self).wf(),
            final(self).source() == old(self).source(),
            final(self).pieces() == old(self).pieces(),
            sentence is None <==> forall|k: int|
                old(self).position() <= k < old(self).pieces().len() ==> is_blank(
                    (#[trigger] old(self).pieces()[k]).1,
                ),
            match sentence {
                Some(s) => {
                    let group = Group {
                        first: next_start(old(self).pieces(), old(self).position()),
                        upto: final(self).position(),
                    };
                    &&& old(self).remaining() == seq![s@] + final(self).remaining()
                    &&& old(self).position() <= group.first < group.upto <= old(self).pieces().len()
                    &&& (group.upto, final(self).balance()) == grow(
                        old(self).source(),
                        old(self).pieces(),
                        group.first,
                        group.first + 1,
                        old(self).balance().feed(old(self).pieces()[group.first as int].1),
                    )
                    &&& s@ == sentence_at(
                        old(self).source(),
                        old(self).pieces(),
                        group,
                        old(self).next_id(),
                    )
                    &&& final(self).next_id() == old(self).next_id() + s.tokens.len()
                    &&& tiles(s@.text, word_bounds(s@.text))
                    &&& s.borrows_its_text()
                },
                None => {
                    &&& old(self).remaining().len() == 0
                    &&& final(self).remaining().len() == 0
                    &&& final(self).position() == old(self).pieces().len()
                    &&& final(self).balance() == old(self).balance()
                    &&& final(self).next_id() == old(self).next_id()
                },
            },
    {
        let ghost doc = self.text_source@;
        let ghost views = self.views();
        let ghost tracker0 = self.tracker@;
        let ghost first_id = self.token_id_counter as nat;
        let ghost from = self.next as nat;

        let mut first = self.next;
        while first < self.pieces.len()
            invariant
                self.pieces == old(self).pieces,
                from <= first <= self.pieces.len(),
                views == piece_views(self.pieces@),
                next_start(views, first as nat) == next_start(views, from),
            ensures
                first == next_start(views, from),
            decreases self.pieces.len() - first,
        {
            let (_, part) = self.pieces[first];
            assert(views[first as int].1 == part@);
            if !is_whitespace_only(part) {
                break;
            }
            first += 1;
        }
        proof {
            lemma_next_start(views, from);
        }
        if first >= self.pieces.len() {
            self.next = first;
            proof {
                lemma_next_start(views, first as nat);
                lemma_reach_ascends(doc, views, from as int, first as int);
            }
            return None;
        }
        let (start_offset, first_part) = self.pieces[first];
        proof {
            assert(!is_blank(views[first as int].1));
            assert(views[first as int] == (start_offset, first_part@));
            lemma_pieces_lie_between_cuts(doc, views, first as int);
            lemma_chars_fit_in_bytes(first_part@);
            lemma_reach_ascends(doc, views, from as int, first as int);
            lemma_reach_is_offset(doc, views, first as int);
        }
        let mut current_end = start_offset + len_in_bytes(first_part);
        self.tracker.update(first_part);
        let ghost tracker1 = self.tracker@;
        proof {
            tracker0.lemma_feed_is_bounded(first_part@);
        }

        let mut upto = first + 1;
        while upto < self.pieces.len()
            invariant
                self.pieces == old(self).pieces,
                self.text_source == old(self).text_source,
                self.token_id_counter == old(self).token_id_counter,
                doc == self.text_source@,
                views == piece_views(self.pieces@),
                tiles(doc, views),
                byte_len(doc) <= usize::MAX,
                first < upto <= self.pieces.len(),
                start_offset == views[first as int].0,
                current_end == reach(views, upto as int),
                start_offset < current_end <= byte_len(doc),
                is_cut(doc, start_offset as int),
                is_cut(doc, current_end as int),
                self.tracker@.brackets <= current_end,
                self.tracker@.quotes <= current_end,
                grow(doc, views, first as nat, upto as nat, self.tracker@) == grow(
                    doc,
                    views,
                    first as nat,
                    (first + 1) as nat,
                    tracker1,
                ),
            ensures
                (upto as nat, self.tracker@) == grow(
                    doc,
                    views,
                    first as nat,
                    (first + 1) as nat,
                    tracker1,
                ),
            decreases self.pieces.len() - upto,
        {
            let current_text = slice(self.text_source, start_offset, current_end);
            let merging = self.tracker.is_merging();
            let looks_like_list = is_list_marker(current_text);
            let looks_like_abbr = is_abbreviation(current_text);
            if merging || looks_like_list || looks_like_abbr {
                let (peek_offset, peek_part) = self.pieces[upto];
                proof {
                    assert(views[upto as int] == (peek_offset, peek_part@));
                    lemma_pieces_lie_between_cuts(doc, views, upto as int);
                    lemma_chars_fit_in_bytes(peek_part@);
                    lemma_reach_is_offset(doc, views, upto as int);
                    self.tracker@.lemma_feed_is_bounded(peek_part@);
                }
                self.tracker.update(peek_part);
                current_end = peek_offset + len_in_bytes(peek_part);
                upto += 1;
            } else {
                break;
            }
        }

        let full_text = slice(self.text_source, start_offset, current_end);
        let tokens = tokenize_sentence(full_text, start_offset, &mut self.token_id_counter);
        self.next = upto;
        let sentence = Sentence { text: Cow::Borrowed(full_text), tokens };
        proof {
            let group = Group { first: first as nat, upto: upto as nat };
            assert(!is_blank(old(self).pieces()[first as int].1));
            let rest = groups(doc, views, upto as nat, self.tracker@);
            let all = groups(doc, views, from, tracker0);
            assert(all == seq![group] + rest);
            assert(all.first() == group);
            assert(all.drop_first() =~= rest);
            assert(sentence@ == sentence_at(doc, views, group, first_id));
        }
        Some(sentence)
    }
}

} // verus!
