//! The segmentation of a whole document.

use crate::balance::Balance;
use crate::bounds::{tiles, word_bounds};
use crate::sentences::{
    all_tokens, gap, groups, groups_in_order, groups_lie_in, in_some_group,
    lemma_all_tokens_ascend, lemma_gaps_are_blank, lemma_groups_in_order, lemma_groups_lie_in,
    lemma_sentences_hold_their_tokens, lemma_sentences_of, sentence_pieces, sentences, Group,
    SentenceIterator,
};
use crate::text::{
    byte_len, is_cut, lemma_substring_of_substring, lemma_substring_whole, substring,
};
use crate::tokenizer::{
    numbered_from, token_end, tokens_ascend, tokens_lie_in, tokens_show_their_kind,
};
use crate::types::{sentence_views, SegResult, Sentence, SentenceView, TokenView};
use crate::unicode::{is_blank, is_whitespace_only};
use vstd::prelude::*;

verus! {

/// The segmentation of the document `doc`: no sentence if the document is
/// blank, else its sentences with their tokens.
pub open spec fn segment(doc: Seq<char>) -> Seq<SentenceView> {
    if is_blank(doc) {
        Seq::empty()
    } else {
        sentences(doc)
    }
}

/// The sentences of `doc` as ranges of the pieces between its sentence
/// boundaries.
pub open spec fn sentence_groups(doc: Seq<char>) -> Seq<Group> {
    if is_blank(doc) {
        Seq::empty()
    } else {
        groups(doc, sentence_pieces(doc), 0, Balance::new())
    }
}

/// What the segmentation of `doc` takes from the boundaries that were found:
/// if the document is not blank, the pieces between its sentence boundaries
/// tile it, and the pieces between the word boundaries of each sentence tile
/// the sentence.
pub open spec fn bounds_tile(doc: Seq<char>) -> bool {
    &&& !is_blank(doc) ==> tiles(doc, sentence_pieces(doc))
    &&& forall|i: int|
        0 <= i < sentence_groups(doc).len() ==> tiles(
            (#[trigger] sentence_groups(doc)[i]).text(doc, sentence_pieces(doc)),
            word_bounds(sentence_groups(doc)[i].text(doc, sentence_pieces(doc))),
        )
}

/// Whether the token is the part of `doc` that lies at its offset, and is
/// not empty.
pub open spec fn token_is_part_of(token: TokenView, doc: Seq<char>) -> bool {
    &&& is_cut(doc, token.offset as int)
    &&& is_cut(doc, token_end(token) as int)
    &&& token.offset < token_end(token)
    &&& token.text == substring(doc, token.offset as int, token_end(token) as int)
}

/// Whether `result` lies in `doc` as a segmentation does. There is one
/// sentence for each of the groups of `doc`. The groups each hold at least
/// one piece and follow one another, so that the sentences are parts of the
/// document that do not overlap and come in the order of their offsets; a
/// piece that is in none of them is blank. The text of each sentence is that
/// of its group. Its tokens are parts of it that follow one another without
/// overlap, each is the part of the document at its offset, and each that
/// is not merged is of the kind that its text classifies as. Taken
/// together, the tokens of all the sentences follow one another. What lies
/// between the sentences, before the first and after the last is blank, and
/// no sentence is: each character that is not white space lies in one
/// sentence.
pub open spec fn lies_in_document(result: Seq<SentenceView>, doc: Seq<char>) -> bool {
    let pieces = sentence_pieces(doc);
    let groups = sentence_groups(doc);
    &&& result.len() == groups.len()
    &&& groups_in_order(pieces, groups, 0)
    &&& groups_lie_in(doc, pieces, groups)
    &&& !is_blank(doc) ==> forall|k: int|
        0 <= k < pieces.len() ==> is_blank((#[trigger] pieces[k]).1) || in_some_group(groups, k)
    &&& forall|i: int|
        0 <= i < result.len() ==> {
            &&& (#[trigger] result[i]).text == groups[i].text(doc, pieces)
            &&& tokens_lie_in(result[i].tokens, result[i].text, groups[i].start(pieces))
            &&& tokens_show_their_kind(result[i].tokens)
        }
    &&& forall|i: int, k: int|
        0 <= i < result.len() && 0 <= k < result[i].tokens.len() ==> token_is_part_of(
            #[trigger] result[i].tokens[k],
            doc,
        )
    &&& tokens_ascend(all_tokens(result))
    &&& forall|i: int| 0 <= i <= result.len() ==> is_blank(#[trigger] gap(doc, pieces, groups, i))
    &&& forall|i: int| 0 <= i < result.len() ==> !is_blank((#[trigger] result[i]).text)
}

/// The sentences of a segmentation are parts of the document that do not
/// overlap and come in the order of their offsets, and so are the tokens of
/// each sentence; nothing but blank pieces lies between the sentences.
pub proof fn lemma_segmentation_lies_in_document(doc: Seq<char>)
    requires
        bounds_tile(doc),
    ensures
        lies_in_document(segment(doc), doc),
{
    let result = segment(doc);
    let pieces = sentence_pieces(doc);
    let groups = sentence_groups(doc);
    if is_blank(doc) {
        lemma_substring_whole(doc);
        assert(gap(doc, pieces, groups, 0) == doc);
    } else {
        assert(doc.len() > 0);
        lemma_groups_in_order(doc, pieces, 0, Balance::new());
        lemma_groups_lie_in(doc, pieces, groups, 0);
        lemma_gaps_are_blank(doc, pieces, groups);
        lemma_sentences_of(doc, pieces, groups, 1);
        lemma_sentences_hold_their_tokens(doc, pieces, groups, 1);
        lemma_all_tokens_ascend(doc, pieces, groups, result);
        assert forall|i: int, k: int|
            0 <= i < result.len() && 0 <= k < result[i].tokens.len() implies token_is_part_of(
            #[trigger] result[i].tokens[k],
            doc,
        ) by {
            let token = result[i].tokens[k];
            let start = groups[i].start(pieces);
            let end = groups[i].end(pieces);
            assert(result[i].text == substring(doc, start as int, end as int));
            lemma_substring_of_substring(
                doc,
                start as int,
                end as int,
                token.offset - start,
                token_end(token) - start,
            );
        }
    }
}

/// The ids of the tokens of a segmentation are 1, 2, 3 and so on, without
/// gap or repeat, in the order of the sentences and, within a sentence, of
/// its tokens.
pub proof fn lemma_token_ids_count_up(doc: Seq<char>)
    ensures
        numbered_from(all_tokens(segment(doc)), 1),
{
    if !is_blank(doc) {
        lemma_sentences_of(doc, sentence_pieces(doc), sentence_groups(doc), 1);
    }
}

/// A blank document, and so the empty one, has no sentences.
pub proof fn lemma_blank_document_has_no_sentences(doc: Seq<char>)
    requires
        is_blank(doc),
    ensures
        segment(doc).len() == 0,
{
}

/// Two segmentations of the same document are the same, sentence by sentence
/// and token by token.
pub proof fn lemma_same_document_same_result(first: SegResult<'_>, second: SegResult<'_>, doc: Seq<char>)
    requires
        first@ == segment(doc),
        second@ == segment(doc),
    ensures
        first@ == second@,
{
}

/// Segments `text` into sentences and tokens. The result borrows its text
/// from `text`. The tokens are numbered from 1 on; so that the counter can
/// pass the last of them, the text must be shorter than `usize::MAX` bytes.
pub fn process_text<'a>(text: &'a str) -> (result: SegResult<'a>)
    requires
        byte_len(text@) < usize::MAX,
    ensures
        result@ == segment(text@),
        is_blank(text@) ==> result@.len() == 0,
        numbered_from(all_tokens(result@), 1),
        bounds_tile(text@),
        lies_in_document(result@, text@),
        forall|i: int|
            0 <= i < result.sentences.len() ==> (#[trigger] result.sentences[i]).borrows_its_text(),
{
    if is_whitespace_only(text) {
        let result = SegResult::default();
        proof {
            lemma_token_ids_count_up(text@);
            lemma_segmentation_lies_in_document(text@);
        }
        return result;
    }
    let mut found: Vec<Sentence<'a>> = Vec::new();
    let mut iterator = SentenceIterator::new(text);
    loop
        invariant
            iterator.wf(),
            sentence_views(found@) + iterator.remaining() == sentences(text@),
            forall|i: int|
                0 <= i < found.len() ==> tiles(
                    (#[trigger] sentence_views(found@)[i]).text,
                    word_bounds(sentence_views(found@)[i].text),
                ),
            forall|i: int| 0 <= i < found.len() ==> (#[trigger] found[i]).borrows_its_text(),
        ensures
            sentence_views(found@) == sentences(text@),
        decreases iterator.remaining().len(),
    {
        let ghost before = sentence_views(found@);
        let ghost ahead = iterator.remaining();
        match iterator.next() {
            Some(sentence) => {
                found.push(sentence);
                assert(sentence_views(found@) =~= before.push(sentence@));
                assert(before.push(sentence@) + iterator.remaining() =~= before + ahead);
            },
            None => {
                assert(before + ahead =~= before);
                break;
            },
        }
    }
    let result = SegResult { sentences: found };
    proof {
        let groups = sentence_groups(text@);
        lemma_sentences_of(text@, sentence_pieces(text@), groups, 1);
        assert forall|i: int| 0 <= i < groups.len() implies tiles(
            (#[trigger] groups[i]).text(text@, sentence_pieces(text@)),
            word_bounds(groups[i].text(text@, sentence_pieces(text@))),
        ) by {
            assert(result@[i].text == groups[i].text(text@, sentence_pieces(text@)));
        }
        lemma_token_ids_count_up(text@);
        lemma_segmentation_lies_in_document(text@);
    }
    result
}

} // verus!
