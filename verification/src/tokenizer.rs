//! The tokens of one sentence.
//!
//! The word boundaries split a sentence into pieces. The tokenizer walks the
//! pieces in their order and gathers them into runs: a run inside brackets
//! becomes one merged token, adjacent pieces that are words become one word,
//! white space ends a run and is dropped, and every other piece is a token of
//! its own.

use crate::balance::{Balance, BalanceTracker};
use crate::bounds::{
    lemma_offsets_ascend, lemma_piece_is_part, lemma_pieces_lie_between_cuts,
    lemma_reach_is_offset, piece_end,
    piece_views, reach, split_word_bound_indices, tiles, word_bounds, Piece,
};
use crate::classify::{classify, classify_token, is_ascii_digits};
use crate::text::{
    byte_len, has_room_for, is_cut, lemma_chars_fit_in_bytes, lemma_substring_bytes,
    lemma_substring_empty, lemma_substring_joined, len_in_bytes, slice, substring,
};
use crate::types::{token_views, Token, TokenKind, TokenView};
use crate::unicode::{is_blank, is_whitespace_only};
use std::borrow::Cow;
use vstd::prelude::*;

verus! {

/// A stretch of a sentence that becomes one token: the byte offsets, within
/// the sentence, between which it lies, and its kind.
#[derive(Clone, Copy, Debug, PartialEq, Eq)]
pub struct Run {
    pub start: usize,
    pub end: usize,
    pub kind: TokenKind,
}

/// A run as contracts see it.
pub struct RunView {
    pub start: nat,
    pub end: nat,
    pub kind: TokenKind,
}

impl View for Run {
    type V = RunView;

    open spec fn view(&self) -> RunView {
        RunView { start: self.start as nat, end: self.end as nat, kind: self.kind }
    }
}

/// A run that may be there, as contracts see it.
pub open spec fn run_view(run: Option<Run>) -> Option<RunView> {
    match run {
        Some(r) => Some(r@),
        None => None,
    }
}

impl RunView {
    /// Whether the run is a part of `text` that is not empty.
    pub open spec fn lies_in(self, text: Seq<char>) -> bool {
        &&& is_cut(text, self.start as int)
        &&& is_cut(text, self.end as int)
        &&& self.start < self.end
    }
}

/// Whether each run ends before the next begins.
pub open spec fn in_order(runs: Seq<RunView>) -> bool {
    forall|i: int, j: int|
        0 <= i < j < runs.len() ==> (#[trigger] runs[i]).end <= (#[trigger] runs[j]).start
}

/// What one piece does to the tokenizer: the runs that it completes, of which
/// there are at most two, and the run that is pending after it.
#[derive(Clone, Copy, Debug, PartialEq, Eq)]
pub struct Step {
    /// The run that was pending, where the piece completes it.
    pub first: Option<Run>,
    /// The merged run that the piece closes.
    pub second: Option<Run>,
    /// The run that the next piece may still extend.
    pub pending: Option<Run>,
}

/// A step as contracts see it.
pub struct StepView {
    pub first: Option<RunView>,
    pub second: Option<RunView>,
    pub pending: Option<RunView>,
}

impl View for Step {
    type V = StepView;

    open spec fn view(&self) -> StepView {
        StepView {
            first: run_view(self.first),
            second: run_view(self.second),
            pending: run_view(self.pending),
        }
    }
}

impl StepView {
    /// The runs that the step completes, in their order.
    pub open spec fn completed(self) -> Seq<RunView> {
        let first = match self.first {
            Some(run) => seq![run],
            None => Seq::empty(),
        };
        match self.second {
            Some(run) => first.push(run),
            None => first,
        }
    }
}

/// The step that completes the pending run, if there is one. White space
/// outside brackets does so, and the end of the sentence.
pub open spec fn flush(pending: Option<RunView>) -> StepView {
    StepView { first: pending, second: None, pending: None }
}

/// The step of a piece from `start` to `end` that lies inside brackets, or
/// opens or closes them. It extends a pending merged run, or begins one after
/// completing what else was pending. Where the brackets are closed after the
/// piece, the merged run is complete.
pub open spec fn merge(pending: Option<RunView>, start: nat, end: nat, still_open: bool) -> StepView {
    let extends = pending is Some && pending->0.kind == TokenKind::Merged;
    let merged = RunView {
        start: if extends {
            pending->0.start
        } else {
            start
        },
        end,
        kind: TokenKind::Merged,
    };
    StepView {
        first: if extends {
            None
        } else {
            pending
        },
        second: if still_open {
            None
        } else {
            Some(merged)
        },
        pending: if still_open {
            Some(merged)
        } else {
            None
        },
    }
}

/// The step of a piece of the given kind from `start` to `end` that is
/// outside brackets and is not white space. A word extends a pending word;
/// every other piece completes what is pending and begins a run.
pub open spec fn word(pending: Option<RunView>, start: nat, end: nat, kind: TokenKind) -> StepView {
    let extends = pending is Some && pending->0.kind == TokenKind::Word && kind == TokenKind::Word;
    StepView {
        first: if extends {
            None
        } else {
            pending
        },
        second: None,
        pending: Some(
            RunView {
                start: if extends {
                    pending->0.start
                } else {
                    start
                },
                end,
                kind,
            },
        ),
    }
}

/// The state of the tokenizer between two pieces.
pub struct Scan {
    /// The bracket depth of the sentence so far. White space is not counted.
    pub tracker: Balance,
    /// The run that the next piece may still extend.
    pub pending: Option<RunView>,
    /// The runs that are complete, in their order.
    pub done: Seq<RunView>,
}

impl Scan {
    /// The state before the first piece.
    pub open spec fn new() -> Scan {
        Scan { tracker: Balance::new(), pending: None, done: Seq::empty() }
    }

    /// The state after a step.
    pub open spec fn take(self, step: StepView) -> Scan {
        Scan { pending: step.pending, done: self.done + step.completed(), ..self }
    }

    /// The state after `piece`. A piece of white space leaves the bracket
    /// depth as it is. A piece is inside brackets if the depth is above zero
    /// before it or after it. Outside brackets, white space completes what
    /// is pending.
    pub open spec fn step(self, piece: Piece) -> Scan {
        let blank = is_blank(piece.1);
        let tracker = if blank {
            self.tracker
        } else {
            self.tracker.feed(piece.1)
        };
        let start = piece.0 as nat;
        let end = piece_end(piece) as nat;
        let taken = if self.tracker.is_merging() || tracker.is_merging() {
            merge(self.pending, start, end, tracker.is_merging())
        } else if blank {
            flush(self.pending)
        } else {
            word(self.pending, start, end, classify(piece.1))
        };
        Scan { tracker, ..self }.take(taken)
    }

    /// The state after the given pieces, in their order.
    pub open spec fn over(pieces: Seq<Piece>) -> Scan
        decreases pieces.len(),
    {
        if pieces.len() == 0 {
            Scan::new()
        } else {
            Scan::over(pieces.drop_last()).step(pieces.last())
        }
    }

    /// What holds of the state when the pieces of `text` up to the byte
    /// offset `at` are taken in: the runs are parts of the text that follow
    /// one another, a pending run ends at `at`, and neither the number of
    /// runs nor the bracket depth is above `at`.
    pub open spec fn fits(self, text: Seq<char>, at: nat) -> bool {
        &&& in_order(self.done)
        &&& forall|k: int|
            0 <= k < self.done.len() ==> (#[trigger] self.done[k]).lies_in(text) && self.done[k].end
                <= at
        &&& match self.pending {
            Some(run) => {
                &&& run.lies_in(text)
                &&& run.end == at
                &&& self.done.len() + 1 <= at
                &&& forall|k: int|
                    0 <= k < self.done.len() ==> (#[trigger] self.done[k]).end <= run.start
            },
            None => self.done.len() <= at,
        }
        &&& self.tracker.brackets <= at
        &&& self.tracker.quotes <= at
    }

    /// Taking in the next piece of a tiling keeps the state fitting.
    pub proof fn lemma_step_fits(self, text: Seq<char>, pieces: Seq<Piece>, i: int)
        requires
            tiles(text, pieces),
            0 <= i < pieces.len(),
            self.fits(text, pieces[i].0 as nat),
        ensures
            self.step(pieces[i]).fits(text, piece_end(pieces[i]) as nat),
    {
        let piece = pieces[i];
        lemma_pieces_lie_between_cuts(text, pieces, i);
        lemma_chars_fit_in_bytes(piece.1);
        self.tracker.lemma_feed_is_bounded(piece.1);
    }

    /// The state after the first `n` pieces of a tiling fits the text up to
    /// where those pieces end.
    pub proof fn lemma_over_fits(text: Seq<char>, pieces: Seq<Piece>, n: int)
        requires
            tiles(text, pieces),
            0 <= n <= pieces.len(),
        ensures
            Scan::over(pieces.take(n)).fits(text, reach(pieces, n)),
        decreases n,
    {
        if n > 0 {
            Scan::lemma_over_fits(text, pieces, n - 1);
            assert(pieces.take(n).drop_last() =~= pieces.take(n - 1));
            assert(pieces.take(n).last() == pieces[n - 1]);
            lemma_reach_is_offset(text, pieces, n - 1);
            Scan::over(pieces.take(n - 1)).lemma_step_fits(text, pieces, n - 1);
        }
    }
}

/// Whether the run holds text of its kind. The piece with which it begins
/// is not blank. Unless the run is merged, none of its pieces is blank and
/// each is of the kind of the run; and unless it is a word, it is a single
/// piece.
pub open spec fn holds_text(run: RunView, pieces: Seq<Piece>) -> bool {
    &&& exists|k: int|
        0 <= k < pieces.len() && (#[trigger] pieces[k]).0 == run.start && piece_end(pieces[k])
            <= run.end && !is_blank(pieces[k].1)
    &&& run.kind != TokenKind::Merged ==> forall|k: int|
        0 <= k < pieces.len() && run.start <= (#[trigger] pieces[k]).0 < run.end ==> !is_blank(
            pieces[k].1,
        ) && classify(pieces[k].1) == run.kind
    &&& run.kind != TokenKind::Merged && run.kind != TokenKind::Word ==> forall|k: int|
        0 <= k < pieces.len() && (#[trigger] pieces[k]).0 == run.start ==> piece_end(pieces[k])
            == run.end
}

impl Scan {
    /// What holds of the state after the first `n` of the pieces besides
    /// `fits`: a merged run is pending exactly if the sentence so far ends
    /// inside brackets, and every run holds text.
    pub open spec fn is_solid(self, pieces: Seq<Piece>, n: int) -> bool {
        &&& self.tracker.is_merging() <==> self.pending is Some && self.pending->0.kind
            == TokenKind::Merged
        &&& forall|k: int| 0 <= k < self.done.len() ==> holds_text(#[trigger] self.done[k], pieces)
        &&& self.pending is Some ==> holds_text(
            RunView { end: reach(pieces, n), ..self.pending->0 },
            pieces,
        )
    }

    /// Taking in the next piece of a tiling keeps the state solid.
    pub proof fn lemma_step_is_solid(self, text: Seq<char>, pieces: Seq<Piece>, i: int)
        requires
            tiles(text, pieces),
            0 <= i < pieces.len(),
            self.fits(text, pieces[i].0 as nat),
            self.is_solid(pieces, i),
        ensures
            self.step(pieces[i]).is_solid(pieces, i + 1),
    {
        let piece = pieces[i];
        let next = self.step(piece);
        let at = piece.0 as nat;
        let end = piece_end(piece) as nat;
        lemma_reach_is_offset(text, pieces, i);
        lemma_pieces_lie_between_cuts(text, pieces, i);
        assert(reach(pieces, i + 1) == end);
        assert forall|k: int| 0 <= k < pieces.len() implies (k < i ==> (#[trigger] pieces[k]).0 < at)
            && (k > i ==> end <= pieces[k].0) by {
            if k < i {
                lemma_offsets_ascend(text, pieces, k, i);
            }
            if k > i {
                lemma_offsets_ascend(text, pieces, i, k);
            }
        }
        if self.pending is Some {
            let run = self.pending->0;
            assert(holds_text(RunView { end: at, ..run }, pieces));
            assert(run.end == at);
            assert(holds_text(run, pieces));
            let k = choose|k: int|
                0 <= k < pieces.len() && (#[trigger] pieces[k]).0 == run.start && !is_blank(
                    pieces[k].1,
                );
            if next.pending is Some && next.pending->0.start == run.start {
                let grown = RunView { end, ..next.pending->0 };
                assert(pieces[k].0 == grown.start && !is_blank(pieces[k].1));
                assert(holds_text(grown, pieces));
            }
            assert forall|j: int| 0 <= j < next.done.len() implies holds_text(
                #[trigger] next.done[j],
                pieces,
            ) by {
                if j >= self.done.len() && next.done[j].start == run.start {
                    assert(pieces[k].0 == next.done[j].start && !is_blank(pieces[k].1));
                }
            }
        }
        if next.pending is Some && next.pending->0.start == at {
            assert(pieces[i].0 == at);
        }
        assert forall|j: int| 0 <= j < next.done.len() implies holds_text(
            #[trigger] next.done[j],
            pieces,
        ) by {
            if j >= self.done.len() && next.done[j].start == at {
                assert(pieces[i].0 == at);
            }
        }
    }

    /// The state after the first `n` pieces of a tiling is solid.
    pub proof fn lemma_over_is_solid(text: Seq<char>, pieces: Seq<Piece>, n: int)
        requires
            tiles(text, pieces),
            0 <= n <= pieces.len(),
        ensures
            Scan::over(pieces.take(n)).is_solid(pieces, n),
        decreases n,
    {
        if n > 0 {
            Scan::lemma_over_is_solid(text, pieces, n - 1);
            Scan::lemma_over_fits(text, pieces, n - 1);
            assert(pieces.take(n).drop_last() =~= pieces.take(n - 1));
            assert(pieces.take(n).last() == pieces[n - 1]);
            lemma_reach_is_offset(text, pieces, n - 1);
            Scan::over(pieces.take(n - 1)).lemma_step_is_solid(text, pieces, n - 1);
        }
    }
}

/// The runs that the given pieces make.
pub open spec fn runs(pieces: Seq<Piece>) -> Seq<RunView> {
    let last = Scan::over(pieces);
    last.take(flush(last.pending)).done
}

/// The token that a run of `text` becomes, where the text begins at the byte
/// offset `base` of the document.
pub open spec fn token_of(text: Seq<char>, base: nat, id: nat, run: RunView) -> TokenView {
    TokenView {
        id,
        offset: base + run.start,
        text: substring(text, run.start as int, run.end as int),
        kind: run.kind,
    }
}

/// The tokens that the runs of `text` become: the first has the id
/// `first_id`, and each of the others the id after that of the one before.
pub open spec fn tokens_of(text: Seq<char>, base: nat, first_id: nat, runs: Seq<RunView>) -> Seq<
    TokenView,
> {
    Seq::new(runs.len(), |i: int| token_of(text, base, (first_id + i) as nat, runs[i]))
}

/// The tokens of the sentence `text`, which begins at the byte offset `base`
/// of its document, numbered from `first_id` on.
pub open spec fn tokenize(text: Seq<char>, base: nat, first_id: nat) -> Seq<TokenView> {
    tokens_of(text, base, first_id, runs(word_bounds(text)))
}

/// The byte offset at which a token ends in its document.
pub open spec fn token_end(token: TokenView) -> nat {
    token.offset + byte_len(token.text)
}

/// Whether the tokens are numbered one after the other, the first with
/// `first_id`.
pub open spec fn numbered_from(tokens: Seq<TokenView>, first_id: nat) -> bool {
    forall|k: int| 0 <= k < tokens.len() ==> (#[trigger] tokens[k]).id == first_id + k
}

/// Whether the token is a part of `text` that is not empty, and its offset
/// is where that part lies in the document, in which `text` begins at the
/// byte offset `base`.
pub open spec fn token_lies_in(token: TokenView, text: Seq<char>, base: nat) -> bool {
    &&& base <= token.offset < token_end(token) <= base + byte_len(text)
    &&& is_cut(text, token.offset - base)
    &&& is_cut(text, token_end(token) - base)
    &&& token.text == substring(text, token.offset - base, token_end(token) - base)
}

/// Whether each token ends before the next begins.
pub open spec fn tokens_ascend(tokens: Seq<TokenView>) -> bool {
    forall|k: int, l: int|
        0 <= k < l < tokens.len() ==> token_end(#[trigger] tokens[k]) <= (#[trigger] tokens[l]).offset
}

/// Whether the tokens are parts of `text` that follow one another without
/// overlap, each at its offset.
pub open spec fn tokens_lie_in(tokens: Seq<TokenView>, text: Seq<char>, base: nat) -> bool {
    &&& forall|k: int| 0 <= k < tokens.len() ==> token_lies_in(#[trigger] tokens[k], text, base)
    &&& tokens_ascend(tokens)
}

/// The runs that a tiling of a text makes are parts of the text that follow
/// one another without overlap, and there are no more of them than the text
/// has bytes.
pub proof fn lemma_runs_lie_in_order(text: Seq<char>, pieces: Seq<Piece>)
    requires
        tiles(text, pieces),
    ensures
        in_order(runs(pieces)),
        forall|k: int| 0 <= k < runs(pieces).len() ==> (#[trigger] runs(pieces)[k]).lies_in(text),
        forall|k: int| 0 <= k < runs(pieces).len() ==> (#[trigger] runs(pieces)[k]).end <= byte_len(text),
        runs(pieces).len() <= byte_len(text),
{
    Scan::lemma_over_fits(text, pieces, pieces.len() as int);
    assert(pieces.take(pieces.len() as int) =~= pieces);
    if pieces.len() > 0 {
        lemma_pieces_lie_between_cuts(text, pieces, pieces.len() - 1);
    }
}

/// Every run that a tiling of a text makes holds text: white space outside
/// brackets is part of no run, and no run begins with white space.
pub proof fn lemma_runs_hold_text(text: Seq<char>, pieces: Seq<Piece>)
    requires
        tiles(text, pieces),
    ensures
        forall|k: int| 0 <= k < runs(pieces).len() ==> holds_text(#[trigger] runs(pieces)[k], pieces),
{
    let last = Scan::over(pieces);
    Scan::lemma_over_is_solid(text, pieces, pieces.len() as int);
    Scan::lemma_over_fits(text, pieces, pieces.len() as int);
    assert(pieces.take(pieces.len() as int) =~= pieces);
    assert forall|k: int| 0 <= k < runs(pieces).len() implies holds_text(
        #[trigger] runs(pieces)[k],
        pieces,
    ) by {
        if k < last.done.len() {
            assert(runs(pieces)[k] == last.done[k]);
        } else {
            assert(runs(pieces)[k] == last.pending->0);
        }
    }
}

/// The tokens that a tiling of a text makes are parts of the text that
/// follow one another without overlap, each at its offset, and they are
/// numbered one after the other.
pub proof fn lemma_tokens_lie_in(text: Seq<char>, pieces: Seq<Piece>, base: nat, first_id: nat)
    requires
        tiles(text, pieces),
    ensures
        tokens_lie_in(tokens_of(text, base, first_id, runs(pieces)), text, base),
        numbered_from(tokens_of(text, base, first_id, runs(pieces)), first_id),
        tokens_of(text, base, first_id, runs(pieces)).len() <= byte_len(text),
{
    let runs = runs(pieces);
    let tokens = tokens_of(text, base, first_id, runs);
    lemma_runs_lie_in_order(text, pieces);
    assert forall|k: int| 0 <= k < tokens.len() implies token_lies_in(
        #[trigger] tokens[k],
        text,
        base,
    ) && token_end(tokens[k]) == base + runs[k].end by {
        assert(runs[k].lies_in(text));
        lemma_substring_bytes(text, runs[k].start as int, runs[k].end as int);
    }
    assert forall|k: int, l: int| 0 <= k < l < tokens.len() implies token_end(
        #[trigger] tokens[k],
    ) <= (#[trigger] tokens[l]).offset by {
        assert(runs[k].end <= runs[l].start);
    }
}

/// Whether each token that is not merged is of the kind that its own text
/// classifies as. So a number is made of ASCII digits alone, a word begins
/// with an alphabetic character, and punctuation with a character of
/// punctuation.
pub open spec fn tokens_show_their_kind(tokens: Seq<TokenView>) -> bool {
    forall|k: int|
        0 <= k < tokens.len() && (#[trigger] tokens[k]).kind != TokenKind::Merged ==> classify(
            tokens[k].text,
        ) == tokens[k].kind
}

/// Each token that a tiling of a text makes and that is not merged is of the
/// kind that its own text classifies as.
pub proof fn lemma_tokens_show_their_kind(
    text: Seq<char>,
    pieces: Seq<Piece>,
    base: nat,
    first_id: nat,
)
    requires
        tiles(text, pieces),
    ensures
        tokens_show_their_kind(tokens_of(text, base, first_id, runs(pieces))),
{
    let runs = runs(pieces);
    let tokens = tokens_of(text, base, first_id, runs);
    lemma_runs_lie_in_order(text, pieces);
    lemma_runs_hold_text(text, pieces);
    assert forall|k: int|
        0 <= k < runs.len() && (#[trigger] tokens[k]).kind != TokenKind::Merged implies classify(
        tokens[k].text,
    ) == tokens[k].kind by {
        let run = runs[k];
        assert(run.lies_in(text));
        assert(holds_text(run, pieces));
        let j = choose|j: int|
            0 <= j < pieces.len() && (#[trigger] pieces[j]).0 == run.start && piece_end(pieces[j])
                <= run.end && !is_blank(pieces[j].1);
        let piece = pieces[j];
        let mid = piece_end(piece);
        lemma_pieces_lie_between_cuts(text, pieces, j);
        lemma_substring_joined(text, run.start as int, mid, run.end as int);
        lemma_piece_is_part(text, pieces, j);
        let rest = substring(text, mid, run.end as int);
        assert(tokens[k].text == piece.1 + rest);
        assert(classify(piece.1) == run.kind);
        if run.kind == TokenKind::Word {
            assert((piece.1 + rest).first() == piece.1.first());
            if is_ascii_digits(piece.1 + rest) {
                assert forall|i: int| 0 <= i < piece.1.len() implies '0' <= #[trigger] piece.1[i]
                    <= '9' by {
                    assert(piece.1[i] == (piece.1 + rest)[i]);
                }
            }
        } else {
            assert(mid == run.end);
            lemma_substring_empty(text, mid);
            assert(piece.1 + rest =~= piece.1);
        }
    }
}

/// Where the word boundaries tile a sentence, its tokens are parts of it
/// that follow one another without overlap, each at its offset, and they are
/// numbered one after the other.
pub proof fn lemma_tokenize(text: Seq<char>, base: nat, first_id: nat)
    requires
        tiles(text, word_bounds(text)),
    ensures
        tokens_lie_in(tokenize(text, base, first_id), text, base),
        numbered_from(tokenize(text, base, first_id), first_id),
        tokens_show_their_kind(tokenize(text, base, first_id)),
        tokenize(text, base, first_id).len() <= byte_len(text),
{
    lemma_tokens_lie_in(text, word_bounds(text), base, first_id);
    lemma_tokens_show_their_kind(text, word_bounds(text), base, first_id);
}

/// Completes the pending run, if there is one.
pub fn flush_run(pending: Option<Run>) -> (step: Step)
    ensures
        step@ == flush(run_view(pending)),
{
    Step { first: pending, second: None, pending: None }
}

/// Takes in a piece from `start` to `end` that lies inside brackets, or
/// opens or closes them; `still_open` tells whether the brackets are open
/// after it.
pub fn merge_piece(pending: Option<Run>, start: usize, end: usize, still_open: bool) -> (step: Step)
    ensures
        step@ == merge(run_view(pending), start as nat, end as nat, still_open),
{
    let (first, begun) = match pending {
        Some(run) => match run.kind {
            TokenKind::Merged => (None, run.start),
            _ => (Some(run), start),
        },
        None => (None, start),
    };
    let merged = Run { start: begun, end, kind: TokenKind::Merged };
    if still_open {
        Step { first, second: None, pending: Some(merged) }
    } else {
        Step { first, second: Some(merged), pending: None }
    }
}

/// Takes in a piece of the given kind from `start` to `end` that is outside
/// brackets and is not white space.
pub fn word_piece(pending: Option<Run>, start: usize, end: usize, kind: TokenKind) -> (step: Step)
    ensures
        step@ == word(run_view(pending), start as nat, end as nat, kind),
{
    match pending {
        Some(run) => {
            if run.kind == TokenKind::Word && kind == TokenKind::Word {
                Step { first: None, second: None, pending: Some(Run { start: run.start, end, kind }) }
            } else {
                Step { first: Some(run), second: None, pending: Some(Run { start, end, kind }) }
            }
        },
        None => Step { first: None, second: None, pending: Some(Run { start, end, kind }) },
    }
}

/// Completes a run, if one is given: gives it the id that the counter
/// holds, adds its token to `tokens`, and raises the counter by one.
fn emit<'a>(
    tokens: &mut Vec<Token<'a>>,
    text: &'a str,
    base_offset: usize,
    id_counter: &mut usize,
    completed: Option<Run>,
)
    requires
        completed is Some ==> {
            &&& completed->0@.lies_in(text@)
            &&& base_offset + completed->0.start <= usize::MAX
            &&& *old(id_counter) < usize::MAX
        },
    ensures
        match completed {
            Some(run) => {
                &&& *final(id_counter) == *old(id_counter) + 1
                &&& token_views(final(tokens)@) == token_views(old(tokens)@).push(
                    token_of(text@, base_offset as nat, *old(id_counter) as nat, run@),
                )
                &&& final(tokens).len() == old(tokens).len() + 1
                &&& final(tokens)@.last().text is Borrowed
                &&& forall|k: int|
                    0 <= k < old(tokens).len() ==> (#[trigger] final(tokens)[k]) == old(tokens)[k]
            },
            None => *final(id_counter) == *old(id_counter) && *final(tokens) == *old(tokens),
        },
{
    if let Some(run) = completed {
        let token = Token {
            id: *id_counter,
            offset: base_offset + run.start,
            text: Cow::Borrowed(slice(text, run.start, run.end)),
            kind: run.kind,
        };
        tokens.push(token);
        *id_counter += 1;
        assert(token_views(tokens@) =~= token_views(old(tokens)@).push(token@));
    }
}

/// The tokens of the sentence `text`, whose pieces between word boundaries
/// are given. The sentence begins at the byte offset `base_offset` of its
/// document. `id_counter` holds the id of the next token: each token takes
/// the id that the counter holds and raises the counter by one. Neither an
/// offset nor the counter may pass `usize::MAX`.
pub fn tokenize_pieces<'a>(
    text: &'a str,
    pieces: &Vec<(usize, &'a str)>,
    base_offset: usize,
    id_counter: &mut usize,
) -> (tokens: Vec<Token<'a>>)
    requires
        tiles(text@, piece_views(pieces@)),
        has_room_for(base_offset as nat, byte_len(text@)),
        has_room_for(*old(id_counter) as nat, byte_len(text@)),
    ensures
        token_views(tokens@) == tokens_of(
            text@,
            base_offset as nat,
            *old(id_counter) as nat,
            runs(piece_views(pieces@)),
        ),
        *final(id_counter) == *old(id_counter) + tokens.len(),
        tokens.len() <= byte_len(text@),
        tokens_lie_in(token_views(tokens@), text@, base_offset as nat),
        numbered_from(token_views(tokens@), *old(id_counter) as nat),
        tokens_show_their_kind(token_views(tokens@)),
        forall|k: int| 0 <= k < tokens.len() ==> (#[trigger] tokens[k]).text is Borrowed,
{
    let size = len_in_bytes(text);
    let mut tokens: Vec<Token<'a>> = Vec::with_capacity(size / 5);
    let mut tracker = BalanceTracker::new();
    let mut pending: Option<Run> = None;
    let ghost views = piece_views(pieces@);
    let ghost first_id = *id_counter as nat;
    let ghost base = base_offset as nat;
    let ghost mut scan = Scan::new();
    proof {
        assert(views.take(0) =~= Seq::<Piece>::empty());
        assert(token_views(tokens@) =~= tokens_of(text@, base, first_id, scan.done));
    }

    let mut i: usize = 0;
    while i < pieces.len()
        invariant
            0 <= i <= pieces.len(),
            views == piece_views(pieces@),
            tiles(text@, views),
            size == byte_len(text@),
            base == base_offset,
            base + size <= usize::MAX,
            first_id + size <= usize::MAX,
            scan == Scan::over(views.take(i as int)),
            scan.fits(text@, reach(views, i as int)),
            reach(views, i as int) <= size,
            tracker@ == scan.tracker,
            run_view(pending) == scan.pending,
            token_views(tokens@) == tokens_of(text@, base, first_id, scan.done),
            *id_counter == first_id + scan.done.len(),
            forall|k: int| 0 <= k < tokens.len() ==> (#[trigger] tokens[k]).text is Borrowed,
        decreases pieces.len() - i,
    {
        let (local_offset, word) = pieces[i];
        let ghost piece = views[i as int];
        let ghost before = scan;
        proof {
            assert(piece == (local_offset, word@));
            lemma_pieces_lie_between_cuts(text@, views, i as int);
            lemma_chars_fit_in_bytes(word@);
            lemma_reach_is_offset(text@, views, i as int);
            scan.lemma_step_fits(text@, views, i as int);
            assert(views.take(i + 1).drop_last() =~= views.take(i as int));
            assert(views.take(i + 1).last() == piece);
            scan = scan.step(piece);
        }
        let word_end = local_offset + len_in_bytes(word);
        let is_whitespace = is_whitespace_only(word);

        let start_merging = tracker.is_merging();
        if !is_whitespace {
            tracker.update(word);
        }
        let end_merging = tracker.is_merging();
        let currently_merging = start_merging || end_merging;

        let step = if currently_merging {
            merge_piece(pending, local_offset, word_end, end_merging)
        } else if is_whitespace {
            flush_run(pending)
        } else {
            word_piece(pending, local_offset, word_end, classify_token(word))
        };
        proof {
            assert(scan.done == before.done + step@.completed());
            let old_len = before.done.len() as int;
            if step.first is Some {
                assert(scan.done[old_len] == step.first->0@);
                if step.second is Some {
                    assert(scan.done[old_len + 1] == step.second->0@);
                }
            } else if step.second is Some {
                assert(scan.done[old_len] == step.second->0@);
            }
        }
        emit(&mut tokens, text, base_offset, id_counter, step.first);
        emit(&mut tokens, text, base_offset, id_counter, step.second);
        pending = step.pending;
        proof {
            assert(token_views(tokens@) =~= tokens_of(text@, base, first_id, scan.done));
        }
        i += 1;
    }

    let ghost last = scan;
    proof {
        assert(views.take(pieces.len() as int) =~= views);
        lemma_tokens_lie_in(text@, views, base, first_id);
        lemma_tokens_show_their_kind(text@, views, base, first_id);
        assert(runs(views) == last.done + flush(last.pending).completed());
        if pending is Some {
            assert(runs(views)[last.done.len() as int] == pending->0@);
        }
    }
    emit(&mut tokens, text, base_offset, id_counter, flush_run(pending).first);
    proof {
        assert(token_views(tokens@) =~= tokens_of(text@, base, first_id, runs(views)));
    }
    tokens
}

/// The tokens of the sentence `text`, which begins at the byte offset
/// `base_offset` of its document. `id_counter` holds the id of the next
/// token: each token takes the id that the counter holds and raises the
/// counter by one. Neither an offset nor the counter may pass `usize::MAX`.
pub fn tokenize_sentence<'a>(text: &'a str, base_offset: usize, id_counter: &mut usize) -> (tokens:
    Vec<Token<'a>>)
    requires
        has_room_for(base_offset as nat, byte_len(text@)),
        has_room_for(*old(id_counter) as nat, byte_len(text@)),
    ensures
        token_views(tokens@) == tokenize(text@, base_offset as nat, *old(id_counter) as nat),
        *final(id_counter) == *old(id_counter) + tokens.len(),
        tokens.len() <= byte_len(text@),
        tiles(text@, word_bounds(text@)),
        tokens_lie_in(token_views(tokens@), text@, base_offset as nat),
        numbered_from(token_views(tokens@), *old(id_counter) as nat),
        tokens_show_their_kind(token_views(tokens@)),
        forall|k: int| 0 <= k < tokens.len() ==> (#[trigger] tokens[k]).text is Borrowed,
{
    let pieces = split_word_bound_indices(text);
    tokenize_pieces(text, &pieces, base_offset, id_counter)
}

} // verus!
