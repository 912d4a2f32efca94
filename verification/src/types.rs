//! The result of a segmentation: a document is a list of sentences, a
//! sentence is a list of tokens.

use std::borrow::Cow;
use vstd::prelude::*;

verus! {

/// What a token is.
#[derive(Clone, Copy, Debug, PartialEq, Eq, Structural)]
pub enum TokenKind {
    Word,
    Number,
    Punctuation,
    Merged,
    Other,
}

/// A token as contracts see it.
pub struct TokenView {
    pub id: nat,
    pub offset: nat,
    pub text: Seq<char>,
    pub kind: TokenKind,
}

/// A sentence as contracts see it.
pub struct SentenceView {
    pub text: Seq<char>,
    pub tokens: Seq<TokenView>,
}

/// One token of a sentence.
#[derive(Debug, PartialEq)]
pub struct Token<'a> {
    /// Position of the token among all tokens of the document, from 1.
    pub id: usize,
    /// Byte offset of the token in the document.
    pub offset: usize,
    /// The part of the document that the token covers.
    pub text: Cow<'a, str>,
    pub kind: TokenKind,
}

impl<'a> View for Token<'a> {
    type V = TokenView;

    open spec fn view(&self) -> TokenView {
        TokenView { id: self.id as nat, offset: self.offset as nat, text: self.text@, kind: self.kind }
    }
}

/// The views of a list of tokens, in order.
pub open spec fn token_views(tokens: Seq<Token<'_>>) -> Seq<TokenView> {
    Seq::new(tokens.len(), |i: int| tokens[i]@)
}

impl<'a> Clone for Token<'a> {
    /// A copy of the token. It borrows its text where the token does.
    fn clone(&self) -> (copy: Self)
        ensures
            copy == *self,
    {
        let text = match &self.text {
            Cow::Borrowed(s) => Cow::Borrowed(*s),
            Cow::Owned(s) => Cow::Owned(s.clone()),
        };
        Token { id: self.id, offset: self.offset, text, kind: self.kind }
    }
}

impl<'a> Token<'a> {
    /// A copy of the token that owns its text.
    pub fn to_owned_data(&self) -> (owned: Token<'static>)
        ensures
            owned@ == self@,
            owned.text is Owned,
    {
        let text: String = match &self.text {
            Cow::Borrowed(s) => str::to_owned(s),
            Cow::Owned(s) => s.clone(),
        };
        Token { id: self.id, offset: self.offset, text: Cow::Owned(text), kind: self.kind }
    }
}

/// One sentence of a document.
#[derive(Debug, PartialEq)]
pub struct Sentence<'a> {
    /// The part of the document that the sentence covers.
    pub text: Cow<'a, str>,
    /// The tokens of the sentence, in their order.
    pub tokens: Vec<Token<'a>>,
}

impl<'a> View for Sentence<'a> {
    type V = SentenceView;

    open spec fn view(&self) -> SentenceView {
        SentenceView { text: self.text@, tokens: token_views(self.tokens@) }
    }
}

/// The views of a list of sentences, in order.
pub open spec fn sentence_views(sentences: Seq<Sentence<'_>>) -> Seq<SentenceView> {
    Seq::new(sentences.len(), |i: int| sentences[i]@)
}

impl<'a> Clone for Sentence<'a> {
    /// A copy of the sentence. It borrows its text where the sentence does.
    fn clone(&self) -> (copy: Self)
        ensures
            copy@ == self@,
            copy.same_as(self),
    {
        let text = match &self.text {
            Cow::Borrowed(s) => Cow::Borrowed(*s),
            Cow::Owned(s) => Cow::Owned(s.clone()),
        };
        let mut tokens: Vec<Token<'a>> = Vec::with_capacity(self.tokens.len());
        let mut i: usize = 0;
        while i < self.tokens.len()
            invariant
                0 <= i <= self.tokens.len(),
                tokens.len() == i,
                forall|k: int| 0 <= k < i ==> #[trigger] tokens[k] == self.tokens[k],
            decreases self.tokens.len() - i,
        {
            tokens.push(self.tokens[i].clone());
            i += 1;
        }
        assert(token_views(tokens@) =~= token_views(self.tokens@));
        assert(tokens@ =~= self.tokens@);
        Sentence { text, tokens }
    }
}

impl<'a> Sentence<'a> {
    /// Whether the two sentences have the same text and the same tokens,
    /// and borrow or own each text alike.
    pub open spec fn same_as(&self, other: &Sentence<'a>) -> bool {
        self.text == other.text && self.tokens@ == other.tokens@
    }

    /// Whether the sentence borrows its text and that of each token.
    pub open spec fn borrows_its_text(&self) -> bool {
        &&& self.text is Borrowed
        &&& forall|i: int| 0 <= i < self.tokens.len() ==> (#[trigger] self.tokens[i]).text is Borrowed
    }

    /// Whether the sentence borrows neither its text nor that of a token.
    pub open spec fn owns_its_text(&self) -> bool {
        &&& self.text is Owned
        &&& forall|i: int| 0 <= i < self.tokens.len() ==> (#[trigger] self.tokens[i]).text is Owned
    }

    /// A copy of the sentence that owns its text and that of its tokens.
    pub fn to_owned_data(&self) -> (owned: Sentence<'static>)
        ensures
            owned@ == self@,
            owned.owns_its_text(),
    {
        let text: String = match &self.text {
            Cow::Borrowed(s) => str::to_owned(s),
            Cow::Owned(s) => s.clone(),
        };
        let mut tokens: Vec<Token<'static>> = Vec::with_capacity(self.tokens.len());
        let mut i: usize = 0;
        while i < self.tokens.len()
            invariant
                0 <= i <= self.tokens.len(),
                tokens.len() == i,
                forall|k: int| 0 <= k < i ==> (#[trigger] tokens[k])@ == self.tokens[k]@,
                forall|k: int| 0 <= k < i ==> (#[trigger] tokens[k]).text is Owned,
            decreases self.tokens.len() - i,
        {
            tokens.push(self.tokens[i].to_owned_data());
            i += 1;
        }
        assert(token_views(tokens@) =~= token_views(self.tokens@));
        Sentence { text: Cow::Owned(text), tokens }
    }
}

/// The segmentation of a document: its sentences, in their order.
#[derive(Debug, PartialEq)]
pub struct SegResult<'a> {
    pub sentences: Vec<Sentence<'a>>,
}

impl<'a> View for SegResult<'a> {
    type V = Seq<SentenceView>;

    open spec fn view(&self) -> Seq<SentenceView> {
        sentence_views(self.sentences@)
    }
}

impl<'a> Default for SegResult<'a> {
    /// The segmentation without sentences.
    fn default() -> (empty: Self)
        ensures
            empty@ == Seq::<SentenceView>::empty(),
    {
        let empty = SegResult { sentences: Vec::new() };
        assert(empty@ =~= Seq::<SentenceView>::empty());
        empty
    }
}

impl<'a> Clone for SegResult<'a> {
    /// A copy of the segmentation. It borrows its text where the
    /// segmentation does.
    fn clone(&self) -> (copy: Self)
        ensures
            copy@ == self@,
            copy.sentences.len() == self.sentences.len(),
            forall|i: int|
                0 <= i < self.sentences.len() ==> (#[trigger] copy.sentences[i]).same_as(
                    &self.sentences[i],
                ),
    {
        let mut sentences: Vec<Sentence<'a>> = Vec::with_capacity(self.sentences.len());
        let mut i: usize = 0;
        while i < self.sentences.len()
            invariant
                0 <= i <= self.sentences.len(),
                sentences.len() == i,
                forall|k: int| 0 <= k < i ==> (#[trigger] sentences[k])@ == self.sentences[k]@,
                forall|k: int| 0 <= k < i ==> (#[trigger] sentences[k]).same_as(&self.sentences[k]),
            decreases self.sentences.len() - i,
        {
            sentences.push(self.sentences[i].clone());
            i += 1;
        }
        let copy = SegResult { sentences };
        assert(copy@ =~= self@);
        copy
    }
}

impl<'a> SegResult<'a> {
    /// A copy of the segmentation that owns all its text, so that it can
    /// outlive the document.
    pub fn to_owned_data(&self) -> (owned: SegResult<'static>)
        ensures
            owned@ == self@,
            forall|i: int|
                0 <= i < owned.sentences.len() ==> (#[trigger] owned.sentences[i]).owns_its_text(),
    {
        let mut sentences: Vec<Sentence<'static>> = Vec::with_capacity(self.sentences.len());
        let mut i: usize = 0;
        while i < self.sentences.len()
            invariant
                0 <= i <= self.sentences.len(),
                sentences.len() == i,
                forall|k: int| 0 <= k < i ==> (#[trigger] sentences[k])@ == self.sentences[k]@,
                forall|k: int| 0 <= k < i ==> (#[trigger] sentences[k]).owns_its_text(),
            decreases self.sentences.len() - i,
        {
            sentences.push(self.sentences[i].to_owned_data());
            i += 1;
        }
        let owned = SegResult { sentences };
        assert(owned@ =~= self@);
        owned
    }
}

} // verus!
