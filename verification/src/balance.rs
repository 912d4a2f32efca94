//! How deep a text is inside brackets and quotes.

use crate::text::{has_room_for, lemma_chars_fit_in_bytes, len_in_bytes};
use crate::unicode::{category_of, general_category, Category};
use vstd::prelude::*;

verus! {

/// The state of a balance tracker as contracts see it.
pub struct Balance {
    /// Brackets opened and not closed.
    pub brackets: nat,
    /// Quotes opened and not closed.
    pub quotes: nat,
    /// Whether a straight quote, `"` or `'`, was seen an odd number of times.
    pub in_straight_quote: bool,
}

impl Balance {
    /// The state before any character.
    pub open spec fn new() -> Balance {
        Balance { brackets: 0, quotes: 0, in_straight_quote: false }
    }

    /// Whether a boundary met in this state lies inside brackets. Quotes do
    /// not count.
    pub open spec fn is_merging(self) -> bool {
        self.brackets > 0
    }

    /// The state after the character `c` of the given category. A closing
    /// bracket or quote that nothing opened changes nothing.
    pub open spec fn step(self, category: Category, c: char) -> Balance {
        match category {
            Category::OpenPunctuation => Balance { brackets: self.brackets + 1, ..self },
            Category::ClosePunctuation => if self.brackets > 0 {
                Balance { brackets: (self.brackets - 1) as nat, ..self }
            } else {
                self
            },
            Category::InitialPunctuation => Balance { quotes: self.quotes + 1, ..self },
            Category::FinalPunctuation => if self.quotes > 0 {
                Balance { quotes: (self.quotes - 1) as nat, ..self }
            } else {
                self
            },
            _ => if c == '"' || c == '\'' {
                Balance { in_straight_quote: !self.in_straight_quote, ..self }
            } else {
                self
            },
        }
    }

    /// The state after the characters of `s`, in their order.
    pub open spec fn feed(self, s: Seq<char>) -> Balance
        decreases s.len(),
    {
        if s.len() == 0 {
            self
        } else {
            self.feed(s.drop_last()).step(general_category(s.last()), s.last())
        }
    }

    /// A text raises neither depth by more than its length.
    pub proof fn lemma_feed_is_bounded(self, s: Seq<char>)
        ensures
            self.feed(s).brackets <= self.brackets + s.len(),
            self.feed(s).quotes <= self.quotes + s.len(),
        decreases s.len(),
    {
        if s.len() > 0 {
            self.lemma_feed_is_bounded(s.drop_last());
        }
    }

    /// Feeding two texts one after the other is feeding them joined.
    pub proof fn lemma_feed_joined(self, s: Seq<char>, t: Seq<char>)
        ensures
            self.feed(s + t) == self.feed(s).feed(t),
        decreases t.len(),
    {
        if t.len() == 0 {
            assert(s + t =~= s);
        } else {
            assert((s + t).drop_last() =~= s + t.drop_last());
            self.lemma_feed_joined(s, t.drop_last());
        }
    }
}

/// Counts open brackets and quotes over the characters it is given. The
/// counts never drop below zero, and they are kept from one text to the next.
#[derive(Debug, Clone, Copy)]
pub struct BalanceTracker {
    brackets: usize,
    quotes: usize,
    in_straight_quote: bool,
}

impl View for BalanceTracker {
    type V = Balance;

    closed spec fn view(&self) -> Balance {
        Balance {
            brackets: self.brackets as nat,
            quotes: self.quotes as nat,
            in_straight_quote: self.in_straight_quote,
        }
    }
}

impl BalanceTracker {
    /// A tracker that has seen nothing.
    pub fn new() -> (tracker: Self)
        ensures
            tracker@ == Balance::new(),
    {
        Self { brackets: 0, quotes: 0, in_straight_quote: false }
    }

    /// Whether the text so far ends inside brackets.
    pub fn is_merging(&self) -> (merging: bool)
        ensures
            merging == self@.is_merging(),
    {
        self.brackets > 0
    }

    /// Takes in one character whose category is known.
    pub fn apply(&mut self, category: Category, c: char)
        requires
            old(self)@.brackets < usize::MAX,
            old(self)@.quotes < usize::MAX,
        ensures
            final(self)@ == old(self)@.step(category, c),
    {
        match category {
            Category::OpenPunctuation => {
                self.brackets += 1;
            },
            Category::ClosePunctuation => {
                if self.brackets > 0 {
                    self.brackets -= 1;
                }
            },
            Category::InitialPunctuation => {
                self.quotes += 1;
            },
            Category::FinalPunctuation => {
                if self.quotes > 0 {
                    self.quotes -= 1;
                }
            },
            _ => {
                if c == '"' || c == '\'' {
                    self.in_straight_quote = !self.in_straight_quote;
                }
            },
        }
    }

    /// Takes in the characters of `text`, in their order. Neither depth may
    /// pass `usize::MAX` on the way.
    pub fn update(&mut self, text: &str)
        requires
            has_room_for(old(self)@.brackets, text@.len()),
            has_room_for(old(self)@.quotes, text@.len()),
        ensures
            final(self)@ == old(self)@.feed(text@),
    {
        let ghost before = self@;
        // The length is asked for to learn that it fits in `usize`.
        let _size = len_in_bytes(text);
        proof {
            lemma_chars_fit_in_bytes(text@);
        }
        for c in it: text.chars()
            invariant
                it.seq() == text@,
                self@ == before.feed(text@.take(it.index() as int)),
                before.brackets + text@.len() <= usize::MAX,
                before.quotes + text@.len() <= usize::MAX,
        {
            proof {
                let seen = text@.take(it.index() as int);
                let next = text@.take(it.index() + 1);
                before.lemma_feed_is_bounded(seen);
                assert(next.drop_last() =~= seen);
                assert(next.last() == c);
            }
            let category = category_of(c);
            self.apply(category, c);
        }
        proof {
            assert(text@.take(text@.len() as int) =~= text@);
        }
    }
}

} // verus!
