//! Unicode properties of single characters, and trimming.
//!
//! The properties come from tables that this crate does not hold: those of
//! `unicode_general_category` and of `std`. Each table is a spec function
//! without a body here, and the function that reads the table is trusted to
//! return what the spec function names.

use unicode_general_category::get_general_category;
use unicode_general_category::GeneralCategory::{
    ClosePunctuation, ConnectorPunctuation, Control, CurrencySymbol, DashPunctuation, DecimalNumber, EnclosingMark, FinalPunctuation, Format, InitialPunctuation,
    LetterNumber, LineSeparator, LowercaseLetter, MathSymbol, ModifierLetter, ModifierSymbol, NonspacingMark, OpenPunctuation, OtherLetter, OtherNumber,
    OtherPunctuation, OtherSymbol, ParagraphSeparator, PrivateUse, SpaceSeparator, SpacingMark, Surrogate, TitlecaseLetter, Unassigned, UppercaseLetter,
};
use vstd::prelude::*;

verus! {

/// The general categories of Unicode, as `unicode_general_category` has
/// them, and one more for a category that a later version may add.
#[derive(Clone, Copy, Debug, PartialEq, Eq, Structural)]
pub enum Category {
    ClosePunctuation,
    ConnectorPunctuation,
    Control,
    CurrencySymbol,
    DashPunctuation,
    DecimalNumber,
    EnclosingMark,
    FinalPunctuation,
    Format,
    InitialPunctuation,
    LetterNumber,
    LineSeparator,
    LowercaseLetter,
    MathSymbol,
    ModifierLetter,
    ModifierSymbol,
    NonspacingMark,
    OpenPunctuation,
    OtherLetter,
    OtherNumber,
    OtherPunctuation,
    OtherSymbol,
    ParagraphSeparator,
    PrivateUse,
    SpaceSeparator,
    SpacingMark,
    Surrogate,
    TitlecaseLetter,
    Unassigned,
    UppercaseLetter,
    Unlisted,
}

/// The general category of `c` in the tables of `unicode_general_category`.
pub uninterp spec fn general_category(c: char) -> Category;

/// Whether `c` has the Unicode property Alphabetic, as `char::is_alphabetic` tells.
pub uninterp spec fn alphabetic(c: char) -> bool;

/// Whether `c` has one of the general categories Nd, Nl, No, as `char::is_numeric` tells.
pub uninterp spec fn numeric(c: char) -> bool;

/// Whether `c` has the Unicode property White_Space, as `char::is_whitespace` tells.
pub uninterp spec fn white_space(c: char) -> bool;

/// Calls `unicode_general_category::get_general_category` and gives each
/// category as the variant of the same name, and `Unlisted` for one that
/// the crate does not have yet. Trusted: the result is the table's entry for
/// `c`, which `general_category` names.
#[verifier::external_body]
pub(crate) fn category_of(c: char) -> (category: Category)
    ensures
        category == general_category(c),
{
    match get_general_category(c) {
        ClosePunctuation => Category::ClosePunctuation, ConnectorPunctuation => Category::ConnectorPunctuation, Control => Category::Control,
        CurrencySymbol => Category::CurrencySymbol, DashPunctuation => Category::DashPunctuation, DecimalNumber => Category::DecimalNumber,
        EnclosingMark => Category::EnclosingMark, FinalPunctuation => Category::FinalPunctuation, Format => Category::Format,
        InitialPunctuation => Category::InitialPunctuation, LetterNumber => Category::LetterNumber, LineSeparator => Category::LineSeparator,
        LowercaseLetter => Category::LowercaseLetter, MathSymbol => Category::MathSymbol, ModifierLetter => Category::ModifierLetter,
        ModifierSymbol => Category::ModifierSymbol, NonspacingMark => Category::NonspacingMark, OpenPunctuation => Category::OpenPunctuation,
        OtherLetter => Category::OtherLetter, OtherNumber => Category::OtherNumber, OtherPunctuation => Category::OtherPunctuation,
        OtherSymbol => Category::OtherSymbol, ParagraphSeparator => Category::ParagraphSeparator, PrivateUse => Category::PrivateUse,
        SpaceSeparator => Category::SpaceSeparator, SpacingMark => Category::SpacingMark, Surrogate => Category::Surrogate,
        TitlecaseLetter => Category::TitlecaseLetter, Unassigned => Category::Unassigned, UppercaseLetter => Category::UppercaseLetter,
        _ => Category::Unlisted,
    }
}

/// `char::is_alphabetic` of std. Trusted: the result is the property that
/// `alphabetic` names.
pub assume_specification[ char::is_alphabetic ](c: char) -> (b: bool)
    ensures
        b == alphabetic(c),
;

/// `char::is_numeric` of std. Trusted: the result is the property that
/// `numeric` names.
pub assume_specification[ char::is_numeric ](c: char) -> (b: bool)
    ensures
        b == numeric(c),
;

/// `char::is_whitespace` of std. Trusted: the result is the property that
/// `white_space` names.
pub assume_specification[ char::is_whitespace ](c: char) -> (b: bool)
    ensures
        b == white_space(c),
;

/// What is left of `s` without its leading white space.
pub open spec fn trim_start(s: Seq<char>) -> Seq<char>
    decreases s.len(),
{
    if s.len() > 0 && white_space(s.first()) {
        trim_start(s.drop_first())
    } else {
        s
    }
}

/// What is left of `s` without its trailing white space.
pub open spec fn trim_end(s: Seq<char>) -> Seq<char>
    decreases s.len(),
{
    if s.len() > 0 && white_space(s.last()) {
        trim_end(s.drop_last())
    } else {
        s
    }
}

/// What is left of `s` without its leading and trailing white space.
pub open spec fn trimmed(s: Seq<char>) -> Seq<char> {
    trim_end(trim_start(s))
}

/// Whether `s` holds nothing but white space.
pub open spec fn is_blank(s: Seq<char>) -> bool {
    trimmed(s).len() == 0
}

/// What is left without leading white space is empty exactly if all is
/// white space, and else begins with a character that is none.
proof fn lemma_trim_start(s: Seq<char>)
    ensures
        trim_start(s).len() == 0 <==> forall|i: int| 0 <= i < s.len() ==> white_space(#[trigger] s[i]),
        trim_start(s).len() > 0 ==> !white_space(trim_start(s).first()),
    decreases s.len(),
{
    if s.len() > 0 && white_space(s.first()) {
        let rest = s.drop_first();
        lemma_trim_start(rest);
        if forall|i: int| 0 <= i < rest.len() ==> white_space(#[trigger] rest[i]) {
            assert forall|i: int| 0 <= i < s.len() implies white_space(#[trigger] s[i]) by {
                if i > 0 {
                    assert(s[i] == rest[i - 1]);
                }
            }
        }
        if forall|i: int| 0 <= i < s.len() ==> white_space(#[trigger] s[i]) {
            assert forall|i: int| 0 <= i < rest.len() implies white_space(#[trigger] rest[i]) by {
                assert(rest[i] == s[i + 1]);
            }
        }
    } else if s.len() > 0 {
        assert(!white_space(s[0]));
    }
}

/// What is left without trailing white space is empty exactly if all is
/// white space.
proof fn lemma_trim_end(s: Seq<char>)
    ensures
        trim_end(s).len() == 0 <==> forall|i: int| 0 <= i < s.len() ==> white_space(#[trigger] s[i]),
    decreases s.len(),
{
    if s.len() > 0 && white_space(s.last()) {
        let rest = s.drop_last();
        lemma_trim_end(rest);
        if forall|i: int| 0 <= i < rest.len() ==> white_space(#[trigger] rest[i]) {
            assert forall|i: int| 0 <= i < s.len() implies white_space(#[trigger] s[i]) by {
                if i < rest.len() {
                    assert(s[i] == rest[i]);
                }
            }
        }
        if forall|i: int| 0 <= i < s.len() ==> white_space(#[trigger] s[i]) {
            assert forall|i: int| 0 <= i < rest.len() implies white_space(#[trigger] rest[i]) by {
                assert(rest[i] == s[i]);
            }
        }
    } else if s.len() > 0 {
        assert(!white_space(s[s.len() - 1]));
    }
}

/// A text is blank exactly if each of its characters is white space. The
/// empty text is blank.
pub proof fn lemma_blank_is_all_white_space(s: Seq<char>)
    ensures
        is_blank(s) <==> forall|i: int| 0 <= i < s.len() ==> white_space(#[trigger] s[i]),
{
    lemma_trim_start(s);
    lemma_trim_end(trim_start(s));
    if trim_start(s).len() > 0 {
        assert(!white_space(trim_start(s)[0]));
    }
}

/// Two texts joined are blank exactly if both are.
pub proof fn lemma_blank_joined(s: Seq<char>, t: Seq<char>)
    ensures
        is_blank(s + t) <==> is_blank(s) && is_blank(t),
{
    let joined = s + t;
    lemma_blank_is_all_white_space(s);
    lemma_blank_is_all_white_space(t);
    lemma_blank_is_all_white_space(joined);
    if is_blank(joined) {
        assert forall|i: int| 0 <= i < s.len() implies white_space(#[trigger] s[i]) by {
            assert(s[i] == joined[i]);
        }
        assert forall|i: int| 0 <= i < t.len() implies white_space(#[trigger] t[i]) by {
            assert(t[i] == joined[s.len() + i]);
        }
    }
    if is_blank(s) && is_blank(t) {
        assert forall|i: int| 0 <= i < joined.len() implies white_space(#[trigger] joined[i]) by {
            if i < s.len() {
                assert(joined[i] == s[i]);
            } else {
                assert(joined[i] == t[i - s.len()]);
            }
        }
    }
}

/// What is left without trailing white space is a front part of the text,
/// and does not end with white space.
proof fn lemma_trim_end_is_front(s: Seq<char>)
    ensures
        trim_end(s).len() <= s.len(),
        trim_end(s) == s.subrange(0, trim_end(s).len() as int),
        trim_end(s).len() > 0 ==> !white_space(trim_end(s).last()),
    decreases s.len(),
{
    if s.len() > 0 && white_space(s.last()) {
        let rest = s.drop_last();
        lemma_trim_end_is_front(rest);
        assert(rest.subrange(0, trim_end(rest).len() as int) =~= s.subrange(
            0,
            trim_end(rest).len() as int,
        ));
    } else {
        assert(s.subrange(0, s.len() as int) =~= s);
    }
}

/// A trimmed text neither begins nor ends with white space.
pub proof fn lemma_trimmed_has_bare_ends(s: Seq<char>)
    ensures
        trimmed(s).len() > 0 ==> !white_space(trimmed(s).first()) && !white_space(trimmed(s).last()),
{
    lemma_trim_start(s);
    lemma_trim_end_is_front(trim_start(s));
}

/// `str::trim` of std. Trusted: the result is the text without the white
/// space at both ends, white space being what `char::is_whitespace` tells.
pub assume_specification[ str::trim ](s: &str) -> (t: &str)
    ensures
        t@ == trimmed(s@),
;

/// Whether `text` holds nothing but white space.
pub fn is_whitespace_only(text: &str) -> (yes: bool)
    ensures
        yes == is_blank(text@),
{
    proof {
        lemma_blank_is_all_white_space(text@);
    }
    for c in it: text.chars()
        invariant
            it.seq() == text@,
            forall|i: int| 0 <= i < it.index() ==> white_space(#[trigger] text@[i]),
            is_blank(text@) <==> forall|i: int| 0 <= i < text@.len() ==> white_space(#[trigger] text@[i]),
    {
        if !c.is_whitespace() {
            assert(!white_space(text@[it.index() as int]));
            return false;
        }
    }
    true
}

} // verus!
