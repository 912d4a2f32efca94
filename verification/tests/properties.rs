use pli_segmenter::balance::BalanceTracker;
use pli_segmenter::bounds::is_tiling;
use pli_segmenter::classify::{classify_token, is_number, kind_from_category};
use pli_segmenter::markers::{
    has_abbreviation_shape, has_marker_shape, is_abbreviation, is_list_marker,
};
use pli_segmenter::segmenter::process_text;
use pli_segmenter::sentences::SentenceIterator;
use pli_segmenter::text::{len_in_bytes, slice};
use pli_segmenter::tokenizer::{
    flush_run, merge_piece, tokenize_pieces, tokenize_sentence, word_piece, Run, Step,
};
use pli_segmenter::types::{SegResult, Sentence, Token, TokenKind};
use pli_segmenter::unicode::{is_whitespace_only, Category};
use std::borrow::Cow;
use unicode_segmentation::UnicodeSegmentation;

const PASSAGE: &str = "1. Tena samayena buddho bhagavā verañjāyaṃ viharati. Assosi kho verañjo brāhmaṇo [bhagavāti (syā.), dī. ni. 1.157]. So dhammaṃ deseti; sādhu kho.";

fn kinds(tokens: &[Token]) -> Vec<TokenKind> {
    tokens.iter().map(|t| t.kind).collect()
}

fn texts<'a>(tokens: &'a [Token]) -> Vec<&'a str> {
    tokens.iter().map(|t| t.text.as_ref()).collect()
}

#[test]
fn empty_input_has_no_sentences() {
    assert_eq!(process_text("").sentences.len(), 0);
}

#[test]
fn blank_input_has_no_sentences() {
    assert_eq!(process_text(" \t\n\u{3000}  ").sentences.len(), 0);
    assert_eq!(process_text("\n").sentences.len(), 0);
}

#[test]
fn list_marker_joins_the_sentence_after_it() {
    let result = process_text("1. Tena samayena buddho bhagavā verañjāyaṃ viharati naḷerupucimandamūle mahatā bhikkhusaṅghena saddhiṃ pañcamattehi bhikkhusatehi.");
    assert_eq!(result.sentences.len(), 1);
    assert!(result.sentences[0].text.starts_with("1. Tena"));
    assert_eq!(result.sentences[0].tokens[0].text, "1");
    assert_eq!(result.sentences[0].tokens[0].kind, TokenKind::Number);
}

#[test]
fn quote_is_punctuation_and_words_follow() {
    let result = process_text("‘itipi so bhagavā");
    assert_eq!(result.sentences.len(), 1);
    let tokens = &result.sentences[0].tokens;
    assert_eq!(
        kinds(tokens),
        vec![TokenKind::Punctuation, TokenKind::Word, TokenKind::Word, TokenKind::Word]
    );
    assert_eq!(texts(tokens), vec!["‘", "itipi", "so", "bhagavā"]);
    let offsets: Vec<usize> = tokens.iter().map(|t| t.offset).collect();
    assert_eq!(offsets, vec![0, 3, 9, 12]);
}

#[test]
fn token_ids_count_up_from_one() {
    let result = process_text(PASSAGE);
    assert!(result.sentences.len() > 1);
    let mut expected = 1;
    for sentence in &result.sentences {
        assert!(!sentence.tokens.is_empty());
        for token in &sentence.tokens {
            assert_eq!(token.id, expected);
            expected += 1;
        }
    }
}

#[test]
fn tokens_are_parts_of_the_document_at_their_offsets() {
    let result = process_text(PASSAGE);
    let mut reached = 0;
    for sentence in &result.sentences {
        for token in &sentence.tokens {
            assert!(token.offset >= reached);
            assert!(!token.text.is_empty());
            let end = token.offset + token.text.len();
            assert_eq!(&PASSAGE[token.offset..end], token.text.as_ref());
            reached = end;
        }
    }
}

#[test]
fn sentences_are_parts_of_the_document_in_order() {
    let result = process_text(PASSAGE);
    assert_eq!(result.sentences.len(), 3);
    let mut reached = 0;
    for sentence in &result.sentences {
        let at = reached + PASSAGE[reached..].find(sentence.text.as_ref()).unwrap();
        let first = &sentence.tokens[0];
        assert_eq!(at, first.offset);
        reached = at + sentence.text.len();
    }
    assert_eq!(reached, PASSAGE.len());
}

#[test]
fn blank_pieces_between_sentences_are_skipped() {
    let result = process_text("Evaṃ me sutaṃ.\n\n \nEkaṃ samayaṃ bhagavā.");
    assert_eq!(result.sentences.len(), 2);
    assert_eq!(result.sentences[1].tokens[0].text, "Ekaṃ");
    assert_eq!(result.sentences[1].tokens[0].id, 5);
}

#[test]
fn same_input_gives_the_same_result() {
    assert_eq!(process_text(PASSAGE), process_text(PASSAGE));
}

#[test]
fn brackets_make_one_merged_token() {
    let result = process_text("buddho (syā. ka.) bhagavā");
    assert_eq!(result.sentences.len(), 1);
    let tokens = &result.sentences[0].tokens;
    assert_eq!(texts(tokens), vec!["buddho", "(syā. ka.)", "bhagavā"]);
    assert_eq!(kinds(tokens), vec![TokenKind::Word, TokenKind::Merged, TokenKind::Word]);
    assert_eq!(tokens[1].offset, 7);
    assert_eq!(tokens[2].id, 3);
}

#[test]
fn unclosed_bracket_runs_to_the_end_of_the_sentence() {
    let result = process_text("a [b c");
    let tokens = &result.sentences[0].tokens;
    assert_eq!(texts(tokens), vec!["a", "[b c"]);
    assert_eq!(kinds(tokens), vec![TokenKind::Word, TokenKind::Merged]);
}

#[test]
fn unmatched_closing_bracket_is_punctuation() {
    let result = process_text("a ) b");
    let tokens = &result.sentences[0].tokens;
    assert_eq!(texts(tokens), vec!["a", ")", "b"]);
    assert_eq!(kinds(tokens), vec![TokenKind::Word, TokenKind::Punctuation, TokenKind::Word]);
}

#[test]
fn digits_are_a_number() {
    assert_eq!(classify_token("1157"), TokenKind::Number);
    assert!(is_number("0"));
    assert_ne!(classify_token("11a57"), TokenKind::Number);
    assert_ne!(classify_token("a1157"), TokenKind::Number);
    assert_ne!(classify_token("1.157"), TokenKind::Number);
    assert_ne!(classify_token("၁၂"), TokenKind::Number);
    assert!(!is_number(""));
}

#[test]
fn first_character_decides_the_kind() {
    assert_eq!(classify_token("bhagavā"), TokenKind::Word);
    assert_eq!(classify_token("ဗုဒ္ဓေါ"), TokenKind::Word);
    assert_eq!(classify_token("a1"), TokenKind::Word);
    assert_eq!(classify_token("("), TokenKind::Punctuation);
    assert_eq!(classify_token("]"), TokenKind::Punctuation);
    assert_eq!(classify_token("‘"), TokenKind::Punctuation);
    assert_eq!(classify_token("’"), TokenKind::Punctuation);
    assert_eq!(classify_token("–"), TokenKind::Punctuation);
    assert_eq!(classify_token("_"), TokenKind::Punctuation);
    assert_eq!(classify_token(".a"), TokenKind::Punctuation);
    assert_eq!(classify_token("။"), TokenKind::Punctuation);
    assert_eq!(classify_token("+"), TokenKind::Other);
    assert_eq!(classify_token("1a"), TokenKind::Other);
    assert_eq!(classify_token("၁"), TokenKind::Other);
    assert_eq!(classify_token(" "), TokenKind::Other);
    assert_eq!(classify_token(""), TokenKind::Other);
}

#[test]
fn category_gives_punctuation_or_other() {
    assert_eq!(kind_from_category(Category::OpenPunctuation), TokenKind::Punctuation);
    assert_eq!(kind_from_category(Category::ClosePunctuation), TokenKind::Punctuation);
    assert_eq!(kind_from_category(Category::InitialPunctuation), TokenKind::Punctuation);
    assert_eq!(kind_from_category(Category::FinalPunctuation), TokenKind::Punctuation);
    assert_eq!(kind_from_category(Category::DashPunctuation), TokenKind::Punctuation);
    assert_eq!(kind_from_category(Category::ConnectorPunctuation), TokenKind::Punctuation);
    assert_eq!(kind_from_category(Category::OtherPunctuation), TokenKind::Punctuation);
    assert_eq!(kind_from_category(Category::LowercaseLetter), TokenKind::Other);
    assert_eq!(kind_from_category(Category::DecimalNumber), TokenKind::Other);
    assert_eq!(kind_from_category(Category::MathSymbol), TokenKind::Other);
    assert_eq!(kind_from_category(Category::SpaceSeparator), TokenKind::Other);
    assert_eq!(kind_from_category(Category::Unassigned), TokenKind::Other);
    assert_eq!(kind_from_category(Category::Unlisted), TokenKind::Other);
}

#[test]
fn tracker_follows_brackets_only() {
    let mut tracker = BalanceTracker::new();
    assert!(!tracker.is_merging());
    tracker.update("‘‘ \" '");
    assert!(!tracker.is_merging());
    tracker.update("a (b [c");
    assert!(tracker.is_merging());
    tracker.update("]");
    assert!(tracker.is_merging());
    tracker.update(")");
    assert!(!tracker.is_merging());
}

#[test]
fn tracker_never_goes_below_zero() {
    let mut tracker = BalanceTracker::new();
    tracker.update(")))");
    assert!(!tracker.is_merging());
    tracker.update("(");
    assert!(tracker.is_merging());
    tracker.update(")");
    assert!(!tracker.is_merging());
}

#[test]
fn tracker_takes_single_characters() {
    let mut tracker = BalanceTracker::new();
    tracker.apply(Category::ClosePunctuation, ')');
    assert!(!tracker.is_merging());
    tracker.apply(Category::OpenPunctuation, '(');
    tracker.apply(Category::InitialPunctuation, '‘');
    tracker.apply(Category::LowercaseLetter, 'a');
    tracker.apply(Category::OtherPunctuation, '"');
    assert!(tracker.is_merging());
    tracker.apply(Category::FinalPunctuation, '’');
    assert!(tracker.is_merging());
    tracker.apply(Category::ClosePunctuation, ')');
    assert!(!tracker.is_merging());
}

#[test]
fn list_markers() {
    assert!(is_list_marker("1."));
    assert!(is_list_marker("  12. \n"));
    assert!(is_list_marker("(1)."));
    assert!(is_list_marker("၁။"));
    assert!(is_list_marker("၁၊"));
    assert!(is_list_marker("123456789."));
    assert!(!is_list_marker("(1)"));
    assert!(!is_list_marker("a."));
    assert!(!is_list_marker("1"));
    assert!(!is_list_marker(""));
    assert!(!is_list_marker("   "));
    assert!(!is_list_marker("1234567890."));
}

#[test]
fn abbreviations() {
    assert!(is_abbreviation("dī."));
    assert!(is_abbreviation(" ni. "));
    assert!(is_abbreviation("Mr."));
    assert!(!is_abbreviation("1."));
    assert!(!is_abbreviation("Tena."));
    assert!(!is_abbreviation("dī"));
    assert!(!is_abbreviation(""));
}

#[test]
fn marker_and_abbreviation_lengths_count_characters() {
    assert!(is_list_marker("၁၂၃။"));
    assert!(is_list_marker("၁၂၃၄၅၆၇၈၉။"));
    assert!(!is_list_marker("၁၂၃၄၅၆၇၈၉၀။"));
    assert!(is_abbreviation("syā."));
    assert!(!is_abbreviation("syāā."));
}

#[test]
fn abbreviation_joins_the_sentence_after_it() {
    let result = process_text("Ni. Tena samayena buddho.");
    assert_eq!(result.sentences.len(), 1);
    assert_eq!(result.sentences[0].text, "Ni. Tena samayena buddho.");
}

#[test]
fn sentence_iterator_gives_sentences_one_by_one() {
    let text = "Evaṃ me sutaṃ. Ekaṃ samayaṃ bhagavā.";
    let mut iterator = SentenceIterator::new(text);
    let first = iterator.next().unwrap();
    assert_eq!(first.text, "Evaṃ me sutaṃ. ");
    assert_eq!(texts(&first.tokens), vec!["Evaṃ", "me", "sutaṃ", "."]);
    let second = iterator.next().unwrap();
    assert_eq!(second.text, "Ekaṃ samayaṃ bhagavā.");
    assert_eq!(second.tokens[0].id, 5);
    assert_eq!(second.tokens[0].offset, 19);
    assert!(iterator.next().is_none());
    assert!(iterator.next().is_none());
}

#[test]
fn sentence_iterator_of_empty_text_is_empty() {
    let mut iterator = SentenceIterator::new("");
    assert!(iterator.next().is_none());
}

#[test]
fn tokenize_sentence_numbers_on_from_the_counter() {
    let mut counter = 7;
    let tokens = tokenize_sentence("so bhagavā", 100, &mut counter);
    assert_eq!(counter, 9);
    assert_eq!(texts(&tokens), vec!["so", "bhagavā"]);
    assert_eq!(tokens[0].id, 7);
    assert_eq!(tokens[1].id, 8);
    assert_eq!(tokens[0].offset, 100);
    assert_eq!(tokens[1].offset, 103);
}

#[test]
fn tokenize_pieces_joins_adjacent_words() {
    let text = "abcd ef";
    let pieces = vec![(0, &text[0..2]), (2, &text[2..4]), (4, &text[4..5]), (5, &text[5..7])];
    let mut counter = 1;
    let tokens = tokenize_pieces(text, &pieces, 0, &mut counter);
    assert_eq!(texts(&tokens), vec!["abcd", "ef"]);
    assert_eq!(kinds(&tokens), vec![TokenKind::Word, TokenKind::Word]);
    assert_eq!(tokens[0].id, 1);
    assert_eq!(tokens[1].id, 2);
    assert_eq!(counter, 3);
}

#[test]
fn tokenize_pieces_keeps_unlike_pieces_apart() {
    let text = "ab12,cd";
    let pieces = vec![(0, &text[0..2]), (2, &text[2..4]), (4, &text[4..5]), (5, &text[5..7])];
    let mut counter = 1;
    let tokens = tokenize_pieces(text, &pieces, 10, &mut counter);
    assert_eq!(texts(&tokens), vec!["ab", "12", ",", "cd"]);
    assert_eq!(
        kinds(&tokens),
        vec![TokenKind::Word, TokenKind::Number, TokenKind::Punctuation, TokenKind::Word]
    );
    assert_eq!(tokens[3].offset, 15);
    assert_eq!(tokens[3].id, 4);
    assert_eq!(counter, 5);
}

#[test]
fn slice_and_length_go_by_bytes() {
    let text = "dī. ni.";
    assert_eq!(len_in_bytes(text), 8);
    assert_eq!(slice(text, 0, 4), "dī.");
    assert_eq!(slice(text, 5, 8), "ni.");
    assert_eq!(slice(text, 4, 4), "");
}

#[test]
fn owned_copy_is_equal_and_owns_its_text() {
    let result = process_text(PASSAGE);
    let owned: SegResult<'static> = result.to_owned_data();
    assert_eq!(owned, result);
    for sentence in &owned.sentences {
        assert!(matches!(sentence.text, Cow::Owned(_)));
        for token in &sentence.tokens {
            assert!(matches!(token.text, Cow::Owned(_)));
        }
    }
    for sentence in &result.sentences {
        assert!(matches!(sentence.text, Cow::Borrowed(_)));
    }
}

#[test]
fn owned_copies_of_a_sentence_and_a_token() {
    let token = Token { id: 3, offset: 14, text: Cow::Borrowed("sutaṃ"), kind: TokenKind::Word };
    let owned_token = token.to_owned_data();
    assert_eq!(owned_token, token);
    assert!(matches!(owned_token.text, Cow::Owned(_)));
    let sentence = Sentence { text: Cow::Borrowed("sutaṃ"), tokens: vec![token] };
    let owned_sentence = sentence.to_owned_data();
    assert_eq!(owned_sentence, sentence);
    assert!(matches!(owned_sentence.text, Cow::Owned(_)));
    assert!(matches!(owned_sentence.tokens[0].text, Cow::Owned(_)));
}

#[test]
fn default_result_is_empty() {
    assert!(SegResult::default().sentences.is_empty());
}

#[test]
fn marker_shapes() {
    assert!(has_marker_shape(2, '1', true, '.'));
    assert!(has_marker_shape(3, '(', false, '.'));
    assert!(has_marker_shape(10, '၁', true, '။'));
    assert!(has_marker_shape(2, '၁', true, '၊'));
    assert!(!has_marker_shape(11, '1', true, '.'));
    assert!(!has_marker_shape(0, '1', true, '.'));
    assert!(!has_marker_shape(2, 'a', false, '.'));
    assert!(!has_marker_shape(3, '(', false, ')'));
}

#[test]
fn abbreviation_shapes() {
    assert!(has_abbreviation_shape(3, '.', false));
    assert!(has_abbreviation_shape(4, '.', false));
    assert!(has_abbreviation_shape(1, '.', false));
    assert!(!has_abbreviation_shape(5, '.', false));
    assert!(!has_abbreviation_shape(0, '.', false));
    assert!(!has_abbreviation_shape(3, ',', false));
    assert!(!has_abbreviation_shape(2, '.', true));
}

fn run(start: usize, end: usize, kind: TokenKind) -> Run {
    Run { start, end, kind }
}

#[test]
fn flushing_completes_what_is_pending() {
    let word = run(0, 4, TokenKind::Word);
    assert_eq!(flush_run(Some(word)), Step { first: Some(word), second: None, pending: None });
    assert_eq!(flush_run(None), Step { first: None, second: None, pending: None });
}

#[test]
fn words_extend_a_pending_word() {
    let word = run(0, 4, TokenKind::Word);
    assert_eq!(
        word_piece(Some(word), 4, 7, TokenKind::Word),
        Step { first: None, second: None, pending: Some(run(0, 7, TokenKind::Word)) }
    );
    assert_eq!(
        word_piece(None, 4, 7, TokenKind::Word),
        Step { first: None, second: None, pending: Some(run(4, 7, TokenKind::Word)) }
    );
}

#[test]
fn other_pieces_begin_a_run() {
    let word = run(0, 4, TokenKind::Word);
    assert_eq!(
        word_piece(Some(word), 4, 5, TokenKind::Punctuation),
        Step { first: Some(word), second: None, pending: Some(run(4, 5, TokenKind::Punctuation)) }
    );
    let number = run(0, 2, TokenKind::Number);
    assert_eq!(
        word_piece(Some(number), 2, 4, TokenKind::Number),
        Step { first: Some(number), second: None, pending: Some(run(2, 4, TokenKind::Number)) }
    );
    assert_eq!(
        word_piece(Some(number), 2, 4, TokenKind::Word),
        Step { first: Some(number), second: None, pending: Some(run(2, 4, TokenKind::Word)) }
    );
}

#[test]
fn brackets_begin_extend_and_close_a_merged_run() {
    let word = run(0, 4, TokenKind::Word);
    let opened = merge_piece(Some(word), 5, 6, true);
    assert_eq!(
        opened,
        Step { first: Some(word), second: None, pending: Some(run(5, 6, TokenKind::Merged)) }
    );
    let inside = merge_piece(opened.pending, 6, 9, true);
    assert_eq!(
        inside,
        Step { first: None, second: None, pending: Some(run(5, 9, TokenKind::Merged)) }
    );
    let closed = merge_piece(inside.pending, 9, 10, false);
    assert_eq!(
        closed,
        Step { first: None, second: Some(run(5, 10, TokenKind::Merged)), pending: None }
    );
    assert_eq!(
        merge_piece(None, 3, 4, true),
        Step { first: None, second: None, pending: Some(run(3, 4, TokenKind::Merged)) }
    );
    assert_eq!(
        merge_piece(Some(word), 4, 5, false),
        Step { first: Some(word), second: Some(run(4, 5, TokenKind::Merged)), pending: None }
    );
}

#[test]
fn sentence_iterator_takes_given_pieces() {
    let text = "Evaṃ. 1. Me sutaṃ.  ";
    let pieces = vec![(0, &text[0..8]), (8, &text[8..11]), (11, &text[11..23]), (23, &text[23..24])];
    let mut iterator = SentenceIterator::from_pieces(text, pieces);
    let first = iterator.next().unwrap();
    assert_eq!(first.text, "Evaṃ. ");
    let second = iterator.next().unwrap();
    assert_eq!(second.text, "1. Me sutaṃ. ");
    assert_eq!(second.tokens[0].id, 3);
    assert_eq!(second.tokens[0].offset, 8);
    assert!(iterator.next().is_none());
}

#[test]
fn boundaries_tile_the_text() {
    let texts = [
        PASSAGE,
        "อุทฺทิฏฺฐา",
        "၁။ တေန သမယေန ဗုဒ္ဓေါ ဘဂဝါ ဝေရဉ္ဇာယံ ဝိဟရတိ။",
        "नमो तस्स भगवतो अरहतो सम्मासम्बुद्धस्स।",
        "a",
        " ",
        "\r\n\r\n",
        "e\u{301}\u{200d}x \u{200b}\u{301}",
        "🇩🇪🇫🇷 3.14, can't... (x) \"y\"",
        "Mr. Fox jumped. [...] The dog was too lazy.",
    ];
    for text in texts {
        let sentences: Vec<(usize, &str)> = text.split_sentence_bound_indices().collect();
        assert!(is_tiling(text, &sentences));
        let words: Vec<(usize, &str)> = text.split_word_bound_indices().collect();
        assert!(is_tiling(text, &words));
    }
    let none: Vec<(usize, &str)> = "".split_word_bound_indices().collect();
    assert!(is_tiling("", &none));
}

#[test]
fn tilings_are_told_from_what_is_none() {
    let text = "dī. ni.";
    assert!(is_tiling(text, &vec![(0, &text[0..4]), (4, &text[4..5]), (5, &text[5..8])]));
    assert!(is_tiling(text, &vec![(0, text)]));
    assert!(!is_tiling(text, &vec![]));
    assert!(!is_tiling("", &vec![(0, "")]));
    assert!(!is_tiling(text, &vec![(0, &text[0..4]), (5, &text[5..8])]));
    assert!(!is_tiling(text, &vec![(0, &text[0..4]), (4, &text[4..5])]));
    assert!(!is_tiling(text, &vec![(0, &text[0..5]), (4, &text[4..8])]));
    assert!(!is_tiling(text, &vec![(0, &text[0..4]), (4, ""), (4, &text[4..8])]));
    assert!(!is_tiling(text, &vec![(0, "di. "), (4, &text[4..8])]));
    assert!(!is_tiling(text, &vec![(1, &text[0..4]), (4, &text[4..8])]));
    assert!(!is_tiling(text, &vec![(0, text), (8, "x")]));
}

#[test]
fn parenthesised_number_stays_with_its_sentence() {
    let result = process_text("(1) Tena samayena buddho. (2) Assosi kho verañjo.");
    assert_eq!(result.sentences.len(), 2);
    assert!(result.sentences[0].text.starts_with("(1) Tena"));
    assert!(result.sentences[1].text.starts_with("(2) Assosi"));
    assert_eq!(result.sentences[0].tokens[0].text, "(1)");
    assert_eq!(result.sentences[0].tokens[0].kind, TokenKind::Merged);
}

#[test]
fn results_of_process_text_borrow_their_text() {
    let result = process_text(PASSAGE);
    for sentence in &result.sentences {
        assert!(matches!(sentence.text, Cow::Borrowed(_)));
        for token in &sentence.tokens {
            assert!(matches!(token.text, Cow::Borrowed(_)));
        }
    }
    let copy = result.clone();
    assert_eq!(copy, result);
    assert!(matches!(copy.sentences[0].text, Cow::Borrowed(_)));
}

fn ids(tokens: &[Token]) -> Vec<usize> {
    tokens.iter().map(|t| t.id).collect()
}

fn offsets(tokens: &[Token]) -> Vec<usize> {
    tokens.iter().map(|t| t.offset).collect()
}

#[test]
fn each_token_takes_the_counter_and_raises_it() {
    let mut counter = 1;
    let tokens = tokenize_sentence("อุทฺทิฏฺฐา", 0, &mut counter);
    assert_eq!(ids(&tokens), vec![1]);
    assert_eq!(counter, 2);

    let mut counter = 5;
    let tokens = tokenize_sentence("so bhagavā", 10, &mut counter);
    assert_eq!(ids(&tokens), vec![5, 6]);
    assert_eq!(offsets(&tokens), vec![10, 13]);
    assert_eq!(counter, 7);

    let mut counter = 1;
    let tokens = tokenize_sentence("‘itipi so bhagavā", 0, &mut counter);
    assert_eq!(ids(&tokens), vec![1, 2, 3, 4]);
    assert_eq!(offsets(&tokens), vec![0, 3, 9, 12]);
    assert_eq!(counter, 5);

    let mut counter = 0;
    let tokens = tokenize_sentence("so", 0, &mut counter);
    assert_eq!(ids(&tokens), vec![0]);
    assert_eq!(counter, 1);

    let mut counter = 3;
    let tokens = tokenize_sentence("  ", 0, &mut counter);
    assert!(tokens.is_empty());
    assert_eq!(counter, 3);
}

#[test]
fn merged_runs_end_where_the_depth_returns_to_zero() {
    let mut counter = 1;
    let tokens = tokenize_sentence("x(a b)y", 0, &mut counter);
    assert_eq!(texts(&tokens), vec!["x", "(a b)", "y"]);
    assert_eq!(kinds(&tokens), vec![TokenKind::Word, TokenKind::Merged, TokenKind::Word]);
    assert_eq!(ids(&tokens), vec![1, 2, 3]);
    assert_eq!(offsets(&tokens), vec![0, 1, 6]);

    let mut counter = 1;
    let tokens = tokenize_sentence("(a (b) c) d", 0, &mut counter);
    assert_eq!(texts(&tokens), vec!["(a (b) c)", "d"]);
    assert_eq!(kinds(&tokens), vec![TokenKind::Merged, TokenKind::Word]);
    assert_eq!(ids(&tokens), vec![1, 2]);
    assert_eq!(offsets(&tokens), vec![0, 10]);

    let mut counter = 1;
    let tokens = tokenize_sentence("a) b", 0, &mut counter);
    assert_eq!(texts(&tokens), vec!["a", ")", "b"]);
    assert_eq!(kinds(&tokens), vec![TokenKind::Word, TokenKind::Punctuation, TokenKind::Word]);
    assert_eq!(ids(&tokens), vec![1, 2, 3]);
    assert_eq!(offsets(&tokens), vec![0, 1, 3]);
}

#[test]
fn white_space_only() {
    assert!(is_whitespace_only(""));
    assert!(is_whitespace_only(" \t\r\n\u{a0}\u{3000}"));
    assert!(!is_whitespace_only("  a "));
    assert!(!is_whitespace_only("\u{200b}"));
    assert!(!is_whitespace_only("."));
}

#[test]
fn what_lies_between_sentences_is_white_space() {
    let texts = [" \n Evaṃ me sutaṃ.\n\n \nEkaṃ samayaṃ bhagavā.\n\t \n(1) So.  \n ", PASSAGE];
    for text in texts {
        let result = process_text(text);
        assert!(!result.sentences.is_empty());
        let mut reached = 0;
        for sentence in &result.sentences {
            assert!(!sentence.text.trim().is_empty());
            let start = sentence.tokens[0].offset;
            let start = start - (sentence.text.len() - sentence.text.trim_start().len());
            assert!(start >= reached);
            assert_eq!(&text[start..start + sentence.text.len()], sentence.text.as_ref());
            assert!(text[reached..start].trim().is_empty());
            reached = start + sentence.text.len();
        }
        assert!(text[reached..].trim().is_empty());
    }
}

#[test]
fn iterator_ends_where_only_blank_pieces_are_left() {
    let text = "So.\n\n \n";
    let pieces: Vec<(usize, &str)> = text.split_sentence_bound_indices().collect();
    assert!(pieces.len() > 1);
    let mut iterator = SentenceIterator::from_pieces(text, pieces);
    assert!(iterator.next().is_some());
    assert!(iterator.next().is_none());
}
