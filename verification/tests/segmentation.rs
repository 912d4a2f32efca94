use pli_segmenter::segmenter::process_text;
use pli_segmenter::types::TokenKind;

#[test]
fn test_segmentation_logic() {
    let text = "1. Tena samayena buddho bhagavā verañjāyaṃ viharati naḷerupucimandamūle mahatā bhikkhusaṅghena saddhiṃ pañcamattehi bhikkhusatehi. Assosi kho verañjo brāhmaṇo – ‘‘samaṇo khalu, bho, gotamo sakyaputto sakyakulā pabbajito verañjāyaṃ viharati naḷerupucimandamūle mahatā bhikkhusaṅghena saddhiṃ pañcamattehi bhikkhusatehi. Taṃ kho pana bhavantaṃ gotamaṃ evaṃ kalyāṇo kittisaddo abbhuggato – ‘itipi so bhagavā arahaṃ sammāsambuddho vijjācaraṇasampanno sugato lokavidū anuttaro purisadammasārathi satthā devamanussānaṃ buddho bhagavā [bhagavāti (syā.), dī. ni. 1.157, abbhuggatākārena pana sameti]. So imaṃ lokaṃ sadevakaṃ samārakaṃ sabrahmakaṃ sassamaṇabrāhmaṇiṃ pajaṃ sadevamanussaṃ sayaṃ abhiññā sacchikatvā pavedeti. So dhammaṃ deseti ādikalyāṇaṃ majjhekalyāṇaṃ pariyosānakalyāṇaṃ sātthaṃ sabyañjanaṃ; kevalaparipuṇṇaṃ parisuddhaṃ brahmacariyaṃ pakāseti; sādhu kho pana tathārūpānaṃ arahataṃ dassanaṃ hotī’’’ti.";

    let result = process_text(text);

    assert!(!result.sentences.is_empty());
    println!("Sentences found: {}", result.sentences.len());

    for sent in result.sentences {
        println!("sentence tokens: {}", sent.tokens.len());
        for token in &sent.tokens {
            println!("Token: {:?} ({:?})", token.text, token.kind);
        }
    }
}

#[test]
fn test_thai_segmentation() {
    let text = "อุทฺทิฏฺฐา";
    let result = process_text(text);

    assert_eq!(result.sentences.len(), 1);
    let tokens = &result.sentences[0].tokens;

    assert_eq!(tokens.len(), 1);
    assert_eq!(tokens[0].text, "อุทฺทิฏฺฐา");
    assert_eq!(tokens[0].kind, TokenKind::Word);
}

#[test]
fn test_quote_segmentation() {
    let text = "‘itipi so bhagavā";
    let result = process_text(text);

    assert_eq!(result.sentences.len(), 1);
    let tokens = &result.sentences[0].tokens;

    assert!(
        tokens.len() > 1,
        "Should have multiple tokens, got {}",
        tokens.len()
    );

    let words: Vec<&str> = tokens
        .iter()
        .filter(|t| t.kind == TokenKind::Word)
        .map(|t| t.text.as_ref())
        .collect();

    assert_eq!(words, vec!["itipi", "so", "bhagavā"]);
}

#[test]
fn test_bracket_sentence_merging() {
    let text = "[bhagavāti (syā.), dī. ni. 1.157, abbhuggatākārena pana sameti].";
    let result = process_text(text);

    println!("Sentences found: {}", result.sentences.len());
    for (i, sent) in result.sentences.iter().enumerate() {
        println!("Sentence {}: {}", i, sent.text);
    }

    assert_eq!(
        result.sentences.len(),
        1,
        "Should be 1 sentence, found {}",
        result.sentences.len()
    );
}

#[test]
fn test_burmese_list_segmentation() {
    let text = "၁။ တေန သမယေန ဗုဒ္ဓေါ ဘဂဝါ ဝေရဉ္ဇာယံ ဝိဟရတိ။";
    let result = process_text(text);

    println!("Sentences found: {}", result.sentences.len());
    for (i, sent) in result.sentences.iter().enumerate() {
        println!("Sentence {}: {}", i, sent.text);
    }

    assert_eq!(
        result.sentences.len(),
        1,
        "Should be 1 sentence, found {}",
        result.sentences.len()
    );
}
