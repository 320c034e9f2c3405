use spell_corrector::letters::{lex_le_word, letter_char, letter_str, normalize, word_to_string};

#[test]
fn test_normalize_folds_case() {
    assert_eq!(Some(vec![0u8, 1, 2]), normalize("Abc"));
    assert_eq!(Some(vec![24u8, 4, 0]), normalize("yea"));
    assert_eq!(Some(vec![24u8, 4, 0]), normalize("YEA"));
    assert_eq!(Some(Vec::new()), normalize(""));
}

#[test]
fn test_normalize_rejects_nonletters() {
    assert_eq!(None, normalize("a b"));
    assert_eq!(None, normalize("word."));
    assert_eq!(None, normalize("nu13"));
    assert_eq!(None, normalize("caf\u{e9}"));
}

#[test]
fn test_letter_round_trip() {
    assert_eq!("a", letter_str(0));
    assert_eq!("z", letter_str(25));
    assert_eq!('q', letter_char(16));
    assert_eq!("yea", word_to_string(&vec![24u8, 4, 0]));
}

#[test]
fn test_lex_order() {
    let yea = vec![24u8, 4, 0];
    let yeah = vec![24u8, 4, 0, 7];
    let yeahs = vec![24u8, 4, 0, 7, 18];
    assert!(lex_le_word(&yea, &yeah), "a prefix sorts first");
    assert!(!lex_le_word(&yeah, &yea));
    assert!(lex_le_word(&yeah, &yeahs));
    assert!(lex_le_word(&yeah, &yeah), "the order is reflexive");
}
