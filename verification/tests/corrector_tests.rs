use spell_corrector::corrector::SpellCorrector;

const WORD_LIST: &[&str] = &["yea"];
const WORDS_LIST: &[&str] = &["float", "yeah", "yeah", "yeahs", "yeahs", "yea"];
const WORD: &str = "yea";

fn setup() -> SpellCorrector {
    SpellCorrector::new()
}

fn test(dictionary: &[&str], word: &str, corrector: &mut SpellCorrector) -> Option<String> {
    let words: Vec<String> = dictionary.iter().map(|w| w.to_string()).collect();
    corrector.use_dictionary_words(&words);

    let suggestion = corrector.suggest_similar_word(word.to_string());

    match suggestion {
        Ok(word) => Some(word),
        Err(_v) => None,
    }
}

fn create_error_message(guess: &str, expected: &str, suggested: &String) -> String {
    format!("Guessed: {} Expected: {} Actual: {}", guess, expected, suggested)
}

#[test]
fn test_valid_word() {
    let mut corrector = setup();

    let suggested_word = test(WORD_LIST, WORD, &mut corrector);
    assert_eq!(WORD, suggested_word.as_ref().unwrap(), "Same spelling of expected word.");

    let suggested_word = test(WORD_LIST, &WORD.to_lowercase(), &mut corrector);
    assert_eq!(WORD, suggested_word.as_ref().unwrap(), "Lower case of expected word.");

    let suggested_word = test(WORD_LIST, &WORD.to_uppercase(), &mut corrector);
    assert_eq!(WORD, suggested_word.as_ref().unwrap(), "Upper case of expected word.");

    let suggested_word = test(WORD_LIST, WORD, &mut corrector);
    assert_eq!(WORD, suggested_word.as_ref().unwrap(), "Same spelling of expected word.");
}

#[test]
fn test_insertion() {
    let mut corrector = setup();

    let guess: &str = "ye";
    let suggested_word = test(WORD_LIST, guess, &mut corrector);
    assert_eq!(
        WORD,
        suggested_word.as_ref().unwrap(),
        "{}",
        create_error_message(guess, WORD, suggested_word.as_ref().unwrap())
    );

    let guess: &str = "ea";
    let suggested_word = test(WORD_LIST, guess, &mut corrector);
    assert_eq!(
        WORD,
        suggested_word.as_ref().unwrap(),
        "{}",
        create_error_message(guess, WORD, suggested_word.as_ref().unwrap())
    );

    let guess: &str = "ya";
    let suggested_word = test(WORD_LIST, guess, &mut corrector);
    assert_eq!(
        WORD,
        suggested_word.as_ref().unwrap(),
        "{}",
        create_error_message(guess, WORD, suggested_word.as_ref().unwrap())
    );
}

#[test]
fn test_deletion() {
    let mut corrector = setup();

    for guess in ["yaea", "ybea", "ryea", "ygea"] {
        let suggested_word = test(WORD_LIST, guess, &mut corrector);
        assert_eq!(
            WORD,
            suggested_word.as_ref().unwrap(),
            "{}",
            create_error_message(guess, WORD, suggested_word.as_ref().unwrap())
        );
    }
}

#[test]
fn test_alteration() {
    let mut corrector = setup();

    let guess: &str = "flobt";
    let suggested_word = test(WORDS_LIST, guess, &mut corrector);
    assert_eq!(
        "float",
        suggested_word.as_ref().unwrap(),
        "{}",
        create_error_message(guess, "float", suggested_word.as_ref().unwrap())
    );

    let guess: &str = "bloat";
    let suggested_word = test(WORDS_LIST, guess, &mut corrector);
    assert_eq!(
        "float",
        suggested_word.as_ref().unwrap(),
        "{}",
        create_error_message(guess, "float", suggested_word.as_ref().unwrap())
    );

    let guess: &str = "reah";
    let suggested_word = test(WORDS_LIST, guess, &mut corrector);
    assert_eq!(
        "yeah",
        suggested_word.as_ref().unwrap(),
        "{}",
        create_error_message(guess, "yeah", suggested_word.as_ref().unwrap())
    );
}

#[test]
fn test_transposition() {
    let mut corrector = setup();

    let guess: &str = "yaeh";
    let suggested_word = test(WORDS_LIST, guess, &mut corrector);
    assert_eq!(
        "yeah",
        suggested_word.as_ref().unwrap(),
        "{}",
        create_error_message(guess, "yeah", suggested_word.as_ref().unwrap())
    );

    let guess: &str = "flaot";
    let suggested_word = test(WORDS_LIST, guess, &mut corrector);
    assert_eq!(
        "float",
        suggested_word.as_ref().unwrap(),
        "{}",
        create_error_message(guess, "float", suggested_word.as_ref().unwrap())
    );
}

#[test]
fn test_insertion_insertion() {
    let mut corrector = setup();

    for guess in ["e", "a", "y"] {
        let suggested_word = test(WORD_LIST, guess, &mut corrector);
        assert_eq!(
            WORD,
            suggested_word.as_ref().unwrap(),
            "{}",
            create_error_message(guess, WORD, suggested_word.as_ref().unwrap())
        );
    }
}

#[test]
fn test_insertion_deletion() {
    let mut corrector = setup();

    for guess in ["yez", "efa", "rya"] {
        let suggested_word = test(WORD_LIST, guess, &mut corrector);
        assert_eq!(
            WORD,
            suggested_word.as_ref().unwrap(),
            "{}",
            create_error_message(guess, WORD, suggested_word.as_ref().unwrap())
        );
    }
}

#[test]
fn test_insertion_alteration() {
    let mut corrector = setup();

    for guess in ["er", "qa", "yf"] {
        let suggested_word = test(WORD_LIST, guess, &mut corrector);
        assert_eq!(
            WORD,
            suggested_word.as_ref().unwrap(),
            "{}",
            create_error_message(guess, WORD, suggested_word.as_ref().unwrap())
        );
    }
}

#[test]
fn test_insertion_transposition() {
    let mut corrector = setup();

    for guess in ["ae", "ey"] {
        let suggested_word = test(WORD_LIST, guess, &mut corrector);
        assert_eq!(
            WORD,
            suggested_word.as_ref().unwrap(),
            "{}",
            create_error_message(guess, WORD, suggested_word.as_ref().unwrap())
        );
    }
}

#[test]
fn test_deletion_insertion() {
    let mut corrector = setup();

    for guess in ["yar", "fya", "yad"] {
        let suggested_word = test(WORD_LIST, guess, &mut corrector);
        assert_eq!(
            WORD,
            suggested_word.as_ref().unwrap(),
            "{}",
            create_error_message(guess, WORD, suggested_word.as_ref().unwrap())
        );
    }
}

#[test]
fn test_deletion_deletion() {
    let mut corrector = setup();

    for guess in ["yeakg", "jkyea", "vyfea", "cyean"] {
        let suggested_word = test(WORD_LIST, guess, &mut corrector);
        assert_eq!(
            WORD,
            suggested_word.as_ref().unwrap(),
            "{}",
            create_error_message(guess, WORD, suggested_word.as_ref().unwrap())
        );
    }
}

#[test]
fn test_deletion_alteration() {
    let mut corrector = setup();

    for guess in ["ydef", "vyga", "ymca"] {
        let suggested_word = test(WORD_LIST, guess, &mut corrector);
        assert_eq!(
            WORD,
            suggested_word.as_ref().unwrap(),
            "{}",
            create_error_message(guess, WORD, suggested_word.as_ref().unwrap())
        );
    }
}

#[test]
fn test_deletion_transposition() {
    let mut corrector = setup();

    for guess in ["yade", "epya", "yame"] {
        let suggested_word = test(WORD_LIST, guess, &mut corrector);
        assert_eq!(
            WORD,
            suggested_word.as_ref().unwrap(),
            "{}",
            create_error_message(guess, WORD, suggested_word.as_ref().unwrap())
        );
    }
}

#[test]
fn test_alteration_insertion() {
    let mut corrector = setup();

    for guess in ["fe", "va", "yy"] {
        let suggested_word = test(WORD_LIST, guess, &mut corrector);
        assert_eq!(
            WORD,
            suggested_word.as_ref().unwrap(),
            "{}",
            create_error_message(guess, WORD, suggested_word.as_ref().unwrap())
        );
    }
}

#[test]
fn test_alteration_deletion() {
    let mut corrector = setup();

    for guess in ["feia", "yqex", "yqax"] {
        let suggested_word = test(WORD_LIST, guess, &mut corrector);
        assert_eq!(
            WORD,
            suggested_word.as_ref().unwrap(),
            "{}",
            create_error_message(guess, WORD, suggested_word.as_ref().unwrap())
        );
    }
}

#[test]
fn test_alteration_alteration() {
    let mut corrector = setup();

    for guess in ["vda", "xel", "yhb"] {
        let suggested_word = test(WORD_LIST, guess, &mut corrector);
        assert_eq!(
            WORD,
            suggested_word.as_ref().unwrap(),
            "{}",
            create_error_message(guess, WORD, suggested_word.as_ref().unwrap())
        );
    }
}

#[test]
fn test_alteration_transposition() {
    let mut corrector = setup();

    for guess in ["yac", "gya", "eja"] {
        let suggested_word = test(WORD_LIST, guess, &mut corrector);
        assert_eq!(
            WORD,
            suggested_word.as_ref().unwrap(),
            "{}",
            create_error_message(guess, WORD, suggested_word.as_ref().unwrap())
        );
    }
}

#[test]
fn test_transposition_insertion() {
    let mut corrector = setup();

    for guess in ["ay", "ae", "ey"] {
        let suggested_word = test(WORD_LIST, guess, &mut corrector);
        assert_eq!(
            WORD,
            suggested_word.as_ref().unwrap(),
            "{}",
            create_error_message(guess, WORD, suggested_word.as_ref().unwrap())
        );
    }
}

#[test]
fn test_transposition_deletion() {
    let mut corrector = setup();

    for guess in ["ycae", "eyae", "eyma"] {
        let suggested_word = test(WORD_LIST, guess, &mut corrector);
        assert_eq!(
            WORD,
            suggested_word.as_ref().unwrap(),
            "{}",
            create_error_message(guess, WORD, suggested_word.as_ref().unwrap())
        );
    }
}

#[test]
fn test_transposition_alteration() {
    let mut corrector = setup();

    for guess in ["yac", "bya", "yle"] {
        let suggested_word = test(WORD_LIST, guess, &mut corrector);
        assert_eq!(
            WORD,
            suggested_word.as_ref().unwrap(),
            "{}",
            create_error_message(guess, WORD, suggested_word.as_ref().unwrap())
        );
    }
}

#[test]
fn test_transposition_transposition() {
    let mut corrector = setup();

    for guess in ["eay", "aye"] {
        let suggested_word = test(WORD_LIST, guess, &mut corrector);
        assert_eq!(
            WORD,
            suggested_word.as_ref().unwrap(),
            "{}",
            create_error_message(guess, WORD, suggested_word.as_ref().unwrap())
        );
    }
}

#[test]
fn test_no_similar_words() {
    let mut corrector = setup();

    let guess: &str = "";
    let suggested_word = test(WORD_LIST, guess, &mut corrector);
    assert!(suggested_word.is_none(), "Guessed empty String");

    let guess: &str = "lol";
    let suggested_word = test(WORD_LIST, guess, &mut corrector);
    assert!(suggested_word.is_none(), "Guessed dissimilar string of same length");

    let guess: &str = "abcdefghijklmnopqrstuvqxyz";
    let suggested_word = test(WORD_LIST, guess, &mut corrector);
    assert!(suggested_word.is_none(), "Guessed dissimilar string of much longer length");
}

#[test]
fn test_choose_closest_word() {
    let mut corrector = setup();

    let suggested_word = test(WORDS_LIST, "ye", &mut corrector);
    assert_eq!("yea", suggested_word.as_ref().unwrap(), "Choosing edit distance one before two");

    let suggested_word = test(WORDS_LIST, "yes", &mut corrector);
    assert_eq!("yea", suggested_word.as_ref().unwrap(), "Choosing edit distance one before two");

    let suggested_word = test(WORDS_LIST, "yeaz", &mut corrector);
    assert_eq!("yeah", suggested_word.as_ref().unwrap(), "Choosing word with higher frequency");

    let suggested_word = test(WORDS_LIST, "yeahj", &mut corrector);
    assert_eq!(
        "yeah",
        suggested_word.as_ref().unwrap(),
        "Choosing first word alphabetically when equal frequency"
    );
}

#[test]
fn test_invalid_query() {
    let mut corrector = setup();

    let suggestion = test(WORD_LIST, "ye.a", &mut corrector);
    assert!(suggestion.is_none(), "A query with a non-letter has no suggestion");

    let words: Vec<String> = WORD_LIST.iter().map(|w| w.to_string()).collect();
    corrector.use_dictionary_words(&words);
    let err = corrector.suggest_similar_word("ye.a".to_string());
    assert_eq!(
        Err("Unable to find word \"ye.a\"".to_string()),
        err,
        "The error must carry the query unchanged inside the message"
    );
}

#[test]
fn test_loader_skips_bad_tokens() {
    let mut corrector = setup();

    let words: Vec<String> =
        ["yea", "", "word.", "YEA", "nu13"].iter().map(|w| w.to_string()).collect();
    corrector.use_dictionary_words(&words);

    let suggestion = corrector.suggest_similar_word("yea".to_string());
    assert_eq!(Ok("yea".to_string()), suggestion, "Valid tokens must be loaded");

    let suggestion = corrector.suggest_similar_word("word".to_string());
    assert!(suggestion.is_err(), "A rejected token must not load a sanitized word");
}

#[test]
fn test_reload_replaces_dictionary() {
    let mut corrector = setup();

    let first: Vec<String> = ["cool"].iter().map(|w| w.to_string()).collect();
    corrector.use_dictionary_words(&first);
    assert_eq!(Ok("cool".to_string()), corrector.suggest_similar_word("cool".to_string()));

    let second: Vec<String> = ["warm"].iter().map(|w| w.to_string()).collect();
    corrector.use_dictionary_words(&second);
    assert!(
        corrector.suggest_similar_word("cool".to_string()).is_err(),
        "A reload must discard the previous dictionary"
    );
}

#[test]
fn test_not_found_message() {
    let mut corrector = setup();

    let words: Vec<String> = WORD_LIST.iter().map(|w| w.to_string()).collect();
    corrector.use_dictionary_words(&words);

    let err = corrector.suggest_similar_word("lol".to_string());
    assert_eq!(Err("Unable to find word \"lol\"".to_string()), err);

    let err = corrector.suggest_similar_word("LOL".to_string());
    assert_eq!(
        Err("Unable to find word \"LOL\"".to_string()),
        err,
        "The message must carry the query before case folding"
    );
}
