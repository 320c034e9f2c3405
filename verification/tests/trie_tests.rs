use spell_corrector::trie::DictError;
use spell_corrector::trie::Node;
use spell_corrector::trie::Trie;

fn setup() -> (Trie, Trie) {
    let trie1 = Trie::new();
    let trie2 = Trie::new();

    (trie1, trie2)
}

#[test]
fn test_single_word() {
    let mut pair = setup();
    let trie1 = &mut pair.0;

    assert_eq!(trie1.get_word_count(), 0, "Incorrect word count on empty trie.");
    trie1.add(&"cares".to_string()).unwrap();
    assert!(trie1.find(&"cares".to_string()).is_some(), "First word added wasn't found (\"cares\")");
    assert_eq!(6, trie1.get_node_count(), "Incorrect node count after 1 add");
    assert_eq!(1, trie1.get_word_count(), "Incorrect word count after 1 add");
}

#[test]
fn test_two_words() {
    let mut pair = setup();
    let trie1 = &mut pair.0;

    trie1.add(&"cares".to_string()).unwrap();
    trie1.add(&"caress".to_string()).unwrap();
    assert!(
        trie1.find(&"caress".to_string()).is_some(),
        "Second word added wasn't found (\"caress\")"
    );
    assert_eq!(7, trie1.get_node_count(), "Incorrect node count after second add");
    assert_eq!(2, trie1.get_word_count(), "Incorrect word count after 2 adds");
}

#[test]
fn test_new_path() {
    let mut pair = setup();
    let trie1 = &mut pair.0;

    trie1.add(&"cares".to_string()).unwrap();
    trie1.add(&"caress".to_string()).unwrap();
    trie1.add(&"baboon".to_string()).unwrap();
    assert!(trie1.find(&"baboon".to_string()).is_some(), "New word added not found (\"baboon\")");
    assert_eq!(13, trie1.get_node_count(), "Incorrect node count after adding completely new word");
    assert_eq!(3, trie1.get_word_count(), "Incorrect word count after 3 adds");
}

#[test]
fn test_prefix() {
    let mut pair = setup();
    let trie1 = &mut pair.0;

    trie1.add(&"cares".to_string()).unwrap();
    trie1.add(&"caress".to_string()).unwrap();
    trie1.add(&"baboon".to_string()).unwrap();
    trie1.add(&"car".to_string()).unwrap();
    assert!(trie1.find(&"car".to_string()).is_some(), "Prefix of first word not found (\"car\")");
    assert_eq!(13, trie1.get_node_count(), "Incorrect node count after adding no new nodes");
    assert_eq!(4, trie1.get_word_count(), "Incorrect word count after 4 adds");
}

#[test]
fn test_equals() {
    let mut pair = setup();
    let trie1 = &mut pair.0;
    let trie2 = &mut pair.1;

    trie1.add(&"cares".to_string()).unwrap();
    trie1.add(&"caress".to_string()).unwrap();
    trie1.add(&"baboon".to_string()).unwrap();

    trie2.add(&"cares".to_string()).unwrap();
    trie2.add(&"caress".to_string()).unwrap();
    trie2.add(&"baboon".to_string()).unwrap();

    trie1.add(&"car".to_string()).unwrap();
    assert_eq!(trie1, trie1, "Trie found not equal to itself");
    assert_ne!(
        trie2, trie1,
        "Unequal Trie objects found equal (trie1 has word \"car\", where other trie doesn't)"
    );

    trie2.add(&"car".to_string()).unwrap();

    assert_eq!(trie2, trie1, "Equal Trie objects found unequal");
    assert_eq!(trie2 == trie1, trie1 == trie2, "Trie's == operator is not commutative");

    trie2.add(&"car".to_string()).unwrap();

    assert_ne!(
        trie2, trie1,
        "Unequal trie objects found equal (both have word \"car\", but word frequency is different)"
    );
}

#[test]
fn test_more_equals() {
    let mut pair = setup();
    let trie1 = &mut pair.0;
    let trie2 = &mut pair.1;

    assert_eq!(trie2, trie1, "Two empty tries not found equal");

    for c in 'a'..='z' {
        trie1.add(&c.to_string()).unwrap();
    }

    assert_ne!(trie1, trie2, "One empty trie found equal to un-empty trie.");
    assert_ne!(trie2, trie1, "One empty trie found equal to un-empty trie.");

    for c in 'a'..='z' {
        trie2.add(&c.to_string()).unwrap();
    }

    assert_eq!(trie2, trie1, "Tries with a-z on root found unequal");

    trie1.add(&"jack".to_string()).unwrap();
    trie1.add(&"jackson".to_string()).unwrap();
    trie1.add(&"jackblack".to_string()).unwrap();
    trie1.add(&"janitor".to_string()).unwrap();
    trie2.add(&"jack".to_string()).unwrap();
    trie2.add(&"jackson".to_string()).unwrap();
    trie2.add(&"jackblack".to_string()).unwrap();
    trie2.add(&"janitor".to_string()).unwrap();

    assert_eq!(trie2, trie1, "Two equal branching tries found un-equal");

    trie1.add(&"jackblanco".to_string()).unwrap();

    assert_ne!(trie1, trie2, "Two un-equal branching tries found equal.");
    assert_ne!(trie2, trie1, "Two un-equal branching tries found equal.");
}

#[test]
fn test_duplicate_nodes() {
    let mut pair = setup();
    let trie1 = &mut pair.0;

    trie1.add(&"cares".to_string()).unwrap();
    trie1.add(&"caress".to_string()).unwrap();
    trie1.add(&"baboon".to_string()).unwrap();
    trie1.add(&"car".to_string()).unwrap();
    trie1.add(&"car".to_string()).unwrap();

    assert_eq!(13, trie1.get_node_count(), "Incorrect node count after duplicate nodes");
    assert_eq!(4, trie1.get_word_count(), "Incorrect word count after duplicate adds");
}

#[test]
fn test_find() {
    let mut pair = setup();
    let trie1 = &mut pair.0;

    trie1.add(&"cares".to_string()).unwrap();
    trie1.add(&"caress".to_string()).unwrap();
    trie1.add(&"baboon".to_string()).unwrap();
    trie1.add(&"car".to_string()).unwrap();
    trie1.add(&"car".to_string()).unwrap();

    assert_eq!(
        trie1.find(&"vnjklnasldkgnmb".to_string()).is_none(),
        true,
        "Found nonsense word (should have returned None)"
    );
    assert_eq!(
        trie1.find(&"caresses".to_string()).is_none(),
        true,
        "Found \"caresses\" (chould have returned None)"
    );
    assert_eq!(
        trie1.find(&'c'.to_string()).is_none(),
        true,
        "Found first letter of first word (chould have returned None)"
    );
    assert_eq!(
        trie1.find(&"ca".to_string()).is_none(),
        true,
        "Found \"ca\" (prefix of first word) (chould have returned None)"
    );
    assert_eq!(
        trie1.find(&"care".to_string()).is_none(),
        true,
        "Found \"care\" (prefix of first word) (chould have returned None)"
    );
}

#[test]
fn test_hash_code() {
    let mut pair = setup();
    let trie1 = &mut pair.0;
    let trie2 = &mut pair.1;

    trie1.add(&"cares".to_string()).unwrap();
    trie1.add(&"caress".to_string()).unwrap();
    trie1.add(&"baboon".to_string()).unwrap();
    trie1.add(&"car".to_string()).unwrap();
    trie1.add(&"car".to_string()).unwrap();

    trie2.add(&"cares".to_string()).unwrap();
    trie2.add(&"caress".to_string()).unwrap();
    trie2.add(&"baboon".to_string()).unwrap();
    trie2.add(&"car".to_string()).unwrap();
    trie2.add(&"car".to_string()).unwrap();

    assert_eq!(
        trie1.hash_code(),
        trie1.hash_code(),
        "Same Trie does not return the same hash code"
    );
    assert_eq!(
        trie2.hash_code(),
        trie1.hash_code(),
        "Equal Trie object return uneqaul hash codes"
    );
}

#[test]
fn test_more_hash_code() {
    let mut pair = setup();
    let trie1 = &mut pair.0;
    let trie2 = &mut pair.1;

    trie1.add(&"dat".to_string()).unwrap();
    trie2.add(&"far".to_string()).unwrap();
    assert_ne!(
        trie2.hash_code(),
        trie1.hash_code(),
        "The hash code is too simple. Different Tries return same hash code"
    );

    trie2.add(&"dat".to_string()).unwrap();
    trie1.add(&"far".to_string()).unwrap();
    assert_eq!(
        trie2.hash_code(),
        trie1.hash_code(),
        "Equal Tries of different construction history return different hash code"
    );

    trie2.add(&"da".to_string()).unwrap();
    assert_ne!(
        trie2.hash_code(),
        trie1.hash_code(),
        "Tries of differing word cound return same hash code."
    );

    trie1.add(&"date".to_string()).unwrap();
    assert_ne!(
        trie2.hash_code(),
        trie1.hash_code(),
        "Tries of differing node count return same hash code"
    );

    trie1.add(&"d".to_string()).unwrap();
    assert_ne!(
        trie2.hash_code(),
        trie1.hash_code(),
        "Different tries of same node count and word count return same hash code"
    );
}

#[test]
fn test_to_string() {
    let mut pair = setup();
    let trie1 = &mut pair.0;
    let trie2 = &mut pair.1;

    const TRIE_STRING: &str = "baboon\ncar\ncares\ncaress";
    const WRONG_TRIE_STRING: &str = "baboon\ncar\ncar\ncares\ncaress";

    trie1.add(&"cares".to_string()).unwrap();
    trie1.add(&"caress".to_string()).unwrap();
    trie1.add(&"baboon".to_string()).unwrap();
    trie1.add(&"car".to_string()).unwrap();
    trie1.add(&"car".to_string()).unwrap();

    trie2.add(&"cares".to_string()).unwrap();
    trie2.add(&"caress".to_string()).unwrap();
    trie2.add(&"baboon".to_string()).unwrap();
    trie2.add(&"car".to_string()).unwrap();
    trie2.add(&"car".to_string()).unwrap();

    assert_ne!(
        trie1.to_string().to_lowercase() == WRONG_TRIE_STRING
            || trie1.to_string().to_lowercase() == WRONG_TRIE_STRING.to_owned() + "\n",
        true,
        "Trie to_string() method has wrong count for (\"car\")"
    );

    assert_eq!(
        trie1.to_string().to_lowercase() == TRIE_STRING
            || trie1.to_string().to_lowercase() == TRIE_STRING.to_owned() + "\n",
        true,
        "Trie to_string() method returns incorrect String\n\n"
    );
    assert_eq!(
        trie1.to_string().to_lowercase() == trie2.to_string().to_lowercase(),
        true,
        "Equal Trie objects' to_string() methods return different Strings"
    );
}

#[test]
fn test_insert_frequency() {
    let mut trie = Trie::new();
    trie.add(&"yea".to_string()).unwrap();
    let node = trie.find(&"yea".to_string()).expect("word just added must be found");
    assert_eq!(1, node.get_freq(), "First insertion must give frequency 1");

    trie.add(&"yea".to_string()).unwrap();
    let node = trie.find(&"yea".to_string()).expect("word added twice must be found");
    assert_eq!(2, node.get_freq(), "Second insertion must give frequency 2");
    assert_eq!(1, trie.get_word_count(), "Re-insertion must not change the word count");
}

#[test]
fn test_insertion_order_equality() {
    let mut trie1 = Trie::new();
    let mut trie2 = Trie::new();

    for word in ["cares", "baboon", "car", "car", "caress"] {
        trie1.add(&word.to_string()).unwrap();
    }
    for word in ["car", "caress", "baboon", "car", "cares"] {
        trie2.add(&word.to_string()).unwrap();
    }

    assert_eq!(trie1.get_word_count(), trie2.get_word_count());
    assert_eq!(trie1.get_node_count(), trie2.get_node_count());
    assert_eq!(trie1, trie2, "Same words in another order must build an equal trie");
    assert_eq!(trie1.to_string(), trie2.to_string());
}

#[test]
fn test_invalid_character() {
    let mut trie = Trie::new();
    assert_eq!(Err(DictError::InvalidCharacter), trie.add(&"word.".to_string()));
    assert_eq!(Err(DictError::InvalidCharacter), trie.add(&"nu13".to_string()));
    assert_eq!(1, trie.get_node_count(), "A rejected word must not change the trie");
    assert_eq!(0, trie.get_word_count(), "A rejected word must not be counted");
    assert!(trie.find(&"word.".to_string()).is_none());
}

#[test]
fn test_case_folding() {
    let mut trie = Trie::new();
    trie.add(&"CARES".to_string()).unwrap();
    trie.add(&"cares".to_string()).unwrap();
    let node = trie.find(&"CaReS".to_string()).expect("case must not matter");
    assert_eq!(2, node.get_freq());
    assert_eq!(1, trie.get_word_count());
}

#[test]
fn test_empty_word() {
    let mut trie = Trie::new();
    trie.add(&"".to_string()).unwrap();
    assert_eq!(1, trie.get_node_count(), "Adding the empty word must not create nodes");
    assert_eq!(0, trie.get_word_count(), "The empty word is never stored");
    assert!(trie.find(&"".to_string()).is_none());
    assert_eq!("", trie.to_string(), "An empty trie lists no words");
}

#[test]
fn test_node_accessors() {
    let mut node = Node::new('q');
    assert_eq!('q', node.get_value());
    assert_eq!(0, node.get_freq());
    assert_eq!(26, node.get_children().len());
    assert!(node.get_children().iter().all(|slot| slot.is_none()));
    node.increment_freq();
    assert_eq!(1, node.get_freq());
}

#[test]
fn test_to_string_last_letter() {
    let mut trie = Trie::new();
    trie.add(&"zap".to_string()).unwrap();
    trie.add(&"az".to_string()).unwrap();
    trie.add(&"apple".to_string()).unwrap();
    assert_eq!(
        "apple\naz\nzap",
        trie.to_string(),
        "The listing must cover the whole alphabet in ascending order"
    );
}

#[test]
fn test_equals_last_letter() {
    let mut trie1 = Trie::new();
    let mut trie2 = Trie::new();
    trie1.add(&"za".to_string()).unwrap();
    trie2.add(&"zb".to_string()).unwrap();
    assert_eq!(trie1.get_node_count(), trie2.get_node_count());
    assert_eq!(trie1.get_word_count(), trie2.get_word_count());
    assert_ne!(trie1, trie2, "Tries differing only below the last letter must compare unequal");
}
