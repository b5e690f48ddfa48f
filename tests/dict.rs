use word_puzzle::count::{CountError, CountSet};
use word_puzzle::dict::Dictionary;

#[test]
fn sanity_check() {
    let mut dict = Dictionary::new();
    dict.add("ladies").unwrap();
    dict.add("and").unwrap();
    dict.add("gentlemen").unwrap();

    assert_eq!(dict.len(), 3);
}

#[test]
fn no_duplicates() {
    let mut dict = Dictionary::new();
    dict.add("the").unwrap();
    dict.add("mitochondria").unwrap();
    dict.add("is").unwrap();
    dict.add("the").unwrap();
    dict.add("powerhouse").unwrap();
    dict.add("of").unwrap();
    dict.add("the").unwrap();
    dict.add("cell").unwrap();

    // the, mitochondria, is, powerhouse, of, cell
    assert_eq!(dict.len(), 6);
}

#[test]
fn errors() {
    let mut dict = Dictionary::new();
    let err = dict.add("brøther").unwrap_err();

    match err {
        CountError::NotAscii => {}
        _ => panic!("Wrong 'not_ascii' error!"),
    }

    dict.add("may").unwrap();
    dict.add("i").unwrap();
    dict.add("have").unwrap();
    dict.add("some").unwrap();

    let err = dict.add("lööps").unwrap_err();

    match err {
        CountError::NotAscii => {}
        _ => panic!("Wrong 'not_ascii' error!"),
    }

    assert_eq!(dict.len(), 4);
}

#[test]
fn duplicates_after_distinct_words() {
    let mut dict = Dictionary::new();
    for w in ["alpha", "beta", "gamma"] {
        dict.add(w).unwrap();
    }
    let text_before = dict.word_string().to_string();
    for w in ["beta", "alpha", "beta", "gamma"] {
        dict.add(w).unwrap();
    }
    assert_eq!(dict.len(), 3);
    assert_eq!(dict.word_string(), text_before);
}

#[test]
fn failed_add_changes_nothing() {
    let mut dict = Dictionary::new();
    dict.add("one").unwrap();
    assert_eq!(dict.add("tw0").unwrap_err(), CountError::NotAlphabetic);
    assert_eq!(dict.add("ooooooooooooooooo").unwrap_err(), CountError::CountOverflow);
    assert_eq!(dict.len(), 1);
    assert_eq!(dict.word_string(), "one");
}

#[test]
fn words_are_appended_to_one_buffer() {
    let mut dict = Dictionary::new();
    dict.add("cat").unwrap();
    dict.add("Dog").unwrap();
    dict.add("dog").unwrap();
    assert_eq!(dict.word_string(), "catDogdog");
    assert_eq!(dict.len(), 3);
    let records = dict.word_count();
    assert_eq!(records[0].0, (0, 3));
    assert_eq!(records[1].0, (3, 3));
    assert_eq!(records[2].0, (6, 3));
    assert_eq!(records[1].1, CountSet::from_word("dog").unwrap());
    let e = dict.entry(1);
    assert_eq!(e.word, "Dog");
    assert_eq!(*e.count_set, CountSet::from_word("DOG").unwrap());
}

#[test]
fn empty_dictionary() {
    let dict = Dictionary::new();
    assert_eq!(dict.len(), 0);
    assert_eq!(dict.word_string(), "");
}
