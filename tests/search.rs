use word_puzzle::count::CountError;
use word_puzzle::dict::Dictionary;
use word_puzzle::search::search;

fn dictionary(words: &[&str]) -> Dictionary {
    let mut dict = Dictionary::new();
    for w in words {
        dict.add(w).unwrap();
    }
    dict
}

#[test]
fn hello_finds_only_hello() {
    // "held" needs a 'd' and "world" needs 'w', 'r' and 'd': "hello" has none.
    let dict = dictionary(&["hello", "world", "held"]);
    let words = search(&dict, "hello", 3, None).unwrap();
    assert_eq!(words, vec!["hello".to_string()]);
    let words = search(&dict, "helload", 3, None).unwrap();
    assert_eq!(words, vec!["held".to_string(), "hello".to_string()]);
}

#[test]
fn length_bounds_are_inclusive() {
    let dict = dictionary(&["a", "at", "tab", "bat", "abbot"]);
    assert_eq!(search(&dict, "tabob", 2, Some(3)).unwrap(), vec!["at", "bat", "tab"]);
    assert_eq!(search(&dict, "tabob", 3, Some(3)).unwrap(), vec!["bat", "tab"]);
    assert_eq!(search(&dict, "tabob", 0, None).unwrap(), vec!["a", "abbot", "at", "bat", "tab"]);
    assert_eq!(search(&dict, "tabob", 6, None).unwrap(), Vec::<String>::new());
}

#[test]
fn results_sort_by_bytes() {
    let dict = dictionary(&["b", "B", "a", "A"]);
    assert_eq!(search(&dict, "ab", 1, None).unwrap(), vec!["A", "B", "a", "b"]);
}

#[test]
fn bad_query_fails() {
    let dict = dictionary(&["hello"]);
    assert_eq!(search(&dict, "he llo", 3, None).unwrap_err(), CountError::NotAlphabetic);
    assert_eq!(search(&dict, "hé", 3, None).unwrap_err(), CountError::NotAscii);
}

#[test]
fn empty_dictionary_finds_nothing() {
    let dict = Dictionary::new();
    assert!(search(&dict, "anything", 0, None).unwrap().is_empty());
}
